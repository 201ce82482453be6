//! Properties of the whole pipeline, stated over the model that the entries
//! build and proved from the definitions.
use vstd::prelude::*;
use crate::entry::{classify_spec, stem_of, RecordKind};
use crate::records::{component_of, coverages_of, duplications_of, issues_of, rules_of, stream_of};
use crate::report::{apply_entries, apply_entry, report_of, ParsedReport, ReportModel};
use crate::wire::{frames_of, varint_at};

verus! {

/// Entry `e` is a unit entry for key `k` whose message decodes.
pub open spec fn unit_entry(e: (Seq<u8>, Seq<u8>), k: Seq<u8>) -> bool {
    classify_spec(stem_of(e.0)) == Some((RecordKind::Unit, k)) && component_of(e.1) is Some
}

/// The report's units are exactly the keys of the unit entries that decode,
/// and under each key stands the component of the last such entry.
pub proof fn lemma_units_last_wins(es: Seq<(Seq<u8>, Seq<u8>)>, k: Seq<u8>)
    ensures
        apply_entries(es).units.contains_key(k) <==> exists|i: int| 0 <= i < es.len() && unit_entry(es[i], k),
        forall|i: int|
            0 <= i < es.len() && unit_entry(#[trigger] es[i], k) && (forall|j: int| i < j < es.len() ==> !unit_entry(es[j], k))
                ==> apply_entries(es).units[k] == component_of(es[i].1)->0,
    decreases es.len(),
{
    if es.len() > 0 {
        let init = es.drop_last();
        lemma_units_last_wins(init, k);
        let e = es.last();
        let n = es.len() - 1;
        assert(es[n] == e);
        assert forall|i: int| 0 <= i < n implies es[i] == init[i] by {}
        if unit_entry(e, k) {
            assert(apply_entries(es).units[k] == component_of(e.1)->0);
        } else {
            assert(apply_entries(es).units.contains_key(k) == apply_entries(init).units.contains_key(k));
            assert(apply_entries(es).units.contains_key(k) ==> apply_entries(es).units[k] == apply_entries(init).units[k]);
            if exists|i: int| 0 <= i < es.len() && unit_entry(es[i], k) {
                let i = choose|i: int| 0 <= i < es.len() && unit_entry(es[i], k);
                assert(i < n);
                assert(unit_entry(init[i], k));
            }
        }
    }
}

/// The report has one component per distinct key among the unit entries
/// that decode.
pub proof fn lemma_unit_count(es: Seq<(Seq<u8>, Seq<u8>)>, r: ParsedReport)
    requires
        report_of(r, apply_entries(es)),
    ensures
        r.components@.len() == Set::new(
            |k: Seq<u8>| exists|i: int| 0 <= i < es.len() && unit_entry(es[i], k),
        ).len(),
{
    let s = Set::new(|k: Seq<u8>| exists|i: int| 0 <= i < es.len() && unit_entry(es[i], k));
    assert forall|k: Seq<u8>| s.contains(k) <==> apply_entries(es).units.dom().contains(k) by {
        lemma_units_last_wins(es, k);
    }
    assert(s =~= apply_entries(es).units.dom());
}

/// Entry `e` is an issue, coverage or duplication entry for key `k`.
pub open spec fn keyed_entry(e: (Seq<u8>, Seq<u8>), k: Seq<u8>) -> bool {
    ||| classify_spec(stem_of(e.0)) == Some((RecordKind::Finding, k))
    ||| classify_spec(stem_of(e.0)) == Some((RecordKind::Coverage, k))
    ||| classify_spec(stem_of(e.0)) == Some((RecordKind::Duplication, k))
}

/// Without an entry of its kind for a key, the key has no issue, coverage or
/// duplication data: absent, which differs from an empty list.
pub proof fn lemma_no_entry_no_data(es: Seq<(Seq<u8>, Seq<u8>)>, k: Seq<u8>)
    requires
        forall|i: int| 0 <= i < es.len() ==> !keyed_entry(#[trigger] es[i], k),
    ensures
        !apply_entries(es).issues.contains_key(k),
        !apply_entries(es).coverages.contains_key(k),
        !apply_entries(es).duplications.contains_key(k),
    decreases es.len(),
{
    if es.len() > 0 {
        let init = es.drop_last();
        assert forall|i: int| 0 <= i < init.len() implies !keyed_entry(#[trigger] init[i], k) by {
            assert(init[i] == es[i]);
        }
        lemma_no_entry_no_data(init, k);
        assert(!keyed_entry(es[es.len() - 1], k));
    }
}

/// An empty coverage entry gives its key an empty list.
pub proof fn lemma_empty_coverage(m: ReportModel, name: Seq<u8>, k: Seq<u8>)
    requires
        classify_spec(stem_of(name)) == Some((RecordKind::Coverage, k)),
    ensures
        coverages_of(Seq::empty()) == Some(Seq::<crate::records::LineCoverageView>::empty()),
        apply_entry(m, name, Seq::empty()).coverages == m.coverages.insert(k, Seq::empty()),
{
}

/// An entry whose records do not all decode changes nothing: its key gets
/// no data from it, and all else stays as it was.
pub proof fn lemma_failed_entry(m: ReportModel, name: Seq<u8>, bytes: Seq<u8>)
    requires
        match classify_spec(stem_of(name)) {
            Some((RecordKind::Unit, _)) => component_of(bytes) is None,
            Some((RecordKind::Finding, _)) => issues_of(bytes) is None,
            Some((RecordKind::Coverage, _)) => coverages_of(bytes) is None,
            Some((RecordKind::Duplication, _)) => duplications_of(bytes) is None,
            Some((RecordKind::RuleActivation, _)) => rules_of(bytes) is None,
            None => true,
        },
    ensures
        apply_entry(m, name, bytes) == m,
{
}

/// A stream whose first length prefix asks for more bytes than follow it does
/// not decode, whatever its kind.
pub proof fn lemma_truncated_stream<T>(s: Seq<u8>, dec: spec_fn(Seq<u8>) -> Option<T>)
    requires
        varint_at(s) matches Some((len, n)) && n + len > s.len(),
    ensures
        frames_of(s) is None,
        stream_of(s, dec) is None,
{
    crate::wire::lemma_varint_at_bounds(s);
}

} // verus!
