//! The report: per-kind keyed collections filled entry by entry, then joined
//! by key into one record per component.
use vstd::prelude::*;
use crate::entry::{classify_entry, classify_spec, stem_of, RecordKind};
use crate::keyed::{
    find_key, keys_sorted, keys_unique, lemma_map_of_at, lemma_sorted_unique, lex_lt, map_of, pairs,
    put, put_sorted, take_key,
};
use crate::records::{
    coverages_of, decode_component, decode_coverages, decode_duplications, decode_issues,
    decode_rules, duplications_of, component_of, issues_of, rules_of, ActiveRule, ActiveRuleView,
    Component, ComponentView, Duplication, DuplicationView, Issue, IssueView, LineCoverage,
    LineCoverageView,
};

verus! {

/// One component of the report with what the archive holds for its key; a
/// list is `None` where no entry of its kind decoded for the key.
pub struct ParsedComponent {
    pub component: Component,
    pub issues: Option<Vec<Issue>>,
    pub coverages: Option<Vec<LineCoverage>>,
    pub duplications: Option<Vec<Duplication>>,
}

impl ParsedComponent {
    pub fn new(
        component: Component,
        issues: Option<Vec<Issue>>,
        coverages: Option<Vec<LineCoverage>>,
        duplications: Option<Vec<Duplication>>,
    ) -> (r: Self)
        ensures
            r.component == component,
            r.issues == issues,
            r.coverages == coverages,
            r.duplications == duplications,
    {
        ParsedComponent { component, issues, coverages, duplications }
    }
}

/// The assembled report: how many active rules each rule repository has, and
/// the components in ascending order of key.
pub struct ParsedReport {
    pub rules: Vec<(Vec<u8>, u64)>,
    pub components: Vec<ParsedComponent>,
}

impl ParsedReport {
    pub fn new(rules: Vec<(Vec<u8>, u64)>, components: Vec<ParsedComponent>) -> (r: Self)
        ensures
            r.rules == rules,
            r.components == components,
    {
        ParsedReport { rules, components }
    }
}

/// What the entries read so far amount to: the component, issues, coverage
/// and duplications under each key, and the number of active rules of each
/// rule repository.
pub struct ReportModel {
    pub units: Map<Seq<u8>, ComponentView>,
    pub issues: Map<Seq<u8>, Seq<IssueView>>,
    pub coverages: Map<Seq<u8>, Seq<LineCoverageView>>,
    pub duplications: Map<Seq<u8>, Seq<DuplicationView>>,
    pub rules: Map<Seq<u8>, nat>,
}

pub open spec fn empty_model() -> ReportModel {
    ReportModel {
        units: Map::empty(),
        issues: Map::empty(),
        coverages: Map::empty(),
        duplications: Map::empty(),
        rules: Map::empty(),
    }
}

/// One more activation, held at the largest count a `u64` takes.
pub open spec fn bump(n: nat) -> nat {
    if n < u64::MAX { n + 1 } else { n }
}

/// The counts after one more activation of each rule, in order.
pub open spec fn count_rules(m: Map<Seq<u8>, nat>, rs: Seq<ActiveRuleView>) -> Map<Seq<u8>, nat>
    decreases rs.len(),
{
    if rs.len() == 0 {
        m
    } else {
        let before = count_rules(m, rs.drop_last());
        let repo = rs.last();
        before.insert(repo, bump(if before.contains_key(repo) { before[repo] } else { 0 }))
    }
}

/// What one archive entry does: by the kind that its name gives, its decoded
/// records replace what stood under its key (active rules are counted
/// instead); an entry that does not decode, or whose name is not recognised,
/// changes nothing.
pub open spec fn apply_entry(m: ReportModel, name: Seq<u8>, bytes: Seq<u8>) -> ReportModel {
    match classify_spec(stem_of(name)) {
        Some((RecordKind::Unit, k)) => match component_of(bytes) {
            Some(c) => ReportModel { units: m.units.insert(k, c), ..m },
            None => m,
        },
        Some((RecordKind::Finding, k)) => match issues_of(bytes) {
            Some(v) => ReportModel { issues: m.issues.insert(k, v), ..m },
            None => m,
        },
        Some((RecordKind::Coverage, k)) => match coverages_of(bytes) {
            Some(v) => ReportModel { coverages: m.coverages.insert(k, v), ..m },
            None => m,
        },
        Some((RecordKind::Duplication, k)) => match duplications_of(bytes) {
            Some(v) => ReportModel { duplications: m.duplications.insert(k, v), ..m },
            None => m,
        },
        Some((RecordKind::RuleActivation, _)) => match rules_of(bytes) {
            Some(rs) => ReportModel { rules: count_rules(m.rules, rs), ..m },
            None => m,
        },
        None => m,
    }
}

/// What a sequence of entries, named and read in order, amounts to.
pub open spec fn apply_entries(es: Seq<(Seq<u8>, Seq<u8>)>) -> ReportModel
    decreases es.len(),
{
    if es.len() == 0 {
        empty_model()
    } else {
        apply_entry(apply_entries(es.drop_last()), es.last().0, es.last().1)
    }
}

pub open spec fn issues_view(v: Vec<Issue>) -> Seq<IssueView> {
    v@.map_values(|x: Issue| x@)
}

pub open spec fn coverages_view(v: Vec<LineCoverage>) -> Seq<LineCoverageView> {
    v@.map_values(|x: LineCoverage| x@)
}

pub open spec fn duplications_view(v: Vec<Duplication>) -> Seq<DuplicationView> {
    v@.map_values(|x: Duplication| x@)
}

pub open spec fn opt_issues(o: Option<Vec<Issue>>) -> Option<Seq<IssueView>> {
    match o {
        Some(v) => Some(issues_view(v)),
        None => None,
    }
}

pub open spec fn opt_coverages(o: Option<Vec<LineCoverage>>) -> Option<Seq<LineCoverageView>> {
    match o {
        Some(v) => Some(coverages_view(v)),
        None => None,
    }
}

pub open spec fn opt_duplications(o: Option<Vec<Duplication>>) -> Option<Seq<DuplicationView>> {
    match o {
        Some(v) => Some(duplications_view(v)),
        None => None,
    }
}

/// `pc` is the component under key `k` joined with whatever the model holds
/// under that key.
pub open spec fn component_joined(pc: ParsedComponent, m: ReportModel, k: Seq<u8>) -> bool {
    &&& m.units.contains_key(k)
    &&& pc.component@ == m.units[k]
    &&& opt_issues(pc.issues) == m.issues.get(k)
    &&& opt_coverages(pc.coverages) == m.coverages.get(k)
    &&& opt_duplications(pc.duplications) == m.duplications.get(k)
}

/// The components of `r` are those of `m` under the keys `ks`, which are
/// all of the model's unit keys, in strictly ascending order.
pub open spec fn joined_by(r: ParsedReport, m: ReportModel, ks: Seq<Seq<u8>>) -> bool {
    &&& ks.len() == r.components@.len()
    &&& forall|i: int, j: int| 0 <= i < j < ks.len() ==> lex_lt(ks[i], ks[j])
    &&& ks.to_set() == m.units.dom()
    &&& forall|i: int| 0 <= i < ks.len() ==> component_joined(#[trigger] r.components@[i], m, ks[i])
}

/// `r` is the report that the model assembles to: one component per unit
/// key, in ascending order of key, each with the data under its key (data
/// under other keys is left out), and the rule counts.
pub open spec fn report_of(r: ParsedReport, m: ReportModel) -> bool {
    &&& r.components@.len() == m.units.dom().len()
    &&& exists|ks: Seq<Seq<u8>>| joined_by(r, m, ks)
    &&& keys_unique(pairs(r.rules@))
    &&& map_of(pairs(r.rules@)).map_values(|n: u64| n as nat) == m.rules
}

/// The records that one entry decodes to, by kind.
pub enum Decoded {
    Unit(Component),
    Findings(Vec<Issue>),
    Coverages(Vec<LineCoverage>),
    Duplications(Vec<Duplication>),
    Rules(Vec<ActiveRule>),
}

/// Decodes an entry's bytes as its kind asks: one whole message for a unit,
/// a length-delimited stream for the other kinds; `None` where that fails.
pub fn parse_proto_file(buf: &[u8], kind: RecordKind) -> (r: Option<Decoded>)
    ensures
        match kind {
            RecordKind::Unit => match component_of(buf@) {
                Some(c) => r matches Some(Decoded::Unit(d)) && d@ == c,
                None => r is None,
            },
            RecordKind::Finding => match issues_of(buf@) {
                Some(v) => r matches Some(Decoded::Findings(d)) && issues_view(d) == v,
                None => r is None,
            },
            RecordKind::Coverage => match coverages_of(buf@) {
                Some(v) => r matches Some(Decoded::Coverages(d)) && coverages_view(d) == v,
                None => r is None,
            },
            RecordKind::Duplication => match duplications_of(buf@) {
                Some(v) => r matches Some(Decoded::Duplications(d)) && duplications_view(d) == v,
                None => r is None,
            },
            RecordKind::RuleActivation => match rules_of(buf@) {
                Some(v) => r matches Some(Decoded::Rules(d)) && d@.map_values(|x: ActiveRule| x@) == v,
                None => r is None,
            },
        },
{
    match kind {
        RecordKind::Unit => match decode_component(buf) {
            Some(c) => Some(Decoded::Unit(c)),
            None => None,
        },
        RecordKind::Finding => match decode_issues(buf) {
            Some(v) => Some(Decoded::Findings(v)),
            None => None,
        },
        RecordKind::Coverage => match decode_coverages(buf) {
            Some(v) => Some(Decoded::Coverages(v)),
            None => None,
        },
        RecordKind::Duplication => match decode_duplications(buf) {
            Some(v) => Some(Decoded::Duplications(v)),
            None => None,
        },
        RecordKind::RuleActivation => match decode_rules(buf) {
            Some(v) => Some(Decoded::Rules(v)),
            None => None,
        },
    }
}

/// The per-kind collections, filled one archive entry after another.
pub struct Aggregator {
    units: Vec<(Vec<u8>, Component)>,
    issues: Vec<(Vec<u8>, Vec<Issue>)>,
    coverages: Vec<(Vec<u8>, Vec<LineCoverage>)>,
    duplications: Vec<(Vec<u8>, Vec<Duplication>)>,
    rules: Vec<(Vec<u8>, u64)>,
}

impl View for Aggregator {
    type V = ReportModel;

    closed spec fn view(&self) -> ReportModel {
        ReportModel {
            units: map_of(pairs(self.units@)).map_values(|c: Component| c@),
            issues: map_of(pairs(self.issues@)).map_values(|v: Vec<Issue>| issues_view(v)),
            coverages: map_of(pairs(self.coverages@)).map_values(|v: Vec<LineCoverage>| coverages_view(v)),
            duplications: map_of(pairs(self.duplications@)).map_values(
                |v: Vec<Duplication>| duplications_view(v),
            ),
            rules: map_of(pairs(self.rules@)).map_values(|n: u64| n as nat),
        }
    }
}

impl Aggregator {
    /// The units are kept in ascending order of key; every list has distinct keys.
    pub closed spec fn wf(&self) -> bool {
        &&& keys_sorted(pairs(self.units@))
        &&& keys_unique(pairs(self.issues@))
        &&& keys_unique(pairs(self.coverages@))
        &&& keys_unique(pairs(self.duplications@))
        &&& keys_unique(pairs(self.rules@))
    }

    pub fn new() -> (r: Self)
        ensures
            r.wf(),
            r@ == empty_model(),
    {
        let r = Aggregator {
            units: Vec::new(),
            issues: Vec::new(),
            coverages: Vec::new(),
            duplications: Vec::new(),
            rules: Vec::new(),
        };
        assert(r@.units =~= Map::empty());
        assert(r@.issues =~= Map::empty());
        assert(r@.coverages =~= Map::empty());
        assert(r@.duplications =~= Map::empty());
        assert(r@.rules =~= Map::empty());
        r
    }

    /// Sets the component under `key`, replacing any earlier one.
    pub fn add_unit(&mut self, key: Vec<u8>, c: Component)
        requires
            old(self).wf(),
        ensures
            final(self).wf(),
            final(self)@ == (ReportModel { units: old(self)@.units.insert(key@, c@), ..old(self)@ }),
    {
        let ghost k = key@;
        let ghost cv = c;
        let ghost before = map_of(pairs(self.units@));
        put_sorted(&mut self.units, key, c);
        assert(map_of(pairs(self.units@)).map_values(|c: Component| c@) =~= before.map_values(
            |c: Component| c@,
        ).insert(k, cv@));
    }

    /// Sets the issues under `key`, replacing any earlier list.
    pub fn add_issues(&mut self, key: Vec<u8>, v: Vec<Issue>)
        requires
            old(self).wf(),
        ensures
            final(self).wf(),
            final(self)@ == (ReportModel { issues: old(self)@.issues.insert(key@, issues_view(v)), ..old(self)@ }),
    {
        let ghost k = key@;
        let ghost vv = v;
        let ghost before = map_of(pairs(self.issues@));
        put(&mut self.issues, key, v);
        assert(map_of(pairs(self.issues@)).map_values(|v: Vec<Issue>| issues_view(v)) =~= before.map_values(
            |v: Vec<Issue>| issues_view(v),
        ).insert(k, issues_view(vv)));
    }

    /// Sets the coverage under `key`, replacing any earlier list.
    pub fn add_coverages(&mut self, key: Vec<u8>, v: Vec<LineCoverage>)
        requires
            old(self).wf(),
        ensures
            final(self).wf(),
            final(self)@ == (ReportModel {
                coverages: old(self)@.coverages.insert(key@, coverages_view(v)),
                ..old(self)@
            }),
    {
        let ghost k = key@;
        let ghost vv = v;
        let ghost before = map_of(pairs(self.coverages@));
        put(&mut self.coverages, key, v);
        assert(map_of(pairs(self.coverages@)).map_values(|v: Vec<LineCoverage>| coverages_view(v))
            =~= before.map_values(|v: Vec<LineCoverage>| coverages_view(v)).insert(k, coverages_view(vv)));
    }

    /// Sets the duplications under `key`, replacing any earlier list.
    pub fn add_duplications(&mut self, key: Vec<u8>, v: Vec<Duplication>)
        requires
            old(self).wf(),
        ensures
            final(self).wf(),
            final(self)@ == (ReportModel {
                duplications: old(self)@.duplications.insert(key@, duplications_view(v)),
                ..old(self)@
            }),
    {
        let ghost k = key@;
        let ghost vv = v;
        let ghost before = map_of(pairs(self.duplications@));
        put(&mut self.duplications, key, v);
        assert(map_of(pairs(self.duplications@)).map_values(|v: Vec<Duplication>| duplications_view(v))
            =~= before.map_values(|v: Vec<Duplication>| duplications_view(v)).insert(
            k,
            duplications_view(vv),
        ));
    }

    /// Counts one more activation of each rule, by its repository.
    pub fn add_rules(&mut self, rs: Vec<ActiveRule>)
        requires
            old(self).wf(),
        ensures
            final(self).wf(),
            final(self)@ == (ReportModel {
                rules: count_rules(old(self)@.rules, rs@.map_values(|r: ActiveRule| r@)),
                ..old(self)@
            }),
    {
        let ghost rv = rs@.map_values(|r: ActiveRule| r@);
        let ghost start = self@;
        let mut i: usize = 0;
        assert(rv.take(0) =~= Seq::<ActiveRuleView>::empty());
        while i < rs.len()
            invariant
                i <= rs@.len(),
                rv == rs@.map_values(|r: ActiveRule| r@),
                self.wf(),
                self@ == (ReportModel { rules: count_rules(start.rules, rv.take(i as int)), ..start }),
            decreases rs@.len() - i,
        {
            let repo = rs[i].rule_repository.clone();
            assert(repo@ == rv[i as int]);
            assert(rv.take(i + 1).drop_last() =~= rv.take(i as int));
            let ghost before = map_of(pairs(self.rules@));
            let n: u64 = match find_key(&self.rules, repo.as_slice()) {
                Some(j) => {
                    proof { lemma_map_of_at(pairs(self.rules@), j as int); }
                    let c = self.rules[j].1;
                    if c < u64::MAX { c + 1 } else { c }
                },
                None => 1,
            };
            let ghost k = repo@;
            put(&mut self.rules, repo, n);
            assert(map_of(pairs(self.rules@)).map_values(|n: u64| n as nat) =~= before.map_values(
                |n: u64| n as nat,
            ).insert(k, n as nat));
            i += 1;
        }
        assert(rv.take(i as int) =~= rv);
    }

    /// Reads one archive entry: classifies it by name, decodes its bytes and
    /// folds the records in; an entry that is not recognised or does not
    /// decode leaves everything as it was.
    pub fn add_entry(&mut self, name: &[u8], bytes: &[u8])
        requires
            old(self).wf(),
        ensures
            final(self).wf(),
            final(self)@ == apply_entry(old(self)@, name@, bytes@),
    {
        let (kind, key) = match classify_entry(name) {
            Some(x) => x,
            None => return,
        };
        match parse_proto_file(bytes, kind) {
            Some(Decoded::Unit(c)) => self.add_unit(key, c),
            Some(Decoded::Findings(v)) => self.add_issues(key, v),
            Some(Decoded::Coverages(v)) => self.add_coverages(key, v),
            Some(Decoded::Duplications(v)) => self.add_duplications(key, v),
            Some(Decoded::Rules(v)) => self.add_rules(v),
            None => {},
        }
    }

    /// Joins the collections into the report, one component per unit in
    /// ascending order of key; data under a key with no unit is dropped.
    pub fn into_report(self) -> (r: ParsedReport)
        requires
            self.wf(),
        ensures
            report_of(r, self@),
    {
        let ghost m = self@;
        let Aggregator { mut units, mut issues, mut coverages, mut duplications, rules } = self;
        let ghost us = pairs(units@);
        let ghost im = map_of(pairs(issues@));
        let ghost cm = map_of(pairs(coverages@));
        let ghost dm = map_of(pairs(duplications@));
        proof { lemma_sorted_unique(us); }
        let mut comps: Vec<ParsedComponent> = Vec::new();
        let ghost mut i: int = 0;
        assert(us.skip(0) =~= us);
        while units.len() > 0
            invariant
                0 <= i <= us.len(),
                keys_sorted(us),
                keys_unique(us),
                pairs(units@) == us.skip(i),
                comps@.len() == i,
                keys_unique(pairs(issues@)),
                keys_unique(pairs(coverages@)),
                keys_unique(pairs(duplications@)),
                forall|j: int| i <= j < us.len() ==> map_of(pairs(issues@)).get(#[trigger] us[j].0) == im.get(us[j].0),
                forall|j: int| i <= j < us.len() ==> map_of(pairs(coverages@)).get(#[trigger] us[j].0) == cm.get(us[j].0),
                forall|j: int| i <= j < us.len() ==> map_of(pairs(duplications@)).get(#[trigger] us[j].0) == dm.get(us[j].0),
                m.units == map_of(us).map_values(|c: Component| c@),
                m.issues == im.map_values(|v: Vec<Issue>| issues_view(v)),
                m.coverages == cm.map_values(|v: Vec<LineCoverage>| coverages_view(v)),
                m.duplications == dm.map_values(|v: Vec<Duplication>| duplications_view(v)),
                forall|j: int| 0 <= j < i ==> component_joined(#[trigger] comps@[j], m, us[j].0),
            decreases units@.len(),
        {
            let ghost before = units@;
            assert(pairs(before).len() == before.len());
            assert(us.skip(i)[0] == us[i]);
            assert(pairs(before)[0] == us[i]);
            let (key, c) = units.remove(0);
            assert(units@ == before.remove(0));
            assert forall|j: int| 0 <= j < units@.len() implies pairs(units@)[j] == us.skip(i + 1)[j] by {
                assert(units@[j] == before[j + 1]);
                assert(pairs(before)[j + 1] == us.skip(i)[j + 1]);
            }
            assert(pairs(units@) =~= us.skip(i + 1));
            let ghost k = key@;
            let iss = take_key(&mut issues, key.as_slice());
            let cov = take_key(&mut coverages, key.as_slice());
            let dup = take_key(&mut duplications, key.as_slice());
            proof {
                lemma_map_of_at(us, i);
                assert forall|j: int| i + 1 <= j < us.len() implies us[j].0 != k by {}
            }
            assert(opt_issues(iss) == m.issues.get(k));
            assert(opt_coverages(cov) == m.coverages.get(k));
            assert(opt_duplications(dup) == m.duplications.get(k));
            comps.push(ParsedComponent::new(c, iss, cov, dup));
            proof { i = i + 1; }
        }
        let r = ParsedReport::new(rules, comps);
        let ghost ks = us.map_values(|p: (Seq<u8>, Component)| p.0);
        assert(i == us.len());
        assert forall|a: int, b: int| 0 <= a < b < ks.len() implies lex_lt(ks[a], ks[b]) by {}
        assert(ks.to_set() =~= m.units.dom()) by {
            assert forall|x: Seq<u8>| ks.to_set().contains(x) implies m.units.dom().contains(x) by {
                let j = choose|j: int| 0 <= j < ks.len() && ks[j] == x;
                assert(us[j].0 == x);
            }
            assert forall|x: Seq<u8>| m.units.dom().contains(x) implies ks.to_set().contains(x) by {
                let j = choose|j: int| 0 <= j < us.len() && us[j].0 == x;
                assert(ks[j] == x);
            }
        }
        assert(ks.no_duplicates()) by {
            assert forall|a: int, b: int| 0 <= a < ks.len() && 0 <= b < ks.len() && a != b implies ks[a] != ks[b] by {
                if a < b { assert(us[a].0 != us[b].0); } else { assert(us[b].0 != us[a].0); }
            }
        }
        proof { ks.unique_seq_to_set(); }
        assert(joined_by(r, m, ks));
        r
    }
}


/// The entries of an archive seen as (name, bytes) pairs.
pub open spec fn entries_view(es: Seq<(Vec<u8>, Vec<u8>)>) -> Seq<(Seq<u8>, Seq<u8>)> {
    es.map_values(|e: (Vec<u8>, Vec<u8>)| (e.0@, e.1@))
}

/// Builds the report from an archive's entries, given as (name, bytes) pairs
/// in the archive's order.
pub fn build_report(entries: &Vec<(Vec<u8>, Vec<u8>)>) -> (r: ParsedReport)
    ensures
        report_of(r, apply_entries(entries_view(entries@))),
{
    let ghost es = entries_view(entries@);
    let mut agg = Aggregator::new();
    let mut i: usize = 0;
    assert(es.take(0) =~= Seq::<(Seq<u8>, Seq<u8>)>::empty());
    while i < entries.len()
        invariant
            i <= entries@.len(),
            es == entries_view(entries@),
            agg.wf(),
            agg@ == apply_entries(es.take(i as int)),
        decreases entries@.len() - i,
    {
        assert(es.take(i + 1).drop_last() =~= es.take(i as int));
        agg.add_entry(entries[i].0.as_slice(), entries[i].1.as_slice());
        i += 1;
    }
    assert(es.take(i as int) =~= es);
    agg.into_report()
}

} // verus!
