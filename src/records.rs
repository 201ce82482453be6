//! The records of a report, decoded from their protobuf messages: a component
//! (one per analysed file or project root), an issue, a line's coverage, a
//! duplicated block and an active rule.
use vstd::prelude::*;
use crate::wire::{decode_fields, fields_of, frames_of, split_frames, Field, FieldView};

verus! {

/// Whether the bytes are well-formed UTF-8.
pub uninterp spec fn utf8_valid(b: Seq<u8>) -> bool;

/// Relies on std::str::from_utf8: it accepts exactly the well-formed UTF-8 byte strings.
#[verifier::external_body]
fn is_utf8(b: &[u8]) -> (r: bool)
    ensures
        r == utf8_valid(b@),
{
    std::str::from_utf8(b).is_ok()
}

/// A component: reference number, key, path relative to the project (empty
/// for the project root) and whether it is a test file.
pub type ComponentView = (i32, Seq<u8>, Seq<u8>, bool);

pub struct Component {
    pub ref_id: i32,
    pub key: Vec<u8>,
    pub project_relative_path: Vec<u8>,
    pub is_test: bool,
}

impl View for Component {
    type V = ComponentView;

    open spec fn view(&self) -> ComponentView {
        (self.ref_id, self.key@, self.project_relative_path@, self.is_test)
    }
}

/// A component after one more field: `ref` is field 1, `is_test` field 5,
/// `key` field 10 and `project_relative_path` field 14; other fields are skipped.
pub open spec fn component_step(c: ComponentView, f: FieldView) -> Option<ComponentView> {
    if f.0 == 1 {
        if f.1 == 0 { Some((f.2 as i32, c.1, c.2, c.3)) } else { None }
    } else if f.0 == 5 {
        if f.1 == 0 { Some((c.0, c.1, c.2, f.2 != 0)) } else { None }
    } else if f.0 == 10 {
        if f.1 == 2 && utf8_valid(f.3) { Some((c.0, f.3, c.2, c.3)) } else { None }
    } else if f.0 == 14 {
        if f.1 == 2 && utf8_valid(f.3) { Some((c.0, c.1, f.3, c.3)) } else { None }
    } else {
        Some(c)
    }
}

pub open spec fn component_fold(fs: Seq<FieldView>) -> Option<ComponentView>
    decreases fs.len(),
{
    if fs.len() == 0 {
        Some((0i32, Seq::empty(), Seq::empty(), false))
    } else {
        match component_fold(fs.drop_last()) {
            Some(c) => component_step(c, fs.last()),
            None => None,
        }
    }
}

/// The component that a whole message encodes.
pub open spec fn component_of(s: Seq<u8>) -> Option<ComponentView> {
    match fields_of(s) {
        Some(fs) => component_fold(fs),
        None => None,
    }
}

/// A line's coverage: line number, number of conditions, whether the line was
/// hit (where known) and how many conditions were covered (where known).
pub type LineCoverageView = (i32, i32, Option<bool>, Option<i32>);

pub struct LineCoverage {
    pub line: i32,
    pub conditions: i32,
    pub hits: Option<bool>,
    pub covered_conditions: Option<i32>,
}

impl View for LineCoverage {
    type V = LineCoverageView;

    open spec fn view(&self) -> LineCoverageView {
        (self.line, self.conditions, self.hits, self.covered_conditions)
    }
}

/// A line's coverage after one more field: `line` is field 1, `conditions`
/// field 2, `hits` field 3 and `covered_conditions` field 4.
pub open spec fn coverage_step(c: LineCoverageView, f: FieldView) -> Option<LineCoverageView> {
    if 1 <= f.0 <= 4 && f.1 != 0 {
        None
    } else if f.0 == 1 {
        Some((f.2 as i32, c.1, c.2, c.3))
    } else if f.0 == 2 {
        Some((c.0, f.2 as i32, c.2, c.3))
    } else if f.0 == 3 {
        Some((c.0, c.1, Some(f.2 != 0), c.3))
    } else if f.0 == 4 {
        Some((c.0, c.1, c.2, Some(f.2 as i32)))
    } else {
        Some(c)
    }
}

pub open spec fn coverage_fold(fs: Seq<FieldView>) -> Option<LineCoverageView>
    decreases fs.len(),
{
    if fs.len() == 0 {
        Some((0i32, 0i32, None, None))
    } else {
        match coverage_fold(fs.drop_last()) {
            Some(c) => coverage_step(c, fs.last()),
            None => None,
        }
    }
}

/// The line coverage that a whole message encodes.
pub open spec fn coverage_of(s: Seq<u8>) -> Option<LineCoverageView> {
    match fields_of(s) {
        Some(fs) => coverage_fold(fs),
        None => None,
    }
}

proof fn lemma_component_fold_stops(fs: Seq<FieldView>, k: int)
    requires
        0 <= k <= fs.len(),
        component_fold(fs.take(k)) is None,
    ensures
        component_fold(fs) is None,
    decreases fs.len(),
{
    if k < fs.len() {
        assert(fs.drop_last().take(k) =~= fs.take(k));
        lemma_component_fold_stops(fs.drop_last(), k);
    } else {
        assert(fs.take(k) =~= fs);
    }
}

/// Decodes one component from a message that takes the whole buffer.
pub fn decode_component(buf: &[u8]) -> (r: Option<Component>)
    ensures
        match component_of(buf@) {
            Some(c) => r matches Some(d) && d@ == c,
            None => r is None,
        },
{
    let fields = match decode_fields(buf) {
        Some(f) => f,
        None => return None,
    };
    let ghost fs = fields@.map_values(|f: Field| f@);
    let mut c = Component { ref_id: 0, key: Vec::new(), project_relative_path: Vec::new(), is_test: false };
    let mut i: usize = 0;
    assert(fs.take(0).len() == 0);
    while i < fields.len()
        invariant
            i <= fields@.len(),
            fs == fields@.map_values(|f: Field| f@),
            component_fold(fs.take(i as int)) == Some(c@),
            component_fold(fs) == component_of(buf@),
        decreases fields@.len() - i,
    {
        let f = &fields[i];
        assert(fs.take(i + 1).drop_last() =~= fs.take(i as int));
        assert(fs.take(i + 1).last() == f@);
        proof {
            if component_fold(fs.take(i + 1)) is None {
                lemma_component_fold_stops(fs, i + 1);
            }
        }
        if f.tag == 1 {
            if f.wire != 0 {
                return None;
            }
            c.ref_id = #[verifier::truncate] (f.num as i32);
        } else if f.tag == 5 {
            if f.wire != 0 {
                return None;
            }
            c.is_test = f.num != 0;
        } else if f.tag == 10 || f.tag == 14 {
            if f.wire != 2 || !is_utf8(f.data.as_slice()) {
                return None;
            }
            if f.tag == 10 {
                c.key = f.data.clone();
            } else {
                c.project_relative_path = f.data.clone();
            }
        }
        i += 1;
    }
    assert(fs.take(i as int) =~= fs);
    Some(c)
}

proof fn lemma_coverage_fold_stops(fs: Seq<FieldView>, k: int)
    requires
        0 <= k <= fs.len(),
        coverage_fold(fs.take(k)) is None,
    ensures
        coverage_fold(fs) is None,
    decreases fs.len(),
{
    if k < fs.len() {
        assert(fs.drop_last().take(k) =~= fs.take(k));
        lemma_coverage_fold_stops(fs.drop_last(), k);
    } else {
        assert(fs.take(k) =~= fs);
    }
}

/// Decodes one line's coverage from a message that takes the whole buffer.
pub fn decode_coverage(buf: &[u8]) -> (r: Option<LineCoverage>)
    ensures
        match coverage_of(buf@) {
            Some(c) => r matches Some(d) && d@ == c,
            None => r is None,
        },
{
    let fields = match decode_fields(buf) {
        Some(f) => f,
        None => return None,
    };
    let ghost fs = fields@.map_values(|f: Field| f@);
    let mut c = LineCoverage { line: 0, conditions: 0, hits: None, covered_conditions: None };
    let mut i: usize = 0;
    assert(fs.take(0).len() == 0);
    while i < fields.len()
        invariant
            i <= fields@.len(),
            fs == fields@.map_values(|f: Field| f@),
            coverage_fold(fs.take(i as int)) == Some(c@),
            coverage_fold(fs) == coverage_of(buf@),
        decreases fields@.len() - i,
    {
        let f = &fields[i];
        assert(fs.take(i + 1).drop_last() =~= fs.take(i as int));
        assert(fs.take(i + 1).last() == f@);
        proof {
            if coverage_fold(fs.take(i + 1)) is None {
                lemma_coverage_fold_stops(fs, i + 1);
            }
        }
        if 1 <= f.tag && f.tag <= 4 && f.wire != 0 {
            return None;
        }
        if f.tag == 1 {
            c.line = #[verifier::truncate] (f.num as i32);
        } else if f.tag == 2 {
            c.conditions = #[verifier::truncate] (f.num as i32);
        } else if f.tag == 3 {
            c.hits = Some(f.num != 0);
        } else if f.tag == 4 {
            c.covered_conditions = Some(#[verifier::truncate] (f.num as i32));
        }
        i += 1;
    }
    assert(fs.take(i as int) =~= fs);
    Some(c)
}


/// An issue, kept as the message that encodes it.
pub type IssueView = Seq<u8>;

pub struct Issue {
    pub data: Vec<u8>,
}

impl View for Issue {
    type V = IssueView;

    open spec fn view(&self) -> IssueView {
        self.data@
    }
}

/// The issue that a whole message encodes: any message that splits into fields.
pub open spec fn issue_of(s: Seq<u8>) -> Option<IssueView> {
    if fields_of(s) is Some {
        Some(s)
    } else {
        None
    }
}

/// An active rule: the repository that the rule belongs to.
pub type ActiveRuleView = Seq<u8>;

pub struct ActiveRule {
    pub rule_repository: Vec<u8>,
}

impl View for ActiveRule {
    type V = ActiveRuleView;

    open spec fn view(&self) -> ActiveRuleView {
        self.rule_repository@
    }
}

/// An active rule after one more field: `rule_repository` is field 1; other
/// fields are skipped.
pub open spec fn rule_step(r: ActiveRuleView, f: FieldView) -> Option<ActiveRuleView> {
    if f.0 == 1 {
        if f.1 == 2 && utf8_valid(f.3) { Some(f.3) } else { None }
    } else {
        Some(r)
    }
}

pub open spec fn rule_fold(fs: Seq<FieldView>) -> Option<ActiveRuleView>
    decreases fs.len(),
{
    if fs.len() == 0 {
        Some(Seq::empty())
    } else {
        match rule_fold(fs.drop_last()) {
            Some(r) => rule_step(r, fs.last()),
            None => None,
        }
    }
}

/// The active rule that a whole message encodes.
pub open spec fn rule_of(s: Seq<u8>) -> Option<ActiveRuleView> {
    match fields_of(s) {
        Some(fs) => rule_fold(fs),
        None => None,
    }
}

/// A duplicated block: the messages of the places where it is duplicated.
pub type DuplicationView = Seq<Seq<u8>>;

pub struct Duplication {
    pub duplicates: Vec<Vec<u8>>,
}

impl View for Duplication {
    type V = DuplicationView;

    open spec fn view(&self) -> DuplicationView {
        self.duplicates@.map_values(|d: Vec<u8>| d@)
    }
}

/// A duplicated block after one more field: field 1 is the block's own place,
/// a message; each field 2 is one more place where it is duplicated.
pub open spec fn duplication_step(d: DuplicationView, f: FieldView) -> Option<DuplicationView> {
    if f.0 == 1 {
        if f.1 == 2 && fields_of(f.3) is Some { Some(d) } else { None }
    } else if f.0 == 2 {
        if f.1 == 2 && fields_of(f.3) is Some { Some(d.push(f.3)) } else { None }
    } else {
        Some(d)
    }
}

pub open spec fn duplication_fold(fs: Seq<FieldView>) -> Option<DuplicationView>
    decreases fs.len(),
{
    if fs.len() == 0 {
        Some(Seq::empty())
    } else {
        match duplication_fold(fs.drop_last()) {
            Some(d) => duplication_step(d, fs.last()),
            None => None,
        }
    }
}

/// The duplicated block that a whole message encodes.
pub open spec fn duplication_of(s: Seq<u8>) -> Option<DuplicationView> {
    match fields_of(s) {
        Some(fs) => duplication_fold(fs),
        None => None,
    }
}

proof fn lemma_rule_fold_stops(fs: Seq<FieldView>, k: int)
    requires
        0 <= k <= fs.len(),
        rule_fold(fs.take(k)) is None,
    ensures
        rule_fold(fs) is None,
    decreases fs.len(),
{
    if k < fs.len() {
        assert(fs.drop_last().take(k) =~= fs.take(k));
        lemma_rule_fold_stops(fs.drop_last(), k);
    } else {
        assert(fs.take(k) =~= fs);
    }
}

proof fn lemma_duplication_fold_stops(fs: Seq<FieldView>, k: int)
    requires
        0 <= k <= fs.len(),
        duplication_fold(fs.take(k)) is None,
    ensures
        duplication_fold(fs) is None,
    decreases fs.len(),
{
    if k < fs.len() {
        assert(fs.drop_last().take(k) =~= fs.take(k));
        lemma_duplication_fold_stops(fs.drop_last(), k);
    } else {
        assert(fs.take(k) =~= fs);
    }
}

/// Decodes one issue from a message that takes the whole buffer.
pub fn decode_issue(buf: &[u8]) -> (r: Option<Issue>)
    ensures
        match issue_of(buf@) {
            Some(c) => r matches Some(d) && d@ == c,
            None => r is None,
        },
{
    match decode_fields(buf) {
        Some(_) => Some(Issue { data: crate::wire::slice_to_vec(buf, 0, buf.len()) }),
        None => None,
    }
}

/// Decodes one active rule from a message that takes the whole buffer.
pub fn decode_rule(buf: &[u8]) -> (r: Option<ActiveRule>)
    ensures
        match rule_of(buf@) {
            Some(c) => r matches Some(d) && d@ == c,
            None => r is None,
        },
{
    let fields = match decode_fields(buf) {
        Some(f) => f,
        None => return None,
    };
    let ghost fs = fields@.map_values(|f: Field| f@);
    let mut c = ActiveRule { rule_repository: Vec::new() };
    let mut i: usize = 0;
    assert(fs.take(0).len() == 0);
    while i < fields.len()
        invariant
            i <= fields@.len(),
            fs == fields@.map_values(|f: Field| f@),
            rule_fold(fs.take(i as int)) == Some(c@),
            rule_fold(fs) == rule_of(buf@),
        decreases fields@.len() - i,
    {
        let f = &fields[i];
        assert(fs.take(i + 1).drop_last() =~= fs.take(i as int));
        assert(fs.take(i + 1).last() == f@);
        proof {
            if rule_fold(fs.take(i + 1)) is None {
                lemma_rule_fold_stops(fs, i + 1);
            }
        }
        if f.tag == 1 {
            if f.wire != 2 || !is_utf8(f.data.as_slice()) {
                return None;
            }
            c.rule_repository = f.data.clone();
        }
        i += 1;
    }
    assert(fs.take(i as int) =~= fs);
    Some(c)
}

/// Decodes one duplicated block from a message that takes the whole buffer.
pub fn decode_duplication(buf: &[u8]) -> (r: Option<Duplication>)
    ensures
        match duplication_of(buf@) {
            Some(c) => r matches Some(d) && d@ == c,
            None => r is None,
        },
{
    let fields = match decode_fields(buf) {
        Some(f) => f,
        None => return None,
    };
    let ghost fs = fields@.map_values(|f: Field| f@);
    let mut c = Duplication { duplicates: Vec::new() };
    let mut i: usize = 0;
    assert(fs.take(0).len() == 0);
    assert(c@ =~= Seq::<Seq<u8>>::empty());
    while i < fields.len()
        invariant
            i <= fields@.len(),
            fs == fields@.map_values(|f: Field| f@),
            duplication_fold(fs.take(i as int)) == Some(c@),
            duplication_fold(fs) == duplication_of(buf@),
        decreases fields@.len() - i,
    {
        let f = &fields[i];
        assert(fs.take(i + 1).drop_last() =~= fs.take(i as int));
        assert(fs.take(i + 1).last() == f@);
        proof {
            if duplication_fold(fs.take(i + 1)) is None {
                lemma_duplication_fold_stops(fs, i + 1);
            }
        }
        if f.tag == 1 || f.tag == 2 {
            if f.wire != 2 {
                return None;
            }
            if decode_fields(f.data.as_slice()).is_none() {
                return None;
            }
            if f.tag == 2 {
                let ghost before = c@;
                c.duplicates.push(f.data.clone());
                assert(c@ =~= before.push(f.data@));
            }
        }
        i += 1;
    }
    assert(fs.take(i as int) =~= fs);
    Some(c)
}

/// The records that the frames decode to, in order; `None` where one of them
/// does not decode.
pub open spec fn decode_all<T>(fs: Seq<Seq<u8>>, dec: spec_fn(Seq<u8>) -> Option<T>) -> Option<Seq<T>>
    decreases fs.len(),
{
    if fs.len() == 0 {
        Some(Seq::empty())
    } else {
        match (decode_all(fs.drop_last(), dec), dec(fs.last())) {
            (Some(a), Some(x)) => Some(a.push(x)),
            _ => None,
        }
    }
}

/// The records of a length-delimited stream that takes the whole of `s`.
pub open spec fn stream_of<T>(s: Seq<u8>, dec: spec_fn(Seq<u8>) -> Option<T>) -> Option<Seq<T>> {
    match frames_of(s) {
        Some(fs) => decode_all(fs, dec),
        None => None,
    }
}

pub open spec fn issues_of(s: Seq<u8>) -> Option<Seq<IssueView>> {
    stream_of(s, |x: Seq<u8>| issue_of(x))
}

pub open spec fn coverages_of(s: Seq<u8>) -> Option<Seq<LineCoverageView>> {
    stream_of(s, |x: Seq<u8>| coverage_of(x))
}

pub open spec fn duplications_of(s: Seq<u8>) -> Option<Seq<DuplicationView>> {
    stream_of(s, |x: Seq<u8>| duplication_of(x))
}

pub open spec fn rules_of(s: Seq<u8>) -> Option<Seq<ActiveRuleView>> {
    stream_of(s, |x: Seq<u8>| rule_of(x))
}

proof fn lemma_decode_all_stops<T>(fs: Seq<Seq<u8>>, k: int, dec: spec_fn(Seq<u8>) -> Option<T>)
    requires
        0 <= k <= fs.len(),
        decode_all(fs.take(k), dec) is None,
    ensures
        decode_all(fs, dec) is None,
    decreases fs.len(),
{
    if k < fs.len() {
        assert(fs.drop_last().take(k) =~= fs.take(k));
        lemma_decode_all_stops(fs.drop_last(), k, dec);
    } else {
        assert(fs.take(k) =~= fs);
    }
}

proof fn lemma_decode_all_concat<T>(a: Seq<Seq<u8>>, b: Seq<Seq<u8>>, dec: spec_fn(Seq<u8>) -> Option<T>)
    requires
        decode_all(a, dec) is Some,
        decode_all(b, dec) is Some,
    ensures
        decode_all(a + b, dec) == Some(decode_all(a, dec)->0 + decode_all(b, dec)->0),
    decreases b.len(),
{
    if b.len() == 0 {
        assert(a + b =~= a);
        assert(decode_all(a, dec)->0 + decode_all(b, dec)->0 =~= decode_all(a, dec)->0);
    } else {
        assert((a + b).drop_last() =~= a + b.drop_last());
        assert((a + b).last() == b.last());
        lemma_decode_all_concat(a, b.drop_last(), dec);
        let da = decode_all(a, dec)->0;
        let db = decode_all(b.drop_last(), dec)->0;
        assert((da + db).push(dec(b.last())->0) =~= da + db.push(dec(b.last())->0));
    }
}

/// Decoding two well-formed streams written one after the other gives the
/// records of the first followed by those of the second.
pub proof fn lemma_stream_concat<T>(a: Seq<u8>, b: Seq<u8>, dec: spec_fn(Seq<u8>) -> Option<T>)
    requires
        stream_of(a, dec) is Some,
        stream_of(b, dec) is Some,
    ensures
        stream_of(a + b, dec) == Some(stream_of(a, dec)->0 + stream_of(b, dec)->0),
{
    crate::wire::lemma_frames_concat(a, b);
    lemma_decode_all_concat(frames_of(a)->0, frames_of(b)->0, dec);
}

/// Decodes every issue of a length-delimited stream that takes the whole of
/// `buf`; `None` where a frame is cut short or a message is malformed.
pub fn decode_issues(buf: &[u8]) -> (r: Option<Vec<Issue>>)
    ensures
        match issues_of(buf@) {
            Some(v) => r matches Some(d) && d@.map_values(|x: Issue| x@) == v,
            None => r is None,
        },
{
    let frames = match split_frames(buf) {
        Some(f) => f,
        None => return None,
    };
    let ghost fs = frames@.map_values(|f: Vec<u8>| f@);
    let ghost dec = |x: Seq<u8>| issue_of(x);
    let mut out: Vec<Issue> = Vec::new();
    let mut i: usize = 0;
    assert(fs.take(0) =~= Seq::<Seq<u8>>::empty());
    assert(out@.map_values(|x: Issue| x@) =~= Seq::<IssueView>::empty());
    while i < frames.len()
        invariant
            i <= frames@.len(),
            fs == frames@.map_values(|f: Vec<u8>| f@),
            dec == (|x: Seq<u8>| issue_of(x)),
            decode_all(fs.take(i as int), dec) == Some(out@.map_values(|x: Issue| x@)),
            decode_all(fs, dec) == issues_of(buf@),
        decreases frames@.len() - i,
    {
        assert(fs.take(i + 1).drop_last() =~= fs.take(i as int));
        assert(fs.take(i + 1).last() == frames@[i as int]@);
        match decode_issue(frames[i].as_slice()) {
            Some(x) => {
                let ghost before = out@.map_values(|x: Issue| x@);
                out.push(x);
                assert(out@.map_values(|x: Issue| x@) =~= before.push(x@));
            },
            None => {
                proof { lemma_decode_all_stops(fs, i + 1, dec); }
                return None;
            },
        }
        i += 1;
    }
    assert(fs.take(i as int) =~= fs);
    Some(out)
}

/// Decodes every line's coverage of a length-delimited stream that takes the whole of
/// `buf`; `None` where a frame is cut short or a message is malformed.
pub fn decode_coverages(buf: &[u8]) -> (r: Option<Vec<LineCoverage>>)
    ensures
        match coverages_of(buf@) {
            Some(v) => r matches Some(d) && d@.map_values(|x: LineCoverage| x@) == v,
            None => r is None,
        },
{
    let frames = match split_frames(buf) {
        Some(f) => f,
        None => return None,
    };
    let ghost fs = frames@.map_values(|f: Vec<u8>| f@);
    let ghost dec = |x: Seq<u8>| coverage_of(x);
    let mut out: Vec<LineCoverage> = Vec::new();
    let mut i: usize = 0;
    assert(fs.take(0) =~= Seq::<Seq<u8>>::empty());
    assert(out@.map_values(|x: LineCoverage| x@) =~= Seq::<LineCoverageView>::empty());
    while i < frames.len()
        invariant
            i <= frames@.len(),
            fs == frames@.map_values(|f: Vec<u8>| f@),
            dec == (|x: Seq<u8>| coverage_of(x)),
            decode_all(fs.take(i as int), dec) == Some(out@.map_values(|x: LineCoverage| x@)),
            decode_all(fs, dec) == coverages_of(buf@),
        decreases frames@.len() - i,
    {
        assert(fs.take(i + 1).drop_last() =~= fs.take(i as int));
        assert(fs.take(i + 1).last() == frames@[i as int]@);
        match decode_coverage(frames[i].as_slice()) {
            Some(x) => {
                let ghost before = out@.map_values(|x: LineCoverage| x@);
                out.push(x);
                assert(out@.map_values(|x: LineCoverage| x@) =~= before.push(x@));
            },
            None => {
                proof { lemma_decode_all_stops(fs, i + 1, dec); }
                return None;
            },
        }
        i += 1;
    }
    assert(fs.take(i as int) =~= fs);
    Some(out)
}

/// Decodes every duplicated block of a length-delimited stream that takes the whole of
/// `buf`; `None` where a frame is cut short or a message is malformed.
pub fn decode_duplications(buf: &[u8]) -> (r: Option<Vec<Duplication>>)
    ensures
        match duplications_of(buf@) {
            Some(v) => r matches Some(d) && d@.map_values(|x: Duplication| x@) == v,
            None => r is None,
        },
{
    let frames = match split_frames(buf) {
        Some(f) => f,
        None => return None,
    };
    let ghost fs = frames@.map_values(|f: Vec<u8>| f@);
    let ghost dec = |x: Seq<u8>| duplication_of(x);
    let mut out: Vec<Duplication> = Vec::new();
    let mut i: usize = 0;
    assert(fs.take(0) =~= Seq::<Seq<u8>>::empty());
    assert(out@.map_values(|x: Duplication| x@) =~= Seq::<DuplicationView>::empty());
    while i < frames.len()
        invariant
            i <= frames@.len(),
            fs == frames@.map_values(|f: Vec<u8>| f@),
            dec == (|x: Seq<u8>| duplication_of(x)),
            decode_all(fs.take(i as int), dec) == Some(out@.map_values(|x: Duplication| x@)),
            decode_all(fs, dec) == duplications_of(buf@),
        decreases frames@.len() - i,
    {
        assert(fs.take(i + 1).drop_last() =~= fs.take(i as int));
        assert(fs.take(i + 1).last() == frames@[i as int]@);
        match decode_duplication(frames[i].as_slice()) {
            Some(x) => {
                let ghost before = out@.map_values(|x: Duplication| x@);
                out.push(x);
                assert(out@.map_values(|x: Duplication| x@) =~= before.push(x@));
            },
            None => {
                proof { lemma_decode_all_stops(fs, i + 1, dec); }
                return None;
            },
        }
        i += 1;
    }
    assert(fs.take(i as int) =~= fs);
    Some(out)
}

/// Decodes every active rule of a length-delimited stream that takes the whole of
/// `buf`; `None` where a frame is cut short or a message is malformed.
pub fn decode_rules(buf: &[u8]) -> (r: Option<Vec<ActiveRule>>)
    ensures
        match rules_of(buf@) {
            Some(v) => r matches Some(d) && d@.map_values(|x: ActiveRule| x@) == v,
            None => r is None,
        },
{
    let frames = match split_frames(buf) {
        Some(f) => f,
        None => return None,
    };
    let ghost fs = frames@.map_values(|f: Vec<u8>| f@);
    let ghost dec = |x: Seq<u8>| rule_of(x);
    let mut out: Vec<ActiveRule> = Vec::new();
    let mut i: usize = 0;
    assert(fs.take(0) =~= Seq::<Seq<u8>>::empty());
    assert(out@.map_values(|x: ActiveRule| x@) =~= Seq::<ActiveRuleView>::empty());
    while i < frames.len()
        invariant
            i <= frames@.len(),
            fs == frames@.map_values(|f: Vec<u8>| f@),
            dec == (|x: Seq<u8>| rule_of(x)),
            decode_all(fs.take(i as int), dec) == Some(out@.map_values(|x: ActiveRule| x@)),
            decode_all(fs, dec) == rules_of(buf@),
        decreases frames@.len() - i,
    {
        assert(fs.take(i + 1).drop_last() =~= fs.take(i as int));
        assert(fs.take(i + 1).last() == frames@[i as int]@);
        match decode_rule(frames[i].as_slice()) {
            Some(x) => {
                let ghost before = out@.map_values(|x: ActiveRule| x@);
                out.push(x);
                assert(out@.map_values(|x: ActiveRule| x@) =~= before.push(x@));
            },
            None => {
                proof { lemma_decode_all_stops(fs, i + 1, dec); }
                return None;
            },
        }
        i += 1;
    }
    assert(fs.take(i as int) =~= fs);
    Some(out)
}

} // verus!
