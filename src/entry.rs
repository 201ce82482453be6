//! The naming convention of archive entries: which kind of record an entry
//! holds, and the join key that ties it to a component.
use vstd::prelude::*;

verus! {

/// The kind of record that an archive entry holds.
#[derive(Clone, Copy, Debug, PartialEq, Eq, Structural)]
pub enum RecordKind {
    Unit,
    Finding,
    Coverage,
    Duplication,
    RuleActivation,
}

/// The naming convention, in the order in which the prefixes are tried: the
/// prefix of an entry's stem, the kind it marks, and how many leading bytes of
/// the stem are stripped to leave the join key.
pub open spec fn name_table() -> Seq<(Seq<u8>, RecordKind, nat)> {
    seq![
        (seq!['c' as u8, 'o' as u8, 'm' as u8, 'p' as u8, 'o' as u8, 'n' as u8, 'e' as u8, 'n' as u8, 't' as u8], RecordKind::Unit, 10nat),
        (seq!['i' as u8, 's' as u8, 's' as u8, 'u' as u8, 'e' as u8, 's' as u8], RecordKind::Finding, 7nat),
        (seq!['c' as u8, 'o' as u8, 'v' as u8, 'e' as u8, 'r' as u8, 'a' as u8, 'g' as u8, 'e' as u8, 's' as u8], RecordKind::Coverage, 10nat),
        (seq!['d' as u8, 'u' as u8, 'p' as u8, 'l' as u8, 'i' as u8, 'c' as u8, 'a' as u8, 't' as u8, 'i' as u8, 'o' as u8, 'n' as u8, 's' as u8], RecordKind::Duplication, 13nat),
        (seq!['a' as u8, 'c' as u8, 't' as u8, 'i' as u8, 'v' as u8, 'e' as u8, 'r' as u8, 'u' as u8, 'l' as u8, 'e' as u8, 's' as u8], RecordKind::RuleActivation, 11nat),
    ]
}

/// The first row of the table from `i` on whose prefix begins `stem`: its kind
/// and the rest of the stem past the strip length; `None` where no prefix
/// matches, or where the first that does asks to strip more than the stem holds.
pub open spec fn classify_from(stem: Seq<u8>, i: int) -> Option<(RecordKind, Seq<u8>)>
    decreases 5 - i,
{
    if i < 0 || i >= 5 {
        None
    } else {
        let (p, k, n) = name_table()[i];
        if p.is_prefix_of(stem) {
            if n <= stem.len() {
                Some((k, stem.skip(n as int)))
            } else {
                None
            }
        } else {
            classify_from(stem, i + 1)
        }
    }
}

/// The kind and join key of an entry whose file stem is `stem`.
pub open spec fn classify_spec(stem: Seq<u8>) -> Option<(RecordKind, Seq<u8>)> {
    classify_from(stem, 0)
}

/// The index of the last `c` in `s`, or -1.
pub open spec fn last_index(s: Seq<u8>, c: u8) -> int
    decreases s.len(),
{
    if s.len() == 0 {
        -1
    } else if s.last() == c {
        s.len() - 1
    } else {
        last_index(s.drop_last(), c)
    }
}

/// The last component of a `/`-separated path.
pub open spec fn file_name_of(s: Seq<u8>) -> Seq<u8> {
    s.skip(last_index(s, '/' as u8) + 1)
}

/// A file name without its extension: the part before its last dot, unless
/// that dot is its first byte.
pub open spec fn stem_of(s: Seq<u8>) -> Seq<u8> {
    let f = file_name_of(s);
    let d = last_index(f, '.' as u8);
    if d > 0 {
        f.take(d)
    } else {
        f
    }
}

proof fn lemma_last_index_bounds(s: Seq<u8>, c: u8)
    ensures
        -1 <= last_index(s, c) < s.len(),
    decreases s.len(),
{
    if s.len() > 0 && s.last() != c {
        lemma_last_index_bounds(s.drop_last(), c);
    }
}

/// The position of the last `c` in `s`.
fn find_last(s: &[u8], c: u8) -> (r: Option<usize>)
    ensures
        match r {
            Some(i) => last_index(s@, c) == i && i < s@.len(),
            None => last_index(s@, c) == -1,
        },
{
    let mut i: usize = s.len();
    assert(s@.take(i as int) =~= s@);
    while i > 0
        invariant
            i <= s@.len(),
            last_index(s@, c) == last_index(s@.take(i as int), c),
        decreases i,
    {
        if s[i - 1] == c {
            return Some(i - 1);
        }
        assert(s@.take(i as int).drop_last() =~= s@.take(i - 1));
        i -= 1;
    }
    None
}

/// The file stem of an entry's name.
pub fn file_stem(name: &[u8]) -> (r: Vec<u8>)
    ensures
        r@ == stem_of(name@),
{
    proof { lemma_last_index_bounds(name@, '/' as u8); }
    let start: usize = match find_last(name, '/' as u8) {
        Some(i) => if i < name.len() { i + 1 } else { name.len() },
        None => 0,
    };
    let f = crate::wire::slice_to_vec(name, start, name.len());
    assert(f@ =~= file_name_of(name@));
    match find_last(f.as_slice(), '.' as u8) {
        Some(d) => if d > 0 {
            proof { lemma_last_index_bounds(f@, '.' as u8); }
            crate::wire::slice_to_vec(f.as_slice(), 0, d)
        } else {
            f
        },
        None => f,
    }
}

/// Whether `p` begins `s`.
fn starts_with(s: &[u8], p: &[u8]) -> (r: bool)
    ensures
        r == p@.is_prefix_of(s@),
{
    if p.len() > s.len() {
        return false;
    }
    let mut i: usize = 0;
    while i < p.len()
        invariant
            p@.len() <= s@.len(),
            i <= p@.len(),
            forall|j: int| 0 <= j < i ==> p@[j] == s@[j],
        decreases p@.len() - i,
    {
        if p[i] != s[i] {
            return false;
        }
        i += 1;
    }
    true
}

/// Row `i` of the naming convention.
fn name_row(i: usize) -> (r: (Vec<u8>, RecordKind, usize))
    requires
        i < 5,
    ensures
        r.0@ == name_table()[i as int].0,
        r.1 == name_table()[i as int].1,
        r.2 == name_table()[i as int].2,
{
    if i == 0 {
        let p = vec!['c' as u8, 'o' as u8, 'm' as u8, 'p' as u8, 'o' as u8, 'n' as u8, 'e' as u8, 'n' as u8, 't' as u8];
        assert(p@ =~= name_table()[0].0);
        (p, RecordKind::Unit, 10)
    } else if i == 1 {
        let p = vec!['i' as u8, 's' as u8, 's' as u8, 'u' as u8, 'e' as u8, 's' as u8];
        assert(p@ =~= name_table()[1].0);
        (p, RecordKind::Finding, 7)
    } else if i == 2 {
        let p = vec!['c' as u8, 'o' as u8, 'v' as u8, 'e' as u8, 'r' as u8, 'a' as u8, 'g' as u8, 'e' as u8, 's' as u8];
        assert(p@ =~= name_table()[2].0);
        (p, RecordKind::Coverage, 10)
    } else if i == 3 {
        let p = vec!['d' as u8, 'u' as u8, 'p' as u8, 'l' as u8, 'i' as u8, 'c' as u8, 'a' as u8, 't' as u8, 'i' as u8, 'o' as u8, 'n' as u8, 's' as u8];
        assert(p@ =~= name_table()[3].0);
        (p, RecordKind::Duplication, 13)
    } else {
        let p = vec!['a' as u8, 'c' as u8, 't' as u8, 'i' as u8, 'v' as u8, 'e' as u8, 'r' as u8, 'u' as u8, 'l' as u8, 'e' as u8, 's' as u8];
        assert(p@ =~= name_table()[4].0);
        (p, RecordKind::RuleActivation, 11)
    }
}

/// The kind and join key of an entry whose file stem is `stem`; `None` for a
/// stem that the naming convention does not cover.
pub fn classify_stem(stem: &[u8]) -> (r: Option<(RecordKind, Vec<u8>)>)
    ensures
        match classify_spec(stem@) {
            Some((k, key)) => r matches Some((k2, key2)) && k2 == k && key2@ == key,
            None => r is None,
        },
{
    let mut i: usize = 0;
    while i < 5
        invariant
            i <= 5,
            classify_spec(stem@) == classify_from(stem@, i as int),
        decreases 5 - i,
    {
        let (p, k, n) = name_row(i);
        if starts_with(stem, p.as_slice()) {
            if n <= stem.len() {
                return Some((k, crate::wire::slice_to_vec(stem, n, stem.len())));
            }
            return None;
        }
        i += 1;
    }
    None
}

/// The kind and join key of an archive entry, read from the stem of its name.
pub fn classify_entry(name: &[u8]) -> (r: Option<(RecordKind, Vec<u8>)>)
    ensures
        match classify_spec(stem_of(name@)) {
            Some((k, key)) => r matches Some((k2, key2)) && k2 == k && key2@ == key,
            None => r is None,
        },
{
    let stem = file_stem(name);
    classify_stem(stem.as_slice())
}

} // verus!
