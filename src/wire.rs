//! The protobuf wire format: varints, fields and length-delimited frames.
use vstd::prelude::*;

verus! {

/// The number that the bytes of a base-128 varint stand for, low group first.
pub open spec fn varint_value(s: Seq<u8>) -> nat
    decreases s.len(),
{
    if s.len() == 0 {
        0
    } else {
        (s[0] % 128) as nat + 128 * varint_value(s.drop_first())
    }
}

/// The length of the varint at the start of `s`, looked for from byte `k` on:
/// at most ten bytes, the last one below 128, and no overflow of 64 bits.
pub open spec fn varint_len_from(s: Seq<u8>, k: nat) -> Option<nat>
    decreases 10 - k,
{
    if k >= 10 || k >= s.len() {
        None
    } else if s[k as int] < 128 {
        if k == 9 && s[9] >= 2 {
            None
        } else {
            Some(k + 1)
        }
    } else {
        varint_len_from(s, k + 1)
    }
}

/// The varint at the start of `s`: its value and how many bytes it takes.
pub open spec fn varint_at(s: Seq<u8>) -> Option<(nat, nat)> {
    match varint_len_from(s, 0) {
        Some(n) => Some((varint_value(s.take(n as int)), n)),
        None => None,
    }
}

/// Relies on prost::encoding::decode_varint: it reads one varint from the front
/// of the slice and advances past it; it fails where none of the first ten bytes
/// ends the varint or where the tenth overflows 64 bits. The result holds the
/// value and the number of bytes left after it.
#[verifier::external_body]
fn decode_varint_at(buf: &[u8], pos: usize) -> (r: Option<(u64, usize)>)
    requires
        pos <= buf@.len(),
    ensures
        r is None <==> varint_at(buf@.skip(pos as int)) is None,
        r matches Some((v, rest)) ==> rest <= buf@.len() - pos && varint_at(buf@.skip(pos as int))
            == Some((v as nat, (buf@.len() - pos - rest) as nat)),
{
    let mut s: &[u8] = &buf[pos..];
    match prost::encoding::decode_varint(&mut s) {
        Ok(v) => Some((v, s.len())),
        Err(_) => None,
    }
}

proof fn lemma_varint_len_bounds(s: Seq<u8>, k: nat)
    ensures
        varint_len_from(s, k) matches Some(n) ==> k < n && n <= s.len() && n <= 10,
    decreases 10 - k,
{
    if k < 10 && k < s.len() && s[k as int] >= 128 {
        lemma_varint_len_bounds(s, k + 1);
    }
}

proof fn lemma_varint_prefix(s: Seq<u8>, t: Seq<u8>, k: nat)
    requires
        varint_len_from(s, k) is Some,
        s.is_prefix_of(t),
    ensures
        varint_len_from(t, k) == varint_len_from(s, k),
    decreases 10 - k,
{
    if k < 10 && k < s.len() && s[k as int] >= 128 {
        lemma_varint_prefix(s, t, k + 1);
    }
}

/// A varint read at the front of `s` reads the same at the front of `s + t`.
pub proof fn lemma_varint_at_prefix(s: Seq<u8>, t: Seq<u8>)
    requires
        varint_at(s) is Some,
    ensures
        varint_at(s + t) == varint_at(s),
{
    lemma_varint_len_bounds(s, 0);
    lemma_varint_prefix(s, s + t, 0);
    let n = varint_len_from(s, 0)->0;
    assert((s + t).take(n as int) =~= s.take(n as int));
}

/// How many bytes a varint of `s` takes: between one and ten, within `s`.
pub proof fn lemma_varint_at_bounds(s: Seq<u8>)
    ensures
        varint_at(s) matches Some((v, n)) ==> 1 <= n <= s.len() && n <= 10,
{
    lemma_varint_len_bounds(s, 0);
}


/// One field of a message: its tag, its wire type, the number it carries (wire
/// type 0) and the bytes it carries (wire types 1, 2 and 5).
pub type FieldView = (u32, u8, u64, Seq<u8>);

/// One field of a message as decoded.
pub struct Field {
    pub tag: u32,
    pub wire: u8,
    pub num: u64,
    pub data: Vec<u8>,
}

impl View for Field {
    type V = FieldView;

    open spec fn view(&self) -> FieldView {
        (self.tag, self.wire, self.num, self.data@)
    }
}

/// The field at the start of `s` and the number of bytes it takes. A key is a
/// varint within 32 bits whose tag is not zero; wire type 0 carries a varint,
/// 1 eight bytes, 2 a varint length and that many bytes, 5 four bytes. Groups
/// (wire types 3 and 4) and unknown wire types are malformed.
pub open spec fn field_at(s: Seq<u8>) -> Option<(FieldView, nat)> {
    match varint_at(s) {
        None => None,
        Some((key, n)) => {
            let r = s.skip(n as int);
            let tag = (key / 8) as u32;
            if key > u32::MAX || key / 8 == 0 {
                None
            } else if key % 8 == 0 {
                match varint_at(r) {
                    Some((v, m)) => Some(((tag, 0u8, v as u64, Seq::<u8>::empty()), n + m)),
                    None => None,
                }
            } else if key % 8 == 2 {
                match varint_at(r) {
                    Some((len, m)) => if m + len <= r.len() {
                        Some(((tag, 2u8, 0u64, r.subrange(m as int, (m + len) as int)), n + m + len))
                    } else {
                        None
                    },
                    None => None,
                }
            } else if key % 8 == 1 {
                if 8 <= r.len() {
                    Some(((tag, 1u8, 0u64, r.take(8)), n + 8))
                } else {
                    None
                }
            } else if key % 8 == 5 {
                if 4 <= r.len() {
                    Some(((tag, 5u8, 0u64, r.take(4)), n + 4))
                } else {
                    None
                }
            } else {
                None
            }
        },
    }
}

/// The fields of a message that takes the whole of `s`, in order, or `None`
/// where the bytes do not split into fields.
pub open spec fn fields_of(s: Seq<u8>) -> Option<Seq<FieldView>>
    decreases s.len(),
{
    if s.len() == 0 {
        Some(Seq::empty())
    } else {
        match field_at(s) {
            Some((f, n)) => if 0 < n <= s.len() {
                match fields_of(s.skip(n as int)) {
                    Some(rest) => Some(seq![f] + rest),
                    None => None,
                }
            } else {
                None
            },
            None => None,
        }
    }
}

/// The frames of a length-delimited stream that takes the whole of `s`: each is
/// a varint length followed by that many bytes.
pub open spec fn frames_of(s: Seq<u8>) -> Option<Seq<Seq<u8>>>
    decreases s.len(),
{
    if s.len() == 0 {
        Some(Seq::empty())
    } else {
        match varint_at(s) {
            Some((len, m)) => if 0 < m && m + len <= s.len() {
                match frames_of(s.skip((m + len) as int)) {
                    Some(rest) => Some(seq![s.subrange(m as int, (m + len) as int)] + rest),
                    None => None,
                }
            } else {
                None
            },
            None => None,
        }
    }
}

/// A field takes at least one byte and no more than there are.
pub proof fn lemma_field_at_bounds(s: Seq<u8>)
    ensures
        field_at(s) matches Some((f, n)) ==> 0 < n <= s.len(),
{
    lemma_varint_at_bounds(s);
    if let Some((key, n)) = varint_at(s) {
        lemma_varint_at_bounds(s.skip(n as int));
    }
}

/// Reads the field that starts at `pos`, and the position after it.
fn read_field(buf: &[u8], pos: usize) -> (r: Option<(Field, usize)>)
    requires
        pos <= buf@.len(),
    ensures
        match field_at(buf@.skip(pos as int)) {
            Some((f, n)) => r matches Some((g, next)) && g@ == f && next == pos + n,
            None => r is None,
        },
{
    let ghost s = buf@.skip(pos as int);
    proof { lemma_varint_at_bounds(s); }
    let (key, rest) = match decode_varint_at(buf, pos) {
        Some(x) => x,
        None => return None,
    };
    let p: usize = buf.len() - rest;
    if key > 0xffff_ffffu64 || key / 8 == 0 {
        return None;
    }
    let tag: u32 = (key / 8) as u32;
    let wire: u64 = key % 8;
    let ghost r = s.skip((p - pos) as int);
    assert(buf@.skip(p as int) =~= r);
    proof { lemma_varint_at_bounds(r); }
    if wire == 0 {
        match decode_varint_at(buf, p) {
            Some((v, rest2)) => {
                let next: usize = buf.len() - rest2;
                Some((Field { tag, wire: 0, num: v, data: Vec::new() }, next))
            },
            None => None,
        }
    } else if wire == 2 {
        match decode_varint_at(buf, p) {
            Some((len, rest2)) => {
                if len > rest2 as u64 {
                    return None;
                }
                let start: usize = buf.len() - rest2;
                let end: usize = start + len as usize;
                let data = slice_to_vec(buf, start, end);
                assert(data@ =~= r.subrange((start - p) as int, (end - p) as int));
                Some((Field { tag, wire: 2, num: 0, data }, end))
            },
            None => None,
        }
    } else if wire == 1 || wire == 5 {
        let width: usize = if wire == 1 { 8 } else { 4 };
        if width > buf.len() - p {
            return None;
        }
        let data = slice_to_vec(buf, p, p + width);
        assert(data@ =~= r.take(width as int));
        Some((Field { tag, wire: wire as u8, num: 0, data }, p + width))
    } else {
        None
    }
}

/// The bytes of `buf` from `start` up to `end`.
pub fn slice_to_vec(buf: &[u8], start: usize, end: usize) -> (r: Vec<u8>)
    requires
        start <= end <= buf@.len(),
    ensures
        r@ == buf@.subrange(start as int, end as int),
{
    let mut r: Vec<u8> = Vec::with_capacity(end - start);
    let mut i: usize = start;
    while i < end
        invariant
            start <= i <= end <= buf@.len(),
            r@ == buf@.subrange(start as int, i as int),
        decreases end - i,
    {
        r.push(buf[i]);
        i += 1;
        assert(r@ =~= buf@.subrange(start as int, i as int));
    }
    r
}

/// Splits a message that takes the whole of `buf` into its fields.
pub fn decode_fields(buf: &[u8]) -> (r: Option<Vec<Field>>)
    ensures
        match fields_of(buf@) {
            Some(fs) => r matches Some(v) && v@.map_values(|f: Field| f@) == fs,
            None => r is None,
        },
{
    let mut out: Vec<Field> = Vec::new();
    let mut pos: usize = 0;
    assert(buf@.skip(0) =~= buf@);
    while pos < buf.len()
        invariant
            pos <= buf@.len(),
            fields_of(buf@) == match fields_of(buf@.skip(pos as int)) {
                Some(rest) => Some(out@.map_values(|f: Field| f@) + rest),
                None => None,
            },
        decreases buf@.len() - pos,
    {
        let ghost s = buf@.skip(pos as int);
        match read_field(buf, pos) {
            Some((f, next)) => {
                let ghost n = (next - pos) as nat;
                proof { lemma_field_at_bounds(s); }
                assert(buf@.skip(next as int) =~= s.skip(n as int));
                let ghost old_out = out@.map_values(|f: Field| f@);
                out.push(f);
                assert(out@.map_values(|f: Field| f@) =~= old_out.push(f@));
                proof {
                    if let Some(rest) = fields_of(s.skip(n as int)) {
                        assert(old_out + (seq![f@] + rest) =~= old_out.push(f@) + rest);
                    }
                }
                pos = next;
            },
            None => return None,
        }
    }
    assert(buf@.skip(pos as int) =~= Seq::<u8>::empty());
    assert(out@.map_values(|f: Field| f@) + Seq::<FieldView>::empty() =~= out@.map_values(|f: Field| f@));
    Some(out)
}


/// Splits a length-delimited stream that takes the whole of `buf` into its
/// frames; `None` where the stream ends inside a length or inside a frame.
pub fn split_frames(buf: &[u8]) -> (r: Option<Vec<Vec<u8>>>)
    ensures
        match frames_of(buf@) {
            Some(fs) => r matches Some(v) && v@.map_values(|f: Vec<u8>| f@) == fs,
            None => r is None,
        },
{
    let mut out: Vec<Vec<u8>> = Vec::new();
    let mut pos: usize = 0;
    assert(buf@.skip(0) =~= buf@);
    while pos < buf.len()
        invariant
            pos <= buf@.len(),
            frames_of(buf@) == match frames_of(buf@.skip(pos as int)) {
                Some(rest) => Some(out@.map_values(|f: Vec<u8>| f@) + rest),
                None => None,
            },
        decreases buf@.len() - pos,
    {
        let ghost s = buf@.skip(pos as int);
        proof { lemma_varint_at_bounds(s); }
        let (len, rest) = match decode_varint_at(buf, pos) {
            Some(x) => x,
            None => return None,
        };
        if len > rest as u64 {
            return None;
        }
        let start: usize = buf.len() - rest;
        let end: usize = start + len as usize;
        let frame = slice_to_vec(buf, start, end);
        let ghost m = (start - pos) as nat;
        assert(frame@ =~= s.subrange(m as int, (m + len) as int));
        assert(buf@.skip(end as int) =~= s.skip((m + len) as int));
        let ghost old_out = out@.map_values(|f: Vec<u8>| f@);
        out.push(frame);
        assert(out@.map_values(|f: Vec<u8>| f@) =~= old_out.push(frame@));
        proof {
            if let Some(more) = frames_of(s.skip((m + len) as int)) {
                assert(old_out + (seq![frame@] + more) =~= old_out.push(frame@) + more);
            }
        }
        pos = end;
    }
    assert(buf@.skip(pos as int) =~= Seq::<u8>::empty());
    assert(out@.map_values(|f: Vec<u8>| f@) + Seq::<Seq<u8>>::empty() =~= out@.map_values(
        |f: Vec<u8>| f@,
    ));
    Some(out)
}

/// Two well-formed length-delimited streams, written one after the other, form
/// a stream whose frames are those of the first followed by those of the second.
pub proof fn lemma_frames_concat(a: Seq<u8>, b: Seq<u8>)
    requires
        frames_of(a) is Some,
        frames_of(b) is Some,
    ensures
        frames_of(a + b) == Some(frames_of(a)->0 + frames_of(b)->0),
    decreases a.len(),
{
    if a.len() == 0 {
        assert(a + b =~= b);
        assert(frames_of(a)->0 + frames_of(b)->0 =~= frames_of(b)->0);
    } else {
        let (len, m) = varint_at(a)->0;
        lemma_varint_at_prefix(a, b);
        let k = (m + len) as int;
        assert((a + b).skip(k) =~= a.skip(k) + b);
        assert((a + b).subrange(m as int, k) =~= a.subrange(m as int, k));
        lemma_frames_concat(a.skip(k), b);
        let head = seq![a.subrange(m as int, k)];
        let ra = frames_of(a.skip(k))->0;
        assert(head + (ra + frames_of(b)->0) =~= (head + ra) + frames_of(b)->0);
    }
}

} // verus!
