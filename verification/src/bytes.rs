//! Fixed-width integers as byte sequences, in both byte orders.
//!
//! The values are stated arithmetically, so that frame and file layouts can be
//! reasoned about without bit operations.

use vstd::prelude::*;

verus! {

/// The value of two bytes, most significant first.
pub open spec fn be16(hi: u8, lo: u8) -> u16 {
    (hi * 256 + lo) as u16
}

/// The value of four bytes, most significant first.
pub open spec fn be32(a: u8, b: u8, c: u8, d: u8) -> u32 {
    (a * 16777216 + b * 65536 + c * 256 + d) as u32
}

/// The value of the two bytes of `s` at `off`, least significant first.
pub open spec fn le16_at(s: Seq<u8>, off: int) -> u16 {
    be16(s[off + 1], s[off])
}

/// The value of the four bytes of `s` at `off`, least significant first.
pub open spec fn le32_at(s: Seq<u8>, off: int) -> u32 {
    be32(s[off + 3], s[off + 2], s[off + 1], s[off])
}

/// The value of the two bytes of `s` at `off`, most significant first.
pub open spec fn be16_at(s: Seq<u8>, off: int) -> u16 {
    be16(s[off], s[off + 1])
}

/// The value of the four bytes of `s` at `off`, most significant first.
pub open spec fn be32_at(s: Seq<u8>, off: int) -> u32 {
    be32(s[off], s[off + 1], s[off + 2], s[off + 3])
}

/// The two bytes of `v`, most significant first.
pub open spec fn be16_bytes(v: u16) -> Seq<u8> {
    seq![(v / 256) as u8, (v % 256) as u8]
}

/// The four bytes of `v`, most significant first.
pub open spec fn be32_bytes(v: u32) -> Seq<u8> {
    seq![
        (v / 16777216) as u8,
        (v / 65536 % 256) as u8,
        (v / 256 % 256) as u8,
        (v % 256) as u8,
    ]
}

/// The two bytes of `v`, least significant first.
pub open spec fn le16_bytes(v: u16) -> Seq<u8> {
    seq![(v % 256) as u8, (v / 256) as u8]
}

/// The four bytes of `v`, least significant first.
pub open spec fn le32_bytes(v: u32) -> Seq<u8> {
    seq![
        (v % 256) as u8,
        (v / 256 % 256) as u8,
        (v / 65536 % 256) as u8,
        (v / 16777216) as u8,
    ]
}

/// Writing a 16-bit value and reading it back gives the value, in either order.
pub proof fn law_16_bit_roundtrip(v: u16)
    ensures
        be16_at(be16_bytes(v), 0) == v,
        le16_at(le16_bytes(v), 0) == v,
{
}

/// Writing a 32-bit value and reading it back gives the value, in either order.
pub proof fn law_32_bit_roundtrip(v: u32)
    ensures
        be32_at(be32_bytes(v), 0) == v,
        le32_at(le32_bytes(v), 0) == v,
{
}

/// What the bytes of a 16-bit value are: two digits to the base 256, in either order.
pub proof fn law_16_bit_digits(v: u16)
    ensures
        be16_bytes(v).len() == 2,
        le16_bytes(v).len() == 2,
        256 * be16_bytes(v)[0] + be16_bytes(v)[1] == v,
        le16_bytes(v)[0] + 256 * le16_bytes(v)[1] == v,
{
}

/// What the bytes of a 32-bit value are: four digits to the base 256, in either order.
pub proof fn law_32_bit_digits(v: u32)
    ensures
        be32_bytes(v).len() == 4,
        le32_bytes(v).len() == 4,
        16777216 * be32_bytes(v)[0] + 65536 * be32_bytes(v)[1] + 256 * be32_bytes(v)[2]
            + be32_bytes(v)[3] == v,
        le32_bytes(v)[0] + 256 * le32_bytes(v)[1] + 65536 * le32_bytes(v)[2] + 16777216
            * le32_bytes(v)[3] == v,
{
}

/// What is read from some bytes: digits to the base 256, in either order.
pub proof fn law_fields_are_digits(s: Seq<u8>, off: int)
    requires
        0 <= off,
    ensures
        off + 2 <= s.len() ==> be16_at(s, off) == 256 * s[off] + s[off + 1],
        off + 2 <= s.len() ==> le16_at(s, off) == s[off] + 256 * s[off + 1],
        off + 4 <= s.len() ==> be32_at(s, off) == 16777216 * s[off] + 65536 * s[off + 1] + 256
            * s[off + 2] + s[off + 3],
        off + 4 <= s.len() ==> le32_at(s, off) == s[off] + 256 * s[off + 1] + 65536 * s[off + 2]
            + 16777216 * s[off + 3],
{
}

/// Three fields of four bytes, one after the other.
pub proof fn lemma_three_fields(a: Seq<u8>, b: Seq<u8>, c: Seq<u8>)
    requires
        a.len() == 4,
        b.len() == 4,
        c.len() == 4,
    ensures
        ({
            let p = a + b + c;
            &&& p.len() == 12
            &&& p[0] == a[0] && p[1] == a[1] && p[2] == a[2] && p[3] == a[3]
            &&& p[4] == b[0] && p[5] == b[1] && p[6] == b[2] && p[7] == b[3]
            &&& p[8] == c[0] && p[9] == c[1] && p[10] == c[2] && p[11] == c[3]
        }),
{
}

/// Two bytes as a value, most significant first.
pub fn join_be16(hi: u8, lo: u8) -> (v: u16)
    ensures
        v == be16(hi, lo),
{
    hi as u16 * 256 + lo as u16
}

/// Four bytes as a value, most significant first.
pub fn join_be32(a: u8, b: u8, c: u8, d: u8) -> (v: u32)
    ensures
        v == be32(a, b, c, d),
{
    a as u32 * 16777216 + b as u32 * 65536 + c as u32 * 256 + d as u32
}

/// Append `v` to `out`, most significant byte first.
pub fn push_be16(out: &mut Vec<u8>, v: u16)
    ensures
        final(out)@ == old(out)@ + be16_bytes(v),
{
    out.push((v / 256) as u8);
    out.push((v % 256) as u8);
}

/// Append `v` to `out`, most significant byte first.
pub fn push_be32(out: &mut Vec<u8>, v: u32)
    ensures
        final(out)@ == old(out)@ + be32_bytes(v),
{
    out.push((v / 16777216) as u8);
    out.push((v / 65536 % 256) as u8);
    out.push((v / 256 % 256) as u8);
    out.push((v % 256) as u8);
}

/// Append `v` to `out`, least significant byte first.
pub fn push_le32(out: &mut Vec<u8>, v: u32)
    ensures
        final(out)@ == old(out)@ + le32_bytes(v),
{
    out.push((v % 256) as u8);
    out.push((v / 256 % 256) as u8);
    out.push((v / 65536 % 256) as u8);
    out.push((v / 16777216) as u8);
}

/// The first place of `value` in `s` at or after `from`.
pub open spec fn index_from(s: Seq<u8>, value: u8, from: int) -> Option<int>
    decreases s.len() - from,
{
    if from < 0 || from >= s.len() {
        None
    } else if s[from] == value {
        Some(from)
    } else {
        index_from(s, value, from + 1)
    }
}

/// What [`index_from`] finds is the least place that holds the value.
pub proof fn lemma_index_from(s: Seq<u8>, value: u8, from: int)
    requires
        0 <= from,
    ensures
        match index_from(s, value, from) {
            Some(i) => from <= i < s.len() && s[i] == value && forall|k: int|
                from <= k < i ==> s[k] != value,
            None => forall|k: int| from <= k < s.len() ==> s[k] != value,
        },
    decreases s.len() - from,
{
    if from < s.len() && s[from] != value {
        lemma_index_from(s, value, from + 1);
    }
}

/// A place that holds the value with none before it is what [`index_from`] finds.
pub proof fn lemma_index_from_is(s: Seq<u8>, value: u8, from: int, at: int)
    requires
        0 <= from <= at < s.len(),
        s[at] == value,
        forall|k: int| from <= k < at ==> s[k] != value,
    ensures
        index_from(s, value, from) == Some(at),
    decreases at - from,
{
    if from < at {
        lemma_index_from_is(s, value, from + 1, at);
    }
}

/// The first place of `value` in `s` at or after `from`.
pub fn find_byte(s: &[u8], value: u8, from: usize) -> (r: Option<usize>)
    ensures
        match r {
            Some(i) => index_from(s@, value, from as int) == Some(i as int) && from <= i < s.len()
                && s@[i as int] == value,
            None => index_from(s@, value, from as int) is None,
        },
{
    let mut i: usize = from;
    while i < s.len()
        invariant
            from <= i,
            index_from(s@, value, from as int) == index_from(s@, value, i as int),
        decreases s.len() - i,
    {
        if s[i] == value {
            return Some(i);
        }
        i += 1;
    }
    None
}

/// A copy of the bytes of `s` from `from` up to `to`.
pub fn copy_range(s: &[u8], from: usize, to: usize) -> (r: Vec<u8>)
    requires
        from <= to <= s@.len(),
    ensures
        r@ == s@.subrange(from as int, to as int),
{
    let mut out: Vec<u8> = Vec::with_capacity(to - from);
    let mut i: usize = from;
    while i < to
        invariant
            from <= i <= to <= s@.len(),
            out@ == s@.subrange(from as int, i as int),
        decreases to - i,
    {
        out.push(s[i]);
        i += 1;
    }
    out
}

/// Whether two byte strings are the same.
pub fn same_bytes(a: &[u8], b: &[u8]) -> (r: bool)
    ensures
        r == (a@ == b@),
{
    if a.len() != b.len() {
        return false;
    }
    let mut i: usize = 0;
    while i < a.len()
        invariant
            i <= a@.len() == b@.len(),
            forall|k: int| 0 <= k < i ==> a@[k] == b@[k],
        decreases a.len() - i,
    {
        if a[i] != b[i] {
            return false;
        }
        i += 1;
    }
    proof {
        assert(a@ =~= b@);
    }
    true
}

/// What is kept of some items is kept item by item, in their order.
pub(crate) proof fn lemma_kept_around<A>(a: Seq<A>, x: A, b: Seq<A>, keep: spec_fn(A) -> bool)
    ensures
        Seq::<A>::empty().filter(keep) == Seq::<A>::empty(),
        (a + seq![x] + b).filter(keep) == a.filter(keep) + (if keep(x) {
            seq![x]
        } else {
            Seq::empty()
        }) + b.filter(keep),
{
    reveal_with_fuel(Seq::filter, 2);
    Seq::filter_distributes_over_add(a + seq![x], b, keep);
    Seq::filter_distributes_over_add(a, seq![x], keep);
    assert(seq![x].drop_last() =~= Seq::<A>::empty());
    assert(seq![x].filter(keep) =~= if keep(x) {
        seq![x]
    } else {
        Seq::empty()
    });
}

} // verus!
