//! Diagnostics for a read-back that differs from what was written.

use vstd::prelude::*;

use crate::flash::bsl_io::least;
use crate::text::{decimal, hex, padded_left, push_decimal, push_hex_padded};

verus! {

/// How many of the first `n` bytes differ.
pub open spec fn differing(a: Seq<u8>, b: Seq<u8>, n: int) -> nat
    decreases n,
{
    if n <= 0 {
        0
    } else {
        differing(a, b, n - 1) + if a[n - 1] != b[n - 1] {
            1nat
        } else {
            0
        }
    }
}

/// The first place at or after `from` where the bytes differ, or 0 if there is
/// none.
pub open spec fn first_difference(a: Seq<u8>, b: Seq<u8>, from: int) -> int
    decreases a.len() - from,
{
    if from >= a.len() {
        0
    } else if a[from] != b[from] {
        from
    } else {
        first_difference(a, b, from + 1)
    }
}

/// Some bytes in hexadecimal, two digits each, with commas between them.
pub open spec fn hex_items(s: Seq<u8>) -> Seq<char>
    decreases s.len(),
{
    if s.len() == 0 {
        Seq::empty()
    } else if s.len() == 1 {
        padded_left(hex(s[0] as nat), '0', 2)
    } else {
        hex_items(s.drop_last()) + ", "@ + padded_left(hex(s.last() as nat), '0', 2)
    }
}

/// Some bytes in hexadecimal, in brackets.
pub open spec fn hex_list(s: Seq<u8>) -> Seq<char> {
    "["@ + hex_items(s) + "]"@
}

/// How a read-back differs from the written image: in length; or in how many
/// bytes, where first, and what stands there.
pub open spec fn mismatch(expected: Seq<u8>, actual: Seq<u8>) -> Seq<char> {
    if expected.len() != actual.len() {
        "read-back length "@ + decimal(actual.len()) + " != written "@ + decimal(expected.len())
            + " bytes"@
    } else {
        let first = first_difference(expected, actual, 0);
        let end = least(first + 16, expected.len() as int);
        decimal(differing(expected, actual, expected.len() as int)) + "/"@ + decimal(
            expected.len(),
        ) + " bytes differ; first at offset "@ + decimal(first as nat) + "; expected "@ + hex_list(
            expected.subrange(first, end),
        ) + " got "@ + hex_list(actual.subrange(first, end))
    }
}

/// Append some bytes in hexadecimal, in brackets.
fn push_hex_list(out: &mut String, s: &[u8])
    ensures
        final(out)@ == old(out)@ + hex_list(s@),
{
    let ghost before = out@;
    out.append("[");
    let mut i: usize = 0;
    proof {
        assert(before + "["@ + hex_items(s@.take(0)) =~= before + "["@);
    }
    while i < s.len()
        invariant
            i <= s@.len(),
            out@ == before + "["@ + hex_items(s@.take(i as int)),
        decreases s.len() - i,
    {
        proof {
            assert(s@.take(i + 1).drop_last() =~= s@.take(i as int));
        }
        if i > 0 {
            out.append(", ");
        }
        push_hex_padded(out, s[i] as u64, 2);
        i += 1;
        proof {
            assert(out@ =~= before + "["@ + hex_items(s@.take(i as int)));
        }
    }
    out.append("]");
    proof {
        assert(s@.take(i as int) =~= s@);
        assert(out@ =~= before + hex_list(s@));
    }
}

/// Summarize how a read-back differs from the written image, for diagnostics.
#[must_use]
pub fn describe_mismatch(expected: &[u8], actual: &[u8]) -> (r: String)
    ensures
        r@ == mismatch(expected@, actual@),
{
    let mut out: String = String::new();
    if expected.len() != actual.len() {
        out.append("read-back length ");
        push_decimal(&mut out, actual.len() as u64);
        out.append(" != written ");
        push_decimal(&mut out, expected.len() as u64);
        out.append(" bytes");
        proof {
            assert(out@ =~= mismatch(expected@, actual@));
        }
        return out;
    }
    let n: usize = expected.len();
    let mut differ: usize = 0;
    let mut first: usize = 0;
    let mut i: usize = 0;
    while i < n
        invariant
            n == expected@.len(),
            n == actual@.len(),
            i <= n,
            differ <= i,
            differ == differing(expected@, actual@, i as int),
            differ == 0 ==> first == 0 && first_difference(expected@, actual@, 0)
                == first_difference(expected@, actual@, i as int),
            differ > 0 ==> first == first_difference(expected@, actual@, 0),
            first <= i,
        decreases n - i,
    {
        if expected[i] != actual[i] {
            if differ == 0 {
                first = i;
            }
            differ += 1;
        }
        i += 1;
    }
    let end: usize = if n - first < 16 {
        n
    } else {
        first + 16
    };
    push_decimal(&mut out, differ as u64);
    out.append("/");
    push_decimal(&mut out, n as u64);
    out.append(" bytes differ; first at offset ");
    push_decimal(&mut out, first as u64);
    out.append("; expected ");
    push_hex_list(&mut out, vstd::slice::slice_subrange(expected, first, end));
    out.append(" got ");
    push_hex_list(&mut out, vstd::slice::slice_subrange(actual, first, end));
    proof {
        assert(out@ =~= mismatch(expected@, actual@));
    }
    out
}

/// The first place where two byte strings differ: they do there, and nowhere before.
pub proof fn law_first_difference(a: Seq<u8>, b: Seq<u8>)
    requires
        a.len() == b.len(),
        a != b,
    ensures
        ({
            let at = first_difference(a, b, 0);
            &&& 0 <= at < a.len()
            &&& a[at] != b[at]
            &&& a.take(at) == b.take(at)
        }),
{
    lemma_first_difference(a, b, 0);
    let at = first_difference(a, b, 0);
    if forall|k: int| 0 <= k < a.len() ==> #[trigger] a[k] == b[k] {
        assert(a =~= b);
    }
    assert(a.take(at) =~= b.take(at));
}

proof fn lemma_first_difference(a: Seq<u8>, b: Seq<u8>, from: int)
    requires
        a.len() == b.len(),
        0 <= from,
    ensures
        ({
            let at = first_difference(a, b, from);
            ||| from <= at < a.len() && a[at] != b[at] && forall|k: int|
                from <= k < at ==> #[trigger] a[k] == b[k]
            ||| at == 0 && forall|k: int| from <= k < a.len() ==> #[trigger] a[k] == b[k]
        }),
    decreases a.len() - from,
{
    if from < a.len() && a[from] == b[from] {
        lemma_first_difference(a, b, from + 1);
    }
}

/// How many bytes differ: none just if there is no difference; one byte more adds one just if
/// it differs from the one in its place.
pub proof fn law_differing(a: Seq<u8>, b: Seq<u8>, x: u8, y: u8)
    requires
        a.len() == b.len(),
    ensures
        differing(a, b, a.len() as int) <= a.len(),
        differing(a, b, a.len() as int) == 0 <==> a == b,
        differing(a.push(x), b.push(y), a.len() as int + 1) == differing(a, b, a.len() as int) + if x
            != y {
            1nat
        } else {
            0
        },
{
    let n = a.len() as int;
    assert(a.push(x).take(n) =~= a && b.push(y).take(n) =~= b);
    lemma_differing_before(a, b, a.push(x), b.push(y), n);
    lemma_differing_none(a, b, n);
    assert(a.take(n) =~= a && b.take(n) =~= b);
}

proof fn lemma_differing_before(a: Seq<u8>, b: Seq<u8>, c: Seq<u8>, d: Seq<u8>, n: int)
    requires
        n <= a.len() <= c.len(),
        a.len() == b.len() <= d.len(),
        c.take(a.len() as int) == a,
        d.take(b.len() as int) == b,
    ensures
        differing(a, b, n) == differing(c, d, n),
    decreases n,
{
    if n > 0 {
        lemma_differing_before(a, b, c, d, n - 1);
        assert(c.take(a.len() as int)[n - 1] == c[n - 1]);
        assert(d.take(b.len() as int)[n - 1] == d[n - 1]);
    }
}

proof fn lemma_differing_none(a: Seq<u8>, b: Seq<u8>, n: int)
    requires
        0 <= n <= a.len(),
        a.len() == b.len(),
    ensures
        differing(a, b, n) <= n,
        differing(a, b, n) == 0 <==> a.take(n) == b.take(n),
    decreases n,
{
    if n > 0 {
        lemma_differing_none(a, b, n - 1);
        assert(a.take(n) =~= a.take(n - 1).push(a[n - 1]));
        assert(b.take(n) =~= b.take(n - 1).push(b[n - 1]));
        if a.take(n) == b.take(n) {
            assert(a.take(n)[n - 1] == b.take(n)[n - 1]);
            assert(a.take(n).take(n - 1) =~= a.take(n - 1));
            assert(b.take(n).take(n - 1) =~= b.take(n - 1));
        }
    } else {
        assert(a.take(0) =~= b.take(0));
    }
}

/// Bytes are listed in their order, with a comma and a space between any two.
pub proof fn law_hex_items(a: Seq<u8>, b: Seq<u8>)
    requires
        a.len() > 0,
        b.len() > 0,
    ensures
        hex_items(a + b) == hex_items(a) + ", "@ + hex_items(b),
        a.len() == 1 ==> hex_items(a) == padded_left(hex(a[0] as nat), '0', 2),
    decreases b.len(),
{
    assert((a + b).drop_last() =~= a + b.drop_last());
    if b.len() > 1 {
        law_hex_items(a, b.drop_last());
        assert(hex_items(a + b) =~= hex_items(a) + ", "@ + hex_items(b));
    } else {
        assert((a + b).drop_last() =~= a);
    }
}

/// What is said of a read-back: if its length is wrong, both lengths; else how many bytes of how
/// many differ, and where the first of them is.
pub proof fn law_mismatch_is_described(expected: Seq<u8>, actual: Seq<u8>)
    ensures
        ({
            let said = mismatch(expected, actual);
            let n = decimal(differing(expected, actual, expected.len() as int));
            let first = decimal(first_difference(expected, actual, 0) as nat);
            &&& expected.len() != actual.len() ==> crate::text::holds(
                said,
                "length "@ + decimal(actual.len()) + " != written "@,
            ) && crate::text::holds(said, " != written "@ + decimal(expected.len()) + " bytes"@)
            &&& expected.len() == actual.len() ==> crate::text::opens(said, n + "/"@)
                && crate::text::holds(said, "/"@ + decimal(expected.len()) + " bytes differ"@)
                && crate::text::holds(said, "first at offset "@ + first + "; "@)
        }),
{
    let said = mismatch(expected, actual);
    let none = Seq::<char>::empty();
    if expected.len() != actual.len() {
        let s0 = "read-back length "@;
        let s1 = " != written "@;
        let s2 = " bytes"@;
        let a = decimal(actual.len());
        let e = decimal(expected.len());
        assert(crate::text::closes(s0, "length "@)) by {
            reveal_strlit("read-back length ");
            reveal_strlit("length ");
            assert(s0.skip(s0.len() - "length "@.len()) =~= "length "@);
        }
        assert(s1.take(s1.len() as int) =~= s1);
        assert(s1.skip(0) =~= s1);
        assert(s2.take(s2.len() as int) =~= s2);
        crate::text::lemma_holds_between(none, s0, a, s1, e + s2, "length "@, s1);
        crate::text::lemma_holds_between(s0 + a, s1, e, s2, none, s1, s2);
        assert(said =~= none + s0 + a + s1 + (e + s2));
        assert(said =~= s0 + a + s1 + e + s2 + none);
    } else {
        let n = decimal(differing(expected, actual, expected.len() as int));
        let e = decimal(expected.len());
        let at = first_difference(expected, actual, 0);
        let end = least(at + 16, expected.len() as int);
        let first = decimal(at as nat);
        let s1 = "/"@;
        let s2 = " bytes differ; first at offset "@;
        let s3 = "; expected "@;
        let rest = hex_list(expected.subrange(at, end)) + " got "@ + hex_list(
            actual.subrange(at, end),
        );
        assert(crate::text::opens(s2, " bytes differ"@) && crate::text::closes(
            s2,
            "first at offset "@,
        )) by {
            reveal_strlit(" bytes differ; first at offset ");
            reveal_strlit(" bytes differ");
            reveal_strlit("first at offset ");
            assert(s2.take(" bytes differ"@.len() as int) =~= " bytes differ"@);
            assert(s2.skip(s2.len() - "first at offset "@.len()) =~= "first at offset "@);
        }
        assert(crate::text::opens(s3, "; "@)) by {
            reveal_strlit("; expected ");
            reveal_strlit("; ");
            assert(s3.take(2) =~= "; "@);
        }
        assert(s1.skip(0) =~= s1);
        crate::text::lemma_holds_between(n, s1, e, s2, first + s3 + rest, s1, " bytes differ"@);
        crate::text::lemma_holds_between(
            n + s1 + e,
            s2,
            first,
            s3,
            rest,
            "first at offset "@,
            "; "@,
        );
        assert(said =~= n + s1 + e + s2 + (first + s3 + rest));
        assert(said =~= n + s1 + e + s2 + first + s3 + rest);
        assert(said.take((n + s1).len() as int) =~= n + s1);
    }
}

} // verus!
