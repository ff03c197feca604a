//! Text as sequences of characters: numbers in decimal and hexadecimal, padding,
//! ASCII case, trimming and searching.

use vstd::prelude::*;

verus! {

// ---------------------------------------------------------------------------
// What is taken from std as it stands
// ---------------------------------------------------------------------------

/// `String::push` appends one character.
pub assume_specification[ String::push ](s: &mut String, c: char)
    ensures
        final(s)@ == old(s)@.push(c),
;

/// The Unicode scalar values: every code point but the surrogates.
pub open spec fn is_scalar(i: u32) -> bool {
    i < 0xD800 || 0xE000 <= i <= 0x10FFFF
}

/// `char::from_u32` gives the character of a scalar value, and nothing for any
/// other number.
pub assume_specification[ char::from_u32 ](i: u32) -> (r: Option<char>)
    ensures
        r == if is_scalar(i) {
            Some(i as char)
        } else {
            None
        },
;

/// The characters with the Unicode property `White_Space`.
pub open spec fn is_space(c: char) -> bool {
    let u = c as u32;
    ||| 0x09 <= u <= 0x0D
    ||| u == 0x20
    ||| u == 0x85
    ||| u == 0xA0
    ||| u == 0x1680
    ||| 0x2000 <= u <= 0x200A
    ||| u == 0x2028
    ||| u == 0x2029
    ||| u == 0x202F
    ||| u == 0x205F
    ||| u == 0x3000
}

/// `char::is_whitespace` tests the Unicode property `White_Space`.
pub assume_specification[ char::is_whitespace ](c: char) -> (r: bool)
    ensures
        r == is_space(c),
;

/// The characters that `String::from_utf8_lossy` decodes from some bytes, with
/// U+FFFD in the place of what is not UTF-8.
pub uninterp spec fn utf8_lossy(bytes: Seq<u8>) -> Seq<char>;

/// `String::from_utf8_lossy`: bytes that are UTF-8 are decoded as such; what the
/// result is for other bytes is only named.
#[verifier::external_body]
pub(crate) fn decode_lossy(bytes: &[u8]) -> (r: String)
    ensures
        r@ == utf8_lossy(bytes@),
        vstd::utf8::valid_utf8(bytes@) ==> r@ == vstd::utf8::decode_utf8(bytes@),
{
    String::from_utf8_lossy(bytes).into_owned()
}

// ---------------------------------------------------------------------------
// Characters in and out of strings
// ---------------------------------------------------------------------------

/// The characters of `s`.
pub fn chars_of(s: &str) -> (r: Vec<char>)
    ensures
        r@ == s@,
{
    let mut out: Vec<char> = Vec::new();
    for c in it: s.chars()
        invariant
            it.seq() == s@,
            out@ == s@.take(it.index()),
    {
        out.push(c);
    }
    proof {
        assert(s@.take(s@.len() as int) =~= s@);
    }
    out
}

/// A string of the characters of `chars`.
pub fn string_of(chars: &[char]) -> (r: String)
    ensures
        r@ == chars@,
{
    let mut out: String = String::new();
    push_chars(&mut out, chars);
    proof {
        assert(out@ =~= chars@);
    }
    out
}

/// Append the characters of `chars`.
pub fn push_chars(out: &mut String, chars: &[char])
    ensures
        final(out)@ == old(out)@ + chars@,
{
    let ghost before = out@;
    let mut i: usize = 0;
    while i < chars.len()
        invariant
            i <= chars@.len(),
            out@ == before + chars@.take(i as int),
        decreases chars.len() - i,
    {
        out.push(chars[i]);
        i += 1;
        proof {
            assert(before + chars@.take(i as int) =~= (before + chars@.take(i - 1)).push(
                chars@[i - 1],
            ));
        }
    }
    proof {
        assert(chars@.take(i as int) =~= chars@);
    }
}

/// A string with the text of `s`.
pub fn owned(s: &str) -> (r: String)
    ensures
        r@ == s@,
{
    s.to_owned()
}

/// Whether two texts are the same.
pub fn same_text(a: &str, b: &str) -> (r: bool)
    ensures
        r == (a@ == b@),
{
    let x: Vec<char> = chars_of(a);
    let y: Vec<char> = chars_of(b);
    same_chars(&x, &y)
}

/// Whether two character sequences are the same.
pub fn same_chars(x: &[char], y: &[char]) -> (r: bool)
    ensures
        r == (x@ == y@),
{
    if x.len() != y.len() {
        return false;
    }
    let mut i: usize = 0;
    while i < x.len()
        invariant
            i <= x@.len() == y@.len(),
            forall|k: int| 0 <= k < i ==> x@[k] == y@[k],
        decreases x.len() - i,
    {
        if x[i] != y[i] {
            return false;
        }
        i += 1;
    }
    proof {
        assert(x@ =~= y@);
    }
    true
}

// ---------------------------------------------------------------------------
// ASCII case
// ---------------------------------------------------------------------------

/// `c` with an ASCII small letter made a capital.
pub open spec fn upper_char(c: char) -> char {
    if 'a' <= c <= 'z' {
        ((c as u8) - 32) as u8 as char
    } else {
        c
    }
}

/// `s` with its ASCII small letters made capitals.
pub open spec fn upper(s: Seq<char>) -> Seq<char> {
    s.map_values(|c: char| upper_char(c))
}

/// The characters of `s`, with ASCII small letters made capitals.
pub fn upper_chars(s: &str) -> (r: Vec<char>)
    ensures
        r@ == upper(s@),
{
    let chars: Vec<char> = chars_of(s);
    let mut out: Vec<char> = Vec::new();
    let mut i: usize = 0;
    while i < chars.len()
        invariant
            i <= chars@.len(),
            chars@ == s@,
            out@ == upper(s@).take(i as int),
        decreases chars.len() - i,
    {
        let c: char = chars[i];
        if 'a' <= c && c <= 'z' {
            let code: u8 = c as u8;
            out.push((code - 32) as char);
        } else {
            out.push(c);
        }
        i += 1;
        proof {
            assert(upper(s@).take(i as int) =~= upper(s@).take(i - 1).push(upper(s@)[i - 1]));
        }
    }
    proof {
        assert(upper(s@).take(i as int) =~= upper(s@));
    }
    out
}

// ---------------------------------------------------------------------------
// Prefixes, suffixes and places within a text
// ---------------------------------------------------------------------------

/// Whether `part` stands in `whole` at `at`.
pub open spec fn stands_at(whole: Seq<char>, part: Seq<char>, at: int) -> bool {
    &&& 0 <= at
    &&& at + part.len() <= whole.len()
    &&& whole.subrange(at, at + part.len()) == part
}

/// Whether `whole` begins with `part`.
pub open spec fn begins_with(whole: Seq<char>, part: Seq<char>) -> bool {
    stands_at(whole, part, 0)
}

/// Whether `whole` ends with `part`.
pub open spec fn finishes_with(whole: Seq<char>, part: Seq<char>) -> bool {
    stands_at(whole, part, whole.len() - part.len())
}

/// Whether `part` stands anywhere in `whole`.
pub open spec fn holds(whole: Seq<char>, part: Seq<char>) -> bool {
    exists|at: int| stands_at(whole, part, at)
}

/// Whether `part` stands in `whole` at `at`.
pub fn is_at(whole: &[char], part: &[char], at: usize) -> (r: bool)
    ensures
        r == stands_at(whole@, part@, at as int),
{
    if at > whole.len() || part.len() > whole.len() - at {
        return false;
    }
    let n: usize = whole.len();
    let mut i: usize = 0;
    while i < part.len()
        invariant
            i <= part@.len(),
            at + part@.len() <= whole@.len() == n,
            forall|k: int| 0 <= k < i ==> whole@[at + k] == part@[k],
        decreases part.len() - i,
    {
        if whole[at + i] != part[i] {
            proof {
                assert(whole@.subrange(at as int, at + part@.len())[i as int] == whole@[at + i]);
            }
            return false;
        }
        i += 1;
    }
    proof {
        assert(whole@.subrange(at as int, at + part@.len()) =~= part@);
    }
    true
}

/// Whether `whole` begins with `part`.
pub fn is_prefix(whole: &[char], part: &[char]) -> (r: bool)
    ensures
        r == begins_with(whole@, part@),
{
    is_at(whole, part, 0)
}

/// Whether `whole` ends with `part`.
pub fn is_suffix(whole: &[char], part: &[char]) -> (r: bool)
    ensures
        r == finishes_with(whole@, part@),
{
    if part.len() > whole.len() {
        return false;
    }
    is_at(whole, part, whole.len() - part.len())
}

/// Whether `part` stands anywhere in `whole`.
pub fn is_within(whole: &[char], part: &[char]) -> (r: bool)
    ensures
        r == holds(whole@, part@),
{
    let mut at: usize = 0;
    while at <= whole.len()
        invariant
            at <= whole@.len() + 1,
            forall|k: int| 0 <= k < at ==> !stands_at(whole@, part@, k),
        decreases whole.len() + 1 - at,
    {
        if is_at(whole, part, at) {
            return true;
        }
        if at == whole.len() {
            return false;
        }
        at += 1;
    }
    false
}

// ---------------------------------------------------------------------------
// Trimming
// ---------------------------------------------------------------------------

/// The place of the first character of `s` that is no white space, or its length.
pub open spec fn leading(s: Seq<char>) -> nat
    decreases s.len(),
{
    if s.len() > 0 && is_space(s[0]) {
        leading(s.drop_first()) + 1
    } else {
        0
    }
}

/// `s` without the white space at its end.
pub open spec fn trimmed_end(s: Seq<char>) -> Seq<char>
    decreases s.len(),
{
    if s.len() > 0 && is_space(s.last()) {
        trimmed_end(s.drop_last())
    } else {
        s
    }
}

/// `s` without the white space at either end.
pub open spec fn trimmed(s: Seq<char>) -> Seq<char> {
    trimmed_end(s.skip(leading(s) as int))
}

proof fn lemma_leading(s: Seq<char>)
    ensures
        leading(s) <= s.len(),
        forall|k: int| 0 <= k < leading(s) ==> is_space(#[trigger] s[k]),
        leading(s) < s.len() ==> !is_space(s[leading(s) as int]),
    decreases s.len(),
{
    if s.len() > 0 && is_space(s[0]) {
        let rest = s.drop_first();
        lemma_leading(rest);
        assert forall|k: int| 0 <= k < leading(s) implies is_space(#[trigger] s[k]) by {
            if k > 0 {
                assert(s[k] == rest[k - 1]);
            }
        }
    }
}

/// Trimming cuts `s` down to one stretch of it: only white space is cut, and what
/// is left neither begins nor ends with white space.
pub proof fn law_trimmed(s: Seq<char>)
    ensures
        exists|from: int, to: int|
            0 <= from <= to <= s.len() && trimmed(s) == #[trigger] s.subrange(from, to) && (forall|
                k: int,
            |
                0 <= k < from || to <= k < s.len() ==> is_space(#[trigger] s[k])),
        trimmed(s).len() > 0 ==> !is_space(trimmed(s)[0]) && !is_space(trimmed(s).last()),
{
    lemma_leading(s);
    let from = leading(s) as int;
    let rest = s.skip(from);
    lemma_trimmed_end(rest);
    let kept = trimmed_end(rest);
    let to = from + kept.len();
    assert(s.subrange(from, to) =~= kept);
    assert forall|k: int| 0 <= k < from || to <= k < s.len() implies is_space(#[trigger] s[k]) by {
        if k >= to {
            assert(s[k] == rest[k - from]);
        }
    }
}

proof fn lemma_trimmed_end(s: Seq<char>)
    ensures
        trimmed_end(s).len() <= s.len(),
        trimmed_end(s) == s.take(trimmed_end(s).len() as int),
        forall|k: int| trimmed_end(s).len() <= k < s.len() ==> is_space(#[trigger] s[k]),
        trimmed_end(s).len() > 0 ==> !is_space(trimmed_end(s).last()),
    decreases s.len(),
{
    if s.len() > 0 && is_space(s.last()) {
        let rest = s.drop_last();
        lemma_trimmed_end(rest);
        assert(trimmed_end(s) =~= s.take(trimmed_end(s).len() as int));
        assert forall|k: int| trimmed_end(s).len() <= k < s.len() implies is_space(
            #[trigger] s[k],
        ) by {
            if k < s.len() - 1 {
                assert(s[k] == rest[k]);
            }
        }
    } else {
        assert(s =~= s.take(s.len() as int));
    }
}

/// `s` without the white space at either end.
pub fn trim(s: &[char]) -> (r: Vec<char>)
    ensures
        r@ == trimmed(s@),
{
    let mut from: usize = 0;
    proof {
        assert(s@.skip(0) =~= s@);
    }
    while from < s.len() && s[from].is_whitespace()
        invariant
            from <= s@.len(),
            leading(s@) == from + leading(s@.skip(from as int)),
        decreases s.len() - from,
    {
        proof {
            assert(s@.skip(from as int).drop_first() =~= s@.skip(from + 1));
        }
        from += 1;
    }
    proof {
        assert(leading(s@.skip(from as int)) == 0);
    }
    let mut to: usize = s.len();
    proof {
        assert(s@.subrange(from as int, to as int) =~= s@.skip(from as int));
    }
    while to > from && s[to - 1].is_whitespace()
        invariant
            from <= to <= s@.len(),
            trimmed(s@) == trimmed_end(s@.subrange(from as int, to as int)),
        decreases to,
    {
        proof {
            assert(s@.subrange(from as int, to as int).drop_last() =~= s@.subrange(
                from as int,
                to - 1,
            ));
        }
        to -= 1;
    }
    let mut out: Vec<char> = Vec::new();
    let mut i: usize = from;
    while i < to
        invariant
            from <= i <= to <= s@.len(),
            out@ == s@.subrange(from as int, i as int),
        decreases to - i,
    {
        out.push(s[i]);
        i += 1;
        proof {
            assert(s@.subrange(from as int, i as int) =~= s@.subrange(from as int, i - 1).push(
                s@[i - 1],
            ));
        }
    }
    out
}

// ---------------------------------------------------------------------------
// Lines and fields
// ---------------------------------------------------------------------------

/// The first place of `c` in `s` at or after `from`.
pub open spec fn char_from(s: Seq<char>, c: char, from: int) -> Option<int>
    decreases s.len() - from,
{
    if from < 0 || from >= s.len() {
        None
    } else if s[from] == c {
        Some(from)
    } else {
        char_from(s, c, from + 1)
    }
}

proof fn lemma_char_from(s: Seq<char>, c: char, from: int)
    requires
        0 <= from,
    ensures
        char_from(s, c, from) matches Some(i) ==> from <= i < s.len() && s[i] == c,
    decreases s.len() - from,
{
    if from < s.len() && s[from] != c {
        lemma_char_from(s, c, from + 1);
    }
}

/// The first place of `c` in `s` at or after `from`.
pub fn find_char(s: &[char], c: char, from: usize) -> (r: Option<usize>)
    ensures
        match r {
            Some(i) => char_from(s@, c, from as int) == Some(i as int) && from <= i < s@.len()
                && s@[i as int] == c,
            None => char_from(s@, c, from as int) is None,
        },
{
    let mut i: usize = from;
    while i < s.len()
        invariant
            from <= i,
            char_from(s@, c, from as int) == char_from(s@, c, i as int),
        decreases s.len() - i,
    {
        if s[i] == c {
            return Some(i);
        }
        i += 1;
    }
    None
}

/// `s` cut at each occurrence of `c`, from `from` on.
pub open spec fn pieces_from(s: Seq<char>, c: char, from: int) -> Seq<Seq<char>>
    decreases s.len() - from,
{
    if from < 0 || from > s.len() {
        Seq::empty()
    } else {
        match char_from(s, c, from) {
            Some(i) => if from <= i < s.len() {
                seq![s.subrange(from, i)] + pieces_from(s, c, i + 1)
            } else {
                Seq::empty()
            },
            None => seq![s.skip(from)],
        }
    }
}

/// `s` cut at each occurrence of `c`.
pub open spec fn pieces(s: Seq<char>, c: char) -> Seq<Seq<char>> {
    pieces_from(s, c, 0)
}

/// The views of some character sequences.
pub open spec fn views(v: Seq<Vec<char>>) -> Seq<Seq<char>> {
    v.map_values(|x: Vec<char>| x@)
}

/// A copy of the characters of `s` from `from` up to `to`.
pub fn copy_chars(s: &[char], from: usize, to: usize) -> (r: Vec<char>)
    requires
        from <= to <= s@.len(),
    ensures
        r@ == s@.subrange(from as int, to as int),
{
    let mut out: Vec<char> = Vec::new();
    let mut i: usize = from;
    while i < to
        invariant
            from <= i <= to <= s@.len(),
            out@ == s@.subrange(from as int, i as int),
        decreases to - i,
    {
        out.push(s[i]);
        i += 1;
        proof {
            assert(s@.subrange(from as int, i as int) =~= s@.subrange(from as int, i - 1).push(
                s@[i - 1],
            ));
        }
    }
    out
}

/// `s` cut at each occurrence of `c`.
pub fn split_chars(s: &[char], c: char) -> (r: Vec<Vec<char>>)
    ensures
        views(r@) == pieces(s@, c),
        r@.len() > 0,
{
    let mut out: Vec<Vec<char>> = Vec::new();
    let mut from: usize = 0;
    loop
        invariant
            from <= s@.len(),
            views(out@) + pieces_from(s@, c, from as int) == pieces(s@, c),
        decreases s.len() - from,
    {
        let ghost done = out@;
        match find_char(s, c, from) {
            Some(i) => {
                let piece: Vec<char> = copy_chars(s, from, i);
                out.push(piece);
                proof {
                    assert(views(out@) =~= views(done).push(s@.subrange(from as int, i as int)));
                    assert(views(out@) + pieces_from(s@, c, i + 1) =~= views(done) + pieces_from(
                        s@,
                        c,
                        from as int,
                    ));
                }
                from = i + 1;
            },
            None => {
                let piece: Vec<char> = copy_chars(s, from, s.len());
                out.push(piece);
                proof {
                    assert(s@.subrange(from as int, s@.len() as int) =~= s@.skip(from as int));
                    assert(views(out@) =~= views(done) + pieces_from(s@, c, from as int));
                }
                return out;
            },
        }
    }
}

// ---------------------------------------------------------------------------
// Numbers
// ---------------------------------------------------------------------------

/// The character of a digit below sixteen, with small letters.
pub open spec fn digit(d: int) -> char {
    if d < 10 {
        (48 + d) as u8 as char
    } else {
        (87 + d) as u8 as char
    }
}

/// `n` written in `base` (between two and sixteen), without leading zeros.
pub open spec fn numeral(n: nat, base: nat) -> Seq<char>
    decreases n,
{
    if base < 2 || n < base {
        seq![digit(n as int)]
    } else {
        proof {
            assert(n / base < n) by (nonlinear_arith)
                requires
                    n >= base,
                    base >= 2,
            ;
        }
        numeral(n / base, base).push(digit((n % base) as int))
    }
}

/// `n` in decimal.
pub open spec fn decimal(n: nat) -> Seq<char> {
    numeral(n, 10)
}

/// `n` in hexadecimal, with small letters.
pub open spec fn hex(n: nat) -> Seq<char> {
    numeral(n, 16)
}

/// `count` times the character `c`.
pub open spec fn repeated(c: char, count: int) -> Seq<char> {
    Seq::new(
        if count < 0 {
            0
        } else {
            count as nat
        },
        |i: int| c,
    )
}

/// `s` with `c` put before it up to a length of `width`.
pub open spec fn padded_left(s: Seq<char>, c: char, width: int) -> Seq<char> {
    repeated(c, width - s.len()) + s
}

/// `s` with `c` put after it up to a length of `width`.
pub open spec fn padded_right(s: Seq<char>, c: char, width: int) -> Seq<char> {
    s + repeated(c, width - s.len())
}

/// The character of a digit below sixteen, with small letters.
pub fn digit_char(d: u8) -> (c: char)
    requires
        d < 16,
    ensures
        c == digit(d as int),
{
    if d < 10 {
        (48 + d) as char
    } else {
        (87 + d) as char
    }
}

/// `n` written in `base`.
pub fn numeral_chars(n: u64, base: u64) -> (r: Vec<char>)
    requires
        2 <= base <= 16,
    ensures
        r@ == numeral(n as nat, base as nat),
    decreases n,
{
    if n < base {
        let mut out: Vec<char> = Vec::new();
        out.push(digit_char(n as u8));
        proof {
            assert(out@ =~= numeral(n as nat, base as nat));
        }
        out
    } else {
        proof {
            assert(n / base < n) by (nonlinear_arith)
                requires
                    n >= base,
                    base >= 2,
            ;
            assert(n % base < base) by (nonlinear_arith)
                requires
                    base >= 2,
            ;
        }
        let mut out: Vec<char> = numeral_chars(n / base, base);
        out.push(digit_char((n % base) as u8));
        out
    }
}

/// Append `n` in decimal.
pub fn push_decimal(out: &mut String, n: u64)
    ensures
        final(out)@ == old(out)@ + decimal(n as nat),
{
    let d: Vec<char> = numeral_chars(n, 10);
    push_chars(out, &d);
}

/// Append `n` in hexadecimal.
pub fn push_hex(out: &mut String, n: u64)
    ensures
        final(out)@ == old(out)@ + hex(n as nat),
{
    let d: Vec<char> = numeral_chars(n, 16);
    push_chars(out, &d);
}

/// `s` with `c` put before it up to a length of `width`.
pub fn pad_left(s: &[char], c: char, width: usize) -> (r: Vec<char>)
    ensures
        r@ == padded_left(s@, c, width as int),
{
    let mut out: Vec<char> = Vec::new();
    let mut i: usize = s.len();
    while i < width
        invariant
            s@.len() <= i,
            i <= width || i == s@.len(),
            out@ == repeated(c, i - s@.len()),
        decreases width - i,
    {
        out.push(c);
        i += 1;
        proof {
            assert(repeated(c, i - s@.len()) =~= repeated(c, i - 1 - s@.len()).push(c));
        }
    }
    let ghost zeros = out@;
    proof {
        assert(zeros =~= repeated(c, width - s@.len()));
    }
    let mut k: usize = 0;
    while k < s.len()
        invariant
            k <= s@.len(),
            out@ == zeros + s@.take(k as int),
        decreases s.len() - k,
    {
        out.push(s[k]);
        k += 1;
        proof {
            assert(zeros + s@.take(k as int) =~= (zeros + s@.take(k - 1)).push(s@[k - 1]));
        }
    }
    proof {
        assert(s@.take(k as int) =~= s@);
    }
    out
}

/// `s` with `c` put after it up to a length of `width`.
pub fn pad_right(s: &[char], c: char, width: usize) -> (r: Vec<char>)
    ensures
        r@ == padded_right(s@, c, width as int),
{
    let mut out: Vec<char> = copy_chars(s, 0, s.len());
    proof {
        assert(s@.subrange(0, s@.len() as int) =~= s@);
        assert(s@ =~= s@ + repeated(c, 0));
    }
    let mut i: usize = s.len();
    while i < width
        invariant
            s@.len() <= i,
            i <= width || i == s@.len(),
            out@ == s@ + repeated(c, i - s@.len()),
        decreases width - i,
    {
        out.push(c);
        i += 1;
        proof {
            assert(s@ + repeated(c, i - s@.len()) =~= (s@ + repeated(c, i - 1 - s@.len())).push(c));
        }
    }
    proof {
        assert(repeated(c, i - s@.len()) =~= repeated(c, width - s@.len()));
    }
    out
}

/// Append `n` in hexadecimal with zeros before it up to `width` digits.
pub fn push_hex_padded(out: &mut String, n: u64, width: usize)
    ensures
        final(out)@ == old(out)@ + padded_left(hex(n as nat), '0', width as int),
{
    let d: Vec<char> = numeral_chars(n, 16);
    let p: Vec<char> = pad_left(&d, '0', width);
    push_chars(out, &p);
}

// ---------------------------------------------------------------------------
// What the texts say
// ---------------------------------------------------------------------------

/// The value of a digit, with small letters above nine.
pub open spec fn digit_value(c: char) -> int {
    if '0' <= c <= '9' {
        c as int - 48
    } else {
        c as int - 87
    }
}

/// The value of a numeral to a base.
pub open spec fn numeral_value(s: Seq<char>, base: int) -> int
    decreases s.len(),
{
    if s.len() == 0 {
        0
    } else {
        numeral_value(s.drop_last(), base) * base + digit_value(s.last())
    }
}

/// A number is written in digits, `0` to `9` and then `a` to `f`, that give it back, and
/// without a leading zero, except that zero is `0`.
pub proof fn law_numeral_says_the_number(n: nat, base: nat)
    requires
        2 <= base <= 16,
    ensures
        numeral_value(numeral(n, base), base as int) == n,
        numeral(n, base).len() >= 1,
        numeral(n, base)[0] == '0' <==> n == 0,
        n == 0 ==> numeral(n, base) == seq!['0'],
        forall|i: int|
            0 <= i < numeral(n, base).len() ==> ('0' <= #[trigger] numeral(n, base)[i] <= '9' || 'a'
                <= numeral(n, base)[i] <= 'f') && digit_value(numeral(n, base)[i]) < base,
    decreases n,
{
    let s = numeral(n, base);
    if n < base {
        assert(s.drop_last() =~= Seq::<char>::empty());
        reveal_with_fuel(numeral_value, 2);
    } else {
        assert(n / base < n && n / base >= 1 && n == (n / base) * base + n % base && n % base
            < base) by (nonlinear_arith)
            requires
                n >= base,
                base >= 2,
        ;
        law_numeral_says_the_number(n / base, base);
        assert(s.drop_last() =~= numeral(n / base, base));
        assert(s[0] == numeral(n / base, base)[0]);
        assert forall|i: int| 0 <= i < s.len() implies ('0' <= #[trigger] s[i] <= '9' || 'a' <= s[i]
            <= 'f') && digit_value(s[i]) < base by {
            if i < s.len() - 1 {
                assert(s[i] == numeral(n / base, base)[i]);
            }
        }
    }
}

/// Padding makes a text no shorter than it was, and as long as asked if it was shorter; the
/// text stands at the end of what is padded on the left and at the front of what is padded on
/// the right, and all the rest is padding.
pub proof fn law_padding(s: Seq<char>, c: char, width: int)
    ensures
        ({
            let n = if width > s.len() {
                width
            } else {
                s.len() as int
            };
            let left = padded_left(s, c, width);
            let right = padded_right(s, c, width);
            &&& left.len() == n && right.len() == n
            &&& left.skip(n - s.len()) == s && right.take(s.len() as int) == s
            &&& forall|i: int| 0 <= i < n - s.len() ==> #[trigger] left[i] == c
            &&& forall|i: int| s.len() <= i < n ==> #[trigger] right[i] == c
        }),
{
    let n = if width > s.len() {
        width
    } else {
        s.len() as int
    };
    assert(padded_left(s, c, width).skip(n - s.len()) =~= s);
    assert(padded_right(s, c, width).take(s.len() as int) =~= s);
}

/// Capitals: as many characters, and each is what it was, but for the small letters `a` to `z`,
/// which become `A` to `Z`.
pub proof fn law_upper(s: Seq<char>)
    ensures
        upper(s).len() == s.len(),
        forall|i: int|
            0 <= i < s.len() ==> (#[trigger] upper(s)[i]) as int == if 97 <= s[i] as int <= 122 {
                s[i] as int - 32
            } else {
                s[i] as int
            },
{
}

/// Some pieces with a character between any two of them.
pub open spec fn joined(parts: Seq<Seq<char>>, c: char) -> Seq<char>
    decreases parts.len(),
{
    if parts.len() == 0 {
        Seq::empty()
    } else if parts.len() == 1 {
        parts[0]
    } else {
        parts[0] + seq![c] + joined(parts.skip(1), c)
    }
}

/// What a text is cut into at a character: at least one piece, none of them with that
/// character in it, and joined by it they are the text.
pub proof fn law_pieces(s: Seq<char>, c: char)
    ensures
        pieces(s, c).len() >= 1,
        forall|i: int| 0 <= i < pieces(s, c).len() ==> !(#[trigger] pieces(s, c)[i]).contains(c),
        joined(pieces(s, c), c) == s,
{
    lemma_pieces_from(s, c, 0);
    assert(s.skip(0) =~= s);
}

proof fn lemma_first_char(s: Seq<char>, c: char, from: int)
    requires
        0 <= from,
    ensures
        match char_from(s, c, from) {
            Some(i) => from <= i < s.len() && s[i] == c && forall|k: int|
                from <= k < i ==> #[trigger] s[k] != c,
            None => forall|k: int| from <= k < s.len() ==> #[trigger] s[k] != c,
        },
    decreases s.len() - from,
{
    if from < s.len() && s[from] != c {
        lemma_first_char(s, c, from + 1);
    }
}

proof fn lemma_pieces_from(s: Seq<char>, c: char, from: int)
    requires
        0 <= from <= s.len(),
    ensures
        pieces_from(s, c, from).len() >= 1,
        forall|i: int|
            0 <= i < pieces_from(s, c, from).len() ==> !(#[trigger] pieces_from(
                s,
                c,
                from,
            )[i]).contains(c),
        joined(pieces_from(s, c, from), c) == s.skip(from),
    decreases s.len() - from,
{
    let parts = pieces_from(s, c, from);
    lemma_first_char(s, c, from);
    match char_from(s, c, from) {
        Some(i) => {
            let rest = pieces_from(s, c, i + 1);
            lemma_pieces_from(s, c, i + 1);
            assert(parts.skip(1) =~= rest);
            assert(parts[0] == s.subrange(from, i));
            assert(s.skip(from) =~= s.subrange(from, i) + seq![c] + s.skip(i + 1));
            assert forall|k: int| 0 <= k < parts.len() implies !(#[trigger] parts[k]).contains(
                c,
            ) by {
                if k > 0 {
                    assert(parts[k] == rest[k - 1]);
                }
            }
        },
        None => {
            assert(parts[0] == s.skip(from));
        },
    }
}

/// Zeros before a numeral do not change what it says.
pub proof fn lemma_zeros_before(d: Seq<char>, count: int, base: int)
    ensures
        numeral_value(repeated('0', count) + d, base) == numeral_value(d, base),
    decreases d.len(), count,
{
    let zeros = repeated('0', count);
    if d.len() > 0 {
        assert((zeros + d).drop_last() =~= zeros + d.drop_last());
        lemma_zeros_before(d.drop_last(), count, base);
    } else if count > 0 {
        assert((zeros + d).drop_last() =~= repeated('0', count - 1) + d);
        lemma_zeros_before(d, count - 1, base);
    } else {
        assert(zeros + d =~= d);
    }
}

/// What stands between two texts stands in all three together.
pub proof fn lemma_holds_within(before: Seq<char>, part: Seq<char>, behind: Seq<char>)
    ensures
        holds(before + part + behind, part),
{
    let whole = before + part + behind;
    let at = before.len() as int;
    assert(whole.subrange(at, at + part.len()) =~= part);
    assert(stands_at(whole, part, at));
}

/// Whether a text ends with another.
pub open spec fn closes(s: Seq<char>, part: Seq<char>) -> bool {
    part.len() <= s.len() && s.skip(s.len() - part.len()) == part
}

/// Whether a text begins with another.
pub open spec fn opens(s: Seq<char>, part: Seq<char>) -> bool {
    part.len() <= s.len() && s.take(part.len() as int) == part
}

/// What stands between two texts, with the end of the one and the front of the other, stands in
/// all of them together.
pub proof fn lemma_holds_between(
    before: Seq<char>,
    x: Seq<char>,
    said: Seq<char>,
    y: Seq<char>,
    behind: Seq<char>,
    open: Seq<char>,
    close: Seq<char>,
)
    requires
        closes(x, open),
        opens(y, close),
    ensures
        holds(before + x + said + y + behind, open + said + close),
{
    let lead = before + x.take(x.len() - open.len());
    let rest = y.skip(close.len() as int) + behind;
    assert(x =~= x.take(x.len() - open.len()) + open);
    assert(y =~= close + y.skip(close.len() as int));
    lemma_holds_within(lead, open + said + close, rest);
    assert(before + x + said + y + behind =~= lead + (open + said + close) + rest);
}

/// Five texts with something before, between and behind them, taken apart at each of them.
pub proof fn lemma_taken_apart(
    s0: Seq<char>,
    v0: Seq<char>,
    s1: Seq<char>,
    v1: Seq<char>,
    s2: Seq<char>,
    v2: Seq<char>,
    s3: Seq<char>,
    v3: Seq<char>,
    s4: Seq<char>,
    v4: Seq<char>,
    s5: Seq<char>,
    v5: Seq<char>,
)
    ensures
        ({
            let whole = s0 + v0 + s1 + v1 + s2 + v2 + s3 + v3 + s4 + v4 + s5 + v5;
            let r3 = v3 + s4 + (v4 + s5 + v5);
            let r2 = v2 + s3 + r3;
            &&& whole == Seq::<char>::empty() + s0 + v0 + s1 + (v1 + s2 + r2)
            &&& whole == s0 + v0 + s1 + v1 + s2 + r2
            &&& whole == (s0 + v0 + s1 + v1) + s2 + v2 + s3 + r3
            &&& whole == (s0 + v0 + s1 + v1 + s2 + v2) + s3 + v3 + s4 + (v4 + s5 + v5)
            &&& whole == (s0 + v0 + s1 + v1 + s2 + v2 + s3 + v3 + s4 + v4 + s5) + v5
        }),
{
    let whole = s0 + v0 + s1 + v1 + s2 + v2 + s3 + v3 + s4 + v4 + s5 + v5;
    let t1 = s0 + v0 + s1 + v1;
    let t2 = t1 + s2 + v2;
    let t3 = t2 + s3 + v3;
    let r4 = v4 + s5 + v5;
    let r3 = v3 + s4 + r4;
    let r2 = v2 + s3 + r3;
    assert(whole =~= t3 + s4 + r4);
    assert(t3 + s4 + r4 =~= t2 + s3 + r3);
    assert(t2 + s3 + v3 + s4 + r4 =~= t3 + s4 + r4);
    assert(t2 + s3 + r3 =~= t1 + s2 + r2);
    assert(t1 + s2 + v2 + s3 + r3 =~= t2 + s3 + r3);
    assert(Seq::<char>::empty() + s0 + v0 + s1 + (v1 + s2 + r2) =~= t1 + s2 + r2);
}

} // verus!
