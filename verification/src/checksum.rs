//! The checksums used across the SPRD/UNISOC download protocol.
//!
//! | function          | polynomial / rule        | used for                         |
//! |-------------------|--------------------------|----------------------------------|
//! | [`sprd_sum`]      | ones-complement sum      | every BSL frame (RDA8910/UIS8910)|
//! | [`crc16_ccitt`]   | 0x1021, MSB-first        | classic BootROM BSL frame        |
//! | [`crc16_arc`]     | 0xA001, reflected        | PAC header/payload + NV image    |
//! | [`crc32`]         | 0xEDB88320, reflected    | uImage header and payload        |
//! | [`sum32`]         | additive byte sum        | NV START_DATA transfer check     |

use vstd::prelude::*;

verus! {

// ---------------------------------------------------------------------------
// Spreadtrum sum
// ---------------------------------------------------------------------------

/// The sum of the little-endian 16-bit words of `data`; an odd last byte counts
/// as a word of its own.
pub open spec fn word_sum(data: Seq<u8>) -> nat
    decreases data.len(),
{
    if data.len() == 0 {
        0
    } else if data.len() == 1 {
        data[0] as nat
    } else {
        (data[0] + 256 * data[1]) as nat + word_sum(data.skip(2))
    }
}

/// A sum of 16-bit words with every carry out of the top added back in: the one
/// value of `0..=0xFFFF` that is zero only for a zero sum and is congruent to it
/// modulo `0xFFFF`.
pub open spec fn end_around(sum: nat) -> nat {
    if sum == 0 {
        0
    } else {
        ((sum - 1) % 65535 + 1) as nat
    }
}

/// A 16-bit value with its two bytes exchanged.
pub open spec fn swapped(v: nat) -> nat {
    (v % 256) * 256 + v / 256
}

/// The Spreadtrum checksum of `data`: the complement of the end-around sum, with
/// its bytes exchanged.
pub open spec fn sprd_sum_of(data: Seq<u8>) -> u16 {
    swapped((65535 - end_around(word_sum(data))) as nat) as u16
}

/// Whether the 16-bit words of `data` add up within 32 bits, which the checksum
/// accumulates in.
pub open spec fn summable(data: Seq<u8>) -> bool {
    word_sum(data) <= u32::MAX
}

proof fn lemma_word_sum_bound(data: Seq<u8>)
    ensures
        word_sum(data) <= 65535 * ((data.len() + 1) / 2),
    decreases data.len(),
{
    if data.len() >= 2 {
        lemma_word_sum_bound(data.skip(2));
    }
}

/// Any 131074 bytes or fewer are [`summable`].
pub proof fn law_short_data_is_summable(data: Seq<u8>)
    requires
        data.len() <= 131074,
    ensures
        summable(data),
{
    lemma_word_sum_bound(data);
}

proof fn lemma_fold(total: int, once: int)
    requires
        0 <= total <= u32::MAX,
        once == total / 65536 + total % 65536,
    ensures
        (once + once / 65536) % 65536 == end_around(total as nat),
{
    let hi = total / 65536;
    assert(total - once == hi * 65535);
    if total > 0 {
        assert(once > 0);
        let residue = if once <= 65535 { once } else { once - 65535 };
        let turns = if once <= 65535 { hi } else { hi + 1 };
        assert(total - 1 == turns * 65535 + (residue - 1));
        assert((total - 1) % 65535 == residue - 1) by {
            vstd::arithmetic::div_mod::lemma_fundamental_div_mod_converse(
                total - 1,
                65535,
                turns,
                residue - 1,
            );
        }
    }
}

/// Spreadtrum "sum" checksum: ones-complement sum of little-endian 16-bit
/// words, with an **unconditional** final byte swap.
///
/// This is the checksum the RDA8910/UIS8910 BootROM and FDLs use for *every*
/// BSL packet.
#[must_use]
pub fn sprd_sum(data: &[u8]) -> (r: u16)
    requires
        summable(data@),
    ensures
        r == sprd_sum_of(data@),
{
    let mut total: u32 = 0;
    let mut i: usize = 0;
    proof {
        assert(data@.skip(0) =~= data@);
    }
    while data.len() - i >= 2
        invariant
            i <= data@.len(),
            total + word_sum(data@.skip(i as int)) == word_sum(data@),
            word_sum(data@) <= u32::MAX,
        decreases data.len() - i,
    {
        proof {
            assert(data@.skip(i as int).skip(2) =~= data@.skip(i + 2));
        }
        total += data[i] as u32 + 256 * (data[i + 1] as u32);
        i += 2;
    }
    if i < data.len() {
        total += data[i] as u32;
    }
    let once: u32 = total / 65536 + total % 65536;
    proof {
        lemma_fold(total as int, once as int);
    }
    let folded: u32 = 65535 - (once + once / 65536) % 65536;
    ((folded % 256) * 256 + folded / 256) as u16
}

/// Whether the 16-bit words of `data` add up within 32 bits.
#[must_use]
pub fn is_summable(data: &[u8]) -> (r: bool)
    ensures
        r == summable(data@),
{
    let mut total: u64 = 0;
    let mut i: usize = 0;
    proof {
        assert(data@.skip(0) =~= data@);
    }
    while data.len() - i >= 2
        invariant
            i <= data@.len(),
            total <= u32::MAX,
            total + word_sum(data@.skip(i as int)) == word_sum(data@),
        decreases data.len() - i,
    {
        proof {
            assert(data@.skip(i as int).skip(2) =~= data@.skip(i + 2));
        }
        total += data[i] as u64 + 256 * (data[i + 1] as u64);
        i += 2;
        if total > u32::MAX as u64 {
            return false;
        }
    }
    if i < data.len() {
        total += data[i] as u64;
    }
    total <= u32::MAX as u64
}

// ---------------------------------------------------------------------------
// CRC-16 (polynomial 0x1021, most significant bit first)
// ---------------------------------------------------------------------------

/// One bit of CRC-16/0x1021: shift out the top bit and, if it was set, subtract
/// the polynomial.
pub open spec fn ccitt_bit(crc: u16) -> u16 {
    if crc & 0x8000 != 0 {
        (crc << 1) ^ 0x1021
    } else {
        crc << 1
    }
}

/// `n` bits of CRC-16/0x1021.
pub open spec fn ccitt_bits(crc: u16, n: nat) -> u16
    decreases n,
{
    if n == 0 {
        crc
    } else {
        ccitt_bit(ccitt_bits(crc, (n - 1) as nat))
    }
}

/// CRC-16 with polynomial 0x1021, most significant bit first, init 0.
pub open spec fn crc16_ccitt_of(data: Seq<u8>) -> u16
    decreases data.len(),
{
    if data.len() == 0 {
        0
    } else {
        ccitt_bits(crc16_ccitt_of(data.drop_last()) ^ ((data.last() as u16) << 8), 8)
    }
}

/// Classic Spreadtrum BootROM checksum: CRC-16 with polynomial 0x1021,
/// MSB-first, init 0.
#[must_use]
pub fn crc16_ccitt(data: &[u8]) -> (r: u16)
    ensures
        r == crc16_ccitt_of(data@),
{
    let mut crc: u16 = 0;
    let mut i: usize = 0;
    proof {
        assert(data@.take(0) =~= Seq::<u8>::empty());
    }
    while i < data.len()
        invariant
            i <= data@.len(),
            crc == crc16_ccitt_of(data@.take(i as int)),
        decreases data.len() - i,
    {
        proof {
            assert(data@.take(i + 1).drop_last() =~= data@.take(i as int));
        }
        crc = crc ^ ((data[i] as u16) << 8);
        let ghost start: u16 = crc;
        let mut bit: u8 = 0;
        while bit < 8
            invariant
                bit <= 8,
                crc == ccitt_bits(start, bit as nat),
            decreases 8 - bit,
        {
            crc = if crc & 0x8000 != 0 {
                (crc << 1) ^ 0x1021
            } else {
                crc << 1
            };
            bit += 1;
        }
        i += 1;
    }
    proof {
        assert(data@.take(i as int) =~= data@);
    }
    crc
}

// ---------------------------------------------------------------------------
// CRC-16-ARC (polynomial 0xA001, reflected)
// ---------------------------------------------------------------------------

/// One bit of the reflected CRC-16: shift out the low bit and, if it was set,
/// subtract the polynomial.
pub open spec fn arc_bit(crc: u16) -> u16 {
    if crc & 1 != 0 {
        (crc >> 1) ^ 0xA001
    } else {
        crc >> 1
    }
}

/// `n` bits of the reflected CRC-16.
pub open spec fn arc_bits(crc: u16, n: nat) -> u16
    decreases n,
{
    if n == 0 {
        crc
    } else {
        arc_bit(arc_bits(crc, (n - 1) as nat))
    }
}

/// CRC-16-ARC of `data`, continued from `crc`.
pub open spec fn crc16_arc_on(crc: u16, data: Seq<u8>) -> u16
    decreases data.len(),
{
    if data.len() == 0 {
        crc
    } else {
        arc_bits(crc16_arc_on(crc, data.drop_last()) ^ (data.last() as u16), 8)
    }
}

/// CRC-16-ARC of `data` (init 0).
pub open spec fn crc16_arc_of(data: Seq<u8>) -> u16 {
    crc16_arc_on(0, data)
}

/// Continuing a CRC-16-ARC over a second piece is the CRC over both at once.
pub proof fn law_crc16_arc_streams(crc: u16, a: Seq<u8>, b: Seq<u8>)
    ensures
        crc16_arc_on(crc16_arc_on(crc, a), b) == crc16_arc_on(crc, a + b),
    decreases b.len(),
{
    if b.len() == 0 {
        assert(a + b =~= a);
    } else {
        assert((a + b).drop_last() =~= a + b.drop_last());
        law_crc16_arc_streams(crc, a, b.drop_last());
    }
}

proof fn lemma_arc_bits_tells_apart(x: u16, y: u16, n: nat)
    requires
        x != y,
    ensures
        arc_bits(x, n) != arc_bits(y, n),
    decreases n,
{
    if n > 0 {
        lemma_arc_bits_tells_apart(x, y, (n - 1) as nat);
        let a: u16 = arc_bits(x, (n - 1) as nat);
        let b: u16 = arc_bits(y, (n - 1) as nat);
        assert(arc_bit(a) != arc_bit(b)) by (bit_vector)
            requires
                a != b,
        ;
    }
}

/// Two byte strings of one length that differ in exactly one byte have
/// different CRC-16-ARC values.
pub proof fn law_crc16_arc_detects_one_changed_byte(crc: u16, data: Seq<u8>, at: int, byte: u8)
    requires
        0 <= at < data.len(),
        data[at] != byte,
    ensures
        crc16_arc_on(crc, data.update(at, byte)) != crc16_arc_on(crc, data),
    decreases data.len(),
{
    let other = data.update(at, byte);
    let x: u16 = crc16_arc_on(crc, data.drop_last());
    let y: u16 = crc16_arc_on(crc, other.drop_last());
    let p: u16 = data.last() as u16;
    let q: u16 = other.last() as u16;
    if at == data.len() - 1 {
        assert(other.drop_last() =~= data.drop_last());
        assert(x ^ p != x ^ q) by (bit_vector)
            requires
                p != q,
        ;
    } else {
        assert(other.drop_last() =~= data.drop_last().update(at, byte));
        law_crc16_arc_detects_one_changed_byte(crc, data.drop_last(), at, byte);
        assert(x ^ p != y ^ p) by (bit_vector)
            requires
                x != y,
        ;
    }
    lemma_arc_bits_tells_apart(x ^ p, y ^ q, 8);
}

/// A lookup table of the eight bits of each byte.
pub open spec fn is_arc_table(table: Seq<u16>) -> bool {
    &&& table.len() == 256
    &&& forall|k: int| 0 <= k < 256 ==> #[trigger] table[k] == arc_bits(k as u16, 8)
}

proof fn lemma_arc_bits_unrolled(x: u16)
    ensures
        arc_bits(x, 8) == arc_bit(arc_bit(arc_bit(arc_bit(arc_bit(arc_bit(arc_bit(arc_bit(x)))))))),
{
    reveal_with_fuel(arc_bits, 9);
}

proof fn lemma_arc_step(x: u16)
    ensures
        arc_bits(x, 8) == (x >> 8) ^ arc_bits(x & 0xFF, 8),
{
    lemma_arc_bits_unrolled(x);
    lemma_arc_bits_unrolled(x & 0xFF);
    assert(arc_bit(arc_bit(arc_bit(arc_bit(arc_bit(arc_bit(arc_bit(arc_bit(x)))))))) == (x >> 8)
        ^ arc_bit(
        arc_bit(arc_bit(arc_bit(arc_bit(arc_bit(arc_bit(arc_bit(x & 0xFF))))))),
    )) by (bit_vector);
}

/// The CRC-16-ARC lookup table (poly 0xA001).
pub fn build_arc_table() -> (table: Vec<u16>)
    ensures
        is_arc_table(table@),
{
    let mut table: Vec<u16> = Vec::with_capacity(256);
    let mut i: u16 = 0;
    while i < 256
        invariant
            i <= 256,
            table@.len() == i,
            forall|k: int| 0 <= k < i ==> #[trigger] table@[k] == arc_bits(k as u16, 8),
        decreases 256 - i,
    {
        let mut crc: u16 = i;
        let mut bit: u8 = 0;
        while bit < 8
            invariant
                bit <= 8,
                crc == arc_bits(i, bit as nat),
            decreases 8 - bit,
        {
            crc = if crc & 1 != 0 {
                (crc >> 1) ^ 0xA001
            } else {
                crc >> 1
            };
            bit += 1;
        }
        table.push(crc);
        i += 1;
    }
    table
}

/// CRC-16-ARC (polynomial 0xA001, reflected, init 0).
///
/// Used both for the `.pac` header/payload checks and for the internal NV image
/// checksum the modem validates. Standard check value: `crc16_arc(b"123456789")
/// == 0xBB3D`.
#[must_use]
pub fn crc16_arc(data: &[u8]) -> (r: u16)
    ensures
        r == crc16_arc_of(data@),
{
    crc16_arc_from(0, data)
}

/// Streaming variant of [`crc16_arc`] that continues from a running `crc`.
#[must_use]
pub fn crc16_arc_from(crc: u16, data: &[u8]) -> (r: u16)
    ensures
        r == crc16_arc_on(crc, data@),
{
    let table: Vec<u16> = build_arc_table();
    let mut run: u16 = crc;
    let mut i: usize = 0;
    proof {
        assert(data@.take(0) =~= Seq::<u8>::empty());
    }
    while i < data.len()
        invariant
            i <= data@.len(),
            is_arc_table(table@),
            run == crc16_arc_on(crc, data@.take(i as int)),
        decreases data.len() - i,
    {
        let b: u16 = data[i] as u16;
        proof {
            assert(data@.take(i + 1).drop_last() =~= data@.take(i as int));
            lemma_arc_step(run ^ b);
            assert((run ^ b) >> 8 == run >> 8) by (bit_vector)
                requires
                    b <= 0xFF,
            ;
            assert((run ^ b) & 0xFF <= 0xFF) by (bit_vector);
        }
        run = (run >> 8) ^ table[((run ^ b) & 0xFF) as usize];
        i += 1;
    }
    proof {
        assert(data@.take(i as int) =~= data@);
    }
    run
}

// ---------------------------------------------------------------------------
// CRC-32 (polynomial 0xEDB88320, reflected)
// ---------------------------------------------------------------------------

/// One bit of the reflected CRC-32.
pub open spec fn crc32_bit(crc: u32) -> u32 {
    if crc & 1 != 0 {
        (crc >> 1) ^ 0xEDB8_8320
    } else {
        crc >> 1
    }
}

/// `n` bits of the reflected CRC-32.
pub open spec fn crc32_bits(crc: u32, n: nat) -> u32
    decreases n,
{
    if n == 0 {
        crc
    } else {
        crc32_bit(crc32_bits(crc, (n - 1) as nat))
    }
}

/// The CRC-32 register after `data`, started with all bits set.
pub open spec fn crc32_register(data: Seq<u8>) -> u32
    decreases data.len(),
{
    if data.len() == 0 {
        0xFFFF_FFFF
    } else {
        crc32_bits(crc32_register(data.drop_last()) ^ (data.last() as u32), 8)
    }
}

/// CRC-32 of `data`: the register with every bit inverted.
pub open spec fn crc32_of(data: Seq<u8>) -> u32 {
    crc32_register(data) ^ 0xFFFF_FFFF
}

/// CRC-32 (polynomial 0xEDB88320, reflected, init and final inversion), the
/// checksum of U-Boot image headers. Standard check value:
/// `crc32(b"123456789") == 0xCBF43926`.
#[must_use]
pub fn crc32(data: &[u8]) -> (r: u32)
    ensures
        r == crc32_of(data@),
{
    let mut crc: u32 = 0xFFFF_FFFF;
    let mut i: usize = 0;
    proof {
        assert(data@.take(0) =~= Seq::<u8>::empty());
    }
    while i < data.len()
        invariant
            i <= data@.len(),
            crc == crc32_register(data@.take(i as int)),
        decreases data.len() - i,
    {
        proof {
            assert(data@.take(i + 1).drop_last() =~= data@.take(i as int));
        }
        crc = crc ^ (data[i] as u32);
        let ghost start: u32 = crc;
        let mut bit: u8 = 0;
        while bit < 8
            invariant
                bit <= 8,
                crc == crc32_bits(start, bit as nat),
            decreases 8 - bit,
        {
            crc = if crc & 1 != 0 {
                (crc >> 1) ^ 0xEDB8_8320
            } else {
                crc >> 1
            };
            bit += 1;
        }
        i += 1;
    }
    proof {
        assert(data@.take(i as int) =~= data@);
    }
    crc ^ 0xFFFF_FFFF
}

// ---------------------------------------------------------------------------
// Additive sum
// ---------------------------------------------------------------------------

/// The sum of the bytes of `data`.
pub open spec fn byte_sum(data: Seq<u8>) -> nat
    decreases data.len(),
{
    if data.len() == 0 {
        0
    } else {
        byte_sum(data.drop_last()) + data.last() as nat
    }
}

/// The sum of the bytes of `data`, modulo 2^32.
pub open spec fn sum32_of(data: Seq<u8>) -> u32 {
    (byte_sum(data) % 0x1_0000_0000) as u32
}

/// 32-bit additive byte sum (the value in the NV `START_DATA` trailer, verified
/// by `END_DATA`).
#[must_use]
pub fn sum32(data: &[u8]) -> (r: u32)
    ensures
        r == sum32_of(data@),
{
    let mut sum: u32 = 0;
    let mut i: usize = 0;
    proof {
        assert(data@.take(0) =~= Seq::<u8>::empty());
    }
    while i < data.len()
        invariant
            i <= data@.len(),
            sum == sum32_of(data@.take(i as int)),
        decreases data.len() - i,
    {
        proof {
            assert(data@.take(i + 1).drop_last() =~= data@.take(i as int));
        }
        sum = sum.wrapping_add(data[i] as u32);
        i += 1;
    }
    proof {
        assert(data@.take(i as int) =~= data@);
    }
    sum
}

// ---------------------------------------------------------------------------
// What the checksums are good for
// ---------------------------------------------------------------------------

/// How words add up: a byte counts as itself, a pair as its first byte and 256 times its
/// second, and what stands behind whole pairs is added to them.
pub proof fn law_words_add_up(a: Seq<u8>, b: Seq<u8>, x: u8, y: u8)
    ensures
        word_sum(Seq::empty()) == 0,
        word_sum(seq![x]) == x,
        word_sum(seq![x, y]) == x + 256 * y,
        a.len() % 2 == 0 ==> word_sum(a + b) == word_sum(a) + word_sum(b),
    decreases a.len(),
{
    assert(seq![x, y].skip(2) =~= Seq::<u8>::empty());
    assert(word_sum(seq![x, y]) == x + 256 * y) by {
        reveal_with_fuel(word_sum, 2);
    }
    if a.len() == 0 {
        assert(a + b =~= b);
    } else if a.len() % 2 == 0 {
        assert((a + b).skip(2) =~= a.skip(2) + b);
        law_words_add_up(a.skip(2), b, x, y);
    }
}

/// What makes the Spreadtrum checksum one: with its bytes exchanged and added to the words
/// that it covers, it gives a multiple of 65535; and it is 65535 for words that are all zero,
/// and less than that for any others.
pub proof fn law_sprd_sum_completes_the_words(data: Seq<u8>)
    ensures
        ({
            let sum = sprd_sum_of(data) as int;
            let exchanged = 256 * (sum % 256) + sum / 256;
            &&& (word_sum(data) + exchanged) % 65535 == 0
            &&& sum == 65535 <==> word_sum(data) == 0
        }),
{
    let total = word_sum(data);
    let v = (65535 - end_around(total)) as nat;
    assert(0 <= v <= 65535);
    let s = swapped(v);
    assert(0 <= v % 256 < 256 && 0 <= v / 256 < 256);
    assert(s == (v % 256) * 256 + v / 256);
    assert(sprd_sum_of(data) == s);
    assert(s % 256 == v / 256 && s / 256 == v % 256);
    assert(256 * (s as int % 256) + s as int / 256 == v);
    if total > 0 {
        let residue = (total - 1) % 65535;
        let turns = (total - 1) / 65535;
        assert(total - 1 == 65535 * turns + residue);
        assert(total + v == 65535 * (turns + 1));
        vstd::arithmetic::div_mod::lemma_mod_multiples_basic(turns + 1, 65535);
    }
}

proof fn lemma_ccitt_step(crc: u16, b: u16)
    requires
        b <= 0xFF,
    ensures
        ({
            let x = (crc >> 8) ^ b;
            let y = x ^ (x >> 4);
            ccitt_bits(crc ^ (b << 8), 8) == (crc << 8) ^ (y << 12) ^ (y << 5) ^ y
        }),
{
    reveal_with_fuel(ccitt_bits, 9);
    let c: u16 = crc ^ (b << 8);
    let x: u16 = (crc >> 8) ^ b;
    let y: u16 = x ^ (x >> 4);
    assert(ccitt_bits(c, 8) == ccitt_bit(
        ccitt_bit(ccitt_bit(ccitt_bit(ccitt_bit(ccitt_bit(ccitt_bit(ccitt_bit(c))))))),
    ));
    assert(ccitt_bit(
        ccitt_bit(ccitt_bit(ccitt_bit(ccitt_bit(ccitt_bit(ccitt_bit(ccitt_bit(c))))))),
    ) == (crc << 8) ^ (y << 12) ^ (y << 5) ^ y) by (bit_vector)
        requires
            b <= 0xFF,
            c == crc ^ (b << 8),
            x == (crc >> 8) ^ b,
            y == x ^ (x >> 4),
    ;
}

/// What a byte does to the CRC-16 with the polynomial x^16 + x^12 + x^5 + 1, most significant
/// bit first: with `x` the upper byte of the CRC so far and the byte added to it, and `y` that
/// and its upper half, the rest moves up by eight bits, and `y` is added at bits 12, 5 and 0.
/// The CRC of nothing is zero.
pub proof fn law_crc16_ccitt_takes_a_byte(data: Seq<u8>, byte: u8)
    ensures
        crc16_ccitt_of(Seq::empty()) == 0,
        ({
            let crc = crc16_ccitt_of(data);
            let x = (crc >> 8) ^ (byte as u16);
            let y = x ^ (x >> 4);
            crc16_ccitt_of(data.push(byte)) == (crc << 8) ^ (y << 12) ^ (y << 5) ^ y
        }),
{
    assert(data.push(byte).drop_last() =~= data);
    lemma_ccitt_step(crc16_ccitt_of(data), byte as u16);
}

/// Behind its own CRC-16, most significant byte first, any data has the CRC-16 zero.
pub proof fn law_crc16_ccitt_closes(data: Seq<u8>)
    ensures
        crc16_ccitt_of(data + crate::bytes::be16_bytes(crc16_ccitt_of(data))) == 0,
{
    let crc: u16 = crc16_ccitt_of(data);
    let hi: u8 = (crc / 256) as u8;
    let lo: u8 = (crc % 256) as u8;
    assert(data + crate::bytes::be16_bytes(crc) =~= data.push(hi).push(lo));
    law_crc16_ccitt_takes_a_byte(data, hi);
    law_crc16_ccitt_takes_a_byte(data.push(hi), lo);
    let h: u16 = hi as u16;
    let l: u16 = lo as u16;
    let x: u16 = (crc >> 8) ^ h;
    let y: u16 = x ^ (x >> 4);
    let mid: u16 = (crc << 8) ^ (y << 12) ^ (y << 5) ^ y;
    let x2: u16 = (mid >> 8) ^ l;
    let y2: u16 = x2 ^ (x2 >> 4);
    assert((mid << 8) ^ (y2 << 12) ^ (y2 << 5) ^ y2 == 0) by (bit_vector)
        requires
            h == crc / 256,
            l == crc % 256,
            x == (crc >> 8) ^ h,
            y == x ^ (x >> 4),
            mid == (crc << 8) ^ (y << 12) ^ (y << 5) ^ y,
            x2 == (mid >> 8) ^ l,
            y2 == x2 ^ (x2 >> 4),
    ;
}

/// What a byte does to the CRC-16-ARC: with `x` the lower byte of the CRC so far and the byte
/// added to it, the rest moves down by eight bits, `x` is added at bits 6 and 7, and, if an odd
/// number of its bits is set, so is 0xC001. The CRC of nothing is zero.
pub proof fn law_crc16_arc_takes_a_byte(data: Seq<u8>, byte: u8)
    ensures
        crc16_arc_of(Seq::empty()) == 0,
        ({
            let crc = crc16_arc_of(data);
            let x = (crc ^ (byte as u16)) & 0xFF;
            let halves = x ^ (x >> 4);
            let quarters = halves ^ (halves >> 2);
            let odd = (quarters ^ (quarters >> 1)) & 1;
            crc16_arc_of(data.push(byte)) == (crc >> 8) ^ (x << 6) ^ (x << 7) ^ if odd == 1 {
                0xC001u16
            } else {
                0u16
            }
        }),
{
    assert(data.push(byte).drop_last() =~= data);
    let crc: u16 = crc16_arc_of(data);
    let b: u16 = byte as u16;
    let c: u16 = crc ^ b;
    let x: u16 = c & 0xFF;
    let halves: u16 = x ^ (x >> 4);
    let quarters: u16 = halves ^ (halves >> 2);
    let odd: u16 = (quarters ^ (quarters >> 1)) & 1;
    lemma_arc_bits_unrolled(c);
    assert(arc_bit(arc_bit(arc_bit(arc_bit(arc_bit(arc_bit(arc_bit(arc_bit(c)))))))) == (crc >> 8)
        ^ (x << 6) ^ (x << 7) ^ if odd == 1 {
        0xC001u16
    } else {
        0u16
    }) by (bit_vector)
        requires
            b <= 0xFF,
            c == crc ^ b,
            x == c & 0xFF,
            halves == x ^ (x >> 4),
            quarters == halves ^ (halves >> 2),
            odd == (quarters ^ (quarters >> 1)) & 1,
    ;
}

spec fn crc32_byte(x: u32) -> u32 {
    crc32_bit(
        crc32_bit(crc32_bit(crc32_bit(crc32_bit(crc32_bit(crc32_bit(crc32_bit(x))))))),
    )
}

proof fn lemma_crc32_takes_a_byte(data: Seq<u8>, byte: u8)
    ensures
        crc32_register(data.push(byte)) == crc32_byte(crc32_register(data) ^ (byte as u32)),
{
    assert(data.push(byte).drop_last() =~= data);
    reveal_with_fuel(crc32_bits, 9);
}

proof fn lemma_crc32_bytes(r: u32)
    ensures
        ({
            let crc = r ^ 0xFFFF_FFFF;
            let a = crc32_byte(r ^ (crc % 256));
            let b = crc32_byte(a ^ (crc / 256 % 256));
            let c = crc32_byte(b ^ (crc / 65536 % 256));
            let d = crc32_byte(c ^ (crc / 16777216));
            d == 0xDEBB_20E3
        }),
{
    let crc: u32 = r ^ 0xFFFF_FFFF;
    let x0: u32 = r ^ (crc % 256);
    assert(x0 & 0xFF == 0xFF && x0 >> 8 == r >> 8) by (bit_vector)
        requires
            crc == r ^ 0xFFFF_FFFF,
            x0 == r ^ (crc % 256),
    ;
    assert(crc32_byte(x0) == (x0 >> 8) ^ 0x2D02_EF8D) by (bit_vector)
        requires
            x0 & 0xFF == 0xFF,
    ;
    let a: u32 = (r >> 8) ^ 0x2D02_EF8D;
    let x1: u32 = a ^ (crc / 256 % 256);
    assert(x1 & 0xFF == 0x72 && x1 >> 8 == a >> 8) by (bit_vector)
        requires
            crc == r ^ 0xFFFF_FFFF,
            a == (r >> 8) ^ 0x2D02_EF8D,
            x1 == a ^ (crc / 256 % 256),
    ;
    assert(crc32_byte(x1) == (x1 >> 8) ^ 0xBE0B_1010) by (bit_vector)
        requires
            x1 & 0xFF == 0x72,
    ;
    let b: u32 = (a >> 8) ^ 0xBE0B_1010;
    let x2: u32 = b ^ (crc / 65536 % 256);
    assert(x2 & 0xFF == 0 && x2 >> 8 == b >> 8) by (bit_vector)
        requires
            crc == r ^ 0xFFFF_FFFF,
            a == (r >> 8) ^ 0x2D02_EF8D,
            b == (a >> 8) ^ 0xBE0B_1010,
            x2 == b ^ (crc / 65536 % 256),
    ;
    assert(crc32_byte(x2) == x2 >> 8) by (bit_vector)
        requires
            x2 & 0xFF == 0,
    ;
    let c: u32 = b >> 8;
    let x3: u32 = c ^ (crc / 16777216);
    assert(x3 & 0xFF == 0xED && (x3 >> 8) ^ 0xDEBB_9EC5 == 0xDEBB_20E3) by (bit_vector)
        requires
            crc == r ^ 0xFFFF_FFFF,
            a == (r >> 8) ^ 0x2D02_EF8D,
            b == (a >> 8) ^ 0xBE0B_1010,
            c == b >> 8,
            x3 == c ^ (crc / 16777216),
    ;
    assert(crc32_byte(x3) == (x3 >> 8) ^ 0xDEBB_9EC5) by (bit_vector)
        requires
            x3 & 0xFF == 0xED,
    ;
}

/// Behind its own CRC-32, least significant byte first, any data has the CRC-32 that is
/// known for it, 0x2144DF1C. The CRC-32 of nothing is zero.
pub proof fn law_crc32_closes(data: Seq<u8>)
    ensures
        crc32_of(Seq::empty()) == 0,
        crc32_of(data + crate::bytes::le32_bytes(crc32_of(data))) == 0x2144_DF1C,
{
    assert(0xFFFF_FFFFu32 ^ 0xFFFF_FFFF == 0) by (bit_vector);
    assert(0xDEBB_20E3u32 ^ 0xFFFF_FFFF == 0x2144_DF1C) by (bit_vector);
    let crc: u32 = crc32_of(data);
    let b0: u8 = (crc % 256) as u8;
    let b1: u8 = (crc / 256 % 256) as u8;
    let b2: u8 = (crc / 65536 % 256) as u8;
    let b3: u8 = (crc / 16777216) as u8;
    let d1 = data.push(b0);
    let d2 = d1.push(b1);
    let d3 = d2.push(b2);
    assert(data + crate::bytes::le32_bytes(crc) =~= d3.push(b3));
    lemma_crc32_takes_a_byte(data, b0);
    lemma_crc32_takes_a_byte(d1, b1);
    lemma_crc32_takes_a_byte(d2, b2);
    lemma_crc32_takes_a_byte(d3, b3);
    lemma_crc32_bytes(crc32_register(data));
}

/// The byte sum of two pieces is that of both, modulo 2^32; that of one byte is the byte.
pub proof fn law_sum32_adds_up(a: Seq<u8>, b: Seq<u8>, byte: u8)
    ensures
        sum32_of(Seq::empty()) == 0,
        sum32_of(seq![byte]) == byte,
        sum32_of(a + b) == (sum32_of(a) + sum32_of(b)) % 0x1_0000_0000,
{
    assert(seq![byte].drop_last() =~= Seq::<u8>::empty());
    assert(byte_sum(seq![byte]) == byte) by {
        reveal_with_fuel(byte_sum, 2);
    }
    lemma_byte_sum_splits(a, b);
    vstd::arithmetic::div_mod::lemma_add_mod_noop(
        byte_sum(a) as int,
        byte_sum(b) as int,
        0x1_0000_0000,
    );
}

proof fn lemma_byte_sum_splits(a: Seq<u8>, b: Seq<u8>)
    ensures
        byte_sum(a + b) == byte_sum(a) + byte_sum(b),
    decreases b.len(),
{
    if b.len() == 0 {
        assert(a + b =~= a);
    } else {
        assert((a + b).drop_last() =~= a + b.drop_last());
        lemma_byte_sum_splits(a, b.drop_last());
    }
}

} // verus!
