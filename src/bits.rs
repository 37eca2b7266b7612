//! Facts about single bits of 64-bit words.
use vstd::prelude::*;

verus! {

/// Bit `i` (counted from the least significant end) of a 64-bit word.
pub open spec fn word_bit(x: u64, i: int) -> bool {
    (x >> (i as u64)) & 1u64 == 1u64
}

/// The word whose `n` low bits are set and whose other bits are clear.
pub open spec fn low_mask(n: nat) -> u64 {
    if n >= 64 {
        0xFFFF_FFFF_FFFF_FFFFu64
    } else {
        !(0xFFFF_FFFF_FFFF_FFFFu64 << (n as u64))
    }
}

proof fn lemma_bit_set_raw(x: u64, i: u64, j: u64)
    by (bit_vector)
    requires
        i < 64,
        j < 64,
    ensures
        ((x | (1u64 << i)) >> j) & 1u64 == (if j == i { 1u64 } else { (x >> j) & 1u64 }),
        ((x & !(1u64 << i)) >> j) & 1u64 == (if j == i { 0u64 } else { (x >> j) & 1u64 }),
{
}

proof fn lemma_bit_ops_raw(x: u64, y: u64, j: u64)
    by (bit_vector)
    requires
        j < 64,
    ensures
        (((x & y) >> j) & 1u64 == 1u64) == (((x >> j) & 1u64 == 1u64) && ((y >> j) & 1u64
            == 1u64)),
        (((x | y) >> j) & 1u64 == 1u64) == (((x >> j) & 1u64 == 1u64) || ((y >> j) & 1u64
            == 1u64)),
        (0u64 >> j) & 1u64 == 0u64,
        (0xFFFF_FFFF_FFFF_FFFFu64 >> j) & 1u64 == 1u64,
        ((x >> j) & 1u64 == 1u64) || ((x >> j) & 1u64 == 0u64),
{
}

proof fn lemma_bit_shift_raw(x: u64, j: u64)
    by (bit_vector)
    requires
        j < 64,
    ensures
        ((x << 32u64) >> j) & 1u64 == (if j >= 32 { (x >> ((j - 32) as u64)) & 1u64 } else { 0u64 }),
        ((x >> 32u64) >> j) & 1u64 == (if j < 32 { (x >> ((j + 32) as u64)) & 1u64 } else { 0u64 }),
{
}

proof fn lemma_bit_mask_raw(n: u64, j: u64)
    by (bit_vector)
    requires
        n < 64,
        j < 64,
    ensures
        ((!(0xFFFF_FFFF_FFFF_FFFFu64 << n)) >> j) & 1u64 == (if j < n { 1u64 } else { 0u64 }),
{
}

/// Setting or clearing bit `i` changes that bit and no other.
pub proof fn lemma_with_bit(x: u64, i: int, b: bool)
    requires
        0 <= i < 64,
    ensures
        forall|j: int|
            0 <= j < 64 ==> #[trigger] word_bit(with_bit(x, i, b), j) == if j == i {
                b
            } else {
                word_bit(x, j)
            },
{
    assert forall|j: int| 0 <= j < 64 implies #[trigger] word_bit(with_bit(x, i, b), j) == if j
        == i {
        b
    } else {
        word_bit(x, j)
    } by {
        lemma_bit_set_raw(x, i as u64, j as u64);
        lemma_bit_ops_raw(x, x, j as u64);
    }
}

/// The word `x` with bit `i` set to `b`.
pub open spec fn with_bit(x: u64, i: int, b: bool) -> u64 {
    if b {
        x | (1u64 << (i as u64))
    } else {
        x & !(1u64 << (i as u64))
    }
}

/// Bits of `&`, `|`, of the constants and of the low masks.
pub proof fn lemma_word_bits(x: u64, y: u64, j: int)
    requires
        0 <= j < 64,
    ensures
        word_bit(x & y, j) == (word_bit(x, j) && word_bit(y, j)),
        word_bit(x | y, j) == (word_bit(x, j) || word_bit(y, j)),
        !word_bit(0u64, j),
        word_bit(0xFFFF_FFFF_FFFF_FFFFu64, j),
        word_bit(x << 32u64, j) == (j >= 32 && word_bit(x, j - 32)),
        word_bit(x >> 32u64, j) == (j < 32 && word_bit(x, j + 32)),
{
    lemma_bit_ops_raw(x, y, j as u64);
    lemma_bit_ops_raw(x, x, j as u64);
    lemma_bit_ops_raw(y, y, j as u64);
    lemma_bit_shift_raw(x, j as u64);
    if j >= 32 {
        lemma_bit_ops_raw(x, x, (j - 32) as u64);
    } else {
        lemma_bit_ops_raw(x, x, (j + 32) as u64);
    }
}

/// Bit `j` of the low mask of `n` bits is set exactly when `j < n`.
pub proof fn lemma_low_mask_bit(n: nat, j: int)
    requires
        0 <= j < 64,
    ensures
        word_bit(low_mask(n), j) == (j < n),
{
    if n >= 64 {
        lemma_bit_ops_raw(0, 0, j as u64);
    } else {
        lemma_bit_mask_raw(n as u64, j as u64);
    }
}

/// Bit `i` of `x`.
pub fn get_word_bit(x: u64, i: usize) -> (r: bool)
    requires
        i < 64,
    ensures
        r == word_bit(x, i as int),
{
    (x >> (i as u64)) & 1 == 1
}

/// `x` with bit `i` set to `b`.
pub fn set_word_bit(x: u64, i: usize, b: bool) -> (r: u64)
    requires
        i < 64,
    ensures
        r == with_bit(x, i as int, b),
        forall|j: int|
            0 <= j < 64 ==> #[trigger] word_bit(r, j) == if j == i {
                b
            } else {
                word_bit(x, j)
            },
{
    proof {
        lemma_with_bit(x, i as int, b);
    }
    if b {
        x | (1u64 << (i as u64))
    } else {
        x & !(1u64 << (i as u64))
    }
}

/// The word with the `n` low bits set.
pub fn make_low_mask(n: usize) -> (r: u64)
    requires
        n <= 64,
    ensures
        r == low_mask(n as nat),
{
    if n >= 64 {
        0xFFFF_FFFF_FFFF_FFFFu64
    } else {
        !(0xFFFF_FFFF_FFFF_FFFFu64 << (n as u64))
    }
}

/// Bit `k` of a byte.
pub open spec fn byte_bit(b: u8, k: int) -> bool {
    (b >> (k as u8)) & 1u8 == 1u8
}

proof fn lemma_byte_bits_raw(x: u8, i: u8, j: u8)
    by (bit_vector)
    requires
        i < 8,
        j < 8,
    ensures
        ((x | (1u8 << i)) >> j) & 1u8 == (if j == i { 1u8 } else { (x >> j) & 1u8 }),
        (0u8 >> j) & 1u8 == 0u8,
        ((x >> j) & 1u8 == 1u8) || ((x >> j) & 1u8 == 0u8),
{
}

proof fn lemma_byte_ext_raw(a: u8, b: u8)
    by (bit_vector)
    requires
        (a >> 0u8) & 1u8 == (b >> 0u8) & 1u8,
        (a >> 1u8) & 1u8 == (b >> 1u8) & 1u8,
        (a >> 2u8) & 1u8 == (b >> 2u8) & 1u8,
        (a >> 3u8) & 1u8 == (b >> 3u8) & 1u8,
        (a >> 4u8) & 1u8 == (b >> 4u8) & 1u8,
        (a >> 5u8) & 1u8 == (b >> 5u8) & 1u8,
        (a >> 6u8) & 1u8 == (b >> 6u8) & 1u8,
        (a >> 7u8) & 1u8 == (b >> 7u8) & 1u8,
    ensures
        a == b,
{
}

/// Two bytes with the same eight bits are equal.
pub proof fn lemma_byte_ext(a: u8, b: u8)
    requires
        forall|k: int| 0 <= k < 8 ==> byte_bit(a, k) == byte_bit(b, k),
    ensures
        a == b,
{
    assert(byte_bit(a, 0) == byte_bit(b, 0));
    lemma_byte_bits_raw(a, 0, 0);
    lemma_byte_bits_raw(b, 0, 0);
    assert(byte_bit(a, 1) == byte_bit(b, 1));
    lemma_byte_bits_raw(a, 0, 1);
    lemma_byte_bits_raw(b, 0, 1);
    assert(byte_bit(a, 2) == byte_bit(b, 2));
    lemma_byte_bits_raw(a, 0, 2);
    lemma_byte_bits_raw(b, 0, 2);
    assert(byte_bit(a, 3) == byte_bit(b, 3));
    lemma_byte_bits_raw(a, 0, 3);
    lemma_byte_bits_raw(b, 0, 3);
    assert(byte_bit(a, 4) == byte_bit(b, 4));
    lemma_byte_bits_raw(a, 0, 4);
    lemma_byte_bits_raw(b, 0, 4);
    assert(byte_bit(a, 5) == byte_bit(b, 5));
    lemma_byte_bits_raw(a, 0, 5);
    lemma_byte_bits_raw(b, 0, 5);
    assert(byte_bit(a, 6) == byte_bit(b, 6));
    lemma_byte_bits_raw(a, 0, 6);
    lemma_byte_bits_raw(b, 0, 6);
    assert(byte_bit(a, 7) == byte_bit(b, 7));
    lemma_byte_bits_raw(a, 0, 7);
    lemma_byte_bits_raw(b, 0, 7);
    lemma_byte_ext_raw(a, b);
}

/// Bit `k` of a byte.
pub fn get_byte_bit(b: u8, k: usize) -> (r: bool)
    requires
        k < 8,
    ensures
        r == byte_bit(b, k as int),
{
    (b >> (k as u8)) & 1 == 1
}

/// The byte whose bit `k` is `bits(k)`, built from the clear byte.
pub proof fn lemma_byte_set(x: u8, i: int)
    requires
        0 <= i < 8,
    ensures
        forall|j: int|
            0 <= j < 8 ==> #[trigger] byte_bit(x | (1u8 << (i as u8)), j) == (j == i || byte_bit(
                x,
                j,
            )),
        forall|j: int| 0 <= j < 8 ==> !#[trigger] byte_bit(0u8, j),
{
    assert forall|j: int| 0 <= j < 8 implies #[trigger] byte_bit(x | (1u8 << (i as u8)), j) == (
    j == i || byte_bit(x, j)) by {
        lemma_byte_bits_raw(x, i as u8, j as u8);
    }
    assert forall|j: int| 0 <= j < 8 implies !#[trigger] byte_bit(0u8, j) by {
        lemma_byte_bits_raw(0, 0, j as u8);
    }
}

proof fn lemma_bound_raw(x: u64, m: u64, n: u64, j: u64)
    by (bit_vector)
    requires
        n < 64,
        j < 64,
    ensures
        x & m <= m,
        (x <= !(0xFFFF_FFFF_FFFF_FFFFu64 << n) && n <= j) ==> (x >> j) & 1u64 == 0u64,
{
}

/// Keeping the `n` low bits of `x`.
pub proof fn lemma_keep_low(x: u64, n: nat)
    ensures
        x & low_mask(n) <= low_mask(n),
        forall|j: int|
            0 <= j < 64 ==> #[trigger] word_bit(x & low_mask(n), j) == (j < n && word_bit(x, j)),
{
    lemma_bound_raw(x, low_mask(n), 0, 0);
    assert forall|j: int| 0 <= j < 64 implies #[trigger] word_bit(x & low_mask(n), j) == (j < n
        && word_bit(x, j)) by {
        lemma_word_bits(x, low_mask(n), j);
        lemma_low_mask_bit(n, j);
    }
}

/// A word no larger than the low mask of `n` bits has no bit set from `n` on.
pub proof fn lemma_below_mask(x: u64, n: nat)
    requires
        x <= low_mask(n),
    ensures
        forall|j: int| n <= j < 64 ==> !#[trigger] word_bit(x, j),
{
    assert forall|j: int| n <= j < 64 implies !#[trigger] word_bit(x, j) by {
        lemma_bound_raw(x, 0, n as u64, j as u64);
    }
}

/// The low masks of the widths of the unsigned types.
pub proof fn lemma_low_mask_values()
    ensures
        low_mask(8) == 0xFFu64,
        low_mask(16) == 0xFFFFu64,
        low_mask(32) == 0xFFFF_FFFFu64,
        low_mask(64) == 0xFFFF_FFFF_FFFF_FFFFu64,
{
    assert(!(0xFFFF_FFFF_FFFF_FFFFu64 << 8u64) == 0xFFu64) by (bit_vector);
    assert(!(0xFFFF_FFFF_FFFF_FFFFu64 << 16u64) == 0xFFFFu64) by (bit_vector);
    assert(!(0xFFFF_FFFF_FFFF_FFFFu64 << 32u64) == 0xFFFF_FFFFu64) by (bit_vector);
}

} // verus!
