//! Bit-vectors to and from big-endian byte strings.
use vstd::prelude::*;

use crate::bits::{byte_bit, get_byte_bit, lemma_byte_ext, lemma_byte_set};
use crate::bitvector::{BitVector, MAX_BIT_WIDTH};
use crate::logic::{logic_from_pair, logic_of_pair, Logic};

verus! {

/// Bytes that hold `width` bits.
pub open spec fn byte_len(width: nat) -> nat {
    (width + 7) / 8
}

/// Bit `i` of a big-endian byte string: bit 0 is the least significant bit
/// of the last byte.
pub open spec fn be_bit(bytes: Seq<u8>, i: int) -> bool {
    byte_bit(bytes[bytes.len() - 1 - i / 8], i % 8)
}

/// The bits that a value and a mask byte string give a vector of `width`.
pub open spec fn be_bits(width: nat, value: Seq<u8>, mask: Seq<u8>, four_state: bool) -> Seq<
    Logic,
> {
    Seq::new(width, |i: int| logic_of_pair(be_bit(value, i), four_state && be_bit(mask, i)))
}

/// Whether `bytes` are the big-endian value bits (or the mask bits) of `bits`,
/// zero past its width.
pub open spec fn is_be_image(bytes: Seq<u8>, bits: Seq<Logic>, of_mask: bool) -> bool {
    &&& bytes.len() == byte_len(bits.len())
    &&& forall|i: int|
        0 <= i < 8 * bytes.len() ==> #[trigger] be_bit(bytes, i) == (i < bits.len() && if of_mask {
            bits[i].mask_bit()
        } else {
            bits[i].value_bit()
        })
}

/// Whether the bits of `bytes` from `width` on are clear.
pub open spec fn clear_past(bytes: Seq<u8>, width: nat) -> bool {
    forall|i: int| width <= i < 8 * bytes.len() ==> !#[trigger] be_bit(bytes, i)
}

/// Reading a vector from big-endian bytes and writing it back gives the
/// same bytes, when no bit past the width is set.
pub proof fn lemma_be_bytes_round_trip(
    width: nat,
    value: Seq<u8>,
    mask: Seq<u8>,
    four_state: bool,
    out_value: Seq<u8>,
    out_mask: Seq<u8>,
)
    requires
        value.len() == byte_len(width),
        mask.len() == value.len(),
        clear_past(value, width),
        four_state ==> clear_past(mask, width),
        is_be_image(out_value, be_bits(width, value, mask, four_state), false),
        four_state ==> is_be_image(out_mask, be_bits(width, value, mask, four_state), true),
    ensures
        out_value == value,
        four_state ==> out_mask == mask,
{
    let bits = be_bits(width, value, mask, four_state);
    lemma_image_matches(width, value, out_value, bits, false);
    if four_state {
        lemma_image_matches(width, mask, out_mask, bits, true);
    }
}

proof fn lemma_image_matches(width: nat, src: Seq<u8>, out: Seq<u8>, bits: Seq<Logic>, of_mask: bool)
    requires
        src.len() == byte_len(width),
        clear_past(src, width),
        bits.len() == width,
        forall|i: int|
            0 <= i < width ==> (if of_mask {
                bits[i].mask_bit()
            } else {
                bits[i].value_bit()
            }) == be_bit(src, i),
        is_be_image(out, bits, of_mask),
    ensures
        out == src,
{
    let n = src.len() as int;
    assert forall|p: int| 0 <= p < n implies out[p] == src[p] by {
        assert forall|k: int| 0 <= k < 8 implies byte_bit(out[p], k) == byte_bit(src[p], k) by {
            let i = 8 * (n - 1 - p) + k;
            assert(i / 8 == n - 1 - p);
            assert(i % 8 == k);
            assert(be_bit(out, i) == byte_bit(out[p], k));
            assert(be_bit(src, i) == byte_bit(src[p], k));
            if i >= width {
                assert(!be_bit(src, i));
            }
        }
        lemma_byte_ext(out[p], src[p]);
    }
    assert(out =~= src);
}

impl BitVector {
    /// A two-state value of `bit_width` bits from its big-endian bytes.
    pub fn from_be_bytes_two_state(bit_width: usize, value: &[u8]) -> (r: Self)
        requires
            bit_width <= MAX_BIT_WIDTH,
            value@.len() == byte_len(bit_width as nat),
        ensures
            !r.spec_four_state(),
            r@ == be_bits(bit_width as nat, value@, value@, false),
    {
        BitVector::from_be_bytes(bit_width, value, value, false)
    }

    /// A four-state value of `bit_width` bits from the big-endian bytes of
    /// its value bits and of its mask bits.
    pub fn from_be_bytes_four_state(bit_width: usize, value: &[u8], mask: &[u8]) -> (r: Self)
        requires
            bit_width <= MAX_BIT_WIDTH,
            value@.len() == byte_len(bit_width as nat),
            mask@.len() == value@.len(),
        ensures
            r.spec_four_state(),
            r@ == be_bits(bit_width as nat, value@, mask@, true),
    {
        BitVector::from_be_bytes(bit_width, value, mask, true)
    }

    fn from_be_bytes(bit_width: usize, value: &[u8], mask: &[u8], four_state: bool) -> (r: Self)
        requires
            bit_width <= MAX_BIT_WIDTH,
            value@.len() == byte_len(bit_width as nat),
            mask@.len() == value@.len(),
        ensures
            r.spec_four_state() == four_state,
            r@ == be_bits(bit_width as nat, value@, mask@, four_state),
    {
        let n = value.len();
        let mut bv = BitVector::new(bit_width, four_state);
        let ghost expected = be_bits(bit_width as nat, value@, mask@, four_state);
        let mut i: usize = 0;
        while i < bit_width
            invariant
                i <= bit_width,
                n == value@.len(),
                n == mask@.len(),
                n == byte_len(bit_width as nat),
                expected == be_bits(bit_width as nat, value@, mask@, four_state),
                bv.spec_four_state() == four_state,
                bv@ == Seq::new(
                    bit_width as nat,
                    |j: int|
                        if j < i {
                            expected[j]
                        } else {
                            Logic::Zero
                        },
                ),
            decreases bit_width - i,
        {
            let byte_index = n - 1 - i / 8;
            let v = get_byte_bit(value[byte_index], i % 8);
            let m = four_state && get_byte_bit(mask[byte_index], i % 8);
            bv.set_bit(i, logic_from_pair(v, m));
            i = i + 1;
            proof {
                assert(bv@ =~= Seq::new(
                    bit_width as nat,
                    |j: int|
                        if j < i {
                            expected[j]
                        } else {
                            Logic::Zero
                        },
                ));
            }
        }
        proof {
            assert(bv@ =~= expected);
        }
        bv
    }

    /// The byte made of bits `base .. base + 8` (value or mask bits), zero
    /// past the width.
    fn pack_byte(&self, base: usize, of_mask: bool) -> (r: u8)
        requires
            base < self@.len(),
        ensures
            forall|j: int|
                0 <= j < 8 ==> #[trigger] byte_bit(r, j) == (base + j < self@.len() && if of_mask {
                    self@[base + j].mask_bit()
                } else {
                    self@[base + j].value_bit()
                }),
    {
        let width = self.get_bit_width();
        let mut b: u8 = 0;
        let mut j: usize = 0;
        proof {
            lemma_byte_set(0, 0);
        }
        while j < 8
            invariant
                j <= 8,
                base < width,
                width == self@.len(),
                forall|k: int|
                    0 <= k < 8 ==> #[trigger] byte_bit(b, k) == (k < j && base + k < width && if of_mask {
                        self@[base + k].mask_bit()
                    } else {
                        self@[base + k].value_bit()
                    }),
            decreases 8 - j,
        {
            if j < width - base {
                let (v, m) = self.get_bit(base + j).to_bool_pair();
                if (of_mask && m) || (!of_mask && v) {
                    proof {
                        lemma_byte_set(b, j as int);
                    }
                    b = b | (1u8 << (j as u8));
                }
            }
            j = j + 1;
        }
        b
    }

    fn write_be_bytes(&self, out: &mut [u8], of_mask: bool)
        requires
            old(out)@.len() == byte_len(self@.len()),
        ensures
            is_be_image(final(out)@, self@, of_mask),
    {
        let width = self.get_bit_width();
        let n = out.len();
        let mut k: usize = 0;
        while k < n
            invariant
                k <= n,
                n == out@.len(),
                n == byte_len(width as nat),
                width == self@.len(),
                forall|i: int|
                    0 <= i < 8 * k ==> #[trigger] be_bit(out@, i) == (i < width && if of_mask {
                        self@[i].mask_bit()
                    } else {
                        self@[i].value_bit()
                    }),
            decreases n - k,
        {
            let b = self.pack_byte(8 * k, of_mask);
            let ghost before = out@;
            out[n - 1 - k] = b;
            proof {
                assert forall|i: int| 0 <= i < 8 * (k + 1) implies #[trigger] be_bit(out@, i) == (i
                    < width && if of_mask {
                    self@[i].mask_bit()
                } else {
                    self@[i].value_bit()
                }) by {
                    if i < 8 * k {
                        assert(i / 8 < k);
                        assert(be_bit(out@, i) == be_bit(before, i));
                    } else {
                        assert(i / 8 == k);
                        assert(8 * k + i % 8 == i);
                        assert(out@[n - 1 - k] == b);
                        assert(be_bit(out@, i) == byte_bit(b, i % 8));
                    }
                }
            }
            k = k + 1;
        }
    }

    /// Writes the value as big-endian bytes into `value`.
    pub fn to_be_bytes_two_state(&self, value: &mut [u8])
        requires
            !self.spec_four_state(),
            old(value)@.len() == byte_len(self@.len()),
        ensures
            is_be_image(final(value)@, self@, false),
    {
        self.write_be_bytes(value, false);
    }

    /// Writes the value bits and the mask bits as big-endian bytes into
    /// `value` and `mask`; a two-state value has a zero mask.
    pub fn to_be_bytes_four_state(&self, value: &mut [u8], mask: &mut [u8])
        requires
            old(value)@.len() == byte_len(self@.len()),
            old(mask)@.len() == old(value)@.len(),
        ensures
            is_be_image(final(value)@, self@, false),
            is_be_image(final(mask)@, self@, true),
    {
        self.write_be_bytes(value, false);
        self.write_be_bytes(mask, true);
    }
}

} // verus!
