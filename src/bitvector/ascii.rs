//! Bit-vectors from ASCII digits, most significant bit first.
use vstd::prelude::*;

use crate::bitvector::{BitVector, MAX_BIT_WIDTH};
use crate::logic::Logic;

verus! {

/// The two-state bit that an ASCII byte stands for: `'1'` is one, any
/// other byte zero.
pub open spec fn ascii_two_state(b: u8) -> Logic {
    if b == 0x31 {
        Logic::One
    } else {
        Logic::Zero
    }
}

/// The four-state bit that an ASCII byte stands for: `'1'`, `'X'`/`'x'`,
/// `'Z'`/`'z'`, and zero for any other byte.
pub open spec fn ascii_four_state(b: u8) -> Logic {
    if b == 0x31 {
        Logic::One
    } else if b == 0x58 || b == 0x78 {
        Logic::Unknown
    } else if b == 0x5A || b == 0x7A {
        Logic::HighImpedance
    } else {
        Logic::Zero
    }
}

/// The bits of an ASCII string read most significant first: bit `i` is
/// the byte `i` places from the end.
pub open spec fn ascii_bits(bytes: Seq<u8>, four_state: bool) -> Seq<Logic> {
    Seq::new(
        bytes.len(),
        |i: int|
            if four_state {
                ascii_four_state(bytes[bytes.len() - 1 - i])
            } else {
                ascii_two_state(bytes[bytes.len() - 1 - i])
            },
    )
}

impl BitVector {
    /// A two-state value from `'0'`/`'1'` digits; the first byte is the
    /// most significant bit.
    pub fn from_ascii(bytes: &[u8]) -> (r: Self)
        requires
            bytes@.len() <= MAX_BIT_WIDTH,
        ensures
            !r.spec_four_state(),
            r@ == ascii_bits(bytes@, false),
    {
        BitVector::from_ascii_digits(bytes, false)
    }

    /// A four-state value from `'0'`, `'1'`, `'X'`/`'x'` and `'Z'`/`'z'`
    /// digits, any other byte read as `'0'`; the first byte is the most
    /// significant bit.
    pub fn from_ascii_four_state(bytes: &[u8]) -> (r: Self)
        requires
            bytes@.len() <= MAX_BIT_WIDTH,
        ensures
            r.spec_four_state(),
            r@ == ascii_bits(bytes@, true),
    {
        BitVector::from_ascii_digits(bytes, true)
    }

    fn from_ascii_digits(bytes: &[u8], four_state: bool) -> (r: Self)
        requires
            bytes@.len() <= MAX_BIT_WIDTH,
        ensures
            r.spec_four_state() == four_state,
            r@ == ascii_bits(bytes@, four_state),
    {
        let n = bytes.len();
        let mut bv = BitVector::new(n, four_state);
        let ghost expected = ascii_bits(bytes@, four_state);
        let mut i: usize = 0;
        while i < n
            invariant
                i <= n,
                n == bytes@.len(),
                expected == ascii_bits(bytes@, four_state),
                bv.spec_four_state() == four_state,
                bv@ == Seq::new(
                    n as nat,
                    |j: int|
                        if j < i {
                            expected[j]
                        } else {
                            Logic::Zero
                        },
                ),
            decreases n - i,
        {
            let byte = bytes[n - 1 - i];
            let bit = if byte == 0x31 {
                Logic::One
            } else if four_state && (byte == 0x58 || byte == 0x78) {
                Logic::Unknown
            } else if four_state && (byte == 0x5A || byte == 0x7A) {
                Logic::HighImpedance
            } else {
                Logic::Zero
            };
            bv.set_bit(i, bit);
            i = i + 1;
            proof {
                assert(bv@ =~= Seq::new(
                    n as nat,
                    |j: int|
                        if j < i {
                            expected[j]
                        } else {
                            Logic::Zero
                        },
                ));
            }
        }
        proof {
            assert(bv@ =~= expected);
        }
        bv
    }
}

} // verus!
