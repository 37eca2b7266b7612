//! The unsigned integer types that a bit-vector converts to and from.
use vstd::prelude::*;

use crate::bits::{lemma_below_mask, lemma_keep_low, lemma_low_mask_values, low_mask, word_bit};

verus! {

/// An unsigned integer type of at most 64 bits.
pub trait UnsignedInteger: Sized {
    /// The value as a 64-bit word.
    spec fn spec_word(&self) -> u64;

    /// Bits in the type.
    spec fn spec_bits() -> nat;

    /// The value of the low `spec_bits()` bits of `u`.
    fn from_u64(u: u64) -> (r: Self)
        ensures
            Self::spec_bits() <= 64,
            r.spec_word() == u & low_mask(Self::spec_bits()),
    ;

    fn to_u64(&self) -> (r: u64)
        ensures
            Self::spec_bits() <= 64,
            r == self.spec_word(),
            forall|j: int| Self::spec_bits() <= j < 64 ==> !#[trigger] word_bit(r, j),
    ;

    fn get_width(&self) -> (r: u32)
        ensures
            r == Self::spec_bits(),
            r <= 64,
    ;
}

impl UnsignedInteger for u8 {
    open spec fn spec_word(&self) -> u64 {
        *self as u64
    }

    open spec fn spec_bits() -> nat {
        8
    }

    fn from_u64(u: u64) -> (r: u8) {
        proof {
            lemma_low_mask_values();
            lemma_keep_low(u, 8);
        }
        (u & 0xFF) as u8
    }

    fn to_u64(&self) -> (r: u64) {
        proof {
            lemma_low_mask_values();
            lemma_below_mask(*self as u64, 8);
        }
        *self as u64
    }

    fn get_width(&self) -> (r: u32) {
        u8::BITS
    }
}

impl UnsignedInteger for u16 {
    open spec fn spec_word(&self) -> u64 {
        *self as u64
    }

    open spec fn spec_bits() -> nat {
        16
    }

    fn from_u64(u: u64) -> (r: u16) {
        proof {
            lemma_low_mask_values();
            lemma_keep_low(u, 16);
        }
        (u & 0xFFFF) as u16
    }

    fn to_u64(&self) -> (r: u64) {
        proof {
            lemma_low_mask_values();
            lemma_below_mask(*self as u64, 16);
        }
        *self as u64
    }

    fn get_width(&self) -> (r: u32) {
        u16::BITS
    }
}

impl UnsignedInteger for u32 {
    open spec fn spec_word(&self) -> u64 {
        *self as u64
    }

    open spec fn spec_bits() -> nat {
        32
    }

    fn from_u64(u: u64) -> (r: u32) {
        proof {
            lemma_low_mask_values();
            lemma_keep_low(u, 32);
        }
        (u & 0xFFFF_FFFF) as u32
    }

    fn to_u64(&self) -> (r: u64) {
        proof {
            lemma_low_mask_values();
            lemma_below_mask(*self as u64, 32);
        }
        *self as u64
    }

    fn get_width(&self) -> (r: u32) {
        u32::BITS
    }
}

impl UnsignedInteger for u64 {
    open spec fn spec_word(&self) -> u64 {
        *self
    }

    open spec fn spec_bits() -> nat {
        64
    }

    fn from_u64(u: u64) -> (r: u64) {
        proof {
            lemma_low_mask_values();
            lemma_keep_low(u, 64);
            assert(u & 0xFFFF_FFFF_FFFF_FFFFu64 == u) by (bit_vector);
        }
        u
    }

    fn to_u64(&self) -> (r: u64) {
        *self
    }

    fn get_width(&self) -> (r: u32) {
        u64::BITS
    }
}

impl UnsignedInteger for usize {
    open spec fn spec_word(&self) -> u64 {
        *self as u64
    }

    open spec fn spec_bits() -> nat {
        usize::BITS as nat
    }

    fn from_u64(u: u64) -> (r: usize) {
        proof {
            lemma_low_mask_values();
            lemma_keep_low(u, usize::BITS as nat);
        }
        (u & (usize::MAX as u64)) as usize
    }

    fn to_u64(&self) -> (r: u64) {
        proof {
            lemma_low_mask_values();
            lemma_below_mask(*self as u64, usize::BITS as nat);
        }
        *self as u64
    }

    fn get_width(&self) -> (r: u32) {
        usize::BITS
    }
}

} // verus!
