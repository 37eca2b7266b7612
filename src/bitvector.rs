//! A four-state bit-vector of any width, inline in one word when it fits and
//! on the heap otherwise.
use vstd::prelude::*;

pub mod ascii;
pub mod bytes;
pub mod format;
pub mod integers;

use crate::bits::{
    get_word_bit, lemma_keep_low, lemma_low_mask_values, lemma_with_bit, lemma_word_bits,
    low_mask, make_low_mask, set_word_bit, with_bit, word_bit,
};
pub use crate::bitvector::integers::UnsignedInteger;
use crate::logic::{logic_from_pair, logic_of_pair};
pub use crate::logic::{Bit, BitVectorRadix, Logic};

verus! {

/// Bits in a storage word.
pub const WORD_BITS: usize = 64;

/// Bits in half a storage word: an inline four-state value keeps its value
/// bits in the low half and its mask bits in the high half.
pub const HALF_WORD_BITS: usize = 32;

/// The largest width: the two top bits of the metadata word are tags.
pub const MAX_BIT_WIDTH: u64 = 0x3FFF_FFFF_FFFF_FFFF;

/// Storage words needed for `width` bits.
pub open spec fn words_for(width: nat) -> nat {
    (width + 63) / 64
}

/// Whether a value of this width and flavor lives inline in one word.
pub open spec fn fits_inline(width: nat, four_state: bool) -> bool {
    if four_state {
        width <= 32
    } else {
        width <= 64
    }
}

/// Heap words of a value: value words, and as many mask words when
/// four-state.
pub open spec fn heap_len(width: nat, four_state: bool) -> nat {
    if four_state {
        2 * words_for(width)
    } else {
        words_for(width)
    }
}

/// What a write of `bit` stores in a vector of the given flavor.
pub open spec fn stored_logic(bit: Logic, four_state: bool) -> Logic {
    if four_state {
        bit
    } else {
        bit.two_state()
    }
}

#[derive(Debug)]
enum Payload {
    Inline(u64),
    Heap(Vec<u64>),
}

/// A sequence of `Logic` values indexed from the least significant bit.
///
/// A two-state vector of up to 64 bits, or a four-state one of up to 32,
/// lives in one inline word; a wider one owns a heap array of words, value
/// words first and, when four-state, as many mask words after them.
#[derive(Debug)]
pub struct BitVector {
    width: usize,
    four_state: bool,
    payload: Payload,
}

impl View for BitVector {
    type V = Seq<Logic>;

    closed spec fn view(&self) -> Seq<Logic> {
        Seq::new(self.width as nat, |i: int| self.stored_bit(i))
    }
}

impl BitVector {
    /// Whether the value is four-state.
    pub closed spec fn spec_four_state(&self) -> bool {
        self.four_state
    }

    /// Whether the value lives on the heap.
    pub open spec fn spec_is_pointer(&self) -> bool {
        !fits_inline(self@.len(), self.spec_four_state())
    }

    closed spec fn value_word(&self, i: int) -> u64 {
        match self.payload {
            Payload::Inline(x) => x,
            Payload::Heap(v) => v@[i / 64],
        }
    }

    closed spec fn mask_word(&self, i: int) -> u64 {
        match self.payload {
            Payload::Inline(x) => x,
            Payload::Heap(v) => v@[words_for(self.width as nat) + i / 64],
        }
    }

    /// Position of bit `i` in its value word.
    closed spec fn value_pos(&self, i: int) -> int {
        match self.payload {
            Payload::Inline(_) => i,
            Payload::Heap(_) => i % 64,
        }
    }

    /// Position of the mask of bit `i` in its mask word.
    closed spec fn mask_pos(&self, i: int) -> int {
        match self.payload {
            Payload::Inline(_) => i + 32,
            Payload::Heap(_) => i % 64,
        }
    }

    /// Bit positions per storage region.
    closed spec fn slot_count(&self) -> int {
        match self.payload {
            Payload::Inline(_) => if self.four_state {
                32
            } else {
                64
            },
            Payload::Heap(_) => (64 * words_for(self.width as nat)) as int,
        }
    }

    closed spec fn stored_bit(&self, i: int) -> Logic {
        logic_of_pair(
            word_bit(self.value_word(i), self.value_pos(i)),
            self.four_state && word_bit(self.mask_word(i), self.mask_pos(i)),
        )
    }

    /// The storage invariant: the payload kind follows the width and
    /// flavor, a heap array has the right size, and the bits past the width
    /// in the storage words are clear.
    #[verifier::type_invariant]
    closed spec fn wf(&self) -> bool {
        &&& self.shape_ok()
        &&& forall|i: int|
            self.width <= i < self.slot_count() ==> !word_bit(#[trigger] self.value_word(i), self.value_pos(i)) && (
            self.four_state ==> !word_bit(self.mask_word(i), self.mask_pos(i)))
    }

    /// The payload kind follows the width and flavor, and a heap array has
    /// the right size.
    closed spec fn shape_ok(&self) -> bool {
        &&& self.width <= MAX_BIT_WIDTH
        &&& (self.payload is Heap) == !fits_inline(self.width as nat, self.four_state)
        &&& match self.payload {
            Payload::Heap(v) => v@.len() == heap_len(self.width as nat, self.four_state),
            Payload::Inline(_) => true,
        }
    }

    proof fn lemma_positions(&self, i: int)
        requires
            self.shape_ok(),
            0 <= i,
            i < self.width || i < self.slot_count(),
        ensures
            0 <= self.value_pos(i) < 64,
            self.four_state ==> 0 <= self.mask_pos(i) < 64,
            self.payload is Heap ==> 0 <= i / 64 < words_for(self.width as nat),
            self.payload is Heap ==> self.heap_words().len() == heap_len(self.width as nat, self.four_state),
    {
    }

    /// A zero value of the given width and flavor.
    pub fn new(bit_width: usize, four_state: bool) -> (r: Self)
        requires
            bit_width <= MAX_BIT_WIDTH,
        ensures
            r@ == Seq::new(bit_width as nat, |i: int| Logic::Zero),
            r.spec_four_state() == four_state,
    {
        let inline = if four_state {
            bit_width <= HALF_WORD_BITS
        } else {
            bit_width <= WORD_BITS
        };
        let payload = if inline {
            Payload::Inline(0)
        } else {
            let words = (bit_width - 1) / WORD_BITS + 1;
            let total = if four_state {
                2 * words
            } else {
                words
            };
            Payload::Heap(zero_words(total))
        };
        proof {
            BitVector::lemma_zero(BitVector { width: bit_width, four_state, payload });
        }
        BitVector { width: bit_width, four_state, payload }
    }

    /// A payload of zero words holds the zero value.
    proof fn lemma_zero(bv: BitVector)
        requires
            bv.width <= MAX_BIT_WIDTH,
            (bv.payload is Heap) == !fits_inline(bv.width as nat, bv.four_state),
            match bv.payload {
                Payload::Inline(x) => x == 0,
                Payload::Heap(v) => v@ == Seq::new(
                    heap_len(bv.width as nat, bv.four_state),
                    |i: int| 0u64,
                ),
            },
        ensures
            bv.wf(),
            bv@ == Seq::new(bv.width as nat, |i: int| Logic::Zero),
    {
        assert forall|i: int| 0 <= i < 64 implies !word_bit(0u64, i) by {
            lemma_word_bits(0, 0, i);
        }
        assert(bv.shape_ok());
        assert forall|i: int| 0 <= i < bv.slot_count() implies #[trigger] bv.value_word(i) == 0
            && (bv.four_state ==> bv.mask_word(i) == 0) by {
            bv.lemma_positions(i);
        }
        assert(bv@ =~= Seq::new(bv.width as nat, |i: int| Logic::Zero));
    }

    /// The width in bits.
    pub fn get_bit_width(&self) -> (r: usize)
        ensures
            r == self@.len(),
    {
        proof {
            use_type_invariant(self);
        }
        self.width
    }

    /// Whether the value is four-state.
    pub fn is_four_state(&self) -> (r: bool)
        ensures
            r == self.spec_four_state(),
    {
        self.four_state
    }

    /// Whether the value lives on the heap.
    pub fn is_pointer(&self) -> (r: bool)
        ensures
            r == self.spec_is_pointer(),
    {
        proof {
            use_type_invariant(self);
        }
        match self.payload {
            Payload::Heap(_) => true,
            Payload::Inline(_) => false,
        }
    }

    /// Storage words per region: the value words of a heap value, or 1.
    pub fn get_vector_words_size(&self) -> (r: usize)
        ensures
            r == if self.spec_is_pointer() {
                words_for(self@.len())
            } else {
                1
            },
    {
        proof {
            use_type_invariant(self);
        }
        if self.is_pointer() {
            (self.width - 1) / WORD_BITS + 1
        } else {
            1
        }
    }

    /// Words allocated on the heap: none for an inline value.
    pub fn get_memory_words_size(&self) -> (r: usize)
        ensures
            r == if self.spec_is_pointer() {
                heap_len(self@.len(), self.spec_four_state())
            } else {
                0
            },
    {
        proof {
            use_type_invariant(self);
        }
        match &self.payload {
            Payload::Heap(v) => v.len(),
            Payload::Inline(_) => 0,
        }
    }

    /// The bit at `index`; `Zero` past the width.
    pub fn get_bit(&self, index: usize) -> (r: Logic)
        ensures
            r == if index < self@.len() {
                self@[index as int]
            } else {
                Logic::Zero
            },
            !self.spec_four_state() ==> r.spec_is_two_state(),
    {
        proof {
            use_type_invariant(self);
        }
        if index >= self.width {
            return Logic::Zero;
        }
        proof {
            self.lemma_positions(index as int);
        }
        match &self.payload {
            Payload::Inline(x) => {
                let value = get_word_bit(*x, index);
                let mask = self.four_state && get_word_bit(*x, index + HALF_WORD_BITS);
                logic_from_pair(value, mask)
            },
            Payload::Heap(v) => {
                let word = index / WORD_BITS;
                let pos = index % WORD_BITS;
                let value = get_word_bit(v[word], pos);
                let mask = if self.four_state {
                    let words = (self.width - 1) / WORD_BITS + 1;
                    get_word_bit(v[words + word], pos)
                } else {
                    false
                };
                logic_from_pair(value, mask)
            },
        }
    }

    /// Writes `bit` at `index`, projected onto two states when the value is
    /// two-state; past the width nothing changes.
    pub fn set_bit(&mut self, index: usize, bit: Logic)
        ensures
            final(self).spec_four_state() == old(self).spec_four_state(),
            final(self)@ == if index < old(self)@.len() {
                old(self)@.update(index as int, stored_logic(bit, old(self).spec_four_state()))
            } else {
                old(self)@
            },
    {
        proof {
            use_type_invariant(&*self);
        }
        if index >= self.width {
            return;
        }
        let ghost old_self = *self;
        let four = self.four_state;
        let (value, mask) = if four {
            bit.to_bool_pair()
        } else {
            (bit == Logic::One, false)
        };
        proof {
            old_self.lemma_positions(index as int);
        }
        let mut taken = BitVector::new(0, false);
        std::mem::swap(self, &mut taken);
        let BitVector { width, four_state, mut payload } = taken;
        match &mut payload {
            Payload::Heap(v) => {
                let word = index / WORD_BITS;
                let pos = index % WORD_BITS;
                let y = set_word_bit(v[word], pos, value);
                v[word] = y;
                if four {
                    let words = (width - 1) / WORD_BITS + 1;
                    let z = set_word_bit(v[words + word], pos, mask);
                    v[words + word] = z;
                }
            },
            Payload::Inline(x) => {
                let y = set_word_bit(*x, index, value);
                let z = if four {
                    set_word_bit(y, index + HALF_WORD_BITS, mask)
                } else {
                    y
                };
                *x = z;
            },
        }
        proof {
            BitVector::lemma_set_effect(
                old_self,
                BitVector { width, four_state, payload },
                index as int,
                value,
                mask,
            );
        }
        *self = BitVector { width, four_state, payload };
    }

    /// What rewriting the value and mask bits of one index does to the view.
    proof fn lemma_set_effect(old_bv: BitVector, new_bv: BitVector, index: int, value: bool, mask: bool)
        requires
            old_bv.wf(),
            0 <= index < old_bv.width,
            new_bv.width == old_bv.width,
            new_bv.four_state == old_bv.four_state,
            (new_bv.payload is Heap) == (old_bv.payload is Heap),
            !old_bv.four_state ==> !mask,
            match (old_bv.payload, new_bv.payload) {
                (Payload::Inline(x), Payload::Inline(z)) => z == if old_bv.four_state {
                    with_bit(with_bit(x, index, value), index + 32, mask)
                } else {
                    with_bit(x, index, value)
                },
                (Payload::Heap(_), Payload::Heap(_)) => {
                    let hw = old_bv.heap_words();
                    let k = index / 64;
                    let n = words_for(old_bv.width as nat) as int;
                    let hw1 = hw.update(k, with_bit(hw[k], index % 64, value));
                    new_bv.heap_words() == if old_bv.four_state {
                        hw1.update(n + k, with_bit(hw[n + k], index % 64, mask))
                    } else {
                        hw1
                    }
                },
                _ => false,
            },
        ensures
            new_bv.wf(),
            new_bv@ == old_bv@.update(index, logic_of_pair(value, mask)),
    {
        let four = old_bv.four_state;
        old_bv.lemma_positions(index);
        assert forall|i: int| 0 <= i < new_bv.slot_count() implies {
            &&& word_bit(#[trigger] new_bv.value_word(i), new_bv.value_pos(i)) == if i == index {
                value
            } else {
                word_bit(old_bv.value_word(i), old_bv.value_pos(i))
            }
            &&& four ==> word_bit(new_bv.mask_word(i), new_bv.mask_pos(i)) == if i == index {
                mask
            } else {
                word_bit(old_bv.mask_word(i), old_bv.mask_pos(i))
            }
        } by {
            old_bv.lemma_positions(i);
            match old_bv.payload {
                Payload::Inline(x) => {
                    let y = with_bit(x, index, value);
                    lemma_with_bit(x, index, value);
                    if four {
                        lemma_with_bit(y, index + 32, mask);
                        assert(new_bv.value_word(i) == with_bit(y, index + 32, mask));
                    } else {
                        assert(new_bv.value_word(i) == y);
                    }
                },
                Payload::Heap(_) => {
                    let hw = old_bv.heap_words();
                    let k = index / 64;
                    let n = words_for(old_bv.width as nat) as int;
                    lemma_with_bit(hw[k], index % 64, value);
                    assert(i / 64 == index / 64 && i % 64 == index % 64 ==> i == index);
                    assert(new_bv.value_word(i) == new_bv.heap_words()[i / 64]);
                    if four {
                        lemma_with_bit(hw[n + k], index % 64, mask);
                        assert(new_bv.mask_word(i) == new_bv.heap_words()[n + i / 64]);
                    }
                },
            }
        }
        if old_bv.payload is Heap {
            assert(index / 64 < words_for(old_bv.width as nat));
            assert(new_bv.heap_words().len() == old_bv.heap_words().len());
        }
        assert(new_bv.shape_ok());
        let expected = old_bv@.update(index, logic_of_pair(value, mask));
        assert forall|i: int| 0 <= i < old_bv.width implies #[trigger] new_bv.stored_bit(i)
            == expected[i] by {
            old_bv.lemma_positions(i);
        }
        assert(new_bv@ =~= expected);
    }

    /// An inline word holds these bits when the bits past the width are
    /// clear: the invariant holds, and bit `i` reads as `bits(i)`.
    proof fn lemma_inline(bv: BitVector, x: u64)
        requires
            bv.payload == Payload::Inline(x),
            fits_inline(bv.width as nat, bv.four_state),
            forall|j: int|
                0 <= j < 64 && (if bv.four_state {
                    (bv.width <= j < 32) || (32 + bv.width <= j)
                } else {
                    bv.width <= j
                }) ==> !#[trigger] word_bit(x, j),
        ensures
            bv.wf(),
            bv@ == Seq::new(
                bv.width as nat,
                |i: int| logic_of_pair(word_bit(x, i), bv.four_state && word_bit(x, i + 32)),
            ),
    {
        assert(bv.shape_ok());
        assert forall|i: int| bv.width <= i < bv.slot_count() implies !word_bit(
            #[trigger] bv.value_word(i),
            bv.value_pos(i),
        ) && (bv.four_state ==> !word_bit(bv.mask_word(i), bv.mask_pos(i))) by {
            assert(!word_bit(x, i));
            if bv.four_state {
                assert(!word_bit(x, i + 32));
            }
        }
        assert(bv@ =~= Seq::new(
            bv.width as nat,
            |i: int| logic_of_pair(word_bit(x, i), bv.four_state && word_bit(x, i + 32)),
        ));
    }

    /// A single zero bit.
    pub fn new_zero_bit() -> (r: Self)
        ensures
            !r.spec_four_state(),
            r@ == seq![Logic::Zero],
    {
        BitVector::single(false, false)
    }

    /// A single one bit.
    pub fn new_one_bit() -> (r: Self)
        ensures
            !r.spec_four_state(),
            r@ == seq![Logic::One],
    {
        BitVector::single(true, false)
    }

    /// A single unknown (`X`) bit.
    pub fn new_unknown_bit() -> (r: Self)
        ensures
            r.spec_four_state(),
            r@ == seq![Logic::Unknown],
    {
        BitVector::single(false, true)
    }

    /// A single high-impedance (`Z`) bit.
    pub fn new_high_impedance_bit() -> (r: Self)
        ensures
            r.spec_four_state(),
            r@ == seq![Logic::HighImpedance],
    {
        BitVector::single(true, true)
    }

    /// One bit with the given value and mask; two-state when the mask is
    /// clear.
    fn single(value: bool, mask: bool) -> (r: Self)
        ensures
            r.spec_four_state() == mask,
            r@ == seq![logic_of_pair(value, mask)],
            r == BitVector::spec_single(value, mask),
    {
        let x = set_word_bit(set_word_bit(0, 0, value), HALF_WORD_BITS, mask);
        proof {
            assert forall|j: int| 0 <= j < 64 implies !word_bit(0u64, j) by {
                lemma_word_bits(0, 0, j);
            }
            assert forall|j: int| 0 <= j < 64 && j != 0 && j != 32 implies !#[trigger] word_bit(x, j) by {
                assert(!word_bit(0u64, j));
            }
            BitVector::lemma_inline(BitVector { width: 1, four_state: mask, payload: Payload::Inline(x) }, x);
            assert(BitVector { width: 1, four_state: mask, payload: Payload::Inline(x) }@ =~= seq![
                logic_of_pair(value, mask),
            ]);
        }
        BitVector { width: 1, four_state: mask, payload: Payload::Inline(x) }
    }

    proof fn lemma_spec_single(value: bool, mask: bool)
        ensures
            BitVector::spec_single(value, mask)@ == seq![logic_of_pair(value, mask)],
            BitVector::spec_single(value, mask).spec_four_state() == mask,
    {
        let x = with_bit(with_bit(0, 0, value), 32, mask);
        lemma_with_bit(0, 0, value);
        lemma_with_bit(with_bit(0, 0, value), 32, mask);
        assert forall|j: int| 0 <= j < 64 implies !word_bit(0u64, j) by {
            lemma_word_bits(0, 0, j);
        }
        assert(BitVector::spec_single(value, mask)@ =~= seq![logic_of_pair(value, mask)]);
    }

    closed spec fn spec_single(value: bool, mask: bool) -> BitVector {
        BitVector {
            width: 1,
            four_state: mask,
            payload: Payload::Inline(with_bit(with_bit(0, 0, value), 32, mask)),
        }
    }

    /// The two-state value of `bit_width` bits that holds the low bits of `word`.
    pub closed spec fn spec_from_word(bit_width: usize, word: u64) -> BitVector {
        BitVector {
            width: bit_width,
            four_state: false,
            payload: Payload::Inline(word & low_mask(bit_width as nat)),
        }
    }

    /// A two-state value of `bit_width` bits holding the low bits of `value`.
    pub fn from_bits_two_state<T: UnsignedInteger>(bit_width: usize, value: T) -> (r: Self)
        requires
            bit_width <= WORD_BITS,
        ensures
            r == BitVector::spec_from_word(bit_width, value.spec_word()),
            !r.spec_four_state(),
            r@ == Seq::new(bit_width as nat, |i: int| logic_of_pair(word_bit(value.spec_word(), i), false)),
    {
        let x = value.to_u64() & make_low_mask(bit_width);
        proof {
            lemma_keep_low(value.spec_word(), bit_width as nat);
            BitVector::lemma_inline(
                BitVector { width: bit_width, four_state: false, payload: Payload::Inline(x) },
                x,
            );
            assert(BitVector { width: bit_width, four_state: false, payload: Payload::Inline(x) }@
                =~= Seq::new(bit_width as nat, |i: int| logic_of_pair(word_bit(value.spec_word(), i), false)));
        }
        BitVector { width: bit_width, four_state: false, payload: Payload::Inline(x) }
    }

    /// A four-state value of `bit_width` bits holding the low bits of
    /// `value` as value bits and of `mask` as mask bits.
    pub fn from_bits_four_state<T: UnsignedInteger>(bit_width: usize, value: T, mask: T) -> (r: Self)
        requires
            bit_width <= HALF_WORD_BITS,
        ensures
            r.spec_four_state(),
            r@ == Seq::new(
                bit_width as nat,
                |i: int| logic_of_pair(word_bit(value.spec_word(), i), word_bit(mask.spec_word(), i)),
            ),
    {
        let low = make_low_mask(bit_width);
        let v = value.to_u64() & low;
        let m = mask.to_u64() & low;
        let x = v | (m << 32u64);
        proof {
            lemma_keep_low(value.spec_word(), bit_width as nat);
            lemma_keep_low(mask.spec_word(), bit_width as nat);
            assert forall|j: int| 0 <= j < 64 implies #[trigger] word_bit(x, j) == if j < 32 {
                j < bit_width && word_bit(value.spec_word(), j)
            } else {
                j - 32 < bit_width && word_bit(mask.spec_word(), j - 32)
            } by {
                lemma_word_bits(v, m << 32u64, j);
                lemma_word_bits(m, m, j);
            }
            let bv = BitVector { width: bit_width, four_state: true, payload: Payload::Inline(x) };
            BitVector::lemma_inline(bv, x);
            assert(bv@ =~= Seq::new(
                bit_width as nat,
                |i: int| logic_of_pair(word_bit(value.spec_word(), i), word_bit(mask.spec_word(), i)),
            ));
        }
        BitVector { width: bit_width, four_state: true, payload: Payload::Inline(x) }
    }

    /// The value bits of a two-state value as an integer of type `T`.
    pub fn to_bits_two_state<T: UnsignedInteger>(&self) -> (r: T)
        requires
            !self.spec_four_state(),
            self@.len() <= T::spec_bits(),
        ensures
            forall|j: int|
                0 <= j < 64 ==> #[trigger] word_bit(r.spec_word(), j) == (j < self@.len()
                    && self@[j].value_bit()),
    {
        proof {
            use_type_invariant(self);
        }
        let x = match &self.payload {
            Payload::Inline(x) => *x,
            Payload::Heap(_) => 0,
        };
        let r = T::from_u64(x);
        proof {
            lemma_keep_low(x, T::spec_bits());
            assert forall|j: int| 0 <= j < 64 implies #[trigger] word_bit(r.spec_word(), j) == (j
                < self@.len() && self@[j].value_bit()) by {
                if j >= self.width {
                    assert(!word_bit(self.value_word(j), self.value_pos(j)));
                }
            }
        }
        r
    }

    /// The value bits and the mask bits as integers of type `T`; a
    /// two-state value has a zero mask.
    pub fn to_bits_four_state<T: UnsignedInteger>(&self) -> (r: (T, T))
        requires
            self@.len() <= T::spec_bits(),
        ensures
            forall|j: int|
                0 <= j < 64 ==> #[trigger] word_bit(r.0.spec_word(), j) == (j < self@.len()
                    && self@[j].value_bit()),
            forall|j: int|
                0 <= j < 64 ==> #[trigger] word_bit(r.1.spec_word(), j) == (j < self@.len()
                    && self@[j].mask_bit()),
    {
        proof {
            use_type_invariant(self);
            lemma_low_mask_values();
        }
        let (v, m) = match &self.payload {
            Payload::Inline(x) => if self.four_state {
                (*x & 0xFFFF_FFFF, *x >> 32u64)
            } else {
                (*x, 0)
            },
            Payload::Heap(w) => if w.len() >= 2 {
                (w[0], w[1])
            } else {
                (0, 0)
            },
        };
        let r = (T::from_u64(v), T::from_u64(m));
        proof {
            lemma_keep_low(v, T::spec_bits());
            lemma_keep_low(m, T::spec_bits());
            assert forall|j: int| 0 <= j < 64 implies (word_bit(r.0.spec_word(), j) == (j
                < self@.len() && self@[j].value_bit()) && word_bit(r.1.spec_word(), j) == (j
                < self@.len() && self@[j].mask_bit())) by {
                lemma_word_bits(0, 0, j);
                match self.payload {
                    Payload::Inline(x) => {
                        lemma_word_bits(x, x, j);
                        lemma_keep_low(x, 32);
                        if self.four_state {
                            assert(v == x & low_mask(32));
                            if j < 32 && j >= self.width {
                                assert(!word_bit(self.value_word(j), self.value_pos(j)));
                                assert(!word_bit(self.mask_word(j), self.mask_pos(j)));
                            }
                        } else if j >= self.width {
                            assert(!word_bit(self.value_word(j), self.value_pos(j)));
                        }
                    },
                    Payload::Heap(w) => {
                        assert(self.four_state);
                        assert(self.value_word(j) == w@[0]);
                        assert(self.mask_word(j) == w@[1]);
                        if j >= self.width {
                            assert(!word_bit(self.value_word(j), self.value_pos(j)));
                        }
                    },
                }
            }
            assert forall|j: int| 0 <= j < 64 implies #[trigger] word_bit(r.0.spec_word(), j) == (j
                < self@.len() && self@[j].value_bit()) by {
                assert(word_bit(r.1.spec_word(), j) == (j < self@.len() && self@[j].mask_bit()));
            }
            assert forall|j: int| 0 <= j < 64 implies #[trigger] word_bit(r.1.spec_word(), j) == (j
                < self@.len() && self@[j].mask_bit()) by {
                assert(word_bit(r.0.spec_word(), j) == (j < self@.len() && self@[j].value_bit()));
            }
        }
        r
    }

    /// Whether any bit is `X`.
    pub fn is_unknown(&self) -> (r: bool)
        ensures
            r == exists|i: int| 0 <= i < self@.len() && self@[i] == Logic::Unknown,
    {
        self.contains(Logic::Unknown)
    }

    /// Whether no bit is `X` and some bit is `Z`.
    pub fn is_high_impedance(&self) -> (r: bool)
        ensures
            r == (!(exists|i: int| 0 <= i < self@.len() && self@[i] == Logic::Unknown) && exists|
                i: int,
            |
                0 <= i < self@.len() && self@[i] == Logic::HighImpedance),
    {
        !self.contains(Logic::Unknown) && self.contains(Logic::HighImpedance)
    }

    fn contains(&self, l: Logic) -> (r: bool)
        ensures
            r == exists|i: int| 0 <= i < self@.len() && self@[i] == l,
    {
        let n = self.get_bit_width();
        let mut i: usize = 0;
        while i < n
            invariant
                i <= n,
                n == self@.len(),
                forall|j: int| 0 <= j < i ==> self@[j] != l,
            decreases n - i,
        {
            if self.get_bit(i) == l {
                return true;
            }
            i = i + 1;
        }
        false
    }

    /// An iterator over the bits from index 0 up.
    pub fn iter(&self) -> (r: BitVectorIter<'_>)
        ensures
            r.spec_source() == self@,
            r.spec_index() == 0,
    {
        BitVectorIter { bv: self, index: 0 }
    }

    closed spec fn heap_words(&self) -> Seq<u64> {
        match self.payload {
            Payload::Heap(v) => v@,
            Payload::Inline(_) => Seq::empty(),
        }
    }
}

/// The bits of a vector, from index 0 up.
pub struct BitVectorIter<'a> {
    bv: &'a BitVector,
    index: usize,
}

impl<'a> BitVectorIter<'a> {
    /// The bits iterated over.
    pub closed spec fn spec_source(&self) -> Seq<Logic> {
        self.bv@
    }

    /// How many bits were handed out.
    pub closed spec fn spec_index(&self) -> nat {
        self.index as nat
    }

    /// The next bit, or `None` after the last.
    pub fn next(&mut self) -> (r: Option<Logic>)
        ensures
            final(self).spec_source() == old(self).spec_source(),
            old(self).spec_index() < old(self).spec_source().len() ==> {
                &&& r == Some(old(self).spec_source()[old(self).spec_index() as int])
                &&& final(self).spec_index() == old(self).spec_index() + 1
            },
            old(self).spec_index() >= old(self).spec_source().len() ==> {
                &&& r is None
                &&& final(self).spec_index() == old(self).spec_index()
            },
    {
        if self.index < self.bv.get_bit_width() {
            let bit = self.bv.get_bit(self.index);
            self.index = self.index + 1;
            Some(bit)
        } else {
            None
        }
    }
}

/// Two bit strings compared with the shorter one zero-extended.
pub open spec fn bits_equal(a: Seq<Logic>, b: Seq<Logic>) -> bool {
    forall|i: int|
        0 <= i < a.len() || 0 <= i < b.len() ==> #[trigger] bit_or_zero(a, i) == bit_or_zero(b, i)
}

/// Bit `i` of a bit string, `Zero` past its end.
pub open spec fn bit_or_zero(s: Seq<Logic>, i: int) -> Logic {
    if 0 <= i < s.len() {
        s[i]
    } else {
        Logic::Zero
    }
}

impl Clone for BitVector {
    /// A deep copy: a heap value gets its own words.
    fn clone(&self) -> (r: Self)
        ensures
            r@ == self@,
            r.spec_four_state() == self.spec_four_state(),
    {
        proof {
            use_type_invariant(self);
        }
        let payload = match &self.payload {
            Payload::Inline(x) => Payload::Inline(*x),
            Payload::Heap(v) => Payload::Heap(copy_words(v)),
        };
        proof {
            let c = BitVector { width: self.width, four_state: self.four_state, payload };
            assert(c.shape_ok());
            assert forall|i: int| #[trigger] c.value_word(i) == self.value_word(i) && c.mask_word(i)
                == self.mask_word(i) && c.value_pos(i) == self.value_pos(i) && c.mask_pos(i)
                == self.mask_pos(i) by {}
            assert(c.slot_count() == self.slot_count());
            assert forall|i: int| c.width <= i < c.slot_count() implies !word_bit(
                #[trigger] c.value_word(i),
                c.value_pos(i),
            ) && (c.four_state ==> !word_bit(c.mask_word(i), c.mask_pos(i))) by {
                assert(!word_bit(self.value_word(i), self.value_pos(i)));
            }
            assert(c.wf());
            assert(c@ =~= self@);
        }
        BitVector { width: self.width, four_state: self.four_state, payload }
    }
}

impl PartialEq for BitVector {
    fn eq(&self, other: &BitVector) -> (r: bool) {
        let a = self.get_bit_width();
        let b = other.get_bit_width();
        let n = if a > b {
            a
        } else {
            b
        };
        let mut i: usize = 0;
        while i < n
            invariant
                i <= n,
                a == self@.len(),
                b == other@.len(),
                n == if a > b {
                    a
                } else {
                    b
                },
                forall|j: int| 0 <= j < i ==> #[trigger] bit_or_zero(self@, j) == bit_or_zero(other@, j),
            decreases n - i,
        {
            if self.get_bit(i) != other.get_bit(i) {
                proof {
                    assert(bit_or_zero(self@, i as int) != bit_or_zero(other@, i as int));
                }
                return false;
            }
            i = i + 1;
        }
        proof {
            assert forall|j: int| 0 <= j < self@.len() || 0 <= j < other@.len() implies #[trigger] bit_or_zero(self@, j)
                == bit_or_zero(other@, j) by {
                assert(j < n);
            }
        }
        true
    }
}

impl vstd::std_specs::cmp::PartialEqSpecImpl for BitVector {
    open spec fn obeys_eq_spec() -> bool {
        true
    }

    open spec fn eq_spec(&self, other: &BitVector) -> bool {
        bits_equal(self@, other@)
    }
}

impl From<Bit> for BitVector {
    fn from(value: Bit) -> (r: BitVector) {
        match value {
            Bit::Zero => BitVector::single(false, false),
            Bit::One => BitVector::single(true, false),
        }
    }
}

impl vstd::std_specs::convert::FromSpecImpl<Bit> for BitVector {
    open spec fn obeys_from_spec() -> bool {
        true
    }

    closed spec fn from_spec(v: Bit) -> BitVector {
        BitVector::spec_single(v == Bit::One, false)
    }
}

impl From<Logic> for BitVector {
    fn from(value: Logic) -> (r: BitVector) {
        match value {
            Logic::Zero => BitVector::single(false, false),
            Logic::One => BitVector::single(true, false),
            Logic::Unknown => BitVector::single(false, true),
            Logic::HighImpedance => BitVector::single(true, true),
        }
    }
}

impl vstd::std_specs::convert::FromSpecImpl<Logic> for BitVector {
    open spec fn obeys_from_spec() -> bool {
        true
    }

    closed spec fn from_spec(v: Logic) -> BitVector {
        BitVector::spec_single(v.value_bit(), v.mask_bit())
    }
}

impl<T: UnsignedInteger> From<T> for BitVector {
    /// A two-state value as wide as the integer type, holding its bits.
    fn from(value: T) -> (r: BitVector) {
        let width = value.get_width() as usize;
        BitVector::from_bits_two_state(width, value)
    }
}

impl<T: UnsignedInteger> vstd::std_specs::convert::FromSpecImpl<T> for BitVector {
    open spec fn obeys_from_spec() -> bool {
        true
    }

    closed spec fn from_spec(v: T) -> BitVector {
        BitVector::spec_from_word(T::spec_bits() as usize, v.spec_word())
    }
}

/// The single-bit vector made from a logic value holds that value, and is
/// four-state exactly when the value is `X` or `Z`.
pub proof fn lemma_from_logic(l: Logic)
    ensures
        <BitVector as vstd::std_specs::convert::FromSpec<Logic>>::from_spec(l)@ == seq![l],
        <BitVector as vstd::std_specs::convert::FromSpec<Logic>>::from_spec(l).spec_four_state()
            == l.mask_bit(),
{
    BitVector::lemma_spec_single(l.value_bit(), l.mask_bit());
}

/// A copy of a word array.
fn copy_words(v: &Vec<u64>) -> (r: Vec<u64>)
    ensures
        r@ == v@,
{
    let mut r: Vec<u64> = Vec::with_capacity(v.len());
    let mut k: usize = 0;
    while k < v.len()
        invariant
            k <= v@.len(),
            r@ == v@.subrange(0, k as int),
        decreases v@.len() - k,
    {
        r.push(v[k]);
        k = k + 1;
        proof {
            assert(r@ =~= v@.subrange(0, k as int));
        }
    }
    proof {
        assert(r@ =~= v@);
    }
    r
}

/// `n` zero words.
fn zero_words(n: usize) -> (v: Vec<u64>)
    ensures
        v@ == Seq::new(n as nat, |i: int| 0u64),
{
    let mut v: Vec<u64> = Vec::with_capacity(n);
    let mut k: usize = 0;
    while k < n
        invariant
            k <= n,
            v@ == Seq::new(k as nat, |i: int| 0u64),
        decreases n - k,
    {
        v.push(0);
        k = k + 1;
        proof {
            assert(v@ =~= Seq::new(k as nat, |i: int| 0u64));
        }
    }
    v
}

} // verus!
