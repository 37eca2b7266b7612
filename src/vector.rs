//! A signal of four-state vectors: its values packed in a byte array, and
//! the history of when each was set.
use vstd::prelude::*;

use crate::bits::{byte_bit, get_byte_bit, lemma_byte_set};
use crate::bitvector::bytes::{be_bit, byte_len, is_be_image};
use crate::bitvector::{bit_or_zero, BitVector, MAX_BIT_WIDTH};
use crate::history::index::WaveformHistoryIndex;
use crate::history::encode::push_padded;
use crate::history::{is_change_log, WaveformHistory, BLOCK_SIZE};
use crate::logic::{logic_from_pair, logic_of_pair, Logic};

verus! {

/// How the values of a signal are laid out in its byte array.
#[derive(Clone, Copy, Debug, PartialEq, Eq, Structural)]
enum WaveformVectorPacking {
    /// Several values per byte: this many bits per value, value bits in the
    /// low half and mask bits in the high half, values packed from the
    /// byte's low end up.
    Bits(usize),
    /// This many bytes per value: the big-endian value bytes, then as many
    /// mask bytes.
    Bytes(usize),
}

/// Bits per packed value of a signal of this width: 2, 4 or 8 for widths up
/// to 4, else 0 (whole bytes are used).
pub open spec fn packed_bits(width: nat) -> nat {
    if width == 1 {
        2
    } else if width == 2 {
        4
    } else if 3 <= width <= 4 {
        8
    } else {
        0
    }
}

/// Values per byte when each takes `bits` bits.
pub open spec fn per_byte(bits: int) -> int {
    if bits == 2 {
        4
    } else if bits == 4 {
        2
    } else {
        1
    }
}

/// Bytes that `n` values of a signal of this width take.
pub open spec fn packed_size(width: nat, n: nat) -> nat {
    let bits = packed_bits(width);
    if bits > 0 {
        ((n + per_byte(bits as int) - 1) / per_byte(bits as int)) as nat
    } else {
        2 * byte_len(width) * n
    }
}

/// The value `bits` stored at the signal's width: zero-extended, as the
/// shorter vector is right-justified.
pub open spec fn widened(bits: Seq<Logic>, width: nat) -> Seq<Logic> {
    Seq::new(width, |j: int| bit_or_zero(bits, j))
}

impl WaveformVectorPacking {
    fn new(width: usize) -> (r: Self)
        ensures
            packed_bits(width as nat) > 0 ==> r == WaveformVectorPacking::Bits(
                packed_bits(width as nat) as usize,
            ),
            packed_bits(width as nat) == 0 ==> r == WaveformVectorPacking::Bytes(
                (2 * byte_len(width as nat)) as usize,
            ),
    {
        if width == 1 {
            WaveformVectorPacking::Bits(2)
        } else if width == 2 {
            WaveformVectorPacking::Bits(4)
        } else if 3 <= width && width <= 4 {
            WaveformVectorPacking::Bits(8)
        } else if width == 0 {
            WaveformVectorPacking::Bytes(0)
        } else {
            WaveformVectorPacking::Bytes(((width - 1) / 8 + 1) * 2)
        }
    }
}

/// A signal whose values are four-state vectors of a fixed width.
pub struct WaveformSignalVector {
    width: usize,
    packing: WaveformVectorPacking,
    history: WaveformHistory,
    vectors: Vec<u8>,
    vector_index: usize,
    values: Ghost<Seq<Seq<Logic>>>,
}

impl WaveformSignalVector {
    /// The values stored so far, each at the signal's width.
    pub closed spec fn spec_values(&self) -> Seq<Seq<Logic>> {
        self.values@
    }

    /// The signal's width.
    pub closed spec fn spec_width(&self) -> nat {
        self.width as nat
    }

    /// The signal's change history.
    pub closed spec fn spec_history(&self) -> Seq<WaveformHistoryIndex> {
        self.history@
    }

    /// Blocks in the signal's history.
    pub closed spec fn spec_block_count(&self) -> nat {
        self.history.spec_block_count()
    }

    /// Bytes used by the packed values.
    pub closed spec fn spec_vector_size(&self) -> nat {
        self.vectors@.len()
    }

    /// Bit `j` of packed value `i`.
    closed spec fn packed_bit(&self, i: int, j: int) -> Logic {
        match self.packing {
            WaveformVectorPacking::Bits(bits) => {
                let per = per_byte(bits as int);
                let byte = self.vectors@[i / per];
                let base = (i % per) * bits;
                logic_of_pair(byte_bit(byte, base + j), byte_bit(byte, base + bits / 2 + j))
            },
            WaveformVectorPacking::Bytes(bytes) => {
                let half = bytes / 2;
                let v = self.vectors@.subrange(bytes * i, bytes * i + half);
                let m = self.vectors@.subrange(bytes * i + half, bytes * i + bytes);
                logic_of_pair(be_bit(v, j), be_bit(m, j))
            },
        }
    }

    #[verifier::type_invariant]
    closed spec fn wf(&self) -> bool {
        let n = self.vector_index as int;
        let w = self.width as int;
        &&& w <= MAX_BIT_WIDTH
        &&& self.values@.len() == n
        &&& self.history@.len() == n
        &&& forall|i: int| 0 <= i < n ==> (#[trigger] self.values@[i]).len() == w
        &&& forall|i: int, j: int|
            0 <= i < n && 0 <= j < w ==> #[trigger] self.values@[i][j] == self.packed_bit(i, j)
        &&& match self.packing {
            WaveformVectorPacking::Bits(bits) => {
                &&& bits == packed_bits(w as nat)
                &&& bits > 0
                &&& self.vectors@.len() == (n + per_byte(bits as int) - 1) / per_byte(bits as int)
                &&& n % per_byte(bits as int) != 0 ==> forall|q: int|
                    (n % per_byte(bits as int)) * bits <= q < 8 ==> !byte_bit(
                        self.vectors@.last(),
                        q,
                    )
            },
            WaveformVectorPacking::Bytes(bytes) => {
                &&& packed_bits(w as nat) == 0
                &&& bytes == 2 * byte_len(w as nat)
                &&& self.vectors@.len() == bytes * n
            },
        }
    }

    /// An empty signal of `width` bits.
    pub fn new(width: usize) -> (r: Self)
        requires
            width <= MAX_BIT_WIDTH,
        ensures
            r.spec_width() == width,
            r.spec_values() == Seq::<Seq<Logic>>::empty(),
            r.spec_history() == Seq::<WaveformHistoryIndex>::empty(),
            r.spec_vector_size() == 0,
            r.spec_block_count() == 0,
    {
        let packing = WaveformVectorPacking::new(width);
        proof {
            assert(per_byte(2) == 4);
            assert(per_byte(4) == 2);
            assert(per_byte(8) == 1);
            assert(2 * byte_len(width as nat) <= usize::MAX);
        }
        WaveformSignalVector {
            width,
            packing,
            history: WaveformHistory::new(),
            vectors: Vec::new(),
            vector_index: 0,
            values: Ghost(Seq::empty()),
        }
    }

    /// The signal's change history.
    pub fn get_history(&self) -> (r: &WaveformHistory)
        ensures
            r@ == self.spec_history(),
            r.spec_block_count() == self.spec_block_count(),
            r@.len() == self.spec_values().len(),
            is_change_log(r@),
    {
        proof {
            use_type_invariant(self);
            use_type_invariant(&self.history);
            self.history.lemma_is_change_log();
        }
        &self.history
    }

    /// Bytes used by the packed values.
    pub fn get_vector_size(&self) -> (r: usize)
        ensures
            r == self.spec_vector_size(),
            r == packed_size(self.spec_width(), self.spec_values().len()),
    {
        proof {
            use_type_invariant(self);
        }
        self.vectors.len()
    }

    /// The signal's width.
    pub fn get_width(&self) -> (r: usize)
        ensures
            r == self.spec_width(),
    {
        self.width
    }

    /// How many values were stored.
    pub fn len(&self) -> (r: usize)
        ensures
            r == self.spec_values().len(),
    {
        proof {
            use_type_invariant(self);
        }
        self.vector_index
    }

    /// Stores `bv` as the next value, right-justified at the signal's
    /// width, and records that it was set at `timestamp_index`.
    pub fn update(&mut self, timestamp_index: usize, bv: BitVector)
        requires
            bv@.len() <= old(self).spec_width(),
            old(self).spec_history().len() > 0 ==> timestamp_index > old(
                self,
            ).spec_history().last().timestamp_index,
            (old(self).spec_values().len() + 1) * BLOCK_SIZE <= usize::MAX,
            old(self).spec_vector_size() + 2 * old(self).spec_width() + 2 <= usize::MAX,
        ensures
            final(self).spec_width() == old(self).spec_width(),
            final(self).spec_values() == old(self).spec_values().push(
                widened(bv@, old(self).spec_width()),
            ),
            final(self).spec_history() == old(self).spec_history().push(
                WaveformHistoryIndex {
                    timestamp_index,
                    value_index: old(self).spec_values().len() as usize,
                },
            ),
    {
        proof {
            use_type_invariant(&*self);
        }
        let mut taken = WaveformSignalVector::new(0);
        std::mem::swap(self, &mut taken);
        let ghost old_s = taken;
        let WaveformSignalVector { width, packing, mut history, mut vectors, vector_index, values } =
            taken;
        history.add_change(timestamp_index, vector_index);
        let next_index = vector_index + 1;
        let ghost w = width as int;
        let ghost n = vector_index as int;
        let ghost entry = widened(bv@, width as nat);
        match packing {
            WaveformVectorPacking::Bits(bits) => {
                proof {
                    assert(old_s.packing == packing);
                    assert(bits == 2 || bits == 4 || bits == 8);
                }
                let per: usize = if bits == 2 {
                    4
                } else if bits == 4 {
                    2
                } else {
                    1
                };
                let half = bits / 2;
                let slot = vector_index % per;
                let base = slot * bits;
                proof {
                    assert(per == per_byte(bits as int));
                    let nn = vector_index as int;
                    if bits == 2 {
                        assert(per == 4);
                    } else if bits == 4 {
                        assert(per == 2);
                    } else {
                        assert(per == 1);
                        assert((nn + 1 - 1) / 1 == nn) by (nonlinear_arith);
                    }
                    assert(base + bits <= 8);
                    assert(slot != 0 ==> vectors@.len() >= 1);
                }
                let mut byte: u8 = if slot == 0 {
                    0
                } else {
                    vectors[vectors.len() - 1]
                };
                let ghost byte0 = byte;
                proof {
                    lemma_byte_set(0, 0);
                }
                let mut j: usize = 0;
                while j < half
                    invariant
                        j <= half,
                        half == bits / 2,
                        base + bits <= 8,
                        w <= half,
                        bits == 2 || bits == 4 || bits == 8,
                        forall|q: int|
                            0 <= q < 8 ==> #[trigger] byte_bit(byte, q) == (byte_bit(byte0, q) || (base
                                <= q < base + j && bit_or_zero(bv@, q - base).value_bit()) || (base
                                + half <= q < base + half + j && bit_or_zero(
                                bv@,
                                q - base - half,
                            ).mask_bit())),
                    decreases half - j,
                {
                    let (v, m) = bv.get_bit(j).to_bool_pair();
                    if v {
                        proof {
                            lemma_byte_set(byte, base + j);
                        }
                        byte = byte | (1u8 << ((base + j) as u8));
                    }
                    if m {
                        proof {
                            lemma_byte_set(byte, base + half + j);
                        }
                        byte = byte | (1u8 << ((base + half + j) as u8));
                    }
                    j = j + 1;
                }
                if slot == 0 {
                    vectors.push(byte);
                } else {
                    let last = vectors.len() - 1;
                    vectors[last] = byte;
                }
                let ghost r = WaveformSignalVector {
                    width,
                    packing,
                    history,
                    vectors,
                    vector_index: next_index,
                    values: Ghost(values@.push(entry)),
                };
                proof {
                    WaveformSignalVector::lemma_bits_append(old_s, r, bits, byte0, byte, bv@);
                }
                *self = WaveformSignalVector {
                    width,
                    packing,
                    history,
                    vectors,
                    vector_index: next_index,
                    values: Ghost(values@.push(entry)),
                };
            },
            WaveformVectorPacking::Bytes(bytes) => {
                let half = bytes / 2;
                let bw = bv.get_bit_width();
                let byte_width = if bw == 0 {
                    0
                } else {
                    (bw - 1) / 8 + 1
                };
                let mut tv: Vec<u8> = Vec::new();
                let mut tm: Vec<u8> = Vec::new();
                let mut k: usize = 0;
                while k < byte_width
                    invariant
                        k <= byte_width,
                        tv@.len() == k,
                        tm@.len() == k,
                    decreases byte_width - k,
                {
                    tv.push(0);
                    tm.push(0);
                    k = k + 1;
                }
                bv.to_be_bytes_four_state(tv.as_mut_slice(), tm.as_mut_slice());
                let ghost before = vectors@;
                proof {
                    assert(byte_width == byte_len(bw as nat));
                    assert(byte_width <= half);
                }
                push_padded(&mut vectors, &tv, half);
                push_padded(&mut vectors, &tm, half);
                let ghost r = WaveformSignalVector {
                    width,
                    packing,
                    history,
                    vectors,
                    vector_index: next_index,
                    values: Ghost(values@.push(entry)),
                };
                proof {
                    WaveformSignalVector::lemma_bytes_append(old_s, r, bytes, tv@, tm@, bv@);
                }
                *self = WaveformSignalVector {
                    width,
                    packing,
                    history,
                    vectors,
                    vector_index: next_index,
                    values: Ghost(values@.push(entry)),
                };
            },
        }
    }

    /// Division facts about slot `n` of a byte array with `per` slots a byte.
    proof fn lemma_slots(n: int, per: int, len0: int)
        requires
            per == 1 || per == 2 || per == 4,
            n >= 0,
            len0 == (n + per - 1) / per,
        ensures
            n / per == if n % per == 0 {
                len0
            } else {
                len0 - 1
            },
            (n + 1 + per - 1) / per == if n % per == 0 {
                len0 + 1
            } else {
                len0
            },
            0 <= n % per < per,
            (n + 1) % per != 0 ==> (n + 1) % per == n % per + 1,
            forall|i: int|
                0 <= i < n ==> #[trigger] (i / per) < len0 && (i / per < n / per || (i / per == n
                    / per && i % per < n % per)),
    {
        if per == 1 {
            assert(n / 1 == n && n % 1 == 0 && (n + 1) % 1 == 0) by (nonlinear_arith);
            assert((n + 1 + 1 - 1) / 1 == n + 1) by (nonlinear_arith);
            assert(len0 == n) by (nonlinear_arith)
                requires
                    len0 == (n + 1 - 1) / 1,
            ;
            assert forall|i: int| 0 <= i < n implies #[trigger] (i / per) < len0 && (i / per < n
                / per || (i / per == n / per && i % per < n % per)) by {
                assert(i / 1 == i && i % 1 == 0) by (nonlinear_arith);
            }
        } else if per == 2 {
            assert forall|i: int| 0 <= i < n implies #[trigger] (i / per) < len0 && (i / per < n
                / per || (i / per == n / per && i % per < n % per)) by {
                assert(i / 2 <= n / 2);
            }
        } else {
            assert forall|i: int| 0 <= i < n implies #[trigger] (i / per) < len0 && (i / per < n
                / per || (i / per == n / per && i % per < n % per)) by {
                assert(i / 4 <= n / 4);
            }
        }
    }

    #[verifier::rlimit(80)]
    proof fn lemma_bits_append(
        s: WaveformSignalVector,
        r: WaveformSignalVector,
        bits: usize,
        byte0: u8,
        byte: u8,
        bvs: Seq<Logic>,
    )
        requires
            s.wf(),
            s.packing == WaveformVectorPacking::Bits(bits),
            r.packing == s.packing,
            r.width == s.width,
            r.vector_index == s.vector_index + 1,
            r.values@ == s.values@.push(widened(bvs, s.width as nat)),
            r.history@.len() == s.history@.len() + 1,
            bvs.len() <= s.width,
            ({
                let n = s.vector_index as int;
                let per = per_byte(bits as int);
                let slot = n % per;
                let base = slot * bits;
                let half = bits / 2;
                &&& slot == 0 ==> byte0 == 0 && r.vectors@ == s.vectors@.push(byte)
                &&& slot != 0 ==> byte0 == s.vectors@.last() && r.vectors@ == s.vectors@.update(
                    s.vectors@.len() - 1,
                    byte,
                )
                &&& forall|q: int|
                    0 <= q < 8 ==> #[trigger] byte_bit(byte, q) == (byte_bit(byte0, q) || (base <= q
                        < base + half && bit_or_zero(bvs, q - base).value_bit()) || (base + half <= q
                        < base + half + half && bit_or_zero(bvs, q - base - half).mask_bit()))
            }),
        ensures
            r.wf(),
    {
        let n = s.vector_index as int;
        let per = per_byte(bits as int);
        let slot = n % per;
        let base = slot * bits;
        let half = bits / 2;
        let w = s.width as int;
        let entry = widened(bvs, s.width as nat);
        let len0 = s.vectors@.len() as int;
        assert(bits == 2 || bits == 4 || bits == 8);
        if bits == 2 {
            assert(per == 4);
        } else if bits == 4 {
            assert(per == 2);
        } else {
            assert(per == 1);
        }
        assert(per * bits == 8);
        assert(0 <= slot < per);
        WaveformSignalVector::lemma_slots(n, per, len0);
        assert(n / per == if slot == 0 { len0 } else { len0 - 1 });
        assert(r.vectors@.len() == (n + 1 + per - 1) / per);
        assert(base + bits <= 8) by (nonlinear_arith)
            requires
                slot < per,
                per * bits == 8,
                bits > 0,
                base == slot * bits,
        ;
        assert forall|i: int, j: int| 0 <= i < n + 1 && 0 <= j < w implies #[trigger] r.values@[i][j]
            == r.packed_bit(i, j) by {
            if i < n {
                assert(r.values@[i] == s.values@[i]);
                assert(s.values@[i][j] == s.packed_bit(i, j));
                assert(i / per < len0);
                if i / per < n / per || slot == 0 {
                    assert(r.vectors@[i / per] == s.vectors@[i / per]);
                } else {
                    assert(i / per == n / per);
                    assert(i % per < slot);
                    assert((i % per) * bits + bits <= base) by (nonlinear_arith)
                        requires
                            i % per < slot,
                            base == slot * bits,
                            bits > 0,
                    ;
                    assert(r.vectors@[i / per] == byte);
                    assert(byte0 == s.vectors@[i / per]);
                }
            } else {
                assert(i == n);
                assert(r.vectors@[i / per] == byte);
                assert(i % per == slot);
                if slot != 0 {
                    assert(!byte_bit(byte0, base + j));
                    assert(!byte_bit(byte0, base + half + j));
                } else {
                    lemma_byte_set(0, 0);
                }
                assert(r.values@[i] == entry);
            }
        }
        if (n + 1) % per != 0 {
            assert((n + 1) % per == slot + 1);
            assert forall|q: int| ((n + 1) % per) * bits <= q < 8 implies !byte_bit(
                r.vectors@.last(),
                q,
            ) by {
                assert(r.vectors@.last() == byte);
                if slot != 0 {
                    assert(!byte_bit(byte0, q));
                } else {
                    lemma_byte_set(0, 0);
                }
            }
        }
    }

    #[verifier::rlimit(80)]
    proof fn lemma_bytes_append(
        s: WaveformSignalVector,
        r: WaveformSignalVector,
        bytes: usize,
        tv: Seq<u8>,
        tm: Seq<u8>,
        bvs: Seq<Logic>,
    )
        requires
            s.wf(),
            s.packing == WaveformVectorPacking::Bytes(bytes),
            r.packing == s.packing,
            r.width == s.width,
            r.vector_index == s.vector_index + 1,
            r.values@ == s.values@.push(widened(bvs, s.width as nat)),
            r.history@.len() == s.history@.len() + 1,
            bvs.len() <= s.width,
            is_be_image(tv, bvs, false),
            is_be_image(tm, bvs, true),
            tv.len() <= bytes / 2,
            r.vectors@ == s.vectors@ + Seq::new((bytes / 2 - tv.len()) as nat, |i: int| 0u8) + tv
                + Seq::new((bytes / 2 - tm.len()) as nat, |i: int| 0u8) + tm,
        ensures
            r.wf(),
    {
        let n = s.vector_index as int;
        let w = s.width as int;
        let half = (bytes / 2) as int;
        let len0 = s.vectors@.len() as int;
        assert(bytes == 2 * half);
        assert(len0 == bytes * n);
        assert(r.vectors@.len() == bytes * (n + 1)) by (nonlinear_arith)
            requires
                r.vectors@.len() == len0 + half + half,
                len0 == bytes * n,
                bytes == 2 * half,
        ;
        let pv = Seq::new((half - tv.len()) as nat, |i: int| 0u8) + tv;
        let pm = Seq::new((half - tm.len()) as nat, |i: int| 0u8) + tm;
        assert(bytes * n + bytes == bytes * (n + 1)) by (nonlinear_arith);
        assert(r.vectors@.subrange(bytes * n, bytes * n + half) =~= pv);
        assert(r.vectors@.subrange(bytes * n + half, bytes * n + bytes) =~= pm);
        lemma_byte_set(0, 0);
        assert forall|i: int, j: int| 0 <= i < n + 1 && 0 <= j < w implies #[trigger] r.values@[i][j]
            == r.packed_bit(i, j) by {
            if i < n {
                assert(bytes * i + bytes <= bytes * n) by (nonlinear_arith)
                    requires
                        i < n,
                        bytes >= 0,
                ;
                assert(r.vectors@.subrange(bytes * i, bytes * i + half) =~= s.vectors@.subrange(
                    bytes * i,
                    bytes * i + half,
                ));
                assert(r.vectors@.subrange(bytes * i + half, bytes * i + bytes) =~= s.vectors@.subrange(
                    bytes * i + half,
                    bytes * i + bytes,
                ));
                assert(r.values@[i] == s.values@[i]);
                assert(s.values@[i][j] == s.packed_bit(i, j));
            } else {
                assert(i == n);
                assert(j < 8 * half);
                if j < 8 * tv.len() {
                    assert(be_bit(pv, j) == be_bit(tv, j));
                    assert(be_bit(pm, j) == be_bit(tm, j));
                } else {
                    assert(!be_bit(pv, j));
                    assert(!be_bit(pm, j));
                }
            }
        }
    }

    /// Stored value `index`, at the signal's width.
    pub fn get_bitvector(&self, index: usize) -> (r: BitVector)
        requires
            index < self.spec_values().len(),
        ensures
            r.spec_four_state(),
            r@ == self.spec_values()[index as int],
    {
        proof {
            use_type_invariant(self);
        }
        let width = self.width;
        match self.packing {
            WaveformVectorPacking::Bits(bits) => {
                let per: usize = if bits == 2 {
                    4
                } else if bits == 4 {
                    2
                } else {
                    1
                };
                let half = bits / 2;
                let ghost n = self.vector_index as int;
                proof {
                    assert(per == per_byte(bits as int));
                    let nn = self.vector_index as int;
                    assert(self.vectors@.len() == (nn + per - 1) / (per as int));
                    assert(bits == 2 || bits == 4 || bits == 8);
                    if bits == 2 {
                        assert(per == 4);
                        assert(index / 4 < (nn + 3) / 4);
                        assert(index / per < self.vectors@.len());
                        assert((index % 4) * 2 + 2 <= 8);
                    } else if bits == 4 {
                        assert(per == 2);
                        assert(index / 2 < (nn + 1) / 2);
                        assert(index / per < self.vectors@.len());
                        assert((index % 2) * 4 + 4 <= 8);
                    } else {
                        assert(per == 1);
                        assert((nn + 1 - 1) / 1 == nn) by (nonlinear_arith);
                        assert(index / 1 == index as int) by (nonlinear_arith);
                        assert(index / per < self.vectors@.len());
                    }
                }
                let byte = self.vectors[index / per];
                let base = (index % per) * bits;
                let mut bv = BitVector::new(width, true);
                let mut j: usize = 0;
                while j < width
                    invariant
                        j <= width,
                        width == self.width,
                        width <= half,
                        half == bits / 2,
                        base + bits <= 8,
                        byte == self.vectors@[(index / per) as int],
                        base == (index % per) * bits,
                        per == per_byte(bits as int),
                        self.packing == WaveformVectorPacking::Bits(bits),
                        index < self.values@.len(),
                        forall|jj: int| 0 <= jj < width ==> #[trigger] self.values@[index as int][jj]
                            == self.packed_bit(index as int, jj),
                        bv.spec_four_state(),
                        bv@ == Seq::new(
                            width as nat,
                            |jj: int|
                                if jj < j {
                                    self.values@[index as int][jj]
                                } else {
                                    Logic::Zero
                                },
                        ),
                    decreases width - j,
                {
                    let v = get_byte_bit(byte, base + j);
                    let m = get_byte_bit(byte, base + half + j);
                    bv.set_bit(j, logic_from_pair(v, m));
                    j = j + 1;
                    proof {
                        assert(bv@ =~= Seq::new(
                            width as nat,
                            |jj: int|
                                if jj < j {
                                    self.values@[index as int][jj]
                                } else {
                                    Logic::Zero
                                },
                        ));
                    }
                }
                proof {
                    assert(bv@ =~= self.values@[index as int]);
                }
                bv
            },
            WaveformVectorPacking::Bytes(bytes) => {
                let half = bytes / 2;
                let total = self.vectors.len();
                proof {
                    assert(index * bytes + bytes <= self.vectors@.len()) by (nonlinear_arith)
                        requires
                            index < self.vector_index,
                            self.vectors@.len() == bytes * self.vector_index,
                    ;
                    assert(bytes * index == index * bytes) by (nonlinear_arith);
                }
                let offset = index * bytes;
                let all = self.vectors.as_slice();
                let value = vstd::slice::slice_subrange(all, offset, offset + half);
                let mask = vstd::slice::slice_subrange(all, offset + half, offset + bytes);
                let bv = BitVector::from_be_bytes_four_state(width, value, mask);
                proof {
                    assert(bv@ =~= self.values@[index as int]);
                }
                bv
            },
        }
    }

    /// Whether no value was stored.
    pub fn is_empty(&self) -> (r: bool)
        ensures
            r == (self.spec_values().len() == 0),
    {
        proof {
            use_type_invariant(self);
        }
        self.vector_index == 0
    }
}

} // verus!
