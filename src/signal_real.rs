//! A signal of 64-bit floating-point values, each kept as its eight
//! big-endian bytes, and the history of when each was set.
use vstd::prelude::*;

use crate::history::index::WaveformHistoryIndex;
use crate::history::{is_change_log, WaveformHistory, BLOCK_SIZE};

verus! {

/// Bytes per stored value.
pub const REAL_BYTES: usize = 8;

/// A signal whose values are 64-bit floats, stored as big-endian bytes.
pub struct WaveformSignalReal {
    history: WaveformHistory,
    vectors: Vec<u8>,
    vector_index: usize,
}

impl WaveformSignalReal {
    /// The values stored so far, as their eight big-endian bytes each.
    pub closed spec fn spec_values(&self) -> Seq<Seq<u8>> {
        Seq::new(
            self.vector_index as nat,
            |i: int| self.vectors@.subrange(8 * i, 8 * i + 8),
        )
    }

    /// The signal's change history.
    pub closed spec fn spec_history(&self) -> Seq<WaveformHistoryIndex> {
        self.history@
    }

    /// Blocks in the signal's history.
    pub closed spec fn spec_block_count(&self) -> nat {
        self.history.spec_block_count()
    }

    /// Bytes used by the stored values.
    pub closed spec fn spec_vector_size(&self) -> nat {
        self.vectors@.len()
    }

    #[verifier::type_invariant]
    closed spec fn wf(&self) -> bool {
        &&& self.vectors@.len() == 8 * self.vector_index
        &&& self.history@.len() == self.vector_index
    }

    /// An empty signal.
    pub fn new() -> (r: Self)
        ensures
            r.spec_values() == Seq::<Seq<u8>>::empty(),
            r.spec_history() == Seq::<WaveformHistoryIndex>::empty(),
            r.spec_vector_size() == 0,
            r.spec_block_count() == 0,
    {
        let r = WaveformSignalReal { history: WaveformHistory::new(), vectors: Vec::new(), vector_index: 0 };
        proof {
            assert(r.spec_values() =~= Seq::<Seq<u8>>::empty());
        }
        r
    }

    /// The signal's change history.
    pub fn get_history(&self) -> (r: &WaveformHistory)
        ensures
            r@ == self.spec_history(),
            r.spec_block_count() == self.spec_block_count(),
            r@.len() == self.spec_values().len(),
            is_change_log(r@),
    {
        proof {
            use_type_invariant(self);
            use_type_invariant(&self.history);
            self.history.lemma_is_change_log();
        }
        &self.history
    }

    /// Stores the value whose big-endian bytes are `value` and records that
    /// it was set at `timestamp_index`.
    pub fn update_bytes(&mut self, timestamp_index: usize, value: [u8; 8])
        requires
            old(self).spec_history().len() > 0 ==> timestamp_index > old(
                self,
            ).spec_history().last().timestamp_index,
            (old(self).spec_values().len() + 1) * BLOCK_SIZE <= usize::MAX,
        ensures
            final(self).spec_values() == old(self).spec_values().push(value@),
            final(self).spec_history() == old(self).spec_history().push(
                WaveformHistoryIndex {
                    timestamp_index,
                    value_index: old(self).spec_values().len() as usize,
                },
            ),
    {
        proof {
            use_type_invariant(&*self);
        }
        let ghost old_values = self.spec_values();
        let mut taken = WaveformSignalReal::new();
        std::mem::swap(self, &mut taken);
        let WaveformSignalReal { mut history, mut vectors, vector_index } = taken;
        history.add_change(timestamp_index, vector_index);
        let ghost before = vectors@;
        let mut k: usize = 0;
        while k < REAL_BYTES
            invariant
                k <= 8,
                before.len() == 8 * vector_index,
                (vector_index + 1) * 512 <= usize::MAX,
                vectors@ == before + value@.subrange(0, k as int),
            decreases 8 - k,
        {
            vectors.push(value[k]);
            k = k + 1;
            proof {
                assert(vectors@ =~= before + value@.subrange(0, k as int));
            }
        }
        let next_index = vector_index + 1;
        *self = WaveformSignalReal { history, vectors, vector_index: next_index };
        proof {
            assert(value@.subrange(0, 8) =~= value@);
            assert forall|i: int| 0 <= i < next_index implies #[trigger] self.spec_values()[i]
                == old_values.push(value@)[i] by {
                if i < vector_index {
                    assert(self.vectors@.subrange(8 * i, 8 * i + 8) =~= before.subrange(8 * i, 8 * i + 8));
                } else {
                    assert(self.vectors@.subrange(8 * i, 8 * i + 8) =~= value@);
                }
            }
            assert(self.spec_values() =~= old_values.push(value@));
        }
    }

    /// The big-endian bytes of stored value `index`.
    pub fn get_real_bytes(&self, index: usize) -> (r: [u8; 8])
        requires
            index < self.spec_values().len(),
        ensures
            r@ == self.spec_values()[index as int],
    {
        proof {
            use_type_invariant(self);
        }
        let total = self.vectors.len();
        proof {
            assert(index * 8 + 8 <= total);
        }
        let start = index * REAL_BYTES;
        let mut r: [u8; 8] = [0u8; 8];
        let mut k: usize = 0;
        while k < REAL_BYTES
            invariant
                k <= 8,
                start == 8 * index,
                index < self.vector_index,
                self.vectors@.len() == 8 * self.vector_index,
                forall|j: int| 0 <= j < k ==> r@[j] == self.vectors@[start + j],
            decreases 8 - k,
        {
            r[k] = self.vectors[start + k];
            k = k + 1;
        }
        proof {
            assert(r@ =~= self.vectors@.subrange(8 * index, 8 * index + 8));
        }
        r
    }

    /// Bytes used by the stored values.
    pub fn get_vector_size(&self) -> (r: usize)
        ensures
            r == self.spec_vector_size(),
            r == 8 * self.spec_values().len(),
    {
        proof {
            use_type_invariant(self);
        }
        self.vectors.len()
    }

    /// The width of a value: 64 bits.
    pub fn get_width(&self) -> (r: usize)
        ensures
            r == 64,
    {
        64
    }

    /// How many values were stored.
    pub fn len(&self) -> (r: usize)
        ensures
            r == self.spec_values().len(),
    {
        proof {
            use_type_invariant(self);
        }
        self.vector_index
    }

    /// Whether no value was stored.
    pub fn is_empty(&self) -> (r: bool)
        ensures
            r == (self.spec_values().len() == 0),
    {
        self.vector_index == 0
    }
}

impl Default for WaveformSignalReal {
    fn default() -> (r: Self)
        ensures
            r.spec_values() == Seq::<Seq<u8>>::empty(),
            r.spec_history() == Seq::<WaveformHistoryIndex>::empty(),
    {
        WaveformSignalReal::new()
    }
}

} // verus!
