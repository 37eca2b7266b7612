//! A waveform: the global timestamps and the signals, by id.
use std::collections::HashMap;

use vstd::prelude::*;

use crate::bitvector::{BitVector, MAX_BIT_WIDTH};
use crate::errors::WaveformError;
use crate::history::index::WaveformHistoryIndex;
use crate::bitvector::{bit_or_zero, lemma_from_logic};
use crate::history::{search_result, BLOCK_SIZE};
use crate::search::{is_sorted, lemma_search_at, search_position, WaveformSearchMode};
use crate::signal_real::WaveformSignalReal;
use crate::vector::{widened, WaveformSignalVector};

verus! {

broadcast use vstd::std_specs::hash::group_hash_axioms;

/// The timestamps as integers.
pub open spec fn timestamp_ints(s: Seq<u64>) -> Seq<int> {
    s.map_values(|t: u64| t as int)
}

/// The vector signals of the shards merged in order, a later shard's
/// signal replacing an earlier one with the same id.
pub open spec fn merged_vectors(shards: Seq<Waveform>) -> Map<usize, WaveformSignalVector>
    decreases shards.len(),
{
    if shards.len() == 0 {
        Map::empty()
    } else {
        merged_vectors(shards.drop_last()).union_prefer_right(shards.last().spec_vector_signals())
    }
}

/// The real signals of the shards merged in order, a later shard's signal
/// replacing an earlier one with the same id.
pub open spec fn merged_reals(shards: Seq<Waveform>) -> Map<usize, WaveformSignalReal>
    decreases shards.len(),
{
    if shards.len() == 0 {
        Map::empty()
    } else {
        merged_reals(shards.drop_last()).union_prefer_right(shards.last().spec_real_signals())
    }
}

/// The timestamps the shards should share: the first shard's.
pub open spec fn shard_timestamps(shards: Seq<Waveform>) -> Seq<u64> {
    if shards.len() > 0 {
        shards[0].spec_timestamps()
    } else {
        Seq::empty()
    }
}

/// A copy of the timestamps.
fn copy_timestamps(v: &Vec<u64>) -> (r: Vec<u64>)
    ensures
        r@ == v@,
{
    let mut r: Vec<u64> = Vec::with_capacity(v.len());
    let mut k: usize = 0;
    while k < v.len()
        invariant
            k <= v@.len(),
            r@ == v@.subrange(0, k as int),
        decreases v@.len() - k,
    {
        r.push(v[k]);
        k = k + 1;
        proof {
            assert(r@ =~= v@.subrange(0, k as int));
        }
    }
    proof {
        assert(r@ =~= v@);
    }
    r
}

/// Whether `ids` lists each key of `keys` exactly once.
pub open spec fn lists_keys(ids: Seq<usize>, keys: Set<usize>) -> bool {
    &&& ids.no_duplicates()
    &&& forall|k: usize| #[trigger] keys.contains(k) <==> ids.contains(k)
}

/// Adds `id` to a duplicate-free list unless it is there.
fn add_id(ids: &mut Vec<usize>, id: usize)
    requires
        old(ids)@.no_duplicates(),
    ensures
        final(ids)@.no_duplicates(),
        forall|k: usize| #[trigger] final(ids)@.contains(k) <==> (old(ids)@.contains(k) || k == id),
{
    let mut i: usize = 0;
    while i < ids.len()
        invariant
            i <= ids@.len(),
            ids@ == old(ids)@,
            old(ids)@.no_duplicates(),
            forall|j: int| 0 <= j < i ==> ids@[j] != id,
        decreases ids@.len() - i,
    {
        if ids[i] == id {
            return;
        }
        i = i + 1;
    }
    let ghost before = ids@;
    ids.push(id);
    proof {
        assert forall|a: int, b: int| 0 <= a < b < ids@.len() implies ids@[a] != ids@[b] by {
            if b == ids@.len() - 1 {
                assert(before[a] != id);
            } else {
                assert(before[a] != before[b]);
            }
        }
        assert forall|k: usize| #[trigger] ids@.contains(k) <==> (old(ids)@.contains(k) || k == id) by {
            if ids@.contains(k) {
                let j = choose|j: int| 0 <= j < ids@.len() && ids@[j] == k;
                if j < old(ids)@.len() {
                    assert(old(ids)@[j] == k);
                }
            }
            if old(ids)@.contains(k) {
                let j = choose|j: int| 0 <= j < old(ids)@.len() && old(ids)@[j] == k;
                assert(ids@[j] == k);
            }
            if k == id {
                assert(ids@[ids@.len() - 1] == k);
            }
        }
    }
}

/// The sum of `f` over `ids`.
pub open spec fn sum_ids(ids: Seq<usize>, f: spec_fn(usize) -> nat) -> nat
    decreases ids.len(),
{
    if ids.len() == 0 {
        0
    } else {
        sum_ids(ids.drop_last(), f) + f(ids.last())
    }
}

proof fn lemma_sum_ext(ids: Seq<usize>, f: spec_fn(usize) -> nat, g: spec_fn(usize) -> nat)
    requires
        forall|x: usize| #[trigger] f(x) == g(x),
    ensures
        sum_ids(ids, f) == sum_ids(ids, g),
    decreases ids.len(),
{
    if ids.len() > 0 {
        lemma_sum_ext(ids.drop_last(), f, g);
    }
}

/// `n`, or `usize::MAX` when it is larger.
pub open spec fn capped(n: nat) -> nat {
    if n > usize::MAX {
        usize::MAX as nat
    } else {
        n
    }
}

/// What the waveform's totals count per signal.
#[derive(Clone, Copy)]
enum Measure {
    /// Bytes of the history blocks.
    BlockBytes,
    /// Bytes of the stored values.
    ValueBytes,
    /// One when the signal has no value.
    Empty,
    /// One when the signal has exactly one value.
    One,
}

spec fn measure_vector(m: Measure, s: WaveformSignalVector) -> nat {
    match m {
        Measure::BlockBytes => (BLOCK_SIZE * s.spec_block_count()) as nat,
        Measure::ValueBytes => s.spec_vector_size(),
        Measure::Empty => if s.spec_values().len() == 0 {
            1
        } else {
            0
        },
        Measure::One => if s.spec_values().len() == 1 {
            1
        } else {
            0
        },
    }
}

spec fn measure_real(m: Measure, s: WaveformSignalReal) -> nat {
    match m {
        Measure::BlockBytes => (BLOCK_SIZE * s.spec_block_count()) as nat,
        Measure::ValueBytes => s.spec_vector_size(),
        Measure::Empty => if s.spec_values().len() == 0 {
            1
        } else {
            0
        },
        Measure::One => if s.spec_values().len() == 1 {
            1
        } else {
            0
        },
    }
}

fn measure_vector_exec(m: Measure, s: &WaveformSignalVector) -> (r: usize)
    ensures
        r == measure_vector(m, *s),
{
    match m {
        Measure::BlockBytes => s.get_history().get_block_size(),
        Measure::ValueBytes => s.get_vector_size(),
        Measure::Empty => if s.is_empty() {
            1
        } else {
            0
        },
        Measure::One => if s.len() == 1 {
            1
        } else {
            0
        },
    }
}

fn measure_real_exec(m: Measure, s: &WaveformSignalReal) -> (r: usize)
    ensures
        r == measure_real(m, *s),
{
    match m {
        Measure::BlockBytes => s.get_history().get_block_size(),
        Measure::ValueBytes => s.get_vector_size(),
        Measure::Empty => if s.is_empty() {
            1
        } else {
            0
        },
        Measure::One => if s.len() == 1 {
            1
        } else {
            0
        },
    }
}

/// A signal of either kind.
pub enum WaveformSignalResult<'a> {
    Vector(&'a WaveformSignalVector),
    Real(&'a WaveformSignalReal),
}

/// The timestamps of a simulation and its signals, each known by an id.
pub struct Waveform {
    timestamps: Vec<u64>,
    vector_signals: HashMap<usize, WaveformSignalVector>,
    real_signals: HashMap<usize, WaveformSignalReal>,
    vector_ids: Vec<usize>,
    real_ids: Vec<usize>,
}

impl Waveform {
    /// The timestamps, strictly increasing.
    pub closed spec fn spec_timestamps(&self) -> Seq<u64> {
        self.timestamps@
    }

    /// The vector signals, by id.
    pub closed spec fn spec_vector_signals(&self) -> Map<usize, WaveformSignalVector> {
        self.vector_signals@
    }

    /// The real signals, by id.
    pub closed spec fn spec_real_signals(&self) -> Map<usize, WaveformSignalReal> {
        self.real_signals@
    }

    /// The ids of the vector signals, each once.
    pub closed spec fn spec_vector_ids(&self) -> Seq<usize> {
        self.vector_ids@
    }

    /// The ids of the real signals, each once.
    pub closed spec fn spec_real_ids(&self) -> Seq<usize> {
        self.real_ids@
    }

    #[verifier::type_invariant]
    closed spec fn wf(&self) -> bool {
        &&& is_sorted(timestamp_ints(self.timestamps@))
        &&& lists_keys(self.vector_ids@, self.vector_signals@.dom())
        &&& lists_keys(self.real_ids@, self.real_signals@.dom())
    }

    /// An empty waveform.
    pub fn new() -> (r: Self)
        ensures
            r.spec_timestamps() == Seq::<u64>::empty(),
            r.spec_vector_signals() == Map::<usize, WaveformSignalVector>::empty(),
            r.spec_real_signals() == Map::<usize, WaveformSignalReal>::empty(),
    {
        Waveform {
            timestamps: Vec::new(),
            vector_signals: HashMap::new(),
            real_signals: HashMap::new(),
            vector_ids: Vec::new(),
            real_ids: Vec::new(),
        }
    }

    /// Adds a vector signal of `width` bits under `id`, replacing any
    /// vector signal with that id.
    pub fn initialize_vector(&mut self, id: usize, width: usize)
        requires
            width <= MAX_BIT_WIDTH,
        ensures
            final(self).spec_timestamps() == old(self).spec_timestamps(),
            final(self).spec_real_signals() == old(self).spec_real_signals(),
            final(self).spec_vector_signals().dom() == old(self).spec_vector_signals().dom().insert(id),
            forall|k: usize| k != id && #[trigger] old(self).spec_vector_signals().contains_key(k)
                ==> final(self).spec_vector_signals()[k] == old(self).spec_vector_signals()[k],
            final(self).spec_vector_signals()[id].spec_width() == width,
            final(self).spec_vector_signals()[id].spec_values().len() == 0,
            final(self).spec_vector_signals()[id].spec_history().len() == 0,
    {
        proof {
            use_type_invariant(&*self);
        }
        let mut taken = Waveform::new();
        std::mem::swap(self, &mut taken);
        let Waveform { timestamps, mut vector_signals, real_signals, mut vector_ids, real_ids } =
            taken;
        vector_signals.insert(id, WaveformSignalVector::new(width));
        add_id(&mut vector_ids, id);
        *self = Waveform { timestamps, vector_signals, real_signals, vector_ids, real_ids };
    }

    /// Adds a real signal under `id`, replacing any real signal with that id.
    pub fn initialize_real(&mut self, id: usize)
        ensures
            final(self).spec_timestamps() == old(self).spec_timestamps(),
            final(self).spec_vector_signals() == old(self).spec_vector_signals(),
            final(self).spec_real_signals().dom() == old(self).spec_real_signals().dom().insert(id),
            forall|k: usize| k != id && #[trigger] old(self).spec_real_signals().contains_key(k)
                ==> final(self).spec_real_signals()[k] == old(self).spec_real_signals()[k],
            final(self).spec_real_signals()[id].spec_values().len() == 0,
            final(self).spec_real_signals()[id].spec_history().len() == 0,
    {
        proof {
            use_type_invariant(&*self);
        }
        let mut taken = Waveform::new();
        std::mem::swap(self, &mut taken);
        let Waveform { timestamps, vector_signals, mut real_signals, vector_ids, mut real_ids } =
            taken;
        real_signals.insert(id, WaveformSignalReal::new());
        add_id(&mut real_ids, id);
        *self = Waveform { timestamps, vector_signals, real_signals, vector_ids, real_ids };
    }

    /// The vector signal with this id.
    pub fn get_vector_signal(&self, id: usize) -> (r: Option<&WaveformSignalVector>)
        ensures
            r == if self.spec_vector_signals().contains_key(id) {
                Some(&self.spec_vector_signals()[id])
            } else {
                None
            },
    {
        self.vector_signals.get(&id)
    }

    /// The real signal with this id.
    pub fn get_real_signal(&self, id: usize) -> (r: Option<&WaveformSignalReal>)
        ensures
            r == if self.spec_real_signals().contains_key(id) {
                Some(&self.spec_real_signals()[id])
            } else {
                None
            },
    {
        self.real_signals.get(&id)
    }

    /// The signal with this id: a vector signal if there is one, else a
    /// real signal.
    pub fn get_signal(&self, id: usize) -> (r: Option<WaveformSignalResult<'_>>)
        ensures
            self.spec_vector_signals().contains_key(id) ==> r == Some(
                WaveformSignalResult::Vector(&self.spec_vector_signals()[id]),
            ),
            !self.spec_vector_signals().contains_key(id) && self.spec_real_signals().contains_key(id)
                ==> r == Some(WaveformSignalResult::Real(&self.spec_real_signals()[id])),
            !self.spec_vector_signals().contains_key(id) && !self.spec_real_signals().contains_key(
                id,
            ) ==> r is None,
    {
        if let Some(signal) = self.vector_signals.get(&id) {
            Some(WaveformSignalResult::Vector(signal))
        } else if let Some(signal) = self.real_signals.get(&id) {
            Some(WaveformSignalResult::Real(signal))
        } else {
            None
        }
    }

    /// Sets the value of vector signal `id` at the last timestamp.
    pub fn update_vector(&mut self, id: usize, value: BitVector) -> (r: Result<(), WaveformError>)
        requires
            old(self).spec_timestamps().len() > 0,
            old(self).spec_vector_signals().contains_key(id) ==> {
                let sig = old(self).spec_vector_signals()[id];
                &&& sig.spec_history().len() > 0 ==> sig.spec_history().last().timestamp_index
                    < old(self).spec_timestamps().len() - 1
                &&& (sig.spec_values().len() + 1) * BLOCK_SIZE <= usize::MAX
                &&& sig.spec_vector_size() + 2 * sig.spec_width() + 2 <= usize::MAX
            },
        ensures
            final(self).spec_timestamps() == old(self).spec_timestamps(),
            final(self).spec_real_signals() == old(self).spec_real_signals(),
            !old(self).spec_vector_signals().contains_key(id) ==> {
                &&& r == Err::<(), WaveformError>(WaveformError::InvalidId { id })
                &&& final(self).spec_vector_signals() == old(self).spec_vector_signals()
            },
            old(self).spec_vector_signals().contains_key(id) ==> {
                let sig = old(self).spec_vector_signals()[id];
                let new_sig = final(self).spec_vector_signals()[id];
                if sig.spec_width() < value@.len() {
                    &&& r == Err::<(), WaveformError>(
                        WaveformError::InvalidWidth {
                            id,
                            expected: sig.spec_width() as usize,
                            actual: value@.len() as usize,
                        },
                    )
                    &&& final(self).spec_vector_signals() == old(self).spec_vector_signals()
                } else {
                    &&& r is Ok
                    &&& final(self).spec_vector_signals().dom() == old(self).spec_vector_signals().dom()
                    &&& forall|k: usize| k != id && #[trigger] old(self).spec_vector_signals().contains_key(k)
                        ==> final(self).spec_vector_signals()[k] == old(self).spec_vector_signals()[k]
                    &&& new_sig.spec_width() == sig.spec_width()
                    &&& new_sig.spec_values() == sig.spec_values().push(widened(value@, sig.spec_width()))
                    &&& new_sig.spec_history() == sig.spec_history().push(
                        WaveformHistoryIndex {
                            timestamp_index: (old(self).spec_timestamps().len() - 1) as usize,
                            value_index: sig.spec_values().len() as usize,
                        },
                    )
                }
            },
    {
        proof {
            use_type_invariant(&*self);
        }
        let mut taken = Waveform::new();
        std::mem::swap(self, &mut taken);
        let Waveform { timestamps, mut vector_signals, real_signals, vector_ids, real_ids } = taken;
        let ghost before = vector_signals@;
        let removed = vector_signals.remove(&id);
        match removed {
            None => {
                *self = Waveform { timestamps, vector_signals, real_signals, vector_ids, real_ids };
                proof {
                    assert(before.remove(id) =~= before);
                }
                Err(WaveformError::InvalidId { id })
            },
            Some(mut signal) => {
                let width = signal.get_width();
                let actual = value.get_bit_width();
                if width < actual {
                    vector_signals.insert(id, signal);
                    proof {
                        assert(vector_signals@ =~= before);
                    }
                    *self = Waveform { timestamps, vector_signals, real_signals, vector_ids, real_ids };
                    return Err(WaveformError::InvalidWidth { id, expected: width, actual });
                }
                signal.update(timestamps.len() - 1, value);
                vector_signals.insert(id, signal);
                proof {
                    assert(vector_signals@.dom() =~= before.dom());
                }
                *self = Waveform { timestamps, vector_signals, real_signals, vector_ids, real_ids };
                Ok(())
            },
        }
    }

    /// Sets the value of real signal `id` at the last timestamp, from the
    /// big-endian bytes of the float.
    pub fn update_real_bytes(&mut self, id: usize, value: [u8; 8]) -> (r: Result<(), WaveformError>)
        requires
            old(self).spec_timestamps().len() > 0,
            old(self).spec_real_signals().contains_key(id) ==> {
                let sig = old(self).spec_real_signals()[id];
                &&& sig.spec_history().len() > 0 ==> sig.spec_history().last().timestamp_index
                    < old(self).spec_timestamps().len() - 1
                &&& (sig.spec_values().len() + 1) * BLOCK_SIZE <= usize::MAX
            },
        ensures
            final(self).spec_timestamps() == old(self).spec_timestamps(),
            final(self).spec_vector_signals() == old(self).spec_vector_signals(),
            !old(self).spec_real_signals().contains_key(id) ==> {
                &&& r == Err::<(), WaveformError>(WaveformError::InvalidId { id })
                &&& final(self).spec_real_signals() == old(self).spec_real_signals()
            },
            old(self).spec_real_signals().contains_key(id) ==> {
                let sig = old(self).spec_real_signals()[id];
                let new_sig = final(self).spec_real_signals()[id];
                &&& r is Ok
                &&& final(self).spec_real_signals().dom() == old(self).spec_real_signals().dom()
                &&& forall|k: usize| k != id && #[trigger] old(self).spec_real_signals().contains_key(k)
                    ==> final(self).spec_real_signals()[k] == old(self).spec_real_signals()[k]
                &&& new_sig.spec_values() == sig.spec_values().push(value@)
                &&& new_sig.spec_history() == sig.spec_history().push(
                    WaveformHistoryIndex {
                        timestamp_index: (old(self).spec_timestamps().len() - 1) as usize,
                        value_index: sig.spec_values().len() as usize,
                    },
                )
            },
    {
        proof {
            use_type_invariant(&*self);
        }
        let mut taken = Waveform::new();
        std::mem::swap(self, &mut taken);
        let Waveform { timestamps, vector_signals, mut real_signals, vector_ids, real_ids } = taken;
        let ghost before = real_signals@;
        let removed = real_signals.remove(&id);
        match removed {
            None => {
                *self = Waveform { timestamps, vector_signals, real_signals, vector_ids, real_ids };
                proof {
                    assert(before.remove(id) =~= before);
                }
                Err(WaveformError::InvalidId { id })
            },
            Some(mut signal) => {
                signal.update_bytes(timestamps.len() - 1, value);
                real_signals.insert(id, signal);
                proof {
                    assert(real_signals@.dom() =~= before.dom());
                }
                *self = Waveform { timestamps, vector_signals, real_signals, vector_ids, real_ids };
                Ok(())
            },
        }
    }

    spec fn vector_total(&self, m: Measure) -> nat {
        sum_ids(self.vector_ids@, |id: usize| measure_vector(m, self.vector_signals@[id]))
    }

    spec fn real_total(&self, m: Measure) -> nat {
        sum_ids(self.real_ids@, |id: usize| measure_real(m, self.real_signals@[id]))
    }

    proof fn lemma_totals(&self, m: Measure)
        ensures
            self.vector_total(m) == sum_ids(
                self.vector_ids@,
                |id: usize| measure_vector(m, self.vector_signals@[id]),
            ),
            m == Measure::BlockBytes ==> self.vector_total(m) == sum_ids(
                self.spec_vector_ids(),
                |id: usize| (BLOCK_SIZE * self.spec_vector_signals()[id].spec_block_count()) as nat,
            ) && self.real_total(m) == sum_ids(
                self.spec_real_ids(),
                |id: usize| (BLOCK_SIZE * self.spec_real_signals()[id].spec_block_count()) as nat,
            ),
            m == Measure::ValueBytes ==> self.vector_total(m) == sum_ids(
                self.spec_vector_ids(),
                |id: usize| self.spec_vector_signals()[id].spec_vector_size(),
            ) && self.real_total(m) == sum_ids(
                self.spec_real_ids(),
                |id: usize| self.spec_real_signals()[id].spec_vector_size(),
            ),
            m == Measure::Empty ==> self.vector_total(m) == sum_ids(
                self.spec_vector_ids(),
                |id: usize|
                    if self.spec_vector_signals()[id].spec_values().len() == 0 {
                        1nat
                    } else {
                        0nat
                    },
            ) && self.real_total(m) == sum_ids(
                self.spec_real_ids(),
                |id: usize|
                    if self.spec_real_signals()[id].spec_values().len() == 0 {
                        1nat
                    } else {
                        0nat
                    },
            ),
            m == Measure::One ==> self.vector_total(m) == sum_ids(
                self.spec_vector_ids(),
                |id: usize|
                    if self.spec_vector_signals()[id].spec_values().len() == 1 {
                        1nat
                    } else {
                        0nat
                    },
            ) && self.real_total(m) == sum_ids(
                self.spec_real_ids(),
                |id: usize|
                    if self.spec_real_signals()[id].spec_values().len() == 1 {
                        1nat
                    } else {
                        0nat
                    },
            ),
    {
        let fv = |id: usize| measure_vector(m, self.vector_signals@[id]);
        let fr = |id: usize| measure_real(m, self.real_signals@[id]);
        match m {
            Measure::BlockBytes => {
                lemma_sum_ext(self.vector_ids@, fv, |id: usize| (BLOCK_SIZE * self.spec_vector_signals()[id].spec_block_count()) as nat);
                lemma_sum_ext(self.real_ids@, fr, |id: usize| (BLOCK_SIZE * self.spec_real_signals()[id].spec_block_count()) as nat);
            },
            Measure::ValueBytes => {
                lemma_sum_ext(self.vector_ids@, fv, |id: usize| self.spec_vector_signals()[id].spec_vector_size());
                lemma_sum_ext(self.real_ids@, fr, |id: usize| self.spec_real_signals()[id].spec_vector_size());
            },
            Measure::Empty => {
                lemma_sum_ext(self.vector_ids@, fv, |id: usize| if self.spec_vector_signals()[id].spec_values().len() == 0 { 1nat } else { 0nat });
                lemma_sum_ext(self.real_ids@, fr, |id: usize| if self.spec_real_signals()[id].spec_values().len() == 0 { 1nat } else { 0nat });
            },
            Measure::One => {
                lemma_sum_ext(self.vector_ids@, fv, |id: usize| if self.spec_vector_signals()[id].spec_values().len() == 1 { 1nat } else { 0nat });
                lemma_sum_ext(self.real_ids@, fr, |id: usize| if self.spec_real_signals()[id].spec_values().len() == 1 { 1nat } else { 0nat });
            },
        }
    }

    fn total(&self, m: Measure) -> (r: usize)
        ensures
            r == capped(self.vector_total(m) + self.real_total(m)),
    {
        proof {
            use_type_invariant(self);
        }
        let mut size: usize = 0;
        let mut i: usize = 0;
        while i < self.vector_ids.len()
            invariant
                i <= self.vector_ids@.len(),
                lists_keys(self.vector_ids@, self.vector_signals@.dom()),
                size == capped(
                    sum_ids(
                        self.vector_ids@.take(i as int),
                        |id: usize| measure_vector(m, self.vector_signals@[id]),
                    ),
                ),
            decreases self.vector_ids@.len() - i,
        {
            let id = self.vector_ids[i];
            proof {
                assert(self.vector_ids@.contains(id));
                assert(self.vector_ids@.take(i + 1).drop_last() =~= self.vector_ids@.take(i as int));
            }
            if let Some(signal) = self.vector_signals.get(&id) {
                size = size.saturating_add(measure_vector_exec(m, signal));
            }
            i = i + 1;
        }
        proof {
            assert(self.vector_ids@.take(i as int) =~= self.vector_ids@);
        }
        let mut other: usize = 0;
        let mut i: usize = 0;
        while i < self.real_ids.len()
            invariant
                i <= self.real_ids@.len(),
                lists_keys(self.real_ids@, self.real_signals@.dom()),
                other == capped(
                    sum_ids(
                        self.real_ids@.take(i as int),
                        |id: usize| measure_real(m, self.real_signals@[id]),
                    ),
                ),
            decreases self.real_ids@.len() - i,
        {
            let id = self.real_ids[i];
            proof {
                assert(self.real_ids@.contains(id));
                assert(self.real_ids@.take(i + 1).drop_last() =~= self.real_ids@.take(i as int));
            }
            if let Some(signal) = self.real_signals.get(&id) {
                other = other.saturating_add(measure_real_exec(m, signal));
            }
            i = i + 1;
        }
        proof {
            assert(self.real_ids@.take(i as int) =~= self.real_ids@);
        }
        size.saturating_add(other)
    }

    /// Bytes of all signals' history blocks, capped at `usize::MAX`: the sum
    /// over the listed ids, which name each signal once.
    pub fn get_block_size(&self) -> (r: usize)
        ensures
            lists_keys(self.spec_vector_ids(), self.spec_vector_signals().dom()),
            lists_keys(self.spec_real_ids(), self.spec_real_signals().dom()),
            r == capped(
                sum_ids(
                    self.spec_vector_ids(),
                    |id: usize| (BLOCK_SIZE * self.spec_vector_signals()[id].spec_block_count()) as nat,
                ) + sum_ids(
                    self.spec_real_ids(),
                    |id: usize| (BLOCK_SIZE * self.spec_real_signals()[id].spec_block_count()) as nat,
                ),
            ),
    {
        proof {
            use_type_invariant(self);
            self.lemma_totals(Measure::BlockBytes);
        }
        self.total(Measure::BlockBytes)
    }

    /// Bytes of all signals' stored values, capped at `usize::MAX`.
    pub fn get_vector_size(&self) -> (r: usize)
        ensures
            lists_keys(self.spec_vector_ids(), self.spec_vector_signals().dom()),
            lists_keys(self.spec_real_ids(), self.spec_real_signals().dom()),
            r == capped(
                sum_ids(
                    self.spec_vector_ids(),
                    |id: usize| self.spec_vector_signals()[id].spec_vector_size(),
                ) + sum_ids(
                    self.spec_real_ids(),
                    |id: usize| self.spec_real_signals()[id].spec_vector_size(),
                ),
            ),
    {
        proof {
            use_type_invariant(self);
            self.lemma_totals(Measure::ValueBytes);
        }
        self.total(Measure::ValueBytes)
    }

    /// How many signals have no value.
    pub fn count_empty(&self) -> (r: usize)
        ensures
            lists_keys(self.spec_vector_ids(), self.spec_vector_signals().dom()),
            lists_keys(self.spec_real_ids(), self.spec_real_signals().dom()),
            r == capped(
                sum_ids(
                    self.spec_vector_ids(),
                    |id: usize|
                        if self.spec_vector_signals()[id].spec_values().len() == 0 {
                            1nat
                        } else {
                            0nat
                        },
                ) + sum_ids(
                    self.spec_real_ids(),
                    |id: usize|
                        if self.spec_real_signals()[id].spec_values().len() == 0 {
                            1nat
                        } else {
                            0nat
                        },
                ),
            ),
    {
        proof {
            use_type_invariant(self);
            self.lemma_totals(Measure::Empty);
        }
        self.total(Measure::Empty)
    }

    /// How many signals have exactly one value.
    pub fn count_one(&self) -> (r: usize)
        ensures
            lists_keys(self.spec_vector_ids(), self.spec_vector_signals().dom()),
            lists_keys(self.spec_real_ids(), self.spec_real_signals().dom()),
            r == capped(
                sum_ids(
                    self.spec_vector_ids(),
                    |id: usize|
                        if self.spec_vector_signals()[id].spec_values().len() == 1 {
                            1nat
                        } else {
                            0nat
                        },
                ) + sum_ids(
                    self.spec_real_ids(),
                    |id: usize|
                        if self.spec_real_signals()[id].spec_values().len() == 1 {
                            1nat
                        } else {
                            0nat
                        },
                ),
            ),
    {
        proof {
            use_type_invariant(self);
            self.lemma_totals(Measure::One);
        }
        self.total(Measure::One)
    }

    /// An empty waveform with these timestamps.
    fn with_timestamps(timestamps: Vec<u64>) -> (r: Waveform)
        requires
            is_sorted(timestamp_ints(timestamps@)),
        ensures
            r.spec_timestamps() == timestamps@,
            r.spec_vector_signals() == Map::<usize, WaveformSignalVector>::empty(),
            r.spec_real_signals() == Map::<usize, WaveformSignalReal>::empty(),
    {
        Waveform {
            timestamps,
            vector_signals: HashMap::new(),
            real_signals: HashMap::new(),
            vector_ids: Vec::new(),
            real_ids: Vec::new(),
        }
    }

    /// Puts `signal` under `id` among the vector signals.
    fn put_vector(&mut self, id: usize, signal: WaveformSignalVector)
        ensures
            final(self).spec_timestamps() == old(self).spec_timestamps(),
            final(self).spec_real_signals() == old(self).spec_real_signals(),
            final(self).spec_vector_signals() == old(self).spec_vector_signals().insert(id, signal),
    {
        proof {
            use_type_invariant(&*self);
        }
        let mut taken = Waveform::new();
        std::mem::swap(self, &mut taken);
        let Waveform { timestamps, mut vector_signals, real_signals, mut vector_ids, real_ids } =
            taken;
        vector_signals.insert(id, signal);
        add_id(&mut vector_ids, id);
        *self = Waveform { timestamps, vector_signals, real_signals, vector_ids, real_ids };
    }

    /// Puts `signal` under `id` among the real signals.
    fn put_real(&mut self, id: usize, signal: WaveformSignalReal)
        ensures
            final(self).spec_timestamps() == old(self).spec_timestamps(),
            final(self).spec_vector_signals() == old(self).spec_vector_signals(),
            final(self).spec_real_signals() == old(self).spec_real_signals().insert(id, signal),
    {
        proof {
            use_type_invariant(&*self);
        }
        let mut taken = Waveform::new();
        std::mem::swap(self, &mut taken);
        let Waveform { timestamps, vector_signals, mut real_signals, vector_ids, mut real_ids } =
            taken;
        real_signals.insert(id, signal);
        add_id(&mut real_ids, id);
        *self = Waveform { timestamps, vector_signals, real_signals, vector_ids, real_ids };
    }

    /// Splits the waveform into `num_shards` waveforms with the same
    /// timestamps: signal `id` goes to shard `id % num_shards`.
    pub fn shard(self, num_shards: usize) -> (r: Vec<Waveform>)
        requires
            num_shards > 0 || (self.spec_vector_signals().dom() == Set::<usize>::empty()
                && self.spec_real_signals().dom() == Set::<usize>::empty()),
        ensures
            r@.len() == num_shards,
            forall|j: int|
                0 <= j < num_shards ==> {
                    &&& (#[trigger] r@[j]).spec_timestamps() == self.spec_timestamps()
                    &&& r@[j].spec_vector_signals() == self.spec_vector_signals().restrict(
                        Set::new(|k: usize| k % num_shards == j),
                    )
                    &&& r@[j].spec_real_signals() == self.spec_real_signals().restrict(
                        Set::new(|k: usize| k % num_shards == j),
                    )
                },
    {
        proof {
            use_type_invariant(&self);
        }
        let ghost v0 = self.vector_signals@;
        let ghost r0 = self.real_signals@;
        let Waveform { timestamps, mut vector_signals, mut real_signals, vector_ids, real_ids } = self;
        let mut shards: Vec<Waveform> = Vec::new();
        let mut j: usize = 0;
        while j < num_shards
            invariant
                j <= num_shards,
                shards@.len() == j,
                is_sorted(timestamp_ints(timestamps@)),
                forall|m: int|
                    0 <= m < j ==> {
                        &&& (#[trigger] shards@[m]).spec_timestamps() == timestamps@
                        &&& shards@[m].spec_vector_signals() == Map::<usize, WaveformSignalVector>::empty()
                        &&& shards@[m].spec_real_signals() == Map::<usize, WaveformSignalReal>::empty()
                    },
            decreases num_shards - j,
        {
            shards.push(Waveform::with_timestamps(copy_timestamps(&timestamps)));
            j = j + 1;
        }
        let mut i: usize = 0;
        while i < vector_ids.len()
            invariant
                i <= vector_ids@.len(),
                lists_keys(vector_ids@, v0.dom()),
                num_shards > 0 || v0.dom() == Set::<usize>::empty(),
                vector_signals@ == v0.remove_keys(vector_ids@.take(i as int).to_set()),
                shards@.len() == num_shards,
                forall|m: int|
                    0 <= m < num_shards ==> {
                        &&& (#[trigger] shards@[m]).spec_timestamps() == timestamps@
                        &&& shards@[m].spec_vector_signals() == v0.restrict(
                            Set::new(|k: usize| k % num_shards == m).intersect(
                                vector_ids@.take(i as int).to_set(),
                            ),
                        )
                        &&& shards@[m].spec_real_signals() == Map::<usize, WaveformSignalReal>::empty()
                    },
            decreases vector_ids@.len() - i,
        {
            let id = vector_ids[i];
            let ghost before = vector_signals@;
            proof {
                assert(vector_ids@.contains(id));
                assert(v0.dom().contains(id));
                assert(num_shards > 0) by {
                    if num_shards == 0 {
                        assert(Set::<usize>::empty().contains(id));
                    }
                }
                assert(!vector_ids@.take(i as int).contains(id)) by {
                    if vector_ids@.take(i as int).contains(id) {
                        let q = choose|q: int| 0 <= q < i && vector_ids@.take(i as int)[q] == id;
                        assert(vector_ids@[q] == vector_ids@[i as int]);
                    }
                }
                assert(before.contains_key(id));
            }
            let k = id % num_shards;
            if let Some(signal) = vector_signals.remove(&id) {
                shards[k].put_vector(id, signal);
            }
            i = i + 1;
            proof {
                let t0 = vector_ids@.take(i - 1).to_set();
                let t1 = vector_ids@.take(i as int).to_set();
                let s0 = vector_ids@.take(i - 1);
                let s1 = vector_ids@.take(i as int);
                assert(s1 =~= s0.push(id));
                assert forall|x: usize| t1.contains(x) <==> t0.insert(id).contains(x) by {
                    if s1.contains(x) {
                        let q = choose|q: int| 0 <= q < s1.len() && s1[q] == x;
                        if q < s0.len() {
                            assert(s0[q] == x);
                        }
                    }
                    if s0.contains(x) {
                        let q = choose|q: int| 0 <= q < s0.len() && s0[q] == x;
                        assert(s1[q] == x);
                    }
                    if x == id {
                        assert(s1[s1.len() - 1] == id);
                    }
                }
                assert(t1 =~= t0.insert(id));
                assert(vector_signals@ =~= v0.remove_keys(t1));
                assert forall|m: int| 0 <= m < num_shards implies (#[trigger] shards@[m]).spec_vector_signals()
                    == v0.restrict(Set::new(|x: usize| x % num_shards == m).intersect(t1)) by {
                    assert(shards@[m].spec_vector_signals() =~= v0.restrict(
                        Set::new(|x: usize| x % num_shards == m).intersect(t1),
                    ));
                }
            }
        }
        proof {
            assert(vector_ids@.take(i as int) =~= vector_ids@);
            assert(vector_ids@.to_set() =~= v0.dom());
        }
        let mut i: usize = 0;
        while i < real_ids.len()
            invariant
                i <= real_ids@.len(),
                lists_keys(real_ids@, r0.dom()),
                vector_ids@.to_set() == v0.dom(),
                num_shards > 0 || r0.dom() == Set::<usize>::empty(),
                real_signals@ == r0.remove_keys(real_ids@.take(i as int).to_set()),
                shards@.len() == num_shards,
                forall|m: int|
                    0 <= m < num_shards ==> {
                        &&& (#[trigger] shards@[m]).spec_timestamps() == timestamps@
                        &&& shards@[m].spec_vector_signals() == v0.restrict(
                            Set::new(|k: usize| k % num_shards == m).intersect(vector_ids@.to_set()),
                        )
                        &&& shards@[m].spec_real_signals() == r0.restrict(
                            Set::new(|k: usize| k % num_shards == m).intersect(
                                real_ids@.take(i as int).to_set(),
                            ),
                        )
                    },
            decreases real_ids@.len() - i,
        {
            let id = real_ids[i];
            let ghost before = real_signals@;
            proof {
                assert(real_ids@.contains(id));
                assert(r0.dom().contains(id));
                assert(num_shards > 0) by {
                    if num_shards == 0 {
                        assert(Set::<usize>::empty().contains(id));
                    }
                }
                assert(!real_ids@.take(i as int).contains(id)) by {
                    if real_ids@.take(i as int).contains(id) {
                        let q = choose|q: int| 0 <= q < i && real_ids@.take(i as int)[q] == id;
                        assert(real_ids@[q] == real_ids@[i as int]);
                    }
                }
                assert(before.contains_key(id));
            }
            let k = id % num_shards;
            if let Some(signal) = real_signals.remove(&id) {
                shards[k].put_real(id, signal);
            }
            i = i + 1;
            proof {
                let t0 = real_ids@.take(i - 1).to_set();
                let t1 = real_ids@.take(i as int).to_set();
                let s0 = real_ids@.take(i - 1);
                let s1 = real_ids@.take(i as int);
                assert(s1 =~= s0.push(id));
                assert forall|x: usize| t1.contains(x) <==> t0.insert(id).contains(x) by {
                    if s1.contains(x) {
                        let q = choose|q: int| 0 <= q < s1.len() && s1[q] == x;
                        if q < s0.len() {
                            assert(s0[q] == x);
                        }
                    }
                    if s0.contains(x) {
                        let q = choose|q: int| 0 <= q < s0.len() && s0[q] == x;
                        assert(s1[q] == x);
                    }
                    if x == id {
                        assert(s1[s1.len() - 1] == id);
                    }
                }
                assert(t1 =~= t0.insert(id));
                assert(real_signals@ =~= r0.remove_keys(t1));
                assert forall|m: int| 0 <= m < num_shards implies (#[trigger] shards@[m]).spec_real_signals()
                    == r0.restrict(Set::new(|x: usize| x % num_shards == m).intersect(t1)) by {
                    assert(shards@[m].spec_real_signals() =~= r0.restrict(
                        Set::new(|x: usize| x % num_shards == m).intersect(t1),
                    ));
                }
            }
        }
        proof {
            assert(real_ids@.take(i as int) =~= real_ids@);
            assert(real_ids@.to_set() =~= r0.dom());
            assert forall|m: int| 0 <= m < num_shards implies {
                &&& (#[trigger] shards@[m]).spec_vector_signals() == v0.restrict(
                    Set::new(|k: usize| k % num_shards == m),
                )
                &&& shards@[m].spec_real_signals() == r0.restrict(
                    Set::new(|k: usize| k % num_shards == m),
                )
            } by {
                assert(shards@[m].spec_vector_signals() =~= v0.restrict(
                    Set::new(|k: usize| k % num_shards == m),
                ));
                assert(shards@[m].spec_real_signals() =~= r0.restrict(
                    Set::new(|k: usize| k % num_shards == m),
                ));
            }
        }
        shards
    }

    /// Merges shards back into one waveform; refused when their timestamps
    /// differ.
    pub fn unshard(shards: Vec<Waveform>) -> (r: Result<Waveform, WaveformError>)
        ensures
            r is Ok <==> forall|j: int|
                0 <= j < shards@.len() ==> (#[trigger] shards@[j]).spec_timestamps() == shard_timestamps(
                    shards@,
                ),
            r is Err ==> r == Err::<Waveform, WaveformError>(WaveformError::MismatchedTimestamps),
            r matches Ok(w) ==> {
                &&& w.spec_timestamps() == shard_timestamps(shards@)
                &&& w.spec_vector_signals() == merged_vectors(shards@)
                &&& w.spec_real_signals() == merged_reals(shards@)
            },
    {
        let ghost all = shards@;
        let timestamps = if shards.len() > 0 {
            let first = &shards[0];
            proof {
                use_type_invariant(first);
            }
            copy_timestamps(&first.timestamps)
        } else {
            Vec::new()
        };
        let mut j: usize = 0;
        while j < shards.len()
            invariant
                j <= shards@.len(),
                timestamps@ == shard_timestamps(shards@),
                is_sorted(timestamp_ints(timestamps@)),
                forall|m: int| 0 <= m < j ==> (#[trigger] shards@[m]).spec_timestamps() == timestamps@,
            decreases shards@.len() - j,
        {
            if !(shards[j].timestamps == timestamps) {
                return Err(WaveformError::MismatchedTimestamps);
            }
            j = j + 1;
        }
        let mut merged = Waveform::with_timestamps(timestamps);
        let mut rest = shards;
        let ghost mut done: int = 0;
        proof {
            assert(all.take(0) =~= Seq::<Waveform>::empty());
        }
        while rest.len() > 0
            invariant
                0 <= done <= all.len(),
                rest@ == all.skip(done),
                merged.spec_timestamps() == shard_timestamps(all),
                merged.spec_vector_signals() == merged_vectors(all.take(done)),
                merged.spec_real_signals() == merged_reals(all.take(done)),
            decreases rest@.len(),
        {
            let shard = rest.remove(0);
            proof {
                use_type_invariant(&shard);
                assert(shard == all[done]);
                assert(all.take(done + 1).drop_last() =~= all.take(done));
                assert(all.take(done + 1).last() == shard);
            }
            merged.absorb(shard);
            proof {
                done = done + 1;
                assert(rest@ =~= all.skip(done));
            }
        }
        proof {
            assert(all.take(done) =~= all);
        }
        Ok(merged)
    }

    /// Moves the signals of `shard` in, replacing signals with the same id.
    fn absorb(&mut self, shard: Waveform)
        ensures
            final(self).spec_timestamps() == old(self).spec_timestamps(),
            final(self).spec_vector_signals() == old(self).spec_vector_signals().union_prefer_right(
                shard.spec_vector_signals(),
            ),
            final(self).spec_real_signals() == old(self).spec_real_signals().union_prefer_right(
                shard.spec_real_signals(),
            ),
    {
        proof {
            use_type_invariant(&shard);
        }
        let ghost v0 = shard.vector_signals@;
        let ghost r0 = shard.real_signals@;
        let ghost m0 = self.spec_vector_signals();
        let ghost n0 = self.spec_real_signals();
        let Waveform { timestamps: _, mut vector_signals, mut real_signals, vector_ids, real_ids } =
            shard;
        let mut i: usize = 0;
        while i < vector_ids.len()
            invariant
                i <= vector_ids@.len(),
                lists_keys(vector_ids@, v0.dom()),
                vector_signals@ == v0.remove_keys(vector_ids@.take(i as int).to_set()),
                self.spec_timestamps() == old(self).spec_timestamps(),
                self.spec_real_signals() == n0,
                self.spec_vector_signals() == m0.union_prefer_right(
                    v0.restrict(vector_ids@.take(i as int).to_set()),
                ),
            decreases vector_ids@.len() - i,
        {
            let id = vector_ids[i];
            proof {
                assert(vector_ids@.contains(id));
                assert(!vector_ids@.take(i as int).contains(id)) by {
                    if vector_ids@.take(i as int).contains(id) {
                        let q = choose|q: int| 0 <= q < i && vector_ids@.take(i as int)[q] == id;
                        assert(vector_ids@[q] == vector_ids@[i as int]);
                    }
                }
            }
            if let Some(signal) = vector_signals.remove(&id) {
                self.put_vector(id, signal);
            }
            i = i + 1;
            proof {
                let s0 = vector_ids@.take(i - 1);
                let s1 = vector_ids@.take(i as int);
                let t0 = s0.to_set();
                let t1 = s1.to_set();
                assert(s1 =~= s0.push(id));
                assert forall|x: usize| t1.contains(x) <==> t0.insert(id).contains(x) by {
                    if s1.contains(x) {
                        let q = choose|q: int| 0 <= q < s1.len() && s1[q] == x;
                        if q < s0.len() {
                            assert(s0[q] == x);
                        }
                    }
                    if s0.contains(x) {
                        let q = choose|q: int| 0 <= q < s0.len() && s0[q] == x;
                        assert(s1[q] == x);
                    }
                    if x == id {
                        assert(s1[s1.len() - 1] == id);
                    }
                }
                assert(t1 =~= t0.insert(id));
                assert(vector_signals@ =~= v0.remove_keys(t1));
                assert(self.spec_vector_signals() =~= m0.union_prefer_right(v0.restrict(t1)));
            }
        }
        proof {
            assert(vector_ids@.take(i as int) =~= vector_ids@);
            assert(v0.restrict(vector_ids@.to_set()) =~= v0);
        }
        let mut i: usize = 0;
        while i < real_ids.len()
            invariant
                i <= real_ids@.len(),
                lists_keys(real_ids@, r0.dom()),
                real_signals@ == r0.remove_keys(real_ids@.take(i as int).to_set()),
                self.spec_timestamps() == old(self).spec_timestamps(),
                self.spec_vector_signals() == m0.union_prefer_right(v0),
                self.spec_real_signals() == n0.union_prefer_right(
                    r0.restrict(real_ids@.take(i as int).to_set()),
                ),
            decreases real_ids@.len() - i,
        {
            let id = real_ids[i];
            proof {
                assert(real_ids@.contains(id));
                assert(!real_ids@.take(i as int).contains(id)) by {
                    if real_ids@.take(i as int).contains(id) {
                        let q = choose|q: int| 0 <= q < i && real_ids@.take(i as int)[q] == id;
                        assert(real_ids@[q] == real_ids@[i as int]);
                    }
                }
            }
            if let Some(signal) = real_signals.remove(&id) {
                self.put_real(id, signal);
            }
            i = i + 1;
            proof {
                let s0 = real_ids@.take(i - 1);
                let s1 = real_ids@.take(i as int);
                let t0 = s0.to_set();
                let t1 = s1.to_set();
                assert(s1 =~= s0.push(id));
                assert forall|x: usize| t1.contains(x) <==> t0.insert(id).contains(x) by {
                    if s1.contains(x) {
                        let q = choose|q: int| 0 <= q < s1.len() && s1[q] == x;
                        if q < s0.len() {
                            assert(s0[q] == x);
                        }
                    }
                    if s0.contains(x) {
                        let q = choose|q: int| 0 <= q < s0.len() && s0[q] == x;
                        assert(s1[q] == x);
                    }
                    if x == id {
                        assert(s1[s1.len() - 1] == id);
                    }
                }
                assert(t1 =~= t0.insert(id));
                assert(real_signals@ =~= r0.remove_keys(t1));
                assert(self.spec_real_signals() =~= n0.union_prefer_right(r0.restrict(t1)));
            }
        }
        proof {
            assert(real_ids@.take(i as int) =~= real_ids@);
            assert(r0.restrict(real_ids@.to_set()) =~= r0);
        }
    }

    /// The value of vector signal `id` that a search for `timestamp_index`
    /// finds, or only its bit `bit_index` when one is given, with the
    /// timestamp index at which that value was set.
    pub fn search_vector_value(
        &self,
        id: usize,
        timestamp_index: usize,
        search_mode: WaveformSearchMode,
        bit_index: Option<usize>,
    ) -> (r: Option<(BitVector, usize)>)
        ensures
            !self.spec_vector_signals().contains_key(id) ==> r is None,
            self.spec_vector_signals().contains_key(id) ==> {
                let sig = self.spec_vector_signals()[id];
                match search_result(sig.spec_history(), timestamp_index as int, search_mode) {
                    None => r is None,
                    Some(index) => r matches Some((bv, t)) && t == index.timestamp_index && bv@
                        == match bit_index {
                        Some(b) => seq![bit_or_zero(sig.spec_values()[index.value_index as int], b as int)],
                        None => sig.spec_values()[index.value_index as int],
                    },
                }
            },
    {
        let signal = match self.vector_signals.get(&id) {
            Some(signal) => signal,
            None => {
                return None;
            },
        };
        let index = match signal.get_history().search_timestamp_index(timestamp_index, search_mode) {
            Some(index) => index,
            None => {
                return None;
            },
        };
        let bv = signal.get_bitvector(index.get_value_index());
        let bv = match bit_index {
            Some(b) => {
                let bit = bv.get_bit(b);
                proof {
                    lemma_from_logic(bit);
                }
                BitVector::from(bit)
            },
            None => bv,
        };
        Some((bv, index.get_timestamp_index()))
    }

    /// The big-endian bytes of the value of real signal `id` that a search
    /// for `timestamp_index` finds, with the timestamp index at which it was
    /// set.
    pub fn search_real_value(
        &self,
        id: usize,
        timestamp_index: usize,
        search_mode: WaveformSearchMode,
    ) -> (r: Option<([u8; 8], usize)>)
        ensures
            !self.spec_real_signals().contains_key(id) ==> r is None,
            self.spec_real_signals().contains_key(id) ==> {
                let sig = self.spec_real_signals()[id];
                match search_result(sig.spec_history(), timestamp_index as int, search_mode) {
                    None => r is None,
                    Some(index) => r matches Some((bytes, t)) && t == index.timestamp_index
                        && bytes@ == sig.spec_values()[index.value_index as int],
                }
            },
    {
        let signal = match self.real_signals.get(&id) {
            Some(signal) => signal,
            None => {
                return None;
            },
        };
        let index = match signal.get_history().search_timestamp_index(timestamp_index, search_mode) {
            Some(index) => index,
            None => {
                return None;
            },
        };
        let bytes = signal.get_real_bytes(index.get_value_index());
        Some((bytes, index.get_timestamp_index()))
    }

    /// The timestamps.
    pub fn get_timestamps(&self) -> (r: &Vec<u64>)
        ensures
            r@ == self.spec_timestamps(),
    {
        &self.timestamps
    }

    /// How many timestamps there are.
    pub fn timestamps_count(&self) -> (r: usize)
        ensures
            r == self.spec_timestamps().len(),
    {
        self.timestamps.len()
    }

    /// Appends a timestamp: a repeat of the last one is dropped, an earlier
    /// one refused.
    pub fn insert_timestamp(&mut self, timestamp: u64) -> (r: Result<(), WaveformError>)
        ensures
            final(self).spec_vector_signals() == old(self).spec_vector_signals(),
            final(self).spec_real_signals() == old(self).spec_real_signals(),
            ({
                let ts = old(self).spec_timestamps();
                if ts.len() > 0 && timestamp < ts.last() {
                    &&& r == Err::<(), WaveformError>(WaveformError::DecreasingTimestamp { timestamp })
                    &&& final(self).spec_timestamps() == ts
                } else if ts.len() > 0 && timestamp == ts.last() {
                    &&& r is Ok
                    &&& final(self).spec_timestamps() == ts
                } else {
                    &&& r is Ok
                    &&& final(self).spec_timestamps() == ts.push(timestamp)
                }
            }),
    {
        proof {
            use_type_invariant(&*self);
        }
        let n = self.timestamps.len();
        if n == 0 {
            let mut taken = Waveform::new();
            std::mem::swap(self, &mut taken);
            let Waveform { mut timestamps, vector_signals, real_signals, vector_ids, real_ids } = taken;
            timestamps.push(timestamp);
            proof {
                assert(timestamp_ints(timestamps@) =~= seq![timestamp as int]);
            }
            *self = Waveform { timestamps, vector_signals, real_signals, vector_ids, real_ids };
            return Ok(());
        }
        let last = self.timestamps[n - 1];
        if timestamp < last {
            return Err(WaveformError::DecreasingTimestamp { timestamp });
        } else if timestamp == last {
            return Ok(());
        }
        let mut taken = Waveform::new();
        std::mem::swap(self, &mut taken);
        let Waveform { mut timestamps, vector_signals, real_signals, vector_ids, real_ids } = taken;
        let ghost before = timestamps@;
        timestamps.push(timestamp);
        proof {
            let s0 = timestamp_ints(before);
            let s1 = timestamp_ints(timestamps@);
            assert forall|i: int, j: int| 0 <= i < j < s1.len() implies s1[i] < s1[j] by {
                if j == s1.len() - 1 && i < j {
                    if i < s0.len() - 1 {
                        assert(s0[i] < s0[s0.len() - 1]);
                    }
                } else {
                    assert(s1[i] == s0[i] && s1[j] == s0[j]);
                }
            }
        }
        *self = Waveform { timestamps, vector_signals, real_signals, vector_ids, real_ids };
        Ok(())
    }

    /// The first and the last timestamp, or `0..0` when there is none.
    pub fn get_timestamp_range(&self) -> (r: std::ops::Range<u64>)
        ensures
            self.spec_timestamps().len() > 0 ==> r.start == self.spec_timestamps()[0] && r.end
                == self.spec_timestamps().last(),
            self.spec_timestamps().len() == 0 ==> r.start == 0 && r.end == 0,
    {
        let n = self.timestamps.len();
        if n == 0 {
            0..0
        } else {
            self.timestamps[0]..self.timestamps[n - 1]
        }
    }

    /// The position of the timestamp a search for `timestamp` finds in
    /// `search_mode`.
    pub fn search_timestamp(&self, timestamp: u64, search_mode: WaveformSearchMode) -> (r: Option<
        usize,
    >)
        ensures
            r == match search_position(
                timestamp_ints(self.spec_timestamps()),
                timestamp as int,
                search_mode,
            ) {
                Some(p) => Some(p as usize),
                None => None,
            },
    {
        proof {
            use_type_invariant(self);
        }
        let ghost s = timestamp_ints(self.timestamps@);
        let ghost t = timestamp as int;
        let n = self.timestamps.len();
        if n == 0 || timestamp < self.timestamps[0] {
            proof {
                lemma_search_at(s, t, -1);
            }
            return match search_mode {
                WaveformSearchMode::After | WaveformSearchMode::Closest => if n == 0 {
                    None
                } else {
                    Some(0)
                },
                _ => None,
            };
        }
        // Invariant: the entry at `start` is at or before the timestamp, and
        // the one after `end` (if any) is after it.
        let mut start: usize = 0;
        let mut end: usize = n - 1;
        while start < end
            invariant
                start <= end < n,
                n == self.timestamps@.len(),
                s == timestamp_ints(self.timestamps@),
                t == timestamp as int,
                s[start as int] <= t,
                end + 1 < n ==> s[end + 1] > t,
            decreases end - start,
        {
            let mid = start + (end - start + 1) / 2;
            if self.timestamps[mid] <= timestamp {
                start = mid;
            } else {
                end = mid - 1;
            }
        }
        proof {
            lemma_search_at(s, t, start as int);
        }
        let found = self.timestamps[start];
        if found == timestamp {
            return Some(start);
        }
        match search_mode {
            WaveformSearchMode::Exact => None,
            WaveformSearchMode::Before => Some(start),
            WaveformSearchMode::After => if start + 1 < n {
                Some(start + 1)
            } else {
                None
            },
            WaveformSearchMode::Closest => if start + 1 < n && self.timestamps[start + 1] - timestamp
                < timestamp - found {
                Some(start + 1)
            } else {
                Some(start)
            },
        }
    }
}

impl Default for Waveform {
    fn default() -> (r: Self)
        ensures
            r.spec_timestamps() == Seq::<u64>::empty(),
            r.spec_vector_signals() == Map::<usize, WaveformSignalVector>::empty(),
            r.spec_real_signals() == Map::<usize, WaveformSignalReal>::empty(),
    {
        Waveform::new()
    }
}

} // verus!
