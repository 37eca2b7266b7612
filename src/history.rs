//! The change history of one signal: an append-only log of fixed-size
//! blocks, each holding a run-length encoded stream of changes.
use vstd::prelude::*;

pub mod block;
pub(crate) mod encode;
pub mod index;

pub use crate::history::block::BLOCK_SIZE;
use crate::history::block::{
    block_changes, fitting, header_t, header_v, index_pair, seek_count, to_index,
    WaveformHistoryBlock, WaveformHistoryBlockIter,
};
use crate::search::{is_sorted, lemma_search_at, search_position, WaveformSearchMode};
use crate::history::encode::{
    add_skip, before_last, digit_count, extend_run, last_block, lemma_skips_keep_out, push_block,
    skip_limit, tail_ok,
};
use crate::history::index::WaveformHistoryIndex;

verus! {

/// The most changes one block can hold: one per bit of a 128-wide run in
/// each byte.
pub const MAX_BLOCK_CHANGES: usize = BLOCK_SIZE * 128;

/// The `(timestamp index, value index)` pairs of a sequence of changes.
pub open spec fn pairs(s: Seq<WaveformHistoryIndex>) -> Seq<(int, int)> {
    s.map_values(|i: WaveformHistoryIndex| index_pair(i))
}

/// Changes in strictly increasing timestamp order, the `i`-th with value
/// index `i`.
pub open spec fn is_change_log(s: Seq<WaveformHistoryIndex>) -> bool {
    &&& forall|i: int| 0 <= i < s.len() ==> (#[trigger] s[i]).value_index == i
    &&& forall|i: int, j: int|
        0 <= i < j < s.len() ==> (#[trigger] s[i]).timestamp_index < (#[trigger] s[j]).timestamp_index
}

/// The timestamp indices of a sequence of changes.
pub open spec fn stamps(s: Seq<WaveformHistoryIndex>) -> Seq<int> {
    s.map_values(|i: WaveformHistoryIndex| i.timestamp_index as int)
}

/// The change a search returns: the one at the position of `search_position`.
pub open spec fn search_result(
    s: Seq<WaveformHistoryIndex>,
    t: int,
    mode: WaveformSearchMode,
) -> Option<WaveformHistoryIndex> {
    match search_position(stamps(s), t, mode) {
        Some(p) => Some(s[p]),
        None => None,
    }
}

proof fn lemma_fitting_pairs(x: Seq<WaveformHistoryIndex>)
    ensures
        fitting(pairs(x)) == x,
    decreases x.len(),
{
    if x.len() > 0 {
        assert(pairs(x).drop_first() =~= pairs(x.drop_first()));
        lemma_fitting_pairs(x.drop_first());
        assert(to_index(index_pair(x[0])) == x[0]);
        assert(seq![x[0]] + x.drop_first() =~= x);
    } else {
        assert(fitting(pairs(x)) =~= x);
    }
}

/// In a change log, a seek to `t` passes exactly the changes at or before
/// `t`.
proof fn lemma_seek_count(x: Seq<WaveformHistoryIndex>, t: int)
    requires
        is_change_log_order(x),
    ensures
        seek_count(x, t) <= x.len(),
        forall|i: int| 0 <= i < seek_count(x, t) ==> x[i].timestamp_index <= t,
        seek_count(x, t) < x.len() ==> x[seek_count(x, t) as int].timestamp_index > t,
    decreases x.len(),
{
    if x.len() > 0 && x[0].timestamp_index < t {
        let y = x.drop_first();
        lemma_seek_count(y, t);
        assert forall|i: int| 0 <= i < seek_count(x, t) implies x[i].timestamp_index <= t by {
            if i > 0 {
                assert(x[i] == y[i - 1]);
            }
        }
    } else if x.len() > 1 && x[0].timestamp_index == t {
        assert(x[0].timestamp_index < x[1].timestamp_index);
    }
}

/// Timestamps strictly increasing.
pub open spec fn is_change_log_order(s: Seq<WaveformHistoryIndex>) -> bool {
    forall|i: int, j: int|
        0 <= i < j < s.len() ==> (#[trigger] s[i]).timestamp_index < (#[trigger] s[j]).timestamp_index
}

/// The change log of a signal.
pub struct WaveformHistory {
    timestamp_index_last: usize,
    blocks: Vec<u8>,
    block_offset: usize,
    changes: Ghost<Seq<WaveformHistoryIndex>>,
    starts: Ghost<Seq<int>>,
}

impl View for WaveformHistory {
    type V = Seq<WaveformHistoryIndex>;

    /// The changes appended so far, in order.
    closed spec fn view(&self) -> Seq<WaveformHistoryIndex> {
        self.changes@
    }
}

impl WaveformHistory {
    /// The number of blocks.
    pub closed spec fn spec_block_count(&self) -> nat {
        self.starts@.len()
    }

    /// Whether a change at `timestamp_index` fits in the last block: after
    /// the previous change it extends the last run or takes one more change
    /// byte; after a gap, the skip needs at most eight digits and the block
    /// has room for them and a change byte.
    pub closed spec fn spec_has_room(&self, timestamp_index: usize) -> bool {
        let nb = self.starts@.len() as int;
        let b = self.spec_block(nb - 1);
        let off = self.block_offset as int;
        let skips = timestamp_index - self.timestamp_index_last - 1;
        &&& nb > 0
        &&& if skips == 0 {
            b[off - 1] < 255 || off < 512
        } else {
            skips < skip_limit() && off + digit_count(skips as nat, 128) + 1 <= 512
        }
    }

    /// Whether each change directly follows the one before and the blocks
    /// are packed tight: every block but the last holds 63,488 changes (496
    /// full change bytes), and the last block holds the rest in as few change
    /// bytes as they need.
    pub closed spec fn spec_dense(&self) -> bool {
        let c = self.changes@;
        let n = c.len() as int;
        let nb = self.starts@.len() as int;
        let m = n - (nb - 1) * 63488;
        &&& n > 0
        &&& nb >= 1
        &&& forall|i: int|
            0 <= i < n - 1 ==> #[trigger] c[i + 1].timestamp_index == c[i].timestamp_index + 1
        &&& 0 < m <= 63488
        &&& self.block_offset == 16 + (m + 127) / 128
        &&& self.spec_block(nb - 1)[self.block_offset - 1] == 128 + (m - 1) % 128
    }

    /// A tightly packed history of `n` changes has `ceil(n / 63,488)`
    /// blocks: the change bytes they need, divided by the 496 a block
    /// holds, rounded up.
    pub proof fn lemma_dense_block_count(&self)
        requires
            self.spec_dense(),
        ensures
            self.spec_block_count() == (self@.len() + 63487) / 63488,
            self.spec_block_count() == ((self@.len() + 127) / 128 + 495) / 496,
    {
        let n = self@.len() as int;
        let nb = self.starts@.len() as int;
        assert(nb == (n + 63487) / 63488) by (nonlinear_arith)
            requires
                0 < n - (nb - 1) * 63488 <= 63488,
        ;
        assert(((n + 127) / 128 + 495) / 496 == (n + 63487) / 63488) by (nonlinear_arith)
            requires
                n > 0,
        ;
    }

    /// The bytes of block `k`.
    pub closed spec fn spec_block(&self, k: int) -> Seq<u8> {
        self.blocks@.subrange(512 * k, 512 * k + 512)
    }

    /// Where the changes of block `k` start.
    pub closed spec fn spec_block_start(&self, k: int) -> int {
        self.starts@[k]
    }

    /// Where the changes of block `k` end.
    pub closed spec fn spec_block_end(&self, k: int) -> int {
        if k + 1 < self.starts@.len() {
            self.starts@[k + 1]
        } else {
            self.changes@.len() as int
        }
    }

    /// The storage invariant: the blocks, decoded in order, give back the
    /// change log, and the last block is ready for the next append.
    #[verifier::type_invariant]
    pub closed spec fn wf(&self) -> bool {
        let c = self.changes@;
        let st = self.starts@;
        let nb = st.len() as int;
        &&& self.blocks@.len() == 512 * nb
        &&& (c.len() == 0) == (nb == 0)
        &&& is_change_log(c)
        &&& nb > 0 ==> self.timestamp_index_last == c.last().timestamp_index && st[0] == 0
        &&& forall|k: int|
            0 <= k < nb ==> k <= #[trigger] st[k] < self.spec_block_end(k) <= c.len()
        &&& forall|k: int|
            0 <= k < nb ==> header_t(#[trigger] self.spec_block(k)) == c[st[k]].timestamp_index
                && header_v(self.spec_block(k)) == st[k]
        &&& forall|k: int|
            0 <= k < nb - 1 ==> block_changes(#[trigger] self.spec_block(k)) == pairs(
                c.subrange(st[k], self.spec_block_end(k)),
            )
        &&& nb > 0 ==> tail_ok(
            self.spec_block(nb - 1),
            self.block_offset as int,
            self.timestamp_index_last + 1,
            c.len() as int,
            pairs(c.subrange(st[nb - 1], c.len() as int)),
        )
    }

    /// An empty history.
    pub fn new() -> (r: Self)
        ensures
            r@ == Seq::<WaveformHistoryIndex>::empty(),
            r.spec_block_count() == 0,
    {
        WaveformHistory {
            timestamp_index_last: 0,
            blocks: Vec::new(),
            block_offset: 17,
            changes: Ghost(Seq::empty()),
            starts: Ghost(Seq::empty()),
        }
    }

    /// Appends the change `(timestamp_index, value_index)`: extends the
    /// last run when it directly follows the previous change, else writes
    /// the skip before it, and opens a new block when the last one has no
    /// room (or the skip needs more than eight digits).
    pub fn add_change(&mut self, timestamp_index: usize, value_index: usize)
        requires
            value_index == old(self)@.len(),
            old(self)@.len() > 0 ==> timestamp_index > old(self)@.last().timestamp_index,
            (old(self)@.len() + 1) * BLOCK_SIZE <= usize::MAX,
        ensures
            final(self)@ == old(self)@.push(WaveformHistoryIndex { timestamp_index, value_index }),
            final(self).spec_block_count() == old(self).spec_block_count() + if old(
                self,
            ).spec_has_room(timestamp_index) {
                0nat
            } else {
                1nat
            },
            old(self)@.len() == 0 ==> final(self).spec_dense(),
            old(self).spec_dense() && timestamp_index == old(self)@.last().timestamp_index + 1
                ==> final(self).spec_dense(),
    {
        proof {
            use_type_invariant(&*self);
        }
        let mut taken = WaveformHistory::new();
        std::mem::swap(self, &mut taken);
        let ghost old_h = taken;
        let WaveformHistory { timestamp_index_last, mut blocks, mut block_offset, changes, starts } =
            taken;
        let ghost c = changes@;
        let ghost st = starts@;
        let ghost nb = st.len() as int;
        let entry = WaveformHistoryIndex { timestamp_index, value_index };
        let ghost c2 = c.push(entry);
        proof {
            if nb > 0 {
                assert(st[nb - 1] >= nb - 1);
            }
            assert(blocks@.len() + 512 <= usize::MAX) by (nonlinear_arith)
                requires
                    blocks@.len() == 512 * nb,
                    nb <= c.len(),
                    (c.len() + 1) * 512 <= usize::MAX,
            ;
        }
        let mut appended = false;
        if blocks.len() > 0 {
            let delta = timestamp_index - timestamp_index_last;
            let ghost t = timestamp_index_last + 1;
            let ghost out = pairs(c.subrange(st[nb - 1], c.len() as int));
            proof {
                assert(blocks@.subrange(512 * (nb - 1), 512 * (nb - 1) + 512) =~= blocks@.subrange(
                    blocks@.len() - 512,
                    blocks@.len() as int,
                ));
            }
            let ghost pre_blocks = blocks@;
            let ghost pre_offset = block_offset;
            appended = if delta == 1 {
                extend_run(&mut blocks, &mut block_offset, Ghost(t), Ghost(c.len() as int), Ghost(out))
            } else {
                add_skip(
                    &mut blocks,
                    &mut block_offset,
                    delta - 1,
                    Ghost(t),
                    Ghost(c.len() as int),
                    Ghost(out),
                )
            };
        }
        let ghost mid_blocks = blocks@;
        if !appended {
            push_block(&mut blocks, timestamp_index, value_index);
            block_offset = 17;
        }
        let ghost st2 = if appended {
            st
        } else {
            st.push(c.len() as int)
        };
        let ghost r = WaveformHistory {
            timestamp_index_last: timestamp_index,
            blocks,
            block_offset,
            changes: Ghost(c2),
            starts: Ghost(st2),
        };
        proof {
            if appended {
                assert(pairs(c.subrange(st[nb - 1], c.len() as int)).push(index_pair(entry)) =~= pairs(
                    c2.subrange(st[nb - 1], c2.len() as int),
                ));
            } else {
                assert(mid_blocks == old_h.blocks@);
                assert(seq![index_pair(entry)] =~= pairs(c2.subrange(c.len() as int, c2.len() as int)));
            }
            WaveformHistory::lemma_add_change(old_h, r, entry, appended);
            assert(old_h.spec_has_room(timestamp_index) == appended);
            WaveformHistory::lemma_dense_step(old_h, r, entry, appended);
        }
        *self = WaveformHistory {
            timestamp_index_last: timestamp_index,
            blocks,
            block_offset,
            changes: Ghost(c2),
            starts: Ghost(st2),
        };
    }

    /// Block `k` decodes to its share of the changes.
    proof fn lemma_block_changes(&self, k: int)
        requires
            self.wf(),
            0 <= k < self.starts@.len(),
        ensures
            fitting(block_changes(self.spec_block(k))) == self.changes@.subrange(
                self.starts@[k],
                self.spec_block_end(k),
            ),
    {
        let nb = self.starts@.len() as int;
        if k == nb - 1 {
            lemma_skips_keep_out(self.spec_block(k), self.block_offset as int, 512);
        }
        lemma_fitting_pairs(self.changes@.subrange(self.starts@[k], self.spec_block_end(k)));
    }

    /// The number of blocks.
    pub fn get_block_count(&self) -> (r: usize)
        ensures
            r == self.spec_block_count(),
    {
        proof {
            use_type_invariant(self);
        }
        self.blocks.len() / BLOCK_SIZE
    }

    /// The bytes the blocks take.
    pub fn get_block_size(&self) -> (r: usize)
        ensures
            r == BLOCK_SIZE * self.spec_block_count(),
    {
        proof {
            use_type_invariant(self);
        }
        self.blocks.len()
    }

    /// Block `block_index`.
    pub fn get_block(&self, block_index: usize) -> (r: WaveformHistoryBlock<'_>)
        requires
            block_index < self.spec_block_count(),
        ensures
            r@ == self.spec_block(block_index as int),
            r@.len() == BLOCK_SIZE,
            header_t(r@) == self@[self.spec_block_start(block_index as int)].timestamp_index,
            header_v(r@) == self.spec_block_start(block_index as int),
            self.spec_block_start(block_index as int) < self@.len(),
    {
        proof {
            use_type_invariant(self);
        }
        let total = self.blocks.len();
        proof {
            assert(block_index * 512 + 512 <= total) by (nonlinear_arith)
                requires
                    block_index < self.starts@.len(),
                    total == 512 * self.starts@.len(),
            ;
        }
        let start = block_index * BLOCK_SIZE;
        let slice = vstd::slice::slice_subrange(self.blocks.as_slice(), start, start + BLOCK_SIZE);
        WaveformHistoryBlock::new(slice)
    }

    /// The timestamp index of the first change of block `k`.
    fn block_timestamp(&self, k: usize) -> (r: usize)
        requires
            k < self.spec_block_count(),
        ensures
            r == self@[self.spec_block_start(k as int)].timestamp_index,
            self.spec_block_start(k as int) < self@.len(),
    {
        proof {
            use_type_invariant(self);
        }
        self.get_block(k).get_timestamp_index()
    }

    /// The block holding the last change at or before `timestamp_index`:
    /// `None` when every change comes after it.
    fn search_timestamp_block_index(&self, timestamp_index: usize) -> (r: Option<usize>)
        requires
            self.spec_block_count() > 0,
        ensures
            r is None <==> timestamp_index < self@[0].timestamp_index,
            r matches Some(k) ==> {
                &&& k < self.spec_block_count()
                &&& self@[self.spec_block_start(k as int)].timestamp_index <= timestamp_index
                &&& k + 1 < self.spec_block_count() ==> self@[self.spec_block_start(
                    k + 1,
                )].timestamp_index > timestamp_index
            },
    {
        proof {
            use_type_invariant(self);
        }
        let count = self.get_block_count();
        if timestamp_index < self.block_timestamp(0) {
            return None;
        }
        let last = self.block_timestamp(count - 1);
        if last as u128 + MAX_BLOCK_CHANGES as u128 <= timestamp_index as u128 {
            return Some(count - 1);
        }
        // Invariant: block `start` begins at or before the timestamp, and
        // the block after `end` (if any) begins after it.
        let mut start: usize = 0;
        let mut end: usize = count - 1;
        while start < end
            invariant
                start <= end < count,
                count == self.spec_block_count(),
                self@[self.spec_block_start(start as int)].timestamp_index <= timestamp_index,
                end + 1 < count ==> self@[self.spec_block_start(end + 1)].timestamp_index
                    > timestamp_index,
            decreases end - start,
        {
            let mid = start + (end - start + 1) / 2;
            if self.block_timestamp(mid) <= timestamp_index {
                start = mid;
            } else {
                end = mid - 1;
            }
        }
        Some(start)
    }

    /// The change a search for `timestamp_index` finds in `search_mode`.
    #[verifier::rlimit(60)]
    pub fn search_timestamp_index(
        &self,
        timestamp_index: usize,
        search_mode: WaveformSearchMode,
    ) -> (r: Option<WaveformHistoryIndex>)
        ensures
            r == search_result(self@, timestamp_index as int, search_mode),
            r matches Some(index) ==> index.value_index < self@.len(),
    {
        proof {
            use_type_invariant(self);
        }
        let ghost c = self@;
        let ghost s = stamps(c);
        let ghost t = timestamp_index as int;
        proof {
            assert(is_sorted(s));
        }
        let count = self.get_block_count();
        if count == 0 {
            proof {
                lemma_search_at(s, t, -1);
            }
            return None;
        }
        let block_index = match self.search_timestamp_block_index(timestamp_index) {
            Some(k) => k,
            None => {
                proof {
                    lemma_search_at(s, t, -1);
                }
                return match search_mode {
                    WaveformSearchMode::After | WaveformSearchMode::Closest => Some(
                        self.get_block(0).get_index(),
                    ),
                    _ => None,
                };
            },
        };
        let ghost k = block_index as int;
        let ghost a = self.spec_block_start(k);
        let ghost e = self.spec_block_end(k);
        let ghost x = c.subrange(a, e);
        let block = self.get_block(block_index);
        let mut iter = block.iter();
        proof {
            self.lemma_block_changes(k);
            lemma_seek_count(x, t);
        }
        let before = match iter.seek(timestamp_index) {
            Some(index) => index,
            None => {
                // The block's first change is at or before the timestamp.
                return None;
            },
        };
        let ghost n = seek_count(x, t) as int;
        let ghost p = a + n - 1;
        proof {
            assert(before == c[p]);
            if p + 1 < c.len() {
                if n < x.len() {
                    assert(x[n] == c[p + 1]);
                } else {
                    assert(e == self.spec_block_start(k + 1));
                }
            }
            lemma_search_at(s, t, p);
        }
        if before.timestamp_index == timestamp_index {
            return Some(before);
        }
        let after = match iter.next() {
            Some(index) => Some(index),
            None => if block_index + 1 < count {
                Some(self.get_block(block_index + 1).get_index())
            } else {
                None
            },
        };
        proof {
            if n < x.len() {
                assert(x.skip(n)[0] == c[p + 1]);
            } else if k + 1 < count {
                assert(self.spec_block_start(k + 1) == p + 1);
            }
        }
        match search_mode {
            WaveformSearchMode::Before => Some(before),
            WaveformSearchMode::After => after,
            WaveformSearchMode::Exact => None,
            WaveformSearchMode::Closest => match after {
                Some(index_after) => if index_after.timestamp_index - timestamp_index
                    < timestamp_index - before.timestamp_index {
                    Some(index_after)
                } else {
                    Some(before)
                },
                None => Some(before),
            },
        }
    }

    /// Decoding the blocks of a history gives back exactly the changes
    /// appended to it: block `k` decodes to the changes from its start to
    /// its end, and the blocks follow each other over the whole log.
    pub proof fn lemma_history_decodes(&self, k: int)
        requires
            self.wf(),
            0 <= k < self.spec_block_count(),
        ensures
            fitting(block_changes(self.spec_block(k))) == self@.subrange(
                self.spec_block_start(k),
                self.spec_block_end(k),
            ),
            self.spec_block_start(0) == 0,
            self.spec_block_start(k) < self.spec_block_end(k),
            k + 1 < self.spec_block_count() ==> self.spec_block_end(k) == self.spec_block_start(k + 1),
            k + 1 == self.spec_block_count() ==> self.spec_block_end(k) == self@.len(),
            is_change_log(self@),
    {
        self.lemma_block_changes(k);
    }

    /// The changes of a history are a change log: strictly increasing
    /// timestamps, the `i`-th change with value index `i`.
    pub proof fn lemma_is_change_log(&self)
        requires
            self.wf(),
        ensures
            is_change_log(self@),
    {
    }

    /// An iterator over all changes, in order.
    pub fn into_iter(&self) -> (r: WaveformHistoryIter<'_>)
        ensures
            r.wf(),
            r@ == self@,
    {
        proof {
            use_type_invariant(self);
        }
        proof {
            assert(self@.subrange(0, self@.len() as int) =~= self@);
        }
        if self.get_block_count() == 0 {
            return WaveformHistoryIter { block_index: 0, block_iter: None, history: self, pos: Ghost(0) };
        }
        let block_iter = self.get_block(0).into_iter();
        proof {
            self.lemma_block_changes(0);
        }
        WaveformHistoryIter { block_index: 0, block_iter: Some(block_iter), history: self, pos: Ghost(0) }
    }

    /// Appending the next consecutive change keeps a history tightly
    /// packed, and a first change starts a tightly packed history.
    #[verifier::rlimit(50)]
    proof fn lemma_dense_step(h: WaveformHistory, r: WaveformHistory, entry: WaveformHistoryIndex, appended: bool)
        requires
            h.changes@.len() > 0 ==> h.timestamp_index_last == h.changes@.last().timestamp_index,
            (h.changes@.len() == 0) == (h.starts@.len() == 0),
            r.changes@ == h.changes@.push(entry),
            appended == h.spec_has_room(entry.timestamp_index),
            appended ==> r.starts@ == h.starts@,
            !appended ==> r.starts@ == h.starts@.push(h.changes@.len() as int),
            !appended ==> r.block_offset == 17 && r.spec_block(h.starts@.len() as int)[16] == 128,
            appended && entry.timestamp_index == h.timestamp_index_last + 1 ==> {
                let nb = h.starts@.len() as int;
                let off = h.block_offset as int;
                let c = h.spec_block(nb - 1)[off - 1];
                &&& c < 255 ==> r.block_offset == off && r.spec_block(nb - 1)[off - 1] == c + 1
                &&& c == 255 ==> r.block_offset == off + 1 && r.spec_block(nb - 1)[off] == 128
            },
        ensures
            h.changes@.len() == 0 ==> r.spec_dense(),
            h.spec_dense() && entry.timestamp_index == h.changes@.last().timestamp_index + 1
                ==> r.spec_dense(),
    {
        let c = h.changes@;
        let c2 = r.changes@;
        let n = c.len() as int;
        let nb = h.starts@.len() as int;
        if n == 0 {
            assert(!appended);
            assert(r.starts@.len() == 1);
            assert((1int + 127) / 128 == 1);
            assert((1int - 1) % 128 == 0);
        } else if h.spec_dense() && entry.timestamp_index == c.last().timestamp_index + 1 {
            let m = n - (nb - 1) * 63488;
            let off = h.block_offset as int;
            let byte = h.spec_block(nb - 1)[off - 1];
            assert(h.timestamp_index_last == c.last().timestamp_index);
            assert forall|i: int| 0 <= i < n implies #[trigger] c2[i + 1].timestamp_index == c2[i].timestamp_index + 1 by {
                if i < n - 1 {
                    assert(c2[i + 1] == c[i + 1] && c2[i] == c[i]);
                } else {
                    assert(c2[i + 1] == entry && c2[i] == c.last());
                }
            }
            if (m - 1) % 128 < 127 {
                assert(byte < 255);
                assert(appended);
                assert(m % 128 != 0);
                assert(m < 63488);
                assert((m + 1 + 127) / 128 == (m + 127) / 128);
                assert(m % 128 == (m - 1) % 128 + 1);
            } else {
                assert(byte == 255);
                assert(m % 128 == 0);
                if off < 512 {
                    assert(appended);
                    assert(m < 63488);
                    assert(16 + (m + 1 + 127) / 128 == off + 1);
                    assert((m + 1 - 1) % 128 == 0);
                } else {
                    assert(!appended);
                    assert(m == 63488);
                    assert(r.starts@.len() == nb + 1);
                    assert(n + 1 - nb * 63488 == 1);
                    assert((1int + 127) / 128 == 1);
                    assert((1int - 1) % 128 == 0);
                }
            }
        }
    }

    #[verifier::rlimit(50)]
    proof fn lemma_add_change(
        h: WaveformHistory,
        r: WaveformHistory,
        entry: WaveformHistoryIndex,
        appended: bool,
    )
        requires
            h.wf(),
            r.changes@ == h.changes@.push(entry),
            entry.value_index == h.changes@.len(),
            h.changes@.len() > 0 ==> entry.timestamp_index > h.changes@.last().timestamp_index,
            r.timestamp_index_last == entry.timestamp_index,
            appended ==> {
                &&& h.starts@.len() > 0
                &&& r.starts@ == h.starts@
                &&& r.blocks@.len() == h.blocks@.len()
                &&& before_last(r.blocks@) == before_last(h.blocks@)
                &&& r.spec_block(h.starts@.len() - 1).subrange(0, 16) == h.spec_block(
                    h.starts@.len() - 1,
                ).subrange(0, 16)
                &&& tail_ok(
                    r.spec_block(h.starts@.len() - 1),
                    r.block_offset as int,
                    entry.timestamp_index + 1,
                    entry.value_index + 1,
                    pairs(r.changes@.subrange(h.starts@.last(), r.changes@.len() as int)),
                )
            },
            !appended ==> {
                &&& r.starts@ == h.starts@.push(h.changes@.len() as int)
                &&& r.blocks@.len() == h.blocks@.len() + 512
                &&& r.blocks@.subrange(0, h.blocks@.len() as int) == h.blocks@
                &&& header_t(r.spec_block(h.starts@.len() as int)) == entry.timestamp_index
                &&& header_v(r.spec_block(h.starts@.len() as int)) == entry.value_index
                &&& tail_ok(
                    r.spec_block(h.starts@.len() as int),
                    r.block_offset as int,
                    entry.timestamp_index + 1,
                    entry.value_index + 1,
                    pairs(r.changes@.subrange(h.changes@.len() as int, r.changes@.len() as int)),
                )
            },
        ensures
            r.wf(),
    {
        let c = h.changes@;
        let c2 = r.changes@;
        let st = h.starts@;
        let nb = st.len() as int;
        assert(is_change_log(c2)) by {
            assert forall|i: int, j: int| 0 <= i < j < c2.len() implies (#[trigger] c2[i]).timestamp_index
                < (#[trigger] c2[j]).timestamp_index by {
                if j == c.len() && i < c.len() - 1 {
                    assert(c[i].timestamp_index < c[c.len() - 1].timestamp_index);
                }
            }
        }
        assert forall|k: int| 0 <= k < nb - 1 implies #[trigger] r.spec_block(k) == h.spec_block(k) by {
            if appended {
                assert(r.spec_block(k) =~= before_last(r.blocks@).subrange(512 * k, 512 * k + 512));
                assert(h.spec_block(k) =~= before_last(h.blocks@).subrange(512 * k, 512 * k + 512));
            } else {
                assert(r.spec_block(k) =~= r.blocks@.subrange(0, h.blocks@.len() as int).subrange(
                    512 * k,
                    512 * k + 512,
                ));
            }
        }
        if appended {
            assert(r.spec_block(nb - 1).subrange(0, 8) =~= r.spec_block(nb - 1).subrange(0, 16).subrange(0, 8));
            assert(h.spec_block(nb - 1).subrange(0, 8) =~= h.spec_block(nb - 1).subrange(0, 16).subrange(0, 8));
            assert(r.spec_block(nb - 1).subrange(8, 16) =~= r.spec_block(nb - 1).subrange(0, 16).subrange(8, 16));
            assert(h.spec_block(nb - 1).subrange(8, 16) =~= h.spec_block(nb - 1).subrange(0, 16).subrange(8, 16));
            assert forall|k: int| 0 <= k < nb implies k <= #[trigger] r.starts@[k] < r.spec_block_end(k) <= c2.len() by {
                assert(h.spec_block_end(k) <= c.len());
            }
            assert forall|k: int| 0 <= k < nb - 1 implies block_changes(#[trigger] r.spec_block(k)) == pairs(
                c2.subrange(st[k], r.spec_block_end(k))) by {
                assert(c2.subrange(st[k], r.spec_block_end(k)) =~= c.subrange(st[k], h.spec_block_end(k)));
            }
        } else {
            if nb > 0 {
                assert(r.spec_block(nb - 1) =~= r.blocks@.subrange(0, h.blocks@.len() as int).subrange(
                    512 * (nb - 1),
                    512 * (nb - 1) + 512,
                ));
                let b = h.spec_block(nb - 1);
                lemma_skips_keep_out(b, h.block_offset as int, 512);
                assert(c2.subrange(st[nb - 1], c.len() as int) =~= c.subrange(st[nb - 1], c.len() as int));
            }
            assert forall|k: int| 0 <= k < nb + 1 implies k <= #[trigger] r.starts@[k] < r.spec_block_end(k) <= c2.len() by {
                if k < nb {
                    assert(h.spec_block_end(k) <= c.len());
                }
            }
            assert forall|k: int| 0 <= k < nb implies block_changes(#[trigger] r.spec_block(k)) == pairs(
                c2.subrange(r.starts@[k], r.spec_block_end(k))) by {
                assert(c2.subrange(st[k], r.spec_block_end(k)) =~= c.subrange(st[k], h.spec_block_end(k)));
            }
        }
        assert forall|k: int| 0 <= k < r.starts@.len() implies header_t(#[trigger] r.spec_block(k))
            == c2[r.starts@[k]].timestamp_index && header_v(r.spec_block(k)) == r.starts@[k] by {
            if k < nb {
                assert(c2[st[k]] == c[st[k]]);
            }
        }
    }
}

impl Default for WaveformHistory {
    fn default() -> (r: Self)
        ensures
            r@ == Seq::<WaveformHistoryIndex>::empty(),
    {
        WaveformHistory::new()
    }
}

/// The changes of a history, block by block.
#[derive(Clone, Copy)]
pub struct WaveformHistoryIter<'a> {
    block_index: usize,
    block_iter: Option<WaveformHistoryBlockIter<'a>>,
    history: &'a WaveformHistory,
    pos: Ghost<int>,
}

impl<'a> View for WaveformHistoryIter<'a> {
    type V = Seq<WaveformHistoryIndex>;

    /// The changes still to come.
    closed spec fn view(&self) -> Seq<WaveformHistoryIndex> {
        self.history@.subrange(self.pos@, self.history@.len() as int)
    }
}

impl<'a> WaveformHistoryIter<'a> {
    /// Whether the iterator is usable: true of every iterator made by
    /// `WaveformHistory::into_iter` and kept by `next` and `seek`.
    pub closed spec fn wf(&self) -> bool {
        let h = self.history;
        let k = self.block_index as int;
        &&& h.wf()
        &&& 0 <= self.pos@ <= h@.len()
        &&& k <= h.spec_block_count()
        &&& k == h.spec_block_count() ==> self.pos@ == h@.len()
        &&& k < h.spec_block_count() ==> match self.block_iter {
            Some(bi) => {
                &&& bi.wf()
                &&& bi.spec_block() == h.spec_block(k)
                &&& h.spec_block_start(k) <= self.pos@ <= h.spec_block_end(k)
                &&& bi@ == h@.subrange(self.pos@, h.spec_block_end(k))
            },
            None => false,
        }
    }

    /// The change log iterated over.
    pub closed spec fn spec_history(&self) -> Seq<WaveformHistoryIndex> {
        self.history@
    }

    /// The next change, or `None` after the last.
    pub fn next(&mut self) -> (r: Option<WaveformHistoryIndex>)
        requires
            old(self).wf(),
        ensures
            final(self).wf(),
            final(self).spec_history() == old(self).spec_history(),
            r == if old(self)@.len() > 0 {
                Some(old(self)@[0])
            } else {
                None::<WaveformHistoryIndex>
            },
            final(self)@ == if old(self)@.len() > 0 {
                old(self)@.drop_first()
            } else {
                Seq::empty()
            },
    {
        let ghost c = self.history@;
        loop
            invariant
                self.wf(),
                self.history@ == c,
                self.spec_history() == old(self).spec_history(),
                self@ == old(self)@,
            decreases self.history.spec_block_count() - self.block_index,
        {
            proof {
                use_type_invariant(self.history);
            }
            if self.block_index >= self.history.get_block_count() {
                return None;
            }
            let ghost k = self.block_index as int;
            let ghost p = self.pos@;
            let ghost e = self.history.spec_block_end(k);
            let mut bi = match self.block_iter {
                Some(bi) => bi,
                None => {
                    return None;
                },
            };
            let step = bi.next();
            self.block_iter = Some(bi);
            match step {
                Some(index) => {
                    proof {
                        self.pos = Ghost(p + 1);
                        assert(c.subrange(p, e)[0] == c[p]);
                        assert(c.subrange(p + 1, e) =~= c.subrange(p, e).drop_first());
                        assert(c.subrange(p + 1, c.len() as int) =~= c.subrange(p, c.len() as int).drop_first());
                    }
                    return Some(index);
                },
                None => {
                    proof {
                        assert(p == e);
                    }
                    self.next_block();
                },
            }
        }
    }

    /// Moves to the start of the next block.
    fn next_block(&mut self)
        requires
            old(self).history.wf(),
            old(self).block_index < old(self).history.spec_block_count(),
            old(self).pos@ == old(self).history.spec_block_end(old(self).block_index as int),
            0 <= old(self).pos@ <= old(self).history@.len(),
        ensures
            final(self).wf(),
            final(self).history == old(self).history,
            final(self).pos@ == old(self).pos@,
            final(self).block_index == old(self).block_index + 1,
    {
        let count = self.history.get_block_count();
        self.block_index = self.block_index + 1;
        if self.block_index < count {
            self.block_iter = Some(self.history.get_block(self.block_index).into_iter());
            proof {
                self.history.lemma_block_changes(self.block_index as int);
            }
        }
    }

    /// The change at or right before `timestamp_index` among those still to
    /// come, or `None` when they all come after it; the iterator then stands
    /// right after the returned change.
    #[verifier::rlimit(50)]
    pub fn seek(&mut self, timestamp_index: usize) -> (r: Option<WaveformHistoryIndex>)
        requires
            old(self).wf(),
        ensures
            final(self).wf(),
            final(self).spec_history() == old(self).spec_history(),
            ({
                let k = seek_count(old(self)@, timestamp_index as int);
                &&& r == if k > 0 {
                    Some(old(self)@[k - 1])
                } else {
                    None
                }
                &&& final(self)@ == old(self)@.skip(k as int)
            }),
    {
        let ghost v0 = self@;
        let ghost t = timestamp_index as int;
        let ghost mut j: int = 0;
        let mut last: Option<WaveformHistoryIndex> = None;
        proof {
            assert(v0.skip(0) =~= v0);
        }
        loop
            invariant
                self.wf(),
                self.spec_history() == old(self).spec_history(),
                t == timestamp_index as int,
                v0 == old(self)@,
                0 <= j <= v0.len(),
                self@ == v0.skip(j),
                seek_count(v0, t) == j + seek_count(v0.skip(j), t),
                last == if j > 0 {
                    Some(v0[j - 1])
                } else {
                    None
                },
            decreases v0.len() - j,
        {
            let saved = *self;
            let ghost s = v0.skip(j);
            match self.next() {
                None => {
                    *self = saved;
                    proof {
                        assert(seek_count(s, t) == 0);
                    }
                    return last;
                },
                Some(index) => {
                    proof {
                        assert(s[0] == v0[j]);
                        assert(s.drop_first() =~= v0.skip(j + 1));
                    }
                    if index.timestamp_index > timestamp_index {
                        *self = saved;
                        proof {
                            assert(seek_count(s, t) == 0);
                        }
                        return last;
                    } else if index.timestamp_index == timestamp_index {
                        proof {
                            assert(seek_count(s, t) == 1);
                        }
                        return Some(index);
                    }
                    proof {
                        assert(seek_count(s, t) == 1 + seek_count(v0.skip(j + 1), t));
                    }
                    last = Some(index);
                    proof {
                        j = j + 1;
                    }
                },
            }
        }
    }
}

} // verus!
