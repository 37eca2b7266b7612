//! One fixed-size block of a change history and the decoder of its token
//! stream.
//!
//! A block is 512 bytes: the big-endian timestamp index and value index of
//! its first change, then tokens. A byte with its top bit set is a change
//! run of `(byte & 0x7F) + 1` changes, each advancing both indices by one.
//! Bytes with the top bit clear are base-128 digits, most significant
//! first, of a skip that advances only the timestamp index; every eight
//! digits the partial number is added to the running skip and restarted.
//! Digits at the end of a block with no change after them are ignored.
use vstd::prelude::*;

use crate::bitvector::format::exp2;
use crate::history::index::WaveformHistoryIndex;

verus! {

/// Bytes in a block.
pub const BLOCK_SIZE: usize = 512;

/// Bytes in a block header.
pub const HEADER_SIZE: usize = 16;

/// The decoder's state after a prefix of the token stream.
pub struct DecodeState {
    /// Timestamp index of the next change, before pending skip digits.
    pub t: int,
    /// Value index of the next change.
    pub v: int,
    /// The skip digits read since the last flush.
    pub partial: int,
    /// How many skip digits `partial` holds.
    pub count: int,
    /// The changes decoded so far.
    pub out: Seq<(int, int)>,
}

/// `n` consecutive changes from `(t, v)`.
pub open spec fn run(t: int, v: int, n: nat) -> Seq<(int, int)> {
    Seq::new(n, |k: int| (t + k, v + k))
}

/// The decoder's state after one more byte.
pub open spec fn step(s: DecodeState, b: u8) -> DecodeState {
    if b < 128 {
        let p = s.partial * 128 + b;
        if s.count + 1 == 8 {
            DecodeState { t: s.t + p, v: s.v, partial: 0, count: 0, out: s.out }
        } else {
            DecodeState { t: s.t, v: s.v, partial: p, count: s.count + 1, out: s.out }
        }
    } else {
        let t = s.t + s.partial;
        let n = (b - 127) as nat;
        DecodeState { t: t + n, v: s.v + n, partial: 0, count: 0, out: s.out + run(t, s.v, n) }
    }
}

/// The decoder's state after `bytes`.
pub open spec fn decode(s: DecodeState, bytes: Seq<u8>) -> DecodeState
    decreases bytes.len(),
{
    if bytes.len() == 0 {
        s
    } else {
        step(decode(s, bytes.drop_last()), bytes.last())
    }
}

/// The number that the digits `d` spell in base `base`, most significant
/// first.
pub open spec fn digits_value(d: Seq<u8>, base: nat) -> nat
    decreases d.len(),
{
    if d.len() == 0 {
        0
    } else {
        (digits_value(d.drop_last(), base) * base + d.last()) as nat
    }
}

/// The big-endian number that `bytes` spell.
pub open spec fn be_value(bytes: Seq<u8>) -> nat {
    digits_value(bytes, 256)
}

/// The timestamp index in a block's header.
pub open spec fn header_t(block: Seq<u8>) -> nat {
    be_value(block.subrange(0, 8))
}

/// The value index in a block's header.
pub open spec fn header_v(block: Seq<u8>) -> nat {
    be_value(block.subrange(8, 16))
}

/// The decoder's state after the header and the tokens before `o`.
pub open spec fn decode_to(block: Seq<u8>, o: int) -> DecodeState {
    decode(
        DecodeState {
            t: header_t(block) as int,
            v: header_v(block) as int,
            partial: 0,
            count: 0,
            out: Seq::empty(),
        },
        block.subrange(16, o),
    )
}

/// The changes a block decodes to, as `(timestamp index, value index)`.
pub open spec fn block_changes(block: Seq<u8>) -> Seq<(int, int)> {
    decode_to(block, 512).out
}

/// Whether both indices of a change fit in `usize`.
pub open spec fn fits(p: (int, int)) -> bool {
    0 <= p.0 <= usize::MAX && 0 <= p.1 <= usize::MAX
}

pub open spec fn to_index(p: (int, int)) -> WaveformHistoryIndex {
    WaveformHistoryIndex { timestamp_index: p.0 as usize, value_index: p.1 as usize }
}

pub open spec fn index_pair(i: WaveformHistoryIndex) -> (int, int) {
    (i.timestamp_index as int, i.value_index as int)
}

/// The changes up to the first whose indices do not fit in `usize`.
pub open spec fn fitting(s: Seq<(int, int)>) -> Seq<WaveformHistoryIndex>
    decreases s.len(),
{
    if s.len() == 0 || !fits(s[0]) {
        Seq::empty()
    } else {
        seq![to_index(s[0])] + fitting(s.drop_first())
    }
}

/// How many leading changes a seek to `t` passes: up to and including the
/// first at `t`, stopping before the first after `t`.
pub open spec fn seek_count(s: Seq<WaveformHistoryIndex>, t: int) -> nat
    decreases s.len(),
{
    if s.len() == 0 || s[0].timestamp_index > t {
        0
    } else if s[0].timestamp_index == t {
        1
    } else {
        1 + seek_count(s.drop_first(), t)
    }
}

pub proof fn lemma_decode_to_step(block: Seq<u8>, o: int)
    requires
        16 <= o < block.len(),
    ensures
        decode_to(block, o + 1) == step(decode_to(block, o), block[o]),
{
    assert(block.subrange(16, o + 1).drop_last() =~= block.subrange(16, o));
}

/// The output only grows, and the state stays within bounds.
pub proof fn lemma_decode_grows(block: Seq<u8>, o: int, e: int)
    requires
        16 <= o <= e <= block.len(),
    ensures
        decode_to(block, e).out.len() >= decode_to(block, o).out.len(),
        decode_to(block, e).out.subrange(0, decode_to(block, o).out.len() as int) == decode_to(
            block,
            o,
        ).out,
    decreases e - o,
{
    if e > o {
        lemma_decode_grows(block, o, e - 1);
        lemma_decode_to_step(block, e - 1);
        let a = decode_to(block, o).out;
        let b = decode_to(block, e - 1).out;
        let c = decode_to(block, e).out;
        assert(c.subrange(0, b.len() as int) =~= b);
        assert(c.subrange(0, a.len() as int) =~= b.subrange(0, a.len() as int));
    } else {
        assert(decode_to(block, e).out.subrange(0, decode_to(block, o).out.len() as int)
            =~= decode_to(block, o).out);
    }
}

/// Bounds on the decoder's state: the skip digits never pass 56 bits and
/// each byte advances the indices by a bounded amount.
pub proof fn lemma_decode_bounds(block: Seq<u8>, o: int)
    requires
        16 <= o <= block.len(),
    ensures
        0 <= decode_to(block, o).count < 8,
        0 <= decode_to(block, o).partial < exp2(7 * decode_to(block, o).count as nat),
        header_t(block) <= decode_to(block, o).t <= header_t(block) + (o - 16)
            * 0x200_0000_0000_0000,
        header_v(block) <= decode_to(block, o).v <= header_v(block) + (o - 16) * 128,
    decreases o,
{
    if o > 16 {
        lemma_decode_bounds(block, o - 1);
        lemma_decode_to_step(block, o - 1);
        let s = decode_to(block, o - 1);
        lemma_exp2_values();
        lemma_exp2_le(7 * s.count as nat, 49);
        lemma_exp2_add7(7 * s.count as nat);
        lemma_exp2_le(49, 57);
        lemma_exp2_le(7 * (s.count + 1) as nat, 56);
        lemma_exp2_le(56, 57);
    } else {
        assert(block.subrange(16, o).len() == 0);
    }
}

proof fn lemma_exp2_le(a: nat, b: nat)
    requires
        a <= b,
    ensures
        exp2(a) <= exp2(b),
    decreases b,
{
    if a < b {
        lemma_exp2_le(a, (b - 1) as nat);
    }
}

proof fn lemma_exp2_add7(a: nat)
    ensures
        exp2(a + 7) == 128 * exp2(a),
{
    reveal_with_fuel(exp2, 8);
}

pub proof fn lemma_exp2_values()
    ensures
        exp2(8) == 256,
        exp2(56) == 0x100_0000_0000_0000,
        exp2(57) == 0x200_0000_0000_0000,
        exp2(64) == 0x1_0000_0000_0000_0000,
{
    reveal_with_fuel(exp2, 65);
}

proof fn lemma_be_value_bound(bytes: Seq<u8>)
    ensures
        be_value(bytes) < exp2(8 * bytes.len()),
    decreases bytes.len(),
{
    if bytes.len() > 0 {
        assert(be_value(bytes) == be_value(bytes.drop_last()) * 256 + bytes.last());
        lemma_be_value_bound(bytes.drop_last());
        lemma_exp2_add8((8 * (bytes.len() - 1)) as nat);
    }
}

proof fn lemma_exp2_add8(a: nat)
    ensures
        exp2(a + 8) == 256 * exp2(a),
{
    reveal_with_fuel(exp2, 9);
}

/// The header fields are below `2^64`.
pub proof fn lemma_header_bounds(block: Seq<u8>)
    requires
        block.len() >= 16,
    ensures
        header_t(block) < 0x1_0000_0000_0000_0000,
        header_v(block) < 0x1_0000_0000_0000_0000,
{
    lemma_be_value_bound(block.subrange(0, 8));
    lemma_be_value_bound(block.subrange(8, 16));
    lemma_exp2_values();
}

/// The big-endian number in `bytes[at .. at + 8]`.
pub fn read_be_u64(bytes: &[u8], at: usize) -> (r: u64)
    requires
        at <= 8,
        bytes@.len() >= 16,
    ensures
        r == be_value(bytes@.subrange(at as int, at + 8)),
{
    let mut r: u64 = 0;
    let mut i: usize = at;
    let end = at + 8;
    proof {
        lemma_exp2_values();
    }
    while i < end
        invariant
            end == at + 8,
            at <= i <= at + 8,
            at + 8 <= bytes@.len(),
            r == be_value(bytes@.subrange(at as int, i as int)),
            exp2(64) == 0x1_0000_0000_0000_0000,
        decreases at + 8 - i,
    {
        proof {
            let s = bytes@.subrange(at as int, i + 1);
            assert(s.drop_last() =~= bytes@.subrange(at as int, i as int));
            lemma_be_value_bound(s);
            lemma_exp2_le(8 * s.len(), 64);
        }
        r = r * 256 + bytes[i] as u64;
        i = i + 1;
    }
    r
}

/// A view of one 512-byte block.
#[derive(Clone, Copy)]
pub struct WaveformHistoryBlock<'a> {
    block: &'a [u8],
}

/// Where a decoder stands in a block's token stream.
#[derive(Clone, Copy)]
struct Decoder {
    t: u128,
    v: u128,
    offset: usize,
    consumed: usize,
    done: bool,
}

impl Decoder {
    /// The state matches the fold of the bytes before `offset`.
    spec fn inv(&self, block: Seq<u8>) -> bool {
        let d = decode_to(block, self.offset as int);
        &&& block.len() == 512
        &&& 16 <= self.offset <= 512
        &&& !self.done ==> if self.consumed == 0 {
            &&& d.partial == 0
            &&& d.count == 0
            &&& self.t == d.t
            &&& self.v == d.v
        } else {
            &&& self.offset < 512
            &&& block[self.offset as int] >= 128
            &&& self.consumed < block[self.offset as int] - 127
            &&& self.t == d.t + d.partial + self.consumed
            &&& self.v == d.v + self.consumed
        }
    }

    /// How many changes were handed out.
    spec fn position(&self, block: Seq<u8>) -> int {
        decode_to(block, self.offset as int).out.len() + self.consumed
    }

    /// The changes still to come.
    spec fn remaining(&self, block: Seq<u8>) -> Seq<(int, int)> {
        if self.done {
            Seq::empty()
        } else {
            block_changes(block).subrange(self.position(block), block_changes(block).len() as int)
        }
    }

    spec fn view_in(&self, block: Seq<u8>) -> Seq<WaveformHistoryIndex> {
        fitting(self.remaining(block))
    }

    fn start(block: &[u8]) -> (r: Decoder)
        requires
            block@.len() == 512,
        ensures
            r.inv(block@),
            r.position(block@) == 0,
            !r.done,
    {
        proof {
            lemma_header_bounds(block@);
            assert(block@.subrange(16, 16).len() == 0);
        }
        Decoder {
            t: read_be_u64(block, 0) as u128,
            v: read_be_u64(block, 8) as u128,
            offset: 16,
            consumed: 0,
            done: false,
        }
    }

    /// Whether the decoder stands inside the run of the change byte at
    /// `offset`, with `consumed` of its changes handed out.
    spec fn at_change(&self, block: Seq<u8>) -> bool {
        let d = decode_to(block, self.offset as int);
        &&& block.len() == 512
        &&& 16 <= self.offset < 512
        &&& !self.done
        &&& block[self.offset as int] >= 128
        &&& self.consumed < block[self.offset as int] - 127
        &&& self.t == d.t + d.partial + self.consumed
        &&& self.v == d.v + self.consumed
    }

    /// The next change, or `None` at the end of the block or at the first
    /// change whose indices do not fit in `usize`.
    fn next(&mut self, block: &[u8]) -> (r: Option<WaveformHistoryIndex>)
        requires
            old(self).inv(block@),
        ensures
            final(self).inv(block@),
            old(self).view_in(block@).len() > 0 ==> {
                &&& r == Some(old(self).view_in(block@)[0])
                &&& final(self).view_in(block@) == old(self).view_in(block@).drop_first()
            },
            old(self).view_in(block@).len() == 0 ==> {
                &&& r is None
                &&& final(self).view_in(block@).len() == 0
            },
    {
        if self.done {
            return None;
        }
        if self.consumed == 0 {
            let ghost o = self.offset as int;
            let (i, skips) = scan_skips(block, self.offset);
            if i >= BLOCK_SIZE {
                // Trailing skip digits: no change follows in this block.
                self.done = true;
                proof {
                    lemma_decode_grows(block@, o, 512);
                    assert(fitting(old(self).remaining(block@)) =~= Seq::<WaveformHistoryIndex>::empty());
                }
                return None;
            }
            proof {
                lemma_decode_bounds(block@, o);
                lemma_header_bounds(block@);
            }
            self.offset = i;
            self.t = self.t + skips;
        }
        self.take_change(block)
    }

    fn take_change(&mut self, block: &[u8]) -> (r: Option<WaveformHistoryIndex>)
        requires
            old(self).at_change(block@),
        ensures
            final(self).inv(block@),
            old(self).view_in(block@).len() > 0 ==> {
                &&& r == Some(old(self).view_in(block@)[0])
                &&& final(self).view_in(block@) == old(self).view_in(block@).drop_first()
            },
            old(self).view_in(block@).len() == 0 ==> {
                &&& r is None
                &&& final(self).view_in(block@).len() == 0
            },
    {
        let ghost b = block@;
        let ghost full = block_changes(b);
        let ghost o = self.offset as int;
        let ghost d = decode_to(b, o);
        let ghost pos = self.position(b);
        proof {
            lemma_decode_to_step(b, o);
            lemma_decode_bounds(b, o);
            lemma_decode_grows(b, o + 1, 512);
            lemma_header_bounds(b);
            lemma_exp2_values();
            let n = (b[o] - 127) as nat;
            let d1 = decode_to(b, o + 1);
            assert(d1.out == d.out + run(d.t + d.partial, d.v, n));
            assert(full.subrange(0, d1.out.len() as int) == d1.out);
            assert(full[pos] == d1.out[pos]);
            let rem = old(self).remaining(b);
            assert(rem.len() > 0);
            assert(rem[0] == full[pos]);
            assert(rem[0] == (self.t as int, self.v as int));
        }
        let result_t = self.t;
        let result_v = self.v;
        if result_t > usize::MAX as u128 || result_v > usize::MAX as u128 {
            self.done = true;
            proof {
                assert(fitting(old(self).remaining(b)) =~= Seq::<WaveformHistoryIndex>::empty());
            }
            return None;
        }
        let total = (block[self.offset] - 127) as usize;
        self.t = self.t + 1;
        self.v = self.v + 1;
        self.consumed = self.consumed + 1;
        if self.consumed == total {
            self.offset = self.offset + 1;
            self.consumed = 0;
        }
        proof {
            let rem = old(self).remaining(b);
            assert(self.position(b) == pos + 1);
            assert(self.remaining(b) =~= rem.drop_first());
            assert(fitting(rem) == seq![to_index(rem[0])] + fitting(rem.drop_first()));
        }
        Some(WaveformHistoryIndex { timestamp_index: result_t as usize, value_index: result_v as usize })
    }
}

impl Decoder {
    /// Moves past the changes up to `timestamp_index` and returns the last
    /// one passed: stops after a change at `timestamp_index`, or before the
    /// first change after it.
    fn seek(&mut self, block: &[u8], timestamp_index: usize) -> (r: Option<WaveformHistoryIndex>)
        requires
            old(self).inv(block@),
        ensures
            final(self).inv(block@),
            ({
                let v = old(self).view_in(block@);
                let k = seek_count(v, timestamp_index as int);
                &&& r == if k > 0 {
                    Some(v[k - 1])
                } else {
                    None
                }
                &&& final(self).view_in(block@) == v.skip(k as int)
            }),
    {
        let ghost v0 = self.view_in(block@);
        let ghost t = timestamp_index as int;
        let ghost mut j: int = 0;
        let mut last: Option<WaveformHistoryIndex> = None;
        proof {
            assert(v0.skip(0) =~= v0);
        }
        loop
            invariant
                self.inv(block@),
                t == timestamp_index as int,
                v0 == old(self).view_in(block@),
                0 <= j <= v0.len(),
                self.view_in(block@) == v0.skip(j),
                seek_count(v0, t) == j + seek_count(v0.skip(j), t),
                last == if j > 0 {
                    Some(v0[j - 1])
                } else {
                    None
                },
                forall|m: int| 0 <= m < j ==> v0[m].timestamp_index < t,
            decreases v0.len() - j,
        {
            let saved = *self;
            let ghost s = v0.skip(j);
            match self.next(block) {
                None => {
                    *self = saved;
                    proof {
                        assert(s.len() == 0);
                        assert(seek_count(s, t) == 0);
                        assert(self.view_in(block@) == v0.skip(j));
                    }
                    return last;
                },
                Some(index) => {
                    proof {
                        assert(s.len() > 0);
                        assert(index == s[0]);
                        assert(s[0] == v0[j]);
                        assert(s.drop_first() =~= v0.skip(j + 1));
                    }
                    if index.timestamp_index > timestamp_index {
                        *self = saved;
                        proof {
                            assert(s[0].timestamp_index > t);
                            assert(seek_count(s, t) == 0);
                        }
                        return last;
                    } else if index.timestamp_index == timestamp_index {
                        proof {
                            assert(seek_count(s, t) == 1);
                        }
                        return Some(index);
                    }
                    proof {
                        assert(seek_count(s, t) == 1 + seek_count(v0.skip(j + 1), t));
                    }
                    last = Some(index);
                    proof {
                        j = j + 1;
                    }
                },
            }
        }
    }
}

/// Skips the skip digits from `o`: the offset of the next change byte (or
/// the block's end) and the skip they add up to.
fn scan_skips(block: &[u8], o: usize) -> (r: (usize, u128))
    requires
        block@.len() == 512,
        16 <= o <= 512,
        decode_to(block@, o as int).partial == 0,
        decode_to(block@, o as int).count == 0,
    ensures
        o <= r.0 <= 512,
        r.0 < 512 ==> block@[r.0 as int] >= 128,
        r.1 <= 512 * 0x100_0000_0000_0000,
        decode_to(block@, r.0 as int).v == decode_to(block@, o as int).v,
        decode_to(block@, r.0 as int).out == decode_to(block@, o as int).out,
        decode_to(block@, r.0 as int).t + decode_to(block@, r.0 as int).partial == decode_to(
            block@,
            o as int,
        ).t + r.1,
{
    let ghost b = block@;
    let ghost d0 = decode_to(b, o as int);
    let mut skips: u128 = 0;
    let mut partial: u128 = 0;
    let mut count: usize = 0;
    let mut i = o;
    while i < BLOCK_SIZE && block[i] < 128
        invariant
            o <= i <= 512,
            b == block@,
            b.len() == 512,
            16 <= o,
            ({
                let d = decode_to(b, i as int);
                &&& d.t == d0.t + skips
                &&& d.v == d0.v
                &&& d.partial == partial
                &&& d.count == count
                &&& d.out == d0.out
            }),
            skips <= (i - o) * 0x100_0000_0000_0000,
            partial < 0x100_0000_0000_0000,
        decreases 512 - i,
    {
        proof {
            lemma_decode_to_step(b, i as int);
            lemma_decode_bounds(b, i as int);
            lemma_exp2_le(7 * count as nat, 49);
            lemma_exp2_add7(7 * count as nat);
            lemma_exp2_le(7 * (count + 1) as nat, 56);
            lemma_exp2_values();
        }
        partial = partial * 128 + block[i] as u128;
        count = count + 1;
        if count == 8 {
            skips = skips + partial;
            partial = 0;
            count = 0;
        }
        i = i + 1;
    }
    (i, skips + partial)
}

impl<'a> View for WaveformHistoryBlock<'a> {
    type V = Seq<u8>;

    closed spec fn view(&self) -> Seq<u8> {
        self.block@
    }
}

impl<'a> WaveformHistoryBlock<'a> {
    /// A view of `block`, which holds one block.
    pub fn new(block: &'a [u8]) -> (r: Self)
        requires
            block@.len() == BLOCK_SIZE,
        ensures
            r@ == block@,
    {
        WaveformHistoryBlock { block }
    }

    /// The timestamp index of the block's first change.
    pub fn get_timestamp_index(&self) -> (r: usize)
        requires
            self@.len() == BLOCK_SIZE,
            header_t(self@) <= usize::MAX,
        ensures
            r == header_t(self@),
    {
        read_be_u64(self.block, 0) as usize
    }

    /// The value index of the block's first change.
    pub fn get_value_index(&self) -> (r: usize)
        requires
            self@.len() == BLOCK_SIZE,
            header_v(self@) <= usize::MAX,
        ensures
            r == header_v(self@),
    {
        read_be_u64(self.block, 8) as usize
    }

    /// The indices of the block's first change, from its header.
    pub fn get_index(&self) -> (r: WaveformHistoryIndex)
        requires
            self@.len() == BLOCK_SIZE,
            header_t(self@) <= usize::MAX,
            header_v(self@) <= usize::MAX,
        ensures
            r.timestamp_index == header_t(self@),
            r.value_index == header_v(self@),
    {
        WaveformHistoryIndex {
            timestamp_index: self.get_timestamp_index(),
            value_index: self.get_value_index(),
        }
    }

    /// An iterator over the block's changes that borrows the block.
    pub fn iter(&'a self) -> (r: WaveformHistoryBlockRefIter<'a>)
        requires
            self@.len() == BLOCK_SIZE,
        ensures
            r.wf(),
            r@ == fitting(block_changes(self@)),
    {
        let dec = Decoder::start(self.block);
        proof {
            assert(block_changes(self@).subrange(0, block_changes(self@).len() as int)
                =~= block_changes(self@));
        }
        WaveformHistoryBlockRefIter { block: self, dec }
    }

    /// An iterator over the block's changes.
    pub fn into_iter(self) -> (r: WaveformHistoryBlockIter<'a>)
        requires
            self@.len() == BLOCK_SIZE,
        ensures
            r.wf(),
            r.spec_block() == self@,
            r@ == fitting(block_changes(self@)),
    {
        let dec = Decoder::start(self.block);
        proof {
            assert(block_changes(self@).subrange(0, block_changes(self@).len() as int)
                =~= block_changes(self@));
        }
        WaveformHistoryBlockIter { block: self, dec }
    }
}

/// The changes of a block, borrowing the block.
pub struct WaveformHistoryBlockRefIter<'a> {
    block: &'a WaveformHistoryBlock<'a>,
    dec: Decoder,
}

impl<'a> View for WaveformHistoryBlockRefIter<'a> {
    type V = Seq<WaveformHistoryIndex>;

    /// The changes still to come.
    closed spec fn view(&self) -> Seq<WaveformHistoryIndex> {
        self.dec.view_in(self.block@)
    }
}

impl<'a> WaveformHistoryBlockRefIter<'a> {
    /// Whether the iterator is usable: true of every iterator made by
    /// `WaveformHistoryBlock::iter` and kept by `next` and `seek`.
    pub closed spec fn wf(&self) -> bool {
        self.dec.inv(self.block@)
    }

    /// The next change, or `None` after the last.
    pub fn next(&mut self) -> (r: Option<WaveformHistoryIndex>)
        requires
            old(self).wf(),
        ensures
            final(self).wf(),
            r == if old(self)@.len() > 0 {
                Some(old(self)@[0])
            } else {
                None::<WaveformHistoryIndex>
            },
            final(self)@ == if old(self)@.len() > 0 {
                old(self)@.drop_first()
            } else {
                Seq::empty()
            },
    {
        let r = self.dec.next(self.block.block);
        proof {
            if old(self)@.len() == 0 {
                assert(self@ =~= Seq::<WaveformHistoryIndex>::empty());
            }
        }
        r
    }

    /// The change at or right before `timestamp_index`, or `None` when
    /// every remaining change comes after it; the iterator then stands
    /// right after the returned change.
    pub fn seek(&mut self, timestamp_index: usize) -> (r: Option<WaveformHistoryIndex>)
        requires
            old(self).wf(),
        ensures
            final(self).wf(),
            ({
                let k = seek_count(old(self)@, timestamp_index as int);
                &&& r == if k > 0 {
                    Some(old(self)@[k - 1])
                } else {
                    None
                }
                &&& final(self)@ == old(self)@.skip(k as int)
            }),
    {
        self.dec.seek(self.block.block, timestamp_index)
    }

    /// The remaining changes, in order.
    pub fn to_vec(self) -> (r: Vec<WaveformHistoryIndex>)
        requires
            self.wf(),
        ensures
            r@ == self@,
    {
        let ghost all = self@;
        let mut it = self;
        let mut out: Vec<WaveformHistoryIndex> = Vec::new();
        loop
            invariant
                it.wf(),
                all == self@,
                all == out@ + it@,
            decreases it@.len(),
        {
            match it.next() {
                Some(index) => {
                    out.push(index);
                    proof {
                        assert(all =~= out@ + it@);
                    }
                },
                None => {
                    proof {
                        assert(all =~= out@);
                    }
                    return out;
                },
            }
        }
    }
}

/// The changes of a block, holding the block view.
#[derive(Clone, Copy)]
pub struct WaveformHistoryBlockIter<'a> {
    block: WaveformHistoryBlock<'a>,
    dec: Decoder,
}

impl<'a> View for WaveformHistoryBlockIter<'a> {
    type V = Seq<WaveformHistoryIndex>;

    /// The changes still to come.
    closed spec fn view(&self) -> Seq<WaveformHistoryIndex> {
        self.dec.view_in(self.block@)
    }
}

impl<'a> WaveformHistoryBlockIter<'a> {
    /// The bytes of the block iterated over.
    pub closed spec fn spec_block(&self) -> Seq<u8> {
        self.block@
    }

    /// Whether the iterator is usable: true of every iterator made by
    /// `WaveformHistoryBlock::into_iter` and kept by `next` and `seek`.
    pub closed spec fn wf(&self) -> bool {
        self.dec.inv(self.block@)
    }

    /// The next change, or `None` after the last.
    pub fn next(&mut self) -> (r: Option<WaveformHistoryIndex>)
        requires
            old(self).wf(),
        ensures
            final(self).wf(),
            final(self).spec_block() == old(self).spec_block(),
            r == if old(self)@.len() > 0 {
                Some(old(self)@[0])
            } else {
                None::<WaveformHistoryIndex>
            },
            final(self)@ == if old(self)@.len() > 0 {
                old(self)@.drop_first()
            } else {
                Seq::empty()
            },
    {
        let r = self.dec.next(self.block.block);
        proof {
            if old(self)@.len() == 0 {
                assert(self@ =~= Seq::<WaveformHistoryIndex>::empty());
            }
        }
        r
    }

    /// The change at or right before `timestamp_index`, or `None` when
    /// every remaining change comes after it; the iterator then stands
    /// right after the returned change.
    pub fn seek(&mut self, timestamp_index: usize) -> (r: Option<WaveformHistoryIndex>)
        requires
            old(self).wf(),
        ensures
            final(self).wf(),
            final(self).spec_block() == old(self).spec_block(),
            ({
                let k = seek_count(old(self)@, timestamp_index as int);
                &&& r == if k > 0 {
                    Some(old(self)@[k - 1])
                } else {
                    None
                }
                &&& final(self)@ == old(self)@.skip(k as int)
            }),
    {
        self.dec.seek(self.block.block, timestamp_index)
    }
}

} // verus!
