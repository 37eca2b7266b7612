//! Writing changes into the last block of a history.
use vstd::prelude::*;

use crate::history::block::{
    decode_to, digits_value, header_t, header_v, lemma_decode_to_step, run, DecodeState,
    BLOCK_SIZE, HEADER_SIZE,
};

verus! {

/// `base` to the power `k`.
pub open spec fn pow_nat(base: nat, k: nat) -> nat
    decreases k,
{
    if k == 0 {
        1
    } else {
        base * pow_nat(base, (k - 1) as nat)
    }
}

/// How many base-`base` digits `x` takes without leading zeros (one for
/// zero).
pub open spec fn digit_count(x: nat, base: nat) -> nat
    decreases x,
    via digit_count_decreases
{
    if base < 2 || x < base {
        1
    } else {
        1 + digit_count(x / base, base)
    }
}

#[via_fn]
proof fn digit_count_decreases(x: nat, base: nat) {
    if !(base < 2 || x < base) {
        assert(x / base < x) by (nonlinear_arith)
            requires
                base >= 2,
                x >= base,
        ;
    }
}

/// The largest skip that eight base-128 digits hold, plus one.
pub open spec fn skip_limit() -> nat {
    0x100_0000_0000_0000
}

/// A number fits in `k` digits exactly when it is below `base` to the `k`.
proof fn lemma_digit_count_bound(x: nat, base: nat, k: nat)
    requires
        base >= 2,
        k >= 1,
    ensures
        (digit_count(x, base) <= k) == (x < pow_nat(base, k)),
    decreases x,
{
    lemma_pow_monotonic(base, 1, k);
    assert(pow_nat(base, 0) == 1);
    assert(pow_nat(base, 1) == base * pow_nat(base, 0));
    assert(base * 1 == base);
    if x >= base {
        let q = x / base;
        assert(q < x) by (nonlinear_arith)
            requires
                base >= 2,
                x >= base,
                q == x / base,
        ;
        if k == 1 {
            assert(digit_count(q, base) >= 1);
        } else {
            lemma_digit_count_bound(q, base, (k - 1) as nat);
            let p = pow_nat(base, (k - 1) as nat);
            assert(pow_nat(base, k) == base * p);
            assert((q < p) == (x < base * p)) by (nonlinear_arith)
                requires
                    base >= 2,
                    q == x / base,
            ;
        }
    }
}

/// A skip fits in eight base-128 digits exactly when it is below `2^56`.
pub proof fn lemma_skip_digits_fit(x: nat)
    ensures
        (digit_count(x, 128) <= 8) == (x < skip_limit()),
{
    lemma_digit_count_bound(x, 128, 8);
    reveal_with_fuel(pow_nat, 9);
}

/// Whether `b`, the last block of a history, ends at `offset` with a change
/// byte, has only zero bytes after it, and decodes up to `offset` to the
/// given indices and changes, with no skip digits pending.
pub open spec fn tail_ok(b: Seq<u8>, offset: int, t: int, v: int, out: Seq<(int, int)>) -> bool {
    &&& b.len() == 512
    &&& 17 <= offset <= 512
    &&& forall|i: int| offset <= i < 512 ==> b[i] == 0
    &&& b[offset - 1] >= 128
    &&& decode_to(b, offset) == DecodeState { t, v, partial: 0, count: 0, out }
}

/// The last block of `blocks`.
pub open spec fn last_block(blocks: Seq<u8>) -> Seq<u8> {
    blocks.subrange(blocks.len() - 512, blocks.len() as int)
}

proof fn lemma_digits_prepend(d: u8, ds: Seq<u8>, base: nat)
    ensures
        digits_value(seq![d] + ds, base) == d * pow_nat(base, ds.len()) + digits_value(ds, base),
    decreases ds.len(),
{
    let all = seq![d] + ds;
    if ds.len() == 0 {
        assert(all.drop_last() =~= Seq::<u8>::empty());
        assert(all.last() == d);
        assert(digits_value(all, base) == digits_value(all.drop_last(), base) * base + d);
        assert(0 * base == 0) by (nonlinear_arith);
        assert(pow_nat(base, 0) == 1);
        assert(d * pow_nat(base, 0) == d * 1);
    } else {
        assert(all.drop_last() =~= seq![d] + ds.drop_last());
        assert(all.last() == ds.last());
        lemma_digits_prepend(d, ds.drop_last(), base);
        let p = pow_nat(base, (ds.len() - 1) as nat);
        let w = digits_value(ds.drop_last(), base);
        assert(digits_value(all, base) == digits_value(all.drop_last(), base) * base + all.last());
        assert(digits_value(ds, base) == w * base + ds.last());
        assert(pow_nat(base, ds.len()) == base * p);
        assert((d * p + w) * base + ds.last() == d * (base * p) + (w * base + ds.last()))
            by (nonlinear_arith);
        assert(d * pow_nat(base, ds.len()) == d * (base * p));
    }
}

/// Two blocks that agree on their bytes before `o` decode alike up to `o`.
pub proof fn lemma_decode_prefix(b1: Seq<u8>, b2: Seq<u8>, o: int)
    requires
        16 <= o <= b1.len(),
        o <= b2.len(),
        b1.subrange(0, o) == b2.subrange(0, o),
    ensures
        decode_to(b1, o) == decode_to(b2, o),
{
    assert(b1.subrange(0, 8) =~= b1.subrange(0, o).subrange(0, 8));
    assert(b2.subrange(0, 8) =~= b2.subrange(0, o).subrange(0, 8));
    assert(b1.subrange(8, 16) =~= b1.subrange(0, o).subrange(8, 16));
    assert(b2.subrange(8, 16) =~= b2.subrange(0, o).subrange(8, 16));
    assert(b1.subrange(16, o) =~= b1.subrange(0, o).subrange(16, o));
    assert(b2.subrange(16, o) =~= b2.subrange(0, o).subrange(16, o));
}

/// Skip digits do not add changes.
pub proof fn lemma_skips_keep_out(b: Seq<u8>, o: int, e: int)
    requires
        16 <= o <= e <= b.len(),
        forall|i: int| o <= i < e ==> b[i] < 128,
    ensures
        decode_to(b, e).out == decode_to(b, o).out,
    decreases e - o,
{
    if e > o {
        lemma_skips_keep_out(b, o, e - 1);
        lemma_decode_to_step(b, e - 1);
    }
}

/// The base-`base` digits of `x`, most significant first, without leading
/// zeros (one digit for zero).
fn to_digits(x: u64, base: u64) -> (r: Vec<u8>)
    requires
        base == 128 || base == 256,
    ensures
        r@.len() >= 1,
        x == 0 ==> r@.len() == 1,
        digits_value(r@, base as nat) == x,
        forall|i: int| 0 <= i < r@.len() ==> r@[i] < base,
        x > 0 ==> pow_nat(base as nat, (r@.len() - 1) as nat) <= x,
        r@.len() == digit_count(x as nat, base as nat),
{
    let mut d: Vec<u8> = Vec::new();
    let mut rest = x;
    proof {
        assert(pow_nat(base as nat, 0) == 1);
        assert(digits_value(d@, base as nat) == 0);
        assert(x == x * 1 + 0);
    }
    loop
        invariant_except_break
            d@.len() > 0 ==> rest > 0,
            x == 0 ==> d@.len() == 0,
            d@.len() + digit_count(rest as nat, base as nat) == digit_count(x as nat, base as nat),
        invariant
            base == 128 || base == 256,
            x == rest * pow_nat(base as nat, d@.len()) + digits_value(d@, base as nat),
            forall|i: int| 0 <= i < d@.len() ==> d@[i] < base,
            rest > 0 ==> pow_nat(base as nat, d@.len()) <= x,
            d@.len() > 0 ==> rest > 0 || x == 0 || pow_nat(base as nat, (d@.len() - 1) as nat) <= x,
            d@.len() == 0 ==> rest == x,
            pow_nat(base as nat, d@.len()) >= 1,
        ensures
            rest == 0,
            d@.len() >= 1,
            x == 0 ==> d@.len() == 1,
            x == digits_value(d@, base as nat),
            forall|i: int| 0 <= i < d@.len() ==> d@[i] < base,
            x > 0 ==> pow_nat(base as nat, (d@.len() - 1) as nat) <= x,
            d@.len() == digit_count(x as nat, base as nat),
        decreases rest,
    {
        let digit = (rest % base) as u8;
        let q = rest / base;
        let ghost p = pow_nat(base as nat, d@.len());
        let ghost old_d = d@;
        proof {
            if rest >= base {
                assert(digit_count(rest as nat, base as nat) == 1 + digit_count(q as nat, base as nat));
                assert(q > 0) by (nonlinear_arith)
                    requires
                        rest >= base,
                        q == rest / base,
                        base >= 1,
                ;
            } else {
                assert(digit_count(rest as nat, base as nat) == 1);
                assert(q == 0);
            }
            lemma_digits_prepend(digit, d@, base as nat);
            assert(rest == q * base + digit);
            assert(rest * p == q * (base * p) + digit * p) by (nonlinear_arith)
                requires
                    rest == q * base + digit,
            ;
            assert(q > 0 ==> base * p <= q * (base * p)) by (nonlinear_arith)
                requires
                    p >= 1,
            ;
            assert(rest > 0 ==> p <= rest * p) by (nonlinear_arith)
                requires
                    p >= 1,
            ;
            assert(base * p >= 1) by (nonlinear_arith)
                requires
                    p >= 1,
                    base >= 1,
            ;
        }
        d.insert(0, digit);
        rest = q;
        proof {
            assert(d@ == seq![digit] + old_d);
            assert(pow_nat(base as nat, d@.len()) == base * p);
            assert(x > 0 ==> p <= x);
            assert(rest == 0 ==> x == digits_value(d@, base as nat)) by (nonlinear_arith)
                requires
                    x == rest * (base * p) + digits_value(d@, base as nat),
            ;
        }
        if rest == 0 {
            break ;
        }
    }
    d
}

proof fn lemma_leading_zeros(k: nat, ds: Seq<u8>, base: nat)
    ensures
        digits_value(Seq::new(k, |i: int| 0u8) + ds, base) == digits_value(ds, base),
    decreases k,
{
    if k > 0 {
        let z = Seq::new(k, |i: int| 0u8);
        let z1 = Seq::new((k - 1) as nat, |i: int| 0u8);
        assert(z + ds =~= seq![0u8] + (z1 + ds));
        lemma_digits_prepend(0, z1 + ds, base);
        lemma_leading_zeros((k - 1) as nat, ds, base);
    }
}

proof fn lemma_pow_monotonic(base: nat, a: nat, b: nat)
    requires
        base >= 1,
        a <= b,
    ensures
        pow_nat(base, a) <= pow_nat(base, b),
    decreases b,
{
    if a < b {
        lemma_pow_monotonic(base, a, (b - 1) as nat);
        assert(pow_nat(base, (b - 1) as nat) <= base * pow_nat(base, (b - 1) as nat))
            by (nonlinear_arith)
            requires
                base >= 1,
        ;
    }
}

proof fn lemma_pow_256_8()
    ensures
        pow_nat(256, 8) == 0x1_0000_0000_0000_0000,
{
    reveal_with_fuel(pow_nat, 9);
}

/// Appends `d` after as many zero bytes as bring it to `width` bytes.
pub fn push_padded(blocks: &mut Vec<u8>, d: &Vec<u8>, width: usize)
    requires
        d@.len() <= width,
        old(blocks)@.len() + width <= usize::MAX,
    ensures
        final(blocks)@ == old(blocks)@ + Seq::new((width - d@.len()) as nat, |i: int| 0u8) + d@,
{
    let ghost start = blocks@;
    let pad = width - d.len();
    let mut i: usize = 0;
    while i < pad
        invariant
            i <= pad,
            pad == width - d@.len(),
            start.len() + width <= usize::MAX,
            blocks@ == start + Seq::new(i as nat, |j: int| 0u8),
        decreases pad - i,
    {
        blocks.push(0);
        i = i + 1;
        proof {
            assert(blocks@ =~= start + Seq::new(i as nat, |j: int| 0u8));
        }
    }
    let ghost mid = blocks@;
    let mut k: usize = 0;
    while k < d.len()
        invariant
            k <= d@.len(),
            mid.len() + d@.len() <= usize::MAX,
            blocks@ == mid + d@.subrange(0, k as int),
        decreases d@.len() - k,
    {
        blocks.push(d[k]);
        k = k + 1;
        proof {
            assert(blocks@ =~= mid + d@.subrange(0, k as int));
        }
    }
    proof {
        assert(d@.subrange(0, d@.len() as int) =~= d@);
    }
}

/// The eight big-endian bytes of `x`.
fn be_bytes(x: usize) -> (r: Vec<u8>)
    ensures
        r@.len() == 8,
        digits_value(r@, 256) == x,
{
    let d = to_digits(x as u64, 256);
    proof {
        lemma_pow_256_8();
        if d@.len() >= 9 {
            lemma_pow_monotonic(256, 8, (d@.len() - 1) as nat);
            assert(x < 0x1_0000_0000_0000_0000);
        }
    }
    let mut r: Vec<u8> = Vec::new();
    push_padded(&mut r, &d, 8);
    proof {
        lemma_leading_zeros((8 - d@.len()) as nat, d@, 256);
        assert(r@ =~= Seq::new((8 - d@.len()) as nat, |i: int| 0u8) + d@);
    }
    r
}

/// Appends a block whose header is `(t, v)` and whose first token is one
/// change.
pub fn push_block(blocks: &mut Vec<u8>, t: usize, v: usize)
    requires
        old(blocks)@.len() + BLOCK_SIZE <= usize::MAX,
    ensures
        final(blocks)@.len() == old(blocks)@.len() + BLOCK_SIZE,
        final(blocks)@.subrange(0, old(blocks)@.len() as int) == old(blocks)@,
        header_t(last_block(final(blocks)@)) == t,
        header_v(last_block(final(blocks)@)) == v,
        tail_ok(last_block(final(blocks)@), 17, t + 1, v + 1, seq![(t as int, v as int)]),
        last_block(final(blocks)@)[16] == 128,
{
    let ghost start = blocks@;
    let td = be_bytes(t);
    let vd = be_bytes(v);
    let mut block: Vec<u8> = Vec::new();
    push_padded(&mut block, &td, 8);
    push_padded(&mut block, &vd, 8);
    block.push(128);
    let ghost head = block@;
    let mut i: usize = HEADER_SIZE + 1;
    while i < BLOCK_SIZE
        invariant
            17 <= i <= 512,
            head.len() == 17,
            block@ == head + Seq::new((i - 17) as nat, |j: int| 0u8),
        decreases 512 - i,
    {
        block.push(0);
        i = i + 1;
        proof {
            assert(block@ =~= head + Seq::new((i - 17) as nat, |j: int| 0u8));
        }
    }
    let ghost b = block@;
    push_padded(blocks, &block, 512);
    proof {
        assert(td@ =~= Seq::new(0, |i: int| 0u8) + td@);
        assert(b.subrange(0, 8) =~= td@);
        assert(b.subrange(8, 16) =~= vd@);
        assert(blocks@ =~= start + b);
        assert(last_block(blocks@) =~= b);
        assert(blocks@.subrange(0, start.len() as int) =~= start);
        lemma_decode_to_step(b, 16);
        assert(b.subrange(16, 16) =~= Seq::<u8>::empty());
        assert(run(t as int, v as int, 1) =~= seq![(t as int, v as int)]);
        assert(Seq::<(int, int)>::empty() + seq![(t as int, v as int)] =~= seq![(t as int, v as int)]);
    }
}

/// The bytes of `blocks` before its last block.
pub open spec fn before_last(blocks: Seq<u8>) -> Seq<u8> {
    blocks.subrange(0, blocks.len() - 512)
}

/// Adds one change right after the last one: extends the last change
/// byte's run, or writes a new change byte. False, with nothing written,
/// when the block is full.
pub fn extend_run(
    blocks: &mut Vec<u8>,
    offset: &mut usize,
    Ghost(t): Ghost<int>,
    Ghost(v): Ghost<int>,
    Ghost(out): Ghost<Seq<(int, int)>>,
) -> (r: bool)
    requires
        old(blocks)@.len() >= 512,
        tail_ok(last_block(old(blocks)@), *old(offset) as int, t, v, out),
    ensures
        r ==> {
            &&& final(blocks)@.len() == old(blocks)@.len()
            &&& before_last(final(blocks)@) == before_last(old(blocks)@)
            &&& last_block(final(blocks)@).subrange(0, 16) == last_block(old(blocks)@).subrange(0, 16)
            &&& tail_ok(last_block(final(blocks)@), *final(offset) as int, t + 1, v + 1, out.push((t, v)))
        },
        !r ==> final(blocks)@ == old(blocks)@ && *final(offset) == *old(offset),
        r == (last_block(old(blocks)@)[*old(offset) - 1] < 255 || *old(offset) < BLOCK_SIZE),
        r && last_block(old(blocks)@)[*old(offset) - 1] < 255 ==> {
            &&& *final(offset) == *old(offset)
            &&& last_block(final(blocks)@)[*old(offset) - 1] == last_block(old(blocks)@)[*old(
                offset,
            ) - 1] + 1
        },
        r && last_block(old(blocks)@)[*old(offset) - 1] == 255 ==> {
            &&& *final(offset) == *old(offset) + 1
            &&& last_block(final(blocks)@)[*old(offset) as int] == 128
        },
{
    let ghost b = last_block(blocks@);
    let ghost old_blocks = blocks@;
    let base = blocks.len() - BLOCK_SIZE;
    let off = *offset;
    let c = blocks[base + off - 1];
    proof {
        assert(c == b[off - 1]);
    }
    if c < 255 {
        blocks[base + off - 1] = c + 1;
        proof {
            let b2 = last_block(blocks@);
            assert(b2 =~= b.update(off - 1, (c + 1) as u8));
            assert(before_last(blocks@) =~= before_last(old_blocks));
            assert(b2.subrange(0, 16) =~= b.subrange(0, 16));
            assert(b2.subrange(0, off - 1) =~= b.subrange(0, off - 1));
            lemma_decode_prefix(b, b2, off - 1);
            lemma_decode_to_step(b, off - 1);
            lemma_decode_to_step(b2, off - 1);
            let s = decode_to(b, off - 1);
            let t0 = s.t + s.partial;
            let n = (c - 127) as nat;
            assert(run(t0, s.v, n + 1) =~= run(t0, s.v, n).push((t0 + n, s.v + n)));
            assert(s.out + run(t0, s.v, n + 1) =~= (s.out + run(t0, s.v, n)).push((t0 + n, s.v + n)));
        }
        true
    } else if off < BLOCK_SIZE {
        blocks[base + off] = 128;
        *offset = off + 1;
        proof {
            let b2 = last_block(blocks@);
            assert(b2 =~= b.update(off as int, 128u8));
            assert(before_last(blocks@) =~= before_last(old_blocks));
            assert(b2.subrange(0, 16) =~= b.subrange(0, 16));
            assert(b2.subrange(0, off as int) =~= b.subrange(0, off as int));
            lemma_decode_prefix(b, b2, off as int);
            lemma_decode_to_step(b2, off as int);
            assert(run(t, v, 1) =~= seq![(t, v)]);
            assert(out + run(t, v, 1) =~= out.push((t, v)));
        }
        true
    } else {
        false
    }
}

proof fn lemma_skip_digits(
    b: Seq<u8>,
    off: int,
    d: Seq<u8>,
    k: int,
    t: int,
    v: int,
    out: Seq<(int, int)>,
)
    requires
        b.len() == 512,
        16 <= off,
        off + d.len() <= 512,
        d.len() <= 8,
        forall|i: int| 0 <= i < d.len() ==> d[i] < 128,
        b.subrange(off, off + d.len()) == d,
        decode_to(b, off) == (DecodeState { t, v, partial: 0, count: 0, out }),
        0 <= k <= d.len(),
    ensures
        decode_to(b, off + k) == if k == 8 {
            DecodeState { t: t + digits_value(d.subrange(0, 8), 128), v, partial: 0, count: 0, out }
        } else {
            DecodeState { t, v, partial: digits_value(d.subrange(0, k), 128) as int, count: k, out }
        },
    decreases k,
{
    if k == 0 {
        assert(d.subrange(0, 0) =~= Seq::<u8>::empty());
    } else {
        lemma_skip_digits(b, off, d, k - 1, t, v, out);
        lemma_decode_to_step(b, off + k - 1);
        assert(b[off + k - 1] == b.subrange(off, off + d.len())[k - 1]);
        assert(d.subrange(0, k).drop_last() =~= d.subrange(0, k - 1));
    }
}

/// Adds one change after `skips` timestamps without a change: writes the
/// skip digits and a change byte. False, with nothing written, when they
/// do not fit in the block or the skip needs more than eight digits.
pub fn add_skip(
    blocks: &mut Vec<u8>,
    offset: &mut usize,
    skips: usize,
    Ghost(t): Ghost<int>,
    Ghost(v): Ghost<int>,
    Ghost(out): Ghost<Seq<(int, int)>>,
) -> (r: bool)
    requires
        old(blocks)@.len() >= 512,
        tail_ok(last_block(old(blocks)@), *old(offset) as int, t, v, out),
    ensures
        r ==> {
            &&& final(blocks)@.len() == old(blocks)@.len()
            &&& before_last(final(blocks)@) == before_last(old(blocks)@)
            &&& last_block(final(blocks)@).subrange(0, 16) == last_block(old(blocks)@).subrange(0, 16)
            &&& tail_ok(
                last_block(final(blocks)@),
                *final(offset) as int,
                t + skips + 1,
                v + 1,
                out.push((t + skips, v)),
            )
        },
        !r ==> final(blocks)@ == old(blocks)@ && *final(offset) == *old(offset),
        r == (skips < skip_limit() && *old(offset) + digit_count(skips as nat, 128) + 1
            <= BLOCK_SIZE),
        r ==> *final(offset) == *old(offset) + digit_count(skips as nat, 128) + 1,
        r ==> last_block(final(blocks)@)[*final(offset) - 1] == 128,
{
    let ghost b = last_block(blocks@);
    let ghost old_blocks = blocks@;
    let d = to_digits(skips as u64, 128);
    proof {
        lemma_skip_digits_fit(skips as nat);
    }
    let off = *offset;
    if d.len() > 8 || BLOCK_SIZE - off < d.len() + 1 {
        return false;
    }
    let base = blocks.len() - BLOCK_SIZE;
    let n = d.len();
    let start = base + off;
    let total = blocks.len();
    let mut i: usize = 0;
    while i < n
        invariant
            total == blocks@.len(),
            start == base + off,
            start + n < blocks@.len(),
            i <= n,
            n == d@.len(),
            n <= 8,
            off + n + 1 <= 512,
            base == old_blocks.len() - 512,
            blocks@.len() == old_blocks.len(),
            forall|j: int| 0 <= j < base + off ==> blocks@[j] == old_blocks[j],
            forall|j: int| base + off + i <= j < blocks@.len() ==> blocks@[j] == old_blocks[j],
            forall|j: int| 0 <= j < i ==> blocks@[base + off + j] == d@[j],
        decreases n - i,
    {
        blocks[start + i] = d[i];
        i = i + 1;
    }
    blocks[base + off + n] = 128;
    *offset = off + n + 1;
    proof {
        let b2 = last_block(blocks@);
        assert(before_last(blocks@) =~= before_last(old_blocks));
        assert(b2.subrange(0, 16) =~= b.subrange(0, 16));
        assert(b2.subrange(0, off as int) =~= b.subrange(0, off as int));
        assert(b2.subrange(off as int, off + n) =~= d@);
        lemma_decode_prefix(b, b2, off as int);
        lemma_skip_digits(b2, off as int, d@, n as int, t, v, out);
        assert(d@.subrange(0, n as int) =~= d@);
        lemma_decode_to_step(b2, off + n);
        assert(run(t + skips, v, 1) =~= seq![(t + skips, v)]);
        assert(out + run(t + skips, v, 1) =~= out.push((t + skips, v)));
        assert forall|j: int| off + n + 1 <= j < 512 implies b2[j] == 0 by {
            assert(b2[j] == old_blocks[base + j]);
            assert(b[j] == old_blocks[base + j]);
        }
    }
    true
}

} // verus!
