//! Worker-sharded enumeration of the ARX keyspace. A worker's partition
//! is the set of keys whose first-round `add` lies in the worker's
//! slice of `[0, 255]`; every other axis is enumerated in full. Keys
//! are ordered by a rank: `add` is the most significant digit of a
//! round, then `xor`, then `rot`, and earlier rounds are more
//! significant than later ones. Rank and key determine each other, so
//! the partition is visited exactly once, in an order that depends on
//! nothing but the partition itself.

use crate::arx::{key_valid, round_valid, ARXKey, ARXRound};
use crate::bigcount::BigCount;
use crate::partition::{
    lemma_slice_covering,
    lemma_slice_disjoint,
    lemma_slice_lo_ends,
    lemma_slice_lo_in_range,
    lemma_slice_lo_monotone,
    slice_lo,
};
use vstd::arithmetic::div_mod::{
    lemma_div_denominator,
    lemma_div_is_ordered,
    lemma_fundamental_div_mod,
    lemma_fundamental_div_mod_converse,
};
use vstd::arithmetic::mul::{lemma_mul_is_commutative, lemma_mul_inequality};
use vstd::arithmetic::power::{lemma_pow0, lemma_pow1, lemma_pow_adds, lemma_pow_positive, pow};
use vstd::prelude::*;

verus! {

/// Keys of one full round: 256 adds, 256 xors, 8 rotations.
pub const KEYS_PER_ROUND: u64 = 524288;

/// Number of keys in `n` full rounds.
pub open spec fn pow_keys(n: nat) -> int {
    pow(524288, n)
}

pub proof fn lemma_pow_keys_positive(n: nat)
    ensures
        pow_keys(n) >= 1,
{
    lemma_pow_positive(524288, n);
}

/// One more round multiplies the key count by a full round axis.
pub proof fn lemma_pow_keys_unfold(n: nat)
    requires
        n >= 1,
    ensures
        pow_keys(n) == 524288 * pow_keys((n - 1) as nat),
{
    lemma_pow_adds(524288, 1, (n - 1) as nat);
    lemma_pow1(524288);
}

/// Position of a round among the 524288 of a full round axis:
/// `add` major, then `xor`, then `rot`.
pub open spec fn round_rank(rd: ARXRound) -> int {
    rd.add * 2048 + rd.xor * 8 + rd.rot
}

/// The round at a given position.
pub open spec fn round_of_rank(t: int) -> ARXRound {
    ARXRound { add: (t / 2048) as u8, rot: (t % 8) as u8, xor: ((t / 8) % 256) as u8 }
}

/// A well-formed round's rank is within the axis and maps back to the
/// round.
pub proof fn lemma_round_rank_inverse(rd: ARXRound)
    requires
        round_valid(rd),
    ensures
        0 <= round_rank(rd) < 524288,
        round_of_rank(round_rank(rd)) == rd,
{
    let t = round_rank(rd);
    lemma_fundamental_div_mod_converse(t, 8, rd.add * 256 + rd.xor, rd.rot as int);
    lemma_fundamental_div_mod_converse(rd.add * 256 + rd.xor, 256, rd.add as int, rd.xor as int);
    lemma_fundamental_div_mod_converse(t, 2048, rd.add as int, rd.xor * 8 + rd.rot);
}

/// Every position within the axis is some well-formed round's rank.
pub proof fn lemma_rank_round_inverse(t: int)
    requires
        0 <= t < 524288,
    ensures
        round_valid(round_of_rank(t)),
        round_of_rank(t).rot < 8,
        round_rank(round_of_rank(t)) == t,
{
    lemma_fundamental_div_mod(t, 8);
    lemma_fundamental_div_mod(t / 8, 256);
    lemma_div_denominator(t, 8, 256);
    assert(0 <= t % 8 < 8);
    assert(0 <= (t / 8) % 256 < 256);
    assert(0 <= t / 2048 < 256) by (nonlinear_arith)
        requires
            0 <= t < 524288,
    ;
    assert(t / 8 == 256 * (t / 2048) + (t / 8) % 256);
    assert(t == 8 * (256 * (t / 2048) + (t / 8) % 256) + t % 8);
}

/// Position of a full-axis round list: first round most significant.
pub open spec fn tail_rank(rs: Seq<ARXRound>) -> int
    decreases rs.len(),
{
    if rs.len() == 0 {
        0
    } else {
        round_rank(rs[0]) * pow_keys((rs.len() - 1) as nat) + tail_rank(rs.skip(1))
    }
}

/// The full-axis round list at a given position.
pub open spec fn tail_of_rank(m: nat, r: int) -> Seq<ARXRound>
    decreases m,
{
    if m == 0 {
        Seq::empty()
    } else {
        seq![round_of_rank(r / pow_keys((m - 1) as nat))] + tail_of_rank(
            (m - 1) as nat,
            r % pow_keys((m - 1) as nat),
        )
    }
}

/// A well-formed round list ranks within the `m`-round key count.
pub proof fn lemma_tail_rank_bounds(rs: Seq<ARXRound>)
    requires
        key_valid(rs),
    ensures
        0 <= tail_rank(rs) < pow_keys(rs.len()),
    decreases rs.len(),
{
    if rs.len() == 0 {
        lemma_pow0(524288);
    } else {
        let p = pow_keys((rs.len() - 1) as nat);
        lemma_pow_keys_positive((rs.len() - 1) as nat);
        lemma_pow_keys_unfold(rs.len());
        assert(key_valid(rs.skip(1))) by {
            assert(forall|i: int|
                0 <= i < rs.skip(1).len() ==> #[trigger] rs.skip(1)[i] == rs[i + 1]);
        }
        lemma_tail_rank_bounds(rs.skip(1));
        lemma_round_rank_inverse(rs[0]);
        assert(tail_rank(rs) == round_rank(rs[0]) * p + tail_rank(rs.skip(1)));
        assert(rs.skip(1).len() == (rs.len() - 1) as nat);
        assert(tail_rank(rs.skip(1)) < p);
        assert(pow_keys(rs.len()) == 524288 * p);
        assert(round_rank(rs[0]) * p <= 524287 * p) by (nonlinear_arith)
            requires
                round_rank(rs[0]) <= 524287,
                p >= 1,
        ;
        assert(round_rank(rs[0]) * p >= 0) by (nonlinear_arith)
            requires
                round_rank(rs[0]) >= 0,
                p >= 1,
        ;
        assert(524287 * p + p == 524288 * p) by (nonlinear_arith);
        assert(0 <= tail_rank(rs) < pow_keys(rs.len()));
    }
}

/// Rank then unrank gives the round list back.
pub proof fn lemma_tail_unrank_rank(rs: Seq<ARXRound>)
    requires
        key_valid(rs),
    ensures
        tail_of_rank(rs.len(), tail_rank(rs)) == rs,
    decreases rs.len(),
{
    if rs.len() == 0 {
        assert(tail_of_rank(0, 0) =~= rs);
    } else {
        let m = rs.len();
        let p = pow_keys((m - 1) as nat);
        let t = tail_rank(rs);
        assert(key_valid(rs.skip(1))) by {
            assert(forall|i: int|
                0 <= i < rs.skip(1).len() ==> #[trigger] rs.skip(1)[i] == rs[i + 1]);
        }
        lemma_tail_rank_bounds(rs.skip(1));
        lemma_round_rank_inverse(rs[0]);
        lemma_fundamental_div_mod_converse(t, p, round_rank(rs[0]), tail_rank(rs.skip(1)));
        lemma_tail_unrank_rank(rs.skip(1));
        assert(tail_of_rank(m, t) =~= rs);
    }
}

/// Unrank then rank gives the position back, and the list is well
/// formed.
pub proof fn lemma_tail_rank_unrank(m: nat, r: int)
    requires
        0 <= r < pow_keys(m),
    ensures
        tail_of_rank(m, r).len() == m,
        key_valid(tail_of_rank(m, r)),
        tail_rank(tail_of_rank(m, r)) == r,
    decreases m,
{
    if m == 0 {
        lemma_pow0(524288);
        assert(tail_of_rank(0, r) =~= Seq::<ARXRound>::empty());
    } else {
        let p = pow_keys((m - 1) as nat);
        lemma_pow_keys_positive((m - 1) as nat);
        lemma_pow_keys_unfold(m);
        assert(pow_keys(m) == 524288 * p);
        assert(0 <= r / p < 524288 && 0 <= r % p < p) by {
            lemma_fundamental_div_mod(r, p);
            assert(r / p < 524288) by (nonlinear_arith)
                requires
                    r < 524288 * p,
                    p >= 1,
                    r >= 0,
            ;
            assert(r / p >= 0) by (nonlinear_arith)
                requires
                    r >= 0,
                    p >= 1,
            ;
        }
        lemma_rank_round_inverse(r / p);
        lemma_tail_rank_unrank((m - 1) as nat, r % p);
        let rs = tail_of_rank(m, r);
        assert(rs[0] == round_of_rank(r / p));
        assert(rs.len() == m);
        assert(rs.skip(1) =~= tail_of_rank((m - 1) as nat, r % p));
        assert(key_valid(rs)) by {
            assert(forall|i: int| 1 <= i < rs.len() ==> rs[i] == #[trigger] rs.skip(1)[i - 1]);
        }
        assert(tail_rank(rs) == round_rank(rs[0]) * p + tail_rank(rs.skip(1)));
        assert(round_rank(rs[0]) == r / p);
        assert(tail_rank(rs.skip(1)) == r % p);
        lemma_fundamental_div_mod(r, p);
        lemma_mul_is_commutative(p, r / p);
        assert(tail_rank(rs) == r);
    }
}


/// The partition descriptor one worker enumerates: all keys of
/// `round_count` rounds whose first-round `add` lies in
/// `[a_lo, a_hi_excl)`. All other axes are enumerated in full.
#[derive(Clone, Copy, PartialEq, Eq, Structural, Debug)]
pub struct ARXWorkerContext {
    pub round_count: usize,
    pub a_lo: u16,
    pub a_hi_excl: u16,
}

/// A context is well formed when its slice is an interval of the
/// `add` axis and the round count fits a key.
pub open spec fn ctx_wf(ctx: ARXWorkerContext) -> bool {
    &&& ctx.round_count <= 8
    &&& ctx.a_lo <= ctx.a_hi_excl
    &&& ctx.a_hi_excl <= 256
}

/// Whether a key belongs to the context's partition.
pub open spec fn in_partition(ctx: ARXWorkerContext, ks: Seq<ARXRound>) -> bool {
    &&& ks.len() == ctx.round_count
    &&& ctx.round_count >= 1
    &&& key_valid(ks)
    &&& ctx.a_lo <= ks[0].add < ctx.a_hi_excl
}

/// Exact number of keys in the partition.
pub open spec fn spec_total_keys(ctx: ARXWorkerContext) -> int {
    if ctx.round_count == 0 {
        0
    } else {
        (ctx.a_hi_excl - ctx.a_lo) * 2048 * pow_keys((ctx.round_count - 1) as nat)
    }
}

/// Position of a key inside its partition's enumeration order.
pub open spec fn key_rank(ctx: ARXWorkerContext, ks: Seq<ARXRound>) -> int {
    (round_rank(ks[0]) - ctx.a_lo * 2048) * pow_keys((ks.len() - 1) as nat) + tail_rank(ks.skip(1))
}

/// The key at a given position of the partition's enumeration order.
/// This function of `(partition, position)` alone is what makes worker
/// enumeration deterministic.
pub open spec fn key_of_rank(ctx: ARXWorkerContext, r: int) -> Seq<ARXRound> {
    let m = (ctx.round_count - 1) as nat;
    let p = pow_keys(m);
    seq![round_of_rank(r / p + ctx.a_lo * 2048)] + tail_of_rank(m, r % p)
}

/// A partition key ranks within the partition size, and unranking
/// gives the key back: no key is visited twice.
pub proof fn lemma_key_rank_inverse(ctx: ARXWorkerContext, ks: Seq<ARXRound>)
    requires
        ctx_wf(ctx),
        in_partition(ctx, ks),
    ensures
        0 <= key_rank(ctx, ks) < spec_total_keys(ctx),
        key_of_rank(ctx, key_rank(ctx, ks)) == ks,
{
    let n = ks.len();
    let m = (n - 1) as nat;
    let p = pow_keys(m);
    lemma_pow_keys_positive(m);
    assert(key_valid(ks.skip(1))) by {
        assert(forall|i: int| 0 <= i < ks.skip(1).len() ==> #[trigger] ks.skip(1)[i] == ks[i + 1]);
    }
    lemma_tail_rank_bounds(ks.skip(1));
    lemma_round_rank_inverse(ks[0]);
    let head = round_rank(ks[0]) - ctx.a_lo * 2048;
    let span_heads = (ctx.a_hi_excl - ctx.a_lo) * 2048;
    assert(0 <= head < span_heads);
    let r = key_rank(ctx, ks);
    assert(r == head * p + tail_rank(ks.skip(1)));
    assert(head * p >= 0) by (nonlinear_arith)
        requires
            head >= 0,
            p >= 1,
    ;
    assert(head * p <= (span_heads - 1) * p) by (nonlinear_arith)
        requires
            head <= span_heads - 1,
            p >= 1,
    ;
    assert((span_heads - 1) * p + p == span_heads * p) by (nonlinear_arith);
    assert(spec_total_keys(ctx) == span_heads * p);
    lemma_fundamental_div_mod_converse(r, p, head, tail_rank(ks.skip(1)));
    lemma_tail_unrank_rank(ks.skip(1));
    assert(key_of_rank(ctx, r) =~= ks);
}

/// Every position within the partition size is the rank of exactly one
/// partition key: no key is skipped.
pub proof fn lemma_key_unrank_rank(ctx: ARXWorkerContext, r: int)
    requires
        ctx_wf(ctx),
        0 <= r < spec_total_keys(ctx),
    ensures
        in_partition(ctx, key_of_rank(ctx, r)),
        key_rank(ctx, key_of_rank(ctx, r)) == r,
{
    let n = ctx.round_count;
    let m = (n - 1) as nat;
    let p = pow_keys(m);
    lemma_pow_keys_positive(m);
    let span_heads = (ctx.a_hi_excl - ctx.a_lo) * 2048;
    assert(spec_total_keys(ctx) == span_heads * p);
    lemma_fundamental_div_mod(r, p);
    assert(0 <= r / p < span_heads) by (nonlinear_arith)
        requires
            0 <= r < span_heads * p,
            p >= 1,
            r == p * (r / p) + r % p,
            0 <= r % p < p,
    ;
    let t = r / p + ctx.a_lo * 2048;
    assert(ctx.a_lo * 2048 <= t < ctx.a_hi_excl * 2048);
    assert(t < 524288);
    lemma_rank_round_inverse(t);
    let rd0 = round_of_rank(t);
    assert(rd0.add == t / 2048);
    lemma_div_is_ordered(ctx.a_lo * 2048, t, 2048);
    lemma_fundamental_div_mod_converse(ctx.a_lo * 2048, 2048, ctx.a_lo as int, 0);
    lemma_div_is_ordered(t, ctx.a_hi_excl * 2048 - 1, 2048);
    lemma_fundamental_div_mod_converse(
        ctx.a_hi_excl * 2048 - 1,
        2048,
        ctx.a_hi_excl - 1,
        2047,
    );
    assert(ctx.a_lo <= rd0.add < ctx.a_hi_excl);
    lemma_tail_rank_unrank(m, r % p);
    let ks = key_of_rank(ctx, r);
    assert(ks.len() == n);
    assert(ks[0] == rd0);
    assert(ks.skip(1) =~= tail_of_rank(m, r % p));
    assert(key_valid(ks)) by {
        assert(forall|i: int| 1 <= i < ks.len() ==> ks[i] == #[trigger] ks.skip(1)[i - 1]);
    }
    assert(key_rank(ctx, ks) == (t - ctx.a_lo * 2048) * p + (r % p));
    lemma_mul_is_commutative(p, r / p);
    assert(key_rank(ctx, ks) == r);
}


/// `tail_rank` of a suffix, one round peeled off.
proof fn lemma_tail_rank_decompose(rs: Seq<ARXRound>, start: int)
    requires
        0 <= start < rs.len(),
    ensures
        tail_rank(rs.skip(start)) == round_rank(rs[start]) * pow_keys(
            (rs.len() - start - 1) as nat,
        ) + tail_rank(rs.skip(start + 1)),
{
    assert(rs.skip(start)[0] == rs[start]);
    assert(rs.skip(start).skip(1) =~= rs.skip(start + 1));
    assert(rs.skip(start).len() == rs.len() - start);
}

/// A run of all-zero rounds sits at position zero.
proof fn lemma_tail_rank_zeros(rs: Seq<ARXRound>)
    requires
        forall|i: int|
            0 <= i < rs.len() ==> #[trigger] rs[i] == (ARXRound { add: 0, rot: 0, xor: 0 }),
    ensures
        tail_rank(rs) == 0,
    decreases rs.len(),
{
    if rs.len() > 0 {
        assert(forall|i: int|
            0 <= i < rs.skip(1).len() ==> #[trigger] rs.skip(1)[i] == rs[i + 1]);
        lemma_tail_rank_zeros(rs.skip(1));
        let p = pow_keys((rs.len() - 1) as nat);
        assert(round_rank(rs[0]) == 0);
        assert(0 * p == 0) by (nonlinear_arith);
    }
}

/// Step the rounds from `start` on to the next position, as an
/// odometer: the last round's `rot` turns fastest. Returns true when
/// the suffix wraps around from its last position back to zero.
fn advance_tail(key: &mut ARXKey, start: usize) -> (carry: bool)
    requires
        1 <= start <= old(key)@.len(),
        key_valid(old(key)@),
    ensures
        final(key)@.len() == old(key)@.len(),
        key_valid(final(key)@),
        forall|i: int| 0 <= i < start ==> final(key)@[i] == old(key)@[i],
        carry ==> tail_rank(old(key)@.skip(start as int)) == pow_keys(
            (old(key)@.len() - start) as nat,
        ) - 1 && tail_rank(final(key)@.skip(start as int)) == 0,
        !carry ==> tail_rank(final(key)@.skip(start as int)) == tail_rank(
            old(key)@.skip(start as int),
        ) + 1,
    decreases old(key)@.len() - start,
{
    let n = key.rounds.len();
    if start == n {
        proof {
            assert(old(key)@.skip(start as int) =~= Seq::<ARXRound>::empty());
            lemma_pow0(524288);
        }
        return true;
    }
    let ghost orig = key@;
    let sub_carry = advance_tail(key, start + 1);
    let ghost mid = key@;
    proof {
        lemma_tail_rank_decompose(orig, start as int);
        lemma_tail_rank_decompose(mid, start as int);
        assert(mid[start as int] == orig[start as int]);
    }
    let ghost p = pow_keys((orig.len() - start - 1) as nat);
    if !sub_carry {
        proof {
            assert(tail_rank(mid.skip(start as int)) == tail_rank(orig.skip(start as int)) + 1);
        }
        return false;
    }
    // The suffix past this round wrapped; step this round once.
    let rd = *key.rounds.get(start);
    proof {
        lemma_pow_keys_positive((orig.len() - start - 1) as nat);
        lemma_pow_keys_unfold((orig.len() - start) as nat);
        assert(round_valid(rd));
    }
    let (rd2, carry) = if rd.rot < 7 {
        (ARXRound { rot: rd.rot + 1, ..rd }, false)
    } else if rd.xor < 255 {
        (ARXRound { rot: 0, xor: rd.xor + 1, ..rd }, false)
    } else if rd.add < 255 {
        (ARXRound { rot: 0, xor: 0, add: rd.add + 1 }, false)
    } else {
        (ARXRound { add: 0, rot: 0, xor: 0 }, true)
    };
    key.rounds.set(start, rd2);
    proof {
        let fin = key@;
        assert(fin.skip(start + 1) =~= mid.skip(start + 1));
        lemma_tail_rank_decompose(fin, start as int);
        assert(fin[start as int] == rd2);
        if carry {
            assert(round_rank(rd) == 524287);
            assert(round_rank(rd2) == 0);
            assert(tail_rank(orig.skip(start as int)) == 524287 * p + (p - 1));
            assert(524287 * p + p == 524288 * p) by (nonlinear_arith);
            assert(tail_rank(fin.skip(start as int)) == 0 * p + 0);
            assert(0 * p == 0) by (nonlinear_arith);
        } else {
            assert(round_rank(rd2) == round_rank(rd) + 1);
            assert((round_rank(rd) + 1) * p == round_rank(rd) * p + p) by (nonlinear_arith);
            assert(tail_rank(fin.skip(start as int)) == tail_rank(orig.skip(start as int)) + 1);
        }
    }
    carry
}

/// A cursor over one partition's keys, in enumeration order. The key
/// buffer is stepped in place: no allocation happens per key.
pub struct ARXKeyCursor {
    ctx: ARXWorkerContext,
    key: ARXKey,
    idx: Ghost<int>,
}

impl ARXKeyCursor {
    pub closed spec fn ctx(&self) -> ARXWorkerContext {
        self.ctx
    }

    pub closed spec fn key_view(&self) -> Seq<ARXRound> {
        self.key@
    }

    pub closed spec fn idx(&self) -> int {
        self.idx@
    }

    /// The cursor points at the key whose position is `idx`.
    pub open spec fn wf(&self) -> bool {
        &&& ctx_wf(self.ctx())
        &&& in_partition(self.ctx(), self.key_view())
        &&& self.idx() == key_rank(self.ctx(), self.key_view())
        &&& self.key_view() == key_of_rank(self.ctx(), self.idx())
    }

    /// Place a cursor on the partition's first key; an empty partition
    /// has none.
    pub fn start(ctx: &ARXWorkerContext) -> (r: Option<ARXKeyCursor>)
        requires
            ctx_wf(*ctx),
        ensures
            match r {
                Some(c) => spec_total_keys(*ctx) > 0 && c.wf() && c.ctx() == *ctx && c.idx() == 0,
                None => spec_total_keys(*ctx) == 0,
            },
    {
        if ctx.round_count == 0 || ctx.a_lo >= ctx.a_hi_excl {
            proof {
                if ctx.round_count > 0 {
                    let p = pow_keys((ctx.round_count - 1) as nat);
                    assert(spec_total_keys(*ctx) == 0 * p);
                    assert(0 * p == 0) by (nonlinear_arith);
                }
            }
            return None;
        }
        let mut key = ARXKey::new();
        let first = ARXRound { add: ctx.a_lo as u8, rot: 0, xor: 0 };
        key.rounds.push(first);
        let mut i: usize = 1;
        while i < ctx.round_count
            invariant
                1 <= i <= ctx.round_count,
                ctx.round_count <= 8,
                key@.len() == i,
                key@[0] == first,
                forall|j: int|
                    1 <= j < i ==> #[trigger] key@[j] == (ARXRound { add: 0, rot: 0, xor: 0 }),
            decreases ctx.round_count - i,
        {
            key.rounds.push(ARXRound::zero());
            i = i + 1;
        }
        proof {
            let ks = key@;
            let m = (ctx.round_count - 1) as nat;
            let p = pow_keys(m);
            lemma_pow_keys_positive(m);
            assert(forall|i: int|
                0 <= i < ks.skip(1).len() ==> #[trigger] ks.skip(1)[i] == ks[i + 1]);
            lemma_tail_rank_zeros(ks.skip(1));
            assert(key_valid(ks));
            assert(in_partition(*ctx, ks));
            assert(round_rank(ks[0]) == ctx.a_lo * 2048);
            assert(key_rank(*ctx, ks) == 0 * p + 0);
            assert(0 * p == 0) by (nonlinear_arith);
            lemma_key_rank_inverse(*ctx, ks);
        }
        Some(ARXKeyCursor { ctx: *ctx, key, idx: Ghost(0) })
    }

    /// The key under the cursor.
    pub fn current(&self) -> (r: &ARXKey)
        ensures
            r@ == self.key_view(),
    {
        &self.key
    }

    /// Step to the next key of the partition. Returns false when the
    /// cursor already sat on the last key; the partition is then
    /// exhausted.
    pub fn advance(&mut self) -> (more: bool)
        requires
            old(self).wf(),
        ensures
            final(self).ctx() == old(self).ctx(),
            more == (old(self).idx() + 1 < spec_total_keys(old(self).ctx())),
            more ==> final(self).wf() && final(self).idx() == old(self).idx() + 1,
    {
        let ghost ctx = self.ctx;
        let ghost orig = self.key@;
        let ghost n = orig.len();
        let ghost p = pow_keys((n - 1) as nat);
        let ghost head = round_rank(orig[0]) - ctx.a_lo * 2048;
        let ghost span_heads = (ctx.a_hi_excl - ctx.a_lo) * 2048;
        proof {
            lemma_pow_keys_positive((n - 1) as nat);
            lemma_round_rank_inverse(orig[0]);
            lemma_key_rank_inverse(ctx, orig);
        }
        let sub_carry = advance_tail(&mut self.key, 1);
        let ghost mid = self.key@;
        if !sub_carry {
            proof {
                assert(mid[0] == orig[0]);
                assert(in_partition(ctx, mid));
                assert(key_rank(ctx, mid) == head * p + tail_rank(orig.skip(1)) + 1);
                assert(key_rank(ctx, mid) == key_rank(ctx, orig) + 1);
                lemma_key_rank_inverse(ctx, mid);
            }
            self.idx = Ghost(self.idx@ + 1);
            return true;
        }
        proof {
            assert(tail_rank(orig.skip(1)) == p - 1);
            assert(tail_rank(mid.skip(1)) == 0);
            assert(mid[0] == orig[0]);
        }
        let rd = *self.key.rounds.get(0);
        proof {
            assert(rd == orig[0]);
            assert(round_valid(rd));
        }
        let hi = self.ctx.a_hi_excl;
        let (rd2, done) = if rd.rot < 7 {
            (ARXRound { rot: rd.rot + 1, ..rd }, false)
        } else if rd.xor < 255 {
            (ARXRound { rot: 0, xor: rd.xor + 1, ..rd }, false)
        } else if (rd.add as u16) + 1 < hi {
            (ARXRound { rot: 0, xor: 0, add: rd.add + 1 }, false)
        } else {
            (rd, true)
        };
        if done {
            proof {
                assert(round_rank(rd) == ctx.a_hi_excl * 2048 - 1);
                assert(head == span_heads - 1);
                assert(key_rank(ctx, orig) == (span_heads - 1) * p + (p - 1));
                assert((span_heads - 1) * p + p == span_heads * p) by (nonlinear_arith);
                assert(spec_total_keys(ctx) == span_heads * p);
            }
            return false;
        }
        self.key.rounds.set(0, rd2);
        proof {
            let fin = self.key@;
            assert(fin.skip(1) =~= mid.skip(1));
            assert(round_rank(rd2) == round_rank(rd) + 1);
            assert(in_partition(ctx, fin));
            assert(key_rank(ctx, fin) == (head + 1) * p + 0);
            assert((head + 1) * p == head * p + p) by (nonlinear_arith);
            assert(key_rank(ctx, fin) == key_rank(ctx, orig) + 1);
            lemma_key_rank_inverse(ctx, fin);
        }
        self.idx = Ghost(self.idx@ + 1);
        true
    }
}


/// The whole keyspace of `round_count` rounds is the partition of a
/// single worker covering the full `add` axis.
pub open spec fn full_keyspace_ctx(round_count: usize) -> ARXWorkerContext {
    ARXWorkerContext { round_count, a_lo: 0, a_hi_excl: 256 }
}

/// The partition handed to worker `worker_id` of `worker_total`.
pub open spec fn worker_context_spec(
    round_count: usize,
    worker_id: u32,
    worker_total: u32,
) -> ARXWorkerContext {
    ARXWorkerContext {
        round_count,
        a_lo: slice_lo(255, worker_total as int, worker_id as int) as u16,
        a_hi_excl: slice_lo(255, worker_total as int, worker_id + 1) as u16,
    }
}

/// Worker contexts are well formed and their slices sit inside the
/// `add` axis.
pub proof fn lemma_worker_context_wf(round_count: usize, worker_id: u32, worker_total: u32)
    requires
        round_count <= 8,
        worker_id < worker_total,
    ensures
        ctx_wf(worker_context_spec(round_count, worker_id, worker_total)),
        worker_context_spec(round_count, worker_id, worker_total).a_lo == slice_lo(
            255,
            worker_total as int,
            worker_id as int,
        ),
        worker_context_spec(round_count, worker_id, worker_total).a_hi_excl == slice_lo(
            255,
            worker_total as int,
            worker_id + 1,
        ),
{
    lemma_slice_lo_in_range(255, worker_total as int, worker_id as int);
    lemma_slice_lo_in_range(255, worker_total as int, worker_id + 1);
    lemma_slice_lo_monotone(255, worker_total as int, worker_id as int, worker_id + 1);
}

/// Coverage: every key of the full keyspace falls in some worker's
/// partition.
pub proof fn lemma_worker_cover(round_count: usize, worker_total: u32, ks: Seq<ARXRound>) -> (w:
    int)
    requires
        round_count <= 8,
        1 <= worker_total,
        in_partition(full_keyspace_ctx(round_count), ks),
    ensures
        0 <= w < worker_total,
        in_partition(worker_context_spec(round_count, w as u32, worker_total), ks),
{
    let w = lemma_slice_covering(255, worker_total as int, ks[0].add as int);
    lemma_worker_context_wf(round_count, w as u32, worker_total);
    w
}

/// Disjointness: no key falls in two workers' partitions.
pub proof fn lemma_worker_disjoint(
    round_count: usize,
    worker_total: u32,
    w1: u32,
    w2: u32,
    ks: Seq<ARXRound>,
)
    requires
        round_count <= 8,
        w1 < w2 < worker_total,
        in_partition(worker_context_spec(round_count, w1, worker_total), ks),
    ensures
        !in_partition(worker_context_spec(round_count, w2, worker_total), ks),
{
    lemma_worker_context_wf(round_count, w1, worker_total);
    lemma_worker_context_wf(round_count, w2, worker_total);
    lemma_slice_disjoint(255, worker_total as int, w1 as int, w2 as int, ks[0].add as int);
}

/// Sum of the partition sizes of workers `w..worker_total`.
pub open spec fn worker_totals_sum_from(round_count: usize, worker_total: u32, w: int) -> int
    decreases worker_total - w when w <= worker_total
{
    if w >= worker_total {
        0
    } else {
        spec_total_keys(worker_context_spec(round_count, w as u32, worker_total))
            + worker_totals_sum_from(round_count, worker_total, w + 1)
    }
}

/// The workers' partition sizes add up to the whole keyspace: together
/// with coverage and disjointness, the partition is exact.
pub proof fn lemma_worker_totals_sum(round_count: usize, worker_total: u32)
    requires
        1 <= round_count <= 8,
        1 <= worker_total <= 256,
    ensures
        worker_totals_sum_from(round_count, worker_total, 0) == spec_total_keys(
            full_keyspace_ctx(round_count),
        ),
{
    lemma_slice_lo_ends(255, worker_total as int);
    lemma_worker_totals_sum_tail(round_count, worker_total, 0);
}

proof fn lemma_worker_totals_sum_tail(round_count: usize, worker_total: u32, w: int)
    requires
        1 <= round_count <= 8,
        1 <= worker_total <= 256,
        0 <= w <= worker_total,
    ensures
        worker_totals_sum_from(round_count, worker_total, w) == (slice_lo(
            255,
            worker_total as int,
            worker_total as int,
        ) - slice_lo(255, worker_total as int, w)) * 2048 * pow_keys((round_count - 1) as nat),
    decreases worker_total - w,
{
    let p = pow_keys((round_count - 1) as nat);
    let hi = slice_lo(255, worker_total as int, worker_total as int);
    if w >= worker_total {
        assert((hi - slice_lo(255, worker_total as int, w)) * 2048 == 0);
        assert(0 * p == 0) by (nonlinear_arith);
    } else {
        lemma_worker_totals_sum_tail(round_count, worker_total, w + 1);
        lemma_worker_context_wf(round_count, w as u32, worker_total);
        let a = slice_lo(255, worker_total as int, w);
        let b = slice_lo(255, worker_total as int, w + 1);
        assert(spec_total_keys(worker_context_spec(round_count, w as u32, worker_total)) == (b - a)
            * 2048 * p);
        assert((b - a) * 2048 * p + (hi - b) * 2048 * p == (hi - a) * 2048 * p)
            by (nonlinear_arith);
    }
}

/// The full keyspace holds at most `524288^8` keys, which fits well
/// inside a `BigCount`.
pub proof fn lemma_total_keys_fits(ctx: ARXWorkerContext)
    requires
        ctx_wf(ctx),
    ensures
        0 <= spec_total_keys(ctx) <= pow_keys(8),
        pow_keys(8) == 0x100_0000_0000_0000_0000_0000_0000_0000_0000_0000int,
{
    lemma_pow_keys_value(8);
    if ctx.round_count == 0 {
    } else {
        let m = (ctx.round_count - 1) as nat;
        let p = pow_keys(m);
        lemma_pow_keys_positive(m);
        let span_heads = (ctx.a_hi_excl - ctx.a_lo) * 2048;
        assert(span_heads <= 524288);
        assert(spec_total_keys(ctx) == span_heads * p);
        assert(0 <= span_heads * p <= 524288 * p) by (nonlinear_arith)
            requires
                0 <= span_heads <= 524288,
                p >= 1,
        ;
        lemma_pow_keys_unfold(ctx.round_count as nat);
        lemma_pow_keys_monotone(ctx.round_count as nat, 8);
        lemma_pow_keys_positive(ctx.round_count as nat);
    }
}

/// `pow_keys` grows with the round count.
proof fn lemma_pow_keys_monotone(n1: nat, n2: nat)
    requires
        n1 <= n2,
    ensures
        pow_keys(n1) <= pow_keys(n2),
    decreases n2 - n1,
{
    if n1 < n2 {
        lemma_pow_keys_monotone(n1, (n2 - 1) as nat);
        lemma_pow_keys_unfold(n2);
        lemma_pow_keys_positive((n2 - 1) as nat);
        let q = pow_keys((n2 - 1) as nat);
        assert(q <= 524288 * q) by (nonlinear_arith)
            requires
                q >= 1,
        ;
    }
}

/// The exact value of `pow_keys` at each round count up to the limit.
proof fn lemma_pow_keys_value(n: nat)
    requires
        n <= 8,
    ensures
        pow_keys(n) == pow_keys_table(n),
    decreases n,
{
    if n == 0 {
        lemma_pow0(524288);
    } else {
        lemma_pow_keys_value((n - 1) as nat);
        lemma_pow_keys_unfold(n);
    }
}

/// `524288^n` written out, for the round counts a key allows.
pub open spec fn pow_keys_table(n: nat) -> int {
    if n == 0 {
        1
    } else if n == 1 {
        524288
    } else if n == 2 {
        0x40_0000_0000int
    } else if n == 3 {
        0x200000000000000int
    } else if n == 4 {
        0x10000000000000000000int
    } else if n == 5 {
        0x800000000000000000000000int
    } else if n == 6 {
        0x40000000000000000000000000000int
    } else if n == 7 {
        0x2000000000000000000000000000000000int
    } else {
        0x100_0000_0000_0000_0000_0000_0000_0000_0000_0000int
    }
}

impl ARXWorkerContext {
    /// Exact number of keys this worker will enumerate. The count can
    /// pass 64 bits, so it is returned as a `BigCount`.
    pub fn get_total_keys(&self) -> (r: BigCount)
        requires
            ctx_wf(*self),
        ensures
            r.value() == spec_total_keys(*self),
    {
        if self.round_count == 0 {
            return BigCount::new();
        }
        let span_heads: u64 = ((self.a_hi_excl - self.a_lo) as u64) * 2048;
        let mut total = BigCount::from_u64(span_heads);
        let mut i: usize = 1;
        proof {
            lemma_pow0(524288);
        }
        while i < self.round_count
            invariant
                ctx_wf(*self),
                1 <= i <= self.round_count,
                span_heads == (self.a_hi_excl - self.a_lo) * 2048,
                total.value() == span_heads * pow_keys((i - 1) as nat),
            decreases self.round_count - i,
        {
            proof {
                let p = pow_keys((i - 1) as nat);
                lemma_pow_keys_positive((i - 1) as nat);
                lemma_pow_keys_unfold(i as nat);
                assert(span_heads * p * 524288 == span_heads * (524288 * p)) by (nonlinear_arith);
                let bigger = ARXWorkerContext {
                    round_count: (i + 1) as usize,
                    a_lo: self.a_lo,
                    a_hi_excl: self.a_hi_excl,
                };
                lemma_total_keys_fits(bigger);
                assert(spec_total_keys(bigger) == span_heads * (524288 * p));
                assert(total.value() * 524288 < 0x1_0000_0000_0000_0000_0000_0000_0000_0000_0000_0000_0000_0000int);
            }
            total = total.mul_u64(KEYS_PER_ROUND);
            i = i + 1;
        }
        proof {
            assert(total.value() == spec_total_keys(*self));
        }
        total
    }
}

} // verus!
