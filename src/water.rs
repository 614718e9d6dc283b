//! The water-filling walk, stated over numbers.
//!
//! The walk visits the assets in their sorted order. Before index `i` the
//! assets `0..i` that it has visited stand at a common deviation `level`;
//! `remaining` is the part of the contribution not yet handed out, and
//! `cumulative` the sum of their target values.
use vstd::prelude::*;
use crate::ratio::{lemma_eqv_chain, lemma_eqv_sym, lemma_eqv_trans, lemma_minus_plus, lemma_minus_telescope, lemma_plus_comm, lemma_plus_congr, lemma_plus_minus_cancel, lemma_plus_zero_valued, lemma_sum_sign, lemma_swap_middle, lemma_times_comm, lemma_times_congr, lemma_times_distrib, lemma_times_over_cancel, lemma_valid_ops, Frac};

verus! {

/// The state of the walk before an index.
pub struct WalkState {
    pub level: Frac,
    pub remaining: Frac,
    pub cumulative: Frac,
    /// The number of leading assets that receive a delta.
    pub stop: nat,
    /// The walk has ended: the contribution is used up.
    pub done: bool,
}

/// The deviation that the asset at `k` is raised (or lowered) to next: that of
/// the following asset, or zero after the last one.
pub open spec fn next_deviation(devs: Seq<Frac>, k: int) -> Frac {
    if k + 1 < devs.len() {
        devs[k + 1]
    } else {
        Frac::zero()
    }
}

pub open spec fn walk_start(contribution: Frac) -> WalkState {
    WalkState {
        level: Frac::zero(),
        remaining: contribution,
        cumulative: Frac::zero(),
        stop: 0,
        done: false,
    }
}

/// One step of the walk, at index `k`: bring the assets `0..=k` to the next
/// deviation if what remains pays for it; else spend the rest on them and stop.
pub open spec fn walk_step(tvs: Seq<Frac>, devs: Seq<Frac>, s: WalkState, k: int) -> WalkState {
    if s.remaining.is_zero() {
        WalkState { done: true, ..s }
    } else {
        let cumulative = s.cumulative.plus(tvs[k]);
        let next = next_deviation(devs, k);
        let cost = cumulative.times(next.minus(devs[k]));
        if cost.abs().le(s.remaining.abs()) {
            WalkState {
                level: next,
                remaining: s.remaining.minus(cost),
                cumulative,
                stop: (k + 1) as nat,
                done: false,
            }
        } else {
            WalkState {
                level: devs[k].plus(s.remaining.over(cumulative)),
                remaining: s.remaining,
                cumulative,
                stop: (k + 1) as nat,
                done: true,
            }
        }
    }
}

/// The state of the walk over target values `tvs` and deviations `devs` before
/// index `i`.
pub open spec fn walk(tvs: Seq<Frac>, devs: Seq<Frac>, contribution: Frac, i: nat) -> WalkState
    decreases i,
{
    if i == 0 {
        walk_start(contribution)
    } else {
        let s = walk(tvs, devs, contribution, (i - 1) as nat);
        if s.done {
            s
        } else {
            walk_step(tvs, devs, s, i - 1)
        }
    }
}

/// The delta of an asset that the walk reaches: what moves it to `level`.
pub open spec fn delta_for(tv: Frac, dev: Frac, level: Frac) -> Frac {
    tv.times(level.minus(dev))
}

/// Once the walk has ended, it stays as it was.
pub proof fn lemma_walk_done(tvs: Seq<Frac>, devs: Seq<Frac>, c: Frac, i: nat, j: nat)
    requires
        i <= j,
        walk(tvs, devs, c, i).done,
    ensures
        walk(tvs, devs, c, j) == walk(tvs, devs, c, i),
    decreases j - i,
{
    if i < j {
        lemma_walk_done(tvs, devs, c, i, (j - 1) as nat);
    }
}

/// The walk never stops past the index it has reached.
pub proof fn lemma_walk_stop(tvs: Seq<Frac>, devs: Seq<Frac>, c: Frac, i: nat)
    ensures
        walk(tvs, devs, c, i).stop <= i,
        !walk(tvs, devs, c, i).done ==> walk(tvs, devs, c, i).stop == i,
    decreases i,
{
    if i > 0 {
        lemma_walk_stop(tvs, devs, c, (i - 1) as nat);
    }
}

/// The sum of the first `m` target values.
pub open spec fn cum_sum(tvs: Seq<Frac>, m: nat) -> Frac
    decreases m,
{
    if m == 0 {
        Frac::zero()
    } else {
        cum_sum(tvs, (m - 1) as nat).plus(tvs[m - 1])
    }
}

/// What the first `m` assets receive when each is moved to `level`.
pub open spec fn fill(tvs: Seq<Frac>, devs: Seq<Frac>, level: Frac, m: nat) -> Frac
    decreases m,
{
    if m == 0 {
        Frac::zero()
    } else {
        fill(tvs, devs, level, (m - 1) as nat).plus(delta_for(tvs[m - 1], devs[m - 1], level))
    }
}

/// Valid target values of one strict sign, and valid deviations, one of each per asset.
pub open spec fn walk_inputs_ok(tvs: Seq<Frac>, devs: Seq<Frac>, positive: bool) -> bool {
    &&& tvs.len() == devs.len()
    &&& forall|k: int|
        0 <= k < tvs.len() ==> {
            &&& (#[trigger] tvs[k]).valid()
            &&& devs[k].valid()
            &&& if positive {
                tvs[k].is_pos()
            } else {
                tvs[k].is_neg()
            }
        }
}

pub proof fn lemma_sums_valid(tvs: Seq<Frac>, devs: Seq<Frac>, level: Frac, m: nat, positive: bool)
    requires
        walk_inputs_ok(tvs, devs, positive),
        level.valid(),
        m <= tvs.len(),
    ensures
        cum_sum(tvs, m).valid(),
        fill(tvs, devs, level, m).valid(),
        positive ==> !cum_sum(tvs, m).is_neg(),
        !positive ==> !cum_sum(tvs, m).is_pos(),
    decreases m,
{
    if m > 0 {
        let k = m - 1;
        lemma_sums_valid(tvs, devs, level, (m - 1) as nat, positive);
        assert(0 <= k < tvs.len());
        let (t, d) = (tvs[k], devs[k]);
        assert(t.valid() && d.valid());
        lemma_valid_ops(cum_sum(tvs, (m - 1) as nat), tvs[k]);
        lemma_sum_sign(cum_sum(tvs, (m - 1) as nat), tvs[k]);
        lemma_valid_ops(level, devs[k]);
        lemma_valid_ops(tvs[k], level.minus(devs[k]));
        lemma_valid_ops(fill(tvs, devs, level, (m - 1) as nat), delta_for(tvs[k], devs[k], level));
    }
}

/// Moving every asset from `l1` to `l2` costs the cumulative target value
/// times the difference.
pub proof fn lemma_fill_shift(tvs: Seq<Frac>, devs: Seq<Frac>, l1: Frac, l2: Frac, m: nat, positive: bool)
    requires
        walk_inputs_ok(tvs, devs, positive),
        l1.valid(),
        l2.valid(),
        m <= tvs.len(),
    ensures
        fill(tvs, devs, l2, m).eqv(fill(tvs, devs, l1, m).plus(cum_sum(tvs, m).times(l2.minus(l1)))),
    decreases m,
{
    let step = l2.minus(l1);
    lemma_valid_ops(l2, l1);
    if m == 0 {
        lemma_plus_zero_valued(Frac::zero(), Frac::zero().times(step));
        lemma_eqv_sym(Frac::zero().plus(Frac::zero().times(step)), Frac::zero());
    } else {
        let k = m - 1;
        let m1 = (m - 1) as nat;
        lemma_fill_shift(tvs, devs, l1, l2, m1, positive);
        lemma_sums_valid(tvs, devs, l1, m1, positive);
        lemma_sums_valid(tvs, devs, l2, m1, positive);
        let (t, d) = (tvs[k], devs[k]);
        assert(t.valid() && d.valid());
        let a = fill(tvs, devs, l1, m1);
        let b = cum_sum(tvs, m1).times(step);
        let x = delta_for(t, d, l2);
        let y = delta_for(t, d, l1);
        let z = t.times(step);
        lemma_valid_ops(l1, d);
        lemma_valid_ops(l2, d);
        lemma_valid_ops(cum_sum(tvs, m1), step);
        lemma_valid_ops(t, step);
        lemma_valid_ops(t, l1.minus(d));
        lemma_valid_ops(t, l2.minus(d));
        lemma_valid_ops(l1.minus(d), step);
        lemma_valid_ops(a, b);
        lemma_valid_ops(y, z);
        lemma_valid_ops(a, y);
        lemma_valid_ops(b, z);
        // x ~ y + z
        lemma_minus_telescope(l1, l2, d);
        lemma_eqv_sym(l1.minus(d).plus(step), l2.minus(d));
        lemma_times_congr(t, t, l2.minus(d), l1.minus(d).plus(step));
        lemma_times_distrib(t, l1.minus(d), step);
        lemma_valid_ops(t, l1.minus(d).plus(step));
        lemma_eqv_trans(x, t.times(l1.minus(d).plus(step)), y.plus(z));
        // fill(l2, m) ~ (a + b) + x ~ (a + b) + (y + z) ~ (a + y) + (b + z)
        lemma_plus_congr(fill(tvs, devs, l2, m1), a.plus(b), x, y.plus(z));
        lemma_swap_middle(a, b, y, z);
        lemma_valid_ops(a.plus(b), y.plus(z));
        lemma_eqv_trans(fill(tvs, devs, l2, m), a.plus(b).plus(y.plus(z)), a.plus(y).plus(b.plus(z)));
        // cum(m) * step ~ step * cum(m-1) + step * t ~ b + z
        let cm = cum_sum(tvs, m1);
        lemma_valid_ops(cm, t);
        lemma_times_comm(cm.plus(t), step);
        lemma_times_distrib(step, cm, t);
        lemma_times_comm(step, cm);
        lemma_times_comm(step, t);
        lemma_valid_ops(step, cm);
        lemma_valid_ops(step, t);
        lemma_plus_congr(step.times(cm), b, step.times(t), z);
        lemma_valid_ops(step, cm.plus(t));
        lemma_valid_ops(step.times(cm), step.times(t));
        lemma_eqv_chain(cm.plus(t).times(step), step.times(cm.plus(t)), step.times(cm).plus(step.times(t)), b.plus(z));
        lemma_plus_congr(a.plus(y), a.plus(y), cm.plus(t).times(step), b.plus(z));
        lemma_valid_ops(a.plus(y), b.plus(z));
        lemma_eqv_sym(a.plus(y).plus(cm.plus(t).times(step)), a.plus(y).plus(b.plus(z)));
        lemma_eqv_trans(fill(tvs, devs, l2, m), a.plus(y).plus(b.plus(z)), a.plus(y).plus(cm.plus(t).times(step)));
    }
}

/// The walk hands out what it has spent: the assets before its stop, moved to
/// its level, receive the contribution less what remains, and all of it once
/// the walk has ended.
pub proof fn lemma_walk_conserves(tvs: Seq<Frac>, devs: Seq<Frac>, c: Frac, i: nat, positive: bool)
    requires
        walk_inputs_ok(tvs, devs, positive),
        c.valid(),
        i <= tvs.len(),
    ensures
        walk(tvs, devs, c, i).cumulative == cum_sum(tvs, walk(tvs, devs, c, i).stop),
        walk(tvs, devs, c, i).stop <= i,
        walk(tvs, devs, c, i).level.valid(),
        walk(tvs, devs, c, i).remaining.valid(),
        !walk(tvs, devs, c, i).done ==> walk(tvs, devs, c, i).stop == i,
        !walk(tvs, devs, c, i).done && i > 0 ==> walk(tvs, devs, c, i).level == next_deviation(devs, i - 1),
        walk(tvs, devs, c, i).done ==> fill(tvs, devs, walk(tvs, devs, c, i).level, walk(tvs, devs, c, i).stop).eqv(c),
        !walk(tvs, devs, c, i).done ==> fill(tvs, devs, walk(tvs, devs, c, i).level, walk(tvs, devs, c, i).stop).eqv(
            c.minus(walk(tvs, devs, c, i).remaining),
        ),
    decreases i,
{
    if i == 0 {
        assert(walk(tvs, devs, c, 0) == walk_start(c));
        assert(c.minus(c).num == 0);
    } else {
        let k = i - 1;
        let k1 = (i - 1) as nat;
        lemma_walk_conserves(tvs, devs, c, k1, positive);
        let s = walk(tvs, devs, c, k1);
        if !s.done {
            assert(0 <= k < tvs.len());
            let (t, d) = (tvs[k], devs[k]);
            assert(t.valid() && d.valid());
            let rem = s.remaining;
            lemma_sums_valid(tvs, devs, s.level, k1, positive);
            lemma_sums_valid(tvs, devs, d, k1, positive);
            lemma_valid_ops(c, rem);
            // the assets before k, moved to d, received c - rem
            assert(fill(tvs, devs, d, k1) == fill(tvs, devs, s.level, k1));
            if rem.is_zero() {
                lemma_plus_zero_valued(c, rem);
                lemma_eqv_trans(fill(tvs, devs, s.level, k1), c.minus(rem), c);
            } else {
                let cum = cum_sum(tvs, i);
                assert(cum == s.cumulative.plus(t));
                let next = next_deviation(devs, k);
                if k + 1 < devs.len() {
                    assert(tvs[k + 1].valid());
                }
                assert(next.valid());
                let cost = cum.times(next.minus(d));
                let f0 = fill(tvs, devs, d, k1);
                // moving asset k to its own deviation gives it nothing
                assert(delta_for(t, d, d).is_zero()) by {
                    assert(d.minus(d).num == 0);
                    assert(t.num * 0 == 0);
                }
                lemma_plus_zero_valued(f0, delta_for(t, d, d));
                lemma_sums_valid(tvs, devs, d, i, positive);
                lemma_eqv_trans(fill(tvs, devs, d, i), f0, c.minus(rem));
                let f1 = fill(tvs, devs, d, i);
                lemma_sums_valid(tvs, devs, d, k1, positive);
                lemma_valid_ops(s.cumulative, t);
                lemma_sum_sign(s.cumulative, t);
                lemma_valid_ops(next, d);
                lemma_valid_ops(cum, next.minus(d));
                if cost.abs().le(rem.abs()) {
                    lemma_fill_shift(tvs, devs, d, next, i, positive);
                    lemma_plus_congr(f1, c.minus(rem), cost, cost);
                    lemma_valid_ops(f1, cost);
                    lemma_eqv_trans(fill(tvs, devs, next, i), f1.plus(cost), c.minus(rem).plus(cost));
                    lemma_minus_plus(c, rem, cost);
                    lemma_valid_ops(c.minus(rem), cost);
                    lemma_eqv_trans(fill(tvs, devs, next, i), c.minus(rem).plus(cost), c.minus(rem.minus(cost)));
                    lemma_valid_ops(rem, cost);
                } else {
                    let q = rem.over(cum);
                    let level = d.plus(q);
                    lemma_valid_ops(rem, cum);
                    lemma_valid_ops(d, q);
                    lemma_valid_ops(level, d);
                    lemma_fill_shift(tvs, devs, d, level, i, positive);
                    // cum * (level - d) ~ cum * q ~ rem
                    lemma_plus_comm(d, q);
                    lemma_valid_ops(q, d);
                    lemma_plus_congr(level, q.plus(d), d, d);
                    lemma_plus_minus_cancel(q, d);
                    lemma_valid_ops(q.plus(d), d);
                    lemma_eqv_trans(level.minus(d), q.plus(d).minus(d), q);
                    lemma_times_congr(cum, cum, level.minus(d), q);
                    lemma_times_over_cancel(cum, rem);
                    lemma_valid_ops(cum, q);
                    lemma_eqv_trans(cum.times(level.minus(d)), cum.times(q), rem);
                    // fill(level, i) ~ f1 + cum * (level - d) ~ (c - rem) + rem ~ c
                    lemma_valid_ops(cum, level.minus(d));
                    lemma_plus_congr(f1, c.minus(rem), cum.times(level.minus(d)), rem);
                    lemma_valid_ops(f1, cum.times(level.minus(d)));
                    lemma_plus_minus_cancel(c, rem);
                    lemma_valid_ops(c.minus(rem), rem);
                    lemma_eqv_chain(fill(tvs, devs, level, i), f1.plus(cum.times(level.minus(d))), c.minus(rem).plus(rem), c);
                }
            }
        }
    }
}

} // verus!
