//! Properties of the rebalancing engine, proved from its contract.
use vstd::prelude::*;
use crate::ratio::{
    lemma_eqv_chain, lemma_eqv_sign, lemma_eqv_sym, lemma_eqv_trans, lemma_lt_trans, lemma_order_congr,
    lemma_over_congr, lemma_plus_comm, lemma_plus_congr, lemma_plus_minus_cancel, lemma_plus_zero_valued,
    lemma_shift_both, lemma_times_congr, lemma_times_distrib, lemma_times_over_cancel, lemma_valid_ops, Frac,
};
use crate::rebalance::{
    all_valid, deltas_follow_walk, deviation_for, devs_of, evaluated_from, goes_before, grand_total,
    lemma_times_sign, lemma_total_valid, outcome, ranks_before, rebalanced, sorted_from, target_value_for,
    total_value, tvs_of, AssetView,
};
use crate::sums::{
    difference, lemma_sum_congr, lemma_sum_ext, lemma_sum_minus, lemma_sum_permute, lemma_sum_scale,
    lemma_sum_valid, permuted, scaled, sum_to, valid_to,
};
use crate::water::{
    fill, lemma_sums_valid, lemma_walk_conserves, lemma_walk_done, lemma_walk_stop, walk, walk_inputs_ok,
    walk_start,
};

verus! {

/// The assets that get a delta are a leading run of the result: every asset
/// from the walk's stop on gets none, and every one before it gets one.
pub proof fn lemma_untouched_tail(a: Seq<AssetView>, c: Frac, r: Seq<AssetView>)
    requires
        rebalanced(a, c, r),
    ensures
        outcome(r, c).stop <= r.len(),
        forall|k: int| 0 <= k < r.len() ==> ((#[trigger] r[k]).delta is Some <==> k < outcome(r, c).stop),
{
    lemma_walk_stop(tvs_of(r), devs_of(r), c, r.len());
    assert forall|k: int| 0 <= k < r.len() implies ((#[trigger] r[k]).delta is Some <==> k < outcome(r, c).stop) by {
        assert(deltas_follow_walk(r, c));
    }
}

/// The result is ordered by deviation: ascending for a deposit or no
/// contribution, descending for a withdrawal.
pub proof fn lemma_sorted_by_deviation(a: Seq<AssetView>, c: Frac, r: Seq<AssetView>)
    requires
        rebalanced(a, c, r),
    ensures
        forall|k: int, l: int|
            0 <= k < l < r.len() ==> if c.is_neg() {
                (#[trigger] r[l]).deviation.unwrap().le((#[trigger] r[k]).deviation.unwrap())
            } else {
                r[k].deviation.unwrap().le(r[l].deviation.unwrap())
            },
{
    let p = choose|p: Seq<int>| sorted_from(a, c, r, p);
    assert forall|k: int, l: int| 0 <= k < l < r.len() implies if c.is_neg() {
        (#[trigger] r[l]).deviation.unwrap().le((#[trigger] r[k]).deviation.unwrap())
    } else {
        r[k].deviation.unwrap().le(r[l].deviation.unwrap())
    } by {
        assert(goes_before(devs_of(r)[k], p[k], devs_of(r)[l], p[l], c.is_neg()));
    }
}

/// Deltas go to the assets furthest from target first: an asset that ranks
/// strictly ahead of one with a delta (lower deviation for a deposit, higher
/// for a withdrawal) has a delta too.
pub proof fn lemma_fill_order(a: Seq<AssetView>, c: Frac, r: Seq<AssetView>)
    requires
        rebalanced(a, c, r),
    ensures
        forall|j: int, k: int|
            0 <= j < r.len() && 0 <= k < r.len() && (#[trigger] r[k]).delta is Some && ranks_before(
                (#[trigger] r[j]).deviation.unwrap(),
                r[k].deviation.unwrap(),
                c.is_neg(),
            ) ==> r[j].delta is Some,
{
    let p = choose|p: Seq<int>| sorted_from(a, c, r, p);
    lemma_untouched_tail(a, c, r);
    assert forall|j: int, k: int|
        0 <= j < r.len() && 0 <= k < r.len() && (#[trigger] r[k]).delta is Some && ranks_before(
            (#[trigger] r[j]).deviation.unwrap(),
            r[k].deviation.unwrap(),
            c.is_neg(),
        ) implies r[j].delta is Some by {
        assert(evaluated_from(a, c, r[j], p[j]));
        assert(evaluated_from(a, c, r[k], p[k]));
        let (dj, dk) = (r[j].deviation.unwrap(), r[k].deviation.unwrap());
        if k < j {
            assert(goes_before(devs_of(r)[k], p[k], devs_of(r)[j], p[j], c.is_neg()));
            lemma_lt_trans(dj, dk, dj);
            lemma_lt_trans(dk, dj, dk);
        }
    }
}

/// With no contribution, no asset gets a delta, and each deviation is the
/// one against the portfolio's present total: `value / (total * target) - 1`.
pub proof fn lemma_no_contribution(a: Seq<AssetView>, c: Frac, r: Seq<AssetView>)
    requires
        all_valid(a),
        c.valid(),
        c.is_zero(),
        rebalanced(a, c, r),
    ensures
        forall|k: int| 0 <= k < r.len() ==> (#[trigger] r[k]).delta is None,
        forall|k: int|
            0 <= k < r.len() ==> (#[trigger] r[k]).deviation.unwrap().eqv(
                r[k].value.over(total_value(a).times(r[k].target_fraction)).minus(Frac::one()),
            ),
{
    let tvs = tvs_of(r);
    let devs = devs_of(r);
    assert(walk(tvs, devs, c, 0) == crate::water::walk_start(c));
    if r.len() > 0 {
        assert(walk(tvs, devs, c, 1).done);
        lemma_walk_done(tvs, devs, c, 1, r.len());
    }
    assert(outcome(r, c).stop == 0);
    assert forall|k: int| 0 <= k < r.len() implies (#[trigger] r[k]).delta is None by {
        assert(deltas_follow_walk(r, c));
    }
    let p = choose|p: Seq<int>| sorted_from(a, c, r, p);
    let t = total_value(a);
    lemma_total_valid(a);
    // with c zero, the grand total is the total
    assert(grand_total(a, c).eqv(t)) by {
        assert(c.num == 0);
        assert((t.num * c.den + c.num * t.den) * t.den == t.num * (t.den * c.den)) by (nonlinear_arith)
            requires
                c.num == 0,
        ;
    }
    lemma_valid_ops(t, c);
    assert forall|k: int| 0 <= k < r.len() implies (#[trigger] r[k]).deviation.unwrap().eqv(
        r[k].value.over(total_value(a).times(r[k].target_fraction)).minus(Frac::one()),
    ) by {
        assert(0 <= p[k] < a.len());
        assert(evaluated_from(a, c, r[k], p[k]));
        let ai = a[p[k]];
        assert(ai.is_valid());
        let g = grand_total(a, c);
        let tv = target_value_for(ai, g);
        let tv0 = t.times(ai.target_fraction);
        lemma_times_congr(g, t, ai.target_fraction, ai.target_fraction);
        lemma_valid_ops(g, ai.target_fraction);
        lemma_valid_ops(t, ai.target_fraction);
        assert(!tv.is_zero());
        assert(!tv0.is_zero()) by {
            crate::ratio::lemma_eqv_sign(tv, tv0);
        }
        lemma_over_congr(ai.value, ai.value, tv, tv0);
        lemma_valid_ops(ai.value, tv);
        lemma_valid_ops(ai.value, tv0);
        lemma_plus_congr(ai.value.over(tv), ai.value.over(tv0), Frac::one(), Frac::one());
        lemma_valid_ops(ai.value.over(tv), Frac::one());
        lemma_eqv_trans(r[k].deviation.unwrap(), deviation_for(ai, tv), deviation_for(ai, tv0));
    }
}

/// The deltas of the first `m` assets, added up; an asset without one counts zero.
pub open spec fn delta_total(r: Seq<AssetView>, m: nat) -> Frac
    decreases m,
{
    if m == 0 {
        Frac::zero()
    } else {
        delta_total(r, (m - 1) as nat).plus(
            match r[m - 1].delta {
                Some(d) => d,
                None => Frac::zero(),
            },
        )
    }
}

/// The target values of a rebalanced portfolio are valid and share the sign of
/// the grand total.
proof fn lemma_target_signs(a: Seq<AssetView>, c: Frac, r: Seq<AssetView>)
    requires
        all_valid(a),
        c.valid(),
        rebalanced(a, c, r),
    ensures
        walk_inputs_ok(tvs_of(r), devs_of(r), grand_total(a, c).is_pos()),
{
    let p = choose|p: Seq<int>| sorted_from(a, c, r, p);
    let g = grand_total(a, c);
    lemma_total_valid(a);
    lemma_valid_ops(total_value(a), c);
    assert forall|k: int| 0 <= k < tvs_of(r).len() implies {
        &&& (#[trigger] tvs_of(r)[k]).valid()
        &&& devs_of(r)[k].valid()
        &&& if g.is_pos() {
            tvs_of(r)[k].is_pos()
        } else {
            tvs_of(r)[k].is_neg()
        }
    } by {
        assert(0 <= p[k] < a.len());
        assert(evaluated_from(a, c, r[k], p[k]));
        let ai = a[p[k]];
        assert(ai.is_valid());
        let tv = target_value_for(ai, g);
        assert(!tv.is_zero());
        lemma_valid_ops(g, ai.target_fraction);
        lemma_times_sign(g, ai.target_fraction);
        lemma_eqv_sign(r[k].target_value.unwrap(), tv);
    }
}

proof fn lemma_delta_total_fill(a: Seq<AssetView>, c: Frac, r: Seq<AssetView>, m: nat)
    requires
        all_valid(a),
        c.valid(),
        rebalanced(a, c, r),
        m <= r.len(),
    ensures
        delta_total(r, m).valid(),
        delta_total(r, m).eqv(
            fill(
                tvs_of(r),
                devs_of(r),
                outcome(r, c).level,
                if m <= outcome(r, c).stop { m } else { outcome(r, c).stop },
            ),
        ),
    decreases m,
{
    let w = outcome(r, c);
    let positive = grand_total(a, c).is_pos();
    lemma_target_signs(a, c, r);
    lemma_walk_conserves(tvs_of(r), devs_of(r), c, r.len(), positive);
    if m > 0 {
        let m1 = (m - 1) as nat;
        let k = m - 1;
        lemma_delta_total_fill(a, c, r, m1);
        let p = choose|p: Seq<int>| sorted_from(a, c, r, p);
        assert(evaluated_from(a, c, r[k], p[k]));
        assert(deltas_follow_walk(r, c));
        let prev = delta_total(r, m1);
        let dk = match r[k].delta {
            Some(d) => d,
            None => Frac::zero(),
        };
        assert(dk.valid());
        lemma_valid_ops(prev, dk);
        let tvs = tvs_of(r);
        let devs = devs_of(r);
        if k < w.stop {
            assert(tvs[k] == r[k].target_value.unwrap());
            assert(devs[k] == r[k].deviation.unwrap());
            let f = fill(tvs, devs, w.level, m1);
            lemma_plus_congr(prev, f, dk, crate::water::delta_for(tvs[k], devs[k], w.level));
        } else {
            assert(dk == Frac::zero());
            lemma_plus_zero_valued(prev, dk);
            let f = fill(tvs, devs, w.level, w.stop);
            lemma_sums_fill_valid(a, c, r);
            lemma_eqv_trans(delta_total(r, m), prev, f);
        }
    }
}

proof fn lemma_sums_fill_valid(a: Seq<AssetView>, c: Frac, r: Seq<AssetView>)
    requires
        all_valid(a),
        c.valid(),
        rebalanced(a, c, r),
    ensures
        fill(tvs_of(r), devs_of(r), outcome(r, c).level, outcome(r, c).stop).valid(),
{
    let positive = grand_total(a, c).is_pos();
    lemma_target_signs(a, c, r);
    lemma_walk_conserves(tvs_of(r), devs_of(r), c, r.len(), positive);
    crate::water::lemma_sums_valid(tvs_of(r), devs_of(r), outcome(r, c).level, outcome(r, c).stop, positive);
}

/// The deltas add up to the contribution exactly, unless the walk passes the
/// last asset with part of the contribution left over; then they add up to
/// the contribution less that part.
pub proof fn lemma_deltas_sum_to_contribution(a: Seq<AssetView>, c: Frac, r: Seq<AssetView>)
    requires
        all_valid(a),
        c.valid(),
        rebalanced(a, c, r),
    ensures
        outcome(r, c).done ==> delta_total(r, r.len()).eqv(c),
        !outcome(r, c).done ==> outcome(r, c).stop == r.len() && delta_total(r, r.len()).eqv(
            c.minus(outcome(r, c).remaining),
        ),
{
    let positive = grand_total(a, c).is_pos();
    lemma_target_signs(a, c, r);
    lemma_walk_conserves(tvs_of(r), devs_of(r), c, r.len(), positive);
    lemma_delta_total_fill(a, c, r, r.len());
    lemma_sums_fill_valid(a, c, r);
    let w = outcome(r, c);
    let f = fill(tvs_of(r), devs_of(r), w.level, w.stop);
    if w.done {
        lemma_eqv_trans(delta_total(r, r.len()), f, c);
    } else {
        lemma_eqv_trans(delta_total(r, r.len()), f, c.minus(w.remaining));
    }
}

/// The deviation of an asset once its delta is applied.
pub open spec fn post_deviation(x: AssetView) -> Frac {
    x.value.plus(x.delta.unwrap()).over(x.target_value.unwrap()).minus(Frac::one())
}

/// An asset of value `v` and deviation `d` that receives `tv * (level - d)`
/// then holds `tv * (level + 1)`.
proof fn lemma_receives(v: Frac, tv: Frac, d: Frac, dl: Frac, level: Frac)
    requires
        v.valid(),
        tv.valid(),
        d.valid(),
        dl.valid(),
        level.valid(),
        !tv.is_zero(),
        d.eqv(v.over(tv).minus(Frac::one())),
        dl.eqv(tv.times(level.minus(d))),
    ensures
        v.plus(dl).eqv(tv.times(level.plus(Frac::one()))),
{
    let one = Frac::one();
    let u = v.over(tv);
    crate::ratio::lemma_valid_ops(v, tv);
    crate::ratio::lemma_valid_ops(u, one);
    crate::ratio::lemma_valid_ops(d, one);
    crate::ratio::lemma_valid_ops(level, one);
    crate::ratio::lemma_valid_ops(level, d);
    crate::ratio::lemma_valid_ops(u.minus(one), one);
    // d + 1 ~ u
    lemma_plus_congr(d, u.minus(one), one, one);
    lemma_plus_minus_cancel(u, one);
    lemma_eqv_trans(d.plus(one), u.minus(one).plus(one), u);
    // tv * (level - d) ~ tv * (level + 1) - tv * (d + 1)
    let lp = level.plus(one);
    let dp = d.plus(one);
    lemma_shift_both(level, d, one);
    crate::ratio::lemma_valid_ops(lp, dp);
    lemma_times_congr(tv, tv, level.minus(d), lp.minus(dp));
    lemma_times_distrib(tv, lp, dp);
    crate::ratio::lemma_valid_ops(tv, lp.minus(dp));
    crate::ratio::lemma_valid_ops(tv, level.minus(d));
    lemma_eqv_trans(tv.times(level.minus(d)), tv.times(lp.minus(dp)), tv.times(lp).minus(tv.times(dp)));
    // tv * (d + 1) ~ tv * u ~ v
    lemma_times_congr(tv, tv, dp, u);
    lemma_times_over_cancel(tv, v);
    crate::ratio::lemma_valid_ops(tv, u);
    lemma_eqv_trans(tv.times(dp), tv.times(u), v);
    crate::ratio::lemma_valid_ops(tv, lp);
    crate::ratio::lemma_valid_ops(tv, dp);
    lemma_plus_congr(tv.times(lp), tv.times(lp), tv.times(dp), v);
    crate::ratio::lemma_valid_ops(tv.times(lp), tv.times(dp));
    let w = tv.times(lp).minus(v);
    crate::ratio::lemma_valid_ops(tv.times(lp), v);
    lemma_eqv_chain(dl, tv.times(level.minus(d)), tv.times(lp).minus(tv.times(dp)), w);
    // v + dl ~ v + w ~ w + v ~ tv * (level + 1)
    lemma_plus_congr(v, v, dl, w);
    lemma_plus_comm(v, w);
    lemma_plus_minus_cancel(tv.times(lp), v);
    crate::ratio::lemma_valid_ops(v, w);
    crate::ratio::lemma_valid_ops(w, v);
    lemma_eqv_chain(v.plus(dl), v.plus(w), w.plus(v), tv.times(lp));
}

/// An asset with deviation `d` that receives `tv * (level - d)` ends at `level`.
proof fn lemma_lands_on_level(v: Frac, tv: Frac, d: Frac, dl: Frac, level: Frac)
    requires
        v.valid(),
        tv.valid(),
        d.valid(),
        dl.valid(),
        level.valid(),
        !tv.is_zero(),
        d.eqv(v.over(tv).minus(Frac::one())),
        dl.eqv(tv.times(level.minus(d))),
    ensures
        v.plus(dl).over(tv).minus(Frac::one()).eqv(level),
{
    let one = Frac::one();
    let lp = level.plus(one);
    lemma_receives(v, tv, d, dl, level);
    crate::ratio::lemma_valid_ops(level, one);
    crate::ratio::lemma_valid_ops(tv, lp);
    // (v + dl) / tv ~ level + 1, and less one is level
    crate::ratio::lemma_valid_ops(v, dl);
    lemma_over_congr(v.plus(dl), tv.times(lp), tv, tv);
    lemma_times_over_cancel(tv, lp);
    crate::ratio::lemma_valid_ops(v.plus(dl), tv);
    crate::ratio::lemma_valid_ops(tv.times(lp), tv);
    lemma_eqv_trans(v.plus(dl).over(tv), tv.times(lp).over(tv), lp);
    lemma_plus_congr(v.plus(dl).over(tv), lp, one, one);
    lemma_plus_minus_cancel(level, one);
    crate::ratio::lemma_valid_ops(lp, one);
    lemma_eqv_trans(v.plus(dl).over(tv).minus(one), lp.minus(one), level);
}

/// Every asset that receives a delta ends at the same deviation: the walk's level.
pub proof fn lemma_equalization(a: Seq<AssetView>, c: Frac, r: Seq<AssetView>)
    requires
        all_valid(a),
        c.valid(),
        rebalanced(a, c, r),
    ensures
        forall|k: int|
            0 <= k < r.len() && (#[trigger] r[k]).delta is Some ==> post_deviation(r[k]).eqv(outcome(r, c).level),
{
    let positive = grand_total(a, c).is_pos();
    lemma_target_signs(a, c, r);
    lemma_walk_conserves(tvs_of(r), devs_of(r), c, r.len(), positive);
    let p = choose|p: Seq<int>| sorted_from(a, c, r, p);
    let g = grand_total(a, c);
    let w = outcome(r, c);
    assert forall|k: int|
        0 <= k < r.len() && (#[trigger] r[k]).delta is Some implies post_deviation(r[k]).eqv(w.level) by {
        assert(deltas_follow_walk(r, c));
        assert(evaluated_from(a, c, r[k], p[k]));
        assert(tvs_of(r)[k] == r[k].target_value.unwrap());
        let ai = a[p[k]];
        let tv = r[k].target_value.unwrap();
        let tvs = target_value_for(ai, g);
        let v = r[k].value;
        assert(tv.is_pos() || tv.is_neg());
        assert(0 <= p[k] < a.len());
        assert(ai.is_valid());
        lemma_total_valid(a);
        crate::ratio::lemma_valid_ops(total_value(a), c);
        crate::ratio::lemma_valid_ops(g, ai.target_fraction);
        lemma_eqv_sign(tv, tvs);
        // the deviation, against the target value held
        lemma_eqv_sym(tv, tvs);
        lemma_over_congr(v, v, tvs, tv);
        crate::ratio::lemma_valid_ops(v, tvs);
        crate::ratio::lemma_valid_ops(v, tv);
        lemma_plus_congr(v.over(tvs), v.over(tv), Frac::one(), Frac::one());
        crate::ratio::lemma_valid_ops(v.over(tvs), Frac::one());
        lemma_eqv_trans(r[k].deviation.unwrap(), deviation_for(ai, tvs), v.over(tv).minus(Frac::one()));
        lemma_lands_on_level(v, tv, r[k].deviation.unwrap(), r[k].delta.unwrap(), w.level);
    }
}

/// A portfolio of one asset whose target is the whole portfolio takes the
/// whole contribution, deposit or withdrawal: its delta is the contribution
/// (none at all for a contribution of zero).
pub proof fn lemma_single_asset_takes_all(a: Seq<AssetView>, c: Frac, r: Seq<AssetView>)
    requires
        all_valid(a),
        c.valid(),
        a.len() == 1,
        a[0].target_fraction.eqv(Frac::one()),
        rebalanced(a, c, r),
    ensures
        delta_total(r, 1).eqv(c),
        r[0].delta is Some ==> r[0].delta.unwrap().eqv(c),
        r[0].delta is None ==> c.is_zero(),
{
    let one = Frac::one();
    let zero = Frac::zero();
    let p = choose|p: Seq<int>| sorted_from(a, c, r, p);
    assert(p[0] == 0);
    lemma_deltas_sum_to_contribution(a, c, r);
    lemma_target_signs(a, c, r);
    let positive = grand_total(a, c).is_pos();
    lemma_walk_conserves(tvs_of(r), devs_of(r), c, 1, positive);
    let w = outcome(r, c);
    let x = r[0];
    assert(evaluated_from(a, c, x, 0));
    assert(a[0].is_valid());
    let v = x.value;
    let tv = x.target_value.unwrap();
    let d = x.deviation.unwrap();
    let g = grand_total(a, c);
    let tvs = target_value_for(a[0], g);
    assert(tvs_of(r)[0] == tv);
    assert(tv.is_pos() || tv.is_neg());
    // the grand total is v + c, and so is the target value
    assert(total_value(a) == zero.plus(v)) by {
        assert(a.drop_last().len() == 0);
        assert(total_value(a.drop_last()) == zero);
        assert(a.last() == a[0]);
    }
    crate::ratio::lemma_additive_zero(v);
    lemma_plus_congr(zero.plus(v), v, c, c);
    crate::ratio::lemma_valid_ops(zero, v);
    crate::ratio::lemma_valid_ops(zero.plus(v), c);
    crate::ratio::lemma_valid_ops(v, c);
    lemma_times_congr(g, g, a[0].target_fraction, one);
    crate::ratio::lemma_valid_ops(g, one);
    crate::ratio::lemma_valid_ops(g, a[0].target_fraction);
    assert(g.times(one).eqv(g)) by {
        crate::ratio::lemma_times_one(g);
    }
    lemma_eqv_chain(tv, tvs, g.times(one), g);
    lemma_eqv_trans(tv, g, v.plus(c));
    // the deviation, against the target value held
    lemma_eqv_sign(tv, tvs);
    lemma_eqv_sym(tv, tvs);
    lemma_over_congr(v, v, tvs, tv);
    crate::ratio::lemma_valid_ops(v, tvs);
    crate::ratio::lemma_valid_ops(v, tv);
    lemma_plus_congr(v.over(tvs), v.over(tv), one, one);
    crate::ratio::lemma_valid_ops(v.over(tvs), one);
    lemma_eqv_trans(d, deviation_for(a[0], tvs), v.over(tv).minus(one));
    if !w.done {
        // one full step from level zero: the cost is what moves the asset to zero
        assert(walk(tvs_of(r), devs_of(r), c, 0) == crate::water::walk_start(c));
        let cum = zero.plus(tv);
        let cost = cum.times(zero.minus(d));
        assert(w.remaining == c.minus(cost));
        let x0 = tv.times(zero.minus(d));
        crate::ratio::lemma_valid_ops(zero, d);
        crate::ratio::lemma_valid_ops(tv, zero.minus(d));
        lemma_eqv_sym(x0, x0);
        lemma_receives(v, tv, d, x0, zero);
        // v + x0 ~ tv * (0 + 1) ~ tv ~ v + c
        crate::ratio::lemma_times_one(tv);
        assert(zero.plus(one) == one);
        crate::ratio::lemma_valid_ops(v, x0);
        lemma_eqv_chain(v.plus(x0), tv.times(one), tv, v.plus(c));
        // so x0 ~ c
        crate::ratio::lemma_cancel_left(v, x0, c);
        // cost ~ x0 ~ c, and c - (c - cost) ~ cost
        crate::ratio::lemma_additive_zero(tv);
        crate::ratio::lemma_valid_ops(zero, tv);
        lemma_times_congr(cum, tv, zero.minus(d), zero.minus(d));
        crate::ratio::lemma_valid_ops(cum, zero.minus(d));
        lemma_eqv_trans(cost, x0, c);
        crate::ratio::lemma_minus_plus(c, c, cost);
        lemma_eqv_sym(c.minus(c).plus(cost), c.minus(c.minus(cost)));
        crate::ratio::lemma_valid_ops(c, c);
        crate::ratio::lemma_plus_comm(c.minus(c), cost);
        crate::ratio::lemma_plus_zero_valued(cost, c.minus(c));
        crate::ratio::lemma_valid_ops(c.minus(c), cost);
        crate::ratio::lemma_valid_ops(cost, c.minus(c));
        lemma_eqv_chain(c.minus(c.minus(cost)), c.minus(c).plus(cost), cost.plus(c.minus(c)), cost);
        crate::ratio::lemma_valid_ops(c, c.minus(cost));
        lemma_eqv_trans(c.minus(c.minus(cost)), cost, c);
        crate::ratio::lemma_valid_ops(c, cost);
        lemma_eqv_trans(delta_total(r, 1), c.minus(w.remaining), c);
    }
    // the total over one asset is that asset's delta
    let d0 = match x.delta {
        Some(dd) => dd,
        None => zero,
    };
    assert(delta_total(r, 0) == zero);
    assert(delta_total(r, 1) == zero.plus(d0));
    crate::ratio::lemma_additive_zero(d0);
    assert(d0.valid());
    lemma_eqv_sym(zero.plus(d0), d0);
    crate::ratio::lemma_valid_ops(zero, d0);
    lemma_eqv_trans(d0, zero.plus(d0), c);
    if x.delta is None {
        assert(d0 == zero);
        assert(c.num * 1 == 0 * c.den);
    }
}

/// For a deposit over deviations in ascending order, what remains is never
/// negative while assets are left, and the level is at least the deviation of
/// every asset the walk has reached, unless it has reached them all.
pub proof fn lemma_walk_rises(tvs: Seq<Frac>, devs: Seq<Frac>, c: Frac, i: nat)
    requires
        walk_inputs_ok(tvs, devs, true),
        c.valid(),
        c.is_pos(),
        i <= tvs.len(),
        forall|k: int, l: int| 0 <= k < l < devs.len() ==> (#[trigger] devs[k]).le(#[trigger] devs[l]),
    ensures
        walk(tvs, devs, c, i).stop < tvs.len() ==> !walk(tvs, devs, c, i).remaining.is_neg(),
        walk(tvs, devs, c, i).stop < tvs.len() ==> forall|j: int|
            0 <= j < walk(tvs, devs, c, i).stop ==> (#[trigger] devs[j]).le(walk(tvs, devs, c, i).level),
    decreases i,
{
    lemma_walk_conserves(tvs, devs, c, i, true);
    if i == 0 {
        assert(walk(tvs, devs, c, 0) == walk_start(c));
    } else {
        let k = i - 1;
        let k1 = (i - 1) as nat;
        lemma_walk_rises(tvs, devs, c, k1);
        lemma_walk_conserves(tvs, devs, c, k1, true);
        let s = walk(tvs, devs, c, k1);
        let w = walk(tvs, devs, c, i);
        if !s.done && !s.remaining.is_zero() && w.stop < tvs.len() {
            assert(0 <= k < tvs.len());
            let (t, d) = (tvs[k], devs[k]);
            assert(t.valid() && d.valid() && t.is_pos());
            let cum = s.cumulative.plus(t);
            lemma_sums_valid(tvs, devs, d, k1, true);
            crate::ratio::lemma_valid_ops(s.cumulative, t);
            crate::ratio::lemma_sum_sign(s.cumulative, t);
            let rem = s.remaining;
            // k is not the last asset, and the deviations rise
            assert(k + 1 < devs.len());
            let next = devs[k + 1];
            assert(tvs[k + 1].valid());
            assert(d.le(next));
            let cost = cum.times(next.minus(d));
            if cost.abs().le(rem.abs()) {
                assert(next.minus(d).num >= 0);
                crate::ratio::lemma_nonneg_times(cum, next.minus(d));
                assert(!cost.is_neg());
                assert(w.remaining == rem.minus(cost));
                assert forall|j: int| 0 <= j < w.stop implies (#[trigger] devs[j]).le(w.level) by {
                    assert(tvs[j].valid());
                    lemma_le_trans(devs[j], d, next);
                }
            } else {
                let q = rem.over(cum);
                crate::ratio::lemma_valid_ops(rem, cum);
                crate::ratio::lemma_nonneg_over(rem, cum);
                crate::ratio::lemma_le_plus_nonneg(d, q);
                assert forall|j: int| 0 <= j < w.stop implies (#[trigger] devs[j]).le(w.level) by {
                    assert(tvs[j].valid());
                    crate::ratio::lemma_valid_ops(rem, cum);
                    crate::ratio::lemma_valid_ops(d, q);
                    lemma_le_trans(devs[j], d, d.plus(q));
                }
            }
        }
    }
}

proof fn lemma_le_trans(a: Frac, b: Frac, c: Frac)
    requires
        a.valid(),
        b.valid(),
        c.valid(),
        a.le(b),
        b.le(c),
    ensures
        a.le(c),
{
    lemma_lt_trans(a, b, c);
}

/// How much a delta raises an asset's deviation: its deviation after the
/// delta less its deviation before; zero without a delta.
pub open spec fn deviation_rise(x: AssetView) -> Frac {
    if x.delta is Some {
        post_deviation(x).minus(x.deviation.unwrap())
    } else {
        Frac::zero()
    }
}

/// For a deposit, no asset overtakes another: one with a strictly lower
/// deviation before the deposit is raised at least as much.
pub proof fn lemma_no_crossing(a: Seq<AssetView>, c: Frac, r: Seq<AssetView>)
    requires
        all_valid(a),
        c.valid(),
        c.is_pos(),
        rebalanced(a, c, r),
    ensures
        forall|j: int, k: int|
            0 <= j < r.len() && 0 <= k < r.len() && (#[trigger] r[j]).deviation.unwrap().lt(
                (#[trigger] r[k]).deviation.unwrap(),
            ) ==> deviation_rise(r[k]).le(deviation_rise(r[j])),
{
    let g = grand_total(a, c);
    lemma_total_valid(a);
    crate::ratio::lemma_sum_sign(total_value(a), c);
    assert(g.is_pos());
    lemma_target_signs(a, c, r);
    let tvs = tvs_of(r);
    let devs = devs_of(r);
    lemma_walk_conserves(tvs, devs, c, r.len(), true);
    lemma_sorted_by_deviation(a, c, r);
    assert forall|k: int, l: int| 0 <= k < l < devs.len() implies (#[trigger] devs[k]).le(#[trigger] devs[l]) by {
        assert(devs[k] == r[k].deviation.unwrap());
        assert(devs[l] == r[l].deviation.unwrap());
    }
    lemma_walk_rises(tvs, devs, c, r.len());
    lemma_equalization(a, c, r);
    lemma_fill_order(a, c, r);
    lemma_untouched_tail(a, c, r);
    let w = outcome(r, c);
    assert forall|j: int, k: int|
        0 <= j < r.len() && 0 <= k < r.len() && (#[trigger] r[j]).deviation.unwrap().lt(
            (#[trigger] r[k]).deviation.unwrap(),
        ) implies deviation_rise(r[k]).le(deviation_rise(r[j])) by {
        let (dj, dk) = (r[j].deviation.unwrap(), r[k].deviation.unwrap());
        assert(tvs[j].valid() && tvs[k].valid());
        assert(devs[j] == dj && devs[k] == dk);
        let lv = w.level;
        if r[j].delta is Some {
            let pj = post_deviation(r[j]);
            assert(pj.eqv(lv));
            lemma_plus_congr(pj, lv, dj, dj);
            if r[k].delta is Some {
                let pk = post_deviation(r[k]);
                assert(pk.eqv(lv));
                lemma_plus_congr(pk, lv, dk, dk);
                crate::ratio::lemma_minus_anti(lv, dj, dk);
                assert(tvs[j] == r[j].target_value.unwrap());
                assert(tvs[k] == r[k].target_value.unwrap());
                assert(r[j].is_valid() && r[k].is_valid());
                crate::ratio::lemma_valid_ops(r[j].value, r[j].delta.unwrap());
                crate::ratio::lemma_valid_ops(r[k].value, r[k].delta.unwrap());
                crate::ratio::lemma_valid_ops(r[j].value.plus(r[j].delta.unwrap()), tvs[j]);
                crate::ratio::lemma_valid_ops(r[k].value.plus(r[k].delta.unwrap()), tvs[k]);
                crate::ratio::lemma_valid_ops(r[j].value.plus(r[j].delta.unwrap()).over(tvs[j]), Frac::one());
                crate::ratio::lemma_valid_ops(r[k].value.plus(r[k].delta.unwrap()).over(tvs[k]), Frac::one());
                crate::ratio::lemma_valid_ops(pj, dj);
                crate::ratio::lemma_valid_ops(pk, dk);
                crate::ratio::lemma_valid_ops(lv, dj);
                crate::ratio::lemma_valid_ops(lv, dk);
                lemma_order_congr(pk.minus(dk), lv.minus(dk), pj.minus(dj), lv.minus(dj));
            } else {
                assert(w.stop < r.len());
                assert(j < w.stop);
                assert(dj.le(lv));
                assert(r[j].is_valid());
                crate::ratio::lemma_valid_ops(r[j].value, r[j].delta.unwrap());
                crate::ratio::lemma_valid_ops(r[j].value.plus(r[j].delta.unwrap()), tvs[j]);
                crate::ratio::lemma_valid_ops(r[j].value.plus(r[j].delta.unwrap()).over(tvs[j]), Frac::one());
                crate::ratio::lemma_valid_ops(pj, dj);
                crate::ratio::lemma_valid_ops(lv, dj);
                assert(!lv.minus(dj).is_neg());
                lemma_eqv_sign(pj.minus(dj), lv.minus(dj));
            }
        } else {
            assert(!ranks_before(dj, dk, c.is_neg()) || r[k].delta is None);
        }
    }
}

/// The target fractions of the assets, by position.
pub open spec fn target_fractions(a: Seq<AssetView>) -> spec_fn(int) -> Frac {
    |i: int| a[i].target_fraction
}

/// The values of the assets, by position.
pub open spec fn values_of(a: Seq<AssetView>) -> spec_fn(int) -> Frac {
    |i: int| a[i].value
}

pub open spec fn fill_terms(tvs: Seq<Frac>, devs: Seq<Frac>, level: Frac) -> spec_fn(int) -> Frac {
    |k: int| crate::water::delta_for(tvs[k], devs[k], level)
}

proof fn lemma_fill_is_sum(tvs: Seq<Frac>, devs: Seq<Frac>, level: Frac, m: nat)
    ensures
        fill(tvs, devs, level, m) == sum_to(fill_terms(tvs, devs, level), m),
    decreases m,
{
    if m > 0 {
        lemma_fill_is_sum(tvs, devs, level, (m - 1) as nat);
    }
}

proof fn lemma_total_is_sum(a: Seq<AssetView>)
    ensures
        total_value(a) == sum_to(values_of(a), a.len()),
    decreases a.len(),
{
    if a.len() > 0 {
        let t = a.drop_last();
        lemma_total_is_sum(t);
        assert forall|i: int| 0 <= i < t.len() implies #[trigger] values_of(t)(i) == values_of(a)(i) by {
            assert(t[i] == a[i]);
        }
        lemma_sum_ext(values_of(t), values_of(a), t.len());
    }
}

/// Moving an asset of value `v` and deviation `d` to deviation zero gives it
/// `tv - v`.
proof fn lemma_to_target(v: Frac, tv: Frac, d: Frac)
    requires
        v.valid(),
        tv.valid(),
        d.valid(),
        !tv.is_zero(),
        d.eqv(v.over(tv).minus(Frac::one())),
    ensures
        tv.times(Frac::zero().minus(d)).eqv(tv.minus(v)),
{
    let zero = Frac::zero();
    let one = Frac::one();
    let x = tv.times(zero.minus(d));
    crate::ratio::lemma_valid_ops(zero, d);
    crate::ratio::lemma_valid_ops(tv, zero.minus(d));
    crate::ratio::lemma_eqv_refl(x);
    lemma_receives(v, tv, d, x, zero);
    assert(zero.plus(one) == one);
    crate::ratio::lemma_times_one(tv);
    crate::ratio::lemma_valid_ops(tv, one);
    crate::ratio::lemma_valid_ops(v, x);
    lemma_eqv_trans(v.plus(x), tv.times(one), tv);
    // v + (tv - v) ~ tv
    crate::ratio::lemma_valid_ops(tv, v);
    crate::ratio::lemma_plus_comm(v, tv.minus(v));
    crate::ratio::lemma_plus_minus_cancel(tv, v);
    crate::ratio::lemma_valid_ops(v, tv.minus(v));
    crate::ratio::lemma_valid_ops(tv.minus(v), v);
    lemma_eqv_trans(v.plus(tv.minus(v)), tv.minus(v).plus(v), tv);
    lemma_eqv_sym(v.plus(tv.minus(v)), tv);
    lemma_eqv_trans(v.plus(x), tv, v.plus(tv.minus(v)));
    crate::ratio::lemma_cancel_left(v, x, tv.minus(v));
}

/// When the target fractions add up to one, the deltas add up to the
/// contribution exactly.
pub proof fn lemma_conservation(a: Seq<AssetView>, c: Frac, r: Seq<AssetView>)
    requires
        all_valid(a),
        c.valid(),
        rebalanced(a, c, r),
        sum_to(target_fractions(a), a.len()).eqv(Frac::one()),
    ensures
        delta_total(r, r.len()).eqv(c),
{
    lemma_deltas_sum_to_contribution(a, c, r);
    let w = outcome(r, c);
    if !w.done {
        let n = r.len();
        let zero = Frac::zero();
        let one = Frac::one();
        let p = choose|p: Seq<int>| sorted_from(a, c, r, p);
        if n == 0 {
            assert(sum_to(target_fractions(a), 0) == zero);
            assert(false);
        }
        let g = grand_total(a, c);
        let positive = g.is_pos();
        let tvs = tvs_of(r);
        let devs = devs_of(r);
        lemma_target_signs(a, c, r);
        lemma_walk_conserves(tvs, devs, c, n, positive);
        assert(w.level == zero);
        lemma_delta_total_fill(a, c, r, n);
        lemma_fill_is_sum(tvs, devs, zero, n);
        lemma_total_valid(a);
        crate::ratio::lemma_valid_ops(total_value(a), c);
        // each asset, moved to deviation zero, receives its target value less its value
        let tvf = |k: int| tvs[k];
        let vf = |k: int| r[k].value;
        assert forall|k: int| 0 <= k < n implies (#[trigger] fill_terms(tvs, devs, zero)(k)).eqv(difference(tvf, vf)(k)) by {
            assert(evaluated_from(a, c, r[k], p[k]));
            assert(tvs[k] == r[k].target_value.unwrap());
            assert(devs[k] == r[k].deviation.unwrap());
            assert(0 <= p[k] < a.len());
            let ai = a[p[k]];
            assert(ai.is_valid());
            let tv = tvs[k];
            let tvs_k = target_value_for(ai, g);
            let v = r[k].value;
            assert(tv.is_pos() || tv.is_neg());
            crate::ratio::lemma_valid_ops(g, ai.target_fraction);
            lemma_eqv_sign(tv, tvs_k);
            lemma_eqv_sym(tv, tvs_k);
            lemma_over_congr(v, v, tvs_k, tv);
            crate::ratio::lemma_valid_ops(v, tvs_k);
            crate::ratio::lemma_valid_ops(v, tv);
            lemma_plus_congr(v.over(tvs_k), v.over(tv), one, one);
            crate::ratio::lemma_valid_ops(v.over(tvs_k), one);
            lemma_eqv_trans(devs[k], deviation_for(ai, tvs_k), v.over(tv).minus(one));
            lemma_to_target(v, tv, devs[k]);
        }
        assert(valid_to(tvf, n)) by {
            assert forall|k: int| 0 <= k < n implies #[trigger] tvf(k).valid() by {
                assert(tvs[k].valid());
            }
        }
        assert(valid_to(vf, n)) by {
            assert forall|k: int| 0 <= k < n implies #[trigger] vf(k).valid() by {
                assert(evaluated_from(a, c, r[k], p[k]));
            }
        }
        assert(valid_to(fill_terms(tvs, devs, zero), n)) by {
            assert forall|k: int| 0 <= k < n implies #[trigger] fill_terms(tvs, devs, zero)(k).valid() by {
                assert(tvs[k].valid() && devs[k].valid());
                crate::ratio::lemma_valid_ops(zero, devs[k]);
                crate::ratio::lemma_valid_ops(tvs[k], zero.minus(devs[k]));
            }
        }
        assert(valid_to(difference(tvf, vf), n)) by {
            assert forall|k: int| 0 <= k < n implies #[trigger] difference(tvf, vf)(k).valid() by {
                assert(tvf(k).valid() && vf(k).valid());
                crate::ratio::lemma_valid_ops(tvf(k), vf(k));
            }
        }
        lemma_sum_congr(fill_terms(tvs, devs, zero), difference(tvf, vf), n);
        lemma_sum_minus(tvf, vf, n);
        // the target values add up to the grand total
        let tfs = target_fractions(a);
        assert(valid_to(tfs, n)) by {
            assert forall|i: int| 0 <= i < n implies #[trigger] tfs(i).valid() by {
                assert(a[i].is_valid());
            }
        }
        assert(valid_to(permuted(tfs, p), n)) by {
            assert forall|k: int| 0 <= k < n implies #[trigger] permuted(tfs, p)(k).valid() by {
                assert(0 <= p[k] < a.len());
                assert(a[p[k]].is_valid());
            }
        }
        assert forall|k: int| 0 <= k < n implies (#[trigger] tvf(k)).eqv(scaled(g, permuted(tfs, p))(k)) by {
            assert(evaluated_from(a, c, r[k], p[k]));
            assert(tvs[k] == r[k].target_value.unwrap());
        }
        lemma_sum_congr(tvf, scaled(g, permuted(tfs, p)), n);
        lemma_sum_scale(g, permuted(tfs, p), n);
        lemma_sum_permute(tfs, p, n);
        lemma_sum_valid(permuted(tfs, p), n);
        lemma_sum_valid(tfs, n);
        lemma_sum_valid(tvf, n);
        lemma_sum_valid(vf, n);
        assert(valid_to(scaled(g, permuted(tfs, p)), n)) by {
            assert forall|k: int| 0 <= k < n implies #[trigger] scaled(g, permuted(tfs, p))(k).valid() by {
                crate::ratio::lemma_valid_ops(g, permuted(tfs, p)(k));
            }
        }
        lemma_sum_valid(scaled(g, permuted(tfs, p)), n);
        let st = sum_to(permuted(tfs, p), n);
        lemma_times_congr(g, g, st, sum_to(tfs, n));
        lemma_eqv_trans(st, sum_to(tfs, n), one);
        lemma_times_congr(g, g, st, one);
        crate::ratio::lemma_times_one(g);
        crate::ratio::lemma_valid_ops(g, st);
        crate::ratio::lemma_valid_ops(g, one);
        lemma_eqv_chain(sum_to(tvf, n), sum_to(scaled(g, permuted(tfs, p)), n), g.times(st), g.times(one));
        lemma_eqv_trans(sum_to(tvf, n), g.times(one), g);
        // the values add up to the portfolio total
        let vs = values_of(a);
        assert forall|k: int| 0 <= k < n implies #[trigger] vf(k) == permuted(vs, p)(k) by {
            assert(evaluated_from(a, c, r[k], p[k]));
        }
        lemma_sum_ext(vf, permuted(vs, p), n);
        assert(valid_to(vs, n)) by {
            assert forall|i: int| 0 <= i < n implies #[trigger] vs(i).valid() by {
                assert(a[i].is_valid());
            }
        }
        lemma_sum_permute(vs, p, n);
        lemma_total_is_sum(a);
        // so the deltas add up to g - total, which is c
        let total = total_value(a);
        lemma_plus_congr(sum_to(tvf, n), g, sum_to(vf, n), total);
        crate::ratio::lemma_plus_comm(total, c);
        lemma_plus_congr(g, c.plus(total), total, total);
        crate::ratio::lemma_plus_minus_cancel(c, total);
        crate::ratio::lemma_valid_ops(c, total);
        crate::ratio::lemma_valid_ops(g, total);
        crate::ratio::lemma_valid_ops(c.plus(total), total);
        lemma_eqv_trans(g.minus(total), c.plus(total).minus(total), c);
        crate::ratio::lemma_valid_ops(sum_to(tvf, n), sum_to(vf, n));
        let f = fill(tvs, devs, zero, n);
        lemma_sums_fill_valid(a, c, r);
        lemma_sum_valid(difference(tvf, vf), n);
        lemma_eqv_chain(f, sum_to(difference(tvf, vf), n), sum_to(tvf, n).minus(sum_to(vf, n)), g.minus(total));
        lemma_eqv_trans(f, g.minus(total), c);
        lemma_eqv_trans(delta_total(r, n), f, c);
    }
}

} // verus!
