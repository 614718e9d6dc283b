//! Portfolio assets and the lazy rebalancing engine.
use vstd::prelude::*;
use num::BigRational;
use crate::ratio::{
    frac_of, is_normal, lemma_abs_congr, lemma_eqv_sign, lemma_eqv_trans, lemma_lt_trans,
    lemma_order_congr, lemma_over_congr, lemma_plus_congr, lemma_sum_sign, lemma_times_congr, lemma_valid_ops,
    rat_abs, rat_add, rat_clone, rat_div, rat_eq, rat_le, rat_lt, rat_mul, rat_one, rat_sub,
    rat_zero, Frac,
};
use crate::water::{delta_for, lemma_walk_done, lemma_walk_stop, walk, walk_step, WalkState};

verus! {

/// One position of a portfolio: its inputs, and what the engine computes for it.
pub struct Asset {
    name: String,
    value: BigRational,
    actual_allocation: BigRational,
    target_allocation_percent: BigRational,
    target_value: Option<BigRational>,
    deviation: Option<BigRational>,
    delta: Option<BigRational>,
}

/// An asset as numbers.
pub struct AssetView {
    pub name: Seq<char>,
    /// Current market value.
    pub value: Frac,
    /// `value / portfolio total`, set by the engine.
    pub actual_allocation: Frac,
    /// Desired share of the portfolio after the contribution, in `[0, 1]`.
    pub target_fraction: Frac,
    pub target_value: Option<Frac>,
    /// `value / target_value - 1`.
    pub deviation: Option<Frac>,
    /// Amount to add (positive) or withdraw (negative).
    pub delta: Option<Frac>,
}

pub open spec fn opt_frac(o: Option<BigRational>) -> Option<Frac> {
    match o {
        Some(r) => Some(frac_of(r)),
        None => None,
    }
}

pub open spec fn opt_valid(o: Option<Frac>) -> bool {
    match o {
        Some(f) => f.valid(),
        None => true,
    }
}

impl View for Asset {
    type V = AssetView;

    closed spec fn view(&self) -> AssetView {
        AssetView {
            name: self.name@,
            value: frac_of(self.value),
            actual_allocation: frac_of(self.actual_allocation),
            target_fraction: frac_of(self.target_allocation_percent),
            target_value: opt_frac(self.target_value),
            deviation: opt_frac(self.deviation),
            delta: opt_frac(self.delta),
        }
    }
}

impl AssetView {
    /// A non-negative value, a target fraction in `[0, 1]`, and positive
    /// denominators throughout.
    pub open spec fn is_valid(self) -> bool {
        &&& self.value.valid()
        &&& !self.value.is_neg()
        &&& self.target_fraction.valid()
        &&& !self.target_fraction.is_neg()
        &&& self.target_fraction.le(Frac::one())
        &&& self.actual_allocation.valid()
        &&& opt_valid(self.target_value)
        &&& opt_valid(self.deviation)
        &&& opt_valid(self.delta)
    }
}

pub open spec fn views(s: Seq<Asset>) -> Seq<AssetView> {
    s.map_values(|a: Asset| a@)
}

pub open spec fn all_valid(s: Seq<AssetView>) -> bool {
    forall|k: int| 0 <= k < s.len() ==> #[trigger] s[k].is_valid()
}

/// The sum of the assets' values, added up from the first.
pub open spec fn total_value(s: Seq<AssetView>) -> Frac
    decreases s.len(),
{
    if s.len() == 0 {
        Frac::zero()
    } else {
        total_value(s.drop_last()).plus(s.last().value)
    }
}

/// The portfolio's value after the contribution.
pub open spec fn grand_total(s: Seq<AssetView>, contribution: Frac) -> Frac {
    total_value(s).plus(contribution)
}

pub open spec fn target_value_for(a: AssetView, grand: Frac) -> Frac {
    grand.times(a.target_fraction)
}

pub open spec fn deviation_for(a: AssetView, tv: Frac) -> Frac {
    a.value.over(tv).minus(Frac::one())
}

pub open spec fn allocation_for(a: AssetView, total: Frac) -> Frac {
    if total.le(Frac::zero()) {
        Frac::zero()
    } else {
        a.value.over(total)
    }
}

/// `x` ranks strictly ahead of `y`: lower for a deposit, higher for a withdrawal.
pub open spec fn ranks_before(x: Frac, y: Frac, withdrawal: bool) -> bool {
    if withdrawal {
        y.lt(x)
    } else {
        x.lt(y)
    }
}

/// The order of the engine: by deviation, and by input position among equals.
pub open spec fn goes_before(x: Frac, i: int, y: Frac, j: int, withdrawal: bool) -> bool {
    ranks_before(x, y, withdrawal) || (x.eqv(y) && i < j)
}

pub open spec fn is_permutation(p: Seq<int>, n: nat) -> bool {
    &&& p.len() == n
    &&& forall|k: int| 0 <= k < n ==> 0 <= #[trigger] p[k] < n
    &&& forall|k: int, l: int| 0 <= k < l < n ==> p[k] != p[l]
    &&& forall|i: int| 0 <= i < n ==> #[trigger] appears_in(p, i)
}

/// `i` is one of the entries of `p`.
pub open spec fn appears_in(p: Seq<int>, i: int) -> bool {
    exists|k: int| 0 <= k < p.len() && #[trigger] p[k] == i
}

pub open spec fn tvs_of(r: Seq<AssetView>) -> Seq<Frac> {
    r.map_values(|a: AssetView| a.target_value.unwrap())
}

pub open spec fn devs_of(r: Seq<AssetView>) -> Seq<Frac> {
    r.map_values(|a: AssetView| a.deviation.unwrap())
}

/// Some asset's target value is zero, which leaves its deviation undefined.
pub open spec fn has_degenerate_target(a: Seq<AssetView>, contribution: Frac) -> bool {
    exists|k: int|
        0 <= k < a.len() && (#[trigger] target_value_for(a[k], grand_total(a, contribution))).is_zero()
}

/// `r[k]` is the input asset `p[k]`, evaluated against the grand total.
pub open spec fn evaluated_from(a: Seq<AssetView>, contribution: Frac, r: AssetView, i: int) -> bool {
    let grand = grand_total(a, contribution);
    let tv = target_value_for(a[i], grand);
    &&& r.name == a[i].name
    &&& r.value == a[i].value
    &&& r.target_fraction == a[i].target_fraction
    &&& r.is_valid()
    &&& r.actual_allocation.eqv(allocation_for(a[i], total_value(a)))
    &&& r.target_value is Some
    &&& r.target_value.unwrap().eqv(tv)
    &&& r.deviation is Some
    &&& r.deviation.unwrap().eqv(deviation_for(a[i], tv))
}

/// `r` holds the assets of `a` in the engine's order, `p` giving each one's input position.
pub open spec fn sorted_from(a: Seq<AssetView>, contribution: Frac, r: Seq<AssetView>, p: Seq<int>) -> bool {
    let devs = devs_of(r);
    &&& r.len() == a.len()
    &&& is_permutation(p, a.len())
    &&& forall|k: int| 0 <= k < r.len() ==> evaluated_from(a, contribution, #[trigger] r[k], p[k])
    &&& forall|k: int, l: int|
        0 <= k < l < r.len() ==> goes_before(
            #[trigger] devs[k],
            p[k],
            #[trigger] devs[l],
            p[l],
            contribution.is_neg(),
        )
}

/// The outcome of the walk over the sorted assets `r`.
pub open spec fn outcome(r: Seq<AssetView>, contribution: Frac) -> WalkState {
    walk(tvs_of(r), devs_of(r), contribution, r.len())
}

/// The assets before the walk's stop get the delta that moves them to its level;
/// the others get none.
pub open spec fn deltas_follow_walk(r: Seq<AssetView>, contribution: Frac) -> bool {
    let w = outcome(r, contribution);
    forall|k: int|
        0 <= k < r.len() ==> if k < w.stop {
            &&& (#[trigger] r[k]).delta is Some
            &&& r[k].delta.unwrap().eqv(
                delta_for(r[k].target_value.unwrap(), r[k].deviation.unwrap(), w.level),
            )
        } else {
            r[k].delta is None
        }
}

/// What the engine returns for the assets `a` and `contribution`.
pub open spec fn rebalanced(a: Seq<AssetView>, contribution: Frac, r: Seq<AssetView>) -> bool {
    &&& !has_degenerate_target(a, contribution)
    &&& exists|p: Seq<int>| sorted_from(a, contribution, r, p)
    &&& deltas_follow_walk(r, contribution)
}

/// Why a rebalance cannot be computed.
pub enum RebalanceError {
    /// The asset at `index` of the input has a target value of zero, so its
    /// deviation is undefined.
    DegenerateTarget { index: usize, name: String },
}


pub open spec fn same_sign(x: Frac, y: Frac) -> bool {
    (x.is_pos() && y.is_pos()) || (x.is_neg() && y.is_neg())
}

/// The sum of valid values is valid.
pub proof fn lemma_total_valid(s: Seq<AssetView>)
    requires
        all_valid(s),
    ensures
        total_value(s).valid(),
        !total_value(s).is_neg(),
    decreases s.len(),
{
    if s.len() > 0 {
        let t = s.drop_last();
        assert(all_valid(t)) by {
            assert forall|k: int| 0 <= k < t.len() implies #[trigger] t[k].is_valid() by {
                assert(t[k] == s[k]);
            }
        }
        lemma_total_valid(t);
        assert(s.last().is_valid());
        lemma_valid_ops(total_value(t), s.last().value);
        let (x, y) = (total_value(t), s.last().value);
        assert(x.num * y.den + y.num * x.den >= 0) by (nonlinear_arith)
            requires
                x.num >= 0,
                y.num >= 0,
                x.den > 0,
                y.den > 0,
        ;
    }
}

/// A nonzero product with a non-negative factor has the other factor's sign.
pub proof fn lemma_times_sign(g: Frac, t: Frac)
    requires
        g.valid(),
        t.valid(),
        !t.is_neg(),
        !g.times(t).is_zero(),
    ensures
        same_sign(g.times(t), g),
{
    assert((g.num * t.num > 0) == (g.num > 0) && (g.num * t.num < 0) == (g.num < 0)) by (nonlinear_arith)
        requires
            t.num >= 0,
            g.num * t.num != 0,
    ;
}

/// The sum of the assets' values.
fn portfolio_total(assets: &Vec<Asset>) -> (t: BigRational)
    requires
        all_valid(views(assets@)),
    ensures
        is_normal(t),
        frac_of(t).eqv(total_value(views(assets@))),
{
    let ghost s = views(assets@);
    let mut total = rat_zero();
    let mut i: usize = 0;
    while i < assets.len()
        invariant
            0 <= i <= assets.len(),
            s == views(assets@),
            all_valid(s),
            is_normal(total),
            frac_of(total).eqv(total_value(s.take(i as int))),
        decreases assets.len() - i,
    {
        let ghost old_total = frac_of(total);
        assert(s[i as int].is_valid());
        total = rat_add(&total, &assets[i].value);
        proof {
            assert(s.take(i + 1).drop_last() =~= s.take(i as int));
            assert(all_valid(s.take(i as int))) by {
                assert forall|k: int| 0 <= k < i implies #[trigger] s.take(i as int)[k].is_valid() by {
                    assert(s.take(i as int)[k] == s[k]);
                }
            }
            lemma_total_valid(s.take(i as int));
            let v = s[i as int].value;
            lemma_plus_congr(old_total, total_value(s.take(i as int)), v, v);
            lemma_valid_ops(old_total, v);
            lemma_eqv_trans(frac_of(total), old_total.plus(v), total_value(s.take(i as int)).plus(v));
        }
        i += 1;
    }
    assert(s.take(i as int) =~= s);
    total
}

/// `e` names the first input asset whose target value is zero.
pub open spec fn reports_degenerate(a: Seq<AssetView>, contribution: Frac, e: RebalanceError) -> bool {
    match e {
        RebalanceError::DegenerateTarget { index, name } => {
            &&& index < a.len()
            &&& target_value_for(a[index as int], grand_total(a, contribution)).is_zero()
            &&& name@ == a[index as int].name
            &&& forall|k: int|
                0 <= k < index ==> !(#[trigger] target_value_for(a[k], grand_total(a, contribution))).is_zero()
        },
    }
}

/// `v` holds the assets of `a` in their order, each evaluated, with no delta.
pub open spec fn evaluated_all(a: Seq<AssetView>, contribution: Frac, v: Seq<AssetView>) -> bool {
    &&& v.len() == a.len()
    &&& forall|k: int|
        0 <= k < v.len() ==> {
            &&& evaluated_from(a, contribution, #[trigger] v[k], k)
            &&& v[k].delta is None
            &&& same_sign(v[k].target_value.unwrap(), grand_total(a, contribution))
        }
}

/// Computes each asset's target value, deviation and allocation, and clears its delta.
fn evaluate(contribution: &BigRational, assets: Vec<Asset>) -> (r: Result<Vec<Asset>, RebalanceError>)
    requires
        is_normal(*contribution),
        all_valid(views(assets@)),
    ensures
        match r {
            Ok(v) => {
                &&& !has_degenerate_target(views(assets@), frac_of(*contribution))
                &&& evaluated_all(views(assets@), frac_of(*contribution), views(v@))
            },
            Err(e) => reports_degenerate(views(assets@), frac_of(*contribution), e),
        },
{
    let ghost a = views(assets@);
    let ghost c = frac_of(*contribution);
    let ghost g = grand_total(a, c);
    let total = portfolio_total(&assets);
    let grand = rat_add(&total, contribution);
    let zero = rat_zero();
    let one = rat_one();
    let total_is_nonpositive = rat_le(&total, &zero);
    proof {
        lemma_total_valid(a);
        lemma_plus_congr(frac_of(total), total_value(a), c, c);
        lemma_valid_ops(frac_of(total), c);
        lemma_valid_ops(total_value(a), c);
        lemma_eqv_trans(frac_of(grand), frac_of(total).plus(c), g);
        lemma_order_congr(frac_of(total), total_value(a), frac_of(zero), Frac::zero());
    }
    let mut out = assets;
    let mut i: usize = 0;
    while i < out.len()
        invariant
            0 <= i <= out.len(),
            a == views(assets@),
            c == frac_of(*contribution),
            g == grand_total(a, c),
            out.len() == a.len(),
            all_valid(a),
            g.valid(),
            is_normal(total),
            is_normal(grand),
            frac_of(total).eqv(total_value(a)),
            frac_of(grand).eqv(g),
            frac_of(zero) == Frac::zero(),
            frac_of(one) == Frac::one(),
            total_is_nonpositive == total_value(a).le(Frac::zero()),
            total_is_nonpositive == frac_of(total).le(Frac::zero()),
            total_value(a).valid(),
            forall|k: int| i <= k < a.len() ==> #[trigger] views(out@)[k] == a[k],
            forall|k: int|
                0 <= k < i ==> {
                    &&& evaluated_from(a, c, #[trigger] views(out@)[k], k)
                    &&& views(out@)[k].delta is None
                    &&& same_sign(views(out@)[k].target_value.unwrap(), g)
                    &&& !target_value_for(a[k], g).is_zero()
                },
        decreases out.len() - i,
    {
        let ghost ai = a[i as int];
        assert(views(out@)[i as int] == ai);
        assert(ai.is_valid());
        let ghost tvs = target_value_for(ai, g);
        let tv = rat_mul(&grand, &out[i].target_allocation_percent);
        proof {
            lemma_valid_ops(frac_of(grand), ai.target_fraction);
            lemma_valid_ops(g, ai.target_fraction);
            lemma_times_congr(frac_of(grand), g, ai.target_fraction, ai.target_fraction);
            lemma_eqv_trans(frac_of(tv), frac_of(grand).times(ai.target_fraction), tvs);
            lemma_eqv_sign(frac_of(tv), tvs);
        }
        if rat_eq(&tv, &zero) {
            assert(frac_of(tv).num * 1 == 0 * frac_of(tv).den);
            assert(tvs.is_zero());
            let name = out[i].name.clone();
            let e = RebalanceError::DegenerateTarget { index: i, name };
            assert(name@ == ai.name);
            assert forall|k: int|
                0 <= k < i implies !(#[trigger] target_value_for(a[k], grand_total(a, c))).is_zero() by {
                assert(0 <= k < i);
                assert(views(out@)[k].delta is None);
                assert(!target_value_for(a[k], g).is_zero());
            }
            assert(reports_degenerate(a, c, e));
            return Err(e);
        }
        proof {
            lemma_times_sign(g, ai.target_fraction);
        }
        let q = rat_div(&out[i].value, &tv);
        let dev = rat_sub(&q, &one);
        proof {
            lemma_over_congr(ai.value, ai.value, frac_of(tv), tvs);
            lemma_valid_ops(ai.value, frac_of(tv));
            lemma_valid_ops(ai.value, tvs);
            lemma_eqv_trans(frac_of(q), ai.value.over(frac_of(tv)), ai.value.over(tvs));
            lemma_plus_congr(frac_of(q), ai.value.over(tvs), Frac::one(), Frac::one());
            lemma_valid_ops(frac_of(q), Frac::one());
            lemma_eqv_trans(frac_of(dev), frac_of(q).minus(Frac::one()), deviation_for(ai, tvs));
        }
        let alloc = if total_is_nonpositive {
            rat_zero()
        } else {
            let r = rat_div(&out[i].value, &total);
            proof {
                lemma_over_congr(ai.value, ai.value, frac_of(total), total_value(a));
                lemma_valid_ops(ai.value, frac_of(total));
                lemma_eqv_trans(frac_of(r), ai.value.over(frac_of(total)), ai.value.over(total_value(a)));
            }
            r
        };
        let ghost before = out@;
        out[i].target_value = Some(tv);
        out[i].deviation = Some(dev);
        out[i].actual_allocation = alloc;
        out[i].delta = None;
        proof {
            assert forall|k: int| 0 <= k < a.len() && k != i implies #[trigger] views(out@)[k] == views(before)[k] by {
                assert(out@[k] == before[k]);
            }
            let nv = views(out@)[i as int];
            assert(nv.name == ai.name);
            assert(nv.value == ai.value);
            assert(nv.target_fraction == ai.target_fraction);
            assert(nv.is_valid());
            assert(nv.actual_allocation.eqv(allocation_for(ai, total_value(a))));
            assert(nv.target_value.unwrap().eqv(tvs));
            assert(nv.deviation.unwrap().eqv(deviation_for(ai, tvs)));
            assert(same_sign(nv.target_value.unwrap(), g));
        }
        i += 1;
    }
    proof {
        assert forall|k: int|
            0 <= k < a.len() implies !(#[trigger] target_value_for(a[k], grand_total(a, c))).is_zero() by {
            assert(views(out@)[k].delta is None);
            assert(!target_value_for(a[k], g).is_zero());
        }
    }
    Ok(out)
}

pub open spec fn has_deviation(a: AssetView) -> bool {
    a.deviation is Some && a.deviation.unwrap().valid()
}

/// An asset placed at a slot before which every asset ranks strictly ahead of
/// it, and from which none does, keeps the order with the assets after it.
proof fn lemma_slot_order(x: Frac, y: Frac, z: Frac, i: int, j: int, k: int, withdrawal: bool)
    requires
        x.valid(),
        y.valid(),
        z.valid(),
        !ranks_before(y, x, withdrawal),
        goes_before(y, j, z, k, withdrawal) || y == z,
        i < k,
    ensures
        goes_before(x, i, z, k, withdrawal),
{
    lemma_lt_trans(x, y, z);
    lemma_lt_trans(z, y, x);
}

/// Whether `x` ranks strictly ahead of `y` by deviation.
fn ranks_ahead(x: &Asset, y: &Asset, withdrawal: bool) -> (r: bool)
    requires
        has_deviation(x@),
        has_deviation(y@),
    ensures
        r == ranks_before(x@.deviation.unwrap(), y@.deviation.unwrap(), withdrawal),
{
    let dx = x.deviation.as_ref().unwrap();
    let dy = y.deviation.as_ref().unwrap();
    if withdrawal {
        rat_lt(dy, dx)
    } else {
        rat_lt(dx, dy)
    }
}

/// The first slot of `sorted` whose asset does not rank strictly ahead of `a`.
fn find_slot(sorted: &Vec<Asset>, a: &Asset, withdrawal: bool) -> (pos: usize)
    requires
        has_deviation(a@),
        forall|k: int| 0 <= k < sorted.len() ==> has_deviation(#[trigger] views(sorted@)[k]),
    ensures
        pos <= sorted.len(),
        forall|k: int|
            0 <= k < pos ==> ranks_before(
                (#[trigger] views(sorted@)[k]).deviation.unwrap(),
                a@.deviation.unwrap(),
                withdrawal,
            ),
        pos < sorted.len() ==> !ranks_before(
            views(sorted@)[pos as int].deviation.unwrap(),
            a@.deviation.unwrap(),
            withdrawal,
        ),
{
    let mut pos: usize = 0;
    while pos < sorted.len()
        invariant
            pos <= sorted.len(),
            has_deviation(a@),
            forall|k: int| 0 <= k < sorted.len() ==> has_deviation(#[trigger] views(sorted@)[k]),
            forall|k: int|
                0 <= k < pos ==> ranks_before(
                    (#[trigger] views(sorted@)[k]).deviation.unwrap(),
                    a@.deviation.unwrap(),
                    withdrawal,
                ),
        decreases sorted.len() - pos,
    {
        assert(has_deviation(views(sorted@)[pos as int]));
        if !ranks_ahead(&sorted[pos], a, withdrawal) {
            return pos;
        }
        pos += 1;
    }
    pos
}

/// `r` holds the assets of `v`, `p` giving each one's position in `v`, ordered
/// by deviation and, among equals, by position.
pub open spec fn sorted_by_deviation(v: Seq<AssetView>, r: Seq<AssetView>, p: Seq<int>, withdrawal: bool) -> bool {
    &&& r.len() == v.len()
    &&& is_permutation(p, v.len())
    &&& forall|k: int| 0 <= k < r.len() ==> #[trigger] r[k] == v[p[k]]
    &&& forall|k: int, l: int|
        0 <= k < l < r.len() ==> goes_before(
            (#[trigger] r[k]).deviation.unwrap(),
            p[k],
            (#[trigger] r[l]).deviation.unwrap(),
            p[l],
            withdrawal,
        )
}

/// A stable insertion sort by deviation: ascending, or descending for a withdrawal.
fn sort_by_deviation(v: Vec<Asset>, withdrawal: bool) -> (r: (Vec<Asset>, Ghost<Seq<int>>))
    requires
        forall|k: int| 0 <= k < v.len() ==> has_deviation(#[trigger] views(v@)[k]),
    ensures
        sorted_by_deviation(views(v@), views(r.0@), r.1@, withdrawal),
{
    let ghost ev = views(v@);
    let ghost n = v.len() as int;
    let mut rest = v;
    let mut sorted: Vec<Asset> = Vec::new();
    let ghost mut p: Seq<int> = Seq::empty();
    while rest.len() > 0
        invariant
            ev == views(v@),
            n == ev.len(),
            forall|k: int| 0 <= k < n ==> has_deviation(#[trigger] ev[k]),
            rest.len() + sorted.len() == n,
            forall|k: int| 0 <= k < rest.len() ==> #[trigger] views(rest@)[k] == ev[k],
            p.len() == sorted.len(),
            forall|k: int|
                0 <= k < p.len() ==> rest.len() <= #[trigger] p[k] < n && views(sorted@)[k] == ev[p[k]],
            forall|k: int, l: int| 0 <= k < l < p.len() ==> p[k] != p[l],
            forall|i: int| rest.len() <= i < n ==> #[trigger] appears_in(p, i),
            forall|k: int, l: int|
                0 <= k < l < p.len() ==> goes_before(
                    (#[trigger] views(sorted@)[k]).deviation.unwrap(),
                    p[k],
                    (#[trigger] views(sorted@)[l]).deviation.unwrap(),
                    p[l],
                    withdrawal,
                ),
        decreases rest.len(),
    {
        let ghost before_rest = rest@;
        let a = rest.pop().unwrap();
        let ghost j = rest.len() as int;
        assert(views(before_rest)[j] == ev[j]);
        assert(a@ == ev[j]);
        assert forall|k: int| 0 <= k < rest.len() implies #[trigger] views(rest@)[k] == ev[k] by {
            assert(rest@[k] == before_rest[k]);
            assert(views(before_rest)[k] == ev[k]);
        }
        assert forall|k: int| 0 <= k < sorted.len() implies has_deviation(#[trigger] views(sorted@)[k]) by {
            assert(views(sorted@)[k] == ev[p[k]]);
        }
        let pos = find_slot(&sorted, &a, withdrawal);
        let ghost bi = sorted@;
        let ghost os = views(sorted@);
        let ghost op = p;
        let ghost dj = ev[j].deviation.unwrap();
        sorted.insert(pos, a);
        proof {
            bi.insert_ensures(pos as int, a);
            op.insert_ensures(pos as int, j);
            p = op.insert(pos as int, j);
            let ns = views(sorted@);
            assert forall|k: int| 0 <= k < p.len() implies rest.len() <= #[trigger] p[k] < n
                && views(sorted@)[k] == ev[p[k]] by {
                if k < pos {
                    assert(sorted@[k] == bi[k]);
                    assert(os[k] == ev[op[k]]);
                } else if k > pos {
                    assert(sorted@[k] == bi[k - 1]);
                    assert(p[k] == op[k - 1]);
                    assert(os[k - 1] == ev[op[k - 1]]);
                }
            }
            assert forall|x: int| rest.len() <= x < n implies #[trigger] appears_in(p, x) by {
                if x == j {
                    assert(p[pos as int] == x);
                } else {
                    assert(appears_in(op, x));
                    let k0 = choose|k: int| 0 <= k < op.len() && #[trigger] op[k] == x;
                    if k0 < pos {
                        assert(p[k0] == x);
                    } else {
                        assert(p[k0 + 1] == x);
                    }
                }
            }
            assert forall|k: int, l: int| 0 <= k < l < p.len() implies p[k] != p[l] by {
                if k != pos && l != pos {
                    let k2 = if k < pos { k } else { k - 1 };
                    let l2 = if l < pos { l } else { l - 1 };
                    assert(p[k] == op[k2] && p[l] == op[l2]);
                } else if k == pos {
                    assert(p[l] == op[l - 1]);
                } else {
                    assert(p[k] == op[k]);
                }
            }
            assert forall|k: int, l: int| 0 <= k < l < p.len() implies goes_before(
                (#[trigger] views(sorted@)[k]).deviation.unwrap(),
                p[k],
                (#[trigger] views(sorted@)[l]).deviation.unwrap(),
                p[l],
                withdrawal,
            ) by {
                assert(views(sorted@)[k] == ev[p[k]]);
                assert(views(sorted@)[l] == ev[p[l]]);
                if k != pos && l != pos {
                    let k2 = if k < pos { k } else { k - 1 };
                    let l2 = if l < pos { l } else { l - 1 };
                    assert(p[k] == op[k2] && p[l] == op[l2]);
                    assert(os[k2] == ev[op[k2]]);
                    assert(os[l2] == ev[op[l2]]);
                    assert(goes_before(os[k2].deviation.unwrap(), op[k2], os[l2].deviation.unwrap(), op[l2], withdrawal));
                } else if k == pos {
                    let l2 = l - 1;
                    assert(p[l] == op[l2]);
                    assert(os[l2] == ev[op[l2]]);
                    assert(os[pos as int] == ev[op[pos as int]]);
                    assert(has_deviation(ev[op[l2]]));
                    assert(has_deviation(ev[op[pos as int]]));
                    if l2 > pos {
                        assert(goes_before(os[pos as int].deviation.unwrap(), op[pos as int], os[l2].deviation.unwrap(), op[l2], withdrawal));
                    }
                    lemma_slot_order(dj, os[pos as int].deviation.unwrap(), os[l2].deviation.unwrap(), j, op[pos as int], op[l2], withdrawal);
                } else {
                    assert(p[k] == op[k]);
                    assert(os[k] == ev[op[k]]);
                }
            }
        }
    }
    assert(views(sorted@).len() == n);
    (sorted, Ghost(p))
}

/// Target values and deviations are set, and the target values share one strict sign.
pub open spec fn ready_to_walk(r: Seq<AssetView>, positive: bool) -> bool {
    forall|k: int|
        0 <= k < r.len() ==> {
            &&& (#[trigger] r[k]).target_value is Some
            &&& r[k].target_value.unwrap().valid()
            &&& has_deviation(r[k])
            &&& if positive {
                r[k].target_value.unwrap().is_pos()
            } else {
                r[k].target_value.unwrap().is_neg()
            }
        }
}

/// The walk's state fields are valid numbers, and its cumulative sum keeps
/// the target values' sign.
pub open spec fn walk_state_ok(w: WalkState, positive: bool) -> bool {
    &&& w.level.valid()
    &&& w.remaining.valid()
    &&& w.cumulative.valid()
    &&& if positive {
        !w.cumulative.is_neg()
    } else {
        !w.cumulative.is_pos()
    }
}

/// Runs the water-filling walk over the sorted assets; returns its level and stop.
fn run_walk(sorted: &Vec<Asset>, contribution: &BigRational, Ghost(positive): Ghost<bool>) -> (r: (
    BigRational,
    usize,
))
    requires
        is_normal(*contribution),
        ready_to_walk(views(sorted@), positive),
    ensures
        is_normal(r.0),
        frac_of(r.0).eqv(outcome(views(sorted@), frac_of(*contribution)).level),
        r.1 == outcome(views(sorted@), frac_of(*contribution)).stop,
{
    let ghost rv = views(sorted@);
    let ghost tvs = tvs_of(rv);
    let ghost devs = devs_of(rv);
    let ghost c = frac_of(*contribution);
    let ghost n = sorted.len() as nat;
    let zero = rat_zero();
    let mut level = rat_zero();
    let mut remaining = rat_clone(contribution);
    let mut cumulative = rat_zero();
    let mut stop: usize = 0;
    let mut done = false;
    let mut i: usize = 0;
    while i < sorted.len() && !done
        invariant
            rv == views(sorted@),
            tvs == tvs_of(rv),
            devs == devs_of(rv),
            c == frac_of(*contribution),
            n == rv.len(),
            ready_to_walk(rv, positive),
            i <= n,
            frac_of(zero) == Frac::zero(),
            is_normal(level),
            is_normal(remaining),
            is_normal(cumulative),
            done == walk(tvs, devs, c, i as nat).done,
            stop == walk(tvs, devs, c, i as nat).stop,
            frac_of(level).eqv(walk(tvs, devs, c, i as nat).level),
            frac_of(remaining).eqv(walk(tvs, devs, c, i as nat).remaining),
            frac_of(cumulative).eqv(walk(tvs, devs, c, i as nat).cumulative),
            walk_state_ok(walk(tvs, devs, c, i as nat), positive),
        decreases n - i,
    {
        let ghost w = walk(tvs, devs, c, i as nat);
        assert(walk(tvs, devs, c, (i + 1) as nat) == walk_step(tvs, devs, w, i as int));
        proof {
            lemma_eqv_sign(frac_of(remaining), w.remaining);
        }
        if rat_eq(&remaining, &zero) {
            done = true;
        } else {
            let ghost ri = rv[i as int];
            assert(ri.target_value is Some && ri.target_value.unwrap().valid() && has_deviation(ri));
            let tv = sorted[i].target_value.as_ref().unwrap();
            let dev = sorted[i].deviation.as_ref().unwrap();
            assert(tvs[i as int] == frac_of(*tv));
            assert(devs[i as int] == frac_of(*dev));
            let ghost cum_spec = w.cumulative.plus(tvs[i as int]);
            let ghost old_cum = frac_of(cumulative);
            cumulative = rat_add(&cumulative, tv);
            proof {
                lemma_plus_congr(old_cum, w.cumulative, tvs[i as int], tvs[i as int]);
                lemma_valid_ops(old_cum, tvs[i as int]);
                lemma_valid_ops(w.cumulative, tvs[i as int]);
                lemma_eqv_trans(frac_of(cumulative), old_cum.plus(tvs[i as int]), cum_spec);
                lemma_sum_sign(w.cumulative, tvs[i as int]);
                lemma_eqv_sign(frac_of(cumulative), cum_spec);
            }
            let next = if i + 1 < sorted.len() {
                let ghost rn = rv[i + 1];
                assert(has_deviation(rn));
                let d = rat_clone(sorted[i + 1].deviation.as_ref().unwrap());
                assert(frac_of(d) == devs[i + 1]);
                d
            } else {
                rat_zero()
            };
            let ghost next_spec = crate::water::next_deviation(devs, i as int);
            assert(frac_of(next) == next_spec);
            let diff = rat_sub(&next, dev);
            let cost = rat_mul(&cumulative, &diff);
            let ghost cost_spec = cum_spec.times(next_spec.minus(devs[i as int]));
            proof {
                lemma_valid_ops(next_spec, devs[i as int]);
                lemma_times_congr(frac_of(cumulative), cum_spec, frac_of(diff), next_spec.minus(devs[i as int]));
                lemma_valid_ops(frac_of(cumulative), frac_of(diff));
                lemma_valid_ops(cum_spec, next_spec.minus(devs[i as int]));
                lemma_eqv_trans(frac_of(cost), frac_of(cumulative).times(frac_of(diff)), cost_spec);
            }
            let cost_abs = rat_abs(&cost);
            let remaining_abs = rat_abs(&remaining);
            proof {
                lemma_valid_ops(frac_of(cost), frac_of(cost));
                lemma_valid_ops(cost_spec, cost_spec);
                lemma_valid_ops(frac_of(remaining), frac_of(remaining));
                lemma_valid_ops(w.remaining, w.remaining);
                lemma_abs_congr(frac_of(cost), cost_spec);
                lemma_abs_congr(frac_of(remaining), w.remaining);
                lemma_order_congr(frac_of(cost_abs), cost_spec.abs(), frac_of(remaining_abs), w.remaining.abs());
            }
            if rat_le(&cost_abs, &remaining_abs) {
                let ghost old_rem = frac_of(remaining);
                remaining = rat_sub(&remaining, &cost);
                proof {
                    lemma_plus_congr(old_rem, w.remaining, frac_of(cost), cost_spec);
                    lemma_valid_ops(old_rem, frac_of(cost));
                    lemma_valid_ops(w.remaining, cost_spec);
                    lemma_eqv_trans(frac_of(remaining), old_rem.minus(frac_of(cost)), w.remaining.minus(cost_spec));
                }
                level = next;
                stop = i + 1;
            } else {
                let share = rat_div(&remaining, &cumulative);
                level = rat_add(dev, &share);
                proof {
                    let share_spec = w.remaining.over(cum_spec);
                    lemma_over_congr(frac_of(remaining), w.remaining, frac_of(cumulative), cum_spec);
                    lemma_valid_ops(frac_of(remaining), frac_of(cumulative));
                    lemma_valid_ops(w.remaining, cum_spec);
                    lemma_eqv_trans(frac_of(share), frac_of(remaining).over(frac_of(cumulative)), share_spec);
                    lemma_plus_congr(devs[i as int], devs[i as int], frac_of(share), share_spec);
                    lemma_valid_ops(devs[i as int], frac_of(share));
                    lemma_valid_ops(devs[i as int], share_spec);
                    lemma_eqv_trans(frac_of(level), devs[i as int].plus(frac_of(share)), devs[i as int].plus(share_spec));
                }
                stop = i + 1;
                done = true;
            }
        }
        i += 1;
    }
    proof {
        if i < n {
            lemma_walk_done(tvs, devs, c, i as nat, n);
        }
    }
    (level, stop)
}

/// Spreads `amount_to_contribute` (a deposit if positive, a withdrawal if
/// negative) over `assets`. Each asset gets its target value, deviation and
/// current allocation; the assets come back sorted by deviation (ascending for
/// a deposit, descending for a withdrawal, input order among equals), and the
/// leading ones get the delta that the water-filling walk gives them.
pub fn lazy_rebalance(amount_to_contribute: BigRational, assets: Vec<Asset>) -> (r: Result<
    Vec<Asset>,
    RebalanceError,
>)
    requires
        is_normal(amount_to_contribute),
        all_valid(views(assets@)),
    ensures
        match r {
            Ok(out) => {
                &&& !has_degenerate_target(views(assets@), frac_of(amount_to_contribute))
                &&& rebalanced(views(assets@), frac_of(amount_to_contribute), views(out@))
            },
            Err(e) => {
                &&& has_degenerate_target(views(assets@), frac_of(amount_to_contribute))
                &&& reports_degenerate(views(assets@), frac_of(amount_to_contribute), e)
            },
        },
{
    let ghost a = views(assets@);
    let ghost c = frac_of(amount_to_contribute);
    let ghost g = grand_total(a, c);
    let evaluated = match evaluate(&amount_to_contribute, assets) {
        Ok(v) => v,
        Err(e) => {
            proof {
                let index = e->DegenerateTarget_index;
                assert(target_value_for(a[index as int], g).is_zero());
            }
            return Err(e);
        },
    };
    let ghost ev = views(evaluated@);
    assert forall|k: int| 0 <= k < evaluated.len() implies has_deviation(#[trigger] views(evaluated@)[k]) by {
        assert(evaluated_from(a, c, ev[k], k));
    }
    let zero = rat_zero();
    let withdrawal = rat_lt(&amount_to_contribute, &zero);
    let (mut sorted, Ghost(p)) = sort_by_deviation(evaluated, withdrawal);
    let ghost sv = views(sorted@);
    let ghost positive = g.is_pos();
    proof {
        assert(frac_of(zero) == Frac::zero());
        assert((c.num * 1 < 0 * c.den) == (c.num < 0)) by (nonlinear_arith);
        assert(withdrawal == c.is_neg());
        assert forall|k: int| 0 <= k < sv.len() implies {
            &&& evaluated_from(a, c, #[trigger] sv[k], p[k])
            &&& sv[k].delta is None
            &&& same_sign(sv[k].target_value.unwrap(), g)
        } by {
            assert(sv[k] == ev[p[k]]);
            assert(0 <= p[k] < ev.len());
            assert(evaluated_from(a, c, ev[p[k]], p[k]));
        }
        assert(ready_to_walk(sv, positive));
        lemma_walk_stop(tvs_of(sv), devs_of(sv), c, sv.len());
    }
    let (level, stop) = run_walk(&sorted, &amount_to_contribute, Ghost(positive));
    let ghost w = outcome(sv, c);
    let mut k: usize = 0;
    while k < stop
        invariant
            k <= stop,
            stop == w.stop,
            p.len() == sv.len(),
            stop <= sv.len(),
            w == outcome(sv, c),
            sorted.len() == sv.len(),
            is_normal(level),
            frac_of(level).eqv(w.level),
            forall|j: int| 0 <= j < sv.len() ==> {
                &&& evaluated_from(a, c, #[trigger] sv[j], p[j])
                &&& sv[j].delta is None
            },
            forall|j: int|
                0 <= j < sv.len() ==> #[trigger] views(sorted@)[j] == (AssetView {
                    delta: views(sorted@)[j].delta,
                    ..sv[j]
                }),
            forall|j: int|
                0 <= j < sv.len() ==> if j < k {
                    &&& (#[trigger] views(sorted@)[j]).delta is Some
                    &&& views(sorted@)[j].delta.unwrap().valid()
                    &&& views(sorted@)[j].delta.unwrap().eqv(
                        delta_for(sv[j].target_value.unwrap(), sv[j].deviation.unwrap(), w.level),
                    )
                } else {
                    views(sorted@)[j].delta is None
                },
        decreases stop - k,
    {
        let ghost sk = sv[k as int];
        assert(views(sorted@)[k as int] == (AssetView { delta: views(sorted@)[k as int].delta, ..sk }));
        assert(evaluated_from(a, c, sk, p[k as int]));
        let tv = sorted[k].target_value.as_ref().unwrap();
        let dev = sorted[k].deviation.as_ref().unwrap();
        let gap = rat_sub(&level, dev);
        let d = rat_mul(tv, &gap);
        proof {
            let tvk = sk.target_value.unwrap();
            let dk = sk.deviation.unwrap();
            lemma_plus_congr(frac_of(level), w.level, dk, dk);
            lemma_valid_ops(frac_of(level), dk);
            lemma_eqv_trans(frac_of(gap), frac_of(level).minus(dk), w.level.minus(dk));
            lemma_times_congr(tvk, tvk, frac_of(gap), w.level.minus(dk));
            lemma_valid_ops(tvk, frac_of(gap));
            lemma_eqv_trans(frac_of(d), tvk.times(frac_of(gap)), delta_for(tvk, dk, w.level));
        }
        let ghost before = sorted@;
        sorted[k].delta = Some(d);
        proof {
            assert forall|j: int| 0 <= j < sv.len() && j != k implies #[trigger] views(sorted@)[j] == views(before)[j] by {
                assert(sorted@[j] == before[j]);
            }
        }
        k += 1;
    }
    proof {
        let out = views(sorted@);
        assert(tvs_of(out) =~= tvs_of(sv)) by {
            assert forall|j: int| 0 <= j < out.len() implies out[j].target_value == sv[j].target_value by {
                assert(out[j] == (AssetView { delta: out[j].delta, ..sv[j] }));
            }
        }
        assert(devs_of(out) =~= devs_of(sv)) by {
            assert forall|j: int| 0 <= j < out.len() implies out[j].deviation == sv[j].deviation by {
                assert(out[j] == (AssetView { delta: out[j].delta, ..sv[j] }));
            }
        }
        assert forall|j: int| 0 <= j < out.len() implies evaluated_from(a, c, #[trigger] out[j], p[j]) by {
            assert(out[j] == (AssetView { delta: out[j].delta, ..sv[j] }));
            assert(evaluated_from(a, c, sv[j], p[j]));
        }
        assert forall|j: int, l: int| 0 <= j < l < out.len() implies goes_before(
            #[trigger] devs_of(out)[j],
            p[j],
            #[trigger] devs_of(out)[l],
            p[l],
            c.is_neg(),
        ) by {
            assert(goes_before(sv[j].deviation.unwrap(), p[j], sv[l].deviation.unwrap(), p[l], c.is_neg()));
        }
        assert(sorted_from(a, c, out, p));
        assert forall|j: int| 0 <= j < out.len() implies if j < w.stop {
            &&& (#[trigger] out[j]).delta is Some
            &&& out[j].delta.unwrap().eqv(
                delta_for(out[j].target_value.unwrap(), out[j].deviation.unwrap(), w.level),
            )
        } else {
            out[j].delta is None
        } by {
            assert(out[j] == (AssetView { delta: out[j].delta, ..sv[j] }));
        }
        assert(deltas_follow_walk(out, c));
    }
    Ok(sorted)
}

impl Asset {
    /// An asset with its inputs set and nothing computed yet. `target_percent`
    /// is a fraction in `[0, 1]`.
    pub fn new(name: String, target_percent: BigRational, value: BigRational) -> (r: Asset)
        requires
            is_normal(target_percent),
            is_normal(value),
            !frac_of(target_percent).is_neg(),
            frac_of(target_percent).le(Frac::one()),
            !frac_of(value).is_neg(),
        ensures
            r@.name == name@,
            r@.value == frac_of(value),
            r@.target_fraction == frac_of(target_percent),
            r@.actual_allocation == Frac::zero(),
            r@.target_value is None,
            r@.deviation is None,
            r@.delta is None,
            r@.is_valid(),
    {
        Asset {
            name,
            value,
            actual_allocation: rat_zero(),
            target_allocation_percent: target_percent,
            target_value: None,
            deviation: None,
            delta: None,
        }
    }

    /// An asset with every field given.
    pub(crate) fn from_parts(
        name: String,
        value: BigRational,
        actual_allocation: BigRational,
        target_allocation_percent: BigRational,
        target_value: Option<BigRational>,
        deviation: Option<BigRational>,
        delta: Option<BigRational>,
    ) -> (r: Asset)
        ensures
            r@ == (AssetView {
                name: name@,
                value: frac_of(value),
                actual_allocation: frac_of(actual_allocation),
                target_fraction: frac_of(target_allocation_percent),
                target_value: opt_frac(target_value),
                deviation: opt_frac(deviation),
                delta: opt_frac(delta),
            }),
    {
        Asset { name, value, actual_allocation, target_allocation_percent, target_value, deviation, delta }
    }

    pub fn name(&self) -> (r: &String)
        ensures
            r@ == self@.name,
    {
        &self.name
    }

    pub fn value(&self) -> (r: BigRational)
        ensures
            frac_of(r) == self@.value,
    {
        rat_clone(&self.value)
    }

    pub fn actual_allocation(&self) -> (r: BigRational)
        ensures
            frac_of(r) == self@.actual_allocation,
    {
        rat_clone(&self.actual_allocation)
    }

    pub fn target_allocation_percent(&self) -> (r: BigRational)
        ensures
            frac_of(r) == self@.target_fraction,
    {
        rat_clone(&self.target_allocation_percent)
    }

    pub fn target_value(&self) -> (r: Option<BigRational>)
        ensures
            opt_frac(r) == self@.target_value,
    {
        match &self.target_value {
            Some(t) => Some(rat_clone(t)),
            None => None,
        }
    }

    pub fn deviation(&self) -> (r: Option<BigRational>)
        ensures
            opt_frac(r) == self@.deviation,
    {
        match &self.deviation {
            Some(d) => Some(rat_clone(d)),
            None => None,
        }
    }

    pub fn delta(&self) -> (r: Option<BigRational>)
        ensures
            opt_frac(r) == self@.delta,
    {
        match &self.delta {
            Some(d) => Some(rat_clone(d)),
            None => None,
        }
    }
}

} // verus!
