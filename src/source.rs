//! Building a portfolio from its two sources: the target shares, keyed by
//! asset name, and the current holdings.
use vstd::prelude::*;
use num::BigRational;
use crate::ratio::{frac_of, is_normal, lemma_order_congr, lemma_valid_ops, rat_clone, rat_div, rat_from_u64, rat_lt, rat_zero, Frac};
use crate::rebalance::{views, Asset, AssetView};

verus! {

/// A line of the targets: an asset's name and its target share in percent.
pub struct TargetEntry {
    pub name: String,
    pub percent: BigRational,
}

/// A line of the holdings: an asset's name and its current value.
pub struct HoldingEntry {
    pub name: String,
    pub value: BigRational,
}

/// Entry `i` sets its asset's target: its share is positive and no later
/// entry with a positive share names the same asset.
pub open spec fn sets_target(t: Seq<TargetEntry>, i: int) -> bool {
    &&& frac_of(t[i].percent).is_pos()
    &&& forall|j: int| i < j < t.len() ==> !(#[trigger] t[j].name@ == t[i].name@ && frac_of(t[j].percent).is_pos())
}

/// The entries among the first `m` that set a target, in order.
pub open spec fn target_setters(t: Seq<TargetEntry>, m: nat) -> Seq<int>
    decreases m,
{
    if m == 0 {
        Seq::empty()
    } else if sets_target(t, m - 1) {
        target_setters(t, (m - 1) as nat).push(m - 1)
    } else {
        target_setters(t, (m - 1) as nat)
    }
}

/// The value of the last of the first `m` holdings named `name`, if any.
pub open spec fn last_holding(h: Seq<HoldingEntry>, name: Seq<char>, m: nat) -> Option<Frac>
    decreases m,
{
    if m == 0 {
        None
    } else if h[m - 1].name@ == name {
        Some(frac_of(h[m - 1].value))
    } else {
        last_holding(h, name, (m - 1) as nat)
    }
}

/// What the holdings say an asset is worth: zero where they do not list it.
pub open spec fn held_value(h: Seq<HoldingEntry>, name: Seq<char>) -> Frac {
    match last_holding(h, name, h.len()) {
        Some(v) => v,
        None => Frac::zero(),
    }
}

/// The asset that target entry `e` and the holdings give.
pub open spec fn asset_from(x: AssetView, e: TargetEntry, h: Seq<HoldingEntry>) -> bool {
    &&& x.name == e.name@
    &&& x.target_fraction.eqv(frac_of(e.percent).over(Frac::of_int(100)))
    &&& x.value == held_value(h, e.name@)
    &&& x.actual_allocation == Frac::zero()
    &&& x.target_value is None
    &&& x.deviation is None
    &&& x.delta is None
    &&& x.is_valid()
}

/// Whether entry `i` sets its asset's target.
fn is_target_setter(targets: &Vec<TargetEntry>, i: usize) -> (r: bool)
    requires
        i < targets.len(),
        forall|k: int| 0 <= k < targets.len() ==> is_normal(#[trigger] targets@[k].percent),
    ensures
        r == sets_target(targets@, i as int),
{
    let zero = rat_zero();
    if !rat_lt(&zero, &targets[i].percent) {
        assert(!frac_of(targets@[i as int].percent).is_pos());
        return false;
    }
    let mut j: usize = i + 1;
    while j < targets.len()
        invariant
            i < j <= targets.len(),
            frac_of(zero) == Frac::zero(),
            frac_of(targets@[i as int].percent).is_pos(),
            forall|k: int| 0 <= k < targets.len() ==> is_normal(#[trigger] targets@[k].percent),
            forall|l: int|
                i < l < j ==> !(#[trigger] targets@[l].name@ == targets@[i as int].name@ && frac_of(
                    targets@[l].percent,
                ).is_pos()),
        decreases targets.len() - j,
    {
        assert(is_normal(targets@[j as int].percent));
        if targets[j].name == targets[i].name && rat_lt(&zero, &targets[j].percent) {
            return false;
        }
        j += 1;
    }
    true
}

/// The value of the last holding named `name`, or zero.
fn find_value(holdings: &Vec<HoldingEntry>, name: &String) -> (r: BigRational)
    ensures
        frac_of(r) == held_value(holdings@, name@),
{
    let mut j: usize = holdings.len();
    while j > 0
        invariant
            j <= holdings.len(),
            last_holding(holdings@, name@, holdings.len() as nat) == last_holding(holdings@, name@, j as nat),
        decreases j,
    {
        if holdings[j - 1].name == *name {
            return rat_clone(&holdings[j - 1].value);
        }
        j -= 1;
    }
    rat_zero()
}

/// The portfolio that the targets and the holdings describe: one asset for
/// each name with a positive target (the last such entry for a name counts),
/// in the order of those entries, its share taken out of 100 and its value
/// that of the last holding of that name, or zero. Holdings without a target
/// are left out.
pub fn create_portfolio(targets: &Vec<TargetEntry>, holdings: &Vec<HoldingEntry>) -> (r: Vec<Asset>)
    requires
        forall|k: int|
            0 <= k < targets.len() ==> is_normal(#[trigger] targets@[k].percent) && frac_of(
                targets@[k].percent,
            ).le(Frac::of_int(100)),
        forall|k: int|
            0 <= k < holdings.len() ==> is_normal(#[trigger] holdings@[k].value) && !frac_of(
                holdings@[k].value,
            ).is_neg(),
    ensures
        r.len() == target_setters(targets@, targets.len() as nat).len(),
        forall|k: int|
            0 <= k < r.len() ==> asset_from(
                #[trigger] views(r@)[k],
                targets@[target_setters(targets@, targets.len() as nat)[k]],
                holdings@,
            ),
{
    let hundred = rat_from_u64(100);
    let mut out: Vec<Asset> = Vec::new();
    let mut i: usize = 0;
    while i < targets.len()
        invariant
            i <= targets.len(),
            frac_of(hundred) == Frac::of_int(100),
            forall|k: int|
                0 <= k < targets.len() ==> is_normal(#[trigger] targets@[k].percent) && frac_of(
                    targets@[k].percent,
                ).le(Frac::of_int(100)),
            forall|k: int|
                0 <= k < holdings.len() ==> is_normal(#[trigger] holdings@[k].value) && !frac_of(
                    holdings@[k].value,
                ).is_neg(),
            out.len() == target_setters(targets@, i as nat).len(),
            forall|k: int|
                0 <= k < out.len() ==> asset_from(
                    #[trigger] views(out@)[k],
                    targets@[target_setters(targets@, i as nat)[k]],
                    holdings@,
                ),
            forall|k: int| 0 <= k < target_setters(targets@, i as nat).len() ==> 0 <= #[trigger] target_setters(targets@, i as nat)[k] < i,
        decreases targets.len() - i,
    {
        let ghost before = target_setters(targets@, i as nat);
        assert(is_normal(targets@[i as int].percent));
        if is_target_setter(targets, i) {
            let e = &targets[i];
            let value = find_value(holdings, &e.name);
            proof {
                let h = holdings@;
                // the value found is one of the holdings' values, or zero
                crate::source::lemma_held_value_ok(h, e.name@, h.len() as nat);
            }
            let share = rat_div(&e.percent, &hundred);
            proof {
                let p = frac_of(e.percent);
                let q = p.over(Frac::of_int(100));
                lemma_valid_ops(p, Frac::of_int(100));
                lemma_order_congr(frac_of(share), q, Frac::one(), Frac::one());
                assert(q.num == p.num * 1 && q.den == p.den * 100);
                assert(p.num * 1 <= 100 * p.den);
                crate::ratio::lemma_eqv_sign(frac_of(share), q);
            }
            let asset = Asset::new(e.name.clone(), share, value);
            let ghost prev = out@;
            out.push(asset);
            proof {
                assert(target_setters(targets@, (i + 1) as nat) == before.push(i as int));
                assert forall|k: int| 0 <= k < out.len() implies asset_from(
                    #[trigger] views(out@)[k],
                    targets@[target_setters(targets@, (i + 1) as nat)[k]],
                    holdings@,
                ) by {
                    if k < out.len() - 1 {
                        assert(out@[k] == prev[k]);
                        assert(views(prev)[k] == views(out@)[k]);
                    } else {
                        assert(out@[k] == asset);
                        assert(target_setters(targets@, (i + 1) as nat)[k] == i);
                        assert(asset_from(asset@, targets@[i as int], holdings@));
                    }
                }
            }
        }
        i += 1;
    }
    out
}

/// What the holdings say an asset is worth is a valid value, not negative.
proof fn lemma_held_value_ok(h: Seq<HoldingEntry>, name: Seq<char>, m: nat)
    requires
        m <= h.len(),
        forall|k: int| 0 <= k < h.len() ==> is_normal(#[trigger] h[k].value) && !frac_of(h[k].value).is_neg(),
    ensures
        match last_holding(h, name, m) {
            Some(v) => v.valid() && !v.is_neg(),
            None => true,
        },
    decreases m,
{
    if m > 0 {
        assert(is_normal(h[m - 1].value));
        lemma_held_value_ok(h, name, (m - 1) as nat);
    }
}

} // verus!
