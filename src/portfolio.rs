//! Portfolio positions that keep an asset's inputs apart from what the engine
//! computes for it.
use vstd::prelude::*;
use num::BigRational;
use crate::ratio::{frac_of, is_normal, rat_clone, Frac};
use crate::rebalance::{
    all_valid, lazy_rebalance, opt_frac, rebalanced, reports_degenerate, views, Asset, AssetView,
    RebalanceError,
};

verus! {

/// What is known of a holding before the engine runs.
struct NewAsset {
    name: String,
    actual_value: BigRational,
    actual_allocation_percent: BigRational,
    target_allocation_percent: BigRational,
}

/// A holding together with the engine's results for it.
pub struct PortfolioAsset {
    asset: NewAsset,
    target_value: Option<BigRational>,
    /// `actual_value / target_value - 1`: negative below target, positive above.
    fractional_deviation: Option<BigRational>,
    /// Amount to add (positive) or withdraw (negative).
    contribution: Option<BigRational>,
}

impl View for PortfolioAsset {
    type V = AssetView;

    closed spec fn view(&self) -> AssetView {
        AssetView {
            name: self.asset.name@,
            value: frac_of(self.asset.actual_value),
            actual_allocation: frac_of(self.asset.actual_allocation_percent),
            target_fraction: frac_of(self.asset.target_allocation_percent),
            target_value: opt_frac(self.target_value),
            deviation: opt_frac(self.fractional_deviation),
            delta: opt_frac(self.contribution),
        }
    }
}

pub open spec fn views_of(s: Seq<PortfolioAsset>) -> Seq<AssetView> {
    s.map_values(|a: PortfolioAsset| a@)
}

/// The inputs of an asset, with nothing computed yet.
pub open spec fn as_input(a: AssetView) -> AssetView {
    AssetView { actual_allocation: Frac::zero(), target_value: None, deviation: None, delta: None, ..a }
}

fn clone_opt(o: &Option<BigRational>) -> (r: Option<BigRational>)
    ensures
        opt_frac(r) == opt_frac(*o),
{
    match o {
        Some(x) => Some(rat_clone(x)),
        None => None,
    }
}

impl PortfolioAsset {
    pub fn name(&self) -> (r: &String)
        ensures
            r@ == self@.name,
    {
        &self.asset.name
    }

    pub fn target_value(&self) -> (r: Option<BigRational>)
        ensures
            opt_frac(r) == self@.target_value,
    {
        clone_opt(&self.target_value)
    }

    pub fn fractional_deviation(&self) -> (r: Option<BigRational>)
        ensures
            opt_frac(r) == self@.deviation,
    {
        clone_opt(&self.fractional_deviation)
    }

    pub fn contribution(&self) -> (r: Option<BigRational>)
        ensures
            opt_frac(r) == self@.delta,
    {
        clone_opt(&self.contribution)
    }

    /// The same position as an `Asset`.
    pub fn to_asset(&self) -> (r: Asset)
        ensures
            r@ == self@,
    {
        Asset::from_parts(
            self.asset.name.clone(),
            rat_clone(&self.asset.actual_value),
            rat_clone(&self.asset.actual_allocation_percent),
            rat_clone(&self.asset.target_allocation_percent),
            clone_opt(&self.target_value),
            clone_opt(&self.fractional_deviation),
            clone_opt(&self.contribution),
        )
    }
}

/// The same positions as `PortfolioAsset`s, in the same order.
pub fn convert_old_portfolio(old_assets: Vec<Asset>) -> (r: Vec<PortfolioAsset>)
    ensures
        views_of(r@) == views(old_assets@),
{
    let mut out: Vec<PortfolioAsset> = Vec::new();
    let mut i: usize = 0;
    while i < old_assets.len()
        invariant
            i <= old_assets.len(),
            out.len() == i,
            forall|k: int| 0 <= k < i ==> #[trigger] out@[k]@ == old_assets@[k]@,
        decreases old_assets.len() - i,
    {
        let old = &old_assets[i];
        let asset = NewAsset {
            name: old.name().clone(),
            actual_value: old.value(),
            actual_allocation_percent: old.actual_allocation(),
            target_allocation_percent: old.target_allocation_percent(),
        };
        out.push(PortfolioAsset {
            asset,
            target_value: old.target_value(),
            fractional_deviation: old.deviation(),
            contribution: old.delta(),
        });
        i += 1;
    }
    assert(views_of(out@) =~= views(old_assets@));
    out
}

/// The same positions as `Asset`s, in the same order.
pub fn convert_new_portfolio(assets: &Vec<PortfolioAsset>) -> (r: Vec<Asset>)
    ensures
        views(r@) == views_of(assets@),
{
    let mut out: Vec<Asset> = Vec::new();
    let mut i: usize = 0;
    while i < assets.len()
        invariant
            i <= assets.len(),
            out.len() == i,
            forall|k: int| 0 <= k < i ==> #[trigger] out@[k]@ == assets@[k]@,
        decreases assets.len() - i,
    {
        out.push(assets[i].to_asset());
        i += 1;
    }
    assert(views(out@) =~= views_of(assets@));
    out
}

/// `lazy_rebalance` on `PortfolioAsset`s: the computed fields that the
/// positions held are replaced by the engine's.
pub fn new_lazy_rebalance(amount_to_contribute: BigRational, assets: Vec<PortfolioAsset>) -> (r: Result<
    Vec<PortfolioAsset>,
    RebalanceError,
>)
    requires
        is_normal(amount_to_contribute),
        all_valid(views_of(assets@)),
    ensures
        match r {
            Ok(out) => rebalanced(
                views_of(assets@).map_values(|a: AssetView| as_input(a)),
                frac_of(amount_to_contribute),
                views_of(out@),
            ),
            Err(e) => reports_degenerate(
                views_of(assets@).map_values(|a: AssetView| as_input(a)),
                frac_of(amount_to_contribute),
                e,
            ),
        },
{
    let ghost inputs = views_of(assets@).map_values(|a: AssetView| as_input(a));
    let mut fresh: Vec<Asset> = Vec::new();
    let mut i: usize = 0;
    while i < assets.len()
        invariant
            i <= assets.len(),
            fresh.len() == i,
            inputs == views_of(assets@).map_values(|a: AssetView| as_input(a)),
            all_valid(views_of(assets@)),
            forall|k: int| 0 <= k < i ==> #[trigger] fresh@[k]@ == inputs[k],
        decreases assets.len() - i,
    {
        let a = &assets[i];
        assert(views_of(assets@)[i as int].is_valid());
        let asset = Asset::new(
            a.asset.name.clone(),
            rat_clone(&a.asset.target_allocation_percent),
            rat_clone(&a.asset.actual_value),
        );
        fresh.push(asset);
        i += 1;
    }
    assert(views(fresh@) =~= inputs);
    assert(all_valid(views(fresh@))) by {
        assert forall|k: int| 0 <= k < fresh.len() implies #[trigger] views(fresh@)[k].is_valid() by {
            assert(views_of(assets@)[k].is_valid());
        }
    }
    match lazy_rebalance(amount_to_contribute, fresh) {
        Ok(out) => Ok(convert_old_portfolio(out)),
        Err(e) => Err(e),
    }
}

} // verus!
