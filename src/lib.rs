//! Lazy portfolio rebalancing: spread one deposit or withdrawal over a
//! portfolio's assets so that it moves toward its target allocation, using
//! exact rational arithmetic.
//!
//! The engine sorts the assets by how far each stands from its target share
//! of the portfolio after the contribution, and fills the furthest first:
//! each group is raised (or lowered) to the next asset's level until the
//! contribution is used up.
use vstd::prelude::*;

pub mod ratio;
pub mod water;
pub mod rebalance;
pub mod laws;
pub mod report;
pub mod portfolio;
pub mod sums;
pub mod source;

pub use portfolio::{convert_new_portfolio, convert_old_portfolio, new_lazy_rebalance, PortfolioAsset};
pub use rebalance::{lazy_rebalance, Asset, RebalanceError};
pub use source::{create_portfolio, HoldingEntry, TargetEntry};
pub use report::{ledger_entries, report_rows, report_totals, LedgerEntry, ReportRow, ReportTotals};

verus! {

} // verus!
