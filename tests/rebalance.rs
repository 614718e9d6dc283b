use num::{BigInt, BigRational};
use rebalance::{
    convert_old_portfolio, ledger_entries, lazy_rebalance, new_lazy_rebalance, report_rows,
    report_totals, Asset, RebalanceError,
};

fn q(n: i64, d: i64) -> BigRational {
    BigRational::new(BigInt::from(n), BigInt::from(d))
}

fn whole(n: i64) -> BigRational {
    q(n, 1)
}

fn example_portfolio() -> Vec<Asset> {
    vec![
        Asset::new("TIPS fund".to_string(), q(10, 100), whole(6500)),
        Asset::new("Bond fund".to_string(), q(20, 100), whole(16500)),
        Asset::new("Domestic Stock ETF".to_string(), q(40, 100), whole(43500)),
        Asset::new("International Stock ETF".to_string(), q(30, 100), whole(33500)),
    ]
}

fn delta_of(a: &Asset) -> BigRational {
    a.delta().unwrap_or_else(|| whole(0))
}

fn find<'a>(assets: &'a [Asset], name: &str) -> &'a Asset {
    assets.iter().find(|a| a.name() == name).unwrap()
}

#[test]
fn test_example() {
    let balanced = lazy_rebalance(whole(10000), example_portfolio()).ok().unwrap();
    let names: Vec<&str> = balanced.iter().map(|a| a.name().as_str()).collect();
    assert_eq!(
        names,
        vec!["TIPS fund", "Bond fund", "Domestic Stock ETF", "International Stock ETF"]
    );
    assert_eq!(delta_of(&balanced[0]), q(31000, 7));
    assert_eq!(delta_of(&balanced[1]), q(37500, 7));
    assert_eq!(delta_of(&balanced[2]), q(1500, 7));
    assert!(balanced[3].delta().is_none());
    assert_eq!(balanced[0].target_value(), Some(whole(11000)));
    assert_eq!(balanced[3].target_value(), Some(whole(33000)));
    assert_eq!(balanced[0].actual_allocation(), q(65, 1000));

    let rows = report_rows(&balanced);
    assert_eq!(rows.len(), 4);
    assert_eq!(rows[0].holding_percent, q(65, 10));
    assert_eq!(rows[0].new_holding_percent, q(765, 77));
    assert_eq!(rows[0].target_percent, whole(10));
    assert_eq!(rows[2].target_percent, whole(40));
    assert_eq!(rows[3].delta, whole(0));
    let totals = report_totals(&rows);
    assert_eq!(totals.value, whole(100000));
    assert_eq!(totals.holding_percent, whole(100));
    assert_eq!(totals.new_holding_percent, whole(100));
    assert_eq!(totals.target_percent, whole(100));
    assert_eq!(totals.target_value, whole(110000));
    assert_eq!(totals.delta, whole(10000));
}

#[test]
fn deltas_sum_to_contribution() {
    let balanced = lazy_rebalance(whole(10000), example_portfolio()).ok().unwrap();
    let sum = balanced.iter().fold(whole(0), |s, a| s + delta_of(a));
    assert_eq!(sum, whole(10000));
}

#[test]
fn withdrawal_sums_to_contribution_and_sorts_descending() {
    let balanced = lazy_rebalance(whole(-5000), example_portfolio()).ok().unwrap();
    let sum = balanced.iter().fold(whole(0), |s, a| s + delta_of(a));
    assert_eq!(sum, whole(-5000));
    for w in balanced.windows(2) {
        assert!(w[0].deviation().unwrap() >= w[1].deviation().unwrap());
    }
    assert_eq!(balanced[0].name(), "International Stock ETF");
    assert!(delta_of(&balanced[0]) < whole(0));
}

#[test]
fn touched_assets_end_at_one_deviation() {
    let balanced = lazy_rebalance(whole(10000), example_portfolio()).ok().unwrap();
    let post: Vec<BigRational> = balanced
        .iter()
        .filter(|a| a.delta().is_some())
        .map(|a| (a.value() + delta_of(a)) / a.target_value().unwrap() - whole(1))
        .collect();
    assert_eq!(post.len(), 3);
    assert!(post.iter().all(|d| *d == post[0]));
}

#[test]
fn deposit_fills_lowest_deviation_first() {
    let balanced = lazy_rebalance(whole(10000), example_portfolio()).ok().unwrap();
    for w in balanced.windows(2) {
        assert!(w[0].deviation().unwrap() <= w[1].deviation().unwrap());
    }
    let rises: Vec<BigRational> = balanced
        .iter()
        .map(|a| delta_of(a) / a.target_value().unwrap())
        .collect();
    for w in rises.windows(2) {
        assert!(w[0] >= w[1]);
    }
    let touched: Vec<bool> = balanced.iter().map(|a| a.delta().is_some()).collect();
    assert_eq!(touched, vec![true, true, true, false]);
}

#[test]
fn zero_contribution_touches_nothing() {
    let balanced = lazy_rebalance(whole(0), example_portfolio()).ok().unwrap();
    assert!(balanced.iter().all(|a| a.delta().is_none()));
    let tips = find(&balanced, "TIPS fund");
    assert_eq!(tips.target_value(), Some(whole(10000)));
    assert_eq!(tips.deviation(), Some(q(-35, 100)));
    let intl = find(&balanced, "International Stock ETF");
    assert_eq!(intl.deviation(), Some(q(335, 300) - whole(1)));
}

#[test]
fn single_asset_absorbs_everything() {
    for c in [250, -40, 1] {
        let one = vec![Asset::new("Only".to_string(), whole(1), whole(100))];
        let balanced = lazy_rebalance(whole(c), one).ok().unwrap();
        assert_eq!(delta_of(&balanced[0]), whole(c));
    }
}

#[test]
fn zero_target_is_rejected() {
    let assets = vec![
        Asset::new("A".to_string(), q(1, 2), whole(100)),
        Asset::new("B".to_string(), whole(0), whole(100)),
        Asset::new("C".to_string(), q(1, 2), whole(0)),
    ];
    match lazy_rebalance(whole(10), assets) {
        Err(RebalanceError::DegenerateTarget { index, name }) => {
            assert_eq!(index, 1);
            assert_eq!(name, "B");
        }
        Ok(_) => panic!("a zero target value must be rejected"),
    }
}

#[test]
fn zero_grand_total_is_rejected() {
    let assets = vec![Asset::new("A".to_string(), whole(1), whole(100))];
    match lazy_rebalance(whole(-100), assets) {
        Err(RebalanceError::DegenerateTarget { index, name }) => {
            assert_eq!(index, 0);
            assert_eq!(name, "A");
        }
        Ok(_) => panic!("a zero grand total must be rejected"),
    }
}

#[test]
fn empty_portfolio() {
    let balanced = lazy_rebalance(whole(100), vec![]).ok().unwrap();
    assert!(balanced.is_empty());
}

#[test]
fn ties_keep_input_order() {
    let assets = vec![
        Asset::new("X".to_string(), q(1, 2), whole(50)),
        Asset::new("Y".to_string(), q(1, 2), whole(50)),
    ];
    let balanced = lazy_rebalance(whole(100), assets).ok().unwrap();
    assert_eq!(balanced[0].name(), "X");
    assert_eq!(balanced[1].name(), "Y");
    assert_eq!(delta_of(&balanced[0]), whole(50));
    assert_eq!(delta_of(&balanced[1]), whole(50));
}

#[test]
fn ledger_lists_nonzero_deltas() {
    let balanced = lazy_rebalance(whole(10000), example_portfolio()).ok().unwrap();
    let entries = ledger_entries(&balanced);
    assert_eq!(entries.len(), 3);
    assert_eq!(entries[0].name, "TIPS fund");
    assert_eq!(entries[0].amount, q(31000, 7));
    assert!(!entries[0].withdrawal);
    let out = lazy_rebalance(whole(-5000), example_portfolio()).ok().unwrap();
    let entries = ledger_entries(&out);
    assert!(entries.iter().all(|e| e.withdrawal));
}

#[test]
fn new_rebalance_matches_old() {
    let converted = convert_old_portfolio(example_portfolio());
    assert_eq!(converted.len(), 4);
    assert_eq!(converted[2].name(), "Domestic Stock ETF");
    let balanced = new_lazy_rebalance(whole(10000), converted).ok().unwrap();
    assert_eq!(balanced[0].name(), "TIPS fund");
    assert_eq!(balanced[0].contribution(), Some(q(31000, 7)));
    assert_eq!(balanced[1].contribution(), Some(q(37500, 7)));
    assert_eq!(balanced[2].contribution(), Some(q(1500, 7)));
    assert_eq!(balanced[3].contribution(), None);
    assert_eq!(balanced[0].fractional_deviation(), Some(q(6500, 11000) - whole(1)));
}

fn target(name: &str, percent: i64) -> rebalance::TargetEntry {
    rebalance::TargetEntry { name: name.to_string(), percent: whole(percent) }
}

fn holding(name: &str, value: i64) -> rebalance::HoldingEntry {
    rebalance::HoldingEntry { name: name.to_string(), value: whole(value) }
}

#[test]
fn portfolio_unions_targets_and_holdings() {
    let targets = vec![
        target("TIPS fund", 10),
        target("Bond fund", 20),
        target("Cash", 0),
        target("Domestic Stock ETF", 40),
        target("New fund", 30),
    ];
    let holdings = vec![
        holding("Bond fund", 16500),
        holding("TIPS fund", 6500),
        holding("Untargeted", 999),
        holding("Domestic Stock ETF", 43500),
    ];
    let assets = rebalance::create_portfolio(&targets, &holdings);
    let names: Vec<&str> = assets.iter().map(|a| a.name().as_str()).collect();
    assert_eq!(names, vec!["TIPS fund", "Bond fund", "Domestic Stock ETF", "New fund"]);
    assert_eq!(assets[0].value(), whole(6500));
    assert_eq!(assets[0].target_allocation_percent(), q(1, 10));
    assert_eq!(assets[1].value(), whole(16500));
    assert_eq!(assets[3].value(), whole(0));
    assert_eq!(assets[3].target_allocation_percent(), q(3, 10));
    assert!(assets.iter().all(|a| a.delta().is_none()));
}

#[test]
fn portfolio_keeps_last_entry_for_a_name() {
    let targets = vec![target("A", 40), target("B", 60), target("A", 60), target("B", -5)];
    let holdings = vec![holding("A", 1), holding("A", 7)];
    let assets = rebalance::create_portfolio(&targets, &holdings);
    let names: Vec<&str> = assets.iter().map(|a| a.name().as_str()).collect();
    assert_eq!(names, vec!["B", "A"]);
    assert_eq!(assets[0].target_allocation_percent(), q(6, 10));
    assert_eq!(assets[1].target_allocation_percent(), q(6, 10));
    assert_eq!(assets[1].value(), whole(7));
}
