//! What the report and the ledger show of a rebalanced portfolio, as exact
//! numbers; rendering them as text is left to the caller.
use vstd::prelude::*;
use num::BigRational;
use crate::ratio::{frac_of, is_normal, lemma_eqv_trans, lemma_over_congr, lemma_times_congr, lemma_valid_ops, lemma_plus_congr, rat_add, rat_clone, rat_div, rat_from_u64, rat_le, rat_mul, rat_one, rat_zero, Frac};
use crate::rebalance::{views, Asset, AssetView};

verus! {

/// One line of the report, in percent where the column is a share.
pub struct ReportRow {
    pub name: String,
    pub value: BigRational,
    /// Current share of the portfolio.
    pub holding_percent: BigRational,
    /// Share after the delta is applied, against the target value.
    pub new_holding_percent: BigRational,
    pub target_percent: BigRational,
    pub target_value: BigRational,
    /// Amount to buy (positive) or sell (negative); zero where none.
    pub delta: BigRational,
}

pub open spec fn hundred() -> Frac {
    Frac::of_int(100)
}

/// An asset that the engine has evaluated.
pub open spec fn is_evaluated(a: AssetView) -> bool {
    &&& a.is_valid()
    &&& a.target_value is Some
    &&& !a.target_value.unwrap().is_zero()
}

pub open spec fn delta_or_zero(a: AssetView) -> Frac {
    match a.delta {
        Some(d) => d,
        None => Frac::zero(),
    }
}

/// The row that shows asset `a`.
pub open spec fn row_shows(r: ReportRow, a: AssetView) -> bool {
    let tv = a.target_value.unwrap();
    let tf = a.target_fraction;
    &&& r.name@ == a.name
    &&& frac_of(r.value) == a.value
    &&& frac_of(r.holding_percent).eqv(a.actual_allocation.times(hundred()))
    &&& frac_of(r.new_holding_percent).eqv(
        a.value.plus(delta_or_zero(a)).times(tf).over(tv).times(hundred()),
    )
    &&& frac_of(r.target_percent).eqv(if tf.le(Frac::one()) { tf.times(hundred()) } else { tf })
    &&& frac_of(r.target_value) == tv
    &&& frac_of(r.delta) == delta_or_zero(a)
    &&& is_normal(r.value) && is_normal(r.holding_percent) && is_normal(r.new_holding_percent)
    &&& is_normal(r.target_percent) && is_normal(r.target_value) && is_normal(r.delta)
}

/// The row of one evaluated asset.
fn report_row(a: &Asset) -> (r: ReportRow)
    requires
        is_evaluated(a@),
    ensures
        row_shows(r, a@),
{
    let ghost v = a@;
    let percent = rat_from_u64(100);
    let one = rat_one();
    let value = a.value();
    let holding = rat_mul(&a.actual_allocation(), &percent);
    let delta = match a.delta() {
        Some(d) => d,
        None => rat_zero(),
    };
    let tf = a.target_allocation_percent();
    let tv = match a.target_value() {
        Some(t) => t,
        None => rat_one(),
    };
    assert(frac_of(tv) == v.target_value.unwrap());
    assert(frac_of(delta) == delta_or_zero(v));
    let held = rat_add(&value, &delta);
    let weighted = rat_mul(&held, &tf);
    let share = rat_div(&weighted, &tv);
    let new_holding = rat_mul(&share, &percent);
    proof {
        let d = delta_or_zero(v);
        let h = hundred();
        let x1 = v.value.plus(d);
        let x2 = x1.times(v.target_fraction);
        let x3 = x2.over(frac_of(tv));
        lemma_valid_ops(v.value, d);
        lemma_valid_ops(x1, v.target_fraction);
        lemma_times_congr(frac_of(held), x1, v.target_fraction, v.target_fraction);
        lemma_valid_ops(frac_of(held), v.target_fraction);
        lemma_eqv_trans(frac_of(weighted), frac_of(held).times(v.target_fraction), x2);
        lemma_over_congr(frac_of(weighted), x2, frac_of(tv), frac_of(tv));
        lemma_valid_ops(frac_of(weighted), frac_of(tv));
        lemma_valid_ops(x2, frac_of(tv));
        lemma_eqv_trans(frac_of(share), frac_of(weighted).over(frac_of(tv)), x3);
        lemma_times_congr(frac_of(share), x3, h, h);
        lemma_valid_ops(frac_of(share), h);
        lemma_eqv_trans(frac_of(new_holding), frac_of(share).times(h), x3.times(h));
    }
    let target_percent = if rat_le(&tf, &one) {
        rat_mul(&tf, &percent)
    } else {
        tf
    };
    ReportRow {
        name: a.name().clone(),
        value,
        holding_percent: holding,
        new_holding_percent: new_holding,
        target_percent,
        target_value: tv,
        delta,
    }
}

/// The rows of the report, one per asset, in the portfolio's order.
pub fn report_rows(balanced_portfolio: &Vec<Asset>) -> (r: Vec<ReportRow>)
    requires
        forall|k: int| 0 <= k < balanced_portfolio.len() ==> is_evaluated(#[trigger] views(balanced_portfolio@)[k]),
    ensures
        r.len() == balanced_portfolio.len(),
        forall|k: int| 0 <= k < r.len() ==> row_shows(#[trigger] r@[k], views(balanced_portfolio@)[k]),
{
    let mut rows: Vec<ReportRow> = Vec::new();
    let mut i: usize = 0;
    while i < balanced_portfolio.len()
        invariant
            i <= balanced_portfolio.len(),
            rows.len() == i,
            forall|k: int| 0 <= k < balanced_portfolio.len() ==> is_evaluated(#[trigger] views(balanced_portfolio@)[k]),
            forall|k: int| 0 <= k < i ==> row_shows(#[trigger] rows@[k], views(balanced_portfolio@)[k]),
        decreases balanced_portfolio.len() - i,
    {
        assert(is_evaluated(views(balanced_portfolio@)[i as int]));
        let row = report_row(&balanced_portfolio[i]);
        rows.push(row);
        i += 1;
    }
    rows
}

/// The sums of the report's numeric columns.
pub struct ReportTotals {
    pub value: BigRational,
    pub holding_percent: BigRational,
    pub new_holding_percent: BigRational,
    pub target_percent: BigRational,
    pub target_value: BigRational,
    pub delta: BigRational,
}

/// Column `i` of a row, numbered from `value` (0) to `delta` (5).
pub open spec fn column(r: ReportRow, i: int) -> Frac {
    if i == 0 {
        frac_of(r.value)
    } else if i == 1 {
        frac_of(r.holding_percent)
    } else if i == 2 {
        frac_of(r.new_holding_percent)
    } else if i == 3 {
        frac_of(r.target_percent)
    } else if i == 4 {
        frac_of(r.target_value)
    } else {
        frac_of(r.delta)
    }
}

/// The sum of column `i` over the rows, added up from the first.
pub open spec fn column_total(rows: Seq<ReportRow>, i: int) -> Frac
    decreases rows.len(),
{
    if rows.len() == 0 {
        Frac::zero()
    } else {
        column_total(rows.drop_last(), i).plus(column(rows.last(), i))
    }
}

pub open spec fn totals_column(t: ReportTotals, i: int) -> BigRational {
    if i == 0 {
        t.value
    } else if i == 1 {
        t.holding_percent
    } else if i == 2 {
        t.new_holding_percent
    } else if i == 3 {
        t.target_percent
    } else if i == 4 {
        t.target_value
    } else {
        t.delta
    }
}

pub open spec fn rows_normal(rows: Seq<ReportRow>) -> bool {
    forall|k: int, i: int| 0 <= k < rows.len() && 0 <= i < 6 ==> #[trigger] column(rows[k], i).valid()
}

proof fn lemma_column_total_valid(rows: Seq<ReportRow>, i: int)
    requires
        rows_normal(rows),
    ensures
        column_total(rows, i).valid(),
    decreases rows.len(),
{
    if rows.len() > 0 {
        let t = rows.drop_last();
        assert(rows_normal(t)) by {
            assert forall|k: int, j: int| 0 <= k < t.len() && 0 <= j < 6 implies #[trigger] column(t[k], j).valid() by {
                assert(t[k] == rows[k]);
            }
        }
        lemma_column_total_valid(t, i);
        assert(column(rows[rows.len() - 1], i).valid()) by {
            if !(0 <= i < 6) {
                assert(column(rows[rows.len() - 1], i) == column(rows[rows.len() - 1], 5));
            }
        }
        lemma_valid_ops(column_total(t, i), column(rows.last(), i));
    }
}

/// Adds `x` to the running sum `acc` of column `i` over `rows.take(k)`.
fn add_to_total(acc: &BigRational, x: &BigRational, Ghost(rows): Ghost<Seq<ReportRow>>, Ghost(k): Ghost<int>, Ghost(i): Ghost<int>) -> (r: BigRational)
    requires
        0 <= k < rows.len(),
        0 <= i < 6,
        rows_normal(rows),
        is_normal(*acc),
        frac_of(*acc).eqv(column_total(rows.take(k), i)),
        frac_of(*x) == column(rows[k], i),
    ensures
        is_normal(r),
        frac_of(r).eqv(column_total(rows.take(k + 1), i)),
{
    assert(column(rows[k], i).valid());
    let r = rat_add(acc, x);
    proof {
        let t = rows.take(k);
        assert(rows.take(k + 1).drop_last() =~= t);
        assert(rows_normal(t)) by {
            assert forall|m: int, j: int| 0 <= m < t.len() && 0 <= j < 6 implies #[trigger] column(t[m], j).valid() by {
                assert(t[m] == rows[m]);
            }
        }
        lemma_column_total_valid(t, i);
        lemma_plus_congr(frac_of(*acc), column_total(t, i), frac_of(*x), frac_of(*x));
        lemma_valid_ops(frac_of(*acc), frac_of(*x));
        lemma_eqv_trans(frac_of(r), frac_of(*acc).plus(frac_of(*x)), column_total(t, i).plus(frac_of(*x)));
    }
    r
}

/// The totals line of the report: each numeric column summed over the rows.
pub fn report_totals(rows: &Vec<ReportRow>) -> (t: ReportTotals)
    requires
        rows_normal(rows@),
    ensures
        forall|i: int| 0 <= i < 6 ==> frac_of(#[trigger] totals_column(t, i)).eqv(column_total(rows@, i)),
{
    let ghost s = rows@;
    let mut t = ReportTotals {
        value: rat_zero(),
        holding_percent: rat_zero(),
        new_holding_percent: rat_zero(),
        target_percent: rat_zero(),
        target_value: rat_zero(),
        delta: rat_zero(),
    };
    let mut k: usize = 0;
    while k < rows.len()
        invariant
            k <= rows.len(),
            s == rows@,
            rows_normal(s),
            forall|i: int| 0 <= i < 6 ==> is_normal(#[trigger] totals_column(t, i)),
            forall|i: int| 0 <= i < 6 ==> frac_of(#[trigger] totals_column(t, i)).eqv(column_total(s.take(k as int), i)),
        decreases rows.len() - k,
    {
        let row = &rows[k];
        let ghost kk = k as int;
        assert(column(s[kk], 0).valid() && column(s[kk], 1).valid() && column(s[kk], 2).valid());
        assert(column(s[kk], 3).valid() && column(s[kk], 4).valid() && column(s[kk], 5).valid());
        assert(totals_column(t, 0) == t.value && totals_column(t, 1) == t.holding_percent);
        assert(totals_column(t, 2) == t.new_holding_percent && totals_column(t, 3) == t.target_percent);
        assert(totals_column(t, 4) == t.target_value && totals_column(t, 5) == t.delta);
        let value = add_to_total(&t.value, &row.value, Ghost(s), Ghost(kk), Ghost(0));
        let holding = add_to_total(&t.holding_percent, &row.holding_percent, Ghost(s), Ghost(kk), Ghost(1));
        let new_holding = add_to_total(&t.new_holding_percent, &row.new_holding_percent, Ghost(s), Ghost(kk), Ghost(2));
        let target_percent = add_to_total(&t.target_percent, &row.target_percent, Ghost(s), Ghost(kk), Ghost(3));
        let target_value = add_to_total(&t.target_value, &row.target_value, Ghost(s), Ghost(kk), Ghost(4));
        let delta = add_to_total(&t.delta, &row.delta, Ghost(s), Ghost(kk), Ghost(5));
        t = ReportTotals { value, holding_percent: holding, new_holding_percent: new_holding, target_percent, target_value, delta };
        k += 1;
    }
    assert(s.take(k as int) =~= s);
    t
}

/// One ledger transaction: `amount` moves into the asset `name`, or out of it
/// when `withdrawal` holds.
pub struct LedgerEntry {
    pub name: String,
    pub amount: BigRational,
    pub withdrawal: bool,
}

/// An asset with a delta other than zero.
pub open spec fn has_posting(a: AssetView) -> bool {
    a.delta is Some && !a.delta.unwrap().is_zero()
}

/// The assets that the ledger lists, in order.
pub open spec fn posted(s: Seq<AssetView>) -> Seq<AssetView>
    decreases s.len(),
{
    if s.len() == 0 {
        Seq::empty()
    } else if has_posting(s.last()) {
        posted(s.drop_last()).push(s.last())
    } else {
        posted(s.drop_last())
    }
}

pub open spec fn entry_shows(e: LedgerEntry, a: AssetView) -> bool {
    &&& e.name@ == a.name
    &&& frac_of(e.amount) == a.delta.unwrap()
    &&& e.withdrawal == a.delta.unwrap().is_neg()
}

/// The ledger's transactions: one for each asset whose delta is not zero, in
/// the portfolio's order.
pub fn ledger_entries(balanced_portfolio: &Vec<Asset>) -> (r: Vec<LedgerEntry>)
    requires
        forall|k: int| 0 <= k < balanced_portfolio.len() ==> (#[trigger] views(balanced_portfolio@)[k]).is_valid(),
    ensures
        r.len() == posted(views(balanced_portfolio@)).len(),
        forall|k: int| 0 <= k < r.len() ==> entry_shows(#[trigger] r@[k], posted(views(balanced_portfolio@))[k]),
{
    let ghost s = views(balanced_portfolio@);
    let zero = rat_zero();
    let mut entries: Vec<LedgerEntry> = Vec::new();
    let mut i: usize = 0;
    while i < balanced_portfolio.len()
        invariant
            i <= balanced_portfolio.len(),
            s == views(balanced_portfolio@),
            frac_of(zero) == Frac::zero(),
            forall|k: int| 0 <= k < balanced_portfolio.len() ==> (#[trigger] views(balanced_portfolio@)[k]).is_valid(),
            entries.len() == posted(s.take(i as int)).len(),
            forall|k: int| 0 <= k < entries.len() ==> entry_shows(#[trigger] entries@[k], posted(s.take(i as int))[k]),
        decreases balanced_portfolio.len() - i,
    {
        let ghost a = s[i as int];
        assert(a.is_valid());
        assert(s.take(i + 1).drop_last() =~= s.take(i as int));
        assert(s.take(i + 1).last() == a);
        let asset = &balanced_portfolio[i];
        match asset.delta() {
            Some(d) => {
                if !crate::ratio::rat_eq(&d, &zero) {
                    let withdrawal = crate::ratio::rat_lt(&d, &zero);
                    assert((frac_of(d).num * 1 == 0 * frac_of(d).den) == (frac_of(d).num == 0));
                    assert((frac_of(d).num * 1 < 0 * frac_of(d).den) == (frac_of(d).num < 0));
                    entries.push(LedgerEntry { name: asset.name().clone(), amount: d, withdrawal });
                } else {
                    assert(frac_of(d).num * 1 == 0 * frac_of(d).den);
                }
            },
            None => {},
        }
        i += 1;
    }
    assert(s.take(i as int) =~= s);
    entries
}

} // verus!
