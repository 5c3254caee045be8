use chrono::Datelike;

use portfolio_forecast::calendar::fmt_date;
use portfolio_forecast::ledger::Ledger;
use portfolio_forecast::model::{epoch_day_of, PClient, PHistoricalPrice, PSecurity, PTransaction};
use portfolio_forecast::order::{contains_sorted, sorted_distinct, stable_sort_order};
use portfolio_forecast::orientation::{is_landscape, set_orientation};
use portfolio_forecast::prices::{build_table, lookup_price, PriceBook};

fn bare(kind: i32, amount: i64, shares: Option<i64>) -> PTransaction {
    PTransaction {
        tx_type: kind,
        date_seconds: Some(0),
        amount,
        shares,
        account: None,
        portfolio: None,
        other_account: None,
        other_portfolio: None,
        security: None,
    }
}

fn shares_of(l: &Ledger, uuid: &str) -> i128 {
    l.positions.iter().filter(|p| p.security == uuid).map(|p| p.shares).sum()
}

#[test]
fn deposit_and_fees_move_cash() {
    let mut l = Ledger::new();
    let mut d = bare(6, 10_000, None);
    d.account = Some("A".into());
    l.apply(&d);
    let mut fee = bare(13, 250, None);
    fee.account = Some("A".into());
    l.apply(&fee);
    let no_account = bare(6, 99, None);
    l.apply(&no_account);
    assert_eq!(l.cash, 9_750);
    assert_eq!(l.applied, 3);
}

#[test]
fn law_cash_transfer_keeps_total_cash() {
    let mut l = Ledger::new();
    let mut d = bare(6, 10_000, None);
    d.account = Some("A".into());
    l.apply(&d);
    let mut t = bare(5, 4_000, None);
    t.account = Some("A".into());
    t.other_account = Some("B".into());
    l.apply(&t);
    assert_eq!(l.cash, 10_000);
    // a transfer to no account takes the cash out
    let mut out = bare(5, 1_000, None);
    out.account = Some("A".into());
    l.apply(&out);
    assert_eq!(l.cash, 9_000);
}

#[test]
fn law_security_transfer_keeps_shares() {
    let mut l = Ledger::new();
    let mut buy = bare(0, 500, Some(7));
    buy.account = Some("A".into());
    buy.portfolio = Some("P".into());
    buy.security = Some("S".into());
    l.apply(&buy);
    let mut tr = bare(4, 0, Some(7));
    tr.portfolio = Some("P".into());
    tr.other_portfolio = Some("Q".into());
    tr.security = Some("S".into());
    l.apply(&tr);
    assert_eq!(shares_of(&l, "S"), 7);
    assert_eq!(l.cash, -500);
    // a transfer into a portfolio only adds shares
    let mut inn = bare(4, 0, Some(3));
    inn.other_portfolio = Some("Q".into());
    inn.security = Some("T".into());
    l.apply(&inn);
    assert_eq!(shares_of(&l, "T"), 3);
}

#[test]
fn law_sale_undoes_purchase() {
    let mut l = Ledger::new();
    let mut buy = bare(0, 12_345, Some(3 * 100_000_000));
    buy.account = Some("A".into());
    buy.portfolio = Some("P".into());
    buy.security = Some("S".into());
    let mut sell = bare(1, 12_345, Some(3 * 100_000_000));
    sell.account = Some("A".into());
    sell.portfolio = Some("P".into());
    sell.security = Some("S".into());
    l.apply(&buy);
    assert_eq!(shares_of(&l, "S"), 300_000_000);
    assert_eq!(l.cash, -12_345);
    l.apply(&sell);
    assert_eq!(l.cash, 0);
    assert_eq!(shares_of(&l, "S"), 0);
}

#[test]
fn extreme_amounts_do_not_overflow() {
    let mut l = Ledger::new();
    let mut d = bare(6, i64::MIN, None);
    d.account = Some("A".into());
    l.apply(&d);
    l.apply(&d);
    assert_eq!(l.cash, 2 * i64::MIN as i128);
}

#[test]
fn price_table_sorts_and_keeps_first_per_date() {
    let sec = PSecurity {
        uuid: "S".into(),
        prices: vec![
            PHistoricalPrice { date: 30, close: 3 },
            PHistoricalPrice { date: 10, close: 1 },
            PHistoricalPrice { date: 30, close: 99 },
        ],
        latest: Some(PHistoricalPrice { date: 20, close: 2 }),
    };
    let t = build_table(&sec);
    assert_eq!(t, vec![(10, 1), (20, 2), (30, 3)]);
}

#[test]
fn law_price_is_last_on_or_before() {
    let t = vec![(10i64, 1i64), (20, 2), (30, 3)];
    assert_eq!(lookup_price(&t, 5), Some(1));
    assert_eq!(lookup_price(&t, 10), Some(1));
    assert_eq!(lookup_price(&t, 19), Some(1));
    assert_eq!(lookup_price(&t, 20), Some(2));
    assert_eq!(lookup_price(&t, 29), Some(2));
    assert_eq!(lookup_price(&t, 1000), Some(3));
}

#[test]
fn empty_table_has_no_price() {
    let t: Vec<(i64, i64)> = vec![];
    assert_eq!(lookup_price(&t, 10), None);
}

#[test]
fn price_book_last_security_wins() {
    let mk = |uuid: &str, close: i64| PSecurity {
        uuid: uuid.into(),
        prices: vec![PHistoricalPrice { date: 1, close }],
        latest: None,
    };
    let empty = PSecurity { uuid: "X".into(), prices: vec![], latest: None };
    let secs = vec![mk("X", 5), mk("Y", 6), empty];
    let book = PriceBook::build(&secs, false);
    assert_eq!(book.entries.len(), 2);
    assert_eq!(book.find(&"X".to_string()), Some(0));
    let kept = PriceBook::build(&secs, true);
    assert_eq!(kept.find(&"X".to_string()), Some(2));
    assert!(kept.entries[2].table.is_empty());
    assert_eq!(kept.find(&"Z".to_string()), None);
}

#[test]
fn valuation_uses_book_prices() {
    let secs = vec![PSecurity {
        uuid: "S".into(),
        prices: vec![PHistoricalPrice { date: 100, close: 50 }, PHistoricalPrice { date: 200, close: 70 }],
        latest: None,
    }];
    let book = PriceBook::build(&secs, false);
    let mut l = Ledger::new();
    let mut buy = bare(2, 0, Some(4));
    buy.portfolio = Some("P".into());
    buy.security = Some("S".into());
    l.apply(&buy);
    let mut other = bare(2, 0, Some(9));
    other.portfolio = Some("P".into());
    other.security = Some("unpriced".into());
    l.apply(&other);
    assert_eq!(l.valuation(&book, 150).holdings, vec![(4, 50)]);
    assert_eq!(l.valuation(&book, 250).holdings, vec![(4, 70)]);
    assert_eq!(l.valuation(&book, 0).holdings, vec![(4, 50)]);
}

#[test]
fn stable_sort_keeps_ties_in_order() {
    let keys = vec![5i64, 1, 5, 0, 1];
    assert_eq!(stable_sort_order(&keys), vec![3, 1, 4, 0, 2]);
    assert_eq!(stable_sort_order(&vec![]), Vec::<usize>::new());
}

#[test]
fn distinct_days_ascending() {
    let d = sorted_distinct(&vec![3i64, -1, 3, 7, -1]);
    assert_eq!(d, vec![-1, 3, 7]);
    assert!(contains_sorted(&d, 7));
    assert!(!contains_sorted(&d, 4));
}

#[test]
fn epoch_day_truncates_toward_zero() {
    assert_eq!(epoch_day_of(86_399), 0);
    assert_eq!(epoch_day_of(-1), 0);
    assert_eq!(epoch_day_of(-86_400), -1);
    assert_eq!(epoch_day_of(-86_401), -1);
    assert_eq!(epoch_day_of(i64::MIN), i64::MIN / 86_400);
}

#[test]
fn orientation_off_android() {
    assert_eq!(set_orientation(true), Ok(()));
    assert_eq!(set_orientation(false), Ok(()));
    assert_eq!(is_landscape(), Ok(true));
}

#[test]
fn client_without_transactions_fits() {
    let c = PClient { securities: vec![], transactions: vec![] };
    assert!(portfolio_forecast::analysis::balance::nav_days_fit(&c));
}

#[test]
fn fmt_date_year_month() {
    assert_eq!(fmt_date(730_120), "2000-01");
    assert_eq!(fmt_date(730_180), "2000-03");
    assert_eq!(fmt_date(i32::MIN), "");
}

#[test]
fn chrono_date_range_matches_calendar_bounds() {
    assert_eq!(chrono::NaiveDate::MIN.num_days_from_ce(), -95_746_129);
    assert_eq!(chrono::NaiveDate::MAX.num_days_from_ce(), 95_745_399);
    assert_eq!(chrono::NaiveDate::MIN.year(), -262_143);
    assert_eq!(chrono::NaiveDate::MAX.year(), 262_142);
    assert!(chrono::NaiveDate::from_num_days_from_ce_opt(-95_746_130).is_none());
    assert!(chrono::NaiveDate::from_num_days_from_ce_opt(95_745_400).is_none());
    assert!(chrono::NaiveDate::from_ymd_opt(262_142, 12, 1).is_some());
    assert!(chrono::NaiveDate::from_ymd_opt(262_143, 1, 1).is_none());
    assert!(chrono::NaiveDate::from_ymd_opt(-262_143, 1, 1).is_some());
    assert!(chrono::NaiveDate::from_ymd_opt(-262_144, 12, 1).is_none());
    let last_secs = (95_745_399i64 - 719_163) * 86_400;
    assert!(chrono::DateTime::from_timestamp(last_secs + 86_399, 0).is_some());
    assert!(chrono::DateTime::from_timestamp(last_secs + 86_400, 0).is_none());
    let first_secs = (-95_746_129i64 - 719_163) * 86_400;
    assert!(chrono::DateTime::from_timestamp(first_secs, 0).is_some());
    assert!(chrono::DateTime::from_timestamp(first_secs - 1, 0).is_none());
}

fn nav_units(l: &Ledger, book: &PriceBook, day: i64) -> i128 {
    let v = l.valuation(book, day);
    v.cash_cents * 100_000_000_000_000 + v.holdings.iter().map(|h| h.0 * h.1 as i128).sum::<i128>()
}

fn one_security_book() -> PriceBook {
    let secs = vec![PSecurity {
        uuid: "S".into(),
        prices: vec![PHistoricalPrice { date: 100, close: 2_500_000_000 }],
        latest: None,
    }];
    PriceBook::build(&secs, false)
}

#[test]
fn law_nav_is_cash_plus_positions() {
    let book = one_security_book();
    let mut l = Ledger::new();
    let mut d = bare(6, 10_000, None);
    d.account = Some("A".into());
    l.apply(&d);
    let mut inn = bare(2, 0, Some(3 * 100_000_000));
    inn.portfolio = Some("P".into());
    inn.security = Some("S".into());
    l.apply(&inn);
    let mut unpriced = bare(2, 0, Some(100_000_000));
    unpriced.portfolio = Some("P".into());
    unpriced.security = Some("U".into());
    l.apply(&unpriced);
    // 100.00 in cash plus 3 shares at 25.00: 175.00, scaled by 10^16
    assert_eq!(nav_units(&l, &book, 150), 175 * 10_000_000_000_000_000);
}

#[test]
fn law_internal_transactions_keep_nav() {
    let book = one_security_book();
    let mut l = Ledger::new();
    let mut buy = bare(0, 7_500, Some(3 * 100_000_000));
    buy.account = Some("A".into());
    buy.portfolio = Some("P".into());
    buy.security = Some("S".into());
    l.apply(&buy);
    let before = nav_units(&l, &book, 150);
    let mut cash_tr = bare(5, 4_000, None);
    cash_tr.account = Some("A".into());
    cash_tr.other_account = Some("B".into());
    l.apply(&cash_tr);
    assert_eq!(nav_units(&l, &book, 150), before);
    let mut sec_tr = bare(4, 0, Some(100_000_000));
    sec_tr.portfolio = Some("P".into());
    sec_tr.other_portfolio = Some("Q".into());
    sec_tr.security = Some("S".into());
    l.apply(&sec_tr);
    assert_eq!(nav_units(&l, &book, 150), before);
    let mut unknown = bare(99, 1_000_000, Some(5));
    unknown.account = Some("A".into());
    unknown.portfolio = Some("P".into());
    unknown.security = Some("S".into());
    l.apply(&unknown);
    assert_eq!(nav_units(&l, &book, 150), before);
}
