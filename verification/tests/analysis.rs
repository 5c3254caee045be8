use chrono::Datelike;

use portfolio_forecast::analysis::balance::{compute_nav_series, nav_days_fit, NavPoint};
use portfolio_forecast::analysis::forecast::{forecast_dates, forecast_window, net_contributions};
use portfolio_forecast::analysis::ticks::{time_ticks, time_ticks_checked, ticks_defined_exec};
use portfolio_forecast::analysis::twr::{horizon_fits_exec, twr_trace};
use portfolio_forecast::calendar::fmt_date;
use portfolio_forecast::model::{PClient, PHistoricalPrice, PSecurity, PTransaction};

const E8: i64 = 100_000_000;
const EPOCH: i32 = 719_163;

fn tx(kind: i32, day_secs: Option<i64>, amount: i64, shares: Option<i64>) -> PTransaction {
    PTransaction {
        tx_type: kind,
        date_seconds: day_secs,
        amount,
        shares,
        account: Some("A".to_string()),
        portfolio: Some("P".to_string()),
        other_account: None,
        other_portfolio: None,
        security: Some("S1".to_string()),
    }
}

fn price(date: i64, close: i64) -> PHistoricalPrice {
    PHistoricalPrice { date, close }
}

fn sample_client() -> PClient {
    let sec = PSecurity {
        uuid: "S1".to_string(),
        prices: vec![price(19010, 110 * E8), price(19000, 100 * E8), price(19010, 999 * E8)],
        latest: Some(price(19020, 120 * E8)),
    };
    PClient {
        securities: vec![sec],
        transactions: vec![
            tx(6, Some(19000 * 86400 + 3600), 100_000, None),
            tx(1, Some(19015 * 86400), 20_000, Some(2 * E8)),
            tx(0, Some(19005 * 86400), 50_000, Some(5 * E8)),
            tx(6, None, 7_777, None),
        ],
    }
}

fn holdings(p: &NavPoint) -> Vec<(i128, i64)> {
    p.value.holdings.clone()
}

#[test]
fn nav_series_replays_in_date_order() {
    let c = sample_client();
    assert!(nav_days_fit(&c));
    let pts = compute_nav_series(&c);
    let dates: Vec<i32> = pts.iter().map(|p| p.date).collect();
    assert_eq!(dates, vec![EPOCH + 19000, EPOCH + 19005, EPOCH + 19010, EPOCH + 19015, EPOCH + 19020]);
    let cash: Vec<i128> = pts.iter().map(|p| p.value.cash_cents).collect();
    assert_eq!(cash, vec![100_000, 50_000, 50_000, 70_000, 70_000]);
    assert_eq!(holdings(&pts[0]), vec![]);
    assert_eq!(holdings(&pts[1]), vec![(5 * E8 as i128, 100 * E8)]);
    assert_eq!(holdings(&pts[2]), vec![(5 * E8 as i128, 110 * E8)]);
    assert_eq!(holdings(&pts[3]), vec![(3 * E8 as i128, 110 * E8)]);
    assert_eq!(holdings(&pts[4]), vec![(3 * E8 as i128, 120 * E8)]);
}

#[test]
fn nav_series_of_empty_client_is_empty() {
    let c = PClient { securities: vec![], transactions: vec![] };
    assert!(compute_nav_series(&c).is_empty());
}

#[test]
fn nav_series_dates_never_decrease() {
    let mut c = sample_client();
    c.transactions.push(tx(9, Some(-86_400 * 3 + 5), 10, None));
    c.transactions.push(tx(13, Some(19_010 * 86_400 + 1), 10, None));
    let pts = compute_nav_series(&c);
    for w in pts.windows(2) {
        assert!(w[0].date <= w[1].date);
    }
    // the price day 19010 now coincides with a transaction: no extra point
    assert_eq!(pts.iter().filter(|p| p.date == EPOCH + 19010).count(), 1);
}

#[test]
fn nav_value_is_cash_plus_shares_times_price() {
    let pts = compute_nav_series(&sample_client());
    let nav: Vec<f64> = pts
        .iter()
        .map(|p| {
            p.value.cash_cents as f64 / 100.0
                + p.value.holdings.iter().map(|(s, c)| *s as f64 / 1e8 * *c as f64 / 1e8).sum::<f64>()
        })
        .collect();
    assert_eq!(nav, vec![1000.0, 1000.0, 1050.0, 1030.0, 1060.0]);
}

#[test]
fn twr_trace_breaks_at_external_flows() {
    let c = sample_client();
    assert!(horizon_fits_exec(&c));
    let t = twr_trace(&c).unwrap();
    assert_eq!(t.first_secs, 0);
    assert_eq!(t.end_secs, 19020 * 86400);
    assert_eq!(t.flows.len(), 1);
    assert_eq!(t.flows[0].0.cash_cents, 0);
    assert_eq!(t.flows[0].1.cash_cents, 100_000);
    assert_eq!(t.closing.cash_cents, 70_000);
    assert_eq!(t.closing.holdings, vec![(3 * E8 as i128, 120 * E8)]);
}

#[test]
fn twr_trace_needs_two_transactions() {
    let mut c = sample_client();
    c.transactions.truncate(1);
    assert!(twr_trace(&c).is_none());
}

fn days_of(y: i32, m: u32, d: u32) -> i32 {
    chrono::NaiveDate::from_ymd_opt(y, m, d).unwrap().num_days_from_ce()
}

#[test]
fn forecast_window_short_history() {
    let w = forecast_window(days_of(2022, 1, 8), days_of(2022, 1, 28));
    assert_eq!(w.months_used, 1);
    assert_eq!(w.last_secs, (days_of(2022, 1, 28) - EPOCH) as i64 * 86400 + 86399);
    assert_eq!(w.cutoff_secs, (days_of(2021, 12, 28) - EPOCH) as i64 * 86400);
}

#[test]
fn forecast_window_caps_at_sixty_months() {
    let w = forecast_window(days_of(2010, 3, 1), days_of(2022, 5, 31));
    assert_eq!(w.months_used, 60);
    assert_eq!(w.cutoff_secs, (days_of(2017, 5, 31) - EPOCH) as i64 * 86400);
    let w = forecast_window(days_of(2020, 3, 31), days_of(2022, 5, 31));
    assert_eq!(w.months_used, 26);
}

#[test]
fn net_contributions_in_window() {
    let mut c = sample_client();
    c.transactions.push(tx(7, Some(19011 * 86400), 3_000, None));
    c.transactions.push(tx(2, Some(19012 * 86400), 400, None));
    c.transactions.push(tx(3, Some(19013 * 86400), 50, None));
    c.transactions.push(tx(6, Some(17000 * 86400), 99_999, None));
    let (inflow, outflow) = net_contributions(&c, 19020 * 86400, 18990 * 86400);
    assert_eq!(inflow, 100_400);
    assert_eq!(outflow, 3_050);
}

#[test]
fn contribution_later_on_last_nav_day_counts() {
    let last = days_of(2022, 1, 28);
    let noon = (last - EPOCH) as i64 * 86400 + 43_200;
    let mut c = sample_client();
    c.transactions.clear();
    c.transactions.push(tx(6, Some(noon), 100, None));
    c.transactions.push(tx(6, Some(noon + 43_200), 7, None));
    let w = forecast_window(last, last);
    let (inflow, outflow) = net_contributions(&c, w.last_secs, w.cutoff_secs);
    assert_eq!(inflow, 100);
    assert_eq!(outflow, 0);
}

#[test]
fn forecast_dates_step_monthly() {
    let ds = forecast_dates(days_of(2024, 1, 31));
    assert_eq!(ds.len(), 120);
    assert_eq!(ds[0], days_of(2024, 2, 29));
    assert_eq!(ds[1], days_of(2024, 3, 29));
    assert_eq!(ds[11], days_of(2025, 1, 29));
    assert_eq!(ds[12], days_of(2025, 2, 28));
    assert_eq!(ds[119], days_of(2034, 1, 28));
}

#[test]
fn time_ticks_quarterly_over_two_years() {
    let start = days_of(2000, 1, 1);
    let end = days_of(2001, 12, 31);
    assert!(ticks_defined_exec(start, end, 6));
    let t = time_ticks(start, end, 6);
    let expected: Vec<i32> = [(2000, 1), (2000, 4), (2000, 7), (2000, 10), (2001, 1), (2001, 4), (2001, 7), (2001, 10)]
        .iter()
        .map(|(y, m)| days_of(*y, *m, 1))
        .collect();
    assert_eq!(t, expected);
}

#[test]
fn time_ticks_start_mid_month_and_long_span() {
    let start = days_of(1990, 5, 17);
    let end = days_of(2020, 2, 1);
    let t = time_ticks_checked(start, end, 6).unwrap();
    // 357 months / 6 = 59 -> every 60 months, aligned to January of the start year
    let expected: Vec<i32> = [1995, 2000, 2005, 2010, 2015, 2020].iter().map(|y| days_of(*y, 1, 1)).collect();
    assert_eq!(t, expected);
    for w in t.windows(2) {
        assert!(w[0] < w[1]);
    }
    assert!(t[0] >= start && *t.last().unwrap() <= end);
}

#[test]
fn time_ticks_target_is_taken_as_i32() {
    let start = days_of(2000, 1, 1);
    let end = days_of(2001, 12, 31);
    // usize::MAX as i32 is -1: 23 / -1 rounds to -23, so the step is one month
    let monthly = time_ticks(start, end, usize::MAX);
    assert_eq!(monthly.len(), 24);
    assert_eq!(monthly[1], days_of(2000, 2, 1));
    // the high bits of a large target are dropped, as `as i32` does
    assert_eq!(time_ticks(start, end, (1usize << 32) + 6), time_ticks(start, end, 6));
}

#[test]
fn time_ticks_out_of_range_days_fall_back_to_2000() {
    let t = time_ticks(i32::MIN, i32::MIN, 6);
    assert_eq!(t, vec![days_of(2000, 1, 1)]);
}

#[test]
fn nav_points_are_dated_by_utc_day() {
    let c = PClient {
        securities: vec![],
        transactions: vec![
            tx(6, Some(-1), 100, None),
            tx(6, Some(0), 100, None),
            tx(6, Some(86_399), 100, None),
            tx(6, Some(i64::MAX), 100, None),
        ],
    };
    let pts = compute_nav_series(&c);
    let dates: Vec<i32> = pts.iter().map(|p| p.date).collect();
    // the last timestamp is beyond chrono's dates and gets no point
    assert_eq!(dates, vec![EPOCH - 1, EPOCH, EPOCH]);
    assert_eq!(pts[2].value.cash_cents, 300);
}

#[test]
fn fmt_date_of_forecast_dates() {
    let ds = forecast_dates(days_of(2023, 11, 15));
    assert_eq!(fmt_date(ds[0]), "2023-12");
    assert_eq!(fmt_date(ds[1]), "2024-01");
}

#[test]
fn fmt_date_writes_years_as_chrono_does() {
    assert_eq!(fmt_date(days_of(5, 3, 1)), "0005-03");
    assert_eq!(fmt_date(days_of(0, 12, 31)), "0000-12");
    assert_eq!(fmt_date(days_of(-1, 1, 1)), "-0001-01");
    assert_eq!(fmt_date(days_of(12345, 6, 1)), "+12345-06");
    assert_eq!(fmt_date(days_of(2024, 10, 9)), "2024-10");
    assert_eq!(fmt_date(i32::MAX), "");
}

fn nav_of(p: &NavPoint) -> i128 {
    p.value.cash_cents * 100_000_000_000_000
        + p.value.holdings.iter().map(|h| h.0 * h.1 as i128).sum::<i128>()
}

#[test]
fn internal_transfers_keep_the_nav_of_the_series() {
    let mut c = sample_client();
    c.transactions.truncate(3);
    // on the day after the sale: a cash transfer, a security transfer, an unknown type
    let mut cash_tr = tx(5, Some(19016 * 86400), 5_000, None);
    cash_tr.other_account = Some("B".to_string());
    let mut sec_tr = tx(4, Some(19016 * 86400 + 60), 0, Some(E8));
    sec_tr.other_portfolio = Some("Q".to_string());
    let unknown = tx(42, Some(19016 * 86400 + 120), 9_999, Some(E8));
    c.transactions.push(cash_tr);
    c.transactions.push(sec_tr);
    c.transactions.push(unknown);
    let pts = compute_nav_series(&c);
    let dates: Vec<i32> = pts.iter().map(|p| p.date).collect();
    assert_eq!(dates, vec![EPOCH + 19000, EPOCH + 19005, EPOCH + 19010, EPOCH + 19015,
        EPOCH + 19016, EPOCH + 19016, EPOCH + 19016, EPOCH + 19020]);
    let before = nav_of(&pts[3]);
    assert_eq!(nav_of(&pts[4]), before);
    assert_eq!(nav_of(&pts[5]), before);
    assert_eq!(nav_of(&pts[6]), before);
}

#[test]
fn shared_uuid_keeps_the_last_security_with_quotes() {
    let first = PSecurity { uuid: "S1".to_string(), prices: vec![price(19002, 5 * E8)], latest: None };
    let second = PSecurity { uuid: "S1".to_string(), prices: vec![price(19003, 6 * E8)], latest: None };
    let no_quotes = PSecurity { uuid: "S1".to_string(), prices: vec![], latest: None };
    let c = PClient {
        securities: vec![first, second, no_quotes],
        transactions: vec![tx(6, Some(19000 * 86400), 100, None)],
    };
    let pts = compute_nav_series(&c);
    let dates: Vec<i32> = pts.iter().map(|p| p.date).collect();
    assert_eq!(dates, vec![EPOCH + 19000, EPOCH + 19003]);
}
