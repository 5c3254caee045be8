//! The integer parts of the ten-year forecast: the averaging window, the net
//! capital added within it, and the monthly dates of the projection.

use vstd::prelude::*;
use crate::calendar::{add_months, lemma_month_steps_in_order, calendar_month, calendar_year, date_to_unix_secs, midnight_secs,
    months_after, months_before, sub_months, valid_day, year_month_of};
use crate::model::{PClient, PTransaction};

verus! {

/// How many months the average contribution is taken over, and the window's
/// bounds as timestamps.
pub struct ForecastWindow {
    /// Months of history, at least 1 and at most 60.
    pub months_used: u32,
    /// The last second of the last NAV date.
    pub last_secs: i64,
    /// Midnight starting the date `months_used` months before it, or
    /// `i64::MIN` where chrono has no such date.
    pub cutoff_secs: i64,
}

/// Months between two dates by calendar month, at least 1, at most 60.
pub open spec fn window_months(first: int, last: int) -> int {
    let total = (calendar_year(last) - calendar_year(first)) * 12 + calendar_month(last) - calendar_month(first);
    let at_least_one = if total >= 1 { total } else { 1 };
    if at_least_one <= 60 { at_least_one } else { 60 }
}

/// The window ending on the last NAV date `last` of a series starting on
/// `first`: it takes in all of that date, up to its last second.
pub fn forecast_window(first: i32, last: i32) -> (w: ForecastWindow)
    requires
        valid_day(first as int),
        valid_day(last as int),
    ensures
        w.months_used == window_months(first as int, last as int),
        w.last_secs == midnight_secs(last as int) + 86399,
        w.cutoff_secs == match months_before(last as int, w.months_used as int) {
            Some(d) => midnight_secs(d),
            None => i64::MIN as int,
        },
{
    let (fy, fm) = match year_month_of(first) {
        Some(p) => p,
        None => (0, 1),
    };
    let (ly, lm) = match year_month_of(last) {
        Some(p) => p,
        None => (0, 1),
    };
    let total: i64 = (ly as i64 - fy as i64) * 12 + lm as i64 - fm as i64;
    let at_least_one: i64 = if total >= 1 { total } else { 1 };
    let months_used: u32 = if at_least_one <= 60 { at_least_one as u32 } else { 60 };
    let last_secs = date_to_unix_secs(last) + 86399;
    let cutoff_secs = match sub_months(last, months_used) {
        Some(d) => date_to_unix_secs(d),
        None => i64::MIN,
    };
    ForecastWindow { months_used, last_secs, cutoff_secs }
}

/// Capital coming in: deposits, dividends, interest and inbound deliveries.
pub open spec fn is_inflow(t: PTransaction) -> bool {
    t.tx_type == 6 || t.tx_type == 8 || t.tx_type == 9 || t.tx_type == 2
}

/// Capital going out: removals and outbound deliveries.
pub open spec fn is_outflow(t: PTransaction) -> bool {
    t.tx_type == 7 || t.tx_type == 3
}

/// The transaction is dated within `[cutoff, last]`.
pub open spec fn in_window(t: PTransaction, last: int, cutoff: int) -> bool {
    t.date_seconds matches Some(s) && cutoff <= s <= last
}

/// Sum of the amounts (cents) of the inflows (`inflow`) or outflows of
/// `txs` dated in the window `[cutoff, last]`.
pub open spec fn window_sum(txs: Seq<PTransaction>, last: int, cutoff: int, inflow: bool) -> int
    decreases txs.len(),
{
    if txs.len() == 0 {
        0
    } else {
        let t = txs.last();
        let picked = in_window(t, last, cutoff) && if inflow { is_inflow(t) } else { is_outflow(t) };
        window_sum(txs.drop_last(), last, cutoff, inflow) + if picked { t.amount as int } else { 0 }
    }
}

/// Total inflow and total outflow, in cents, of the transactions dated in
/// the window `[cutoff_secs, last_secs]`.
pub fn net_contributions(client: &PClient, last_secs: i64, cutoff_secs: i64) -> (r: (i128, i128))
    ensures
        r.0 == window_sum(client.transactions@, last_secs as int, cutoff_secs as int, true),
        r.1 == window_sum(client.transactions@, last_secs as int, cutoff_secs as int, false),
{
    let txs = &client.transactions;
    let mut inflow: i128 = 0;
    let mut outflow: i128 = 0;
    let mut i: usize = 0;
    while i < txs.len()
        invariant
            i <= txs.len(),
            inflow == window_sum(txs@.take(i as int), last_secs as int, cutoff_secs as int, true),
            outflow == window_sum(txs@.take(i as int), last_secs as int, cutoff_secs as int, false),
            -(i as int) * 0x8000_0000_0000_0000 <= inflow <= (i as int) * 0x8000_0000_0000_0000,
            -(i as int) * 0x8000_0000_0000_0000 <= outflow <= (i as int) * 0x8000_0000_0000_0000,
        decreases txs.len() - i,
    {
        let t = &txs[i];
        assert(txs@.take(i + 1).drop_last() =~= txs@.take(i as int));
        assert(txs@.take(i + 1).last() == *t);
        match t.date_seconds {
            Some(s) => {
                if s <= last_secs && s >= cutoff_secs {
                    let k = t.tx_type;
                    if k == 6 || k == 8 || k == 9 || k == 2 {
                        inflow = inflow + t.amount as i128;
                    } else if k == 7 || k == 3 {
                        outflow = outflow + t.amount as i128;
                    }
                }
            },
            None => {},
        }
        i = i + 1;
    }
    assert(txs@.take(txs.len() as int) =~= txs@);
    (inflow, outflow)
}

/// The dates of the projection: month after month from `last`, at most 120,
/// stopping where chrono has no next date.
pub open spec fn monthly_dates(last: int, n: nat) -> Seq<int>
    decreases n,
{
    if n == 0 {
        Seq::empty()
    } else {
        match months_after(last, 1) {
            Some(d) => seq![d] + monthly_dates(d, (n - 1) as nat),
            None => Seq::empty(),
        }
    }
}

/// The 120 monthly dates (fewer at the end of chrono's range) of the
/// projection after the last NAV date; they strictly increase and all come
/// after it.
pub fn forecast_dates(last: i32) -> (r: Vec<i32>)
    requires
        valid_day(last as int),
    ensures
        r@.map_values(|d: i32| d as int) == monthly_dates(last as int, 120),
        forall|i: int, j: int| 0 <= i < j < r@.len() ==> #[trigger] r@[i] < #[trigger] r@[j],
        forall|i: int| 0 <= i < r@.len() ==> #[trigger] r@[i] > last,
{
    let mut r: Vec<i32> = Vec::new();
    let mut date: i32 = last;
    let mut k: u32 = 0;
    while k < 120
        invariant
            k <= 120,
            valid_day(date as int),
            r@.map_values(|d: i32| d as int) + monthly_dates(date as int, (120 - k) as nat) == monthly_dates(last as int, 120),
            last <= date,
            forall|i: int, j: int| 0 <= i < j < r@.len() ==> #[trigger] r@[i] < #[trigger] r@[j],
            forall|i: int| 0 <= i < r@.len() ==> last < #[trigger] r@[i] <= date,
        decreases 120 - k,
    {
        let ghost rv = r@.map_values(|d: i32| d as int);
        proof {
            lemma_month_steps_in_order(date as int, 1);
        }
        match add_months(date, 1) {
            Some(d) => {
                r.push(d);
                assert(r@.map_values(|x: i32| x as int) =~= rv.push(d as int));
                assert(rv + (seq![d as int] + monthly_dates(d as int, (120 - k - 1) as nat))
                    =~= rv.push(d as int) + monthly_dates(d as int, (120 - k - 1) as nat));
                date = d;
            },
            None => {
                assert(rv + Seq::<int>::empty() =~= rv);
                return r;
            },
        }
        k = k + 1;
    }
    assert(r@.map_values(|d: i32| d as int) + Seq::<int>::empty() =~= r@.map_values(|d: i32| d as int));
    r
}

/// The window spans at least one and at most sixty months; a history
/// shorter than five years is used whole.
pub proof fn law_window_months(first: int, last: int)
    ensures
        1 <= window_months(first, last) <= 60,
        ({
            let total = (calendar_year(last) - calendar_year(first)) * 12 + calendar_month(last) - calendar_month(first);
            1 <= total <= 60 ==> window_months(first, last) == total
        }),
{
}

/// The projection has at most 120 dates, each one month after the one before.
pub proof fn law_monthly_dates(last: int, n: nat)
    ensures
        monthly_dates(last, n).len() <= n,
        monthly_dates(last, n).len() > 0 ==> months_after(last, 1) == Some(monthly_dates(last, n)[0]),
        forall|k: int| 0 < k < monthly_dates(last, n).len() ==>
            months_after(#[trigger] monthly_dates(last, n)[k - 1], 1) == Some(monthly_dates(last, n)[k]),
    decreases n,
{
    if n > 0 {
        match months_after(last, 1) {
            Some(d) => {
                law_monthly_dates(d, (n - 1) as nat);
                let r = monthly_dates(last, n);
                let rest = monthly_dates(d, (n - 1) as nat);
                assert(r == seq![d] + rest);
                assert forall|k: int| 0 < k < r.len() implies
                    months_after(#[trigger] r[k - 1], 1) == Some(r[k]) by {
                    assert(r[k] == rest[k - 1]);
                    if k > 1 {
                        assert(r[k - 1] == rest[k - 2]);
                    } else {
                        assert(r[0] == d);
                    }
                }
            },
            None => {},
        }
    }
}

/// One more transaction changes the window totals by its amount exactly when
/// it is dated within `[cutoff, last]`: a deposit, dividend, interest payment
/// or inbound delivery adds to the inflow, a removal or outbound delivery to
/// the outflow, and any other transaction to neither.
pub proof fn law_window_sum_step(txs: Seq<PTransaction>, t: PTransaction, last: int, cutoff: int)
    ensures
        window_sum(txs.push(t), last, cutoff, true) == window_sum(txs, last, cutoff, true)
            + if t.date_seconds matches Some(s) && cutoff <= s <= last
                && (t.tx_type == 2 || t.tx_type == 6 || t.tx_type == 8 || t.tx_type == 9) { t.amount as int } else { 0 },
        window_sum(txs.push(t), last, cutoff, false) == window_sum(txs, last, cutoff, false)
            + if t.date_seconds matches Some(s) && cutoff <= s <= last
                && (t.tx_type == 3 || t.tx_type == 7) { t.amount as int } else { 0 },
{
    assert(txs.push(t).drop_last() =~= txs);
}

} // verus!
