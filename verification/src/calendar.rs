//! Calendar dates, counted as days since 0001-01-01 (day 1), as chrono counts
//! them.

use chrono::Datelike;
use vstd::prelude::*;
use crate::text::{digit_char, padded};

verus! {

/// Days from 0001-01-01 (day 1) of 1970-01-01.
pub open spec fn unix_epoch_day() -> int {
    719_163
}

/// Day number of the earliest date chrono represents, 1 January 262143 BCE.
pub open spec fn min_date_day() -> int {
    -95_746_129
}

/// Day number of the latest date chrono represents, 31 December 262142.
pub open spec fn max_date_day() -> int {
    95_745_399
}

/// The UTC date of a UNIX timestamp, as days since 0001-01-01, where chrono
/// represents it.
pub open spec fn date_of_timestamp_spec(secs: int) -> Option<int> {
    let d = secs / 86400 + unix_epoch_day();
    if min_date_day() <= d <= max_date_day() {
        Some(d)
    } else {
        None
    }
}

/// `chrono::DateTime::from_timestamp(secs, 0)`, then the day number of its
/// UTC date. The contract states what chrono's source computes: the date is
/// the floor of `secs / 86400` days after 1970-01-01, and there is none
/// outside chrono's range of dates.
#[verifier::external_body]
pub(crate) fn date_of_timestamp(secs: i64) -> (r: Option<i32>)
    ensures
        match (r, date_of_timestamp_spec(secs as int)) {
            (Some(a), Some(b)) => a as int == b,
            (None, None) => true,
            _ => false,
        },
{
    match chrono::DateTime::from_timestamp(secs, 0) {
        Some(dt) => Some(dt.date_naive().num_days_from_ce()),
        None => None,
    }
}

/// The earliest year chrono represents.
pub open spec fn min_year() -> int {
    -262_143
}

/// The latest year chrono represents.
pub open spec fn max_year() -> int {
    262_142
}

/// A day number chrono represents as a date.
pub open spec fn valid_day(days: int) -> bool {
    min_date_day() <= days <= max_date_day()
}

/// A leap year of the proleptic Gregorian calendar.
pub open spec fn is_leap(y: int) -> bool {
    y % 4 == 0 && (y % 100 != 0 || y % 400 == 0)
}

/// The number of days of month `m` (1 to 12) of year `y`.
pub open spec fn days_in_month(y: int, m: int) -> int {
    if m == 2 {
        if is_leap(y) { 29 } else { 28 }
    } else if m == 4 || m == 6 || m == 9 || m == 11 {
        30
    } else {
        31
    }
}

/// The days of the years from 1 up to (not including) `y`; negative for
/// years before 1.
pub open spec fn days_before_year(y: int) -> int {
    let p = y - 1;
    365 * p + p / 4 - p / 100 + p / 400
}

/// The days of year `y` before the first of month `m` (1 to 12).
pub open spec fn days_before_month(y: int, m: int) -> int {
    let base: int = if m <= 1 { 0 } else if m == 2 { 31 } else if m == 3 { 59 } else if m == 4 { 90 }
        else if m == 5 { 120 } else if m == 6 { 151 } else if m == 7 { 181 } else if m == 8 { 212 }
        else if m == 9 { 243 } else if m == 10 { 273 } else if m == 11 { 304 } else { 334 };
    base + if m > 2 && is_leap(y) { 1int } else { 0int }
}

/// The day number of `y-m-d` in the proleptic Gregorian calendar, counting
/// 0001-01-01 as day 1.
pub open spec fn civil_day(y: int, m: int, d: int) -> int {
    days_before_year(y) + days_before_month(y, m) + d
}

/// A year chrono represents.
pub open spec fn year_in_range(y: int) -> bool {
    min_year() <= y <= max_year()
}

/// The first day of the month with index `i` (`12 × year + month − 1`).
#[verifier::opaque]
pub open spec fn month_start(i: int) -> int {
    civil_day(i / 12, i % 12 + 1, 1)
}

/// The index (`12 × year + month − 1`) of the month that holds day `d`.
pub open spec fn month_index_of(d: int) -> int {
    choose|i: int| #[trigger] month_start(i) <= d < month_start(i + 1)
}

/// The calendar year of a day.
pub open spec fn calendar_year(days: int) -> int {
    month_index_of(days) / 12
}

/// The calendar month (1 to 12) of a day.
pub open spec fn calendar_month(days: int) -> int {
    month_index_of(days) % 12 + 1
}

/// The day of the month (from 1) of a day.
pub open spec fn day_of_month(days: int) -> int {
    days - month_start(month_index_of(days)) + 1
}

/// The first of month `m` of year `y`, where the month is 1 to 12 and
/// chrono represents the year.
pub open spec fn first_of_month(y: int, m: int) -> Option<int> {
    if 1 <= m <= 12 && year_in_range(y) {
        Some(civil_day(y, m, 1))
    } else {
        None
    }
}

/// The day in the month with index `i`, with the day of the month of `days`
/// cut to the month's length; none where chrono does not represent the year.
pub open spec fn same_day_in_month(days: int, i: int) -> Option<int> {
    let y = i / 12;
    let m = i % 12 + 1;
    let dom = day_of_month(days);
    let dim = days_in_month(y, m);
    if year_in_range(y) {
        Some(civil_day(y, m, if dom <= dim { dom } else { dim }))
    } else {
        None
    }
}

/// The day `n` months after `days` (the same day of the month, or the
/// month's last day where the month is shorter).
pub open spec fn months_after(days: int, n: int) -> Option<int> {
    same_day_in_month(days, month_index_of(days) + n)
}

/// The day `n` months before `days` (the same day of the month, or the
/// month's last day where the month is shorter).
pub open spec fn months_before(days: int, n: int) -> Option<int> {
    same_day_in_month(days, month_index_of(days) - n)
}

proof fn lemma_div_step(p: int, k: int)
    requires
        k > 0,
    ensures
        (p + 1) / k == p / k + if (p + 1) % k == 0 { 1int } else { 0int },
{
    let q = p / k;
    let r = p % k;
    vstd::arithmetic::div_mod::lemma_fundamental_div_mod(p, k);
    assert(k * q == q * k) by (nonlinear_arith);
    if r + 1 < k {
        vstd::arithmetic::div_mod::lemma_fundamental_div_mod_converse(p + 1, k, q, r + 1);
    } else {
        assert((q + 1) * k == q * k + k) by (nonlinear_arith);
        vstd::arithmetic::div_mod::lemma_fundamental_div_mod_converse(p + 1, k, q + 1, 0);
    }
}

proof fn lemma_days_before_year_step(y: int)
    ensures
        days_before_year(y + 1) == days_before_year(y) + 365 + if is_leap(y) { 1int } else { 0int },
{
    let p = y - 1;
    lemma_div_step(p, 4);
    lemma_div_step(p, 100);
    lemma_div_step(p, 400);
    assert(y % 400 == 0 ==> y % 100 == 0);
    assert(y % 100 == 0 ==> y % 4 == 0);
}

/// Each month starts the length of the month before it after its start.
pub proof fn lemma_month_start_step(i: int)
    ensures
        month_start(i + 1) == month_start(i) + days_in_month(i / 12, i % 12 + 1),
        month_start(i + 1) > month_start(i),
{
    reveal(month_start);
    let y = i / 12;
    let m = i % 12 + 1;
    if m < 12 {
        assert((i + 1) / 12 == y && (i + 1) % 12 + 1 == m + 1);
    } else {
        assert((i + 1) / 12 == y + 1 && (i + 1) % 12 + 1 == 1);
        lemma_days_before_year_step(y);
    }
}

/// Months start in order.
pub proof fn lemma_month_start_increasing(i: int, j: int)
    requires
        i < j,
    ensures
        month_start(i) < month_start(j),
    decreases j - i,
{
    lemma_month_start_step(i);
    if i + 1 < j {
        lemma_month_start_increasing(i + 1, j);
    }
}

/// A month that holds day `d` is the month of `d`.
pub proof fn lemma_month_of(i: int, d: int)
    requires
        month_start(i) <= d < month_start(i + 1),
    ensures
        month_index_of(d) == i,
        calendar_year(d) == i / 12,
        calendar_month(d) == i % 12 + 1,
        day_of_month(d) == d - month_start(i) + 1,
{
    let j = month_index_of(d);
    assert(month_start(j) <= d < month_start(j + 1));
    if j < i {
        if j + 1 < i {
            lemma_month_start_increasing(j + 1, i);
        }
    } else if i < j {
        if i + 1 < j {
            lemma_month_start_increasing(i + 1, j);
        }
    }
}

/// The first of a month lies in that month.
pub proof fn lemma_first_of_month(y: int, m: int)
    requires
        1 <= m <= 12,
    ensures
        month_start(12 * y + m - 1) == civil_day(y, m, 1),
        month_index_of(civil_day(y, m, 1)) == 12 * y + m - 1,
        calendar_year(civil_day(y, m, 1)) == y,
        calendar_month(civil_day(y, m, 1)) == m,
{
    reveal(month_start);
    let i = 12 * y + m - 1;
    assert(i / 12 == y && i % 12 + 1 == m);
    lemma_month_start_step(i);
    lemma_month_of(i, civil_day(y, m, 1));
}

/// The calendar's fixed points: 1970-01-01 is the UNIX epoch's day, and
/// chrono's first and last days are the first day of its first year and
/// the last day of its last year.
pub proof fn law_calendar_anchors()
    ensures
        civil_day(1970, 1, 1) == unix_epoch_day(),
        civil_day(min_year(), 1, 1) == min_date_day(),
        civil_day(max_year(), 12, 31) == max_date_day(),
{
}

proof fn lemma_find_month_up(i: int, d: int) -> (j: int)
    requires
        month_start(i) <= d,
    ensures
        month_start(j) <= d < month_start(j + 1),
    decreases d - month_start(i),
{
    lemma_month_start_step(i);
    if d < month_start(i + 1) {
        i
    } else {
        lemma_find_month_up(i + 1, d)
    }
}

proof fn lemma_find_month_down(i: int, d: int) -> (j: int)
    requires
        d < month_start(i + 1),
    ensures
        month_start(j) <= d < month_start(j + 1),
    decreases month_start(i + 1) - d,
{
    lemma_month_start_step(i);
    if month_start(i) <= d {
        i
    } else {
        lemma_find_month_down(i - 1, d)
    }
}

/// Every day lies in a month: `month_index_of` finds it.
pub proof fn lemma_month_exists(d: int)
    ensures
        month_start(month_index_of(d)) <= d < month_start(month_index_of(d) + 1),
        1 <= day_of_month(d) <= days_in_month(calendar_year(d), calendar_month(d)),
{
    let j = if month_start(0) <= d { lemma_find_month_up(0, d) } else { lemma_find_month_down(-1, d) };
    lemma_month_of(j, d);
    lemma_month_start_step(j);
}

/// A date some months later (earlier) is a later (earlier) day.
pub proof fn lemma_month_steps_in_order(d: int, n: int)
    requires
        n >= 1,
    ensures
        months_after(d, n) matches Some(x) ==> x > d,
        months_before(d, n) matches Some(x) ==> x < d,
{
    reveal(month_start);
    lemma_month_exists(d);
    let i = month_index_of(d);
    let dom = day_of_month(d);
    lemma_month_start_step(i + n);
    lemma_month_start_step(i - n);
    if n > 1 {
        lemma_month_start_increasing(i + 1, i + n);
        lemma_month_start_increasing(i - n + 1, i);
    }
    assert(month_start(i + n) == civil_day((i + n) / 12, (i + n) % 12 + 1, 1));
    assert(month_start(i - n) == civil_day((i - n) / 12, (i - n) % 12 + 1, 1));
}

/// `chrono::NaiveDate::from_num_days_from_ce_opt`, then `year()` and
/// `month()` of the date. The contract claims what chrono's source shows:
/// there is a date exactly for the day numbers in chrono's range, its year
/// lies in chrono's range of years, its month in 1 to 12, and the day lies
/// in that month of the proleptic Gregorian calendar.
#[verifier::external_body]
fn chrono_year_month(days: i32) -> (r: Option<(i32, u32)>)
    ensures
        r is Some <==> valid_day(days as int),
        r matches Some((y, m)) ==> min_year() <= y <= max_year() && 1 <= m <= 12
            && month_start(12 * y + m - 1) <= days < month_start(12 * y + m),
{
    match chrono::NaiveDate::from_num_days_from_ce_opt(days) {
        Some(d) => Some((d.year(), d.month())),
        None => None,
    }
}

/// The year and month of a day chrono represents.
pub(crate) fn year_month_of(days: i32) -> (r: Option<(i32, u32)>)
    ensures
        r is Some <==> valid_day(days as int),
        r matches Some((y, m)) ==> y == calendar_year(days as int) && m == calendar_month(days as int)
            && min_year() <= y <= max_year() && 1 <= m <= 12,
{
    let r = chrono_year_month(days);
    proof {
        if let Some((y, m)) = r {
            let i = 12 * y + m - 1;
            assert(i / 12 == y && i % 12 + 1 == m);
            lemma_month_of(i, days as int);
        }
    }
    r
}

/// `chrono::NaiveDate::from_ymd_opt(y, m, 1)`, then `num_days_from_ce()` of
/// the date. The contract claims what chrono's source shows: there is a
/// date exactly for a month from 1 to 12 of a year in chrono's range, it is
/// that month's first day in the proleptic Gregorian calendar, and chrono
/// represents it.
#[verifier::external_body]
fn chrono_first_of_month(y: i32, m: u32) -> (r: Option<i32>)
    ensures
        match r {
            Some(d) => first_of_month(y as int, m as int) == Some(d as int) && valid_day(d as int),
            None => first_of_month(y as int, m as int) is None,
        },
{
    match chrono::NaiveDate::from_ymd_opt(y, m, 1) {
        Some(d) => Some(d.num_days_from_ce()),
        None => None,
    }
}

/// The first day of month `m` of year `y`, where there is one: it lies in
/// that month, and no month up to it starts after it.
pub(crate) fn first_of_month_exec(y: i32, m: u32) -> (r: Option<i32>)
    ensures
        r matches Some(d) ==> first_of_month(y as int, m as int) == Some(d as int) && valid_day(d as int),
        r is None ==> first_of_month(y as int, m as int) is None,
        1 <= m <= 12 ==> (r is Some <==> min_year() <= y <= max_year()),
        r matches Some(d) ==> calendar_year(d as int) == y && calendar_month(d as int) == m
            && month_start(12 * y + m - 1) == d,
        r matches Some(d) ==> forall|j: int| j <= 12 * y + m - 1 ==> #[trigger] month_start(j) <= d,
{
    let r = chrono_first_of_month(y, m);
    proof {
        if let Some(d) = r {
            lemma_first_of_month(y as int, m as int);
            assert forall|j: int| j <= 12 * y + m - 1 implies #[trigger] month_start(j) <= d by {
                if j < 12 * y + m - 1 {
                    lemma_month_start_increasing(j, 12 * y + m - 1);
                }
            }
        }
    }
    r
}

/// `NaiveDate::checked_add_months(Months::new(n))` on the date of `days`.
/// The contract claims what chrono's source shows: the result is the same
/// day of the month `n` months on, cut to that month's length, where chrono
/// represents its year, and a date chrono represents.
#[verifier::external_body]
pub(crate) fn add_months(days: i32, n: u32) -> (r: Option<i32>)
    requires
        valid_day(days as int),
    ensures
        r matches Some(d) ==> months_after(days as int, n as int) == Some(d as int) && valid_day(d as int),
        r is None ==> months_after(days as int, n as int) is None,
{
    match chrono::NaiveDate::from_num_days_from_ce_opt(days) {
        Some(d) => match d.checked_add_months(chrono::Months::new(n)) {
            Some(e) => Some(e.num_days_from_ce()),
            None => None,
        },
        None => None,
    }
}

/// `NaiveDate::checked_sub_months(Months::new(n))` on the date of `days`.
/// The contract claims what chrono's source shows: the result is the same
/// day of the month `n` months back, cut to that month's length, where
/// chrono represents its year, and a date chrono represents.
#[verifier::external_body]
pub(crate) fn sub_months(days: i32, n: u32) -> (r: Option<i32>)
    requires
        valid_day(days as int),
    ensures
        r matches Some(d) ==> months_before(days as int, n as int) == Some(d as int) && valid_day(d as int),
        r is None ==> months_before(days as int, n as int) is None,
{
    match chrono::NaiveDate::from_num_days_from_ce_opt(days) {
        Some(d) => match d.checked_sub_months(chrono::Months::new(n)) {
            Some(e) => Some(e.num_days_from_ce()),
            None => None,
        },
        None => None,
    }
}

/// The UNIX timestamp of midnight UTC starting a day.
pub open spec fn midnight_secs(days: int) -> int {
    (days - unix_epoch_day()) * 86400
}

/// `NaiveDateTime::new(date, NaiveTime::MIN).and_utc().timestamp()` for the
/// date of `days`: what chrono's source computes is the day's distance from
/// 1970-01-01 in seconds.
#[verifier::external_body]
pub(crate) fn date_to_unix_secs(days: i32) -> (r: i64)
    requires
        valid_day(days as int),
    ensures
        r == midnight_secs(days as int),
{
    let d = chrono::NaiveDate::from_num_days_from_ce_opt(days).unwrap();
    chrono::NaiveDateTime::new(d, chrono::NaiveTime::MIN).and_utc().timestamp()
}

/// A year as chrono's `%Y` writes it: four digits with leading zeros for
/// years 0 to 9999, else a sign and at least four digits.
pub open spec fn year_text(y: int) -> Seq<char> {
    if 0 <= y <= 9999 {
        padded(y as nat, 4)
    } else if y < 0 {
        seq!['-'] + padded((-y) as nat, 4)
    } else {
        seq!['+'] + padded(y as nat, 4)
    }
}

/// The text `YYYY-MM` of a day: its year as `%Y` writes it, a dash, and its
/// month in two digits.
pub open spec fn year_month_text(days: int) -> Seq<char> {
    let m = calendar_month(days);
    year_text(calendar_year(days)) + seq!['-', digit_char(m / 10), digit_char(m % 10)]
}

/// `NaiveDate::format("%Y-%m").to_string()` on the date of `days`. The
/// contract claims what chrono's formatting code writes for `%Y` and `%m`.
#[verifier::external_body]
fn format_year_month(days: i32) -> (r: String)
    requires
        valid_day(days as int),
    ensures
        r@ == year_month_text(days as int),
{
    chrono::NaiveDate::from_num_days_from_ce_opt(days).unwrap().format("%Y-%m").to_string()
}

/// The year and month of a day as `YYYY-MM`, or the empty string where
/// chrono cannot represent the day.
pub fn fmt_date(days: i32) -> (r: String)
    ensures
        valid_day(days as int) ==> r@ == year_month_text(days as int),
        !valid_day(days as int) ==> r@ == Seq::<char>::empty(),
{
    match year_month_of(days) {
        Some(_) => format_year_month(days),
        None => String::new(),
    }
}

} // verus!
