//! Calendar ticks for the time axis of the chart: the first days of every
//! 1st, 3rd, 6th, 12th, 24th, 60th or 120th month between two dates.

use vstd::prelude::*;
use crate::calendar::{calendar_month, calendar_year, first_of_month, first_of_month_exec, lemma_month_start_increasing, month_start,
    max_year, valid_day, year_month_of};

verus! {

/// 2000-01-01, the date that stands in for a day chrono cannot represent.
pub open spec fn default_day() -> int {
    730_120
}

/// The day itself where chrono represents it, else 2000-01-01.
pub open spec fn day_or_default(d: int) -> int {
    if valid_day(d) { d } else { default_day() }
}

/// Months since January of year 0: `12 × year + month − 1`.
pub open spec fn month_index(d: int) -> int {
    12 * calendar_year(d) + calendar_month(d) - 1
}

/// The tick spacing in months for a rough spacing: the first of 1, 3, 6, 12,
/// 24, 60 that is at least it, else 120.
pub open spec fn tick_step(rough: int) -> int {
    if rough <= 1 { 1 } else if rough <= 3 { 3 } else if rough <= 6 { 6 } else if rough <= 12 { 12 }
    else if rough <= 24 { 24 } else if rough <= 60 { 60 } else { 120 }
}

/// Integer division rounded toward zero, as Rust's `/` on signed integers.
pub open spec fn trunc_div(a: int, b: int) -> int {
    let q = (if a < 0 { -a } else { a }) / (if b < 0 { -b } else { b });
    if (a < 0) != (b < 0) { -q } else { q }
}

/// The spacing for `target` ticks between two days: the months between them
/// divided by `target` (at least 1), rounded up to a tick step.
pub open spec fn span_step(ds: int, de: int, target: int) -> int {
    let total = month_index(de) - month_index(ds);
    let q = trunc_div(total, target);
    let rough = if q >= 1 { q } else { 1 };
    tick_step(rough)
}

/// The month of the grid at or before the start day's month.
pub open spec fn grid_start(ds: int, step: int) -> int {
    12 * calendar_year(ds) + ((calendar_month(ds) - 1) / step) * step
}

/// One month past chrono's last year: no month from here on has a date.
pub open spec fn month_bound() -> int {
    12 * (max_year() + 1)
}

/// The first day of the month with index `idx`.
pub open spec fn first_of_index(idx: int) -> Option<int> {
    first_of_month(idx / 12, idx % 12 + 1)
}

/// The first grid month from `idx` on (in steps of `step`) whose first day
/// is on or after `ds`. `None` where there is none within chrono's years.
pub open spec fn first_tick(idx: int, step: int, ds: int) -> Option<int>
    decreases month_bound() + step - idx,
{
    if step < 1 || idx >= month_bound() {
        None
    } else {
        match first_of_index(idx) {
            Some(d) => if d >= ds { Some(idx) } else { first_tick(idx + step, step, ds) },
            None => first_tick(idx + step, step, ds),
        }
    }
}

/// The first days of the grid months from `idx` on, while they are on or
/// before `de`.
pub open spec fn ticks_from(idx: int, step: int, de: int) -> Seq<int>
    decreases month_bound() + step - idx,
{
    if step < 1 || idx >= month_bound() {
        Seq::empty()
    } else {
        match first_of_index(idx) {
            Some(d) => if d <= de { seq![d] + ticks_from(idx + step, step, de) } else { Seq::empty() },
            None => Seq::empty(),
        }
    }
}

/// Where the tick search starts for these bounds, and with what step.
pub open spec fn tick_plan(min_day: int, max_day: int, target: int) -> (int, int, int, int) {
    let ds = day_or_default(min_day);
    let de = day_or_default(max_day);
    let step = span_step(ds, de, target);
    (ds, de, step, grid_start(ds, step))
}

/// A grid month at or after the start has a first day on or after it.
pub open spec fn ticks_defined(min_day: int, max_day: int, target: int) -> bool {
    let (ds, de, step, g) = tick_plan(min_day, max_day, target);
    first_tick(g, step, ds) is Some
}

/// The ticks between two days: the first days of the grid months, from the
/// first one on or after the start to the last one on or before the end.
pub open spec fn time_ticks_spec(min_day: int, max_day: int, target: int) -> Seq<int> {
    let (ds, de, step, g) = tick_plan(min_day, max_day, target);
    match first_tick(g, step, ds) {
        Some(i) => ticks_from(i, step, de),
        None => Seq::empty(),
    }
}

proof fn lemma_index_parts(y: int, m: int)
    requires
        1 <= m <= 12,
    ensures
        (12 * y + m - 1) / 12 == y,
        (12 * y + m - 1) % 12 + 1 == m,
{
    assert((12 * y + m - 1) / 12 == y && (12 * y + m - 1) % 12 == m - 1) by (nonlinear_arith)
        requires 1 <= m <= 12;
}

/// Year and month of a day chrono represents.
fn parts(d: i32) -> (r: (i32, u32))
    requires
        valid_day(d as int),
    ensures
        r.0 == calendar_year(d as int),
        r.1 == calendar_month(d as int),
        1 <= r.1 <= 12,
        -262_143 <= r.0 <= 262_142,
{
    match year_month_of(d) {
        Some(p) => p,
        None => (0, 1),
    }
}

/// The first grid month from `(y, m)` on whose first day is on or after `ds`,
/// as a normalised year and month.
fn find_first_tick(y0: i32, m0: i32, step: i32, ds: i32) -> (r: Option<(i32, i32)>)
    requires
        1 <= step <= 120,
        1 <= m0 <= 12,
        -262_143 <= y0 <= 262_142,
    ensures
        match (r, first_tick(12 * y0 + m0 - 1, step as int, ds as int)) {
            (Some((y, m)), Some(i)) => 1 <= m <= 12 && 12 * y + m - 1 == i && -262_143 <= y <= 262_142,
            (None, None) => true,
            _ => false,
        },
{
    let mut y: i32 = y0;
    let mut m: i32 = m0;
    let ghost target = first_tick(12 * y0 + m0 - 1, step as int, ds as int);
    while y <= 262_142
        invariant
            1 <= step <= 120,
            1 <= m <= 12,
            -262_143 <= y <= 262_152,
            first_tick(12 * y + m - 1, step as int, ds as int) == target,
            target == first_tick(12 * y0 + m0 - 1, step as int, ds as int),
        decreases 12 * 262_160 - (12 * y + m),
    {
        proof {
            lemma_index_parts(y as int, m as int);
        }
        match first_of_month_exec(y, m as u32) {
            Some(d) => {
                if d >= ds {
                    assert(first_of_index(12 * y + m - 1) == Some(d as int));
                    assert(first_tick(12 * y + m - 1, step as int, ds as int) == Some(12 * y + m - 1));
                    return Some((y, m));
                }
            },
            None => {},
        }
        let ghost idx = 12 * y + m - 1 + step;
        m = m + step;
        while m > 12
            invariant
                1 <= m <= 12 + 120,
                -262_143 <= y <= 262_152,
                12 * y + m - 1 == idx,
                idx <= 12 * 262_142 + 11 + 120,
            decreases m,
        {
            m = m - 12;
            y = y + 1;
        }
    }
    proof {
        lemma_index_parts(y as int, m as int);
    }
    None
}

/// The plan as exec values: start day, end day, step, and the year and month
/// of the grid's first month.
fn plan_exec(min_day: i32, max_day: i32, target: usize) -> (r: (i32, i32, i32, i32, i32))
    requires
        target as i32 != 0,
    ensures
        ({
            let (ds, de, step, g) = tick_plan(min_day as int, max_day as int, target as i32 as int);
            &&& r.0 == ds && r.1 == de && r.2 == step
            &&& 12 * r.3 + r.4 - 1 == g
            &&& 1 <= r.2 <= 120 && 1 <= r.4 <= 12 && -262_143 <= r.3 <= 262_142
            &&& valid_day(r.0 as int) && valid_day(r.1 as int)
        }),
{
    let ghost plan = tick_plan(min_day as int, max_day as int, target as i32 as int);
    let ds: i32 = match year_month_of(min_day) {
        Some(_) => min_day,
        None => 730_120,
    };
    let de: i32 = match year_month_of(max_day) {
        Some(_) => max_day,
        None => 730_120,
    };
    assert(valid_day(730_120));
    let (ys, ms) = parts(ds);
    let (ye, me) = parts(de);
    let total: i64 = (ye as i64 - ys as i64) * 12 + me as i64 - ms as i64;
    let t32: i32 = target as i32;
    let t: i64 = t32 as i64;
    let a: i64 = if total < 0 { -total } else { total };
    let b: i64 = if t < 0 { -t } else { t };
    let q: i64 = if (total < 0) != (t < 0) { -(a / b) } else { a / b };
    assert(q == trunc_div(total as int, t32 as int));
    let rough: i64 = if q >= 1 { q } else { 1 };
    let step: i32 = if rough <= 1 { 1 } else if rough <= 3 { 3 } else if rough <= 6 { 6 }
        else if rough <= 12 { 12 } else if rough <= 24 { 24 } else if rough <= 60 { 60 } else { 120 };
    assert(step as int == plan.2);
    let step_u: u32 = step as u32;
    let q: u32 = (ms - 1) / step_u;
    proof {
        assert(q * step_u <= ms - 1) by (nonlinear_arith)
            requires q as int == (ms as int - 1) / (step_u as int), 1 <= ms <= 12, 1 <= step_u <= 120;
    }
    let m0: i32 = (q * step_u + 1) as i32;
    (ds, de, step, ys, m0)
}

/// Does a grid month at or after the start have a first day on or after it,
/// within chrono's years?
pub fn ticks_defined_exec(min_day: i32, max_day: i32, target: usize) -> (b: bool)
    requires
        target as i32 != 0,
    ensures
        b == ticks_defined(min_day as int, max_day as int, target as i32 as int),
{
    let (ds, _de, step, ys, m0) = plan_exec(min_day, max_day, target);
    find_first_tick(ys, m0, step, ds).is_some()
}

/// The time-axis ticks between two days (each replaced by 2000-01-01 where
/// chrono cannot represent it), for about `target` ticks: the first days of
/// every `step`-th month, `step` one of 1, 3, 6, 12, 24, 60 or 120, from the
/// first one on or after the start to the last one on or before the end.
/// The ticks strictly increase.
pub fn time_ticks(min_day: i32, max_day: i32, target: usize) -> (r: Vec<i32>)
    requires
        target as i32 != 0,
        ticks_defined(min_day as int, max_day as int, target as i32 as int),
    ensures
        r@.map_values(|d: i32| d as int) == time_ticks_spec(min_day as int, max_day as int, target as i32 as int),
        forall|i: int, j: int| 0 <= i < j < r@.len() ==> #[trigger] r@[i] < #[trigger] r@[j],
{
    let (ds, de, step, ys, m0) = plan_exec(min_day, max_day, target);
    let (mut y, mut m) = match find_first_tick(ys, m0, step, ds) {
        Some(p) => p,
        None => return Vec::new(),
    };
    let ghost total_ticks = time_ticks_spec(min_day as int, max_day as int, target as i32 as int);
    let mut ticks: Vec<i32> = Vec::new();
    proof {
        assert(ticks@.map_values(|d: i32| d as int) + ticks_from(12 * y + m - 1, step as int, de as int) =~= total_ticks);
    }
    while y <= 262_142
        invariant
            1 <= step <= 120,
            1 <= m <= 12,
            -262_143 <= y <= 262_152,
            ticks@.map_values(|d: i32| d as int) + ticks_from(12 * y + m - 1, step as int, de as int) == total_ticks,
            total_ticks == time_ticks_spec(min_day as int, max_day as int, target as i32 as int),
            forall|i: int, j: int| 0 <= i < j < ticks@.len() ==> #[trigger] ticks@[i] < #[trigger] ticks@[j],
            forall|k: int| 0 <= k < ticks@.len() ==> month_start(month_index(#[trigger] ticks@[k] as int)) == ticks@[k]
                && month_index(ticks@[k] as int) < 12 * y + m - 1,
        decreases 12 * 262_160 - (12 * y + m),
    {
        proof {
            lemma_index_parts(y as int, m as int);
        }
        let ghost tv = ticks@.map_values(|d: i32| d as int);
        let ghost idx = 12 * y + m - 1;
        match first_of_month_exec(y, m as u32) {
            Some(d) => {
                if d > de {
                    assert(ticks_from(idx, step as int, de as int) =~= Seq::<int>::empty());
                    assert(tv + Seq::<int>::empty() =~= tv);
                    return ticks;
                }
                let ghost old_ticks = ticks@;
                assert forall|k: int| 0 <= k < old_ticks.len() implies #[trigger] old_ticks[k] < d by {
                    let e = old_ticks[k] as int;
                    lemma_month_start_increasing(month_index(e), 12 * y + m - 1);
                }
                ticks.push(d);
                assert(ticks@.map_values(|x: i32| x as int) =~= tv.push(d as int));
                assert(ticks@[ticks@.len() - 1] == d);
                assert(tv + (seq![d as int] + ticks_from(idx + step, step as int, de as int))
                    =~= tv.push(d as int) + ticks_from(idx + step, step as int, de as int));
            },
            None => {
                assert(tv + Seq::<int>::empty() =~= tv);
                return ticks;
            },
        }
        let ghost next = 12 * y + m - 1 + step;
        assert(forall|k: int| 0 <= k < ticks@.len() ==>
            month_index(#[trigger] ticks@[k] as int) < next);
        m = m + step;
        while m > 12
            invariant
                1 <= m <= 12 + 120,
                -262_143 <= y <= 262_152,
                12 * y + m - 1 == next,
                next <= 12 * 262_142 + 11 + 120,
            decreases m,
        {
            m = m - 12;
            y = y + 1;
        }
    }
    proof {
        assert(ticks_from(12 * y + m - 1, step as int, de as int) =~= Seq::<int>::empty());
        assert(ticks@.map_values(|d: i32| d as int) + Seq::<int>::empty() =~= ticks@.map_values(|d: i32| d as int));
    }
    ticks
}

/// [`time_ticks`] where the search for the first tick ends within chrono's
/// years; `None` where it would not end.
pub fn time_ticks_checked(min_day: i32, max_day: i32, target: usize) -> (r: Option<Vec<i32>>)
    requires
        target as i32 != 0,
    ensures
        r is Some <==> ticks_defined(min_day as int, max_day as int, target as i32 as int),
        r matches Some(v) ==> v@.map_values(|d: i32| d as int) == time_ticks_spec(min_day as int, max_day as int, target as i32 as int),
        r matches Some(v) ==> forall|i: int, j: int| 0 <= i < j < v@.len() ==> #[trigger] v@[i] < #[trigger] v@[j],
{
    if ticks_defined_exec(min_day, max_day, target) {
        Some(time_ticks(min_day, max_day, target))
    } else {
        None
    }
}

proof fn lemma_first_tick_found(idx: int, step: int, ds: int)
    ensures
        first_tick(idx, step, ds) matches Some(i) ==> first_of_index(i) matches Some(d) && d >= ds,
    decreases month_bound() + step - idx,
{
    if !(step < 1 || idx >= month_bound()) {
        lemma_first_tick_found(idx + step, step, ds);
    }
}

proof fn lemma_ticks_bounded(idx: int, step: int, de: int)
    ensures
        forall|k: int| 0 <= k < ticks_from(idx, step, de).len() ==> #[trigger] ticks_from(idx, step, de)[k] <= de,
        ticks_from(idx, step, de).len() > 0 ==> first_of_index(idx) == Some(ticks_from(idx, step, de)[0]),
    decreases month_bound() + step - idx,
{
    if !(step < 1 || idx >= month_bound()) {
        lemma_ticks_bounded(idx + step, step, de);
        let r = ticks_from(idx, step, de);
        if r.len() > 0 {
            let rest = ticks_from(idx + step, step, de);
            assert forall|k: int| 0 <= k < r.len() implies #[trigger] r[k] <= de by {
                if k > 0 {
                    assert(r[k] == rest[k - 1]);
                }
            }
        }
    }
}

/// Every tick is on or before the end day, and the first tick is on or after
/// the start day (each day replaced by 2000-01-01 where chrono cannot
/// represent it).
pub proof fn law_ticks_within(min_day: int, max_day: int, target: int)
    ensures
        ({
            let (ds, de, step, g) = tick_plan(min_day, max_day, target);
            let t = time_ticks_spec(min_day, max_day, target);
            &&& forall|k: int| 0 <= k < t.len() ==> #[trigger] t[k] <= de
            &&& t.len() > 0 ==> t[0] >= ds
        }),
{
    let (ds, de, step, g) = tick_plan(min_day, max_day, target);
    lemma_first_tick_found(g, step, ds);
    match first_tick(g, step, ds) {
        Some(i) => {
            lemma_ticks_bounded(i, step, de);
        },
        None => {},
    }
}

} // verus!
