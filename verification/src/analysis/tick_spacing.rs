//! How far apart the ticks of the time axis are.

use vstd::prelude::*;
use crate::calendar::{calendar_month, calendar_year, day_of_month, lemma_first_of_month, lemma_month_of,
    lemma_month_start_step, month_index_of, month_start};
use super::ticks::{first_of_index, first_tick, month_bound, tick_plan, tick_step, ticks_from, time_ticks_spec, trunc_div};

verus! {

proof fn lemma_first_of_index(idx: int)
    ensures
        first_of_index(idx) matches Some(d) ==> month_index_of(d) == idx && month_start(idx) == d,
{
    let y = idx / 12;
    let m = idx % 12 + 1;
    assert(12 * y + m - 1 == idx);
    assert(1 <= m <= 12);
    lemma_first_of_month(y, m);
}

/// Days that are month starts, each `step` months after the one before,
/// the first in month `idx`.
pub open spec fn spaced_starts(t: Seq<int>, idx: int, step: int) -> bool {
    &&& forall|k: int| 0 <= k < t.len() ==> month_start(#[trigger] month_index_of(t[k])) == t[k]
    &&& t.len() > 0 ==> month_index_of(t[0]) == idx
    &&& forall|k: int| 0 <= k < t.len() - 1 ==>
        #[trigger] month_index_of(t[k + 1]) == month_index_of(t[k]) + step
}

proof fn lemma_spaced_cons(d: int, rest: Seq<int>, idx: int, step: int)
    requires
        month_index_of(d) == idx,
        month_start(idx) == d,
        spaced_starts(rest, idx + step, step),
    ensures
        spaced_starts(seq![d] + rest, idx, step),
{
    let t = seq![d] + rest;
    assert(t[0] == d);
    assert forall|k: int| 0 <= k < t.len() implies month_start(#[trigger] month_index_of(t[k])) == t[k] by {
        if k > 0 {
            assert(t[k] == rest[k - 1]);
        }
    }
    assert forall|k: int| 0 <= k < t.len() - 1 implies
        #[trigger] month_index_of(t[k + 1]) == month_index_of(t[k]) + step by {
        assert(t[k + 1] == rest[k]);
        if k > 0 {
            let j = k - 1;
            assert(t[k] == rest[j]);
            assert(month_index_of(rest[j + 1]) == month_index_of(rest[j]) + step);
        } else {
            assert(month_index_of(rest[0]) == idx + step);
        }
    }
}

proof fn lemma_ticks_spacing(idx: int, step: int, de: int)
    ensures
        spaced_starts(ticks_from(idx, step, de), idx, step),
    decreases month_bound() + step - idx,
{
    if !(step < 1 || idx >= month_bound()) {
        lemma_ticks_spacing(idx + step, step, de);
        lemma_first_of_index(idx);
        let rest = ticks_from(idx + step, step, de);
        match first_of_index(idx) {
            Some(d) => {
                if d <= de {
                    assert(ticks_from(idx, step, de) == seq![d] + rest);
                    lemma_spaced_cons(d, rest, idx, step);
                }
            },
            None => {},
        }
    }
}

/// The ticks are the first days of months `step` months apart, where `step`
/// is the tick step for the number of calendar months between the two days
/// (year difference times 12 plus month difference) divided by `target`
/// (rounded toward zero, at least 1).
pub proof fn law_tick_spacing(min_day: int, max_day: int, target: int)
    ensures
        ({
            let (ds, de, step, g) = tick_plan(min_day, max_day, target);
            let months = 12 * (calendar_year(de) - calendar_year(ds)) + calendar_month(de) - calendar_month(ds);
            let q = trunc_div(months, target);
            let t = time_ticks_spec(min_day, max_day, target);
            &&& step == tick_step(if q >= 1 { q } else { 1 })
            &&& forall|k: int| 0 <= k < t.len() ==> #[trigger] day_of_month(t[k]) == 1
            &&& forall|k: int| 0 <= k < t.len() - 1 ==>
                #[trigger] month_index_of(t[k + 1]) == month_index_of(t[k]) + step
        }),
{
    let (ds, de, step, g) = tick_plan(min_day, max_day, target);
    let t = time_ticks_spec(min_day, max_day, target);
    match first_tick(g, step, ds) {
        Some(i) => {
            lemma_ticks_spacing(i, step, de);
            assert(spaced_starts(t, i, step));
            assert forall|k: int| 0 <= k < t.len() implies #[trigger] day_of_month(t[k]) == 1 by {
                let j = month_index_of(t[k]);
                lemma_month_start_step(j);
                lemma_month_of(j, t[k]);
            }
        },
        None => {},
    }
}

} // verus!
