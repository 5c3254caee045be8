//! The NAV (net asset value) timeline: replay all transactions in date order
//! and value the holdings after each one, and on every day a security price
//! changes between transactions.

use vstd::prelude::*;
use crate::calendar::{date_of_timestamp, date_of_timestamp_spec, unix_epoch_day};
use crate::ledger::{apply_tx, is_internal, law_internal_keeps_nav, nav_units, replay, value_of, Ledger, LedgerView, Valuation};
use crate::model::{epoch_day_of, trunc_day, tx_keys, PClient, PTransaction};
use crate::order::{contains_sorted, is_stable_order, lemma_increasing_exists, lemma_increasing_unique, sorted_distinct, stable_order,
    stable_sort_order, strictly_increasing};
use crate::prices::{book_view, last_index_of, tables_dated, PriceBook};

verus! {

/// The transactions in the order a stable sort by timestamp leaves them,
/// undated ones counting as timestamp 0.
pub open spec fn sorted_txs(c: PClient) -> Seq<PTransaction> {
    stable_order(tx_keys(c.transactions@)).map_values(|i: usize| c.transactions@[i as int])
}

/// The day of the first sorted transaction (0 where it is undated).
pub open spec fn first_day(c: PClient) -> int {
    let s = sorted_txs(c);
    if s.len() == 0 {
        0
    } else {
        match s[0].date_seconds {
            Some(x) => trunc_day(x as int),
            None => 0,
        }
    }
}

/// Some transaction is dated on day `d`.
pub open spec fn is_tx_day(c: PClient, d: int) -> bool {
    exists|i: int| 0 <= i < c.transactions@.len()
        && (#[trigger] c.transactions@[i]).date_seconds is Some
        && trunc_day(c.transactions@[i].date_seconds->0 as int) == d
}

/// The price book of the timeline: securities without quotes left out.
pub open spec fn nav_book(c: PClient) -> Seq<(Seq<char>, Seq<(i64, i64)>)> {
    book_view(c.securities@, false)
}

/// The book's table for some UUID carries a quote on day `d`.
pub open spec fn is_quote_day(c: PClient, d: int) -> bool {
    exists|k: int, j: int|
        0 <= k < nav_book(c).len()
        && last_index_of(nav_book(c), nav_book(c)[k].0) == Some(k)
        && 0 <= j < nav_book(c)[k].1.len()
        && (#[trigger] nav_book(c)[k].1[j]).0 == d
}

/// A day that gets a point of its own: a quote day on or after the first
/// transaction's day that no transaction is dated on.
pub open spec fn is_price_only_day(c: PClient, d: int) -> bool {
    is_quote_day(c, d) && d >= first_day(c) && !is_tx_day(c, d)
}

/// The price-only days, ascending.
pub open spec fn price_only_days(c: PClient) -> Seq<i64> {
    choose|s: Seq<i64>| strictly_increasing(s) && forall|x: i64| s.contains(x) <==> is_price_only_day(c, x as int)
}

/// Every price-only day's midnight is a timestamp that fits an `i64` (there
/// are no price-only days without transactions).
pub open spec fn days_fit(c: PClient) -> bool {
    c.transactions@.len() == 0 || forall|d: int| is_price_only_day(c, d) ==> i64::MIN <= d * 86400 <= i64::MAX
}

/// Add the dates of `t` that are on or after `first` and not in `skip`.
fn push_days(cands: &mut Vec<i64>, t: &Vec<(i64, i64)>, first: i64, skip: &Vec<i64>)
    requires
        strictly_increasing(skip@),
    ensures
        forall|x: i64| #![trigger final(cands)@.contains(x)] #![trigger old(cands)@.contains(x)]
            final(cands)@.contains(x) <==> (old(cands)@.contains(x)
            || (x >= first && !skip@.contains(x) && exists|j: int| 0 <= j < t@.len() && (#[trigger] t@[j]).0 == x)),
{
    let ghost start = cands@;
    let mut j: usize = 0;
    while j < t.len()
        invariant
            j <= t.len(),
            strictly_increasing(skip@),
            forall|x: i64| #![trigger cands@.contains(x)] #![trigger start.contains(x)]
                cands@.contains(x) <==> (start.contains(x)
                || (x >= first && !skip@.contains(x) && exists|j2: int| 0 <= j2 < j && (#[trigger] t@[j2]).0 == x)),
        decreases t.len() - j,
    {
        let d = t[j].0;
        let ghost before = cands@;
        let keep = d >= first && !contains_sorted(skip, d);
        if keep {
            cands.push(d);
        }
        proof {
            assert forall|x: i64| #![trigger cands@.contains(x)] #![trigger start.contains(x)]
                cands@.contains(x) <==> (start.contains(x)
                || (x >= first && !skip@.contains(x) && exists|j2: int| 0 <= j2 < j + 1 && (#[trigger] t@[j2]).0 == x)) by {
                if keep {
                    assert(cands@ == before.push(d));
                    if cands@.contains(x) {
                        let p = choose|p: int| 0 <= p < cands@.len() && cands@[p] == x;
                        if p < before.len() {
                            assert(before[p] == x);
                            assert(before.contains(x));
                        } else {
                            assert(x == d);
                            assert(t@[j as int].0 == x);
                        }
                    }
                    if before.contains(x) {
                        let p = choose|p: int| 0 <= p < before.len() && before[p] == x;
                        assert(cands@[p] == x);
                    }
                    if x == d {
                        assert(cands@[cands@.len() - 1] == x);
                    }
                } else {
                    assert(cands@ == before);
                    if x >= first && !skip@.contains(x) && exists|j2: int| 0 <= j2 < j + 1 && (#[trigger] t@[j2]).0 == x {
                        let j2 = choose|j2: int| 0 <= j2 < j + 1 && (#[trigger] t@[j2]).0 == x;
                        if j2 == j {
                            assert(x == d);
                            assert(false);
                        }
                    }
                }
            }
        }
        j = j + 1;
    }
}

/// The price-only days of `c`, ascending.
fn price_only_day_list(c: &PClient, book: &PriceBook, ord: &Vec<usize>) -> (days: Vec<i64>)
    requires
        book.view() == nav_book(*c),
        ord@ == stable_order(tx_keys(c.transactions@)),
        crate::order::is_stable_order(tx_keys(c.transactions@), ord@),
        c.transactions@.len() > 0,
    ensures
        days@ == price_only_days(*c),
        strictly_increasing(days@),
        forall|x: i64| days@.contains(x) <==> is_price_only_day(*c, x as int),
{
    let txs = &c.transactions;
    let ghost sorted = sorted_txs(*c);
    assert(sorted[0] == txs@[ord@[0] as int]);
    let first: i64 = match txs[ord[0]].date_seconds {
        Some(s) => epoch_day_of(s),
        None => 0,
    };
    assert(first as int == first_day(*c));
    let mut all: Vec<i64> = Vec::new();
    let mut i: usize = 0;
    while i < txs.len()
        invariant
            i <= txs.len(),
            forall|x: i64| all@.contains(x) <==> exists|q: int| 0 <= q < i
                && (#[trigger] txs@[q]).date_seconds is Some
                && trunc_day(txs@[q].date_seconds->0 as int) == x,
        decreases txs.len() - i,
    {
        let ghost old_all = all@;
        match txs[i].date_seconds {
            Some(s) => {
                let d = epoch_day_of(s);
                all.push(d);
                proof {
                    assert forall|x: i64| all@.contains(x) <==> exists|q: int| 0 <= q < i + 1
                        && (#[trigger] txs@[q]).date_seconds is Some
                        && trunc_day(txs@[q].date_seconds->0 as int) == x by {
                        if all@.contains(x) {
                            let p = choose|p: int| 0 <= p < all@.len() && all@[p] == x;
                            if p < old_all.len() {
                                assert(old_all[p] == x);
                                assert(old_all.contains(x));
                            } else {
                                assert(txs@[i as int].date_seconds is Some);
                            }
                        }
                        if exists|q: int| 0 <= q < i + 1 && (#[trigger] txs@[q]).date_seconds is Some
                            && trunc_day(txs@[q].date_seconds->0 as int) == x {
                            let q = choose|q: int| 0 <= q < i + 1 && (#[trigger] txs@[q]).date_seconds is Some
                                && trunc_day(txs@[q].date_seconds->0 as int) == x;
                            if q < i {
                                assert(old_all.contains(x));
                                let p = choose|p: int| 0 <= p < old_all.len() && old_all[p] == x;
                                assert(all@[p] == x);
                            } else {
                                assert(all@[all@.len() - 1] == x);
                            }
                        }
                    }
                }
            },
            None => {},
        }
        i = i + 1;
    }
    let tx_days = sorted_distinct(&all);
    proof {
        assert forall|x: i64| tx_days@.contains(x) <==> is_tx_day(*c, x as int) by {
            if is_tx_day(*c, x as int) {
                let q = choose|q: int| 0 <= q < c.transactions@.len()
                    && (#[trigger] c.transactions@[q]).date_seconds is Some
                    && trunc_day(c.transactions@[q].date_seconds->0 as int) == x as int;
                assert(txs@[q].date_seconds is Some);
            }
        }
    }
    let ghost bv = book.view();
    let mut cands: Vec<i64> = Vec::new();
    let mut k: usize = 0;
    while k < book.entries.len()
        invariant
            k <= book.entries.len(),
            bv == book.view(),
            bv == nav_book(*c),
            first as int == first_day(*c),
            strictly_increasing(tx_days@),
            forall|x: i64| tx_days@.contains(x) <==> is_tx_day(*c, x as int),
            forall|x: i64| #![trigger cands@.contains(x)] cands@.contains(x) <==> (x >= first && !is_tx_day(*c, x as int)
                && exists|k2: int, j: int| 0 <= k2 < k
                    && last_index_of(bv, bv[k2].0) == Some(k2)
                    && 0 <= j < bv[k2].1.len()
                    && (#[trigger] bv[k2].1[j]).0 == x),
        decreases book.entries.len() - k,
    {
        let ghost before = cands@;
        if book.is_winner(k) {
            let t = &book.entries[k].table;
            assert(bv[k as int].1 == t@);
            push_days(&mut cands, t, first, &tx_days);
        }
        proof {
            assert forall|x: i64| #![trigger cands@.contains(x)] cands@.contains(x) <==> (x >= first && !is_tx_day(*c, x as int)
                && exists|k2: int, j: int| 0 <= k2 < k + 1
                    && last_index_of(bv, bv[k2].0) == Some(k2)
                    && 0 <= j < bv[k2].1.len()
                    && (#[trigger] bv[k2].1[j]).0 == x) by {
                if cands@.contains(x) && !before.contains(x) {
                    let j = choose|j: int| 0 <= j < bv[k as int].1.len() && (#[trigger] bv[k as int].1[j]).0 == x;
                    assert(bv[k as int].1[j].0 == x);
                }
                if exists|k2: int, j: int| 0 <= k2 < k + 1
                    && last_index_of(bv, bv[k2].0) == Some(k2)
                    && 0 <= j < bv[k2].1.len()
                    && (#[trigger] bv[k2].1[j]).0 == x {
                    let (k2, j) = choose|k2: int, j: int| 0 <= k2 < k + 1
                        && last_index_of(bv, bv[k2].0) == Some(k2)
                        && 0 <= j < bv[k2].1.len()
                        && (#[trigger] bv[k2].1[j]).0 == x;
                    if k2 == k && x >= first && !is_tx_day(*c, x as int) {
                        assert(bv[k as int].1[j].0 == x);
                    }
                }
            }
        }
        k = k + 1;
    }
    let days = sorted_distinct(&cands);
    proof {
        assert forall|x: i64| days@.contains(x) <==> is_price_only_day(*c, x as int) by {
            if is_quote_day(*c, x as int) {
                let (k2, j) = choose|k2: int, j: int|
                    0 <= k2 < nav_book(*c).len()
                    && last_index_of(nav_book(*c), nav_book(*c)[k2].0) == Some(k2)
                    && 0 <= j < nav_book(*c)[k2].1.len()
                    && (#[trigger] nav_book(*c)[k2].1[j]).0 == x as int;
                assert(bv[k2].1[j].0 == x);
            }
        }
        assert(exists|s: Seq<i64>| strictly_increasing(s) && forall|x: i64| s.contains(x) <==> is_price_only_day(*c, x as int));
        lemma_increasing_unique(days@, price_only_days(*c));
    }
    days
}

/// A point of the NAV timeline: the date (days since 0001-01-01, see
/// [`crate::calendar`]) and what the holdings were worth on it.
pub struct NavPoint {
    pub date: i32,
    pub value: Valuation,
}

impl NavPoint {
    pub open spec fn view(&self) -> (int, (int, Seq<(int, int)>)) {
        (self.date as int, self.value.view())
    }
}

/// The point of a price-only day: the state's value on that day, dated at
/// its midnight (none where chrono has no such date).
pub open spec fn day_point(book: Seq<(Seq<char>, Seq<(i64, i64)>)>, d: int, st: LedgerView) -> Seq<(int, (int, Seq<(int, int)>))> {
    match date_of_timestamp_spec(d * 86400) {
        Some(date) => seq![(date, value_of(st, book, d))],
        None => Seq::empty(),
    }
}

/// The point of a dated transaction: the state after it, valued on its day
/// and dated at its timestamp (none where chrono has no such date).
pub open spec fn tx_point(book: Seq<(Seq<char>, Seq<(i64, i64)>)>, t: PTransaction, st: LedgerView) -> Seq<(int, (int, Seq<(int, int)>))> {
    let secs = t.date_seconds->0 as int;
    match date_of_timestamp_spec(secs) {
        Some(date) => seq![(date, value_of(st, book, trunc_day(secs)))],
        None => Seq::empty(),
    }
}

/// The timeline from state `st` on, over the sorted transactions `txs` and
/// the ascending price-only days `days`: undated transactions are skipped;
/// a price-only day comes before the next dated transaction exactly when it
/// is earlier than that transaction's day.
pub open spec fn timeline(book: Seq<(Seq<char>, Seq<(i64, i64)>)>, txs: Seq<PTransaction>, days: Seq<i64>, st: LedgerView) -> Seq<(int, (int, Seq<(int, int)>))>
    decreases txs.len() + days.len(),
{
    if txs.len() > 0 && txs[0].date_seconds is None {
        timeline(book, txs.drop_first(), days, st)
    } else if days.len() > 0 && (txs.len() == 0 || (days[0] as int) < trunc_day(txs[0].date_seconds->0 as int)) {
        day_point(book, days[0] as int, st) + timeline(book, txs, days.drop_first(), st)
    } else if txs.len() > 0 {
        let next = apply_tx(st, txs[0]);
        tx_point(book, txs[0], next) + timeline(book, txs.drop_first(), days, next)
    } else {
        Seq::empty()
    }
}

/// The NAV timeline of a client: empty without transactions, else the
/// timeline of all sorted transactions and price-only days from nothing.
pub open spec fn nav_series(c: PClient) -> Seq<(int, (int, Seq<(int, int)>))> {
    if c.transactions@.len() == 0 {
        Seq::empty()
    } else {
        timeline(nav_book(c), sorted_txs(c), price_only_days(c), replay(Seq::empty()))
    }
}

/// The sort keys of the transactions.
pub(crate) fn tx_key_list(txs: &Vec<PTransaction>) -> (keys: Vec<i64>)
    ensures
        keys@ == tx_keys(txs@),
{
    let mut keys: Vec<i64> = Vec::new();
    let mut i: usize = 0;
    while i < txs.len()
        invariant
            i <= txs.len(),
            keys@ == tx_keys(txs@.take(i as int)),
        decreases txs.len() - i,
    {
        let k: i64 = match txs[i].date_seconds {
            Some(s) => s,
            None => 0,
        };
        keys.push(k);
        assert(tx_keys(txs@.take(i + 1)) =~= tx_keys(txs@.take(i as int)).push(k));
        i = i + 1;
    }
    assert(txs@.take(txs.len() as int) =~= txs@);
    keys
}

/// Does every price-only day's midnight fit an `i64` timestamp? Where it
/// does not, the timeline cannot be computed.
pub fn nav_days_fit(client: &PClient) -> (b: bool)
    ensures
        b == days_fit(*client),
{
    let keys = tx_key_list(&client.transactions);
    let ord = stable_sort_order(&keys);
    if client.transactions.len() == 0 {
        return true;
    }
    let book = PriceBook::build(&client.securities, false);
    let days = price_only_day_list(client, &book, &ord);
    let mut q: usize = 0;
    while q < days.len()
        invariant
            q <= days.len(),
            client.transactions@.len() > 0,
            days@ == price_only_days(*client),
            forall|x: i64| days@.contains(x) <==> is_price_only_day(*client, x as int),
            forall|p: int| 0 <= p < q ==> i64::MIN <= #[trigger] days@[p] * 86400 <= i64::MAX,
        decreases days.len() - q,
    {
        let d = days[q];
        if d < -106_751_991_167_300 || d > 106_751_991_167_300 {
            proof {
                assert(days@[q as int] == d);
                assert(days@.contains(d));
                assert(is_price_only_day(*client, d as int));
                assert(!(i64::MIN <= (d as int) * 86400 <= i64::MAX));
                assert(!days_fit(*client));
            }
            return false;
        }
        q = q + 1;
    }
    proof {
        assert forall|d: int| is_price_only_day(*client, d) implies i64::MIN <= d * 86400 <= i64::MAX by {
            assert(is_quote_day(*client, d));
            let (k2, j) = choose|k2: int, j: int|
                0 <= k2 < nav_book(*client).len()
                && last_index_of(nav_book(*client), nav_book(*client)[k2].0) == Some(k2)
                && 0 <= j < nav_book(*client)[k2].1.len()
                && (#[trigger] nav_book(*client)[k2].1[j]).0 == d;
            let x = nav_book(*client)[k2].1[j].0;
            assert(is_price_only_day(*client, x as int));
            assert(days@.contains(x));
            let p = choose|p: int| 0 <= p < days@.len() && days@[p] == x;
            assert(i64::MIN <= days@[p] * 86400 <= i64::MAX);
        }
    }
    true
}

/// The view of a list of points.
pub open spec fn points_view(v: Seq<NavPoint>) -> Seq<(int, (int, Seq<(int, int)>))> {
    v.map_values(|p: NavPoint| p.view())
}

fn emit_day(out: &mut Vec<NavPoint>, ledger: &Ledger, book: &PriceBook, d: i64)
    requires
        tables_dated(book.view()),
        i64::MIN <= d * 86400 <= i64::MAX,
    ensures
        points_view(final(out)@) == points_view(old(out)@) + day_point(book.view(), d as int, ledger.view()),
{
    let ghost before = out@;
    match date_of_timestamp(d * 86400) {
        Some(date) => {
            let value = ledger.valuation(book, d);
            out.push(NavPoint { date, value });
            assert(points_view(out@) =~= points_view(before) + day_point(book.view(), d as int, ledger.view()));
        },
        None => {
            assert(points_view(out@) =~= points_view(before) + day_point(book.view(), d as int, ledger.view()));
        },
    }
}

fn emit_tx(out: &mut Vec<NavPoint>, ledger: &Ledger, book: &PriceBook, t: &PTransaction, secs: i64, e: i64)
    requires
        tables_dated(book.view()),
        t.date_seconds == Some(secs),
        e as int == trunc_day(secs as int),
    ensures
        points_view(final(out)@) == points_view(old(out)@) + tx_point(book.view(), *t, ledger.view()),
{
    let ghost before = out@;
    match date_of_timestamp(secs) {
        Some(date) => {
            let value = ledger.valuation(book, e);
            out.push(NavPoint { date, value });
            assert(points_view(out@) =~= points_view(before) + tx_point(book.view(), *t, ledger.view()));
        },
        None => {
            assert(points_view(out@) =~= points_view(before) + tx_point(book.view(), *t, ledger.view()));
        },
    }
}

/// Replay all transactions in date order and emit the NAV timeline: a point
/// after each dated transaction, and one on each day a security price
/// changes between transactions (on or after the first transaction, and not
/// on a transaction's day). Undated transactions are skipped.
pub fn compute_nav_series(client: &PClient) -> (points: Vec<NavPoint>)
    requires
        days_fit(*client),
    ensures
        points_view(points@) == nav_series(*client),
{
    let txs = &client.transactions;
    let keys = tx_key_list(txs);
    let ord = stable_sort_order(&keys);
    let mut points: Vec<NavPoint> = Vec::new();
    if txs.len() == 0 {
        assert(points_view(points@) =~= Seq::<(int, (int, Seq<(int, int)>))>::empty());
        return points;
    }
    let book = PriceBook::build(&client.securities, false);
    let days = price_only_day_list(client, &book, &ord);
    let ghost sorted = sorted_txs(*client);
    let ghost bv = book.view();
    let ghost total = nav_series(*client);
    let mut ledger = Ledger::new();
    proof {
        assert(sorted.skip(0) =~= sorted);
        assert(days@.skip(0) =~= days@);
        assert(points_view(points@) =~= Seq::<(int, (int, Seq<(int, int)>))>::empty());
        assert(points_view(points@) + total =~= total);
        assert forall|q: int| 0 <= q < days@.len() implies i64::MIN <= #[trigger] days@[q] * 86400 <= i64::MAX by {
            assert(days@.contains(days@[q]));
        }
    }
    let mut pd: usize = 0;
    let mut i: usize = 0;
    while i < ord.len()
        invariant
            i <= ord.len(),
            ord.len() == txs.len(),
            sorted == ord@.map_values(|x: usize| txs@[x as int]),
            is_stable_order(tx_keys(txs@), ord@),
            pd <= days.len(),
            bv == book.view(),
            tables_dated(bv),
            forall|q: int| 0 <= q < days@.len() ==> i64::MIN <= #[trigger] days@[q] * 86400 <= i64::MAX,
            ledger.bounded(),
            ledger.applied <= i,
            points_view(points@) + timeline(bv, sorted.skip(i as int), days@.skip(pd as int), ledger.view()) == total,
        decreases ord.len() - i,
    {
        let t = &txs[ord[i]];
        assert(sorted.skip(i as int)[0] == *t);
        match t.date_seconds {
            None => {
                assert(sorted.skip(i as int).drop_first() =~= sorted.skip(i + 1));
            },
            Some(secs) => {
                let e = epoch_day_of(secs);
                while pd < days.len() && days[pd] < e
                    invariant
                        i < ord.len(),
                        pd <= days.len(),
                        bv == book.view(),
                        tables_dated(bv),
                        sorted.skip(i as int)[0] == *t,
                        sorted.skip(i as int).len() > 0,
                        t.date_seconds == Some(secs),
                        e as int == trunc_day(secs as int),
                        forall|q: int| 0 <= q < days@.len() ==> i64::MIN <= #[trigger] days@[q] * 86400 <= i64::MAX,
                        points_view(points@) + timeline(bv, sorted.skip(i as int), days@.skip(pd as int), ledger.view()) == total,
                    decreases days.len() - pd,
                {
                    let d = days[pd];
                    let ghost rest = timeline(bv, sorted.skip(i as int), days@.skip(pd + 1), ledger.view());
                    let ghost pv = points_view(points@);
                    assert(days@.skip(pd as int).drop_first() =~= days@.skip(pd + 1));
                    assert(days@.skip(pd as int)[0] == d);
                    emit_day(&mut points, &ledger, &book, d);
                    assert(pv + (day_point(bv, d as int, ledger.view()) + rest) =~= (pv + day_point(bv, d as int, ledger.view())) + rest);
                    pd = pd + 1;
                }
                let ghost st = ledger.view();
                ledger.apply(t);
                let ghost pv = points_view(points@);
                let ghost rest = timeline(bv, sorted.skip(i + 1), days@.skip(pd as int), ledger.view());
                assert(sorted.skip(i as int).drop_first() =~= sorted.skip(i + 1));
                emit_tx(&mut points, &ledger, &book, t, secs, e);
                assert(pv + (tx_point(bv, *t, ledger.view()) + rest) =~= (pv + tx_point(bv, *t, ledger.view())) + rest);
            },
        }
        i = i + 1;
    }
    while pd < days.len()
        invariant
            pd <= days.len(),
            bv == book.view(),
            tables_dated(bv),
            sorted.skip(ord.len() as int).len() == 0,
            forall|q: int| 0 <= q < days@.len() ==> i64::MIN <= #[trigger] days@[q] * 86400 <= i64::MAX,
            points_view(points@) + timeline(bv, sorted.skip(ord.len() as int), days@.skip(pd as int), ledger.view()) == total,
        decreases days.len() - pd,
    {
        let d = days[pd];
        let ghost rest = timeline(bv, sorted.skip(ord.len() as int), days@.skip(pd + 1), ledger.view());
        let ghost pv = points_view(points@);
        assert(days@.skip(pd as int).drop_first() =~= days@.skip(pd + 1));
        assert(days@.skip(pd as int)[0] == d);
        emit_day(&mut points, &ledger, &book, d);
        assert(pv + (day_point(bv, d as int, ledger.view()) + rest) =~= (pv + day_point(bv, d as int, ledger.view())) + rest);
        pd = pd + 1;
    }
    assert(points_view(points@) + Seq::<(int, (int, Seq<(int, int)>))>::empty() =~= points_view(points@));
    points
}

/// The quote dates of the book's first `n` entries that it holds for their
/// UUIDs.
pub open spec fn winner_dates(v: Seq<(Seq<char>, Seq<(i64, i64)>)>, n: int) -> Seq<i64>
    decreases n,
{
    if n <= 0 || n > v.len() {
        Seq::empty()
    } else {
        winner_dates(v, n - 1) + if last_index_of(v, v[n - 1].0) == Some(n - 1) {
            v[n - 1].1.map_values(|e: (i64, i64)| e.0)
        } else {
            Seq::empty()
        }
    }
}

proof fn lemma_winner_dates(v: Seq<(Seq<char>, Seq<(i64, i64)>)>, n: int)
    requires
        0 <= n <= v.len(),
    ensures
        forall|x: i64| #[trigger] winner_dates(v, n).contains(x) <==> exists|k: int, j: int|
            0 <= k < n && last_index_of(v, v[k].0) == Some(k) && 0 <= j < v[k].1.len()
            && (#[trigger] v[k].1[j]).0 == x,
    decreases n,
{
    if n > 0 {
        lemma_winner_dates(v, n - 1);
        let a = winner_dates(v, n - 1);
        let b = if last_index_of(v, v[n - 1].0) == Some(n - 1) {
            v[n - 1].1.map_values(|e: (i64, i64)| e.0)
        } else {
            Seq::empty()
        };
        assert forall|x: i64| #[trigger] winner_dates(v, n).contains(x) <==> exists|k: int, j: int|
            0 <= k < n && last_index_of(v, v[k].0) == Some(k) && 0 <= j < v[k].1.len()
            && (#[trigger] v[k].1[j]).0 == x by {
            let w = winner_dates(v, n);
            assert(w == a + b);
            if w.contains(x) {
                let q = choose|q: int| 0 <= q < w.len() && w[q] == x;
                if q < a.len() {
                    assert(a[q] == x);
                    assert(a.contains(x));
                } else {
                    assert(b[q - a.len()] == x);
                    assert(v[n - 1].1[q - a.len()].0 == x);
                }
            }
            if exists|k: int, j: int| 0 <= k < n && last_index_of(v, v[k].0) == Some(k) && 0 <= j < v[k].1.len()
                && (#[trigger] v[k].1[j]).0 == x {
                let (k, j) = choose|k: int, j: int| 0 <= k < n && last_index_of(v, v[k].0) == Some(k)
                    && 0 <= j < v[k].1.len() && (#[trigger] v[k].1[j]).0 == x;
                if k < n - 1 {
                    assert(a.contains(x));
                    let q = choose|q: int| 0 <= q < a.len() && a[q] == x;
                    assert(w[q] == x);
                } else {
                    assert(b[j] == x);
                    assert(w[a.len() + j] == x);
                }
            }
        }
    }
}

/// The price-only days of a client are listed ascending, each once.
pub proof fn lemma_price_only_days(c: PClient)
    ensures
        strictly_increasing(price_only_days(c)),
        forall|x: i64| #[trigger] price_only_days(c).contains(x) <==> is_price_only_day(c, x as int),
{
    let v = nav_book(c);
    lemma_winner_dates(v, v.len() as int);
    let p = |x: i64| x >= first_day(c) && !is_tx_day(c, x as int);
    lemma_increasing_exists(winner_dates(v, v.len() as int), p);
    let s = choose|s: Seq<i64>| strictly_increasing(s)
        && forall|x: i64| #[trigger] s.contains(x) <==> (winner_dates(v, v.len() as int).contains(x) && p(x));
    assert forall|x: i64| #[trigger] s.contains(x) <==> is_price_only_day(c, x as int) by {
        if is_quote_day(c, x as int) {
            let (k, j) = choose|k: int, j: int|
                0 <= k < nav_book(c).len()
                && last_index_of(nav_book(c), nav_book(c)[k].0) == Some(k)
                && 0 <= j < nav_book(c)[k].1.len()
                && (#[trigger] nav_book(c)[k].1[j]).0 == x as int;
            assert(v[k].1[j].0 == x);
        }
        if winner_dates(v, v.len() as int).contains(x) {
            let (k, j) = choose|k: int, j: int|
                0 <= k < v.len() && last_index_of(v, v[k].0) == Some(k) && 0 <= j < v[k].1.len()
                && (#[trigger] v[k].1[j]).0 == x;
            assert(nav_book(c)[k].1[j].0 == x as int);
        }
    }
    assert(strictly_increasing(s) && forall|x: i64| s.contains(x) <==> is_price_only_day(c, x as int));
}

/// Dated transactions appear in order of their timestamps.
pub open spec fn dated_in_order(txs: Seq<PTransaction>) -> bool {
    forall|i: int, j: int| 0 <= i < j < txs.len() && txs[i].date_seconds is Some && txs[j].date_seconds is Some
        ==> (#[trigger] txs[i]).date_seconds->0 <= (#[trigger] txs[j]).date_seconds->0
}

/// No day of `days` is the day of a dated transaction of `txs`.
pub open spec fn apart_from_tx_days(txs: Seq<PTransaction>, days: Seq<i64>) -> bool {
    forall|i: int, q: int| 0 <= i < txs.len() && 0 <= q < days.len() && txs[i].date_seconds is Some
        ==> (#[trigger] days[q]) as int != trunc_day((#[trigger] txs[i]).date_seconds->0 as int)
}

/// `lb` is at most the date of every dated transaction and every day.
pub open spec fn below_all(txs: Seq<PTransaction>, days: Seq<i64>, lb: int) -> bool {
    &&& forall|i: int| 0 <= i < txs.len() && (#[trigger] txs[i]).date_seconds is Some
        ==> lb <= (txs[i].date_seconds->0 as int) / 86400 + unix_epoch_day()
    &&& forall|q: int| 0 <= q < days.len() ==> lb <= (#[trigger] days[q]) + unix_epoch_day()
}

proof fn lemma_day_arith(x: int, y: int, d: int)
    ensures
        x <= y ==> x / 86400 <= y / 86400,
        x <= y ==> trunc_day(x) <= trunc_day(y),
        x / 86400 <= trunc_day(x) <= x / 86400 + 1,
        (d * 86400) / 86400 == d,
{
    assert(x <= y ==> x / 86400 <= y / 86400) by (nonlinear_arith);
    assert(x >= 0 ==> trunc_day(x) == x / 86400);
    assert(x < 0 ==> x / 86400 <= -((-x) / 86400) <= x / 86400 + 1) by (nonlinear_arith);
    assert(x <= y ==> trunc_day(x) <= trunc_day(y)) by (nonlinear_arith)
        requires
            x >= 0 ==> trunc_day(x) == x / 86400,
            x < 0 ==> trunc_day(x) == -((-x) / 86400),
            y >= 0 ==> trunc_day(y) == y / 86400,
            y < 0 ==> trunc_day(y) == -((-y) / 86400);
    assert((d * 86400) / 86400 == d) by (nonlinear_arith);
}

proof fn lemma_timeline_chronological(book: Seq<(Seq<char>, Seq<(i64, i64)>)>, txs: Seq<PTransaction>, days: Seq<i64>, st: LedgerView, lb: int)
    requires
        dated_in_order(txs),
        strictly_increasing(days),
        apart_from_tx_days(txs, days),
        below_all(txs, days, lb),
    ensures
        forall|i: int, j: int| 0 <= i < j < timeline(book, txs, days, st).len()
            ==> (#[trigger] timeline(book, txs, days, st)[i]).0 <= (#[trigger] timeline(book, txs, days, st)[j]).0,
        forall|i: int| 0 <= i < timeline(book, txs, days, st).len() ==> lb <= (#[trigger] timeline(book, txs, days, st)[i]).0,
    decreases txs.len() + days.len(),
{
    let r = timeline(book, txs, days, st);
    if txs.len() > 0 && txs[0].date_seconds is None {
        let t2 = txs.drop_first();
        assert forall|i: int| 0 <= i < t2.len() implies t2[i] == #[trigger] txs[i + 1] by {}
        lemma_timeline_chronological(book, t2, days, st, lb);
        assert(r == timeline(book, t2, days, st));
    } else if days.len() > 0 && (txs.len() == 0 || (days[0] as int) < trunc_day(txs[0].date_seconds->0 as int)) {
        let d2 = days.drop_first();
        let lb2 = days[0] + unix_epoch_day();
        assert forall|q: int| 0 <= q < d2.len() implies d2[q] == #[trigger] days[q + 1] by {}
        assert forall|i: int| 0 <= i < txs.len() && (#[trigger] txs[i]).date_seconds is Some
            implies lb2 <= (txs[i].date_seconds->0 as int) / 86400 + unix_epoch_day() by {
            let s0 = txs[0].date_seconds->0 as int;
            let si = txs[i].date_seconds->0 as int;
            if i > 0 {
                assert(s0 <= si);
            }
            lemma_day_arith(s0, si, 0);
            lemma_day_arith(si, si, 0);
        }
        lemma_timeline_chronological(book, txs, d2, st, lb2);
        let rest = timeline(book, txs, d2, st);
        let head = day_point(book, days[0] as int, st);
        lemma_day_arith(0, 0, days[0] as int);
        assert(r == head + rest);
        assert forall|i: int| 0 <= i < head.len() implies (#[trigger] head[i]).0 == lb2 by {}
        assert forall|i: int, j: int| 0 <= i < j < r.len() implies (#[trigger] r[i]).0 <= (#[trigger] r[j]).0 by {
            let hl = head.len() as int;
            if i >= hl {
                assert(r[i] == rest[i - hl]);
                assert(r[j] == rest[j - hl]);
            } else {
                assert(r[i] == head[i]);
                if j >= hl {
                    assert(r[j] == rest[j - hl]);
                } else {
                    assert(r[j] == head[j]);
                }
            }
        }
        assert forall|i: int| 0 <= i < r.len() implies lb <= (#[trigger] r[i]).0 by {
            let hl = head.len() as int;
            if i >= hl {
                assert(r[i] == rest[i - hl]);
            } else {
                assert(r[i] == head[i]);
            }
        }
    } else if txs.len() > 0 {
        let t = txs[0];
        let secs = t.date_seconds->0 as int;
        let next = apply_tx(st, t);
        let t2 = txs.drop_first();
        let lb2 = secs / 86400 + unix_epoch_day();
        assert forall|i: int| 0 <= i < t2.len() implies t2[i] == #[trigger] txs[i + 1] by {}
        assert forall|i: int| 0 <= i < t2.len() && (#[trigger] t2[i]).date_seconds is Some
            implies lb2 <= (t2[i].date_seconds->0 as int) / 86400 + unix_epoch_day() by {
            assert(t2[i] == txs[i + 1]);
            lemma_day_arith(secs, t2[i].date_seconds->0 as int, 0);
        }
        assert forall|q: int| 0 <= q < days.len() implies lb2 <= (#[trigger] days[q]) + unix_epoch_day() by {
            assert(days[q] as int != trunc_day(secs));
            assert(days[0] as int >= trunc_day(secs));
            if q > 0 {
                assert(days[0] < days[q]);
            }
            lemma_day_arith(secs, secs, 0);
        }
        lemma_timeline_chronological(book, t2, days, next, lb2);
        let rest = timeline(book, t2, days, next);
        let head = tx_point(book, t, next);
        assert(r == head + rest);
        assert forall|i: int| 0 <= i < head.len() implies (#[trigger] head[i]).0 == lb2 by {}
        assert forall|i: int, j: int| 0 <= i < j < r.len() implies (#[trigger] r[i]).0 <= (#[trigger] r[j]).0 by {
            let hl = head.len() as int;
            if i >= hl {
                assert(r[i] == rest[i - hl]);
                assert(r[j] == rest[j - hl]);
            } else {
                assert(r[i] == head[i]);
                if j >= hl {
                    assert(r[j] == rest[j - hl]);
                } else {
                    assert(r[j] == head[j]);
                }
            }
        }
        assert forall|i: int| 0 <= i < r.len() implies lb <= (#[trigger] r[i]).0 by {
            let hl = head.len() as int;
            if i >= hl {
                assert(r[i] == rest[i - hl]);
            } else {
                assert(r[i] == head[i]);
            }
        }
    }
}

/// The NAV timeline is chronological: the points' dates never decrease.
pub proof fn law_nav_chronological(c: PClient)
    requires
        c.transactions@.len() <= usize::MAX,
    ensures
        forall|i: int, j: int| 0 <= i < j < nav_series(c).len()
            ==> (#[trigger] nav_series(c)[i]).0 <= (#[trigger] nav_series(c)[j]).0,
{
    if c.transactions@.len() > 0 {
        let keys = tx_keys(c.transactions@);
        crate::order::lemma_stable_order_exists(keys);
        let ord = stable_order(keys);
        let sorted = sorted_txs(c);
        let days = price_only_days(c);
        lemma_price_only_days(c);
        assert forall|i: int, j: int| 0 <= i < j < sorted.len() && sorted[i].date_seconds is Some && sorted[j].date_seconds is Some
            implies (#[trigger] sorted[i]).date_seconds->0 <= (#[trigger] sorted[j]).date_seconds->0 by {
            assert(crate::order::before(keys, ord[i], ord[j]));
        }
        assert forall|i: int, q: int| 0 <= i < sorted.len() && 0 <= q < days.len() && sorted[i].date_seconds is Some
            implies (#[trigger] days[q]) as int != trunc_day((#[trigger] sorted[i]).date_seconds->0 as int) by {
            assert(days.contains(days[q]));
            assert(sorted[i] == c.transactions@[ord[i] as int]);
            assert(c.transactions@[ord[i] as int].date_seconds is Some);
        }
        let lb = -0x1_0000_0000_0000_0000int;
        assert forall|i: int| 0 <= i < sorted.len() && (#[trigger] sorted[i]).date_seconds is Some
            implies lb <= (sorted[i].date_seconds->0 as int) / 86400 + unix_epoch_day() by {
            let x = sorted[i].date_seconds->0 as int;
            assert(x / 86400 >= -0x1_0000_0000_0000_0000int) by (nonlinear_arith)
                requires x >= -0x8000_0000_0000_0000int;
        }
        lemma_timeline_chronological(nav_book(c), sorted, days, replay(Seq::empty()), lb);
    }
}

/// How many dated transactions of `txs` have a date chrono represents.
pub open spec fn dated_points(txs: Seq<PTransaction>) -> nat
    decreases txs.len(),
{
    if txs.len() == 0 {
        0
    } else {
        dated_points(txs.drop_first()) + match txs[0].date_seconds {
            Some(s) => if date_of_timestamp_spec(s as int) is Some { 1nat } else { 0nat },
            None => 0nat,
        }
    }
}

/// How many of `days` have a midnight chrono represents.
pub open spec fn day_points(days: Seq<i64>) -> nat
    decreases days.len(),
{
    if days.len() == 0 {
        0
    } else {
        day_points(days.drop_first()) + if date_of_timestamp_spec(days[0] * 86400) is Some { 1nat } else { 0nat }
    }
}

proof fn lemma_timeline_len(book: Seq<(Seq<char>, Seq<(i64, i64)>)>, txs: Seq<PTransaction>, days: Seq<i64>, st: LedgerView)
    ensures
        timeline(book, txs, days, st).len() == dated_points(txs) + day_points(days),
    decreases txs.len() + days.len(),
{
    if txs.len() > 0 && txs[0].date_seconds is None {
        lemma_timeline_len(book, txs.drop_first(), days, st);
    } else if days.len() > 0 && (txs.len() == 0 || (days[0] as int) < trunc_day(txs[0].date_seconds->0 as int)) {
        lemma_timeline_len(book, txs, days.drop_first(), st);
    } else if txs.len() > 0 {
        lemma_timeline_len(book, txs.drop_first(), days, apply_tx(st, txs[0]));
    }
}

/// The timeline has one point per dated transaction and one per price-only
/// day, each where chrono represents its date, and no others.
pub proof fn law_one_point_per_event(c: PClient)
    ensures
        c.transactions@.len() > 0 ==> nav_series(c).len() == dated_points(sorted_txs(c)) + day_points(price_only_days(c)),
{
    if c.transactions@.len() > 0 {
        lemma_timeline_len(nav_book(c), sorted_txs(c), price_only_days(c), replay(Seq::empty()));
    }
}

/// The point a transfer between the owner's own accounts or portfolios (or
/// a transaction of unknown type) adds to the timeline has the net asset
/// value of the state before it, valued on the same day.
pub proof fn law_internal_point_keeps_nav(book: Seq<(Seq<char>, Seq<(i64, i64)>)>, t: PTransaction, st: LedgerView)
    requires
        is_internal(t),
        t.date_seconds is Some,
        tx_point(book, t, apply_tx(st, t)).len() > 0,
    ensures
        nav_units(tx_point(book, t, apply_tx(st, t))[0].1)
            == nav_units(value_of(st, book, trunc_day(t.date_seconds->0 as int))),
{
    law_internal_keeps_nav(st, t, book, trunc_day(t.date_seconds->0 as int));
}

/// Where the next event of the timeline is a transfer between the owner's
/// own accounts or portfolios (or a transaction of unknown type), the point
/// the timeline emits for it has the net asset value of the state before
/// it, valued on the transaction's day; the rest of the timeline goes on
/// from the state after it.
pub proof fn law_timeline_internal_step(book: Seq<(Seq<char>, Seq<(i64, i64)>)>, txs: Seq<PTransaction>, days: Seq<i64>, st: LedgerView)
    requires
        txs.len() > 0,
        txs[0].date_seconds is Some,
        is_internal(txs[0]),
        days.len() == 0 || (days[0] as int) >= trunc_day(txs[0].date_seconds->0 as int),
        date_of_timestamp_spec(txs[0].date_seconds->0 as int) is Some,
    ensures
        timeline(book, txs, days, st).len() > 0,
        nav_units(timeline(book, txs, days, st)[0].1)
            == nav_units(value_of(st, book, trunc_day(txs[0].date_seconds->0 as int))),
        timeline(book, txs, days, st) == tx_point(book, txs[0], apply_tx(st, txs[0]))
            + timeline(book, txs.drop_first(), days, apply_tx(st, txs[0])),
{
    let t = txs[0];
    law_internal_point_keeps_nav(book, t, st);
}

/// No point of the NAV timeline comes before the UTC day of the first
/// transaction (where the first transaction in date order is dated): in
/// particular a quote day earlier than that day never gets a point.
pub proof fn law_nav_starts_at_first_transaction(c: PClient)
    requires
        c.transactions@.len() <= usize::MAX,
        c.transactions@.len() > 0,
        sorted_txs(c)[0].date_seconds is Some,
    ensures
        forall|i: int| 0 <= i < nav_series(c).len() ==>
            (#[trigger] nav_series(c)[i]).0 >= (sorted_txs(c)[0].date_seconds->0 as int) / 86400 + unix_epoch_day(),
{
    let keys = tx_keys(c.transactions@);
    crate::order::lemma_stable_order_exists(keys);
    let ord = stable_order(keys);
    let sorted = sorted_txs(c);
    let days = price_only_days(c);
    lemma_price_only_days(c);
    let s0 = sorted[0].date_seconds->0 as int;
    assert forall|i: int, j: int| 0 <= i < j < sorted.len() && sorted[i].date_seconds is Some && sorted[j].date_seconds is Some
        implies (#[trigger] sorted[i]).date_seconds->0 <= (#[trigger] sorted[j]).date_seconds->0 by {
        assert(crate::order::before(keys, ord[i], ord[j]));
    }
    assert forall|i: int, q: int| 0 <= i < sorted.len() && 0 <= q < days.len() && sorted[i].date_seconds is Some
        implies (#[trigger] days[q]) as int != trunc_day((#[trigger] sorted[i]).date_seconds->0 as int) by {
        assert(days.contains(days[q]));
        assert(sorted[i] == c.transactions@[ord[i] as int]);
        assert(c.transactions@[ord[i] as int].date_seconds is Some);
    }
    let lb = s0 / 86400 + unix_epoch_day();
    assert forall|i: int| 0 <= i < sorted.len() && (#[trigger] sorted[i]).date_seconds is Some
        implies lb <= (sorted[i].date_seconds->0 as int) / 86400 + unix_epoch_day() by {
        if i > 0 {
            assert(sorted[0].date_seconds->0 <= sorted[i].date_seconds->0);
        }
        lemma_day_arith(s0, sorted[i].date_seconds->0 as int, 0);
    }
    assert forall|q: int| 0 <= q < days.len() implies lb <= (#[trigger] days[q]) + unix_epoch_day() by {
        assert(days.contains(days[q]));
        assert(is_price_only_day(c, days[q] as int));
        assert(first_day(c) == trunc_day(s0));
        lemma_day_arith(s0, s0, 0);
    }
    lemma_timeline_chronological(nav_book(c), sorted, days, replay(Seq::empty()), lb);
}

} // verus!
