//! The exact inputs of the time-weighted rate of return: the portfolio's
//! value right before and right after every external cash flow, and at the
//! end of the horizon. The rate itself is computed from these in floating
//! point by the application.

use vstd::prelude::*;
use crate::ledger::{apply_tx, replay, value_of, Ledger, LedgerView, Valuation};
use crate::model::{epoch_day_of, trunc_day, tx_key, tx_keys, PClient, PTransaction};
use crate::order::{is_stable_order, stable_sort_order};
use crate::prices::{book_view, last_index_of, tables_dated, PriceBook};
use super::balance::{sorted_txs, tx_key_list};

verus! {

/// The price book of the rate: every security listed, with or without quotes.
pub open spec fn twr_book(c: PClient) -> Seq<(Seq<char>, Seq<(i64, i64)>)> {
    book_view(c.securities@, true)
}

/// Deposits, removals and deliveries in or out bring value from outside.
pub open spec fn is_external_flow(t: PTransaction) -> bool {
    t.tx_type == 2 || t.tx_type == 3 || t.tx_type == 6 || t.tx_type == 7
}

/// A value as values.
pub type ValueView = (int, Seq<(int, int)>);

/// For each dated external flow among `txs`, replayed from `st`: the value
/// before it and after it, on its day. Undated transactions are skipped.
pub open spec fn flows(book: Seq<(Seq<char>, Seq<(i64, i64)>)>, txs: Seq<PTransaction>, st: LedgerView) -> Seq<(ValueView, ValueView)>
    decreases txs.len(),
{
    if txs.len() == 0 {
        Seq::empty()
    } else if txs[0].date_seconds is None {
        flows(book, txs.drop_first(), st)
    } else {
        let e = trunc_day(txs[0].date_seconds->0 as int);
        let next = apply_tx(st, txs[0]);
        let here = if is_external_flow(txs[0]) {
            seq![(value_of(st, book, e), value_of(next, book, e))]
        } else {
            Seq::empty()
        };
        here + flows(book, txs.drop_first(), next)
    }
}

/// The state after the dated transactions among `txs`, replayed from `st`.
pub open spec fn run_dated(txs: Seq<PTransaction>, st: LedgerView) -> LedgerView
    decreases txs.len(),
{
    if txs.len() == 0 {
        st
    } else if txs[0].date_seconds is None {
        run_dated(txs.drop_first(), st)
    } else {
        run_dated(txs.drop_first(), apply_tx(st, txs[0]))
    }
}

/// The latest quote day among the book's first `n` entries (only entries the
/// book holds for their UUID, and only those with quotes).
pub open spec fn latest_quote_day(v: Seq<(Seq<char>, Seq<(i64, i64)>)>, n: int) -> Option<int>
    decreases n,
{
    if n <= 0 || n > v.len() {
        None
    } else {
        let rest = latest_quote_day(v, n - 1);
        let k = n - 1;
        if last_index_of(v, v[k].0) == Some(k) && v[k].1.len() > 0 {
            let d = v[k].1.last().0 as int;
            match rest {
                Some(r) => Some(if r >= d { r } else { d }),
                None => Some(d),
            }
        } else {
            rest
        }
    }
}

/// The end of the horizon: the last transaction's timestamp, or midnight of
/// the latest quote day where that is later (where there are no quotes, the
/// last transaction's day counts).
pub open spec fn horizon_end(c: PClient) -> int {
    let s = sorted_txs(c);
    let last = tx_key(s.last()) as int;
    let lpd = match latest_quote_day(twr_book(c), twr_book(c).len() as int) {
        Some(d) => d,
        None => trunc_day(last),
    };
    if last >= lpd * 86400 { last } else { lpd * 86400 }
}

/// The latest quote day's midnight fits an `i64` timestamp.
pub open spec fn horizon_fits(c: PClient) -> bool {
    match latest_quote_day(twr_book(c), twr_book(c).len() as int) {
        Some(d) => i64::MIN <= d * 86400 <= i64::MAX,
        None => true,
    }
}

/// What the rate of return is computed from.
pub struct TwrTrace {
    /// Timestamp of the first sorted transaction (0 where it is undated).
    pub first_secs: i64,
    /// End of the horizon, see [`horizon_end`].
    pub end_secs: i64,
    /// Value before and after each external flow, in order.
    pub flows: Vec<(Valuation, Valuation)>,
    /// Value of the final holdings on the horizon's last day.
    pub closing: Valuation,
}

impl TwrTrace {
    pub open spec fn flows_view(&self) -> Seq<(ValueView, ValueView)> {
        self.flows@.map_values(|f: (Valuation, Valuation)| (f.0.view(), f.1.view()))
    }
}

/// The trace of a client with at least two transactions: horizon, flows and
/// closing value. Where there are fewer, the rate falls back to a default
/// and there is no trace.
pub open spec fn twr_trace_spec(c: PClient) -> Option<(int, int, Seq<(ValueView, ValueView)>, ValueView)> {
    if c.transactions@.len() < 2 {
        None
    } else {
        let s = sorted_txs(c);
        let end = horizon_end(c);
        Some((
            tx_key(s[0]) as int,
            end,
            flows(twr_book(c), s, replay(Seq::empty())),
            value_of(run_dated(s, replay(Seq::empty())), twr_book(c), trunc_day(end)),
        ))
    }
}

/// Does the horizon's end fit an `i64` timestamp?
pub fn horizon_fits_exec(client: &PClient) -> (b: bool)
    ensures
        b == horizon_fits(*client),
{
    let book = PriceBook::build(&client.securities, true);
    match latest_day(&book) {
        Some(d) => -106_751_991_167_300 <= d && d <= 106_751_991_167_300,
        None => true,
    }
}

fn latest_day(book: &PriceBook) -> (r: Option<i64>)
    ensures
        match (r, latest_quote_day(book.view(), book.view().len() as int)) {
            (Some(a), Some(b)) => a as int == b,
            (None, None) => true,
            _ => false,
        },
{
    let mut best: Option<i64> = None;
    let mut k: usize = 0;
    while k < book.entries.len()
        invariant
            k <= book.entries.len(),
            match (best, latest_quote_day(book.view(), k as int)) {
                (Some(a), Some(b)) => a as int == b,
                (None, None) => true,
                _ => false,
            },
        decreases book.entries.len() - k,
    {
        if book.is_winner(k) && book.entries[k].table.len() > 0 {
            let t = &book.entries[k].table;
            let d = t[t.len() - 1].0;
            assert(book.view()[k as int].1 == t@);
            best = match best {
                Some(r) => Some(if r >= d { r } else { d }),
                None => Some(d),
            };
        }
        k = k + 1;
    }
    best
}

/// Replay the transactions in date order and record the portfolio's value
/// before and after each external flow (deposit, removal, delivery in or
/// out), valued on the flow's day with the historical prices, and the final
/// holdings' value at the end of the horizon. `None` with fewer than two
/// transactions.
pub fn twr_trace(client: &PClient) -> (r: Option<TwrTrace>)
    requires
        horizon_fits(*client),
    ensures
        match (r, twr_trace_spec(*client)) {
            (Some(t), Some((first, end, fl, closing))) => t.first_secs as int == first
                && t.end_secs as int == end && t.flows_view() == fl && t.closing.view() == closing,
            (None, None) => true,
            _ => false,
        },
{
    let txs = &client.transactions;
    if txs.len() < 2 {
        return None;
    }
    let keys = tx_key_list(txs);
    let ord = stable_sort_order(&keys);
    let book = PriceBook::build(&client.securities, true);
    let ghost sorted = sorted_txs(*client);
    let ghost bv = book.view();
    let first: i64 = keys[ord[0]];
    let last: i64 = keys[ord[ord.len() - 1]];
    assert(sorted[0] == txs@[ord@[0] as int]);
    assert(sorted.last() == txs@[ord@[ord.len() - 1] as int]);
    let lpd: i64 = match latest_day(&book) {
        Some(d) => d,
        None => epoch_day_of(last),
    };
    proof {
        if latest_quote_day(bv, bv.len() as int) is None {
            assert(-106_751_991_167_301 < lpd < 106_751_991_167_301) by (nonlinear_arith)
                requires lpd as int == trunc_day(last as int), i64::MIN <= last <= i64::MAX;
        }
    }
    let midnight: i64 = lpd * 86400;
    let end: i64 = if last >= midnight { last } else { midnight };
    let ghost total = flows(bv, sorted, replay(Seq::empty()));
    let ghost fin = run_dated(sorted, replay(Seq::empty()));
    let mut ledger = Ledger::new();
    let mut fl: Vec<(Valuation, Valuation)> = Vec::new();
    proof {
        assert(sorted.skip(0) =~= sorted);
    }
    let mut i: usize = 0;
    while i < ord.len()
        invariant
            i <= ord.len(),
            ord.len() == txs.len(),
            is_stable_order(tx_keys(txs@), ord@),
            sorted == ord@.map_values(|x: usize| txs@[x as int]),
            bv == book.view(),
            tables_dated(bv),
            ledger.bounded(),
            ledger.applied <= i,
            fl@.map_values(|f: (Valuation, Valuation)| (f.0.view(), f.1.view()))
                + flows(bv, sorted.skip(i as int), ledger.view()) == total,
            run_dated(sorted.skip(i as int), ledger.view()) == fin,
        decreases ord.len() - i,
    {
        let t = &txs[ord[i]];
        assert(sorted.skip(i as int)[0] == *t);
        assert(sorted.skip(i as int).drop_first() =~= sorted.skip(i + 1));
        let ghost fv = fl@.map_values(|f: (Valuation, Valuation)| (f.0.view(), f.1.view()));
        match t.date_seconds {
            None => {},
            Some(secs) => {
                let e = epoch_day_of(secs);
                let ext = t.tx_type == 2 || t.tx_type == 3 || t.tx_type == 6 || t.tx_type == 7;
                let ghost st = ledger.view();
                if ext {
                    let before = ledger.valuation(&book, e);
                    ledger.apply(t);
                    let after = ledger.valuation(&book, e);
                    fl.push((before, after));
                    let ghost here = seq![(value_of(st, bv, e as int), value_of(ledger.view(), bv, e as int))];
                    assert(fl@.map_values(|f: (Valuation, Valuation)| (f.0.view(), f.1.view())) =~= fv + here);
                    assert(fv + (here + flows(bv, sorted.skip(i + 1), ledger.view()))
                        =~= (fv + here) + flows(bv, sorted.skip(i + 1), ledger.view()));
                } else {
                    ledger.apply(t);
                    assert(Seq::<(ValueView, ValueView)>::empty() + flows(bv, sorted.skip(i + 1), ledger.view())
                        =~= flows(bv, sorted.skip(i + 1), ledger.view()));
                }
            },
        }
        i = i + 1;
    }
    proof {
        assert(fl@.map_values(|f: (Valuation, Valuation)| (f.0.view(), f.1.view())) + Seq::<(ValueView, ValueView)>::empty()
            =~= fl@.map_values(|f: (Valuation, Valuation)| (f.0.view(), f.1.view())));
    }
    let closing = ledger.valuation(&book, epoch_day_of(end));
    Some(TwrTrace { first_secs: first, end_secs: end, flows: fl, closing })
}

/// How many dated external flows `txs` holds.
pub open spec fn count_external(txs: Seq<PTransaction>) -> nat
    decreases txs.len(),
{
    if txs.len() == 0 {
        0
    } else {
        count_external(txs.drop_first()) + if txs[0].date_seconds is Some && is_external_flow(txs[0]) { 1nat } else { 0nat }
    }
}

proof fn lemma_flows_count(book: Seq<(Seq<char>, Seq<(i64, i64)>)>, txs: Seq<PTransaction>, st: LedgerView)
    ensures
        flows(book, txs, st).len() == count_external(txs),
    decreases txs.len(),
{
    if txs.len() > 0 {
        if txs[0].date_seconds is None {
            lemma_flows_count(book, txs.drop_first(), st);
        } else {
            lemma_flows_count(book, txs.drop_first(), apply_tx(st, txs[0]));
        }
    }
}

/// The return is chained over sub-periods that break exactly at external
/// flows: the trace holds one before/after pair per dated deposit, removal,
/// inbound or outbound delivery, and none for any other transaction.
pub proof fn law_one_break_per_external_flow(c: PClient)
    ensures
        twr_trace_spec(c) matches Some((_, _, fl, _)) ==> fl.len() == count_external(sorted_txs(c)),
{
    lemma_flows_count(twr_book(c), sorted_txs(c), replay(Seq::empty()));
}

/// The sub-periods break at exactly the external flows: one more dated
/// deposit, removal, or inbound or outbound delivery adds one pair, the
/// value before it and after it on its day, and any other transaction adds
/// none. A removal from an account leaves the value after it with exactly
/// its amount less cash.
pub proof fn law_flows_step(book: Seq<(Seq<char>, Seq<(i64, i64)>)>, txs: Seq<PTransaction>, t: PTransaction, st: LedgerView)
    ensures
        ({
            let before = run_dated(txs, st);
            let fl = flows(book, txs.push(t), st);
            if t.date_seconds is Some && (t.tx_type == 2 || t.tx_type == 3 || t.tx_type == 6 || t.tx_type == 7) {
                let e = trunc_day(t.date_seconds->0 as int);
                &&& fl == flows(book, txs, st).push((value_of(before, book, e), value_of(apply_tx(before, t), book, e)))
                &&& (t.tx_type == 7 && t.account is Some ==> fl.last().1.0 == fl.last().0.0 - t.amount)
            } else {
                fl == flows(book, txs, st)
            }
        }),
    decreases txs.len(),
{
    if txs.len() == 0 {
        assert(txs.push(t) =~= seq![t]);
        assert(seq![t].drop_first() =~= Seq::<PTransaction>::empty());
        assert(seq![t][0] == t);
        assert(flows(book, Seq::<PTransaction>::empty(), st) == Seq::<(ValueView, ValueView)>::empty());
        assert(flows(book, Seq::<PTransaction>::empty(), apply_tx(st, t)) == Seq::<(ValueView, ValueView)>::empty());
        assert(run_dated(txs, st) == st);
        let fl = flows(book, seq![t], st);
        if t.date_seconds is Some && is_external_flow(t) {
            let e = trunc_day(t.date_seconds->0 as int);
            let pair = (value_of(st, book, e), value_of(apply_tx(st, t), book, e));
            assert(fl == seq![pair] + Seq::<(ValueView, ValueView)>::empty());
            assert(fl =~= Seq::<(ValueView, ValueView)>::empty().push(pair));
        }
    } else {
        let u = txs[0];
        assert(txs.push(t)[0] == u);
        assert(txs.push(t).drop_first() =~= txs.drop_first().push(t));
        let next = if u.date_seconds is None { st } else { apply_tx(st, u) };
        law_flows_step(book, txs.drop_first(), t, next);
        let here: Seq<(ValueView, ValueView)> = if u.date_seconds is Some && is_external_flow(u) {
            let e = trunc_day(u.date_seconds->0 as int);
            seq![(value_of(st, book, e), value_of(apply_tx(st, u), book, e))]
        } else {
            Seq::empty()
        };
        let rest = flows(book, txs.drop_first(), next);
        if u.date_seconds is None {
            assert(flows(book, txs, st) == rest);
            assert(run_dated(txs, st) == run_dated(txs.drop_first(), next));
        } else {
            assert(flows(book, txs, st) == here + rest);
            if t.date_seconds is Some && (t.tx_type == 2 || t.tx_type == 3 || t.tx_type == 6 || t.tx_type == 7) {
                let e = trunc_day(t.date_seconds->0 as int);
                let before = run_dated(txs, st);
                let pair = (value_of(before, book, e), value_of(apply_tx(before, t), book, e));
                assert(here + rest.push(pair) =~= (here + rest).push(pair));
                assert(run_dated(txs, st) == run_dated(txs.drop_first(), next));
            }
        }
    }
}

} // verus!
