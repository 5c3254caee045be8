//! Replaying transactions: cash across all accounts and shares per security,
//! and what the holdings are worth on a day.

use vstd::prelude::*;
use crate::model::PTransaction;
use crate::prices::{lookup_price, price_at, table_for, tables_dated, PriceBook};

verus! {

/// The replayed state: total cash in cents, and shares (scaled by 10^8) per
/// security UUID, securities in the order they were first moved.
pub struct LedgerView {
    pub cash: int,
    pub positions: Seq<(Seq<char>, int)>,
}

/// 2^63: no single transaction moves more cash or shares than this.
pub open spec fn step_bound() -> int {
    0x8000_0000_0000_0000
}

/// The shares of a transaction, 0 where it records none.
pub open spec fn shares_of(t: PTransaction) -> int {
    match t.shares {
        Some(s) => s as int,
        None => 0,
    }
}

/// `+amount` where the transaction names an account, else nothing.
pub open spec fn on_account(t: PTransaction, sign: int) -> int {
    if t.account is Some { sign * t.amount } else { 0 }
}

/// What a transaction does to total cash, by type: deposits, interest,
/// dividends and refunds credit the account; removals, interest charges,
/// taxes and fees debit it; a purchase debits and a sale credits it; a cash
/// transfer debits the account and credits the other account.
pub open spec fn cash_delta(t: PTransaction) -> int {
    let k = t.tx_type;
    if k == 6 || k == 9 || k == 8 || k == 12 || k == 14 || k == 1 {
        on_account(t, 1)
    } else if k == 7 || k == 10 || k == 11 || k == 13 || k == 0 {
        on_account(t, -1)
    } else if k == 5 {
        on_account(t, -1) + if t.other_account is Some { t.amount as int } else { 0 }
    } else {
        0
    }
}

/// A move of `sign * shares` of the transaction's security, where the
/// transaction names both it and the portfolio (`other`: the other portfolio).
pub open spec fn share_move(t: PTransaction, other: bool, sign: int) -> Seq<(Seq<char>, int)> {
    let port = if other { t.other_portfolio } else { t.portfolio };
    match (port, t.security) {
        (Some(_), Some(sec)) => seq![(sec@, sign * shares_of(t))],
        _ => Seq::empty(),
    }
}

/// What a transaction does to share counts, in order: purchases and inbound
/// deliveries add shares, sales and outbound deliveries remove them, a
/// security transfer removes them from the portfolio and adds them to the
/// other portfolio.
pub open spec fn share_moves(t: PTransaction) -> Seq<(Seq<char>, int)> {
    let k = t.tx_type;
    if k == 0 || k == 2 {
        share_move(t, false, 1)
    } else if k == 1 || k == 3 {
        share_move(t, false, -1)
    } else if k == 4 {
        share_move(t, false, -1) + share_move(t, true, 1)
    } else {
        Seq::empty()
    }
}

/// Index of the position in security `u`.
pub open spec fn position_index(pos: Seq<(Seq<char>, int)>, u: Seq<char>) -> Option<int>
    decreases pos.len(),
{
    if pos.len() == 0 {
        None
    } else if pos.last().0 == u {
        Some(pos.len() - 1)
    } else {
        position_index(pos.drop_last(), u)
    }
}

/// Add `d` shares of `u`, opening a position where there is none.
pub open spec fn move_shares(pos: Seq<(Seq<char>, int)>, u: Seq<char>, d: int) -> Seq<(Seq<char>, int)> {
    match position_index(pos, u) {
        Some(i) => pos.update(i, (u, pos[i].1 + d)),
        None => pos.push((u, d)),
    }
}

/// Apply a list of share moves in order.
pub open spec fn apply_moves(pos: Seq<(Seq<char>, int)>, moves: Seq<(Seq<char>, int)>) -> Seq<(Seq<char>, int)>
    decreases moves.len(),
{
    if moves.len() == 0 {
        pos
    } else {
        apply_moves(move_shares(pos, moves[0].0, moves[0].1), moves.drop_first())
    }
}

/// The state after one more transaction.
pub open spec fn apply_tx(s: LedgerView, t: PTransaction) -> LedgerView {
    LedgerView { cash: s.cash + cash_delta(t), positions: apply_moves(s.positions, share_moves(t)) }
}

/// The state after replaying `txs` in order from nothing.
pub open spec fn replay(txs: Seq<PTransaction>) -> LedgerView
    decreases txs.len(),
{
    if txs.len() == 0 {
        LedgerView { cash: 0, positions: Seq::empty() }
    } else {
        apply_tx(replay(txs.drop_last()), txs.last())
    }
}

/// The holdings that have a price on `day`, as `(shares, close)`, in the
/// order of the positions.
pub open spec fn priced_holdings(pos: Seq<(Seq<char>, int)>, book: Seq<(Seq<char>, Seq<(i64, i64)>)>, day: int) -> Seq<(int, int)>
    decreases pos.len(),
{
    if pos.len() == 0 {
        Seq::empty()
    } else {
        let rest = priced_holdings(pos.drop_last(), book, day);
        match table_for(book, pos.last().0) {
            Some(t) => if t.len() > 0 {
                rest.push((pos.last().1, price_at(t, day) as int))
            } else {
                rest
            },
            None => rest,
        }
    }
}

/// A position: shares of one security, scaled by 10^8.
pub struct Position {
    pub security: String,
    pub shares: i128,
}

/// What the holdings are worth on a day: cash in cents, and for each position
/// with a price, its shares and the close price (both scaled by 10^8). The
/// net asset value is `cash / 100 + Σ shares / 10^8 × close / 10^8`.
pub struct Valuation {
    pub cash_cents: i128,
    pub holdings: Vec<(i128, i64)>,
}

impl Valuation {
    pub open spec fn view(&self) -> (int, Seq<(int, int)>) {
        (self.cash_cents as int, self.holdings@.map_values(|h: (i128, i64)| (h.0 as int, h.1 as int)))
    }
}

/// The value of a state on `day`, as values.
pub open spec fn value_of(s: LedgerView, book: Seq<(Seq<char>, Seq<(i64, i64)>)>, day: int) -> (int, Seq<(int, int)>) {
    (s.cash, priced_holdings(s.positions, book, day))
}

/// The running cash and positions of a replay.
pub struct Ledger {
    pub cash: i128,
    pub positions: Vec<Position>,
    /// How many transactions have been applied.
    pub applied: usize,
}

impl Ledger {
    pub open spec fn view(&self) -> LedgerView {
        LedgerView {
            cash: self.cash as int,
            positions: self.positions@.map_values(|p: Position| (p.security@, p.shares as int)),
        }
    }

    /// Cash and every position lie within `m` moves of at most 2^63 each.
    pub open spec fn bounded_by(&self, m: int) -> bool {
        &&& -m * step_bound() <= self.cash <= m * step_bound()
        &&& self.positions_bounded_by(m)
    }

    /// Every position lies within `m` moves of at most 2^63 each.
    pub open spec fn positions_bounded_by(&self, m: int) -> bool {
        forall|i: int| 0 <= i < self.positions@.len() ==>
            -m * step_bound() <= #[trigger] self.positions@[i].shares <= m * step_bound()
    }

    /// Every amount in the ledger is a sum of at most `applied` moves.
    pub open spec fn bounded(&self) -> bool {
        self.bounded_by(self.applied as int)
    }

    /// A ledger with nothing applied.
    pub fn new() -> (l: Ledger)
        ensures
            l.view() == replay(Seq::<PTransaction>::empty()),
            l.applied == 0,
            l.bounded(),
    {
        let l = Ledger { cash: 0, positions: Vec::new(), applied: 0 };
        assert(l.view().positions =~= Seq::<(Seq<char>, int)>::empty());
        l
    }

    fn move_shares_exec(&mut self, u: &String, d: i128, m: Ghost<int>)
        requires
            old(self).positions_bounded_by(m@),
            0 <= m@,
            m@ + 1 <= usize::MAX,
            -step_bound() <= d <= step_bound(),
        ensures
            final(self).view().positions == move_shares(old(self).view().positions, u@, d as int),
            final(self).cash == old(self).cash,
            final(self).applied == old(self).applied,
            final(self).positions_bounded_by(m@ + 1),
    {
        let ghost pos = self.view().positions;
        let mut k: usize = self.positions.len();
        proof {
            assert(pos.take(k as int) =~= pos);
        }
        while k > 0
            invariant
                k <= self.positions.len(),
                self.view().positions == pos,
                self.cash == old(self).cash,
                self.applied == old(self).applied,
                pos == old(self).view().positions,
                self.positions_bounded_by(m@),
                0 <= m@,
                m@ + 1 <= usize::MAX,
                -step_bound() <= d <= step_bound(),
                position_index(pos, u@) == position_index(pos.take(k as int), u@),
            decreases k,
        {
            assert(pos.take(k as int).last() == (self.positions@[k - 1].security@, self.positions@[k - 1].shares as int));
            if self.positions[k - 1].security == *u {
                let cur = self.positions[k - 1].shares;
                let ghost before = self.positions@;
                self.positions.set(k - 1, Position { security: u.clone(), shares: cur + d });
                assert(position_index(pos.take(k as int), u@) == Some(k - 1));
                assert(self.view().positions =~= pos.update(k - 1, (u@, pos[k - 1].1 + d)));
                assert forall|i: int| 0 <= i < self.positions@.len() implies
                    -(m@ + 1) * step_bound() <= #[trigger] self.positions@[i].shares <= (m@ + 1) * step_bound() by {
                    if i != k - 1 {
                        assert(self.positions@[i] == before[i]);
                    }
                }
                return;
            }
            assert(pos.take(k as int).drop_last() =~= pos.take(k - 1));
            k = k - 1;
        }
        self.positions.push(Position { security: u.clone(), shares: d });
        assert(self.view().positions =~= pos.push((u@, d as int)));
    }
}

proof fn lemma_position_index_keys(p1: Seq<(Seq<char>, int)>, p2: Seq<(Seq<char>, int)>, u: Seq<char>)
    requires
        p1.len() == p2.len(),
        forall|i: int| 0 <= i < p1.len() ==> (#[trigger] p1[i]).0 == p2[i].0,
    ensures
        position_index(p1, u) == position_index(p2, u),
    decreases p1.len(),
{
    if p1.len() > 0 {
        assert(p1.last().0 == p2.last().0);
        assert forall|i: int| 0 <= i < p1.len() - 1 implies (#[trigger] p1.drop_last()[i]).0 == p2.drop_last()[i].0 by {
            assert(p1.drop_last()[i] == p1[i]);
            assert(p2.drop_last()[i] == p2[i]);
        }
        lemma_position_index_keys(p1.drop_last(), p2.drop_last(), u);
    }
}

proof fn lemma_position_index_found(pos: Seq<(Seq<char>, int)>, u: Seq<char>)
    ensures
        position_index(pos, u) matches Some(i) ==> 0 <= i < pos.len() && pos[i].0 == u,
        position_index(pos.push((u, 0)), u) == Some(pos.len() as int),
    decreases pos.len(),
{
    if pos.len() > 0 {
        lemma_position_index_found(pos.drop_last(), u);
    }
    assert(pos.push((u, 0)).last().0 == u);
}

/// Moving shares of `u` out of one portfolio and into another leaves the
/// share totals as a move of nothing does.
proof fn lemma_transfer_nets_out(pos: Seq<(Seq<char>, int)>, u: Seq<char>, s: int)
    ensures
        apply_moves(pos, seq![(u, -1 * s)] + seq![(u, 1 * s)]) == move_shares(pos, u, 0),
{
    let moves = seq![(u, -1 * s)] + seq![(u, 1 * s)];
    let p1 = move_shares(pos, u, -s);
    assert(moves[0] == (u, -1 * s));
    assert(moves.drop_first() =~= seq![(u, 1 * s)]);
    assert(seq![(u, 1 * s)].drop_first() =~= Seq::<(Seq<char>, int)>::empty());
    lemma_single_move(p1, (u, 1 * s));
    lemma_position_index_found(pos, u);
    match position_index(pos, u) {
        Some(i) => {
            lemma_position_index_keys(p1, pos, u);
            assert(p1[i].1 + s == pos[i].1);
            assert(move_shares(p1, u, s) =~= move_shares(pos, u, 0));
        },
        None => {
            lemma_position_index_keys(p1, pos.push((u, 0)), u);
            assert(move_shares(p1, u, s) =~= move_shares(pos, u, 0));
        },
    }
}

proof fn lemma_single_move(pos: Seq<(Seq<char>, int)>, m: (Seq<char>, int))
    ensures
        apply_moves(pos, seq![m]) == move_shares(pos, m.0, m.1),
{
    reveal_with_fuel(apply_moves, 2);
    assert(seq![m][0] == m);
    assert(seq![m].drop_first() =~= Seq::<(Seq<char>, int)>::empty());
}

impl Ledger {
    /// Apply one transaction (see [`cash_delta`] and [`share_moves`]).
    pub fn apply(&mut self, t: &PTransaction)
        requires
            old(self).bounded(),
            old(self).applied < usize::MAX,
        ensures
            final(self).view() == apply_tx(old(self).view(), *t),
            final(self).applied == old(self).applied + 1,
            final(self).bounded(),
    {
        let ghost m = self.applied as int;
        let k = t.tx_type;
        let a = t.amount as i128;
        let acc = t.account.is_some();
        let delta: i128 = if k == 6 || k == 9 || k == 8 || k == 12 || k == 14 || k == 1 {
            if acc { a } else { 0 }
        } else if k == 7 || k == 10 || k == 11 || k == 13 || k == 0 {
            if acc { -a } else { 0 }
        } else if k == 5 {
            let out: i128 = if acc { -a } else { 0 };
            let inn: i128 = if t.other_account.is_some() { a } else { 0 };
            out + inn
        } else {
            0
        };
        assert(delta == cash_delta(*t));
        self.cash = self.cash + delta;
        let sh: i128 = match t.shares {
            Some(s) => s as i128,
            None => 0,
        };
        let ghost pos = self.view().positions;
        match &t.security {
            Some(sec) => {
                let here = t.portfolio.is_some();
                let there = t.other_portfolio.is_some();
                if k == 0 || k == 2 {
                    if here {
                        self.move_shares_exec(sec, sh, Ghost(m));
                        proof {
                            lemma_single_move(pos, (sec@, 1 * shares_of(*t)));
                            assert(share_moves(*t) =~= seq![(sec@, 1 * shares_of(*t))]);
                        }
                    }
                } else if k == 1 || k == 3 {
                    if here {
                        self.move_shares_exec(sec, -sh, Ghost(m));
                        proof {
                            lemma_single_move(pos, (sec@, -1 * shares_of(*t)));
                            assert(share_moves(*t) =~= seq![(sec@, -1 * shares_of(*t))]);
                        }
                    }
                } else if k == 4 {
                    if here && there {
                        self.move_shares_exec(sec, 0, Ghost(m));
                        proof {
                            lemma_transfer_nets_out(pos, sec@, shares_of(*t));
                            assert(share_moves(*t) =~= seq![(sec@, -1 * shares_of(*t))] + seq![(sec@, 1 * shares_of(*t))]);
                        }
                    } else if here {
                        self.move_shares_exec(sec, -sh, Ghost(m));
                        proof {
                            lemma_single_move(pos, (sec@, -1 * shares_of(*t)));
                            assert(share_moves(*t) =~= seq![(sec@, -1 * shares_of(*t))]);
                        }
                    } else if there {
                        self.move_shares_exec(sec, sh, Ghost(m));
                        proof {
                            lemma_single_move(pos, (sec@, 1 * shares_of(*t)));
                            assert(share_moves(*t) =~= seq![(sec@, 1 * shares_of(*t))]);
                        }
                    }
                }
            },
            None => {},
        }
        self.applied = self.applied + 1;
        proof {
            if share_moves(*t).len() == 0 {
                assert(apply_moves(pos, share_moves(*t)) == pos);
                assert(self.view().positions == pos);
            }
            assert(self.view().cash == old(self).view().cash + cash_delta(*t));
        }
    }
}

impl Ledger {
    /// What the ledger's holdings are worth on `day` by the book's prices.
    pub fn valuation(&self, book: &PriceBook, day: i64) -> (v: Valuation)
        requires
            tables_dated(book.view()),
        ensures
            v.view() == value_of(self.view(), book.view(), day as int),
    {
        let ghost pos = self.view().positions;
        let mut holdings: Vec<(i128, i64)> = Vec::new();
        let mut i: usize = 0;
        while i < self.positions.len()
            invariant
                i <= self.positions.len(),
                pos == self.view().positions,
                tables_dated(book.view()),
                holdings@.map_values(|h: (i128, i64)| (h.0 as int, h.1 as int))
                    == priced_holdings(pos.take(i as int), book.view(), day as int),
            decreases self.positions.len() - i,
        {
            let ghost before = holdings@;
            let p = &self.positions[i];
            assert(pos.take(i + 1).drop_last() =~= pos.take(i as int));
            assert(pos.take(i + 1).last() == (p.security@, p.shares as int));
            match book.find(&p.security) {
                Some(j) => {
                    let t = &book.entries[j].table;
                    assert(book.view()[j as int].1 == t@);
                    if let Some(c) = lookup_price(t, day) {
                        holdings.push((p.shares, c));
                        assert(holdings@.map_values(|h: (i128, i64)| (h.0 as int, h.1 as int)) =~= before.map_values(|h: (i128, i64)| (h.0 as int, h.1 as int)).push((p.shares as int, c as int)));
                    }
                },
                None => {},
            }
            i = i + 1;
        }
        assert(pos.take(i as int) =~= pos);
        Valuation { cash_cents: self.cash, holdings }
    }
}

/// The shares of security `u` in a list of positions (0 without a position).
pub open spec fn holding(pos: Seq<(Seq<char>, int)>, u: Seq<char>) -> int {
    match position_index(pos, u) {
        Some(i) => pos[i].1,
        None => 0,
    }
}

proof fn lemma_holding_after_move(pos: Seq<(Seq<char>, int)>, u: Seq<char>, d: int, w: Seq<char>)
    ensures
        holding(move_shares(pos, u, d), w) == holding(pos, w) + if w == u { d } else { 0 },
{
    lemma_position_index_found(pos, u);
    lemma_position_index_found(pos, w);
    match position_index(pos, u) {
        Some(i) => {
            let p2 = pos.update(i, (u, pos[i].1 + d));
            lemma_position_index_keys(p2, pos, w);
            if w != u {
                match position_index(pos, w) {
                    Some(j) => { assert(j != i); },
                    None => {},
                }
            }
        },
        None => {
            let p2 = pos.push((u, d));
            if w != u {
                assert(p2.drop_last() =~= pos);
            } else {
                lemma_position_index_keys(p2, pos.push((u, 0)), u);
            }
        },
    }
}

/// A cash transfer between two accounts leaves total cash and all positions
/// as they were.
pub proof fn law_cash_transfer_keeps_totals(s: LedgerView, t: PTransaction)
    requires
        t.tx_type == 5,
        t.account is Some,
        t.other_account is Some,
    ensures
        apply_tx(s, t).cash == s.cash,
        apply_tx(s, t).positions == s.positions,
{
    assert(share_moves(t) =~= Seq::<(Seq<char>, int)>::empty());
}

/// A security transfer between two portfolios leaves total cash and the
/// shares held of every security as they were.
pub proof fn law_security_transfer_keeps_totals(s: LedgerView, t: PTransaction, w: Seq<char>)
    requires
        t.tx_type == 4,
        t.portfolio is Some,
        t.other_portfolio is Some,
        t.security is Some,
    ensures
        apply_tx(s, t).cash == s.cash,
        holding(apply_tx(s, t).positions, w) == holding(s.positions, w),
{
    let u = t.security->0@;
    assert(share_moves(t) =~= seq![(u, -1 * shares_of(t))] + seq![(u, 1 * shares_of(t))]);
    lemma_transfer_nets_out(s.positions, u, shares_of(t));
    lemma_holding_after_move(s.positions, u, 0, w);
}

/// Selling what was just bought, for the same amount, on the same account and
/// portfolio, restores total cash and the shares held of every security.
pub proof fn law_sale_undoes_purchase(s: LedgerView, buy: PTransaction, sell: PTransaction, w: Seq<char>)
    requires
        buy.tx_type == 0,
        sell.tx_type == 1,
        buy.account is Some,
        sell.account is Some,
        buy.portfolio is Some,
        sell.portfolio is Some,
        buy.security is Some,
        sell.security is Some,
        buy.security->0@ == sell.security->0@,
        buy.amount == sell.amount,
        shares_of(buy) == shares_of(sell),
    ensures
        apply_tx(apply_tx(s, buy), sell).cash == s.cash,
        holding(apply_tx(apply_tx(s, buy), sell).positions, w) == holding(s.positions, w),
{
    let u = buy.security->0@;
    let s1 = apply_tx(s, buy);
    assert(share_moves(buy) =~= seq![(u, 1 * shares_of(buy))]);
    assert(share_moves(sell) =~= seq![(u, -1 * shares_of(buy))]);
    lemma_single_move(s.positions, (u, 1 * shares_of(buy)));
    lemma_single_move(s1.positions, (u, -1 * shares_of(buy)));
    lemma_holding_after_move(s.positions, u, shares_of(buy), w);
    lemma_holding_after_move(s1.positions, u, -shares_of(buy), w);
}

/// The value of priced holdings, `Σ shares × close` (both scaled by 10^8).
pub open spec fn holdings_value(h: Seq<(int, int)>) -> int
    decreases h.len(),
{
    if h.len() == 0 {
        0
    } else {
        holdings_value(h.drop_last()) + h.last().0 * h.last().1
    }
}

/// The net asset value of a valuation, scaled by 10^16: cash in cents times
/// 10^14, plus the value of the holdings.
pub open spec fn nav_units(v: (int, Seq<(int, int)>)) -> int {
    v.0 * 100_000_000_000_000 + holdings_value(v.1)
}

/// `Σ shares × price on day` over the positions, where a position whose
/// security has no quotes in the book counts 0.
pub open spec fn positions_value(pos: Seq<(Seq<char>, int)>, book: Seq<(Seq<char>, Seq<(i64, i64)>)>, day: int) -> int
    decreases pos.len(),
{
    if pos.len() == 0 {
        0
    } else {
        positions_value(pos.drop_last(), book, day) + match table_for(book, pos.last().0) {
            Some(t) => if t.len() > 0 { pos.last().1 * (price_at(t, day) as int) } else { 0 },
            None => 0,
        }
    }
}

proof fn lemma_priced_value(pos: Seq<(Seq<char>, int)>, book: Seq<(Seq<char>, Seq<(i64, i64)>)>, day: int)
    ensures
        holdings_value(priced_holdings(pos, book, day)) == positions_value(pos, book, day),
    decreases pos.len(),
{
    if pos.len() > 0 {
        lemma_priced_value(pos.drop_last(), book, day);
        let rest = priced_holdings(pos.drop_last(), book, day);
        match table_for(book, pos.last().0) {
            Some(t) => if t.len() > 0 {
                let h = rest.push((pos.last().1, price_at(t, day) as int));
                assert(h.drop_last() =~= rest);
            },
            None => {},
        }
    }
}

/// The net asset value on a day is the total cash plus, over every position
/// whose security has quotes, its shares times the price on that day; a
/// security without quotes adds nothing.
pub proof fn law_nav_is_cash_plus_positions(s: LedgerView, book: Seq<(Seq<char>, Seq<(i64, i64)>)>, day: int)
    ensures
        nav_units(value_of(s, book, day)) == s.cash * 100_000_000_000_000 + positions_value(s.positions, book, day),
{
    lemma_priced_value(s.positions, book, day);
}

/// A transaction that moves value between the owner's own accounts or
/// portfolios, or that has a type code the replay does not know.
pub open spec fn is_internal(t: PTransaction) -> bool {
    ||| t.tx_type == 5 && t.account is Some && t.other_account is Some
    ||| t.tx_type == 4 && t.portfolio is Some && t.other_portfolio is Some && t.security is Some
    ||| t.tx_type < 0 || t.tx_type > 14
}

proof fn lemma_zero_move_keeps_value(pos: Seq<(Seq<char>, int)>, u: Seq<char>, book: Seq<(Seq<char>, Seq<(i64, i64)>)>, day: int)
    ensures
        positions_value(move_shares(pos, u, 0), book, day) == positions_value(pos, book, day),
{
    lemma_position_index_found(pos, u);
    match position_index(pos, u) {
        Some(i) => {
            assert(pos.update(i, (u, pos[i].1 + 0)) =~= pos);
        },
        None => {
            let p2 = pos.push((u, 0));
            assert(p2.drop_last() =~= pos);
            assert(p2.last().1 == 0);
        },
    }
}

/// A transfer between the owner's own accounts or portfolios, or a
/// transaction of unknown type, never changes the net asset value.
pub proof fn law_internal_keeps_nav(s: LedgerView, t: PTransaction, book: Seq<(Seq<char>, Seq<(i64, i64)>)>, day: int)
    requires
        is_internal(t),
    ensures
        nav_units(value_of(apply_tx(s, t), book, day)) == nav_units(value_of(s, book, day)),
{
    let s2 = apply_tx(s, t);
    lemma_priced_value(s.positions, book, day);
    lemma_priced_value(s2.positions, book, day);
    if t.tx_type == 4 && t.portfolio is Some && t.other_portfolio is Some && t.security is Some {
        let u = t.security->0@;
        assert(share_moves(t) =~= seq![(u, -1 * shares_of(t))] + seq![(u, 1 * shares_of(t))]);
        lemma_transfer_nets_out(s.positions, u, shares_of(t));
        lemma_zero_move_keeps_value(s.positions, u, book, day);
    } else {
        assert(share_moves(t) =~= Seq::<(Seq<char>, int)>::empty());
        assert(s2.positions == s.positions);
    }
}

/// Replaying a deposit, dividend, interest payment, tax or fee refund, or a
/// sale that names an account raises total cash by exactly its amount; a
/// removal, interest charge, tax, fee or purchase that names an account
/// lowers it by exactly its amount. Other transactions of these types, with
/// no account, leave cash alone.
pub proof fn law_cash_follows_the_type(s: LedgerView, t: PTransaction)
    ensures
        (t.tx_type == 6 || t.tx_type == 8 || t.tx_type == 9 || t.tx_type == 12 || t.tx_type == 14 || t.tx_type == 1)
            ==> apply_tx(s, t).cash == s.cash + if t.account is Some { t.amount as int } else { 0 },
        (t.tx_type == 7 || t.tx_type == 10 || t.tx_type == 11 || t.tx_type == 13 || t.tx_type == 0)
            ==> apply_tx(s, t).cash == s.cash - if t.account is Some { t.amount as int } else { 0 },
        (t.tx_type == 2 || t.tx_type == 3 || t.tx_type == 4) ==> apply_tx(s, t).cash == s.cash,
{
}

/// Replaying a purchase or inbound delivery that names a portfolio and a
/// security adds its shares to that security; a sale or outbound delivery
/// removes them; a transaction of any type but these and a security
/// transfer leaves every holding alone.
pub proof fn law_shares_follow_the_type(s: LedgerView, t: PTransaction, w: Seq<char>)
    ensures
        (t.tx_type == 0 || t.tx_type == 2) && t.portfolio is Some && t.security is Some
            ==> holding(apply_tx(s, t).positions, w) == holding(s.positions, w)
                + if w == t.security->0@ { shares_of(t) } else { 0 },
        (t.tx_type == 1 || t.tx_type == 3) && t.portfolio is Some && t.security is Some
            ==> holding(apply_tx(s, t).positions, w) == holding(s.positions, w)
                - if w == t.security->0@ { shares_of(t) } else { 0 },
        !(0 <= t.tx_type <= 4) ==> apply_tx(s, t).positions == s.positions,
{
    if (t.tx_type == 0 || t.tx_type == 2) && t.portfolio is Some && t.security is Some {
        let u = t.security->0@;
        assert(share_moves(t) =~= seq![(u, 1 * shares_of(t))]);
        lemma_single_move(s.positions, (u, 1 * shares_of(t)));
        lemma_holding_after_move(s.positions, u, 1 * shares_of(t), w);
    }
    if (t.tx_type == 1 || t.tx_type == 3) && t.portfolio is Some && t.security is Some {
        let u = t.security->0@;
        assert(share_moves(t) =~= seq![(u, -1 * shares_of(t))]);
        lemma_single_move(s.positions, (u, -1 * shares_of(t)));
        lemma_holding_after_move(s.positions, u, -1 * shares_of(t), w);
        assert(apply_tx(s, t).positions == move_shares(s.positions, u, -1 * shares_of(t)));
    }
    if !(0 <= t.tx_type <= 4) {
        assert(share_moves(t) =~= Seq::<(Seq<char>, int)>::empty());
    }
}

} // verus!
