//! Price histories: one close per date, sorted by date, and the step-function
//! lookup of the price on a day.

use vstd::prelude::*;
use crate::model::{PHistoricalPrice, PSecurity};
use crate::order::{is_stable_order, stable_order, stable_sort_order};

verus! {

/// All quotes of a security as `(date, close)`: its price history, then its
/// latest quote.
pub open spec fn price_entries(sec: PSecurity) -> Seq<(i64, i64)> {
    sec.prices@.map_values(|p: PHistoricalPrice| (p.date, p.close)) + match sec.latest {
        Some(p) => seq![(p.date, p.close)],
        None => Seq::<(i64, i64)>::empty(),
    }
}

/// The dates of a list of quotes.
pub open spec fn dates_of(e: Seq<(i64, i64)>) -> Seq<i64> {
    e.map_values(|x: (i64, i64)| x.0)
}

/// The quotes, stably sorted by date.
pub open spec fn sorted_by_date(e: Seq<(i64, i64)>) -> Seq<(i64, i64)> {
    stable_order(dates_of(e)).map_values(|i: usize| e[i as int])
}

/// Keep the first quote of each run of equal dates.
pub open spec fn dedup_dates(s: Seq<(i64, i64)>) -> Seq<(i64, i64)>
    decreases s.len(),
{
    if s.len() == 0 {
        s
    } else {
        let rest = dedup_dates(s.drop_last());
        if s.len() == 1 || s[s.len() - 1].0 != s[s.len() - 2].0 {
            rest.push(s.last())
        } else {
            rest
        }
    }
}

/// The price table of a security: its quotes sorted by date, one per date
/// (the first, in the order the quotes are listed, among those of a date).
pub open spec fn price_table(sec: PSecurity) -> Seq<(i64, i64)> {
    dedup_dates(sorted_by_date(price_entries(sec)))
}

/// The dates of `t` strictly increase.
pub open spec fn strictly_dated(t: Seq<(i64, i64)>) -> bool {
    forall|i: int, j: int| 0 <= i < j < t.len() ==> #[trigger] t[i].0 < #[trigger] t[j].0
}

/// How many leading entries of `t` are dated on or before `day`: where a
/// binary search for `day` lands.
pub open spec fn count_on_or_before(t: Seq<(i64, i64)>, day: int) -> nat
    decreases t.len(),
{
    if t.len() == 0 {
        0
    } else if t[0].0 <= day {
        1 + count_on_or_before(t.drop_first(), day)
    } else {
        0
    }
}

/// The price on `day`: the close of the last entry dated on or before it,
/// or, where there is none, the close of the first entry.
pub open spec fn price_at(t: Seq<(i64, i64)>, day: int) -> i64 {
    let k = count_on_or_before(t, day);
    if k == 0 {
        t[0].1
    } else {
        t[k - 1].1
    }
}

proof fn lemma_dedup_shape(s: Seq<(i64, i64)>)
    ensures
        dedup_dates(s).len() <= s.len(),
        s.len() > 0 ==> dedup_dates(s).len() > 0 && dedup_dates(s).last().0 == s.last().0,
        forall|i: int| 0 <= i < dedup_dates(s).len() ==> s.contains(#[trigger] dedup_dates(s)[i]),
    decreases s.len(),
{
    if s.len() > 0 {
        lemma_dedup_shape(s.drop_last());
        let rest = dedup_dates(s.drop_last());
        assert forall|i: int| 0 <= i < dedup_dates(s).len() implies s.contains(#[trigger] dedup_dates(s)[i]) by {
            if i < rest.len() {
                assert(s.drop_last().contains(rest[i]));
                let k = choose|k: int| 0 <= k < s.drop_last().len() && s.drop_last()[k] == rest[i];
                assert(s[k] == rest[i]);
            } else {
                assert(s[s.len() - 1] == dedup_dates(s)[i]);
            }
        }
        if s.len() > 1 && s[s.len() - 1].0 == s[s.len() - 2].0 {
            assert(rest.last().0 == s.drop_last().last().0);
        }
    }
}

/// Deduplicating a list sorted by date leaves one with strictly increasing dates.
proof fn lemma_dedup_strict(s: Seq<(i64, i64)>)
    requires
        forall|i: int, j: int| 0 <= i < j < s.len() ==> #[trigger] s[i].0 <= #[trigger] s[j].0,
    ensures
        strictly_dated(dedup_dates(s)),
    decreases s.len(),
{
    if s.len() > 0 {
        let p = s.drop_last();
        assert forall|i: int, j: int| 0 <= i < j < p.len() implies #[trigger] p[i].0 <= #[trigger] p[j].0 by {
            assert(s[i] == p[i] && s[j] == p[j]);
        }
        lemma_dedup_strict(p);
        lemma_dedup_shape(p);
        let rest = dedup_dates(p);
        if s.len() > 1 && s[s.len() - 1].0 != s[s.len() - 2].0 {
            assert forall|i: int| 0 <= i < rest.len() implies #[trigger] rest[i].0 < s.last().0 by {
                assert(p.contains(rest[i]));
                let k = choose|k: int| 0 <= k < p.len() && p[k] == rest[i];
                assert(s[k].0 <= s[s.len() - 2].0);
            }
        }
    }
}

/// `t` is nonempty and strictly increasing by date; binary search agrees with
/// [`count_on_or_before`].
proof fn lemma_count_prefix(t: Seq<(i64, i64)>, day: int, k: int)
    requires
        0 <= k <= t.len(),
        forall|i: int| 0 <= i < k ==> #[trigger] t[i].0 <= day,
        forall|i: int| k <= i < t.len() ==> #[trigger] t[i].0 > day,
    ensures
        count_on_or_before(t, day) == k,
    decreases t.len(),
{
    if t.len() > 0 {
        if k > 0 {
            assert forall|i: int| 0 <= i < k - 1 implies #[trigger] t.drop_first()[i].0 <= day by {
                assert(t.drop_first()[i] == t[i + 1]);
            }
            assert forall|i: int| k - 1 <= i < t.len() - 1 implies #[trigger] t.drop_first()[i].0 > day by {
                assert(t.drop_first()[i] == t[i + 1]);
            }
            lemma_count_prefix(t.drop_first(), day, k - 1);
        }
    }
}

/// The price table of `sec`: quotes sorted by date, one per date.
pub fn build_table(sec: &PSecurity) -> (t: Vec<(i64, i64)>)
    ensures
        t@ == price_table(*sec),
        strictly_dated(t@),
        t@.len() == 0 <==> price_entries(*sec).len() == 0,
{
    let mut entries: Vec<(i64, i64)> = Vec::new();
    let mut i: usize = 0;
    while i < sec.prices.len()
        invariant
            i <= sec.prices.len(),
            entries@ == sec.prices@.take(i as int).map_values(|p: PHistoricalPrice| (p.date, p.close)),
        decreases sec.prices.len() - i,
    {
        let p = sec.prices[i];
        entries.push((p.date, p.close));
        assert(sec.prices@.take(i + 1) =~= sec.prices@.take(i as int).push(p));
        i = i + 1;
    }
    assert(sec.prices@.take(sec.prices.len() as int) =~= sec.prices@);
    match sec.latest {
        Some(p) => {
            entries.push((p.date, p.close));
        },
        None => {},
    }
    assert(entries@ =~= price_entries(*sec));
    let mut dates: Vec<i64> = Vec::new();
    let mut j: usize = 0;
    while j < entries.len()
        invariant
            j <= entries.len(),
            dates@ == dates_of(entries@.take(j as int)),
        decreases entries.len() - j,
    {
        dates.push(entries[j].0);
        assert(dates_of(entries@.take(j + 1)) =~= dates_of(entries@.take(j as int)).push(entries@[j as int].0));
        j = j + 1;
    }
    assert(entries@.take(entries.len() as int) =~= entries@);
    let ord = stable_sort_order(&dates);
    let ghost sorted = sorted_by_date(entries@);
    let mut table: Vec<(i64, i64)> = Vec::new();
    let mut k: usize = 0;
    while k < ord.len()
        invariant
            k <= ord.len(),
            dates@ == dates_of(entries@),
            is_stable_order(dates@, ord@),
            ord@ == stable_order(dates@),
            sorted == ord@.map_values(|x: usize| entries@[x as int]),
            table@ == dedup_dates(sorted.take(k as int)),
        decreases ord.len() - k,
    {
        let e = entries[ord[k]];
        assert(sorted.take(k + 1).drop_last() =~= sorted.take(k as int));
        if k == 0 || entries[ord[k - 1]].0 != e.0 {
            table.push(e);
        }
        k = k + 1;
    }
    assert(sorted.take(ord.len() as int) =~= sorted);
    proof {
        assert forall|a: int, b: int| 0 <= a < b < sorted.len() implies #[trigger] sorted[a].0 <= #[trigger] sorted[b].0 by {
            assert(crate::order::before(dates@, ord@[a], ord@[b]));
        }
        lemma_dedup_strict(sorted);
        lemma_dedup_shape(sorted);
    }
    table
}

/// The price on `day` in a table with strictly increasing dates: `None` for
/// an empty table.
pub fn lookup_price(t: &Vec<(i64, i64)>, day: i64) -> (c: Option<i64>)
    requires
        strictly_dated(t@),
    ensures
        c == if t@.len() == 0 { None } else { Some(price_at(t@, day as int)) },
{
    if t.len() == 0 {
        return None;
    }
    let mut lo: usize = 0;
    let mut hi: usize = t.len();
    while lo < hi
        invariant
            0 <= lo <= hi <= t@.len(),
            strictly_dated(t@),
            forall|i: int| 0 <= i < lo ==> #[trigger] t@[i].0 <= day,
            forall|i: int| hi <= i < t@.len() ==> #[trigger] t@[i].0 > day,
        decreases hi - lo,
    {
        let mid: usize = lo + (hi - lo) / 2;
        if t[mid].0 <= day {
            lo = mid + 1;
        } else {
            hi = mid;
        }
    }
    proof {
        lemma_count_prefix(t@, day as int, lo as int);
    }
    if lo == 0 {
        Some(t[0].1)
    } else {
        Some(t[lo - 1].1)
    }
}

} // verus!

verus! {

/// One security's price table in the book, under the security's UUID.
pub struct BookEntry {
    pub uuid: String,
    pub table: Vec<(i64, i64)>,
}

/// Price tables by security UUID. Where several securities share a UUID the
/// last one listed wins; with `keep_empty` false a security without quotes
/// does not enter the book.
pub struct PriceBook {
    pub entries: Vec<BookEntry>,
}

/// One book entry as values.
pub open spec fn entry_view(e: BookEntry) -> (Seq<char>, Seq<(i64, i64)>) {
    (e.uuid@, e.table@)
}

/// The entries of the book built from `secs`: one per security listed,
/// in order, skipping those without quotes unless `keep_empty`.
pub open spec fn book_view(secs: Seq<PSecurity>, keep_empty: bool) -> Seq<(Seq<char>, Seq<(i64, i64)>)>
    decreases secs.len(),
{
    if secs.len() == 0 {
        Seq::empty()
    } else {
        let rest = book_view(secs.drop_last(), keep_empty);
        let s = secs.last();
        if keep_empty || price_entries(s).len() > 0 {
            rest.push((s.uuid@, price_table(s)))
        } else {
            rest
        }
    }
}

/// Index of the last entry filed under `u`.
pub open spec fn last_index_of(v: Seq<(Seq<char>, Seq<(i64, i64)>)>, u: Seq<char>) -> Option<int>
    decreases v.len(),
{
    if v.len() == 0 {
        None
    } else if v.last().0 == u {
        Some(v.len() - 1)
    } else {
        last_index_of(v.drop_last(), u)
    }
}

/// The price table that the book holds for `u`, if any.
pub open spec fn table_for(v: Seq<(Seq<char>, Seq<(i64, i64)>)>, u: Seq<char>) -> Option<Seq<(i64, i64)>> {
    match last_index_of(v, u) {
        Some(i) => Some(v[i].1),
        None => None,
    }
}

/// Every table of the book has strictly increasing dates.
pub open spec fn tables_dated(v: Seq<(Seq<char>, Seq<(i64, i64)>)>) -> bool {
    forall|i: int| 0 <= i < v.len() ==> strictly_dated(#[trigger] v[i].1)
}

proof fn lemma_last_index_bounds(v: Seq<(Seq<char>, Seq<(i64, i64)>)>, u: Seq<char>)
    ensures
        last_index_of(v, u) matches Some(i) ==> 0 <= i < v.len() && v[i].0 == u
            && forall|j: int| i < j < v.len() ==> #[trigger] v[j].0 != u,
        last_index_of(v, u) is None ==> forall|j: int| 0 <= j < v.len() ==> #[trigger] v[j].0 != u,
    decreases v.len(),
{
    if v.len() > 0 {
        lemma_last_index_bounds(v.drop_last(), u);
        assert forall|j: int| 0 <= j < v.len() - 1 implies v.drop_last()[j] == #[trigger] v[j] by {}
    }
}

impl PriceBook {
    pub open spec fn view(&self) -> Seq<(Seq<char>, Seq<(i64, i64)>)> {
        self.entries@.map_values(|e: BookEntry| entry_view(e))
    }

    /// Build the book of `secs`' price tables.
    pub fn build(secs: &Vec<PSecurity>, keep_empty: bool) -> (b: PriceBook)
        ensures
            b.view() == book_view(secs@, keep_empty),
            tables_dated(b.view()),
            !keep_empty ==> forall|i: int| 0 <= i < b.view().len() ==> #[trigger] b.view()[i].1.len() > 0,
    {
        let mut entries: Vec<BookEntry> = Vec::new();
        let mut i: usize = 0;
        while i < secs.len()
            invariant
                i <= secs.len(),
                entries@.map_values(|e: BookEntry| entry_view(e)) == book_view(secs@.take(i as int), keep_empty),
                tables_dated(entries@.map_values(|e: BookEntry| entry_view(e))),
                !keep_empty ==> forall|k: int| 0 <= k < entries@.len() ==> #[trigger] entries@[k].table@.len() > 0,
            decreases secs.len() - i,
        {
            let ghost before = entries@;
            assert(secs@.take(i + 1).drop_last() =~= secs@.take(i as int));
            let sec = &secs[i];
            let table = build_table(sec);
            if keep_empty || table.len() > 0 {
                let uuid = sec.uuid.clone();
                entries.push(BookEntry { uuid, table });
                assert(entries@.map_values(|e: BookEntry| entry_view(e)) =~= before.map_values(|e: BookEntry| entry_view(e)).push(entry_view(entries@.last())));
            }
            i = i + 1;
        }
        assert(secs@.take(secs.len() as int) =~= secs@);
        PriceBook { entries }
    }

    /// Index of the entry that the book holds for `u`.
    pub fn find(&self, u: &String) -> (r: Option<usize>)
        ensures
            r matches Some(i) ==> last_index_of(self.view(), u@) == Some(i as int) && i < self.entries.len(),
            r is None ==> last_index_of(self.view(), u@) is None,
    {
        proof {
            lemma_last_index_bounds(self.view(), u@);
        }
        let mut k: usize = self.entries.len();
        assert(self.view().take(k as int) =~= self.view());
        while k > 0
            invariant
                k <= self.entries.len(),
                last_index_of(self.view(), u@) == last_index_of(self.view().take(k as int), u@),
            decreases k,
        {
            let ghost pre = self.view().take(k as int);
            assert(pre.last() == entry_view(self.entries@[k - 1]));
            if self.entries[k - 1].uuid == *u {
                return Some(k - 1);
            }
            assert(pre.drop_last() =~= self.view().take(k - 1));
            k = k - 1;
        }
        None
    }
}

/// The exec winner test: no later entry has the same UUID.
pub proof fn lemma_winner(v: Seq<(Seq<char>, Seq<(i64, i64)>)>, k: int)
    requires
        0 <= k < v.len(),
    ensures
        (last_index_of(v, v[k].0) == Some(k)) <==> (forall|j: int| k < j < v.len() ==> #[trigger] v[j].0 != v[k].0),
    decreases v.len(),
{
    if k < v.len() - 1 {
        lemma_winner(v.drop_last(), k);
        assert forall|j: int| k < j < v.len() - 1 implies v.drop_last()[j] == #[trigger] v[j] by {}
        assert(v.drop_last()[k] == v[k]);
    }
}

impl PriceBook {
    /// Is entry `k` the one the book holds for its UUID?
    pub fn is_winner(&self, k: usize) -> (b: bool)
        requires
            k < self.entries.len(),
        ensures
            b == (last_index_of(self.view(), self.view()[k as int].0) == Some(k as int)),
    {
        let ghost bv = self.view();
        proof {
            lemma_winner(bv, k as int);
        }
        let mut j: usize = k + 1;
        while j < self.entries.len()
            invariant
                k < j <= self.entries.len(),
                bv == self.view(),
                forall|j2: int| k < j2 < j ==> #[trigger] bv[j2].0 != bv[k as int].0,
            decreases self.entries.len() - j,
        {
            assert(bv[j as int].0 == self.entries@[j as int].uuid@);
            assert(bv[k as int].0 == self.entries@[k as int].uuid@);
            if self.entries[j].uuid == self.entries[k].uuid {
                assert(bv[j as int].0 == bv[k as int].0);
                assert(!(forall|j2: int| k < j2 < bv.len() ==> #[trigger] bv[j2].0 != bv[k as int].0));
                proof {
                    lemma_winner(bv, k as int);
                }
                return false;
            }
            j = j + 1;
        }
        proof {
            lemma_winner(bv, k as int);
        }
        true
    }
}

proof fn lemma_count_split(t: Seq<(i64, i64)>, day: int)
    requires
        strictly_dated(t),
    ensures
        count_on_or_before(t, day) <= t.len(),
        forall|i: int| 0 <= i < count_on_or_before(t, day) ==> #[trigger] t[i].0 <= day,
        forall|i: int| count_on_or_before(t, day) <= i < t.len() ==> #[trigger] t[i].0 > day,
    decreases t.len(),
{
    if t.len() > 0 {
        let r = t.drop_first();
        assert forall|i: int, j: int| 0 <= i < j < r.len() implies #[trigger] r[i].0 < #[trigger] r[j].0 by {
            assert(r[i] == t[i + 1] && r[j] == t[j + 1]);
        }
        lemma_count_split(r, day);
        if t[0].0 <= day {
            assert forall|i: int| 0 <= i < count_on_or_before(t, day) implies #[trigger] t[i].0 <= day by {
                if i > 0 {
                    assert(t[i] == r[i - 1]);
                }
            }
            assert forall|i: int| count_on_or_before(t, day) <= i < t.len() implies #[trigger] t[i].0 > day by {
                assert(t[i] == r[i - 1]);
            }
        } else {
            assert forall|i: int| 0 <= i < t.len() implies #[trigger] t[i].0 > day by {
                if i > 0 {
                    assert(t[0].0 < t[i].0);
                }
            }
        }
    }
}

/// The price on a day is the close of the last quote dated on or before it;
/// where every quote is later, it is the close of the first quote.
pub proof fn law_price_is_last_on_or_before(t: Seq<(i64, i64)>, day: int)
    requires
        t.len() > 0,
        strictly_dated(t),
    ensures
        (exists|i: int| 0 <= i < t.len() && t[i].0 <= day) ==> exists|i: int|
            0 <= i < t.len() && t[i].0 <= day && price_at(t, day) == t[i].1
            && forall|j: int| i < j < t.len() ==> #[trigger] t[j].0 > day,
        (forall|i: int| 0 <= i < t.len() ==> #[trigger] t[i].0 > day) ==> price_at(t, day) == t[0].1,
{
    lemma_count_split(t, day);
    let k = count_on_or_before(t, day);
    if exists|i: int| 0 <= i < t.len() && t[i].0 <= day {
        let i = choose|i: int| 0 <= i < t.len() && t[i].0 <= day;
        assert(i < k);
        assert(t[k - 1].0 <= day);
    }
    if forall|i: int| 0 <= i < t.len() ==> #[trigger] t[i].0 > day {
        if k > 0 {
            assert(t[0].0 <= day);
        }
    }
}

proof fn lemma_dedup_keeps_dates(s: Seq<(i64, i64)>, d: i64)
    ensures
        (exists|i: int| 0 <= i < dedup_dates(s).len() && (#[trigger] dedup_dates(s)[i]).0 == d)
            <==> (exists|j: int| 0 <= j < s.len() && (#[trigger] s[j]).0 == d),
    decreases s.len(),
{
    if s.len() > 0 {
        let p = s.drop_last();
        lemma_dedup_keeps_dates(p, d);
        let rest = dedup_dates(p);
        let r = dedup_dates(s);
        if exists|i: int| 0 <= i < r.len() && (#[trigger] r[i]).0 == d {
            let i = choose|i: int| 0 <= i < r.len() && (#[trigger] r[i]).0 == d;
            if i < rest.len() {
                assert(r[i] == rest[i]);
                let j = choose|j: int| 0 <= j < p.len() && (#[trigger] p[j]).0 == d;
                assert(s[j] == p[j]);
            } else {
                assert(r[i] == s.last());
                assert(s[s.len() - 1].0 == d);
            }
        }
        if exists|j: int| 0 <= j < s.len() && (#[trigger] s[j]).0 == d {
            let j = choose|j: int| 0 <= j < s.len() && (#[trigger] s[j]).0 == d;
            if j < s.len() - 1 {
                assert(p[j] == s[j]);
                let i = choose|i: int| 0 <= i < rest.len() && (#[trigger] rest[i]).0 == d;
                assert(r[i] == rest[i]);
            } else if s.len() == 1 || s[s.len() - 1].0 != s[s.len() - 2].0 {
                assert(r[r.len() - 1] == s.last());
            } else {
                assert(p[s.len() - 2].0 == d);
                let i = choose|i: int| 0 <= i < rest.len() && (#[trigger] rest[i]).0 == d;
                assert(r[i] == rest[i]);
            }
        }
    }
}

/// A security's price table has one quote for each date it was quoted on,
/// and no other dates, in strictly increasing order of date.
pub proof fn law_table_one_per_date(sec: PSecurity, d: i64)
    requires
        price_entries(sec).len() <= usize::MAX,
    ensures
        strictly_dated(price_table(sec)),
        (exists|i: int| 0 <= i < price_table(sec).len() && (#[trigger] price_table(sec)[i]).0 == d)
            <==> (exists|j: int| 0 <= j < price_entries(sec).len() && (#[trigger] price_entries(sec)[j]).0 == d),
{
    let e = price_entries(sec);
    let keys = dates_of(e);
    crate::order::lemma_stable_order_exists(keys);
    let ord = stable_order(keys);
    let sorted = sorted_by_date(e);
    assert forall|a: int, b: int| 0 <= a < b < sorted.len() implies #[trigger] sorted[a].0 <= #[trigger] sorted[b].0 by {
        assert(crate::order::before(keys, ord[a], ord[b]));
    }
    lemma_dedup_strict(sorted);
    lemma_dedup_keeps_dates(sorted, d);
    if exists|j: int| 0 <= j < e.len() && (#[trigger] e[j]).0 == d {
        let j = choose|j: int| 0 <= j < e.len() && (#[trigger] e[j]).0 == d;
        assert(ord.contains(j as usize));
        let q = choose|q: int| 0 <= q < ord.len() && ord[q] == j as usize;
        assert(sorted[q] == e[j]);
    }
    if exists|q: int| 0 <= q < sorted.len() && (#[trigger] sorted[q]).0 == d {
        let q = choose|q: int| 0 <= q < sorted.len() && (#[trigger] sorted[q]).0 == d;
        assert(sorted[q] == e[ord[q] as int]);
    }
}

} // verus!
