//! Stable ordering by an integer key: the order that a stable sort of the
//! items by key leaves them in.

use vstd::prelude::*;

verus! {

/// Item `a` comes before item `b`: a smaller key, or the same key and an
/// earlier position.
pub open spec fn before(keys: Seq<i64>, a: usize, b: usize) -> bool {
    keys[a as int] < keys[b as int] || (keys[a as int] == keys[b as int] && a < b)
}

/// `ord` lists exactly the positions `lo..hi`, each once, in `before` order.
pub open spec fn orders_range(keys: Seq<i64>, ord: Seq<usize>, lo: int, hi: int) -> bool {
    &&& ord.len() == hi - lo
    &&& forall|p: int| 0 <= p < ord.len() ==> lo <= #[trigger] ord[p] < hi
    &&& forall|x: usize| lo <= x < hi ==> #[trigger] ord.contains(x)
    &&& forall|p: int, q: int| 0 <= p < q < ord.len() ==> before(keys, #[trigger] ord[p], #[trigger] ord[q])
}

/// `ord` is the order of all positions of `keys` after a stable sort by key.
pub open spec fn is_stable_order(keys: Seq<i64>, ord: Seq<usize>) -> bool {
    orders_range(keys, ord, 0, keys.len() as int)
}

/// The stable sort order of `keys` (there is exactly one, see
/// [`lemma_stable_order_unique`]).
pub open spec fn stable_order(keys: Seq<i64>) -> Seq<usize> {
    choose|ord: Seq<usize>| is_stable_order(keys, ord)
}

/// Two stable sort orders of the same keys are the same sequence.
pub proof fn lemma_stable_order_unique(keys: Seq<i64>, s1: Seq<usize>, s2: Seq<usize>)
    requires
        is_stable_order(keys, s1),
        is_stable_order(keys, s2),
    ensures
        s1 == s2,
{
    if s1.len() > 0 {
        lemma_orders_agree_upto(keys, s1, s2, s1.len() - 1);
    }
    assert(s1 =~= s2);
}

proof fn lemma_orders_agree_upto(keys: Seq<i64>, s1: Seq<usize>, s2: Seq<usize>, p: int)
    requires
        is_stable_order(keys, s1),
        is_stable_order(keys, s2),
        0 <= p < s1.len(),
    ensures
        forall|q: int| 0 <= q <= p ==> s1[q] == s2[q],
    decreases p,
{
    if p > 0 {
        lemma_orders_agree_upto(keys, s1, s2, p - 1);
    }
    let a = s1[p];
    let b = s2[p];
    if a != b {
        assert(s2.contains(a));
        let qa = choose|q: int| 0 <= q < s2.len() && s2[q] == a;
        assert(s1.contains(b));
        let qb = choose|q: int| 0 <= q < s1.len() && s1[q] == b;
        if qa < p {
            assert(s1[qa] == a);
            assert(before(keys, s1[qa], s1[p]));
        } else if qb < p {
            assert(s2[qb] == b);
            assert(before(keys, s2[qb], s2[p]));
        } else {
            assert(before(keys, s2[p], s2[qa]));
            assert(before(keys, s1[p], s1[qb]));
        }
        assert(false);
    }
}

/// The stable sort order of `keys`: positions sorted by key, equal keys
/// keeping their relative order.
pub fn stable_sort_order(keys: &Vec<i64>) -> (ord: Vec<usize>)
    ensures
        is_stable_order(keys@, ord@),
        ord@ == stable_order(keys@),
{
    let ord = sort_range(keys, 0, keys.len());
    proof {
        assert(is_stable_order(keys@, ord@));
        assert(exists|o: Seq<usize>| is_stable_order(keys@, o));
        lemma_stable_order_unique(keys@, ord@, stable_order(keys@));
    }
    ord
}

fn sort_range(keys: &Vec<i64>, lo: usize, hi: usize) -> (ord: Vec<usize>)
    requires
        lo <= hi <= keys.len(),
    ensures
        orders_range(keys@, ord@, lo as int, hi as int),
    decreases hi - lo,
{
    if hi - lo == 0 {
        let v: Vec<usize> = Vec::new();
        return v;
    }
    if hi - lo == 1 {
        let mut v: Vec<usize> = Vec::new();
        v.push(lo);
        assert(v@[0] == lo);
        return v;
    }
    let mid: usize = lo + (hi - lo) / 2;
    let left = sort_range(keys, lo, mid);
    let right = sort_range(keys, mid, hi);
    merge(keys, &left, &right, Ghost(lo as int), Ghost(mid as int), Ghost(hi as int))
}

fn merge(keys: &Vec<i64>, left: &Vec<usize>, right: &Vec<usize>, lo: Ghost<int>, mid: Ghost<int>, hi: Ghost<int>) -> (out: Vec<usize>)
    requires
        lo@ <= mid@ <= hi@ <= keys.len(),
        orders_range(keys@, left@, lo@, mid@),
        orders_range(keys@, right@, mid@, hi@),
    ensures
        orders_range(keys@, out@, lo@, hi@),
{
    let mut out: Vec<usize> = Vec::new();
    let mut i: usize = 0;
    let mut j: usize = 0;
    while i < left.len() || j < right.len()
        invariant
            lo@ <= mid@ <= hi@ <= keys.len(),
            orders_range(keys@, left@, lo@, mid@),
            orders_range(keys@, right@, mid@, hi@),
            i <= left.len(),
            j <= right.len(),
            out.len() == i + j,
            forall|p: int| 0 <= p < out.len() ==> lo@ <= #[trigger] out@[p] < hi@,
            forall|k: int| 0 <= k < i ==> out@.contains(#[trigger] left@[k]),
            forall|k: int| 0 <= k < j ==> out@.contains(#[trigger] right@[k]),
            forall|p: int, q: int| 0 <= p < q < out.len() ==> before(keys@, #[trigger] out@[p], #[trigger] out@[q]),
            out.len() > 0 && i < left.len() ==> before(keys@, out@[out.len() - 1], left@[i as int]),
            out.len() > 0 && j < right.len() ==> before(keys@, out@[out.len() - 1], right@[j as int]),
        decreases left.len() + right.len() - i - j,
    {
        let ghost old_out = out@;
        let take_left = if i < left.len() && j < right.len() {
            keys[left[i]] <= keys[right[j]]
        } else {
            i < left.len()
        };
        if take_left {
            let x = left[i];
            out.push(x);
            proof {
                assert forall|k: int| 0 <= k < i + 1 implies out@.contains(#[trigger] left@[k]) by {
                    if k < i {
                        assert(old_out.contains(left@[k]));
                        let p = choose|p: int| 0 <= p < old_out.len() && old_out[p] == left@[k];
                        assert(out@[p] == left@[k]);
                    } else {
                        assert(out@[out.len() - 1] == left@[k]);
                    }
                }
                assert forall|k: int| 0 <= k < j implies out@.contains(#[trigger] right@[k]) by {
                    assert(old_out.contains(right@[k]));
                    let p = choose|p: int| 0 <= p < old_out.len() && old_out[p] == right@[k];
                    assert(out@[p] == right@[k]);
                }
                if j < right.len() {
                    assert(left@[i as int] < right@[j as int]);
                }
            }
            i = i + 1;
        } else {
            let y = right[j];
            out.push(y);
            proof {
                assert forall|k: int| 0 <= k < i implies out@.contains(#[trigger] left@[k]) by {
                    assert(old_out.contains(left@[k]));
                    let p = choose|p: int| 0 <= p < old_out.len() && old_out[p] == left@[k];
                    assert(out@[p] == left@[k]);
                }
                assert forall|k: int| 0 <= k < j + 1 implies out@.contains(#[trigger] right@[k]) by {
                    if k < j {
                        assert(old_out.contains(right@[k]));
                        let p = choose|p: int| 0 <= p < old_out.len() && old_out[p] == right@[k];
                        assert(out@[p] == right@[k]);
                    } else {
                        assert(out@[out.len() - 1] == right@[k]);
                    }
                }
            }
            j = j + 1;
        }
    }
    proof {
        assert forall|x: usize| lo@ <= x < hi@ implies #[trigger] out@.contains(x) by {
            if x < mid@ {
                assert(left@.contains(x));
                let k = choose|k: int| 0 <= k < left.len() && left@[k] == x;
                assert(out@.contains(left@[k]));
            } else {
                assert(right@.contains(x));
                let k = choose|k: int| 0 <= k < right.len() && right@[k] == x;
                assert(out@.contains(right@[k]));
            }
        }
    }
    out
}

/// The values of `s` strictly increase.
pub open spec fn strictly_increasing(s: Seq<i64>) -> bool {
    forall|i: int, j: int| 0 <= i < j < s.len() ==> #[trigger] s[i] < #[trigger] s[j]
}

/// Two strictly increasing sequences with the same values are the same.
pub proof fn lemma_increasing_unique(s1: Seq<i64>, s2: Seq<i64>)
    requires
        strictly_increasing(s1),
        strictly_increasing(s2),
        forall|x: i64| s1.contains(x) <==> s2.contains(x),
    ensures
        s1 == s2,
{
    if s1.len() > 0 || s2.len() > 0 {
        if s1.len() > 0 {
            lemma_increasing_agree_upto(s1, s2, s1.len() - 1);
        }
        if s2.len() > 0 {
            lemma_increasing_agree_upto(s2, s1, s2.len() - 1);
        }
    }
    assert(s1 =~= s2);
}

proof fn lemma_increasing_agree_upto(s1: Seq<i64>, s2: Seq<i64>, p: int)
    requires
        strictly_increasing(s1),
        strictly_increasing(s2),
        forall|x: i64| s1.contains(x) <==> s2.contains(x),
        0 <= p < s1.len(),
    ensures
        p < s2.len(),
        forall|q: int| 0 <= q <= p ==> s1[q] == s2[q],
    decreases p,
{
    if p > 0 {
        lemma_increasing_agree_upto(s1, s2, p - 1);
    }
    let a = s1[p];
    assert(s1.contains(a));
    assert(s2.contains(a));
    let qa = choose|q: int| 0 <= q < s2.len() && s2[q] == a;
    if qa < p {
        assert(s1[qa] == s2[qa]);
        assert(s1[qa] < s1[p]);
    }
    assert(p < s2.len());
    let b = s2[p];
    if a != b {
        assert(s2.contains(b));
        assert(s1.contains(b));
        let qb = choose|q: int| 0 <= q < s1.len() && s1[q] == b;
        if qb < p {
            assert(s2[qb] == s1[qb]);
            assert(s2[qb] < s2[p]);
        } else {
            assert(qb > p);
            assert(s1[p] < s1[qb]);
            assert(s2[p] < s2[qa]);
        }
        assert(false);
    }
}

/// The distinct values of `v`, ascending.
pub fn sorted_distinct(v: &Vec<i64>) -> (r: Vec<i64>)
    ensures
        strictly_increasing(r@),
        forall|x: i64| r@.contains(x) <==> v@.contains(x),
{
    let ord = stable_sort_order(v);
    let mut r: Vec<i64> = Vec::new();
    let mut k: usize = 0;
    while k < ord.len()
        invariant
            k <= ord.len(),
            is_stable_order(v@, ord@),
            strictly_increasing(r@),
            forall|q: int| 0 <= q < k ==> r@.contains(#[trigger] v@[ord@[q] as int]),
            forall|x: i64| r@.contains(x) ==> v@.contains(x),
            k > 0 ==> r@.len() > 0 && r@.last() == v@[ord@[k - 1] as int],
            k == 0 ==> r@.len() == 0,
        decreases ord.len() - k,
    {
        let x = v[ord[k]];
        let ghost old_r = r@;
        if k > 0 {
            assert(before(v@, ord@[k - 1], ord@[k as int]));
        }
        if k == 0 || r[r.len() - 1] != x {
            r.push(x);
            proof {
                assert forall|q: int| 0 <= q < k + 1 implies r@.contains(#[trigger] v@[ord@[q] as int]) by {
                    if q < k {
                        let p = choose|p: int| 0 <= p < old_r.len() && old_r[p] == v@[ord@[q] as int];
                        assert(r@[p] == old_r[p]);
                    } else {
                        assert(r@[r@.len() - 1] == x);
                    }
                }
                assert forall|x2: i64| r@.contains(x2) implies v@.contains(x2) by {
                    let p = choose|p: int| 0 <= p < r@.len() && r@[p] == x2;
                    if p < old_r.len() {
                        assert(old_r[p] == x2);
                        assert(old_r.contains(x2));
                    } else {
                        assert(v@[ord@[k as int] as int] == x2);
                    }
                }
                assert forall|i: int, j: int| 0 <= i < j < r@.len() implies #[trigger] r@[i] < #[trigger] r@[j] by {
                    if j == r@.len() - 1 && i < old_r.len() {
                        if i < old_r.len() - 1 {
                            assert(old_r[i] < old_r[old_r.len() - 1]);
                        }
                    }
                }
            }
        } else {
            proof {
                assert(r@[r@.len() - 1] == x);
            }
        }
        k = k + 1;
    }
    proof {
        assert forall|x: i64| v@.contains(x) implies r@.contains(x) by {
            let i = choose|i: int| 0 <= i < v@.len() && v@[i] == x;
            assert(ord@.contains(i as usize));
            let q = choose|q: int| 0 <= q < ord@.len() && ord@[q] == i as usize;
            assert(r@.contains(v@[ord@[q] as int]));
        }
    }
    r
}

/// Does the strictly increasing `r` hold `x`?
pub fn contains_sorted(r: &Vec<i64>, x: i64) -> (b: bool)
    requires
        strictly_increasing(r@),
    ensures
        b == r@.contains(x),
{
    let mut lo: usize = 0;
    let mut hi: usize = r.len();
    while lo < hi
        invariant
            0 <= lo <= hi <= r@.len(),
            strictly_increasing(r@),
            forall|i: int| 0 <= i < lo ==> #[trigger] r@[i] < x,
            forall|i: int| hi <= i < r@.len() ==> #[trigger] r@[i] > x,
        decreases hi - lo,
    {
        let mid: usize = lo + (hi - lo) / 2;
        if r[mid] == x {
            return true;
        } else if r[mid] < x {
            lo = mid + 1;
        } else {
            hi = mid;
        }
    }
    proof {
        if r@.contains(x) {
            let i = choose|i: int| 0 <= i < r@.len() && r@[i] == x;
            assert(i < lo || i >= hi);
        }
    }
    false
}

/// The positions of `s` are valid indices of `keys`, in `before` order.
pub open spec fn sorted_before(keys: Seq<i64>, s: Seq<usize>) -> bool {
    &&& forall|p: int| 0 <= p < s.len() ==> #[trigger] s[p] < keys.len()
    &&& forall|p: int, q: int| 0 <= p < q < s.len() ==> before(keys, #[trigger] s[p], #[trigger] s[q])
}

proof fn lemma_insert_before(keys: Seq<i64>, s: Seq<usize>, x: usize)
    requires
        sorted_before(keys, s),
        x < keys.len(),
        !s.contains(x),
    ensures
        exists|s2: Seq<usize>| sorted_before(keys, s2) && s2.len() == s.len() + 1
            && forall|y: usize| #[trigger] s2.contains(y) <==> (s.contains(y) || y == x),
    decreases s.len(),
{
    if s.len() == 0 {
        let s2 = seq![x];
        assert(s2[0] == x);
        assert(forall|y: usize| #[trigger] s2.contains(y) <==> (s.contains(y) || y == x));
        assert(sorted_before(keys, s2));
    } else if before(keys, s.last(), x) {
        let s2 = s.push(x);
        assert forall|y: usize| #[trigger] s2.contains(y) <==> (s.contains(y) || y == x) by {
            if s2.contains(y) {
                let p = choose|p: int| 0 <= p < s2.len() && s2[p] == y;
                if p < s.len() {
                    assert(s[p] == y);
                }
            }
            if s.contains(y) {
                let p = choose|p: int| 0 <= p < s.len() && s[p] == y;
                assert(s2[p] == y);
            }
            if y == x {
                assert(s2[s.len() as int] == x);
            }
        }
        assert forall|p: int, q: int| 0 <= p < q < s2.len() implies before(keys, #[trigger] s2[p], #[trigger] s2[q]) by {
            if q == s.len() && p < s.len() - 1 {
                assert(before(keys, s[p], s[s.len() - 1]));
            }
        }
    } else {
        let init = s.drop_last();
        let last = s.last();
        assert(last != x);
        assert(!init.contains(x)) by {
            if init.contains(x) {
                let p = choose|p: int| 0 <= p < init.len() && init[p] == x;
                assert(s[p] == x);
            }
        }
        assert(sorted_before(keys, init)) by {
            assert forall|p: int, q: int| 0 <= p < q < init.len() implies before(keys, #[trigger] init[p], #[trigger] init[q]) by {
                assert(init[p] == s[p] && init[q] == s[q]);
            }
        }
        lemma_insert_before(keys, init, x);
        let t = choose|s2: Seq<usize>| sorted_before(keys, s2) && s2.len() == init.len() + 1
            && forall|y: usize| #[trigger] s2.contains(y) <==> (init.contains(y) || y == x);
        let s2 = t.push(last);
        assert forall|y: usize| #[trigger] s2.contains(y) <==> (s.contains(y) || y == x) by {
            if s2.contains(y) {
                let p = choose|p: int| 0 <= p < s2.len() && s2[p] == y;
                if p < t.len() {
                    assert(t[p] == y);
                    assert(t.contains(y));
                    if init.contains(y) {
                        let q = choose|q: int| 0 <= q < init.len() && init[q] == y;
                        assert(s[q] == y);
                    }
                } else {
                    assert(s[s.len() - 1] == y);
                }
            }
            if s.contains(y) {
                let p = choose|p: int| 0 <= p < s.len() && s[p] == y;
                if p < s.len() - 1 {
                    assert(init[p] == y);
                    assert(t.contains(y));
                    let q = choose|q: int| 0 <= q < t.len() && t[q] == y;
                    assert(s2[q] == y);
                } else {
                    assert(s2[t.len() as int] == y);
                }
            }
            if y == x {
                assert(t.contains(x));
                let q = choose|q: int| 0 <= q < t.len() && t[q] == x;
                assert(s2[q] == x);
            }
        }
        assert forall|p: int, q: int| 0 <= p < q < s2.len() implies before(keys, #[trigger] s2[p], #[trigger] s2[q]) by {
            if q == t.len() {
                let a = t[p];
                assert(t.contains(a));
                if a == x {
                    assert(!before(keys, last, x));
                    assert(last != x);
                } else {
                    assert(init.contains(a));
                    let r = choose|r: int| 0 <= r < init.len() && init[r] == a;
                    assert(before(keys, s[r], s[s.len() - 1]));
                }
            } else {
                assert(s2[p] == t[p] && s2[q] == t[q]);
            }
        }
        assert(sorted_before(keys, s2));
    }
}

proof fn lemma_orders_prefix_exists(keys: Seq<i64>, hi: int)
    requires
        0 <= hi <= keys.len(),
        keys.len() <= usize::MAX,
    ensures
        exists|ord: Seq<usize>| #[trigger] orders_range(keys, ord, 0, hi),
    decreases hi,
{
    if hi == 0 {
        assert(orders_range(keys, Seq::<usize>::empty(), 0, 0));
    } else {
        lemma_orders_prefix_exists(keys, hi - 1);
        let ord = choose|ord: Seq<usize>| #[trigger] orders_range(keys, ord, 0, hi - 1);
        let x = (hi - 1) as usize;
        assert(!ord.contains(x)) by {
            if ord.contains(x) {
                let p = choose|p: int| 0 <= p < ord.len() && ord[p] == x;
                assert(ord[p] < hi - 1);
            }
        }
        lemma_insert_before(keys, ord, x);
        let s2 = choose|s2: Seq<usize>| sorted_before(keys, s2) && s2.len() == ord.len() + 1
            && forall|y: usize| #[trigger] s2.contains(y) <==> (ord.contains(y) || y == x);
        assert forall|p: int| 0 <= p < s2.len() implies 0 <= #[trigger] s2[p] < hi by {
            assert(s2.contains(s2[p]));
            if s2[p] != x {
                assert(ord.contains(s2[p]));
                let q = choose|q: int| 0 <= q < ord.len() && ord[q] == s2[p];
            }
        }
        assert(orders_range(keys, s2, 0, hi));
    }
}

/// Every list of keys has a stable sort order.
pub proof fn lemma_stable_order_exists(keys: Seq<i64>)
    requires
        keys.len() <= usize::MAX,
    ensures
        is_stable_order(keys, stable_order(keys)),
{
    lemma_orders_prefix_exists(keys, keys.len() as int);
    let w = choose|ord: Seq<usize>| #[trigger] orders_range(keys, ord, 0, keys.len() as int);
    assert(is_stable_order(keys, w));
}

proof fn lemma_insert_increasing(s: Seq<i64>, x: i64)
    requires
        strictly_increasing(s),
        !s.contains(x),
    ensures
        exists|s2: Seq<i64>| strictly_increasing(s2) && forall|y: i64| #[trigger] s2.contains(y) <==> (s.contains(y) || y == x),
    decreases s.len(),
{
    if s.len() == 0 {
        let s2 = seq![x];
        assert(s2[0] == x);
        assert(forall|y: i64| #[trigger] s2.contains(y) <==> (s.contains(y) || y == x));
        assert(strictly_increasing(s2));
    } else if s.last() < x {
        let s2 = s.push(x);
        assert forall|y: i64| #[trigger] s2.contains(y) <==> (s.contains(y) || y == x) by {
            if s2.contains(y) {
                let p = choose|p: int| 0 <= p < s2.len() && s2[p] == y;
                if p < s.len() {
                    assert(s[p] == y);
                }
            }
            if s.contains(y) {
                let p = choose|p: int| 0 <= p < s.len() && s[p] == y;
                assert(s2[p] == y);
            }
            if y == x {
                assert(s2[s.len() as int] == x);
            }
        }
        assert forall|p: int, q: int| 0 <= p < q < s2.len() implies #[trigger] s2[p] < #[trigger] s2[q] by {
            if q == s.len() && p < s.len() - 1 {
                assert(s[p] < s[s.len() - 1]);
            }
        }
        assert(strictly_increasing(s2));
    } else {
        let init = s.drop_last();
        let last = s.last();
        assert(last != x);
        assert(!init.contains(x)) by {
            if init.contains(x) {
                let p = choose|p: int| 0 <= p < init.len() && init[p] == x;
                assert(s[p] == x);
            }
        }
        assert(strictly_increasing(init)) by {
            assert forall|p: int, q: int| 0 <= p < q < init.len() implies #[trigger] init[p] < #[trigger] init[q] by {
                assert(init[p] == s[p] && init[q] == s[q]);
            }
        }
        lemma_insert_increasing(init, x);
        let t = choose|s2: Seq<i64>| strictly_increasing(s2) && forall|y: i64| #[trigger] s2.contains(y) <==> (init.contains(y) || y == x);
        let s2 = t.push(last);
        assert forall|y: i64| #[trigger] s2.contains(y) <==> (s.contains(y) || y == x) by {
            if s2.contains(y) {
                let p = choose|p: int| 0 <= p < s2.len() && s2[p] == y;
                if p < t.len() {
                    assert(t[p] == y);
                    assert(t.contains(y));
                    if init.contains(y) {
                        let q = choose|q: int| 0 <= q < init.len() && init[q] == y;
                        assert(s[q] == y);
                    }
                } else {
                    assert(s[s.len() - 1] == y);
                }
            }
            if s.contains(y) {
                let p = choose|p: int| 0 <= p < s.len() && s[p] == y;
                if p < s.len() - 1 {
                    assert(init[p] == y);
                    assert(t.contains(y));
                    let q = choose|q: int| 0 <= q < t.len() && t[q] == y;
                    assert(s2[q] == y);
                } else {
                    assert(s2[t.len() as int] == y);
                }
            }
            if y == x {
                assert(t.contains(x));
                let q = choose|q: int| 0 <= q < t.len() && t[q] == x;
                assert(s2[q] == x);
            }
        }
        assert forall|p: int, q: int| 0 <= p < q < s2.len() implies #[trigger] s2[p] < #[trigger] s2[q] by {
            if q == t.len() {
                let a = t[p];
                assert(t.contains(a));
                if a != x {
                    assert(init.contains(a));
                    let r = choose|r: int| 0 <= r < init.len() && init[r] == a;
                    assert(s[r] < s[s.len() - 1]);
                }
            } else {
                assert(s2[p] == t[p] && s2[q] == t[q]);
            }
        }
        assert(strictly_increasing(s2));
    }
}

/// The values of `cands` that satisfy `p` can be listed in strictly
/// increasing order.
pub proof fn lemma_increasing_exists(cands: Seq<i64>, p: spec_fn(i64) -> bool)
    ensures
        exists|s: Seq<i64>| strictly_increasing(s) && forall|x: i64| #[trigger] s.contains(x) <==> (cands.contains(x) && p(x)),
    decreases cands.len(),
{
    if cands.len() == 0 {
        let s = Seq::<i64>::empty();
        assert(strictly_increasing(s) && forall|x: i64| #[trigger] s.contains(x) <==> (cands.contains(x) && p(x)));
    } else {
        let init = cands.drop_last();
        let x = cands.last();
        lemma_increasing_exists(init, p);
        let s = choose|s: Seq<i64>| strictly_increasing(s) && forall|y: i64| #[trigger] s.contains(y) <==> (init.contains(y) && p(y));
        assert forall|y: i64| #[trigger] cands.contains(y) <==> (init.contains(y) || y == x) by {
            if cands.contains(y) {
                let q = choose|q: int| 0 <= q < cands.len() && cands[q] == y;
                if q < init.len() {
                    assert(init[q] == y);
                }
            }
            if init.contains(y) {
                let q = choose|q: int| 0 <= q < init.len() && init[q] == y;
                assert(cands[q] == y);
            }
            if y == x {
                assert(cands[cands.len() - 1] == x);
            }
        }
        if !p(x) || s.contains(x) {
            assert(forall|y: i64| #[trigger] s.contains(y) <==> (cands.contains(y) && p(y)));
        } else {
            lemma_insert_increasing(s, x);
            let s2 = choose|s2: Seq<i64>| strictly_increasing(s2) && forall|y: i64| #[trigger] s2.contains(y) <==> (s.contains(y) || y == x);
            assert(forall|y: i64| #[trigger] s2.contains(y) <==> (cands.contains(y) && p(y)));
        }
    }
}

} // verus!
