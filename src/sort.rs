use vstd::prelude::*;
use crate::distribution::WealthRange;
use crate::validate::total_of;

verus! {

/// Inserts `x` after every bucket whose floor is at most its own.
pub open spec fn insert_by_min(x: WealthRange, s: Seq<WealthRange>) -> Seq<WealthRange>
    decreases s.len(),
{
    if s.len() == 0 {
        seq![x]
    } else if x.min_sats < s[0].min_sats {
        seq![x] + s
    } else {
        seq![s[0]] + insert_by_min(x, s.drop_first())
    }
}

/// Stable sort by ascending floor: buckets with equal floors keep their order.
pub open spec fn sort_by_min(s: Seq<WealthRange>) -> Seq<WealthRange>
    decreases s.len(),
{
    if s.len() == 0 {
        s
    } else {
        insert_by_min(s.last(), sort_by_min(s.drop_last()))
    }
}

/// Floors never decrease along the sequence.
pub open spec fn sorted_by_min(s: Seq<WealthRange>) -> bool {
    forall|i: int, j: int| 0 <= i < j < s.len() ==> s[i].min_sats <= s[j].min_sats
}

proof fn lemma_insert_at(x: WealthRange, t: Seq<WealthRange>, k: int)
    requires
        0 <= k <= t.len(),
        forall|j: int| 0 <= j < k ==> t[j].min_sats <= x.min_sats,
        k < t.len() ==> t[k].min_sats > x.min_sats,
    ensures
        insert_by_min(x, t) == t.insert(k, x),
    decreases t.len(),
{
    if t.len() == 0 {
        assert(t.insert(k, x) =~= seq![x]);
    } else if x.min_sats < t[0].min_sats {
        assert(k == 0);
        assert(t.insert(k, x) =~= seq![x] + t);
    } else {
        let r = t.drop_first();
        lemma_insert_at(x, r, k - 1);
        assert(t.insert(k, x) =~= seq![t[0]] + r.insert(k - 1, x));
    }
}

proof fn lemma_insert_len(x: WealthRange, t: Seq<WealthRange>)
    ensures
        insert_by_min(x, t).len() == t.len() + 1,
    decreases t.len(),
{
    if t.len() > 0 && x.min_sats >= t[0].min_sats {
        lemma_insert_len(x, t.drop_first());
    }
}

/// Sorting keeps the number of buckets.
pub proof fn lemma_sort_len(s: Seq<WealthRange>)
    ensures
        sort_by_min(s).len() == s.len(),
    decreases s.len(),
{
    if s.len() > 0 {
        lemma_sort_len(s.drop_last());
        lemma_insert_len(s.last(), sort_by_min(s.drop_last()));
    }
}

proof fn lemma_insert_members(x: WealthRange, t: Seq<WealthRange>)
    ensures
        forall|i: int|
            0 <= i < insert_by_min(x, t).len() ==> #[trigger] insert_by_min(x, t)[i] == x
                || t.contains(insert_by_min(x, t)[i]),
    decreases t.len(),
{
    lemma_insert_len(x, t);
    if t.len() > 0 && x.min_sats >= t[0].min_sats {
        let r = t.drop_first();
        lemma_insert_members(x, r);
        lemma_insert_len(x, r);
        let u = insert_by_min(x, t);
        assert forall|i: int| 0 <= i < u.len() implies #[trigger] u[i] == x || t.contains(u[i]) by {
            if i > 0 {
                let y = insert_by_min(x, r)[i - 1];
                assert(u[i] == y);
                if y != x {
                    let j = choose|j: int| 0 <= j < r.len() && r[j] == y;
                    assert(t[j + 1] == y);
                }
            } else {
                assert(t[0] == u[0]);
            }
        }
    } else if t.len() > 0 {
        let u = insert_by_min(x, t);
        assert forall|i: int| 0 <= i < u.len() implies #[trigger] u[i] == x || t.contains(u[i]) by {
            if i > 0 {
                assert(u[i] == t[i - 1]);
            }
        }
    }
}

/// Every bucket of the sorted sequence comes from the unsorted one.
pub proof fn lemma_sort_members(s: Seq<WealthRange>)
    ensures
        forall|i: int| 0 <= i < sort_by_min(s).len() ==> s.contains(#[trigger] sort_by_min(s)[i]),
    decreases s.len(),
{
    if s.len() > 0 {
        let p = s.drop_last();
        lemma_sort_members(p);
        lemma_insert_members(s.last(), sort_by_min(p));
        let u = sort_by_min(s);
        assert forall|i: int| 0 <= i < u.len() implies s.contains(#[trigger] u[i]) by {
            if u[i] == s.last() {
                assert(s[s.len() - 1] == u[i]);
            } else {
                let q = sort_by_min(p);
                let j = choose|j: int| 0 <= j < q.len() && q[j] == u[i];
                assert(p.contains(q[j]));
                let m = choose|m: int| 0 <= m < p.len() && p[m] == q[j];
                assert(s[m] == u[i]);
            }
        }
    }
}

proof fn lemma_total_front(x: WealthRange, t: Seq<WealthRange>, f: spec_fn(WealthRange) -> int)
    ensures
        total_of(seq![x] + t, f) == f(x) + total_of(t, f),
    decreases t.len(),
{
    let u = seq![x] + t;
    if t.len() > 0 {
        assert(u.drop_last() =~= seq![x] + t.drop_last());
        assert(u.last() == t.last());
        lemma_total_front(x, t.drop_last(), f);
    } else {
        assert(u.drop_last() =~= Seq::<WealthRange>::empty());
        assert(u.last() == x);
        assert(total_of(u.drop_last(), f) == 0);
    }
}

proof fn lemma_total_insert(x: WealthRange, t: Seq<WealthRange>, f: spec_fn(WealthRange) -> int)
    ensures
        total_of(insert_by_min(x, t), f) == f(x) + total_of(t, f),
    decreases t.len(),
{
    if t.len() == 0 {
        lemma_total_front(x, t, f);
        assert(seq![x] + t =~= seq![x]);
    } else if x.min_sats < t[0].min_sats {
        lemma_total_front(x, t, f);
    } else {
        let r = t.drop_first();
        lemma_total_insert(x, r, f);
        lemma_total_front(t[0], insert_by_min(x, r), f);
        lemma_total_front(t[0], r, f);
        assert(seq![t[0]] + r =~= t);
    }
}

/// Sorting keeps the sum of any per-bucket quantity.
pub proof fn lemma_total_sort(s: Seq<WealthRange>, f: spec_fn(WealthRange) -> int)
    ensures
        total_of(sort_by_min(s), f) == total_of(s, f),
    decreases s.len(),
{
    if s.len() > 0 {
        lemma_total_sort(s.drop_last(), f);
        lemma_total_insert(s.last(), sort_by_min(s.drop_last()), f);
    }
}

proof fn lemma_insert_sorted(x: WealthRange, t: Seq<WealthRange>)
    requires
        sorted_by_min(t),
    ensures
        sorted_by_min(insert_by_min(x, t)),
    decreases t.len(),
{
    lemma_insert_len(x, t);
    let u = insert_by_min(x, t);
    if t.len() == 0 {
    } else if x.min_sats < t[0].min_sats {
        assert forall|i: int, j: int| 0 <= i < j < u.len() implies u[i].min_sats
            <= u[j].min_sats by {
            if i > 0 {
                assert(u[i] == t[i - 1] && u[j] == t[j - 1]);
            } else {
                assert(u[j] == t[j - 1]);
                assert(t[0].min_sats <= t[j - 1].min_sats);
            }
        }
    } else {
        let r = t.drop_first();
        assert(sorted_by_min(r)) by {
            assert forall|i: int, j: int| 0 <= i < j < r.len() implies r[i].min_sats
                <= r[j].min_sats by {
                assert(r[i] == t[i + 1] && r[j] == t[j + 1]);
            }
        }
        lemma_insert_sorted(x, r);
        lemma_insert_members(x, r);
        lemma_insert_len(x, r);
        let v = insert_by_min(x, r);
        assert forall|i: int, j: int| 0 <= i < j < u.len() implies u[i].min_sats
            <= u[j].min_sats by {
            assert(u[j] == v[j - 1]);
            if i > 0 {
                assert(u[i] == v[i - 1]);
            } else {
                assert(u[0] == t[0]);
                if v[j - 1] != x {
                    let m = choose|m: int| 0 <= m < r.len() && r[m] == v[j - 1];
                    assert(t[m + 1] == r[m]);
                }
            }
        }
    }
}

/// How often bucket `x` occurs in `s`.
pub open spec fn occurrences(s: Seq<WealthRange>, x: WealthRange) -> int {
    total_of(s, |r: WealthRange| if r == x { 1int } else { 0 })
}

/// Sorting gives buckets in ascending floor order, and a permutation of the
/// input: every bucket occurs as often as before.
pub proof fn lemma_sort_is_sorted_permutation(s: Seq<WealthRange>)
    ensures
        sorted_by_min(sort_by_min(s)),
        forall|x: WealthRange| occurrences(sort_by_min(s), x) == #[trigger] occurrences(s, x),
    decreases s.len(),
{
    if s.len() > 0 {
        lemma_sort_is_sorted_permutation(s.drop_last());
        lemma_insert_sorted(s.last(), sort_by_min(s.drop_last()));
    }
    assert forall|x: WealthRange| occurrences(sort_by_min(s), x) == #[trigger] occurrences(s, x) by {
        lemma_total_sort(s, |r: WealthRange| if r == x { 1int } else { 0 });
    }
}

/// Sorting a sequence whose floors already ascend changes nothing.
pub proof fn lemma_sort_sorted(s: Seq<WealthRange>)
    requires
        sorted_by_min(s),
    ensures
        sort_by_min(s) == s,
    decreases s.len(),
{
    if s.len() > 0 {
        let p = s.drop_last();
        assert(sorted_by_min(p));
        lemma_sort_sorted(p);
        lemma_insert_at(s.last(), p, p.len() as int);
        assert(p.insert(p.len() as int, s.last()) =~= s);
    }
}

/// The buckets sorted by ascending floor, buckets with equal floors kept in
/// their given order.
pub fn sorted_by_floor(v: &Vec<WealthRange>) -> (out: Vec<WealthRange>)
    ensures
        out@ == sort_by_min(v@),
{
    let n = v.len();
    let mut out: Vec<WealthRange> = Vec::new();
    let mut i: usize = 0;
    while i < n
        invariant
            n == v@.len(),
            i <= n,
            out@ == sort_by_min(v@.take(i as int)),
        decreases n - i,
    {
        let x = v[i];
        proof {
            lemma_sort_len(v@.take(i as int));
        }
        let mut k: usize = 0;
        while k < out.len() && out[k].min_sats <= x.min_sats
            invariant
                k <= out@.len(),
                forall|j: int| 0 <= j < k ==> out@[j].min_sats <= x.min_sats,
            decreases out@.len() - k,
        {
            k = k + 1;
        }
        proof {
            lemma_insert_at(x, out@, k as int);
            let t = v@.take(i as int + 1);
            assert(t.drop_last() =~= v@.take(i as int));
            assert(t.last() == x);
        }
        out.insert(k, x);
        i = i + 1;
    }
    proof {
        assert(v@.take(n as int) =~= v@);
    }
    out
}

} // verus!
