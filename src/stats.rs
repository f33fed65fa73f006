use vstd::prelude::*;
use crate::distribution::{
    buckets_ok, BitcoinDistribution, DataProcessor, WealthRange, OPEN_SPAN, PPM,
};
use crate::sort::{lemma_sort_len, sort_by_min, sorted_by_floor};
use crate::validate::{address_share_of, count_of, supply_share_of, total_of};

verus! {

/// `PPM` squared: the fixed-point unit of the Lorenz area.
pub const LORENZ_ONE: u128 = 1_000_000_000_000;

/// Midpoint of a bucket, rounded down to a satoshi; the open bucket spans up
/// to its modelled ceiling `OPEN_SPAN × min`.
pub open spec fn midpoint(r: WealthRange) -> int {
    (r.min_sats + r.spec_ceiling()) / 2
}

/// Twice the Lorenz area in units of `LORENZ_ONE`, over buckets in the given
/// order: each bucket adds its address share times (twice the supply share
/// of the buckets before it, plus its own supply share).
pub open spec fn lorenz_sum(t: Seq<WealthRange>) -> int
    decreases t.len(),
{
    if t.len() == 0 {
        0
    } else {
        let p = t.drop_last();
        let r = t.last();
        lorenz_sum(p) + r.percentage_of_addresses * (2 * total_of(p, |r: WealthRange| supply_share_of(r))
            + r.percentage_of_supply)
    }
}

/// Gini coefficient in parts per million: one less twice the Lorenz area,
/// clamped at zero, over the buckets in floor order.
pub open spec fn gini_of(s: Seq<WealthRange>) -> int {
    let l = lorenz_sum(sort_by_min(s));
    if l >= LORENZ_ONE {
        0
    } else {
        (LORENZ_ONE - l) / (PPM as int)
    }
}

/// Supply share held by the top `k` parts per million of addresses, taking
/// buckets of `t` from the last one back, after `cum` address share is
/// already taken. The bucket that would overshoot contributes in proportion.
pub open spec fn share_from_top(t: Seq<WealthRange>, cum: int, k: int) -> int
    decreases t.len(),
{
    if t.len() == 0 {
        0
    } else {
        let r = t.last();
        let next = cum + r.percentage_of_addresses;
        if next <= k {
            r.percentage_of_supply + share_from_top(t.drop_last(), next, k)
        } else {
            r.percentage_of_supply * (k - cum) / (r.percentage_of_addresses as int)
        }
    }
}

/// Supply share, in parts per million, of the wealthiest `k` parts per
/// million of addresses.
pub open spec fn concentration_of(s: Seq<WealthRange>, k: int) -> int {
    share_from_top(sort_by_min(s), 0, k)
}

/// Herfindahl-Hirschman index in hundredths of a point: the sum of squared
/// supply shares, where a single holder of everything scores 10000 points.
pub open spec fn hhi_of(s: Seq<WealthRange>) -> int {
    total_of(s, |r: WealthRange| r.percentage_of_supply * r.percentage_of_supply) / (PPM as int)
}

/// Address-weighted mean of the bucket midpoints, in satoshis.
pub open spec fn mean_of(s: Seq<WealthRange>) -> int {
    let c = total_of(s, |r: WealthRange| count_of(r));
    if c == 0 {
        0
    } else {
        total_of(s, |r: WealthRange| r.address_count * midpoint(r)) / c
    }
}

/// Index, within `t`, of the first bucket at which the running address share
/// reaches `target`, if any.
pub open spec fn reaching_index(t: Seq<WealthRange>, target: int) -> Option<int>
    decreases t.len(),
{
    if t.len() == 0 {
        None
    } else {
        match reaching_index(t.drop_last(), target) {
            Some(i) => Some(i),
            None => if total_of(t, |r: WealthRange| address_share_of(r)) >= target {
                Some(t.len() - 1)
            } else {
                None
            },
        }
    }
}

/// Midpoint of the bucket, in floor order, where the running address share
/// first reaches one half; zero when it never does.
pub open spec fn median_of(s: Seq<WealthRange>) -> int {
    let t = sort_by_min(s);
    match reaching_index(t, (PPM / 2) as int) {
        Some(i) => midpoint(t[i]),
        None => 0,
    }
}

/// Summary statistics of a distribution.
#[derive(Debug, Clone, Copy, PartialEq, Eq, Structural)]
pub struct BitcoinStats {
    pub mean_amount: u64,
    pub median_amount: u64,
    /// Parts per million.
    pub gini_coefficient: u64,
    /// Supply shares of the top 1%, 5% and 10% of addresses, parts per million.
    pub top_1_percent_wealth: u128,
    pub top_5_percent_wealth: u128,
    pub top_10_percent_wealth: u128,
    /// Hundredths of a point.
    pub hhi_index: u128,
}

proof fn lemma_total_nonneg_bound(s: Seq<WealthRange>, f: spec_fn(WealthRange) -> int, b: int)
    requires
        forall|r: WealthRange| 0 <= #[trigger] f(r) <= b,
    ensures
        0 <= total_of(s, f) <= s.len() * b,
    decreases s.len(),
{
    if s.len() > 0 {
        let p = s.drop_last();
        lemma_total_nonneg_bound(p, f, b);
        assert(total_of(s, f) <= s.len() * b) by (nonlinear_arith)
            requires
                total_of(s, f) == total_of(p, f) + f(s.last()),
                total_of(p, f) <= p.len() * b,
                f(s.last()) <= b,
                p.len() + 1 == s.len(),
        ;
    }
}

pub(crate) proof fn lemma_bucket_at(s: Seq<WealthRange>, i: int)
    requires
        buckets_ok(s),
        0 <= i < s.len(),
    ensures
        s[i].bounds_ok(),
        s[i].percentage_of_addresses <= PPM,
        s[i].percentage_of_supply <= PPM,
{
    assert(s[i].bounds_ok());
}

pub(crate) proof fn lemma_prefix_step(s: Seq<WealthRange>, i: int)
    requires
        0 <= i < s.len(),
    ensures
        s.take(i + 1).drop_last() == s.take(i),
        s.take(i + 1).last() == s[i],
{
    assert(s.take(i + 1).drop_last() =~= s.take(i));
}

proof fn lemma_lorenz_grows(t: Seq<WealthRange>, i: int)
    requires
        0 <= i <= t.len(),
    ensures
        lorenz_sum(t.take(i)) <= lorenz_sum(t),
    decreases t.len() - i,
{
    if i < t.len() {
        lemma_lorenz_grows(t, i + 1);
        lemma_prefix_step(t, i);
        let p = t.take(i);
        lemma_total_nonneg_bound(p, |r: WealthRange| supply_share_of(r), u64::MAX as int);
        let r = t[i];
        assert(0 <= r.percentage_of_addresses * (2 * total_of(p, |r: WealthRange| supply_share_of(r))
            + r.percentage_of_supply)) by (nonlinear_arith)
            requires
                total_of(p, |r: WealthRange| supply_share_of(r)) >= 0,
        ;
    } else {
        assert(t.take(i) =~= t);
    }
}

/// Gini coefficient over buckets already in floor order.
fn gini_sorted(t: &Vec<WealthRange>) -> (g: u64)
    requires
        buckets_ok(t@),
    ensures
        g == (if lorenz_sum(t@) >= LORENZ_ONE {
            0
        } else {
            (LORENZ_ONE - lorenz_sum(t@)) / (PPM as int)
        }),
        g <= PPM,
{
    let mut l: u128 = 0;
    let mut wb: u128 = 0;
    let mut i: usize = 0;
    while i < t.len()
        invariant
            buckets_ok(t@),
            i <= t@.len(),
            l == lorenz_sum(t@.take(i as int)),
            l < LORENZ_ONE,
            wb == total_of(t@.take(i as int), |r: WealthRange| supply_share_of(r)),
            wb <= i * PPM,
        decreases t@.len() - i,
    {
        let r = t[i];
        proof {
            lemma_prefix_step(t@, i as int);
            lemma_bucket_at(t@, i as int);
            assert(r.percentage_of_addresses * (2 * wb + r.percentage_of_supply) <= PPM * (2
                * (usize::MAX * PPM) + PPM)) by (nonlinear_arith)
                requires
                    r.percentage_of_addresses <= PPM,
                    r.percentage_of_supply <= PPM,
                    wb <= i * PPM,
                    i <= usize::MAX,
            ;
        }
        let term = (r.percentage_of_addresses as u128) * (2 * wb + r.percentage_of_supply as u128);
        l = l + term;
        wb = wb + r.percentage_of_supply as u128;
        i = i + 1;
        if l >= LORENZ_ONE {
            proof {
                lemma_lorenz_grows(t@, i as int);
            }
            return 0;
        }
    }
    proof {
        assert(t@.take(t@.len() as int) =~= t@);
    }
    assert((LORENZ_ONE - l) / (PPM as int) <= PPM) by (nonlinear_arith)
        requires
            l < LORENZ_ONE,
    ;
    ((LORENZ_ONE - l) / (PPM as u128)) as u64
}

/// Supply share of the wealthiest `k` parts per million of addresses, over
/// buckets already in floor order.
fn share_of_top(t: &Vec<WealthRange>, k: u64) -> (c: u128)
    requires
        buckets_ok(t@),
    ensures
        c == share_from_top(t@, 0, k as int),
{
    let mut acc: u128 = 0;
    let mut cum: u64 = 0;
    let mut i: usize = t.len();
    assert(t@.take(i as int) =~= t@);
    while i > 0
        invariant
            buckets_ok(t@),
            t@.len() <= usize::MAX,
            i <= t@.len(),
            cum <= k,
            acc + share_from_top(t@.take(i as int), cum as int, k as int) == share_from_top(
                t@,
                0,
                k as int,
            ),
            acc <= (t@.len() - i) * PPM,
        decreases i,
    {
        let r = t[i - 1];
        proof {
            lemma_prefix_step(t@, i - 1);
            assert(t@.take(i as int).last() == r);
            assert(t@.take(i as int).drop_last() == t@.take(i - 1));
            lemma_bucket_at(t@, i - 1);
            assert(acc + PPM <= (t@.len() - i + 1) * PPM) by (nonlinear_arith)
                requires
                    acc <= (t@.len() - i) * PPM,
            ;
            assert((t@.len() - i + 1) * PPM <= u128::MAX) by (nonlinear_arith)
                requires
                    t@.len() <= usize::MAX,
                    i >= 1,
            ;
            assert((r.percentage_of_supply as int) * ((k - cum) as int) <= PPM * u64::MAX)
                by (nonlinear_arith)
                requires
                    r.percentage_of_supply <= PPM,
                    0 <= k - cum <= u64::MAX,
            ;
        }
        let next = cum as u128 + r.percentage_of_addresses as u128;
        if next <= k as u128 {
            acc = acc + r.percentage_of_supply as u128;
            cum = next as u64;
            i = i - 1;
        } else {
            let part = (r.percentage_of_supply as u128) * ((k - cum) as u128) / (
            r.percentage_of_addresses as u128);
            assert(part <= r.percentage_of_supply) by (nonlinear_arith)
                requires
                    part == (r.percentage_of_supply as int) * ((k - cum) as int) / (
                    r.percentage_of_addresses as int),
                    0 <= k - cum < r.percentage_of_addresses,
            ;
            return acc + part;
        }
    }
    acc
}

/// Sum of squared supply shares, divided by `PPM`.
fn hhi_raw(s: &Vec<WealthRange>) -> (h: u128)
    requires
        buckets_ok(s@),
    ensures
        h == hhi_of(s@),
{
    let mut acc: u128 = 0;
    let mut i: usize = 0;
    while i < s.len()
        invariant
            buckets_ok(s@),
            i <= s@.len(),
            acc == total_of(
                s@.take(i as int),
                |r: WealthRange| r.percentage_of_supply * r.percentage_of_supply,
            ),
            acc <= i * (PPM * PPM),
        decreases s@.len() - i,
    {
        let r = s[i];
        proof {
            lemma_prefix_step(s@, i as int);
            lemma_bucket_at(s@, i as int);
            assert(r.percentage_of_supply * r.percentage_of_supply <= PPM * PPM) by (nonlinear_arith)
                requires
                    r.percentage_of_supply <= PPM,
            ;
            assert((i + 1) * (PPM * PPM) <= u128::MAX) by (nonlinear_arith)
                requires
                    i <= usize::MAX,
            ;
            assert(acc + r.percentage_of_supply * r.percentage_of_supply <= (i + 1) * (PPM * PPM))
                by (nonlinear_arith)
                requires
                    acc <= i * (PPM * PPM),
                    r.percentage_of_supply * r.percentage_of_supply <= PPM * PPM,
            ;
        }
        acc = acc + (r.percentage_of_supply as u128) * (r.percentage_of_supply as u128);
        i = i + 1;
    }
    proof {
        assert(s@.take(s@.len() as int) =~= s@);
    }
    acc / (PPM as u128)
}

/// Midpoint of a bucket.
fn midpoint_of(r: &WealthRange) -> (m: u64)
    requires
        r.bounds_ok(),
    ensures
        m == midpoint(*r),
{
    let top: u64 = match r.max_sats {
        Some(x) => x,
        None => r.min_sats * OPEN_SPAN,
    };
    (((r.min_sats as u128) + (top as u128)) / 2) as u64
}

/// Address-weighted mean of the bucket midpoints.
fn mean_sats(s: &Vec<WealthRange>) -> (m: u64)
    requires
        buckets_ok(s@),
        total_of(s@, |r: WealthRange| count_of(r)) <= u64::MAX,
    ensures
        m == mean_of(s@),
{
    let mut c: u128 = 0;
    let mut acc: u128 = 0;
    let mut i: usize = 0;
    proof {
        lemma_total_nonneg_bound(s@, |r: WealthRange| count_of(r), u64::MAX as int);
    }
    while i < s.len()
        invariant
            buckets_ok(s@),
            total_of(s@, |r: WealthRange| count_of(r)) <= u64::MAX,
            i <= s@.len(),
            c == total_of(s@.take(i as int), |r: WealthRange| count_of(r)),
            acc == total_of(s@.take(i as int), |r: WealthRange| r.address_count * midpoint(r)),
            acc <= c * u64::MAX,
            c <= total_of(s@, |r: WealthRange| count_of(r)),
        decreases s@.len() - i,
    {
        let r = s[i];
        proof {
            lemma_prefix_step(s@, i as int);
            lemma_bucket_at(s@, i as int);
            lemma_prefix_le_total(s@, i + 1);
        }
        let m = midpoint_of(&r);
        assert((r.address_count as int) * (m as int) <= (r.address_count as int) * u64::MAX)
            by (nonlinear_arith)
            requires
                m <= u64::MAX,
        ;
        assert((c + r.address_count) * u64::MAX <= u128::MAX) by (nonlinear_arith)
            requires
                c + r.address_count <= u64::MAX,
        ;
        acc = acc + (r.address_count as u128) * (m as u128);
        c = c + r.address_count as u128;
        i = i + 1;
    }
    proof {
        assert(s@.take(s@.len() as int) =~= s@);
    }
    if c == 0 {
        return 0;
    }
    assert((acc as int) / (c as int) <= u64::MAX) by (nonlinear_arith)
        requires
            acc <= (c as int) * u64::MAX,
            c > 0,
    ;
    (acc / c) as u64
}

proof fn lemma_prefix_le_total(s: Seq<WealthRange>, i: int)
    requires
        0 <= i <= s.len(),
    ensures
        total_of(s.take(i), |r: WealthRange| count_of(r)) <= total_of(s, |r: WealthRange| count_of(r)),
    decreases s.len() - i,
{
    if i < s.len() {
        lemma_prefix_le_total(s, i + 1);
        lemma_prefix_step(s, i);
    } else {
        assert(s.take(i) =~= s);
    }
}

/// Midpoint of the bucket, among `t` in order, where the running address
/// share first reaches one half.
fn median_sorted(t: &Vec<WealthRange>) -> (m: u64)
    requires
        buckets_ok(t@),
    ensures
        m == (match reaching_index(t@, (PPM / 2) as int) {
            Some(i) => midpoint(t@[i]),
            None => 0,
        }),
{
    let mut cum: u128 = 0;
    let mut i: usize = 0;
    while i < t.len()
        invariant
            buckets_ok(t@),
            i <= t@.len(),
            cum == total_of(t@.take(i as int), |r: WealthRange| address_share_of(r)),
            cum <= i * PPM,
            reaching_index(t@.take(i as int), (PPM / 2) as int) is None,
        decreases t@.len() - i,
    {
        let r = t[i];
        proof {
            lemma_prefix_step(t@, i as int);
            lemma_bucket_at(t@, i as int);
        }
        cum = cum + r.percentage_of_addresses as u128;
        if cum >= (PPM / 2) as u128 {
            proof {
                lemma_reaching_prefix(t@, i + 1, (PPM / 2) as int);
            }
            return midpoint_of(&r);
        }
        i = i + 1;
    }
    proof {
        assert(t@.take(t@.len() as int) =~= t@);
    }
    0
}

pub(crate) proof fn lemma_reaching_prefix(t: Seq<WealthRange>, i: int, target: int)
    requires
        0 < i <= t.len(),
        reaching_index(t.take(i), target) is Some,
    ensures
        reaching_index(t, target) == reaching_index(t.take(i), target),
    decreases t.len() - i,
{
    if i < t.len() {
        lemma_prefix_step(t, i);
        lemma_reaching_prefix(t, i + 1, target);
    } else {
        assert(t.take(i) =~= t);
    }
}

/// Sorting keeps every bucket well formed.
pub proof fn lemma_sort_buckets_ok(s: Seq<WealthRange>)
    requires
        buckets_ok(s),
    ensures
        buckets_ok(sort_by_min(s)),
{
    crate::sort::lemma_sort_members(s);
    let u = sort_by_min(s);
    assert forall|i: int| 0 <= i < u.len() implies {
        &&& #[trigger] u[i].bounds_ok()
        &&& u[i].percentage_of_addresses <= PPM
        &&& u[i].percentage_of_supply <= PPM
    } by {
        assert(s.contains(u[i]));
        let j = choose|j: int| 0 <= j < s.len() && s[j] == u[i];
        assert(s[j].bounds_ok());
    }
}

proof fn lemma_lorenz_nonneg(t: Seq<WealthRange>)
    ensures
        lorenz_sum(t) >= 0,
    decreases t.len(),
{
    if t.len() > 0 {
        let p = t.drop_last();
        let r = t.last();
        lemma_lorenz_nonneg(p);
        lemma_total_nonneg_bound(p, |r: WealthRange| supply_share_of(r), u64::MAX as int);
        assert(0 <= r.percentage_of_addresses * (2 * total_of(p, |r: WealthRange| supply_share_of(r))
            + r.percentage_of_supply)) by (nonlinear_arith)
            requires
                total_of(p, |r: WealthRange| supply_share_of(r)) >= 0,
        ;
    }
}

/// The Gini coefficient lies between zero and one whole.
pub proof fn lemma_gini_bounds(s: Seq<WealthRange>)
    ensures
        0 <= gini_of(s) <= PPM,
{
    lemma_lorenz_nonneg(sort_by_min(s));
}

proof fn lemma_lorenz_equal(t: Seq<WealthRange>, p: int)
    requires
        forall|i: int|
            0 <= i < t.len() ==> #[trigger] t[i].percentage_of_addresses == p
                && t[i].percentage_of_supply == p,
    ensures
        lorenz_sum(t) == p * p * (t.len() * t.len()),
        total_of(t, |r: WealthRange| supply_share_of(r)) == p * t.len(),
    decreases t.len(),
{
    if t.len() > 0 {
        let q = t.drop_last();
        assert forall|i: int| 0 <= i < q.len() implies #[trigger] q[i].percentage_of_addresses == p
            && q[i].percentage_of_supply == p by {
            assert(q[i] == t[i]);
        }
        lemma_lorenz_equal(q, p);
        let n = q.len() as int;
        assert(t.last() == t[t.len() - 1]);
        assert(t[t.len() - 1].percentage_of_addresses == p && t[t.len() - 1].percentage_of_supply
            == p);
        let w = total_of(q, |r: WealthRange| supply_share_of(r));
        assert(lorenz_sum(t) == lorenz_sum(q) + p * (2 * w + p));
        assert(lorenz_sum(t) == p * p * (t.len() * t.len())) by (nonlinear_arith)
            requires
                lorenz_sum(t) == lorenz_sum(q) + p * (2 * w + p),
                lorenz_sum(q) == p * p * (n * n),
                w == p * n,
                t.len() == n + 1,
        ;
        assert(p * n + p == p * (n + 1)) by (nonlinear_arith);
    } else {
        assert(p * p * (t.len() * t.len()) == 0 && p * t.len() == 0) by (nonlinear_arith)
            requires
                t.len() == 0,
        ;
    }
}

/// Buckets that all hold the same share of addresses and the same share of
/// supply, with the address shares making up one whole, have a Gini
/// coefficient of zero.
pub proof fn lemma_gini_equal_shares(s: Seq<WealthRange>, p: int)
    requires
        forall|i: int|
            0 <= i < s.len() ==> #[trigger] s[i].percentage_of_addresses == p
                && s[i].percentage_of_supply == p,
        p * s.len() == PPM,
    ensures
        gini_of(s) == 0,
{
    let t = sort_by_min(s);
    crate::sort::lemma_sort_members(s);
    lemma_sort_len(s);
    assert forall|i: int| 0 <= i < t.len() implies #[trigger] t[i].percentage_of_addresses == p
        && t[i].percentage_of_supply == p by {
        assert(s.contains(t[i]));
        let j = choose|j: int| 0 <= j < s.len() && s[j] == t[i];
        assert(s[j].percentage_of_addresses == p);
    }
    lemma_lorenz_equal(t, p);
    let n = s.len() as int;
    assert(p * p * (n * n) == (p * n) * (p * n)) by (nonlinear_arith);
}

proof fn lemma_lorenz_empty_supply(t: Seq<WealthRange>)
    requires
        forall|i: int| 0 <= i < t.len() ==> #[trigger] t[i].percentage_of_supply == 0,
    ensures
        lorenz_sum(t) == 0,
        total_of(t, |r: WealthRange| supply_share_of(r)) == 0,
    decreases t.len(),
{
    if t.len() > 0 {
        let q = t.drop_last();
        assert forall|i: int| 0 <= i < q.len() implies #[trigger] q[i].percentage_of_supply == 0 by {
            assert(q[i] == t[i]);
        }
        lemma_lorenz_empty_supply(q);
        assert(t.last() == t[t.len() - 1]);
        assert(t[t.len() - 1].percentage_of_supply == 0);
        let a = t.last().percentage_of_addresses as int;
        assert(a * (2 * 0 + 0) == 0) by (nonlinear_arith);
    }
}

proof fn lemma_single_supply(s: Seq<WealthRange>, k: int)
    requires
        0 <= k < s.len(),
        forall|m: int| 0 <= m < s.len() && m != k ==> #[trigger] s[m].percentage_of_supply == 0,
    ensures
        total_of(s, |r: WealthRange| supply_share_of(r)) == s[k].percentage_of_supply,
    decreases s.len(),
{
    let q = s.drop_last();
    if k == s.len() - 1 {
        assert forall|i: int| 0 <= i < q.len() implies #[trigger] q[i].percentage_of_supply == 0 by {
            assert(q[i] == s[i]);
        }
        lemma_lorenz_empty_supply(q);
    } else {
        assert forall|m: int| 0 <= m < q.len() && m != k implies #[trigger] q[m].percentage_of_supply
            == 0 by {
            assert(q[m] == s[m]);
        }
        assert(q[k] == s[k]);
        lemma_single_supply(q, k);
        assert(s[s.len() - 1].percentage_of_supply == 0);
    }
}

proof fn lemma_zero_supply_terms(q: Seq<WealthRange>)
    requires
        total_of(q, |r: WealthRange| supply_share_of(r)) == 0,
    ensures
        forall|i: int| 0 <= i < q.len() ==> #[trigger] q[i].percentage_of_supply == 0,
    decreases q.len(),
{
    if q.len() > 0 {
        let p = q.drop_last();
        lemma_total_nonneg_bound(p, |r: WealthRange| supply_share_of(r), u64::MAX as int);
        lemma_zero_supply_terms(p);
        assert forall|i: int| 0 <= i < q.len() implies #[trigger] q[i].percentage_of_supply == 0 by {
            if i < p.len() {
                assert(q[i] == p[i]);
            }
        }
    }
}

proof fn lemma_some_supply(q: Seq<WealthRange>)
    requires
        total_of(q, |r: WealthRange| supply_share_of(r)) > 0,
    ensures
        exists|i: int| 0 <= i < q.len() && #[trigger] q[i].percentage_of_supply > 0,
    decreases q.len(),
{
    let p = q.drop_last();
    if q.last().percentage_of_supply > 0 {
        assert(q[q.len() - 1].percentage_of_supply > 0);
    } else {
        lemma_some_supply(p);
        let i = choose|i: int| 0 <= i < p.len() && #[trigger] p[i].percentage_of_supply > 0;
        assert(q[i] == p[i]);
    }
}

/// When one bucket, with a floor above every other, holds all of the supply
/// and the others none, the Gini coefficient is one whole less that bucket's
/// address share, whatever order the buckets come in.
pub proof fn lemma_gini_all_on_top(s: Seq<WealthRange>, k: int)
    requires
        0 <= k < s.len(),
        forall|m: int| 0 <= m < s.len() && m != k ==> #[trigger] s[m].min_sats < s[k].min_sats,
        forall|m: int| 0 <= m < s.len() && m != k ==> #[trigger] s[m].percentage_of_supply == 0,
        s[k].percentage_of_supply == PPM,
        s[k].percentage_of_addresses <= PPM,
    ensures
        gini_of(s) == PPM - s[k].percentage_of_addresses,
{
    let t = sort_by_min(s);
    crate::sort::lemma_sort_is_sorted_permutation(s);
    crate::sort::lemma_sort_members(s);
    lemma_sort_len(s);
    crate::sort::lemma_total_sort(s, |r: WealthRange| supply_share_of(r));
    lemma_single_supply(s, k);
    let n = t.len() as int;
    lemma_some_supply(t);
    let i = choose|i: int| 0 <= i < t.len() && #[trigger] t[i].percentage_of_supply > 0;
    assert(s.contains(t[i]));
    let mi = choose|m: int| 0 <= m < s.len() && s[m] == t[i];
    assert(mi == k);
    assert(s.contains(t[n - 1]));
    let ml = choose|m: int| 0 <= m < s.len() && s[m] == t[n - 1];
    if ml != k {
        assert(t[i].min_sats <= t[n - 1].min_sats);
        assert(false);
    }
    let q = t.drop_last();
    assert(t.last() == s[k]);
    assert(total_of(q, |r: WealthRange| supply_share_of(r)) == 0);
    lemma_zero_supply_terms(q);
    lemma_lorenz_empty_supply(q);
    let a = s[k].percentage_of_addresses as int;
    assert(lorenz_sum(t) == a * PPM);
    assert((LORENZ_ONE - a * PPM) / (PPM as int) == PPM - a) by (nonlinear_arith)
        requires
            0 <= a <= PPM,
    ;
}

proof fn lemma_top_takes_all(t: Seq<WealthRange>, cum: int, k: int)
    requires
        cum + total_of(t, |r: WealthRange| address_share_of(r)) <= k,
        forall|i: int| 0 <= i < t.len() ==> #[trigger] t[i].percentage_of_addresses >= 0,
    ensures
        share_from_top(t, cum, k) == total_of(t, |r: WealthRange| supply_share_of(r)),
    decreases t.len(),
{
    if t.len() > 0 {
        let q = t.drop_last();
        let r = t.last();
        lemma_total_nonneg_bound(q, |r: WealthRange| address_share_of(r), u64::MAX as int);
        lemma_top_takes_all(q, cum + r.percentage_of_addresses, k);
    }
}

/// When the address shares add up to at most one whole, the wealthiest
/// 100% of addresses hold exactly the sum of the supply shares.
pub proof fn lemma_concentration_of_everyone(s: Seq<WealthRange>)
    requires
        total_of(s, |r: WealthRange| address_share_of(r)) <= PPM,
    ensures
        concentration_of(s, PPM as int) == total_of(s, |r: WealthRange| supply_share_of(r)),
{
    let t = sort_by_min(s);
    crate::sort::lemma_total_sort(s, |r: WealthRange| address_share_of(r));
    crate::sort::lemma_total_sort(s, |r: WealthRange| supply_share_of(r));
    lemma_top_takes_all(t, 0, PPM as int);
}

/// Inequality figures of a distribution.
#[derive(Debug, Clone, PartialEq, Eq)]
pub struct WealthInequalityMetrics {
    /// Parts per million.
    pub gini_coefficient: u64,
    /// Hundredths of a point.
    pub hhi_index: u128,
    /// Pairs of an address share and the supply share its wealthiest holders
    /// own, both in parts per million.
    pub concentration_ratios: Vec<(u64, u128)>,
    /// Pairs of a percentile and the least holding that reaches it, as
    /// `calculate_percentile_thresholds` gives them.
    pub percentile_thresholds: Vec<(u64, u64)>,
}

/// Address shares, in parts per million, whose supply share is reported:
/// 0.1%, 0.5%, 1%, 5%, 10% and 25%.
pub open spec fn concentration_levels() -> Seq<u64> {
    seq![1_000, 5_000, 10_000, 50_000, 100_000, 250_000]
}

impl crate::distribution::PercentileCalculator {
    /// Supply share, in parts per million, held by the wealthiest `k` parts
    /// per million of addresses of a well-formed distribution.
    pub fn calculate_top_percent_wealth(&self, k: u64, d: &BitcoinDistribution) -> (c: u128)
        requires
            d.well_formed(),
        ensures
            c == concentration_of(d.ranges@, k as int),
    {
        let t = sorted_by_floor(&d.ranges);
        proof {
            lemma_sort_buckets_ok(d.ranges@);
        }
        share_of_top(&t, k)
    }

    /// Gini coefficient, HHI, top-share concentration at each of
    /// `concentration_levels`, and the percentile thresholds. A distribution that fails validation
    /// is an error.
    pub fn calculate_wealth_concentration(&self, d: &BitcoinDistribution) -> (r: Result<
        WealthInequalityMetrics,
        crate::validate::ValidationError,
    >)
        ensures
            match r {
                Ok(c) => {
                    &&& crate::validate::validation_error(*d) is None
                    &&& c.gini_coefficient == gini_of(d.ranges@)
                    &&& c.hhi_index == hhi_of(d.ranges@)
                    &&& c.percentile_thresholds@ == crate::threshold::thresholds_spec(d.ranges@)
                    &&& c.concentration_ratios@.len() == 6
                    &&& forall|i: int|
                        0 <= i < 6 ==> #[trigger] c.concentration_ratios@[i] == (
                            concentration_levels()[i],
                            concentration_of(d.ranges@, concentration_levels()[i] as int) as u128,
                        )
                },
                Err(e) => crate::validate::validation_error(*d) == Some(e),
            },
    {
        let dp = DataProcessor::new();
        match dp.validate_distribution(d) {
            Err(e) => {
                return Err(e);
            },
            Ok(_) => {},
        }
        let t = sorted_by_floor(&d.ranges);
        proof {
            lemma_sort_buckets_ok(d.ranges@);
        }
        let levels: Vec<u64> = vec![1_000, 5_000, 10_000, 50_000, 100_000, 250_000];
        let mut shares: Vec<(u64, u128)> = Vec::new();
        let mut i: usize = 0;
        while i < levels.len()
            invariant
                buckets_ok(t@),
                t@ == sort_by_min(d.ranges@),
                levels@ == concentration_levels(),
                i <= 6,
                shares@.len() == i,
                forall|j: int|
                    0 <= j < i ==> #[trigger] shares@[j] == (
                        concentration_levels()[j],
                        concentration_of(d.ranges@, concentration_levels()[j] as int) as u128,
                    ),
            decreases 6 - i,
        {
            let c = share_of_top(&t, levels[i]);
            shares.push((levels[i], c));
            i = i + 1;
        }
        Ok(WealthInequalityMetrics {
            gini_coefficient: gini_sorted(&t),
            hhi_index: hhi_raw(&d.ranges),
            concentration_ratios: shares,
            percentile_thresholds: self.thresholds_of(d),
        })
    }
}

impl DataProcessor {
    /// Mean, median, Gini coefficient, top-1%, 5% and 10% concentration and
    /// HHI of a well-formed distribution.
    pub fn calculate_statistics(&self, d: &BitcoinDistribution) -> (r: BitcoinStats)
        requires
            d.well_formed(),
        ensures
            r.mean_amount == mean_of(d.ranges@),
            r.median_amount == median_of(d.ranges@),
            r.gini_coefficient == gini_of(d.ranges@),
            r.top_1_percent_wealth == concentration_of(d.ranges@, 10_000),
            r.top_5_percent_wealth == concentration_of(d.ranges@, 50_000),
            r.top_10_percent_wealth == concentration_of(d.ranges@, 100_000),
            r.hhi_index == hhi_of(d.ranges@),
    {
        let t = sorted_by_floor(&d.ranges);
        proof {
            lemma_sort_buckets_ok(d.ranges@);
        }
        BitcoinStats {
            mean_amount: mean_sats(&d.ranges),
            median_amount: median_sorted(&t),
            gini_coefficient: gini_sorted(&t),
            top_1_percent_wealth: share_of_top(&t, 10_000),
            top_5_percent_wealth: share_of_top(&t, 50_000),
            top_10_percent_wealth: share_of_top(&t, 100_000),
            hhi_index: hhi_raw(&d.ranges),
        }
    }
}

} // verus!
