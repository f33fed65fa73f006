use vstd::prelude::*;
use crate::distribution::{
    buckets_ok, BitcoinDistribution, PercentileCalculator, WealthRange, OPEN_SPAN, POSITION_CAP,
    PPM,
};
use crate::position::{lemma_log_position_monotone, log_position, open_position};
use crate::sort::{lemma_sort_len, sort_by_min, sorted_by_floor};
use crate::stats::{lemma_sort_buckets_ok, reaching_index};
use crate::validate::{address_share_of, total_of, validation_error, ValidationError};

verus! {

/// Whether holding `sats` covers `missing` out of bucket `r`'s address
/// share `share`. In a bounded bucket the holding's exact fraction of the way
/// from floor to ceiling must be at least `missing / share`; in the open
/// bucket its position times `share` must be at least `missing × PPM`.
pub open spec fn covers(r: WealthRange, sats: int, missing: int, share: int) -> bool {
    match r.max_sats {
        Some(m) => (sats - r.min_sats) * share >= missing * (m - r.min_sats),
        None => log_position(sats, r.min_sats as int) * share >= missing * PPM,
    }
}

/// Whether holding `sats` of the open bucket `r` covers `missing`, or lies
/// at its modelled ceiling.
pub open spec fn open_reaches(r: WealthRange, sats: int, missing: int, share: int) -> bool {
    sats >= r.spec_ceiling() || covers(r, sats, missing, share)
}

/// `sats` is the least holding of the open bucket `r` that reaches
/// `missing`.
pub open spec fn least_open_amount(r: WealthRange, missing: int, share: int, sats: int) -> bool {
    &&& r.min_sats <= sats <= r.spec_ceiling()
    &&& open_reaches(r, sats, missing, share)
    &&& forall|a: int| r.min_sats <= a < sats ==> !open_reaches(r, a, missing, share)
}

/// The least holding in bucket `r` that covers `missing` of its address
/// share `share`: for a bounded bucket `min + ⌈missing × (max − min) / share⌉`
/// (the floor when the share is zero), for the open bucket the least holding
/// that covers it on the logarithmic scale, or else the modelled ceiling.
pub open spec fn amount_in(r: WealthRange, missing: int, share: int) -> int {
    match r.max_sats {
        Some(m) => if share == 0 {
            r.min_sats as int
        } else {
            r.min_sats + (missing * (m - r.min_sats) + share - 1) / share
        },
        None => choose|a: int| least_open_amount(r, missing, share, a),
    }
}

/// The largest upper edge among the buckets, the open bucket counting with
/// its modelled ceiling.
pub open spec fn max_ceiling(s: Seq<WealthRange>) -> int
    decreases s.len(),
{
    if s.len() == 0 {
        0
    } else {
        let m = max_ceiling(s.drop_last());
        let c = s.last().spec_ceiling();
        if c > m {
            c
        } else {
            m
        }
    }
}

/// The least holding at percentile `p` (parts per million): in floor order,
/// the bucket where the running address share first reaches `p`, at the
/// holding that covers the share still missing before it. When no bucket
/// reaches `p`, the largest upper edge.
pub open spec fn amount_at_percentile(s: Seq<WealthRange>, p: int) -> int {
    let t = sort_by_min(s);
    match reaching_index(t, p) {
        Some(i) => {
            let before = total_of(t.take(i), |r: WealthRange| address_share_of(r));
            amount_in(t[i], p - before, t[i].percentage_of_addresses as int)
        },
        None => max_ceiling(s),
    }
}

proof fn lemma_least_unique(r: WealthRange, missing: int, share: int, a: int, b: int)
    requires
        least_open_amount(r, missing, share, a),
        least_open_amount(r, missing, share, b),
    ensures
        a == b,
{
    if a < b {
        assert(!open_reaches(r, a, missing, share));
    }
    if b < a {
        assert(!open_reaches(r, b, missing, share));
    }
}

/// The least holding of the open bucket `r` that covers `missing` of `share`.
fn open_amount(r: &WealthRange, missing: u64, share: u64) -> (a: u64)
    requires
        r.max_sats is None,
        r.bounds_ok(),
        missing <= share <= PPM,
    ensures
        least_open_amount(*r, missing as int, share as int, a as int),
{
    let min = r.min_sats;
    let top: u64 = min * OPEN_SPAN;
    let mut lo: u64 = min;
    let mut hi: u64 = top;
    assert((missing as int) * PPM <= PPM * PPM) by (nonlinear_arith)
        requires
            missing <= PPM,
    ;
    let need: u128 = (missing as u128) * (PPM as u128);
    while lo < hi
        invariant
            r.max_sats is None,
            min == r.min_sats,
            min <= lo <= hi <= top,
            top == r.spec_ceiling(),
            need == missing * PPM,
            share <= PPM,
            open_reaches(*r, hi as int, missing as int, share as int),
            forall|a: int| min <= a < lo ==> !open_reaches(*r, a, missing as int, share as int),
        decreases hi - lo,
    {
        let mid = lo + (hi - lo) / 2;
        let p = open_position(mid, min);
        proof {
            lemma_log_position_monotone(mid as int, mid as int, min as int);
        }
        assert((p as int) * (share as int) <= POSITION_CAP * PPM) by (nonlinear_arith)
            requires
                p <= POSITION_CAP,
                share <= PPM,
        ;
        if mid >= top || (p as u128) * (share as u128) >= need {
            hi = mid;
        } else {
            proof {
                assert forall|a: int| min <= a < mid + 1 implies !open_reaches(
                    *r,
                    a,
                    missing as int,
                    share as int,
                ) by {
                    lemma_log_position_monotone(a, mid as int, min as int);
                    assert(log_position(a, min as int) * share <= (p as int) * share)
                        by (nonlinear_arith)
                        requires
                            log_position(a, min as int) <= p,
                            share >= 0,
                    ;
                }
            }
            lo = mid + 1;
        }
    }
    lo
}

/// Largest upper edge among the buckets.
fn highest_ceiling(s: &Vec<WealthRange>) -> (m: u64)
    requires
        buckets_ok(s@),
    ensures
        m == max_ceiling(s@),
{
    let mut m: u64 = 0;
    let mut i: usize = 0;
    while i < s.len()
        invariant
            buckets_ok(s@),
            i <= s@.len(),
            m == max_ceiling(s@.take(i as int)),
        decreases s@.len() - i,
    {
        let r = s[i];
        proof {
            let t = s@.take(i as int + 1);
            assert(t.drop_last() =~= s@.take(i as int));
            assert(s@[i as int].bounds_ok());
        }
        let c = match r.max_sats {
            Some(x) => x,
            None => r.min_sats * OPEN_SPAN,
        };
        if c > m {
            m = c;
        }
        i = i + 1;
    }
    proof {
        assert(s@.take(s@.len() as int) =~= s@);
    }
    m
}

/// The least holding in bucket `r` that covers `missing` of `share`.
fn amount_within(r: &WealthRange, missing: u64, share: u64) -> (a: u64)
    requires
        r.bounds_ok(),
        missing <= share <= PPM,
    ensures
        a == amount_in(*r, missing as int, share as int),
{
    match r.max_sats {
        Some(m) => {
            if share == 0 {
                return r.min_sats;
            }
            let w = m - r.min_sats;
            assert((missing as int) * (w as int) <= PPM * u64::MAX) by (nonlinear_arith)
                requires
                    missing <= PPM,
                    w <= u64::MAX,
            ;
            let up = ((missing as u128) * (w as u128) + (share as u128) - 1) / (share as u128);
            assert(up <= w) by (nonlinear_arith)
                requires
                    up == ((missing as int) * (w as int) + share - 1) / (share as int),
                    missing <= share,
                    share > 0,
            ;
            r.min_sats + up as u64
        },
        None => {
            let a = open_amount(r, missing, share);
            proof {
                let c = choose|x: int| least_open_amount(*r, missing as int, share as int, x);
                lemma_least_unique(*r, missing as int, share as int, a as int, c);
            }
            a
        },
    }
}

proof fn lemma_reaching_prefix_none(t: Seq<WealthRange>, i: int, p: int)
    requires
        0 <= i < t.len(),
        reaching_index(t.take(i), p) is None,
        total_of(t.take(i + 1), |r: WealthRange| address_share_of(r)) >= p,
    ensures
        reaching_index(t, p) == Some(i),
    decreases t.len() - i,
{
    let u = t.take(i + 1);
    assert(u.drop_last() =~= t.take(i));
    assert(reaching_index(u, p) == Some(i));
    crate::stats::lemma_reaching_prefix(t, i + 1, p);
}

proof fn lemma_least_exists(r: WealthRange, missing: int, share: int, hi: int)
    requires
        r.min_sats <= hi <= r.spec_ceiling(),
        open_reaches(r, hi, missing, share),
    ensures
        exists|a: int| least_open_amount(r, missing, share, a),
    decreases hi - r.min_sats,
{
    if exists|a: int| r.min_sats <= a < hi && open_reaches(r, a, missing, share) {
        let a = choose|a: int| r.min_sats <= a < hi && open_reaches(r, a, missing, share);
        lemma_least_exists(r, missing, share, a);
    } else {
        assert(least_open_amount(r, missing, share, hi));
    }
}

/// The solver inverts the position exactly: the holding it gives for a
/// share `missing` out of a bucket's address share covers it, and every
/// smaller holding from the bucket's floor up falls short. In the open bucket
/// this needs `missing` to be within reach of the capped position.
pub proof fn lemma_amount_in_is_least(r: WealthRange, missing: int, share: int)
    requires
        r.bounds_ok(),
        0 <= missing <= share,
        r.max_sats is None ==> missing * PPM <= POSITION_CAP * share,
    ensures
        r.min_sats <= amount_in(r, missing, share) <= r.spec_ceiling(),
        covers(r, amount_in(r, missing, share), missing, share),
        forall|a: int|
            r.min_sats <= a < amount_in(r, missing, share) ==> !covers(r, a, missing, share),
{
    let min = r.min_sats as int;
    match r.max_sats {
        Some(m) => {
            let w = m - min;
            if share > 0 {
                let c = (missing * w + share - 1) / share;
                assert(c * share >= missing * w && c >= 0) by (nonlinear_arith)
                    requires
                        c == (missing * w + share - 1) / share,
                        0 <= missing,
                        share > 0,
                        w > 0,
                ;
                assert(missing * w <= share * w) by (nonlinear_arith)
                    requires
                        0 <= missing <= share,
                        w > 0,
                ;
                assert(missing * w + share - 1 < (w + 1) * share) by (nonlinear_arith)
                    requires
                        missing * w <= share * w,
                        share > 0,
                ;
                assert(c <= w) by (nonlinear_arith)
                    requires
                        c == (missing * w + share - 1) / share,
                        missing * w + share - 1 < (w + 1) * share,
                        share > 0,
                ;
                assert forall|a: int| min <= a < min + c implies !covers(r, a, missing, share) by {
                    let e = a - min;
                    assert(e * share < missing * w) by (nonlinear_arith)
                        requires
                            0 <= e < c,
                            c == (missing * w + share - 1) / share,
                            share > 0,
                    ;
                }
            } else {
                assert(missing * w == 0) by (nonlinear_arith)
                    requires
                        0 <= missing <= share,
                        share == 0,
                ;
            }
        },
        None => {
            let top = OPEN_SPAN * min;
            lemma_log_position_monotone(top, top, min);
            assert(POSITION_CAP * share >= missing * PPM);
            lemma_least_exists(r, missing, share, top);
            let a0 = amount_in(r, missing, share);
            assert(least_open_amount(r, missing, share, a0));
            if a0 >= top {
                assert(covers(r, top, missing, share));
            }
            assert forall|a: int| min <= a < a0 implies !covers(r, a, missing, share) by {
                assert(!open_reaches(r, a, missing, share));
            }
        },
    }
}

impl PercentileCalculator {
    /// The least holding that reaches percentile `p` (parts per million) of a
    /// well-formed distribution: the inverse of the percentile lookup.
    pub fn calculate_amount_at_percentile(&self, p: u64, d: &BitcoinDistribution) -> (a: u64)
        requires
            d.well_formed(),
        ensures
            a == amount_at_percentile(d.ranges@, p as int),
    {
        let t = sorted_by_floor(&d.ranges);
        proof {
            lemma_sort_buckets_ok(d.ranges@);
            lemma_sort_len(d.ranges@);
        }
        let mut cum: u128 = 0;
        let mut i: usize = 0;
        while i < t.len()
            invariant
                buckets_ok(t@),
                t@ == sort_by_min(d.ranges@),
                i <= t@.len(),
                cum == total_of(t@.take(i as int), |r: WealthRange| address_share_of(r)),
                cum <= i * PPM,
                reaching_index(t@.take(i as int), p as int) is None,
                cum < p || i == 0,
            decreases t@.len() - i,
        {
            let r = t[i];
            proof {
                let u = t@.take(i as int + 1);
                assert(u.drop_last() =~= t@.take(i as int));
                assert(t@[i as int].bounds_ok());
            }
            let next = cum + r.percentage_of_addresses as u128;
            if next >= p as u128 {
                proof {
                    lemma_reaching_prefix_none(t@, i as int, p as int);
                    if i == 0 {
                        assert(t@.take(0) =~= Seq::<WealthRange>::empty());
                    }
                }
                let missing = (p as u128 - cum) as u64;
                return amount_within(&r, missing, r.percentage_of_addresses);
            }
            cum = next;
            i = i + 1;
        }
        proof {
            assert(t@.take(t@.len() as int) =~= t@);
        }
        highest_ceiling(&d.ranges)
    }

    /// The thresholds of a well-formed distribution.
    pub(crate) fn thresholds_of(&self, d: &BitcoinDistribution) -> (v: Vec<(u64, u64)>)
        requires
            d.well_formed(),
        ensures
            v@ == thresholds_spec(d.ranges@),
    {
        let levels: Vec<u64> = vec![
            10_000,
            50_000,
            100_000,
            250_000,
            500_000,
            750_000,
            900_000,
            950_000,
            990_000,
            999_000,
        ];
        let mut out: Vec<(u64, u64)> = Vec::new();
        let mut i: usize = 0;
        while i < levels.len()
            invariant
                d.well_formed(),
                levels@ == threshold_levels(),
                i <= 10,
                out@.len() == i,
                forall|j: int| 0 <= j < i ==> #[trigger] out@[j] == thresholds_spec(d.ranges@)[j],
            decreases 10 - i,
        {
            let a = self.calculate_amount_at_percentile(levels[i], d);
            out.push((levels[i], a));
            i = i + 1;
        }
        assert(out@ =~= thresholds_spec(d.ranges@));
        out
    }

    /// Holdings needed for the 1st, 5th, 10th, 25th, 50th, 75th, 90th, 95th,
    /// 99th and 99.9th percentiles, each paired with its percentile in parts
    /// per million. A distribution that fails validation is an error.
    pub fn calculate_percentile_thresholds(&self, d: &BitcoinDistribution) -> (r: Result<
        Vec<(u64, u64)>,
        ValidationError,
    >)
        ensures
            match r {
                Ok(v) => validation_error(*d) is None && v@ == thresholds_spec(d.ranges@),
                Err(e) => validation_error(*d) == Some(e),
            },
    {
        let dp = crate::distribution::DataProcessor::new();
        match dp.validate_distribution(d) {
            Err(e) => {
                return Err(e);
            },
            Ok(_) => {},
        }
        Ok(self.thresholds_of(d))
    }
}

/// Each reported percentile paired with the least holding that reaches it.
pub open spec fn thresholds_spec(s: Seq<WealthRange>) -> Seq<(u64, u64)> {
    Seq::new(
        10,
        |i: int| (threshold_levels()[i], amount_at_percentile(s, threshold_levels()[i] as int) as u64),
    )
}

/// The percentiles reported as thresholds, in parts per million.
pub open spec fn threshold_levels() -> Seq<u64> {
    seq![10_000, 50_000, 100_000, 250_000, 500_000, 750_000, 900_000, 950_000, 990_000, 999_000]
}

} // verus!
