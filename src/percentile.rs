use vstd::prelude::*;
use crate::category::{category_of, WealthCategory};
use crate::distribution::{BitcoinDistribution, DataProcessor, WealthRange, PPM, SUPPLY_CAP};
use crate::position::{locate, weighted_position, weighted_within};
use crate::stats::{mean_of, median_of};
use crate::validate::{count_of, total_of, validation_error, ValidationError};

verus! {

/// Why a percentile could not be computed.
#[derive(Debug, Clone, Copy, PartialEq, Eq, Structural)]
pub enum CalcError {
    /// The holding exceeds the total supply that can exist.
    InvalidAmount,
    /// The distribution failed a hard check.
    Invalid(ValidationError),
    /// No bucket contains the holding.
    NotInAnyRange,
}

/// How a holding compares with the distribution as a whole, each figure in
/// parts per million.
#[derive(Debug, Clone, Copy, PartialEq, Eq, Structural)]
pub struct ComparisonMetrics {
    /// Holding over the median holding; zero when the median is zero.
    pub vs_median_ratio: u128,
    /// Holding over the mean holding; zero when the mean is zero.
    pub vs_mean_ratio: u128,
    /// Holding over the total supply.
    pub supply_share: u128,
    /// Whole days needed to accumulate the holding at 0.001, 0.01 and 0.1
    /// coin a day.
    pub days_at_thousandth_per_day: u64,
    pub days_at_hundredth_per_day: u64,
    pub days_at_tenth_per_day: u64,
}

/// `num / den` in parts per million, or zero for a zero `den`.
pub open spec fn ratio_ppm(num: int, den: int) -> int {
    if den == 0 {
        0
    } else {
        num * PPM / den
    }
}

/// The comparison figures of holding `sats`.
pub open spec fn metrics_of(d: BitcoinDistribution, sats: int) -> ComparisonMetrics {
    ComparisonMetrics {
        vs_median_ratio: ratio_ppm(sats, median_of(d.ranges@)) as u128,
        vs_mean_ratio: ratio_ppm(sats, mean_of(d.ranges@)) as u128,
        supply_share: ratio_ppm(sats, d.total_supply as int) as u128,
        days_at_thousandth_per_day: (sats / 100_000) as u64,
        days_at_hundredth_per_day: (sats / 1_000_000) as u64,
        days_at_tenth_per_day: (sats / 10_000_000) as u64,
    }
}

/// Where one holding stands within a distribution.
#[derive(Debug, Clone, Copy, PartialEq, Eq, Structural)]
pub struct PercentileResult {
    pub user_sats: u64,
    /// Share of addresses holding less, in parts per million: addresses
    /// below over total addresses, held at one whole.
    pub percentile: u64,
    /// Place counted from the top, in millionths of an address: total
    /// addresses less those below, or zero when those below are more.
    pub rank: u128,
    /// Addresses holding less, interpolated inside the holding's bucket, in
    /// millionths of an address.
    pub addresses_below: u128,
    /// Addresses not below, in millionths of an address; equal to `rank`.
    pub addresses_above: u128,
    pub wealth_category: WealthCategory,
    pub comparison_metrics: ComparisonMetrics,
}

/// Whether bucket `r` lies wholly at or below `x`.
pub open spec fn ends_by(r: WealthRange, x: int) -> bool {
    match r.max_sats {
        Some(m) => m <= x,
        None => false,
    }
}

/// Addresses in the buckets that lie wholly at or below `x`.
pub open spec fn count_below(s: Seq<WealthRange>, x: int) -> int {
    total_of(s, |r: WealthRange| if ends_by(r, x) { count_of(r) } else { 0 })
}

/// `k` is the first bucket containing `sats`.
pub open spec fn first_containing(s: Seq<WealthRange>, sats: int, k: int) -> bool {
    &&& 0 <= k < s.len()
    &&& s[k].spec_contains(sats)
    &&& forall|j: int| 0 <= j < k ==> !(#[trigger] s[j]).spec_contains(sats)
}

/// Some bucket contains `sats`.
pub open spec fn located(s: Seq<WealthRange>, sats: int) -> bool {
    exists|k: int| 0 <= k < s.len() && (#[trigger] s[k]).spec_contains(sats)
}

/// Addresses below `sats`, in millionths of an address: the buckets wholly
/// below bucket `k`, plus bucket `k`'s count weighted by how far into it
/// `sats` lies.
pub open spec fn fixed_below(s: Seq<WealthRange>, k: int, sats: int) -> int {
    count_below(s, s[k].min_sats as int) * PPM + weighted_position(s[k], sats)
}

/// A share held at one whole: bucket counts above the declared total would
/// otherwise give more than 100%.
pub open spec fn capped_share(x: int) -> int {
    if x > PPM {
        PPM as int
    } else {
        x
    }
}

/// The result for a holding that lies in bucket `k`.
pub open spec fn result_at(d: BitcoinDistribution, k: int, sats: int) -> PercentileResult {
    let below = fixed_below(d.ranges@, k, sats);
    let all = d.total_addresses * PPM;
    let rank = if below <= all { all - below } else { 0 };
    PercentileResult {
        user_sats: sats as u64,
        percentile: capped_share(below / (d.total_addresses as int)) as u64,
        rank: rank as u128,
        addresses_below: below as u128,
        addresses_above: rank as u128,
        wealth_category: category_of(sats),
        comparison_metrics: metrics_of(d, sats),
    }
}

/// The bucket a located holding falls in.
pub open spec fn containing_index(s: Seq<WealthRange>, sats: int) -> int {
    choose|k: int| first_containing(s, sats, k)
}

/// The result for a holding that some bucket contains.
pub open spec fn result_of(d: BitcoinDistribution, sats: int) -> PercentileResult {
    result_at(d, containing_index(d.ranges@, sats), sats)
}

pub(crate) proof fn lemma_first_unique(s: Seq<WealthRange>, sats: int, k: int)
    requires
        first_containing(s, sats, k),
    ensures
        containing_index(s, sats) == k,
{
    let c = containing_index(s, sats);
    assert(first_containing(s, sats, c));
    if c < k {
        assert(!s[c].spec_contains(sats));
    }
    if k < c {
        assert(!s[k].spec_contains(sats));
    }
}

pub(crate) proof fn lemma_located_first(s: Seq<WealthRange>, sats: int)
    requires
        located(s, sats),
    ensures
        first_containing(s, sats, containing_index(s, sats)),
    decreases s.len(),
{
    let k0 = choose|k: int| 0 <= k < s.len() && (#[trigger] s[k]).spec_contains(sats);
    lemma_first_from(s, sats, k0);
    assert(first_containing(s, sats, first_from(s, sats, k0)));
}

spec fn first_from(s: Seq<WealthRange>, sats: int, k: int) -> int
    decreases k,
{
    if k <= 0 {
        0
    } else if exists|j: int| 0 <= j < k && (#[trigger] s[j]).spec_contains(sats) {
        first_from(s, sats, k - 1)
    } else {
        k
    }
}

proof fn lemma_first_from(s: Seq<WealthRange>, sats: int, k: int)
    requires
        0 <= k < s.len(),
        s[k].spec_contains(sats) || exists|j: int| 0 <= j < k && (#[trigger] s[j]).spec_contains(
            sats,
        ),
    ensures
        first_containing(s, sats, first_from(s, sats, k)),
    decreases k,
{
    if k > 0 && exists|j: int| 0 <= j < k && (#[trigger] s[j]).spec_contains(sats) {
        lemma_first_from(s, sats, k - 1);
    }
}

proof fn lemma_count_below_monotone(s: Seq<WealthRange>, x: int, y: int)
    requires
        x <= y,
    ensures
        count_below(s, x) <= count_below(s, y),
    decreases s.len(),
{
    if s.len() > 0 {
        lemma_count_below_monotone(s.drop_last(), x, y);
    }
}

proof fn lemma_count_below_gains(s: Seq<WealthRange>, x: int, y: int, k: int)
    requires
        x <= y,
        0 <= k < s.len(),
        !ends_by(s[k], x),
        ends_by(s[k], y),
    ensures
        count_below(s, x) + s[k].address_count <= count_below(s, y),
    decreases s.len(),
{
    let p = s.drop_last();
    if k == s.len() - 1 {
        lemma_count_below_monotone(p, x, y);
    } else {
        assert(p[k] == s[k]);
        lemma_count_below_gains(p, x, y, k);
    }
}

/// The weighted position inside a bucket lies between none and all of the
/// bucket's addresses.
pub(crate) proof fn lemma_weighted_bounds(r: WealthRange, sats: int)
    requires
        r.bounds_ok(),
        r.spec_contains(sats),
    ensures
        0 <= weighted_position(r, sats) <= r.address_count * PPM,
{
    let c = r.address_count as int;
    match r.max_sats {
        Some(m) => {
            let w = m - r.min_sats;
            let e = sats - r.min_sats;
            assert(0 <= c * e * PPM / w <= c * PPM) by (nonlinear_arith)
                requires
                    0 <= e < w,
                    c >= 0,
            ;
        },
        None => {
            crate::position::lemma_log_position_monotone(sats, sats, r.min_sats as int);
            let l = crate::position::log_position(sats, r.min_sats as int);
            assert(0 <= c * l <= c * PPM) by (nonlinear_arith)
                requires
                    0 <= l <= PPM,
                    c >= 0,
            ;
        },
    }
}

/// Within one bucket, the weighted position grows with the holding.
proof fn lemma_weighted_monotone(r: WealthRange, a: int, b: int)
    requires
        r.bounds_ok(),
        r.spec_contains(a),
        r.spec_contains(b),
        a <= b,
    ensures
        weighted_position(r, a) <= weighted_position(r, b),
{
    let c = r.address_count as int;
    match r.max_sats {
        Some(m) => {
            let w = m - r.min_sats;
            assert(c * (a - r.min_sats) * PPM / w <= c * (b - r.min_sats) * PPM / w)
                by (nonlinear_arith)
                requires
                    r.min_sats <= a <= b,
                    w > 0,
                    c >= 0,
            ;
        },
        None => {
            crate::position::lemma_log_position_monotone(a, b, r.min_sats as int);
            let la = crate::position::log_position(a, r.min_sats as int);
            let lb = crate::position::log_position(b, r.min_sats as int);
            assert(c * la <= c * lb) by (nonlinear_arith)
                requires
                    la <= lb,
                    c >= 0,
            ;
        },
    }
}

/// Of two holdings that the buckets of a well-formed, ordered distribution
/// contain, the larger never has the smaller percentile.
pub proof fn lemma_percentile_monotone(d: BitcoinDistribution, a1: int, a2: int)
    requires
        d.well_formed(),
        crate::distribution::ordered(d.ranges@),
        located(d.ranges@, a1),
        located(d.ranges@, a2),
        a1 <= a2,
    ensures
        result_of(d, a1).percentile <= result_of(d, a2).percentile,
{
    let s = d.ranges@;
    lemma_located_first(s, a1);
    lemma_located_first(s, a2);
    let k1 = containing_index(s, a1);
    let k2 = containing_index(s, a2);
    let r1 = s[k1];
    let r2 = s[k2];
    assert(r1.bounds_ok() && r2.bounds_ok());
    lemma_weighted_bounds(r1, a1);
    lemma_weighted_bounds(r2, a2);
    let b1 = fixed_below(s, k1, a1);
    let b2 = fixed_below(s, k2, a2);
    if k1 == k2 {
        lemma_weighted_monotone(r1, a1, a2);
    } else {
        if k2 < k1 {
            assert(false);
        }
        let x = r1.min_sats as int;
        let y = r2.min_sats as int;
        lemma_count_below_gains(s, x, y, k1);
        assert(b1 <= b2) by (nonlinear_arith)
            requires
                b1 <= count_below(s, x) * PPM + r1.address_count * PPM,
                count_below(s, x) + r1.address_count <= count_below(s, y),
                b2 >= count_below(s, y) * PPM,
        ;
    }
    let t = d.total_addresses as int;
    lemma_below_plus_own(s, k2);
    lemma_filtered_le(s, r1.min_sats as int);
    assert(0 <= b1);
    assert(b2 <= u64::MAX * PPM) by (nonlinear_arith)
        requires
            b2 <= count_below(s, r2.min_sats as int) * PPM + r2.address_count * PPM,
            count_below(s, r2.min_sats as int) + r2.address_count <= u64::MAX,
    ;
    assert(0 <= b1 / t <= b2 / t <= b2) by (nonlinear_arith)
        requires
            0 <= b1 <= b2,
            t > 0,
    ;
}

pub(crate) proof fn lemma_filtered_le(s: Seq<WealthRange>, x: int)
    ensures
        0 <= count_below(s, x) <= total_of(s, |r: WealthRange| count_of(r)),
    decreases s.len(),
{
    if s.len() > 0 {
        lemma_filtered_le(s.drop_last(), x);
    }
}

/// The bucket itself is never counted among those below its own floor.
pub(crate) proof fn lemma_below_plus_own(s: Seq<WealthRange>, k: int)
    requires
        0 <= k < s.len(),
        s[k].bounds_ok(),
    ensures
        count_below(s, s[k].min_sats as int) + s[k].address_count <= total_of(
            s,
            |r: WealthRange| count_of(r),
        ),
    decreases s.len(),
{
    let x = s[k].min_sats as int;
    let p = s.drop_last();
    if k == s.len() - 1 {
        lemma_filtered_le(p, x);
    } else {
        assert(p[k] == s[k]);
        lemma_below_plus_own(p, k);
    }
}

/// Addresses in the buckets wholly at or below `x`.
fn addresses_ending_by(s: &Vec<WealthRange>, x: u64) -> (c: u64)
    requires
        total_of(s@, |r: WealthRange| count_of(r)) <= u64::MAX,
    ensures
        c == count_below(s@, x as int),
{
    let mut acc: u128 = 0;
    let mut i: usize = 0;
    proof {
        lemma_filtered_le(s@, x as int);
    }
    while i < s.len()
        invariant
            i <= s@.len(),
            acc == count_below(s@.take(i as int), x as int),
            acc <= i * u64::MAX,
        decreases s@.len() - i,
    {
        let r = s[i];
        proof {
            let t = s@.take(i as int + 1);
            assert(t.drop_last() =~= s@.take(i as int));
            assert(t.last() == r);
            assert((i + 1) * u64::MAX <= u128::MAX) by (nonlinear_arith)
                requires
                    i <= usize::MAX,
            ;
        }
        let ends = match r.max_sats {
            Some(m) => m <= x,
            None => false,
        };
        if ends {
            acc = acc + r.address_count as u128;
        }
        i = i + 1;
    }
    proof {
        assert(s@.take(s@.len() as int) =~= s@);
    }
    acc as u64
}

/// Accepts a holding no larger than the supply that can exist.
pub fn validate_bitcoin_amount(sats: u64) -> (r: Result<(), CalcError>)
    ensures
        r is Ok <==> sats <= SUPPLY_CAP,
        r is Err ==> r == Err::<(), CalcError>(CalcError::InvalidAmount),
{
    if sats > SUPPLY_CAP {
        Err(CalcError::InvalidAmount)
    } else {
        Ok(())
    }
}

/// `num / den` in parts per million, or zero for a zero `den`.
fn ratio(num: u64, den: u64) -> (r: u128)
    requires
        num <= SUPPLY_CAP,
    ensures
        r == ratio_ppm(num as int, den as int),
{
    if den == 0 {
        0
    } else {
        assert((num as int) * PPM <= u128::MAX) by (nonlinear_arith)
            requires
                num <= SUPPLY_CAP,
        ;
        (num as u128) * (PPM as u128) / (den as u128)
    }
}

impl DataProcessor {
    /// The first bucket containing the holding, or none for a holding beyond
    /// the supply cap or outside every bucket.
    pub fn find_range_for_amount(&self, sats: u64, d: &BitcoinDistribution) -> (r: Option<
        WealthRange,
    >)
        ensures
            match r {
                Some(b) => sats <= SUPPLY_CAP && exists|k: int|
                    first_containing(d.ranges@, sats as int, k) && d.ranges@[k] == b,
                None => sats > SUPPLY_CAP || !located(d.ranges@, sats as int),
            },
    {
        if sats > SUPPLY_CAP {
            return None;
        }
        match locate(&d.ranges, sats) {
            Some(k) => Some(d.ranges[k]),
            None => None,
        }
    }
}

impl crate::distribution::PercentileCalculator {
    /// Where a holding stands: the share of addresses holding less, its rank
    /// from the top and its tier. A holding over the supply cap, a distribution
    /// that fails validation, and a holding outside every bucket are errors,
    /// checked in that order.
    pub fn calculate_user_percentile(&self, sats: u64, d: &BitcoinDistribution) -> (r: Result<
        PercentileResult,
        CalcError,
    >)
        ensures
            sats > SUPPLY_CAP ==> r == Err::<PercentileResult, CalcError>(CalcError::InvalidAmount),
            sats <= SUPPLY_CAP && validation_error(*d) is Some ==> r == Err::<
                PercentileResult,
                CalcError,
            >(CalcError::Invalid(validation_error(*d)->Some_0)),
            sats <= SUPPLY_CAP && validation_error(*d) is None && !located(
                d.ranges@,
                sats as int,
            ) ==> r == Err::<PercentileResult, CalcError>(CalcError::NotInAnyRange),
            r is Ok ==> d.well_formed() && located(d.ranges@, sats as int) && r->Ok_0 == result_of(
                *d,
                sats as int,
            ) && r->Ok_0.percentile <= PPM && r->Ok_0.percentile == capped_share(
                (r->Ok_0.addresses_below as int) / (d.total_addresses as int),
            ),
            sats <= SUPPLY_CAP && d.well_formed() && located(d.ranges@, sats as int) ==> r is Ok,
    {
        match validate_bitcoin_amount(sats) {
            Err(e) => {
                return Err(e);
            },
            Ok(_) => {},
        }
        let dp = DataProcessor::new();
        match dp.validate_distribution(d) {
            Err(e) => {
                return Err(CalcError::Invalid(e));
            },
            Ok(_) => {},
        }
        let k = match locate(&d.ranges, sats) {
            Some(k) => k,
            None => {
                return Err(CalcError::NotInAnyRange);
            },
        };
        let b = d.ranges[k];
        proof {
            assert(d.ranges@[k as int].bounds_ok());
            lemma_below_plus_own(d.ranges@, k as int);
        }
        let cb = addresses_ending_by(&d.ranges, b.min_sats);
        let part = weighted_within(&b, sats);
        let below: u128 = (cb as u128) * (PPM as u128) + part;
        assert(below <= u64::MAX * PPM) by (nonlinear_arith)
            requires
                below <= (cb as int) * PPM + (b.address_count as int) * PPM,
                cb + b.address_count <= u64::MAX,
        ;
        let all: u128 = (d.total_addresses as u128) * (PPM as u128);
        let rank: u128 = if below <= all {
            all - below
        } else {
            0
        };
        let stats = dp.calculate_statistics(d);
        let metrics = ComparisonMetrics {
            vs_median_ratio: ratio(sats, stats.median_amount),
            vs_mean_ratio: ratio(sats, stats.mean_amount),
            supply_share: ratio(sats, d.total_supply),
            days_at_thousandth_per_day: sats / 100_000,
            days_at_hundredth_per_day: sats / 1_000_000,
            days_at_tenth_per_day: sats / 10_000_000,
        };
        let q: u128 = below / (d.total_addresses as u128);
        let pct: u64 = if q > PPM as u128 {
            PPM
        } else {
            q as u64
        };
        let res = PercentileResult {
            user_sats: sats,
            percentile: pct,
            rank,
            addresses_below: below,
            addresses_above: rank,
            wealth_category: WealthCategory::from_btc_amount(sats),
            comparison_metrics: metrics,
        };
        assert(first_containing(d.ranges@, sats as int, k as int));
        assert(res == result_at(*d, k as int, sats as int));
        proof {
            lemma_first_unique(d.ranges@, sats as int, k as int);
        }
        Ok(res)
    }
}

} // verus!
