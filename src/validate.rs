use vstd::prelude::*;
use crate::distribution::{
    buckets_ok, BitcoinDistribution, DataProcessor, WealthRange, OPEN_SPAN, PPM, SUPPLY_CAP,
};
use crate::sort::{sort_by_min, sorted_by_floor, lemma_sort_len};

verus! {

/// A defect that makes a distribution unusable.
#[derive(Debug, Clone, Copy, PartialEq, Eq, Structural)]
pub enum ValidationError {
    EmptyRanges,
    ZeroTotalAddresses,
    NonPositiveSupply,
    SupplyExceedsCap,
    /// The bucket at this index has a ceiling not above its floor, or is the
    /// open bucket with a floor so high that `OPEN_SPAN` times it does not fit
    /// in 64 bits.
    InvalidBounds(usize),
    /// The bucket at this index claims more than all addresses.
    InvalidAddressPercentage(usize),
    /// The bucket at this index claims more than all of the supply.
    InvalidSupplyPercentage(usize),
    /// The bucket address counts add up to more than a 64-bit count can hold.
    AddressCountOverflow,
}

/// A deviation worth reporting that does not stop the calculations.
#[derive(Debug, Clone, Copy, PartialEq, Eq, Structural)]
pub enum ValidationWarning {
    /// Bucket address counts differ from the declared total by over 1%.
    AddressCountMismatch,
    /// Bucket amounts differ from the declared supply by over 1%.
    SupplyMismatch,
    /// Address shares do not add up to 100% within 1%.
    AddressShareSum,
    /// Supply shares do not add up to 100% within 1%.
    SupplyShareSum,
    /// In floor order, a bucket ends at the first value and the next one
    /// starts at the second.
    Discontinuity(u64, u64),
}

/// Sum of `f` over the buckets.
pub open spec fn total_of(s: Seq<WealthRange>, f: spec_fn(WealthRange) -> int) -> int
    decreases s.len(),
{
    if s.len() == 0 {
        0
    } else {
        total_of(s.drop_last(), f) + f(s.last())
    }
}

pub open spec fn count_of(r: WealthRange) -> int {
    r.address_count as int
}

pub open spec fn amount_of(r: WealthRange) -> int {
    r.total_sats as int
}

pub open spec fn address_share_of(r: WealthRange) -> int {
    r.percentage_of_addresses as int
}

pub open spec fn supply_share_of(r: WealthRange) -> int {
    r.percentage_of_supply as int
}

/// The first defect of a single bucket, checked in the order bounds, address
/// share, supply share.
pub open spec fn bucket_error(r: WealthRange, i: int) -> Option<ValidationError> {
    if !r.bounds_ok() {
        Some(ValidationError::InvalidBounds(i as usize))
    } else if r.percentage_of_addresses > PPM {
        Some(ValidationError::InvalidAddressPercentage(i as usize))
    } else if r.percentage_of_supply > PPM {
        Some(ValidationError::InvalidSupplyPercentage(i as usize))
    } else {
        None
    }
}

/// The defect of the lowest-indexed faulty bucket.
pub open spec fn first_bucket_error(s: Seq<WealthRange>) -> Option<ValidationError>
    decreases s.len(),
{
    if s.len() == 0 {
        None
    } else {
        match first_bucket_error(s.drop_last()) {
            Some(e) => Some(e),
            None => bucket_error(s.last(), s.len() - 1),
        }
    }
}

/// The hard defect a distribution is rejected for, if any.
pub open spec fn validation_error(d: BitcoinDistribution) -> Option<ValidationError> {
    if d.ranges@.len() == 0 {
        Some(ValidationError::EmptyRanges)
    } else if d.total_addresses == 0 {
        Some(ValidationError::ZeroTotalAddresses)
    } else if d.total_supply == 0 {
        Some(ValidationError::NonPositiveSupply)
    } else if d.total_supply > SUPPLY_CAP {
        Some(ValidationError::SupplyExceedsCap)
    } else if first_bucket_error(d.ranges@) is Some {
        first_bucket_error(d.ranges@)
    } else if total_of(d.ranges@, |r: WealthRange| count_of(r)) > u64::MAX {
        Some(ValidationError::AddressCountOverflow)
    } else {
        None
    }
}

/// Whether `actual` is off from `expected` by more than 1% of `expected`.
pub open spec fn off_by_over_a_percent(actual: int, expected: int) -> bool {
    let diff = if actual >= expected {
        actual - expected
    } else {
        expected - actual
    };
    diff * 100 > expected
}

/// The warnings on the aggregate sums.
pub open spec fn totals_warnings(d: BitcoinDistribution) -> Seq<ValidationWarning> {
    let s = d.ranges@;
    let w1 = if off_by_over_a_percent(
        total_of(s, |r: WealthRange| count_of(r)),
        d.total_addresses as int,
    ) {
        seq![ValidationWarning::AddressCountMismatch]
    } else {
        seq![]
    };
    let w2 = if off_by_over_a_percent(
        total_of(s, |r: WealthRange| amount_of(r)),
        d.total_supply as int,
    ) {
        seq![ValidationWarning::SupplyMismatch]
    } else {
        seq![]
    };
    let w3 = if off_by_over_a_percent(total_of(s, |r: WealthRange| address_share_of(r)), PPM as int) {
        seq![ValidationWarning::AddressShareSum]
    } else {
        seq![]
    };
    let w4 = if off_by_over_a_percent(total_of(s, |r: WealthRange| supply_share_of(r)), PPM as int) {
        seq![ValidationWarning::SupplyShareSum]
    } else {
        seq![]
    };
    w1 + w2 + w3 + w4
}

/// Gaps between neighbours among the first `n` buckets of `t`: a bounded
/// bucket whose ceiling is not the next bucket's floor.
pub open spec fn gap_warnings(t: Seq<WealthRange>, n: int) -> Seq<ValidationWarning>
    decreases n,
{
    if n <= 1 {
        seq![]
    } else {
        let prev = gap_warnings(t, n - 1);
        let a = t[n - 2];
        let b = t[n - 1];
        match a.max_sats {
            Some(m) => if m != b.min_sats {
                prev.push(ValidationWarning::Discontinuity(m, b.min_sats))
            } else {
                prev
            },
            None => prev,
        }
    }
}

/// All warnings for a distribution that passed the hard checks: the sums
/// first, then the gaps in floor order.
pub open spec fn warnings_of(d: BitcoinDistribution) -> Seq<ValidationWarning> {
    let t = sort_by_min(d.ranges@);
    totals_warnings(d) + gap_warnings(t, t.len() as int)
}

proof fn lemma_first_error_none(s: Seq<WealthRange>)
    ensures
        first_bucket_error(s) is None <==> buckets_ok(s),
    decreases s.len(),
{
    if s.len() > 0 {
        let p = s.drop_last();
        lemma_first_error_none(p);
        assert forall|i: int| 0 <= i < p.len() implies #[trigger] p[i] == s[i] by {}
        if buckets_ok(s) {
            assert(buckets_ok(p)) by {
                assert forall|i: int| 0 <= i < p.len() implies {
                    &&& #[trigger] p[i].bounds_ok()
                    &&& p[i].percentage_of_addresses <= PPM
                    &&& p[i].percentage_of_supply <= PPM
                } by {
                    assert(s[i].bounds_ok());
                }
            }
            assert(s[s.len() - 1].bounds_ok());
        }
        if first_bucket_error(s) is None {
            assert forall|i: int| 0 <= i < s.len() implies {
                &&& #[trigger] s[i].bounds_ok()
                &&& s[i].percentage_of_addresses <= PPM
                &&& s[i].percentage_of_supply <= PPM
            } by {
                if i < p.len() {
                    assert(p[i].bounds_ok());
                }
            }
        }
    }
}

proof fn lemma_first_error_prefix(s: Seq<WealthRange>, k: int)
    requires
        0 <= k <= s.len(),
        first_bucket_error(s.take(k)) is Some,
    ensures
        first_bucket_error(s) == first_bucket_error(s.take(k)),
    decreases s.len() - k,
{
    if k < s.len() {
        let t = s.take(k + 1);
        assert(t.drop_last() =~= s.take(k));
        lemma_first_error_prefix(s, k + 1);
    } else {
        assert(s.take(k) =~= s);
    }
}

/// A distribution passes the hard checks exactly when it is well formed.
pub proof fn lemma_valid_iff_well_formed(d: BitcoinDistribution)
    ensures
        validation_error(d) is None <==> d.well_formed(),
{
    lemma_first_error_none(d.ranges@);
}

fn wrong_by_over_a_percent(actual: u128, expected: u128) -> (r: bool)
    requires
        actual <= u64::MAX * u64::MAX,
        expected <= u64::MAX,
    ensures
        r == off_by_over_a_percent(actual as int, expected as int),
{
    let diff = if actual >= expected {
        actual - expected
    } else {
        expected - actual
    };
    let q = expected / 100;
    assert(diff * 100 > expected <==> diff > q) by (nonlinear_arith)
        requires
            q == expected / 100,
            diff >= 0,
            expected >= 0,
    ;
    diff > q
}

/// Sums the four per-bucket quantities the totals are checked against.
fn bucket_sums(s: &Vec<WealthRange>) -> (r: (u128, u128, u128, u128))
    ensures
        r.0 == total_of(s@, |r: WealthRange| count_of(r)),
        r.1 == total_of(s@, |r: WealthRange| amount_of(r)),
        r.2 == total_of(s@, |r: WealthRange| address_share_of(r)),
        r.3 == total_of(s@, |r: WealthRange| supply_share_of(r)),
        r.0 <= s@.len() * u64::MAX,
        r.1 <= s@.len() * u64::MAX,
        r.2 <= s@.len() * u64::MAX,
        r.3 <= s@.len() * u64::MAX,
{
    let mut c: u128 = 0;
    let mut a: u128 = 0;
    let mut pa: u128 = 0;
    let mut ps: u128 = 0;
    let mut i: usize = 0;
    while i < s.len()
        invariant
            i <= s@.len(),
            c == total_of(s@.take(i as int), |r: WealthRange| count_of(r)),
            a == total_of(s@.take(i as int), |r: WealthRange| amount_of(r)),
            pa == total_of(s@.take(i as int), |r: WealthRange| address_share_of(r)),
            ps == total_of(s@.take(i as int), |r: WealthRange| supply_share_of(r)),
            c <= i * u64::MAX,
            a <= i * u64::MAX,
            pa <= i * u64::MAX,
            ps <= i * u64::MAX,
        decreases s@.len() - i,
    {
        let r = s[i];
        proof {
            let t = s@.take(i as int + 1);
            assert(t.drop_last() =~= s@.take(i as int));
            assert(t.last() == r);
            assert((i + 1) * u64::MAX <= u128::MAX) by (nonlinear_arith)
                requires
                    i <= usize::MAX,
            ;
        }
        c = c + r.address_count as u128;
        a = a + r.total_sats as u128;
        pa = pa + r.percentage_of_addresses as u128;
        ps = ps + r.percentage_of_supply as u128;
        i = i + 1;
    }
    proof {
        assert(s@.take(s@.len() as int) =~= s@);
    }
    (c, a, pa, ps)
}

/// Collects the gaps between neighbouring buckets of `t`.
fn gaps(t: &Vec<WealthRange>) -> (r: Vec<ValidationWarning>)
    ensures
        r@ == gap_warnings(t@, t@.len() as int),
{
    let mut out: Vec<ValidationWarning> = Vec::new();
    if t.len() == 0 {
        return out;
    }
    let mut n: usize = 1;
    assert(out@ == gap_warnings(t@, 1));
    while n < t.len()
        invariant
            1 <= n <= t@.len(),
            out@ == gap_warnings(t@, n as int),
        decreases t@.len() - n,
    {
        let a = t[n - 1];
        let b = t[n];
        assert(gap_warnings(t@, n + 1) == {
            let prev = gap_warnings(t@, n as int);
            match a.max_sats {
                Some(m) => if m != b.min_sats {
                    prev.push(ValidationWarning::Discontinuity(m, b.min_sats))
                } else {
                    prev
                },
                None => prev,
            }
        });
        match a.max_sats {
            Some(m) => {
                if m != b.min_sats {
                    out.push(ValidationWarning::Discontinuity(m, b.min_sats));
                }
            },
            None => {},
        }
        n = n + 1;
    }
    out
}

impl DataProcessor {
/// Checks a distribution. Hard defects are errors, reported in the order:
/// empty bucket list, zero address total, zero supply, supply over the cap,
/// the first faulty bucket, an address count too large to hold. A
/// distribution without them yields its warnings.
pub fn validate_distribution(&self, d: &BitcoinDistribution) -> (r: Result<
    Vec<ValidationWarning>,
    ValidationError,
>)
    ensures
        match r {
            Ok(w) => validation_error(*d) is None && w@ == warnings_of(*d),
            Err(e) => validation_error(*d) == Some(e),
        },
        r is Ok <==> d.well_formed(),
{
    proof {
        lemma_valid_iff_well_formed(*d);
    }
    let s = &d.ranges;
    if s.len() == 0 {
        return Err(ValidationError::EmptyRanges);
    }
    if d.total_addresses == 0 {
        return Err(ValidationError::ZeroTotalAddresses);
    }
    if d.total_supply == 0 {
        return Err(ValidationError::NonPositiveSupply);
    }
    if d.total_supply > SUPPLY_CAP {
        return Err(ValidationError::SupplyExceedsCap);
    }
    let mut i: usize = 0;
    while i < s.len()
        invariant
            s@ == d.ranges@,
            s@.len() > 0,
            d.total_addresses > 0,
            0 < d.total_supply <= SUPPLY_CAP,
            i <= s@.len(),
            first_bucket_error(s@.take(i as int)) is None,
        decreases s@.len() - i,
    {
        let r = s[i];
        proof {
            let t = s@.take(i as int + 1);
            assert(t.drop_last() =~= s@.take(i as int));
            assert(t.last() == r);
        }
        let bounds_ok = match r.max_sats {
            Some(m) => r.min_sats < m,
            None => r.min_sats <= u64::MAX / OPEN_SPAN,
        };
        if !bounds_ok || r.percentage_of_addresses > PPM || r.percentage_of_supply > PPM {
            proof {
                let t = s@.take(i as int + 1);
                assert(first_bucket_error(t) == bucket_error(r, i as int));
                lemma_first_error_prefix(s@, i + 1);
            }
            if !bounds_ok {
                return Err(ValidationError::InvalidBounds(i));
            }
            if r.percentage_of_addresses > PPM {
                return Err(ValidationError::InvalidAddressPercentage(i));
            }
            return Err(ValidationError::InvalidSupplyPercentage(i));
        }
        i = i + 1;
    }
    proof {
        assert(s@.take(s@.len() as int) =~= s@);
    }
    let sums = bucket_sums(s);
    if sums.0 > u64::MAX as u128 {
        return Err(ValidationError::AddressCountOverflow);
    }
    let mut warnings: Vec<ValidationWarning> = Vec::new();
    if wrong_by_over_a_percent(sums.0, d.total_addresses as u128) {
        warnings.push(ValidationWarning::AddressCountMismatch);
    }
    assert(sums.1 <= u64::MAX * u64::MAX) by (nonlinear_arith)
        requires
            sums.1 <= s@.len() * u64::MAX,
            s@.len() <= usize::MAX,
    ;
    if wrong_by_over_a_percent(sums.1, d.total_supply as u128) {
        warnings.push(ValidationWarning::SupplyMismatch);
    }
    assert(sums.2 <= u64::MAX * u64::MAX && sums.3 <= u64::MAX * u64::MAX) by (nonlinear_arith)
        requires
            sums.2 <= s@.len() * u64::MAX,
            sums.3 <= s@.len() * u64::MAX,
            s@.len() <= usize::MAX,
    ;
    if wrong_by_over_a_percent(sums.2, PPM as u128) {
        warnings.push(ValidationWarning::AddressShareSum);
    }
    if wrong_by_over_a_percent(sums.3, PPM as u128) {
        warnings.push(ValidationWarning::SupplyShareSum);
    }
    let sorted = sorted_by_floor(s);
    proof {
        lemma_sort_len(s@);
    }
    let mut g = gaps(&sorted);
    proof {
        assert(warnings@ == totals_warnings(*d));
    }
    warnings.append(&mut g);
    Ok(warnings)
}

}

} // verus!
