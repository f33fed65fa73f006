use vstd::prelude::*;

verus! {

/// Total supply that can ever exist, in satoshis (21 million coins).
pub const SUPPLY_CAP: u64 = 2_100_000_000_000_000;

/// Fixed-point unit for shares: one whole (100%) is a million parts.
pub const PPM: u64 = 1_000_000;

/// Parts per million that make up one percent.
pub const PPM_PER_PERCENT: u64 = 10_000;

/// The open top bucket is modelled as spanning up to this multiple of its floor.
pub const OPEN_SPAN: u64 = 100;

/// Largest position reported inside the open top bucket: 0.99 of the way.
pub const POSITION_CAP: u64 = 990_000;

/// One histogram bucket: holdings in `[min_sats, max_sats)`, where a missing
/// `max_sats` marks the open top bucket. Shares are parts per million.
#[derive(Debug, Clone, Copy, PartialEq, Eq, Structural)]
pub struct WealthRange {
    pub min_sats: u64,
    pub max_sats: Option<u64>,
    pub address_count: u64,
    pub total_sats: u64,
    pub percentage_of_addresses: u64,
    pub percentage_of_supply: u64,
}

/// A histogram of holdings together with its declared totals.
#[derive(Debug, Clone)]
pub struct BitcoinDistribution {
    pub ranges: Vec<WealthRange>,
    pub total_addresses: u64,
    pub total_supply: u64,
    pub timestamp: u64,
    pub data_source: String,
}

/// Validation, lookup and summary statistics over distributions.
pub struct DataProcessor {}

/// Percentile, threshold and concentration queries over distributions.
pub struct PercentileCalculator {}

impl DataProcessor {
    pub fn new() -> Self {
        DataProcessor {  }
    }
}

impl PercentileCalculator {
    pub fn new() -> Self {
        PercentileCalculator {  }
    }
}

impl WealthRange {
    /// Whether `sats` lies in this bucket.
    pub open spec fn spec_contains(self, sats: int) -> bool {
        &&& self.min_sats <= sats
        &&& match self.max_sats {
            Some(m) => sats < m,
            None => true,
        }
    }

    /// Whether the bucket's bounds are well formed: a bounded bucket ends
    /// above its floor, and the modelled ceiling `OPEN_SPAN × min` of the open
    /// bucket fits in 64 bits.
    pub open spec fn bounds_ok(self) -> bool {
        match self.max_sats {
            Some(m) => self.min_sats < m,
            None => self.min_sats <= u64::MAX / OPEN_SPAN,
        }
    }

    /// The upper edge used for interpolation: the bound itself, or the
    /// modelled ceiling `OPEN_SPAN × min` of the open bucket.
    pub open spec fn spec_ceiling(self) -> int {
        match self.max_sats {
            Some(m) => m as int,
            None => self.min_sats * OPEN_SPAN,
        }
    }

    /// Whether `sats` lies in this bucket.
    pub fn contains(&self, sats: u64) -> (r: bool)
        ensures
            r == self.spec_contains(sats as int),
    {
        sats >= self.min_sats && match self.max_sats {
            Some(m) => sats < m,
            None => true,
        }
    }
}

/// Every bucket has well-formed bounds and shares of at most one whole.
pub open spec fn buckets_ok(s: Seq<WealthRange>) -> bool {
    forall|i: int|
        0 <= i < s.len() ==> {
            &&& #[trigger] s[i].bounds_ok()
            &&& s[i].percentage_of_addresses <= PPM
            &&& s[i].percentage_of_supply <= PPM
        }
}

impl BitcoinDistribution {
    /// The hard structural conditions every calculation relies on.
    pub open spec fn well_formed(&self) -> bool {
        &&& self.ranges@.len() > 0
        &&& self.total_addresses > 0
        &&& 0 < self.total_supply <= SUPPLY_CAP
        &&& buckets_ok(self.ranges@)
        &&& crate::validate::total_of(self.ranges@, |r: WealthRange| crate::validate::count_of(r))
            <= u64::MAX
    }
}

/// Buckets listed by ascending floor, none overlapping the next:
/// each bucket ends at or before the floor of every later one.
pub open spec fn ordered(s: Seq<WealthRange>) -> bool {
    forall|i: int, j: int|
        0 <= i < j < s.len() ==> (#[trigger] s[i]).max_sats is Some && s[i].max_sats->Some_0
            <= (#[trigger] s[j]).min_sats
}

} // verus!
