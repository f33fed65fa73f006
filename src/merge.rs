use vstd::prelude::*;
use crate::distribution::{BitcoinDistribution, DataProcessor, WealthRange};
use crate::sort::{lemma_sort_len, sort_by_min, sorted_by_floor};
use crate::validate::{address_share_of, supply_share_of, total_of};

verus! {

/// Whether bucket `b`, which starts no lower than `a`, starts before `a` ends.
pub open spec fn overlaps(a: WealthRange, b: WealthRange) -> bool {
    match a.max_sats {
        Some(m) => m >= b.min_sats,
        None => true,
    }
}

/// Sum of two counts, held at the largest value the type allows.
pub open spec fn capped_sum(x: u64, y: u64) -> u64 {
    if x + y > u64::MAX {
        u64::MAX
    } else {
        (x + y) as u64
    }
}

/// One bucket covering both: the floor of `a`, the higher ceiling, and the
/// summed counts, amounts and shares.
pub open spec fn combine(a: WealthRange, b: WealthRange) -> WealthRange {
    WealthRange {
        min_sats: a.min_sats,
        max_sats: match (a.max_sats, b.max_sats) {
            (Some(x), Some(y)) => Some(if x >= y { x } else { y }),
            _ => None,
        },
        address_count: capped_sum(a.address_count, b.address_count),
        total_sats: capped_sum(a.total_sats, b.total_sats),
        percentage_of_addresses: capped_sum(a.percentage_of_addresses, b.percentage_of_addresses),
        percentage_of_supply: capped_sum(a.percentage_of_supply, b.percentage_of_supply),
    }
}

/// Buckets `t[i..]` merged into `cur` from the left: each bucket that
/// overlaps the running one joins it, any other closes it and starts anew.
pub open spec fn merge_from(t: Seq<WealthRange>, i: int, cur: WealthRange) -> Seq<WealthRange>
    decreases t.len() - i,
{
    if i >= t.len() {
        seq![cur]
    } else if overlaps(cur, t[i]) {
        merge_from(t, i + 1, combine(cur, t[i]))
    } else {
        seq![cur] + merge_from(t, i + 1, t[i])
    }
}

/// Buckets in floor order with every run of overlapping ones merged.
pub open spec fn merged(s: Seq<WealthRange>) -> Seq<WealthRange> {
    let t = sort_by_min(s);
    if t.len() == 0 {
        t
    } else {
        merge_from(t, 1, t[0])
    }
}

fn add_capped(x: u64, y: u64) -> (r: u64)
    ensures
        r == capped_sum(x, y),
{
    if x > u64::MAX - y {
        u64::MAX
    } else {
        x + y
    }
}

fn combine_ranges(a: &WealthRange, b: &WealthRange) -> (r: WealthRange)
    ensures
        r == combine(*a, *b),
{
    let max_sats = match (a.max_sats, b.max_sats) {
        (Some(x), Some(y)) => Some(if x >= y { x } else { y }),
        _ => None,
    };
    WealthRange {
        min_sats: a.min_sats,
        max_sats,
        address_count: add_capped(a.address_count, b.address_count),
        total_sats: add_capped(a.total_sats, b.total_sats),
        percentage_of_addresses: add_capped(a.percentage_of_addresses, b.percentage_of_addresses),
        percentage_of_supply: add_capped(a.percentage_of_supply, b.percentage_of_supply),
    }
}

impl DataProcessor {
    /// Sorts buckets by ascending floor, keeping buckets with equal floors in
    /// their given order.
    pub fn sort_ranges(&self, ranges: &mut Vec<WealthRange>)
        ensures
            final(ranges)@ == sort_by_min(old(ranges)@),
    {
        let sorted = sorted_by_floor(ranges);
        *ranges = sorted;
    }

    /// The buckets in floor order, each run of overlapping buckets merged
    /// into one. Sums that would not fit are held at the type's limit.
    pub fn merge_ranges(&self, ranges: Vec<WealthRange>) -> (r: Vec<WealthRange>)
        ensures
            r@ == merged(ranges@),
    {
        let t = sorted_by_floor(&ranges);
        proof {
            lemma_sort_len(ranges@);
        }
        if t.len() == 0 {
            return t;
        }
        let mut out: Vec<WealthRange> = Vec::new();
        let mut cur = t[0];
        let mut i: usize = 1;
        while i < t.len()
            invariant
                t@ == sort_by_min(ranges@),
                1 <= i <= t@.len(),
                out@ + merge_from(t@, i as int, cur) == merge_from(t@, 1, t@[0]),
            decreases t@.len() - i,
        {
            let r = t[i];
            let joins = match cur.max_sats {
                Some(m) => m >= r.min_sats,
                None => true,
            };
            if joins {
                cur = combine_ranges(&cur, &r);
            } else {
                proof {
                    assert(out@ + (seq![cur] + merge_from(t@, i + 1, r)) =~= out@.push(cur)
                        + merge_from(t@, i + 1, r));
                }
                out.push(cur);
                cur = r;
            }
            i = i + 1;
        }
        proof {
            assert(out@.push(cur) =~= out@ + seq![cur]);
        }
        out.push(cur);
        out
    }

    /// For each bucket in floor order: its ceiling (none for the open
    /// bucket), and the running address and supply shares up to and
    /// including it, in parts per million.
    pub fn calculate_cumulative_distribution(&self, d: &BitcoinDistribution) -> (r: Vec<
        (Option<u64>, u128, u128),
    >)
        ensures
            r@.len() == d.ranges@.len(),
            forall|i: int|
                0 <= i < r@.len() ==> #[trigger] r@[i] == (
                    sort_by_min(d.ranges@)[i].max_sats,
                    total_of(sort_by_min(d.ranges@).take(i + 1), |r: WealthRange| address_share_of(r)) as u128,
                    total_of(sort_by_min(d.ranges@).take(i + 1), |r: WealthRange| supply_share_of(r)) as u128,
                ),
    {
        let t = sorted_by_floor(&d.ranges);
        proof {
            lemma_sort_len(d.ranges@);
        }
        let mut out: Vec<(Option<u64>, u128, u128)> = Vec::new();
        let mut ca: u128 = 0;
        let mut cs: u128 = 0;
        let mut i: usize = 0;
        while i < t.len()
            invariant
                t@ == sort_by_min(d.ranges@),
                i <= t@.len(),
                out@.len() == i,
                ca == total_of(t@.take(i as int), |r: WealthRange| address_share_of(r)),
                cs == total_of(t@.take(i as int), |r: WealthRange| supply_share_of(r)),
                ca <= i * u64::MAX,
                cs <= i * u64::MAX,
                forall|j: int|
                    0 <= j < i ==> #[trigger] out@[j] == (
                        t@[j].max_sats,
                        total_of(t@.take(j + 1), |r: WealthRange| address_share_of(r)) as u128,
                        total_of(t@.take(j + 1), |r: WealthRange| supply_share_of(r)) as u128,
                    ),
            decreases t@.len() - i,
        {
            let r = t[i];
            proof {
                let u = t@.take(i as int + 1);
                assert(u.drop_last() =~= t@.take(i as int));
                assert(u.last() == r);
                assert((i + 1) * u64::MAX <= u128::MAX) by (nonlinear_arith)
                    requires
                        i <= usize::MAX,
                ;
            }
            ca = ca + r.percentage_of_addresses as u128;
            cs = cs + r.percentage_of_supply as u128;
            out.push((r.max_sats, ca, cs));
            i = i + 1;
        }
        out
    }
}

} // verus!
