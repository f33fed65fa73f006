use vstd::prelude::*;
use crate::distribution::{buckets_ok, ordered, BitcoinDistribution, WealthRange, POSITION_CAP, PPM};
use crate::percentile::{
    containing_index, count_below, ends_by, first_containing, fixed_below, located, result_of,
};
use crate::position::{log_digits, log_position, weighted_position, LOG_DIGITS, LOG_ONE};
use crate::sort::{sort_by_min, sorted_by_min};
use crate::stats::reaching_index;
use crate::threshold::{amount_at_percentile, amount_in, covers, lemma_amount_in_is_least};
use crate::validate::{address_share_of, count_of, total_of};

verus! {

/// Every bucket's address share is exactly its count over the declared total.
pub open spec fn shares_match_counts(d: BitcoinDistribution) -> bool {
    forall|i: int|
        0 <= i < d.ranges@.len() ==> #[trigger] d.ranges@[i].percentage_of_addresses
            * d.total_addresses == d.ranges@[i].address_count * PPM
}

/// Address share of the buckets before bucket `j` of `t`.
pub open spec fn share_before(t: Seq<WealthRange>, j: int) -> int {
    total_of(t.take(j), |r: WealthRange| address_share_of(r))
}

/// Percentile `p` does not fall so far into the open bucket that covering it
/// would need a position past the cap.
pub open spec fn below_open_cap(s: Seq<WealthRange>, p: int) -> bool {
    let t = sort_by_min(s);
    match reaching_index(t, p) {
        Some(j) => t[j].max_sats is Some || (p - share_before(t, j)) * PPM <= POSITION_CAP
            * t[j].percentage_of_addresses,
        None => true,
    }
}

proof fn lemma_ordered_sorted(s: Seq<WealthRange>)
    requires
        ordered(s),
        buckets_ok(s),
    ensures
        sorted_by_min(s),
{
    assert forall|i: int, j: int| 0 <= i < j < s.len() implies s[i].min_sats <= s[j].min_sats by {
        assert(s[i].bounds_ok());
        match s[i].max_sats {
            Some(m) => {},
            None => {},
        }
    }
}

proof fn lemma_all_end_by(p: Seq<WealthRange>, x: int)
    requires
        forall|i: int| 0 <= i < p.len() ==> ends_by(#[trigger] p[i], x),
    ensures
        count_below(p, x) == total_of(p, |r: WealthRange| count_of(r)),
    decreases p.len(),
{
    if p.len() > 0 {
        let q = p.drop_last();
        assert forall|i: int| 0 <= i < q.len() implies ends_by(#[trigger] q[i], x) by {
            assert(q[i] == p[i]);
        }
        lemma_all_end_by(q, x);
        assert(ends_by(p[p.len() - 1], x));
    }
}

proof fn lemma_ordered_prefix(s: Seq<WealthRange>)
    requires
        s.len() > 0,
        ordered(s),
        buckets_ok(s),
    ensures
        ordered(s.drop_last()),
        buckets_ok(s.drop_last()),
{
    let p = s.drop_last();
    assert forall|i: int, j: int| 0 <= i < j < p.len() implies (#[trigger] p[i]).max_sats is Some
        && p[i].max_sats->Some_0 <= (#[trigger] p[j]).min_sats by {
        assert(p[i] == s[i] && p[j] == s[j]);
    }
    assert forall|i: int| 0 <= i < p.len() implies {
        &&& #[trigger] p[i].bounds_ok()
        &&& p[i].percentage_of_addresses <= PPM
        &&& p[i].percentage_of_supply <= PPM
    } by {
        assert(p[i] == s[i]);
        assert(s[i].bounds_ok());
    }
}

/// In an ordered sequence, the buckets wholly below bucket `j`'s floor are
/// exactly the ones before it.
proof fn lemma_below_is_prefix(s: Seq<WealthRange>, j: int)
    requires
        ordered(s),
        buckets_ok(s),
        0 <= j < s.len(),
    ensures
        count_below(s, s[j].min_sats as int) == total_of(s.take(j), |r: WealthRange| count_of(r)),
    decreases s.len(),
{
    let x = s[j].min_sats as int;
    let p = s.drop_last();
    assert(s[j].bounds_ok());
    if j == s.len() - 1 {
        assert(p =~= s.take(j));
        assert forall|i: int| 0 <= i < p.len() implies ends_by(#[trigger] p[i], x) by {
            assert(p[i] == s[i]);
        }
        lemma_all_end_by(p, x);
    } else {
        lemma_ordered_prefix(s);
        assert(p[j] == s[j]);
        lemma_below_is_prefix(p, j);
        assert(p.take(j) =~= s.take(j));
        let l = s.len() - 1;
        assert(s[l].bounds_ok());
        assert(!ends_by(s.last(), x));
    }
}

proof fn lemma_prefix_grows(s: Seq<WealthRange>, i: int, k: int)
    requires
        0 <= i <= k <= s.len(),
    ensures
        total_of(s.take(i), |r: WealthRange| count_of(r)) <= total_of(
            s.take(k),
            |r: WealthRange| count_of(r),
        ),
    decreases k - i,
{
    if i < k {
        lemma_prefix_grows(s, i, k - 1);
        crate::stats::lemma_prefix_step(s, k - 1);
    }
}

proof fn lemma_counts_match_shares(q: Seq<WealthRange>, total: int)
    requires
        forall|i: int|
            0 <= i < q.len() ==> #[trigger] q[i].percentage_of_addresses * total == q[i].address_count
                * PPM,
    ensures
        total_of(q, |r: WealthRange| count_of(r)) * PPM == total_of(
            q,
            |r: WealthRange| address_share_of(r),
        ) * total,
    decreases q.len(),
{
    if q.len() > 0 {
        let p = q.drop_last();
        assert forall|i: int| 0 <= i < p.len() implies #[trigger] p[i].percentage_of_addresses
            * total == p[i].address_count * PPM by {
            assert(p[i] == q[i]);
        }
        lemma_counts_match_shares(p, total);
        let l = q[q.len() - 1];
        assert(l.percentage_of_addresses * total == l.address_count * PPM);
        let c = total_of(p, |r: WealthRange| count_of(r));
        let a = total_of(p, |r: WealthRange| address_share_of(r));
        assert((c + l.address_count) * PPM == (a + l.percentage_of_addresses) * total)
            by (nonlinear_arith)
            requires
                c * PPM == a * total,
                l.percentage_of_addresses * total == l.address_count * PPM,
        ;
    }
}

proof fn lemma_reaching_props(t: Seq<WealthRange>, p: int)
    requires
        reaching_index(t, p) is Some,
    ensures
        0 <= reaching_index(t, p)->Some_0 < t.len(),
        total_of(t.take(reaching_index(t, p)->Some_0 + 1), |r: WealthRange| address_share_of(r))
            >= p,
        reaching_index(t, p)->Some_0 > 0 ==> total_of(
            t.take(reaching_index(t, p)->Some_0),
            |r: WealthRange| address_share_of(r),
        ) < p,
    decreases t.len(),
{
    let q = t.drop_last();
    let j = reaching_index(t, p)->Some_0;
    match reaching_index(q, p) {
        Some(i) => {
            lemma_reaching_props(q, p);
            assert(q.take(i + 1) =~= t.take(i + 1));
            assert(q.take(i) =~= t.take(i));
        },
        None => {
            assert(j == t.len() - 1);
            assert(t.take(j + 1) =~= t);
            assert(t.take(j) =~= q);
            if j > 0 {
                assert(q.len() > 0);
                lemma_none_below(q, p);
            }
        },
    }
}

proof fn lemma_none_below(q: Seq<WealthRange>, p: int)
    requires
        q.len() > 0,
        reaching_index(q, p) is None,
    ensures
        total_of(q, |r: WealthRange| address_share_of(r)) < p,
{
}

/// A holding that covers `missing` of bucket `r`'s share `share`, where the
/// bucket's count is that share of `total` addresses, has at least
/// `missing × total` millionths of the bucket's addresses below it.
proof fn lemma_covers_weighted(r: WealthRange, a: int, missing: int, share: int, total: int)
    requires
        r.bounds_ok(),
        r.min_sats <= a,
        0 <= missing <= share,
        total > 0,
        r.address_count * PPM == share * total,
        covers(r, a, missing, share),
    ensures
        weighted_position(r, a) >= missing * total,
{
    let c = r.address_count as int;
    match r.max_sats {
        Some(m) => {
            let w = m - r.min_sats;
            let e = a - r.min_sats;
            assert(c * e * PPM == e * share * total) by (nonlinear_arith)
                requires
                    c * PPM == share * total,
            ;
            assert(e * share * total >= missing * w * total) by (nonlinear_arith)
                requires
                    e * share >= missing * w,
                    total > 0,
            ;
            assert(missing * w * total == missing * total * w) by (nonlinear_arith);
            assert(c * e * PPM / w >= missing * total) by (nonlinear_arith)
                requires
                    c * e * PPM >= missing * total * w,
                    w > 0,
            ;
        },
        None => {
            let l = log_position(a, r.min_sats as int);
            assert(c * l * PPM == l * share * total) by (nonlinear_arith)
                requires
                    c * PPM == share * total,
            ;
            assert(l * share * total >= missing * PPM * total) by (nonlinear_arith)
                requires
                    l * share >= missing * PPM,
                    total > 0,
            ;
            assert(c * l >= missing * total) by (nonlinear_arith)
                requires
                    c * l * PPM >= missing * PPM * total,
            ;
        },
    }
}

/// Facts shared by both directions of the round trip: the bucket `j` where
/// `p` is reached, the share `x` still missing before it, and the amount the
/// solver gives.
proof fn lemma_round_trip_setup(d: BitcoinDistribution, p: int) -> (j: int)
    requires
        d.well_formed(),
        ordered(d.ranges@),
        shares_match_counts(d),
        reaching_index(d.ranges@, p) is Some || total_of(d.ranges@, |r: WealthRange| count_of(r))
            == d.total_addresses,
        0 <= p <= PPM,
    ensures
        sort_by_min(d.ranges@) == d.ranges@,
        reaching_index(d.ranges@, p) == Some(j),
        0 <= j < d.ranges@.len(),
        d.ranges@[j].bounds_ok(),
        d.ranges@[j].percentage_of_addresses <= PPM,
        0 <= p - share_before(d.ranges@, j) <= d.ranges@[j].percentage_of_addresses,
        d.ranges@[j].address_count * PPM == d.ranges@[j].percentage_of_addresses
            * d.total_addresses,
        d.ranges@[j].address_count <= d.total_addresses,
        j > 0 ==> share_before(d.ranges@, j) < p,
        share_before(d.ranges@, j) * d.total_addresses == total_of(
            d.ranges@.take(j),
            |r: WealthRange| count_of(r),
        ) * PPM,
        share_before(d.ranges@, j) + d.ranges@[j].percentage_of_addresses == total_of(
            d.ranges@.take(j + 1),
            |r: WealthRange| address_share_of(r),
        ),
        amount_at_percentile(d.ranges@, p) == amount_in(
            d.ranges@[j],
            p - share_before(d.ranges@, j),
            d.ranges@[j].percentage_of_addresses as int,
        ),
{
    let s = d.ranges@;
    let total = d.total_addresses as int;
    lemma_ordered_sorted(s);
    crate::sort::lemma_sort_sorted(s);
    if reaching_index(s, p) is None {
        lemma_counts_match_shares(s, total);
        let sa = total_of(s, |r: WealthRange| address_share_of(r));
        assert(sa == PPM) by (nonlinear_arith)
            requires
                total * PPM == sa * total,
                total > 0,
        ;
        assert(s.len() > 0);
    }
    lemma_reaching_props(s, p);
    let j = reaching_index(s, p)->Some_0;
    crate::stats::lemma_bucket_at(s, j);
    crate::stats::lemma_prefix_step(s, j);
    assert(s[j].percentage_of_addresses * total == s[j].address_count * PPM);
    if j == 0 {
        assert(s.take(0) =~= Seq::<WealthRange>::empty());
    }
    assert(forall|i: int| 0 <= i < s.take(j).len() ==> #[trigger] s.take(j)[i] == s[i]);
    lemma_counts_match_shares(s.take(j), total);
    assert(s[j].address_count <= total) by (nonlinear_arith)
        requires
            s[j].address_count * PPM == s[j].percentage_of_addresses * total,
            s[j].percentage_of_addresses <= PPM,
            total > 0,
    ;
    j
}

/// Bounds on what the lookup computes for a located holding.
proof fn lemma_below_range(d: BitcoinDistribution, a: int) -> (k: int)
    requires
        d.well_formed(),
        located(d.ranges@, a),
    ensures
        k == containing_index(d.ranges@, a),
        first_containing(d.ranges@, a, k),
        d.ranges@[k].bounds_ok(),
        0 <= weighted_position(d.ranges@[k], a) <= d.ranges@[k].address_count * PPM,
        0 <= fixed_below(d.ranges@, k, a) <= u64::MAX * PPM,
        0 <= fixed_below(d.ranges@, k, a) / (d.total_addresses as int),
        result_of(d, a).percentile == crate::percentile::capped_share(
            fixed_below(d.ranges@, k, a) / (d.total_addresses as int),
        ),
{
    let s = d.ranges@;
    crate::percentile::lemma_located_first(s, a);
    let k = containing_index(s, a);
    let rk = s[k];
    crate::stats::lemma_bucket_at(s, k);
    crate::percentile::lemma_below_plus_own(s, k);
    crate::percentile::lemma_filtered_le(s, rk.min_sats as int);
    crate::percentile::lemma_weighted_bounds(rk, a);
    let below = fixed_below(s, k, a);
    assert(0 <= below <= u64::MAX * PPM) by (nonlinear_arith)
        requires
            below == count_below(s, rk.min_sats as int) * PPM + weighted_position(rk, a),
            count_below(s, rk.min_sats as int) >= 0,
            0 <= weighted_position(rk, a) <= rk.address_count * PPM,
            count_below(s, rk.min_sats as int) + rk.address_count <= u64::MAX,
    ;
    let t = d.total_addresses as int;
    assert(0 <= below / t <= below) by (nonlinear_arith)
        requires
            0 <= below,
            t > 0,
    ;
    k
}

/// Asking for the holding at percentile `p` and then looking that holding up
/// gives back at least `p`, when the buckets are ordered, every address share
/// is its count over the total, the counts add up to the total, and `p` does
/// not reach past the cap of the open bucket.
pub proof fn lemma_round_trip(d: BitcoinDistribution, p: int)
    requires
        d.well_formed(),
        ordered(d.ranges@),
        shares_match_counts(d),
        total_of(d.ranges@, |r: WealthRange| count_of(r)) == d.total_addresses,
        0 <= p <= PPM,
        below_open_cap(d.ranges@, p),
        located(d.ranges@, amount_at_percentile(d.ranges@, p)),
    ensures
        result_of(d, amount_at_percentile(d.ranges@, p)).percentile >= p,
{
    let s = d.ranges@;
    let total = d.total_addresses as int;
    let j = lemma_round_trip_setup(d, p);
    let rj = s[j];
    let before = share_before(s, j);
    let aj = rj.percentage_of_addresses as int;
    let x = p - before;
    let a = amount_at_percentile(s, p);
    lemma_amount_in_is_least(rj, x, aj);
    let k = lemma_below_range(d, a);
    let rk = s[k];
    lemma_below_is_prefix(s, k);
    let below = fixed_below(s, k, a);
    if rj.spec_contains(a) {
        assert(first_containing(s, a, j)) by {
            assert forall|i: int| 0 <= i < j implies !(#[trigger] s[i]).spec_contains(a) by {
                assert(s[i].bounds_ok());
            }
        }
        crate::percentile::lemma_first_unique(s, a, j);
        lemma_covers_weighted(rj, a, x, aj, total);
        let cb = total_of(s.take(j), |r: WealthRange| count_of(r));
        assert(below >= p * total) by (nonlinear_arith)
            requires
                below == cb * PPM + weighted_position(rj, a),
                before * total == cb * PPM,
                weighted_position(rj, a) >= x * total,
                x == p - before,
        ;
    } else {
        if k <= j {
            assert(s[k].bounds_ok());
            if k < j {
                assert(false);
            }
        }
        lemma_prefix_grows(s, j + 1, k);
        assert(forall|i: int| 0 <= i < s.take(j + 1).len() ==> #[trigger] s.take(j + 1)[i] == s[i]);
        lemma_counts_match_shares(s.take(j + 1), total);
        let cb1 = total_of(s.take(j + 1), |r: WealthRange| count_of(r));
        let b1 = total_of(s.take(j + 1), |r: WealthRange| address_share_of(r));
        let cbk = count_below(s, rk.min_sats as int);
        assert(cbk * PPM >= cb1 * PPM) by (nonlinear_arith)
            requires
                cbk >= cb1,
        ;
        assert(b1 * total >= p * total) by (nonlinear_arith)
            requires
                b1 >= p,
                total > 0,
        ;
        assert(below >= p * total);
    }
    assert(below / total >= p) by (nonlinear_arith)
        requires
            below >= p * total,
            total > 0,
    ;
}

/// Percentile `p` falls in a bounded bucket whose width in satoshis is at
/// least its address share in parts per million.
pub open spec fn in_wide_closed_bucket(s: Seq<WealthRange>, p: int) -> bool {
    let t = sort_by_min(s);
    match reaching_index(t, p) {
        Some(j) => match t[j].max_sats {
            Some(m) => m - t[j].min_sats >= t[j].percentage_of_addresses,
            None => false,
        },
        None => false,
    }
}

/// A holding at a bucket's floor has none of the bucket's addresses below
/// it.
proof fn lemma_weighted_at_floor(r: WealthRange)
    requires
        r.bounds_ok(),
        r.min_sats > 0,
    ensures
        weighted_position(r, r.min_sats as int) == 0,
{
    let m = r.min_sats as int;
    let c = r.address_count as int;
    match r.max_sats {
        Some(x) => {
            assert(c * 0 * PPM / (x - m) == 0) by (nonlinear_arith)
                requires
                    x - m > 0,
            ;
        },
        None => {
            crate::position::lemma_log_position_at_floor(m);
            assert(c * 0 == 0) by (nonlinear_arith);
        },
    }
}

/// In a bounded bucket at least `share` satoshis wide, the holding the
/// solver gives lies less than one satoshi's worth of share past what it
/// covers, and reaches the ceiling only when the whole share is missing.
proof fn lemma_wide_amount(r: WealthRange, missing: int, share: int)
    requires
        r.bounds_ok(),
        r.max_sats is Some,
        r.max_sats->Some_0 - r.min_sats >= share,
        0 <= missing <= share,
        share > 0,
    ensures
        (amount_in(r, missing, share) - r.min_sats) * share < missing * (r.max_sats->Some_0
            - r.min_sats) + share,
        amount_in(r, missing, share) >= r.max_sats->Some_0 ==> missing == share,
{
    let w = r.max_sats->Some_0 - r.min_sats;
    let c = (missing * w + share - 1) / share;
    assert(c * share < missing * w + share && c * share >= missing * w) by (nonlinear_arith)
        requires
            c == (missing * w + share - 1) / share,
            0 <= missing,
            share > 0,
            w > 0,
    ;
    if c >= w {
        assert(w * share <= c * share) by (nonlinear_arith)
            requires
                c >= w,
                share > 0,
        ;
        assert((share - missing) * w < share) by (nonlinear_arith)
            requires
                w * share < missing * w + share,
        ;
        if share - missing >= 1 {
            assert((share - missing) * w >= w) by (nonlinear_arith)
                requires
                    share - missing >= 1,
                    w > 0,
            ;
        }
    }
}

/// Asking for the holding at percentile `p` and then looking that holding up
/// gives back at most `p`, when `p` falls in a bounded bucket at least as
/// many satoshis wide as its address share in parts per million, the buckets
/// are ordered, and every address share is its count over the total.
pub proof fn lemma_round_trip_upper(d: BitcoinDistribution, p: int)
    requires
        d.well_formed(),
        ordered(d.ranges@),
        shares_match_counts(d),
        0 <= p <= PPM,
        in_wide_closed_bucket(d.ranges@, p),
        located(d.ranges@, amount_at_percentile(d.ranges@, p)),
    ensures
        result_of(d, amount_at_percentile(d.ranges@, p)).percentile <= p,
{
    let s = d.ranges@;
    let total = d.total_addresses as int;
    lemma_ordered_sorted(s);
    crate::sort::lemma_sort_sorted(s);
    let j = lemma_round_trip_setup(d, p);
    let rj = s[j];
    let before = share_before(s, j);
    let aj = rj.percentage_of_addresses as int;
    let cj = rj.address_count as int;
    let x = p - before;
    let a = amount_at_percentile(s, p);
    lemma_amount_in_is_least(rj, x, aj);
    let k = lemma_below_range(d, a);
    let rk = s[k];
    lemma_below_is_prefix(s, k);
    let below = fixed_below(s, k, a);
    let mj = rj.max_sats->Some_0 as int;
    let w = mj - rj.min_sats;
    let cb = total_of(s.take(j), |r: WealthRange| count_of(r));
    if aj > 0 {
        lemma_wide_amount(rj, x, aj);
    }
    if a < mj {
        assert(first_containing(s, a, j)) by {
            assert forall|i: int| 0 <= i < j implies !(#[trigger] s[i]).spec_contains(a) by {
                assert(s[i].bounds_ok());
            }
        }
        crate::percentile::lemma_first_unique(s, a, j);
        let wp = weighted_position(rj, a);
        if aj == 0 {
            assert(cj == 0) by (nonlinear_arith)
                requires
                    cj * PPM == aj * total,
                    aj == 0,
            ;
            assert(wp == 0) by (nonlinear_arith)
                requires
                    cj == 0,
                    wp == cj * (a - rj.min_sats) * PPM / w,
                    w > 0,
            ;
        } else {
            let e = a - rj.min_sats;
            assert(wp * w <= cj * e * PPM) by (nonlinear_arith)
                requires
                    wp == cj * e * PPM / w,
                    w > 0,
            ;
            assert(cj * e * PPM == e * aj * total) by (nonlinear_arith)
                requires
                    cj * PPM == aj * total,
            ;
            assert(e * aj * total < (x * w + w) * total) by (nonlinear_arith)
                requires
                    e * aj < x * w + aj,
                    aj <= w,
                    total > 0,
            ;
            assert(wp < (x + 1) * total) by (nonlinear_arith)
                requires
                    wp * w < (x * w + w) * total,
                    w > 0,
            ;
        }
        assert(below < total * p + total) by (nonlinear_arith)
            requires
                below == cb * PPM + wp,
                before * total == cb * PPM,
                wp < (x + 1) * total,
                x == p - before,
        ;
        assert(below / total <= p) by (nonlinear_arith)
            requires
                below < total * p + total,
                total > 0,
        ;
    } else {
        assert(aj > 0);
        assert(p == before + aj);
        if k <= j {
            assert(s[k].bounds_ok());
            assert(false);
        }
        if k > j + 1 {
            assert(s[j + 1].bounds_ok());
            assert(false);
        }
        assert(rk.min_sats == a);
        lemma_weighted_at_floor(rk);
        assert(forall|i: int| 0 <= i < s.take(j + 1).len() ==> #[trigger] s.take(j + 1)[i] == s[i]);
        lemma_counts_match_shares(s.take(j + 1), total);
        assert(below == p * total);
        assert(below / total == p) by (nonlinear_arith)
            requires
                below == p * total,
                total > 0,
        ;
    }
}

/// A holding of bucket `r` that does not cover `missing` of its share, where
/// the bucket's count is that share of `total` addresses, has fewer than
/// `missing × total` millionths of the bucket's addresses below it.
proof fn lemma_uncovered_weighted(r: WealthRange, b: int, missing: int, share: int, total: int)
    requires
        r.bounds_ok(),
        r.min_sats <= b,
        0 <= missing,
        share > 0,
        total > 0,
        r.address_count * PPM == share * total,
        !covers(r, b, missing, share),
    ensures
        weighted_position(r, b) < missing * total,
{
    let c = r.address_count as int;
    match r.max_sats {
        Some(m) => {
            let w = m - r.min_sats;
            let e = b - r.min_sats;
            assert(c * e * PPM == e * share * total) by (nonlinear_arith)
                requires
                    c * PPM == share * total,
            ;
            assert(e * share * total < missing * w * total) by (nonlinear_arith)
                requires
                    e * share < missing * w,
                    total > 0,
            ;
            assert(missing * w * total == missing * total * w) by (nonlinear_arith);
            assert(c * e * PPM / w < missing * total) by (nonlinear_arith)
                requires
                    c * e * PPM < missing * total * w,
                    w > 0,
            ;
        },
        None => {
            let l = log_position(b, r.min_sats as int);
            assert(c * l * PPM == l * share * total) by (nonlinear_arith)
                requires
                    c * PPM == share * total,
            ;
            assert(l * share * total < missing * PPM * total) by (nonlinear_arith)
                requires
                    l * share < missing * PPM,
                    total > 0,
            ;
            assert(c * l < missing * total) by (nonlinear_arith)
                requires
                    c * l * PPM < missing * PPM * total,
            ;
        },
    }
}

/// The holding the solver gives for percentile `p` is the least that reaches
/// it: every smaller holding that a bucket contains has a percentile below
/// `p`. This holds in every bucket, the open one included, under the
/// conditions of `lemma_round_trip`.
pub proof fn lemma_round_trip_least(d: BitcoinDistribution, p: int, b: int)
    requires
        d.well_formed(),
        ordered(d.ranges@),
        shares_match_counts(d),
        total_of(d.ranges@, |r: WealthRange| count_of(r)) == d.total_addresses,
        0 <= p <= PPM,
        below_open_cap(d.ranges@, p),
        located(d.ranges@, b),
        b < amount_at_percentile(d.ranges@, p),
    ensures
        result_of(d, b).percentile < p,
{
    let s = d.ranges@;
    let total = d.total_addresses as int;
    let j = lemma_round_trip_setup(d, p);
    let rj = s[j];
    let before = share_before(s, j);
    let aj = rj.percentage_of_addresses as int;
    let x = p - before;
    let a = amount_at_percentile(s, p);
    lemma_amount_in_is_least(rj, x, aj);
    let k = lemma_below_range(d, b);
    let rk = s[k];
    lemma_below_is_prefix(s, k);
    let below = fixed_below(s, k, b);
    if k > j {
        assert(s[j].max_sats is Some && s[j].max_sats->Some_0 <= s[k].min_sats);
        assert(false);
    } else if k == j {
        assert(!covers(rj, b, x, aj));
        if aj == 0 {
            assert(covers(rj, b, x, aj)) by (nonlinear_arith)
                requires
                    x == 0,
                    aj == 0,
            ;
        }
        lemma_uncovered_weighted(rj, b, x, aj, total);
        let cb = total_of(s.take(j), |r: WealthRange| count_of(r));
        assert(below < p * total) by (nonlinear_arith)
            requires
                below == cb * PPM + weighted_position(rj, b),
                before * total == cb * PPM,
                weighted_position(rj, b) < x * total,
                x == p - before,
        ;
    } else {
        crate::stats::lemma_prefix_step(s, k);
        lemma_prefix_grows(s, k + 1, j);
        let ck = total_of(s.take(k), |r: WealthRange| count_of(r));
        let ck1 = total_of(s.take(k + 1), |r: WealthRange| count_of(r));
        let cb = total_of(s.take(j), |r: WealthRange| count_of(r));
        assert(ck1 == ck + rk.address_count);
        assert(below <= ck1 * PPM) by (nonlinear_arith)
            requires
                below == ck * PPM + weighted_position(rk, b),
                weighted_position(rk, b) <= rk.address_count * PPM,
                ck1 == ck + rk.address_count,
        ;
        assert(ck1 * PPM <= cb * PPM) by (nonlinear_arith)
            requires
                ck1 <= cb,
        ;
        assert(before * total < p * total) by (nonlinear_arith)
            requires
                before < p,
                total > 0,
        ;
        assert(below < p * total);
    }
    assert(below / total < p) by (nonlinear_arith)
        requires
            below < p * total,
            total > 0,
    ;
}

} // verus!
