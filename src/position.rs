use vstd::prelude::*;
use crate::distribution::{WealthRange, OPEN_SPAN, POSITION_CAP, PPM};

verus! {

/// Fractional bits of the fixed-point ratio fed to the logarithm.
pub const LOG_ONE: u128 = 1_099_511_627_776;

/// Number of binary digits of the logarithm that are computed.
pub const LOG_DIGITS: u64 = 20;

/// Two to the power `LOG_DIGITS`.
pub const LOG_DENOM: u128 = 1_048_576;

pub open spec fn two_pow(n: nat) -> int
    decreases n,
{
    if n == 0 {
        1
    } else {
        2 * two_pow((n - 1) as nat)
    }
}

/// Binary digits of the base-`OPEN_SPAN` logarithm of `y / LOG_ONE`, found by
/// repeated squaring: each squared ratio that reaches the base yields a one
/// digit and is divided by the base. `acc` holds the digits found so far.
pub open spec fn log_digits(y: int, acc: int, n: nat) -> int
    decreases n,
{
    if n == 0 {
        acc
    } else {
        let z = y * y / (LOG_ONE as int);
        if z >= OPEN_SPAN * LOG_ONE {
            log_digits(z / (OPEN_SPAN as int), 2 * acc + 1, (n - 1) as nat)
        } else {
            log_digits(z, 2 * acc, (n - 1) as nat)
        }
    }
}

/// Position of `sats` inside an open bucket whose floor is `min`, in parts per
/// million: `log(sats / min) / log(OPEN_SPAN)`, capped at `POSITION_CAP`.
/// A holding at or past the modelled ceiling `OPEN_SPAN × min`, or a bucket
/// whose floor is zero, gets the cap.
pub open spec fn log_position(sats: int, min: int) -> int {
    if min <= 0 || sats >= OPEN_SPAN * min {
        POSITION_CAP as int
    } else {
        let d = log_digits(sats * LOG_ONE / min, 0, LOG_DIGITS as nat);
        let p = d * PPM / (LOG_DENOM as int);
        if p > POSITION_CAP {
            POSITION_CAP as int
        } else {
            p
        }
    }
}

/// Addresses of bucket `r` below `sats`, in millionths of an address: the
/// bucket's count times the exact fraction of the way from floor to ceiling
/// for a bounded bucket, or times the logarithmic position for the open one,
/// rounded down once.
pub open spec fn weighted_position(r: WealthRange, sats: int) -> int {
    match r.max_sats {
        Some(m) => r.address_count * (sats - r.min_sats) * PPM / (m - r.min_sats),
        None => r.address_count * log_position(sats, r.min_sats as int),
    }
}

proof fn lemma_two_pow_pos(n: nat)
    ensures
        two_pow(n) >= 1,
    decreases n,
{
    if n > 0 {
        lemma_two_pow_pos((n - 1) as nat);
    }
}

proof fn lemma_log_digits_bounds(y: int, acc: int, n: nat)
    requires
        acc >= 0,
    ensures
        acc * two_pow(n) <= log_digits(y, acc, n) < (acc + 1) * two_pow(n),
    decreases n,
{
    if n > 0 {
        let z = y * y / (LOG_ONE as int);
        let m = (n - 1) as nat;
        let h = two_pow(m);
        lemma_two_pow_pos(m);
        assert(two_pow(n) == 2 * h);
        let a2 = if z >= OPEN_SPAN * LOG_ONE {
            2 * acc + 1
        } else {
            2 * acc
        };
        let y2 = if z >= OPEN_SPAN * LOG_ONE {
            z / (OPEN_SPAN as int)
        } else {
            z
        };
        assert(log_digits(y, acc, n) == log_digits(y2, a2, m));
        lemma_log_digits_bounds(y2, a2, m);
        let d = log_digits(y2, a2, m);
        assert(acc * two_pow(n) <= d < (acc + 1) * two_pow(n)) by (nonlinear_arith)
            requires
                a2 * h <= d < (a2 + 1) * h,
                a2 == 2 * acc || a2 == 2 * acc + 1,
                two_pow(n) == 2 * h,
                h >= 1,
        ;
    }
}

proof fn lemma_log_digits_monotone(y1: int, y2: int, acc: int, n: nat)
    requires
        0 <= y1 <= y2,
        acc >= 0,
    ensures
        log_digits(y1, acc, n) <= log_digits(y2, acc, n),
    decreases n,
{
    if n > 0 {
        let s = LOG_ONE as int;
        let z1 = y1 * y1 / s;
        let z2 = y2 * y2 / s;
        assert(y1 * y1 <= y2 * y2) by (nonlinear_arith)
            requires
                0 <= y1 <= y2,
        ;
        assert(z1 <= z2) by (nonlinear_arith)
            requires
                y1 * y1 <= y2 * y2,
                s > 0,
                z1 == y1 * y1 / s,
                z2 == y2 * y2 / s,
        ;
        assert(0 <= z1) by (nonlinear_arith)
            requires
                y1 >= 0,
                s > 0,
                z1 == y1 * y1 / s,
        ;
        let big = OPEN_SPAN * LOG_ONE;
        let m = (n - 1) as nat;
        if z1 >= big {
            lemma_log_digits_monotone(z1 / 100, z2 / 100, 2 * acc + 1, m);
        } else if z2 >= big {
            lemma_log_digits_bounds(z1, 2 * acc, m);
            lemma_log_digits_bounds(z2 / 100, 2 * acc + 1, m);
        } else {
            lemma_log_digits_monotone(z1, z2, 2 * acc, m);
        }
    }
}

/// The open-bucket position never decreases as the holding grows, and never
/// exceeds the cap.
pub proof fn lemma_log_position_monotone(a: int, b: int, min: int)
    requires
        0 <= a <= b,
    ensures
        log_position(a, min) <= log_position(b, min),
        0 <= log_position(a, min) <= POSITION_CAP,
{
    if min > 0 && a < OPEN_SPAN * min {
        let s = LOG_ONE as int;
        let ya = a * s / min;
        assert(0 <= ya) by (nonlinear_arith)
            requires
                a >= 0,
                s > 0,
                min > 0,
                ya == a * s / min,
        ;
        lemma_log_digits_bounds(ya, 0, LOG_DIGITS as nat);
        let da = log_digits(ya, 0, LOG_DIGITS as nat);
        assert(0 <= da * PPM / (LOG_DENOM as int)) by (nonlinear_arith)
            requires
                da >= 0,
        ;
        if b < OPEN_SPAN * min {
            let yb = b * s / min;
            assert(ya <= yb) by (nonlinear_arith)
                requires
                    a <= b,
                    s > 0,
                    min > 0,
                    ya == a * s / min,
                    yb == b * s / min,
            ;
            lemma_log_digits_monotone(ya, yb, 0, LOG_DIGITS as nat);
            let db = log_digits(yb, 0, LOG_DIGITS as nat);
            assert(da * PPM / (LOG_DENOM as int) <= db * PPM / (LOG_DENOM as int))
                by (nonlinear_arith)
                requires
                    da <= db,
            ;
        }
    }
}

proof fn lemma_log_digits_at_one(acc: int, n: nat)
    requires
        acc >= 0,
    ensures
        log_digits(LOG_ONE as int, acc, n) == acc * two_pow(n),
    decreases n,
{
    let s = LOG_ONE as int;
    if n > 0 {
        assert(s * s / s == s) by (nonlinear_arith)
            requires
                s > 0,
        ;
        lemma_log_digits_at_one(2 * acc, (n - 1) as nat);
        assert(2 * acc * two_pow((n - 1) as nat) == acc * two_pow(n)) by (nonlinear_arith)
            requires
                two_pow(n) == 2 * two_pow((n - 1) as nat),
        ;
    }
}

/// A holding at the open bucket's floor sits at position zero.
pub proof fn lemma_log_position_at_floor(min: int)
    requires
        min > 0,
    ensures
        log_position(min, min) == 0,
{
    assert(min * (LOG_ONE as int) / min == LOG_ONE) by (nonlinear_arith)
        requires
            min > 0,
    ;
    lemma_log_digits_at_one(0, LOG_DIGITS as nat);
}

/// A holding ten times the open bucket's floor, a tenth of the way to its
/// hundredfold ceiling on a logarithmic scale, sits exactly half way.
pub proof fn lemma_log_position_at_tenfold(min: int)
    requires
        min > 0,
    ensures
        log_position(10 * min, min) == PPM / 2,
{
    let s = LOG_ONE as int;
    assert(10 * min * s / min == 10 * s) by (nonlinear_arith)
        requires
            min > 0,
    ;
    assert((10 * s) * (10 * s) / s == 100 * s) by (nonlinear_arith)
        requires
            s > 0,
    ;
    assert((100 * s) / 100 == s);
    lemma_log_digits_at_one(1, (LOG_DIGITS - 1) as nat);
    reveal_with_fuel(two_pow, 21);
    assert(log_digits(10 * s, 0, LOG_DIGITS as nat) == log_digits(s, 1, (LOG_DIGITS - 1) as nat));
}

/// Computes `log_position`.
pub fn open_position(sats: u64, min: u64) -> (r: u64)
    ensures
        r as int == log_position(sats as int, min as int),
{
    assert((min as int) * OPEN_SPAN <= u128::MAX) by (nonlinear_arith)
        requires
            min <= u64::MAX,
    ;
    if min == 0 || sats as u128 >= (min as u128) * (OPEN_SPAN as u128) {
        return POSITION_CAP;
    }
    let s = LOG_ONE;
    assert((sats as int) * (s as int) < (OPEN_SPAN * LOG_ONE) * (min as int)) by (nonlinear_arith)
        requires
            (sats as int) < OPEN_SPAN * (min as int),
            s == LOG_ONE,
    ;
    let y0: u128 = (sats as u128) * s / (min as u128);
    assert(y0 < OPEN_SPAN * LOG_ONE) by (nonlinear_arith)
        requires
            (sats as int) * (s as int) < (OPEN_SPAN * LOG_ONE) * (min as int),
            y0 == (sats as int) * (s as int) / (min as int),
            min > 0,
    ;
    proof {
        reveal_with_fuel(two_pow, 21);
        assert(two_pow(LOG_DIGITS as nat) == LOG_DENOM);
    }
    let mut y: u128 = y0;
    let mut acc: u128 = 0;
    let mut k: u64 = 0;
    while k < LOG_DIGITS
        invariant
            s == LOG_ONE,
            two_pow(LOG_DIGITS as nat) == LOG_DENOM,
            k <= LOG_DIGITS,
            y < OPEN_SPAN * LOG_ONE,
            log_digits(y as int, acc as int, (LOG_DIGITS - k) as nat) == log_digits(
                y0 as int,
                0,
                LOG_DIGITS as nat,
            ),
        decreases LOG_DIGITS - k,
    {
        assert((y as int) * (y as int) < (OPEN_SPAN * LOG_ONE) * (OPEN_SPAN * LOG_ONE)) by (nonlinear_arith)
            requires
                y < OPEN_SPAN * LOG_ONE,
        ;
        assert((y as int) * (y as int) <= u128::MAX) by (nonlinear_arith)
            requires
                (y as int) * (y as int) < (OPEN_SPAN * LOG_ONE) * (OPEN_SPAN * LOG_ONE),
        ;
        let z: u128 = y * y / s;
        assert(z < OPEN_SPAN * OPEN_SPAN * LOG_ONE) by (nonlinear_arith)
            requires
                (y as int) * (y as int) < (OPEN_SPAN * LOG_ONE) * (OPEN_SPAN * LOG_ONE),
                z as int == (y as int) * (y as int) / (s as int),
                s == LOG_ONE,
        ;
        proof {
            lemma_log_digits_bounds(y as int, acc as int, (LOG_DIGITS - k) as nat);
            lemma_log_digits_bounds(y0 as int, 0, LOG_DIGITS as nat);
            lemma_two_pow_pos((LOG_DIGITS - k) as nat);
            assert(acc <= (acc as int) * two_pow((LOG_DIGITS - k) as nat)) by (nonlinear_arith)
                requires
                    acc >= 0,
                    two_pow((LOG_DIGITS - k) as nat) >= 1,
            ;
        }
        if z >= (OPEN_SPAN as u128) * s {
            y = z / (OPEN_SPAN as u128);
            acc = 2 * acc + 1;
        } else {
            y = z;
            acc = 2 * acc;
        }
        k = k + 1;
    }
    proof {
        lemma_log_digits_bounds(y0 as int, 0, LOG_DIGITS as nat);
        assert(log_digits(y as int, acc as int, 0) == acc);
        assert(acc < LOG_DENOM);
        assert((acc as int) * (PPM as int) <= u128::MAX) by (nonlinear_arith)
            requires
                acc < LOG_DENOM,
        ;
    }
    let p: u128 = acc * (PPM as u128) / LOG_DENOM;
    if p > POSITION_CAP as u128 {
        POSITION_CAP
    } else {
        p as u64
    }
}

/// Computes `weighted_position` for a holding inside bucket `r`.
pub fn weighted_within(r: &WealthRange, sats: u64) -> (p: u128)
    requires
        r.bounds_ok(),
        r.spec_contains(sats as int),
    ensures
        p as int == weighted_position(*r, sats as int),
        p <= r.address_count * PPM,
{
    let c = r.address_count as u128;
    match r.max_sats {
        Some(m) => {
            let w = (m - r.min_sats) as u128;
            let e = (sats - r.min_sats) as u128;
            assert((e as int) * PPM < (w as int) * PPM) by (nonlinear_arith)
                requires
                    e < w,
            ;
            let q = e * (PPM as u128) / w;
            let rem = e * (PPM as u128) % w;
            assert((e as int) * PPM == (q as int) * (w as int) + (rem as int) && rem < w)
                by (nonlinear_arith)
                requires
                    q as int == (e as int) * PPM / (w as int),
                    rem as int == (e as int) * PPM % (w as int),
                    w > 0,
            ;
            assert(q <= PPM) by (nonlinear_arith)
                requires
                    q as int == (e as int) * PPM / (w as int),
                    e < w,
                    w > 0,
            ;
            assert((c as int) * (rem as int) < (c as int + 1) * (w as int)) by (nonlinear_arith)
                requires
                    rem < w,
                    c >= 0,
            ;
            assert((c as int) * (rem as int) <= u128::MAX) by (nonlinear_arith)
                requires
                    rem < w,
                    w <= u64::MAX,
                    c <= u64::MAX,
            ;
            let part = c * rem / w;
            assert(part <= c) by (nonlinear_arith)
                requires
                    part as int == (c as int) * (rem as int) / (w as int),
                    rem < w,
                    w > 0,
            ;
            assert((c as int) * (q as int) <= (c as int) * PPM) by (nonlinear_arith)
                requires
                    q <= PPM,
            ;
            assert((c as int) * (e as int) * PPM == (c as int) * (q as int) * (w as int) + (c as int)
                * (rem as int)) by (nonlinear_arith)
                requires
                    (e as int) * PPM == (q as int) * (w as int) + (rem as int),
            ;
            assert((c as int) * (e as int) * PPM / (w as int) == (c as int) * (q as int) + (part
                as int)) by (nonlinear_arith)
                requires
                    (c as int) * (e as int) * PPM == (c as int) * (q as int) * (w as int) + (c as int)
                        * (rem as int),
                    part as int == (c as int) * (rem as int) / (w as int),
                    w > 0,
            ;
            assert((c as int) * (e as int) * PPM / (w as int) <= (c as int) * PPM) by (nonlinear_arith)
                requires
                    (e as int) * PPM < (w as int) * PPM,
                    w > 0,
                    c >= 0,
            ;
            c * q + part
        },
        None => {
            let lp = open_position(sats, r.min_sats);
            proof {
                lemma_log_position_monotone(sats as int, sats as int, r.min_sats as int);
            }
            assert((c as int) * (lp as int) <= (c as int) * PPM) by (nonlinear_arith)
                requires
                    lp <= POSITION_CAP,
            ;
            c * (lp as u128)
        },
    }
}

/// Index of the first bucket that contains `sats`, if any.
pub fn locate(ranges: &Vec<WealthRange>, sats: u64) -> (r: Option<usize>)
    ensures
        match r {
            Some(k) => k < ranges@.len() && ranges@[k as int].spec_contains(sats as int) && forall|
                j: int,
            |
                0 <= j < k ==> !(#[trigger] ranges@[j]).spec_contains(sats as int),
            None => forall|j: int|
                0 <= j < ranges@.len() ==> !(#[trigger] ranges@[j]).spec_contains(sats as int),
        },
{
    let mut i: usize = 0;
    while i < ranges.len()
        invariant
            i <= ranges@.len(),
            forall|j: int| 0 <= j < i ==> !(#[trigger] ranges@[j]).spec_contains(sats as int),
        decreases ranges@.len() - i,
    {
        if ranges[i].contains(sats) {
            return Some(i);
        }
        i = i + 1;
    }
    None
}

} // verus!
