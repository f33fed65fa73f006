use vstd::prelude::*;

verus! {

/// Decimal digits of `n`, most significant first.
pub open spec fn digit_values(n: nat) -> Seq<u8>
    decreases n,
{
    if n < 10 {
        seq![n as u8]
    } else {
        digit_values(n / 10).push((n % 10) as u8)
    }
}

/// The character of one decimal digit.
pub open spec fn digit_text(v: u8) -> Seq<char> {
    if v == 0 {
        "0"@
    } else if v == 1 {
        "1"@
    } else if v == 2 {
        "2"@
    } else if v == 3 {
        "3"@
    } else if v == 4 {
        "4"@
    } else if v == 5 {
        "5"@
    } else if v == 6 {
        "6"@
    } else if v == 7 {
        "7"@
    } else if v == 8 {
        "8"@
    } else {
        "9"@
    }
}

/// The first `i` digits of `ds` written out, with a comma before each digit
/// that starts a group of three counted from the right.
pub open spec fn grouped_upto(ds: Seq<u8>, i: int) -> Seq<char>
    decreases i,
{
    if i <= 0 {
        seq![]
    } else {
        let prev = grouped_upto(ds, i - 1);
        let sep = if i - 1 > 0 && (ds.len() - (i - 1)) % 3 == 0 {
            ","@
        } else {
            seq![]
        };
        prev + sep + digit_text(ds[i - 1])
    }
}

/// `n` in decimal with thousands separated by commas.
pub open spec fn with_commas(n: nat) -> Seq<char> {
    grouped_upto(digit_values(n), digit_values(n).len() as int)
}

/// The English ordinal suffix of `n`.
pub open spec fn ordinal_suffix(n: nat) -> Seq<char> {
    if n % 10 == 1 && n % 100 != 11 {
        "st"@
    } else if n % 10 == 2 && n % 100 != 12 {
        "nd"@
    } else if n % 10 == 3 && n % 100 != 13 {
        "rd"@
    } else {
        "th"@
    }
}

fn digit_str(v: u8) -> (r: &'static str)
    ensures
        r@ == digit_text(v),
{
    if v == 0 {
        "0"
    } else if v == 1 {
        "1"
    } else if v == 2 {
        "2"
    } else if v == 3 {
        "3"
    } else if v == 4 {
        "4"
    } else if v == 5 {
        "5"
    } else if v == 6 {
        "6"
    } else if v == 7 {
        "7"
    } else if v == 8 {
        "8"
    } else {
        "9"
    }
}

/// Decimal digits of `n`, most significant first.
fn digits(n: u64) -> (ds: Vec<u8>)
    ensures
        ds@ == digit_values(n as nat),
{
    let mut ds: Vec<u8> = Vec::new();
    let mut m: u64 = n;
    while m >= 10
        invariant
            digit_values(n as nat) == digit_values(m as nat) + ds@,
        decreases m,
    {
        proof {
            assert(digit_values(m as nat) == digit_values((m / 10) as nat).push((m % 10) as u8));
            assert(digit_values((m / 10) as nat).push((m % 10) as u8) + ds@ =~= digit_values(
                (m / 10) as nat,
            ) + ds@.insert(0, (m % 10) as u8));
        }
        ds.insert(0, (m % 10) as u8);
        m = m / 10;
    }
    proof {
        assert(seq![m as u8] + ds@ =~= ds@.insert(0, m as u8));
    }
    ds.insert(0, m as u8);
    ds
}

/// `n` in decimal with thousands separated by commas.
pub fn format_number_with_commas(n: u64) -> (r: String)
    ensures
        r@ == with_commas(n as nat),
{
    let ds = digits(n);
    let len = ds.len();
    let mut out = String::new();
    let mut i: usize = 0;
    while i < len
        invariant
            len == ds@.len(),
            i <= len,
            out@ == grouped_upto(ds@, i as int),
        decreases len - i,
    {
        if i > 0 && (len - i) % 3 == 0 {
            out.append(",");
        } else {
            proof {
                assert(out@ + seq![] =~= out@);
            }
        }
        out.append(digit_str(ds[i]));
        i = i + 1;
    }
    out
}

/// A rank written with thousands separators and its ordinal suffix, as in
/// "1,001st".
pub fn format_rank(rank: u64) -> (r: String)
    ensures
        r@ == with_commas(rank as nat) + ordinal_suffix(rank as nat),
{
    let mut out = format_number_with_commas(rank);
    let suffix = if rank % 10 == 1 && rank % 100 != 11 {
        "st"
    } else if rank % 10 == 2 && rank % 100 != 12 {
        "nd"
    } else if rank % 10 == 3 && rank % 100 != 13 {
        "rd"
    } else {
        "th"
    };
    out.append(suffix);
    out
}

} // verus!
