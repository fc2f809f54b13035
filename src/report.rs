//! Display form of scaled values: one decimal place, and the rounded mean.
use vstd::prelude::*;
use crate::stat::{Acc, Stat};

verus! {

/// Decimal digits of `n`, most significant first, without leading zeros.
pub open spec fn digit_text(n: nat) -> Seq<u8>
    decreases n,
{
    if n < 10 {
        seq![(48 + n) as u8]
    } else {
        digit_text(n / 10).push((48 + n % 10) as u8)
    }
}

pub open spec fn abs_int(v: int) -> int {
    if v < 0 { -v } else { v }
}

/// A scaled value written with one decimal place: `-15` is `-1.5`.
pub open spec fn tenths_text(v: int) -> Seq<u8> {
    let a = abs_int(v);
    let sign: Seq<u8> = if v < 0 { seq![45u8] } else { seq![] };
    sign + digit_text((a / 10) as nat) + seq![46u8, (48 + a % 10) as u8]
}

/// The quotient `sum / count` rounded to the nearest integer, halves away
/// from zero.
pub open spec fn rounded_mean(sum: int, count: int) -> int {
    if sum >= 0 {
        (2 * sum + count) / (2 * count)
    } else {
        -((2 * -sum + count) / (2 * count))
    }
}

/// The mean of an accumulator in scaled units.
pub open spec fn acc_mean(a: Acc) -> int {
    rounded_mean(a.sum, a.count as int)
}

fn push_digits(out: &mut Vec<u8>, n: u64)
    ensures
        final(out)@ == old(out)@ + digit_text(n as nat),
    decreases n,
{
    if n >= 10 {
        push_digits(out, n / 10);
    }
    out.push((48 + n % 10) as u8);
    proof {
        if n >= 10 {
            assert(old(out)@ + digit_text(n as nat) =~= (old(out)@ + digit_text((n / 10) as nat)).push((48 + n % 10) as u8));
        } else {
            assert(old(out)@ + digit_text(n as nat) =~= old(out)@.push((48 + n % 10) as u8));
        }
    }
}

/// Writes a scaled value with one decimal place.
pub fn format_tenths(v: i64) -> (r: Vec<u8>)
    ensures
        r@ == tenths_text(v as int),
{
    let a: u64 = if v < 0 { (-(v as i128)) as u64 } else { v as u64 };
    let mut out: Vec<u8> = Vec::new();
    if v < 0 {
        out.push(45u8);
    }
    let ghost sign = out@;
    push_digits(&mut out, a / 10);
    out.push(46u8);
    out.push((48 + a % 10) as u8);
    proof {
        assert(out@ =~= sign + digit_text((a / 10) as nat) + seq![46u8, (48 + a % 10) as u8]);
    }
    out
}

/// The mean of a well-formed accumulator, rounded to a scaled integer.
pub fn mean_tenths(stat: &Stat) -> (r: i64)
    requires
        stat.wf(),
    ensures
        r == acc_mean(stat@),
{
    let s = stat.sum as i128;
    let c = stat.count as i128;
    proof {
        lemma_rounded_mean_bounds(stat.sum as int, stat.count as int);
    }
    let q = if s >= 0 { (2 * s + c) / (2 * c) } else { -((2 * -s + c) / (2 * c)) };
    q as i64
}

proof fn lemma_rounded_mean_bounds(sum: int, count: int)
    requires
        1 <= count <= u32::MAX,
        i64::MIN <= sum <= i64::MAX,
    ensures
        i64::MIN <= rounded_mean(sum, count) <= i64::MAX,
{
    if sum >= 0 {
        assert((2 * sum + count) / (2 * count) <= sum + 1) by (nonlinear_arith)
            requires sum >= 0, count >= 1;
        assert((2 * sum + count) / (2 * count) <= sum) by (nonlinear_arith)
            requires sum >= 0, count >= 1, sum <= i64::MAX;
    } else {
        assert((2 * -sum + count) / (2 * count) <= -sum) by (nonlinear_arith)
            requires sum < 0, count >= 1;
    }
}

/// One table entry in display form: `min/mean/max`.
pub fn format_stat(stat: &Stat) -> (r: Vec<u8>)
    requires
        stat.wf(),
    ensures
        r@ == tenths_text(stat.min as int) + seq![47u8] + tenths_text(acc_mean(stat@)) + seq![47u8]
            + tenths_text(stat.max as int),
{
    let mut out = format_tenths(stat.min);
    out.push(47u8);
    let mut m = format_tenths(mean_tenths(stat));
    out.append(&mut m);
    out.push(47u8);
    let mut x = format_tenths(stat.max);
    out.append(&mut x);
    out
}

} // verus!
