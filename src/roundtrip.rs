//! Values written by the reporter parse back to themselves, and canonical
//! value text survives a parse followed by a write.
use vstd::prelude::*;
use crate::parse::{has_minus, is_digit, magnitude_of, value_of};
use crate::report::{abs_int, digit_text, tenths_text};

verus! {

/// A run of digits without a leading zero, or the single digit `0`.
pub open spec fn canonical_digits(i: Seq<u8>) -> bool {
    &&& i.len() >= 1
    &&& forall|k: int| 0 <= k < i.len() ==> is_digit(#[trigger] i[k])
    &&& (i.len() > 1 ==> i[0] != 48u8)
}

/// Value text in canonical form: an optional `-`, the integer digits, a
/// point and one fractional digit; `-0.0` is written `0.0`.
pub open spec fn canonical_value(s: Seq<u8>) -> bool {
    exists|neg: bool, i: Seq<u8>, f: u8|
        canonical_digits(i) && is_digit(f) && #[trigger] value_parts(neg, i, f) == s
            && !(neg && i == seq![48u8] && f == 48u8)
}

pub open spec fn value_parts(neg: bool, i: Seq<u8>, f: u8) -> Seq<u8> {
    (if neg { seq![45u8] } else { Seq::<u8>::empty() }) + i + seq![46u8, f]
}

proof fn lemma_magnitude_push_non_digit(x: Seq<u8>, c: u8)
    requires
        !is_digit(c),
    ensures
        magnitude_of(x.push(c)) == magnitude_of(x),
{
    assert(x.push(c).drop_last() =~= x);
}

proof fn lemma_magnitude_push_digit(x: Seq<u8>, c: u8)
    requires
        is_digit(c),
    ensures
        magnitude_of(x.push(c)) == magnitude_of(x) * 10 + (c - 48u8),
{
    assert(x.push(c).drop_last() =~= x);
}

proof fn lemma_magnitude_minus_prefix(x: Seq<u8>)
    ensures
        magnitude_of(seq![45u8] + x) == magnitude_of(x),
    decreases x.len(),
{
    if x.len() == 0 {
        assert(seq![45u8] + x =~= Seq::<u8>::empty().push(45u8));
        lemma_magnitude_push_non_digit(Seq::<u8>::empty(), 45u8);
    } else {
        lemma_magnitude_minus_prefix(x.drop_last());
        assert((seq![45u8] + x).drop_last() =~= seq![45u8] + x.drop_last());
    }
}

/// Digits without a leading zero are written back as they were read.
proof fn lemma_digit_text_of_digits(i: Seq<u8>)
    requires
        canonical_digits(i),
    ensures
        digit_text(magnitude_of(i) as nat) == i,
        i.len() > 1 ==> magnitude_of(i) >= 10,
    decreases i.len(),
{
    crate::parse::lemma_magnitude_bound(i);
    let d = i.last();
    assert(is_digit(i[i.len() - 1]));
    if i.len() == 1 {
        assert(i =~= Seq::<u8>::empty().push(d));
        lemma_magnitude_push_digit(Seq::<u8>::empty(), d);
        assert(digit_text(magnitude_of(i) as nat) =~= i);
    } else {
        let p = i.drop_last();
        assert(i =~= p.push(d));
        assert(p[0] == i[0]);
        assert forall|k: int| 0 <= k < p.len() implies is_digit(#[trigger] p[k]) by {
            assert(p[k] == i[k]);
        }
        lemma_digit_text_of_digits(p);
        lemma_magnitude_push_digit(p, d);
        crate::parse::lemma_magnitude_bound(p);
        if p.len() == 1 {
            assert(p =~= Seq::<u8>::empty().push(p[0]));
            lemma_magnitude_push_digit(Seq::<u8>::empty(), p[0]);
            assert(magnitude_of(p) >= 1);
        }
        let n = magnitude_of(i);
        let m = magnitude_of(p);
        assert(n == m * 10 + (d - 48u8));
        assert(n / 10 == m && n % 10 == d - 48u8) by (nonlinear_arith)
            requires n == m * 10 + (d - 48u8), 0 <= d - 48u8 < 10, m >= 0;
        assert(digit_text(n as nat) == digit_text(m as nat).push((48 + n % 10) as u8));
    }
}

/// Canonical value text, parsed and written again, is the text itself.
pub proof fn lemma_round_trip(s: Seq<u8>)
    requires
        canonical_value(s),
    ensures
        tenths_text(value_of(s)) == s,
{
    let (neg, i, f) = choose|neg: bool, i: Seq<u8>, f: u8|
        canonical_digits(i) && is_digit(f) && #[trigger] value_parts(neg, i, f) == s
            && !(neg && i == seq![48u8] && f == 48u8);
    let body = i + seq![46u8, f];
    assert(i + seq![46u8, f] =~= i.push(46u8).push(f));
    lemma_magnitude_push_non_digit(i, 46u8);
    lemma_magnitude_push_digit(i.push(46u8), f);
    lemma_digit_text_of_digits(i);
    crate::parse::lemma_magnitude_bound(i);
    let m = magnitude_of(i);
    let a = magnitude_of(body);
    assert(a == m * 10 + (f - 48u8));
    assert(a / 10 == m && a % 10 == f - 48u8) by (nonlinear_arith)
        requires a == m * 10 + (f - 48u8), 0 <= f - 48u8 < 10, m >= 0;
    if neg {
        assert(s =~= seq![45u8] + body);
        lemma_magnitude_minus_prefix(body);
        assert(s[0] == 45u8);
        assert(has_minus(s));
        if a == 0 {
            assert(m == 0 && f == 48u8);
            if i.len() > 1 {
                assert(false);
            }
            assert(i =~= seq![48u8]);
        }
        assert(value_of(s) == -a);
        assert(abs_int(value_of(s)) == a);
        assert(tenths_text(value_of(s)) =~= s);
    } else {
        assert(s =~= body);
        assert forall|k: int| 0 <= k < s.len() implies s[k] != 45u8 by {
            if k < i.len() {
                assert(s[k] == i[k]);
            }
        }
        assert(value_of(s) == a);
        assert(tenths_text(value_of(s)) =~= s);
    }
}

} // verus!
