//! The running accumulator for one key.
use vstd::prelude::*;

verus! {

/// Mathematical content of an accumulator: extremes, exact sum and count of
/// the scaled values observed so far.
pub struct Acc {
    pub min: int,
    pub max: int,
    pub sum: int,
    pub count: nat,
}

pub open spec fn min_int(a: int, b: int) -> int {
    if a <= b { a } else { b }
}

pub open spec fn max_int(a: int, b: int) -> int {
    if a >= b { a } else { b }
}

/// The accumulator after the first observation `v`.
pub open spec fn acc_new(v: int) -> Acc {
    Acc { min: v, max: v, sum: v, count: 1 }
}

/// The accumulator `a` after one more observation `v`.
pub open spec fn acc_add(a: Acc, v: int) -> Acc {
    Acc { min: min_int(a.min, v), max: max_int(a.max, v), sum: a.sum + v, count: a.count + 1 }
}

/// The accumulator of the union of the observations of `a` and `b`.
pub open spec fn acc_merge(a: Acc, b: Acc) -> Acc {
    Acc {
        min: min_int(a.min, b.min),
        max: max_int(a.max, b.max),
        sum: a.sum + b.sum,
        count: a.count + b.count,
    }
}

/// An accumulator that has seen at least one value.
pub open spec fn acc_wf(a: Acc) -> bool {
    a.min <= a.max && a.count >= 1 && a.count * a.min <= a.sum <= a.count * a.max
}

/// Running {min, max, sum, count} of the scaled values of one key.
#[derive(Clone, Copy, Debug)]
pub struct Stat {
    pub min: i64,
    pub max: i64,
    pub sum: i64,
    pub count: u32,
}

impl Stat {
    pub open spec fn view(&self) -> Acc {
        Acc { min: self.min as int, max: self.max as int, sum: self.sum as int, count: self.count as nat }
    }

    /// The accumulator holds at least one observation.
    pub open spec fn wf(&self) -> bool {
        acc_wf(self@)
    }

    /// Whether `update(temp)` keeps the sum and count in range.
    pub open spec fn can_update(&self, temp: int) -> bool {
        i64::MIN <= self.sum + temp <= i64::MAX && self.count + 1 <= u32::MAX
    }

    /// Whether `join(other)` keeps the sum and count in range.
    pub open spec fn can_join(&self, other: Stat) -> bool {
        i64::MIN <= self.sum + other.sum <= i64::MAX && self.count + other.count <= u32::MAX
    }

    /// The accumulator of the single observation `temp`.
    pub fn new(temp: i64) -> (r: Self)
        ensures
            r@ == acc_new(temp as int),
            r.wf(),
    {
        Self { min: temp, max: temp, sum: temp, count: 1 }
    }

    /// Absorbs one more observation.
    pub fn update(&mut self, temp: i64)
        requires
            old(self).can_update(temp as int),
        ensures
            final(self)@ == acc_add(old(self)@, temp as int),
            old(self).wf() ==> final(self).wf(),
    {
        proof {
            lemma_add_wf(self@, temp as int);
        }
        if temp < self.min {
            self.min = temp;
        }
        if temp > self.max {
            self.max = temp;
        }
        self.sum = self.sum + temp;
        self.count = self.count + 1;
    }

    /// Absorbs every observation of `other`.
    pub fn join(&mut self, other: &Self)
        requires
            old(self).can_join(*other),
        ensures
            final(self)@ == acc_merge(old(self)@, other@),
            old(self).wf() && other.wf() ==> final(self).wf(),
    {
        proof {
            lemma_merge_wf(self@, other@);
        }
        if other.min < self.min {
            self.min = other.min;
        }
        if other.max > self.max {
            self.max = other.max;
        }
        self.sum = self.sum + other.sum;
        self.count = self.count + other.count;
    }

    /// Whether `update(temp)` may be called without overflow.
    pub fn fits_update(&self, temp: i64) -> (r: bool)
        ensures
            r == self.can_update(temp as int),
    {
        let s = self.sum as i128 + temp as i128;
        s >= i64::MIN as i128 && s <= i64::MAX as i128 && self.count < u32::MAX
    }

    /// Whether `join(other)` may be called without overflow.
    pub fn fits_join(&self, other: &Self) -> (r: bool)
        ensures
            r == self.can_join(*other),
    {
        let s = self.sum as i128 + other.sum as i128;
        let c = self.count as u64 + other.count as u64;
        s >= i64::MIN as i128 && s <= i64::MAX as i128 && c <= u32::MAX as u64
    }
}

pub proof fn lemma_add_wf(a: Acc, v: int)
    ensures
        acc_wf(a) ==> acc_wf(acc_add(a, v)),
{
    if acc_wf(a) {
        let b = acc_add(a, v);
        assert(b.count * b.min == a.count * b.min + b.min) by (nonlinear_arith)
            requires b.count == a.count + 1;
        assert(b.count * b.max == a.count * b.max + b.max) by (nonlinear_arith)
            requires b.count == a.count + 1;
        assert(a.count * b.min <= a.count * a.min) by (nonlinear_arith)
            requires b.min <= a.min, a.count >= 1;
        assert(a.count * a.max <= a.count * b.max) by (nonlinear_arith)
            requires a.max <= b.max, a.count >= 1;
    }
}

pub proof fn lemma_merge_wf(a: Acc, b: Acc)
    ensures
        acc_wf(a) && acc_wf(b) ==> acc_wf(acc_merge(a, b)),
{
    if acc_wf(a) && acc_wf(b) {
        let m = acc_merge(a, b);
        assert(m.count * m.min == a.count * m.min + b.count * m.min) by (nonlinear_arith)
            requires m.count == a.count + b.count;
        assert(m.count * m.max == a.count * m.max + b.count * m.max) by (nonlinear_arith)
            requires m.count == a.count + b.count;
        assert(a.count * m.min <= a.count * a.min) by (nonlinear_arith)
            requires m.min <= a.min, a.count >= 1;
        assert(b.count * m.min <= b.count * b.min) by (nonlinear_arith)
            requires m.min <= b.min, b.count >= 1;
        assert(a.count * a.max <= a.count * m.max) by (nonlinear_arith)
            requires a.max <= m.max, a.count >= 1;
        assert(b.count * b.max <= b.count * m.max) by (nonlinear_arith)
            requires b.max <= m.max, b.count >= 1;
    }
}

/// Merging two accumulators does not depend on their order.
pub proof fn lemma_acc_merge_commutative(a: Acc, b: Acc)
    ensures
        acc_merge(a, b) == acc_merge(b, a),
{
}

/// Merging accumulators does not depend on how the merges are grouped.
pub proof fn lemma_acc_merge_associative(a: Acc, b: Acc, c: Acc)
    ensures
        acc_merge(acc_merge(a, b), c) == acc_merge(a, acc_merge(b, c)),
{
}

} // verus!
