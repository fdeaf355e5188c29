//! Real-number arithmetic, supplied by the caller.
//!
//! The signal-processing code of this crate is generic over the number type `T` of a sample.
//! It reaches the arithmetic of `T` through three closures that are bundled in an [`Arith`]:
//! one evaluates an [`Op`], one relates two numbers, one cuts a number down to an integer.
//! Contracts are stated over the mathematical counterpart of such a bundle, a [`Num`]: they
//! say which operations are applied to which operands, and in which order.
use vstd::prelude::*;

use crate::exact::{lemma_integer, total, Reals};

verus! {

/// One arithmetic operation with its operands.
pub enum Op<T> {
    /// The number nearest to the quotient of two integers.
    Ratio(i64, i64),
    /// The number nearest to a count.
    Count(u64),
    /// The number nearest to the circle constant.
    Pi,
    /// The least finite number.
    Lowest,
    /// A value that is not a number.
    Nan,
    /// Sum.
    Add(T, T),
    /// Difference.
    Sub(T, T),
    /// Product.
    Mul(T, T),
    /// Quotient.
    Div(T, T),
    /// The larger of two numbers.
    Max(T, T),
    /// Absolute value.
    Abs(T),
    /// Square root.
    Sqrt(T),
    /// Power of two.
    Exp2(T),
    /// Logarithm to the base two.
    Log2(T),
    /// Logarithm to the base ten.
    Log10(T),
    /// Natural logarithm.
    Ln(T),
    /// Sine of an angle in radians.
    Sin(T),
    /// Cosine of an angle in radians.
    Cos(T),
    /// Nearest integer, halves away from zero.
    Round(T),
}

/// How two numbers relate; `Unordered` when one of them is not a number.
#[derive(Clone, Copy, Debug, PartialEq, Eq, Structural)]
pub enum Rel {
    /// The first is less than the second.
    Less,
    /// Both are the same number.
    Equal,
    /// The first is greater than the second.
    Greater,
    /// They cannot be compared.
    Unordered,
}

/// The meaning of an arithmetic: what each operation, each comparison and each cut gives.
#[verifier::reject_recursive_types(T)]
pub ghost struct Num<T> {
    /// The value of an operation.
    pub op: spec_fn(Op<T>) -> T,
    /// The relation of two numbers.
    pub rel: spec_fn(T, T) -> Rel,
    /// The integer part, towards zero.
    pub whole: spec_fn(T) -> i128,
}

/// `x` moved into `lo..=hi`.
pub open spec fn bounded(x: int, lo: int, hi: int) -> int {
    if x < lo {
        lo
    } else if x > hi {
        hi
    } else {
        x
    }
}

impl<T> Num<T> {
    /// The number nearest to `n / d`.
    pub open spec fn ratio(self, n: i64, d: i64) -> T {
        (self.op)(Op::Ratio(n, d))
    }

    /// The number nearest to the count `k`.
    pub open spec fn count(self, k: u64) -> T {
        (self.op)(Op::Count(k))
    }

    /// Zero.
    pub open spec fn zero(self) -> T {
        self.ratio(0, 1)
    }

    /// The number nearest to the integer `n`.
    pub open spec fn integer(self, n: i64) -> T {
        self.ratio(n, 1)
    }

    /// The circle constant.
    pub open spec fn pi(self) -> T {
        (self.op)(Op::Pi)
    }

    /// The least finite number.
    pub open spec fn lowest(self) -> T {
        (self.op)(Op::Lowest)
    }

    /// Not a number.
    pub open spec fn nan(self) -> T {
        (self.op)(Op::Nan)
    }

    /// `a + b`.
    pub open spec fn plus(self, a: T, b: T) -> T {
        (self.op)(Op::Add(a, b))
    }

    /// `a - b`.
    pub open spec fn minus(self, a: T, b: T) -> T {
        (self.op)(Op::Sub(a, b))
    }

    /// `a * b`.
    pub open spec fn times(self, a: T, b: T) -> T {
        (self.op)(Op::Mul(a, b))
    }

    /// `a / b`.
    pub open spec fn over(self, a: T, b: T) -> T {
        (self.op)(Op::Div(a, b))
    }

    /// The larger of `a` and `b`.
    pub open spec fn larger(self, a: T, b: T) -> T {
        (self.op)(Op::Max(a, b))
    }

    /// Absolute value.
    pub open spec fn abs(self, a: T) -> T {
        (self.op)(Op::Abs(a))
    }

    /// Square root.
    pub open spec fn sqrt(self, a: T) -> T {
        (self.op)(Op::Sqrt(a))
    }

    /// Power of two.
    pub open spec fn exp2(self, a: T) -> T {
        (self.op)(Op::Exp2(a))
    }

    /// Logarithm to the base two.
    pub open spec fn log2(self, a: T) -> T {
        (self.op)(Op::Log2(a))
    }

    /// Logarithm to the base ten.
    pub open spec fn log10(self, a: T) -> T {
        (self.op)(Op::Log10(a))
    }

    /// Natural logarithm.
    pub open spec fn ln(self, a: T) -> T {
        (self.op)(Op::Ln(a))
    }

    /// Sine.
    pub open spec fn sin(self, a: T) -> T {
        (self.op)(Op::Sin(a))
    }

    /// Cosine.
    pub open spec fn cos(self, a: T) -> T {
        (self.op)(Op::Cos(a))
    }

    /// Nearest integer.
    pub open spec fn round(self, a: T) -> T {
        (self.op)(Op::Round(a))
    }

    /// `a > b`.
    pub open spec fn gt(self, a: T, b: T) -> bool {
        (self.rel)(a, b) == Rel::Greater
    }

    /// `a < b`.
    pub open spec fn lt(self, a: T, b: T) -> bool {
        (self.rel)(a, b) == Rel::Less
    }

    /// `a <= b`.
    pub open spec fn le(self, a: T, b: T) -> bool {
        (self.rel)(a, b) == Rel::Less || (self.rel)(a, b) == Rel::Equal
    }

    /// `a` moved into `lo..=hi`; what is not a number stays.
    pub open spec fn clamp(self, a: T, lo: T, hi: T) -> T {
        let b = if self.lt(a, lo) {
            lo
        } else {
            a
        };
        if self.gt(b, hi) {
            hi
        } else {
            b
        }
    }

    /// The integer part of `a`, moved into `lo..=hi`.
    pub open spec fn cut(self, a: T, lo: int, hi: int) -> int {
        bounded((self.whole)(a) as int, lo, hi)
    }
}

/// An arithmetic: three closures, and what they mean.
#[verifier::reject_recursive_types(T)]
pub struct Arith<T, O, G, Z> {
    /// Evaluates an operation.
    pub op: O,
    /// Relates two numbers.
    pub rel: G,
    /// Cuts a number down to its integer part, towards zero.
    pub whole: Z,
    /// The meaning of the three.
    pub model: Ghost<Num<T>>,
}

/// The meaning that three closures have of their own accord.
pub open spec fn meaning<T, O: Fn(Op<T>) -> T, G: Fn(T, T) -> Rel, Z: Fn(T) -> i128>(
    op: O,
    rel: G,
    whole: Z,
) -> Num<T> {
    Num {
        op: |o: Op<T>| choose|r: T| call_ensures(op, (o,), r),
        rel: |a: T, b: T| choose|r: Rel| call_ensures(rel, (a, b), r),
        whole: |a: T| choose|r: i128| call_ensures(whole, (a,), r),
    }
}

/// The closures are total, and each gives what `n` says.
pub open spec fn agrees<T, O: Fn(Op<T>) -> T, G: Fn(T, T) -> Rel, Z: Fn(T) -> i128>(
    op: O,
    rel: G,
    whole: Z,
    n: Num<T>,
) -> bool {
    &&& forall|o: Op<T>| #[trigger] call_requires(op, (o,))
    &&& forall|o: Op<T>, r: T| #[trigger] call_ensures(op, (o,), r) ==> r == (n.op)(o)
    &&& forall|a: T, b: T| #[trigger] call_requires(rel, (a, b))
    &&& forall|a: T, b: T, r: Rel| #[trigger] call_ensures(rel, (a, b), r) ==> r == (n.rel)(a, b)
    &&& forall|a: T| #[trigger] call_requires(whole, (a,))
    &&& forall|a: T, r: i128| #[trigger] call_ensures(whole, (a,), r) ==> r == (n.whole)(a)
}

impl<T: Copy, O: Fn(Op<T>) -> T, G: Fn(T, T) -> Rel, Z: Fn(T) -> i128> Arith<T, O, G, Z> {
    /// The closures do what the model says.
    pub open spec fn wf(&self) -> bool {
        agrees(self.op, self.rel, self.whole, self.model@)
    }

    /// Bundles three closures whose results depend on their arguments alone.
    pub fn new(op: O, rel: G, whole: Z) -> (a: Self)
        requires
            agrees(op, rel, whole, meaning(op, rel, whole)),
        ensures
            a.wf(),
            a.op == op,
            a.rel == rel,
            a.whole == whole,
            a.model@ == meaning(op, rel, whole),
    {
        Arith { model: Ghost(meaning(op, rel, whole)), op, rel, whole }
    }

    /// The value of any operation.
    pub fn eval(&self, o: Op<T>) -> (r: T)
        requires
            self.wf(),
        ensures
            r == (self.model@.op)(o),
    {
        (self.op)(o)
    }

    /// The number nearest to `n / d`.
    pub fn ratio(&self, n: i64, d: i64) -> (r: T)
        requires
            self.wf(),
        ensures
            r == self.model@.ratio(n, d),
    {
        self.eval(Op::Ratio(n, d))
    }

    /// The number nearest to the integer `n`.
    pub fn integer(&self, n: i64) -> (r: T)
        requires
            self.wf(),
        ensures
            r == self.model@.integer(n),
    {
        self.eval(Op::Ratio(n, 1))
    }

    /// Zero.
    pub fn zero(&self) -> (r: T)
        requires
            self.wf(),
        ensures
            r == self.model@.zero(),
    {
        self.eval(Op::Ratio(0, 1))
    }

    /// The number nearest to the count `k`.
    pub fn count(&self, k: u64) -> (r: T)
        requires
            self.wf(),
        ensures
            r == self.model@.count(k),
    {
        self.eval(Op::Count(k))
    }

    /// `a + b`.
    pub fn plus(&self, a: T, b: T) -> (r: T)
        requires
            self.wf(),
        ensures
            r == self.model@.plus(a, b),
    {
        self.eval(Op::Add(a, b))
    }

    /// `a - b`.
    pub fn minus(&self, a: T, b: T) -> (r: T)
        requires
            self.wf(),
        ensures
            r == self.model@.minus(a, b),
    {
        self.eval(Op::Sub(a, b))
    }

    /// `a * b`.
    pub fn times(&self, a: T, b: T) -> (r: T)
        requires
            self.wf(),
        ensures
            r == self.model@.times(a, b),
    {
        self.eval(Op::Mul(a, b))
    }

    /// `a / b`.
    pub fn over(&self, a: T, b: T) -> (r: T)
        requires
            self.wf(),
        ensures
            r == self.model@.over(a, b),
    {
        self.eval(Op::Div(a, b))
    }

    /// `a > b`.
    pub fn gt(&self, a: T, b: T) -> (r: bool)
        requires
            self.wf(),
        ensures
            r == self.model@.gt(a, b),
    {
        match (self.rel)(a, b) {
            Rel::Greater => true,
            _ => false,
        }
    }

    /// `a < b`.
    pub fn lt(&self, a: T, b: T) -> (r: bool)
        requires
            self.wf(),
        ensures
            r == self.model@.lt(a, b),
    {
        match (self.rel)(a, b) {
            Rel::Less => true,
            _ => false,
        }
    }

    /// `a <= b`.
    pub fn le(&self, a: T, b: T) -> (r: bool)
        requires
            self.wf(),
        ensures
            r == self.model@.le(a, b),
    {
        match (self.rel)(a, b) {
            Rel::Less => true,
            Rel::Equal => true,
            _ => false,
        }
    }

    /// `a` moved into `lo..=hi`; what is not a number stays.
    pub fn clamp(&self, a: T, lo: T, hi: T) -> (r: T)
        requires
            self.wf(),
        ensures
            r == self.model@.clamp(a, lo, hi),
    {
        let b = if self.lt(a, lo) {
            lo
        } else {
            a
        };
        if self.gt(b, hi) {
            hi
        } else {
            b
        }
    }

    /// The integer part of `a`, moved into `lo..=hi`.
    pub fn cut(&self, a: T, lo: i128, hi: i128) -> (r: i128)
        requires
            self.wf(),
            lo <= hi,
        ensures
            r as int == self.model@.cut(a, lo as int, hi as int),
            lo <= r <= hi,
    {
        let x: i128 = (self.whole)(a);
        if x < lo {
            lo
        } else if x > hi {
            hi
        } else {
            x
        }
    }
}

/// A sum of squares: the squares of `xs`, added from the left, starting at zero.
pub open spec fn sum_squares<T>(n: Num<T>, xs: Seq<T>) -> T
    decreases xs.len(),
{
    if xs.len() == 0 {
        n.zero()
    } else {
        n.plus(sum_squares(n, xs.drop_last()), n.times(xs.last(), xs.last()))
    }
}

/// The root mean square of `xs`.
pub open spec fn rms_of<T>(n: Num<T>, xs: Seq<T>) -> T {
    n.sqrt(n.over(sum_squares(n, xs), n.count(xs.len() as u64)))
}

/// The root mean square of the samples `xs`.
pub fn rms<T: Copy, O: Fn(Op<T>) -> T, G: Fn(T, T) -> Rel, Z: Fn(T) -> i128>(
    ar: &Arith<T, O, G, Z>,
    xs: &[T],
) -> (r: T)
    requires
        ar.wf(),
    ensures
        r == rms_of(ar.model@, xs@),
{
    let mut acc: T = ar.zero();
    let mut i: usize = 0;
    while i < xs.len()
        invariant
            ar.wf(),
            i <= xs@.len(),
            acc == sum_squares(ar.model@, xs@.take(i as int)),
        decreases xs@.len() - i,
    {
        let v = xs[i];
        let sq = ar.times(v, v);
        acc = ar.plus(acc, sq);
        proof {
            assert(xs@.take(i + 1).drop_last() =~= xs@.take(i as int));
        }
        i += 1;
    }
    proof {
        assert(xs@.take(xs@.len() as int) =~= xs@);
    }
    let mean = ar.over(acc, ar.count(xs.len() as u64));
    ar.eval(Op::Sqrt(mean))
}

/// The sum of squares by value.
proof fn lemma_sum_squares_value<T>(n: Num<T>, m: Reals<T>, xs: Seq<T>, k: nat)
    requires
        m.computes(n),
        k <= xs.len(),
    ensures
        m.of(sum_squares(n, xs.take(k as int))) == total(|i: int| m.of(xs[i]) * m.of(xs[i]), k),
        total(|i: int| m.of(xs[i]) * m.of(xs[i]), k) >= 0real,
    decreases k,
{
    lemma_integer(n, m, 0);
    if k > 0 {
        lemma_sum_squares_value(n, m, xs, (k - 1) as nat);
        let part = xs.take(k as int);
        assert(part.drop_last() =~= xs.take(k - 1));
        assert(part.last() == xs[k - 1]);
        let x = m.of(xs[k - 1]);
        assert(x * x >= 0real) by (nonlinear_arith);
    }
}

/// The level of samples is the value that has their mean energy: its square, taken once for every
/// sample, is the sum of their squares.
pub proof fn law_level_has_the_mean_energy<T>(n: Num<T>, m: Reals<T>, xs: Seq<T>)
    requires
        m.computes(n),
        m.roots(n),
        0 < xs.len() <= u64::MAX,
    ensures
        m.of(rms_of(n, xs)) >= 0real,
        (xs.len() as real) * (m.of(rms_of(n, xs)) * m.of(rms_of(n, xs))) == total(
            |i: int| m.of(xs[i]) * m.of(xs[i]),
            xs.len(),
        ),
{
    lemma_sum_squares_value(n, m, xs, xs.len());
    assert(xs.take(xs.len() as int) =~= xs);
    let (s, k) = (m.of(sum_squares(n, xs)), xs.len() as real);
    assert(m.of(n.count(xs.len() as u64)) == k);
    assert(s / k >= 0real && k * (s / k) == s) by (nonlinear_arith)
        requires
            s >= 0real,
            k >= 1real,
    ;
    assert((m.root)(s / k) * (m.root)(s / k) == s / k);
}

/// A clamped number is one of the number itself and the two ends; what compares with neither end as
/// beyond it, as what is not a number does, is itself.
pub proof fn law_clamping_keeps_what_is_not_beyond<T>(n: Num<T>, a: T, lo: T, hi: T)
    ensures
        (n.rel)(a, lo) != Rel::Less && (n.rel)(a, hi) != Rel::Greater ==> n.clamp(a, lo, hi) == a,
        (n.rel)(a, lo) == Rel::Less && (n.rel)(lo, hi) != Rel::Greater ==> n.clamp(a, lo, hi) == lo,
        (n.rel)(a, lo) != Rel::Less && (n.rel)(a, hi) == Rel::Greater ==> n.clamp(a, lo, hi) == hi,
{
}

} // verus!
