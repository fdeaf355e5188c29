//! What an arithmetic stands for when its numbers are real numbers.
//!
//! The laws of this crate that speak of amounts (energies, means, powers, logarithms) are stated
//! for an arithmetic that computes exactly: every number has a real value, and every operation
//! gives the number of the real result. What is asked of the real functions behind the roots,
//! powers, logarithms and angles is only what makes them those functions.
use vstd::prelude::*;

use crate::arith::Num;

verus! {

/// The real values of numbers, and the real functions behind the operations on them.
#[verifier::reject_recursive_types(T)]
pub ghost struct Reals<T> {
    /// The value of a number.
    pub value: spec_fn(T) -> real,
    /// The square root.
    pub root: spec_fn(real) -> real,
    /// Two to a power.
    pub pow2: spec_fn(real) -> real,
    /// The natural logarithm.
    pub log: spec_fn(real) -> real,
    /// The sine.
    pub sine: spec_fn(real) -> real,
    /// The cosine.
    pub cosine: spec_fn(real) -> real,
    /// The circle constant.
    pub circle: real,
    /// The nearest integer, halves away from zero.
    pub nearest: spec_fn(real) -> int,
}

impl<T> Reals<T> {
    /// The value of a number.
    pub open spec fn of(self, a: T) -> real {
        (self.value)(a)
    }

    /// Integers, counts and the four operations are exact.
    pub open spec fn computes(self, n: Num<T>) -> bool {
        &&& forall|p: i64, q: i64| q != 0 ==> self.of(#[trigger] n.ratio(p, q)) == (p as real) / (
        q as real)
        &&& forall|k: u64| self.of(#[trigger] n.count(k)) == k as real
        &&& forall|a: T, b: T| self.of(#[trigger] n.plus(a, b)) == self.of(a) + self.of(b)
        &&& forall|a: T, b: T| self.of(#[trigger] n.minus(a, b)) == self.of(a) - self.of(b)
        &&& forall|a: T, b: T| self.of(#[trigger] n.times(a, b)) == self.of(a) * self.of(b)
        &&& forall|a: T, b: T|
            self.of(b) != 0real ==> self.of(#[trigger] n.over(a, b)) == self.of(a) / self.of(b)
    }

    /// Numbers compare as their values do.
    pub open spec fn orders(self, n: Num<T>) -> bool {
        &&& forall|a: T, b: T| #[trigger] n.gt(a, b) <==> self.of(a) > self.of(b)
        &&& forall|a: T, b: T| #[trigger] n.lt(a, b) <==> self.of(a) < self.of(b)
        &&& forall|a: T, b: T| #[trigger] n.le(a, b) <==> self.of(a) <= self.of(b)
        &&& forall|a: T, b: T|
            self.of(#[trigger] n.larger(a, b)) == if self.of(a) >= self.of(b) {
                self.of(a)
            } else {
                self.of(b)
            }
        &&& forall|a: T|
            self.of(#[trigger] n.abs(a)) == if self.of(a) >= 0real {
                self.of(a)
            } else {
                -self.of(a)
            }
    }

    /// Square roots are exact.
    pub open spec fn roots(self, n: Num<T>) -> bool {
        &&& forall|a: T|
            self.of(a) >= 0real ==> self.of(#[trigger] n.sqrt(a)) == (self.root)(self.of(a))
        &&& forall|x: real|
            x >= 0real ==> #[trigger] (self.root)(x) >= 0real && (self.root)(x) * (self.root)(x)
                == x
    }

    /// Powers of two are exact: they take sums to products, and one to two.
    pub open spec fn powers(self, n: Num<T>) -> bool {
        &&& forall|a: T| self.of(#[trigger] n.exp2(a)) == (self.pow2)(self.of(a))
        &&& forall|x: real, y: real| #[trigger]
            (self.pow2)(x + y) == (self.pow2)(x) * (self.pow2)(y)
        &&& forall|x: real| #[trigger] (self.pow2)(x) > 0real
        &&& (self.pow2)(1real) == 2real
    }

    /// Logarithms are exact: they take products to sums, and grow.
    pub open spec fn logarithms(self, n: Num<T>) -> bool {
        &&& forall|a: T|
            self.of(a) > 0real ==> self.of(#[trigger] n.ln(a)) == (self.log)(self.of(a))
        &&& forall|a: T|
            self.of(a) > 0real ==> self.of(#[trigger] n.log2(a)) == (self.log)(self.of(a)) / (
            self.log)(2real)
        &&& forall|a: T|
            self.of(a) > 0real ==> self.of(#[trigger] n.log10(a)) == (self.log)(self.of(a)) / (
            self.log)(10real)
        &&& forall|x: real, y: real|
            x > 0real && y > 0real ==> #[trigger] (self.log)(x * y) == (self.log)(x) + (self.log)(y)
        &&& forall|x: real, y: real|
            #![trigger (self.log)(x), (self.log)(y)]
            0real < x < y ==> (self.log)(x) < (self.log)(y)
    }

    /// Angles are exact: sine and cosine lie on the unit circle, the cosine doubles, and begins
    /// at one; a quarter turn further it is the sine, turned around.
    pub open spec fn angles(self, n: Num<T>) -> bool {
        &&& self.of(n.pi()) == self.circle
        &&& forall|a: T| self.of(#[trigger] n.sin(a)) == (self.sine)(self.of(a))
        &&& forall|a: T| self.of(#[trigger] n.cos(a)) == (self.cosine)(self.of(a))
        &&& forall|x: real|
            #![trigger (self.sine)(x)]
            #![trigger (self.cosine)(x)]
            (self.sine)(x) * (self.sine)(x) + (self.cosine)(x) * (self.cosine)(x) == 1real
        &&& forall|x: real| #[trigger]
            (self.cosine)(2real * x) == 2real * ((self.cosine)(x) * (self.cosine)(x)) - 1real
        &&& (self.cosine)(0real) == 1real
        &&& forall|x: real| #[trigger]
            (self.cosine)(x + self.circle / 2real) == -(self.sine)(x)
    }

    /// Rounding and cutting down to integers are exact; what is far out of range stays far out.
    pub open spec fn cuts(self, n: Num<T>) -> bool {
        &&& forall|a: T|
            self.of(#[trigger] n.round(a)) == (self.nearest)(self.of(a)) as real
        &&& forall|x: real|
            {
                let k = #[trigger] (self.nearest)(x) as real;
                if x >= 0real {
                    2real * k - 1real <= 2real * x < 2real * k + 1real
                } else {
                    2real * k - 1real < 2real * x <= 2real * k + 1real
                }
            }
        &&& forall|a: T| #[trigger] cut_down(self.of(a), (n.whole)(a) as int)
    }
}

/// Beyond this, what is cut down to an integer is only known to be as far out.
pub open spec fn far() -> int {
    0x1_0000_0000_0000_0000_0000_0000
}

/// `w` is the integer part of `x`, towards zero.
pub open spec fn cut_down(x: real, w: int) -> bool {
    if x >= far() as real {
        w >= far()
    } else if x <= -(far() as real) {
        w <= -far()
    } else if x >= 0real {
        w as real <= x < w as real + 1real
    } else {
        w as real - 1real < x <= w as real
    }
}

/// The sum of `f` at `0..k`.
pub open spec fn total(f: spec_fn(int) -> real, k: nat) -> real
    decreases k,
{
    if k == 0 {
        0real
    } else {
        total(f, (k - 1) as nat) + f(k - 1)
    }
}

/// `x` to the power of `k`.
pub open spec fn power(x: real, k: nat) -> real
    decreases k,
{
    if k == 0 {
        1real
    } else {
        power(x, (k - 1) as nat) * x
    }
}

/// Integers have their value.
pub proof fn lemma_integer<T>(n: Num<T>, m: Reals<T>, k: i64)
    requires
        m.computes(n),
    ensures
        m.of(n.integer(k)) == k as real,
        m.of(n.zero()) == 0real,
{
    assert(m.of(n.ratio(k, 1)) == (k as real) / (1i64 as real));
    assert((k as real) / 1real == k as real) by (nonlinear_arith);
    assert(m.of(n.ratio(0, 1)) == (0i64 as real) / (1i64 as real));
    assert(0real / 1real == 0real) by (nonlinear_arith);
}

/// Powers of a product.
pub proof fn lemma_power_of_product(x: real, y: real, k: nat)
    ensures
        power(x * y, k) == power(x, k) * power(y, k),
    decreases k,
{
    if k > 0 {
        let j = (k - 1) as nat;
        lemma_power_of_product(x, y, j);
        let (p, q) = (power(x, j), power(y, j));
        assert((p * q) * (x * y) == (p * x) * (q * y)) by (nonlinear_arith);
    }
}

/// Powers of a power of two.
pub proof fn lemma_power_of_pow2<T>(n: Num<T>, m: Reals<T>, x: real, k: nat)
    requires
        m.powers(n),
    ensures
        power((m.pow2)(x), k) == (m.pow2)((k as real) * x),
    decreases k,
{
    if k > 0 {
        let j = (k - 1) as nat;
        lemma_power_of_pow2(n, m, x, j);
        assert((k as real) * x == (j as real) * x + x) by (nonlinear_arith)
            requires
                k as real == j as real + 1real,
        ;
    } else {
        lemma_pow2_of_zero(n, m);
        assert((0nat as real) * x == 0real) by (nonlinear_arith);
    }
}

/// Two to the power of zero is one.
pub proof fn lemma_pow2_of_zero<T>(n: Num<T>, m: Reals<T>)
    requires
        m.powers(n),
    ensures
        (m.pow2)(0real) == 1real,
{
    let p = (m.pow2)(0real);
    assert((m.pow2)(0real + 0real) == p * p);
    assert(p == 1real) by (nonlinear_arith)
        requires
            p == p * p,
            p > 0real,
    ;
}

} // verus!
