//! Pitch conventions: shifting by semitones, and the coarse mel-scale buckets.
use vstd::prelude::*;

use crate::arith::{Arith, Num, Op, Rel};
use crate::exact::{
    cut_down, lemma_power_of_pow2, lemma_power_of_product, lemma_pow2_of_zero, power, Reals,
};

verus! {

/// The factor of a shift by `semitones`.
pub open spec fn shift_factor<T>(n: Num<T>, semitones: i32) -> T {
    n.exp2(n.over(n.integer(semitones as i64), n.integer(12)))
}

/// `hz` shifted: a voiced frequency is multiplied, anything else stays.
pub open spec fn shifted<T>(n: Num<T>, hz: T, semitones: i32) -> T {
    if semitones != 0 && n.gt(hz, n.zero()) {
        n.times(hz, shift_factor(n, semitones))
    } else {
        hz
    }
}

/// Every frequency of `f0`, shifted.
pub open spec fn all_shifted<T>(n: Num<T>, f0: Seq<T>, semitones: i32) -> Seq<T> {
    Seq::new(f0.len(), |i: int| shifted(n, f0[i], semitones))
}

/// Shifts every voiced frequency of `f0` by `semitones`; zero leaves everything alone.
pub fn shift_semitones<T: Copy, O: Fn(Op<T>) -> T, G: Fn(T, T) -> Rel, Z: Fn(T) -> i128>(
    ar: &Arith<T, O, G, Z>,
    f0: &mut Vec<T>,
    semitones: i32,
)
    requires
        ar.wf(),
    ensures
        final(f0)@ == all_shifted(ar.model@, old(f0)@, semitones),
        semitones == 0 ==> final(f0)@ == old(f0)@,
{
    if semitones == 0 {
        return ;
    }
    let ghost n = ar.model@;
    let k = ar.eval(Op::Exp2(ar.over(ar.integer(semitones as i64), ar.integer(12))));
    let zero = ar.zero();
    let mut i: usize = 0;
    while i < f0.len()
        invariant
            ar.wf(),
            n == ar.model@,
            semitones != 0,
            k == shift_factor(n, semitones),
            zero == n.zero(),
            f0@.len() == old(f0)@.len(),
            i <= f0@.len(),
            forall|j: int| 0 <= j < i ==> f0@[j] == shifted(n, old(f0)@[j], semitones),
            forall|j: int| i <= j < f0@.len() ==> f0@[j] == old(f0)@[j],
        decreases f0@.len() - i,
    {
        let v = f0[i];
        if ar.gt(v, zero) {
            f0[i] = ar.times(v, k);
        }
        i += 1;
    }
}

/// The mel value of a frequency of `hz`.
pub open spec fn mel<T>(n: Num<T>, hz: T) -> T {
    n.times(n.integer(1127), n.ln(n.plus(n.integer(1), n.over(hz, n.integer(700)))))
}

/// The coarse bucket of `hz`: 1 for silence, else 1 to 255 along the mel scale between 50 Hz
/// and 1100 Hz.
pub open spec fn coarse<T>(n: Num<T>, hz: T) -> int {
    if n.le(hz, n.zero()) {
        1
    } else {
        let lo = mel(n, n.integer(50));
        let hi = mel(n, n.integer(1100));
        n.cut(
            n.round(
                n.plus(
                    n.over(n.times(n.minus(mel(n, hz), lo), n.integer(254)), n.minus(hi, lo)),
                    n.integer(1),
                ),
            ),
            1,
            255,
        )
    }
}

/// The coarse bucket of every frequency of `f0`.
pub open spec fn buckets<T>(n: Num<T>, f0: Seq<T>) -> Seq<i64> {
    Seq::new(f0.len(), |i: int| coarse(n, f0[i]) as i64)
}

/// The coarse bucket of every frequency of `f0`.
pub fn to_coarse<T: Copy, O: Fn(Op<T>) -> T, G: Fn(T, T) -> Rel, Z: Fn(T) -> i128>(
    ar: &Arith<T, O, G, Z>,
    f0: &Vec<T>,
) -> (r: Vec<i64>)
    requires
        ar.wf(),
    ensures
        r@ == buckets(ar.model@, f0@),
        forall|i: int| 0 <= i < r@.len() ==> 1 <= #[trigger] r@[i] <= 255,
{
    let ghost n = ar.model@;
    let lo = mel_of(ar, ar.integer(50));
    let hi = mel_of(ar, ar.integer(1100));
    let span = ar.minus(hi, lo);
    let zero = ar.zero();
    let steps = ar.integer(254);
    let one = ar.integer(1);
    let mut r: Vec<i64> = Vec::new();
    while r.len() < f0.len()
        invariant
            ar.wf(),
            n == ar.model@,
            lo == mel(n, n.integer(50)),
            span == n.minus(mel(n, n.integer(1100)), lo),
            zero == n.zero(),
            steps == n.integer(254),
            one == n.integer(1),
            r@.len() <= f0@.len(),
            r@ == Seq::new(r@.len(), |i: int| coarse(n, f0@[i]) as i64),
            forall|i: int| 0 <= i < r@.len() ==> 1 <= #[trigger] r@[i] <= 255,
        decreases f0@.len() - r@.len(),
    {
        let hz = f0[r.len()];
        if ar.le(hz, zero) {
            r.push(1);
        } else {
            let m = mel_of(ar, hz);
            let c = ar.plus(ar.over(ar.times(ar.minus(m, lo), steps), span), one);
            let bucket: i128 = ar.cut(ar.eval(Op::Round(c)), 1, 255);
            r.push(bucket as i64);
        }
    }
    r
}

/// The mel value of a frequency of `hz`.
fn mel_of<T: Copy, O: Fn(Op<T>) -> T, G: Fn(T, T) -> Rel, Z: Fn(T) -> i128>(
    ar: &Arith<T, O, G, Z>,
    hz: T,
) -> (r: T)
    requires
        ar.wf(),
    ensures
        r == mel(ar.model@, hz),
{
    let x = ar.plus(ar.integer(1), ar.over(hz, ar.integer(700)));
    ar.times(ar.integer(1127), ar.eval(Op::Ln(x)))
}

/// Coarse pitch is made frame by frame: the buckets of a track are the buckets of its parts, one
/// behind the other.
pub proof fn law_buckets_frame_by_frame<T>(n: Num<T>, f0: Seq<T>, more: Seq<T>)
    ensures
        buckets(n, f0 + more) == buckets(n, f0) + buckets(n, more),
{
    assert(buckets(n, f0 + more) =~= buckets(n, f0) + buckets(n, more));
}

/// The arithmetic is in order along the mel scale: a number above zero stays above zero when it is
/// scaled, and every step from a frequency to its bucket keeps the order.
pub open spec fn mel_in_order<T>(n: Num<T>) -> bool {
    let lo = mel(n, n.integer(50));
    let span = n.minus(mel(n, n.integer(1100)), lo);
    &&& forall|a: T, b: T, c: T| #[trigger] n.le(a, b) && #[trigger] n.le(b, c) ==> n.le(a, c)
    &&& forall|a: T, b: T| #[trigger] n.le(a, b) && !n.le(a, n.zero()) ==> n.le(n.zero(), a)
    &&& forall|a: T, b: T|
        #![trigger n.over(a, n.integer(700)), n.over(b, n.integer(700))]
        n.le(a, b) ==> n.le(n.over(a, n.integer(700)), n.over(b, n.integer(700)))
    &&& forall|a: T, b: T|
        #![trigger n.plus(n.integer(1), a), n.plus(n.integer(1), b)]
        n.le(a, b) ==> n.le(n.plus(n.integer(1), a), n.plus(n.integer(1), b))
    &&& forall|a: T|
        #![trigger n.plus(n.integer(1), n.over(a, n.integer(700)))]
        n.le(n.zero(), a) ==> n.gt(n.plus(n.integer(1), n.over(a, n.integer(700))), n.zero())
    &&& forall|a: T, b: T|
        #![trigger n.ln(a), n.ln(b)]
        n.gt(a, n.zero()) && n.le(a, b) ==> n.le(n.ln(a), n.ln(b))
    &&& forall|a: T, b: T|
        #![trigger n.times(n.integer(1127), a), n.times(n.integer(1127), b)]
        n.le(a, b) ==> n.le(n.times(n.integer(1127), a), n.times(n.integer(1127), b))
    &&& forall|a: T, b: T|
        #![trigger n.minus(a, lo), n.minus(b, lo)]
        n.le(a, b) ==> n.le(n.minus(a, lo), n.minus(b, lo))
    &&& forall|a: T, b: T|
        #![trigger n.times(a, n.integer(254)), n.times(b, n.integer(254))]
        n.le(a, b) ==> n.le(n.times(a, n.integer(254)), n.times(b, n.integer(254)))
    &&& forall|a: T, b: T|
        #![trigger n.over(a, span), n.over(b, span)]
        n.le(a, b) ==> n.le(n.over(a, span), n.over(b, span))
    &&& forall|a: T, b: T|
        #![trigger n.plus(a, n.integer(1)), n.plus(b, n.integer(1))]
        n.le(a, b) ==> n.le(n.plus(a, n.integer(1)), n.plus(b, n.integer(1)))
    &&& forall|a: T, b: T|
        #![trigger n.round(a), n.round(b)]
        n.le(a, b) ==> n.le(n.round(a), n.round(b))
    &&& forall|a: T, b: T|
        #![trigger (n.whole)(a), (n.whole)(b)]
        n.le(a, b) ==> (n.whole)(a) <= (n.whole)(b)
}

/// A higher frequency is in no lower bucket.
pub proof fn law_coarse_is_monotone<T>(n: Num<T>, a: T, b: T)
    requires
        mel_in_order(n),
        n.le(a, b),
    ensures
        coarse(n, a) <= coarse(n, b),
{
    if !n.le(a, n.zero()) {
        let lo = mel(n, n.integer(50));
        let span = n.minus(mel(n, n.integer(1100)), lo);
        let k = n.integer(700);
        assert(!n.le(b, n.zero()));
        assert(n.le(n.zero(), a));
        assert(n.le(n.over(a, k), n.over(b, k)));
        let (p, q) = (n.plus(n.integer(1), n.over(a, k)), n.plus(n.integer(1), n.over(b, k)));
        assert(n.le(p, q));
        assert(n.le(n.ln(p), n.ln(q)));
        assert(n.le(n.times(n.integer(1127), n.ln(p)), n.times(n.integer(1127), n.ln(q))));
        let (x, y) = (n.minus(mel(n, a), lo), n.minus(mel(n, b), lo));
        assert(n.le(x, y));
        let (x, y) = (n.times(x, n.integer(254)), n.times(y, n.integer(254)));
        assert(n.le(x, y));
        let (x, y) = (n.over(x, span), n.over(y, span));
        assert(n.le(x, y));
        let (x, y) = (n.plus(x, n.integer(1)), n.plus(y, n.integer(1)));
        assert(n.le(x, y));
        let (x, y) = (n.round(x), n.round(y));
        assert(n.le(x, y));
        assert((n.whole)(x) <= (n.whole)(y));
    }
}

/// Shifting by `a` and then by `b` semitones is exact for `hz`: their factors multiply to the
/// factor of the sum, and a voiced frequency stays voiced.
pub open spec fn shifts_compose<T>(n: Num<T>, hz: T, a: i32, b: i32) -> bool {
    let (f, g) = (shift_factor(n, a), shift_factor(n, b));
    &&& n.times(n.times(hz, f), g) == n.times(hz, n.times(f, g))
    &&& n.times(f, g) == shift_factor(n, (a + b) as i32)
    &&& n.times(hz, shift_factor(n, 0)) == hz
    &&& n.gt(hz, n.zero()) ==> n.gt(n.times(hz, f), n.zero())
}

/// Two shifts make one, by the sum of their semitones, where the exponential makes one factor of
/// two.
pub proof fn law_shifts_compose<T>(n: Num<T>, f0: Seq<T>, a: i32, b: i32)
    requires
        i32::MIN <= a + b <= i32::MAX,
        forall|i: int| 0 <= i < f0.len() ==> shifts_compose(n, #[trigger] f0[i], a, b),
    ensures
        all_shifted(n, all_shifted(n, f0, a), b) == all_shifted(n, f0, (a + b) as i32),
{
    let twice = all_shifted(n, all_shifted(n, f0, a), b);
    let once = all_shifted(n, f0, (a + b) as i32);
    assert forall|i: int| 0 <= i < f0.len() implies #[trigger] twice[i] == once[i] by {
        let hz = f0[i];
        assert(shifts_compose(n, hz, a, b));
        assert(twice[i] == shifted(n, shifted(n, hz, a), b));
        if n.gt(hz, n.zero()) && a != 0 && b != 0 && a + b == 0 {
            assert(shift_factor(n, 0) == shift_factor(n, (a + b) as i32));
        }
    }
    assert(twice =~= once);
}

/// A shift back undoes a shift, where the exponential makes one factor of two.
pub proof fn law_shift_is_undone<T>(n: Num<T>, f0: Seq<T>, semitones: i32)
    requires
        semitones > i32::MIN,
        forall|i: int|
            0 <= i < f0.len() ==> shifts_compose(
                n,
                #[trigger] f0[i],
                semitones,
                (-semitones) as i32,
            ),
    ensures
        all_shifted(n, all_shifted(n, f0, semitones), (-semitones) as i32) == f0,
{
    law_shifts_compose(n, f0, semitones, (-semitones) as i32);
    assert(all_shifted(n, f0, 0) =~= f0);
}

/// Twelve semitones are an octave, and all semitones are equally wide: the twelfth power of a
/// shifted frequency is the twelfth power of the frequency, doubled once for every semitone up and
/// halved once for every semitone down. An unvoiced frequency stays what it is.
pub proof fn law_semitones_are_twelfths_of_an_octave<T>(
    n: Num<T>,
    m: Reals<T>,
    f0: Seq<T>,
    semitones: i32,
    i: int,
)
    requires
        m.computes(n),
        m.orders(n),
        m.powers(n),
        0 <= i < f0.len(),
    ensures
        all_shifted(n, f0, semitones).len() == f0.len(),
        m.of(f0[i]) <= 0real ==> all_shifted(n, f0, semitones)[i] == f0[i],
        m.of(f0[i]) > 0real ==> {
            let (from, to) = (m.of(f0[i]), m.of(all_shifted(n, f0, semitones)[i]));
            &&& to > 0real
            &&& semitones >= 0 ==> power(to, 12) == power(from, 12) * power(
                2real,
                semitones as nat,
            )
            &&& semitones < 0 ==> power(to, 12) * power(2real, (-semitones) as nat) == power(
                from,
                12,
            )
        },
{
    let hz = f0[i];
    let (x, s) = (m.of(hz), semitones as real);
    assert(m.of(n.zero()) == 0real);
    if x > 0real {
        let e = s / 12real;
        let f = (m.pow2)(e);
        lemma_pow2_of_zero(n, m);
        lemma_power_of_pow2(n, m, e, 12);
        assert((12nat as real) * e == s) by (nonlinear_arith)
            requires
                e == s / 12real,
        ;
        assert(power(f, 12) == (m.pow2)(s));
        lemma_shifted_value(n, m, hz, semitones);
        lemma_power_of_product(x, f, 12);
        assert(x * f > 0real) by (nonlinear_arith)
            requires
                x > 0real,
                f > 0real,
        ;
        let k: nat = if semitones >= 0 {
            semitones as nat
        } else {
            (-semitones) as nat
        };
        lemma_power_of_pow2(n, m, 1real, k);
        assert((k as real) * 1real == k as real) by (nonlinear_arith);
        if semitones < 0 {
            assert((m.pow2)(s + (k as real)) == (m.pow2)(s) * (m.pow2)(k as real));
            let (a, p, q) = (power(x, 12), (m.pow2)(s), (m.pow2)(k as real));
            assert((a * p) * q == a) by (nonlinear_arith)
                requires
                    p * q == 1real,
            ;
        }
    }
}

/// The value of a shifted frequency, by the power of two of its twelfths.
proof fn lemma_shifted_value<T>(n: Num<T>, m: Reals<T>, hz: T, semitones: i32)
    requires
        m.computes(n),
        m.orders(n),
        m.powers(n),
    ensures
        m.of(hz) <= 0real ==> shifted(n, hz, semitones) == hz,
        m.of(hz) > 0real ==> m.of(shifted(n, hz, semitones)) == m.of(hz) * (m.pow2)(
            (semitones as real) / 12real,
        ),
{
    let (x, s) = (m.of(hz), semitones as real);
    assert(m.of(n.zero()) == 0real);
    if x > 0real {
        lemma_pow2_of_zero(n, m);
        if semitones != 0 {
            assert(m.of(n.integer(semitones as i64)) == s / 1real);
            assert(m.of(n.integer(12)) == 12real / 1real);
            assert(s / 1real == s) by (nonlinear_arith);
            assert(12real / 1real == 12real) by (nonlinear_arith);
        } else {
            assert(s / 12real == 0real) by (nonlinear_arith)
                requires
                    s == 0real,
            ;
            assert(x * 1real == x) by (nonlinear_arith);
        }
    }
}

/// Shifts add up: shifting by `a` and then by `b` semitones gives the frequencies of one shift by
/// their sum, and so a shift back undoes a shift. Of the exponential only that it takes sums to
/// products is used.
pub proof fn law_shifts_add_up<T>(
    n: Num<T>,
    m: Reals<T>,
    f0: Seq<T>,
    a: i32,
    b: i32,
    i: int,
)
    requires
        m.computes(n),
        m.orders(n),
        m.powers(n),
        i32::MIN <= a + b <= i32::MAX,
        0 <= i < f0.len(),
    ensures
        m.of(all_shifted(n, all_shifted(n, f0, a), b)[i]) == m.of(
            all_shifted(n, f0, (a + b) as i32)[i],
        ),
        a + b == 0 ==> m.of(all_shifted(n, all_shifted(n, f0, a), b)[i]) == m.of(f0[i]),
{
    let hz = f0[i];
    let x = m.of(hz);
    let once = shifted(n, hz, a);
    lemma_shifted_value(n, m, hz, a);
    lemma_shifted_value(n, m, once, b);
    lemma_shifted_value(n, m, hz, (a + b) as i32);
    lemma_pow2_of_zero(n, m);
    if x > 0real {
        let (p, q) = ((a as real) / 12real, (b as real) / 12real);
        let r = ((a + b) as real) / 12real;
        assert(r == p + q) by (nonlinear_arith)
            requires
                p == (a as real) / 12real,
                q == (b as real) / 12real,
                r == ((a + b) as real) / 12real,
                (a + b) as real == a as real + b as real,
        ;
        let (f, g) = ((m.pow2)(p), (m.pow2)(q));
        assert((m.pow2)(p + q) == f * g);
        assert(x * f > 0real && (x * f) * g == x * (f * g)) by (nonlinear_arith)
            requires
                x > 0real,
                f > 0real,
        ;
        if a + b == 0 {
            assert(r == 0real) by (nonlinear_arith)
                requires
                    r == ((a + b) as real) / 12real,
                    (a + b) as real == 0real,
            ;
            assert(x * 1real == x) by (nonlinear_arith);
        }
    }
}

/// Where `hz` lies on the mel scale, counted in steps of which 254 lead from 50 Hz to 1100 Hz: by
/// the logarithm of its distance from -700 Hz.
pub open spec fn mel_steps<T>(m: Reals<T>, hz: real) -> real {
    let low = (m.log)(750real);
    let high = (m.log)(1800real);
    254real * (((m.log)(700real + hz) - low) / (high - low))
}

/// The buckets are evenly spaced on the mel scale: a voiced frequency is in the bucket nearest to
/// its place between 50 Hz, which is in bucket 1, and 1100 Hz, which is in bucket 255; lower
/// and higher ones are in these two. Unvoiced frames are in bucket 1.
pub proof fn law_buckets_are_even_on_the_mel_scale<T>(n: Num<T>, m: Reals<T>, f0: Seq<T>, i: int)
    requires
        m.computes(n),
        m.orders(n),
        m.logarithms(n),
        m.cuts(n),
        0 <= i < f0.len(),
    ensures
        ({
            let bucket = buckets(n, f0)[i] as int;
            let steps = mel_steps(m, m.of(f0[i]));
            &&& 1 <= bucket <= 255
            &&& m.of(f0[i]) <= 0real ==> bucket == 1
            &&& m.of(f0[i]) > 0real && steps <= 0real ==> bucket == 1
            &&& m.of(f0[i]) > 0real && steps >= 254real ==> bucket == 255
            &&& m.of(f0[i]) > 0real && 0real < steps < 254real ==> {
                let k = (bucket - 1) as real;
                2real * k - 1real <= 2real * steps < 2real * k + 1real
            }
        }),
{
    let hz = f0[i];
    let h = m.of(hz);
    assert(m.of(n.zero()) == 0real);
    if h > 0real {
        let c = m.of(n.integer(1127));
        lemma_mel_value(n, m, hz);
        lemma_mel_value(n, m, n.integer(50));
        lemma_mel_value(n, m, n.integer(1100));
        let g = (m.log)(700real);
        let (x, low, high) = ((m.log)(700real + h), (m.log)(750real), (m.log)(1800real));
        let lo = mel(n, n.integer(50));
        let span = n.minus(mel(n, n.integer(1100)), lo);
        let raised = n.minus(mel(n, hz), lo);
        assert(m.of(raised) == 1127real * (x - low)) by (nonlinear_arith)
            requires
                m.of(raised) == 1127real * (x - g) - 1127real * (low - g),
        ;
        assert(m.of(span) == 1127real * (high - low)) by (nonlinear_arith)
            requires
                m.of(span) == 1127real * (high - g) - 1127real * (low - g),
        ;
        assert(high > low);
        let scaled = n.times(raised, n.integer(254));
        let q = n.over(scaled, span);
        let steps = mel_steps(m, h);
        assert(m.of(n.integer(254)) == 254real);
        assert(m.of(span) > 0real) by (nonlinear_arith)
            requires
                m.of(span) == 1127real * (high - low),
                high > low,
        ;
        assert(m.of(q) == steps) by (nonlinear_arith)
            requires
                m.of(q) == m.of(scaled) / m.of(span),
                m.of(scaled) == (1127real * (x - low)) * 254real,
                m.of(span) == 1127real * (high - low),
                high > low,
                steps == 254real * ((x - low) / (high - low)),
        ;
        let at = n.plus(q, n.integer(1));
        assert(m.of(at) == steps + 1real);
        let r = n.round(at);
        assert(cut_down(m.of(r), (n.whole)(r) as int));
        let k = (m.nearest)(steps + 1real);
        assert(m.of(r) == k as real);
    }
}

/// The mel value of a frequency, up to the place of zero.
proof fn lemma_mel_value<T>(n: Num<T>, m: Reals<T>, hz: T)
    requires
        m.computes(n),
        m.logarithms(n),
        m.of(hz) > 0real,
    ensures
        m.of(mel(n, hz)) == 1127real * ((m.log)(700real + m.of(hz)) - (m.log)(700real)),
        m.of(n.integer(50)) == 50real,
        m.of(n.integer(1100)) == 1100real,
        m.of(n.integer(1127)) == 1127real,
{
    let h = m.of(hz);
    assert(m.of(n.integer(1)) == 1real);
    assert(m.of(n.integer(700)) == 700real);
    let y = 1real + h / 700real;
    assert(y > 0real && 700real * y == 700real + h) by (nonlinear_arith)
        requires
            y == 1real + h / 700real,
            h > 0real,
    ;
    assert((m.log)(700real * y) == (m.log)(700real) + (m.log)(y));
}

/// Only what compares greater than zero is shifted: anything else, and what is not a number, stays
/// as it is, and what compares as no greater than zero is in the first bucket.
pub proof fn law_only_voiced_frequencies_are_shifted<T>(
    n: Num<T>,
    f0: Seq<T>,
    semitones: i32,
    i: int,
)
    requires
        0 <= i < f0.len(),
    ensures
        (n.rel)(f0[i], n.zero()) != Rel::Greater ==> all_shifted(n, f0, semitones)[i] == f0[i],
        (n.rel)(f0[i], n.zero()) == Rel::Less || (n.rel)(f0[i], n.zero()) == Rel::Equal ==> buckets(
            n,
            f0,
        )[i] == 1,
{
}

} // verus!
