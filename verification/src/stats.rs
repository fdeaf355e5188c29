//! Figures about timings and about how close two signals are.
use vstd::prelude::*;

use crate::arith::{Arith, Num, Op, Rel};
use crate::exact::{lemma_integer, total, Reals};

verus! {

/// The time from one reading of a clock to a later one; zero where the later one is smaller.
pub open spec fn between(from: u64, to: u64) -> u64 {
    if to >= from {
        (to - from) as u64
    } else {
        0
    }
}

/// The time from one reading of a clock to a later one; zero where the later one is smaller.
pub fn time_between(from: u64, to: u64) -> (r: u64)
    ensures
        r == between(from, to),
{
    if to >= from {
        to - from
    } else {
        0
    }
}

broadcast use vstd::seq_lib::group_to_multiset_ensures;

/// `s` is in ascending order.
pub open spec fn ascending(s: Seq<u64>) -> bool {
    forall|i: int, j: int| 0 <= i <= j < s.len() ==> s[i] <= s[j]
}

/// `s` is `xs`, put into ascending order.
pub open spec fn ordering_of(s: Seq<u64>, xs: Seq<u64>) -> bool {
    ascending(s) && s.to_multiset() == xs.to_multiset()
}

/// The index of the median among `len` values.
pub open spec fn median_index(len: int) -> int {
    len / 2
}

/// The index below which 95 of 100 values lie, among `len` values.
pub open spec fn p95_index(len: int) -> int {
    let i = len * 95 / 100;
    if i < len - 1 {
        i
    } else {
        len - 1
    }
}

/// Inserting into a sequence adds one to its multiset.
proof fn lemma_insert_multiset<A>(s: Seq<A>, at: int, x: A)
    requires
        0 <= at <= s.len(),
    ensures
        s.insert(at, x).to_multiset() == s.to_multiset().insert(x),
{
    let l = s.take(at);
    let r = s.skip(at);
    assert(s =~= l + r);
    assert(s.insert(at, x) =~= l.push(x) + r);
    vstd::seq_lib::lemma_multiset_commutative(l, r);
    vstd::seq_lib::lemma_multiset_commutative(l.push(x), r);
    assert(s.insert(at, x).to_multiset() =~= s.to_multiset().insert(x));
}

/// The values in ascending order.
pub fn sorted(xs: &Vec<u64>) -> (r: Vec<u64>)
    ensures
        ordering_of(r@, xs@),
        r@.len() == xs@.len(),
{
    let mut r: Vec<u64> = Vec::new();
    let len: usize = xs.len();
    let mut i: usize = 0;
    assert(xs@.take(0) =~= Seq::<u64>::empty());
    while i < len
        invariant
            len == xs@.len(),
            i <= len,
            r@.len() == i,
            ordering_of(r@, xs@.take(i as int)),
        decreases len - i,
    {
        let x = xs[i];
        let mut at: usize = i;
        while at > 0 && r[at - 1] > x
            invariant
                at <= r@.len(),
                ascending(r@),
                forall|j: int| at <= j < r@.len() ==> #[trigger] r@[j] > x,
            decreases at,
        {
            at -= 1;
        }
        let ghost before = r@;
        r.insert(at, x);
        proof {
            lemma_insert_multiset(before, at as int, x);
            assert(xs@.take(i + 1) =~= xs@.take(i as int).push(x));
        }
        i += 1;
    }
    assert(xs@.take(len as int) =~= xs@);
    r
}

/// The median and the 95th percentile of the values. `None` if there are no values.
pub fn percentiles(xs: &Vec<u64>) -> (r: Option<(u64, u64)>)
    ensures
        match r {
            None => xs@.len() == 0,
            Some((p50, p95)) => xs@.len() > 0 && exists|s: Seq<u64>|
                {
                    &&& #[trigger] ordering_of(s, xs@)
                    &&& s.len() == xs@.len()
                    &&& p50 == s[median_index(xs@.len() as int)]
                    &&& p95 == s[p95_index(xs@.len() as int)]
                },
        },
{
    let s = sorted(xs);
    let len: usize = s.len();
    if len == 0 {
        return None;
    }
    let i: usize = (len as u128 * 95 / 100) as usize;
    let p95 = if i < len - 1 {
        s[i]
    } else {
        s[len - 1]
    };
    Some((s[len / 2], p95))
}

/// There is only one ascending order of given values, so a percentile is determined by the
/// values.
pub proof fn law_ascending_order_is_unique(s: Seq<u64>, t: Seq<u64>, xs: Seq<u64>)
    requires
        ordering_of(s, xs),
        ordering_of(t, xs),
    ensures
        s == t,
{
    let leq = |a: u64, b: u64| a <= b;
    assert(vstd::relations::total_ordering(leq));
    vstd::seq_lib::lemma_sorted_unique(s, t, leq);
}

/// The median is not above the 95th percentile, and both are among the values.
pub proof fn law_percentiles_in_order(xs: Seq<u64>, s: Seq<u64>)
    requires
        xs.len() > 0,
        ordering_of(s, xs),
        s.len() == xs.len(),
    ensures
        s[median_index(xs.len() as int)] <= s[p95_index(xs.len() as int)],
        xs.contains(s[median_index(xs.len() as int)]),
        xs.contains(s[p95_index(xs.len() as int)]),
{
    let i = median_index(xs.len() as int);
    let j = p95_index(xs.len() as int);
    assert(s.contains(s[i]) && s.contains(s[j]));
    assert(xs.to_multiset().count(s[i]) > 0 && xs.to_multiset().count(s[j]) > 0);
}

/// The sum of the squared differences of the first `k` samples.
pub open spec fn squared_error<T>(n: Num<T>, a: Seq<T>, b: Seq<T>, k: nat) -> T
    decreases k,
{
    if k == 0 {
        n.zero()
    } else {
        let i = (k - 1) as int;
        let d = n.minus(a[i], b[i]);
        n.plus(squared_error(n, a, b, (k - 1) as nat), n.times(d, d))
    }
}

/// The smaller of two lengths.
pub open spec fn shorter(a: nat, b: nat) -> nat {
    if a <= b {
        a
    } else {
        b
    }
}

/// The root mean square error of two signals over their common length.
pub open spec fn rmse_of<T>(n: Num<T>, a: Seq<T>, b: Seq<T>) -> T {
    let k = shorter(a.len(), b.len());
    if k == 0 {
        n.nan()
    } else {
        n.sqrt(n.over(squared_error(n, a, b, k), n.count(k as u64)))
    }
}

/// The root mean square error of two signals over their common length; not a number if they
/// have none.
pub fn rmse<T: Copy, O: Fn(Op<T>) -> T, G: Fn(T, T) -> Rel, Z: Fn(T) -> i128>(
    ar: &Arith<T, O, G, Z>,
    a: &[T],
    b: &[T],
) -> (r: T)
    requires
        ar.wf(),
    ensures
        r == rmse_of(ar.model@, a@, b@),
{
    let n: usize = if a.len() <= b.len() {
        a.len()
    } else {
        b.len()
    };
    if n == 0 {
        return ar.eval(Op::Nan);
    }
    let mut acc = ar.zero();
    let mut i: usize = 0;
    while i < n
        invariant
            ar.wf(),
            n <= a@.len(),
            n <= b@.len(),
            i <= n,
            acc == squared_error(ar.model@, a@, b@, i as nat),
        decreases n - i,
    {
        let d = ar.minus(a[i], b[i]);
        acc = ar.plus(acc, ar.times(d, d));
        i += 1;
    }
    ar.eval(Op::Sqrt(ar.over(acc, ar.count(n as u64))))
}

/// Both frequencies are voiced.
pub open spec fn both_voiced<T>(n: Num<T>, x: T, y: T) -> bool {
    n.gt(x, n.zero()) && n.gt(y, n.zero())
}

/// The distance of two frequencies in cents.
pub open spec fn cents<T>(n: Num<T>, x: T, y: T) -> T {
    n.times(n.integer(1200), n.abs(n.log2(n.over(x, y))))
}

/// The distances of the first `k` pairs of frequencies, where both are voiced.
pub open spec fn cent_errors<T>(n: Num<T>, a: Seq<T>, b: Seq<T>, k: nat) -> Seq<T>
    decreases k,
{
    if k == 0 {
        Seq::empty()
    } else {
        let before = cent_errors(n, a, b, (k - 1) as nat);
        let i = (k - 1) as int;
        if both_voiced(n, a[i], b[i]) {
            before.push(cents(n, a[i], b[i]))
        } else {
            before
        }
    }
}

/// The distances of two pitch tracks.
pub open spec fn track_errors<T>(n: Num<T>, a: Seq<T>, b: Seq<T>) -> Seq<T> {
    cent_errors(n, a, b, shorter(a.len(), b.len()))
}

/// The numbers of `s` can be put into an order: each is a number, and `rank` ranks them as the
/// comparison does.
pub open spec fn ranked<T>(n: Num<T>, s: Seq<T>, rank: spec_fn(T) -> int) -> bool {
    forall|i: int, j: int|
        0 <= i < s.len() && 0 <= j < s.len() ==> (#[trigger] n.gt(s[i], s[j]) <==> rank(s[i])
            > rank(s[j]))
}

/// No number of `s` is greater than a later one.
pub open spec fn climbing<T>(n: Num<T>, s: Seq<T>) -> bool {
    forall|i: int, j: int| 0 <= i < j < s.len() ==> !#[trigger] n.gt(s[i], s[j])
}

/// `r` is the median of `xs`.
pub open spec fn median_of<T>(n: Num<T>, xs: Seq<T>, r: T) -> bool {
    exists|s: Seq<T>|
        {
            &&& #[trigger] climbing(n, s)
            &&& s.to_multiset() == xs.to_multiset()
            &&& s.len() == xs.len()
            &&& r == s[median_index(s.len() as int)]
        }
}

/// A ranking holds of every sequence with the same numbers.
proof fn lemma_ranked_members<T>(n: Num<T>, s: Seq<T>, xs: Seq<T>, rank: spec_fn(T) -> int)
    requires
        ranked(n, xs, rank),
        forall|x: T| #[trigger] s.contains(x) ==> xs.contains(x),
    ensures
        ranked(n, s, rank),
{
    assert forall|i: int, j: int| 0 <= i < s.len() && 0 <= j < s.len() implies (#[trigger] n.gt(
        s[i],
        s[j],
    ) <==> rank(s[i]) > rank(s[j])) by {
        assert(s.contains(s[i]) && s.contains(s[j]));
        let p = choose|p: int| 0 <= p < xs.len() && xs[p] == s[i];
        let q = choose|q: int| 0 <= q < xs.len() && xs[q] == s[j];
        assert(n.gt(xs[p], xs[q]) <==> rank(xs[p]) > rank(xs[q]));
    }
}

/// The numbers in climbing order.
fn sorted_numbers<T: Copy, O: Fn(Op<T>) -> T, G: Fn(T, T) -> Rel, Z: Fn(T) -> i128>(
    ar: &Arith<T, O, G, Z>,
    xs: &Vec<T>,
) -> (r: Vec<T>)
    requires
        ar.wf(),
        exists|rank: spec_fn(T) -> int| #[trigger] ranked(ar.model@, xs@, rank),
    ensures
        climbing(ar.model@, r@),
        r@.to_multiset() == xs@.to_multiset(),
        r@.len() == xs@.len(),
{
    let ghost n = ar.model@;
    let ghost rank = choose|rank: spec_fn(T) -> int| #[trigger] ranked(ar.model@, xs@, rank);
    let mut r: Vec<T> = Vec::new();
    let len: usize = xs.len();
    let mut i: usize = 0;
    assert(xs@.take(0) =~= Seq::<T>::empty());
    while i < len
        invariant
            ar.wf(),
            n == ar.model@,
            len == xs@.len(),
            i <= len,
            r@.len() == i,
            climbing(n, r@),
            r@.to_multiset() == xs@.take(i as int).to_multiset(),
            ranked(n, xs@, rank),
        decreases len - i,
    {
        let x = xs[i];
        let ghost next = xs@.take(i + 1);
        proof {
            assert(next =~= xs@.take(i as int).push(x));
            assert forall|y: T| #[trigger] r@.push(x).contains(y) implies xs@.contains(y) by {
                if r@.contains(y) {
                    assert(xs@.take(i as int).to_multiset().count(y) > 0);
                    assert(xs@.take(i as int).contains(y));
                    let p = choose|p: int| 0 <= p < i && xs@.take(i as int)[p] == y;
                    assert(xs@[p] == y);
                } else {
                    let p = choose|p: int| 0 <= p < r@.push(x).len() && r@.push(x)[p] == y;
                    assert(p == r@.len()) by {
                        if p < r@.len() {
                            assert(r@[p] == y);
                        }
                    }
                    assert(xs@[i as int] == y);
                }
            }
            lemma_ranked_members(n, r@.push(x), xs@, rank);
        }
        let ghost open = r@.push(x);
        let mut at: usize = i;
        while at > 0 && ar.gt(r[at - 1], x)
            invariant
                ar.wf(),
                n == ar.model@,
                at <= r@.len(),
                open == r@.push(x),
                ranked(n, open, rank),
                forall|j: int| at <= j < r@.len() ==> rank(#[trigger] r@[j]) > rank(x),
            decreases at,
        {
            proof {
                assert(open[at - 1] == r@[at - 1] && open[r@.len() as int] == x);
                assert(n.gt(open[at - 1], open[r@.len() as int]));
            }
            at -= 1;
        }
        let ghost before = r@;
        proof {
            if at > 0 {
                assert(open[at - 1] == r@[at - 1] && open[r@.len() as int] == x);
                assert(!n.gt(open[at - 1], open[r@.len() as int]));
            }
        }
        r.insert(at, x);
        proof {
            lemma_insert_multiset(before, at as int, x);
            assert forall|p: int, q: int| 0 <= p < q < r@.len() implies !#[trigger] n.gt(
                r@[p],
                r@[q],
            ) by {
                let op = if p < at {
                    p
                } else if p == at {
                    before.len() as int
                } else {
                    p - 1
                };
                let oq = if q < at {
                    q
                } else if q == at {
                    before.len() as int
                } else {
                    q - 1
                };
                assert(r@[p] == open[op] && r@[q] == open[oq]);
                assert(n.gt(open[op], open[oq]) <==> rank(open[op]) > rank(open[oq]));
                if p != at && q != at {
                    assert(!n.gt(before[op], before[oq]));
                } else if p == at {
                    assert(rank(before[oq]) > rank(x));
                } else if p < at - 1 {
                    assert(!n.gt(before[p], before[at - 1]));
                    assert(open[p] == before[p] && open[at - 1] == before[at - 1]);
                    assert(n.gt(open[p], open[at - 1]) <==> rank(open[p]) > rank(open[at - 1]));
                }
            }
        }
        i += 1;
    }
    assert(xs@.take(len as int) =~= xs@);
    r
}

/// The median distance, in cents, of two pitch tracks over the frames that are voiced in both;
/// not a number if there are none.
pub fn cents_err<T: Copy, O: Fn(Op<T>) -> T, G: Fn(T, T) -> Rel, Z: Fn(T) -> i128>(
    ar: &Arith<T, O, G, Z>,
    a: &[T],
    b: &[T],
) -> (r: T)
    requires
        ar.wf(),
        exists|rank: spec_fn(T) -> int| #[trigger]
            ranked(ar.model@, track_errors(ar.model@, a@, b@), rank),
    ensures
        ({
            let errs = track_errors(ar.model@, a@, b@);
            if errs.len() == 0 {
                r == ar.model@.nan()
            } else {
                median_of(ar.model@, errs, r)
            }
        }),
{
    let n: usize = if a.len() <= b.len() {
        a.len()
    } else {
        b.len()
    };
    let zero = ar.zero();
    let scale = ar.integer(1200);
    let mut errs: Vec<T> = Vec::new();
    let mut i: usize = 0;
    while i < n
        invariant
            ar.wf(),
            n <= a@.len(),
            n <= b@.len(),
            i <= n,
            zero == ar.model@.zero(),
            scale == ar.model@.integer(1200),
            errs@ == cent_errors(ar.model@, a@, b@, i as nat),
        decreases n - i,
    {
        if ar.gt(a[i], zero) && ar.gt(b[i], zero) {
            let octaves = ar.eval(Op::Log2(ar.over(a[i], b[i])));
            errs.push(ar.times(scale, ar.eval(Op::Abs(octaves))));
        }
        i += 1;
    }
    if errs.len() == 0 {
        return ar.eval(Op::Nan);
    }
    let s = sorted_numbers(ar, &errs);
    s[s.len() / 2]
}

/// The median has half of the values before it, and the 95th percentile 95 of 100, as far as there
/// are values for it.
pub proof fn law_percentiles_are_at_their_places(len: int)
    requires
        len > 0,
    ensures
        0 <= median_index(len) < len,
        2 * median_index(len) <= len < 2 * (median_index(len) + 1),
        0 <= p95_index(len) < len,
        20 * p95_index(len) <= 19 * len,
        19 * len < 20 * (p95_index(len) + 1) || p95_index(len) == len - 1,
{
}

/// The squared error by value.
proof fn lemma_squared_error_value<T>(n: Num<T>, m: Reals<T>, a: Seq<T>, b: Seq<T>, k: nat)
    requires
        m.computes(n),
    ensures
        m.of(squared_error(n, a, b, k)) == total(
            |i: int| (m.of(a[i]) - m.of(b[i])) * (m.of(a[i]) - m.of(b[i])),
            k,
        ),
        m.of(squared_error(n, a, b, k)) >= 0real,
    decreases k,
{
    lemma_integer(n, m, 0);
    if k > 0 {
        lemma_squared_error_value(n, m, a, b, (k - 1) as nat);
        let d = m.of(a[k - 1]) - m.of(b[k - 1]);
        assert(d * d >= 0real) by (nonlinear_arith);
    }
}

/// The error of two signals is the difference that has their mean squared difference, over their
/// common length.
pub proof fn law_error_has_the_mean_squared_difference<T>(
    n: Num<T>,
    m: Reals<T>,
    a: Seq<T>,
    b: Seq<T>,
    k: nat,
)
    requires
        m.computes(n),
        m.roots(n),
        0 < k <= u64::MAX,
        k <= a.len(),
        k <= b.len(),
        k == a.len() || k == b.len(),
    ensures
        m.of(rmse_of(n, a, b)) >= 0real,
        (k as real) * (m.of(rmse_of(n, a, b)) * m.of(rmse_of(n, a, b))) == total(
            |i: int| (m.of(a[i]) - m.of(b[i])) * (m.of(a[i]) - m.of(b[i])),
            k,
        ),
{
    lemma_squared_error_value(n, m, a, b, k);
    let (s, c) = (m.of(squared_error(n, a, b, k)), k as real);
    assert(m.of(n.count(k as u64)) == c);
    assert(s / c >= 0real && c * (s / c) == s) by (nonlinear_arith)
        requires
            s >= 0real,
            c >= 1real,
    ;
    assert((m.root)(s / c) * (m.root)(s / c) == s / c);
}

/// The distance of two frequencies counts 1200 to a doubling, whichever of them is higher.
pub proof fn law_cents_are_twelve_hundred_to_a_doubling<T>(n: Num<T>, m: Reals<T>, x: T, y: T)
    requires
        m.computes(n),
        m.orders(n),
        m.logarithms(n),
        m.of(x) > 0real,
        m.of(y) > 0real,
    ensures
        both_voiced(n, x, y),
        m.of(cents(n, x, y)) >= 0real,
        m.of(cents(n, x, y)) == m.of(cents(n, y, x)),
        m.of(x) >= m.of(y) ==> m.of(cents(n, x, y)) * (m.log)(2real) == 1200real * ((m.log)(
            m.of(x),
        ) - (m.log)(m.of(y))),
{
    lemma_integer(n, m, 1200);
    lemma_cents_value(n, m, x, y);
    lemma_cents_value(n, m, y, x);
    let (p, q, t) = ((m.log)(m.of(x)), (m.log)(m.of(y)), (m.log)(2real));
    assert((m.log)(1real * 1real) == (m.log)(1real) + (m.log)(1real));
    assert((m.log)(1real) < t);
    assert(1real * 1real == 1real);
    let (u, v) = ((p - q) / t, (q - p) / t);
    assert(u == -v && u * t == p - q) by (nonlinear_arith)
        requires
            u == (p - q) / t,
            v == (q - p) / t,
            t > 0real,
    ;
    if m.of(x) >= m.of(y) {
        if m.of(x) > m.of(y) {
            assert(q < p);
        }
        assert(u >= 0real) by (nonlinear_arith)
            requires
                u * t == p - q,
                p >= q,
                t > 0real,
        ;
        assert((1200real * u) * t == 1200real * (u * t)) by (nonlinear_arith);
    }
}

/// The distance of two frequencies by their logarithms.
proof fn lemma_cents_value<T>(n: Num<T>, m: Reals<T>, x: T, y: T)
    requires
        m.computes(n),
        m.orders(n),
        m.logarithms(n),
        m.of(x) > 0real,
        m.of(y) > 0real,
    ensures
        ({
            let d = ((m.log)(m.of(x)) - (m.log)(m.of(y))) / (m.log)(2real);
            m.of(cents(n, x, y)) == 1200real * if d >= 0real {
                d
            } else {
                -d
            }
        }),
{
    lemma_integer(n, m, 1200);
    let (a, b) = (m.of(x), m.of(y));
    let q = a / b;
    assert(q > 0real && q * b == a) by (nonlinear_arith)
        requires
            q == a / b,
            a > 0real,
            b > 0real,
    ;
    assert((m.log)(q * b) == (m.log)(q) + (m.log)(b));
}

/// The distances of two pitch tracks are those of the frames in which both are voiced: each of them
/// is there, and no other.
pub proof fn law_errors_are_of_the_voiced_frames<T>(n: Num<T>, a: Seq<T>, b: Seq<T>, k: nat)
    ensures
        forall|i: int|
            0 <= i < k && n.gt(a[i], n.zero()) && n.gt(b[i], n.zero()) ==> cent_errors(
                n,
                a,
                b,
                k,
            ).contains(#[trigger] cents(n, a[i], b[i])),
        forall|j: int|
            0 <= j < cent_errors(n, a, b, k).len() ==> error_of_frame(
                n,
                a,
                b,
                k,
                #[trigger] cent_errors(n, a, b, k)[j],
            ),
        cent_errors(n, a, b, k).len() <= k,
        (forall|i: int|
            0 <= i < k ==> n.gt(#[trigger] a[i], n.zero()) && n.gt(b[i], n.zero())) ==> cent_errors(
            n,
            a,
            b,
            k,
        ).len() == k,
    decreases k,
{
    if k > 0 {
        let j = (k - 1) as nat;
        law_errors_are_of_the_voiced_frames(n, a, b, j);
        let (before, all) = (cent_errors(n, a, b, j), cent_errors(n, a, b, k));
        let fresh = n.gt(a[k - 1], n.zero()) && n.gt(b[k - 1], n.zero());
        if fresh {
            assert(all[before.len() as int] == cents(n, a[k - 1], b[k - 1]));
        }
        assert forall|i: int|
            0 <= i < k && n.gt(a[i], n.zero()) && n.gt(b[i], n.zero()) implies all.contains(
            #[trigger] cents(n, a[i], b[i]),
        ) by {
            if i < k - 1 {
                let e = cents(n, a[i], b[i]);
                assert(before.contains(e));
                let p = choose|p: int| 0 <= p < before.len() && before[p] == e;
                assert(all[p] == e);
            }
        }
        assert forall|p: int| 0 <= p < all.len() implies error_of_frame(
            n,
            a,
            b,
            k,
            #[trigger] all[p],
        ) by {
            if p < before.len() {
                assert(error_of_frame(n, a, b, j, before[p]));
            } else {
                assert(all[p] == cents(n, a[k - 1], b[k - 1]));
            }
        }
    }
}

/// `e` is the distance of one of the first `k` frames, in which both tracks are voiced.
pub open spec fn error_of_frame<T>(n: Num<T>, a: Seq<T>, b: Seq<T>, k: nat, e: T) -> bool {
    exists|i: int|
        0 <= i < k && n.gt(a[i], n.zero()) && n.gt(b[i], n.zero()) && e == #[trigger] cents(
            n,
            a[i],
            b[i],
        )
}

/// A time is what has to be added to the earlier reading to get the later one.
pub proof fn law_time_between(from: u64, to: u64)
    ensures
        from <= to ==> from + between(from, to) == to,
        from > to ==> between(from, to) == 0,
{
}

/// Signals without a common sample have no error: it is not a number.
pub proof fn law_no_error_without_samples<T>(n: Num<T>, a: Seq<T>, b: Seq<T>)
    requires
        a.len() == 0 || b.len() == 0,
    ensures
        rmse_of(n, a, b) == n.nan(),
{
}

/// `s` has the numbers of `xs`; what is before place `i` is no greater, and what is behind it no
/// less, than what is there.
pub open spec fn parted<T>(m: Reals<T>, xs: Seq<T>, s: Seq<T>, i: int) -> bool {
    &&& s.to_multiset() == xs.to_multiset()
    &&& s.len() == xs.len()
    &&& 0 <= i < s.len()
    &&& forall|p: int| 0 <= p < i ==> m.of(#[trigger] s[p]) <= m.of(s[i])
    &&& forall|p: int| i < p < s.len() ==> m.of(s[i]) <= m.of(#[trigger] s[p])
}

/// The median parts the numbers in the middle: half of them, or half less one, are no less behind
/// it, and as many or one more are no greater before it.
pub proof fn law_median_is_in_the_middle<T>(n: Num<T>, m: Reals<T>, xs: Seq<T>, r: T)
    requires
        m.orders(n),
        xs.len() > 0,
        median_of(n, xs, r),
    ensures
        exists|s: Seq<T>, i: int| #[trigger]
            parted(m, xs, s, i) && 2 * i <= xs.len() < 2 * (i + 1) && s[i] == r,
{
    let s = choose|s: Seq<T>|
        {
            &&& #[trigger] climbing(n, s)
            &&& s.to_multiset() == xs.to_multiset()
            &&& s.len() == xs.len()
            &&& r == s[median_index(s.len() as int)]
        };
    let i = median_index(s.len() as int);
    assert forall|p: int| 0 <= p < i implies m.of(#[trigger] s[p]) <= m.of(s[i]) by {
        assert(!n.gt(s[p], s[i]));
    }
    assert forall|p: int| i < p < s.len() implies m.of(s[i]) <= m.of(#[trigger] s[p]) by {
        assert(!n.gt(s[i], s[p]));
    }
    assert(parted(m, xs, s, i));
}

/// Two pitch tracks are compared over their common length, frame by frame, where both are voiced.
pub proof fn law_tracks_are_compared_over_their_common_length<T>(
    n: Num<T>,
    a: Seq<T>,
    b: Seq<T>,
    k: nat,
)
    requires
        k <= a.len(),
        k <= b.len(),
        k == a.len() || k == b.len(),
    ensures
        forall|i: int|
            0 <= i < k && n.gt(a[i], n.zero()) && n.gt(b[i], n.zero()) ==> track_errors(
                n,
                a,
                b,
            ).contains(#[trigger] cents(n, a[i], b[i])),
        forall|j: int|
            0 <= j < track_errors(n, a, b).len() ==> error_of_frame(
                n,
                a,
                b,
                k,
                #[trigger] track_errors(n, a, b)[j],
            ),
        (forall|i: int|
            0 <= i < k ==> n.gt(#[trigger] a[i], n.zero()) && n.gt(b[i], n.zero()))
            ==> track_errors(n, a, b).len() == k,
{
    law_errors_are_of_the_voiced_frames(n, a, b, k);
    if forall|i: int| 0 <= i < k ==> n.gt(#[trigger] a[i], n.zero()) && n.gt(b[i], n.zero()) {
        assert forall|i: int| 0 <= i < k implies n.gt(#[trigger] a[i], n.zero()) && n.gt(
            b[i],
            n.zero(),
        ) by {}
        assert(cent_errors(n, a, b, k).len() == k);
    }
}

/// Frequencies that cannot be compared with zero count as unvoiced.
pub proof fn law_incomparable_frequencies_are_unvoiced<T>(n: Num<T>, x: T, y: T)
    requires
        (n.rel)(x, n.zero()) == Rel::Unordered || (n.rel)(y, n.zero()) == Rel::Unordered,
    ensures
        !both_voiced(n, x, y),
{
}

} // verus!
