//! Seeded noise: the numbers of a permuted congruential generator, shaped into a normal
//! distribution.
use rand::Rng;
use rand::SeedableRng;
use rand_pcg::Pcg64;
use vstd::prelude::*;

use crate::arith::{Arith, Num, Op, Rel};
use crate::exact::{lemma_integer, Reals};

verus! {

/// `rand_pcg::Pcg64`: an opaque generator state.
#[verifier::external_type_specification]
#[verifier::external_body]
pub struct ExPcg64(rand_pcg::Lcg128Xsl64);

/// The number that a generator in state `rng` gives after `k` others.
pub uninterp spec fn pcg_stream(rng: Pcg64, k: nat) -> u64;

/// The `k`-th number of the generator that is seeded with `seed`.
pub uninterp spec fn pcg_seeded(seed: u64, k: nat) -> u64;

/// `Pcg64::seed_from_u64` (rand_core's `SeedableRng`): the numbers that the new generator will
/// give depend on the seed alone, on every platform. Which numbers they are is not said.
#[verifier::external_body]
pub fn seeded_rng(seed: u64) -> (r: Pcg64)
    ensures
        forall|k: nat| #[trigger] pcg_stream(r, k) == pcg_seeded(seed, k),
{
    Pcg64::seed_from_u64(seed)
}

/// `random::<u64>` of rand's `Rng` on a `Pcg64`: gives the next number of the generator's
/// stream and moves the generator past it.
#[verifier::external_body]
fn next_number(rng: &mut Pcg64) -> (r: u64)
    ensures
        r == pcg_stream(*old(rng), 0),
        forall|k: nat| #[trigger] pcg_stream(*final(rng), k) == pcg_stream(*old(rng), k + 1),
{
    rng.random::<u64>()
}

/// The resolution of a uniform draw: two to the power of 53.
pub const RESOLUTION: u64 = 9_007_199_254_740_992;

/// A generator's number as a uniform draw from `0..RESOLUTION`: its 53 highest bits.
pub open spec fn uniform(bits: u64) -> int {
    bits as int / 2048
}

/// A draw is used only if it is more than a trillionth of the range.
pub open spec fn usable(draw: int) -> bool {
    draw * 1_000_000_000_000 > RESOLUTION
}

/// The uniform draw `draw` as a number between zero and one.
pub open spec fn fraction<T>(n: Num<T>, draw: int) -> T {
    n.over(n.count(draw as u64), n.count(RESOLUTION))
}

/// The Box-Muller transform of two uniform draws.
pub open spec fn box_muller<T>(n: Num<T>, a: int, b: int) -> T {
    n.times(
        n.sqrt(n.times(n.integer((-2) as i64), n.ln(fraction(n, a)))),
        n.cos(n.times(n.times(n.integer(2), n.pi()), fraction(n, b))),
    )
}

/// The next uniform draw: the 53 highest bits of the generator's next number.
fn uniform_draw(rng: &mut Pcg64) -> (r: u64)
    ensures
        r == uniform(pcg_stream(*old(rng), 0)),
        r < RESOLUTION,
        forall|k: nat| #[trigger] pcg_stream(*final(rng), k) == pcg_stream(*old(rng), k + 1),
{
    next_number(rng) / 2048
}

/// The numbers that a generator in state `rng` will give.
pub open spec fn numbers(rng: Pcg64) -> spec_fn(nat) -> u64 {
    |k: nat| pcg_stream(rng, k)
}

/// The two uniform draws of attempt `i` at a normal number, from the numbers `stream`.
pub open spec fn pair(stream: spec_fn(nat) -> u64, i: nat) -> (u64, u64) {
    (uniform(stream(2 * i)) as u64, uniform(stream(2 * i + 1)) as u64)
}

/// No attempt from `i` up to, but not including, `j` has a usable first draw.
pub open spec fn idle_between(stream: spec_fn(nat) -> u64, i: nat, j: nat) -> bool {
    forall|k: nat| i <= k < j ==> !usable((#[trigger] pair(stream, k)).0 as int)
}

/// `to` is `from` after `count` attempts.
pub open spec fn advanced(from: Pcg64, to: Pcg64, count: nat) -> bool {
    forall|k: nat| #[trigger] pcg_stream(to, k) == pcg_stream(from, k + 2 * count)
}

/// The attempt that follows the attempts `at`.
pub open spec fn next_attempt(at: Seq<nat>) -> nat {
    if at.len() == 0 {
        0
    } else {
        at.last() + 1
    }
}

/// Attempt `i` is the first from attempt `start` on whose first draw is usable, and it comes
/// before `u64::MAX` others.
pub open spec fn next_usable(stream: spec_fn(nat) -> u64, start: nat, i: nat) -> bool {
    &&& usable(pair(stream, i).0 as int)
    &&& start <= i < start + u64::MAX
    &&& idle_between(stream, start, i)
}

/// `at` are the first attempts whose first draw is usable, in order.
pub open spec fn first_usable(stream: spec_fn(nat) -> u64, at: Seq<nat>) -> bool {
    forall|k: int|
        0 <= k < at.len() ==> next_usable(stream, next_attempt(at.take(k)), #[trigger] at[k])
}

/// The standard normal number that a pair of uniform draws makes.
pub open spec fn shaped<W>(n: Num<W>, p: (u64, u64)) -> W {
    box_muller(n, p.0 as int, p.1 as int)
}

/// `xs` are the standard normal numbers of the first usable pairs of draws of `from`, narrowed to
/// samples, and `to` is what is left of the generator.
#[verifier::opaque]
pub open spec fn drawn<T, W, NR: Fn(W) -> T>(
    n: Num<W>,
    narrow: NR,
    from: Pcg64,
    to: Pcg64,
    xs: Seq<T>,
) -> bool {
    exists|at: Seq<nat>| #[trigger] drawn_at(n, narrow, from, to, xs, at)
}

/// [`drawn`], with the attempts that the numbers come from.
pub open spec fn drawn_at<T, W, NR: Fn(W) -> T>(
    n: Num<W>,
    narrow: NR,
    from: Pcg64,
    to: Pcg64,
    xs: Seq<T>,
    at: Seq<nat>,
) -> bool {
    &&& at.len() == xs.len()
    &&& first_usable(numbers(from), at)
    &&& advanced(from, to, next_attempt(at))
    &&& forall|k: int|
        0 <= k < xs.len() ==> call_ensures(
            narrow,
            (shaped(n, pair(numbers(from), at[k])),),
            #[trigger] xs[k],
        )
}

/// Before `count` usable pairs of draws have come, `u64::MAX` attempts in a row give none; `to` is
/// what is left of the generator `from` after them.
#[verifier::opaque]
pub open spec fn dries_up(from: Pcg64, to: Pcg64, count: nat) -> bool {
    exists|at: Seq<nat>| at.len() < count && #[trigger] dries_up_after(from, to, at)
}

/// [`dries_up`], with the attempts before it whose first draw is usable.
pub open spec fn dries_up_after(from: Pcg64, to: Pcg64, at: Seq<nat>) -> bool {
    let next = next_attempt(at);
    &&& first_usable(numbers(from), at)
    &&& idle_between(numbers(from), next, next + u64::MAX as nat)
    &&& advanced(from, to, next + u64::MAX as nat)
}

/// `p` is the first usable pair of draws of the generator `from`, and `to` is what is left of it;
/// there is none in `u64::MAX` attempts.
#[verifier::opaque]
pub open spec fn pair_drawn(from: Pcg64, to: Pcg64, p: Option<(u64, u64)>) -> bool {
    match p {
        Some(p) => exists|i: nat|
            {
                &&& p == #[trigger] pair(numbers(from), i)
                &&& next_usable(numbers(from), 0, i)
                &&& advanced(from, to, i + 1)
            },
        None => {
            &&& idle_between(numbers(from), 0, u64::MAX as nat)
            &&& advanced(from, to, u64::MAX as nat)
        },
    }
}

/// The first usable pair of uniform draws of the generator. `None` after `u64::MAX` attempts
/// without one.
pub fn draw_pair(rng: &mut Pcg64) -> (r: Option<(u64, u64)>)
    ensures
        pair_drawn(*old(rng), *final(rng), r),
        r matches Some(p) ==> usable(p.0 as int) && p.0 < RESOLUTION && p.1 < RESOLUTION,
{
    let ghost start = *rng;
    let mut tried: u64 = 0;
    while tried < u64::MAX
        invariant
            start == *old(rng),
            idle_between(numbers(start), 0, tried as nat),
            advanced(start, *rng, tried as nat),
        decreases u64::MAX - tried,
    {
        let ghost before = *rng;
        let a = uniform_draw(rng);
        let ghost middle = *rng;
        let b = uniform_draw(rng);
        proof {
            assert(pcg_stream(before, 0) == pcg_stream(start, (2 * tried) as nat));
            assert(pcg_stream(middle, 0) == pcg_stream(before, 1));
            assert(pcg_stream(before, 1) == pcg_stream(start, (2 * tried + 1) as nat));
            assert((a, b) == pair(numbers(start), tried as nat));
            assert forall|k: nat| #[trigger]
                pcg_stream(*rng, k) == pcg_stream(start, k + 2 * (tried + 1) as nat) by {
                assert(pcg_stream(*rng, k) == pcg_stream(middle, k + 1));
                assert(pcg_stream(middle, k + 1) == pcg_stream(before, k + 1 + 1));
                assert(pcg_stream(before, k + 2) == pcg_stream(start, k + 2 + 2 * tried as nat));
            }
        }
        if a as u128 * 1_000_000_000_000 > RESOLUTION as u128 {
            proof {
                reveal(pair_drawn);
                assert(next_usable(numbers(start), 0, tried as nat));
                assert(advanced(start, *rng, tried as nat + 1));
            }
            return Some((a, b));
        }
        tried += 1;
    }
    proof {
        reveal(pair_drawn);
    }
    None
}

/// The Box-Muller transform of two uniform draws.
pub fn normal<T: Copy, O: Fn(Op<T>) -> T, G: Fn(T, T) -> Rel, Z: Fn(T) -> i128>(
    ar: &Arith<T, O, G, Z>,
    a: u64,
    b: u64,
) -> (r: T)
    requires
        ar.wf(),
    ensures
        r == box_muller(ar.model@, a as int, b as int),
{
    let whole = ar.count(RESOLUTION);
    let u1 = ar.over(ar.count(a), whole);
    let u2 = ar.over(ar.count(b), whole);
    let radius = ar.eval(Op::Sqrt(ar.times(ar.integer(-2), ar.eval(Op::Ln(u1)))));
    let turn = ar.times(ar.times(ar.integer(2), ar.eval(Op::Pi)), u2);
    ar.times(radius, ar.eval(Op::Cos(turn)))
}

/// `x` is the Box-Muller transform of the first usable pair of draws of `from`, and `to` is what is
/// left of the generator; or there is no such pair.
pub open spec fn normal_drawn<T>(n: Num<T>, from: Pcg64, to: Pcg64, x: Option<T>) -> bool {
    match x {
        Some(x) => exists|p: (u64, u64)|
            {
                &&& #[trigger] pair_drawn(from, to, Some(p))
                &&& usable(p.0 as int)
                &&& p.0 < RESOLUTION
                &&& p.1 < RESOLUTION
                &&& x == box_muller(n, p.0 as int, p.1 as int)
            },
        None => pair_drawn(from, to, None),
    }
}

/// The next standard normal number of the generator: the Box-Muller transform of its first
/// usable pair of draws. `None` after `u64::MAX` attempts without one.
pub fn standard_normal<T: Copy, O: Fn(Op<T>) -> T, G: Fn(T, T) -> Rel, Z: Fn(T) -> i128>(
    ar: &Arith<T, O, G, Z>,
    rng: &mut Pcg64,
) -> (r: Option<T>)
    requires
        ar.wf(),
    ensures
        normal_drawn(ar.model@, *old(rng), *final(rng), r),
{
    let p = draw_pair(rng);
    match p {
        Some((a, b)) => {
            let x = normal(ar, a, b);
            assert(pair_drawn(*old(rng), *rng, Some((a, b))));
            Some(x)
        },
        None => None,
    }
}

/// What a run of attempts of `mid` is among the attempts of `from`.
proof fn lemma_pair_shift(from: Pcg64, mid: Pcg64, count: nat, i: nat)
    requires
        advanced(from, mid, count),
    ensures
        pair(numbers(mid), i) == pair(numbers(from), count + i),
{
    assert(pcg_stream(mid, 2 * i) == pcg_stream(from, 2 * i + 2 * count));
    assert(pcg_stream(mid, 2 * i + 1) == pcg_stream(from, 2 * i + 1 + 2 * count));
}

proof fn lemma_idle_shift(from: Pcg64, mid: Pcg64, count: nat, i: nat, j: nat)
    requires
        advanced(from, mid, count),
        idle_between(numbers(mid), i, j),
    ensures
        idle_between(numbers(from), count + i, count + j),
{
    assert forall|k: nat| count + i <= k < count + j implies !usable(
        (#[trigger] pair(numbers(from), k)).0 as int,
    ) by {
        lemma_pair_shift(from, mid, count, (k - count) as nat);
    }
}

/// `to` is `from` after the attempts of both stages.
proof fn lemma_advanced_twice(from: Pcg64, mid: Pcg64, to: Pcg64, a: nat, b: nat)
    requires
        advanced(from, mid, a),
        advanced(mid, to, b),
    ensures
        advanced(from, to, a + b),
{
    assert forall|k: nat| #[trigger] pcg_stream(to, k) == pcg_stream(from, k + 2 * (a + b)) by {
        assert(pcg_stream(to, k) == pcg_stream(mid, k + 2 * b));
        assert(pcg_stream(mid, k + 2 * b) == pcg_stream(from, k + 2 * b + 2 * a));
    }
}

/// The attempts `at`, and behind them the attempts `later`, counted from there.
spec fn joined(at: Seq<nat>, later: Seq<nat>) -> Seq<nat> {
    at + Seq::new(later.len(), |k: int| next_attempt(at) + later[k])
}

/// The first usable attempts of what is left continue the first usable attempts.
proof fn lemma_joined(from: Pcg64, mid: Pcg64, at: Seq<nat>, later: Seq<nat>)
    requires
        first_usable(numbers(from), at),
        advanced(from, mid, next_attempt(at)),
        first_usable(numbers(mid), later),
    ensures
        first_usable(numbers(from), joined(at, later)),
        next_attempt(joined(at, later)) == next_attempt(at) + next_attempt(later),
{
    let all = joined(at, later);
    let done = next_attempt(at);
    if later.len() == 0 {
        assert(all =~= at);
    } else {
        assert(all.last() == done + later.last());
    }
    assert forall|k: int| 0 <= k < all.len() implies next_usable(
        numbers(from),
        next_attempt(all.take(k)),
        #[trigger] all[k],
    ) by {
        if k < at.len() {
            assert(all.take(k) =~= at.take(k));
            assert(all[k] == at[k]);
        } else {
            let j = k - at.len();
            let i = later[j];
            let start = next_attempt(later.take(j));
            assert(next_usable(numbers(mid), start, i));
            assert(all.take(k) =~= joined(at, later.take(j)));
            if j == 0 {
                assert(all.take(k) =~= at);
            } else {
                assert(all.take(k).last() == done + later.take(j).last());
            }
            assert(next_attempt(all.take(k)) == done + start);
            lemma_pair_shift(from, mid, done, i);
            lemma_idle_shift(from, mid, done, start, i);
        }
    }
}

/// A generator that dries up dries up before any greater count too.
pub proof fn lemma_dries_up_sooner(from: Pcg64, to: Pcg64, few: nat, many: nat)
    requires
        dries_up(from, to, few),
        few <= many,
    ensures
        dries_up(from, to, many),
{
    reveal(dries_up);
}

/// A generator dries up if it dries up after some draws.
pub proof fn lemma_dries_up_later<T, W, NR: Fn(W) -> T>(
    n: Num<W>,
    narrow: NR,
    from: Pcg64,
    mid: Pcg64,
    to: Pcg64,
    xs: Seq<T>,
    count: nat,
)
    requires
        drawn(n, narrow, from, mid, xs),
        dries_up(mid, to, count),
    ensures
        dries_up(from, to, xs.len() + count),
{
    reveal(drawn);
    reveal(dries_up);
    let at = choose|at: Seq<nat>| #[trigger] drawn_at(n, narrow, from, mid, xs, at);
    let later = choose|later: Seq<nat>|
        later.len() < count && #[trigger] dries_up_after(mid, to, later);
    lemma_joined(from, mid, at, later);
    let (done, next) = (next_attempt(at), next_attempt(later));
    lemma_idle_shift(from, mid, done, next, next + u64::MAX as nat);
    lemma_advanced_twice(from, mid, to, done, next + u64::MAX as nat);
    assert(dries_up_after(from, to, joined(at, later)));
}

/// Numbers that are drawn one after the other are drawn together.
pub proof fn lemma_drawn_together<T, W, NR: Fn(W) -> T>(
    n: Num<W>,
    narrow: NR,
    from: Pcg64,
    mid: Pcg64,
    to: Pcg64,
    xs: Seq<T>,
    ys: Seq<T>,
)
    requires
        drawn(n, narrow, from, mid, xs),
        drawn(n, narrow, mid, to, ys),
    ensures
        drawn(n, narrow, from, to, xs + ys),
{
    reveal(drawn);
    let at = choose|at: Seq<nat>| #[trigger] drawn_at(n, narrow, from, mid, xs, at);
    let later = choose|later: Seq<nat>| #[trigger] drawn_at(n, narrow, mid, to, ys, later);
    lemma_joined(from, mid, at, later);
    lemma_advanced_twice(from, mid, to, next_attempt(at), next_attempt(later));
    let all = joined(at, later);
    assert forall|k: int| 0 <= k < (xs + ys).len() implies call_ensures(
        narrow,
        (shaped(n, pair(numbers(from), all[k])),),
        #[trigger] (xs + ys)[k],
    ) by {
        if k < xs.len() {
            assert((xs + ys)[k] == xs[k]);
            assert(all[k] == at[k]);
        } else {
            let j = k - xs.len();
            assert((xs + ys)[k] == ys[j]);
            lemma_pair_shift(from, mid, next_attempt(at), later[j]);
        }
    }
    assert(drawn_at(n, narrow, from, to, xs + ys, all));
}

/// `count` samples of noise: the standard normal numbers of the usable draws of the generator, in
/// the arithmetic `wide`, narrowed. `None` where the generator dries up.
pub fn draws<
    T,
    W: Copy,
    WO: Fn(Op<W>) -> W,
    WG: Fn(W, W) -> Rel,
    WZ: Fn(W) -> i128,
    NR: Fn(W) -> T,
>(wide: &Arith<W, WO, WG, WZ>, narrow: &NR, rng: &mut Pcg64, count: usize) -> (r: Option<Vec<T>>)
    requires
        wide.wf(),
        forall|x: W| #[trigger] call_requires(*narrow, (x,)),
    ensures
        match r {
            Some(xs) => {
                &&& xs@.len() == count
                &&& drawn(wide.model@, *narrow, *old(rng), *final(rng), xs@)
            },
            None => dries_up(*old(rng), *final(rng), count as nat),
        },
{
    let ghost start = *rng;
    let ghost mut at: Seq<nat> = Seq::empty();
    let mut r: Vec<T> = Vec::new();
    while r.len() < count
        invariant
            wide.wf(),
            forall|x: W| #[trigger] call_requires(*narrow, (x,)),
            start == *old(rng),
            r@.len() <= count,
            drawn_at(wide.model@, *narrow, start, *rng, r@, at),
        decreases count - r@.len(),
    {
        let ghost mid = *rng;
        let ghost done = next_attempt(at);
        let p = draw_pair(rng);
        proof {
            reveal(pair_drawn);
        }
        match p {
            Some((a, b)) => {
                let x = narrow(normal(wide, a, b));
                let ghost before = r@;
                let ghost was = at;
                proof {
                    let i = choose|i: nat|
                        {
                            &&& (a, b) == #[trigger] pair(numbers(mid), i)
                            &&& next_usable(numbers(mid), 0, i)
                            &&& advanced(mid, *rng, i + 1)
                        };
                    let one = seq![i];
                    assert(one.take(0) =~= Seq::<nat>::empty());
                    assert(first_usable(numbers(mid), one));
                    lemma_joined(start, mid, at, one);
                    lemma_pair_shift(start, mid, done, i);
                    lemma_advanced_twice(start, mid, *rng, done, i + 1);
                    at = joined(at, one);
                    assert(at =~= was.push(done + i));
                }
                r.push(x);
                assert forall|k: int| 0 <= k < r@.len() implies call_ensures(
                    *narrow,
                    (shaped(wide.model@, pair(numbers(start), at[k])),),
                    #[trigger] r@[k],
                ) by {
                    if k < before.len() {
                        assert(r@[k] == before[k]);
                        assert(at[k] == was[k]);
                    }
                }
            },
            None => {
                proof {
                    reveal(dries_up);
                    lemma_idle_shift(start, mid, done, 0, u64::MAX as nat);
                    lemma_advanced_twice(start, mid, *rng, done, u64::MAX as nat);
                    assert(dries_up_after(start, *rng, at));
                }
                return None;
            },
        }
    }
    proof {
        reveal(drawn);
    }
    Some(r)
}

/// The first usable attempts are determined by the numbers, as far as they go.
proof fn lemma_first_usable_unique(stream: spec_fn(nat) -> u64, at: Seq<nat>, other: Seq<nat>)
    requires
        first_usable(stream, at),
        first_usable(stream, other),
        at.len() <= other.len(),
    ensures
        at == other.take(at.len() as int),
    decreases at.len(),
{
    if at.len() > 0 {
        let last = at.len() - 1;
        let short = at.drop_last();
        assert forall|k: int| 0 <= k < short.len() implies next_usable(
            stream,
            next_attempt(short.take(k)),
            #[trigger] short[k],
        ) by {
            assert(short[k] == at[k]);
            assert(short.take(k) =~= at.take(k));
        }
        lemma_first_usable_unique(stream, short, other);
        assert(at.take(last) =~= short);
        let a = at[last];
        let b = other[last];
        assert(next_usable(stream, next_attempt(short), a));
        assert(next_usable(stream, next_attempt(other.take(last)), b));
        if a < b {
            assert(!usable(pair(stream, a).0 as int));
        } else if b < a {
            assert(!usable(pair(stream, b).0 as int));
        }
        assert(at =~= short.push(a));
        assert(other.take(at.len() as int) =~= other.take(last).push(b));
    } else {
        assert(at =~= other.take(0));
    }
}

/// `narrow` makes one sample of a number.
pub open spec fn one_sample<T, W, NR: Fn(W) -> T>(narrow: NR) -> bool {
    forall|w: W, x: T, y: T| #[trigger]
        call_ensures(narrow, (w,), x) && #[trigger] call_ensures(narrow, (w,), y) ==> x == y
}

/// What is left of equal numbers after equally many attempts is equal.
proof fn lemma_left_alike(one: Pcg64, other: Pcg64, left: Pcg64, other_left: Pcg64, count: nat)
    requires
        numbers(one) == numbers(other),
        advanced(one, left, count),
        advanced(other, other_left, count),
    ensures
        numbers(left) == numbers(other_left),
{
    assert forall|k: nat| #[trigger] pcg_stream(left, k) == pcg_stream(other_left, k) by {
        let j = k + 2 * count;
        assert(pcg_stream(left, k) == pcg_stream(one, j));
        assert(pcg_stream(other_left, k) == pcg_stream(other, j));
        assert(numbers(one)(j) == pcg_stream(one, j));
        assert(numbers(other)(j) == pcg_stream(other, j));
    }
    assert(numbers(left) =~= numbers(other_left));
}

/// Two generators that will give the same numbers draw the same normal numbers, and will give
/// the same numbers afterwards.
pub proof fn law_draws_depend_on_numbers_alone<T, W, NR: Fn(W) -> T>(
    n: Num<W>,
    narrow: NR,
    one: Pcg64,
    other: Pcg64,
    left: Pcg64,
    other_left: Pcg64,
    xs: Seq<T>,
    ys: Seq<T>,
)
    requires
        one_sample(narrow),
        numbers(one) == numbers(other),
        drawn(n, narrow, one, left, xs),
        drawn(n, narrow, other, other_left, ys),
        xs.len() == ys.len(),
    ensures
        xs == ys,
        numbers(left) == numbers(other_left),
{
    reveal(drawn);
    let at = choose|at: Seq<nat>| #[trigger] drawn_at(n, narrow, one, left, xs, at);
    let other_at = choose|at: Seq<nat>| #[trigger] drawn_at(n, narrow, other, other_left, ys, at);
    lemma_first_usable_unique(numbers(one), at, other_at);
    assert(other_at.take(at.len() as int) =~= other_at);
    assert forall|k: int| 0 <= k < xs.len() implies xs[k] == ys[k] by {
        let w = shaped(n, pair(numbers(one), at[k]));
        assert(call_ensures(narrow, (w,), xs[k]));
        assert(call_ensures(narrow, (w,), ys[k]));
    }
    assert(xs =~= ys);
    lemma_left_alike(one, other, left, other_left, next_attempt(at));
}

/// Of two generators that will give the same numbers, one does not dry up where the other draws
/// as many numbers.
pub proof fn law_drying_up_depends_on_numbers_alone<T, W, NR: Fn(W) -> T>(
    n: Num<W>,
    narrow: NR,
    one: Pcg64,
    other: Pcg64,
    left: Pcg64,
    other_left: Pcg64,
    xs: Seq<T>,
)
    requires
        numbers(one) == numbers(other),
        drawn(n, narrow, one, left, xs),
    ensures
        !dries_up(other, other_left, xs.len()),
{
    reveal(drawn);
    reveal(dries_up);
    if dries_up(other, other_left, xs.len()) {
        let at = choose|at: Seq<nat>| #[trigger] drawn_at(n, narrow, one, left, xs, at);
        let few = choose|few: Seq<nat>|
            few.len() < xs.len() && #[trigger] dries_up_after(other, other_left, few);
        let k = few.len() as int;
        lemma_first_usable_unique(numbers(one), few, at);
        assert(next_usable(numbers(one), next_attempt(at.take(k)), at[k]));
        assert(!usable(pair(numbers(one), at[k]).0 as int));
    }
}

/// Two generators that will give the same numbers and dry up will give the same numbers
/// afterwards.
pub proof fn law_dry_generators_stay_alike(
    one: Pcg64,
    other: Pcg64,
    left: Pcg64,
    other_left: Pcg64,
    count: nat,
)
    requires
        numbers(one) == numbers(other),
        dries_up(one, left, count),
        dries_up(other, other_left, count),
    ensures
        numbers(left) == numbers(other_left),
{
    reveal(dries_up);
    let at = choose|at: Seq<nat>| at.len() < count && #[trigger] dries_up_after(one, left, at);
    let other_at = choose|at: Seq<nat>|
        at.len() < count && #[trigger] dries_up_after(other, other_left, at);
    if at.len() <= other_at.len() {
        lemma_same_end(other, other_left, one, left, other_at, at);
    } else {
        lemma_same_end(one, left, other, other_left, at, other_at);
    }
    lemma_left_alike(one, other, left, other_left, next_attempt(at) + u64::MAX as nat);
}

/// Generators of equal numbers dry up after the same attempts.
proof fn lemma_same_end(
    one: Pcg64,
    left: Pcg64,
    other: Pcg64,
    other_left: Pcg64,
    at: Seq<nat>,
    few: Seq<nat>,
)
    requires
        numbers(one) == numbers(other),
        dries_up_after(one, left, at),
        dries_up_after(other, other_left, few),
        few.len() <= at.len(),
    ensures
        at == few,
{
    let k = few.len() as int;
    lemma_first_usable_unique(numbers(one), few, at);
    if k < at.len() {
        assert(next_usable(numbers(one), next_attempt(at.take(k)), at[k]));
        assert(!usable(pair(numbers(one), at[k]).0 as int));
    }
    assert(at.take(k) =~= at);
}

/// The standard normal number is a function of the numbers that the generator will give, and so
/// is what is left of them.
pub proof fn law_standard_normal_is_a_function<T>(
    n: Num<T>,
    one: Pcg64,
    other: Pcg64,
    left: Pcg64,
    other_left: Pcg64,
    x: Option<T>,
    y: Option<T>,
)
    requires
        numbers(one) == numbers(other),
        normal_drawn(n, one, left, x),
        normal_drawn(n, other, other_left, y),
    ensures
        x == y,
        numbers(left) == numbers(other_left),
{
    reveal(pair_drawn);
    let stream = numbers(one);
    if x is Some {
        let p = choose|p: (u64, u64)|
            {
                &&& #[trigger] pair_drawn(one, left, Some(p))
                &&& x->Some_0 == box_muller(n, p.0 as int, p.1 as int)
            };
        let i = choose|i: nat|
            {
                &&& p == #[trigger] pair(stream, i)
                &&& next_usable(stream, 0, i)
                &&& advanced(one, left, i + 1)
            };
        if y is None {
            assert(!usable(pair(stream, i).0 as int));
        }
        let q = choose|q: (u64, u64)|
            {
                &&& #[trigger] pair_drawn(other, other_left, Some(q))
                &&& y->Some_0 == box_muller(n, q.0 as int, q.1 as int)
            };
        let j = choose|j: nat|
            {
                &&& q == #[trigger] pair(stream, j)
                &&& next_usable(stream, 0, j)
                &&& advanced(other, other_left, j + 1)
            };
        if i < j {
            assert(!usable(pair(stream, i).0 as int));
        } else if j < i {
            assert(!usable(pair(stream, j).0 as int));
        }
        lemma_left_alike(one, other, left, other_left, i + 1);
    } else {
        if y is Some {
            let q = choose|q: (u64, u64)|
                {
                    &&& #[trigger] pair_drawn(other, other_left, Some(q))
                    &&& y->Some_0 == box_muller(n, q.0 as int, q.1 as int)
                };
            let j = choose|j: nat|
                {
                    &&& q == #[trigger] pair(stream, j)
                    &&& next_usable(stream, 0, j)
                    &&& advanced(other, other_left, j + 1)
                };
            assert(!usable(pair(stream, j).0 as int));
        }
        lemma_left_alike(one, other, left, other_left, u64::MAX as nat);
    }
}

/// The least usable draw.
pub const LEAST_USABLE: u64 = 9008;

/// The distance from zero that a first draw allows.
pub open spec fn radius<T>(n: Num<T>, a: int) -> T {
    n.sqrt(n.times(n.integer((-2) as i64), n.ln(fraction(n, a))))
}

/// The arithmetic is in order on uniform draws: fractions and logarithms grow, no logarithm of a
/// fraction is positive, roots grow, and the cosine of a turn lengthens no radius.
pub open spec fn draws_in_order<T>(n: Num<T>) -> bool {
    &&& forall|x: T, y: T, z: T| #[trigger] n.le(x, y) && #[trigger] n.le(y, z) ==> n.le(x, z)
    &&& forall|a: int, b: int|
        0 < a <= b < RESOLUTION ==> n.le(#[trigger] fraction(n, a), #[trigger] fraction(n, b))
    &&& forall|a: int| 0 < a < RESOLUTION ==> n.gt(#[trigger] fraction(n, a), n.zero())
    &&& forall|x: T, y: T|
        #![trigger n.ln(x), n.ln(y)]
        n.gt(x, n.zero()) && n.le(x, y) ==> n.le(n.ln(x), n.ln(y))
    &&& forall|x: T, y: T|
        #![trigger n.times(n.integer((-2) as i64), x), n.times(n.integer((-2) as i64), y)]
        n.le(x, y) ==> n.le(
            n.times(n.integer((-2) as i64), y),
            n.times(n.integer((-2) as i64), x),
        )
    &&& forall|a: int|
        0 < a < RESOLUTION ==> n.le(
            n.zero(),
            n.times(n.integer((-2) as i64), n.ln(#[trigger] fraction(n, a))),
        )
    &&& forall|x: T, y: T|
        #![trigger n.sqrt(x), n.sqrt(y)]
        n.le(n.zero(), x) && n.le(x, y) ==> n.le(n.sqrt(x), n.sqrt(y))
    &&& forall|a: int, b: int|
        0 < a < RESOLUTION && 0 <= b < RESOLUTION ==> n.le(
            n.abs(#[trigger] box_muller(n, a, b)),
            radius(n, a),
        )
}

/// A standard normal number stays within what the least usable draw allows.
pub proof fn law_standard_normal_is_bounded<T>(n: Num<T>, from: Pcg64, to: Pcg64, x: T)
    requires
        draws_in_order(n),
        normal_drawn(n, from, to, Some(x)),
    ensures
        n.le(n.abs(x), radius(n, LEAST_USABLE as int)),
{
    let p = choose|p: (u64, u64)|
        {
            &&& #[trigger] pair_drawn(from, to, Some(p))
            &&& usable(p.0 as int)
            &&& p.0 < RESOLUTION
            &&& p.1 < RESOLUTION
            &&& x == box_muller(n, p.0 as int, p.1 as int)
        };
    let a = p.0 as int;
    let least = LEAST_USABLE as int;
    assert(least <= a);
    let two = n.integer((-2) as i64);
    let (f, g) = (fraction(n, least), fraction(n, a));
    assert(n.le(f, g));
    assert(n.gt(f, n.zero()));
    assert(n.le(n.ln(f), n.ln(g)));
    assert(n.le(n.times(two, n.ln(g)), n.times(two, n.ln(f))));
    assert(n.le(n.zero(), n.times(two, n.ln(g))));
    assert(n.le(radius(n, a), radius(n, least)));
    assert(n.le(n.abs(x), radius(n, a)));
}

/// Same seed, same noise: two generators that were made from the same seed and have given
/// equally many numbers will give the same numbers.
pub proof fn law_noise_depends_on_seed_alone(seed: u64, given: nat, one: Pcg64, other: Pcg64)
    requires
        forall|k: nat| #[trigger] pcg_stream(one, k) == pcg_seeded(seed, k + given),
        forall|k: nat| #[trigger] pcg_stream(other, k) == pcg_seeded(seed, k + given),
    ensures
        numbers(one) == numbers(other),
{
    assert(numbers(one) =~= numbers(other));
}

/// A uniform draw is the 53 highest bits of a number, so that there are as many draws as their
/// resolution says; and it is used where it is more than a trillionth of them.
pub proof fn law_draws_are_the_highest_bits(bits: u64)
    ensures
        RESOLUTION * 2048 == 0x1_0000_0000_0000_0000,
        0 <= uniform(bits) < RESOLUTION,
        2048 * uniform(bits) <= bits < 2048 * (uniform(bits) + 1),
        usable(uniform(bits)) <==> uniform(bits) * 1_000_000_000_000 > RESOLUTION,
{
}

/// A quarter turn of draws.
pub const QUARTER: u64 = 2_251_799_813_685_248;

/// Normal numbers come in pairs on a circle: the numbers of one first draw and of two second draws
/// a quarter turn apart have squares that add up to minus twice the logarithm of the first draw, as
/// a part of all draws. The second draw zero gives the positive one that is farthest from zero.
pub proof fn law_normal_numbers_lie_on_circles<T>(n: Num<T>, m: Reals<T>, a: u64, b: u64)
    requires
        m.computes(n),
        m.roots(n),
        m.logarithms(n),
        m.angles(n),
        0 < a < RESOLUTION,
        b + QUARTER < RESOLUTION,
    ensures
        ({
            let x = m.of(box_muller(n, a as int, b as int));
            let y = m.of(box_muller(n, a as int, b + QUARTER));
            x * x + y * y == -2real * (m.log)((a as real) / (RESOLUTION as real))
        }),
        m.of(box_muller(n, a as int, 0)) >= 0real,
        m.of(box_muller(n, a as int, 0)) * m.of(box_muller(n, a as int, 0)) == -2real * (m.log)(
            (a as real) / (RESOLUTION as real),
        ),
{
    law_normal_number_by_radius_and_angle(n, m, a, b);
    law_normal_number_by_radius_and_angle(n, m, a, (b + QUARTER) as u64);
    law_normal_number_by_radius_and_angle(n, m, a, 0);
    let r = -2real * (m.log)((a as real) / (RESOLUTION as real));
    let w = RESOLUTION as real;
    let (p, q) = ((b as real) / w, ((b + QUARTER) as real) / w);
    let t = m.circle;
    assert((b + QUARTER) as real == b as real + QUARTER as real);
    assert(4real * (QUARTER as real) == w);
    assert((2real * t) * q == (2real * t) * p + t / 2real) by (nonlinear_arith)
        requires
            p == (b as real) / w,
            q == (b as real + QUARTER as real) / w,
            4real * (QUARTER as real) == w,
            w > 0real,
    ;
    let x = (2real * t) * p;
    let (c, s) = ((m.cosine)(x), (m.sine)(x));
    assert((m.cosine)(x + t / 2real) == -s);
    assert(s * s + c * c == 1real);
    let rad = (m.root)(r);
    assert((rad * c) * (rad * c) + (rad * -s) * (rad * -s) == r) by (nonlinear_arith)
        requires
            rad * rad == r,
            s * s + c * c == 1real,
    ;
    assert((2real * t) * (0real / w) == 0real) by (nonlinear_arith)
        requires
            w > 0real,
    ;
    assert(rad * 1real == rad) by (nonlinear_arith);
}

/// A normal number has a radius and an angle: the radius is the root of minus twice the logarithm
/// of the first draw, and the angle is the second draw of a whole turn, both as parts of all draws;
/// the number is how far that point is to the side.
pub proof fn law_normal_number_by_radius_and_angle<T>(n: Num<T>, m: Reals<T>, a: u64, b: u64)
    requires
        m.computes(n),
        m.roots(n),
        m.logarithms(n),
        m.angles(n),
        0 < a < RESOLUTION,
    ensures
        ({
            let w = RESOLUTION as real;
            let r = -2real * (m.log)((a as real) / w);
            &&& r >= 0real
            &&& (m.root)(r) >= 0real
            &&& (m.root)(r) * (m.root)(r) == r
            &&& m.of(box_muller(n, a as int, b as int)) == (m.root)(r) * (m.cosine)(
                (2real * m.circle) * ((b as real) / w),
            )
        }),
{
    let w = RESOLUTION as real;
    lemma_integer(n, m, (-2) as i64);
    lemma_integer(n, m, 2);
    assert(m.of(n.count(a)) == a as real);
    assert(m.of(n.count(b)) == b as real);
    assert(m.of(n.count(RESOLUTION)) == w);
    let u = (a as real) / w;
    assert(0real < u < 1real) by (nonlinear_arith)
        requires
            u == (a as real) / w,
            0real < a as real,
            (a as real) < w,
    ;
    assert((m.log)(1real * 1real) == (m.log)(1real) + (m.log)(1real));
    assert(1real * 1real == 1real);
    assert((m.log)(u) < (m.log)(1real));
    let r = -2real * (m.log)(u);
    assert(r >= 0real);
}

proof fn lemma_every_attempt_usable(stream: spec_fn(nat) -> u64, at: Seq<nat>, k: nat)
    requires
        first_usable(stream, at),
        forall|i: nat| i < at.len() ==> usable((#[trigger] pair(stream, i)).0 as int),
        k <= at.len(),
    ensures
        next_attempt(at.take(k as int)) == k,
    decreases k,
{
    if k > 0 {
        let j = (k - 1) as nat;
        lemma_every_attempt_usable(stream, at, j);
        assert(next_usable(stream, next_attempt(at.take(j as int)), at[j as int]));
        assert(at.take(k as int).last() == at[j as int]);
        if j < at[j as int] {
            assert(!usable(pair(stream, j).0 as int));
        }
    }
}

/// Numbers are drawn in the order of the generator, two for each: where the first of every two is
/// usable, number `k` is made of the generator's numbers `2 * k` and `2 * k + 1`, the first of them
/// for how far it is from zero; and the generator goes on behind them.
pub proof fn law_numbers_are_drawn_in_order<T, W, NR: Fn(W) -> T>(
    n: Num<W>,
    narrow: NR,
    from: Pcg64,
    to: Pcg64,
    xs: Seq<T>,
    j: nat,
)
    requires
        drawn(n, narrow, from, to, xs),
        forall|k: nat|
            k < xs.len() ==> usable(uniform(#[trigger] pcg_stream(from, 2 * k))),
    ensures
        forall|k: nat|
            #![trigger xs[k as int]]
            k < xs.len() ==> call_ensures(
                narrow,
                (
                    box_muller(
                        n,
                        uniform(pcg_stream(from, 2 * k)),
                        uniform(pcg_stream(from, 2 * k + 1)),
                    ),
                ),
                xs[k as int],
            ),
        pcg_stream(to, j) == pcg_stream(from, j + 2 * xs.len()),
{
    reveal(drawn);
    let at = choose|at: Seq<nat>| #[trigger] drawn_at(n, narrow, from, to, xs, at);
    let stream = numbers(from);
    assert forall|i: nat| i < at.len() implies usable((#[trigger] pair(stream, i)).0 as int) by {
        assert(usable(uniform(pcg_stream(from, 2 * i))));
    }
    assert forall|k: nat|
        #![trigger xs[k as int]]
        k < xs.len() implies call_ensures(
        narrow,
        (
            box_muller(
                n,
                uniform(pcg_stream(from, 2 * k)),
                uniform(pcg_stream(from, 2 * k + 1)),
            ),
        ),
        xs[k as int],
    ) by {
        lemma_every_attempt_usable(stream, at, k);
        lemma_every_attempt_usable(stream, at, k + 1);
        assert(at.take(k + 1int).last() == at[k as int]);
        assert(call_ensures(narrow, (shaped(n, pair(numbers(from), at[k as int])),), xs[k as int]));
    }
    lemma_every_attempt_usable(stream, at, at.len());
    assert(at.take(at.len() as int) =~= at);
}

/// Attempts, counted from the second one on.
spec fn one_less(at: Seq<nat>) -> Seq<nat> {
    Seq::new(at.len(), |k: int| (at[k] - 1) as nat)
}

/// The usable attempts of the numbers `a` are those of `b`, which begins one attempt later, where
/// the first attempt is not usable.
proof fn lemma_first_attempt_skipped(
    a: spec_fn(nat) -> u64,
    b: spec_fn(nat) -> u64,
    at: Seq<nat>,
)
    requires
        first_usable(a, at),
        at.len() > 0,
        !usable(pair(a, 0).0 as int),
        forall|k: nat| #[trigger] pair(b, k) == pair(a, k + 1),
    ensures
        first_usable(b, one_less(at)),
        next_attempt(at) == next_attempt(one_less(at)) + 1,
        forall|k: int| 0 <= k < at.len() ==> #[trigger] at[k] > 0,
{
    let less = one_less(at);
    assert forall|k: int| 0 <= k < at.len() implies #[trigger] at[k] > 0 by {
        assert(next_usable(a, next_attempt(at.take(k)), at[k]));
    }
    assert forall|k: int| 0 <= k < less.len() implies next_usable(
        b,
        next_attempt(less.take(k)),
        #[trigger] less[k],
    ) by {
        assert(next_usable(a, next_attempt(at.take(k)), at[k]));
        let start = next_attempt(at.take(k));
        let start_b = next_attempt(less.take(k));
        if k > 0 {
            assert(at.take(k).last() == at[k - 1]);
            assert(less.take(k).last() == less[k - 1]);
            assert(start_b == start - 1);
        }
        assert(pair(b, less[k]) == pair(a, at[k]));
        assert forall|i: nat| start_b <= i < less[k] implies !usable(
            (#[trigger] pair(b, i)).0 as int,
        ) by {
            assert(!usable(pair(a, i + 1).0 as int));
        }
    }
    assert(less.last() == at.last() - 1);
}

/// An attempt whose first draw is not usable counts for nothing: the numbers are those that are
/// drawn behind it.
#[verifier::spinoff_prover]
#[verifier::rlimit(40)]
pub proof fn law_unusable_attempts_are_skipped<T, W, NR: Fn(W) -> T>(
    n: Num<W>,
    narrow: NR,
    from: Pcg64,
    later: Pcg64,
    to: Pcg64,
    xs: Seq<T>,
)
    requires
        drawn(n, narrow, from, to, xs),
        xs.len() > 0,
        !usable(uniform(pcg_stream(from, 0))),
        forall|k: nat| #[trigger] pcg_stream(later, k) == pcg_stream(from, k + 2),
    ensures
        drawn(n, narrow, later, to, xs),
{
    reveal(drawn);
    let at = choose|at: Seq<nat>| #[trigger] drawn_at(n, narrow, from, to, xs, at);
    let (a, b) = (numbers(from), numbers(later));
    assert forall|k: nat| #[trigger] pair(b, k) == pair(a, k + 1) by {
        assert(2 * (k + 1) == 2 * k + 2);
        assert(pcg_stream(later, 2 * k) == pcg_stream(from, 2 * k + 2));
        assert(pcg_stream(later, 2 * k + 1) == pcg_stream(from, 2 * k + 3));
    }
    assert(pair(a, 0).0 == uniform(pcg_stream(from, 0)));
    lemma_first_attempt_skipped(a, b, at);
    let less = one_less(at);
    assert forall|k: nat| #[trigger] pcg_stream(to, k) == pcg_stream(
        later,
        k + 2 * next_attempt(less),
    ) by {
        assert(pcg_stream(to, k) == pcg_stream(from, k + 2 * next_attempt(at)));
        assert(k + 2 * next_attempt(less) + 2 == k + 2 * next_attempt(at));
    }
    assert forall|k: int| 0 <= k < xs.len() implies call_ensures(
        narrow,
        (shaped(n, pair(numbers(later), less[k])),),
        #[trigger] xs[k],
    ) by {
        assert(at[k] > 0);
        assert(pair(b, less[k]) == pair(a, less[k] + 1));
    }
    assert(drawn_at(n, narrow, later, to, xs, less));
}

/// A pair of draws is made of the generator's next two numbers, where the first of them is usable,
/// and the generator goes on behind them.
pub proof fn law_pair_is_drawn_in_order(from: Pcg64, to: Pcg64, p: (u64, u64), j: nat)
    requires
        pair_drawn(from, to, Some(p)),
        usable(uniform(pcg_stream(from, 0))),
    ensures
        p.0 == uniform(pcg_stream(from, 0)),
        p.1 == uniform(pcg_stream(from, 1)),
        pcg_stream(to, j) == pcg_stream(from, j + 2),
{
    reveal(pair_drawn);
    let stream = numbers(from);
    let i = choose|i: nat|
        {
            &&& p == #[trigger] pair(numbers(from), i)
            &&& next_usable(numbers(from), 0, i)
            &&& advanced(from, to, i + 1)
        };
    assert(pair(stream, 0).0 == uniform(pcg_stream(from, 0)));
    if i > 0 {
        assert(!usable(pair(stream, 0).0 as int));
    }
}

} // verus!
