//! Synchronous overlap-add: stitching of consecutive converted chunks.
use vstd::prelude::*;

use crate::arith::{Arith, Num, Op, Rel};
use crate::exact::{lemma_integer, total, Reals};

verus! {

/// Chunk stitcher: searches the first `search` samples of a new tail for the offset that is
/// best correlated with the faded end of the previous chunk, then crossfades.
pub struct Sola<T> {
    /// Length of the crossfade, in samples.
    pub crossfade: usize,
    /// Largest offset that is tried.
    pub search: usize,
    /// The faded end of the previous chunk; `None` before the first chunk.
    pub buf: Option<Vec<T>>,
    /// Ramp-in weights.
    pub cur_strength: Vec<T>,
    /// Ramp-out weights.
    pub prev_strength: Vec<T>,
}

/// The angle of step `i` of a ramp of `len` steps: from zero to a right angle.
pub open spec fn ramp_angle<T>(n: Num<T>, i: int, len: int) -> T {
    n.times(
        n.over(n.plus(n.count(i as u64), n.ratio(1, 2)), n.count(len as u64)),
        n.over(n.pi(), n.integer(2)),
    )
}

/// Ramp-in weight: the squared sine.
pub open spec fn ramp_in<T>(n: Num<T>, i: int, len: int) -> T {
    n.times(n.sin(ramp_angle(n, i, len)), n.sin(ramp_angle(n, i, len)))
}

/// Ramp-out weight: the squared cosine.
pub open spec fn ramp_out<T>(n: Num<T>, i: int, len: int) -> T {
    n.times(n.cos(ramp_angle(n, i, len)), n.cos(ramp_angle(n, i, len)))
}

/// Step `i` of a ramp-out of `len` steps.
pub fn fading<T: Copy, O: Fn(Op<T>) -> T, G: Fn(T, T) -> Rel, Z: Fn(T) -> i128>(
    ar: &Arith<T, O, G, Z>,
    i: usize,
    len: usize,
) -> (r: T)
    requires
        ar.wf(),
    ensures
        r == ramp_out(ar.model@, i as int, len as int),
{
    let at = ar.plus(ar.count(i as u64), ar.ratio(1, 2));
    let right_angle = ar.over(ar.eval(Op::Pi), ar.integer(2));
    let c = ar.eval(Op::Cos(ar.times(ar.over(at, ar.count(len as u64)), right_angle)));
    ar.times(c, c)
}

/// `xs` weighted by `ws`, sample by sample.
pub open spec fn faded<T>(n: Num<T>, xs: Seq<T>, ws: Seq<T>) -> Seq<T> {
    Seq::new(xs.len(), |i: int| n.times(xs[i], ws[i]))
}

/// The correlation of the first `k` samples of `prev` with `tail` from `off` on.
pub open spec fn correlation<T>(n: Num<T>, tail: Seq<T>, prev: Seq<T>, off: int, k: nat) -> T
    decreases k,
{
    if k == 0 {
        n.zero()
    } else {
        n.plus(
            correlation(n, tail, prev, off, (k - 1) as nat),
            n.times(tail[off + k - 1], prev[k - 1]),
        )
    }
}

/// The energy of `k` samples of `tail` from `off` on.
pub open spec fn energy<T>(n: Num<T>, tail: Seq<T>, off: int, k: nat) -> T
    decreases k,
{
    if k == 0 {
        n.zero()
    } else {
        n.plus(
            energy(n, tail, off, (k - 1) as nat),
            n.times(tail[off + k - 1], tail[off + k - 1]),
        )
    }
}

/// The score of offset `off`: the correlation, normalized by the energy of the candidate.
pub open spec fn score<T>(n: Num<T>, tail: Seq<T>, prev: Seq<T>, off: int) -> T {
    n.over(
        correlation(n, tail, prev, off, prev.len()),
        n.plus(n.sqrt(energy(n, tail, off, prev.len())), n.ratio(1, 100_000_000)),
    )
}

/// The best of the offsets below `m`, with its score: a later offset wins only by a greater
/// score than any before it had.
pub open spec fn best_below<T>(n: Num<T>, tail: Seq<T>, prev: Seq<T>, m: nat) -> (int, T)
    decreases m,
{
    if m == 0 {
        (0, n.lowest())
    } else {
        let best = best_below(n, tail, prev, (m - 1) as nat);
        let s = score(n, tail, prev, m - 1);
        if n.gt(s, best.1) {
            (m - 1, s)
        } else {
            best
        }
    }
}

/// The energies of the offsets below `m`, added up.
pub open spec fn total_energy<T>(n: Num<T>, tail: Seq<T>, width: nat, m: nat) -> T
    decreases m,
{
    if m == 0 {
        n.zero()
    } else {
        n.plus(total_energy(n, tail, width, (m - 1) as nat), energy(n, tail, m - 1, width))
    }
}

/// Whether the searched region is silence: its mean energy is below a ten-thousandth.
pub open spec fn silent<T>(n: Num<T>, tail: Seq<T>, width: nat, search: nat) -> bool {
    n.lt(
        n.over(
            total_energy(n, tail, width, search + 1),
            n.plus(n.count(search as u64), n.integer(1)),
        ),
        n.ratio(1, 10_000),
    )
}

/// Where the emitted block starts in `tail`: the best offset of `0..=search`, or the middle
/// of that range in silence.
pub open spec fn stitch_offset<T>(n: Num<T>, tail: Seq<T>, prev: Seq<T>, search: nat) -> int {
    if silent(n, tail, prev.len(), search) {
        search as int / 2
    } else {
        best_below(n, tail, prev, search + 1).0
    }
}

/// `block` samples of `tail` from `off` on, the first of them crossfaded with `prev`.
pub open spec fn stitched<T>(
    n: Num<T>,
    tail: Seq<T>,
    prev: Seq<T>,
    cur: Seq<T>,
    off: int,
    block: nat,
) -> Seq<T> {
    Seq::new(
        block,
        |i: int|
            if i < prev.len() {
                n.plus(n.times(tail[off + i], cur[i]), prev[i])
            } else {
                tail[off + i]
            },
    )
}

/// The best offset is one of those that were tried.
pub proof fn lemma_best_in_range<T>(n: Num<T>, tail: Seq<T>, prev: Seq<T>, m: nat)
    ensures
        0 <= best_below(n, tail, prev, m).0,
        m > 0 ==> best_below(n, tail, prev, m).0 < m,
    decreases m,
{
    if m > 0 {
        lemma_best_in_range(n, tail, prev, (m - 1) as nat);
    }
}

/// The scores of the offsets in `0..=search` can be ordered: among themselves, `n` finds one
/// greater than another just when its rank is higher; and each is above the least finite number.
/// Nothing is asked of other numbers.
pub open spec fn scores_ordered<T>(
    n: Num<T>,
    tail: Seq<T>,
    prev: Seq<T>,
    search: nat,
    rank: spec_fn(T) -> int,
) -> bool {
    &&& forall|o: int, p: int|
        0 <= o <= search && 0 <= p <= search ==> (n.gt(
            #[trigger] score(n, tail, prev, o),
            #[trigger] score(n, tail, prev, p),
        ) <==> rank(score(n, tail, prev, o)) > rank(score(n, tail, prev, p)))
    &&& forall|o: int|
        0 <= o <= search ==> n.gt(#[trigger] score(n, tail, prev, o), n.lowest())
}

/// Outside silence the stitcher takes a best offset, and of several best ones the first: no
/// offset in the range scores higher than the chosen one, and every earlier one scores lower.
/// Behind the crossfade the emitted block is the tail from that offset on.
pub proof fn law_offset_is_first_best<T>(
    n: Num<T>,
    tail: Seq<T>,
    prev: Seq<T>,
    cur: Seq<T>,
    search: nat,
    block: nat,
    rank: spec_fn(T) -> int,
)
    requires
        scores_ordered(n, tail, prev, search, rank),
        !silent(n, tail, prev.len(), search),
    ensures
        ({
            let best = stitch_offset(n, tail, prev, search);
            &&& 0 <= best <= search
            &&& forall|off: int|
                0 <= off <= search ==> !n.gt(
                    #[trigger] score(n, tail, prev, off),
                    score(n, tail, prev, best),
                )
            &&& forall|off: int|
                0 <= off < best ==> n.gt(
                    score(n, tail, prev, best),
                    #[trigger] score(n, tail, prev, off),
                )
            &&& forall|i: int|
                prev.len() <= i < block ==> #[trigger] stitched(n, tail, prev, cur, best, block)[i]
                    == tail[best + i]
        }),
{
    lemma_best_ranks(n, tail, prev, search, search + 1, rank);
}

proof fn lemma_best_ranks<T>(
    n: Num<T>,
    tail: Seq<T>,
    prev: Seq<T>,
    search: nat,
    m: nat,
    rank: spec_fn(T) -> int,
)
    requires
        scores_ordered(n, tail, prev, search, rank),
        0 < m <= search + 1,
    ensures
        ({
            let best = best_below(n, tail, prev, m);
            &&& 0 <= best.0 < m
            &&& best.1 == score(n, tail, prev, best.0)
            &&& forall|off: int|
                0 <= off < m ==> rank(#[trigger] score(n, tail, prev, off)) <= rank(best.1)
            &&& forall|off: int|
                0 <= off < best.0 ==> rank(#[trigger] score(n, tail, prev, off)) < rank(best.1)
        }),
    decreases m,
{
    let s = score(n, tail, prev, m - 1);
    if m == 1 {
        assert(best_below(n, tail, prev, 0) == (0int, n.lowest()));
        assert(n.gt(s, n.lowest()));
    } else {
        lemma_best_ranks(n, tail, prev, search, (m - 1) as nat, rank);
        let best = best_below(n, tail, prev, (m - 1) as nat);
        assert(n.gt(s, score(n, tail, prev, best.0)) <==> rank(s) > rank(best.1));
    }
}

/// The two ramps of `len` steps add up to one, and weighting `c` by them is exact.
pub open spec fn ramps_complement<T>(n: Num<T>, c: T, len: int) -> bool {
    &&& n.times(c, n.integer(1)) == c
    &&& forall|i: int|
        0 <= i < len ==> {
            let a = #[trigger] ramp_in(n, i, len);
            let b = ramp_out(n, i, len);
            &&& n.plus(a, b) == n.integer(1)
            &&& n.plus(n.times(c, a), n.times(c, b)) == n.times(c, n.plus(a, b))
        }
}

/// `len` samples of one value.
pub open spec fn steady<T>(c: T, len: nat) -> Seq<T> {
    Seq::new(len, |i: int| c)
}

/// A steady signal passes the crossfade unchanged, where the two ramps add up to one: every block
/// but the first is steady at the same value, and the stitcher stays primed with it.
pub proof fn law_steady_signal_passes<T: Copy>(
    n: Num<T>,
    c: T,
    before: Sola<T>,
    tail: Seq<T>,
    after: Sola<T>,
    r: Option<Vec<T>>,
)
    requires
        before.wf(),
        before.ramps(n),
        before.crossfade + before.search <= tail.len(),
        tail == steady(c, tail.len()),
        before.buf matches Some(b) ==> b@ == faded(
            n,
            steady(c, before.crossfade as nat),
            before.prev_strength@,
        ),
        before.stitches(n, tail, after, r),
        ramps_complement(n, c, before.crossfade as int),
    ensures
        r matches Some(out) ==> out@ == steady(
            c,
            (tail.len() - before.crossfade - before.search) as nat,
        ),
        r is Some <==> before.buf is Some,
        after.buf matches Some(b) && b@ == faded(
            n,
            steady(c, before.crossfade as nat),
            before.prev_strength@,
        ),
{
    let cf = before.crossfade as int;
    match before.buf {
        None => {
            assert(tail.skip(tail.len() - cf) =~= steady(c, cf as nat));
        },
        Some(prev) => {
            let off = stitch_offset(n, tail, prev@, before.search as nat);
            let block = (tail.len() - cf - before.search) as nat;
            assert(tail.subrange(off + block, off + block + cf) =~= steady(c, cf as nat));
            let out = stitched(n, tail, prev@, before.cur_strength@, off, block);
            assert forall|i: int| 0 <= i < block implies #[trigger] out[i] == c by {
                if i < cf {
                    assert(ramp_in(n, i, cf) == before.cur_strength@[i]);
                    assert(prev@[i] == n.times(c, ramp_out(n, i, cf)));
                }
            }
            assert(out =~= steady(c, block));
        },
    }
}

impl<T: Copy> Sola<T> {
    /// The ramps and the faded end of the previous chunk are as long as the crossfade.
    pub open spec fn wf(&self) -> bool {
        &&& self.cur_strength@.len() == self.crossfade
        &&& self.prev_strength@.len() == self.crossfade
        &&& self.buf matches Some(b) ==> b@.len() == self.crossfade
    }

    /// Two stitchers with the same ramps and the same end of the previous chunk.
    pub open spec fn alike(self, other: Self) -> bool {
        &&& self.crossfade == other.crossfade
        &&& self.search == other.search
        &&& self.cur_strength@ == other.cur_strength@
        &&& self.prev_strength@ == other.prev_strength@
        &&& match (self.buf, other.buf) {
            (Some(a), Some(b)) => a@ == b@,
            (None, None) => true,
            _ => false,
        }
    }

    /// The ramps are the squared sine and the squared cosine.
    pub open spec fn ramps(&self, n: Num<T>) -> bool {
        &&& self.cur_strength@ == Seq::new(
            self.crossfade as nat,
            |i: int| ramp_in(n, i, self.crossfade as int),
        )
        &&& self.prev_strength@ == Seq::new(
            self.crossfade as nat,
            |i: int| ramp_out(n, i, self.crossfade as int),
        )
    }

    /// What the stitcher makes of the newest converted audio `tail`: it becomes `next` and gives
    /// `r`.
    pub open spec fn stitches(self, n: Num<T>, tail: Seq<T>, next: Self, r: Option<Vec<T>>) -> bool {
        &&& next.crossfade == self.crossfade
        &&& next.search == self.search
        &&& next.cur_strength == self.cur_strength
        &&& next.prev_strength == self.prev_strength
        &&& next.buf is Some
        &&& match self.buf {
            None => {
                &&& r is None
                &&& next.buf->Some_0@ == faded(
                    n,
                    tail.skip(tail.len() - self.crossfade),
                    self.prev_strength@,
                )
            },
            Some(prev) => {
                let off = stitch_offset(n, tail, prev@, self.search as nat);
                let block = (tail.len() - self.crossfade - self.search) as nat;
                &&& 0 <= off <= self.search
                &&& r is Some
                &&& r->Some_0@ == stitched(n, tail, prev@, self.cur_strength@, off, block)
                &&& next.buf->Some_0@ == faded(
                    n,
                    tail.subrange(off + block, off + block + self.crossfade),
                    self.prev_strength@,
                )
            },
        }
    }

    /// A stitcher without a previous chunk.
    pub fn new<O: Fn(Op<T>) -> T, G: Fn(T, T) -> Rel, Z: Fn(T) -> i128>(
        ar: &Arith<T, O, G, Z>,
        crossfade: usize,
        search: usize,
    ) -> (s: Self)
        requires
            ar.wf(),
        ensures
            s.wf(),
            s.crossfade == crossfade,
            s.search == search,
            s.buf is None,
            s.ramps(ar.model@),
    {
        let mut cur: Vec<T> = Vec::new();
        let mut prev: Vec<T> = Vec::new();
        let half = ar.ratio(1, 2);
        let len = ar.count(crossfade as u64);
        let right_angle = {
            let pi = ar.eval(Op::Pi);
            let two = ar.integer(2);
            ar.over(pi, two)
        };
        let mut i: usize = 0;
        while i < crossfade
            invariant
                ar.wf(),
                i <= crossfade,
                half == ar.model@.ratio(1, 2),
                len == ar.model@.count(crossfade as u64),
                right_angle == ar.model@.over(ar.model@.pi(), ar.model@.integer(2)),
                cur@ == Seq::new(i as nat, |j: int| ramp_in(ar.model@, j, crossfade as int)),
                prev@ == Seq::new(i as nat, |j: int| ramp_out(ar.model@, j, crossfade as int)),
            decreases crossfade - i,
        {
            let at = ar.plus(ar.count(i as u64), half);
            let t = ar.times(ar.over(at, len), right_angle);
            let s = ar.eval(Op::Sin(t));
            let c = ar.eval(Op::Cos(t));
            cur.push(ar.times(s, s));
            prev.push(ar.times(c, c));
            i += 1;
        }
        Sola { crossfade, search, buf: None, cur_strength: cur, prev_strength: prev }
    }

    /// `len` samples of `tail` from `start` on, weighted by the ramp-out.
    fn fade_out<O: Fn(Op<T>) -> T, G: Fn(T, T) -> Rel, Z: Fn(T) -> i128>(
        &self,
        ar: &Arith<T, O, G, Z>,
        tail: &[T],
        start: usize,
    ) -> (r: Vec<T>)
        requires
            ar.wf(),
            self.wf(),
            start + self.crossfade <= tail@.len(),
        ensures
            r@ == faded(
                ar.model@,
                tail@.subrange(start as int, start + self.crossfade),
                self.prev_strength@,
            ),
    {
        let ghost part = tail@.subrange(start as int, start + self.crossfade);
        let mut r: Vec<T> = Vec::new();
        let mut i: usize = 0;
        while i < self.crossfade
            invariant
                ar.wf(),
                self.wf(),
                start + self.crossfade <= tail@.len(),
                i <= self.crossfade,
                part == tail@.subrange(start as int, start + self.crossfade),
                r@ == faded(ar.model@, part, self.prev_strength@).take(i as int),
            decreases self.crossfade - i,
        {
            r.push(ar.times(tail[start + i], self.prev_strength[i]));
            i += 1;
        }
        r
    }

    /// The offset at which `tail` continues `prev`.
    fn find_offset<O: Fn(Op<T>) -> T, G: Fn(T, T) -> Rel, Z: Fn(T) -> i128>(
        &self,
        ar: &Arith<T, O, G, Z>,
        tail: &[T],
        prev: &Vec<T>,
    ) -> (off: usize)
        requires
            ar.wf(),
            prev@.len() == self.crossfade,
            self.crossfade + self.search <= tail@.len(),
        ensures
            off == stitch_offset(ar.model@, tail@, prev@, self.search as nat),
            off <= self.search,
    {
        let ghost n = ar.model@;
        let tiny = ar.ratio(1, 100_000_000);
        let mut best_off: usize = 0;
        let mut best = ar.eval(Op::Lowest);
        let mut total = ar.zero();
        let len: usize = tail.len();
        let mut off: usize = 0;
        let mut tried_all = false;
        while !tried_all
            invariant
                ar.wf(),
                n == ar.model@,
                tiny == n.ratio(1, 100_000_000),
                prev@.len() == self.crossfade,
                len == tail@.len(),
                self.crossfade + self.search <= len,
                off <= self.search,
                tried_all ==> off == self.search,
                ({
                    let m = if tried_all {
                        (off + 1) as nat
                    } else {
                        off as nat
                    };
                    &&& (best_off as int, best) == best_below(n, tail@, prev@, m)
                    &&& total == total_energy(n, tail@, prev@.len(), m)
                }),
            decreases self.search - off + if tried_all {
                0int
            } else {
                1int
            },
        {
            let mut nom = ar.zero();
            let mut den = ar.zero();
            let mut i: usize = 0;
            while i < self.crossfade
                invariant
                    ar.wf(),
                    n == ar.model@,
                    prev@.len() == self.crossfade,
                    len == tail@.len(),
                    self.crossfade + self.search <= len,
                    off <= self.search,
                    i <= self.crossfade,
                    nom == correlation(n, tail@, prev@, off as int, i as nat),
                    den == energy(n, tail@, off as int, i as nat),
                decreases self.crossfade - i,
            {
                let x = tail[off + i];
                nom = ar.plus(nom, ar.times(x, prev[i]));
                den = ar.plus(den, ar.times(x, x));
                i += 1;
            }
            total = ar.plus(total, den);
            let s = ar.over(nom, ar.plus(ar.eval(Op::Sqrt(den)), tiny));
            assert(s == score(n, tail@, prev@, off as int));
            if ar.gt(s, best) {
                best = s;
                best_off = off;
            }
            if off == self.search {
                tried_all = true;
            } else {
                off += 1;
            }
        }
        let steps = ar.plus(ar.count(self.search as u64), ar.integer(1));
        let floor = ar.ratio(1, 10_000);
        proof {
            lemma_best_in_range(n, tail@, prev@, (self.search + 1) as nat);
        }
        if ar.lt(ar.over(total, steps), floor) {
            self.search / 2
        } else {
            best_off
        }
    }

    /// Takes the newest converted audio, laid out as a block, a crossfade and a search range.
    /// Gives the stitched block, or `None` on the first call, which only primes the stitcher.
    pub fn process<O: Fn(Op<T>) -> T, G: Fn(T, T) -> Rel, Z: Fn(T) -> i128>(
        &mut self,
        ar: &Arith<T, O, G, Z>,
        tail: &[T],
    ) -> (r: Option<Vec<T>>)
        requires
            ar.wf(),
            old(self).wf(),
            old(self).crossfade + old(self).search <= tail@.len(),
        ensures
            final(self).wf(),
            old(self).stitches(ar.model@, tail@, *final(self), r),
    {
        let ghost n = ar.model@;
        let len: usize = tail.len();
        let block: usize = len - self.crossfade - self.search;
        match self.buf.take() {
            None => {
                let start: usize = len - self.crossfade;
                let next = self.fade_out(ar, tail, start);
                assert(tail@.skip(start as int) =~= tail@.subrange(
                    start as int,
                    start + self.crossfade,
                ));
                self.buf = Some(next);
                None
            },
            Some(prev) => {
                let off = self.find_offset(ar, tail, &prev);
                let mut out: Vec<T> = Vec::new();
                let mut i: usize = 0;
                let ghost whole = stitched(n, tail@, prev@, self.cur_strength@, off as int, block as nat);
                while i < block
                    invariant
                        ar.wf(),
                        n == ar.model@,
                        prev@.len() == self.crossfade,
                        self.cur_strength@.len() == self.crossfade,
                        len == tail@.len(),
                        block + self.crossfade + self.search == len,
                        off <= self.search,
                        i <= block,
                        whole == stitched(
                            n,
                            tail@,
                            prev@,
                            self.cur_strength@,
                            off as int,
                            block as nat,
                        ),
                        out@ == whole.take(i as int),
                    decreases block - i,
                {
                    let x = tail[off + i];
                    if i < self.crossfade {
                        out.push(ar.plus(ar.times(x, self.cur_strength[i]), prev[i]));
                    } else {
                        out.push(x);
                    }
                    i += 1;
                }
                assert(out@ =~= whole);
                let next = self.fade_out(ar, tail, off + block);
                self.buf = Some(next);
                Some(out)
            },
        }
    }
}

/// Two stitchers that are alike stitch alike, and are alike afterwards.
pub proof fn law_stitching_is_a_function<T: Copy>(
    n: Num<T>,
    one: Sola<T>,
    other: Sola<T>,
    tail: Seq<T>,
    next: Sola<T>,
    other_next: Sola<T>,
    r: Option<Vec<T>>,
    other_r: Option<Vec<T>>,
)
    requires
        one.alike(other),
        one.stitches(n, tail, next, r),
        other.stitches(n, tail, other_next, other_r),
    ensures
        next.alike(other_next),
        r is Some <==> other_r is Some,
        r is Some ==> r->Some_0@ == other_r->Some_0@,
{
}

/// The energy of `width` samples from `off` on: the sum of their squares.
pub open spec fn loudness<T>(m: Reals<T>, tail: Seq<T>, off: int, width: nat) -> real {
    total(|i: int| m.of(tail[off + i]) * m.of(tail[off + i]), width)
}

/// The sum of the products of `width` samples of `prev` with those from `off` on.
pub open spec fn agreement<T>(
    m: Reals<T>,
    tail: Seq<T>,
    prev: Seq<T>,
    off: int,
    width: nat,
) -> real {
    total(|i: int| m.of(tail[off + i]) * m.of(prev[i]), width)
}

/// How well the samples from `off` on go on with `prev`: their agreement, by the root of their
/// energy.
pub open spec fn likeness<T>(m: Reals<T>, tail: Seq<T>, prev: Seq<T>, off: int) -> real {
    agreement(m, tail, prev, off, prev.len()) / ((m.root)(loudness(m, tail, off, prev.len())) + 1real
        / 100000000real)
}

/// The mean energy over the offsets `0..=search`.
pub open spec fn mean_loudness<T>(m: Reals<T>, tail: Seq<T>, width: nat, search: nat) -> real {
    total(|o: int| loudness(m, tail, o, width), search + 1) / ((search + 1) as real)
}

/// `off` is the first of the offsets `0..=search` that go on best with `prev`.
pub open spec fn goes_on_best<T>(
    m: Reals<T>,
    tail: Seq<T>,
    prev: Seq<T>,
    search: nat,
    off: int,
) -> bool {
    &&& 0 <= off <= search
    &&& forall|o: int|
        0 <= o <= search ==> #[trigger] likeness(m, tail, prev, o) <= likeness(m, tail, prev, off)
    &&& forall|o: int|
        0 <= o < off ==> #[trigger] likeness(m, tail, prev, o) < likeness(m, tail, prev, off)
}

/// How far step `i` of a crossfade of `len` steps has come, from zero to one: along half a wave.
pub open spec fn rise<T>(m: Reals<T>, i: int, len: int) -> real {
    (1real - (m.cosine)(m.circle * ((2real * (i as real) + 1real) / (2real * (len as real)))))
        / 2real
}

/// What stitching at `off` is: the block is the tail from there on; over the crossfade it rises
/// while the end of the previous chunk, which has been faded, is added to it. The samples behind
/// the block are faded for the next chunk.
pub open spec fn stitched_at<T: Copy>(
    m: Reals<T>,
    before: Sola<T>,
    tail: Seq<T>,
    prev: Seq<T>,
    off: int,
    after: Sola<T>,
    block: Seq<T>,
) -> bool {
    let cf = before.crossfade as int;
    &&& 0 <= off <= before.search
    &&& block.len() == tail.len() - cf - before.search
    &&& forall|i: int| cf <= i < block.len() ==> #[trigger] block[i] == tail[off + i]
    &&& forall|i: int|
        0 <= i < cf && i < block.len() ==> m.of(#[trigger] block[i]) == m.of(tail[off + i]) * rise(
            m,
            i,
            cf,
        ) + m.of(prev[i])
    &&& after.buf matches Some(next) && next@.len() == cf && forall|i: int|
        0 <= i < cf ==> m.of(#[trigger] next@[i]) == m.of(tail[off + block.len() + i]) * (1real
            - rise(m, i, cf))
}

/// The ramps by value: they rise and fall along half a wave, and add up to one.
pub proof fn lemma_ramp_values<T>(n: Num<T>, m: Reals<T>, i: int, len: int)
    requires
        m.computes(n),
        m.angles(n),
        0 <= i < len <= u64::MAX,
    ensures
        m.of(ramp_in(n, i, len)) == rise(m, i, len),
        m.of(ramp_out(n, i, len)) == 1real - rise(m, i, len),
{
    lemma_integer(n, m, 2);
    let x = m.of(ramp_angle(n, i, len));
    let (a, b) = (i as real, len as real);
    let half = n.ratio(1, 2);
    assert(m.of(half) == (1i64 as real) / (2i64 as real));
    assert(m.of(n.count(i as u64)) == a);
    assert(m.of(n.count(len as u64)) == b);
    let p = m.circle;
    assert(x == ((a + 1real / 2real) / b) * (p / 2real));
    assert(2real * x == p * ((2real * a + 1real) / (2real * b))) by (nonlinear_arith)
        requires
            x == ((a + 1real / 2real) / b) * (p / 2real),
            b >= 1real,
    ;
    let (s, c) = ((m.sine)(x), (m.cosine)(x));
    assert((m.cosine)(2real * x) == 2real * (c * c) - 1real);
    assert(s * s + c * c == 1real);
    assert(m.of(ramp_in(n, i, len)) == s * s);
    assert(m.of(ramp_out(n, i, len)) == c * c);
}

proof fn lemma_energy_value<T>(n: Num<T>, m: Reals<T>, tail: Seq<T>, off: int, k: nat)
    requires
        m.computes(n),
    ensures
        m.of(energy(n, tail, off, k)) == loudness(m, tail, off, k),
        loudness(m, tail, off, k) >= 0real,
    decreases k,
{
    lemma_integer(n, m, 0);
    if k > 0 {
        lemma_energy_value(n, m, tail, off, (k - 1) as nat);
        let x = m.of(tail[off + k - 1]);
        assert(x * x >= 0real) by (nonlinear_arith);
    }
}

proof fn lemma_correlation_value<T>(
    n: Num<T>,
    m: Reals<T>,
    tail: Seq<T>,
    prev: Seq<T>,
    off: int,
    k: nat,
)
    requires
        m.computes(n),
    ensures
        m.of(correlation(n, tail, prev, off, k)) == agreement(m, tail, prev, off, k),
    decreases k,
{
    lemma_integer(n, m, 0);
    if k > 0 {
        lemma_correlation_value(n, m, tail, prev, off, (k - 1) as nat);
    }
}

proof fn lemma_total_energy_value<T>(n: Num<T>, m: Reals<T>, tail: Seq<T>, width: nat, k: nat)
    requires
        m.computes(n),
    ensures
        m.of(total_energy(n, tail, width, k)) == total(|o: int| loudness(m, tail, o, width), k),
    decreases k,
{
    lemma_integer(n, m, 0);
    if k > 0 {
        lemma_total_energy_value(n, m, tail, width, (k - 1) as nat);
        lemma_energy_value(n, m, tail, k - 1, width);
    }
}

proof fn lemma_score_value<T>(n: Num<T>, m: Reals<T>, tail: Seq<T>, prev: Seq<T>, off: int)
    requires
        m.computes(n),
        m.roots(n),
    ensures
        m.of(score(n, tail, prev, off)) == likeness(m, tail, prev, off),
{
    lemma_energy_value(n, m, tail, off, prev.len());
    lemma_correlation_value(n, m, tail, prev, off, prev.len());
    let e = loudness(m, tail, off, prev.len());
    assert((m.root)(e) >= 0real);
    assert(m.of(n.ratio(1, 100_000_000)) == (1i64 as real) / (100_000_000i64 as real));
    assert(1real / 100000000real > 0real) by (nonlinear_arith);
}

/// The best offset below `k` by value.
proof fn lemma_best_value<T>(n: Num<T>, m: Reals<T>, tail: Seq<T>, prev: Seq<T>, k: nat)
    requires
        m.computes(n),
        m.orders(n),
        m.roots(n),
        k > 0,
        forall|o: int| 0 <= o < k ==> m.of(n.lowest()) < #[trigger] likeness(m, tail, prev, o),
    ensures
        m.of(best_below(n, tail, prev, k).1) == likeness(
            m,
            tail,
            prev,
            best_below(n, tail, prev, k).0,
        ),
        goes_on_best(m, tail, prev, (k - 1) as nat, best_below(n, tail, prev, k).0),
    decreases k,
{
    lemma_score_value(n, m, tail, prev, k - 1);
    let s = score(n, tail, prev, k - 1);
    assert(m.of(s) == likeness(m, tail, prev, k - 1));
    if k > 1 {
        lemma_best_value(n, m, tail, prev, (k - 1) as nat);
        let best = best_below(n, tail, prev, (k - 1) as nat);
        assert forall|o: int| 0 <= o < k implies #[trigger] likeness(m, tail, prev, o) <= likeness(
            m,
            tail,
            prev,
            best_below(n, tail, prev, k).0,
        ) by {
            if o < k - 1 {
                assert(likeness(m, tail, prev, o) <= likeness(m, tail, prev, best.0));
            }
        }
        assert forall|o: int|
            0 <= o < best_below(n, tail, prev, k).0 implies #[trigger] likeness(m, tail, prev, o)
            < likeness(m, tail, prev, best_below(n, tail, prev, k).0) by {
            assert(likeness(m, tail, prev, o) <= likeness(m, tail, prev, best.0));
        }
    } else {
        assert(best_below(n, tail, prev, 0) == (0int, n.lowest()));
    }
}

/// What silence is by value.
proof fn lemma_silence_value<T>(n: Num<T>, m: Reals<T>, tail: Seq<T>, width: nat, search: nat)
    requires
        m.computes(n),
        m.orders(n),
        search <= u64::MAX,
    ensures
        silent(n, tail, width, search) <==> mean_loudness(m, tail, width, search) < 1real
            / 10000real,
{
    lemma_total_energy_value(n, m, tail, width, search + 1);
    lemma_integer(n, m, 1);
    assert(m.of(n.count(search as u64)) == search as real);
    assert(m.of(n.ratio(1, 10_000)) == (1i64 as real) / (10_000i64 as real));
    assert((search + 1) as real == search as real + 1real);
}

/// Stitching at the chosen offset, by value.
proof fn lemma_stitched_value<T: Copy>(
    n: Num<T>,
    m: Reals<T>,
    before: Sola<T>,
    tail: Seq<T>,
    prev: Vec<T>,
    after: Sola<T>,
    r: Option<Vec<T>>,
)
    requires
        m.computes(n),
        m.angles(n),
        before.wf(),
        before.ramps(n),
        before.buf == Some(prev),
        before.crossfade + before.search <= tail.len(),
        before.stitches(n, tail, after, r),
    ensures
        r matches Some(block) && stitched_at(
            m,
            before,
            tail,
            prev@,
            stitch_offset(n, tail, prev@, before.search as nat),
            after,
            block@,
        ),
{
    let cf = before.crossfade as int;
    let off = stitch_offset(n, tail, prev@, before.search as nat);
    let block = r->Some_0@;
    assert forall|i: int| 0 <= i < cf && i < block.len() implies m.of(#[trigger] block[i]) == m.of(
        tail[off + i],
    ) * rise(m, i, cf) + m.of(prev@[i]) by {
        lemma_ramp_values(n, m, i, cf);
        assert(before.cur_strength@[i] == ramp_in(n, i, cf));
    }
    let next = after.buf->Some_0@;
    assert forall|i: int| 0 <= i < cf implies m.of(#[trigger] next[i]) == m.of(
        tail[off + block.len() + i],
    ) * (1real - rise(m, i, cf)) by {
        lemma_ramp_values(n, m, i, cf);
        assert(before.prev_strength@[i] == ramp_out(n, i, cf));
    }
}

/// Sound is searched: where the mean energy over the offsets is not below one ten-thousandth, the
/// block starts at the first of the offsets that go on best with the previous chunk, whatever the
/// length of the crossfade.
pub proof fn law_sound_is_stitched_where_it_goes_on_best<T: Copy>(
    n: Num<T>,
    m: Reals<T>,
    before: Sola<T>,
    tail: Seq<T>,
    prev: Vec<T>,
    after: Sola<T>,
    r: Option<Vec<T>>,
)
    requires
        m.computes(n),
        m.orders(n),
        m.roots(n),
        m.angles(n),
        before.wf(),
        before.ramps(n),
        before.buf == Some(prev),
        before.crossfade + before.search <= tail.len(),
        before.stitches(n, tail, after, r),
        mean_loudness(m, tail, before.crossfade as nat, before.search as nat) >= 1real / 10000real,
        forall|o: int|
            0 <= o <= before.search ==> m.of(n.lowest()) < #[trigger] likeness(m, tail, prev@, o),
    ensures
        r matches Some(block) && exists|off: int| #[trigger]
            goes_on_best(m, tail, prev@, before.search as nat, off) && stitched_at(
                m,
                before,
                tail,
                prev@,
                off,
                after,
                block@,
            ),
{
    let search = before.search as nat;
    lemma_silence_value(n, m, tail, prev@.len(), search);
    lemma_best_value(n, m, tail, prev@, search + 1);
    lemma_stitched_value(n, m, before, tail, prev, after, r);
}

/// Silence is anchored: where the mean energy over the offsets is below one ten-thousandth, the
/// block starts in the middle of the searched range.
pub proof fn law_silence_is_stitched_in_the_middle<T: Copy>(
    n: Num<T>,
    m: Reals<T>,
    before: Sola<T>,
    tail: Seq<T>,
    prev: Vec<T>,
    after: Sola<T>,
    r: Option<Vec<T>>,
)
    requires
        m.computes(n),
        m.orders(n),
        m.angles(n),
        before.wf(),
        before.ramps(n),
        before.buf == Some(prev),
        before.crossfade + before.search <= tail.len(),
        before.stitches(n, tail, after, r),
        mean_loudness(m, tail, before.crossfade as nat, before.search as nat) < 1real / 10000real,
    ensures
        r matches Some(block) && exists|off: int|
            2 * off <= before.search < 2 * off + 2 && #[trigger] stitched_at(
                m,
                before,
                tail,
                prev@,
                off,
                after,
                block@,
            ),
{
    lemma_silence_value(n, m, tail, prev@.len(), before.search as nat);
    lemma_stitched_value(n, m, before, tail, prev, after, r);
}

/// The first chunk gives nothing; its end is faded for the next one.
pub proof fn law_first_chunk_only_primes<T: Copy>(
    n: Num<T>,
    m: Reals<T>,
    before: Sola<T>,
    tail: Seq<T>,
    after: Sola<T>,
    r: Option<Vec<T>>,
)
    requires
        m.computes(n),
        m.angles(n),
        before.wf(),
        before.ramps(n),
        before.buf is None,
        before.crossfade + before.search <= tail.len(),
        before.stitches(n, tail, after, r),
    ensures
        r is None,
        ({
            let cf = before.crossfade as int;
            after.buf matches Some(next) && next@.len() == cf && forall|i: int|
                0 <= i < cf ==> m.of(#[trigger] next@[i]) == m.of(tail[tail.len() - cf + i]) * (
                1real - rise(m, i, cf))
        }),
{
    let cf = before.crossfade as int;
    let next = after.buf->Some_0@;
    assert forall|i: int| 0 <= i < cf implies m.of(#[trigger] next[i]) == m.of(
        tail[tail.len() - cf + i],
    ) * (1real - rise(m, i, cf)) by {
        lemma_ramp_values(n, m, i, cf);
        assert(before.prev_strength@[i] == ramp_out(n, i, cf));
    }
}

proof fn lemma_no_best<T>(n: Num<T>, tail: Seq<T>, prev: Seq<T>, k: nat)
    requires
        forall|a: T, b: T| #[trigger] (n.rel)(a, b) == Rel::Unordered,
    ensures
        best_below(n, tail, prev, k).0 == 0,
    decreases k,
{
    if k > 0 {
        lemma_no_best(n, tail, prev, (k - 1) as nat);
    }
}

/// What cannot be compared is neither silence nor better than anything: it is stitched where it
/// begins.
pub proof fn law_incomparable_sound_is_stitched_where_it_begins<T>(
    n: Num<T>,
    tail: Seq<T>,
    prev: Seq<T>,
    search: nat,
)
    requires
        forall|a: T, b: T| #[trigger] (n.rel)(a, b) == Rel::Unordered,
    ensures
        stitch_offset(n, tail, prev, search) == 0,
{
    lemma_no_best(n, tail, prev, search + 1);
}

} // verus!
