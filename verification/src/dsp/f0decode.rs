//! Decoding of the pitch estimator's output into fundamental frequencies.
use vstd::prelude::*;

use crate::arith::{bounded, Arith, Num, Op, Rel};
use crate::dsp::table::rows_of;
use crate::exact::{lemma_integer, total, Reals};

verus! {

/// How many bins around the strongest one are averaged.
pub const TAPS: usize = 9;

/// Decoder from pitch-class activations to frequencies.
pub struct F0Decoder<T> {
    /// The pitch of every bin, in cents above 10 Hz.
    pub cent_table: Vec<T>,
}

/// The strongest of the first `m` bins, with its value: the first one that is above all bins
/// before it.
pub open spec fn strongest<T>(n: Num<T>, row: Seq<T>, m: nat) -> (int, T)
    decreases m,
{
    if m == 0 {
        (0, n.lowest())
    } else {
        let best = strongest(n, row, (m - 1) as nat);
        if n.gt(row[m - 1], best.1) {
            (m - 1, row[m - 1])
        } else {
            best
        }
    }
}

/// The bin of tap `k` around bin `at`: four bins below to four bins above, kept inside the
/// table.
pub open spec fn tap(at: int, k: int, bins: int) -> int {
    bounded(at - 4 + k, 0, bins - 1)
}

/// The pitches of the first `k` taps, weighted by their activations and added up.
pub open spec fn weighted_cents<T>(n: Num<T>, table: Seq<T>, row: Seq<T>, at: int, k: nat) -> T
    decreases k,
{
    if k == 0 {
        n.zero()
    } else {
        let i = tap(at, k - 1, table.len() as int);
        n.plus(weighted_cents(n, table, row, at, (k - 1) as nat), n.times(table[i], row[i]))
    }
}

/// The activations of the first `k` taps, added up.
pub open spec fn tap_weight<T>(n: Num<T>, bins: int, row: Seq<T>, at: int, k: nat) -> T
    decreases k,
{
    if k == 0 {
        n.zero()
    } else {
        n.plus(tap_weight(n, bins, row, at, (k - 1) as nat), row[tap(at, k - 1, bins)])
    }
}

/// The frequency of one frame: zero where the strongest bin does not exceed the threshold,
/// else the weighted mean pitch around it.
pub open spec fn frequency<T>(n: Num<T>, table: Seq<T>, row: Seq<T>, threshold: T) -> T {
    let best = strongest(n, row, row.len());
    let cents = n.over(
        weighted_cents(n, table, row, best.0, TAPS as nat),
        tap_weight(n, table.len() as int, row, best.0, TAPS as nat),
    );
    if n.le(best.1, threshold) {
        n.zero()
    } else {
        n.times(n.integer(10), n.exp2(n.over(cents, n.integer(1200))))
    }
}

/// The frequency of every frame.
pub open spec fn frequencies<T>(n: Num<T>, table: Seq<T>, rows: Seq<Seq<T>>, threshold: T) -> Seq<
    T,
> {
    Seq::new(rows.len(), |t: int| frequency(n, table, rows[t], threshold))
}

/// Every tap that decoding `row` reads is there.
pub open spec fn decodable<T>(n: Num<T>, bins: int, row: Seq<T>) -> bool {
    &&& bins > 0
    &&& tap(strongest(n, row, row.len()).0, TAPS - 1, bins) < row.len()
}

/// The strongest bin is one of the bins.
pub proof fn lemma_strongest_in_range<T>(n: Num<T>, row: Seq<T>, m: nat)
    ensures
        0 <= strongest(n, row, m).0,
        m > 0 ==> strongest(n, row, m).0 < m,
    decreases m,
{
    if m > 0 {
        lemma_strongest_in_range(n, row, (m - 1) as nat);
    }
}

/// Every frame of `rows` can be decoded.
pub open spec fn all_decodable<T>(n: Num<T>, bins: int, rows: Seq<Seq<T>>) -> bool {
    forall|t: int| 0 <= t < rows.len() ==> decodable(n, bins, #[trigger] rows[t])
}

/// `bounded(at - 4 + k, 0, bins - 1)`.
fn tap_index(at: usize, k: usize, bins: usize) -> (r: usize)
    requires
        bins > 0,
        k < TAPS,
    ensures
        r == tap(at as int, k as int, bins as int),
{
    let last: usize = bins - 1;
    if k < 4 {
        let below: usize = 4 - k;
        if at <= below {
            0
        } else if at - below > last {
            last
        } else {
            at - below
        }
    } else {
        let above: usize = k - 4;
        if at >= last || last - at <= above {
            last
        } else {
            at + above
        }
    }
}

/// The strongest bin of a frame, with its value.
fn find_strongest<T: Copy, O: Fn(Op<T>) -> T, G: Fn(T, T) -> Rel, Z: Fn(T) -> i128>(
    ar: &Arith<T, O, G, Z>,
    row: &Vec<T>,
) -> (r: (usize, T))
    requires
        ar.wf(),
    ensures
        (r.0 as int, r.1) == strongest(ar.model@, row@, row@.len()),
{
    let ghost n = ar.model@;
    let mut max_i: usize = 0;
    let mut max_v = ar.eval(Op::Lowest);
    let mut i: usize = 0;
    while i < row.len()
        invariant
            ar.wf(),
            n == ar.model@,
            i <= row@.len(),
            (max_i as int, max_v) == strongest(n, row@, i as nat),
        decreases row@.len() - i,
    {
        let v = row[i];
        if ar.gt(v, max_v) {
            max_v = v;
            max_i = i;
        }
        i += 1;
    }
    (max_i, max_v)
}

impl<T: Copy> F0Decoder<T> {
    /// Whether every frame of `latent` can be decoded.
    pub fn can_decode<O: Fn(Op<T>) -> T, G: Fn(T, T) -> Rel, Z: Fn(T) -> i128>(
        &self,
        ar: &Arith<T, O, G, Z>,
        latent: &Vec<Vec<T>>,
    ) -> (r: bool)
        requires
            ar.wf(),
        ensures
            r == all_decodable(ar.model@, self.cent_table@.len() as int, rows_of(latent@)),
    {
        let ghost n = ar.model@;
        let ghost rows = rows_of(latent@);
        let bins: usize = self.cent_table.len();
        let mut t: usize = 0;
        while t < latent.len()
            invariant
                ar.wf(),
                n == ar.model@,
                rows == rows_of(latent@),
                bins == self.cent_table@.len(),
                t <= latent@.len(),
                forall|j: int| 0 <= j < t ==> decodable(n, bins as int, #[trigger] rows[j]),
            decreases latent@.len() - t,
        {
            assert(rows[t as int] == latent@[t as int]@);
            if bins == 0 {
                return false;
            }
            let (at, _) = find_strongest(ar, &latent[t]);
            if tap_index(at, TAPS - 1, bins) >= latent[t].len() {
                return false;
            }
            t += 1;
        }
        true
    }

    /// The frequency of one frame.
    fn decode_row<O: Fn(Op<T>) -> T, G: Fn(T, T) -> Rel, Z: Fn(T) -> i128>(
        &self,
        ar: &Arith<T, O, G, Z>,
        row: &Vec<T>,
        threshold: T,
    ) -> (r: T)
        requires
            ar.wf(),
            decodable(ar.model@, self.cent_table@.len() as int, row@),
        ensures
            r == frequency(ar.model@, self.cent_table@, row@, threshold),
    {
        let ghost n = ar.model@;
        let bins: usize = self.cent_table.len();
        let (max_i, max_v) = find_strongest(ar, row);
        let mut num = ar.zero();
        let mut den = ar.zero();
        let mut k: usize = 0;
        while k < TAPS
            invariant
                ar.wf(),
                n == ar.model@,
                bins == self.cent_table@.len(),
                bins > 0,
                tap(max_i as int, TAPS - 1, bins as int) < row@.len(),
                k <= TAPS,
                num == weighted_cents(n, self.cent_table@, row@, max_i as int, k as nat),
                den == tap_weight(n, bins as int, row@, max_i as int, k as nat),
            decreases TAPS - k,
        {
            let idx = tap_index(max_i, k, bins);
            num = ar.plus(num, ar.times(self.cent_table[idx], row[idx]));
            den = ar.plus(den, row[idx]);
            k += 1;
        }
        let cents = ar.over(num, den);
        if ar.le(max_v, threshold) {
            ar.zero()
        } else {
            let octaves = ar.over(cents, ar.integer(1200));
            ar.times(ar.integer(10), ar.eval(Op::Exp2(octaves)))
        }
    }

    /// The frequency of every frame of `latent`, in Hz; zero where the frame is unvoiced.
    pub fn decode<O: Fn(Op<T>) -> T, G: Fn(T, T) -> Rel, Z: Fn(T) -> i128>(
        &self,
        ar: &Arith<T, O, G, Z>,
        latent: &Vec<Vec<T>>,
        threshold: T,
    ) -> (r: Vec<T>)
        requires
            ar.wf(),
            all_decodable(ar.model@, self.cent_table@.len() as int, rows_of(latent@)),
        ensures
            r@ == frequencies(ar.model@, self.cent_table@, rows_of(latent@), threshold),
    {
        let mut r: Vec<T> = Vec::new();
        while r.len() < latent.len()
            invariant
                ar.wf(),
                all_decodable(ar.model@, self.cent_table@.len() as int, rows_of(latent@)),
                r@.len() <= latent@.len(),
                r@ == Seq::new(
                    r@.len(),
                    |t: int|
                        frequency(ar.model@, self.cent_table@, rows_of(latent@)[t], threshold),
                ),
            decreases latent@.len() - r@.len(),
        {
            let t: usize = r.len();
            assert(rows_of(latent@)[t as int] == latent@[t as int]@);
            r.push(self.decode_row(ar, &latent[t], threshold));
        }
        r
    }
}

/// Two frames have the same activations at the nine taps around bin `at`.
pub open spec fn same_taps<T>(row: Seq<T>, other: Seq<T>, at: int, bins: int) -> bool {
    forall|k: int|
        0 <= k < TAPS ==> row[#[trigger] tap(at, k, bins)] == other[tap(at, k, bins)]
}

/// The first `k` taps add up alike, where they are the same.
proof fn lemma_same_taps<T>(
    n: Num<T>,
    table: Seq<T>,
    row: Seq<T>,
    other: Seq<T>,
    at: int,
    k: nat,
)
    requires
        k <= TAPS,
        same_taps(row, other, at, table.len() as int),
    ensures
        weighted_cents(n, table, row, at, k) == weighted_cents(n, table, other, at, k),
        tap_weight(n, table.len() as int, row, at, k) == tap_weight(
            n,
            table.len() as int,
            other,
            at,
            k,
        ),
    decreases k,
{
    if k > 0 {
        lemma_same_taps(n, table, row, other, at, (k - 1) as nat);
        let i = tap(at, k - 1, table.len() as int);
        assert(row[i] == other[i]);
    }
}

/// Two frames with the same strongest bin and the same activations at the nine taps around it have
/// the same frequency, whatever the other bins hold.
pub proof fn law_frequency_sees_its_taps_alone<T>(
    n: Num<T>,
    table: Seq<T>,
    row: Seq<T>,
    other: Seq<T>,
    threshold: T,
)
    requires
        row.len() > 0,
        other.len() > 0,
        strongest(n, row, row.len()).0 == strongest(n, other, other.len()).0,
        strongest(n, row, row.len()).0 < table.len(),
        same_taps(row, other, strongest(n, row, row.len()).0, table.len() as int),
    ensures
        frequency(n, table, row, threshold) == frequency(n, table, other, threshold),
{
    let at = strongest(n, row, row.len()).0;
    lemma_strongest_in_range(n, row, row.len());
    lemma_strongest_value(n, row, row.len());
    lemma_strongest_value(n, other, other.len());
    assert(tap(at, 4, table.len() as int) == at);
    assert(row[at] == other[at]);
    lemma_same_taps(n, table, row, other, at, TAPS as nat);
}

/// The value of the strongest bin is what it holds, where that is above the least number.
proof fn lemma_strongest_value<T>(n: Num<T>, row: Seq<T>, m: nat)
    ensures
        ({
            let (at, v) = strongest(n, row, m);
            ||| at == 0 && v == n.lowest() && (m == 0 || !n.gt(row[0], n.lowest()))
            ||| m > 0 && v == row[at] && (at == 0 ==> n.gt(row[0], n.lowest()))
        }),
    decreases m,
{
    if m > 0 {
        lemma_strongest_value(n, row, (m - 1) as nat);
    }
}

/// Frames are decoded one by one: the frequencies of a recording are those of its parts, one
/// behind the other.
pub proof fn law_decoding_frame_by_frame<T>(
    n: Num<T>,
    table: Seq<T>,
    rows: Seq<Seq<T>>,
    more: Seq<Seq<T>>,
    threshold: T,
)
    ensures
        frequencies(n, table, rows + more, threshold) == frequencies(n, table, rows, threshold)
            + frequencies(n, table, more, threshold),
{
    assert(frequencies(n, table, rows + more, threshold) =~= frequencies(n, table, rows, threshold)
        + frequencies(n, table, more, threshold));
}

/// The frequency of a pitch in cents.
pub open spec fn hertz<T>(n: Num<T>, cents: T) -> T {
    n.times(n.integer(10), n.exp2(n.over(cents, n.integer(1200))))
}

/// The arithmetic is exact and in order on tap `k` around bin `at`: the factors `lo` and `hi` go
/// through the sum of the weights, and the product with its weight and the sum that it is added
/// to keep their place between those of `lo` and of `hi`.
pub open spec fn tap_in_order<T>(
    n: Num<T>,
    table: Seq<T>,
    row: Seq<T>,
    at: int,
    lo: T,
    hi: T,
    k: nat,
) -> bool {
    let bins = table.len() as int;
    let i = tap(at, k as int, bins);
    let w = row[i];
    let weight = tap_weight(n, bins, row, at, k);
    let sum = weighted_cents(n, table, row, at, k);
    let (below, here, above) = (n.times(lo, w), n.times(table[i], w), n.times(hi, w));
    &&& n.times(lo, n.plus(weight, w)) == n.plus(n.times(lo, weight), below)
    &&& n.times(hi, n.plus(weight, w)) == n.plus(n.times(hi, weight), above)
    &&& n.le(n.zero(), w) && n.le(lo, table[i]) ==> n.le(below, here)
    &&& n.le(n.zero(), w) && n.le(table[i], hi) ==> n.le(here, above)
    &&& n.le(n.times(lo, weight), sum) && n.le(below, here) ==> n.le(
        n.plus(n.times(lo, weight), below),
        n.plus(sum, here),
    )
    &&& n.le(sum, n.times(hi, weight)) && n.le(here, above) ==> n.le(
        n.plus(sum, here),
        n.plus(n.times(hi, weight), above),
    )
}

/// The arithmetic is exact and in order on the weighted mean of the taps around bin `at`, as far as
/// the pitches `lo` and `hi` go: every tap is in order, the mean is where its weight puts it,
/// and a higher pitch has a higher frequency.
pub open spec fn mean_in_order<T>(
    n: Num<T>,
    table: Seq<T>,
    row: Seq<T>,
    at: int,
    lo: T,
    hi: T,
) -> bool {
    let weight = tap_weight(n, table.len() as int, row, at, TAPS as nat);
    let sum = weighted_cents(n, table, row, at, TAPS as nat);
    let mean = n.over(sum, weight);
    &&& n.le(n.zero(), n.zero())
    &&& n.times(lo, n.zero()) == n.zero()
    &&& n.times(hi, n.zero()) == n.zero()
    &&& forall|k: nat| k < TAPS ==> #[trigger] tap_in_order(n, table, row, at, lo, hi, k)
    &&& n.gt(weight, n.zero()) && n.le(n.times(lo, weight), sum) ==> n.le(lo, mean)
    &&& n.gt(weight, n.zero()) && n.le(sum, n.times(hi, weight)) ==> n.le(mean, hi)
    &&& n.le(lo, mean) ==> n.le(hertz(n, lo), hertz(n, mean))
    &&& n.le(mean, hi) ==> n.le(hertz(n, mean), hertz(n, hi))
}

/// No tap around bin `at` has a negative weight, and the pitch of every tap lies between `lo` and
/// `hi`.
pub open spec fn taps_between<T>(
    n: Num<T>,
    table: Seq<T>,
    row: Seq<T>,
    at: int,
    lo: T,
    hi: T,
) -> bool {
    forall|k: int|
        0 <= k < TAPS ==> {
            let i = #[trigger] tap(at, k, table.len() as int);
            n.le(n.zero(), row[i]) && n.le(lo, table[i]) && n.le(table[i], hi)
        }
}

/// The weighted pitches of the first `k` taps lie between two pitches of their whole weight.
proof fn lemma_weighted_between<T>(
    n: Num<T>,
    table: Seq<T>,
    row: Seq<T>,
    at: int,
    k: nat,
    lo: T,
    hi: T,
)
    requires
        k <= TAPS,
        mean_in_order(n, table, row, at, lo, hi),
        taps_between(n, table, row, at, lo, hi),
    ensures
        ({
            let weight = tap_weight(n, table.len() as int, row, at, k);
            let sum = weighted_cents(n, table, row, at, k);
            n.le(n.times(lo, weight), sum) && n.le(sum, n.times(hi, weight))
        }),
    decreases k,
{
    if k > 0 {
        let j = (k - 1) as nat;
        lemma_weighted_between(n, table, row, at, j, lo, hi);
        assert(tap_in_order(n, table, row, at, lo, hi, j));
        let i = tap(at, j as int, table.len() as int);
        assert(n.le(n.zero(), row[i]) && n.le(lo, table[i]) && n.le(table[i], hi));
    }
}

/// The frequency of a voiced frame lies between the frequencies of any two pitches between which
/// its nine taps lie, where no tap has a negative weight and the arithmetic is exact and in order
/// on their mean.
pub proof fn law_frequency_lies_between_its_taps<T>(
    n: Num<T>,
    table: Seq<T>,
    row: Seq<T>,
    threshold: T,
    lo: T,
    hi: T,
)
    requires
        !n.le(strongest(n, row, row.len()).1, threshold),
        mean_in_order(n, table, row, strongest(n, row, row.len()).0, lo, hi),
        taps_between(n, table, row, strongest(n, row, row.len()).0, lo, hi),
        n.gt(
            tap_weight(
                n,
                table.len() as int,
                row,
                strongest(n, row, row.len()).0,
                TAPS as nat,
            ),
            n.zero(),
        ),
    ensures
        n.le(hertz(n, lo), frequency(n, table, row, threshold)),
        n.le(frequency(n, table, row, threshold), hertz(n, hi)),
{
    lemma_weighted_between(n, table, row, strongest(n, row, row.len()).0, TAPS as nat, lo, hi);
}

/// The strongest of the first `k` bins is one of them or the least number.
proof fn lemma_strongest_among<T>(n: Num<T>, row: Seq<T>, k: nat)
    ensures
        ({
            let best = strongest(n, row, k);
            best.1 == n.lowest() || (0 <= best.0 < k && best.1 == row[best.0])
        }),
    decreases k,
{
    if k > 0 {
        lemma_strongest_among(n, row, (k - 1) as nat);
    }
}

/// A frame in which no activation exceeds the threshold is unvoiced, whatever the bins add up to.
pub proof fn law_quiet_frame_is_unvoiced<T>(
    n: Num<T>,
    table: Seq<T>,
    rows: Seq<Seq<T>>,
    threshold: T,
    t: int,
)
    requires
        0 <= t < rows.len(),
        n.le(n.lowest(), threshold),
        forall|i: int| 0 <= i < rows[t].len() ==> n.le(#[trigger] rows[t][i], threshold),
    ensures
        frequencies(n, table, rows, threshold)[t] == n.zero(),
{
    lemma_strongest_among(n, rows[t], rows[t].len());
}

/// `at` is the first of the strongest bins of a frame.
pub open spec fn is_peak<T>(m: Reals<T>, row: Seq<T>, at: int) -> bool {
    &&& 0 <= at < row.len()
    &&& forall|i: int| 0 <= i < row.len() ==> m.of(#[trigger] row[i]) <= m.of(row[at])
    &&& forall|i: int| 0 <= i < at ==> m.of(#[trigger] row[i]) < m.of(row[at])
}

/// The bin of a table of `bins` bins that is nearest to `place`.
pub open spec fn nearest_bin(place: int, bins: int) -> int {
    if 0 <= place < bins {
        place
    } else if place < 0 {
        0
    } else {
        bins - 1
    }
}

/// The nine bins around `at`, each with its activation for a weight, balance at `cents`.
pub open spec fn balances<T>(m: Reals<T>, table: Seq<T>, row: Seq<T>, at: int, cents: real) -> bool {
    total(|k: int| pull(m, table, row, at, cents, k), 9) == 0real
}

/// How hard bin `k` of the nine bins around `at` pulls away from `cents`.
pub open spec fn pull<T>(
    m: Reals<T>,
    table: Seq<T>,
    row: Seq<T>,
    at: int,
    cents: real,
    k: int,
) -> real {
    let i = nearest_bin(at + k - 4, table.len() as int);
    m.of(row[i]) * (m.of(table[i]) - cents)
}

/// The weight of the nine bins around `at`.
pub open spec fn heaviness<T>(m: Reals<T>, row: Seq<T>, at: int, bins: int) -> real {
    total(|k: int| m.of(row[nearest_bin(at + k - 4, bins)]), 9)
}

proof fn lemma_strongest_value_first<T>(n: Num<T>, m: Reals<T>, row: Seq<T>, k: nat)
    requires
        m.orders(n),
        0 < k <= row.len(),
        forall|i: int| 0 <= i < row.len() ==> m.of(n.lowest()) < m.of(#[trigger] row[i]),
    ensures
        ({
            let best = strongest(n, row, k);
            &&& 0 <= best.0 < k
            &&& best.1 == row[best.0]
            &&& forall|i: int| 0 <= i < k ==> m.of(#[trigger] row[i]) <= m.of(row[best.0])
            &&& forall|i: int| 0 <= i < best.0 ==> m.of(#[trigger] row[i]) < m.of(row[best.0])
        }),
    decreases k,
{
    if k > 1 {
        lemma_strongest_value_first(n, m, row, (k - 1) as nat);
    } else {
        assert(strongest(n, row, 0) == (0int, n.lowest()));
        assert(n.gt(row[0], n.lowest()));
    }
}

proof fn lemma_tap_sums<T>(
    n: Num<T>,
    m: Reals<T>,
    table: Seq<T>,
    row: Seq<T>,
    at: int,
    cents: real,
    k: nat,
)
    requires
        m.computes(n),
        table.len() > 0,
    ensures
        m.of(tap_weight(n, table.len() as int, row, at, k)) == total(
            |k: int| m.of(row[nearest_bin(at + k - 4, table.len() as int)]),
            k,
        ),
        total(|k: int| pull(m, table, row, at, cents, k), k) == m.of(
            weighted_cents(n, table, row, at, k),
        ) - cents * m.of(tap_weight(n, table.len() as int, row, at, k)),
    decreases k,
{
    lemma_integer(n, m, 0);
    if k > 0 {
        let j = (k - 1) as nat;
        lemma_tap_sums(n, m, table, row, at, cents, j);
        let bins = table.len() as int;
        let i = tap(at, j as int, bins);
        assert(i == nearest_bin(at + j - 4, bins));
        let (a, w, sum) = (m.of(table[i]), m.of(row[i]), m.of(weighted_cents(n, table, row, at, j)));
        let weight = m.of(tap_weight(n, bins, row, at, j));
        assert((sum - cents * weight) + w * (a - cents) == (sum + a * w) - cents * (weight + w))
            by (nonlinear_arith);
    } else {
        assert(cents * 0real == 0real) by (nonlinear_arith);
    }
}

/// The frequency of a frame is decided by its first strongest bin: at most the threshold, it is
/// zero; above it, it is that of the pitch at which the nine bins around it balance, each weighted
/// by its activation, where the pitch counts cents from 10 Hz, 1200 to a doubling.
pub proof fn law_frequency_is_where_the_taps_balance<T>(
    n: Num<T>,
    m: Reals<T>,
    table: Seq<T>,
    rows: Seq<Seq<T>>,
    threshold: T,
    t: int,
    at: int,
)
    requires
        m.computes(n),
        m.orders(n),
        m.powers(n),
        0 <= t < rows.len(),
        table.len() > 0,
        is_peak(m, rows[t], at),
        forall|i: int| 0 <= i < rows[t].len() ==> m.of(n.lowest()) < m.of(#[trigger] rows[t][i]),
        heaviness(m, rows[t], at, table.len() as int) != 0real,
    ensures
        frequencies(n, table, rows, threshold).len() == rows.len(),
        m.of(rows[t][at]) <= m.of(threshold) ==> m.of(frequencies(n, table, rows, threshold)[t])
            == 0real,
        m.of(rows[t][at]) > m.of(threshold) ==> exists|cents: real| #[trigger]
            balances(m, table, rows[t], at, cents) && m.of(
                frequencies(n, table, rows, threshold)[t],
            ) == 10real * (m.pow2)(cents / 1200real),
{
    let row = rows[t];
    lemma_strongest_value_first(n, m, row, row.len());
    let best = strongest(n, row, row.len());
    if best.0 < at {
        assert(m.of(row[best.0]) < m.of(row[at]));
    } else if at < best.0 {
        assert(m.of(row[at]) < m.of(row[best.0]));
    }
    assert(best.0 == at);
    let sum = m.of(weighted_cents(n, table, row, at, TAPS as nat));
    let weight = m.of(tap_weight(n, table.len() as int, row, at, TAPS as nat));
    let cents = sum / weight;
    lemma_tap_sums(n, m, table, row, at, cents, TAPS as nat);
    assert(weight == heaviness(m, row, at, table.len() as int));
    assert(sum - cents * weight == 0real) by (nonlinear_arith)
        requires
            cents == sum / weight,
            weight != 0real,
    ;
    assert(balances(m, table, row, at, cents));
    lemma_integer(n, m, 10);
    lemma_integer(n, m, 1200);
}

/// A frame can be decoded exactly if it has an activation for each of the nine bins around its
/// first strongest one.
pub proof fn law_decodable_frames_have_their_taps<T>(
    n: Num<T>,
    m: Reals<T>,
    bins: int,
    row: Seq<T>,
    at: int,
)
    requires
        m.orders(n),
        is_peak(m, row, at),
        forall|i: int| 0 <= i < row.len() ==> m.of(n.lowest()) < m.of(#[trigger] row[i]),
    ensures
        decodable(n, bins, row) <==> bins > 0 && forall|k: int|
            0 <= k < 9 ==> #[trigger] nearest_bin(at + k - 4, bins) < row.len(),
{
    lemma_strongest_value_first(n, m, row, row.len());
    let best = strongest(n, row, row.len());
    if best.0 < at {
        assert(m.of(row[best.0]) < m.of(row[at]));
    } else if at < best.0 {
        assert(m.of(row[at]) < m.of(row[best.0]));
    }
    assert(best.0 == at);
    if bins > 0 {
        assert(tap(at, TAPS - 1, bins) == nearest_bin(at + 8 - 4, bins));
    }
}

proof fn lemma_none_stronger<T>(n: Num<T>, row: Seq<T>, k: nat)
    requires
        forall|a: T, b: T| #[trigger] (n.rel)(a, b) == Rel::Unordered,
    ensures
        strongest(n, row, k) == (0int, n.lowest()),
    decreases k,
{
    if k > 0 {
        lemma_none_stronger(n, row, (k - 1) as nat);
    }
}

/// A frame that cannot be compared with the threshold is not unvoiced: it is decoded around its
/// first bin.
pub proof fn law_incomparable_frame_is_decoded<T>(
    n: Num<T>,
    table: Seq<T>,
    rows: Seq<Seq<T>>,
    threshold: T,
    t: int,
)
    requires
        forall|a: T, b: T| #[trigger] (n.rel)(a, b) == Rel::Unordered,
        0 <= t < rows.len(),
    ensures
        frequencies(n, table, rows, threshold)[t] == n.times(
            n.integer(10),
            n.exp2(
                n.over(
                    n.over(
                        weighted_cents(n, table, rows[t], 0, 9),
                        tap_weight(n, table.len() as int, rows[t], 0, 9),
                    ),
                    n.integer(1200),
                ),
            ),
        ),
{
    lemma_none_stronger(n, rows[t], rows[t].len());
}

} // verus!
