//! Sample formats of audio files: mixing down to one channel, and 16-bit files.
use vstd::arithmetic::power2::{lemma2_to64, lemma_pow2_unfold, pow2};
use vstd::prelude::*;

use crate::arith::{Arith, Num, Op, Rel};
use crate::dsp::table::push_all;
use crate::exact::{cut_down, lemma_integer, total, Reals};

verus! {

/// The samples of an audio file, channel by channel within a frame.
pub enum Samples<T> {
    /// Numbers, full scale at one.
    Float(Vec<T>),
    /// Integers of a number of bits.
    Int {
        /// Bits per sample.
        bits: u16,
        /// The integers.
        values: Vec<i32>,
    },
}

/// Full scale of integers of `bits` bits: two to the power of `bits - 1`.
pub open spec fn full_scale(bits: int) -> int
    decreases bits,
{
    if bits <= 1 {
        1
    } else {
        2 * full_scale(bits - 1)
    }
}

/// Integers of `bits` bits as fractions of full scale.
pub open spec fn fractions<T>(n: Num<T>, bits: int, values: Seq<i32>) -> Seq<T> {
    Seq::new(
        values.len(),
        |i: int| n.over(n.integer(values[i] as i64), n.integer(full_scale(bits) as i64)),
    )
}

impl<T> Samples<T> {
    /// The samples as numbers.
    pub open spec fn numbers(self, n: Num<T>) -> Seq<T> {
        match self {
            Samples::Float(xs) => xs@,
            Samples::Int { bits, values } => fractions(n, bits as int, values@),
        }
    }

    /// Integers have between one and 32 bits.
    pub open spec fn wf(self) -> bool {
        self matches Samples::Int { bits, .. } ==> 1 <= bits <= 32
    }
}

/// The sum of `xs`, added from the left, starting at zero.
pub open spec fn sum<T>(n: Num<T>, xs: Seq<T>) -> T
    decreases xs.len(),
{
    if xs.len() == 0 {
        n.zero()
    } else {
        n.plus(sum(n, xs.drop_last()), xs.last())
    }
}

/// Frame `j` of samples with `channels` channels; the last frame may be short.
pub open spec fn frame_of<T>(xs: Seq<T>, channels: int, j: int) -> Seq<T> {
    let end = (j + 1) * channels;
    xs.subrange(
        j * channels,
        if end <= xs.len() {
            end
        } else {
            xs.len() as int
        },
    )
}

/// Number of frames of `len` samples with `channels` channels.
pub open spec fn frame_count(len: int, channels: int) -> int
    recommends
        channels > 0,
{
    (len + channels - 1) / channels
}

/// The mean of every frame.
pub open spec fn mixed_down<T>(n: Num<T>, xs: Seq<T>, channels: int) -> Seq<T> {
    Seq::new(
        frame_count(xs.len() as int, channels) as nat,
        |j: int| n.over(sum(n, frame_of(xs, channels, j)), n.count(channels as u64)),
    )
}

/// Integer samples as numbers.
fn normalized<T: Copy, O: Fn(Op<T>) -> T, G: Fn(T, T) -> Rel, Z: Fn(T) -> i128>(
    ar: &Arith<T, O, G, Z>,
    bits: u16,
    values: &Vec<i32>,
) -> (r: Vec<T>)
    requires
        ar.wf(),
        1 <= bits <= 32,
    ensures
        r@ == fractions(ar.model@, bits as int, values@),
{
    let mut max: i64 = 1;
    let mut b: u16 = 1;
    assert(full_scale(32) <= 0x1_0000_0000) by {
        reveal_with_fuel(full_scale, 33);
    }
    while b < bits
        invariant
            1 <= b <= bits <= 32,
            max == full_scale(b as int),
            1 <= max,
            max * full_scale(33 - b) <= 0x1_0000_0000,
        decreases bits - b,
    {
        proof {
            lemma_full_scale_positive(33 - b - 1);
            assert(full_scale(33 - b) == 2 * full_scale(33 - b - 1));
            assert(2 * max * full_scale(33 - b - 1) <= 0x1_0000_0000 && max <= 0x1_0000_0000)
                by (nonlinear_arith)
                requires
                    max * (2 * full_scale(33 - b - 1)) <= 0x1_0000_0000,
                    full_scale(33 - b - 1) >= 1,
                    max >= 1,
            ;
        }
        max = max * 2;
        b += 1;
    }
    let full = ar.integer(max);
    let mut r: Vec<T> = Vec::new();
    let len: usize = values.len();
    while r.len() < len
        invariant
            ar.wf(),
            len == values@.len(),
            r@.len() <= len,
            full == ar.model@.integer(full_scale(bits as int) as i64),
            r@ == fractions(ar.model@, bits as int, values@).take(r@.len() as int),
        decreases len - r@.len(),
    {
        let i: usize = r.len();
        let v = ar.over(ar.integer(values[i] as i64), full);
        r.push(v);
    }
    r
}

proof fn lemma_full_scale_positive(bits: int)
    ensures
        full_scale(bits) >= 1,
    decreases bits,
{
    if bits > 1 {
        lemma_full_scale_positive(bits - 1);
    }
}

/// Mixes interleaved samples down to one channel: the mean of every frame, where a last frame
/// that is short counts as if it were full. `None` if there are no channels.
pub fn mix_down<T: Copy, O: Fn(Op<T>) -> T, G: Fn(T, T) -> Rel, Z: Fn(T) -> i128>(
    ar: &Arith<T, O, G, Z>,
    samples: Samples<T>,
    channels: u16,
) -> (r: Option<Vec<T>>)
    requires
        ar.wf(),
        samples.wf(),
    ensures
        match r {
            None => channels == 0,
            Some(mono) => channels > 0 && mono@ == mixed_down(
                ar.model@,
                samples.numbers(ar.model@),
                channels as int,
            ),
        },
{
    if channels == 0 {
        return None;
    }
    let ghost all = samples.numbers(ar.model@);
    let xs = match samples {
        Samples::Float(xs) => xs,
        Samples::Int { bits, values } => normalized(ar, bits, &values),
    };
    let ghost n = ar.model@;
    let ghost whole = mixed_down(n, all, channels as int);
    let ch: usize = channels as usize;
    let len: usize = xs.len();
    let mut mono: Vec<T> = Vec::new();
    let mut at: usize = 0;
    assert(frame_count(0, ch as int) == 0) by (nonlinear_arith)
        requires
            ch > 0,
            frame_count(0, ch as int) == (0 + ch - 1) / (ch as int),
    ;
    while at < len
        invariant
            ar.wf(),
            n == ar.model@,
            xs@ == all,
            len == xs@.len(),
            ch == channels > 0,
            whole == mixed_down(n, all, channels as int),
            at <= len,
            at < len ==> at == mono@.len() * ch,
            at == len ==> mono@.len() == whole.len(),
            mono@.len() <= whole.len(),
            mono@ == whole.take(mono@.len() as int),
        decreases len - at,
    {
        let ghost j = mono@.len() as int;
        let end: usize = if len - at > ch {
            at + ch
        } else {
            len
        };
        let ghost frame = frame_of(all, ch as int, j);
        proof {
            assert((j + 1) * ch == j * ch + ch) by (nonlinear_arith);
            assert(frame == all.subrange(at as int, end as int));
            assert(j < frame_count(len as int, ch as int)) by (nonlinear_arith)
                requires
                    j * ch < len,
                    ch > 0,
                    frame_count(len as int, ch as int) == (len + ch - 1) / (ch as int),
            ;
            if len - at <= ch {
                assert(j + 1 == frame_count(len as int, ch as int)) by (nonlinear_arith)
                    requires
                        j * ch < len,
                        len <= j * ch + ch,
                        ch > 0,
                        frame_count(len as int, ch as int) == (len + ch - 1) / (ch as int),
                ;
            }
        }
        let mut acc = ar.zero();
        let mut i: usize = at;
        while i < end
            invariant
                ar.wf(),
                n == ar.model@,
                xs@ == all,
                at <= i <= end <= xs@.len(),
                frame == all.subrange(at as int, end as int),
                acc == sum(n, frame.take(i - at)),
            decreases end - i,
        {
            acc = ar.plus(acc, xs[i]);
            proof {
                assert(frame.take(i + 1 - at).drop_last() =~= frame.take(i - at));
            }
            i += 1;
        }
        assert(frame.take(end - at) =~= frame);
        mono.push(ar.over(acc, ar.count(channels as u64)));
        at = end;
    }
    assert(whole.take(whole.len() as int) =~= whole);
    Some(mono)
}

/// The 16-bit integer of a sample: clamped to full scale, towards zero.
pub open spec fn quantized<T>(n: Num<T>, x: T) -> int {
    n.cut(
        n.times(n.clamp(x, n.integer((-1) as i64), n.integer(1)), n.integer(32767)),
        -32768,
        32767,
    )
}

/// The 16-bit integer of a sample.
pub fn quantize<T: Copy, O: Fn(Op<T>) -> T, G: Fn(T, T) -> Rel, Z: Fn(T) -> i128>(
    ar: &Arith<T, O, G, Z>,
    x: T,
) -> (r: i16)
    requires
        ar.wf(),
    ensures
        r == quantized(ar.model@, x),
{
    let lo = ar.integer(-1);
    let hi = ar.integer(1);
    let full = ar.integer(32767);
    ar.cut(ar.times(ar.clamp(x, lo, hi), full), -32768, 32767) as i16
}

/// The two bytes of `v`, lowest first; negative numbers in two's complement.
pub open spec fn le2(v: int) -> Seq<u8> {
    let u = v % 0x1_0000;
    seq![(u % 256) as u8, (u / 256) as u8]
}

/// The four bytes of `v`, lowest first.
pub open spec fn le4(v: int) -> Seq<u8> {
    le2(v) + le2(v / 0x1_0000)
}

/// The bytes of 16-bit samples, in order.
pub open spec fn pcm16<T>(n: Num<T>, samples: Seq<T>) -> Seq<u8> {
    Seq::new(
        2 * samples.len(),
        |i: int| le2(quantized(n, samples[i / 2]))[i % 2],
    )
}

/// The head of a mono file of 16-bit samples at 16 kHz, with `len` samples.
pub open spec fn wav_head(len: int) -> Seq<u8> {
    seq![82u8, 73, 70, 70] + le4(36 + 2 * len) + seq![
        87u8,
        65,
        86,
        69,
        102,
        109,
        116,
        32,
    ] + le4(16) + le2(1) + le2(1) + le4(16000) + le4(32000) + le2(2) + le2(16) + seq![
        100u8,
        97,
        116,
        97,
    ] + le4(2 * len)
}

fn push2(dst: &mut Vec<u8>, v: u16)
    ensures
        final(dst)@ == old(dst)@ + le2(v as int),
{
    dst.push((v % 256) as u8);
    dst.push((v / 256) as u8);
}

fn push4(dst: &mut Vec<u8>, v: u32)
    ensures
        final(dst)@ == old(dst)@ + le4(v as int),
{
    push2(dst, (v % 0x1_0000) as u16);
    push2(dst, (v / 0x1_0000) as u16);
    proof {
        assert(le2(v as int % 0x1_0000) == le2(v as int));
    }
}

/// The bytes of a mono file of 16-bit samples at 16 kHz.
pub fn write_wav16<T: Copy, O: Fn(Op<T>) -> T, G: Fn(T, T) -> Rel, Z: Fn(T) -> i128>(
    ar: &Arith<T, O, G, Z>,
    samples: &[T],
) -> (r: Vec<u8>)
    requires
        ar.wf(),
        36 + 2 * samples@.len() <= u32::MAX,
    ensures
        r@ == wav_head(samples@.len() as int) + pcm16(ar.model@, samples@),
{
    let ghost n = ar.model@;
    let len: usize = samples.len();
    let data_len: u32 = (len * 2) as u32;
    let mut r: Vec<u8> = Vec::new();
    push_all(&mut r, &[82u8, 73, 70, 70]);
    push4(&mut r, 36 + data_len);
    push_all(&mut r, &[87u8, 65, 86, 69, 102, 109, 116, 32]);
    push4(&mut r, 16);
    push2(&mut r, 1);
    push2(&mut r, 1);
    push4(&mut r, 16000);
    push4(&mut r, 32000);
    push2(&mut r, 2);
    push2(&mut r, 16);
    push_all(&mut r, &[100u8, 97, 116, 97]);
    push4(&mut r, data_len);
    let ghost head = wav_head(len as int);
    assert(r@ =~= head);
    let ghost body = pcm16(n, samples@);
    let mut i: usize = 0;
    while i < len
        invariant
            ar.wf(),
            n == ar.model@,
            len == samples@.len(),
            i <= len,
            body == pcm16(n, samples@),
            r@ == head + body.take(2 * i as int),
        decreases len - i,
    {
        let q: i32 = quantize(ar, samples[i]) as i32;
        let u: u16 = if q < 0 {
            (q + 0x1_0000) as u16
        } else {
            q as u16
        };
        push2(&mut r, u);
        proof {
            assert(le2(u as int) == le2(q as int));
            assert(body.take(2 * (i + 1)) =~= body.take(2 * i as int) + le2(q as int));
        }
        i += 1;
    }
    assert(body.take(2 * len as int) =~= body);
    r
}

/// The 16-bit samples of a sequence of numbers.
pub fn quantize_all<T: Copy, O: Fn(Op<T>) -> T, G: Fn(T, T) -> Rel, Z: Fn(T) -> i128>(
    ar: &Arith<T, O, G, Z>,
    samples: &[T],
) -> (r: Vec<i16>)
    requires
        ar.wf(),
    ensures
        r@.len() == samples@.len(),
        forall|i: int|
            0 <= i < r@.len() ==> #[trigger] r@[i] == quantized(ar.model@, samples@[i]),
{
    let mut r: Vec<i16> = Vec::new();
    let len: usize = samples.len();
    while r.len() < len
        invariant
            ar.wf(),
            len == samples@.len(),
            r@.len() <= len,
            forall|i: int|
                0 <= i < r@.len() ==> #[trigger] r@[i] == quantized(ar.model@, samples@[i]),
        decreases len - r@.len(),
    {
        let q = quantize(ar, samples[r.len()]);
        r.push(q);
    }
    r
}

/// The signed number of two bytes, lowest first.
pub open spec fn signed_le2(lo: u8, hi: u8) -> int {
    let u = lo + 256 * hi;
    if u < 0x8000 {
        u as int
    } else {
        u - 0x1_0000
    }
}

/// A written file gives back its samples: behind a head of 44 bytes, the two bytes of every
/// sample are the sample's 16-bit integer.
pub proof fn law_wav_gives_back_samples<T>(n: Num<T>, samples: Seq<T>, i: int)
    requires
        0 <= i < samples.len(),
    ensures
        ({
            let bytes = wav_head(samples.len() as int) + pcm16(n, samples);
            &&& bytes.len() == 44 + 2 * samples.len()
            &&& signed_le2(bytes[44 + 2 * i], bytes[44 + 2 * i + 1]) == quantized(n, samples[i])
        }),
{
    let q = quantized(n, samples[i]);
    let body = pcm16(n, samples);
    assert(wav_head(samples.len() as int).len() == 44);
    assert(body[2 * i] == le2(q)[0]);
    assert(body[2 * i + 1] == le2(q)[1]);
}

/// Full scale is a power of two.
proof fn lemma_full_scale_is_power(bits: int)
    requires
        1 <= bits <= 32,
    ensures
        full_scale(bits) == pow2((bits - 1) as nat),
        1 <= full_scale(bits) <= 0x8000_0000,
    decreases bits,
{
    lemma2_to64();
    if bits > 1 {
        lemma_full_scale_is_power(bits - 1);
        lemma_pow2_unfold((bits - 1) as nat);
        if bits == 32 {
            assert(full_scale(32) == 0x8000_0000) by {
                reveal_with_fuel(full_scale, 33);
            }
        } else {
            lemma_full_scale_bounded(bits);
        }
    }
}

proof fn lemma_full_scale_bounded(bits: int)
    requires
        1 <= bits <= 31,
    ensures
        full_scale(bits) <= 0x4000_0000,
    decreases 31 - bits,
{
    if bits < 31 {
        lemma_full_scale_bounded(bits + 1);
        lemma_full_scale_positive(bits);
    } else {
        assert(full_scale(31) == 0x4000_0000) by {
            reveal_with_fuel(full_scale, 32);
        }
    }
}

/// Full scale of every integer format is one: an integer of a file of any number of bits is read
/// as its quotient by two to the power of one bit less, the file's own. So the lowest integer of
/// the format is read as minus one. Numbers are read as they are.
pub proof fn law_full_scale_is_one<T>(n: Num<T>, m: Reals<T>, samples: Samples<T>, i: int)
    requires
        m.computes(n),
        samples.wf(),
    ensures
        samples matches Samples::Float(xs) ==> samples.numbers(n) == xs@,
        samples matches Samples::Int { bits, values } ==> {
            &&& samples.numbers(n).len() == values@.len()
            &&& 0 <= i < values@.len() ==> {
                let x = samples.numbers(n)[i];
                let scale = pow2((bits - 1) as nat);
                &&& x == n.over(n.integer(values@[i] as i64), n.integer(scale as i64))
                &&& m.of(x) * (scale as real) == values@[i] as real
                &&& values@[i] == -(scale as int) ==> m.of(x) == -1real
            }
        },
{
    if let Samples::Int { bits, values } = samples {
        lemma_full_scale_is_power(bits as int);
        if 0 <= i < values@.len() {
            let x = samples.numbers(n)[i];
            let scale = full_scale(bits as int);
            let (a, b) = (values@[i] as real, scale as real);
            assert(m.of(n.integer(values@[i] as i64)) == a);
            assert(m.of(n.integer(scale as i64)) == b);
            assert(m.of(x) * b == a) by (nonlinear_arith)
                requires
                    m.of(x) == a / b,
                    b >= 1real,
            ;
            if values@[i] == -scale {
                assert(m.of(x) == -1real) by (nonlinear_arith)
                    requires
                        m.of(x) * b == -b,
                        b >= 1real,
                ;
            }
        }
    }
}

/// A sample of a frame by value; nothing where the frame is cut off.
pub open spec fn sample_value<T>(m: Reals<T>, xs: Seq<T>, at: int) -> real {
    if at < xs.len() {
        m.of(xs[at])
    } else {
        0real
    }
}

/// The sum of the first samples, by value.
proof fn lemma_sum_value<T>(n: Num<T>, m: Reals<T>, xs: Seq<T>, from: int, k: nat)
    requires
        m.computes(n),
        0 <= from,
        from + k <= xs.len(),
    ensures
        m.of(sum(n, xs.subrange(from, from + k))) == total(
            |c: int| sample_value(m, xs, from + c),
            k,
        ),
    decreases k,
{
    let part = xs.subrange(from, from + k);
    if k > 0 {
        lemma_sum_value(n, m, xs, from, (k - 1) as nat);
        assert(part.drop_last() =~= xs.subrange(from, from + k - 1));
        assert(part.last() == xs[from + k - 1]);
    } else {
        lemma_integer(n, m, 0);
    }
}

/// Nothing is added behind the end.
proof fn lemma_total_cut_off<T>(m: Reals<T>, xs: Seq<T>, from: int, have: nat, k: nat)
    requires
        have <= k,
        from + have == xs.len() || have == k,
        0 <= from,
    ensures
        total(|c: int| sample_value(m, xs, from + c), have) == total(
            |c: int| sample_value(m, xs, from + c),
            k,
        ),
    decreases k,
{
    if have < k {
        lemma_total_cut_off(m, xs, from, have, (k - 1) as nat);
    }
}

/// Every channel counts the same: a mixed sample times the number of channels is the sum of its
/// frame's samples, a missing one counting as silence; and there is one sample for every frame
/// that the recording begins.
pub proof fn law_channels_are_averaged<T>(
    n: Num<T>,
    m: Reals<T>,
    xs: Seq<T>,
    channels: u16,
    j: int,
)
    requires
        m.computes(n),
        channels > 0,
    ensures
        ({
            let mono = mixed_down(n, xs, channels as int);
            &&& xs.len() <= mono.len() * channels < xs.len() + channels
            &&& 0 <= j < mono.len() ==> m.of(mono[j]) * (channels as real) == total(
                |c: int| sample_value(m, xs, j * channels + c),
                channels as nat,
            )
        }),
{
    let mono = mixed_down(n, xs, channels as int);
    let (len, ch) = (xs.len() as int, channels as int);
    let count = frame_count(len, ch);
    assert(count >= 0 && len <= count * ch < len + ch) by (nonlinear_arith)
        requires
            count == (len + ch - 1) / ch,
            ch > 0,
            len >= 0,
    ;
    assert(mono.len() == count);
    if 0 <= j < count {
        assert(j * ch <= (count - 1) * ch && (j + 1) * ch == j * ch + ch && (count - 1) * ch
            == count * ch - ch && 0 <= j * ch) by (nonlinear_arith)
            requires
                0 <= j <= count - 1,
                ch > 0,
        ;
        let have: nat = if (j + 1) * ch <= len {
            ch as nat
        } else {
            (len - j * ch) as nat
        };
        lemma_sum_value(n, m, xs, j * ch, have);
        lemma_total_cut_off(m, xs, j * ch, have, ch as nat);
        assert(frame_of(xs, ch, j) =~= xs.subrange(j * ch, j * ch + have));
        let s = m.of(sum(n, frame_of(xs, ch, j)));
        let c = channels as real;
        assert(m.of(n.count(channels as u64)) == c);
        assert((s / c) * c == s) by (nonlinear_arith)
            requires
                c >= 1real,
        ;
    }
}

/// A sample is written in units of full scale, of which there are 32767 to one, cut down towards
/// zero; what is out of range is written as full scale.
pub proof fn law_samples_are_written_in_full_scale<T>(n: Num<T>, m: Reals<T>, x: T)
    requires
        m.computes(n),
        m.orders(n),
        m.cuts(n),
    ensures
        m.of(x) >= 1real ==> quantized(n, x) == 32767,
        m.of(x) <= -1real ==> quantized(n, x) == -32767,
        -1real < m.of(x) < 1real ==> cut_down(32767real * m.of(x), quantized(n, x)),
{
    let (lo, hi) = (n.integer((-1) as i64), n.integer(1));
    assert(m.of(lo) == -1real);
    assert(m.of(hi) == 1real);
    assert(m.of(n.integer(32767)) == 32767real);
    let c = n.clamp(x, lo, hi);
    let y = n.times(c, n.integer(32767));
    assert(m.of(y) == m.of(c) * 32767real);
    assert(cut_down(m.of(y), (n.whole)(y) as int));
}

/// The unsigned number of two bytes from `at` on, lowest first.
pub open spec fn short_at(bytes: Seq<u8>, at: int) -> int {
    bytes[at] + 0x100 * bytes[at + 1]
}

/// The unsigned number of four bytes from `at` on, lowest first.
pub open spec fn long_at(bytes: Seq<u8>, at: int) -> int {
    short_at(bytes, at) + 0x1_0000 * short_at(bytes, at + 2)
}

/// The bytes of a number give the number back.
proof fn lemma_le_gives_back(v: int)
    ensures
        0 <= v < 0x1_0000 ==> le2(v).len() == 2 && short_at(le2(v), 0) == v,
        0 <= v < 0x1_0000_0000 ==> le4(v).len() == 4 && long_at(le4(v), 0) == v,
{
    if 0 <= v < 0x1_0000_0000 {
        let (a, b) = (le2(v), le2(v / 0x1_0000));
        assert(le4(v)[0] == a[0] && le4(v)[1] == a[1] && le4(v)[2] == b[0] && le4(v)[3] == b[1]);
    }
}

/// A written file describes itself: its chunks are as long as their sizes say, it is mono 16-bit
/// PCM at 16 kHz, and its rate in bytes is its rate in frames times the bytes of a frame.
pub proof fn law_wav_describes_itself<T>(n: Num<T>, samples: Seq<T>)
    requires
        36 + 2 * samples.len() <= u32::MAX,
    ensures
        ({
            let bytes = wav_head(samples.len() as int) + pcm16(n, samples);
            &&& bytes.take(4) == seq![82u8, 73, 70, 70]
            &&& long_at(bytes, 4) == bytes.len() - 8
            &&& bytes.subrange(8, 16) == seq![87u8, 65, 86, 69, 102, 109, 116, 32]
            &&& long_at(bytes, 16) == 36 - 20
            &&& short_at(bytes, 20) == 1
            &&& short_at(bytes, 22) == 1
            &&& long_at(bytes, 24) == 16000
            &&& long_at(bytes, 28) == long_at(bytes, 24) * short_at(bytes, 32)
            &&& short_at(bytes, 32) * 8 == short_at(bytes, 22) * short_at(bytes, 34)
            &&& short_at(bytes, 34) == 16
            &&& bytes.subrange(36, 40) == seq![100u8, 97, 116, 97]
            &&& long_at(bytes, 40) == bytes.len() - 44
        }),
{
    let len = samples.len() as int;
    let head = wav_head(len);
    let bytes = head + pcm16(n, samples);
    lemma_le_gives_back(36 + 2 * len);
    lemma_le_gives_back(16);
    lemma_le_gives_back(1);
    lemma_le_gives_back(16000);
    lemma_le_gives_back(32000);
    lemma_le_gives_back(2);
    lemma_le_gives_back(2 * len);
    assert(head.len() == 44);
    assert(bytes.take(4) =~= seq![82u8, 73, 70, 70]);
    assert(bytes.subrange(4, 8) =~= le4(36 + 2 * len));
    assert(bytes.subrange(8, 16) =~= seq![87u8, 65, 86, 69, 102, 109, 116, 32]);
    assert(bytes.subrange(16, 20) =~= le4(16));
    assert(bytes.subrange(20, 22) =~= le2(1));
    assert(bytes.subrange(22, 24) =~= le2(1));
    assert(bytes.subrange(24, 28) =~= le4(16000));
    assert(bytes.subrange(28, 32) =~= le4(32000));
    assert(bytes.subrange(32, 34) =~= le2(2));
    assert(bytes.subrange(34, 36) =~= le2(16));
    assert(bytes.subrange(36, 40) =~= seq![100u8, 97, 116, 97]);
    assert(bytes.subrange(40, 44) =~= le4(2 * len));
    lemma_read_long(bytes, 4);
    lemma_read_long(bytes, 16);
    lemma_read_long(bytes, 24);
    lemma_read_long(bytes, 28);
    lemma_read_long(bytes, 40);
    lemma_read_short(bytes, 20);
    lemma_read_short(bytes, 22);
    lemma_read_short(bytes, 32);
    lemma_read_short(bytes, 34);
}

proof fn lemma_read_long(bytes: Seq<u8>, at: int)
    requires
        0 <= at,
        at + 4 <= bytes.len(),
    ensures
        long_at(bytes, at) == long_at(bytes.subrange(at, at + 4), 0),
{
}

proof fn lemma_read_short(bytes: Seq<u8>, at: int)
    requires
        0 <= at,
        at + 2 <= bytes.len(),
    ensures
        short_at(bytes, at) == short_at(bytes.subrange(at, at + 2), 0),
{
}

} // verus!
