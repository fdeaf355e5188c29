//! The chunked core: blocks of microphone audio in, stitched blocks of converted audio out.
use rand_pcg::Pcg64;
use vstd::arithmetic::div_mod::{
    lemma_div_by_multiple, lemma_fundamental_div_mod, lemma_mod_bound,
};
use vstd::prelude::*;

use crate::arith::{Arith, Num, Op, Rel};
use crate::dsp::sola::{law_stitching_is_a_function, Sola};
use crate::dsp::table::{copied_range, push_all};
use crate::engine::{
    law_conversion_is_a_function, one_answer, ConvertError, Engine, Features, Latent, Noise,
    Sessions, SynthInputs,
};
use crate::exact::{lemma_integer, Reals};
use crate::noise::{
    law_noise_depends_on_seed_alone, numbers, pcg_seeded, pcg_stream, seeded_rng,
};

verus! {

/// Rate of the microphone audio in Hz.
pub const IN_RATE: usize = 16000;

/// One content feature, in microphone samples.
pub const FRAME: usize = 320;

/// The layout of a window. All sizes are in 16 kHz samples, and multiples of one content
/// feature, so that the frames stay aligned through the whole chain.
#[derive(Clone, Copy, Debug, PartialEq, Eq, Structural)]
pub struct StreamCfg {
    /// Emitted per hop.
    pub block: usize,
    /// Context before the block.
    pub ctx_left: usize,
    /// Overlap of two hops.
    pub crossfade: usize,
    /// Range in which the overlap may move.
    pub sola_search: usize,
    /// Context after the search range.
    pub lookahead: usize,
    /// Pitch shift.
    pub pitch_semitones: i32,
    /// Seed of the synthesizer's noise.
    pub seed: u64,
}

impl Default for StreamCfg {
    fn default() -> (r: Self)
        ensures
            r == (StreamCfg {
                block: 2560,
                ctx_left: 4160,
                crossfade: 1280,
                sola_search: 320,
                lookahead: 0,
                pitch_semitones: 0,
                seed: 1337,
            }),
    {
        StreamCfg {
            block: 2560,
            ctx_left: 4160,
            crossfade: 1280,
            sola_search: 320,
            lookahead: 0,
            pitch_semitones: 0,
            seed: 1337,
        }
    }
}

impl StreamCfg {
    /// Length of the window that is converted on every hop.
    pub open spec fn window(self) -> int {
        self.ctx_left + self.block + self.crossfade + self.sola_search + self.lookahead
    }

    /// Every size is a multiple of one content feature.
    pub open spec fn aligned(self) -> bool {
        &&& self.block % FRAME == 0
        &&& self.ctx_left % FRAME == 0
        &&& self.crossfade % FRAME == 0
        &&& self.sola_search % FRAME == 0
        &&& self.lookahead % FRAME == 0
    }

    /// The layout can be used at the output rate `out_sr`: it is aligned, and its sizes can be
    /// counted at both rates.
    pub open spec fn usable(self, out_sr: u32) -> bool {
        &&& self.aligned()
        &&& self.window() <= usize::MAX
        &&& self.window() * out_sr <= usize::MAX
    }

    /// Whether the layout can be used at the output rate `out_sr`.
    pub fn is_usable(&self, out_sr: u32) -> (r: bool)
        ensures
            r == self.usable(out_sr),
    {
        let total = self.ctx_left as u128 + self.block as u128 + self.crossfade as u128
            + self.sola_search as u128 + self.lookahead as u128;
        if total > usize::MAX as u128 {
            return false;
        }
        let window: usize = total as usize;
        self.block % FRAME == 0 && self.ctx_left % FRAME == 0 && self.crossfade % FRAME == 0
            && self.sola_search % FRAME == 0 && self.lookahead % FRAME == 0 && window.checked_mul(
            out_sr as usize,
        ).is_some()
    }
}

/// `n` microphone samples, in whole output samples.
pub open spec fn scaled(n: int, out_sr: u32) -> int {
    n * out_sr / 16000
}

/// `d` divides `n`.
pub open spec fn divides(d: int, n: int) -> bool {
    exists|k: int| n == #[trigger] (d * k)
}

/// `g` is the greatest common divisor of `a` and `b`.
pub open spec fn is_gcd(a: int, b: int, g: int) -> bool {
    &&& g >= 0
    &&& divides(g, a)
    &&& divides(g, b)
    &&& forall|d: int| #[trigger] divides(d, a) && divides(d, b) ==> divides(d, g)
}

/// A divisor of two numbers divides their linear combinations.
proof fn lemma_divides_combination(d: int, a: int, b: int, k: int)
    requires
        divides(d, a),
        divides(d, b),
    ensures
        divides(d, a + b * k),
{
    let i = choose|i: int| a == #[trigger] (d * i);
    let j = choose|j: int| b == #[trigger] (d * j);
    assert(a + b * k == d * (i + j * k)) by (nonlinear_arith)
        requires
            a == d * i,
            b == d * j,
    ;
}

/// The greatest common divisor of two numbers.
pub fn gcd(a: usize, b: usize) -> (r: usize)
    ensures
        is_gcd(a as int, b as int, r as int),
    decreases b,
{
    if b == 0 {
        proof {
            assert(a == a * 1);
            assert(0 == a * 0);
        }
        a
    } else {
        let r = gcd(b, a % b);
        proof {
            let (x, y) = (a as int, b as int);
            let q = x / y;
            lemma_fundamental_div_mod(x, y);
            lemma_divides_combination(r as int, x % y, y, q);
            assert forall|d: int| #[trigger] divides(d, x) && divides(d, y) implies divides(
                d,
                r as int,
            ) by {
                lemma_divides_combination(d, x, y, -q);
                assert(x + y * (-q) == x % y) by (nonlinear_arith)
                    requires
                        x == y * q + x % y,
                ;
            }
        }
        r
    }
}

/// Why a block could not be converted.
#[derive(Debug)]
pub enum StreamError<E> {
    /// The conversion of the window failed.
    Convert(ConvertError<E>),
    /// The converted window is shorter than its tail should be.
    TooShort {
        /// Length of the converted window.
        got: usize,
        /// Length that the tail needs.
        need: usize,
    },
}

/// A conversion chain with the window that it converts.
pub struct StreamEngine<T> {
    /// The chain.
    pub engine: Engine<T>,
    /// Layout of the window.
    pub cfg: StreamCfg,
    /// The window.
    pub in_buf: Vec<T>,
    /// Stitches the converted windows.
    pub sola: Sola<T>,
    /// Source of the synthesizer's noise.
    pub rng: Pcg64,
    /// Output samples per `ratio_den` microphone samples.
    pub ratio_num: usize,
    /// Microphone samples per `ratio_num` output samples.
    pub ratio_den: usize,
}

impl<T: Copy> StreamEngine<T> {
    /// The window has its length, and everything at the output rate fits it.
    pub open spec fn wf(&self) -> bool {
        &&& self.cfg.usable(self.engine.cfg.out_sr)
        &&& self.in_buf@.len() == self.cfg.window()
        &&& self.sola.wf()
        &&& self.sola.crossfade == scaled(self.cfg.crossfade as int, self.engine.cfg.out_sr)
        &&& self.sola.search == scaled(self.cfg.sola_search as int, self.engine.cfg.out_sr)
        &&& 0 < self.ratio_den <= IN_RATE
        &&& self.ratio_num * IN_RATE == self.engine.cfg.out_sr * self.ratio_den
    }

    /// Nothing has been pushed yet: the window is silent, and the generator is at the beginning of
    /// the numbers of its seed.
    pub open spec fn fresh(&self, n: Num<T>) -> bool {
        &&& self.wf()
        &&& self.in_buf@ == Seq::new(self.cfg.window() as nat, |i: int| n.zero())
        &&& self.sola.ramps(n)
        &&& !self.warm()
        &&& forall|k: nat| #[trigger] pcg_stream(self.rng, k) == pcg_seeded(self.cfg.seed, k)
    }

    /// Two streams with the same layout over the same window, at the same point.
    pub open spec fn alike(self, other: Self) -> bool {
        &&& self.engine.alike(other.engine)
        &&& self.cfg == other.cfg
        &&& self.in_buf@ == other.in_buf@
        &&& self.sola.alike(other.sola)
        &&& numbers(self.rng) == numbers(other.rng)
    }

    /// A block has been converted before.
    pub open spec fn warm(&self) -> bool {
        self.sola.buf is Some
    }

    /// Length of the converted tail that goes to the stitcher.
    pub open spec fn tail_len(&self) -> int {
        scaled(
            self.cfg.block + self.cfg.crossfade + self.cfg.sola_search,
            self.engine.cfg.out_sr,
        )
    }

    /// Length of the converted lookahead, which is cut off.
    pub open spec fn look_len(&self) -> int {
        scaled(self.cfg.lookahead as int, self.engine.cfg.out_sr)
    }

    /// The part of the converted window that goes to the stitcher.
    pub open spec fn tail_of(&self, out: Seq<T>) -> Seq<T> {
        let end = out.len() - self.look_len();
        out.subrange(end - self.tail_len(), end)
    }

    /// What becomes of the converted window `out`: the stitcher becomes `next`, and `r` is given.
    pub open spec fn emits<E>(
        &self,
        n: Num<T>,
        out: Seq<T>,
        next: Sola<T>,
        r: Result<Option<Vec<T>>, StreamError<E>>,
    ) -> bool {
        let need = self.tail_len() + self.look_len();
        if out.len() < need {
            &&& next == self.sola
            &&& r matches Err(StreamError::TooShort { got, need: n })
            &&& got == out.len()
            &&& n == need
        } else {
            r matches Ok(b) && self.sola.stitches(n, self.tail_of(out), next, b)
        }
    }

    /// Length of an emitted block.
    pub open spec fn block_len(&self) -> int {
        self.tail_len() - self.sola.crossfade - self.sola.search
    }

    /// Blocks can be pushed: the stream is well formed, and its chain can run on the window.
    pub open spec fn ready<
        E,
        CV: Fn(&Vec<T>) -> Result<Features<T>, E>,
        FF: Fn(&Vec<T>) -> Result<Vec<(T, T)>, E>,
        FC: Fn(&Vec<Vec<T>>) -> Result<Latent<T>, E>,
        SY: Fn(&SynthInputs<T>) -> Result<Vec<T>, E>,
        W: Copy,
        WO: Fn(Op<W>) -> W,
        WG: Fn(W, W) -> Rel,
        WZ: Fn(W) -> i128,
        NR: Fn(W) -> T,
    >(&self, s: Sessions<CV, FF, FC, SY, W, WO, WG, WZ, NR>) -> bool {
        &&& self.wf()
        &&& self.engine.ready::<E, CV, FF, FC, SY, W, WO, WG, WZ, NR>(s)
        &&& self.cfg.window() + 2 * self.engine.mel_fe.win <= usize::MAX
    }

    /// What becomes of a pushed block: the window rolls on by the block and is converted, and
    /// the tail of the converted window is stitched.
    pub open spec fn pushes<
        E,
        CV: Fn(&Vec<T>) -> Result<Features<T>, E>,
        FF: Fn(&Vec<T>) -> Result<Vec<(T, T)>, E>,
        FC: Fn(&Vec<Vec<T>>) -> Result<Latent<T>, E>,
        SY: Fn(&SynthInputs<T>) -> Result<Vec<T>, E>,
        W: Copy,
        WO: Fn(Op<W>) -> W,
        WG: Fn(W, W) -> Rel,
        WZ: Fn(W) -> i128,
        NR: Fn(W) -> T,
    >(
        self,
        n: Num<T>,
        s: Sessions<CV, FF, FC, SY, W, WO, WG, WZ, NR>,
        block: Seq<T>,
        next: Self,
        r: Result<Option<Vec<T>>, StreamError<E>>,
    ) -> bool {
        &&& next == (StreamEngine { in_buf: next.in_buf, sola: next.sola, rng: next.rng, ..self })
        &&& next.in_buf@ == self.in_buf@.skip(self.cfg.block as int) + block
        &&& exists|c: Result<Vec<T>, ConvertError<E>>|
            {
                &&& #[trigger] self.engine.converts(
                    n,
                    s,
                    next.in_buf@,
                    self.cfg.pitch_semitones,
                    Noise::Drawn { from: self.rng, to: next.rng },
                    c,
                )
                &&& match c {
                    Ok(out) => self.emits(n, out@, next.sola, r),
                    Err(e) => next.sola == self.sola && r == Err::<
                        Option<Vec<T>>,
                        StreamError<E>,
                    >(StreamError::Convert(e)),
                }
            }
    }

    /// `n` microphone samples, in whole output samples.
    fn scale(&self, n: usize) -> (r: usize)
        requires
            self.wf(),
            n <= self.cfg.window(),
        ensures
            r == scaled(n as int, self.engine.cfg.out_sr),
    {
        let ghost out_sr = self.engine.cfg.out_sr as int;
        proof {
            let (num, den) = (self.ratio_num as int, self.ratio_den as int);
            lemma_reduced_ratio(n as int, num, den, out_sr);
            assert(num <= out_sr) by (nonlinear_arith)
                requires
                    num * 16000 == out_sr * den,
                    0 < den <= 16000,
                    out_sr >= 0,
            ;
            assert(n * num <= self.cfg.window() * out_sr) by (nonlinear_arith)
                requires
                    0 <= n <= self.cfg.window(),
                    0 <= num <= out_sr,
            ;
        }
        n * self.ratio_num / self.ratio_den
    }

    /// A stream over a window of silence.
    pub fn new<O: Fn(Op<T>) -> T, G: Fn(T, T) -> Rel, Z: Fn(T) -> i128>(
        ar: &Arith<T, O, G, Z>,
        engine: Engine<T>,
        cfg: StreamCfg,
    ) -> (r: Self)
        requires
            ar.wf(),
            cfg.usable(engine.cfg.out_sr),
        ensures
            r.engine == engine,
            r.cfg == cfg,
            r.fresh(ar.model@),
    {
        let out_sr: usize = engine.cfg.out_sr as usize;
        let g = gcd(out_sr, IN_RATE);
        let window: usize = cfg.ctx_left + cfg.block + cfg.crossfade + cfg.sola_search
            + cfg.lookahead;
        proof {
            let (x, y) = (out_sr as int, IN_RATE as int);
            let d = g as int;
            let i = choose|i: int| x == #[trigger] (d * i);
            let j = choose|j: int| y == #[trigger] (d * j);
            assert(d > 0 && j > 0 && i >= 0) by (nonlinear_arith)
                requires
                    d >= 0,
                    x == d * i,
                    y == d * j,
                    x >= 0,
                    y == 16000,
            ;
            assert(x == i * d && y == j * d) by (nonlinear_arith)
                requires
                    x == d * i,
                    y == d * j,
            ;
            lemma_div_by_multiple(i, d);
            lemma_div_by_multiple(j, d);
            assert(i * 16000 == x * j && j <= 16000) by (nonlinear_arith)
                requires
                    x == i * d,
                    16000 == j * d,
                    d > 0,
                    j > 0,
            ;
            assert(cfg.crossfade * out_sr <= cfg.window() * out_sr && cfg.sola_search * out_sr
                <= cfg.window() * out_sr) by (nonlinear_arith)
                requires
                    cfg.crossfade <= cfg.window(),
                    cfg.sola_search <= cfg.window(),
                    out_sr >= 0,
            ;
        }
        let sola = Sola::new(ar, cfg.crossfade * out_sr / 16000, cfg.sola_search * out_sr / 16000);
        let mut in_buf: Vec<T> = Vec::new();
        let zero = ar.zero();
        while in_buf.len() < window
            invariant
                zero == ar.model@.zero(),
                in_buf@.len() <= window,
                in_buf@ == Seq::new(in_buf@.len(), |i: int| ar.model@.zero()),
            decreases window - in_buf@.len(),
        {
            in_buf.push(zero);
        }
        StreamEngine {
            engine,
            rng: seeded_rng(cfg.seed),
            in_buf,
            sola,
            cfg,
            ratio_num: out_sr / g,
            ratio_den: IN_RATE / g,
        }
    }

    /// The layout of the window.
    pub fn cfg(&self) -> (r: &StreamCfg)
        ensures
            *r == self.cfg,
    {
        &self.cfg
    }

    /// The stream with another pitch shift.
    pub open spec fn with_pitch(self, semitones: i32) -> Self {
        StreamEngine {
            cfg: StreamCfg { pitch_semitones: semitones, ..self.cfg },
            ..self
        }
    }

    /// Sets the pitch shift of the blocks to come.
    pub fn set_pitch(&mut self, semitones: i32)
        requires
            old(self).wf(),
        ensures
            final(self).wf(),
            *final(self) == old(self).with_pitch(semitones),
    {
        self.cfg.pitch_semitones = semitones;
    }

    /// Stitches the tail of a converted window.
    pub fn emit<O: Fn(Op<T>) -> T, G: Fn(T, T) -> Rel, Z: Fn(T) -> i128, E>(
        &mut self,
        ar: &Arith<T, O, G, Z>,
        out: &Vec<T>,
    ) -> (r: Result<Option<Vec<T>>, StreamError<E>>)
        requires
            ar.wf(),
            old(self).wf(),
        ensures
            final(self).wf(),
            *final(self) == (StreamEngine { sola: final(self).sola, ..*old(self) }),
            old(self).emits(ar.model@, out@, final(self).sola, r),
            r matches Ok(Some(b)) ==> b@.len() == old(self).block_len(),
    {
        let ghost out_sr = self.engine.cfg.out_sr;
        let tail_len = self.scale(self.cfg.block + self.cfg.crossfade + self.cfg.sola_search);
        let look_len = self.scale(self.cfg.lookahead);
        proof {
            let (a, b, c) = (
                self.cfg.block as int,
                self.cfg.crossfade as int,
                self.cfg.sola_search as int,
            );
            lemma_scaled_sum(a, b, c, self.cfg.lookahead as int, out_sr);
            assert((a + b + c + self.cfg.lookahead) * out_sr <= self.cfg.window() * out_sr)
                by (nonlinear_arith)
                requires
                    a + b + c + self.cfg.lookahead <= self.cfg.window(),
                    out_sr >= 0,
            ;
        }
        let len: usize = out.len();
        let need: usize = tail_len + look_len;
        if len < need {
            return Err(StreamError::TooShort { got: len, need });
        }
        let end: usize = len - look_len;
        let tail = copied_range(out.as_slice(), end - tail_len, end);
        let r = self.sola.process(ar, tail.as_slice());
        Ok(r)
    }

    /// Takes exactly one block of new microphone samples. Gives a stitched block of output
    /// once warm; `None` on the first (warmup) hop.
    pub fn push<
        O: Fn(Op<T>) -> T,
        G: Fn(T, T) -> Rel,
        Z: Fn(T) -> i128,
        E,
        CV: Fn(&Vec<T>) -> Result<Features<T>, E>,
        FF: Fn(&Vec<T>) -> Result<Vec<(T, T)>, E>,
        FC: Fn(&Vec<Vec<T>>) -> Result<Latent<T>, E>,
        SY: Fn(&SynthInputs<T>) -> Result<Vec<T>, E>,
        W: Copy,
        WO: Fn(Op<W>) -> W,
        WG: Fn(W, W) -> Rel,
        WZ: Fn(W) -> i128,
        NR: Fn(W) -> T,
    >(
        &mut self,
        ar: &Arith<T, O, G, Z>,
        s: &Sessions<CV, FF, FC, SY, W, WO, WG, WZ, NR>,
        block: &[T],
    ) -> (r: Result<Option<Vec<T>>, StreamError<E>>)
        requires
            ar.wf(),
            old(self).ready::<E, CV, FF, FC, SY, W, WO, WG, WZ, NR>(*s),
            block@.len() == old(self).cfg.block,
        ensures
            final(self).ready::<E, CV, FF, FC, SY, W, WO, WG, WZ, NR>(*s),
            old(self).pushes(ar.model@, *s, block@, *final(self), r),
            r matches Ok(b) ==> final(self).warm() && (b is Some <==> old(self).warm()),
            r is Err ==> final(self).warm() == old(self).warm(),
            r matches Ok(Some(b)) ==> b@.len() == old(self).block_len(),
    {
        let mut rolled = self.in_buf.split_off(self.cfg.block);
        push_all(&mut rolled, block);
        self.in_buf = rolled;
        assert(self.in_buf@ =~= old(self).in_buf@.skip(old(self).cfg.block as int) + block@);
        let c = self.engine.convert(
            ar,
            s,
            self.in_buf.as_slice(),
            self.cfg.pitch_semitones,
            &mut self.rng,
        );
        match c {
            Ok(out) => self.emit(ar, &out),
            Err(e) => Err(StreamError::Convert(e)),
        }
    }

    /// Output rate in Hz.
    pub fn out_sr(&self) -> (r: u32)
        ensures
            r == self.engine.cfg.out_sr,
    {
        self.engine.out_sr()
    }
}

/// A ratio may be reduced before it is applied.
proof fn lemma_reduced_ratio(n: int, num: int, den: int, sr: int)
    requires
        n >= 0,
        num >= 0,
        den > 0,
        num * 16000 == sr * den,
    ensures
        n * num / den == n * sr / 16000,
{
    let x = n * num;
    let y = n * sr;
    let q = x / den;
    let r = x % den;
    lemma_fundamental_div_mod(x, den);
    lemma_mod_bound(x, den);
    assert((y - 16000 * q) * den == 16000 * r) by (nonlinear_arith)
        requires
            x == den * q + r,
            x == n * num,
            y == n * sr,
            num * 16000 == sr * den,
    ;
    assert(0 <= y - 16000 * q < 16000) by (nonlinear_arith)
        requires
            (y - 16000 * q) * den == 16000 * r,
            0 <= r < den,
    ;
}

/// The parts of a tail are not longer than the tail, and the tail and the lookahead can be
/// counted together.
pub proof fn lemma_scaled_sum(a: int, b: int, c: int, l: int, out_sr: u32)
    requires
        0 <= a,
        0 <= b,
        0 <= c,
        0 <= l,
    ensures
        scaled(b, out_sr) + scaled(c, out_sr) <= scaled(a + b + c, out_sr),
        scaled(a + b + c, out_sr) + scaled(l, out_sr) <= (a + b + c + l) * out_sr,
        0 <= scaled(a + b + c, out_sr),
        0 <= scaled(l, out_sr),
{
    let sr = out_sr as int;
    assert(0 <= a * sr && 0 <= b * sr && 0 <= c * sr && 0 <= l * sr) by (nonlinear_arith)
        requires
            0 <= a,
            0 <= b,
            0 <= c,
            0 <= l,
            0 <= sr,
    ;
    assert((a + b + c) * sr == a * sr + b * sr + c * sr) by (nonlinear_arith);
    assert((a + b + c + l) * sr == a * sr + b * sr + c * sr + l * sr) by (nonlinear_arith);
}

/// The emitted block has the length of the pushed one, at the output rate: nothing is lost or
/// added by the crossfade, the search range and their rounding, at every output rate of which
/// one content feature is a whole number of samples.
pub proof fn law_block_length(cfg: StreamCfg, out_sr: u32)
    requires
        cfg.aligned(),
        out_sr % 50 == 0,
    ensures
        scaled(cfg.block + cfg.crossfade + cfg.sola_search, out_sr) - scaled(
            cfg.crossfade as int,
            out_sr,
        ) - scaled(cfg.sola_search as int, out_sr) == scaled(cfg.block as int, out_sr),
        scaled(cfg.block as int, out_sr) * IN_RATE == cfg.block * out_sr,
{
    lemma_aligned_scale(cfg.block as int, out_sr);
    lemma_aligned_scale(cfg.crossfade as int, out_sr);
    lemma_aligned_scale(cfg.sola_search as int, out_sr);
    lemma_aligned_scale(cfg.block + cfg.crossfade + cfg.sola_search, out_sr);
    let sr = out_sr as int;
    assert((cfg.block + cfg.crossfade + cfg.sola_search) * sr == cfg.block * sr + cfg.crossfade * sr
        + cfg.sola_search * sr) by (nonlinear_arith);
}

/// An aligned number of samples is scaled without rounding.
proof fn lemma_aligned_scale(n: int, out_sr: u32)
    requires
        n % 320 == 0,
        out_sr % 50 == 0,
    ensures
        scaled(n, out_sr) * 16000 == n * out_sr,
{
    let k = n / 320;
    let m = out_sr as int / 50;
    assert(n * out_sr == 16000 * (k * m)) by (nonlinear_arith)
        requires
            n == 320 * k,
            out_sr == 50 * m,
    ;
}

/// Frames stay aligned through the whole chain: an aligned number of samples is a whole number
/// of content features, and two synthesizer frames of 400 samples for each of them are exactly
/// as long, at 40 kHz, as the samples themselves.
pub proof fn law_frames_stay_aligned(n: int)
    requires
        n >= 0,
        n % (FRAME as int) == 0,
    ensures
        2 * (n / (FRAME as int)) * 400 == scaled(n, 40000),
        2 * scaled(n, 40000) == 5 * n,
{
}

/// The emitted block lags the newest input by the crossfade, the search range and the
/// lookahead: where the converted window is as long as the window at the output rate, the tail
/// begins where the block begins.
pub proof fn law_emitted_block_lags(cfg: StreamCfg, out_sr: u32)
    requires
        cfg.aligned(),
        out_sr % 50 == 0,
    ensures
        scaled(cfg.window(), out_sr) - scaled(cfg.lookahead as int, out_sr) - scaled(
            cfg.block + cfg.crossfade + cfg.sola_search,
            out_sr,
        ) == scaled(cfg.ctx_left as int, out_sr),
        cfg.window() - cfg.ctx_left - cfg.block == cfg.crossfade + cfg.sola_search
            + cfg.lookahead,
{
    let tail = cfg.block + cfg.crossfade + cfg.sola_search;
    lemma_aligned_scale(cfg.window(), out_sr);
    lemma_aligned_scale(cfg.lookahead as int, out_sr);
    lemma_aligned_scale(tail, out_sr);
    lemma_aligned_scale(cfg.ctx_left as int, out_sr);
    let sr = out_sr as int;
    assert(cfg.window() * sr == cfg.ctx_left * sr + tail * sr + cfg.lookahead * sr)
        by (nonlinear_arith)
        requires
            cfg.window() == cfg.ctx_left + tail + cfg.lookahead,
    ;
}

/// The last `len` samples of `s`.
pub open spec fn newest<T>(s: Seq<T>, len: int) -> Seq<T> {
    s.skip(s.len() - len)
}

/// The window always holds the newest samples: if it holds the newest of all samples so far, it
/// does so after one more block.
pub proof fn law_window_is_newest<T>(history: Seq<T>, block: Seq<T>, window: int)
    requires
        block.len() <= window <= history.len(),
    ensures
        newest(history, window).skip(block.len() as int) + block == newest(history + block, window),
{
    assert(newest(history, window).skip(block.len() as int) + block =~= newest(
        history + block,
        window,
    ));
}

/// Two pushed blocks gave the same samples, or failed alike.
pub open spec fn same_reply<T, E>(
    a: Result<Option<Vec<T>>, StreamError<E>>,
    b: Result<Option<Vec<T>>, StreamError<E>>,
) -> bool {
    match (a, b) {
        (Ok(Some(x)), Ok(Some(y))) => x@ == y@,
        (Ok(None), Ok(None)) => true,
        (Err(x), Err(y)) => x == y,
        _ => false,
    }
}

/// Two streams that begin with the same layout, the same seed and the same chain are alike.
pub proof fn law_same_seed_same_stream<T: Copy>(
    n: Num<T>,
    one: StreamEngine<T>,
    other: StreamEngine<T>,
)
    requires
        one.fresh(n),
        other.fresh(n),
        one.cfg == other.cfg,
        one.engine.alike(other.engine),
    ensures
        one.alike(other),
{
    law_noise_depends_on_seed_alone(one.cfg.seed, 0, one.rng, other.rng);
    assert(one.in_buf@ =~= other.in_buf@);
    assert(one.sola.cur_strength@ =~= other.sola.cur_strength@);
    assert(one.sola.prev_strength@ =~= other.sola.prev_strength@);
}

/// Two streams that are alike answer the same block alike, and are alike afterwards, where every
/// part of the outside work has one answer.
pub proof fn law_push_is_a_function<
    T: Copy,
    E,
    CV: Fn(&Vec<T>) -> Result<Features<T>, E>,
    FF: Fn(&Vec<T>) -> Result<Vec<(T, T)>, E>,
    FC: Fn(&Vec<Vec<T>>) -> Result<Latent<T>, E>,
    SY: Fn(&SynthInputs<T>) -> Result<Vec<T>, E>,
    W: Copy,
    WO: Fn(Op<W>) -> W,
    WG: Fn(W, W) -> Rel,
    WZ: Fn(W) -> i128,
    NR: Fn(W) -> T,
>(
    n: Num<T>,
    s: Sessions<CV, FF, FC, SY, W, WO, WG, WZ, NR>,
    one: StreamEngine<T>,
    other: StreamEngine<T>,
    block: Seq<T>,
    next: StreamEngine<T>,
    other_next: StreamEngine<T>,
    r: Result<Option<Vec<T>>, StreamError<E>>,
    other_r: Result<Option<Vec<T>>, StreamError<E>>,
)
    requires
        one_answer::<T, E, CV, FF, FC, SY, W, WO, WG, WZ, NR>(s),
        one.alike(other),
        one.pushes(n, s, block, next, r),
        other.pushes(n, s, block, other_next, other_r),
    ensures
        next.alike(other_next),
        same_reply(r, other_r),
{
    let c = choose|c: Result<Vec<T>, ConvertError<E>>|
        {
            &&& #[trigger] one.engine.converts(
                n,
                s,
                next.in_buf@,
                one.cfg.pitch_semitones,
                Noise::Drawn { from: one.rng, to: next.rng },
                c,
            )
            &&& match c {
                Ok(out) => one.emits(n, out@, next.sola, r),
                Err(e) => next.sola == one.sola && r == Err::<Option<Vec<T>>, StreamError<E>>(
                    StreamError::Convert(e),
                ),
            }
        };
    let d = choose|d: Result<Vec<T>, ConvertError<E>>|
        {
            &&& #[trigger] other.engine.converts(
                n,
                s,
                other_next.in_buf@,
                other.cfg.pitch_semitones,
                Noise::Drawn { from: other.rng, to: other_next.rng },
                d,
            )
            &&& match d {
                Ok(out) => other.emits(n, out@, other_next.sola, other_r),
                Err(e) => other_next.sola == other.sola && other_r == Err::<
                    Option<Vec<T>>,
                    StreamError<E>,
                >(StreamError::Convert(e)),
            }
        };
    law_conversion_is_a_function(
        n,
        s,
        one.engine,
        other.engine,
        next.in_buf@,
        one.cfg.pitch_semitones,
        (one.rng, next.rng),
        (other.rng, other_next.rng),
        c,
        d,
    );
    if let (Ok(x), Ok(y)) = (c, d) {
        assert(one.tail_of(x@) == other.tail_of(y@));
        if x@.len() >= one.tail_len() + one.look_len() {
            law_stitching_is_a_function(
                n,
                one.sola,
                other.sola,
                one.tail_of(x@),
                next.sola,
                other_next.sola,
                r->Ok_0,
                other_r->Ok_0,
            );
        }
    }
}

/// Sizes are scaled to the output rate and cut down to whole samples.
pub proof fn law_scaling_keeps_the_duration(n: int, out_sr: u32)
    requires
        n >= 0,
    ensures
        16000 * scaled(n, out_sr) <= n * out_sr < 16000 * (scaled(n, out_sr) + 1),
{
}

/// What goes to the stitcher is the newest of the converted window but for the lookahead: the block
/// with the crossfade and the search range, at the output rate.
pub proof fn law_tail_ends_before_the_lookahead<T: Copy>(se: StreamEngine<T>, out: Seq<T>)
    requires
        se.wf(),
        se.tail_len() + se.look_len() <= out.len(),
    ensures
        ({
            let tail = se.tail_of(out);
            let sr = se.engine.cfg.out_sr;
            let look = se.cfg.lookahead * sr / 16000;
            &&& 16000 * tail.len() <= (se.cfg.block + se.cfg.crossfade + se.cfg.sola_search) * sr
                < 16000 * (tail.len() + 1)
            &&& forall|i: int|
                0 <= i < tail.len() ==> #[trigger] tail[tail.len() - 1 - i] == out[out.len() - look
                    - 1 - i]
        }),
{
    let sr = se.engine.cfg.out_sr as int;
    let a = se.cfg.block + se.cfg.crossfade + se.cfg.sola_search;
    assert(0 <= a * sr && 0 <= se.cfg.lookahead * sr) by (nonlinear_arith)
        requires
            a >= 0,
            sr >= 0,
    ;
}

/// What is answered to a pushed block whose window was converted to `c`: the conversion's own
/// error; that the converted window is too short, where it cannot hold a tail of `tail_len` samples
/// with `look` samples behind it; else what the stitcher makes of that tail.
pub open spec fn answered<T: Copy, E>(
    n: Num<T>,
    before: Sola<T>,
    after: Sola<T>,
    tail_len: int,
    look: int,
    c: Result<Vec<T>, ConvertError<E>>,
    r: Result<Option<Vec<T>>, StreamError<E>>,
) -> bool {
    match c {
        Err(e) => {
            &&& after == before
            &&& r matches Err(StreamError::Convert(f)) && f == e
        },
        Ok(out) => if out@.len() < tail_len + look {
            &&& after == before
            &&& r matches Err(StreamError::TooShort { got, need })
            &&& got == out@.len()
            &&& need == tail_len + look
        } else {
            exists|tail: Seq<T>, b: Option<Vec<T>>|
                {
                    &&& r matches Ok(given) && given == b
                    &&& #[trigger] before.stitches(n, tail, after, b)
                    &&& tail.len() == tail_len
                    &&& forall|i: int|
                        0 <= i < tail_len ==> #[trigger] tail[tail_len - 1 - i] == out@[out@.len()
                            - look - 1 - i]
                }
        },
    }
}

/// A pushed block goes behind the window, whose oldest samples make room for it. The window is
/// converted with the pitch shift and the noise of the stream. What is stitched of it ends before
/// the lookahead, and is as long as the block, the crossfade and the search range; all that at the
/// output rate, in whole samples.
pub proof fn law_pushed_block_is_converted<
    T: Copy,
    E,
    CV: Fn(&Vec<T>) -> Result<Features<T>, E>,
    FF: Fn(&Vec<T>) -> Result<Vec<(T, T)>, E>,
    FC: Fn(&Vec<Vec<T>>) -> Result<Latent<T>, E>,
    SY: Fn(&SynthInputs<T>) -> Result<Vec<T>, E>,
    W: Copy,
    WO: Fn(Op<W>) -> W,
    WG: Fn(W, W) -> Rel,
    WZ: Fn(W) -> i128,
    NR: Fn(W) -> T,
>(
    n: Num<T>,
    s: Sessions<CV, FF, FC, SY, W, WO, WG, WZ, NR>,
    se: StreamEngine<T>,
    block: Seq<T>,
    next: StreamEngine<T>,
    r: Result<Option<Vec<T>>, StreamError<E>>,
    tail_len: int,
    look: int,
)
    requires
        se.wf(),
        block.len() == se.cfg.block,
        se.pushes(n, s, block, next, r),
        16000 * tail_len <= (se.cfg.block + se.cfg.crossfade + se.cfg.sola_search)
            * se.engine.cfg.out_sr < 16000 * (tail_len + 1),
        16000 * look <= se.cfg.lookahead * se.engine.cfg.out_sr < 16000 * (look + 1),
    ensures
        next.in_buf@.len() == se.in_buf@.len(),
        forall|k: int|
            0 < k <= se.in_buf@.len() ==> #[trigger] next.in_buf@[se.in_buf@.len() - k] == if k
                <= block.len() {
                block[block.len() - k]
            } else {
                se.in_buf@[se.in_buf@.len() - (k - block.len())]
            },
        next.cfg == se.cfg,
        next.engine == se.engine,
        exists|c: Result<Vec<T>, ConvertError<E>>|
            {
                &&& #[trigger] se.engine.converts(
                    n,
                    s,
                    next.in_buf@,
                    se.cfg.pitch_semitones,
                    Noise::Drawn { from: se.rng, to: next.rng },
                    c,
                )
                &&& answered(n, se.sola, next.sola, tail_len, look, c, r)
            },
{
    let c = choose|c: Result<Vec<T>, ConvertError<E>>|
        {
            &&& #[trigger] se.engine.converts(
                n,
                s,
                next.in_buf@,
                se.cfg.pitch_semitones,
                Noise::Drawn { from: se.rng, to: next.rng },
                c,
            )
            &&& match c {
                Ok(out) => se.emits(n, out@, next.sola, r),
                Err(e) => next.sola == se.sola && r == Err::<
                    Option<Vec<T>>,
                    StreamError<E>,
                >(StreamError::Convert(e)),
            }
        };
    law_scaling_keeps_the_duration(
        se.cfg.block + se.cfg.crossfade + se.cfg.sola_search,
        se.engine.cfg.out_sr,
    );
    law_scaling_keeps_the_duration(se.cfg.lookahead as int, se.engine.cfg.out_sr);
    assert(se.tail_len() == tail_len);
    assert(se.look_len() == look);
    assert(tail_len >= 0 && look >= 0) by (nonlinear_arith)
        requires
            (se.cfg.block + se.cfg.crossfade + se.cfg.sola_search) * se.engine.cfg.out_sr < 16000
                * (tail_len + 1),
            se.cfg.lookahead * se.engine.cfg.out_sr < 16000 * (look + 1),
            se.cfg.block + se.cfg.crossfade + se.cfg.sola_search >= 0,
            se.cfg.lookahead >= 0,
            se.engine.cfg.out_sr >= 0,
    ;
    match c {
        Ok(out) => {
            if out@.len() >= tail_len + look {
                let tail = se.tail_of(out@);
                let b = match r {
                    Ok(b) => b,
                    Err(_) => None,
                };
                assert(se.sola.stitches(n, tail, next.sola, b));
                assert forall|i: int| 0 <= i < tail_len implies #[trigger] tail[tail_len - 1 - i]
                    == out@[out@.len() - look - 1 - i] by {}
            }
        },
        Err(_) => {},
    }
    assert(answered(n, se.sola, next.sola, tail_len, look, c, r));
}

/// A layout can be used exactly if each of its sizes is so many content features of 320 samples,
/// and the whole window can be counted at both rates.
pub proof fn law_usable_layouts(cfg: StreamCfg, out_sr: u32)
    ensures
        ({
            let all = cfg.ctx_left + cfg.block + cfg.crossfade + cfg.sola_search + cfg.lookahead;
            cfg.usable(out_sr) <==> {
                &&& divides(320, cfg.block as int)
                &&& divides(320, cfg.ctx_left as int)
                &&& divides(320, cfg.crossfade as int)
                &&& divides(320, cfg.sola_search as int)
                &&& divides(320, cfg.lookahead as int)
                &&& all <= usize::MAX
                &&& all * out_sr <= usize::MAX
            }
        }),
{
    lemma_divides_by_feature(cfg.block as int);
    lemma_divides_by_feature(cfg.ctx_left as int);
    lemma_divides_by_feature(cfg.crossfade as int);
    lemma_divides_by_feature(cfg.sola_search as int);
    lemma_divides_by_feature(cfg.lookahead as int);
}

proof fn lemma_divides_by_feature(size: int)
    ensures
        divides(320, size) <==> size % 320 == 0,
{
    if size % 320 == 0 {
        assert(size == 320 * (size / 320));
    }
    if divides(320, size) {
        let k = choose|k: int| size == #[trigger] (320 * k);
        assert((320 * k) % 320 == 0);
    }
}

/// A fresh stream begins in silence, gives nothing of what was before it, and draws its noise from
/// the beginning of the numbers of its seed.
pub proof fn law_fresh_stream<T: Copy>(n: Num<T>, m: Reals<T>, se: StreamEngine<T>, i: int, k: nat)
    requires
        m.computes(n),
        se.fresh(n),
        0 <= i < se.in_buf@.len(),
    ensures
        m.of(se.in_buf@[i]) == 0real,
        se.in_buf@.len() == se.cfg.ctx_left + se.cfg.block + se.cfg.crossfade + se.cfg.sola_search
            + se.cfg.lookahead,
        se.sola.buf is None,
        pcg_stream(se.rng, k) == pcg_seeded(se.cfg.seed, k),
{
    lemma_integer(n, m, 0);
}

} // verus!
