//! The conversion chain: content features, pitch track, synthesizer.
//!
//! The three networks and the Fourier transform are closures; the chain around them decides
//! what each of them is given and what becomes of its answer.
use rand_pcg::Pcg64;
use vstd::prelude::*;

use crate::arith::{Arith, Num, Op, Rel};
use crate::dsp::f0decode::{all_decodable, frequencies, frequency, F0Decoder};
use crate::dsp::mel::{
    fft_ready, law_failure_is_a_function, law_picture_is_a_function, law_picture_or_failure,
    one_spectrum, MelFrontend,
};
use crate::dsp::table::{
    copied, double_rows, doubled, law_cells_are_in_row_order, rows_in, rows_of, split_rows,
};
use crate::noise::{
    draws, dries_up, drawn, law_draws_depend_on_numbers_alone,
    law_drying_up_depends_on_numbers_alone, law_dry_generators_stay_alike, lemma_drawn_together,
    lemma_dries_up_later, lemma_dries_up_sooner, numbers, one_sample,
};
use crate::exact::Reals;
use crate::pitch::{all_shifted, buckets, coarse, shift_semitones, shifted, to_coarse};

verus! {

/// Width of a content feature.
pub const FEATURE_DIM: usize = 768;

/// Width of a log-mel row that the pitch network takes.
pub const MEL_DIM: usize = 128;

/// Rows of the synthesizer's prior noise.
pub const NOISE_DIM: usize = 192;

/// The activation above which a frame is voiced.
#[derive(Clone, Copy, Debug)]
pub enum Threshold<T> {
    /// Six thousandths.
    Standard,
    /// A number of the caller's.
    Is(T),
}

impl<T: Copy> Threshold<T> {
    /// The threshold as a number.
    pub open spec fn of(self, n: Num<T>) -> T {
        match self {
            Threshold::Standard => n.ratio(6, 1000),
            Threshold::Is(x) => x,
        }
    }

    /// The threshold as a number.
    pub fn value<O: Fn(Op<T>) -> T, G: Fn(T, T) -> Rel, Z: Fn(T) -> i128>(
        &self,
        ar: &Arith<T, O, G, Z>,
    ) -> (r: T)
        requires
            ar.wf(),
        ensures
            r == self.of(ar.model@),
    {
        match self {
            Threshold::Standard => ar.ratio(6, 1000),
            Threshold::Is(x) => *x,
        }
    }
}

/// Where the networks lie, and what the synthesizer's output is.
#[derive(Clone, Debug)]
pub struct EngineCfg<T> {
    /// Path of the content network.
    pub contentvec_onnx: String,
    /// Path of the pitch network.
    pub fcpe_onnx: String,
    /// Path of the synthesizer.
    pub synth_onnx: String,
    /// Path of the frontend tables.
    pub frontend_npz: String,
    /// Output samples per synthesizer frame.
    pub upp: usize,
    /// Output rate in Hz.
    pub out_sr: u32,
    /// Voicing threshold.
    pub f0_threshold: Threshold<T>,
}

impl<T> Default for EngineCfg<T> {
    fn default() -> (r: Self)
        ensures
            r.contentvec_onnx@ == "server/pretrain/content_vec_500.onnx"@,
            r.fcpe_onnx@ == "native/golden/fcpe_fp32.onnx"@,
            r.synth_onnx@ == "native/golden/synth_alexjones_fp32.onnx"@,
            r.frontend_npz@ == "native/golden/fcpe_frontend.npz"@,
            r.upp == 400,
            r.out_sr == 40000,
            r.f0_threshold is Standard,
    {
        EngineCfg {
            contentvec_onnx: "server/pretrain/content_vec_500.onnx".to_owned(),
            fcpe_onnx: "native/golden/fcpe_fp32.onnx".to_owned(),
            synth_onnx: "native/golden/synth_alexjones_fp32.onnx".to_owned(),
            frontend_npz: "native/golden/fcpe_frontend.npz".to_owned(),
            upp: 400,
            out_sr: 40000,
            f0_threshold: Threshold::Standard,
        }
    }
}

/// Answer of the content network: `frames` features of [`FEATURE_DIM`] numbers, row by row.
pub struct Features<T> {
    /// Number of frames.
    pub frames: usize,
    /// The numbers.
    pub data: Vec<T>,
}

/// Answer of the pitch network: `frames` rows of `bins` activations, row by row.
pub struct Latent<T> {
    /// Number of frames.
    pub frames: usize,
    /// Number of bins.
    pub bins: usize,
    /// The activations.
    pub data: Vec<T>,
}

/// What the synthesizer is given.
pub struct SynthInputs<T> {
    /// Content features, one row per synthesizer frame.
    pub feats: Vec<Vec<T>>,
    /// Number of synthesizer frames.
    pub p_len: i64,
    /// Coarse pitch of every frame.
    pub pitch: Vec<i64>,
    /// Frequency of every frame.
    pub pitchf: Vec<T>,
    /// Speaker.
    pub sid: i64,
    /// Prior noise.
    pub rnd: Vec<T>,
    /// Excitation noise.
    pub nsf_noise: Vec<T>,
}

/// [`SynthInputs`] by contents.
pub ghost struct SynthView<T> {
    /// Content features.
    pub feats: Seq<Seq<T>>,
    /// Number of synthesizer frames.
    pub p_len: int,
    /// Coarse pitch.
    pub pitch: Seq<i64>,
    /// Frequency.
    pub pitchf: Seq<T>,
    /// Speaker.
    pub sid: int,
    /// Prior noise.
    pub rnd: Seq<T>,
    /// Excitation noise.
    pub nsf_noise: Seq<T>,
}

impl<T> View for SynthInputs<T> {
    type V = SynthView<T>;

    open spec fn view(&self) -> SynthView<T> {
        SynthView {
            feats: rows_of(self.feats@),
            p_len: self.p_len as int,
            pitch: self.pitch@,
            pitchf: self.pitchf@,
            sid: self.sid as int,
            rnd: self.rnd@,
            nsf_noise: self.nsf_noise@,
        }
    }
}

/// The synthesizer's noise: given from outside, or drawn from a generator.
pub ghost enum Noise<T> {
    /// Given from outside.
    Given {
        /// Prior noise.
        rnd: Seq<T>,
        /// Excitation noise.
        nsf_noise: Seq<T>,
    },
    /// Drawn from a generator.
    Drawn {
        /// The generator before the conversion.
        from: Pcg64,
        /// The generator after it.
        to: Pcg64,
    },
}

impl<T> Noise<T> {
    /// No number was drawn.
    pub open spec fn untouched(self) -> bool {
        self matches Noise::Drawn { from, to } ==> to == from
    }
}

/// Why a window could not be converted.
#[derive(Debug)]
pub enum ConvertError<E> {
    /// A network or the transform failed.
    Session(E),
    /// An answer does not have the shape that the chain expects.
    Shape,
    /// The generator gives no usable numbers.
    Noise,
}

/// The outside work of a conversion.
#[verifier::reject_recursive_types(W)]
pub struct Sessions<CV, FF, FC, SY, W, WO, WG, WZ, NR> {
    /// The content network.
    pub contentvec: CV,
    /// The forward real Fourier transform.
    pub fft: FF,
    /// The pitch network.
    pub fcpe: FC,
    /// The synthesizer.
    pub synth: SY,
    /// The arithmetic in which noise is shaped.
    pub wide: Arith<W, WO, WG, WZ>,
    /// The sample that a number of noise makes.
    pub narrow: NR,
}

/// What a window holds: its content features and its pitch track; or why it could not be
/// converted.
pub type Analysis<T, E> = Result<(Seq<Seq<T>>, Seq<T>), ConvertError<E>>;

/// The conversion chain, without its networks.
pub struct Engine<T> {
    /// Configuration.
    pub cfg: EngineCfg<T>,
    /// Frontend of the pitch network.
    pub mel_fe: MelFrontend<T>,
    /// Decoder of the pitch network's answer.
    pub f0_dec: F0Decoder<T>,
}

/// The last `len` entries of `s`, with zeros before them where `s` has fewer.
pub open spec fn tail_aligned<T>(s: Seq<T>, len: nat, zero: T) -> Seq<T> {
    Seq::new(
        len,
        |i: int|
            if i + s.len() >= len {
                s[i + s.len() - len]
            } else {
                zero
            },
    )
}

/// The last `len` entries of `s`, with zeros before them where `s` has fewer.
pub fn align_tail<T: Copy>(s: &Vec<T>, len: usize, zero: T) -> (r: Vec<T>)
    ensures
        r@ == tail_aligned(s@, len as nat, zero),
{
    let mut r: Vec<T> = Vec::new();
    let size: usize = s.len();
    while r.len() < len
        invariant
            size == s@.len(),
            r@.len() <= len,
            r@ == tail_aligned(s@, len as nat, zero).take(r@.len() as int),
        decreases len - r@.len(),
    {
        let i: usize = r.len();
        let left: usize = len - i;
        if left <= size {
            r.push(s[size - left]);
        } else {
            r.push(zero);
        }
    }
    assert(tail_aligned(s@, len as nat, zero).take(len as int) =~= tail_aligned(
        s@,
        len as nat,
        zero,
    ));
    r
}

/// The content network may answer `audio` with `frames` features, stored in `data`.
pub open spec fn features_give<T, E, CV: Fn(&Vec<T>) -> Result<Features<T>, E>>(
    cv: CV,
    audio: Seq<T>,
    frames: usize,
    data: Seq<T>,
) -> bool {
    exists|i: Vec<T>, o: Features<T>| #[trigger]
        call_ensures(cv, (&i,), Ok::<Features<T>, E>(o)) && i@ == audio && o.frames == frames
            && o.data@ == data
}

/// The content network may answer `audio` with `e`.
pub open spec fn features_fail<T, E, CV: Fn(&Vec<T>) -> Result<Features<T>, E>>(
    cv: CV,
    audio: Seq<T>,
    e: E,
) -> bool {
    exists|i: Vec<T>| #[trigger] call_ensures(cv, (&i,), Err::<Features<T>, E>(e)) && i@ == audio
}

/// The pitch network may answer `mel` with `frames` rows of `bins` activations, stored in
/// `data`.
pub open spec fn latent_gives<T, E, FC: Fn(&Vec<Vec<T>>) -> Result<Latent<T>, E>>(
    fc: FC,
    mel: Seq<Seq<T>>,
    frames: usize,
    bins: usize,
    data: Seq<T>,
) -> bool {
    exists|i: Vec<Vec<T>>, o: Latent<T>| #[trigger]
        call_ensures(fc, (&i,), Ok::<Latent<T>, E>(o)) && rows_of(i@) == mel && o.frames == frames
            && o.bins == bins && o.data@ == data
}

/// The pitch network may answer `mel` with `e`.
pub open spec fn latent_fails<T, E, FC: Fn(&Vec<Vec<T>>) -> Result<Latent<T>, E>>(
    fc: FC,
    mel: Seq<Seq<T>>,
    e: E,
) -> bool {
    exists|i: Vec<Vec<T>>| #[trigger]
        call_ensures(fc, (&i,), Err::<Latent<T>, E>(e)) && rows_of(i@) == mel
}

/// The synthesizer may answer `inputs` with `out`.
pub open spec fn synth_gives<T, E, SY: Fn(&SynthInputs<T>) -> Result<Vec<T>, E>>(
    sy: SY,
    inputs: SynthView<T>,
    out: Seq<T>,
) -> bool {
    exists|i: SynthInputs<T>, o: Vec<T>| #[trigger]
        call_ensures(sy, (&i,), Ok::<Vec<T>, E>(o)) && i@ == inputs && o@ == out
}

/// The synthesizer may answer `inputs` with `e`.
pub open spec fn synth_fails<T, E, SY: Fn(&SynthInputs<T>) -> Result<Vec<T>, E>>(
    sy: SY,
    inputs: SynthView<T>,
    e: E,
) -> bool {
    exists|i: SynthInputs<T>| #[trigger]
        call_ensures(sy, (&i,), Err::<Vec<T>, E>(e)) && i@ == inputs
}

/// First `rnd`, then `nsf_noise` is drawn from the generator `from`; `to` is what is left of it.
pub open spec fn both_drawn<T, W, NR: Fn(W) -> T>(
    wide: Num<W>,
    narrow: NR,
    from: Pcg64,
    to: Pcg64,
    rnd: Seq<T>,
    nsf_noise: Seq<T>,
) -> bool {
    exists|mid: Pcg64| #[trigger]
        drawn(wide, narrow, from, mid, rnd) && drawn(wide, narrow, mid, to, nsf_noise)
}

/// The synthesizer's answer to content features `feats`, the pitch track `pitchf` and the
/// noise is the result.
pub open spec fn synthesized<T, E, SY: Fn(&SynthInputs<T>) -> Result<Vec<T>, E>>(
    n: Num<T>,
    sy: SY,
    feats: Seq<Seq<T>>,
    pitchf: Seq<T>,
    rnd: Seq<T>,
    nsf_noise: Seq<T>,
    r: Result<Vec<T>, ConvertError<E>>,
) -> bool {
    let inputs = synth_inputs(n, feats, pitchf, rnd, nsf_noise);
    match r {
        Ok(out) => synth_gives::<T, E, SY>(sy, inputs, out@),
        Err(ConvertError::Session(e)) => synth_fails::<T, E, SY>(sy, inputs, e),
        Err(_) => false,
    }
}

/// The synthesizer inputs of content features `feats` and the pitch track `pitchf`: every
/// feature twice, and the coarse pitch of every frame.
pub open spec fn synth_inputs<T>(
    n: Num<T>,
    feats: Seq<Seq<T>>,
    pitchf: Seq<T>,
    rnd: Seq<T>,
    nsf_noise: Seq<T>,
) -> SynthView<T> {
    SynthView {
        feats: doubled(feats),
        p_len: 2 * feats.len() as int,
        pitch: Seq::new(pitchf.len(), |i: int| coarse(n, pitchf[i]) as i64),
        pitchf,
        sid: 0,
        rnd,
        nsf_noise,
    }
}

/// An analysis by contents.
pub open spec fn analysis_view<T, E>(
    a: Result<(Vec<Vec<T>>, Vec<T>), ConvertError<E>>,
) -> Analysis<T, E> {
    match a {
        Ok((feats, pitchf)) => Ok((rows_of(feats@), pitchf@)),
        Err(e) => Err(e),
    }
}

/// Asks the synthesizer.
fn synthesize<
    T: Copy,
    O: Fn(Op<T>) -> T,
    G: Fn(T, T) -> Rel,
    Z: Fn(T) -> i128,
    E,
    SY: Fn(&SynthInputs<T>) -> Result<Vec<T>, E>,
>(
    ar: &Arith<T, O, G, Z>,
    synth: &SY,
    feats: &Vec<Vec<T>>,
    pitchf: Vec<T>,
    rnd: Vec<T>,
    nsf_noise: Vec<T>,
) -> (r: Result<Vec<T>, ConvertError<E>>)
    requires
        ar.wf(),
        feats@.len() * FEATURE_DIM <= usize::MAX,
        forall|i: SynthInputs<T>| #[trigger] call_requires(*synth, (&i,)),
    ensures
        synthesized::<T, E, SY>(
            ar.model@,
            *synth,
            rows_of(feats@),
            pitchf@,
            rnd@,
            nsf_noise@,
            r,
        ),
{
    let pitch = to_coarse(ar, &pitchf);
    let total: usize = feats.len() * 2;
    let inputs = SynthInputs {
        feats: double_rows(feats),
        p_len: total as i64,
        pitch,
        pitchf,
        sid: 0,
        rnd,
        nsf_noise,
    };
    proof {
        let view = synth_inputs(
            ar.model@,
            rows_of(feats@),
            inputs.pitchf@,
            inputs.rnd@,
            inputs.nsf_noise@,
        );
        assert(inputs@.pitch =~= view.pitch);
        assert(inputs@ == view);
    }
    match synth(&inputs) {
        Ok(out) => {
            assert(synth_gives::<T, E, SY>(*synth, inputs@, out@));
            Ok(out)
        },
        Err(e) => {
            assert(synth_fails::<T, E, SY>(*synth, inputs@, e));
            Err(ConvertError::Session(e))
        },
    }
}

impl<T: Copy> Engine<T> {
    /// The pitch track of `frames` synthesizer frames: decoded, shifted, and aligned at the
    /// end.
    pub open spec fn pitch_track(
        &self,
        n: Num<T>,
        latent: Seq<Seq<T>>,
        semitones: i32,
        frames: nat,
    ) -> Seq<T> {
        tail_aligned(
            Seq::new(
                latent.len(),
                |t: int|
                    shifted(
                        n,
                        frequency(
                            n,
                            self.f0_dec.cent_table@,
                            latent[t],
                            self.cfg.f0_threshold.of(n),
                        ),
                        semitones,
                    ),
            ),
            frames,
            n.zero(),
        )
    }

    /// The chain can run: the frontend is well formed, and the outside work is defined on
    /// whatever it is given.
    pub open spec fn ready<
        E,
        CV: Fn(&Vec<T>) -> Result<Features<T>, E>,
        FF: Fn(&Vec<T>) -> Result<Vec<(T, T)>, E>,
        FC: Fn(&Vec<Vec<T>>) -> Result<Latent<T>, E>,
        SY: Fn(&SynthInputs<T>) -> Result<Vec<T>, E>,
        W: Copy,
        WO: Fn(Op<W>) -> W,
        WG: Fn(W, W) -> Rel,
        WZ: Fn(W) -> i128,
        NR: Fn(W) -> T,
    >(&self, s: Sessions<CV, FF, FC, SY, W, WO, WG, WZ, NR>) -> bool {
        &&& self.mel_fe.wf()
        &&& fft_ready::<T, E, FF>(s.fft, self.mel_fe.n_fft)
        &&& forall|i: Vec<T>| #[trigger] call_requires(s.contentvec, (&i,))
        &&& forall|i: Vec<Vec<T>>| #[trigger] call_requires(s.fcpe, (&i,))
        &&& forall|i: SynthInputs<T>| #[trigger] call_requires(s.synth, (&i,))
        &&& s.wide.wf()
        &&& forall|x: W| #[trigger] call_requires(s.narrow, (x,))
    }

    /// `a` is an analysis of `audio`: its content features and its pitch track, or why there are
    /// none. The content network is asked first, and its answer decides how the chain goes on.
    pub open spec fn analyses<
        E,
        CV: Fn(&Vec<T>) -> Result<Features<T>, E>,
        FF: Fn(&Vec<T>) -> Result<Vec<(T, T)>, E>,
        FC: Fn(&Vec<Vec<T>>) -> Result<Latent<T>, E>,
        SY: Fn(&SynthInputs<T>) -> Result<Vec<T>, E>,
        W: Copy,
        WO: Fn(Op<W>) -> W,
        WG: Fn(W, W) -> Rel,
        WZ: Fn(W) -> i128,
        NR: Fn(W) -> T,
    >(
        &self,
        n: Num<T>,
        s: Sessions<CV, FF, FC, SY, W, WO, WG, WZ, NR>,
        audio: Seq<T>,
        semitones: i32,
        a: Analysis<T, E>,
    ) -> bool {
        ||| a matches Err(ConvertError::Session(e)) && features_fail::<T, E, CV>(
            s.contentvec,
            audio,
            e,
        )
        ||| exists|frames: usize, data: Seq<T>| #[trigger]
            features_give::<T, E, CV>(s.contentvec, audio, frames, data) && self.after_features(
                n,
                s,
                audio,
                semitones,
                frames,
                data,
                a,
            )
    }

    /// The analysis from the content features on: they must fill whole frames; then the log-mel
    /// picture is made.
    pub open spec fn after_features<
        E,
        CV: Fn(&Vec<T>) -> Result<Features<T>, E>,
        FF: Fn(&Vec<T>) -> Result<Vec<(T, T)>, E>,
        FC: Fn(&Vec<Vec<T>>) -> Result<Latent<T>, E>,
        SY: Fn(&SynthInputs<T>) -> Result<Vec<T>, E>,
        W: Copy,
        WO: Fn(Op<W>) -> W,
        WG: Fn(W, W) -> Rel,
        WZ: Fn(W) -> i128,
        NR: Fn(W) -> T,
    >(
        &self,
        n: Num<T>,
        s: Sessions<CV, FF, FC, SY, W, WO, WG, WZ, NR>,
        audio: Seq<T>,
        semitones: i32,
        frames: usize,
        data: Seq<T>,
        a: Analysis<T, E>,
    ) -> bool {
        if data.len() != frames * FEATURE_DIM {
            a matches Err(ConvertError::Shape)
        } else {
            ||| a matches Err(ConvertError::Session(e)) && self.mel_fe.fails::<E, FF>(
                n,
                s.fft,
                audio,
                e,
            )
            ||| exists|mel: Seq<Seq<T>>| #[trigger]
                self.mel_fe.pictures::<E, FF>(n, s.fft, audio, mel) && self.after_mel(
                    n,
                    s,
                    semitones,
                    rows_in(data, frames as nat, FEATURE_DIM as nat),
                    mel,
                    a,
                )
        }
    }

    /// The analysis from the log-mel picture on: it must have the width that the pitch network
    /// takes; then that network is asked.
    pub open spec fn after_mel<
        E,
        CV: Fn(&Vec<T>) -> Result<Features<T>, E>,
        FF: Fn(&Vec<T>) -> Result<Vec<(T, T)>, E>,
        FC: Fn(&Vec<Vec<T>>) -> Result<Latent<T>, E>,
        SY: Fn(&SynthInputs<T>) -> Result<Vec<T>, E>,
        W: Copy,
        WO: Fn(Op<W>) -> W,
        WG: Fn(W, W) -> Rel,
        WZ: Fn(W) -> i128,
        NR: Fn(W) -> T,
    >(
        &self,
        n: Num<T>,
        s: Sessions<CV, FF, FC, SY, W, WO, WG, WZ, NR>,
        semitones: i32,
        feats: Seq<Seq<T>>,
        mel: Seq<Seq<T>>,
        a: Analysis<T, E>,
    ) -> bool {
        if self.mel_fe.mel_basis@.len() != MEL_DIM {
            a matches Err(ConvertError::Shape)
        } else {
            ||| a matches Err(ConvertError::Session(e)) && latent_fails::<T, E, FC>(s.fcpe, mel, e)
            ||| exists|frames: usize, bins: usize, data: Seq<T>| #[trigger]
                latent_gives::<T, E, FC>(s.fcpe, mel, frames, bins, data) && a
                    == self.after_latent::<E>(n, semitones, feats, frames, bins, data)
        }
    }

    /// The analysis from the pitch network's answer on: it must be a full table, and have the bins
    /// that its frames are decoded from.
    pub open spec fn after_latent<E>(
        &self,
        n: Num<T>,
        semitones: i32,
        feats: Seq<Seq<T>>,
        frames: usize,
        bins: usize,
        data: Seq<T>,
    ) -> Analysis<T, E> {
        let latent = rows_in(data, frames as nat, bins as nat);
        let entries = self.f0_dec.cent_table@.len() as int;
        if data.len() != frames * bins || !all_decodable(n, entries, latent) {
            Err(ConvertError::Shape)
        } else {
            Ok((feats, self.pitch_track(n, latent, semitones, 2 * feats.len())))
        }
    }

    /// `r` is a conversion of `audio`: its analysis, resynthesized.
    pub open spec fn converts<
        E,
        CV: Fn(&Vec<T>) -> Result<Features<T>, E>,
        FF: Fn(&Vec<T>) -> Result<Vec<(T, T)>, E>,
        FC: Fn(&Vec<Vec<T>>) -> Result<Latent<T>, E>,
        SY: Fn(&SynthInputs<T>) -> Result<Vec<T>, E>,
        W: Copy,
        WO: Fn(Op<W>) -> W,
        WG: Fn(W, W) -> Rel,
        WZ: Fn(W) -> i128,
        NR: Fn(W) -> T,
    >(
        &self,
        n: Num<T>,
        s: Sessions<CV, FF, FC, SY, W, WO, WG, WZ, NR>,
        audio: Seq<T>,
        semitones: i32,
        noise: Noise<T>,
        r: Result<Vec<T>, ConvertError<E>>,
    ) -> bool {
        exists|a: Analysis<T, E>| #[trigger]
            self.analyses(n, s, audio, semitones, a) && self.resynthesizes(n, s, noise, a, r)
    }

    /// `r` is the resynthesis of the analysis `a`: where no noise is given it is drawn, if its
    /// amount can be counted; then the synthesizer is asked.
    pub open spec fn resynthesizes<
        E,
        CV: Fn(&Vec<T>) -> Result<Features<T>, E>,
        FF: Fn(&Vec<T>) -> Result<Vec<(T, T)>, E>,
        FC: Fn(&Vec<Vec<T>>) -> Result<Latent<T>, E>,
        SY: Fn(&SynthInputs<T>) -> Result<Vec<T>, E>,
        W: Copy,
        WO: Fn(Op<W>) -> W,
        WG: Fn(W, W) -> Rel,
        WZ: Fn(W) -> i128,
        NR: Fn(W) -> T,
    >(
        &self,
        n: Num<T>,
        s: Sessions<CV, FF, FC, SY, W, WO, WG, WZ, NR>,
        noise: Noise<T>,
        a: Analysis<T, E>,
        r: Result<Vec<T>, ConvertError<E>>,
    ) -> bool {
        match a {
            Err(e) => noise.untouched() && r == Err::<Vec<T>, ConvertError<E>>(e),
            Ok((feats, pitchf)) => {
                let total = 2 * feats.len();
                match noise {
                    Noise::Given { rnd, nsf_noise } => synthesized::<T, E, SY>(
                        n,
                        s.synth,
                        feats,
                        pitchf,
                        rnd,
                        nsf_noise,
                        r,
                    ),
                    Noise::Drawn { from, to } => if total * self.cfg.upp > usize::MAX {
                        to == from && r matches Err(ConvertError::Shape)
                    } else {
                        ||| r matches Err(ConvertError::Noise) && dries_up(
                            from,
                            to,
                            (NOISE_DIM * total + total * self.cfg.upp) as nat,
                        )
                        ||| self.synthesized_with_draws(n, s, from, to, feats, pitchf, r)
                    },
                }
            },
        }
    }

    /// `r` is the synthesizer's answer to content features, a pitch track and drawn noise.
    pub open spec fn synthesized_with_draws<
        E,
        CV: Fn(&Vec<T>) -> Result<Features<T>, E>,
        FF: Fn(&Vec<T>) -> Result<Vec<(T, T)>, E>,
        FC: Fn(&Vec<Vec<T>>) -> Result<Latent<T>, E>,
        SY: Fn(&SynthInputs<T>) -> Result<Vec<T>, E>,
        W: Copy,
        WO: Fn(Op<W>) -> W,
        WG: Fn(W, W) -> Rel,
        WZ: Fn(W) -> i128,
        NR: Fn(W) -> T,
    >(
        &self,
        n: Num<T>,
        s: Sessions<CV, FF, FC, SY, W, WO, WG, WZ, NR>,
        from: Pcg64,
        to: Pcg64,
        feats: Seq<Seq<T>>,
        pitchf: Seq<T>,
        r: Result<Vec<T>, ConvertError<E>>,
    ) -> bool {
        exists|rnd: Seq<T>, nsf_noise: Seq<T>|
            {
                &&& rnd.len() == NOISE_DIM * (2 * feats.len())
                &&& nsf_noise.len() == 2 * feats.len() * self.cfg.upp
                &&& #[trigger] both_drawn(s.wide.model@, s.narrow, from, to, rnd, nsf_noise)
                &&& synthesized::<T, E, SY>(n, s.synth, feats, pitchf, rnd, nsf_noise, r)
            }
    }

    /// A chain from its parts.
    pub fn new(cfg: EngineCfg<T>, mel_fe: MelFrontend<T>, f0_dec: F0Decoder<T>) -> (r: Self)
        ensures
            r == (Engine { cfg, mel_fe, f0_dec }),
    {
        Engine { cfg, mel_fe, f0_dec }
    }

    /// The frequency of every synthesizer frame, from the pitch network's answer.
    pub fn track_pitch<O: Fn(Op<T>) -> T, G: Fn(T, T) -> Rel, Z: Fn(T) -> i128>(
        &self,
        ar: &Arith<T, O, G, Z>,
        latent: &Vec<Vec<T>>,
        semitones: i32,
        frames: usize,
    ) -> (r: Vec<T>)
        requires
            ar.wf(),
            all_decodable(ar.model@, self.f0_dec.cent_table@.len() as int, rows_of(latent@)),
        ensures
            r@ == self.pitch_track(ar.model@, rows_of(latent@), semitones, frames as nat),
    {
        let threshold = self.cfg.f0_threshold.value(ar);
        let mut f0 = self.f0_dec.decode(ar, latent, threshold);
        let ghost raw = f0@;
        shift_semitones(ar, &mut f0, semitones);
        proof {
            let n = ar.model@;
            let rows = rows_of(latent@);
            assert(f0@ =~= Seq::new(
                rows.len(),
                |t: int|
                    shifted(
                        n,
                        frequency(
                            n,
                            self.f0_dec.cent_table@,
                            rows[t],
                            self.cfg.f0_threshold.of(n),
                        ),
                        semitones,
                    ),
            ));
        }
        align_tail(&f0, frames, ar.zero())
    }

    /// Single-pass conversion of a 16 kHz window into audio at the output rate, with noise from
    /// the generator.
    pub fn convert<
        O: Fn(Op<T>) -> T,
        G: Fn(T, T) -> Rel,
        Z: Fn(T) -> i128,
        E,
        CV: Fn(&Vec<T>) -> Result<Features<T>, E>,
        FF: Fn(&Vec<T>) -> Result<Vec<(T, T)>, E>,
        FC: Fn(&Vec<Vec<T>>) -> Result<Latent<T>, E>,
        SY: Fn(&SynthInputs<T>) -> Result<Vec<T>, E>,
        W: Copy,
        WO: Fn(Op<W>) -> W,
        WG: Fn(W, W) -> Rel,
        WZ: Fn(W) -> i128,
        NR: Fn(W) -> T,
    >(
        &self,
        ar: &Arith<T, O, G, Z>,
        s: &Sessions<CV, FF, FC, SY, W, WO, WG, WZ, NR>,
        audio16k: &[T],
        pitch_semitones: i32,
        rng: &mut Pcg64,
    ) -> (r: Result<Vec<T>, ConvertError<E>>)
        requires
            ar.wf(),
            self.ready::<E, CV, FF, FC, SY, W, WO, WG, WZ, NR>(*s),
            audio16k@.len() + 2 * self.mel_fe.win <= usize::MAX,
        ensures
            self.converts(
                ar.model@,
                *s,
                audio16k@,
                pitch_semitones,
                (Noise::Drawn { from: *old(rng), to: *final(rng) }),
                r,
            ),
    {
        match self.analyse(ar, s, audio16k, pitch_semitones) {
            Ok((feats, pitchf)) => self.resynthesize(ar, s, &feats, pitchf, rng),
            Err(e) => Err(e),
        }
    }

    /// Draws the noise and asks the synthesizer.
    fn resynthesize<
        O: Fn(Op<T>) -> T,
        G: Fn(T, T) -> Rel,
        Z: Fn(T) -> i128,
        E,
        CV: Fn(&Vec<T>) -> Result<Features<T>, E>,
        FF: Fn(&Vec<T>) -> Result<Vec<(T, T)>, E>,
        FC: Fn(&Vec<Vec<T>>) -> Result<Latent<T>, E>,
        SY: Fn(&SynthInputs<T>) -> Result<Vec<T>, E>,
        W: Copy,
        WO: Fn(Op<W>) -> W,
        WG: Fn(W, W) -> Rel,
        WZ: Fn(W) -> i128,
        NR: Fn(W) -> T,
    >(
        &self,
        ar: &Arith<T, O, G, Z>,
        s: &Sessions<CV, FF, FC, SY, W, WO, WG, WZ, NR>,
        feats: &Vec<Vec<T>>,
        pitchf: Vec<T>,
        rng: &mut Pcg64,
    ) -> (r: Result<Vec<T>, ConvertError<E>>)
        requires
            ar.wf(),
            self.ready::<E, CV, FF, FC, SY, W, WO, WG, WZ, NR>(*s),
            feats@.len() * FEATURE_DIM <= usize::MAX,
        ensures
            self.resynthesizes(
                ar.model@,
                *s,
                (Noise::Drawn { from: *old(rng), to: *final(rng) }),
                Ok((rows_of(feats@), pitchf@)),
                r,
            ),
    {
        let ghost start = *rng;
        let ghost track = pitchf@;
        let total: usize = feats.len() * 2;
        let amount = match total.checked_mul(self.cfg.upp) {
            Some(a) => a,
            None => {
                return Err(ConvertError::Shape);
            },
        };
        let rnd = match draws(&s.wide, &s.narrow, rng, NOISE_DIM * total) {
            Some(xs) => xs,
            None => {
                proof {
                    lemma_dries_up_sooner(
                        start,
                        *rng,
                        (NOISE_DIM * total) as nat,
                        (NOISE_DIM * total + amount) as nat,
                    );
                }
                return Err(ConvertError::Noise);
            },
        };
        let ghost mid = *rng;
        let nsf_noise = match draws(&s.wide, &s.narrow, rng, amount) {
            Some(xs) => xs,
            None => {
                proof {
                    lemma_dries_up_later(
                        s.wide.model@,
                        s.narrow,
                        start,
                        mid,
                        *rng,
                        rnd@,
                        amount as nat,
                    );
                }
                return Err(ConvertError::Noise);
            },
        };
        let ghost (prior, excitation) = (rnd@, nsf_noise@);
        let r = synthesize(ar, &s.synth, feats, pitchf, rnd, nsf_noise);
        assert(both_drawn(s.wide.model@, s.narrow, start, *rng, prior, excitation));
        assert(self.synthesized_with_draws(ar.model@, *s, start, *rng, rows_of(feats@), track, r));
        r
    }

    /// Like [`Engine::convert`], with noise that is given from outside.
    pub fn convert_with_noise<
        O: Fn(Op<T>) -> T,
        G: Fn(T, T) -> Rel,
        Z: Fn(T) -> i128,
        E,
        CV: Fn(&Vec<T>) -> Result<Features<T>, E>,
        FF: Fn(&Vec<T>) -> Result<Vec<(T, T)>, E>,
        FC: Fn(&Vec<Vec<T>>) -> Result<Latent<T>, E>,
        SY: Fn(&SynthInputs<T>) -> Result<Vec<T>, E>,
        W: Copy,
        WO: Fn(Op<W>) -> W,
        WG: Fn(W, W) -> Rel,
        WZ: Fn(W) -> i128,
        NR: Fn(W) -> T,
    >(
        &self,
        ar: &Arith<T, O, G, Z>,
        s: &Sessions<CV, FF, FC, SY, W, WO, WG, WZ, NR>,
        audio16k: &[T],
        pitch_semitones: i32,
        rnd: Vec<T>,
        nsf_noise: Vec<T>,
    ) -> (r: Result<Vec<T>, ConvertError<E>>)
        requires
            ar.wf(),
            self.ready::<E, CV, FF, FC, SY, W, WO, WG, WZ, NR>(*s),
            audio16k@.len() + 2 * self.mel_fe.win <= usize::MAX,
        ensures
            self.converts(
                ar.model@,
                *s,
                audio16k@,
                pitch_semitones,
                (Noise::Given { rnd: rnd@, nsf_noise: nsf_noise@ }),
                r,
            ),
    {
        match self.analyse(ar, s, audio16k, pitch_semitones) {
            Ok((feats, pitchf)) => synthesize(ar, &s.synth, &feats, pitchf, rnd, nsf_noise),
            Err(e) => Err(e),
        }
    }

    /// The content features of a window, and its pitch track with two frames per feature.
    fn analyse<
        O: Fn(Op<T>) -> T,
        G: Fn(T, T) -> Rel,
        Z: Fn(T) -> i128,
        E,
        CV: Fn(&Vec<T>) -> Result<Features<T>, E>,
        FF: Fn(&Vec<T>) -> Result<Vec<(T, T)>, E>,
        FC: Fn(&Vec<Vec<T>>) -> Result<Latent<T>, E>,
        SY: Fn(&SynthInputs<T>) -> Result<Vec<T>, E>,
        W: Copy,
        WO: Fn(Op<W>) -> W,
        WG: Fn(W, W) -> Rel,
        WZ: Fn(W) -> i128,
        NR: Fn(W) -> T,
    >(
        &self,
        ar: &Arith<T, O, G, Z>,
        s: &Sessions<CV, FF, FC, SY, W, WO, WG, WZ, NR>,
        audio16k: &[T],
        pitch_semitones: i32,
    ) -> (r: Result<(Vec<Vec<T>>, Vec<T>), ConvertError<E>>)
        requires
            ar.wf(),
            self.ready::<E, CV, FF, FC, SY, W, WO, WG, WZ, NR>(*s),
            audio16k@.len() + 2 * self.mel_fe.win <= usize::MAX,
        ensures
            self.analyses(ar.model@, *s, audio16k@, pitch_semitones, analysis_view(r)),
            r matches Ok(p) ==> p.0@.len() * FEATURE_DIM <= usize::MAX && p.1@.len() == 2
                * p.0@.len(),
    {
        let ghost n = ar.model@;
        let audio = copied(audio16k);
        let features = match (s.contentvec)(&audio) {
            Ok(f) => f,
            Err(e) => {
                assert(features_fail::<T, E, CV>(s.contentvec, audio16k@, e));
                return Err(ConvertError::Session(e));
            },
        };
        assert(features_give::<T, E, CV>(
            s.contentvec,
            audio16k@,
            features.frames,
            features.data@,
        ));
        let feature_size: usize = features.data.len();
        if features.frames.checked_mul(FEATURE_DIM) != Some(feature_size) {
            return Err(ConvertError::Shape);
        }
        let feats = split_rows(&features.data, features.frames, FEATURE_DIM);

        let mel = match self.mel_fe.process(ar, audio16k, &s.fft) {
            Ok(m) => m,
            Err(e) => {
                return Err(ConvertError::Session(e));
            },
        };
        if self.mel_fe.mel_basis.len() != MEL_DIM {
            return Err(ConvertError::Shape);
        }
        let answer = match (s.fcpe)(&mel) {
            Ok(l) => l,
            Err(e) => {
                assert(latent_fails::<T, E, FC>(s.fcpe, rows_of(mel@), e));
                return Err(ConvertError::Session(e));
            },
        };
        assert(latent_gives::<T, E, FC>(
            s.fcpe,
            rows_of(mel@),
            answer.frames,
            answer.bins,
            answer.data@,
        ));
        if answer.frames.checked_mul(answer.bins) != Some(answer.data.len()) {
            return Err(ConvertError::Shape);
        }
        let latent = split_rows(&answer.data, answer.frames, answer.bins);
        if !self.f0_dec.can_decode(ar, &latent) {
            return Err(ConvertError::Shape);
        }
        let pitchf = self.track_pitch(ar, &latent, pitch_semitones, features.frames * 2);
        Ok((feats, pitchf))
    }

    /// Output rate in Hz.
    pub fn out_sr(&self) -> (r: u32)
        ensures
            r == self.cfg.out_sr,
    {
        self.cfg.out_sr
    }
}

/// Whatever it is given, every part of the outside work has one answer.
pub open spec fn one_answer<
    T,
    E,
    CV: Fn(&Vec<T>) -> Result<Features<T>, E>,
    FF: Fn(&Vec<T>) -> Result<Vec<(T, T)>, E>,
    FC: Fn(&Vec<Vec<T>>) -> Result<Latent<T>, E>,
    SY: Fn(&SynthInputs<T>) -> Result<Vec<T>, E>,
    W: Copy,
    WO: Fn(Op<W>) -> W,
    WG: Fn(W, W) -> Rel,
    WZ: Fn(W) -> i128,
    NR: Fn(W) -> T,
>(s: Sessions<CV, FF, FC, SY, W, WO, WG, WZ, NR>) -> bool {
    &&& forall|x: Seq<T>, f: usize, d: Seq<T>, g: usize, e: Seq<T>| #[trigger]
        features_give::<T, E, CV>(s.contentvec, x, f, d) && #[trigger] features_give::<T, E, CV>(
            s.contentvec,
            x,
            g,
            e,
        ) ==> f == g && d == e
    &&& forall|x: Seq<T>, f: usize, d: Seq<T>, e: E|
        !(#[trigger] features_give::<T, E, CV>(s.contentvec, x, f, d)
            && #[trigger] features_fail::<T, E, CV>(s.contentvec, x, e))
    &&& forall|x: Seq<T>, d: E, e: E| #[trigger]
        features_fail::<T, E, CV>(s.contentvec, x, d) && #[trigger] features_fail::<T, E, CV>(
            s.contentvec,
            x,
            e,
        ) ==> d == e
    &&& one_spectrum::<T, E, FF>(s.fft)
    &&& forall|x: Seq<Seq<T>>, f: usize, i: usize, d: Seq<T>, g: usize, j: usize, e: Seq<T>|
        #[trigger]
        latent_gives::<T, E, FC>(s.fcpe, x, f, i, d) && #[trigger] latent_gives::<T, E, FC>(
            s.fcpe,
            x,
            g,
            j,
            e,
        ) ==> f == g && i == j && d == e
    &&& forall|x: Seq<Seq<T>>, f: usize, i: usize, d: Seq<T>, e: E|
        !(#[trigger] latent_gives::<T, E, FC>(s.fcpe, x, f, i, d)
            && #[trigger] latent_fails::<T, E, FC>(s.fcpe, x, e))
    &&& forall|x: Seq<Seq<T>>, d: E, e: E| #[trigger]
        latent_fails::<T, E, FC>(s.fcpe, x, d) && #[trigger] latent_fails::<T, E, FC>(s.fcpe, x, e)
            ==> d == e
    &&& forall|x: SynthView<T>, d: Seq<T>, e: Seq<T>| #[trigger]
        synth_gives::<T, E, SY>(s.synth, x, d) && #[trigger] synth_gives::<T, E, SY>(s.synth, x, e)
            ==> d == e
    &&& forall|x: SynthView<T>, d: Seq<T>, e: E|
        !(#[trigger] synth_gives::<T, E, SY>(s.synth, x, d) && #[trigger] synth_fails::<T, E, SY>(
            s.synth,
            x,
            e,
        ))
    &&& forall|x: SynthView<T>, d: E, e: E| #[trigger]
        synth_fails::<T, E, SY>(s.synth, x, d) && #[trigger] synth_fails::<T, E, SY>(s.synth, x, e)
            ==> d == e
    &&& one_sample::<T, W, NR>(s.narrow)
}

/// Two conversions gave the same samples, or failed alike.
pub open spec fn same_output<T, E>(
    a: Result<Vec<T>, ConvertError<E>>,
    b: Result<Vec<T>, ConvertError<E>>,
) -> bool {
    match (a, b) {
        (Ok(x), Ok(y)) => x@ == y@,
        (Err(x), Err(y)) => x == y,
        _ => false,
    }
}

impl<T: Copy> Engine<T> {
    /// Two chains with the same tables and settings.
    pub open spec fn alike(self, other: Self) -> bool {
        &&& self.cfg.upp == other.cfg.upp
        &&& self.cfg.out_sr == other.cfg.out_sr
        &&& self.cfg.f0_threshold == other.cfg.f0_threshold
        &&& self.mel_fe.alike(other.mel_fe)
        &&& self.f0_dec.cent_table@ == other.f0_dec.cent_table@
    }
}

/// The analysis from the log-mel picture on is determined, where every part has one answer.
proof fn lemma_after_mel_determined<
    T: Copy,
    E,
    CV: Fn(&Vec<T>) -> Result<Features<T>, E>,
    FF: Fn(&Vec<T>) -> Result<Vec<(T, T)>, E>,
    FC: Fn(&Vec<Vec<T>>) -> Result<Latent<T>, E>,
    SY: Fn(&SynthInputs<T>) -> Result<Vec<T>, E>,
    W: Copy,
    WO: Fn(Op<W>) -> W,
    WG: Fn(W, W) -> Rel,
    WZ: Fn(W) -> i128,
    NR: Fn(W) -> T,
>(
    n: Num<T>,
    s: Sessions<CV, FF, FC, SY, W, WO, WG, WZ, NR>,
    one: Engine<T>,
    other: Engine<T>,
    semitones: i32,
    feats: Seq<Seq<T>>,
    mel: Seq<Seq<T>>,
    a: Analysis<T, E>,
    b: Analysis<T, E>,
)
    requires
        one.alike(other),
        one_answer::<T, E, CV, FF, FC, SY, W, WO, WG, WZ, NR>(s),
        one.after_mel(n, s, semitones, feats, mel, a),
        other.after_mel(n, s, semitones, feats, mel, b),
    ensures
        a == b,
{
    assert(one.mel_fe.mel_basis@.len() == rows_of(one.mel_fe.mel_basis@).len());
    assert(other.mel_fe.mel_basis@.len() == rows_of(other.mel_fe.mel_basis@).len());
    assert forall|latent: Seq<Seq<T>>| #[trigger]
        one.pitch_track(n, latent, semitones, 2 * feats.len()) == other.pitch_track(
            n,
            latent,
            semitones,
            2 * feats.len(),
        ) by {
        let f = |t: int|
            shifted(
                n,
                frequency(n, one.f0_dec.cent_table@, latent[t], one.cfg.f0_threshold.of(n)),
                semitones,
            );
        let g = |t: int|
            shifted(
                n,
                frequency(n, other.f0_dec.cent_table@, latent[t], other.cfg.f0_threshold.of(n)),
                semitones,
            );
        assert(Seq::new(latent.len(), f) =~= Seq::new(latent.len(), g));
    }
}

/// The analysis is determined, where every part has one answer.
proof fn lemma_analysis_determined<
    T: Copy,
    E,
    CV: Fn(&Vec<T>) -> Result<Features<T>, E>,
    FF: Fn(&Vec<T>) -> Result<Vec<(T, T)>, E>,
    FC: Fn(&Vec<Vec<T>>) -> Result<Latent<T>, E>,
    SY: Fn(&SynthInputs<T>) -> Result<Vec<T>, E>,
    W: Copy,
    WO: Fn(Op<W>) -> W,
    WG: Fn(W, W) -> Rel,
    WZ: Fn(W) -> i128,
    NR: Fn(W) -> T,
>(
    n: Num<T>,
    s: Sessions<CV, FF, FC, SY, W, WO, WG, WZ, NR>,
    one: Engine<T>,
    other: Engine<T>,
    audio: Seq<T>,
    semitones: i32,
    a: Analysis<T, E>,
    b: Analysis<T, E>,
)
    requires
        one.alike(other),
        one_answer::<T, E, CV, FF, FC, SY, W, WO, WG, WZ, NR>(s),
        one.analyses(n, s, audio, semitones, a),
        other.analyses(n, s, audio, semitones, b),
    ensures
        a == b,
{
    if exists|e: E| #[trigger] features_fail::<T, E, CV>(s.contentvec, audio, e) {
        let e = choose|e: E| #[trigger] features_fail::<T, E, CV>(s.contentvec, audio, e);
        assert(a == Err::<(Seq<Seq<T>>, Seq<T>), ConvertError<E>>(ConvertError::Session(e)));
        assert(b == Err::<(Seq<Seq<T>>, Seq<T>), ConvertError<E>>(ConvertError::Session(e)));
    } else {
        let (frames, data) = choose|frames: usize, data: Seq<T>| #[trigger]
            features_give::<T, E, CV>(s.contentvec, audio, frames, data) && one.after_features(
                n,
                s,
                audio,
                semitones,
                frames,
                data,
                a,
            );
        assert(other.after_features(n, s, audio, semitones, frames, data, b));
        if data.len() == frames * FEATURE_DIM {
            let feats = rows_in(data, frames as nat, FEATURE_DIM as nat);
            if exists|mel: Seq<Seq<T>>| #[trigger]
                one.mel_fe.pictures::<E, FF>(n, s.fft, audio, mel) && one.after_mel(
                    n,
                    s,
                    semitones,
                    feats,
                    mel,
                    a,
                ) {
                let mel = choose|mel: Seq<Seq<T>>| #[trigger]
                    one.mel_fe.pictures::<E, FF>(n, s.fft, audio, mel) && one.after_mel(
                        n,
                        s,
                        semitones,
                        feats,
                        mel,
                        a,
                    );
                assert forall|e: E| !#[trigger] other.mel_fe.fails::<E, FF>(n, s.fft, audio, e) by {
                    law_picture_or_failure::<T, E, FF>(
                        n,
                        s.fft,
                        one.mel_fe,
                        other.mel_fe,
                        audio,
                        mel,
                        e,
                    );
                }
                let other_mel = choose|mel: Seq<Seq<T>>| #[trigger]
                    other.mel_fe.pictures::<E, FF>(n, s.fft, audio, mel) && other.after_mel(
                        n,
                        s,
                        semitones,
                        feats,
                        mel,
                        b,
                    );
                law_picture_is_a_function::<T, E, FF>(
                    n,
                    s.fft,
                    one.mel_fe,
                    other.mel_fe,
                    audio,
                    mel,
                    other_mel,
                );
                lemma_after_mel_determined(n, s, one, other, semitones, feats, mel, a, b);
            } else {
                let e = a->Err_0->Session_0;
                assert(one.mel_fe.fails::<E, FF>(n, s.fft, audio, e));
                assert forall|mel: Seq<Seq<T>>| !#[trigger] other.mel_fe.pictures::<E, FF>(
                    n,
                    s.fft,
                    audio,
                    mel,
                ) by {
                    if other.mel_fe.pictures::<E, FF>(n, s.fft, audio, mel) {
                        law_picture_or_failure::<T, E, FF>(
                            n,
                            s.fft,
                            other.mel_fe,
                            one.mel_fe,
                            audio,
                            mel,
                            e,
                        );
                    }
                }
                let other_e = b->Err_0->Session_0;
                law_failure_is_a_function::<T, E, FF>(
                    n,
                    s.fft,
                    one.mel_fe,
                    other.mel_fe,
                    audio,
                    e,
                    other_e,
                );
            }
        }
    }
}

/// The synthesizer's answer is determined, where it has one.
proof fn lemma_synthesis_determined<
    T: Copy,
    E,
    CV: Fn(&Vec<T>) -> Result<Features<T>, E>,
    FF: Fn(&Vec<T>) -> Result<Vec<(T, T)>, E>,
    FC: Fn(&Vec<Vec<T>>) -> Result<Latent<T>, E>,
    SY: Fn(&SynthInputs<T>) -> Result<Vec<T>, E>,
    W: Copy,
    WO: Fn(Op<W>) -> W,
    WG: Fn(W, W) -> Rel,
    WZ: Fn(W) -> i128,
    NR: Fn(W) -> T,
>(
    n: Num<T>,
    s: Sessions<CV, FF, FC, SY, W, WO, WG, WZ, NR>,
    feats: Seq<Seq<T>>,
    pitchf: Seq<T>,
    rnd: Seq<T>,
    nsf_noise: Seq<T>,
    a: Result<Vec<T>, ConvertError<E>>,
    b: Result<Vec<T>, ConvertError<E>>,
)
    requires
        one_answer::<T, E, CV, FF, FC, SY, W, WO, WG, WZ, NR>(s),
        synthesized::<T, E, SY>(n, s.synth, feats, pitchf, rnd, nsf_noise, a),
        synthesized::<T, E, SY>(n, s.synth, feats, pitchf, rnd, nsf_noise, b),
    ensures
        same_output(a, b),
{
}

/// A conversion with given noise is a function of its input, where every part of the outside work
/// has one answer.
pub proof fn law_conversion_with_noise_is_a_function<
    T: Copy,
    E,
    CV: Fn(&Vec<T>) -> Result<Features<T>, E>,
    FF: Fn(&Vec<T>) -> Result<Vec<(T, T)>, E>,
    FC: Fn(&Vec<Vec<T>>) -> Result<Latent<T>, E>,
    SY: Fn(&SynthInputs<T>) -> Result<Vec<T>, E>,
    W: Copy,
    WO: Fn(Op<W>) -> W,
    WG: Fn(W, W) -> Rel,
    WZ: Fn(W) -> i128,
    NR: Fn(W) -> T,
>(
    n: Num<T>,
    s: Sessions<CV, FF, FC, SY, W, WO, WG, WZ, NR>,
    one: Engine<T>,
    other: Engine<T>,
    audio: Seq<T>,
    semitones: i32,
    rnd: Seq<T>,
    nsf_noise: Seq<T>,
    a: Result<Vec<T>, ConvertError<E>>,
    b: Result<Vec<T>, ConvertError<E>>,
)
    requires
        one.alike(other),
        one_answer::<T, E, CV, FF, FC, SY, W, WO, WG, WZ, NR>(s),
        one.converts(n, s, audio, semitones, (Noise::Given { rnd, nsf_noise }), a),
        other.converts(n, s, audio, semitones, (Noise::Given { rnd, nsf_noise }), b),
    ensures
        same_output(a, b),
{
    let noise = Noise::Given { rnd, nsf_noise };
    let x = choose|x: Analysis<T, E>| #[trigger]
        one.analyses(n, s, audio, semitones, x) && one.resynthesizes(n, s, noise, x, a);
    let y = choose|y: Analysis<T, E>| #[trigger]
        other.analyses(n, s, audio, semitones, y) && other.resynthesizes(n, s, noise, y, b);
    lemma_analysis_determined(n, s, one, other, audio, semitones, x, y);
    if let Ok((feats, pitchf)) = x {
        lemma_synthesis_determined(n, s, feats, pitchf, rnd, nsf_noise, a, b);
    }
}

/// A conversion is a function of its input and of the numbers that the generator will give, where
/// every part of the outside work has one answer; and so is what is left of those numbers.
pub proof fn law_conversion_is_a_function<
    T: Copy,
    E,
    CV: Fn(&Vec<T>) -> Result<Features<T>, E>,
    FF: Fn(&Vec<T>) -> Result<Vec<(T, T)>, E>,
    FC: Fn(&Vec<Vec<T>>) -> Result<Latent<T>, E>,
    SY: Fn(&SynthInputs<T>) -> Result<Vec<T>, E>,
    W: Copy,
    WO: Fn(Op<W>) -> W,
    WG: Fn(W, W) -> Rel,
    WZ: Fn(W) -> i128,
    NR: Fn(W) -> T,
>(
    n: Num<T>,
    s: Sessions<CV, FF, FC, SY, W, WO, WG, WZ, NR>,
    one: Engine<T>,
    other: Engine<T>,
    audio: Seq<T>,
    semitones: i32,
    rng: (Pcg64, Pcg64),
    other_rng: (Pcg64, Pcg64),
    a: Result<Vec<T>, ConvertError<E>>,
    b: Result<Vec<T>, ConvertError<E>>,
)
    requires
        one.alike(other),
        one_answer::<T, E, CV, FF, FC, SY, W, WO, WG, WZ, NR>(s),
        numbers(rng.0) == numbers(other_rng.0),
        one.converts(n, s, audio, semitones, (Noise::Drawn { from: rng.0, to: rng.1 }), a),
        other.converts(
            n,
            s,
            audio,
            semitones,
            (Noise::Drawn { from: other_rng.0, to: other_rng.1 }),
            b,
        ),
    ensures
        same_output(a, b),
        numbers(rng.1) == numbers(other_rng.1),
{
    let noise = Noise::<T>::Drawn { from: rng.0, to: rng.1 };
    let other_noise = Noise::<T>::Drawn { from: other_rng.0, to: other_rng.1 };
    let x = choose|x: Analysis<T, E>| #[trigger]
        one.analyses(n, s, audio, semitones, x) && one.resynthesizes(n, s, noise, x, a);
    let y = choose|y: Analysis<T, E>| #[trigger]
        other.analyses(n, s, audio, semitones, y) && other.resynthesizes(n, s, other_noise, y, b);
    lemma_analysis_determined(n, s, one, other, audio, semitones, x, y);
    if let Ok((feats, pitchf)) = x {
        if 2 * feats.len() * one.cfg.upp <= usize::MAX {
            lemma_drawn_synthesis_determined(
                n,
                s,
                one,
                other,
                feats,
                pitchf,
                rng,
                other_rng,
                a,
                b,
            );
        }
    }
}

/// Resynthesis with drawn noise is determined, where every part has one answer.
proof fn lemma_drawn_synthesis_determined<
    T: Copy,
    E,
    CV: Fn(&Vec<T>) -> Result<Features<T>, E>,
    FF: Fn(&Vec<T>) -> Result<Vec<(T, T)>, E>,
    FC: Fn(&Vec<Vec<T>>) -> Result<Latent<T>, E>,
    SY: Fn(&SynthInputs<T>) -> Result<Vec<T>, E>,
    W: Copy,
    WO: Fn(Op<W>) -> W,
    WG: Fn(W, W) -> Rel,
    WZ: Fn(W) -> i128,
    NR: Fn(W) -> T,
>(
    n: Num<T>,
    s: Sessions<CV, FF, FC, SY, W, WO, WG, WZ, NR>,
    one: Engine<T>,
    other: Engine<T>,
    feats: Seq<Seq<T>>,
    pitchf: Seq<T>,
    rng: (Pcg64, Pcg64),
    other_rng: (Pcg64, Pcg64),
    a: Result<Vec<T>, ConvertError<E>>,
    b: Result<Vec<T>, ConvertError<E>>,
)
    requires
        one.alike(other),
        one_answer::<T, E, CV, FF, FC, SY, W, WO, WG, WZ, NR>(s),
        numbers(rng.0) == numbers(other_rng.0),
        2 * feats.len() * one.cfg.upp <= usize::MAX,
        one.resynthesizes(
            n,
            s,
            (Noise::Drawn { from: rng.0, to: rng.1 }),
            Ok((feats, pitchf)),
            a,
        ),
        other.resynthesizes(
            n,
            s,
            (Noise::Drawn { from: other_rng.0, to: other_rng.1 }),
            Ok((feats, pitchf)),
            b,
        ),
    ensures
        same_output(a, b),
        numbers(rng.1) == numbers(other_rng.1),
{
    let count = (NOISE_DIM * (2 * feats.len()) + 2 * feats.len() * one.cfg.upp) as nat;
    let a_drawn = one.synthesized_with_draws(n, s, rng.0, rng.1, feats, pitchf, a);
    let b_drawn = other.synthesized_with_draws(
        n,
        s,
        other_rng.0,
        other_rng.1,
        feats,
        pitchf,
        b,
    );
    if a_drawn && b_drawn {
        let (rnd, nsf) = choose|rnd: Seq<T>, nsf: Seq<T>|
            {
                &&& rnd.len() == NOISE_DIM * (2 * feats.len())
                &&& nsf.len() == 2 * feats.len() * one.cfg.upp
                &&& #[trigger] both_drawn(s.wide.model@, s.narrow, rng.0, rng.1, rnd, nsf)
                &&& synthesized::<T, E, SY>(n, s.synth, feats, pitchf, rnd, nsf, a)
            };
        let (rnd2, nsf2) = choose|rnd: Seq<T>, nsf: Seq<T>|
            {
                &&& rnd.len() == NOISE_DIM * (2 * feats.len())
                &&& nsf.len() == 2 * feats.len() * other.cfg.upp
                &&& #[trigger] both_drawn(
                    s.wide.model@,
                    s.narrow,
                    other_rng.0,
                    other_rng.1,
                    rnd,
                    nsf,
                )
                &&& synthesized::<T, E, SY>(n, s.synth, feats, pitchf, rnd, nsf, b)
            };
        lemma_both_drawn_alike(s.wide.model@, s.narrow, rng, other_rng, rnd, nsf, rnd2, nsf2);
        lemma_synthesis_determined(n, s, feats, pitchf, rnd, nsf, a, b);
    } else if a_drawn {
        lemma_draws_do_not_dry_up(n, s, one, rng, other_rng, feats, pitchf, a);
    } else if b_drawn {
        lemma_draws_do_not_dry_up(n, s, other, other_rng, rng, feats, pitchf, b);
    } else {
        law_dry_generators_stay_alike(rng.0, other_rng.0, rng.1, other_rng.1, count);
    }
}

/// Two generators that will give the same numbers draw the same noise.
proof fn lemma_both_drawn_alike<T, W, NR: Fn(W) -> T>(
    wide: Num<W>,
    narrow: NR,
    rng: (Pcg64, Pcg64),
    other_rng: (Pcg64, Pcg64),
    rnd: Seq<T>,
    nsf: Seq<T>,
    other_rnd: Seq<T>,
    other_nsf: Seq<T>,
)
    requires
        one_sample::<T, W, NR>(narrow),
        numbers(rng.0) == numbers(other_rng.0),
        both_drawn(wide, narrow, rng.0, rng.1, rnd, nsf),
        both_drawn(wide, narrow, other_rng.0, other_rng.1, other_rnd, other_nsf),
        rnd.len() == other_rnd.len(),
        nsf.len() == other_nsf.len(),
    ensures
        rnd == other_rnd,
        nsf == other_nsf,
        numbers(rng.1) == numbers(other_rng.1),
{
    let mid = choose|mid: Pcg64| #[trigger]
        drawn(wide, narrow, rng.0, mid, rnd) && drawn(wide, narrow, mid, rng.1, nsf);
    let other_mid = choose|mid: Pcg64| #[trigger]
        drawn(wide, narrow, other_rng.0, mid, other_rnd) && drawn(
            wide,
            narrow,
            mid,
            other_rng.1,
            other_nsf,
        );
    law_draws_depend_on_numbers_alone(
        wide,
        narrow,
        rng.0,
        other_rng.0,
        mid,
        other_mid,
        rnd,
        other_rnd,
    );
    law_draws_depend_on_numbers_alone(
        wide,
        narrow,
        mid,
        other_mid,
        rng.1,
        other_rng.1,
        nsf,
        other_nsf,
    );
}

/// A generator of numbers from which the noise was drawn does not dry up.
proof fn lemma_draws_do_not_dry_up<
    T: Copy,
    E,
    CV: Fn(&Vec<T>) -> Result<Features<T>, E>,
    FF: Fn(&Vec<T>) -> Result<Vec<(T, T)>, E>,
    FC: Fn(&Vec<Vec<T>>) -> Result<Latent<T>, E>,
    SY: Fn(&SynthInputs<T>) -> Result<Vec<T>, E>,
    W: Copy,
    WO: Fn(Op<W>) -> W,
    WG: Fn(W, W) -> Rel,
    WZ: Fn(W) -> i128,
    NR: Fn(W) -> T,
>(
    n: Num<T>,
    s: Sessions<CV, FF, FC, SY, W, WO, WG, WZ, NR>,
    one: Engine<T>,
    rng: (Pcg64, Pcg64),
    other_rng: (Pcg64, Pcg64),
    feats: Seq<Seq<T>>,
    pitchf: Seq<T>,
    r: Result<Vec<T>, ConvertError<E>>,
)
    requires
        numbers(rng.0) == numbers(other_rng.0),
        one.synthesized_with_draws(n, s, rng.0, rng.1, feats, pitchf, r),
    ensures
        !dries_up(
            other_rng.0,
            other_rng.1,
            (NOISE_DIM * (2 * feats.len()) + 2 * feats.len() * one.cfg.upp) as nat,
        ),
{
    let (rnd, nsf) = choose|rnd: Seq<T>, nsf: Seq<T>|
        {
            &&& rnd.len() == NOISE_DIM * (2 * feats.len())
            &&& nsf.len() == 2 * feats.len() * one.cfg.upp
            &&& #[trigger] both_drawn(s.wide.model@, s.narrow, rng.0, rng.1, rnd, nsf)
        };
    let mid = choose|mid: Pcg64| #[trigger]
        drawn(s.wide.model@, s.narrow, rng.0, mid, rnd) && drawn(
            s.wide.model@,
            s.narrow,
            mid,
            rng.1,
            nsf,
        );
    lemma_drawn_together(s.wide.model@, s.narrow, rng.0, mid, rng.1, rnd, nsf);
    law_drying_up_depends_on_numbers_alone(
        s.wide.model@,
        s.narrow,
        rng.0,
        other_rng.0,
        rng.1,
        other_rng.1,
        rnd + nsf,
    );
}

/// Every content feature stands for two synthesizer frames, one behind the other.
pub proof fn law_features_are_doubled<T>(
    n: Num<T>,
    feats: Seq<Seq<T>>,
    pitchf: Seq<T>,
    rnd: Seq<T>,
    nsf_noise: Seq<T>,
    i: int,
)
    requires
        0 <= i < feats.len(),
    ensures
        ({
            let inputs = synth_inputs(n, feats, pitchf, rnd, nsf_noise);
            &&& inputs.feats.len() == 2 * feats.len()
            &&& inputs.p_len == inputs.feats.len()
            &&& inputs.feats[2 * i] == feats[i]
            &&& inputs.feats[2 * i + 1] == feats[i]
            &&& inputs.pitchf == pitchf
            &&& inputs.pitch.len() == pitchf.len()
            &&& inputs.pitch == buckets(n, pitchf)
            &&& inputs.rnd == rnd
            &&& inputs.nsf_noise == nsf_noise
            &&& inputs.sid == 0
        }),
{
    let inputs = synth_inputs(n, feats, pitchf, rnd, nsf_noise);
    assert(inputs.pitch =~= buckets(n, pitchf));
}

/// A track is aligned at its end: counted from there, every frame stays where it is; frames that
/// are missing before it are zero.
pub proof fn law_tracks_are_aligned_at_the_end<T>(s: Seq<T>, len: nat, zero: T, k: int)
    requires
        0 < k <= len,
    ensures
        tail_aligned(s, len, zero).len() == len,
        k <= s.len() ==> tail_aligned(s, len, zero)[len - k] == s[s.len() - k],
        k > s.len() ==> tail_aligned(s, len, zero)[len - k] == zero,
{
}

/// The pitch track of a window: counted from its end, every frame is the decoded frame, shifted.
pub proof fn law_pitch_is_decoded_shifted_and_aligned<T: Copy>(
    n: Num<T>,
    e: Engine<T>,
    latent: Seq<Seq<T>>,
    semitones: i32,
    frames: nat,
    k: int,
)
    requires
        0 < k <= frames,
    ensures
        ({
            let track = e.pitch_track(n, latent, semitones, frames);
            let decoded = frequencies(
                n,
                e.f0_dec.cent_table@,
                latent,
                e.cfg.f0_threshold.of(n),
            );
            &&& track.len() == frames
            &&& k <= latent.len() ==> track[frames - k] == all_shifted(n, decoded, semitones)[
                latent.len() - k]
            &&& k > latent.len() ==> track[frames - k] == n.zero()
        }),
{
    let raw = Seq::new(
        latent.len(),
        |t: int|
            shifted(
                n,
                frequency(n, e.f0_dec.cent_table@, latent[t], e.cfg.f0_threshold.of(n)),
                semitones,
            ),
    );
    law_tracks_are_aligned_at_the_end(raw, frames, n.zero(), k);
}

/// The standard threshold is six thousandths; any other is the one that was set.
pub proof fn law_standard_threshold<T: Copy>(n: Num<T>, m: Reals<T>, x: T)
    requires
        m.computes(n),
    ensures
        1000real * m.of(Threshold::<T>::Standard.of(n)) == 6real,
        Threshold::Is(x).of(n) == x,
{
    assert(m.of(n.ratio(6, 1000)) == (6i64 as real) / (1000i64 as real));
    assert(1000real * (6real / 1000real) == 6real) by (nonlinear_arith);
}

/// What a conversion gives the networks, and what they answer: the content network's features of
/// `audio`, 768 to a frame; the pitch network's activations for the log-mel picture of `audio`
/// through 128 filters; and the samples `out` that the synthesizer answers `inputs` with.
pub open spec fn asked<
    T: Copy,
    E,
    CV: Fn(&Vec<T>) -> Result<Features<T>, E>,
    FF: Fn(&Vec<T>) -> Result<Vec<(T, T)>, E>,
    FC: Fn(&Vec<Vec<T>>) -> Result<Latent<T>, E>,
    SY: Fn(&SynthInputs<T>) -> Result<Vec<T>, E>,
    W: Copy,
    WO: Fn(Op<W>) -> W,
    WG: Fn(W, W) -> Rel,
    WZ: Fn(W) -> i128,
    NR: Fn(W) -> T,
>(
    n: Num<T>,
    e: Engine<T>,
    s: Sessions<CV, FF, FC, SY, W, WO, WG, WZ, NR>,
    audio: Seq<T>,
    frames: usize,
    features: Seq<T>,
    mel: Seq<Seq<T>>,
    heard: usize,
    bins: usize,
    activations: Seq<T>,
    inputs: SynthView<T>,
    out: Seq<T>,
) -> bool {
    &&& features_give::<T, E, CV>(s.contentvec, audio, frames, features)
    &&& features.len() == 768 * frames
    &&& e.mel_fe.pictures::<E, FF>(n, s.fft, audio, mel)
    &&& e.mel_fe.mel_basis@.len() == 128
    &&& latent_gives::<T, E, FC>(s.fcpe, mel, heard, bins, activations)
    &&& activations.len() == heard * bins
    &&& synth_gives::<T, E, SY>(s.synth, inputs, out)
}

/// What the synthesizer is given: every frame of the features twice; behind them the pitch of the
/// activations, decoded and shifted, the last frame of the one with the last of the other, and no
/// pitch where there are no activations; the bucket of every pitch; one speaker.
pub open spec fn fed<T: Copy>(
    n: Num<T>,
    e: Engine<T>,
    semitones: i32,
    frames: int,
    features: Seq<T>,
    heard: int,
    bins: int,
    activations: Seq<T>,
    inputs: SynthView<T>,
) -> bool {
    &&& inputs.p_len == 2 * frames
    &&& inputs.sid == 0
    &&& inputs.feats.len() == 2 * frames
    &&& inputs.pitchf.len() == 2 * frames
    &&& inputs.pitch == buckets(n, inputs.pitchf)
    &&& forall|i: int, c: int|
        0 <= i < 2 * frames && 0 <= c < 768 ==> #[trigger] inputs.feats[i][c] == features[768 * (i
            / 2) + c]
    &&& forall|k: int|
        0 < k <= 2 * frames ==> #[trigger] inputs.pitchf[2 * frames - k] == if k <= heard {
            shifted(
                n,
                frequency(
                    n,
                    e.f0_dec.cent_table@,
                    activations.subrange((heard - k) * bins, (heard - k) * bins + bins),
                    e.cfg.f0_threshold.of(n),
                ),
                semitones,
            )
        } else {
            n.zero()
        }
}

/// The noise that the synthesizer is given: what was handed in; else what is drawn, 192 numbers and
/// then as many as a frame has samples, for each of the `frames` frames.
pub open spec fn noised<
    T: Copy,
    E,
    CV: Fn(&Vec<T>) -> Result<Features<T>, E>,
    FF: Fn(&Vec<T>) -> Result<Vec<(T, T)>, E>,
    FC: Fn(&Vec<Vec<T>>) -> Result<Latent<T>, E>,
    SY: Fn(&SynthInputs<T>) -> Result<Vec<T>, E>,
    W: Copy,
    WO: Fn(Op<W>) -> W,
    WG: Fn(W, W) -> Rel,
    WZ: Fn(W) -> i128,
    NR: Fn(W) -> T,
>(
    e: Engine<T>,
    s: Sessions<CV, FF, FC, SY, W, WO, WG, WZ, NR>,
    noise: Noise<T>,
    frames: int,
    inputs: SynthView<T>,
) -> bool {
    match noise {
        Noise::Given { rnd, nsf_noise } => inputs.rnd == rnd && inputs.nsf_noise == nsf_noise,
        Noise::Drawn { from, to } => {
            &&& inputs.rnd.len() == 192 * frames
            &&& inputs.nsf_noise.len() == frames * e.cfg.upp
            &&& exists|mid: Pcg64| #[trigger]
                drawn(s.wide.model@, s.narrow, from, mid, inputs.rnd) && drawn(
                    s.wide.model@,
                    s.narrow,
                    mid,
                    to,
                    inputs.nsf_noise,
                )
        },
    }
}

/// Where a conversion succeeds, its output is what the synthesizer answers to the features, the
/// pitch and the noise of the recording.
pub proof fn law_output_is_synthesized<
    T: Copy,
    E,
    CV: Fn(&Vec<T>) -> Result<Features<T>, E>,
    FF: Fn(&Vec<T>) -> Result<Vec<(T, T)>, E>,
    FC: Fn(&Vec<Vec<T>>) -> Result<Latent<T>, E>,
    SY: Fn(&SynthInputs<T>) -> Result<Vec<T>, E>,
    W: Copy,
    WO: Fn(Op<W>) -> W,
    WG: Fn(W, W) -> Rel,
    WZ: Fn(W) -> i128,
    NR: Fn(W) -> T,
>(
    n: Num<T>,
    e: Engine<T>,
    s: Sessions<CV, FF, FC, SY, W, WO, WG, WZ, NR>,
    audio: Seq<T>,
    semitones: i32,
    noise: Noise<T>,
    r: Result<Vec<T>, ConvertError<E>>,
)
    requires
        e.converts(n, s, audio, semitones, noise, r),
        r is Ok,
    ensures
        exists|
            frames: usize,
            features: Seq<T>,
            mel: Seq<Seq<T>>,
            heard: usize,
            bins: usize,
            activations: Seq<T>,
            inputs: SynthView<T>,
        |
            {
                &&& #[trigger] asked::<T, E, CV, FF, FC, SY, W, WO, WG, WZ, NR>(
                    n,
                    e,
                    s,
                    audio,
                    frames,
                    features,
                    mel,
                    heard,
                    bins,
                    activations,
                    inputs,
                    r->Ok_0@,
                )
                &&& fed(
                    n,
                    e,
                    semitones,
                    frames as int,
                    features,
                    heard as int,
                    bins as int,
                    activations,
                    inputs,
                )
                &&& noised::<T, E, CV, FF, FC, SY, W, WO, WG, WZ, NR>(
                    e,
                    s,
                    noise,
                    2 * frames as int,
                    inputs,
                )
            },
{
    let a = choose|a: Analysis<T, E>| #[trigger]
        e.analyses(n, s, audio, semitones, a) && e.resynthesizes(n, s, noise, a, r);
    let (frames, features) = choose|frames: usize, data: Seq<T>| #[trigger]
        features_give::<T, E, CV>(s.contentvec, audio, frames, data) && e.after_features(
            n,
            s,
            audio,
            semitones,
            frames,
            data,
            a,
        );
    let rows = rows_in(features, frames as nat, FEATURE_DIM as nat);
    let mel = choose|mel: Seq<Seq<T>>| #[trigger]
        e.mel_fe.pictures::<E, FF>(n, s.fft, audio, mel) && e.after_mel(
            n,
            s,
            semitones,
            rows,
            mel,
            a,
        );
    let (heard, bins, activations) = choose|heard: usize, bins: usize, data: Seq<T>| #[trigger]
        latent_gives::<T, E, FC>(s.fcpe, mel, heard, bins, data) && a == e.after_latent::<E>(
            n,
            semitones,
            rows,
            heard,
            bins,
            data,
        );
    let latent = rows_in(activations, heard as nat, bins as nat);
    let pitchf = e.pitch_track(n, latent, semitones, 2 * rows.len());
    assert(a == Ok::<(Seq<Seq<T>>, Seq<T>), ConvertError<E>>((rows, pitchf)));
    let (rnd, nsf) = match noise {
        Noise::Given { rnd, nsf_noise } => (rnd, nsf_noise),
        Noise::Drawn { from, to } => {
            choose|rnd: Seq<T>, nsf_noise: Seq<T>|
                {
                    &&& rnd.len() == NOISE_DIM * (2 * rows.len())
                    &&& nsf_noise.len() == 2 * rows.len() * e.cfg.upp
                    &&& #[trigger] both_drawn(s.wide.model@, s.narrow, from, to, rnd, nsf_noise)
                    &&& synthesized::<T, E, SY>(n, s.synth, rows, pitchf, rnd, nsf_noise, r)
                }
        },
    };
    assert(synthesized::<T, E, SY>(n, s.synth, rows, pitchf, rnd, nsf, r));
    let inputs = synth_inputs(n, rows, pitchf, rnd, nsf);
    let f = frames as int;
    assert(inputs.pitch =~= buckets(n, inputs.pitchf));
    assert forall|i: int, c: int| 0 <= i < 2 * f && 0 <= c < 768 implies #[trigger]
    inputs.feats[i][c] == features[768 * (i / 2) + c] by {
        law_cells_are_in_row_order(features, frames as nat, 768, i / 2, c);
    }
    assert forall|k: int| 0 < k <= 2 * f implies #[trigger] inputs.pitchf[2 * f - k] == if k
        <= heard {
        shifted(
            n,
            frequency(
                n,
                e.f0_dec.cent_table@,
                activations.subrange((heard - k) * bins, (heard - k) * bins + bins),
                e.cfg.f0_threshold.of(n),
            ),
            semitones,
        )
    } else {
        n.zero()
    } by {
        law_pitch_is_decoded_shifted_and_aligned(n, e, latent, semitones, 2 * rows.len(), k);
        if k <= heard {
            assert((heard - k + 1) * bins == (heard - k) * bins + bins) by (nonlinear_arith);
        }
    }
    assert(fed(
        n,
        e,
        semitones,
        f,
        features,
        heard as int,
        bins as int,
        activations,
        inputs,
    ));
    assert(noised::<T, E, CV, FF, FC, SY, W, WO, WG, WZ, NR>(e, s, noise, 2 * f, inputs));
    assert(asked::<T, E, CV, FF, FC, SY, W, WO, WG, WZ, NR>(
        n,
        e,
        s,
        audio,
        frames,
        features,
        mel,
        heard,
        bins,
        activations,
        inputs,
        r->Ok_0@,
    ));
}

/// An error of a network or of the transform is passed on as it is: one of them answered with it,
/// to what the recording makes of its input.
pub proof fn law_errors_are_passed_on<
    T: Copy,
    E,
    CV: Fn(&Vec<T>) -> Result<Features<T>, E>,
    FF: Fn(&Vec<T>) -> Result<Vec<(T, T)>, E>,
    FC: Fn(&Vec<Vec<T>>) -> Result<Latent<T>, E>,
    SY: Fn(&SynthInputs<T>) -> Result<Vec<T>, E>,
    W: Copy,
    WO: Fn(Op<W>) -> W,
    WG: Fn(W, W) -> Rel,
    WZ: Fn(W) -> i128,
    NR: Fn(W) -> T,
>(
    n: Num<T>,
    e: Engine<T>,
    s: Sessions<CV, FF, FC, SY, W, WO, WG, WZ, NR>,
    audio: Seq<T>,
    semitones: i32,
    noise: Noise<T>,
    r: Result<Vec<T>, ConvertError<E>>,
    said: E,
)
    requires
        e.converts(n, s, audio, semitones, noise, r),
        r matches Err(ConvertError::Session(d)) && d == said,
    ensures
        ({
            ||| features_fail::<T, E, CV>(s.contentvec, audio, said)
            ||| e.mel_fe.fails::<E, FF>(n, s.fft, audio, said)
            ||| exists|mel: Seq<Seq<T>>| #[trigger]
                e.mel_fe.pictures::<E, FF>(n, s.fft, audio, mel) && latent_fails::<T, E, FC>(
                    s.fcpe,
                    mel,
                    said,
                )
            ||| exists|inputs: SynthView<T>| #[trigger]
                synth_fails::<T, E, SY>(s.synth, inputs, said)
        }),
{
    let a = choose|a: Analysis<T, E>| #[trigger]
        e.analyses(n, s, audio, semitones, a) && e.resynthesizes(n, s, noise, a, r);
    if a is Ok {
        let (rows, pitchf) = a->Ok_0;
        let (rnd, nsf) = match noise {
            Noise::Given { rnd, nsf_noise } => (rnd, nsf_noise),
            Noise::Drawn { from, to } => {
                choose|rnd: Seq<T>, nsf_noise: Seq<T>|
                    {
                        &&& rnd.len() == NOISE_DIM * (2 * rows.len())
                        &&& nsf_noise.len() == 2 * rows.len() * e.cfg.upp
                        &&& #[trigger] both_drawn(
                            s.wide.model@,
                            s.narrow,
                            from,
                            to,
                            rnd,
                            nsf_noise,
                        )
                        &&& synthesized::<T, E, SY>(n, s.synth, rows, pitchf, rnd, nsf_noise, r)
                    }
            },
        };
        assert(synthesized::<T, E, SY>(n, s.synth, rows, pitchf, rnd, nsf, r));
        assert(synth_fails::<T, E, SY>(
            s.synth,
            synth_inputs(n, rows, pitchf, rnd, nsf),
            said,
        ));
    }
}

/// A conversion is refused for its shapes only where one of them is wrong: the features are not 768
/// to a frame, there are not 128 filters, the activations do not make up their frames or cannot be
/// decoded, or there is more noise to draw than can be counted.
pub proof fn law_refused_for_a_wrong_shape<
    T: Copy,
    E,
    CV: Fn(&Vec<T>) -> Result<Features<T>, E>,
    FF: Fn(&Vec<T>) -> Result<Vec<(T, T)>, E>,
    FC: Fn(&Vec<Vec<T>>) -> Result<Latent<T>, E>,
    SY: Fn(&SynthInputs<T>) -> Result<Vec<T>, E>,
    W: Copy,
    WO: Fn(Op<W>) -> W,
    WG: Fn(W, W) -> Rel,
    WZ: Fn(W) -> i128,
    NR: Fn(W) -> T,
>(
    n: Num<T>,
    e: Engine<T>,
    s: Sessions<CV, FF, FC, SY, W, WO, WG, WZ, NR>,
    audio: Seq<T>,
    semitones: i32,
    noise: Noise<T>,
    r: Result<Vec<T>, ConvertError<E>>,
)
    requires
        e.converts(n, s, audio, semitones, noise, r),
        r matches Err(ConvertError::Shape),
    ensures
        ({
            ||| exists|frames: usize, features: Seq<T>| #[trigger]
                features_give::<T, E, CV>(s.contentvec, audio, frames, features) && features.len()
                    != 768 * frames
            ||| e.mel_fe.mel_basis@.len() != 128
            ||| exists|
                mel: Seq<Seq<T>>,
                heard: usize,
                bins: usize,
                activations: Seq<T>,
            | #[trigger]
                latent_gives::<T, E, FC>(s.fcpe, mel, heard, bins, activations) && (
                activations.len() != heard * bins || !all_decodable(
                    n,
                    e.f0_dec.cent_table@.len() as int,
                    rows_in(activations, heard as nat, bins as nat),
                ))
            ||| exists|frames: usize, features: Seq<T>| #[trigger]
                features_give::<T, E, CV>(s.contentvec, audio, frames, features) && 2 * frames
                    * e.cfg.upp > usize::MAX && noise is Drawn
        }),
{
    let a = choose|a: Analysis<T, E>| #[trigger]
        e.analyses(n, s, audio, semitones, a) && e.resynthesizes(n, s, noise, a, r);
    let (frames, features) = choose|frames: usize, data: Seq<T>| #[trigger]
        features_give::<T, E, CV>(s.contentvec, audio, frames, data) && e.after_features(
            n,
            s,
            audio,
            semitones,
            frames,
            data,
            a,
        );
    assert(features_give::<T, E, CV>(s.contentvec, audio, frames, features));
    if features.len() == 768 * frames && e.mel_fe.mel_basis@.len() == 128 {
        let rows = rows_in(features, frames as nat, FEATURE_DIM as nat);
        let mel = choose|mel: Seq<Seq<T>>| #[trigger]
            e.mel_fe.pictures::<E, FF>(n, s.fft, audio, mel) && e.after_mel(
                n,
                s,
                semitones,
                rows,
                mel,
                a,
            );
        let (heard, bins, activations) = choose|heard: usize, bins: usize, data: Seq<T>| #[trigger]
            latent_gives::<T, E, FC>(s.fcpe, mel, heard, bins, data) && a == e.after_latent::<E>(
                n,
                semitones,
                rows,
                heard,
                bins,
                data,
            );
        assert(latent_gives::<T, E, FC>(s.fcpe, mel, heard, bins, activations));
        if a is Ok {
            assert(a->Ok_0.0.len() == frames);
        }
    }
}

} // verus!
