//! Log-mel frontend of the pitch estimator.
use vstd::prelude::*;

use crate::arith::{Arith, Num, Op, Rel};
use crate::dsp::table::{copied, push_all, rows_in, rows_of, split_rows};
use crate::exact::{lemma_integer, total, Reals};

verus! {

/// Log-mel frontend. Works on a whole window of 16 kHz audio at once.
pub struct MelFrontend<T> {
    /// The mel filters, one row of spectral weights each.
    pub mel_basis: Vec<Vec<T>>,
    /// The analysis window.
    pub window: Vec<T>,
    /// Length of the Fourier transform.
    pub n_fft: usize,
    /// Length of a frame.
    pub win: usize,
    /// Step from frame to frame.
    pub hop: usize,
    /// Smallest value that is passed to the logarithm.
    pub clip_val: T,
}

/// Samples that are put before the audio.
pub open spec fn pad_left(win: int, hop: int) -> int {
    (win - hop) / 2
}

/// Samples that are put behind `n` samples of audio: half of the overlap, and enough to fill
/// one frame.
pub open spec fn pad_right(win: int, hop: int, n: int) -> int {
    let half = (win - hop + 1) / 2;
    let missing = win - (n + pad_left(win, hop));
    if half >= missing {
        half
    } else {
        missing
    }
}

/// `audio` reflected at both ends without repeating the edge samples, `left` samples before
/// it and `right` behind it; zeros instead where the audio is too short to reflect.
pub open spec fn padded<T>(audio: Seq<T>, left: int, right: int, zero: T) -> Seq<T> {
    let n = audio.len();
    Seq::new(
        (left + n + right) as nat,
        |i: int|
            if left <= i < left + n {
                audio[i - left]
            } else if right >= n {
                zero
            } else if i < left {
                audio[left - i]
            } else {
                audio[n - 2 - (i - left - n)]
            },
    )
}

/// The number of frames that fit into `len` samples.
pub open spec fn frame_count(len: int, win: int, hop: int) -> int {
    (len - win) / hop + 1
}

/// The windowed frame that starts at `start`.
pub open spec fn frame<T>(n: Num<T>, samples: Seq<T>, window: Seq<T>, start: int, win: nat) -> Seq<
    T,
> {
    Seq::new(win, |i: int| n.times(samples[start + i], window[i]))
}

/// The magnitude of a spectral bin, kept off zero by a billionth under the root.
pub open spec fn magnitude<T>(n: Num<T>, c: (T, T)) -> T {
    n.sqrt(n.plus(n.plus(n.times(c.0, c.0), n.times(c.1, c.1)), n.ratio(1, 1_000_000_000)))
}

/// The first `k` magnitudes of `spectrum`, weighted by `weights` and added up.
pub open spec fn weighted<T>(n: Num<T>, weights: Seq<T>, spectrum: Seq<(T, T)>, k: nat) -> T
    decreases k,
{
    if k == 0 {
        n.zero()
    } else {
        n.plus(
            weighted(n, weights, spectrum, (k - 1) as nat),
            n.times(weights[k - 1], magnitude(n, spectrum[k - 1])),
        )
    }
}

/// The log-mel row of one spectrum.
pub open spec fn mel_row<T>(n: Num<T>, basis: Seq<Seq<T>>, clip: T, spectrum: Seq<(T, T)>) -> Seq<
    T,
> {
    Seq::new(
        basis.len(),
        |m: int| n.ln(n.larger(weighted(n, basis[m], spectrum, spectrum.len()), clip)),
    )
}

/// `rows` brought to `target` rows: trimmed, or the last row repeated.
pub open spec fn fitted<R>(rows: Seq<R>, target: nat) -> Seq<R> {
    Seq::new(
        target,
        |i: int|
            if i < rows.len() {
                rows[i]
            } else {
                rows.last()
            },
    )
}

/// `fft` may answer `input` with the spectrum `output`.
pub open spec fn fft_gives<T, E, F: Fn(&Vec<T>) -> Result<Vec<(T, T)>, E>>(
    fft: F,
    input: Seq<T>,
    output: Seq<(T, T)>,
) -> bool {
    exists|i: Vec<T>, o: Vec<(T, T)>| #[trigger]
        call_ensures(fft, (&i,), Ok::<Vec<(T, T)>, E>(o)) && i@ == input && o@ == output
}

/// `fft` may answer `input` with the error `e`.
pub open spec fn fft_fails<T, E, F: Fn(&Vec<T>) -> Result<Vec<(T, T)>, E>>(
    fft: F,
    input: Seq<T>,
    e: E,
) -> bool {
    exists|i: Vec<T>| #[trigger] call_ensures(fft, (&i,), Err::<Vec<(T, T)>, E>(e)) && i@ == input
}

/// `fft` transforms every input of length `n_fft`, into the half spectrum.
pub open spec fn fft_ready<T, E, F: Fn(&Vec<T>) -> Result<Vec<(T, T)>, E>>(
    fft: F,
    n_fft: usize,
) -> bool {
    &&& forall|i: Vec<T>| i@.len() == n_fft ==> #[trigger] call_requires(fft, (&i,))
    &&& forall|i: Vec<T>, o: Vec<(T, T)>| #[trigger]
        call_ensures(fft, (&i,), Ok::<Vec<(T, T)>, E>(o)) ==> o@.len() == n_fft / 2 + 1
}

impl<T: Copy> MelFrontend<T> {
    /// The tables fit together: one frame fills the transform, the frames overlap, and every
    /// filter has a weight for every bin.
    pub open spec fn wf(&self) -> bool {
        &&& 0 < self.hop <= self.win
        &&& self.win == self.n_fft
        &&& self.win <= self.window@.len()
        &&& forall|m: int|
            0 <= m < self.mel_basis@.len() ==> self.n_fft / 2 + 1 <= (
            #[trigger] self.mel_basis@[m])@.len()
    }

    /// Whether the tables fit together.
    pub fn is_usable(&self) -> (r: bool)
        ensures
            r == self.wf(),
    {
        if self.hop == 0 || self.hop > self.win || self.win != self.n_fft || self.window.len()
            < self.win {
            return false;
        }
        let bins: usize = self.n_fft / 2 + 1;
        let mut m: usize = 0;
        while m < self.mel_basis.len()
            invariant
                bins == self.n_fft / 2 + 1,
                m <= self.mel_basis@.len(),
                forall|k: int|
                    0 <= k < m ==> self.n_fft / 2 + 1 <= (#[trigger] self.mel_basis@[k])@.len(),
            decreases self.mel_basis@.len() - m,
        {
            if self.mel_basis[m].len() < bins {
                return false;
            }
            m += 1;
        }
        true
    }

    /// Two frontends with the same tables.
    pub open spec fn alike(self, other: Self) -> bool {
        &&& self.n_fft == other.n_fft
        &&& self.win == other.win
        &&& self.hop == other.hop
        &&& self.clip_val == other.clip_val
        &&& self.window@ == other.window@
        &&& rows_of(self.mel_basis@) == rows_of(other.mel_basis@)
    }

    /// The padded audio.
    pub open spec fn padded_audio(&self, n: Num<T>, audio: Seq<T>) -> Seq<T> {
        padded(
            audio,
            pad_left(self.win as int, self.hop as int),
            pad_right(self.win as int, self.hop as int, audio.len() as int),
            n.zero(),
        )
    }

    /// The number of frames of `audio`.
    pub open spec fn frames(&self, n: Num<T>, audio: Seq<T>) -> int {
        frame_count(self.padded_audio(n, audio).len() as int, self.win as int, self.hop as int)
    }

    /// The `f`-th frame of `audio`.
    pub open spec fn frame_at(&self, n: Num<T>, audio: Seq<T>, f: int) -> Seq<T> {
        frame(n, self.padded_audio(n, audio), self.window@, f * self.hop, self.win as nat)
    }

    /// `spectra` are answers of `fft` to the first frames of `audio`.
    pub open spec fn transforms<E, F: Fn(&Vec<T>) -> Result<Vec<(T, T)>, E>>(
        &self,
        n: Num<T>,
        fft: F,
        audio: Seq<T>,
        spectra: Seq<Seq<(T, T)>>,
    ) -> bool {
        forall|f: int|
            0 <= f < spectra.len() ==> fft_gives::<T, E, F>(
                fft,
                self.frame_at(n, audio, f),
                #[trigger] spectra[f],
            )
    }

    /// The log-mel rows of `spectra`.
    pub open spec fn mel_rows(&self, n: Num<T>, spectra: Seq<Seq<(T, T)>>) -> Seq<Seq<T>> {
        Seq::new(
            spectra.len(),
            |f: int| mel_row(n, rows_of(self.mel_basis@), self.clip_val, spectra[f]),
        )
    }

    /// `rows` is a log-mel picture of `audio`: the frames are transformed by `fft`, projected
    /// on the filters, and brought to one row for every hop that the audio begins.
    pub open spec fn pictures<E, F: Fn(&Vec<T>) -> Result<Vec<(T, T)>, E>>(
        &self,
        n: Num<T>,
        fft: F,
        audio: Seq<T>,
        rows: Seq<Seq<T>>,
    ) -> bool {
        exists|spectra: Seq<Seq<(T, T)>>|
            {
                &&& spectra.len() == self.frames(n, audio)
                &&& #[trigger] self.transforms::<E, F>(n, fft, audio, spectra)
                &&& rows == fitted(
                    self.mel_rows(n, spectra),
                    (audio.len() / self.hop as nat + 1) as nat,
                )
            }
    }

    /// `fft` may answer the frames of `audio` up to some frame with spectra, and that frame with
    /// `e`.
    pub open spec fn fails<E, F: Fn(&Vec<T>) -> Result<Vec<(T, T)>, E>>(
        &self,
        n: Num<T>,
        fft: F,
        audio: Seq<T>,
        e: E,
    ) -> bool {
        exists|spectra: Seq<Seq<(T, T)>>|
            {
                &&& spectra.len() < self.frames(n, audio)
                &&& #[trigger] self.transforms::<E, F>(n, fft, audio, spectra)
                &&& fft_fails::<T, E, F>(fft, self.frame_at(n, audio, spectra.len() as int), e)
            }
    }

    /// Reads the stored tables: the filter matrix in row order with its shape, the analysis
    /// window, and the scalars (transform length, frame length, hop, clip value). `None` where
    /// the filter table is not a matrix.
    pub fn from_tables<O: Fn(Op<T>) -> T, G: Fn(T, T) -> Rel, Z: Fn(T) -> i128>(
        ar: &Arith<T, O, G, Z>,
        basis: &Vec<T>,
        shape: &Vec<usize>,
        window: Vec<T>,
        scalars: &Vec<T>,
    ) -> (r: Option<Self>)
        requires
            ar.wf(),
            scalars@.len() >= 4,
            shape@.len() == 2 ==> basis@.len() == shape@[0] * shape@[1],
        ensures
            r is Some <==> shape@.len() == 2,
            r matches Some(m) ==> {
                &&& m.window@ == window@
                &&& m.n_fft == ar.model@.cut(scalars@[0], 0, usize::MAX as int)
                &&& m.win == ar.model@.cut(scalars@[1], 0, usize::MAX as int)
                &&& m.hop == ar.model@.cut(scalars@[2], 0, usize::MAX as int)
                &&& m.clip_val == scalars@[3]
                &&& rows_of(m.mel_basis@) == rows_in(basis@, shape@[0] as nat, shape@[1] as nat)
            },
    {
        if shape.len() != 2 {
            return None;
        }
        let rows: usize = shape[0];
        let cols: usize = shape[1];
        let top: i128 = usize::MAX as i128;
        let n_fft: usize = ar.cut(scalars[0], 0, top) as usize;
        let win: usize = ar.cut(scalars[1], 0, top) as usize;
        let hop: usize = ar.cut(scalars[2], 0, top) as usize;
        let mel_basis = split_rows(basis, rows, cols);
        Some(MelFrontend { mel_basis, window, n_fft, win, hop, clip_val: scalars[3] })
    }

    /// The padded audio.
    fn pad<O: Fn(Op<T>) -> T, G: Fn(T, T) -> Rel, Z: Fn(T) -> i128>(
        &self,
        ar: &Arith<T, O, G, Z>,
        audio: &[T],
    ) -> (r: Vec<T>)
        requires
            ar.wf(),
            self.wf(),
            audio@.len() + 2 * self.win <= usize::MAX,
        ensures
            r@ == self.padded_audio(ar.model@, audio@),
            r@.len() >= self.win,
            r@.len() <= audio@.len() + 2 * self.win,
    {
        let n: usize = audio.len();
        let left: usize = (self.win - self.hop) / 2;
        let half: usize = (self.win - self.hop + 1) / 2;
        let missing: usize = if self.win > n + left {
            self.win - (n + left)
        } else {
            0
        };
        let right: usize = if half >= missing {
            half
        } else {
            missing
        };
        let zero = ar.zero();
        let ghost whole = padded(audio@, left as int, right as int, zero);
        let mut r: Vec<T> = Vec::new();
        let mut i: usize = 0;
        while i < left
            invariant
                n == audio@.len(),
                left <= right,
                i <= left,
                whole == padded(audio@, left as int, right as int, zero),
                r@ == whole.take(i as int),
            decreases left - i,
        {
            if right < n {
                r.push(audio[left - i]);
            } else {
                r.push(zero);
            }
            i += 1;
        }
        push_all(&mut r, audio);
        assert(r@ =~= whole.take(left + n));
        i = 0;
        while i < right
            invariant
                n == audio@.len(),
                left <= right,
                i <= right,
                whole == padded(audio@, left as int, right as int, zero),
                r@ == whole.take(left + n + i),
            decreases right - i,
        {
            if right < n {
                r.push(audio[n - 2 - i]);
            } else {
                r.push(zero);
            }
            i += 1;
        }
        assert(whole.take(left + n + right) =~= whole);
        r
    }

    /// The log-mel row of one spectrum.
    fn project<O: Fn(Op<T>) -> T, G: Fn(T, T) -> Rel, Z: Fn(T) -> i128>(
        &self,
        ar: &Arith<T, O, G, Z>,
        spectrum: &Vec<(T, T)>,
    ) -> (r: Vec<T>)
        requires
            ar.wf(),
            self.wf(),
            spectrum@.len() == self.n_fft / 2 + 1,
        ensures
            r@ == mel_row(ar.model@, rows_of(self.mel_basis@), self.clip_val, spectrum@),
    {
        let ghost n = ar.model@;
        let ghost basis = rows_of(self.mel_basis@);
        let ghost whole = mel_row(n, basis, self.clip_val, spectrum@);
        let tiny = ar.ratio(1, 1_000_000_000);
        let bins: usize = spectrum.len();
        let mut mags: Vec<T> = Vec::new();
        while mags.len() < bins
            invariant
                ar.wf(),
                n == ar.model@,
                tiny == n.ratio(1, 1_000_000_000),
                bins == spectrum@.len(),
                mags@.len() <= bins,
                forall|j: int| 0 <= j < mags@.len() ==> mags@[j] == magnitude(n, spectrum@[j]),
            decreases bins - mags@.len(),
        {
            let (re, im) = spectrum[mags.len()];
            let sum = ar.plus(ar.plus(ar.times(re, re), ar.times(im, im)), tiny);
            mags.push(ar.eval(Op::Sqrt(sum)));
        }
        let mut r: Vec<T> = Vec::new();
        while r.len() < self.mel_basis.len()
            invariant
                ar.wf(),
                self.wf(),
                n == ar.model@,
                basis == rows_of(self.mel_basis@),
                whole == mel_row(n, basis, self.clip_val, spectrum@),
                bins == spectrum@.len(),
                bins == self.n_fft / 2 + 1,
                mags@.len() == bins,
                forall|j: int| 0 <= j < bins ==> mags@[j] == magnitude(n, spectrum@[j]),
                r@.len() <= self.mel_basis@.len(),
                r@ == whole.take(r@.len() as int),
            decreases self.mel_basis@.len() - r@.len(),
        {
            let m: usize = r.len();
            let row = &self.mel_basis[m];
            let mut acc = ar.zero();
            let mut b: usize = 0;
            while b < bins
                invariant
                    ar.wf(),
                    n == ar.model@,
                    bins == spectrum@.len(),
                    bins <= row@.len(),
                    mags@.len() == bins,
                    forall|j: int| 0 <= j < bins ==> mags@[j] == magnitude(n, spectrum@[j]),
                    b <= bins,
                    acc == weighted(n, row@, spectrum@, b as nat),
                decreases bins - b,
            {
                acc = ar.plus(acc, ar.times(row[b], mags[b]));
                b += 1;
            }
            let clipped = ar.eval(Op::Max(acc, self.clip_val));
            r.push(ar.eval(Op::Ln(clipped)));
        }
        assert(whole.take(r@.len() as int) =~= whole);
        r
    }

    /// The log-mel picture of 16 kHz mono `audio`: one row for every hop that the audio
    /// begins. `fft` is the forward real transform of length `n_fft`.
    pub fn process<
        O: Fn(Op<T>) -> T,
        G: Fn(T, T) -> Rel,
        Z: Fn(T) -> i128,
        E,
        F: Fn(&Vec<T>) -> Result<Vec<(T, T)>, E>,
    >(&self, ar: &Arith<T, O, G, Z>, audio: &[T], fft: &F) -> (r: Result<Vec<Vec<T>>, E>)
        requires
            ar.wf(),
            self.wf(),
            audio@.len() + 2 * self.win <= usize::MAX,
            fft_ready::<T, E, F>(*fft, self.n_fft),
        ensures
            match r {
                Ok(rows) => {
                    &&& self.pictures::<E, F>(ar.model@, *fft, audio@, rows_of(rows@))
                    &&& rows@.len() == audio@.len() / self.hop as nat + 1
                    &&& forall|t: int|
                        0 <= t < rows@.len() ==> (#[trigger] rows@[t])@.len()
                            == self.mel_basis@.len()
                },
                Err(e) => self.fails::<E, F>(ar.model@, *fft, audio@, e),
            },
    {
        let ghost n = ar.model@;
        let ghost basis = rows_of(self.mel_basis@);
        let samples = self.pad(ar, audio);
        let ghost whole = self.padded_audio(n, audio@);
        let len: usize = samples.len();
        let frames: usize = (len - self.win) / self.hop + 1;
        let ghost mut spectra: Seq<Seq<(T, T)>> = Seq::empty();
        let mut rows: Vec<Vec<T>> = Vec::new();
        let mut start: usize = 0;
        proof {
            vstd::arithmetic::div_mod::lemma_fundamental_div_mod(
                len - self.win,
                self.hop as int,
            );
            assert(self.hop * (frames - 1) == (frames - 1) * self.hop) by (nonlinear_arith);
            assert(0 * self.hop == 0) by (nonlinear_arith);
        }
        while rows.len() < frames
            invariant
                ar.wf(),
                self.wf(),
                n == ar.model@,
                basis == rows_of(self.mel_basis@),
                whole == self.padded_audio(n, audio@),
                samples@ == whole,
                len == whole.len(),
                frames == self.frames(n, audio@),
                self.win + (frames - 1) * self.hop <= len,
                fft_ready::<T, E, F>(*fft, self.n_fft),
                rows@.len() <= frames,
                rows@.len() < frames ==> start == rows@.len() * self.hop,
                spectra.len() == rows@.len(),
                self.transforms::<E, F>(n, *fft, audio@, spectra),
                rows_of(rows@) == self.mel_rows(n, spectra),
            decreases frames - rows@.len(),
        {
            let ghost f = rows@.len();
            proof {
                assert(f * self.hop <= (frames - 1) * self.hop) by (nonlinear_arith)
                    requires
                        f <= frames - 1,
                ;
                assert((f + 1) * self.hop == f * self.hop + self.hop) by (nonlinear_arith);
            }
            let mut buf: Vec<T> = Vec::new();
            while buf.len() < self.win
                invariant
                    ar.wf(),
                    self.wf(),
                    n == ar.model@,
                    samples@ == whole,
                    len == whole.len(),
                    start + self.win <= len,
                    buf@.len() <= self.win,
                    buf@ == frame(n, whole, self.window@, start as int, buf@.len()),
                decreases self.win - buf@.len(),
            {
                let i: usize = buf.len();
                buf.push(ar.times(samples[start + i], self.window[i]));
            }
            assert(buf@ == self.frame_at(n, audio@, f as int));
            match fft(&buf) {
                Err(e) => {
                    assert(fft_fails::<T, E, F>(*fft, self.frame_at(n, audio@, f as int), e));
                    return Err(e);
                },
                Ok(spectrum) => {
                    let row = self.project(ar, &spectrum);
                    proof {
                        let next = spectra.push(spectrum@);
                        assert forall|j: int| 0 <= j < next.len() implies fft_gives::<T, E, F>(
                            *fft,
                            self.frame_at(n, audio@, j),
                            #[trigger] next[j],
                        ) by {
                            if j < spectra.len() {
                                assert(next[j] == spectra[j]);
                            }
                        }
                        assert(rows_of(rows@.push(row)) =~= rows_of(rows@).push(row@));
                        assert(self.mel_rows(n, next) =~= self.mel_rows(n, spectra).push(
                            mel_row(n, basis, self.clip_val, spectrum@),
                        ));
                        spectra = next;
                    }
                    rows.push(row);
                    if rows.len() < frames {
                        proof {
                            assert((f + 1) * self.hop <= (frames - 1) * self.hop)
                                by (nonlinear_arith)
                                requires
                                    f + 1 <= frames - 1,
                            ;
                        }
                        start += self.hop;
                    }
                },
            }
        }
        let target: usize = audio.len() / self.hop + 1;
        let ghost made = self.mel_rows(n, spectra);
        if target < rows.len() {
            rows.truncate(target);
        }
        while rows.len() < target
            invariant
                made.len() >= 1,
                rows@.len() >= 1,
                rows@.len() <= target,
                rows@.len() >= made.len() || rows@.len() == target,
                rows_of(rows@) == fitted(made, rows@.len()),
            decreases target - rows@.len(),
        {
            let last = copied(rows[rows.len() - 1].as_slice());
            proof {
                assert(rows_of(rows@)[rows@.len() - 1] == last@);
                assert(last@ == made.last());
                assert forall|i: int| 0 <= i < rows@.len() implies rows@[i]@ == #[trigger] fitted(
                    made,
                    rows@.len() + 1,
                )[i] by {
                    assert(rows_of(rows@)[i] == fitted(made, rows@.len())[i]);
                }
                assert(rows_of(rows@.push(last)) =~= fitted(made, rows@.len() + 1));
            }
            rows.push(last);
        }
        proof {
            assert forall|t: int| 0 <= t < rows@.len() implies (#[trigger] rows@[t])@.len()
                == self.mel_basis@.len() by {
                assert(rows_of(rows@)[t] == rows@[t]@);
                assert(fitted(made, rows@.len())[t] == rows@[t]@);
            }
        }
        Ok(rows)
    }

    /// Step from frame to frame.
    pub fn hop(&self) -> (r: usize)
        ensures
            r == self.hop,
    {
        self.hop
    }
}

/// Whatever it is given, `fft` has one answer.
pub open spec fn one_spectrum<T, E, F: Fn(&Vec<T>) -> Result<Vec<(T, T)>, E>>(fft: F) -> bool {
    &&& forall|x: Seq<T>, a: Seq<(T, T)>, b: Seq<(T, T)>| #[trigger]
        fft_gives::<T, E, F>(fft, x, a) && #[trigger] fft_gives::<T, E, F>(fft, x, b) ==> a == b
    &&& forall|x: Seq<T>, a: Seq<(T, T)>, e: E|
        !(#[trigger] fft_gives::<T, E, F>(fft, x, a) && #[trigger] fft_fails::<T, E, F>(fft, x, e))
    &&& forall|x: Seq<T>, d: E, e: E| #[trigger]
        fft_fails::<T, E, F>(fft, x, d) && #[trigger] fft_fails::<T, E, F>(fft, x, e) ==> d == e
}

/// The spectra of the first frames are determined, where the transform has one answer.
proof fn lemma_spectra_determined<T: Copy, E, F: Fn(&Vec<T>) -> Result<Vec<(T, T)>, E>>(
    n: Num<T>,
    fft: F,
    one: MelFrontend<T>,
    other: MelFrontend<T>,
    audio: Seq<T>,
    a: Seq<Seq<(T, T)>>,
    b: Seq<Seq<(T, T)>>,
)
    requires
        one.alike(other),
        one_spectrum::<T, E, F>(fft),
        one.transforms::<E, F>(n, fft, audio, a),
        other.transforms::<E, F>(n, fft, audio, b),
    ensures
        forall|f: int| 0 <= f < a.len() && f < b.len() ==> #[trigger] a[f] == b[f],
{
    assert forall|f: int| 0 <= f < a.len() && f < b.len() implies #[trigger] a[f] == b[f] by {
        assert(one.frame_at(n, audio, f) == other.frame_at(n, audio, f));
        assert(fft_gives::<T, E, F>(fft, one.frame_at(n, audio, f), a[f]));
        assert(fft_gives::<T, E, F>(fft, other.frame_at(n, audio, f), b[f]));
    }
}

/// Two frontends with the same tables make one picture of the same audio, where the transform has
/// one answer.
pub proof fn law_picture_is_a_function<T: Copy, E, F: Fn(&Vec<T>) -> Result<Vec<(T, T)>, E>>(
    n: Num<T>,
    fft: F,
    one: MelFrontend<T>,
    other: MelFrontend<T>,
    audio: Seq<T>,
    rows: Seq<Seq<T>>,
    other_rows: Seq<Seq<T>>,
)
    requires
        one.alike(other),
        one_spectrum::<T, E, F>(fft),
        one.pictures::<E, F>(n, fft, audio, rows),
        other.pictures::<E, F>(n, fft, audio, other_rows),
    ensures
        rows == other_rows,
{
    let target = (audio.len() / one.hop as nat + 1) as nat;
    let a = choose|a: Seq<Seq<(T, T)>>|
        {
            &&& a.len() == one.frames(n, audio)
            &&& #[trigger] one.transforms::<E, F>(n, fft, audio, a)
            &&& rows == fitted(one.mel_rows(n, a), target)
        };
    let b = choose|b: Seq<Seq<(T, T)>>|
        {
            &&& b.len() == other.frames(n, audio)
            &&& #[trigger] other.transforms::<E, F>(n, fft, audio, b)
            &&& other_rows == fitted(other.mel_rows(n, b), target)
        };
    lemma_spectra_determined::<T, E, F>(n, fft, one, other, audio, a, b);
    assert(a =~= b);
    assert(one.mel_rows(n, a) =~= other.mel_rows(n, b));
}

/// Where the transform has one answer, a picture is not made of audio on which it fails.
pub proof fn law_picture_or_failure<T: Copy, E, F: Fn(&Vec<T>) -> Result<Vec<(T, T)>, E>>(
    n: Num<T>,
    fft: F,
    one: MelFrontend<T>,
    other: MelFrontend<T>,
    audio: Seq<T>,
    rows: Seq<Seq<T>>,
    e: E,
)
    requires
        one.alike(other),
        one_spectrum::<T, E, F>(fft),
        one.pictures::<E, F>(n, fft, audio, rows),
    ensures
        !other.fails::<E, F>(n, fft, audio, e),
{
    if other.fails::<E, F>(n, fft, audio, e) {
        let a = choose|a: Seq<Seq<(T, T)>>|
            a.len() == one.frames(n, audio) && #[trigger] one.transforms::<E, F>(n, fft, audio, a);
        let b = choose|b: Seq<Seq<(T, T)>>|
            {
                &&& b.len() < other.frames(n, audio)
                &&& #[trigger] other.transforms::<E, F>(n, fft, audio, b)
                &&& fft_fails::<T, E, F>(fft, other.frame_at(n, audio, b.len() as int), e)
            };
        let f = b.len() as int;
        assert(one.frame_at(n, audio, f) == other.frame_at(n, audio, f));
        assert(fft_gives::<T, E, F>(fft, one.frame_at(n, audio, f), a[f]));
    }
}

/// Where the transform has one answer, two frontends with the same tables fail alike.
pub proof fn law_failure_is_a_function<T: Copy, E, F: Fn(&Vec<T>) -> Result<Vec<(T, T)>, E>>(
    n: Num<T>,
    fft: F,
    one: MelFrontend<T>,
    other: MelFrontend<T>,
    audio: Seq<T>,
    d: E,
    e: E,
)
    requires
        one.alike(other),
        one_spectrum::<T, E, F>(fft),
        one.fails::<E, F>(n, fft, audio, d),
        other.fails::<E, F>(n, fft, audio, e),
    ensures
        d == e,
{
    let a = choose|a: Seq<Seq<(T, T)>>|
        {
            &&& a.len() < one.frames(n, audio)
            &&& #[trigger] one.transforms::<E, F>(n, fft, audio, a)
            &&& fft_fails::<T, E, F>(fft, one.frame_at(n, audio, a.len() as int), d)
        };
    let b = choose|b: Seq<Seq<(T, T)>>|
        {
            &&& b.len() < other.frames(n, audio)
            &&& #[trigger] other.transforms::<E, F>(n, fft, audio, b)
            &&& fft_fails::<T, E, F>(fft, other.frame_at(n, audio, b.len() as int), e)
        };
    let (f, g) = (a.len() as int, b.len() as int);
    assert(one.frame_at(n, audio, f) == other.frame_at(n, audio, f));
    assert(one.frame_at(n, audio, g) == other.frame_at(n, audio, g));
    if f < g {
        assert(fft_gives::<T, E, F>(fft, other.frame_at(n, audio, f), b[f]));
    } else if g < f {
        assert(fft_gives::<T, E, F>(fft, one.frame_at(n, audio, g), a[g]));
    }
}

/// A frame that lies inside the audio depends on its own samples alone: where two recordings agree
/// under its window, they have the same log-mel row there.
pub proof fn law_inner_row_sees_its_window_alone<
    T: Copy,
    E,
    F: Fn(&Vec<T>) -> Result<Vec<(T, T)>, E>,
>(
    n: Num<T>,
    fft: F,
    fe: MelFrontend<T>,
    audio: Seq<T>,
    other: Seq<T>,
    rows: Seq<Seq<T>>,
    other_rows: Seq<Seq<T>>,
    f: int,
)
    requires
        fe.wf(),
        one_spectrum::<T, E, F>(fft),
        fe.pictures::<E, F>(n, fft, audio, rows),
        fe.pictures::<E, F>(n, fft, other, other_rows),
        0 <= f,
        0 <= f * fe.hop - pad_left(fe.win as int, fe.hop as int),
        f * fe.hop - pad_left(fe.win as int, fe.hop as int) + fe.win <= audio.len(),
        f * fe.hop - pad_left(fe.win as int, fe.hop as int) + fe.win <= other.len(),
        forall|i: int|
            f * fe.hop - pad_left(fe.win as int, fe.hop as int) <= i < f * fe.hop - pad_left(
                fe.win as int,
                fe.hop as int,
            ) + fe.win ==> #[trigger] audio[i] == other[i],
    ensures
        f < rows.len(),
        f < other_rows.len(),
        rows[f] == other_rows[f],
{
    let left = pad_left(fe.win as int, fe.hop as int);
    let a = choose|a: Seq<Seq<(T, T)>>|
        {
            &&& a.len() == fe.frames(n, audio)
            &&& #[trigger] fe.transforms::<E, F>(n, fft, audio, a)
            &&& rows == fitted(fe.mel_rows(n, a), (audio.len() / fe.hop as nat + 1) as nat)
        };
    let b = choose|b: Seq<Seq<(T, T)>>|
        {
            &&& b.len() == fe.frames(n, other)
            &&& #[trigger] fe.transforms::<E, F>(n, fft, other, b)
            &&& other_rows == fitted(fe.mel_rows(n, b), (other.len() / fe.hop as nat + 1) as nat)
        };
    lemma_inner_frame_exists(fe, n, audio, f);
    lemma_inner_frame_exists(fe, n, other, f);
    assert(fe.frame_at(n, audio, f) =~= fe.frame_at(n, other, f)) by {
        assert forall|i: int| 0 <= i < fe.win implies #[trigger] fe.frame_at(n, audio, f)[i]
            == fe.frame_at(n, other, f)[i] by {
            assert(audio[f * fe.hop - left + i] == other[f * fe.hop - left + i]);
        }
    }
    assert(fft_gives::<T, E, F>(fft, fe.frame_at(n, audio, f), a[f]));
    assert(fft_gives::<T, E, F>(fft, fe.frame_at(n, other, f), b[f]));
    assert(rows[f] == fe.mel_rows(n, a)[f]);
    assert(other_rows[f] == fe.mel_rows(n, b)[f]);
}

/// A frame that lies inside the audio is one of its frames, and begins before the audio ends.
proof fn lemma_inner_frame_exists<T: Copy>(fe: MelFrontend<T>, n: Num<T>, audio: Seq<T>, f: int)
    requires
        fe.wf(),
        0 <= f,
        f * fe.hop - pad_left(fe.win as int, fe.hop as int) + fe.win <= audio.len(),
    ensures
        f < fe.frames(n, audio),
        f < audio.len() / fe.hop as nat + 1,
{
    let len = fe.padded_audio(n, audio).len() as int;
    let (hop, win) = (fe.hop as int, fe.win as int);
    assert(f * hop <= len - win);
    assert(f <= (len - win) / hop) by (nonlinear_arith)
        requires
            f * hop <= len - win,
            hop > 0,
    ;
    assert(f <= audio.len() as int / hop) by (nonlinear_arith)
        requires
            f * hop <= audio.len(),
            hop > 0,
    ;
}

/// The sample that is heard at place `at` of a recording: one of its own, or, outside, the one that
/// lies as far inside of the nearest end.
pub open spec fn mirrored<T>(audio: Seq<T>, at: int) -> T {
    if at < 0 {
        audio[-at]
    } else if at < audio.len() {
        audio[at]
    } else {
        audio[2 * (audio.len() - 1) - at]
    }
}

/// How many samples are heard behind the end of `len` samples: half of what two windows share, and
/// at least what the first window needs.
pub open spec fn heard_behind(win: int, hop: int, len: int) -> int {
    if win - len - (win - hop) / 2 > (win - hop + 1) / 2 {
        win - len - (win - hop) / 2
    } else {
        (win - hop + 1) / 2
    }
}

/// The frame that the transform is given for the window that starts `hop` times `f` samples after
/// the first: every sample times the window there. The first window begins half of what two
/// windows share before the recording. Outside of the recording it is mirrored; one that is too
/// short for that is surrounded by silence.
pub open spec fn windowed<T: Copy>(n: Num<T>, fe: MelFrontend<T>, audio: Seq<T>, f: int) -> Seq<T> {
    let (win, hop) = (fe.win as int, fe.hop as int);
    Seq::new(
        fe.win as nat,
        |i: int|
            {
                let at = f * hop + i - (win - hop) / 2;
                let inside = 0 <= at < audio.len();
                let x = if !inside && heard_behind(win, hop, audio.len() as int) >= audio.len() {
                    n.zero()
                } else {
                    mirrored(audio, at)
                };
                n.times(x, fe.window@[i])
            },
    )
}

/// Window `f` ends within what is heard of `len` samples.
pub open spec fn window_fits(win: int, hop: int, len: int, f: int) -> bool {
    f * hop + win <= (win - hop) / 2 + len + heard_behind(win, hop, len)
}

/// The magnitude of a spectral bin: the root of its squares and a billionth.
pub open spec fn strength<T>(m: Reals<T>, c: (T, T)) -> real {
    (m.root)(m.of(c.0) * m.of(c.0) + m.of(c.1) * m.of(c.1) + 1real / 1000000000real)
}

/// What a filter lets through of a spectrum: its weights times the magnitudes.
pub open spec fn passed<T>(m: Reals<T>, filter: Seq<T>, spectrum: Seq<(T, T)>) -> real {
    total(|k: int| m.of(filter[k]) * strength(m, spectrum[k]), spectrum.len())
}

/// `row` is the logarithm of what every filter lets through of `spectrum`, or of the least value
/// where that is more.
pub open spec fn is_log_mel<T: Copy>(
    m: Reals<T>,
    fe: MelFrontend<T>,
    spectrum: Seq<(T, T)>,
    row: Seq<T>,
) -> bool {
    &&& row.len() == fe.mel_basis@.len()
    &&& forall|b: int|
        0 <= b < row.len() ==> {
            let through = passed(m, fe.mel_basis@[b]@, spectrum);
            m.of(#[trigger] row[b]) == (m.log)(
                if through >= m.of(fe.clip_val) {
                    through
                } else {
                    m.of(fe.clip_val)
                },
            )
        }
}

/// `row` is made of the answer of the transform to window `f` of the recording.
pub open spec fn row_of_window<T: Copy, E, F: Fn(&Vec<T>) -> Result<Vec<(T, T)>, E>>(
    n: Num<T>,
    m: Reals<T>,
    fft: F,
    fe: MelFrontend<T>,
    audio: Seq<T>,
    f: int,
    row: Seq<T>,
) -> bool {
    exists|spectrum: Seq<(T, T)>| #[trigger]
        fft_gives::<T, E, F>(fft, windowed(n, fe, audio, f), spectrum) && is_log_mel(
            m,
            fe,
            spectrum,
            row,
        )
}

proof fn lemma_weighted_value<T>(
    n: Num<T>,
    m: Reals<T>,
    weights: Seq<T>,
    spectrum: Seq<(T, T)>,
    k: nat,
)
    requires
        m.computes(n),
        m.roots(n),
    ensures
        m.of(weighted(n, weights, spectrum, k)) == total(
            |k: int| m.of(weights[k]) * strength(m, spectrum[k]),
            k,
        ),
    decreases k,
{
    lemma_integer(n, m, 0);
    if k > 0 {
        lemma_weighted_value(n, m, weights, spectrum, (k - 1) as nat);
        let c = spectrum[k - 1];
        let (x, y) = (m.of(c.0), m.of(c.1));
        assert(x * x >= 0real && y * y >= 0real) by (nonlinear_arith);
        assert(m.of(n.ratio(1, 1_000_000_000)) == (1i64 as real) / (1_000_000_000i64 as real));
        assert(1real / 1000000000real > 0real) by (nonlinear_arith);
    }
}

/// The frames are the windowed samples, mirrored at both ends.
proof fn lemma_frame_is_windowed<T: Copy>(n: Num<T>, fe: MelFrontend<T>, audio: Seq<T>, f: int)
    requires
        fe.wf(),
        0 <= f < fe.frames(n, audio),
    ensures
        fe.frame_at(n, audio, f) == windowed(n, fe, audio, f),
        window_fits(fe.win as int, fe.hop as int, audio.len() as int, f),
{
    let (win, hop, len) = (fe.win as int, fe.hop as int, audio.len() as int);
    let left = pad_left(win, hop);
    let right = pad_right(win, hop, len);
    assert(right == heard_behind(win, hop, len));
    let whole = fe.padded_audio(n, audio).len() as int;
    assert(whole == left + len + right);
    assert(f * hop <= whole - win) by (nonlinear_arith)
        requires
            0 <= f <= (whole - win) / hop,
            hop > 0,
    ;
    assert(0 <= f * hop) by (nonlinear_arith)
        requires
            f >= 0,
            hop > 0,
    ;
    assert forall|i: int| 0 <= i < win implies #[trigger] fe.frame_at(n, audio, f)[i] == windowed(
        n,
        fe,
        audio,
        f,
    )[i] by {
        assert(0 <= f * hop + i < whole);
    }
    assert(fe.frame_at(n, audio, f) =~= windowed(n, fe, audio, f));
}

/// A log-mel picture has a row for every hop that the recording begins. Each row is made of the
/// transform of its window of the recording, weighted sample by sample; behind the last window that
/// is heard, the last row is repeated.
pub proof fn law_rows_are_made_of_windowed_samples<
    T: Copy,
    E,
    F: Fn(&Vec<T>) -> Result<Vec<(T, T)>, E>,
>(
    n: Num<T>,
    m: Reals<T>,
    fft: F,
    fe: MelFrontend<T>,
    audio: Seq<T>,
    rows: Seq<Seq<T>>,
    t: int,
)
    requires
        m.computes(n),
        m.orders(n),
        m.roots(n),
        m.logarithms(n),
        fe.wf(),
        m.of(fe.clip_val) > 0real,
        fe.pictures::<E, F>(n, fft, audio, rows),
    ensures
        (rows.len() - 1) * fe.hop <= audio.len() < rows.len() * fe.hop,
        0 <= t < rows.len() && window_fits(
            fe.win as int,
            fe.hop as int,
            audio.len() as int,
            t,
        ) ==> row_of_window::<T, E, F>(n, m, fft, fe, audio, t, rows[t]),
        0 < t < rows.len() && !window_fits(
            fe.win as int,
            fe.hop as int,
            audio.len() as int,
            t,
        ) ==> rows[t] == rows[t - 1],
{
    let (win, hop, len) = (fe.win as int, fe.hop as int, audio.len() as int);
    let target = (audio.len() / fe.hop as nat + 1) as nat;
    let spectra = choose|spectra: Seq<Seq<(T, T)>>|
        {
            &&& spectra.len() == fe.frames(n, audio)
            &&& #[trigger] fe.transforms::<E, F>(n, fft, audio, spectra)
            &&& rows == fitted(fe.mel_rows(n, spectra), target)
        };
    assert((target - 1) * hop <= len < target * hop) by (nonlinear_arith)
        requires
            target == len / hop + 1,
            hop > 0,
            len >= 0,
    ;
    let made = fe.mel_rows(n, spectra);
    let whole = fe.padded_audio(n, audio).len() as int;
    assert(pad_right(win, hop, len) == heard_behind(win, hop, len));
    assert(whole >= win);
    let count = (whole - win) / hop + 1;
    assert(count >= 1) by (nonlinear_arith)
        requires
            count == (whole - win) / hop + 1,
            whole >= win,
            hop > 0,
    ;
    if 0 <= t < rows.len() {
        if window_fits(win, hop, len, t) {
            assert(t < count) by (nonlinear_arith)
                requires
                    t * hop + win <= whole,
                    count == (whole - win) / hop + 1,
                    hop > 0,
            ;
            lemma_frame_is_windowed(n, fe, audio, t);
            let spectrum = spectra[t];
            assert(fft_gives::<T, E, F>(fft, fe.frame_at(n, audio, t), spectra[t]));
            let row = rows[t];
            assert(row == made[t]);
            let basis = rows_of(fe.mel_basis@);
            assert forall|b: int| 0 <= b < row.len() implies {
                let through = passed(m, fe.mel_basis@[b]@, spectrum);
                m.of(#[trigger] row[b]) == (m.log)(
                    if through >= m.of(fe.clip_val) {
                        through
                    } else {
                        m.of(fe.clip_val)
                    },
                )
            } by {
                assert(basis[b] == fe.mel_basis@[b]@);
                lemma_weighted_value(n, m, basis[b], spectrum, spectrum.len());
                let x = weighted(n, basis[b], spectrum, spectrum.len());
                assert(m.of(x) == passed(m, fe.mel_basis@[b]@, spectrum));
                assert(row[b] == n.ln(n.larger(x, fe.clip_val)));
            }
            assert(is_log_mel(m, fe, spectrum, row));
        } else if 0 < t {
            if t < count {
                lemma_frame_is_windowed(n, fe, audio, t);
            }
            assert(rows[t] == made.last());
            if t - 1 < count {
                assert(t - 1 == count - 1);
                assert(rows[t - 1] == made[t - 1]);
            }
        }
    }
}

/// On a recording of ones, every frame that the transform is given is the window itself.
pub proof fn law_frames_of_ones_are_the_window<
    T: Copy,
    E,
    F: Fn(&Vec<T>) -> Result<Vec<(T, T)>, E>,
>(
    n: Num<T>,
    fft: F,
    fe: MelFrontend<T>,
    audio: Seq<T>,
    one: T,
    spectra: Seq<Seq<(T, T)>>,
    f: int,
)
    requires
        fe.wf(),
        fe.win <= audio.len(),
        forall|i: int| 0 <= i < audio.len() ==> #[trigger] audio[i] == one,
        forall|i: int| 0 <= i < fe.win ==> n.times(one, #[trigger] fe.window@[i]) == fe.window@[i],
        spectra.len() <= fe.frames(n, audio),
        fe.transforms::<E, F>(n, fft, audio, spectra),
        0 <= f < spectra.len(),
    ensures
        fft_gives::<T, E, F>(fft, fe.window@.take(fe.win as int), spectra[f]),
{
    lemma_frame_is_windowed(n, fe, audio, f);
    let (win, hop, len) = (fe.win as int, fe.hop as int, audio.len() as int);
    assert(heard_behind(win, hop, len) < len);
    let frame = fe.frame_at(n, audio, f);
    assert(0 <= f * hop) by (nonlinear_arith)
        requires
            f >= 0,
            hop > 0,
    ;
    assert forall|i: int| 0 <= i < win implies #[trigger] frame[i] == fe.window@[i] by {
        let at = f * hop + i - (win - hop) / 2;
        assert(frame[i] == windowed(n, fe, audio, f)[i]);
        assert(mirrored(audio, at) == one);
    }
    assert(frame =~= fe.window@.take(win));
    assert(fft_gives::<T, E, F>(fft, fe.frame_at(n, audio, f), spectra[f]));
}

/// Where the window is zero, the row does not depend on the sample: two recordings that differ only
/// where the window of an inner frame is zero have the same row there, where zero times anything is
/// zero.
pub proof fn law_samples_under_a_zero_of_the_window_do_not_count<
    T: Copy,
    E,
    F: Fn(&Vec<T>) -> Result<Vec<(T, T)>, E>,
>(
    n: Num<T>,
    fft: F,
    fe: MelFrontend<T>,
    audio: Seq<T>,
    other: Seq<T>,
    rows: Seq<Seq<T>>,
    other_rows: Seq<Seq<T>>,
    f: int,
)
    requires
        fe.wf(),
        one_spectrum::<T, E, F>(fft),
        fe.pictures::<E, F>(n, fft, audio, rows),
        fe.pictures::<E, F>(n, fft, other, other_rows),
        audio.len() == other.len(),
        0 <= f,
        0 <= f * fe.hop - (fe.win - fe.hop) / 2,
        f * fe.hop - (fe.win - fe.hop) / 2 + fe.win <= audio.len(),
        forall|x: T| #[trigger] n.times(x, n.zero()) == n.zero(),
        forall|i: int|
            0 <= i < fe.win && fe.window@[i] != n.zero() ==> audio[f * fe.hop - (fe.win - fe.hop)
                / 2 + i] == #[trigger] other[f * fe.hop - (fe.win - fe.hop) / 2 + i],
    ensures
        f < rows.len(),
        f < other_rows.len(),
        rows[f] == other_rows[f],
{
    let a = choose|a: Seq<Seq<(T, T)>>|
        {
            &&& a.len() == fe.frames(n, audio)
            &&& #[trigger] fe.transforms::<E, F>(n, fft, audio, a)
            &&& rows == fitted(fe.mel_rows(n, a), (audio.len() / fe.hop as nat + 1) as nat)
        };
    let b = choose|b: Seq<Seq<(T, T)>>|
        {
            &&& b.len() == fe.frames(n, other)
            &&& #[trigger] fe.transforms::<E, F>(n, fft, other, b)
            &&& other_rows == fitted(fe.mel_rows(n, b), (other.len() / fe.hop as nat + 1) as nat)
        };
    lemma_inner_frame_exists(fe, n, audio, f);
    lemma_inner_frame_exists(fe, n, other, f);
    lemma_frame_is_windowed(n, fe, audio, f);
    lemma_frame_is_windowed(n, fe, other, f);
    let (win, hop) = (fe.win as int, fe.hop as int);
    assert forall|i: int| 0 <= i < win implies #[trigger] windowed(n, fe, audio, f)[i] == windowed(
        n,
        fe,
        other,
        f,
    )[i] by {
        let at = f * hop + i - (win - hop) / 2;
        assert(mirrored(audio, at) == audio[at]);
        assert(mirrored(other, at) == other[at]);
        if fe.window@[i] != n.zero() {
            assert(audio[f * hop - (win - hop) / 2 + i] == other[f * hop - (win - hop) / 2 + i]);
        }
    }
    assert(windowed(n, fe, audio, f) =~= windowed(n, fe, other, f));
    assert(fft_gives::<T, E, F>(fft, fe.frame_at(n, audio, f), a[f]));
    assert(fft_gives::<T, E, F>(fft, fe.frame_at(n, other, f), b[f]));
    assert(rows[f] == fe.mel_rows(n, a)[f]);
    assert(other_rows[f] == fe.mel_rows(n, b)[f]);
}

/// Tables that fit together can be used: windows that move on by at most their length, as long as
/// the transform, with a weight for every sample, and filters with a weight for every bin of half
/// the transform.
pub proof fn law_tables_that_fit_can_be_used<T: Copy>(fe: MelFrontend<T>)
    requires
        1 <= fe.hop,
        fe.hop <= fe.win,
        fe.n_fft == fe.win,
        fe.window@.len() >= fe.win,
        forall|b: int|
            0 <= b < fe.mel_basis@.len() ==> 2 * (#[trigger] fe.mel_basis@[b])@.len() > fe.n_fft,
    ensures
        fe.wf(),
{
}

} // verus!
