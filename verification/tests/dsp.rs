use rubato::{
    Resampler as _, SincFixedIn, SincInterpolationParameters, SincInterpolationType, WindowFunction,
};
use std::cell::RefCell;
use vc_native::arith::{rms, Arith, Op, Rel};
use vc_native::dsp::f0decode::F0Decoder;
use vc_native::dsp::mel::MelFrontend;
use vc_native::dsp::resample::{Resampler, SincPlan};
use vc_native::dsp::sola::Sola;
use vc_native::pitch::{shift_semitones, to_coarse};

fn op(o: Op<f32>) -> f32 {
    match o {
        Op::Ratio(n, d) => (n as f64 / d as f64) as f32,
        Op::Count(k) => k as f32,
        Op::Pi => std::f32::consts::PI,
        Op::Lowest => f32::MIN,
        Op::Nan => f32::NAN,
        Op::Add(a, b) => a + b,
        Op::Sub(a, b) => a - b,
        Op::Mul(a, b) => a * b,
        Op::Div(a, b) => a / b,
        Op::Max(a, b) => a.max(b),
        Op::Abs(a) => a.abs(),
        Op::Sqrt(a) => a.sqrt(),
        Op::Exp2(a) => a.exp2(),
        Op::Log2(a) => a.log2(),
        Op::Log10(a) => a.log10(),
        Op::Ln(a) => a.ln(),
        Op::Sin(a) => a.sin(),
        Op::Cos(a) => a.cos(),
        Op::Round(a) => a.round(),
    }
}

fn rel(a: f32, b: f32) -> Rel {
    if a < b {
        Rel::Less
    } else if a > b {
        Rel::Greater
    } else if a == b {
        Rel::Equal
    } else {
        Rel::Unordered
    }
}

fn whole(a: f32) -> i128 {
    a as i128
}

fn sine(hz: f32, sr: f32, n: usize) -> Vec<f32> {
    (0..n).map(|i| (2.0 * std::f32::consts::PI * hz * i as f32 / sr).sin()).collect()
}

fn level(x: &[f32]) -> f32 {
    (x.iter().map(|v| v * v).sum::<f32>() / x.len() as f32).sqrt()
}

fn goertzel(x: &[f32], hz: f32, sr: f32) -> f32 {
    let w = 2.0 * std::f32::consts::PI * hz / sr;
    let coeff = 2.0 * w.cos();
    let (mut s1, mut s2) = (0.0f32, 0.0f32);
    for &v in x {
        let s0 = v + coeff * s1 - s2;
        s2 = s1;
        s1 = s0;
    }
    (s1 * s1 + s2 * s2 - coeff * s1 * s2) / (x.len() as f32).powi(2)
}

fn converter(plan: &SincPlan) -> SincFixedIn<f32> {
    let params = SincInterpolationParameters {
        sinc_len: plan.sinc_len,
        f_cutoff: plan.cutoff_percent as f32 / 100.0,
        interpolation: SincInterpolationType::Linear,
        oversampling_factor: plan.oversampling,
        window: WindowFunction::BlackmanHarris2,
    };
    SincFixedIn::<f32>::new(
        plan.to_hz as f64 / plan.from_hz as f64,
        plan.max_ratio_change as f64,
        params,
        plan.chunk,
        plan.channels,
    )
    .unwrap()
}

fn sinc_step(
    mut inner: SincFixedIn<f32>,
    c: &Vec<f32>,
) -> (SincFixedIn<f32>, Result<Vec<f32>, String>) {
    let res = inner.process(&[c.clone()], None).map(|mut r| r.remove(0)).map_err(|e| e.to_string());
    (inner, res)
}

fn convert(r: &mut Resampler<f32>, x: &[f32]) -> Vec<f32> {
    let (inner, head) = r.process(converter(&r.plan), x, &sinc_step);
    let mut y = head.unwrap();
    y.extend(r.flush(inner, 0.0, &sinc_step).1.unwrap());
    y
}

#[test]
fn downsample_preserves_tone() {
    let mut r = Resampler::new(48000, 16000);
    let x = sine(1000.0, 48000.0, 48000);
    let y = convert(&mut r, &x);
    let core = &y[2000..y.len() - 2000];
    let rin = level(&x);
    let rout = level(core);
    assert!((rout / rin - 1.0).abs() < 0.01, "rms ratio {}", rout / rin);
    let p1k = goertzel(core, 1000.0, 16000.0);
    let p3k = goertzel(core, 3000.0, 16000.0);
    assert!(p1k > 100.0 * p3k, "tone not dominant: {p1k} vs {p3k}");
}

#[test]
fn round_trip_16k_40k() {
    let mut up = Resampler::new(16000, 40000);
    let mut down = Resampler::new(40000, 16000);
    let x = sine(440.0, 16000.0, 32000);
    let mid = convert(&mut up, &x);
    let y = convert(&mut down, &mid);
    let n = 8000;
    let (mut best_lag, mut best) = (0usize, f32::MIN);
    for lag in 0..2000 {
        let c: f32 = (0..n).map(|i| x[i] * y[i + lag]).sum();
        if c > best {
            best = c;
            best_lag = lag;
        }
    }
    let err: f32 = (0..n).map(|i| (x[i] - y[i + best_lag]).powi(2)).sum::<f32>() / n as f32;
    assert!(err.sqrt() < 1e-2, "round trip rmse {}", err.sqrt());
}

#[test]
fn sine_chunks_stitch_without_clicks() {
    let ar = Arith::new(op, rel, whole);
    let sr = 40000.0f32;
    let hz = 220.0f32;
    let block = 4000usize;
    let cf = 1600usize;
    let search = 400usize;
    let mut sola = Sola::new(&ar, cf, search);
    let mut out = Vec::new();
    for c in 0..6 {
        let jitter = if c % 2 == 0 { 0 } else { 37 };
        let start = c * block;
        let tail: Vec<f32> = (0..block + cf + search)
            .map(|i| (2.0 * std::f32::consts::PI * hz * (start + i + jitter) as f32 / sr).sin())
            .collect();
        if let Some(mut b) = sola.process(&ar, &tail) {
            out.append(&mut b);
        }
    }
    let max_jump = out.windows(2).map(|w| (w[1] - w[0]).abs()).fold(0.0f32, f32::max);
    let clean_jump = 2.0 * std::f32::consts::PI * hz / sr;
    assert!(
        max_jump < 3.0 * clean_jump,
        "click detected: max jump {max_jump} vs clean {clean_jump}"
    );
}

#[test]
fn stitched_blocks_have_the_block_length() {
    let ar = Arith::new(op, rel, whole);
    let mut sola = Sola::new(&ar, 8, 4);
    let tail: Vec<f32> = (0..32).map(|i| i as f32).collect();
    assert!(sola.process(&ar, &tail).is_none());
    assert_eq!(sola.process(&ar, &tail).unwrap().len(), 20);
}

#[test]
fn silence_is_stitched_at_the_centre() {
    let ar = Arith::new(op, rel, whole);
    let mut sola = Sola::new(&ar, 2, 4);
    let mut tail = vec![0.0f32; 12];
    assert!(sola.process(&ar, &tail).is_none());
    for (i, v) in tail.iter_mut().enumerate() {
        *v = 1e-4 * i as f32;
    }
    let out = sola.process(&ar, &tail).unwrap();
    assert_eq!(out.len(), 6);
    assert_eq!(out[2..], tail[4..8]);
}

#[test]
fn the_first_best_offset_wins() {
    let ar = Arith::new(op, rel, whole);
    let mut sola = Sola::new(&ar, 1, 3);
    sola.process(&ar, &[0.0f32, 0.0, 0.0, 0.0, 1.0]);
    let out = sola.process(&ar, &[-1.0f32, 1.0, 1.0, 1.0, 5.0, 6.0]).unwrap();
    assert_eq!(out.len(), 2);
    assert_eq!(out[1], 1.0);
    let quarter = (0.5f32 * std::f32::consts::FRAC_PI_2).cos().powi(2);
    let rise = (0.5f32 * std::f32::consts::FRAC_PI_2).sin().powi(2);
    assert_eq!(out[0], 1.0 * rise + 1.0 * quarter);
}

/// Adds up what it was given, and gives the running sums.
fn running(sum: f32, c: &Vec<f32>) -> (f32, Result<Vec<f32>, String>) {
    let mut at = sum;
    let out = c
        .iter()
        .map(|v| {
            at += v;
            at
        })
        .collect();
    (at, Ok(out))
}

#[test]
fn chunking_does_not_matter() {
    let x: Vec<f32> = (0..5000).map(|i| (i % 7) as f32).collect();
    let mut one = Resampler::new(1, 1);
    let (sum, at_once) = one.process(0.0, &x, &running);
    let at_once = at_once.unwrap();
    let mut two = Resampler::new(1, 1);
    let (s1, p1) = two.process(0.0, &x[..700], &running);
    let mut parts = p1.unwrap();
    assert!(parts.is_empty());
    assert_eq!(s1, 0.0);
    let (s2, p2) = two.process(s1, &x[700..3000], &running);
    parts.extend(p2.unwrap());
    let (s3, p3) = two.process(s2, &x[3000..], &running);
    parts.extend(p3.unwrap());
    assert_eq!(at_once, parts);
    assert_eq!(at_once.len(), 4096);
    assert_eq!(at_once[8], 22.0);
    assert_eq!((sum, s3), (at_once[4095], at_once[4095]));
    assert_eq!(one.pending, two.pending);
    assert_eq!(one.pending.len(), 904);
    let (end, tail) = one.flush(sum, 0.0, &running);
    let tail = tail.unwrap();
    assert_eq!(tail.len(), 1024);
    assert_eq!(tail[903], x.iter().sum::<f32>());
    assert_eq!(tail[904], tail[903]);
    assert_eq!(end, tail[1023]);
    let (same, none) = one.flush(end, 0.0, &running);
    assert_eq!(same, end);
    assert!(none.unwrap().is_empty());
}

#[test]
fn chunking_does_not_matter_to_the_converter() {
    let x = sine(440.0, 48000.0, 6000);
    let mut one = Resampler::new(48000, 16000);
    let (_, at_once) = one.process(converter(&one.plan), &x, &sinc_step);
    let mut two = Resampler::new(48000, 16000);
    let (inner, head) = two.process(converter(&two.plan), &x[..2500], &sinc_step);
    let (_, rest) = two.process(inner, &x[2500..], &sinc_step);
    let mut parts = head.unwrap();
    parts.extend(rest.unwrap());
    assert_eq!(at_once.unwrap(), parts);
}

#[test]
fn flushing_is_processing_zeros() {
    let x: Vec<f32> = (0..10).map(|i| i as f32).collect();
    let mut one = Resampler::new(1, 1);
    let (s1, _) = one.process(3.0, &x, &running);
    let (a, flushed) = one.flush(s1, 0.0, &running);
    let mut two = Resampler::new(1, 1);
    let (s2, _) = two.process(3.0, &x, &running);
    let (b, processed) = two.process(s2, &[0.0; 1014], &running);
    assert_eq!((a, flushed.unwrap()), (b, processed.unwrap()));
}

#[test]
fn a_failing_converter_is_reported() {
    let step = |n: u32, _: &Vec<f32>| -> (u32, Result<Vec<f32>, String>) {
        (n + 1, Err("broken".to_string()))
    };
    let mut r = Resampler::<f32>::new(48000, 16000);
    let (n, out) = r.process(0, &[0.5; 10], &step);
    assert!(n == 0 && out.unwrap().is_empty());
    assert_eq!(r.process(n, &[0.5; 2000], &step), (1, Err("broken".to_string())));
    assert_eq!(r.flush(1, 0.0, &step), (2, Err("broken".to_string())));
}

fn dft4(x: &Vec<f32>) -> Result<Vec<(f32, f32)>, String> {
    Ok(vec![
        (x[0] + x[1] + x[2] + x[3], 0.0),
        (x[0] - x[2], x[3] - x[1]),
        (x[0] - x[1] + x[2] - x[3], 0.0),
    ])
}

fn small_frontend() -> MelFrontend<f32> {
    MelFrontend {
        mel_basis: vec![vec![1.0, 0.0, 0.0], vec![0.0, 0.5, 2.0]],
        window: vec![1.0, 1.0, 1.0, 1.0],
        n_fft: 4,
        win: 4,
        hop: 2,
        clip_val: 1e-5,
    }
}

#[test]
fn mel_of_a_constant() {
    let ar = Arith::new(op, rel, whole);
    let fe = small_frontend();
    let mel = fe.process(&ar, &[1.0f32; 8], &dft4).unwrap();
    assert_eq!(mel.len(), 8 / 2 + 1);
    let dc = (16.0f32 + 1e-9).sqrt().ln();
    let other = (0.5 * (1e-9f32).sqrt() + 2.0 * (1e-9f32).sqrt()).max(1e-5).ln();
    for row in &mel {
        assert_eq!(row.len(), 2);
        assert_eq!(row[0], dc);
        assert_eq!(row[1], other);
    }
    assert_eq!(fe.hop(), 2);
    assert!(fe.is_usable());
    assert!(!MelFrontend { hop: 5, ..small_frontend() }.is_usable());
    assert!(!MelFrontend { mel_basis: vec![vec![1.0, 2.0]], ..small_frontend() }.is_usable());
}

#[test]
fn mel_reflects_at_the_edges() {
    let ar = Arith::new(op, rel, whole);
    let fe = small_frontend();
    let seen = RefCell::new(Vec::new());
    let fft = |x: &Vec<f32>| -> Result<Vec<(f32, f32)>, String> {
        seen.borrow_mut().push(x.clone());
        dft4(x)
    };
    fe.process(&ar, &[1.0f32, 2.0, 3.0, 4.0], &fft).unwrap();
    assert_eq!(seen.borrow()[0], vec![2.0, 1.0, 2.0, 3.0]);
    assert_eq!(seen.borrow()[1], vec![2.0, 3.0, 4.0, 3.0]);
}

#[test]
fn very_short_audio_is_padded_with_silence() {
    let ar = Arith::new(op, rel, whole);
    let fe = small_frontend();
    let seen = RefCell::new(Vec::new());
    let fft = |x: &Vec<f32>| -> Result<Vec<(f32, f32)>, String> {
        seen.borrow_mut().push(x.clone());
        dft4(x)
    };
    let mel = fe.process(&ar, &[5.0f32], &fft).unwrap();
    assert_eq!(mel.len(), 1);
    assert_eq!(seen.borrow()[0], vec![0.0, 5.0, 0.0, 0.0]);
}

#[test]
fn a_failing_transform_is_reported() {
    let ar = Arith::new(op, rel, whole);
    let fe = small_frontend();
    let fft = |_: &Vec<f32>| -> Result<Vec<(f32, f32)>, String> { Err("fft".to_string()) };
    assert_eq!(fe.process(&ar, &[1.0f32; 8], &fft), Err("fft".to_string()));
}

#[test]
fn frontend_tables_are_read() {
    let ar = Arith::new(op, rel, whole);
    let fe = MelFrontend::from_tables(
        &ar,
        &vec![1.0f32, 2.0, 3.0, 4.0, 5.0, 6.0],
        &vec![2, 3],
        vec![0.5; 4],
        &vec![4.0, 4.0, 2.0, 0.25],
    )
    .unwrap();
    assert_eq!(fe.mel_basis, vec![vec![1.0, 2.0, 3.0], vec![4.0, 5.0, 6.0]]);
    assert_eq!((fe.n_fft, fe.win, fe.hop, fe.clip_val), (4, 4, 2, 0.25));
    assert!(MelFrontend::from_tables(
        &ar,
        &vec![1.0f32],
        &vec![1],
        vec![],
        &vec![4.0, 4.0, 2.0, 0.25]
    )
    .is_none());
}

#[test]
fn one_peak_decodes_to_its_bin() {
    let ar = Arith::new(op, rel, whole);
    let table: Vec<f32> = (0..12).map(|i| 1200.0 * i as f32).collect();
    let dec = F0Decoder { cent_table: table };
    let mut row = vec![0.0f32; 12];
    row[5] = 1.0;
    let mut weak = vec![0.0f32; 12];
    weak[5] = 0.006;
    let mut two = vec![0.0f32; 12];
    two[4] = 0.5;
    two[6] = 0.5;
    let mut edge = vec![0.0f32; 12];
    edge[0] = 1.0;
    edge[1] = 1.0;
    let hz = dec.decode(&ar, &vec![row, weak, two, edge], 0.006);
    assert_eq!(hz[0], 320.0);
    assert_eq!(hz[1], 0.0);
    assert_eq!(hz[2], 320.0);
    assert_eq!(hz[3], 10.0 * (1200.0f32 / 6.0 / 1200.0).exp2());
}

#[test]
fn pitch_shift_leaves_unvoiced_frames() {
    let ar = Arith::new(op, rel, whole);
    let mut f0 = vec![0.0f32, 100.0, 220.0];
    shift_semitones(&ar, &mut f0, 12);
    assert_eq!(f0, vec![0.0, 200.0, 440.0]);
    shift_semitones(&ar, &mut f0, 0);
    assert_eq!(f0, vec![0.0, 200.0, 440.0]);
    shift_semitones(&ar, &mut f0, -24);
    assert_eq!(f0, vec![0.0, 50.0, 110.0]);
}

#[test]
fn coarse_pitch_is_bounded() {
    let ar = Arith::new(op, rel, whole);
    let c = to_coarse(&ar, &vec![0.0f32, 20.0, 50.0, 1100.0, 4000.0, 440.0, f32::NAN]);
    assert_eq!(c[0], 1);
    assert_eq!(c[1], 1);
    assert_eq!(c[2], 1);
    assert_eq!(c[3], 255);
    assert_eq!(c[4], 255);
    let mel = |hz: f32| 1127.0f32 * (1.0f32 + hz / 700.0).ln();
    let expected = ((mel(440.0) - mel(50.0)) * 254.0 / (mel(1100.0) - mel(50.0)) + 1.0).round();
    assert_eq!(c[5], expected as i64);
    assert_eq!(c[6], 1);
}

#[test]
fn coarse_pitch_goes_frame_by_frame_and_upwards() {
    let ar = Arith::new(op, rel, whole);
    let hz: Vec<f32> = (0..400).map(|i| 3.0 * i as f32).collect();
    let all = to_coarse(&ar, &hz);
    let mut parts = to_coarse(&ar, &hz[..150].to_vec());
    parts.extend(to_coarse(&ar, &hz[150..].to_vec()));
    assert_eq!(all, parts);
    assert!(all.windows(2).all(|w| w[0] <= w[1]));
    assert_eq!((all[0], all[399]), (1, 255));
}

#[test]
fn shifts_add_up() {
    let ar = Arith::new(op, rel, whole);
    let mut twice = vec![0.0f32, 100.0, 220.0];
    shift_semitones(&ar, &mut twice, 24);
    shift_semitones(&ar, &mut twice, -12);
    let mut once = vec![0.0f32, 100.0, 220.0];
    shift_semitones(&ar, &mut once, 12);
    assert_eq!(twice, once);
    shift_semitones(&ar, &mut once, -12);
    assert_eq!(once, vec![0.0, 100.0, 220.0]);
}

#[test]
fn a_frequency_sees_its_taps_alone() {
    let ar = Arith::new(op, rel, whole);
    let dec = F0Decoder { cent_table: (0..20).map(|i| 100.0 * i as f32).collect() };
    let mut row = vec![0.1f32; 20];
    row[9] = 0.9;
    row[10] = 0.6;
    let mut other = row.clone();
    other[4] = 0.8;
    other[14] = 0.8;
    other[0] = -3.0;
    let hz = dec.decode(&ar, &vec![row, other], 0.006);
    assert_eq!(hz[0], hz[1]);
    assert!(hz[0] > 10.0 * (500.0f32 / 1200.0).exp2());
    assert!(hz[0] < 10.0 * (1300.0f32 / 1200.0).exp2());
}

#[test]
fn an_inner_row_sees_its_window_alone() {
    let ar = Arith::new(op, rel, whole);
    let fe = small_frontend();
    let audio: Vec<f32> = (0..12).map(|i| (i * i) as f32).collect();
    let mut other = audio.clone();
    other[2] = 50.0;
    other[7] = -50.0;
    let a = fe.process(&ar, &audio, &dft4).unwrap();
    let b = fe.process(&ar, &other, &dft4).unwrap();
    assert_eq!(a[2], b[2]);
    assert_ne!(a[1], b[1]);
    assert_ne!(a[3], b[3]);
}

#[test]
fn a_steady_signal_passes_the_stitcher() {
    let ar = Arith::new(op, rel, whole);
    let mut s = Sola::new(&ar, 8, 4);
    assert!(s.process(&ar, &[0.25f32; 32]).is_none());
    for _ in 0..3 {
        let out = s.process(&ar, &[0.25f32; 32]).unwrap();
        assert_eq!(out.len(), 20);
        assert!(out.iter().all(|v| (v - 0.25).abs() < 1e-6));
    }
}

#[test]
fn level_of_a_square() {
    let ar = Arith::new(op, rel, whole);
    assert_eq!(rms(&ar, &[0.5f32, -0.5, 0.5, -0.5]), 0.5);
}
