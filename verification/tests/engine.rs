use rand::Rng;
use rand::SeedableRng;
use rand_pcg::Pcg64;
use std::cell::{Cell, RefCell};
use vc_native::arith::{Arith, Op, Rel};
use vc_native::dsp::f0decode::F0Decoder;
use vc_native::dsp::mel::MelFrontend;
use vc_native::engine::{
    align_tail, ConvertError, Engine, EngineCfg, Features, Latent, Sessions, SynthInputs,
    Threshold,
};
use vc_native::noise::{draw_pair, normal, seeded_rng, standard_normal};
use vc_native::offline::{clamp_all, convert_recording, needs_resampling, split_blocks};
use vc_native::stream::{gcd, StreamCfg, StreamEngine, StreamError};

fn op(o: Op<f32>) -> f32 {
    match o {
        Op::Ratio(n, d) => (n as f64 / d as f64) as f32,
        Op::Count(k) => k as f32,
        Op::Pi => std::f32::consts::PI,
        Op::Lowest => f32::MIN,
        Op::Nan => f32::NAN,
        Op::Add(a, b) => a + b,
        Op::Sub(a, b) => a - b,
        Op::Mul(a, b) => a * b,
        Op::Div(a, b) => a / b,
        Op::Max(a, b) => a.max(b),
        Op::Abs(a) => a.abs(),
        Op::Sqrt(a) => a.sqrt(),
        Op::Exp2(a) => a.exp2(),
        Op::Log2(a) => a.log2(),
        Op::Log10(a) => a.log10(),
        Op::Ln(a) => a.ln(),
        Op::Sin(a) => a.sin(),
        Op::Cos(a) => a.cos(),
        Op::Round(a) => a.round(),
    }
}

fn rel(a: f32, b: f32) -> Rel {
    if a < b {
        Rel::Less
    } else if a > b {
        Rel::Greater
    } else if a == b {
        Rel::Equal
    } else {
        Rel::Unordered
    }
}

fn whole(a: f32) -> i128 {
    a as i128
}

fn op64(o: Op<f64>) -> f64 {
    match o {
        Op::Ratio(n, d) => n as f64 / d as f64,
        Op::Count(k) => k as f64,
        Op::Pi => std::f64::consts::PI,
        Op::Lowest => f64::MIN,
        Op::Nan => f64::NAN,
        Op::Add(a, b) => a + b,
        Op::Sub(a, b) => a - b,
        Op::Mul(a, b) => a * b,
        Op::Div(a, b) => a / b,
        Op::Max(a, b) => a.max(b),
        Op::Abs(a) => a.abs(),
        Op::Sqrt(a) => a.sqrt(),
        Op::Exp2(a) => a.exp2(),
        Op::Log2(a) => a.log2(),
        Op::Log10(a) => a.log10(),
        Op::Ln(a) => a.ln(),
        Op::Sin(a) => a.sin(),
        Op::Cos(a) => a.cos(),
        Op::Round(a) => a.round(),
    }
}

fn rel64(a: f64, b: f64) -> Rel {
    if a < b {
        Rel::Less
    } else if a > b {
        Rel::Greater
    } else if a == b {
        Rel::Equal
    } else {
        Rel::Unordered
    }
}

fn whole64(a: f64) -> i128 {
    a as i128
}

fn dft4(x: &Vec<f32>) -> Result<Vec<(f32, f32)>, String> {
    Ok(vec![
        (x[0] + x[1] + x[2] + x[3], 0.0),
        (x[0] - x[2], x[3] - x[1]),
        (x[0] - x[1] + x[2] - x[3], 0.0),
    ])
}

fn frontend(rows: usize) -> MelFrontend<f32> {
    MelFrontend {
        mel_basis: vec![vec![1.0, 0.5, 0.25]; rows],
        window: vec![1.0; 4],
        n_fft: 4,
        win: 4,
        hop: 2,
        clip_val: 1e-5,
    }
}

fn decoder() -> F0Decoder<f32> {
    F0Decoder { cent_table: (0..12).map(|i| 1200.0 * i as f32).collect() }
}

fn engine(rows: usize, upp: usize) -> Engine<f32> {
    let cfg = EngineCfg { upp, ..EngineCfg::default() };
    Engine::new(cfg, frontend(rows), decoder())
}

fn features(frames: usize) -> Result<Features<f32>, String> {
    Ok(Features { frames, data: (0..frames * 768).map(|i| i as f32).collect() })
}

fn latent(frames: usize) -> Result<Latent<f32>, String> {
    let mut data = vec![0.0f32; frames * 12];
    for t in 0..frames {
        data[t * 12 + 5] = 1.0;
    }
    Ok(Latent { frames, bins: 12, data })
}

#[test]
fn the_synthesizer_gets_doubled_features_and_an_aligned_pitch() {
    let ar = Arith::new(op, rel, whole);
    let eng = engine(128, 3);
    let seen = Cell::new(false);
    let s = Sessions {
        contentvec: |a: &Vec<f32>| {
            assert_eq!(a.len(), 40);
            features(2)
        },
        fft: dft4,
        fcpe: |mel: &Vec<Vec<f32>>| {
            assert_eq!(mel.len(), 21);
            assert_eq!(mel[0].len(), 128);
            latent(3)
        },
        synth: |i: &SynthInputs<f32>| -> Result<Vec<f32>, String> {
            seen.set(true);
            assert_eq!(i.p_len, 4);
            assert_eq!(i.sid, 0);
            assert_eq!(i.feats.len(), 4);
            assert_eq!(i.feats[0], i.feats[1]);
            assert_eq!(i.feats[2], i.feats[3]);
            assert_eq!(i.feats[2][0], 768.0);
            assert_eq!(i.pitchf, vec![0.0, 640.0, 640.0, 640.0]);
            assert_eq!(i.pitch[0], 1);
            assert_eq!(i.pitch.len(), 4);
            assert!(i.pitch[1] > 100);
            assert_eq!(i.rnd.len(), 192 * 4);
            assert_eq!(i.nsf_noise.len(), 12);
            Ok(vec![0.25; 7])
        },
        wide: Arith::new(op64, rel64, whole64),
        narrow: |x: f64| x as f32,
    };
    let mut rng = seeded_rng(7);
    let out = eng.convert(&ar, &s, &[0.5; 40], 12, &mut rng).unwrap();
    assert_eq!(out, vec![0.25; 7]);
    assert!(seen.get());
    assert_eq!(eng.out_sr(), 40000);
}

#[test]
fn noise_comes_from_the_seed_alone() {
    let ar = Arith::new(op, rel, whole);
    let eng = engine(128, 5);
    let heard: RefCell<Vec<f32>> = RefCell::new(Vec::new());
    let s = Sessions {
        contentvec: |_: &Vec<f32>| features(1),
        fft: dft4,
        fcpe: |_: &Vec<Vec<f32>>| latent(1),
        synth: |i: &SynthInputs<f32>| -> Result<Vec<f32>, String> {
            heard.borrow_mut().extend(i.rnd.iter().chain(i.nsf_noise.iter()));
            Ok(vec![])
        },
        wide: Arith::new(op64, rel64, whole64),
        narrow: |x: f64| x as f32,
    };
    let mut rng = seeded_rng(1337);
    eng.convert(&ar, &s, &[0.0; 16], 0, &mut rng).unwrap();
    let mut expected = Vec::new();
    let mut direct = Pcg64::seed_from_u64(1337);
    while expected.len() < 192 * 2 + 10 {
        let u1: f64 = direct.random::<f64>();
        let u2: f64 = direct.random::<f64>();
        if u1 > 1e-12 {
            expected.push(
                ((-2.0 * u1.ln()).sqrt() * (2.0 * std::f64::consts::PI * u2).cos()) as f32,
            );
        }
    }
    assert_eq!(*heard.borrow(), expected);
}

#[test]
fn a_normal_number_from_the_generator() {
    let ar = Arith::new(op64, rel64, whole64);
    let mut rng = seeded_rng(42);
    let x = standard_normal(&ar, &mut rng).unwrap();
    let mut direct = Pcg64::seed_from_u64(42);
    let (u1, u2) = (direct.random::<f64>(), direct.random::<f64>());
    assert_eq!(x, (-2.0 * u1.ln()).sqrt() * (2.0 * std::f64::consts::PI * u2).cos());
    let mut other = seeded_rng(42);
    let (a, b) = draw_pair(&mut other).unwrap();
    assert_eq!(a as f64 / 9007199254740992.0, u1);
    assert_eq!(b as f64 / 9007199254740992.0, u2);
    assert_ne!(draw_pair(&mut other), Some((a, b)));
}

#[test]
fn a_threshold_decides_what_is_voiced() {
    let ar = Arith::new(op, rel, whole);
    let row = vec![vec![0.0f32, 0.0, 0.0, 0.0, 0.0, 0.2, 0.0, 0.0, 0.0, 0.0, 0.0, 0.0]];
    let eng = engine(128, 1);
    assert_eq!(eng.track_pitch(&ar, &row, 0, 1), vec![320.0]);
    let cfg = EngineCfg { f0_threshold: Threshold::Is(0.2), ..EngineCfg::default() };
    let strict = Engine::new(cfg, frontend(128), decoder());
    assert_eq!(strict.track_pitch(&ar, &row, 0, 1), vec![0.0]);
}

#[test]
fn normal_numbers_are_bounded() {
    let ar = Arith::new(op64, rel64, whole64);
    let (mut rng, mut same) = (seeded_rng(7), seeded_rng(7));
    let limit = (-2.0 * (9008.0f64 / 9007199254740992.0).ln()).sqrt();
    for _ in 0..2000 {
        let x = standard_normal(&ar, &mut rng).unwrap();
        assert_eq!(standard_normal(&ar, &mut same), Some(x));
        assert!(x.abs() <= limit);
    }
    assert_eq!(normal(&ar, 9008, 0), limit);
}

#[test]
fn given_noise_is_passed_on() {
    let ar = Arith::new(op, rel, whole);
    let eng = engine(128, 400);
    let s = Sessions {
        contentvec: |_: &Vec<f32>| features(1),
        fft: dft4,
        fcpe: |_: &Vec<Vec<f32>>| latent(5),
        synth: |i: &SynthInputs<f32>| -> Result<Vec<f32>, String> {
            assert_eq!(i.pitchf, vec![320.0, 320.0]);
            let mut r = i.rnd.clone();
            r.extend(&i.nsf_noise);
            Ok(r)
        },
        wide: Arith::new(op64, rel64, whole64),
        narrow: |x: f64| x as f32,
    };
    let out = eng.convert_with_noise(&ar, &s, &[0.0; 16], 0, vec![1.0, 2.0], vec![3.0]).unwrap();
    assert_eq!(out, vec![1.0, 2.0, 3.0]);
}

#[test]
fn every_stage_reports_its_failure() {
    let ar = Arith::new(op, rel, whole);
    let stage = Cell::new(0);
    let s = Sessions {
        contentvec: |_: &Vec<f32>| {
            if stage.get() == 0 {
                Err("contentvec".to_string())
            } else if stage.get() == 1 {
                Ok(Features { frames: 2, data: vec![0.0f32; 768] })
            } else {
                features(2)
            }
        },
        fft: |x: &Vec<f32>| if stage.get() == 2 { Err("fft".to_string()) } else { dft4(x) },
        fcpe: |_: &Vec<Vec<f32>>| {
            if stage.get() == 3 {
                Err("fcpe".to_string())
            } else if stage.get() == 4 {
                Ok(Latent { frames: 2, bins: 12, data: vec![0.0f32; 23] })
            } else if stage.get() == 6 {
                Ok(Latent { frames: 2, bins: 4, data: vec![0.5f32; 8] })
            } else if stage.get() == 7 {
                Ok(Latent { frames: 2, bins: 5, data: vec![0.5f32; 10] })
            } else {
                latent(2)
            }
        },
        synth: |_: &SynthInputs<f32>| -> Result<Vec<f32>, String> { Err("synth".to_string()) },
        wide: Arith::new(op64, rel64, whole64),
        narrow: |x: f64| x as f32,
    };
    let run = |n: i32, rows: usize| {
        stage.set(n);
        let mut rng = seeded_rng(1);
        engine(rows, 400).convert(&ar, &s, &[0.1; 32], 0, &mut rng)
    };
    assert!(matches!(run(0, 128), Err(ConvertError::Session(e)) if e == "contentvec"));
    assert!(matches!(run(1, 128), Err(ConvertError::Shape)));
    assert!(matches!(run(2, 128), Err(ConvertError::Session(e)) if e == "fft"));
    assert!(matches!(run(5, 127), Err(ConvertError::Shape)));
    assert!(matches!(run(3, 128), Err(ConvertError::Session(e)) if e == "fcpe"));
    assert!(matches!(run(4, 128), Err(ConvertError::Shape)));
    assert!(matches!(run(6, 128), Err(ConvertError::Shape)));
    assert!(matches!(run(7, 128), Err(ConvertError::Session(e)) if e == "synth"));
    assert!(matches!(run(5, 128), Err(ConvertError::Session(e)) if e == "synth"));
}

#[test]
fn noise_that_cannot_be_counted_is_refused() {
    let ar = Arith::new(op, rel, whole);
    let s = Sessions {
        contentvec: |_: &Vec<f32>| features(1),
        fft: dft4,
        fcpe: |_: &Vec<Vec<f32>>| latent(1),
        synth: |_: &SynthInputs<f32>| -> Result<Vec<f32>, String> { Ok(vec![]) },
        wide: Arith::new(op64, rel64, whole64),
        narrow: |x: f64| x as f32,
    };
    let mut rng = seeded_rng(1);
    let r = engine(128, usize::MAX).convert(&ar, &s, &[0.1; 32], 0, &mut rng);
    assert!(matches!(r, Err(ConvertError::Shape)));
}

#[test]
fn tails_are_aligned() {
    assert_eq!(align_tail(&vec![1, 2, 3], 2, 0), vec![2, 3]);
    assert_eq!(align_tail(&vec![1, 2, 3], 5, 0), vec![0, 0, 1, 2, 3]);
    assert_eq!(align_tail(&vec![1, 2, 3], 3, 0), vec![1, 2, 3]);
}

#[test]
fn greatest_common_divisors() {
    assert_eq!(gcd(40000, 16000), 8000);
    assert_eq!(gcd(48000, 16000), 16000);
    assert_eq!(gcd(0, 5), 5);
    assert_eq!(gcd(7, 0), 7);
    assert_eq!(gcd(44100, 16000), 100);
}

#[test]
fn default_layouts() {
    let c = StreamCfg::default();
    assert_eq!((c.block, c.ctx_left, c.crossfade, c.sola_search), (2560, 4160, 1280, 320));
    assert_eq!((c.lookahead, c.pitch_semitones, c.seed), (0, 0, 1337));
    assert!(c.is_usable(40000));
    assert!(!StreamCfg { block: 2561, ..c }.is_usable(40000));
    assert!(!StreamCfg { lookahead: 1, ..c }.is_usable(40000));
    assert!(!StreamCfg { ctx_left: usize::MAX - usize::MAX % 320, ..c }.is_usable(40000));
    let e: EngineCfg<f32> = EngineCfg::default();
    assert_eq!(e.contentvec_onnx, "server/pretrain/content_vec_500.onnx");
    assert_eq!((e.upp, e.out_sr), (400, 40000));
    let ar = Arith::new(op, rel, whole);
    assert_eq!(e.f0_threshold.value(&ar), 0.006);
    assert_eq!(Threshold::Is(0.3f32).value(&ar), 0.3);
}

fn layout() -> StreamCfg {
    StreamCfg {
        block: 640,
        ctx_left: 320,
        crossfade: 320,
        sola_search: 320,
        lookahead: 0,
        pitch_semitones: 0,
        seed: 9,
    }
}

#[test]
fn the_window_rolls_and_the_first_hop_is_warmup() {
    let ar = Arith::new(op, rel, whole);
    let last: RefCell<Vec<f32>> = RefCell::new(Vec::new());
    let s = Sessions {
        contentvec: |a: &Vec<f32>| {
            *last.borrow_mut() = a.clone();
            features(1)
        },
        fft: dft4,
        fcpe: |_: &Vec<Vec<f32>>| latent(1),
        synth: |_: &SynthInputs<f32>| -> Result<Vec<f32>, String> {
            let w = last.borrow();
            Ok((0..w.len() * 5 / 2).map(|i| w[i * 2 / 5]).collect())
        },
        wide: Arith::new(op64, rel64, whole64),
        narrow: |x: f64| x as f32,
    };
    let mut se = StreamEngine::new(&ar, engine(128, 1), layout());
    assert_eq!(se.out_sr(), 40000);
    assert_eq!(se.cfg().block, 640);
    let first: Vec<f32> = (0..640).map(|i| (i as f32 * 0.05).sin()).collect();
    assert!(matches!(se.push(&ar, &s, &first), Ok(None)));
    assert_eq!(last.borrow().len(), 1600);
    assert_eq!(last.borrow()[..960], vec![0.0f32; 960]);
    assert_eq!(last.borrow()[960..], first);
    let second: Vec<f32> = (640..1280).map(|i| (i as f32 * 0.05).sin()).collect();
    let block = se.push(&ar, &s, &second).unwrap().unwrap();
    assert_eq!(block.len(), 640 * 5 / 2);
    assert_eq!(last.borrow()[320..960], first);
    assert_eq!(last.borrow()[960..], second);
}

#[test]
fn lookahead_is_cut_off() {
    let ar = Arith::new(op, rel, whole);
    let s = Sessions {
        contentvec: |_: &Vec<f32>| features(1),
        fft: dft4,
        fcpe: |_: &Vec<Vec<f32>>| latent(1),
        synth: |_: &SynthInputs<f32>| -> Result<Vec<f32>, String> {
            Ok((0..4800).map(|i| if i < 4000 { 1.0 } else { 9.0 }).collect())
        },
        wide: Arith::new(op64, rel64, whole64),
        narrow: |x: f64| x as f32,
    };
    let cfg = StreamCfg { lookahead: 320, ..layout() };
    let mut se = StreamEngine::new(&ar, engine(128, 1), cfg);
    assert!(matches!(se.push(&ar, &s, &[0.0; 640]), Ok(None)));
    let block = se.push(&ar, &s, &[0.0; 640]).unwrap().unwrap();
    assert_eq!(block.len(), 1600);
    assert!(block.iter().all(|v| (*v - 1.0).abs() < 1e-6));
}

#[test]
fn a_short_window_is_refused() {
    let ar = Arith::new(op, rel, whole);
    let s = Sessions {
        contentvec: |_: &Vec<f32>| features(1),
        fft: dft4,
        fcpe: |_: &Vec<Vec<f32>>| latent(1),
        synth: |_: &SynthInputs<f32>| -> Result<Vec<f32>, String> { Ok(vec![0.0; 3199]) },
        wide: Arith::new(op64, rel64, whole64),
        narrow: |x: f64| x as f32,
    };
    let mut se = StreamEngine::new(&ar, engine(128, 1), layout());
    let r = se.push(&ar, &s, &[0.0; 640]);
    assert!(matches!(r, Err(StreamError::TooShort { got: 3199, need: 3200 })));
}

#[test]
fn a_failed_conversion_reaches_the_caller() {
    let ar = Arith::new(op, rel, whole);
    let s = Sessions {
        contentvec: |_: &Vec<f32>| -> Result<Features<f32>, String> { Err("down".to_string()) },
        fft: dft4,
        fcpe: |_: &Vec<Vec<f32>>| latent(1),
        synth: |_: &SynthInputs<f32>| -> Result<Vec<f32>, String> { Ok(vec![]) },
        wide: Arith::new(op64, rel64, whole64),
        narrow: |x: f64| x as f32,
    };
    let mut se = StreamEngine::new(&ar, engine(128, 1), layout());
    let r = se.push(&ar, &s, &[0.0; 640]);
    assert!(matches!(r, Err(StreamError::Convert(ConvertError::Session(e))) if e == "down"));
}

#[test]
fn a_recording_is_converted_block_by_block() {
    let ar = Arith::new(op, rel, whole);
    let hops = Cell::new(0);
    let s = Sessions {
        contentvec: |_: &Vec<f32>| {
            hops.set(hops.get() + 1);
            features(1)
        },
        fft: dft4,
        fcpe: |_: &Vec<Vec<f32>>| latent(1),
        synth: |_: &SynthInputs<f32>| -> Result<Vec<f32>, String> { Ok(vec![0.5; 4000]) },
        wide: Arith::new(op64, rel64, whole64),
        narrow: |x: f64| x as f32,
    };
    let now = Cell::new(0u64);
    let clock = || {
        now.set(now.get() + 5);
        now.get()
    };
    let mut se = StreamEngine::new(&ar, engine(128, 1), layout());
    let (out, times) =
        convert_recording(&ar, &s, &mut se, &vec![0.1f32; 640 * 3 + 1], &clock).unwrap();
    assert_eq!(hops.get(), 4);
    assert_eq!(out.len(), 3 * 1600);
    assert_eq!(times, vec![5, 5, 5]);
}

#[test]
fn equal_streams_answer_alike() {
    let ar = Arith::new(op, rel, whole);
    let s = Sessions {
        contentvec: |_: &Vec<f32>| features(1),
        fft: dft4,
        fcpe: |_: &Vec<Vec<f32>>| latent(1),
        synth: |i: &SynthInputs<f32>| -> Result<Vec<f32>, String> {
            Ok((0..4000).map(|k| i.rnd[k % i.rnd.len()]).collect())
        },
        wide: Arith::new(op64, rel64, whole64),
        narrow: |x: f64| x as f32,
    };
    let clock = || 0u64;
    let audio = vec![0.1f32; 640 * 3];
    let run = |seed: u64| {
        let mut se = StreamEngine::new(&ar, engine(128, 1), StreamCfg { seed, ..layout() });
        convert_recording(&ar, &s, &mut se, &audio, &clock).unwrap().0
    };
    assert_eq!(run(5), run(5));
    assert_ne!(run(5), run(6));
}

#[test]
fn a_clock_that_runs_backwards_gives_no_time() {
    let ar = Arith::new(op, rel, whole);
    let s = Sessions {
        contentvec: |_: &Vec<f32>| features(1),
        fft: dft4,
        fcpe: |_: &Vec<Vec<f32>>| latent(1),
        synth: |_: &SynthInputs<f32>| -> Result<Vec<f32>, String> { Ok(vec![0.5; 4000]) },
        wide: Arith::new(op64, rel64, whole64),
        narrow: |x: f64| x as f32,
    };
    let now = Cell::new(100u64);
    let clock = || {
        now.set(now.get() - 1);
        now.get()
    };
    let mut se = StreamEngine::new(&ar, engine(128, 1), layout());
    let (_, times) = convert_recording(&ar, &s, &mut se, &vec![0.1f32; 640 * 2], &clock).unwrap();
    assert_eq!(times, vec![0, 0]);
}

#[test]
fn blocks_cover_a_recording() {
    let audio: Vec<i32> = (1..=7).collect();
    assert_eq!(split_blocks(&audio, 3, 0), vec![vec![1, 2, 3], vec![4, 5, 6], vec![7, 0, 0]]);
    assert_eq!(split_blocks(&audio[..6], 3, 0), vec![vec![1, 2, 3], vec![4, 5, 6]]);
    assert!(split_blocks(&audio[..0], 3, 0).is_empty());
}

#[test]
fn recordings_are_clamped() {
    let ar = Arith::new(op, rel, whole);
    let mut xs = vec![-3.0f32, -1.0, 0.25, 1.0, 1.5];
    clamp_all(&ar, &mut xs);
    assert_eq!(xs, vec![-1.0, -1.0, 0.25, 1.0, 1.0]);
    assert!(needs_resampling(48000));
    assert!(!needs_resampling(16000));
}
