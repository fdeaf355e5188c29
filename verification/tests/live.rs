use std::cell::Cell;
use vc_native::arith::{Arith, Op, Rel};
use vc_native::audio::{
    capture, capture_ring, fill_block, link_source, link_step, link_targets, playback,
    playback_ring, play_frame, send, LinkReply, LinkStep,
};
use vc_native::dsp::f0decode::F0Decoder;
use vc_native::dsp::mel::MelFrontend;
use vc_native::engine::{Engine, EngineCfg, Features, Latent, Sessions, SynthInputs, Threshold};
use vc_native::live::{
    build_engine, capture_label, find_repo_root, join_path, logs_misses, look_again, root_marker,
    stretch, LiveConfig, LiveStats, NoRoot, StartEvent, StartStep, Startup, Worker,
};
use vc_native::stats::{cents_err, percentiles, rmse, sorted, time_between};
use vc_native::stream::{StreamCfg, StreamEngine};

fn op(o: Op<f32>) -> f32 {
    match o {
        Op::Ratio(n, d) => (n as f64 / d as f64) as f32,
        Op::Count(k) => k as f32,
        Op::Pi => std::f32::consts::PI,
        Op::Lowest => f32::MIN,
        Op::Nan => f32::NAN,
        Op::Add(a, b) => a + b,
        Op::Sub(a, b) => a - b,
        Op::Mul(a, b) => a * b,
        Op::Div(a, b) => a / b,
        Op::Max(a, b) => a.max(b),
        Op::Abs(a) => a.abs(),
        Op::Sqrt(a) => a.sqrt(),
        Op::Exp2(a) => a.exp2(),
        Op::Log2(a) => a.log2(),
        Op::Log10(a) => a.log10(),
        Op::Ln(a) => a.ln(),
        Op::Sin(a) => a.sin(),
        Op::Cos(a) => a.cos(),
        Op::Round(a) => a.round(),
    }
}

fn rel(a: f32, b: f32) -> Rel {
    if a < b {
        Rel::Less
    } else if a > b {
        Rel::Greater
    } else if a == b {
        Rel::Equal
    } else {
        Rel::Unordered
    }
}

fn whole(a: f32) -> i128 {
    a as i128
}

fn config(block: usize) -> LiveConfig {
    LiveConfig { block, passthrough: true, ..LiveConfig::default() }
}

#[test]
fn live_defaults() {
    let c = LiveConfig::default();
    assert_eq!(c.mic_name, "vc_mic");
    assert_eq!((c.block, c.ctx_left, c.crossfade, c.lookahead), (2560, 4160, 640, 0));
    assert_eq!((c.pitch, c.seed), (0, 1337));
    assert!(c.input.is_none() && !c.passthrough && !c.tone && c.dump_input.is_none());
    let s = LiveStats::default();
    assert_eq!((s.hops, s.misses, s.hop_p50_us, s.internal_latency_ms), (0, 0, 0, 0));
    assert!(!s.mute && s.capture_node.is_empty());
}

#[test]
fn an_engine_needs_a_root() {
    let cfg = LiveConfig { block: 640, lookahead: 320, pitch: 3, seed: 5, ..LiveConfig::default() };
    assert_eq!(build_engine::<f32>(&cfg, None).err(), Some(NoRoot));
    let plan = build_engine::<f32>(&cfg, Some("/opt/vc".to_string())).unwrap().unwrap();
    assert_eq!(plan.engine.contentvec_onnx, "/opt/vc/server/pretrain/content_vec_500.onnx");
    assert_eq!(plan.engine.fcpe_onnx, "/opt/vc/native/golden/fcpe_fp32.onnx");
    assert_eq!(plan.engine.synth_onnx, "/opt/vc/native/golden/synth_alexjones_fp32.onnx");
    assert_eq!(plan.engine.frontend_npz, "/opt/vc/native/golden/fcpe_frontend.npz");
    assert_eq!(plan.engine.out_sr, 40000);
    assert!(matches!(plan.engine.f0_threshold, Threshold::Standard));
    assert_eq!(
        plan.stream,
        StreamCfg {
            block: 640,
            ctx_left: 4160,
            crossfade: 640,
            sola_search: 320,
            lookahead: 320,
            pitch_semitones: 3,
            seed: 5
        }
    );
    assert!(build_engine::<f32>(&config(640), None).unwrap().is_none());
}

#[test]
fn the_first_root_is_taken() {
    let above = vec!["/a/b".to_string(), "/a".to_string(), "/".to_string()];
    let tried = std::cell::RefCell::new(Vec::new());
    let is_root = |p: &String| {
        tried.borrow_mut().push(p.clone());
        p == "/a" || p == "/here"
    };
    assert_eq!(find_repo_root(Some("/tmp".to_string()), &above, &is_root), Some("/a".to_string()));
    assert_eq!(*tried.borrow(), vec!["/tmp", "/a/b", "/a"]);
    assert_eq!(
        find_repo_root(Some("/here".to_string()), &above, &is_root),
        Some("/here".to_string())
    );
    assert_eq!(find_repo_root(None, &above[..1].to_vec(), &is_root), None);
    assert_eq!(join_path("/", "x"), "/x");
    assert_eq!(join_path("", "x"), "x");
    assert_eq!(root_marker("/r"), "/r/server/pretrain/content_vec_500.onnx");
    assert_eq!(capture_label(&None), "(default)");
    assert_eq!(capture_label(&Some("mic".to_string())), "mic");
}

#[test]
fn samples_survive_the_rings() {
    let (mut tx, mut rx) = capture_ring();
    let samples = [1.5f32, -0.25, 3.0e-7, f32::MIN];
    let mut bytes: Vec<u8> = samples.iter().flat_map(|v| v.to_le_bytes()).collect();
    bytes.push(77);
    let len = bytes.len();
    assert!(!capture(&mut tx, &bytes, len));
    let mut inbuf = Vec::new();
    assert!(!fill_block(&mut rx, &mut inbuf, 6));
    assert_eq!(inbuf, samples.iter().map(|v| v.to_bits()).collect::<Vec<u32>>());
    assert!(!capture(&mut tx, &bytes, 12));
    assert!(fill_block(&mut rx, &mut inbuf, 6));
    assert_eq!(inbuf.len(), 6);
    assert_eq!(inbuf[5], (-0.25f32).to_bits());
}

#[test]
fn a_full_ring_drops_samples() {
    let (mut tx, _rx) = capture_ring();
    let bytes = vec![0u8; 4 * 64000];
    assert!(!capture(&mut tx, &bytes, bytes.len()));
    assert!(capture(&mut tx, &bytes, 4));
    assert!(!capture(&mut tx, &bytes, 3));
}

#[test]
fn samples_behind_a_full_ring_are_offered_too() {
    let (mut tx, mut rx) = capture_ring();
    let bytes = vec![0u8; 4 * 64000];
    assert!(!capture(&mut tx, &bytes, bytes.len()));
    let mut some = Vec::new();
    assert!(fill_block(&mut rx, &mut some, 2));
    let more: Vec<u8> = [7u32, 8, 9].iter().flat_map(|v| v.to_le_bytes()).collect();
    assert!(capture(&mut tx, &more, 12));
    let mut all = Vec::new();
    assert!(fill_block(&mut rx, &mut all, 64000));
    assert_eq!(all[63998..], [7, 8]);
}

#[test]
fn playback_is_silent_until_ready() {
    let (mut tx, mut rx) = playback_ring();
    send(&mut tx, &[1.0f32.to_bits(), 2.0f32.to_bits()]);
    let mut buf = [9u8; 14];
    assert_eq!(playback(&mut rx, &mut buf, false), (3, false));
    assert_eq!(buf[..12], [0u8; 12]);
    assert_eq!(buf[12..], [9u8; 2]);
    assert_eq!(playback(&mut rx, &mut buf, true), (3, true));
    assert_eq!(buf[..4], 1.0f32.to_le_bytes());
    assert_eq!(buf[4..8], 2.0f32.to_le_bytes());
    assert_eq!(buf[8..12], [0u8; 4]);
    send(&mut tx, &[3; 5]);
    assert_eq!(playback(&mut rx, &mut buf, true), (3, false));
    assert_eq!(playback(&mut rx, &mut buf[..8], true), (2, false));
    assert_eq!(playback(&mut rx, &mut buf[..4], true), (1, true));
    assert_eq!(playback(&mut rx, &mut [], true), (0, false));
}

#[test]
fn a_frame_that_is_missing_is_silent() {
    let mut buf = [9u8; 12];
    assert!(!play_frame(&mut buf, 1, Some(0x0403_0201)));
    assert_eq!(buf, [9, 9, 9, 9, 1, 2, 3, 4, 9, 9, 9, 9]);
    assert!(play_frame(&mut buf, 0, None));
    assert_eq!(buf, [0, 0, 0, 0, 1, 2, 3, 4, 9, 9, 9, 9]);
}

#[test]
fn linking_is_retried() {
    let failed = LinkReply::Ran { success: false, stderr: "no such port".to_string() };
    let there = LinkReply::Ran { success: false, stderr: "failed: File exists".to_string() };
    let good = LinkReply::Ran { success: true, stderr: String::new() };
    assert_eq!(link_step(&failed, &LinkReply::NoTool), LinkStep::Retry);
    assert_eq!(link_step(&failed, &failed), LinkStep::Retry);
    assert_eq!(link_step(&there, &failed), LinkStep::Done);
    assert_eq!(link_step(&failed, &good), LinkStep::Done);
    assert_eq!(link_source(), "vc-live-out:output_MONO");
    assert_eq!(
        link_targets("vc_mic"),
        ("vc_mic:input_FL".to_string(), "vc_mic:input_FR".to_string())
    );
}

#[test]
fn the_tone_bursts_every_two_seconds() {
    let ar = Arith::new(op, rel, whole);
    let mut w: Worker<f32> =
        Worker::new(&LiveConfig { tone: true, ..config(3200) }, "mic".to_string());
    let mut heard = Vec::new();
    for k in 0..11u64 {
        let mut inbuf = vec![0.9f32; 3200];
        assert!(!w.take_block(&ar, &mut inbuf, k * 1000));
        heard.extend(inbuf);
        if k < 10 {
            assert_eq!(w.burst, Some(0));
        } else {
            assert_eq!(w.burst, Some(10_000));
        }
    }
    assert_eq!(w.total_in, 35200);
    assert_eq!(heard[0], 0.0);
    assert_eq!(heard[1600], 0.0);
    let expected = 0.5 * (2.0 * std::f32::consts::PI * 1000.0 * 5.0 / 16000.0).sin();
    assert_eq!(heard[5], expected);
    assert_eq!(heard[32005], expected);
    assert_eq!(heard[20000], 0.0);
}

#[test]
fn input_is_dumped_once() {
    let ar = Arith::new(op, rel, whole);
    let cfg = LiveConfig { dump_input: Some("x.wav".to_string()), ..config(160000) };
    let mut w: Worker<f32> = Worker::new(&cfg, String::new());
    let mut done = Vec::new();
    for _ in 0..5 {
        let mut inbuf = vec![0.5f32; 160000];
        done.push(w.take_block(&ar, &mut inbuf, 0));
    }
    assert_eq!(done, vec![false, false, true, false, false]);
    assert_eq!(w.dump.len(), 480000);
    assert_eq!(w.stats.in_rms_milli, 500);
}

#[test]
fn stretching_is_linear() {
    let ar = Arith::new(op, rel, whole);
    let out = stretch(&ar, &[0.0f32, 1.0, 2.0, 3.0], 10);
    assert_eq!(out.len(), 10);
    for (i, v) in out.iter().enumerate() {
        assert!((v - i as f32 * 3.0 / 9.0).abs() < 1e-5);
    }
    assert_eq!(out[0], 0.0);
    assert_eq!(out[9], 3.0);
}

#[test]
fn figures_of_a_hop() {
    let ar = Arith::new(op, rel, whole);
    let mut w: Worker<f32> =
        Worker::new(&LiveConfig { passthrough: false, ..config(1600) }, String::new());
    w.burst = Some(3_000_000);
    assert_eq!(w.finish(&ar, &vec![], 100_000_000, 9_000_000), 8000);
    assert!(!w.warm);
    assert_eq!((w.stats.hops, w.stats.misses, w.burst), (1, 0, Some(3_000_000)));
    assert_eq!(w.finish(&ar, &vec![0.5; 4], 100_000_001, 15_999_999), 0);
    assert_eq!((w.stats.hops, w.stats.misses, w.burst), (2, 1, None));
    assert_eq!(w.stats.internal_latency_ms, 12);
    assert_eq!(w.stats.out_rms_milli, 500);
    assert!(w.warm);
    assert_eq!(w.finish(&ar, &vec![0.25; 4], 7_000, 20_000_000), 0);
    assert_eq!(w.stats.hop_p50_us, 100_000);
    assert_eq!(w.stats.hop_p95_us, 100_000);
    for _ in 0..100 {
        w.finish(&ar, &vec![], 2_000_000, 0);
    }
    assert_eq!(w.hop_win.len(), 64);
    assert_eq!((w.stats.hop_p50_us, w.stats.hop_p95_us), (2000, 2000));
    assert_eq!(w.stats.out_rms_milli, 250);
}

#[test]
fn late_hops_do_not_count_without_conversion() {
    let ar = Arith::new(op, rel, whole);
    let mut w: Worker<f32> = Worker::new(&config(1600), String::new());
    w.finish(&ar, &vec![], u64::MAX, 0);
    assert_eq!(w.stats.misses, 0);
}

fn features() -> Result<Features<f32>, String> {
    Ok(Features { frames: 1, data: vec![0.0; 768] })
}

fn latent() -> Result<Latent<f32>, String> {
    Ok(Latent { frames: 1, bins: 12, data: vec![0.5; 12] })
}

fn spectrum(x: &Vec<f32>) -> Result<Vec<(f32, f32)>, String> {
    Ok(vec![(x[0], 0.0); 3])
}

fn stream(block: usize) -> StreamEngine<f32> {
    let ar = Arith::new(op, rel, whole);
    let mel = MelFrontend {
        mel_basis: vec![vec![1.0; 3]; 128],
        window: vec![1.0; 4],
        n_fft: 4,
        win: 4,
        hop: 2,
        clip_val: 1e-5,
    };
    let dec = F0Decoder { cent_table: vec![0.0; 12] };
    let cfg = StreamCfg { block, ctx_left: 320, crossfade: 320, ..StreamCfg::default() };
    StreamEngine::new(
        &ar,
        Engine::new(EngineCfg { upp: 1, ..EngineCfg::default() }, mel, dec),
        cfg,
    )
}

#[test]
fn a_hop_fills_the_playback_ring() {
    let ar = Arith::new(op, rel, whole);
    let fail = Cell::new(false);
    let s = Sessions {
        contentvec: |_: &Vec<f32>| if fail.get() { Err("down".to_string()) } else { features() },
        fft: spectrum,
        fcpe: |_: &Vec<Vec<f32>>| latent(),
        synth: |_: &SynthInputs<f32>| -> Result<Vec<f32>, String> { Ok(vec![0.5; 4000]) },
        wide: Arith::new(op, rel, whole),
        narrow: |_: f32| 0.0f32,
    };
    let clock = || 1u64;
    let silent = Cell::new(false);
    let mute = || silent.get();
    let bits = |v: f32| v.to_bits();
    let (mut tx, mut rx) = playback_ring();
    let mut w: Worker<f32> =
        Worker::new(&LiveConfig { passthrough: false, ..config(640) }, String::new());
    let mut se = Some(stream(640));
    let mut got: Vec<u32> = Vec::new();
    let mut hop = |w: &mut Worker<f32>| {
        let mut inbuf = vec![0.1f32; 640];
        let r = w.hop(&ar, &s, &mut se, &mut inbuf, &clock, &mute, &bits, &mut tx);
        (r.0, r.1.is_some())
    };
    assert_eq!(hop(&mut w), (false, false));
    fill_block(&mut rx, &mut got, 100000);
    assert_eq!(got, vec![0u32; 3200]);
    assert!(!w.warm);
    got.clear();
    assert_eq!(hop(&mut w), (false, false));
    fill_block(&mut rx, &mut got, 100000);
    assert!(w.warm);
    assert_eq!(got.len(), 1600);
    assert!((f32::from_bits(got[1500]) - 0.5).abs() < 1e-6);
    fail.set(true);
    got.clear();
    assert_eq!(hop(&mut w), (false, true));
    fill_block(&mut rx, &mut got, 100000);
    assert_eq!(got, vec![0u32; 1600]);
    fail.set(false);
    silent.set(true);
    got.clear();
    assert_eq!(hop(&mut w), (false, false));
    fill_block(&mut rx, &mut got, 100000);
    assert_eq!(got, vec![0u32; 1600]);
    assert_eq!(w.stats.hops, 4);
    assert!(w.stats.mute);
    assert_eq!(w.stats.in_rms_milli, 100);
}

#[test]
fn a_late_hop_fades_out() {
    let ar = Arith::new(op, rel, whole);
    let s = Sessions {
        contentvec: |_: &Vec<f32>| features(),
        fft: spectrum,
        fcpe: |_: &Vec<Vec<f32>>| latent(),
        synth: |_: &SynthInputs<f32>| -> Result<Vec<f32>, String> { Ok(vec![0.5; 4000]) },
        wide: Arith::new(op, rel, whole),
        narrow: |_: f32| 0.0f32,
    };
    let (now, reads, slow) = (Cell::new(0u64), Cell::new(0u64), Cell::new(0u64));
    let clock = || {
        if reads.get() % 4 == 2 {
            now.set(now.get() + slow.get());
        }
        reads.set(reads.get() + 1);
        now.get()
    };
    let silent = Cell::new(false);
    let mute = || silent.get();
    let bits = |v: f32| v.to_bits();
    let (mut tx, mut rx) = playback_ring();
    let cfg = LiveConfig { passthrough: false, crossfade: 320, ..config(640) };
    let mut w: Worker<f32> = Worker::new(&cfg, String::new());
    assert_eq!(w.fade, 800);
    let mut se = Some(stream(640));
    let mut hop = |w: &mut Worker<f32>| {
        let mut got: Vec<u32> = Vec::new();
        let mut inbuf = vec![0.1f32; 640];
        w.hop(&ar, &s, &mut se, &mut inbuf, &clock, &mute, &bits, &mut tx);
        fill_block(&mut rx, &mut got, 100000);
        got.iter().map(|b| f32::from_bits(*b)).collect::<Vec<f32>>()
    };
    hop(&mut w);
    hop(&mut w);
    slow.set(40_000_000);
    assert_eq!(hop(&mut w).len(), 1600);
    assert_eq!(w.stats.misses, 0);
    assert_eq!(w.last.len(), 800);
    let before = w.last.clone();
    slow.set(40_000_001);
    let got = hop(&mut w);
    assert_eq!(w.stats.misses, 1);
    assert_eq!(got.len(), 1600);
    for (i, v) in got.iter().enumerate() {
        let expected = if i < 800 {
            let c = ((i as f32 + 0.5) / 800.0 * (std::f32::consts::PI / 2.0)).cos();
            before[i] * (c * c)
        } else {
            0.0
        };
        assert_eq!(*v, expected);
    }
    assert_eq!(hop(&mut w), vec![0.0; 1600]);
    assert_eq!(w.stats.misses, 2);
    slow.set(0);
    silent.set(true);
    assert_eq!(hop(&mut w), vec![0.0; 1600]);
    silent.set(false);
    assert!((hop(&mut w)[1500] - 0.5).abs() < 1e-6);
    silent.set(true);
    slow.set(50_000_000);
    assert_eq!(hop(&mut w), vec![0.0; 1600]);
    assert_eq!((w.stats.hops, w.stats.misses), (8, 3));
}

#[test]
fn a_late_hop_before_any_output_is_silent() {
    let ar = Arith::new(op, rel, whole);
    let cfg = LiveConfig { passthrough: false, ..config(1600) };
    let w: Worker<f32> = Worker::new(&cfg, String::new());
    assert_eq!(w.emit(&ar, vec![1.0, 2.0], 100_000_000), vec![1.0, 2.0]);
    assert_eq!(w.emit(&ar, vec![1.0, 2.0], 100_000_001), vec![0.0; 4000]);
    let through: Worker<f32> = Worker::new(&config(1600), String::new());
    assert_eq!(through.emit(&ar, vec![1.0, 2.0], u64::MAX), vec![1.0, 2.0]);
}

#[test]
fn the_last_samples_are_kept() {
    let ar = Arith::new(op, rel, whole);
    let cfg = LiveConfig { crossfade: 2, ..config(1600) };
    let mut w: Worker<f32> = Worker::new(&cfg, String::new());
    assert_eq!(w.fade, 5);
    w.finish(&ar, &vec![1.0, 2.0, 3.0], 0, 0);
    assert_eq!(w.last, vec![1.0, 2.0, 3.0]);
    w.finish(&ar, &vec![4.0, 5.0, 6.0], 0, 0);
    assert_eq!(w.last, vec![2.0, 3.0, 4.0, 5.0, 6.0]);
    w.finish(&ar, &vec![], 0, 0);
    w.finish(&ar, &(10..20).map(|v| v as f32).collect(), 0, 0);
    assert_eq!(w.last, vec![15.0, 16.0, 17.0, 18.0, 19.0]);
}

#[test]
fn an_empty_block_gives_nothing() {
    let ar = Arith::new(op, rel, whole);
    let mut w: Worker<f32> = Worker::new(&config(0), String::new());
    let mut inbuf: Vec<f32> = vec![];
    assert!(!w.take_block(&ar, &mut inbuf, 0));
    assert!(w.pass_through(&ar, &inbuf).is_empty());
    w.finish(&ar, &vec![], 0, 0);
    assert_eq!(w.finish(&ar, &vec![], 0, 0), 0);
}

#[test]
fn a_hop_without_an_engine_passes_the_microphone_through() {
    let ar = Arith::new(op, rel, whole);
    let s = Sessions {
        contentvec: |_: &Vec<f32>| features(),
        fft: spectrum,
        fcpe: |_: &Vec<Vec<f32>>| latent(),
        synth: |_: &SynthInputs<f32>| -> Result<Vec<f32>, String> { Ok(vec![]) },
        wide: Arith::new(op, rel, whole),
        narrow: |_: f32| 0.0f32,
    };
    let (mut tx, mut rx) = playback_ring();
    let mut w: Worker<f32> = Worker::new(&config(4), String::new());
    let mut none = None;
    let mut inbuf = vec![0.0f32, 1.0, 2.0, 3.0];
    let (clock, mute, bits) = (|| 0u64, || false, |v: f32| v.to_bits());
    w.hop(&ar, &s, &mut none, &mut inbuf, &clock, &mute, &bits, &mut tx);
    let mut got = Vec::new();
    fill_block(&mut rx, &mut got, 100);
    assert_eq!(got.len(), 20 + 10);
    assert_eq!(got[..20], [0u32; 20]);
    assert_eq!(f32::from_bits(got[20 + 9]), 3.0);
    got.clear();
    w.hop(&ar, &s, &mut none, &mut inbuf, &clock, &mute, &bits, &mut tx);
    fill_block(&mut rx, &mut got, 100);
    assert_eq!(got.len(), 10);
}

#[test]
fn muting_takes_effect_within_a_hop() {
    let ar = Arith::new(op, rel, whole);
    let silent = Cell::new(false);
    let s = Sessions {
        contentvec: |_: &Vec<f32>| {
            silent.set(true);
            features()
        },
        fft: spectrum,
        fcpe: |_: &Vec<Vec<f32>>| latent(),
        synth: |_: &SynthInputs<f32>| -> Result<Vec<f32>, String> { Ok(vec![0.5; 4000]) },
        wide: Arith::new(op, rel, whole),
        narrow: |_: f32| 0.0f32,
    };
    let (mut tx, mut rx) = playback_ring();
    let (clock, mute, bits) = (|| 0u64, || silent.get(), |v: f32| v.to_bits());
    let mut w: Worker<f32> =
        Worker::new(&LiveConfig { passthrough: false, ..config(640) }, String::new());
    let mut se = Some(stream(640));
    for _ in 0..2 {
        silent.set(false);
        w.hop(&ar, &s, &mut se, &mut vec![0.1f32; 640], &clock, &mute, &bits, &mut tx);
    }
    let mut got = Vec::new();
    fill_block(&mut rx, &mut got, 100000);
    assert_eq!(got, vec![0u32; 3200 + 1600]);
}

#[test]
fn pitch_can_be_changed_between_hops() {
    let ar = Arith::new(op, rel, whole);
    let heard = Cell::new(0.0f32);
    let s = Sessions {
        contentvec: |_: &Vec<f32>| features(),
        fft: spectrum,
        fcpe: |_: &Vec<Vec<f32>>| latent(),
        synth: |i: &SynthInputs<f32>| -> Result<Vec<f32>, String> {
            heard.set(i.pitchf[1]);
            Ok(vec![0.0; 4000])
        },
        wide: Arith::new(op, rel, whole),
        narrow: |_: f32| 0.0f32,
    };
    let mut w: Worker<f32> =
        Worker::new(&LiveConfig { passthrough: false, ..config(640) }, String::new());
    let mut se = stream(640);
    w.convert_hop(&ar, &s, &mut se, &vec![0.0; 640]);
    assert_eq!(heard.get(), 10.0);
    w.stats.pitch = 12;
    w.convert_hop(&ar, &s, &mut se, &vec![0.0; 640]);
    assert_eq!(heard.get(), 20.0);
}

#[test]
fn every_tenth_miss_is_logged() {
    assert!(logs_misses(9, 10) && logs_misses(19, 20));
    assert!(!logs_misses(10, 10) && !logs_misses(10, 11) && !logs_misses(0, 0));
    assert_eq!((time_between(3, 10), time_between(10, 3), time_between(4, 4)), (7, 0, 0));
}

#[test]
fn percentiles_of_times() {
    assert_eq!(percentiles(&vec![]), None);
    assert_eq!(percentiles(&vec![7]), Some((7, 7)));
    assert_eq!(percentiles(&vec![3, 1, 2]), Some((2, 3)));
    let many: Vec<u64> = (0..100).rev().collect();
    assert_eq!(percentiles(&many), Some((50, 95)));
    for n in 1..2000usize {
        let xs: Vec<u64> = (0..n as u64).collect();
        let i = ((n as f64 * 0.95) as usize).min(n - 1);
        if n % 37 == 0 || n % 20 == 0 || n < 50 {
            assert_eq!(percentiles(&xs), Some((n as u64 / 2, i as u64)));
        }
    }
    assert_eq!(sorted(&vec![5, 3, 5, 1]), vec![1, 3, 5, 5]);
}

#[test]
fn errors_of_signals() {
    let ar = Arith::new(op, rel, whole);
    assert_eq!(rmse(&ar, &[1.0f32, 2.0, 3.0], &[1.0, 4.0]), (4.0f32 / 2.0).sqrt());
    assert!(rmse(&ar, &[], &[1.0f32]).is_nan());
    assert!(cents_err(&ar, &[0.0f32, 100.0], &[100.0, 0.0]).is_nan());
    let e = cents_err(&ar, &[100.0f32, 0.0, 400.0, 110.0], &[100.0, 5.0, 100.0, 220.0]);
    assert_eq!(e, 1200.0);
}

#[test]
fn the_engine_comes_before_the_microphone() {
    let mut s = Startup::new();
    assert_eq!(s.next(StartEvent::Asked), StartStep::BuildEngine);
    assert_eq!(s.next(StartEvent::EngineBuilt(false)), StartStep::GiveUp);
    assert_eq!(s.next(StartEvent::MicCreated(true)), StartStep::GiveUp);
    assert_eq!(s.next(StartEvent::Asked), StartStep::BuildEngine);
    assert_eq!(s.next(StartEvent::EngineBuilt(true)), StartStep::CreateMic);
    assert_eq!(s.next(StartEvent::MicCreated(false)), StartStep::GiveUp);
    assert_eq!(s.next(StartEvent::EngineBuilt(true)), StartStep::CreateMic);
    assert_eq!(s.next(StartEvent::MicCreated(true)), StartStep::RunStreams);
    assert!(look_again(0, false) && look_again(9, false));
    assert!(!look_again(10, false) && !look_again(1, true));
}
