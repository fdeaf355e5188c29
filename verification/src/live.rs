//! The live path: configuration, figures, and what the worker does on every hop.
use rtrb::Producer;
use vstd::prelude::*;

use crate::audio::{offered, replies, ring_replies, send};
use crate::arith::{law_level_has_the_mean_energy, rms, rms_of, Arith, Num, Op, Rel};
use crate::dsp::sola::{fading, lemma_ramp_values, ramp_out, rise};
use crate::dsp::table::{copied_range, push_all};
use crate::engine::{EngineCfg, Features, Latent, Sessions, SynthInputs};
use crate::exact::{cut_down, far, lemma_integer, total, Reals};
use crate::nodes::{node_serial, node_views, opt_view, serial_of, PwNode};
use crate::stats::{
    between, law_percentiles_are_at_their_places, median_index, ordering_of, p95_index, percentiles,
    time_between,
};
use crate::stream::{StreamCfg, StreamEngine, StreamError};
use crate::virtmic::views;

verus! {

/// Configuration of the live path.
#[derive(Clone, Debug)]
pub struct LiveConfig {
    /// Name of the virtual microphone's node.
    pub mic_name: String,
    /// Name of the node to capture from; `None` picks a hardware source, USB preferred.
    pub input: Option<String>,
    /// Block size in 16 kHz samples.
    pub block: usize,
    /// Left context in 16 kHz samples.
    pub ctx_left: usize,
    /// Crossfade in 16 kHz samples.
    pub crossfade: usize,
    /// Extra lookahead in 16 kHz samples.
    pub lookahead: usize,
    /// Pitch shift in semitones.
    pub pitch: i32,
    /// Seed of the noise.
    pub seed: u64,
    /// No conversion: the microphone goes through as it is.
    pub passthrough: bool,
    /// Tone bursts in place of the microphone.
    pub tone: bool,
    /// Where to write the first half minute of input.
    pub dump_input: Option<String>,
}

impl Default for LiveConfig {
    fn default() -> (r: Self)
        ensures
            r.mic_name@ == "vc_mic"@,
            r.input is None,
            r.block == 2560,
            r.ctx_left == 4160,
            r.crossfade == 640,
            r.lookahead == 0,
            r.pitch == 0,
            r.seed == 1337,
            !r.passthrough,
            !r.tone,
            r.dump_input is None,
    {
        LiveConfig {
            mic_name: "vc_mic".to_owned(),
            input: None,
            block: 2560,
            ctx_left: 4160,
            crossfade: 640,
            lookahead: 0,
            pitch: 0,
            seed: 1337,
            passthrough: false,
            tone: false,
            dump_input: None,
        }
    }
}

/// Figures and controls of the live path. Levels are in thousandths.
#[derive(Clone, Debug)]
pub struct LiveStats {
    /// Level of the input.
    pub in_rms_milli: u64,
    /// Level of the output.
    pub out_rms_milli: u64,
    /// Median time of a hop, in microseconds.
    pub hop_p50_us: u64,
    /// 95th percentile of the time of a hop, in microseconds.
    pub hop_p95_us: u64,
    /// Hops so far.
    pub hops: u64,
    /// Hops that took longer than their audio.
    pub misses: u64,
    /// From a tone burst to its output, in milliseconds.
    pub internal_latency_ms: u64,
    /// Pitch shift; may be changed at any time.
    pub pitch: i32,
    /// Silence; may be changed at any time.
    pub mute: bool,
    /// The node that is captured from.
    pub capture_node: String,
}

impl Default for LiveStats {
    fn default() -> (r: Self)
        ensures
            r.in_rms_milli == 0,
            r.out_rms_milli == 0,
            r.hop_p50_us == 0,
            r.hop_p95_us == 0,
            r.hops == 0,
            r.misses == 0,
            r.internal_latency_ms == 0,
            r.pitch == 0,
            !r.mute,
            r.capture_node@ == Seq::<char>::empty(),
    {
        LiveStats {
            in_rms_milli: 0,
            out_rms_milli: 0,
            hop_p50_us: 0,
            hop_p95_us: 0,
            hops: 0,
            misses: 0,
            internal_latency_ms: 0,
            pitch: 0,
            mute: false,
            capture_node: String::new(),
        }
    }
}

/// The path `rel` below the directory `root`.
pub open spec fn below(root: Seq<char>, rel: Seq<char>) -> Seq<char> {
    if root.len() == 0 || root.last() == '/' {
        root + rel
    } else {
        root.push('/') + rel
    }
}

/// The relative path `rel` below the directory `root`.
pub fn join_path(root: &str, rel: &str) -> (r: String)
    ensures
        r@ == below(root@, rel@),
{
    let mut r = root.to_owned();
    let len: usize = root.unicode_len();
    if len > 0 && root.get_char(len - 1) != '/' {
        proof {
            reveal_strlit("/");
        }
        r.append("/");
        assert(r@ =~= root@.push('/'));
    }
    r.append(rel);
    r
}

/// The places in which the models may lie, in the order in which they are tried: the working
/// directory, then the directory of the executable and those above it.
pub open spec fn candidates(cwd: Option<Seq<char>>, above_exe: Seq<Seq<char>>) -> Seq<Seq<char>> {
    match cwd {
        Some(p) => seq![p] + above_exe,
        None => above_exe,
    }
}

/// `is_root` may answer `answer` for the path `path`.
pub open spec fn answers_root<F: Fn(&String) -> bool>(
    is_root: F,
    path: Seq<char>,
    answer: bool,
) -> bool {
    exists|p: String| #[trigger] call_ensures(is_root, (&p,), answer) && p@ == path
}

/// The file by which the root directory is known, below `path`.
pub fn root_marker(path: &str) -> (r: String)
    ensures
        r@ == below(path@, "server/pretrain/content_vec_500.onnx"@),
{
    join_path(path, "server/pretrain/content_vec_500.onnx")
}

/// The root directory: the first of the working directory, the executable's directory and those
/// above it that `is_root` accepts.
pub fn find_repo_root<F: Fn(&String) -> bool>(
    cwd: Option<String>,
    above_exe: &Vec<String>,
    is_root: &F,
) -> (r: Option<String>)
    requires
        forall|p: String| #[trigger] call_requires(*is_root, (&p,)),
    ensures
        ({
            let all = candidates(opt_view(cwd), views(above_exe@));
            match r {
                Some(root) => exists|k: int|
                    {
                        &&& 0 <= k < all.len()
                        &&& root@ == #[trigger] all[k]
                        &&& answers_root(*is_root, all[k], true)
                        &&& forall|j: int|
                            0 <= j < k ==> answers_root(*is_root, #[trigger] all[j], false)
                    },
                None => forall|j: int|
                    0 <= j < all.len() ==> answers_root(*is_root, #[trigger] all[j], false),
            }
        }),
{
    let ghost all = candidates(opt_view(cwd), views(above_exe@));
    let ghost skip: int = if cwd is Some {
        1
    } else {
        0
    };
    if let Some(p) = cwd {
        if is_root(&p) {
            assert(all[0] == p@);
            assert(answers_root(*is_root, p@, true));
            return Some(p);
        }
        assert(answers_root(*is_root, p@, false));
    }
    let mut i: usize = 0;
    while i < above_exe.len()
        invariant
            forall|p: String| #[trigger] call_requires(*is_root, (&p,)),
            all == candidates(opt_view(cwd), views(above_exe@)),
            i <= above_exe@.len(),
            0 <= skip <= 1,
            all.len() == above_exe@.len() + skip,
            forall|j: int| 0 <= j < above_exe@.len() ==> all[j + skip] == #[trigger] above_exe@[j]@,
            forall|j: int| 0 <= j < i + skip ==> answers_root(*is_root, #[trigger] all[j], false),
        decreases above_exe@.len() - i,
    {
        let p = above_exe[i].clone();
        assert(p@ == all[i + skip]);
        if is_root(&p) {
            assert(answers_root(*is_root, all[i + skip], true));
            return Some(p);
        }
        assert(answers_root(*is_root, p@, false));
        i += 1;
    }
    None
}

/// What the engine is built from.
pub struct EnginePlan<T> {
    /// Where the models lie.
    pub engine: EngineCfg<T>,
    /// Layout of the window.
    pub stream: StreamCfg,
}

/// The root directory was not found.
#[derive(Clone, Copy, Debug, PartialEq, Eq, Structural)]
pub struct NoRoot;

/// The search range of the live path, in 16 kHz samples.
pub const LIVE_SEARCH: usize = 320;

/// What the engine of a live configuration is built from; `None` if the microphone goes through
/// as it is. Without a root directory there is no engine.
pub fn build_engine<T>(cfg: &LiveConfig, root: Option<String>) -> (r: Result<
    Option<EnginePlan<T>>,
    NoRoot,
>)
    ensures
        match r {
            Ok(None) => cfg.passthrough,
            Err(_) => !cfg.passthrough && root is None,
            Ok(Some(plan)) => {
                let dir = root->Some_0@;
                &&& !cfg.passthrough
                &&& root is Some
                &&& plan.engine.contentvec_onnx@ == below(
                    dir,
                    "server/pretrain/content_vec_500.onnx"@,
                )
                &&& plan.engine.fcpe_onnx@ == below(dir, "native/golden/fcpe_fp32.onnx"@)
                &&& plan.engine.synth_onnx@ == below(
                    dir,
                    "native/golden/synth_alexjones_fp32.onnx"@,
                )
                &&& plan.engine.frontend_npz@ == below(dir, "native/golden/fcpe_frontend.npz"@)
                &&& plan.engine.upp == 400
                &&& plan.engine.out_sr == 40000
                &&& plan.engine.f0_threshold is Standard
                &&& plan.stream == (StreamCfg {
                    block: cfg.block,
                    ctx_left: cfg.ctx_left,
                    crossfade: cfg.crossfade,
                    sola_search: LIVE_SEARCH,
                    lookahead: cfg.lookahead,
                    pitch_semitones: cfg.pitch,
                    seed: cfg.seed,
                })
                &&& plan.stream.sola_search == 320
            },
        },
{
    if cfg.passthrough {
        return Ok(None);
    }
    let root = match root {
        Some(root) => root,
        None => {
            return Err(NoRoot);
        },
    };
    let base: EngineCfg<T> = EngineCfg::default();
    let engine = EngineCfg {
        contentvec_onnx: join_path(root.as_str(), "server/pretrain/content_vec_500.onnx"),
        fcpe_onnx: join_path(root.as_str(), "native/golden/fcpe_fp32.onnx"),
        synth_onnx: join_path(root.as_str(), "native/golden/synth_alexjones_fp32.onnx"),
        frontend_npz: join_path(root.as_str(), "native/golden/fcpe_frontend.npz"),
        upp: base.upp,
        out_sr: base.out_sr,
        f0_threshold: base.f0_threshold,
    };
    let stream = StreamCfg {
        block: cfg.block,
        ctx_left: cfg.ctx_left,
        crossfade: cfg.crossfade,
        sola_search: LIVE_SEARCH,
        lookahead: cfg.lookahead,
        pitch_semitones: cfg.pitch,
        seed: cfg.seed,
    };
    Ok(Some(EnginePlan { engine, stream }))
}

/// What happened while the live path starts.
#[derive(Clone, Copy, Debug, PartialEq, Eq, Structural)]
pub enum StartEvent {
    /// A start was asked for.
    Asked,
    /// The engine was built, or could not be.
    EngineBuilt(bool),
    /// The virtual microphone was created, or could not be.
    MicCreated(bool),
}

/// What to do next while the live path starts.
#[derive(Clone, Copy, Debug, PartialEq, Eq, Structural)]
pub enum StartStep {
    /// Build the engine.
    BuildEngine,
    /// Create the virtual microphone.
    CreateMic,
    /// Run the worker and the streams.
    RunStreams,
    /// Give up; nothing is left behind.
    GiveUp,
}

/// How far the start of the live path has come.
#[derive(Clone, Copy, Debug, PartialEq, Eq, Structural)]
pub struct Startup {
    /// The engine is there, or is not wanted.
    pub engine: bool,
    /// The virtual microphone is there.
    pub mic: bool,
}

impl Startup {
    /// The sound server's graph is not touched before the engine is there.
    pub open spec fn wf(&self) -> bool {
        self.mic ==> self.engine
    }

    /// How far the start has come after an event, and what to do then.
    pub open spec fn after(self, event: StartEvent) -> (Startup, StartStep) {
        match event {
            StartEvent::Asked => (Startup { engine: false, mic: false }, StartStep::BuildEngine),
            StartEvent::EngineBuilt(ok) => (
                Startup { engine: ok, mic: false },
                if ok {
                    StartStep::CreateMic
                } else {
                    StartStep::GiveUp
                },
            ),
            StartEvent::MicCreated(ok) => (
                Startup { mic: ok && self.engine, ..self },
                if ok && self.engine {
                    StartStep::RunStreams
                } else {
                    StartStep::GiveUp
                },
            ),
        }
    }

    /// Nothing has been done.
    pub fn new() -> (r: Self)
        ensures
            r.wf(),
            r == (Startup { engine: false, mic: false }),
    {
        Startup { engine: false, mic: false }
    }

    /// What to do after an event. The engine is built before anything of the sound server is
    /// touched, so that a failure to build it leaves nothing behind.
    pub fn next(&mut self, event: StartEvent) -> (r: StartStep)
        requires
            old(self).wf(),
        ensures
            final(self).wf(),
            match event {
                StartEvent::Asked => {
                    &&& r == StartStep::BuildEngine
                    &&& *final(self) == (Startup { engine: false, mic: false })
                },
                StartEvent::EngineBuilt(ok) => {
                    &&& r == if ok {
                        StartStep::CreateMic
                    } else {
                        StartStep::GiveUp
                    }
                    &&& *final(self) == (Startup { engine: ok, mic: false })
                },
                StartEvent::MicCreated(ok) => {
                    &&& r == if ok && old(self).engine {
                        StartStep::RunStreams
                    } else {
                        StartStep::GiveUp
                    }
                    &&& *final(self) == (Startup {
                        mic: ok && old(self).engine,
                        ..*old(self)
                    })
                },
            },
            (*final(self), r) == old(self).after(event),
            r == StartStep::CreateMic || r == StartStep::RunStreams ==> final(self).engine,
            r == StartStep::RunStreams ==> final(self).mic,
    {
        match event {
            StartEvent::Asked => {
                self.engine = false;
                self.mic = false;
                StartStep::BuildEngine
            },
            StartEvent::EngineBuilt(ok) => {
                self.engine = ok;
                self.mic = false;
                if ok {
                    StartStep::CreateMic
                } else {
                    StartStep::GiveUp
                }
            },
            StartEvent::MicCreated(ok) => {
                self.mic = ok && self.engine;
                if self.mic {
                    StartStep::RunStreams
                } else {
                    StartStep::GiveUp
                }
            },
        }
    }
}

/// Tries to find the node of a new virtual microphone.
pub const NODE_TRIES: u32 = 10;

/// Whether to look once more for the node of the virtual microphone, after `tries` looks: a new
/// node may be late in the sound server's dump.
pub fn look_again(tries: u32, found: bool) -> (r: bool)
    ensures
        r == (!found && tries < NODE_TRIES),
        found || tries >= 10 ==> !r,
        !found && tries < 10 ==> r,
{
    !found && tries < NODE_TRIES
}

/// Whether to log the missed hops, when their number has gone from `before` to `after`: every
/// tenth one is logged.
pub fn logs_misses(before: u64, after: u64) -> (r: bool)
    ensures
        r == (after > before && after % 10 == 0),
        after == before ==> !r,
        r ==> 10 * (after as int / 10) == after,
{
    after > before && after % 10 == 0
}

/// What is shown for the node that is captured from.
pub fn capture_label(target: &Option<String>) -> (r: String)
    ensures
        r@ == match *target {
            Some(t) => t@,
            None => "(default)"@,
        },
{
    match target {
        Some(t) => t.clone(),
        None => "(default)".to_owned(),
    }
}

/// The node that playback aims at: the serial of the virtual microphone, or its name.
pub fn play_target(nodes: &Vec<PwNode>, mic_name: &String) -> (r: String)
    ensures
        r@ == match serial_of(node_views(nodes@), mic_name@) {
            Some(s) => s,
            None => mic_name@,
        },
{
    match node_serial(nodes, mic_name.as_str()) {
        Some(s) => s,
        None => mic_name.clone(),
    }
}

/// Samples between the starts of two tone bursts: two seconds.
pub const TONE_PERIOD: u64 = 32000;

/// Samples of a tone burst: a tenth of a second.
pub const TONE_BURST: u64 = 1600;

/// Sample number `at` of the test tone: a burst of 1 kHz at half scale every two seconds.
pub open spec fn tone_sample<T>(n: Num<T>, at: int) -> T {
    let phase = at % (TONE_PERIOD as int);
    if phase < TONE_BURST {
        let turn = n.times(n.times(n.integer(2), n.pi()), n.integer(1000));
        let angle = n.over(n.times(turn, n.count(phase as u64)), n.integer(16000));
        n.times(n.ratio(1, 2), n.sin(angle))
    } else {
        n.zero()
    }
}

/// `len` samples of the test tone from sample number `from` on.
pub open spec fn tone_block<T>(n: Num<T>, from: int, len: nat) -> Seq<T> {
    Seq::new(len, |i: int| tone_sample(n, from + i))
}

/// A burst starts within the `len` samples from sample number `from` on.
pub open spec fn burst_starts(from: int, len: int) -> bool {
    exists|i: int| 0 <= i < len && #[trigger] (from + i) % (TONE_PERIOD as int) == 0
}

/// Where sample `i` of `count` falls among `len` samples.
pub open spec fn stretch_position<T>(n: Num<T>, i: int, count: int, len: int) -> T {
    n.over(
        n.times(n.count(i as u64), n.minus(n.count(len as u64), n.integer(1))),
        n.minus(n.count(count as u64), n.integer(1)),
    )
}

/// Sample `i` of `xs`, stretched to `count` samples: between its two neighbours, in proportion.
pub open spec fn stretched_sample<T>(n: Num<T>, xs: Seq<T>, count: int, i: int) -> T {
    let pos = stretch_position(n, i, count, xs.len() as int);
    let j = n.cut(pos, 0, xs.len() - 1);
    let k = if j + 1 < xs.len() {
        j + 1
    } else {
        xs.len() - 1
    };
    let f = n.minus(pos, n.count(j as u64));
    n.plus(n.times(xs[j], n.minus(n.integer(1), f)), n.times(xs[k], f))
}

/// `xs`, stretched to `count` samples.
pub open spec fn stretched<T>(n: Num<T>, xs: Seq<T>, count: nat) -> Seq<T> {
    Seq::new(count, |i: int| stretched_sample(n, xs, count as int, i))
}

/// Stretches samples linearly to a greater number of samples.
pub fn stretch<T: Copy, O: Fn(Op<T>) -> T, G: Fn(T, T) -> Rel, Z: Fn(T) -> i128>(
    ar: &Arith<T, O, G, Z>,
    xs: &[T],
    count: usize,
) -> (r: Vec<T>)
    requires
        ar.wf(),
        count > 0 ==> xs@.len() > 0,
    ensures
        r@ == stretched(ar.model@, xs@, count as nat),
{
    let ghost n = ar.model@;
    let len: usize = xs.len();
    let one = ar.integer(1);
    let steps = ar.minus(ar.count(len as u64), one);
    let span = ar.minus(ar.count(count as u64), one);
    let mut r: Vec<T> = Vec::new();
    while r.len() < count
        invariant
            ar.wf(),
            n == ar.model@,
            len == xs@.len(),
            count > 0 ==> len > 0,
            one == n.integer(1),
            steps == n.minus(n.count(len as u64), one),
            span == n.minus(n.count(count as u64), one),
            r@.len() <= count,
            r@ == stretched(n, xs@, count as nat).take(r@.len() as int),
        decreases count - r@.len(),
    {
        let i: usize = r.len();
        let pos = ar.over(ar.times(ar.count(i as u64), steps), span);
        let j: usize = ar.cut(pos, 0, (len - 1) as i128) as usize;
        let k: usize = if j + 1 < len {
            j + 1
        } else {
            len - 1
        };
        let f = ar.minus(pos, ar.count(j as u64));
        let v = ar.plus(ar.times(xs[j], ar.minus(one, f)), ar.times(xs[k], f));
        assert(v == stretched_sample(n, xs@, count as int, i as int));
        r.push(v);
    }
    assert(stretched(n, xs@, count as nat).take(count as int) =~= stretched(
        n,
        xs@,
        count as nat,
    ));
    r
}

/// `count` samples of silence.
pub open spec fn silence<T>(n: Num<T>, count: nat) -> Seq<T> {
    Seq::new(count, |i: int| n.zero())
}

fn zeros<T: Copy>(zero: T, count: usize) -> (r: Vec<T>)
    ensures
        r@ == Seq::new(count as nat, |i: int| zero),
{
    let mut r: Vec<T> = Vec::new();
    while r.len() < count
        invariant
            r@.len() <= count,
            r@ == Seq::new(r@.len(), |i: int| zero),
        decreases count - r@.len(),
    {
        r.push(zero);
    }
    r
}

/// A level in thousandths.
pub open spec fn milli<T>(n: Num<T>, level: T) -> int {
    n.cut(n.times(level, n.integer(1000)), 0, u64::MAX as int)
}

fn to_milli<T: Copy, O: Fn(Op<T>) -> T, G: Fn(T, T) -> Rel, Z: Fn(T) -> i128>(
    ar: &Arith<T, O, G, Z>,
    level: T,
) -> (r: u64)
    requires
        ar.wf(),
    ensures
        r == milli(ar.model@, level),
{
    let thousand = ar.integer(1000);
    ar.cut(ar.times(level, thousand), 0, u64::MAX as i128) as u64
}

/// Samples of input that are dumped: half a minute.
pub const DUMP_LEN: usize = 480_000;

/// Hops over which times are taken.
pub const HOP_WINDOW: usize = 64;

/// The last [`HOP_WINDOW`] of `times`.
pub open spec fn recent(times: Seq<u64>) -> Seq<u64> {
    if times.len() > HOP_WINDOW {
        times.skip(1)
    } else {
        times
    }
}

/// A hop over `block` samples that took `ns` nanoseconds took longer than its audio.
pub open spec fn late(block: int, ns: int) -> bool {
    ns * 16 > block * 1_000_000
}

/// `xs`, or its last `count` elements where it has more.
pub open spec fn kept<T>(xs: Seq<T>, count: nat) -> Seq<T> {
    if xs.len() > count {
        xs.skip(xs.len() - count)
    } else {
        xs
    }
}

/// `count` samples that fade out: `last`, weighted by the ramp-out, and zeros behind it.
pub open spec fn crossfaded_silence<T>(n: Num<T>, last: Seq<T>, count: nat) -> Seq<T> {
    Seq::new(
        count,
        |i: int|
            if i < last.len() {
                n.times(last[i], ramp_out(n, i, last.len() as int))
            } else {
                n.zero()
            },
    )
}

/// Fades `last` out into `count` samples.
fn fade_to_silence<T: Copy, O: Fn(Op<T>) -> T, G: Fn(T, T) -> Rel, Z: Fn(T) -> i128>(
    ar: &Arith<T, O, G, Z>,
    last: &Vec<T>,
    count: usize,
) -> (r: Vec<T>)
    requires
        ar.wf(),
    ensures
        r@ == crossfaded_silence(ar.model@, last@, count as nat),
{
    let ghost n = ar.model@;
    let zero = ar.zero();
    let len: usize = last.len();
    let mut r: Vec<T> = Vec::new();
    while r.len() < count
        invariant
            ar.wf(),
            n == ar.model@,
            zero == n.zero(),
            len == last@.len(),
            r@.len() <= count,
            r@ == crossfaded_silence(n, last@, count as nat).take(r@.len() as int),
        decreases count - r@.len(),
    {
        let i: usize = r.len();
        let v = if i < len {
            ar.times(last[i], fading(ar, i, len))
        } else {
            zero
        };
        assert(v == crossfaded_silence(n, last@, count as nat)[i as int]);
        r.push(v);
    }
    assert(crossfaded_silence(n, last@, count as nat).take(count as int) =~= crossfaded_silence(
        n,
        last@,
        count as nat,
    ));
    r
}

/// The worker between the two rings.
pub struct Worker<T> {
    /// Block size in 16 kHz samples.
    pub block: usize,
    /// Output samples over which a missed hop fades out.
    pub fade: usize,
    /// The last samples that were sent, as many as fade out.
    pub last: Vec<T>,
    /// Tone bursts in place of the microphone.
    pub tone: bool,
    /// No conversion.
    pub passthrough: bool,
    /// The input is dumped.
    pub dumping: bool,
    /// Input that was dumped so far.
    pub dump: Vec<T>,
    /// Samples taken so far.
    pub total_in: u64,
    /// When the last tone burst started that has not come out yet, in nanoseconds.
    pub burst: Option<u64>,
    /// Times of the last hops, in nanoseconds.
    pub hop_win: Vec<u64>,
    /// Playback has begun.
    pub warm: bool,
    /// Figures and controls.
    pub stats: LiveStats,
}

impl<T: Copy> Worker<T> {
    /// The window of times and the samples that fade out are not over-full.
    pub open spec fn wf(&self) -> bool {
        &&& self.block * 5 <= usize::MAX
        &&& self.last@.len() <= self.fade
        &&& self.hop_win@.len() <= HOP_WINDOW
    }

    /// A worker that has done nothing yet. A missed hop fades out over the crossfade, or over
    /// the block where that is shorter.
    pub fn new(cfg: &LiveConfig, capture_node: String) -> (r: Self)
        requires
            cfg.block * 5 <= usize::MAX,
        ensures
            r.wf(),
            r.block == cfg.block,
            r.fade == (if cfg.crossfade < cfg.block {
                cfg.crossfade
            } else {
                cfg.block
            }) * 5 / 2,
            2 * r.fade <= 5 * cfg.crossfade,
            2 * r.fade <= 5 * cfg.block,
            5 * cfg.crossfade < 2 * (r.fade + 1) || 5 * cfg.block < 2 * (r.fade + 1),
            r.last@.len() == 0,
            r.tone == cfg.tone,
            r.passthrough == cfg.passthrough,
            r.dumping == (cfg.dump_input is Some),
            r.dump@.len() == 0,
            r.total_in == 0,
            r.burst is None,
            r.hop_win@.len() == 0,
            !r.warm,
            r.stats.hops == 0,
            r.stats.misses == 0,
            r.stats.pitch == cfg.pitch,
            !r.stats.mute,
            r.stats.capture_node == capture_node,
    {
        let mut stats = LiveStats::default();
        stats.pitch = cfg.pitch;
        stats.capture_node = capture_node;
        let shorter: usize = if cfg.crossfade < cfg.block {
            cfg.crossfade
        } else {
            cfg.block
        };
        Worker {
            block: cfg.block,
            fade: shorter * 5 / 2,
            last: Vec::new(),
            tone: cfg.tone,
            passthrough: cfg.passthrough,
            dumping: cfg.dump_input.is_some(),
            dump: Vec::new(),
            total_in: 0,
            burst: None,
            hop_win: Vec::new(),
            warm: false,
            stats,
        }
    }

    /// Puts the test tone in place of the captured block, and notes when a burst starts.
    fn overlay_tone<O: Fn(Op<T>) -> T, G: Fn(T, T) -> Rel, Z: Fn(T) -> i128>(
        &mut self,
        ar: &Arith<T, O, G, Z>,
        inbuf: &mut Vec<T>,
        now: u64,
    )
        requires
            ar.wf(),
            old(self).total_in + old(inbuf)@.len() <= u64::MAX,
        ensures
            *final(self) == (Worker { burst: final(self).burst, ..*old(self) }),
            final(inbuf)@ == tone_block(
                ar.model@,
                old(self).total_in as int,
                old(inbuf)@.len(),
            ),
            final(self).burst == if burst_starts(
                old(self).total_in as int,
                old(inbuf)@.len() as int,
            ) {
                Some(now)
            } else {
                old(self).burst
            },
    {
        let ghost n = ar.model@;
        let ghost from = self.total_in as int;
        let ghost before = *self;
        let len: usize = inbuf.len();
        let zero = ar.zero();
        let half = ar.ratio(1, 2);
        let turn = ar.times(ar.times(ar.integer(2), ar.eval(Op::Pi)), ar.integer(1000));
        let rate = ar.integer(16000);
        let mut i: usize = 0;
        while i < len
            invariant
                ar.wf(),
                n == ar.model@,
                len == inbuf@.len(),
                i <= len,
                before.total_in + len <= u64::MAX,
                from == before.total_in,
                *self == (Worker { burst: self.burst, ..before }),
                zero == n.zero(),
                half == n.ratio(1, 2),
                turn == n.times(n.times(n.integer(2), n.pi()), n.integer(1000)),
                rate == n.integer(16000),
                forall|j: int| 0 <= j < i ==> #[trigger] inbuf@[j] == tone_sample(n, from + j),
                self.burst == if burst_starts(from, i as int) {
                    Some(now)
                } else {
                    before.burst
                },
            decreases len - i,
        {
            let at: u64 = self.total_in + i as u64;
            let phase: u64 = at % TONE_PERIOD;
            assert(at == from + i);
            let v = if phase < TONE_BURST {
                if phase == 0 {
                    self.burst = Some(now);
                }
                let angle = ar.over(ar.times(turn, ar.count(phase)), rate);
                ar.times(half, ar.eval(Op::Sin(angle)))
            } else {
                zero
            };
            inbuf[i] = v;
            proof {
                if phase == 0 {
                    assert((from + i) % (TONE_PERIOD as int) == 0);
                    assert(burst_starts(from, i + 1));
                } else if burst_starts(from, i + 1) {
                    let k = choose|k: int|
                        0 <= k < i + 1 && #[trigger] (from + k) % (TONE_PERIOD as int) == 0;
                    assert(k < i);
                    assert(burst_starts(from, i as int));
                } else if burst_starts(from, i as int) {
                    let k = choose|k: int|
                        0 <= k < i && #[trigger] (from + k) % (TONE_PERIOD as int) == 0;
                    assert(burst_starts(from, i + 1));
                }
            }
            i += 1;
        }
        assert(inbuf@ =~= tone_block(n, from, len as nat));
    }

    /// What becomes of a block of input `inbuf`, taken at the time `now`: the worker becomes
    /// `next`, the block becomes `block`, and the dump becomes complete or not.
    pub open spec fn takes(
        self,
        n: Num<T>,
        inbuf: Seq<T>,
        now: u64,
        next: Self,
        block: Seq<T>,
        dumped: bool,
    ) -> bool {
        &&& block == if self.tone {
            tone_block(n, self.total_in as int, self.block as nat)
        } else {
            inbuf
        }
        &&& next.burst == if self.tone && burst_starts(self.total_in as int, self.block as int) {
            Some(now)
        } else {
            self.burst
        }
        &&& next.stats.in_rms_milli == milli(n, rms_of(n, block))
        &&& next.dump@ == if self.dumping && self.dump@.len() < DUMP_LEN {
            self.dump@ + block
        } else {
            self.dump@
        }
        &&& dumped == (self.dumping && self.dump@.len() < DUMP_LEN && next.dump@.len() >= DUMP_LEN)
        &&& next == (Worker {
            burst: next.burst,
            total_in: (self.total_in + self.block) as u64,
            dump: next.dump,
            stats: LiveStats { in_rms_milli: next.stats.in_rms_milli, ..self.stats },
            ..self
        })
    }

    /// Takes a full block of input: puts the test tone in its place if that is wanted, and notes
    /// its level. Tells whether the dump has just become complete.
    pub fn take_block<O: Fn(Op<T>) -> T, G: Fn(T, T) -> Rel, Z: Fn(T) -> i128>(
        &mut self,
        ar: &Arith<T, O, G, Z>,
        inbuf: &mut Vec<T>,
        now: u64,
    ) -> (dumped: bool)
        requires
            ar.wf(),
            old(self).wf(),
            old(inbuf)@.len() == old(self).block,
            old(self).total_in + old(self).block <= u64::MAX,
        ensures
            final(self).wf(),
            final(inbuf)@.len() == old(self).block,
            old(self).takes(ar.model@, old(inbuf)@, now, *final(self), final(inbuf)@, dumped),
    {
        if self.tone {
            self.overlay_tone(ar, inbuf, now);
        }
        self.total_in = self.total_in + self.block as u64;
        let level = rms(ar, inbuf.as_slice());
        self.stats.in_rms_milli = to_milli(ar, level);
        if self.dumping && self.dump.len() < DUMP_LEN {
            push_all(&mut self.dump, inbuf.as_slice());
            assert(self.dump@ =~= old(self).dump@ + inbuf@);
            self.dump.len() >= DUMP_LEN
        } else {
            false
        }
    }

    /// What a hop gives for the reply `r` of the stream: its block; nothing while it warms up;
    /// silence where it failed.
    pub open spec fn hop_output<E>(
        &self,
        n: Num<T>,
        r: Result<Option<Vec<T>>, StreamError<E>>,
    ) -> Seq<T> {
        match r {
            Ok(Some(b)) => b@,
            Ok(None) => Seq::empty(),
            Err(_) => silence(n, (self.block * 5 / 2) as nat),
        }
    }

    /// `out`, or as much silence if the output is muted.
    pub open spec fn audible(&self, n: Num<T>, out: Seq<T>) -> Seq<T> {
        if self.stats.mute {
            silence(n, out.len())
        } else {
            out
        }
    }

    /// What the stream makes of a block: the stream takes the pitch shift that is set and
    /// becomes `next`; the hop gives `out`, and the stream's complaint if it failed.
    pub open spec fn converts<
        E,
        CV: Fn(&Vec<T>) -> Result<Features<T>, E>,
        FF: Fn(&Vec<T>) -> Result<Vec<(T, T)>, E>,
        FC: Fn(&Vec<Vec<T>>) -> Result<Latent<T>, E>,
        SY: Fn(&SynthInputs<T>) -> Result<Vec<T>, E>,
        W: Copy,
        WO: Fn(Op<W>) -> W,
        WG: Fn(W, W) -> Rel,
        WZ: Fn(W) -> i128,
        NR: Fn(W) -> T,
    >(
        &self,
        n: Num<T>,
        s: Sessions<CV, FF, FC, SY, W, WO, WG, WZ, NR>,
        stream: StreamEngine<T>,
        block: Seq<T>,
        next: StreamEngine<T>,
        out: Seq<T>,
        failure: Option<StreamError<E>>,
    ) -> bool {
        exists|reply: Result<Option<Vec<T>>, StreamError<E>>|
            {
                &&& #[trigger] stream.with_pitch(self.stats.pitch).pushes(n, s, block, next, reply)
                &&& out == self.hop_output(n, reply)
                &&& failure == match reply {
                    Ok(_) => None,
                    Err(e) => Some(e),
                }
            }
    }

    /// What a hop makes of a block: the stream's output where there is a stream; else the block
    /// itself, stretched to the output rate.
    pub open spec fn turns<
        E,
        CV: Fn(&Vec<T>) -> Result<Features<T>, E>,
        FF: Fn(&Vec<T>) -> Result<Vec<(T, T)>, E>,
        FC: Fn(&Vec<Vec<T>>) -> Result<Latent<T>, E>,
        SY: Fn(&SynthInputs<T>) -> Result<Vec<T>, E>,
        W: Copy,
        WO: Fn(Op<W>) -> W,
        WG: Fn(W, W) -> Rel,
        WZ: Fn(W) -> i128,
        NR: Fn(W) -> T,
    >(
        &self,
        n: Num<T>,
        s: Sessions<CV, FF, FC, SY, W, WO, WG, WZ, NR>,
        stream: Option<StreamEngine<T>>,
        block: Seq<T>,
        next: Option<StreamEngine<T>>,
        out: Seq<T>,
        failure: Option<StreamError<E>>,
    ) -> bool {
        match stream {
            Some(from) => next matches Some(to) && self.converts(
                n,
                s,
                from,
                block,
                to,
                out,
                failure,
            ),
            None => {
                &&& next is None
                &&& out == stretched(n, block, (self.block * 5 / 2) as nat)
                &&& failure is None
            },
        }
    }

    fn silenced<O: Fn(Op<T>) -> T, G: Fn(T, T) -> Rel, Z: Fn(T) -> i128>(
        &self,
        ar: &Arith<T, O, G, Z>,
        out: Vec<T>,
    ) -> (r: Vec<T>)
        requires
            ar.wf(),
        ensures
            r@ == self.audible(ar.model@, out@),
    {
        if self.stats.mute {
            zeros(ar.zero(), out.len())
        } else {
            out
        }
    }

    /// The output of a hop without conversion: the input, stretched to the output rate.
    pub fn pass_through<O: Fn(Op<T>) -> T, G: Fn(T, T) -> Rel, Z: Fn(T) -> i128>(
        &self,
        ar: &Arith<T, O, G, Z>,
        inbuf: &Vec<T>,
    ) -> (r: Vec<T>)
        requires
            ar.wf(),
            self.wf(),
            inbuf@.len() == self.block,
        ensures
            r@ == stretched(ar.model@, inbuf@, (self.block * 5 / 2) as nat),
    {
        stretch(ar, inbuf.as_slice(), self.block * 5 / 2)
    }

    /// The output of a hop with conversion, and the stream's complaint if it failed. The stream
    /// takes the pitch shift that is set at the time.
    pub fn convert_hop<
        O: Fn(Op<T>) -> T,
        G: Fn(T, T) -> Rel,
        Z: Fn(T) -> i128,
        E,
        CV: Fn(&Vec<T>) -> Result<Features<T>, E>,
        FF: Fn(&Vec<T>) -> Result<Vec<(T, T)>, E>,
        FC: Fn(&Vec<Vec<T>>) -> Result<Latent<T>, E>,
        SY: Fn(&SynthInputs<T>) -> Result<Vec<T>, E>,
        W: Copy,
        WO: Fn(Op<W>) -> W,
        WG: Fn(W, W) -> Rel,
        WZ: Fn(W) -> i128,
        NR: Fn(W) -> T,
    >(
        &self,
        ar: &Arith<T, O, G, Z>,
        s: &Sessions<CV, FF, FC, SY, W, WO, WG, WZ, NR>,
        stream: &mut StreamEngine<T>,
        inbuf: &Vec<T>,
    ) -> (r: (Vec<T>, Option<StreamError<E>>))
        requires
            ar.wf(),
            self.wf(),
            old(stream).ready::<E, CV, FF, FC, SY, W, WO, WG, WZ, NR>(*s),
            old(stream).cfg.block == self.block,
            inbuf@.len() == self.block,
        ensures
            final(stream).ready::<E, CV, FF, FC, SY, W, WO, WG, WZ, NR>(*s),
            final(stream).cfg.block == self.block,
            self.converts(ar.model@, *s, *old(stream), inbuf@, *final(stream), r.0@, r.1),
    {
        let ghost start = *stream;
        stream.set_pitch(self.stats.pitch);
        let ghost tuned = *stream;
        assert(tuned == start.with_pitch(self.stats.pitch));
        let reply = stream.push(ar, s, inbuf.as_slice());
        assert(tuned.pushes(ar.model@, *s, inbuf@, *stream, reply));
        let ghost said = reply;
        let (out, failure) = match reply {
            Ok(Some(b)) => (b, None),
            Ok(None) => {
                let none: Vec<T> = Vec::new();
                assert(none@ =~= Seq::<T>::empty());
                (none, None)
            },
            Err(e) => (zeros(ar.zero(), self.block * 5 / 2), Some(e)),
        };
        assert(out@ =~= self.hop_output(ar.model@, said));
        (out, failure)
    }

    /// A hop that took `ns` nanoseconds missed its deadline.
    pub open spec fn missed(&self, ns: u64) -> bool {
        late(self.block as int, ns as int) && !self.passthrough
    }

    /// What is sent for a hop that gave `out` and took `ns` nanoseconds: `out`; where the hop
    /// missed its deadline, as much as a block in place of it, in which what was sent last
    /// fades out; as much silence if the output is muted.
    pub open spec fn emitted(&self, n: Num<T>, out: Seq<T>, ns: u64) -> Seq<T> {
        if self.missed(ns) {
            self.audible(n, crossfaded_silence(n, self.last@, (self.block * 5 / 2) as nat))
        } else {
            self.audible(n, out)
        }
    }

    /// The worker with its output muted or not.
    pub open spec fn with_mute(self, muted: bool) -> Self {
        Worker { stats: LiveStats { mute: muted, ..self.stats }, ..self }
    }

    fn is_late(&self, ns: u64) -> (r: bool)
        ensures
            r == self.missed(ns),
    {
        ns as u128 * 16 > self.block as u128 * 1_000_000 && !self.passthrough
    }

    /// What to send for a hop that gave `out` and took `ns` nanoseconds.
    pub fn emit<O: Fn(Op<T>) -> T, G: Fn(T, T) -> Rel, Z: Fn(T) -> i128>(
        &self,
        ar: &Arith<T, O, G, Z>,
        out: Vec<T>,
        ns: u64,
    ) -> (r: Vec<T>)
        requires
            ar.wf(),
            self.wf(),
        ensures
            r@ == self.emitted(ar.model@, out@, ns),
    {
        if self.is_late(ns) {
            let faded = fade_to_silence(ar, &self.last, self.block * 5 / 2);
            self.silenced(ar, faded)
        } else {
            self.silenced(ar, out)
        }
    }

    /// The worker after a hop that took `ns` nanoseconds and for which `out` is sent.
    pub open spec fn finished(self, n: Num<T>, out: Seq<T>, ns: u64, now: u64, next: Self) -> bool {
        let times = recent(self.hop_win@.push(ns));
        let level = if out.len() == 0 {
            n.zero()
        } else {
            rms_of(n, out)
        };
        let heard = self.burst is Some && n.gt(level, n.ratio(2, 100));
        &&& next.hop_win@ == times
        &&& next.burst == if heard {
            None
        } else {
            self.burst
        }
        &&& next.warm == (self.warm || self.stats.hops + 1 >= 2)
        &&& next.stats.hops == self.stats.hops + 1
        &&& next.last@ == kept(self.last@ + out, self.fade as nat)
        &&& next.stats.misses == self.stats.misses + if self.missed(ns) {
            1int
        } else {
            0int
        }
        &&& exists|s: Seq<u64>|
            {
                &&& #[trigger] ordering_of(s, times)
                &&& s.len() == times.len()
                &&& next.stats.hop_p50_us == s[median_index(times.len() as int)] / 1000
                &&& next.stats.hop_p95_us == s[p95_index(times.len() as int)] / 1000
            }
        &&& next.stats.internal_latency_ms == if heard {
            between(self.burst->Some_0, now) as int / 1_000_000
        } else {
            self.stats.internal_latency_ms as int
        }
        &&& next.stats.out_rms_milli == if out.len() > 0 {
            milli(n, rms_of(n, out))
        } else {
            self.stats.out_rms_milli as int
        }
        &&& next == (Worker {
            last: next.last,
            hop_win: next.hop_win,
            burst: next.burst,
            warm: next.warm,
            stats: LiveStats {
                hops: next.stats.hops,
                misses: next.stats.misses,
                hop_p50_us: next.stats.hop_p50_us,
                hop_p95_us: next.stats.hop_p95_us,
                internal_latency_ms: next.stats.internal_latency_ms,
                out_rms_milli: next.stats.out_rms_milli,
                ..self.stats
            },
            ..self
        })
    }

    /// The silence to send before the output of a hop: two blocks before that of the first hop, so
    /// that playback begins with it.
    pub open spec fn priming(&self) -> int {
        if self.stats.hops == 0 {
            self.block * 5
        } else {
            0
        }
    }

    /// Keeps the last samples that were sent.
    fn keep_newest(&mut self, out: &Vec<T>)
        requires
            old(self).wf(),
        ensures
            final(self).last@ == kept(old(self).last@ + out@, old(self).fade as nat),
            *final(self) == (Worker { last: final(self).last, ..*old(self) }),
    {
        push_all(&mut self.last, out.as_slice());
        let len: usize = self.last.len();
        if len > self.fade {
            self.last = copied_range(self.last.as_slice(), len - self.fade, len);
            assert(self.last@ =~= kept(old(self).last@ + out@, old(self).fade as nat));
        }
    }

    /// Takes note of a hop that took `ns` nanoseconds and for which `out` is sent. Gives the
    /// number of silent samples to send before the output: two blocks, once, before the first
    /// output of all.
    pub fn finish<O: Fn(Op<T>) -> T, G: Fn(T, T) -> Rel, Z: Fn(T) -> i128>(
        &mut self,
        ar: &Arith<T, O, G, Z>,
        out: &Vec<T>,
        ns: u64,
        now: u64,
    ) -> (prime: usize)
        requires
            ar.wf(),
            old(self).wf(),
            old(self).stats.hops < u64::MAX,
            old(self).stats.misses < u64::MAX,
        ensures
            final(self).wf(),
            old(self).finished(ar.model@, out@, ns, now, *final(self)),
            prime == old(self).priming(),
    {
        let ghost n = ar.model@;
        let prime: usize = if self.stats.hops == 0 {
            self.block * 5
        } else {
            0
        };
        self.stats.hops = self.stats.hops + 1;
        if self.is_late(ns) {
            self.stats.misses = self.stats.misses + 1;
        }
        self.keep_newest(out);
        self.hop_win.push(ns);
        if self.hop_win.len() > HOP_WINDOW {
            let _ = self.hop_win.remove(0);
            assert(self.hop_win@ =~= recent(old(self).hop_win@.push(ns)));
        }
        let ghost times = recent(old(self).hop_win@.push(ns));
        if let Some((p50, p95)) = percentiles(&self.hop_win) {
            self.stats.hop_p50_us = p50 / 1000;
            self.stats.hop_p95_us = p95 / 1000;
        }
        let empty = out.len() == 0;
        let level = if empty {
            ar.zero()
        } else {
            rms(ar, out.as_slice())
        };
        if let Some(start) = self.burst {
            if ar.gt(level, ar.ratio(2, 100)) {
                self.stats.internal_latency_ms = time_between(start, now) / 1_000_000;
                self.burst = None;
            }
        }
        if !empty {
            self.stats.out_rms_milli = to_milli(ar, level);
        }
        if self.stats.hops >= 2 {
            self.warm = true;
        }
        prime
    }
}

/// `words` are bit patterns of `out`, one for one.
pub open spec fn patterns<T, B: Fn(T) -> u32>(bits: B, out: Seq<T>, words: Seq<u32>) -> bool {
    &&& words.len() == out.len()
    &&& forall|i: int| 0 <= i < out.len() ==> call_ensures(bits, (out[i],), #[trigger] words[i])
}

/// The times of a hop, by the clock: when its block was taken, when the work on it began and
/// ended, and when its output was looked at.
pub ghost struct HopTimes {
    /// The block was taken.
    pub taken: u64,
    /// The work began.
    pub begun: u64,
    /// The work ended.
    pub ended: u64,
    /// The output was looked at.
    pub seen: u64,
}

impl HopTimes {
    /// How long the work took.
    pub open spec fn work(self) -> u64 {
        between(self.begun, self.ended)
    }

    /// All times are from `clock`.
    pub open spec fn read_from<CK: Fn() -> u64>(self, clock: CK) -> bool {
        &&& call_ensures(clock, (), self.taken)
        &&& call_ensures(clock, (), self.begun)
        &&& call_ensures(clock, (), self.ended)
        &&& call_ensures(clock, (), self.seen)
    }
}

/// What one hop does, step by step; worker, stream and ring are given as they are before and
/// after it. The block is taken and turned into output; then the mute switch is looked at. What is
/// sent for the block is noted and offered to the ring, with the silence before it that playback
/// begins with.
pub open spec fn hop_does<
    T: Copy,
    E,
    CV: Fn(&Vec<T>) -> Result<Features<T>, E>,
    FF: Fn(&Vec<T>) -> Result<Vec<(T, T)>, E>,
    FC: Fn(&Vec<Vec<T>>) -> Result<Latent<T>, E>,
    SY: Fn(&SynthInputs<T>) -> Result<Vec<T>, E>,
    W: Copy,
    WO: Fn(Op<W>) -> W,
    WG: Fn(W, W) -> Rel,
    WZ: Fn(W) -> i128,
    NR: Fn(W) -> T,
    B: Fn(T) -> u32,
>(
    n: Num<T>,
    s: Sessions<CV, FF, FC, SY, W, WO, WG, WZ, NR>,
    bits: B,
    worker: (Worker<T>, Worker<T>),
    stream: (Option<StreamEngine<T>>, Option<StreamEngine<T>>),
    tx: (Producer<u32>, Producer<u32>),
    inbuf: Seq<T>,
    times: HopTimes,
    muted: bool,
    middle: Worker<T>,
    block: Seq<T>,
    out: Seq<T>,
    words: Seq<u32>,
    ok: Seq<bool>,
    dumped: bool,
    failure: Option<StreamError<E>>,
) -> bool {
    &&& worker.0.takes(n, inbuf, times.taken, middle, block, dumped)
    &&& middle.turns(n, s, stream.0, block, stream.1, out, failure)
    &&& middle.with_mute(muted).finished(
        n,
        middle.with_mute(muted).emitted(n, out, times.work()),
        times.work(),
        times.seen,
        worker.1,
    )
    &&& patterns(bits, middle.with_mute(muted).emitted(n, out, times.work()), words)
    &&& offered(tx.0, tx.1, Seq::new(middle.priming() as nat, |i: int| 0u32) + words, ok)
}

/// What one hop may do, whatever the clock, the ring and the outside work answer; worker,
/// stream, ring and block are given as they are before and after it.
pub open spec fn hop_may_do<
    T: Copy,
    E,
    CV: Fn(&Vec<T>) -> Result<Features<T>, E>,
    FF: Fn(&Vec<T>) -> Result<Vec<(T, T)>, E>,
    FC: Fn(&Vec<Vec<T>>) -> Result<Latent<T>, E>,
    SY: Fn(&SynthInputs<T>) -> Result<Vec<T>, E>,
    W: Copy,
    WO: Fn(Op<W>) -> W,
    WG: Fn(W, W) -> Rel,
    WZ: Fn(W) -> i128,
    NR: Fn(W) -> T,
    CK: Fn() -> u64,
    MU: Fn() -> bool,
    B: Fn(T) -> u32,
>(
    n: Num<T>,
    s: Sessions<CV, FF, FC, SY, W, WO, WG, WZ, NR>,
    clock: CK,
    mute: MU,
    bits: B,
    worker: (Worker<T>, Worker<T>),
    stream: (Option<StreamEngine<T>>, Option<StreamEngine<T>>),
    tx: (Producer<u32>, Producer<u32>),
    block: (Seq<T>, Seq<T>),
    dumped: bool,
    failure: Option<StreamError<E>>,
) -> bool {
    exists|
        times: HopTimes,
        muted: bool,
        middle: Worker<T>,
        out: Seq<T>,
        words: Seq<u32>,
        ok: Seq<bool>,
    |
        {
            &&& times.read_from(clock)
            &&& call_ensures(mute, (), muted)
            &&& #[trigger] hop_does::<T, E, CV, FF, FC, SY, W, WO, WG, WZ, NR, B>(
                n,
                s,
                bits,
                worker,
                stream,
                tx,
                block.0,
                times,
                muted,
                middle,
                block.1,
                out,
                words,
                ok,
                dumped,
                failure,
            )
        }
}

/// What was done may be done.
proof fn lemma_hop_done<
    T: Copy,
    E,
    CV: Fn(&Vec<T>) -> Result<Features<T>, E>,
    FF: Fn(&Vec<T>) -> Result<Vec<(T, T)>, E>,
    FC: Fn(&Vec<Vec<T>>) -> Result<Latent<T>, E>,
    SY: Fn(&SynthInputs<T>) -> Result<Vec<T>, E>,
    W: Copy,
    WO: Fn(Op<W>) -> W,
    WG: Fn(W, W) -> Rel,
    WZ: Fn(W) -> i128,
    NR: Fn(W) -> T,
    CK: Fn() -> u64,
    MU: Fn() -> bool,
    B: Fn(T) -> u32,
>(
    n: Num<T>,
    s: Sessions<CV, FF, FC, SY, W, WO, WG, WZ, NR>,
    clock: CK,
    mute: MU,
    bits: B,
    worker: (Worker<T>, Worker<T>),
    stream: (Option<StreamEngine<T>>, Option<StreamEngine<T>>),
    tx: (Producer<u32>, Producer<u32>),
    block: (Seq<T>, Seq<T>),
    times: HopTimes,
    muted: bool,
    middle: Worker<T>,
    out: Seq<T>,
    words: Seq<u32>,
    ok: Seq<bool>,
    dumped: bool,
    failure: Option<StreamError<E>>,
)
    requires
        times.read_from(clock),
        call_ensures(mute, (), muted),
        hop_does::<T, E, CV, FF, FC, SY, W, WO, WG, WZ, NR, B>(
            n,
            s,
            bits,
            worker,
            stream,
            tx,
            block.0,
            times,
            muted,
            middle,
            block.1,
            out,
            words,
            ok,
            dumped,
            failure,
        ),
    ensures
        hop_may_do::<T, E, CV, FF, FC, SY, W, WO, WG, WZ, NR, CK, MU, B>(
            n,
            s,
            clock,
            mute,
            bits,
            worker,
            stream,
            tx,
            block,
            dumped,
            failure,
        ),
{
}

/// The bit patterns of samples.
fn to_patterns<T: Copy, B: Fn(T) -> u32>(bits: &B, out: &Vec<T>) -> (r: Vec<u32>)
    requires
        forall|x: T| #[trigger] call_requires(*bits, (x,)),
    ensures
        patterns(*bits, out@, r@),
{
    let mut r: Vec<u32> = Vec::new();
    let len: usize = out.len();
    while r.len() < len
        invariant
            forall|x: T| #[trigger] call_requires(*bits, (x,)),
            len == out@.len(),
            r@.len() <= len,
            forall|i: int|
                0 <= i < r@.len() ==> call_ensures(*bits, (out@[i],), #[trigger] r@[i]),
        decreases len - r@.len(),
    {
        let w = bits(out[r.len()]);
        r.push(w);
    }
    r
}

impl<T: Copy> Worker<T> {
    /// One hop of the worker: takes a full block, converts it or passes it through, keeps the
    /// figures, and offers the output to the ring; where the conversion took longer than the
    /// block lasts, what was sent last fades out instead. Tells whether the dump has just become
    /// complete, and what the stream complained.
    pub fn hop<
        O: Fn(Op<T>) -> T,
        G: Fn(T, T) -> Rel,
        Z: Fn(T) -> i128,
        E,
        CV: Fn(&Vec<T>) -> Result<Features<T>, E>,
        FF: Fn(&Vec<T>) -> Result<Vec<(T, T)>, E>,
        FC: Fn(&Vec<Vec<T>>) -> Result<Latent<T>, E>,
        SY: Fn(&SynthInputs<T>) -> Result<Vec<T>, E>,
        W: Copy,
        WO: Fn(Op<W>) -> W,
        WG: Fn(W, W) -> Rel,
        WZ: Fn(W) -> i128,
        NR: Fn(W) -> T,
        CK: Fn() -> u64,
        MU: Fn() -> bool,
        B: Fn(T) -> u32,
    >(
        &mut self,
        ar: &Arith<T, O, G, Z>,
        s: &Sessions<CV, FF, FC, SY, W, WO, WG, WZ, NR>,
        stream: &mut Option<StreamEngine<T>>,
        inbuf: &mut Vec<T>,
        clock: &CK,
        mute: &MU,
        bits: &B,
        tx: &mut Producer<u32>,
    ) -> (r: (bool, Option<StreamError<E>>))
        requires
            ar.wf(),
            old(self).wf(),
            old(inbuf)@.len() == old(self).block,
            old(self).total_in + old(self).block <= u64::MAX,
            old(self).stats.hops < u64::MAX,
            old(self).stats.misses < u64::MAX,
            *old(stream) matches Some(se) ==> se.ready::<E, CV, FF, FC, SY, W, WO, WG, WZ, NR>(*s)
                && se.cfg.block == old(self).block,
            call_requires(*clock, ()),
            call_requires(*mute, ()),
            forall|x: T| #[trigger] call_requires(*bits, (x,)),
        ensures
            final(self).wf(),
            *final(stream) matches Some(se) ==> se.ready::<E, CV, FF, FC, SY, W, WO, WG, WZ, NR>(*s)
                && se.cfg.block == final(self).block,
            hop_may_do::<T, E, CV, FF, FC, SY, W, WO, WG, WZ, NR, CK, MU, B>(
                ar.model@,
                *s,
                *clock,
                *mute,
                *bits,
                (*old(self), *final(self)),
                (*old(stream), *final(stream)),
                (*old(tx), *final(tx)),
                (old(inbuf)@, final(inbuf)@),
                r.0,
                r.1,
            ),
    {
        let ghost n = ar.model@;
        let ghost (worker0, stream0, tx0) = (*self, *stream, *tx);
        let taken = clock();
        let dumped = self.take_block(ar, inbuf, taken);
        let ghost middle = *self;
        let begun = clock();
        let (out, failure) = match stream.take() {
            Some(mut se) => {
                let r = self.convert_hop(ar, s, &mut se, &*inbuf);
                *stream = Some(se);
                r
            },
            None => (self.pass_through(ar, &*inbuf), None),
        };
        assert(middle.turns(n, *s, stream0, inbuf@, *stream, out@, failure));
        let muted = mute();
        self.stats.mute = muted;
        let ended = clock();
        let ns = time_between(begun, ended);
        let seen = clock();
        let ghost given = out@;
        let sent = self.emit(ar, out, ns);
        let prime = self.finish(ar, &sent, ns, seen);
        let mut coded = to_patterns(bits, &sent);
        let ghost words = coded@;
        let mut all = zeros(0u32, prime);
        all.append(&mut coded);
        send(tx, all.as_slice());
        proof {
            let times = HopTimes { taken, begun, ended, seen };
            assert(all@ =~= Seq::new(prime as nat, |i: int| 0u32) + words);
            let ok = choose|ok: Seq<bool>| #[trigger] offered(tx0, *tx, all@, ok);
            assert(times.read_from(*clock));
            lemma_hop_done::<T, E, CV, FF, FC, SY, W, WO, WG, WZ, NR, CK, MU, B>(
                n,
                *s,
                *clock,
                *mute,
                *bits,
                (worker0, *self),
                (stream0, *stream),
                (tx0, *tx),
                (old(inbuf)@, inbuf@),
                times,
                muted,
                middle,
                given,
                words,
                ok,
                dumped,
                failure,
            );
        }
        (dumped, failure)
    }
}

/// The test tone repeats every two seconds.
pub proof fn law_tone_repeats<T>(n: Num<T>, at: int)
    ensures
        tone_sample(n, at + TONE_PERIOD) == tone_sample(n, at),
{
    assert((at + 32000) % 32000 == at % 32000) by (nonlinear_arith);
}

/// Playback begins with the second hop at the latest and never ends. The silence that it begins
/// with is sent once, before anything else.
pub proof fn law_playback_begins_once<T: Copy>(
    n: Num<T>,
    before: Worker<T>,
    out: Seq<T>,
    ns: u64,
    now: u64,
    after: Worker<T>,
)
    requires
        before.finished(n, out, ns, now, after),
    ensures
        before.warm ==> after.warm,
        before.stats.hops >= 1 ==> after.warm,
        !before.warm && before.stats.hops == 0 ==> !after.warm,
        after.priming() == 0,
{
}

/// A hop that missed its deadline sends a block of samples whatever the conversion gave, the
/// first of them faded out from what was sent last, and is counted.
pub proof fn law_missed_hop_fades_out<T: Copy>(
    n: Num<T>,
    before: Worker<T>,
    out: Seq<T>,
    ns: u64,
    now: u64,
    after: Worker<T>,
)
    requires
        before.finished(n, before.emitted(n, out, ns), ns, now, after),
        before.missed(ns),
    ensures
        before.emitted(n, out, ns).len() == before.block * 5 / 2,
        forall|i: int|
            0 <= i < before.block * 5 / 2 ==> #[trigger] before.emitted(n, out, ns)[i] == if i
                < before.last@.len() && !before.stats.mute {
                n.times(before.last@[i], ramp_out(n, i, before.last@.len() as int))
            } else {
                n.zero()
            },
        after.stats.misses == before.stats.misses + 1,
{
}

/// No more hops are late than there are hops.
pub proof fn law_misses_within_hops<T: Copy>(
    n: Num<T>,
    before: Worker<T>,
    out: Seq<T>,
    ns: u64,
    now: u64,
    after: Worker<T>,
)
    requires
        before.finished(n, out, ns, now, after),
        before.stats.misses <= before.stats.hops,
    ensures
        after.stats.misses <= after.stats.hops,
{
}

/// The test tone is a wave of 1 kHz at half scale for the first tenth of every two seconds of 16
/// kHz samples, beginning at zero, and silence for the rest.
pub proof fn law_tone_is_a_wave_in_bursts<T>(n: Num<T>, m: Reals<T>, at: int)
    requires
        m.computes(n),
        m.angles(n),
        at >= 0,
    ensures
        ({
            let phase = at % 32000;
            let x = m.of(tone_sample(n, at));
            &&& phase < 1600 ==> 2real * x == (m.sine)(
                2real * m.circle * ((phase as real) / 16real),
            )
            &&& phase >= 1600 ==> x == 0real
        }),
{
    let phase = at % 32000;
    lemma_integer(n, m, 2);
    lemma_integer(n, m, 1000);
    lemma_integer(n, m, 16000);
    assert(m.of(n.count(phase as u64)) == phase as real);
    assert(m.of(n.ratio(1, 2)) == (1i64 as real) / (2i64 as real));
    let (p, t) = (phase as real, m.circle);
    let x = (((2real * t) * 1000real) * p) / 16000real;
    assert(x == 2real * t * (p / 16real)) by (nonlinear_arith)
        requires
            x == (((2real * t) * 1000real) * p) / 16000real,
    ;
    let s = (m.sine)(x);
    assert(2real * ((1real / 2real) * s) == s) by (nonlinear_arith);
}

/// The place of a stretched sample among `len` samples: the first of `count` is at the first of
/// them, the last at the last, and all are equally far apart.
pub open spec fn place(i: int, count: int, len: int) -> real {
    ((i * (len - 1)) as real) / ((count - 1) as real)
}

/// A stretched sample lies on the line between the two samples on either side of its place.
pub proof fn law_stretching_follows_straight_lines<T>(
    n: Num<T>,
    m: Reals<T>,
    xs: Seq<T>,
    count: nat,
    i: int,
    j: int,
)
    requires
        m.computes(n),
        m.orders(n),
        m.cuts(n),
        1 < count <= u64::MAX,
        0 < xs.len() <= u64::MAX,
        0 <= i < count,
        0 <= j < xs.len(),
        j as real <= place(i, count as int, xs.len() as int) < j as real + 1real,
    ensures
        stretched(n, xs, count).len() == count,
        j + 1 < xs.len() ==> m.of(stretched(n, xs, count)[i]) == m.of(xs[j]) + (m.of(xs[j + 1])
            - m.of(xs[j])) * (place(i, count as int, xs.len() as int) - j as real),
        j + 1 == xs.len() ==> m.of(stretched(n, xs, count)[i]) == m.of(xs[j]),
{
    let len = xs.len() as int;
    let c = count as int;
    lemma_integer(n, m, 1);
    assert(m.of(n.count(i as u64)) == i as real);
    assert(m.of(n.count(len as u64)) == len as real);
    assert(m.of(n.count(c as u64)) == c as real);
    let pos = stretch_position(n, i, c, len);
    let (p, q) = ((i * (len - 1)) as real, (c - 1) as real);
    assert((i as real) * (len as real - 1real) == p) by {
        assert((i as real) * ((len - 1) as real) == (i * (len - 1)) as real) by (nonlinear_arith);
    }
    assert(q == c as real - 1real);
    assert(m.of(pos) == place(i, c, len));
    assert(cut_down(m.of(pos), (n.whole)(pos) as int));
    let w = (n.whole)(pos) as int;
    assert((j as real) < (far() as real));
    assert(j as real + 1real < (far() as real));
    assert(w == j) by {
        assert(w as real <= m.of(pos) < w as real + 1real);
    }
    assert(m.of(n.count(j as u64)) == j as real);
    let f = m.of(pos) - j as real;
    let a = m.of(xs[j]);
    if j + 1 < len {
        let b = m.of(xs[j + 1]);
        assert(a * (1real - f) + b * f == a + (b - a) * f) by (nonlinear_arith);
    } else {
        assert(a * (1real - f) + a * f == a) by (nonlinear_arith);
    }
}

/// The first and the last sample of a stretched block are those of the block.
pub proof fn law_stretching_keeps_the_ends<T>(n: Num<T>, m: Reals<T>, xs: Seq<T>, count: nat)
    requires
        m.computes(n),
        m.orders(n),
        m.cuts(n),
        1 < count <= u64::MAX,
        0 < xs.len() <= u64::MAX,
    ensures
        m.of(stretched(n, xs, count)[0]) == m.of(xs[0]),
        m.of(stretched(n, xs, count)[count - 1]) == m.of(xs.last()),
{
    let (c, len) = (count as int, xs.len() as int);
    let q = (c - 1) as real;
    assert(0 * (len - 1) == 0) by (nonlinear_arith);
    assert(0real / q == 0real) by (nonlinear_arith)
        requires
            q >= 1real,
    ;
    law_stretching_follows_straight_lines(n, m, xs, count, 0, 0);
    let (a, b) = (m.of(xs[0]), m.of(xs[if len > 1 {
        1
    } else {
        0int
    }]));
    assert((b - a) * 0real == 0real) by (nonlinear_arith);
    let l = (len - 1) as real;
    assert(((c - 1) * (len - 1)) as real == q * l) by (nonlinear_arith)
        requires
            q == (c - 1) as real,
            l == (len - 1) as real,
    ;
    assert((q * l) / q == l) by (nonlinear_arith)
        requires
            q >= 1real,
    ;
    law_stretching_follows_straight_lines(n, m, xs, count, c - 1, len - 1);
}

/// Levels are counted in whole thousandths, as far as they can be counted; what is less than
/// nothing counts nothing.
pub proof fn law_levels_are_whole_thousandths<T>(n: Num<T>, m: Reals<T>, level: T)
    requires
        m.computes(n),
        m.cuts(n),
    ensures
        ({
            let end = 0x1_0000_0000_0000_0000int as real;
            let (x, counted) = (1000real * m.of(level), milli(n, level) as real);
            &&& x <= 0real ==> counted == 0real
            &&& 0real <= x < end ==> counted <= x < counted + 1real
            &&& x >= end ==> counted == end - 1real
        }),
{
    lemma_integer(n, m, 1000);
    let y = n.times(level, n.integer(1000));
    assert(m.of(y) == m.of(level) * 1000real);
    assert(cut_down(m.of(y), (n.whole)(y) as int));
    let w = (n.whole)(y) as int;
    if m.of(y) >= 0x1_0000_0000_0000_0000int as real {
        assert(w >= 0x1_0000_0000_0000_0000) by {
            if m.of(y) < far() as real {
                assert(m.of(y) < w as real + 1real);
            }
        }
    }
}

/// A hop is late where it takes longer than its block of 16 kHz samples lasts.
pub proof fn law_late_is_longer_than_the_block(block: int, ns: int)
    ensures
        late(block, ns) <==> (ns as real) / 1000000000real > (block as real) / 16000real,
{
    let (b, t) = (block as real, ns as real);
    assert((t / 1000000000real > b / 16000real) == (t * 16real > b * 1000000real))
        by (nonlinear_arith);
    assert((ns * 16) as real == t * 16real) by (nonlinear_arith)
        requires
            t == ns as real,
    ;
    assert((block * 1_000_000) as real == b * 1000000real) by (nonlinear_arith)
        requires
            b == block as real,
    ;
}

/// What is sent last fades along half a wave, down from itself, into silence.
pub proof fn law_last_samples_fade_along_half_a_wave<T>(
    n: Num<T>,
    m: Reals<T>,
    last: Seq<T>,
    count: nat,
    i: int,
)
    requires
        m.computes(n),
        m.angles(n),
        last.len() <= u64::MAX,
        0 <= i < count,
    ensures
        crossfaded_silence(n, last, count).len() == count,
        i < last.len() ==> m.of(crossfaded_silence(n, last, count)[i]) == m.of(last[i]) * (1real
            - rise(m, i, last.len() as int)),
        i >= last.len() ==> m.of(crossfaded_silence(n, last, count)[i]) == 0real,
{
    lemma_integer(n, m, 0);
    if i < last.len() {
        lemma_ramp_values(n, m, i, last.len() as int);
    }
}

/// What is kept of samples is their end: as many as asked for, or all where there are fewer.
pub proof fn law_the_newest_are_kept<T>(xs: Seq<T>, count: nat)
    ensures
        kept(xs, count).len() <= count,
        kept(xs, count).len() == count || kept(xs, count) == xs,
        forall|k: int|
            0 < k <= kept(xs, count).len() ==> #[trigger] kept(xs, count)[kept(xs, count).len() - k]
                == xs[xs.len() - k],
{
}

/// The energy of samples: the sum of their squares.
pub open spec fn energy<T>(m: Reals<T>, xs: Seq<T>) -> real {
    total(|i: int| m.of(xs[i]) * m.of(xs[i]), xs.len())
}

/// `level` is the level of `xs` in whole thousandths: squared, and taken as often as there are
/// samples, it is their energy in millionths, cut down.
pub open spec fn is_level<T>(m: Reals<T>, xs: Seq<T>, level: real) -> bool {
    let k = xs.len() as real;
    k * (level * level) <= 1000000real * energy(m, xs) < k * ((level + 1real) * (level + 1real))
}

/// Samples of a level below a million.
pub open spec fn moderate<T>(m: Reals<T>, xs: Seq<T>) -> bool {
    energy(m, xs) < (xs.len() as real) * 1000000000000real
}

proof fn lemma_level_in_thousandths<T>(n: Num<T>, m: Reals<T>, xs: Seq<T>)
    requires
        m.computes(n),
        m.roots(n),
        m.cuts(n),
        0 < xs.len() <= u64::MAX,
        moderate(m, xs),
    ensures
        is_level(m, xs, milli(n, rms_of(n, xs)) as real),
        milli(n, rms_of(n, xs)) >= 0,
{
    law_level_has_the_mean_energy(n, m, xs);
    let l = m.of(rms_of(n, xs));
    let (k, e) = (xs.len() as real, energy(m, xs));
    assert(l < 1000000real) by (nonlinear_arith)
        requires
            l >= 0real,
            k >= 1real,
            k * (l * l) == e,
            e < k * 1000000000000real,
    ;
    law_levels_are_whole_thousandths(n, m, rms_of(n, xs));
    let q = milli(n, rms_of(n, xs)) as real;
    assert(k * (q * q) <= 1000000real * e) by (nonlinear_arith)
        requires
            0real <= q <= 1000real * l,
            k * (l * l) == e,
            k >= 1real,
    ;
    assert(1000000real * e < k * ((q + 1real) * (q + 1real))) by (nonlinear_arith)
        requires
            0real <= 1000real * l < q + 1real,
            k * (l * l) == e,
            k >= 1real,
    ;
}

/// A tone burst begins among `len` samples from sample number `from` on.
pub open spec fn burst_among(from: int, len: int) -> bool {
    exists|k: int| from <= #[trigger] (32000 * k) < from + len
}

/// What is taken as input: the block itself, or the test tone in its place, which goes on where it
/// was; the time is kept while a burst begins. The first half minute of input is dumped, and that
/// it is complete is told once. The level is noted.
pub proof fn law_input_is_noted<T: Copy>(
    n: Num<T>,
    m: Reals<T>,
    w: Worker<T>,
    inbuf: Seq<T>,
    now: u64,
    next: Worker<T>,
    block: Seq<T>,
    dumped: bool,
)
    requires
        m.computes(n),
        m.roots(n),
        m.cuts(n),
        m.angles(n),
        w.takes(n, inbuf, now, next, block, dumped),
        inbuf.len() == w.block,
        w.total_in + w.block <= u64::MAX,
    ensures
        next.total_in == w.total_in + block.len(),
        !w.tone ==> block == inbuf && next.burst == w.burst,
        w.tone ==> block.len() == inbuf.len(),
        w.tone ==> forall|i: int|
            0 <= i < block.len() ==> {
                let phase = (w.total_in + i) % 32000;
                let x = m.of(#[trigger] block[i]);
                &&& phase < 1600 ==> 2real * x == (m.sine)(
                    2real * m.circle * ((phase as real) / 16real),
                )
                &&& phase >= 1600 ==> x == 0real
            },
        w.tone && burst_among(w.total_in as int, block.len() as int) ==> next.burst == Some(now),
        w.tone && !burst_among(w.total_in as int, block.len() as int) ==> next.burst == w.burst,
        w.dumping && w.dump@.len() < 30 * 16000 ==> next.dump@ == w.dump@ + block,
        !(w.dumping && w.dump@.len() < 30 * 16000) ==> next.dump@ == w.dump@,
        dumped <==> w.dump@.len() < 30 * 16000 <= next.dump@.len(),
        block.len() > 0 && moderate(m, block) ==> is_level(
            m,
            block,
            next.stats.in_rms_milli as real,
        ),
        next.last@ == w.last@,
        next.hop_win@ == w.hop_win@,
        next.block == w.block,
        next.fade == w.fade,
        next.warm == w.warm,
        next.stats.hops == w.stats.hops,
        next.stats.misses == w.stats.misses,
        next.stats.pitch == w.stats.pitch,
        next.stats.mute == w.stats.mute,
{
    let (from, len) = (w.total_in as int, w.block as int);
    if w.tone {
        assert forall|i: int| 0 <= i < block.len() implies {
            let phase = (w.total_in + i) % 32000;
            let x = m.of(#[trigger] block[i]);
            &&& phase < 1600 ==> 2real * x == (m.sine)(
                2real * m.circle * ((phase as real) / 16real),
            )
            &&& phase >= 1600 ==> x == 0real
        } by {
            assert(block[i] == tone_sample(n, from + i));
            law_tone_is_a_wave_in_bursts(n, m, from + i);
        }
        if burst_starts(from, len) {
            let i = choose|i: int|
                0 <= i < len && #[trigger] (from + i) % (TONE_PERIOD as int) == 0;
            let k = (from + i) / 32000;
            assert(32000 * k == from + i);
            assert(from <= 32000 * k < from + len);
        }
        if burst_among(from, len) {
            let k = choose|k: int| from <= #[trigger] (32000 * k) < from + len;
            let i = 32000 * k - from;
            assert((from + i) % (TONE_PERIOD as int) == 0);
            assert(burst_starts(from, len));
        }
    }
    if block.len() > 0 && moderate(m, block) {
        lemma_level_in_thousandths(n, m, block);
    }
}

/// `s` has the times of hops in order, and its entry at `i` is `us` microseconds, cut down.
pub open spec fn in_microseconds(s: Seq<u64>, i: int, us: u64) -> bool {
    0 <= i < s.len() && 1000 * us <= s[i] < 1000 * (us + 1)
}

/// What is kept of a hop: its time, with those of the 63 hops before it, and of these the median
/// and the 95th percentile in microseconds; the newest of what was sent, as much as fades out; the
/// level of what was sent. A burst that is waited for is heard at a fiftieth of full scale, and its
/// latency is noted in milliseconds.
pub proof fn law_hop_is_noted<T: Copy>(
    n: Num<T>,
    m: Reals<T>,
    w: Worker<T>,
    out: Seq<T>,
    ns: u64,
    now: u64,
    next: Worker<T>,
)
    requires
        m.computes(n),
        m.orders(n),
        m.roots(n),
        m.cuts(n),
        w.wf(),
        w.finished(n, out, ns, now, next),
        out.len() <= u64::MAX,
    ensures
        next.hop_win@.len() == if w.hop_win@.len() < 64 {
            w.hop_win@.len() + 1
        } else {
            64
        },
        next.hop_win@.last() == ns,
        forall|k: int|
            0 < k < next.hop_win@.len() ==> #[trigger] next.hop_win@[next.hop_win@.len() - 1 - k]
                == w.hop_win@[w.hop_win@.len() - k],
        exists|s: Seq<u64>, i: int, j: int|
            {
                let len = next.hop_win@.len();
                &&& ordering_of(s, next.hop_win@)
                &&& s.len() == len
                &&& 2 * i <= len < 2 * (i + 1)
                &&& #[trigger] in_microseconds(s, i, next.stats.hop_p50_us)
                &&& 20 * j <= 19 * len
                &&& 19 * len < 20 * (j + 1) || j == len - 1
                &&& #[trigger] in_microseconds(s, j, next.stats.hop_p95_us)
            },
        next.stats.hops == w.stats.hops + 1,
        next.stats.misses == w.stats.misses + if !w.passthrough && (ns as real) / 1000000000real > (
        w.block as real) / 16000real {
            1int
        } else {
            0int
        },
        next.last@.len() <= w.fade,
        next.last@.len() == w.fade || next.last@.len() == w.last@.len() + out.len(),
        forall|k: int|
            0 < k <= next.last@.len() ==> #[trigger] next.last@[next.last@.len() - k] == (w.last@
                + out)[w.last@.len() + out.len() - k],
        out.len() == 0 ==> next.stats.out_rms_milli == w.stats.out_rms_milli,
        out.len() > 0 && moderate(m, out) ==> is_level(m, out, next.stats.out_rms_milli as real),
        w.burst is Some && 2500real * energy(m, out) > out.len() as real ==> {
            let start = w.burst->Some_0;
            let ms = next.stats.internal_latency_ms;
            &&& next.burst is None
            &&& now >= start ==> 1000000 * ms <= now - start < 1000000 * (ms + 1)
            &&& now < start ==> ms == 0
        },
        w.burst is None || !(2500real * energy(m, out) > out.len() as real) ==> next.burst
            == w.burst && next.stats.internal_latency_ms == w.stats.internal_latency_ms,
        next.block == w.block,
        next.fade == w.fade,
        next.total_in == w.total_in,
        next.dump@ == w.dump@,
        next.stats.in_rms_milli == w.stats.in_rms_milli,
        next.stats.pitch == w.stats.pitch,
        next.stats.mute == w.stats.mute,
{
    let times = recent(w.hop_win@.push(ns));
    let len = times.len() as int;
    law_percentiles_are_at_their_places(len);
    let s = choose|s: Seq<u64>|
        {
            &&& #[trigger] ordering_of(s, times)
            &&& s.len() == times.len()
            &&& next.stats.hop_p50_us == s[median_index(times.len() as int)] / 1000
            &&& next.stats.hop_p95_us == s[p95_index(times.len() as int)] / 1000
        };
    assert(in_microseconds(s, median_index(len), next.stats.hop_p50_us));
    assert(in_microseconds(s, p95_index(len), next.stats.hop_p95_us));
    law_late_is_longer_than_the_block(w.block as int, ns as int);
    law_the_newest_are_kept(w.last@ + out, w.fade as nat);
    lemma_integer(n, m, 0);
    if out.len() > 0 && moderate(m, out) {
        lemma_level_in_thousandths(n, m, out);
    }
    let fiftieth = n.ratio(2, 100);
    assert(m.of(fiftieth) == (2i64 as real) / (100i64 as real));
    let h = m.of(fiftieth);
    assert(50real * h == 1real) by (nonlinear_arith)
        requires
            h == 2real / 100real,
    ;
    let (k, e) = (out.len() as real, energy(m, out));
    if out.len() > 0 {
        law_level_has_the_mean_energy(n, m, out);
        let l = m.of(rms_of(n, out));
        assert((2500real * e > k) == (l > h)) by (nonlinear_arith)
            requires
                l >= 0real,
                k >= 1real,
                k * (l * l) == e,
                50real * h == 1real,
        ;
    } else {
        assert(e == 0real);
    }
}

/// What is sent for a hop: its output; where it took longer than its block lasts and converts, two
/// and a half samples for each of the block, in which what was sent last fades out along half a
/// wave. As much silence where the output is muted.
pub proof fn law_what_is_sent<T: Copy>(
    n: Num<T>,
    m: Reals<T>,
    w: Worker<T>,
    out: Seq<T>,
    ns: u64,
)
    requires
        m.computes(n),
        m.angles(n),
        w.wf(),
        w.last@.len() <= u64::MAX,
    ensures
        ({
            let sent = w.emitted(n, out, ns);
            let late = !w.passthrough && (ns as real) / 1000000000real > (w.block as real)
                / 16000real;
            &&& !late ==> sent.len() == out.len()
            &&& late ==> 2 * sent.len() <= 5 * w.block < 2 * (sent.len() + 1)
            &&& w.stats.mute ==> forall|i: int|
                0 <= i < sent.len() ==> m.of(#[trigger] sent[i]) == 0real
            &&& !w.stats.mute && !late ==> sent == out
            &&& !w.stats.mute && late ==> forall|i: int|
                0 <= i < sent.len() ==> m.of(#[trigger] sent[i]) == if i < w.last@.len() {
                    m.of(w.last@[i]) * (1real - rise(m, i, w.last@.len() as int))
                } else {
                    0real
                }
        }),
{
    let sent = w.emitted(n, out, ns);
    law_late_is_longer_than_the_block(w.block as int, ns as int);
    lemma_integer(n, m, 0);
    let count = (w.block * 5 / 2) as nat;
    if w.missed(ns) && !w.stats.mute {
        assert forall|i: int| 0 <= i < sent.len() implies m.of(#[trigger] sent[i]) == if i
            < w.last@.len() {
            m.of(w.last@[i]) * (1real - rise(m, i, w.last@.len() as int))
        } else {
            0real
        } by {
            law_last_samples_fade_along_half_a_wave(n, m, w.last@, count, i);
        }
    }
}

/// A hop whose conversion fails is silent, for as long as its block lasts; one that warms the
/// stream up gives nothing; any other gives the stream's block. The stream goes on with the pitch
/// shift that is set, and nothing else of its layout changes.
pub proof fn law_converted_hop<
    T: Copy,
    E,
    CV: Fn(&Vec<T>) -> Result<Features<T>, E>,
    FF: Fn(&Vec<T>) -> Result<Vec<(T, T)>, E>,
    FC: Fn(&Vec<Vec<T>>) -> Result<Latent<T>, E>,
    SY: Fn(&SynthInputs<T>) -> Result<Vec<T>, E>,
    W: Copy,
    WO: Fn(Op<W>) -> W,
    WG: Fn(W, W) -> Rel,
    WZ: Fn(W) -> i128,
    NR: Fn(W) -> T,
>(
    n: Num<T>,
    m: Reals<T>,
    w: Worker<T>,
    s: Sessions<CV, FF, FC, SY, W, WO, WG, WZ, NR>,
    stream: StreamEngine<T>,
    block: Seq<T>,
    next: StreamEngine<T>,
    out: Seq<T>,
    failure: Option<StreamError<E>>,
)
    requires
        m.computes(n),
        w.turns::<E, CV, FF, FC, SY, W, WO, WG, WZ, NR>(
            n,
            s,
            Some(stream),
            block,
            Some(next),
            out,
            failure,
        ),
    ensures
        failure is Some ==> 2 * out.len() <= 5 * w.block < 2 * (out.len() + 1),
        failure is Some ==> forall|i: int| 0 <= i < out.len() ==> m.of(#[trigger] out[i]) == 0real,
        failure is None ==> exists|reply: Option<Vec<T>>|
            {
                &&& #[trigger] stream.with_pitch(w.stats.pitch).pushes(
                    n,
                    s,
                    block,
                    next,
                    Ok::<Option<Vec<T>>, StreamError<E>>(reply),
                )
                &&& reply matches Some(b) ==> out == b@
                &&& reply is None ==> out.len() == 0
            },
        next.cfg == (StreamCfg { pitch_semitones: w.stats.pitch, ..stream.cfg }),
        next.engine == stream.engine,
{
    lemma_integer(n, m, 0);
    let reply = choose|reply: Result<Option<Vec<T>>, StreamError<E>>|
        {
            &&& #[trigger] stream.with_pitch(w.stats.pitch).pushes(n, s, block, next, reply)
            &&& out == w.hop_output(n, reply)
            &&& failure == match reply {
                Ok(_) => None,
                Err(e) => Some(e),
            }
        };
    assert(stream.with_pitch(w.stats.pitch).pushes(n, s, block, next, reply));
}

/// Without conversion a block goes through at the output rate: it is stretched by straight lines to
/// two and a half samples for each of its own, from its first sample to its last.
pub proof fn law_passed_hop<
    T: Copy,
    E,
    CV: Fn(&Vec<T>) -> Result<Features<T>, E>,
    FF: Fn(&Vec<T>) -> Result<Vec<(T, T)>, E>,
    FC: Fn(&Vec<Vec<T>>) -> Result<Latent<T>, E>,
    SY: Fn(&SynthInputs<T>) -> Result<Vec<T>, E>,
    W: Copy,
    WO: Fn(Op<W>) -> W,
    WG: Fn(W, W) -> Rel,
    WZ: Fn(W) -> i128,
    NR: Fn(W) -> T,
>(
    n: Num<T>,
    m: Reals<T>,
    w: Worker<T>,
    s: Sessions<CV, FF, FC, SY, W, WO, WG, WZ, NR>,
    block: Seq<T>,
    next: Option<StreamEngine<T>>,
    out: Seq<T>,
    failure: Option<StreamError<E>>,
    i: int,
    j: int,
)
    requires
        m.computes(n),
        m.orders(n),
        m.cuts(n),
        w.wf(),
        w.turns::<E, CV, FF, FC, SY, W, WO, WG, WZ, NR>(n, s, None, block, next, out, failure),
        block.len() == w.block,
        1 < out.len() <= u64::MAX,
        block.len() <= u64::MAX,
        0 <= i < out.len(),
        0 <= j,
        j + 1 < block.len(),
        j as real <= place(i, out.len() as int, block.len() as int) < j as real + 1real,
    ensures
        2 * out.len() <= 5 * block.len() < 2 * (out.len() + 1),
        m.of(out[0]) == m.of(block[0]),
        m.of(out.last()) == m.of(block.last()),
        m.of(out[i]) == m.of(block[j]) + (m.of(block[j + 1]) - m.of(block[j])) * (place(
            i,
            out.len() as int,
            block.len() as int,
        ) - j as real),
        next is None,
        failure is None,
{
    law_stretching_keeps_the_ends(n, m, block, out.len());
    law_stretching_follows_straight_lines(n, m, block, out.len(), i, j);
}

/// Playback begins two blocks behind: so much silence is sent before the output of the first hop,
/// and none later.
pub proof fn law_playback_begins_two_blocks_behind<T: Copy>(w: Worker<T>)
    ensures
        w.stats.hops == 0 ==> (w.priming() as real) / 40000real == 2real * ((w.block as real)
            / 16000real),
        w.stats.hops > 0 ==> w.priming() == 0,
{
    let b = w.block as real;
    assert(w.stats.hops == 0 ==> w.priming() as real == 5real * b);
    assert((5real * b) / 40000real == 2real * (b / 16000real)) by (nonlinear_arith);
}

/// Paths are joined by one slash, whether the directory is written with one or not; below nowhere,
/// a path is itself.
pub proof fn law_paths_are_joined_by_one_slash(root: Seq<char>, rel: Seq<char>)
    ensures
        below(root.push('/'), rel) == root.push('/') + rel,
        root.len() > 0 && root.last() != '/' ==> below(root, rel) == below(root.push('/'), rel),
        below(Seq::empty(), rel) == rel,
{
    assert(below(Seq::empty(), rel) =~= rel);
}

/// The working directory is looked at first, then the others in their order.
pub proof fn law_working_directory_is_first(cwd: Seq<char>, above_exe: Seq<Seq<char>>, k: int)
    requires
        0 <= k < above_exe.len(),
    ensures
        candidates(Some(cwd), above_exe).len() == above_exe.len() + 1,
        candidates(Some(cwd), above_exe)[0] == cwd,
        candidates(Some(cwd), above_exe)[k + 1] == above_exe[k],
        candidates(None, above_exe) == above_exe,
{
}

/// The live path starts engine first: whatever was before, a start that is asked for builds the
/// engine; only where that succeeds is the microphone created, and only where that succeeds too do
/// the streams run. Any other start is given up.
pub proof fn law_engine_comes_before_the_microphone(s: Startup, engine: bool, mic: bool)
    ensures
        ({
            let (asked, first) = s.after(StartEvent::Asked);
            let (built, second) = asked.after(StartEvent::EngineBuilt(engine));
            let (done, third) = built.after(StartEvent::MicCreated(mic));
            &&& first == StartStep::BuildEngine
            &&& asked.after(StartEvent::MicCreated(mic)).1 == StartStep::GiveUp
            &&& second == StartStep::CreateMic <==> engine
            &&& second == StartStep::GiveUp <==> !engine
            &&& third == StartStep::RunStreams <==> engine && mic
            &&& third == StartStep::GiveUp <==> !(engine && mic)
            &&& done.mic <==> engine && mic
        }),
{
}

/// Only the work of a hop is timed, not what comes before it.
pub proof fn law_work_is_timed_from_its_beginning(times: HopTimes)
    ensures
        times.ended >= times.begun ==> times.begun + times.work() == times.ended,
        times.ended < times.begun ==> times.work() == 0,
{
}

/// `word` stands for silence.
pub open spec fn codes_silence<T, B: Fn(T) -> u32>(m: Reals<T>, bits: B, word: u32) -> bool {
    exists|z: T| m.of(z) == 0real && #[trigger] call_ensures(bits, (z,), word)
}

/// A hop as a whole: it is one hop more, under the mute switch as it was found. What it sends is
/// offered to the ring behind two blocks of silence where it is the first hop, and behind nothing
/// later; muted, all of it is silence. It counts as missed where the work took longer than the
/// block lasts.
pub proof fn law_hop_as_a_whole<
    T: Copy,
    E,
    CV: Fn(&Vec<T>) -> Result<Features<T>, E>,
    FF: Fn(&Vec<T>) -> Result<Vec<(T, T)>, E>,
    FC: Fn(&Vec<Vec<T>>) -> Result<Latent<T>, E>,
    SY: Fn(&SynthInputs<T>) -> Result<Vec<T>, E>,
    W: Copy,
    WO: Fn(Op<W>) -> W,
    WG: Fn(W, W) -> Rel,
    WZ: Fn(W) -> i128,
    NR: Fn(W) -> T,
    B: Fn(T) -> u32,
>(
    n: Num<T>,
    m: Reals<T>,
    s: Sessions<CV, FF, FC, SY, W, WO, WG, WZ, NR>,
    bits: B,
    worker: (Worker<T>, Worker<T>),
    stream: (Option<StreamEngine<T>>, Option<StreamEngine<T>>),
    tx: (Producer<u32>, Producer<u32>),
    inbuf: Seq<T>,
    times: HopTimes,
    muted: bool,
    middle: Worker<T>,
    block: Seq<T>,
    out: Seq<T>,
    words: Seq<u32>,
    ok: Seq<bool>,
    dumped: bool,
    failure: Option<StreamError<E>>,
)
    requires
        m.computes(n),
        hop_does::<T, E, CV, FF, FC, SY, W, WO, WG, WZ, NR, B>(
            n,
            s,
            bits,
            worker,
            stream,
            tx,
            inbuf,
            times,
            muted,
            middle,
            block,
            out,
            words,
            ok,
            dumped,
            failure,
        ),
    ensures
        worker.1.stats.mute == muted,
        worker.1.stats.hops == worker.0.stats.hops + 1,
        worker.1.stats.misses == worker.0.stats.misses + if !worker.0.passthrough && (
        times.work() as real) / 1000000000real > (worker.0.block as real) / 16000real {
            1int
        } else {
            0int
        },
        muted ==> forall|i: int|
            0 <= i < words.len() ==> codes_silence(m, bits, #[trigger] words[i]),
        ({
            let first = if worker.0.stats.hops == 0 {
                (5 * worker.0.block) as nat
            } else {
                0
            };
            let sent = ring_replies(tx.1).skip(ring_replies(tx.0).len() as int);
            &&& ring_replies(tx.1).take(ring_replies(tx.0).len() as int) == ring_replies(tx.0)
            &&& sent.len() == first + words.len()
            &&& forall|i: int| 0 <= i < first ==> (#[trigger] sent[i]).0 == 0
            &&& forall|i: int|
                first <= i < sent.len() ==> (#[trigger] sent[i]).0 == words[i - first]
        }),
{
    lemma_integer(n, m, 0);
    law_late_is_longer_than_the_block(worker.0.block as int, times.work() as int);
    let w = middle.with_mute(muted);
    let sent = w.emitted(n, out, times.work());
    if muted {
        assert forall|i: int| 0 <= i < words.len() implies codes_silence(
            m,
            bits,
            #[trigger] words[i],
        ) by {
            assert(sent[i] == n.zero());
            assert(call_ensures(bits, (sent[i],), words[i]));
        }
    }
    let all = Seq::new(middle.priming() as nat, |i: int| 0u32) + words;
    let (old_replies, new_replies) = (ring_replies(tx.0), ring_replies(tx.1));
    assert(new_replies == old_replies + replies(all, ok));
    assert(new_replies.take(old_replies.len() as int) =~= old_replies);
    assert(new_replies.skip(old_replies.len() as int) =~= replies(all, ok));
}

/// A burst is not heard in a level that cannot be compared: it is waited for.
pub proof fn law_incomparable_level_is_not_heard<T: Copy>(
    n: Num<T>,
    w: Worker<T>,
    out: Seq<T>,
    ns: u64,
    now: u64,
    next: Worker<T>,
)
    requires
        forall|a: T, b: T| #[trigger] (n.rel)(a, b) == Rel::Unordered,
        w.finished(n, out, ns, now, next),
    ensures
        next.burst == w.burst,
        next.stats.internal_latency_ms == w.stats.internal_latency_ms,
{
}

} // verus!
