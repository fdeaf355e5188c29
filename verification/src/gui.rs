//! The control window: settings, the session that it controls, and what it shows.
use vstd::prelude::*;

use crate::arith::{Arith, Num, Op, Rel};
use crate::exact::{lemma_integer, Reals};
use crate::live::{below, join_path, LiveConfig};
use crate::nodes::opt_view;
use crate::stream::FRAME;
use crate::text::{number_in, parse_number};
use crate::virtmic::{views, ToolReply};

verus! {

/// What is kept between two runs.
#[derive(Clone, Debug)]
pub struct Settings {
    /// Version of the settings.
    pub v: u32,
    /// Name of the node to capture from.
    pub input: Option<String>,
    /// Block size in 16 kHz samples.
    pub block: usize,
    /// Left context in 16 kHz samples.
    pub ctx_left: usize,
    /// Crossfade in 16 kHz samples.
    pub crossfade: usize,
    /// Extra lookahead in 16 kHz samples.
    pub lookahead: usize,
    /// Pitch shift in semitones.
    pub pitch: i32,
    /// Seed of the noise.
    pub seed: u64,
    /// The converted voice is heard on the speakers.
    pub monitor: bool,
}

impl Default for Settings {
    fn default() -> (r: Self)
        ensures
            r.v == 1,
            r.input is None,
            r.block == 2560,
            r.ctx_left == 4160,
            r.crossfade == 640,
            r.lookahead == 0,
            r.pitch == 0,
            r.seed == 1337,
            !r.monitor,
    {
        let c = LiveConfig::default();
        Settings {
            v: 1,
            input: None,
            block: c.block,
            ctx_left: c.ctx_left,
            crossfade: c.crossfade,
            lookahead: c.lookahead,
            pitch: 0,
            seed: c.seed,
            monitor: false,
        }
    }
}

/// A size of the engine's window that a slider sets.
#[derive(Clone, Copy, Debug, PartialEq, Eq, Structural)]
pub enum Size {
    /// Block.
    Block,
    /// Left context.
    Context,
    /// Crossfade.
    Crossfade,
    /// Extra lookahead.
    Lookahead,
}

impl Size {
    /// The range of the slider, in 16 kHz samples.
    pub open spec fn range(self) -> (usize, usize) {
        match self {
            Size::Block => (1280, 8000),
            Size::Context => (1280, 16000),
            Size::Crossfade => (320, 1920),
            Size::Lookahead => (0, 4800),
        }
    }

    /// The range of the slider, in 16 kHz samples.
    pub fn bounds(self) -> (r: (usize, usize))
        ensures
            r == self.range(),
    {
        match self {
            Size::Block => (1280, 8000),
            Size::Context => (1280, 16000),
            Size::Crossfade => (320, 1920),
            Size::Lookahead => (0, 4800),
        }
    }
}

impl Settings {
    /// The settings with one size set to `steps` content features, within its slider's range.
    pub open spec fn resized(self, which: Size, steps: int) -> Self {
        let (lo, hi) = which.range();
        let v = slider_size(steps, lo as int, hi as int) as usize;
        match which {
            Size::Block => Settings { block: v, ..self },
            Size::Context => Settings { ctx_left: v, ..self },
            Size::Crossfade => Settings { crossfade: v, ..self },
            Size::Lookahead => Settings { lookahead: v, ..self },
        }
    }

    /// Every size is a multiple of one content feature.
    pub open spec fn aligned(self) -> bool {
        &&& self.block % FRAME == 0
        &&& self.ctx_left % FRAME == 0
        &&& self.crossfade % FRAME == 0
        &&& self.lookahead % FRAME == 0
    }
}

/// The window can only be set to sizes that the stream accepts: moving a slider keeps all sizes
/// multiples of one content feature.
pub proof fn law_sliders_keep_alignment(s: Settings, which: Size, steps: int)
    requires
        s.aligned(),
    ensures
        s.resized(which, steps).aligned(),
{
    let (lo, hi) = which.range();
    law_slider_stays_aligned(steps, lo as int, lo as int, hi as int);
}

/// Where the settings lie: below the configuration directory, or below `.config` of the home
/// directory where none is set.
pub open spec fn settings_file(config_home: Option<Seq<char>>, home: Option<Seq<char>>) -> Seq<
    char,
> {
    let base = match config_home {
        Some(dir) => dir,
        None => below(
            match home {
                Some(dir) => dir,
                None => Seq::empty(),
            },
            ".config"@,
        ),
    };
    below(base, "vc-native/settings.json"@)
}

/// Where the settings lie.
pub fn settings_path(config_home: Option<String>, home: Option<String>) -> (r: String)
    ensures
        r@ == settings_file(opt_view(config_home), opt_view(home)),
{
    let base = match config_home {
        Some(dir) => dir,
        None => match home {
            Some(dir) => join_path(dir.as_str(), ".config"),
            None => {
                let none = String::new();
                join_path(none.as_str(), ".config")
            },
        },
    };
    join_path(base.as_str(), "vc-native/settings.json")
}

/// What to do about the monitor.
#[derive(Clone, Copy, Debug, PartialEq, Eq, Structural)]
pub enum MonitorStep {
    /// Nothing.
    Leave,
    /// Load the monitor's module.
    Load,
    /// Unload this module.
    Unload(u32),
}

/// The arguments that load the monitor's module.
pub open spec fn monitor_arguments() -> Seq<Seq<char>> {
    seq!["load-module"@, "module-loopback"@, "source=vc_mic"@, "latency_msec=60"@]
}

/// The arguments with which the control tool loads the monitor's module.
pub fn monitor_args() -> (r: Vec<String>)
    ensures
        views(r@) == monitor_arguments(),
{
    let mut r: Vec<String> = Vec::new();
    r.push("load-module".to_owned());
    r.push("module-loopback".to_owned());
    r.push("source=vc_mic".to_owned());
    r.push("latency_msec=60".to_owned());
    assert(views(r@) =~= monitor_arguments());
    r
}

/// The session that the window controls.
pub struct Session {
    /// Settings.
    pub settings: Settings,
    /// The settings are on disk as they are.
    pub saved: bool,
    /// The live path runs.
    pub running: bool,
    /// Module of the monitor, if it is loaded.
    pub monitor: Option<u32>,
    /// Why the last start failed.
    pub error: Option<String>,
}

impl Session {
    /// A monitor needs a running live path.
    pub open spec fn wf(&self) -> bool {
        self.monitor is Some ==> self.running
    }

    /// The session with its monitor turned on or off, and what to do for that.
    pub open spec fn with_monitor(self, on: bool) -> (Session, MonitorStep) {
        if on {
            (
                self,
                if self.monitor is None {
                    MonitorStep::Load
                } else {
                    MonitorStep::Leave
                },
            )
        } else {
            (
                Session { monitor: None, ..self },
                match self.monitor {
                    Some(idx) => MonitorStep::Unload(idx),
                    None => MonitorStep::Leave,
                },
            )
        }
    }

    /// The session after a start that succeeded, and what to do about the monitor then.
    pub open spec fn begun(self) -> (Session, MonitorStep) {
        (
            Session { error: None, running: true, ..self },
            if self.settings.monitor && self.monitor is None {
                MonitorStep::Load
            } else {
                MonitorStep::Leave
            },
        )
    }

    /// The session after a start that failed with `e`.
    pub open spec fn refused(self, e: String) -> Session {
        Session { error: Some(e), ..self }
    }

    /// The session with its monitor's switch moved, and what to do for that.
    pub open spec fn toggled(self, on: bool) -> (Session, MonitorStep) {
        (
            Session {
                settings: Settings { monitor: on, ..self.settings },
                saved: false,
                monitor: if on {
                    self.monitor
                } else {
                    None
                },
                ..self
            },
            if self.running {
                self.with_monitor(on).1
            } else {
                MonitorStep::Leave
            },
        )
    }

    /// The session after the module `idx` of its monitor was loaded.
    pub open spec fn monitoring(self, idx: u32) -> Session {
        Session { monitor: Some(idx), ..self }
    }

    /// The session with another pitch shift.
    pub open spec fn pitched(self, semitones: i32) -> Session {
        Session {
            settings: Settings { pitch: semitones, ..self.settings },
            saved: false,
            ..self
        }
    }

    /// The session with another node to capture from.
    pub open spec fn listening(self, input: Option<String>) -> Session {
        Session { settings: Settings { input, ..self.settings }, saved: false, ..self }
    }

    /// The session with one size set by its slider.
    pub open spec fn sized(self, which: Size, steps: int) -> Session {
        Session { settings: self.settings.resized(which, steps), saved: false, ..self }
    }

    /// The session once its settings are written.
    pub open spec fn written(self) -> Session {
        Session { saved: true, ..self }
    }

    /// The session, stopped.
    pub open spec fn stopped(self) -> Session {
        Session { running: false, monitor: None, ..self }
    }

    /// A session that has not been started.
    pub fn new(settings: Settings) -> (r: Self)
        ensures
            r.wf(),
            r == (Session { settings, saved: true, running: false, monitor: None, error: None }),
    {
        Session { settings, saved: true, running: false, monitor: None, error: None }
    }

    /// The configuration with which the live path starts.
    pub fn cfg(&self) -> (r: LiveConfig)
        ensures
            opt_view(r.input) == opt_view(self.settings.input),
            r.block == self.settings.block,
            r.ctx_left == self.settings.ctx_left,
            r.crossfade == self.settings.crossfade,
            r.lookahead == self.settings.lookahead,
            r.pitch == self.settings.pitch,
            r.seed == self.settings.seed,
            r.mic_name@ == "vc_mic"@,
            !r.passthrough,
            !r.tone,
            r.dump_input is None,
    {
        let input = match &self.settings.input {
            Some(name) => Some(name.clone()),
            None => None,
        };
        let mut c = LiveConfig::default();
        c.input = input;
        c.block = self.settings.block;
        c.ctx_left = self.settings.ctx_left;
        c.crossfade = self.settings.crossfade;
        c.lookahead = self.settings.lookahead;
        c.pitch = self.settings.pitch;
        c.seed = self.settings.seed;
        c
    }

    /// Takes note of how the start of the live path ended. Where it succeeded, the monitor comes
    /// on if it is wanted.
    pub fn started(&mut self, outcome: Result<(), String>) -> (r: MonitorStep)
        requires
            old(self).wf(),
        ensures
            final(self).wf(),
            match outcome {
                Ok(_) => {
                    &&& *final(self) == (Session { error: None, running: true, ..*old(self) })
                    &&& r == if old(self).settings.monitor && old(self).monitor is None {
                        MonitorStep::Load
                    } else {
                        MonitorStep::Leave
                    }
                },
                Err(e) => {
                    &&& *final(self) == (Session { error: Some(e), ..*old(self) })
                    &&& r == MonitorStep::Leave
                },
            },
            outcome is Ok ==> (*final(self), r) == old(self).begun(),
            outcome matches Err(e) ==> *final(self) == old(self).refused(e),
    {
        match outcome {
            Ok(_) => {
                self.error = None;
                self.running = true;
                if self.settings.monitor {
                    self.set_monitor(true)
                } else {
                    MonitorStep::Leave
                }
            },
            Err(e) => {
                self.error = Some(e);
                MonitorStep::Leave
            },
        }
    }

    /// Turns the monitor on or off: loads its module if there is none, or unloads it.
    pub fn set_monitor(&mut self, on: bool) -> (r: MonitorStep)
        requires
            old(self).wf(),
        ensures
            final(self).wf(),
            r == match old(self).monitor {
                Some(idx) => if on {
                    MonitorStep::Leave
                } else {
                    MonitorStep::Unload(idx)
                },
                None => if on {
                    MonitorStep::Load
                } else {
                    MonitorStep::Leave
                },
            },
            *final(self) == if on {
                *old(self)
            } else {
                Session { monitor: None, ..*old(self) }
            },
            (*final(self), r) == old(self).with_monitor(on),
    {
        if on {
            if self.monitor.is_none() {
                MonitorStep::Load
            } else {
                MonitorStep::Leave
            }
        } else {
            match self.monitor.take() {
                Some(idx) => MonitorStep::Unload(idx),
                None => MonitorStep::Leave,
            }
        }
    }

    /// Takes note of the reply to loading the monitor's module; `None` stands for a tool that
    /// could not be run.
    pub fn monitor_loaded(&mut self, reply: Option<ToolReply>)
        requires
            old(self).wf(),
            old(self).running,
        ensures
            final(self).wf(),
            *final(self) == match reply {
                Some(reply) => if reply.success {
                    Session { monitor: number_in(reply.stdout@), ..*old(self) }
                } else {
                    *old(self)
                },
                None => *old(self),
            },
            reply matches Some(loaded) ==> loaded.success ==> (number_in(loaded.stdout@) matches Some(
                idx,
            ) ==> *final(self) == old(self).monitoring(idx)),
    {
        if let Some(reply) = reply {
            if reply.success {
                self.monitor = parse_number(reply.stdout.as_str());
            }
        }
    }

    /// Stops the session: gives the monitor's module to unload, if there is one, and whether
    /// there is a live path to stop.
    pub fn stop(&mut self) -> (r: (MonitorStep, bool))
        requires
            old(self).wf(),
        ensures
            final(self).wf(),
            *final(self) == (Session { running: false, monitor: None, ..*old(self) }),
            *final(self) == old(self).stopped(),
            r.0 == old(self).with_monitor(false).1,
            r.0 == match old(self).monitor {
                Some(idx) => MonitorStep::Unload(idx),
                None => MonitorStep::Leave,
            },
            r.1 == old(self).running,
    {
        let step = self.set_monitor(false);
        let running = self.running;
        self.running = false;
        (step, running)
    }

    /// The monitor's switch was moved. Its module follows only while the live path runs.
    pub fn toggle_monitor(&mut self, on: bool) -> (r: MonitorStep)
        requires
            old(self).wf(),
        ensures
            final(self).wf(),
            r == if !old(self).running {
                MonitorStep::Leave
            } else {
                match old(self).monitor {
                    Some(idx) => if on {
                        MonitorStep::Leave
                    } else {
                        MonitorStep::Unload(idx)
                    },
                    None => if on {
                        MonitorStep::Load
                    } else {
                        MonitorStep::Leave
                    },
                }
            },
            *final(self) == (Session {
                settings: Settings { monitor: on, ..old(self).settings },
                saved: false,
                monitor: if on {
                    old(self).monitor
                } else {
                    None
                },
                ..*old(self)
            }),
            (*final(self), r) == old(self).toggled(on),
    {
        self.settings.monitor = on;
        self.saved = false;
        if self.running {
            self.set_monitor(on)
        } else {
            MonitorStep::Leave
        }
    }

    /// The pitch slider was moved. Tells whether the running live path must be told.
    pub fn set_pitch(&mut self, semitones: i32) -> (r: bool)
        requires
            old(self).wf(),
        ensures
            final(self).wf(),
            *final(self) == (Session {
                settings: Settings { pitch: semitones, ..old(self).settings },
                saved: false,
                ..*old(self)
            }),
            *final(self) == old(self).pitched(semitones),
            r == old(self).running,
    {
        self.settings.pitch = semitones;
        self.saved = false;
        self.running
    }

    /// Another node to capture from was chosen; `None` leaves the choice to the program.
    pub fn select_input(&mut self, input: Option<String>)
        requires
            old(self).wf(),
        ensures
            final(self).wf(),
            *final(self) == (Session {
                settings: Settings { input, ..old(self).settings },
                saved: false,
                ..*old(self)
            }),
            *final(self) == old(self).listening(input),
    {
        self.settings.input = input;
        self.saved = false;
    }

    /// What the window shows as the node to capture from.
    pub fn input_label(&self) -> (r: String)
        ensures
            r@ == match self.settings.input {
                Some(name) => name@,
                None => "(auto: usb mic)"@,
            },
    {
        match &self.settings.input {
            Some(name) => name.clone(),
            None => "(auto: usb mic)".to_owned(),
        }
    }

    /// A size slider was moved to `steps` content features.
    pub fn set_size(&mut self, which: Size, steps: i64)
        requires
            old(self).wf(),
        ensures
            final(self).wf(),
            *final(self) == (Session {
                settings: old(self).settings.resized(which, steps as int),
                saved: false,
                ..*old(self)
            }),
            *final(self) == old(self).sized(which, steps as int),
    {
        let (lo, hi) = which.bounds();
        let v = slider_value(steps, lo, hi);
        match which {
            Size::Block => {
                self.settings.block = v;
            },
            Size::Context => {
                self.settings.ctx_left = v;
            },
            Size::Crossfade => {
                self.settings.crossfade = v;
            },
            Size::Lookahead => {
                self.settings.lookahead = v;
            },
        }
        self.saved = false;
    }

    /// Whether the settings must be written now. They are written once per change.
    pub fn take_save(&mut self) -> (r: bool)
        ensures
            r == !old(self).saved,
            *final(self) == (Session { saved: true, ..*old(self) }),
            *final(self) == old(self).written(),
    {
        let due = !self.saved;
        self.saved = true;
        due
    }
}

/// A meter's peak while the live path runs: it follows the level up at once and falls slowly.
pub open spec fn held_peak<T>(n: Num<T>, peak: T, level: T) -> T {
    n.plus(
        n.times(n.larger(peak, level), n.ratio(92, 100)),
        n.times(level, n.ratio(8, 100)),
    )
}

/// A meter's next peak: of the level in thousandths while the live path runs, else falling.
pub open spec fn peak_after<T>(n: Num<T>, peak: T, level_milli: Option<u64>) -> T {
    match level_milli {
        Some(milli) => held_peak(n, peak, n.over(n.count(milli), n.integer(1000))),
        None => n.times(peak, n.ratio(9, 10)),
    }
}

/// A meter's next peak: of the level in thousandths while the live path runs, else falling.
pub fn next_peak<T: Copy, O: Fn(Op<T>) -> T, G: Fn(T, T) -> Rel, Z: Fn(T) -> i128>(
    ar: &Arith<T, O, G, Z>,
    peak: T,
    level_milli: Option<u64>,
) -> (r: T)
    requires
        ar.wf(),
    ensures
        r == match level_milli {
            Some(milli) => held_peak(
                ar.model@,
                peak,
                ar.model@.over(ar.model@.count(milli), ar.model@.integer(1000)),
            ),
            None => ar.model@.times(peak, ar.model@.ratio(9, 10)),
        },
        r == peak_after(ar.model@, peak, level_milli),
{
    match level_milli {
        Some(milli) => {
            let level = ar.over(ar.count(milli), ar.integer(1000));
            let top = ar.eval(Op::Max(peak, level));
            ar.plus(ar.times(top, ar.ratio(92, 100)), ar.times(level, ar.ratio(8, 100)))
        },
        None => ar.times(peak, ar.ratio(9, 10)),
    }
}

/// Colour of a bar.
#[derive(Clone, Copy, Debug, PartialEq, Eq, Structural)]
pub enum Colour {
    /// Fine.
    Green,
    /// Close to the limit.
    Yellow,
    /// Over the limit.
    Red,
}

/// The level of a peak in decibels; no lower than -100.
pub open spec fn decibels<T>(n: Num<T>, peak: T) -> T {
    n.times(n.integer(20), n.log10(n.larger(peak, n.ratio(1, 100_000))))
}

/// How much of a meter's bar is filled: the upper 60 decibels.
pub open spec fn meter_fill<T>(n: Num<T>, peak: T) -> T {
    n.clamp(
        n.over(n.plus(decibels(n, peak), n.integer(60)), n.integer(60)),
        n.integer(0),
        n.integer(1),
    )
}

/// The colour of a meter's bar.
pub open spec fn meter_colour<T>(n: Num<T>, fill: T) -> Colour {
    if n.gt(fill, n.ratio(9, 10)) {
        Colour::Red
    } else if n.gt(fill, n.ratio(7, 10)) {
        Colour::Yellow
    } else {
        Colour::Green
    }
}

/// What a meter shows of a peak: decibels, filled part and colour of the bar.
pub fn vu<T: Copy, O: Fn(Op<T>) -> T, G: Fn(T, T) -> Rel, Z: Fn(T) -> i128>(
    ar: &Arith<T, O, G, Z>,
    peak: T,
) -> (r: (T, T, Colour))
    requires
        ar.wf(),
    ensures
        r.0 == decibels(ar.model@, peak),
        r.1 == meter_fill(ar.model@, peak),
        r.2 == meter_colour(ar.model@, r.1),
{
    let sixty = ar.integer(60);
    let floor = ar.ratio(1, 100_000);
    let db = ar.times(ar.integer(20), ar.eval(Op::Log10(ar.eval(Op::Max(peak, floor)))));
    let fill = ar.clamp(ar.over(ar.plus(db, sixty), sixty), ar.integer(0), ar.integer(1));
    let colour = if ar.gt(fill, ar.ratio(9, 10)) {
        Colour::Red
    } else if ar.gt(fill, ar.ratio(7, 10)) {
        Colour::Yellow
    } else {
        Colour::Green
    };
    (db, fill, colour)
}

/// A time in microseconds is longer than the audio of a block.
pub open spec fn over_budget(us: int, block: int) -> bool {
    us * 16 > block * 1000
}

/// The part of the block's time that the median hop takes.
pub open spec fn load_of<T>(n: Num<T>, p50_us: u64, block: usize) -> T {
    n.over(
        n.over(n.count(p50_us), n.integer(1000)),
        n.over(n.count(block as u64), n.integer(16)),
    )
}

/// The part of the block's time that the median hop takes.
pub fn hop_load<T: Copy, O: Fn(Op<T>) -> T, G: Fn(T, T) -> Rel, Z: Fn(T) -> i128>(
    ar: &Arith<T, O, G, Z>,
    p50_us: u64,
    block: usize,
) -> (r: T)
    requires
        ar.wf(),
    ensures
        r == load_of(ar.model@, p50_us, block),
{
    let took = ar.over(ar.count(p50_us), ar.integer(1000));
    let lasts = ar.over(ar.count(block as u64), ar.integer(16));
    ar.over(took, lasts)
}

/// How far the bar of the hops is filled: full at one and a half times the block's time.
pub open spec fn filled<T>(n: Num<T>, load: T) -> T {
    n.clamp(n.over(load, n.ratio(3, 2)), n.zero(), n.integer(1))
}

/// How far the bar of the hops is filled: full at one and a half times the block's time.
pub fn hop_fill<T: Copy, O: Fn(Op<T>) -> T, G: Fn(T, T) -> Rel, Z: Fn(T) -> i128>(
    ar: &Arith<T, O, G, Z>,
    load: T,
) -> (r: T)
    requires
        ar.wf(),
    ensures
        r == ar.model@.clamp(
            ar.model@.over(load, ar.model@.ratio(3, 2)),
            ar.model@.zero(),
            ar.model@.integer(1),
        ),
        r == filled(ar.model@, load),
{
    let part = ar.over(load, ar.ratio(3, 2));
    ar.clamp(part, ar.zero(), ar.integer(1))
}

/// The colour of the hop bar: red if the median hop takes longer than its audio, yellow if the
/// slow ones do.
pub open spec fn colour_of_hops(p50_us: int, p95_us: int, block: int) -> Colour {
    if over_budget(p50_us, block) {
        Colour::Red
    } else if over_budget(p95_us, block) {
        Colour::Yellow
    } else {
        Colour::Green
    }
}

/// The colour of the hop bar: red if the median hop takes longer than its audio, yellow if the
/// slow ones do.
pub fn hop_colour(p50_us: u64, p95_us: u64, block: usize) -> (r: Colour)
    ensures
        r == if over_budget(p50_us as int, block as int) {
            Colour::Red
        } else if over_budget(p95_us as int, block as int) {
            Colour::Yellow
        } else {
            Colour::Green
        },
        r == colour_of_hops(p50_us as int, p95_us as int, block as int),
{
    let budget = block as u128 * 1000;
    if p50_us as u128 * 16 > budget {
        Colour::Red
    } else if p95_us as u128 * 16 > budget {
        Colour::Yellow
    } else {
        Colour::Green
    }
}

/// The time of `n` microphone samples, in nanoseconds.
pub open spec fn sample_ns(n: int) -> int {
    n * 62_500
}

/// The estimated time from mouth to ear, in nanoseconds: half a block, a hop, the lookback and
/// 40 ms of buffers. A hop counts as a block while there is no figure for it.
pub open spec fn latency_of(s: Settings, hop_us: Option<u64>) -> int {
    sample_ns(s.block as int) / 2 + match hop_us {
        Some(us) => us * 1000,
        None => sample_ns(s.block as int),
    } + sample_ns(s.crossfade + FRAME + s.lookahead) + 40_000_000
}

/// The estimated time from mouth to ear, in nanoseconds.
pub fn latency_ns(s: &Settings, hop_us: Option<u64>) -> (r: u128)
    ensures
        r == latency_of(*s, hop_us),
{
    let block = s.block as u128 * 62_500;
    let hop: u128 = match hop_us {
        Some(us) => us as u128 * 1000,
        None => block,
    };
    block / 2 + hop + (s.crossfade as u128 + FRAME as u128 + s.lookahead as u128) * 62_500
        + 40_000_000
}

/// A slider's position for a size: whole content features.
pub fn slider_steps(v: usize) -> (r: usize)
    ensures
        r == v as int / FRAME as int,
        320 * r <= v < 320 * (r + 1),
{
    v / FRAME
}

/// The size that a slider's position stands for, within the slider's range.
pub open spec fn slider_size(steps: int, lo: int, hi: int) -> int {
    let first = lo / (FRAME as int);
    let last = hi / (FRAME as int);
    let at = if steps < first {
        first
    } else if steps > last {
        last
    } else {
        steps
    };
    at * FRAME
}

/// The size that a slider's position stands for, within the slider's range.
pub fn slider_value(steps: i64, lo: usize, hi: usize) -> (r: usize)
    requires
        lo <= hi <= i64::MAX,
    ensures
        r == slider_size(steps as int, lo as int, hi as int),
{
    let first: i64 = (lo / FRAME) as i64;
    let last: i64 = (hi / FRAME) as i64;
    let at: i64 = if steps < first {
        first
    } else if steps > last {
        last
    } else {
        steps
    };
    at as usize * FRAME
}

/// A slider only gives sizes that a stream accepts: multiples of one content feature; and it
/// gives an aligned size in its range back unchanged.
pub proof fn law_slider_stays_aligned(steps: int, v: int, lo: int, hi: int)
    requires
        0 <= lo <= hi,
        lo % (FRAME as int) == 0,
    ensures
        slider_size(steps, lo, hi) % (FRAME as int) == 0,
        lo <= slider_size(steps, lo, hi) <= hi,
        lo <= v <= hi && v % (FRAME as int) == 0 ==> slider_size(v / (FRAME as int), lo, hi) == v,
{
}

/// A meter follows a rising level at once; above the level it loses eight hundredths of the
/// distance with every look. While nothing runs it loses a tenth.
pub proof fn law_meters_rise_at_once_and_fall_slowly<T>(
    n: Num<T>,
    m: Reals<T>,
    peak: T,
    level_milli: u64,
)
    requires
        m.computes(n),
        m.orders(n),
    ensures
        ({
            let p = m.of(peak);
            let next = m.of(peak_after(n, peak, Some(level_milli)));
            let idle = m.of(peak_after(n, peak, None));
            let level = level_milli as real;
            &&& level >= 1000real * p ==> 1000real * next == level
            &&& level < 1000real * p ==> 100000real * (p - next) == 8real * (1000real * p - level)
            &&& 10real * (p - idle) == p
        }),
{
    lemma_integer(n, m, 1000);
    let at = n.over(n.count(level_milli), n.integer(1000));
    let (p, l, x) = (m.of(peak), m.of(at), level_milli as real);
    assert(m.of(n.count(level_milli)) == x);
    assert(m.of(n.ratio(92, 100)) == (92i64 as real) / (100i64 as real));
    assert(m.of(n.ratio(8, 100)) == (8i64 as real) / (100i64 as real));
    assert(m.of(n.ratio(9, 10)) == (9i64 as real) / (10i64 as real));
    assert(1000real * l == x) by (nonlinear_arith)
        requires
            l == x / 1000real,
    ;
    assert(l * (92real / 100real) + l * (8real / 100real) == l) by (nonlinear_arith);
    assert(100real * (p - (p * (92real / 100real) + l * (8real / 100real))) == 8real * (p - l))
        by (nonlinear_arith);
    assert(10real * (p - p * (9real / 10real)) == p) by (nonlinear_arith);
}

/// A meter shows decibels, twenty to every factor of ten below full scale, and no less than a
/// hundred thousandth. Its bar is red from six and yellow from eighteen decibels below full scale;
/// it is full at full scale and empty sixty decibels below.
pub proof fn law_meters_show_decibels<T>(n: Num<T>, m: Reals<T>, peak: T)
    requires
        m.computes(n),
        m.orders(n),
        m.logarithms(n),
    ensures
        ({
            let floor = 1real / 100000real;
            let x = if m.of(peak) >= floor {
                m.of(peak)
            } else {
                floor
            };
            let db = m.of(decibels(n, peak));
            let fill = meter_fill(n, peak);
            &&& db * (m.log)(10real) == 20real * (m.log)(x)
            &&& db >= 0real ==> m.of(fill) == 1real
            &&& db <= -60real ==> m.of(fill) == 0real
            &&& -60real < db < 0real ==> 60real * m.of(fill) == db + 60real
            &&& meter_colour(n, fill) == (if db > -6real {
                Colour::Red
            } else if db > -18real {
                Colour::Yellow
            } else {
                Colour::Green
            })
        }),
{
    lemma_integer(n, m, 20);
    lemma_integer(n, m, 60);
    lemma_integer(n, m, 0);
    lemma_integer(n, m, 1);
    let f = n.ratio(1, 100_000);
    assert(m.of(f) == (1i64 as real) / (100_000i64 as real));
    assert(1real / 100000real > 0real) by (nonlinear_arith);
    assert(m.of(n.ratio(9, 10)) == (9i64 as real) / (10i64 as real));
    assert(m.of(n.ratio(7, 10)) == (7i64 as real) / (10i64 as real));
    let x = m.of(n.larger(peak, f));
    let (a, t) = ((m.log)(x), (m.log)(10real));
    assert((m.log)(1real * 1real) == (m.log)(1real) + (m.log)(1real));
    assert(1real * 1real == 1real);
    assert((m.log)(1real) < t);
    let db = m.of(decibels(n, peak));
    assert(db == 20real * (a / t));
    assert(db * t == 20real * a) by (nonlinear_arith)
        requires
            db == 20real * (a / t),
            t > 0real,
    ;
    let raw = (db + 60real) / 60real;
    assert(60real * raw == db + 60real) by (nonlinear_arith)
        requires
            raw == (db + 60real) / 60real,
    ;
    assert(9real / 10real == (54real / 60real)) by (nonlinear_arith);
    assert(60real * (9real / 10real) == 54real && 60real * (7real / 10real) == 42real)
        by (nonlinear_arith);
}

/// Times are compared in milliseconds, of which a block lasts one for every sixteen samples.
pub proof fn law_budget_is_the_time_of_the_block(us: int, block: int)
    ensures
        over_budget(us, block) <==> (us as real) / 1000real > (block as real) / 16real,
{
    let (t, b) = (us as real, block as real);
    assert((t / 1000real > b / 16real) == (t * 16real > b * 1000real)) by (nonlinear_arith);
    assert((us * 16) as real == t * 16real) by (nonlinear_arith)
        requires
            t == us as real,
    ;
    assert((block * 1000) as real == b * 1000real) by (nonlinear_arith)
        requires
            b == block as real,
    ;
}

/// The load of a hop is its time as a part of the block's.
pub proof fn law_load_is_a_part_of_the_block<T>(n: Num<T>, m: Reals<T>, p50_us: u64, block: usize)
    requires
        m.computes(n),
        block > 0,
    ensures
        m.of(load_of(n, p50_us, block)) * (1000real * (block as real)) == 16real * (p50_us as real),
{
    lemma_integer(n, m, 1000);
    lemma_integer(n, m, 16);
    let (t, b) = (p50_us as real, block as real);
    assert(m.of(n.count(p50_us)) == t);
    assert(m.of(n.count(block as u64)) == b);
    let q = b / 16real;
    assert(q > 0real) by (nonlinear_arith)
        requires
            q == b / 16real,
            b >= 1real,
    ;
    let x = (t / 1000real) / q;
    assert(x * (1000real * b) == 16real * t) by (nonlinear_arith)
        requires
            x == (t / 1000real) / q,
            q == b / 16real,
            q > 0real,
    ;
}

/// The estimated latency, by its parts: one more sample of the block costs half a sample's time,
/// and a sample and a half where a hop counts as a block; one more sample of crossfade or lookahead
/// costs a sample's time; a microsecond of the hop costs itself. With nothing of all that, there
/// remain one content feature and forty milliseconds.
pub proof fn law_latency_adds_up(s: Settings, hop_us: Option<u64>)
    ensures
        32 * latency_of(s, hop_us) == 1_000_000 * (s.block + 2 * s.crossfade + 2 * s.lookahead + 2
            * 320) + 32 * 40_000_000 + match hop_us {
            Some(us) => 32_000 * us,
            None => 2_000_000 * s.block,
        },
{
}

/// The bar of the hops is full at one and a half times the block's time and empty at none; between
/// them it grows evenly.
pub proof fn law_hop_bar_is_full_at_one_and_a_half<T>(n: Num<T>, m: Reals<T>, load: T)
    requires
        m.computes(n),
        m.orders(n),
    ensures
        2real * m.of(load) >= 3real ==> m.of(filled(n, load)) == 1real,
        m.of(load) <= 0real ==> m.of(filled(n, load)) == 0real,
        0real <= m.of(load) && 2real * m.of(load) <= 3real ==> 3real * m.of(filled(n, load))
            == 2real * m.of(load),
{
    lemma_integer(n, m, 1);
    lemma_integer(n, m, 0);
    assert(m.of(n.ratio(3, 2)) == (3i64 as real) / (2i64 as real));
    assert(3real / 2real > 0real) by (nonlinear_arith);
    let (x, y) = (m.of(load), m.of(n.over(load, n.ratio(3, 2))));
    assert(3real * y == 2real * x) by (nonlinear_arith)
        requires
            y == x / (3real / 2real),
    ;
}

/// The bar of the hops is red exactly where the median hop takes longer than its block lasts, and
/// green exactly where neither the median nor the 95th percentile does.
pub proof fn law_hop_bar_is_red_when_late(p50_us: u64, p95_us: u64, block: usize)
    ensures
        ({
            let colour = colour_of_hops(p50_us as int, p95_us as int, block as int);
            let lasts = (block as real) / 16000real;
            let median = (p50_us as real) / 1000000real;
            let slow = (p95_us as real) / 1000000real;
            &&& colour == Colour::Red <==> median > lasts
            &&& colour == Colour::Yellow <==> median <= lasts < slow
            &&& colour == Colour::Green <==> median <= lasts && slow <= lasts
        }),
{
    law_budget_is_the_time_of_the_block(p50_us as int, block as int);
    law_budget_is_the_time_of_the_block(p95_us as int, block as int);
    let (a, b, c) = (p50_us as real, p95_us as real, block as real);
    assert((a / 1000000real > c / 16000real) == (a / 1000real > c / 16real)) by (nonlinear_arith);
    assert((b / 1000000real > c / 16000real) == (b / 1000real > c / 16real)) by (nonlinear_arith);
}

/// A slider that is moved further never gives a smaller size.
pub proof fn law_slider_does_not_turn_back(steps: int, further: int, lo: int, hi: int)
    requires
        0 <= lo <= hi,
        steps <= further,
    ensures
        slider_size(steps, lo, hi) <= slider_size(further, lo, hi),
{
}

/// What the sliders reach, in milliseconds of microphone audio: blocks from 80 to 500, context from
/// 80 to 1000, crossfades from 20 to 120 and lookahead up to 300.
pub proof fn law_slider_ranges(which: Size)
    ensures
        16 * match which {
            Size::Block => 80int,
            Size::Context => 80int,
            Size::Crossfade => 20int,
            Size::Lookahead => 0int,
        } == which.range().0,
        16 * match which {
            Size::Block => 500int,
            Size::Context => 1000int,
            Size::Crossfade => 120int,
            Size::Lookahead => 300int,
        } == which.range().1,
{
}

/// A slider sets its own size and nothing else; within its range to 320 samples for every step.
pub proof fn law_sliders_set_their_own_size(s: Settings, which: Size, steps: int)
    ensures
        ({
            let r = s.resized(which, steps);
            let within = which.range().0 <= 320 * steps <= which.range().1;
            &&& r == (Settings {
                block: r.block,
                ctx_left: r.ctx_left,
                crossfade: r.crossfade,
                lookahead: r.lookahead,
                ..s
            })
            &&& which != Size::Block ==> r.block == s.block
            &&& which != Size::Context ==> r.ctx_left == s.ctx_left
            &&& which != Size::Crossfade ==> r.crossfade == s.crossfade
            &&& which != Size::Lookahead ==> r.lookahead == s.lookahead
            &&& within ==> 320 * steps == match which {
                Size::Block => r.block,
                Size::Context => r.ctx_left,
                Size::Crossfade => r.crossfade,
                Size::Lookahead => r.lookahead,
            }
        }),
{
}

/// The settings lie in the configuration directory, whatever the home directory is. Where none is
/// set, they lie as if it were `.config` in the home directory.
pub proof fn law_settings_lie_below_the_configuration(dir: Seq<char>, home: Option<Seq<char>>)
    ensures
        settings_file(Some(dir), home) == below(dir, "vc-native/settings.json"@),
        settings_file(None, Some(dir)) == settings_file(Some(below(dir, ".config"@)), home),
        settings_file(None, None) == settings_file(Some(".config"@), home),
{
    assert(Seq::<char>::empty() + ".config"@ =~= ".config"@);
}

/// A monitor's module is loaded once and unloaded once: a session that starts with its monitor on
/// loads it; while it is loaded, turning it on again does nothing; turning it off, or stopping, has
/// that very module unloaded, and doing so again does nothing. Nothing is loaded while nothing
/// runs.
pub proof fn law_monitor_is_loaded_and_unloaded_once(s: Session, idx: u32)
    requires
        !s.running,
        s.monitor is None,
    ensures
        ({
            let (on, step) = s.begun();
            let loaded = on.monitoring(idx);
            &&& on.running && on.error is None
            &&& step == MonitorStep::Load <==> s.settings.monitor
            &&& step == MonitorStep::Leave <==> !s.settings.monitor
            &&& loaded.with_monitor(true) == (loaded, MonitorStep::Leave)
            &&& loaded.toggled(true).1 == MonitorStep::Leave
            &&& loaded.toggled(false).1 == MonitorStep::Unload(idx)
            &&& loaded.toggled(false).0.toggled(false).1 == MonitorStep::Leave
            &&& loaded.toggled(false).0.toggled(true).1 == MonitorStep::Load
            &&& loaded.with_monitor(false).1 == MonitorStep::Unload(idx)
            &&& loaded.stopped().with_monitor(false).1 == MonitorStep::Leave
            &&& !loaded.stopped().running
        }),
        s.toggled(true).1 == MonitorStep::Leave,
        s.toggled(false).1 == MonitorStep::Leave,
        forall|on: bool| (#[trigger] s.toggled(on)).0.settings.monitor == on && !s.toggled(on).0.saved,
{
}

/// Both sessions have the same settings, and both or neither have them on disk.
pub open spec fn same_settings(s: Session, other: Session) -> bool {
    s.settings == other.settings && s.saved == other.saved
}

/// Starting and stopping leave the settings alone: a start that fails leaves everything as it was
/// but for what is said of it; one that succeeds only forgets that; a stop only ends what runs.
/// Loading and unloading the monitor's module changes nothing else.
pub proof fn law_running_leaves_the_settings_alone(s: Session, e: String, idx: u32)
    ensures
        same_settings(s, s.refused(e)),
        s.refused(e).error == Some(e),
        s.refused(e).running == s.running,
        s.refused(e).monitor == s.monitor,
        same_settings(s, s.begun().0),
        s.begun().0.monitor == s.monitor,
        same_settings(s, s.stopped()),
        s.stopped().error == s.error,
        same_settings(s, s.monitoring(idx)),
        s.monitoring(idx).error == s.error,
        s.monitoring(idx).running == s.running,
        forall|on: bool| same_settings(s, (#[trigger] s.with_monitor(on)).0),
        forall|on: bool| (#[trigger] s.with_monitor(on)).0.error == s.error,
        forall|on: bool| (#[trigger] s.with_monitor(on)).0.running == s.running,
        forall|on: bool| (#[trigger] s.toggled(on)).0.error == s.error,
        forall|on: bool| (#[trigger] s.toggled(on)).0.running == s.running,
{
}

/// The session runs, monitors and complains as `other` does.
pub open spec fn same_state(s: Session, other: Session) -> bool {
    s.running == other.running && s.monitor == other.monitor && s.error == other.error
}

/// A changed setting is written once, and changes neither the other settings nor what runs.
pub proof fn law_settings_change_one_by_one(
    s: Session,
    semitones: i32,
    input: Option<String>,
    which: Size,
    steps: int,
)
    ensures
        same_state(s, s.pitched(semitones)),
        !s.pitched(semitones).saved,
        s.pitched(semitones).settings.pitch == semitones,
        s.pitched(semitones).pitched(s.settings.pitch).settings == s.settings,
        same_state(s, s.listening(input)),
        !s.listening(input).saved,
        s.listening(input).settings.input == input,
        s.listening(input).listening(s.settings.input).settings == s.settings,
        same_state(s, s.sized(which, steps)),
        !s.sized(which, steps).saved,
        s.sized(which, steps).settings.pitch == s.settings.pitch,
        s.sized(which, steps).settings.input == s.settings.input,
        same_state(s, s.written()),
        s.written().saved,
        s.written().settings == s.settings,
        s.toggled(true).0.toggled(s.settings.monitor).0.settings == s.settings,
{
}

/// A bar whose fill cannot be compared is green.
pub proof fn law_incomparable_bar_is_green<T>(n: Num<T>, fill: T)
    requires
        forall|limit: T| #[trigger] (n.rel)(fill, limit) == Rel::Unordered,
    ensures
        meter_colour(n, fill) == Colour::Green,
{
}

} // verus!
