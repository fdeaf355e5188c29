use vc_native::arith::{Arith, Op, Rel};
use vc_native::gui::{
    hop_colour, hop_fill, hop_load, latency_ns, monitor_args, next_peak, settings_path,
    slider_steps, slider_value, vu, Colour, MonitorStep, Session, Settings, Size,
};
use vc_native::live::play_target;
use vc_native::nodes::{
    capture_target, list_sources, node_id, node_serial, nodes_from, pick_hw_source, probe_entry,
    read_nodes, Leaf,
};
use vc_native::text::{contains, contains_word, parse_number, starts_with};
use vc_native::virtmic::{MicError, ModuleSlot, ToolReply, VirtMic};
use vc_native::wav::{mix_down, quantize, quantize_all, write_wav16, Samples};

fn op(o: Op<f32>) -> f32 {
    match o {
        Op::Ratio(n, d) => (n as f64 / d as f64) as f32,
        Op::Count(k) => k as f32,
        Op::Pi => std::f32::consts::PI,
        Op::Lowest => f32::MIN,
        Op::Nan => f32::NAN,
        Op::Add(a, b) => a + b,
        Op::Sub(a, b) => a - b,
        Op::Mul(a, b) => a * b,
        Op::Div(a, b) => a / b,
        Op::Max(a, b) => a.max(b),
        Op::Abs(a) => a.abs(),
        Op::Sqrt(a) => a.sqrt(),
        Op::Exp2(a) => a.exp2(),
        Op::Log2(a) => a.log2(),
        Op::Log10(a) => a.log10(),
        Op::Ln(a) => a.ln(),
        Op::Sin(a) => a.sin(),
        Op::Cos(a) => a.cos(),
        Op::Round(a) => a.round(),
    }
}

fn rel(a: f32, b: f32) -> Rel {
    if a < b {
        Rel::Less
    } else if a > b {
        Rel::Greater
    } else if a == b {
        Rel::Equal
    } else {
        Rel::Unordered
    }
}

fn whole(a: f32) -> i128 {
    a as i128
}

fn reply(success: bool, stdout: &str, stderr: &str) -> ToolReply {
    ToolReply { success, stdout: stdout.to_string(), stderr: stderr.to_string() }
}

#[test]
fn stale_modules_are_matched_by_exact_name() {
    let list = "1\tmodule-null-sink\tsink_name=vc_mic media.class=Audio\n\
                2\tmodule-null-sink\tsink_name=vc_mic2 media.class=Audio\n\
                3\tmodule-loopback\tsink_name=vc_mic\n\
                4\tmodule-null-sink\tmedia.class=Audio sink_name=vc_mic\r\n\
                5\tmodule-null-sink\tx_sink_name=vc_mic\n\
                \n\
                6 module-null-sink sink_name=vc_mic";
    assert_eq!(VirtMic::cleanup_stale("vc_mic", list), vec!["1", "4", "6"]);
    assert_eq!(VirtMic::cleanup_stale("vc_mic2", list), vec!["2"]);
    assert!(VirtMic::cleanup_stale("other", list).is_empty());
    assert!(VirtMic::cleanup_stale("vc_mic", "").is_empty());
}

#[test]
fn the_microphone_module_is_loaded() {
    assert_eq!(
        VirtMic::load_args("vc_mic"),
        vec![
            "load-module",
            "module-null-sink",
            "sink_name=vc_mic",
            "sink_properties=device.description=VC-Mic",
            "media.class=Audio/Source/Virtual",
            "audio.position=[MONO]",
        ]
    );
    let (mic, idx) = VirtMic::create("vc_mic", Some(reply(true, "536870917\n", ""))).unwrap();
    assert_eq!(mic.node_name, "vc_mic");
    assert_eq!(idx, 536870917);
    assert!(matches!(VirtMic::create("m", None), Err(MicError::NoTool)));
    assert!(matches!(
        VirtMic::create("m", Some(reply(false, "1", "refused"))),
        Err(MicError::LoadFailed(e)) if e == "refused"
    ));
    assert!(matches!(
        VirtMic::create("m", Some(reply(true, "none", ""))),
        Err(MicError::BadIndex)
    ));
}

#[test]
fn a_module_is_torn_down_once() {
    let mut slot = ModuleSlot::new();
    assert_eq!(slot.teardown(), None);
    slot.store(17);
    assert_eq!(slot.teardown(), Some(17));
    assert_eq!(slot.teardown(), None);
}

#[test]
fn numbers_are_read_like_integers() {
    for s in [
        "0", " 12 ", "+7", "4294967295", "4294967296", "", "+", "-1", "1 2", "0007", "12a", "++1",
        "99999999999999999999", "\u{2003}5\u{a0}", "\u{200b}5", "\t8\r\n", "00000000000000000000009",
    ] {
        assert_eq!(parse_number(s), s.trim().parse::<u32>().ok(), "{s:?}");
    }
}

#[test]
fn text_is_searched() {
    let c = |s: &str| s.chars().collect::<Vec<char>>();
    assert!(contains(&c("abcabd"), &c("abd")));
    assert!(!contains(&c("abcab"), &c("abd")));
    assert!(contains(&c(""), &c("")));
    assert!(contains_word(&c("a bc d"), &c("bc")));
    assert!(!contains_word(&c("a bcd"), &c("bc")));
    assert!(contains_word(&c("xbc bc"), &c("bc")));
    assert!(starts_with("Audio/Sink", "Audio/"));
    assert!(!starts_with("Audio", "Audio/"));
}

const DUMP: &str = r#"[
  {"id": 30, "type": "Core"},
  {"id": 31, "info": {"state": "x"}},
  {"id": 32, "info": {"props": {"node.name": "vc_mic", "media.class": "Audio/Source"}}},
  {"id": 4294967329, "info": {"props": {"node.name": "vc_mic", "object.serial": 77,
      "media.class": "Audio/Source/Virtual"}}},
  {"id": 34, "info": {"props": {"node.name": "alsa_input.pci-1", "media.class": "Audio/Source",
      "node.description": "Built-in"}}},
  {"id": 35, "info": {"props": {"node.name": "alsa_input.usb-Antlion", "object.serial": "s5",
      "media.class": "Audio/Source"}}},
  {"id": "x", "info": {"props": {"node.name": "alsa_output.pci-1", "media.class": "Audio/Sink"}}},
  {"id": 37, "info": {"props": {"node.name": "", "media.class": "Audio/Source"}}},
  {"id": 38, "info": {"props": {"media.class": "Audio/Source", "node.name": 5}}},
  3
]"#;

#[test]
fn nodes_are_found_in_the_dump() {
    let nodes = read_nodes(DUMP.as_bytes()).unwrap();
    assert_eq!(nodes.len(), 7);
    assert_eq!(node_serial(&nodes, "vc_mic"), Some("77".to_string()));
    assert_eq!(node_serial(&nodes, "alsa_input.usb-Antlion"), Some("\"s5\"".to_string()));
    assert_eq!(node_serial(&nodes, "alsa_input.pci-1"), None);
    assert_eq!(node_id(&nodes, "vc_mic"), Some(32));
    assert_eq!(node_id(&nodes, "alsa_output.pci-1"), None);
    assert_eq!(node_id(&nodes, "nobody"), None);
    assert_eq!(pick_hw_source(&nodes), Some("alsa_input.pci-1".to_string()));
    assert_eq!(capture_target(&None, &nodes), Some("alsa_input.usb-Antlion".to_string()));
    assert_eq!(capture_target(&Some("x".to_string()), &nodes), Some("x".to_string()));
    assert_eq!(play_target(&nodes, &"vc_mic".to_string()), "77");
    assert_eq!(play_target(&nodes, &"nobody".to_string()), "nobody");
    assert_eq!(
        list_sources(&nodes),
        vec![
            ("alsa_input.pci-1".to_string(), "Built-in".to_string()),
            ("alsa_input.usb-Antlion".to_string(), "alsa_input.usb-Antlion".to_string()),
        ]
    );
    assert!(read_nodes(b"{}").is_none());
    assert!(read_nodes(b"[").is_none());
    assert_eq!(read_nodes(b"[]").unwrap().len(), 0);
    assert_eq!(node_id(&nodes[1..2].iter().map(|n| vc_native::nodes::PwNode {
        id: n.id,
        name: n.name.clone(),
        class: None,
        description: None,
        serial: None,
    }).collect(), "vc_mic"), Some(33));
    assert_eq!(capture_target(&None, &vec![]), None);
}

#[test]
fn a_serial_is_read_once() {
    let texts = [
        "0.1234567890123456789",
        "2.2250738585072011e-308",
        "1e23",
        "9007199254740993.5",
        "18446744073709551615",
    ];
    for digits in texts {
        let dump = format!(
            r#"[{{"id":1,"info":{{"props":{{"node.name":"n","object.serial":{digits}}}}}}}]"#
        );
        let nodes = read_nodes(dump.as_bytes()).unwrap();
        let direct: serde_json::Value = serde_json::from_str(digits).unwrap();
        assert_eq!(node_serial(&nodes, "n"), Some(direct.to_string()));
    }
}

#[test]
fn leaves_make_nodes() {
    let leaf = |string: Option<&str>, number: Option<u64>, json: &str| {
        Some(Leaf { string: string.map(String::from), number, json: json.to_string() })
    };
    let row = vec![
        leaf(None, None, "{}"),
        leaf(None, Some(7), "7"),
        leaf(Some("mic"), None, "\"mic\""),
        leaf(None, Some(3), "3"),
        None,
        leaf(None, None, "0.5"),
    ];
    let bare = vec![None, leaf(None, Some(8), "8"), None, None, None, None];
    let nodes = nodes_from(&vec![bare, row]);
    assert_eq!(nodes.len(), 1);
    assert_eq!((nodes[0].id, nodes[0].name.as_deref()), (Some(7), Some("mic")));
    assert!(nodes[0].class.is_none() && nodes[0].description.is_none());
    assert_eq!(nodes[0].serial.as_deref(), Some("0.5"));
}

#[test]
fn a_probe_shows_audio_nodes() {
    let s = |t: &str| Some(t.to_string());
    let entry = |c: &str, l: &str| Some((c.to_string(), l.to_string()));
    assert_eq!(probe_entry(s("Audio/Sink"), s("Speakers"), s("n")), entry("Audio/Sink", "Speakers"));
    assert_eq!(probe_entry(s("Audio/Sink"), None, s("n")), entry("Audio/Sink", "n"));
    assert_eq!(probe_entry(s("Audio/Sink"), None, None), entry("Audio/Sink", "?"));
    assert_eq!(probe_entry(s("Video/Source"), s("Cam"), None), None);
    assert_eq!(probe_entry(None, s("Cam"), None), None);
}

#[test]
fn a_session_starts_and_stops() {
    let mut s = Session::new(Settings { monitor: true, ..Settings::default() });
    assert_eq!(s.started(Err("no root".to_string())), MonitorStep::Leave);
    assert_eq!(s.error.as_deref(), Some("no root"));
    assert!(!s.running);
    assert_eq!(s.started(Ok(())), MonitorStep::Load);
    assert!(s.running && s.error.is_none());
    s.monitor_loaded(Some(reply(true, "12\n", "")));
    assert_eq!(s.monitor, Some(12));
    assert_eq!(s.set_monitor(true), MonitorStep::Leave);
    assert_eq!(s.toggle_monitor(false), MonitorStep::Unload(12));
    assert!(!s.saved && !s.settings.monitor);
    assert!(s.take_save());
    assert!(!s.take_save());
    assert_eq!(s.toggle_monitor(true), MonitorStep::Load);
    s.monitor_loaded(Some(reply(false, "13", "")));
    s.monitor_loaded(None);
    assert_eq!(s.monitor, None);
    s.monitor_loaded(Some(reply(true, "14", "")));
    assert_eq!(s.stop(), (MonitorStep::Unload(14), true));
    assert_eq!(s.stop(), (MonitorStep::Leave, false));
    assert_eq!(s.toggle_monitor(false), MonitorStep::Leave);
    assert_eq!(
        monitor_args(),
        vec!["load-module", "module-loopback", "source=vc_mic", "latency_msec=60"]
    );
}

#[test]
fn settings_become_a_configuration() {
    let d = Settings::default();
    assert_eq!((d.v, d.block, d.ctx_left, d.crossfade, d.lookahead), (1, 2560, 4160, 640, 0));
    let mut s = Session::new(d);
    assert_eq!(s.input_label(), "(auto: usb mic)");
    s.select_input(Some("mic".to_string()));
    assert_eq!(s.input_label(), "mic");
    assert!(!s.set_pitch(-5));
    s.set_size(Size::Block, 10);
    s.set_size(Size::Context, 1);
    s.set_size(Size::Crossfade, 99);
    s.set_size(Size::Lookahead, 15);
    assert!(s.take_save());
    let c = s.cfg();
    assert_eq!((c.block, c.ctx_left, c.crossfade, c.lookahead), (3200, 1280, 1920, 4800));
    assert_eq!((c.pitch, c.input.as_deref()), (-5, Some("mic")));
    assert_eq!(c.mic_name, "vc_mic");
    s.started(Ok(()));
    assert!(s.set_pitch(2));
    assert_eq!(slider_steps(2560), 8);
    assert_eq!(slider_value(8, 1280, 8000), 2560);
    assert_eq!(slider_value(-1, 1280, 8000), 1280);
}

#[test]
fn settings_lie_below_the_configuration_directory() {
    let s = |t: &str| Some(t.to_string());
    assert_eq!(settings_path(s("/x"), s("/home/u")), "/x/vc-native/settings.json");
    assert_eq!(settings_path(None, s("/home/u")), "/home/u/.config/vc-native/settings.json");
    assert_eq!(settings_path(None, None), ".config/vc-native/settings.json");
}

#[test]
fn meters() {
    let ar = Arith::new(op, rel, whole);
    let (db, fill, colour) = vu(&ar, 1.0f32);
    assert_eq!((db, fill, colour), (0.0, 1.0, Colour::Red));
    let (db, fill, colour) = vu(&ar, 0.0f32);
    assert!((db + 100.0).abs() < 1e-3);
    assert_eq!((fill, colour), (0.0, Colour::Green));
    let (_, _, colour) = vu(&ar, 0.2f32);
    assert_eq!(colour, Colour::Yellow);
    assert_eq!(next_peak(&ar, 0.5f32, None), 0.5 * 0.9);
    assert_eq!(next_peak(&ar, 0.5f32, Some(250)), 0.5 * 0.92 + 0.25 * 0.08);
    assert_eq!(next_peak(&ar, 0.1f32, Some(250)), 0.25 * 0.92 + 0.25 * 0.08);
}

#[test]
fn hop_colours_and_latency() {
    let ar = Arith::new(op, rel, whole);
    assert_eq!(hop_load(&ar, 80_000, 2560), 0.5);
    assert_eq!(hop_fill(&ar, 0.75), 0.5);
    assert_eq!((hop_fill(&ar, 0.0), hop_fill(&ar, 1.5), hop_fill(&ar, 9.0)), (0.0, 1.0, 1.0));
    assert_eq!(hop_colour(160_001, 170_000, 2560), Colour::Red);
    assert_eq!(hop_colour(160_000, 160_001, 2560), Colour::Yellow);
    assert_eq!(hop_colour(160_000, 160_000, 2560), Colour::Green);
    let s = Settings::default();
    assert_eq!(latency_ns(&s, Some(147_000)), 80_000_000 + 147_000_000 + 60_000_000 + 40_000_000);
    assert_eq!(latency_ns(&s, None), 80_000_000 + 160_000_000 + 60_000_000 + 40_000_000);
}

#[test]
fn samples_are_quantized() {
    let ar = Arith::new(op, rel, whole);
    assert_eq!(
        quantize_all(&ar, &[0.0f32, 1.0, -1.0, 2.0, -7.0, 0.5, -0.00002, f32::NAN]),
        vec![0, 32767, -32767, 32767, -32767, 16383, 0, 0]
    );
    assert_eq!(quantize(&ar, 0.25f32), 8191);
}

#[test]
fn a_written_file_reads_back() {
    let ar = Arith::new(op, rel, whole);
    let samples = [0.0f32, 0.5, -0.5, 1.5, -1.0, 0.001];
    let bytes = write_wav16(&ar, &samples);
    assert_eq!(bytes.len(), 44 + 12);
    let mut r = hound::WavReader::new(std::io::Cursor::new(bytes)).unwrap();
    assert_eq!(r.spec().sample_rate, 16000);
    assert_eq!(r.spec().channels, 1);
    assert_eq!(r.spec().bits_per_sample, 16);
    let back: Vec<i16> = r.samples::<i16>().map(|s| s.unwrap()).collect();
    assert_eq!(back, quantize_all(&ar, &samples));
}

#[test]
fn channels_are_mixed_down() {
    let ar = Arith::new(op, rel, whole);
    let xs = Samples::Float(vec![1.0f32, 0.0, 0.5, 0.25, 1.0]);
    assert_eq!(mix_down(&ar, xs, 2), Some(vec![0.5, 0.375, 0.5]));
    let ints = Samples::Int { bits: 16, values: vec![-32768, 16384, 0] };
    assert_eq!(mix_down(&ar, ints, 1), Some(vec![-1.0f32, 0.5, 0.0]));
    let wide = Samples::Int { bits: 32, values: vec![i32::MIN, 1 << 30] };
    assert_eq!(mix_down(&ar, wide, 1), Some(vec![-1.0f32, 0.5]));
    let narrow = Samples::Int { bits: 1, values: vec![1] };
    assert_eq!(mix_down(&ar, narrow, 1), Some(vec![1.0f32]));
    assert_eq!(mix_down(&ar, Samples::Float(vec![1.0f32]), 0), None);
    assert_eq!(mix_down(&ar, Samples::Float(Vec::<f32>::new()), 2), Some(vec![]));
}
