//! The player: options, input, scripts, the frame pump and sound.

use eapp_tools::frame::{
    candidate, deliver, hands_over, link_completions, next_candidate, next_floor, pack_rgb, paces_clock,
    plan_vectors, previous_candidate,
};
use eapp_tools::input::{
    event_type_for, held_side, idle_hands, post_event, post_quit, press, press_button, refill, retire,
    select_or_age, side, step_wheel, touch, turn, use_events, wheel_byte, Effect, HoldTimers, Pad,
    BTN_MENU, BTN_NEXT, BTN_PLAY, BTN_PREV, BTN_SELECT, QUARTER_BOTTOM, QUARTER_LEFT, QUARTER_RIGHT,
    QUARTER_TOP,
};
use eapp_tools::journal::{
    is_draw, is_file_op, is_rare_audio, is_upload, order_by_bytes, render_arrival, render_button,
    render_caller, render_census, render_contact, render_page, render_registers, render_trace,
    render_trail, render_turn, render_write, tail_start,
};
use eapp_tools::options::{
    answer_offset, async_files, battery, bloom_bit, frame_micros, frame_reason, game_dir, goes_on,
    load_on_open, muted, next_reason, opt, opt_address, opt_byte, opt_signed, opt_word, parse_addresses,
    parse_memory_range, parse_numbers, parse_poke, parse_reason, render_refusal, run_mode, scale,
    unknown_flags, AddressOption,
};
use eapp_tools::reaper::{forget, reap_all, track, Registry, SLOTS};
use eapp_tools::script::{
    act, is_due, parse_script, read_action, render_action, render_action_parts, Action, ScriptError,
};
use eapp_tools::sound::{
    after_track, ask_for, is_resource, reap, render_effect, render_track, repeats, start, stop, Answer,
    Track, Voice,
};
use eapp_tools::stats::{
    arrivals, busiest_of, hottest, rank, render_call, render_edge, render_hot, render_memory,
    render_summary, span,
};
use eapp_tools::titles::{
    defaults_for, display_name, known_flags, known_press_times, may_create, MINIGOLF_FLAGS,
    MINIGOLF_PRESS_TIMES,
};

fn args(v: &[&str]) -> Vec<String> {
    v.iter().map(|s| s.to_string()).collect()
}

/// Effects as text, for comparison.
fn show(v: &[Effect]) -> Vec<String> {
    v.iter()
        .map(|e| match e {
            Effect::SetBits { addr, bits } => format!("set {addr:x} {bits:x}"),
            Effect::ClearBits { addr, bits } => format!("clear {addr:x} {bits:x}"),
            Effect::CopyWord { from, to } => format!("copy {from:x} {to:x}"),
            Effect::Poke8 { addr, byte } => format!("b {addr:x} {byte:x}"),
            Effect::Poke32 { addr, word } => format!("w {addr:x} {word:x}"),
            Effect::Queue { byte } => format!("queue {byte}"),
            Effect::ClearQueue => "drop".to_string(),
        })
        .collect()
}

const NO_TIMERS: HoldTimers = HoldTimers { at: None, clock_at: 0x1004 };

fn flags_pad() -> Pad {
    Pad {
        flags: Some(0x100),
        events: false,
        ctx: 0x1000,
        node: 0x2000,
        timers: HoldTimers { at: Some(0x200), clock_at: 0x1004 },
        top: 0,
        rotate: true,
    }
}

fn events_pad() -> Pad {
    Pad {
        flags: None,
        events: true,
        ctx: 0x1000,
        node: 0x2000,
        timers: NO_TIMERS,
        top: 0,
        rotate: false,
    }
}

// ---------------------------------------------------------------- reaper

#[test]
fn tracked_processes_are_reaped_once() {
    let mut r = Registry::new();
    track(&mut r, 7);
    track(&mut r, 9);
    track(&mut r, 11);
    forget(&mut r, 9);
    forget(&mut r, 1234);
    track(&mut r, 13);
    assert_eq!(reap_all(&mut r), vec![7, 13, 11]);
    assert!(reap_all(&mut r).is_empty());
}

#[test]
fn a_full_register_records_nothing_more() {
    let mut r = Registry::new();
    for pid in 1..=SLOTS as u32 + 3 {
        track(&mut r, pid);
    }
    let all: Vec<i32> = (1..=SLOTS as i32).collect();
    assert_eq!(reap_all(&mut r), all);
}

// ---------------------------------------------------------------- titles

#[test]
fn titles_have_their_settings() {
    let s = defaults_for("Sudoku_1_1_2703081");
    assert_eq!((s.frame_reason, s.pump_mark, s.budget), (Some("first0:1"), Some(2), None));
    assert_eq!(defaults_for("mspacman").pump_mark, Some(2));
    assert_eq!(defaults_for("Solitaire").budget, Some(200_000_000));
    let t = defaults_for("testprep");
    assert_eq!((t.frame_reason, t.budget, t.pump_mark), (Some("auto"), Some(200_000_000), None));
    assert_eq!(defaults_for("SimsBowling").frame_reason, Some("auto"));
    assert_eq!(defaults_for("SimsPool").frame_reason, Some("auto"));
    assert_eq!(defaults_for("Lost").frame_reason, Some("first0:1"));
    let h = defaults_for("HoldEm");
    assert_eq!((h.frame_reason, h.ctx_seed, h.async_files), (Some("1"), 0, true));
    let v = defaults_for("vortex");
    assert_eq!((v.fps, v.async_files, v.ctx_seed, v.frame_reason), (Some(30), true, 5, None));
    assert!(!defaults_for("Pacman_1_1_2563976").load_on_open);
    let d = defaults_for("Zuma");
    assert!(d.load_on_open && d.frame_reason.is_none() && d.fps.is_none() && !d.async_files);
    assert!(may_create("testprep", false) && may_create("vortex", false) && may_create("x", true));
    assert!(!may_create("Zuma", false));
    assert_eq!(known_flags("Minigolf_1_1_5.bin"), Some(MINIGOLF_FLAGS));
    assert_eq!(known_flags("Zuma.bin"), None);
    assert_eq!(known_press_times("xMinigolf"), Some(MINIGOLF_PRESS_TIMES));
    assert_eq!(known_press_times("Zuma.bin"), None);
}

#[test]
fn names_fall_back() {
    assert_eq!(display_name(Some("Mini Golf"), "Minigolf_1_1_5", Some("88888")), "Mini Golf");
    assert_eq!(display_name(None, "Sudoku_1_1_2703081", Some("50513")), "Sudoku");
    assert_eq!(display_name(None, "", Some("50513")), "50513");
    assert_eq!(display_name(None, "", None), "iPod");
}

// ---------------------------------------------------------------- options

#[test]
fn unknown_options_are_refused() {
    let a = args(&["game.bin", "--mute", "--scale=3", "--bogus", "--headless", "--frames=120", "--fps"]);
    let bad = unknown_flags(&a);
    assert_eq!(bad, vec!["--bogus", "--fps"]);
    let text = render_refusal(&bad);
    assert!(text.starts_with("unknown flag(s): --bogus --fps\nknown: --allow-creates --call-terminate-vector "));
    assert!(text.contains(" --wheel-rotate --battery=… --budget=… "));
    assert!(text.ends_with("--wheel-sensitivity=… --wheel-top=\n"));
    assert!(unknown_flags(&args(&["g", "--fixed-clock", "--fps=0"])).is_empty());
}

#[test]
fn batch_runs_are_silent() {
    assert!(!muted(&args(&["g"])));
    assert!(muted(&args(&["g", "--mute"])));
    assert!(muted(&args(&["g", "--script=x"])));
    assert!(muted(&args(&["g", "--headless"])));
    assert!(!muted(&args(&["g", "--headless", "--audio"])));
    assert!(!muted(&args(&["g", "--script=x", "--audio"])));
}

#[test]
fn a_run_without_a_window_needs_an_end() {
    assert!(run_mode(&args(&["g", "--headless"])).is_none());
    assert!(run_mode(&args(&["g", "--headless", "--frames=x"])).is_none());
    let r = run_mode(&args(&["g", "--headless", "--frames=120"])).unwrap();
    assert!(r.headless && r.limit == Some(120));
    assert!(goes_on(r, 119) && !goes_on(r, 120));
    let w = run_mode(&args(&["g"])).unwrap();
    assert!(!w.headless && w.limit.is_none() && goes_on(w, 1_000_000));
}

#[test]
fn option_values_are_read() {
    let a = args(&["--fps=30", "--fps=60", "--budget=x", "--pump-mark=300", "--ctx-seed=0", "--wheel-top=-64"]);
    assert_eq!(opt(&a, "--fps=", 1), 30);
    assert_eq!(opt(&a, "--budget=", 8), 8);
    assert_eq!(opt(&a, "--scale=", 3), 3);
    assert_eq!(opt_byte(&a, "--pump-mark="), None);
    assert_eq!(opt_byte(&a, "--ctx-seed="), Some(0));
    assert_eq!(opt_signed(&a, "--wheel-top=", 0), -64);
    assert_eq!(opt_signed(&a, "--fps=x", 5), 5);
    assert_eq!(battery(&args(&["--battery=250"])), Some(100));
    assert_eq!(battery(&args(&["--battery=7"])), Some(7));
    assert_eq!(battery(&args(&["--battery=256"])), None);
    assert!(load_on_open(&args(&["--load-on-open", "--no-load-on-open"]), false));
    assert!(!load_on_open(&args(&["--no-load-on-open"]), true));
    assert!(load_on_open(&args(&[]), true));
    assert!(async_files(&args(&[])));
    assert!(!async_files(&args(&["--sync-files"])));
    assert_eq!([1, 2, 3, 4, 8, 9].map(scale), [1, 2, 4, 4, 8, 4]);
    assert_eq!(frame_micros(0), 0);
    assert_eq!(frame_micros(60), 16_666);
}

#[test]
fn addresses_and_words_are_read() {
    assert_eq!(parse_addresses("0x10, 20,zz,0x0xff"), vec![0x10, 0x20, 0xff]);
    assert_eq!(parse_poke("0x100=1,2"), Some((0x100, vec![1, 2])));
    assert_eq!(parse_poke("100="), None);
    assert_eq!(parse_poke("100"), None);
    assert_eq!(parse_poke("xx=1"), None);
    assert!(matches!(opt_address(&args(&["--flags-addr=0x18"]), "--flags-addr="), AddressOption::Given(0x18)));
    assert!(matches!(opt_address(&args(&["--flags-addr= 18"]), "--flags-addr="), AddressOption::Bad));
    assert!(matches!(opt_address(&args(&[]), "--flags-addr="), AddressOption::Absent));
    assert_eq!(opt_word(&args(&["--watch-mem= 0x18 "]), "--watch-mem="), Some(0x18));
    assert_eq!(opt_word(&args(&["--watch-mem=q"]), "--watch-mem="), None);
    assert_eq!(bloom_bit(0x1800_0004), 2);
    assert_eq!(bloom_bit(0xfc), 1 << 63);
    assert_eq!(parse_memory_range("0x100: 16"), Some((0x100, 16)));
    assert_eq!(parse_memory_range("100"), Some((0x100, 8)));
    assert_eq!(parse_memory_range("100:x"), Some((0x100, 8)));
    assert_eq!(parse_memory_range("q:1"), None);
    assert_eq!(parse_numbers("1, 22,x"), vec![1, 22]);
}

#[test]
fn reasons_follow_their_mode() {
    let auto = parse_reason("auto:3");
    assert!(auto.auto && !auto.first0 && auto.steady == 3);
    assert_eq!(next_reason(auto, 5, 0, None), Some(0));
    assert_eq!(next_reason(auto, 5, 1, None), Some(3));
    assert_eq!(next_reason(auto, 5, 2, Some(2)), Some(0));
    let first = parse_reason("first0:1");
    assert_eq!(next_reason(first, 0, 9, None), Some(0));
    assert_eq!(next_reason(first, 1, 9, None), Some(1));
    let one = parse_reason("4");
    assert_eq!((one.constant, one.steady), (Some(4), 1));
    assert_eq!(next_reason(one, 7, 0, None), Some(4));
    assert_eq!(next_reason(frame_reason(&args(&[]), None), 7, 0, None), None);
    assert_eq!(frame_reason(&args(&["--frame-reason=6"]), Some("auto")).constant, Some(6));
    assert!(frame_reason(&args(&[]), Some("auto")).auto);
    assert_eq!(answer_offset(0), 0x100);
    assert_eq!(answer_offset(0x100), 0);
}

// ---------------------------------------------------------------- wheel and buttons

#[test]
fn the_wheel_has_ninety_six_bytes() {
    assert_eq!(wheel_byte(119), 0);
    assert_eq!(wheel_byte(118), 2);
    assert_eq!(wheel_byte(0), 61);
    assert_eq!(wheel_byte(3), wheel_byte(99));
    let mut seen: Vec<u8> = (0..120).map(wheel_byte).collect();
    seen.sort();
    seen.dedup();
    assert_eq!(seen.len(), 96);
    assert_eq!(step_wheel(0, true), 119);
    assert_eq!(step_wheel(119, false), 0);
    assert_eq!((side(0, QUARTER_RIGHT), side(0, QUARTER_TOP)), (0, 64));
    assert_eq!((side(0, QUARTER_LEFT), side(-64, QUARTER_BOTTOM)), (128, 128));
    assert_eq!(side(-64, QUARTER_RIGHT), 192);
}

#[test]
fn buttons_have_event_types() {
    let all = [BTN_SELECT, BTN_MENU, BTN_PLAY, BTN_NEXT, BTN_PREV];
    assert_eq!(all.map(event_type_for), [2, 3, 4, 5, 1]);
    assert!(use_events(false, None) && use_events(true, Some(1)) && !use_events(false, Some(1)));
}

#[test]
fn a_press_sets_its_bit_and_is_recorded() {
    let mut out = Vec::new();
    press_button(Some(0x100), BTN_NEXT, 9, HoldTimers { at: Some(0x200), clock_at: 4 }, &mut out);
    assert_eq!(show(&out), ["set 100 8", "copy 4 204", "queue 9"]);
    out.clear();
    press_button(None, BTN_NEXT, 9, HoldTimers { at: Some(0x200), clock_at: 4 }, &mut out);
    assert_eq!(show(&out), ["queue 9"]);
    out.clear();
    HoldTimers { at: Some(0x200), clock_at: 4 }.stamp(BTN_PREV, &mut out);
    HoldTimers { at: Some(0x200), clock_at: 4 }.stamp(BTN_SELECT, &mut out);
    assert_eq!(show(&out), ["copy 4 200"]);
}

#[test]
fn an_event_is_a_node_on_a_list() {
    let mut out = Vec::new();
    post_event(0x1000, 0x2000, 2, 1, 7, 61, &mut out);
    assert_eq!(show(&out), ["b 2000 2", "b 2001 1", "w 2004 7", "w 2008 0", "w 1030 2000", "queue 61"]);
}

#[test]
fn a_press_lasts_one_frame() {
    let (p, mut h, mut out) = (flags_pad(), idle_hands(), Vec::new());
    press(&p, &mut h, BTN_PREV, &mut out);
    assert_eq!(show(&out), ["set 100 10", "copy 1004 200", "queue 61"]);
    assert_eq!((h.held, h.event_hold), (BTN_PREV, 0));
    out.clear();
    retire(&p, &mut h, &mut out);
    assert_eq!(show(&out), ["clear 100 10"]);
    assert_eq!(h.held, 0);
    out.clear();
    retire(&p, &mut h, &mut out);
    assert!(out.is_empty());
}

#[test]
fn an_event_is_withdrawn_after_two_frames() {
    let (p, mut h, mut out) = (events_pad(), idle_hands(), Vec::new());
    select_or_age(&p, &mut h, true, &mut out);
    assert_eq!(show(&out)[..2], ["b 2000 2", "b 2001 1"]);
    out.clear();
    retire(&p, &mut h, &mut out);
    assert_eq!(show(&out)[..2], ["b 2000 2", "b 2001 2"]);
    assert_eq!(out.len(), 6);
    out.clear();
    select_or_age(&p, &mut h, false, &mut out);
    assert!(out.is_empty());
    select_or_age(&p, &mut h, false, &mut out);
    assert_eq!(show(&out), ["w 1030 0"]);
    out.clear();
    select_or_age(&p, &mut h, false, &mut out);
    assert!(out.is_empty());
    post_quit(&p, &mut h, &mut out);
    assert_eq!(show(&out)[..2], ["b 2000 1", "b 2001 1"]);
    assert_eq!(h.event_hold, 2);
}

#[test]
fn a_turn_queues_each_detent() {
    let (mut h, mut out) = (idle_hands(), Vec::new());
    turn(&mut h, 2, true, &mut out);
    assert_eq!(h.raw, 118);
    assert_eq!(show(&out), ["queue 0", "queue 2"]);
    turn(&mut h, 2, false, &mut out);
    assert_eq!(h.raw, 0);
    turn(&mut h, 120, false, &mut out);
    assert_eq!(h.raw, 0);
}

#[test]
fn a_finger_rests_and_lifts() {
    let (p, mut h, mut out) = (events_pad(), idle_hands(), Vec::new());
    assert_eq!(held_side(&p, false, true, true, false), Some(QUARTER_RIGHT));
    assert_eq!(held_side(&p, true, true, true, true), Some(QUARTER_TOP));
    assert_eq!(held_side(&p, false, false, false, true), Some(QUARTER_LEFT));
    assert_eq!(held_side(&p, false, false, true, true), Some(QUARTER_BOTTOM));
    assert_eq!(held_side(&flags_pad(), true, false, false, false), None);
    touch(&p, &mut h, Some(QUARTER_BOTTOM), &mut out);
    assert_eq!(show(&out), ["drop", "queue 192"]);
    assert!(h.finger);
    out.clear();
    touch(&p, &mut h, None, &mut out);
    assert_eq!(show(&out), ["drop"]);
    out.clear();
    touch(&p, &mut h, None, &mut out);
    assert!(out.is_empty());
    h.scripted = Some((5, 2));
    touch(&p, &mut h, Some(QUARTER_TOP), &mut out);
    assert_eq!(h.scripted, Some((5, 1)));
    touch(&p, &mut h, Some(QUARTER_TOP), &mut out);
    assert_eq!(h.scripted, None);
    assert_eq!(show(&out), ["drop", "queue 5", "drop", "queue 5"]);
}

#[test]
fn a_tap_is_not_refilled() {
    let (p, mut h, mut out) = (flags_pad(), idle_hands(), Vec::new());
    h.tap_release = 1;
    refill(&p, &mut h, true, &mut out);
    assert!(out.is_empty());
    refill(&p, &mut h, false, &mut out);
    assert!(out.is_empty());
    refill(&p, &mut h, true, &mut out);
    assert_eq!(show(&out), ["queue 61"]);
    refill(&events_pad(), &mut h, true, &mut out);
    assert_eq!(out.len(), 1);
}

// ---------------------------------------------------------------- scripts

#[test]
fn scripts_are_sorted_and_lowered() {
    let v = parse_script("# a comment\n200: SHOT # late\r\n\n 10 : Wheel +6\n10: select\n0x: y\n")
        .err()
        .unwrap();
    assert!(matches!(v, ScriptError::BadFrame(ref f) if f == "0x"));
    let v = parse_script("# a comment\n200: SHOT # late\r\n\n 10 : Wheel +6\n10: select\n").ok().unwrap();
    let got: Vec<(usize, &str)> = v.iter().map(|s| (s.frame, s.action.as_str())).collect();
    assert_eq!(got, [(10, "wheel +6"), (10, "select"), (200, "shot")]);
    assert!(is_due(&v, 0, 10) && !is_due(&v, 0, 9) && !is_due(&v, 2, 199) && !is_due(&v, 3, 999));
    assert!(matches!(parse_script("nonsense").err().unwrap(), ScriptError::NoColon(ref l) if l == "nonsense"));
    assert!(parse_script("").ok().unwrap().is_empty());
}

#[test]
fn actions_are_read() {
    assert!(matches!(read_action("select"), Action::Button { bit: BTN_SELECT }));
    assert!(matches!(read_action("menu"), Action::Button { bit: BTN_PREV }));
    assert!(matches!(read_action("prev"), Action::Button { bit: BTN_MENU }));
    assert!(matches!(read_action("play"), Action::Button { bit: BTN_PLAY }));
    assert!(matches!(read_action("next"), Action::Button { bit: BTN_NEXT }));
    assert!(matches!(read_action("wheel -3"), Action::Wheel { n: -3 }));
    assert!(matches!(read_action("wheel+2"), Action::Wheel { n: 2 }));
    assert!(matches!(read_action("wheelie"), Action::Wheel { n: 0 }));
    assert!(matches!(read_action("hold left 5"), Action::Hold { quarter: QUARTER_LEFT, frames: 5 }));
    assert!(matches!(read_action("hold  x"), Action::Hold { quarter: QUARTER_TOP, frames: 60 }));
    assert!(matches!(read_action("hold"), Action::Unknown));
    assert!(matches!(read_action("tap bottom"), Action::Tap { quarter: 2 }));
    assert!(matches!(read_action("tap"), Action::Tap { quarter: 3 }));
    assert!(matches!(read_action("shot"), Action::Shot));
    assert!(matches!(read_action("terminate"), Action::Terminate));
    assert!(matches!(read_action("quit"), Action::Quit));
    assert!(matches!(read_action("dance"), Action::Unknown));
}

#[test]
fn actions_are_carried_out() {
    let (p, mut h, mut out) = (events_pad(), idle_hands(), Vec::new());
    act(&p, &mut h, Action::Wheel { n: -2 }, &mut out);
    assert_eq!((h.raw, out.len()), (118, 2));
    act(&p, &mut h, Action::Hold { quarter: QUARTER_TOP, frames: 3 }, &mut out);
    assert_eq!(h.scripted, Some((64, 3)));
    out.clear();
    act(&p, &mut h, Action::Tap { quarter: 1 }, &mut out);
    assert_eq!((h.raw, h.tap_release), (30, 4));
    assert_eq!(show(&out), ["queue 237", "queue 237"]);
    out.clear();
    act(&p, &mut h, Action::Button { bit: BTN_PLAY }, &mut out);
    assert_eq!((h.held, out.len()), (BTN_PLAY, 6));
    out.clear();
    act(&p, &mut h, Action::Quit, &mut out);
    assert!(out.is_empty());
}

#[test]
fn actions_are_reported() {
    assert_eq!(render_action(12, "menu", 0), "script frame 12: menu -> flags bit 0x10\n");
    assert_eq!(render_action(12, "wheel -3", 117), "script frame 12: wheel -3 -> raw 117\n");
    assert_eq!(render_action(1, "wheel 6", 6), "script frame 1: wheel +6 -> raw 6\n");
    assert_eq!(render_action(1, "hold left 5", 0), "script frame 1: hold dir=2 for 5 frames\n");
    assert_eq!(render_action(1, "tap top", 0), "script frame 1: tap  top -> raw 0\n");
    assert_eq!(render_action(1, "shot", 0), "");
    assert_eq!(render_action(1, "quit", 0), "script frame 1: quit\n");
    assert_eq!(render_action(1, "terminate", 0), "script frame 1: terminate\n");
    assert_eq!(render_action(1, "a\"b", 0), "script frame 1: unknown action \"a\\\"b\", ignored\n");
    assert_eq!(render_action_parts(1, "zz", "Q", 0), "script frame 1: unknown action Q, ignored\n");
}

// ---------------------------------------------------------------- frame pump

#[test]
fn the_terminate_vector_is_skipped() {
    let (plan, frame) = plan_vectors(&vec![0x10, 0x20, 0, 0x30, 0], false);
    let got: Vec<(usize, u32, bool)> = plan.iter().map(|v| (v.index, v.addr, v.call)).collect();
    assert_eq!(got, [(0, 0x10, true), (1, 0x20, false), (3, 0x30, true)]);
    assert_eq!(frame, Some(0x30));
    assert!(plan_vectors(&vec![0, 0x20], true).0[0].call);
    assert_eq!(plan_vectors(&vec![0, 0x20], false).1, Some(0x20));
    assert_eq!(plan_vectors(&vec![0, 0], false).1, None);
}

#[test]
fn completions_wait_for_their_delay() {
    let mut q = Vec::new();
    assert_eq!(deliver(&mut q, &vec![1, 2], 5, 0), vec![1, 2]);
    assert!(q.is_empty());
    assert!(deliver(&mut q, &vec![1, 2], 5, 2).is_empty());
    assert!(deliver(&mut q, &vec![3], 6, 2).is_empty());
    assert_eq!(deliver(&mut q, &vec![], 7, 2), vec![1, 2]);
    assert_eq!(q, vec![(8, 3)]);
    assert_eq!(deliver(&mut q, &vec![], 9, 2), vec![3]);
}

#[test]
fn completions_are_linked() {
    assert_eq!(
        show(&link_completions(&vec![0x10, 0x20], 0x1000)),
        ["w 10 20", "w 20 0", "w 102c 10"]
    );
    assert_eq!(show(&link_completions(&vec![], 0x1000)), ["w 102c 0"]);
}

#[test]
fn frames_have_their_length() {
    assert!(paces_clock(60, true) && !paces_clock(0, true) && !paces_clock(60, false));
    assert_eq!(next_floor(100, 60), 16_766);
    assert_eq!(next_floor(0xffff_ffff, 1_000_000), 0);
    assert!(hands_over(false, 10, 10) && !hands_over(false, 9, 10) && !hands_over(true, 10, 10));
    assert_eq!(pack_rgb(&[1, 2, 3, 255, 0, 128, 9]), vec![0x01_02_03, 0xff_00_80]);
    assert_eq!((candidate(0), candidate(11)), (1, 12));
    assert_eq!((next_candidate(11), previous_candidate(0), next_candidate(0)), (0, 11, 1));
}

// ---------------------------------------------------------------- sound

fn voice(name: &str, looping: bool) -> Voice {
    Voice { name: name.to_string(), looping }
}

#[test]
fn four_voices_sound_at_once() {
    let mut pool = Vec::new();
    for n in ["a", "b", "c", "d"] {
        assert_eq!(ask_for(&pool, n) == Answer::Free, true);
        start(&mut pool, voice(n, n == "b"));
    }
    assert!(ask_for(&pool, "a") == Answer::Sounding);
    assert!(ask_for(&pool, "e") == Answer::Full);
    let again = reap(&mut pool, &vec![true, true, false, false]);
    assert_eq!(again.iter().map(|v| v.name.as_str()).collect::<Vec<_>>(), ["b"]);
    assert_eq!(pool.iter().map(|v| v.name.as_str()).collect::<Vec<_>>(), ["c", "d"]);
    assert_eq!(stop(&mut pool, "d"), vec![false, true]);
    assert!(ask_for(&pool, "d") == Answer::Free);
    assert_eq!(stop(&mut pool, "zz"), vec![false]);
}

#[test]
fn music_repeats_when_the_player_does() {
    assert!(after_track(false, true) == Track::PlaysOn);
    assert!(after_track(true, true) == Track::Again);
    assert!(after_track(true, false) == Track::Over);
    assert!(repeats(1) && repeats(2) && !repeats(0));
    assert!(is_resource("a/b.m4a") && !is_resource("/a/b.m4a"));
    assert_eq!(render_track("t.m4a", true), "audio: play t.m4a (repeating)\n");
    assert_eq!(render_track("t.m4a", false), "audio: play t.m4a\n");
    assert_eq!(render_effect("s", true), "sfx: play s (looping)\n");
    assert_eq!(render_effect("s", false), "sfx: play s\n");
}

// ---------------------------------------------------------------- counts

#[test]
fn the_hottest_come_first() {
    assert_eq!(rank(&vec![(1, 5), (2, 9), (3, 5)]), vec![(2, 9), (1, 5), (3, 5)]);
    let h = hottest(&vec![8, 4, 8, 12, 4, 8]);
    assert_eq!(h, vec![(8, 3), (4, 2), (12, 1)]);
    assert_eq!(render_hot(&h, 2), "0x00000008 x3  0x00000004 x2");
    assert_eq!(render_hot(&h, 0), "");
    assert_eq!(span(&vec![8, 4, 12]), (4, 12));
    assert_eq!(span(&vec![]), (0, 0));
    assert_eq!(busiest_of(&vec![(1, 5), (2, 9), (3, 9)]), 3);
    assert_eq!(busiest_of(&vec![]), 0);
    let a = arrivals(&vec![(2, 10), (1, 30), (2, 10), (1, 20), (3, 20)]);
    let got: Vec<(u32, u32, u64, u128)> = a.iter().map(|x| (x.caller, x.arg, x.times, x.bytes)).collect();
    assert_eq!(got, [(1, 30, 1, 30), (1, 20, 1, 20), (2, 10, 2, 20), (3, 20, 1, 20)]);
}

#[test]
fn lines_of_a_run() {
    assert_eq!(
        render_call(3, "Audio", 43, &[1, 2, 3, 4], &[5, 6, 7, 0xffff_ffff], 0x1800_0010),
        "3 Audio#43 00000001 00000002 00000003 00000004 00000005 00000006 00000007 ffffffff from \
         18000010\n"
    );
    assert_eq!(render_edge(1, 2, 30), "00000001 00000002 30\n");
    assert_eq!(
        render_summary("Zuma", 9, 1, 2, 3),
        "summary: Zuma frames=9 quads=1 clears=2 instructions=3\n"
    );
    assert_eq!(render_memory(0x100, &[1, 2]), "  mem 0x00000100: 00000001 00000002\n");
}

// ---------------------------------------------------------------- the journal

#[test]
fn reports_show_the_tail() {
    assert_eq!((tail_start(30, 12), tail_start(12, 12), tail_start(3, 12)), (18, 0, 0));
    assert!(is_draw("n=6 mode 4") && !is_draw(" n=6"));
    assert!(is_upload("texImage2D 1") && is_upload("upload tex 3") && is_upload("copyTexImage2D"));
    assert!(!is_upload("n=6") && !is_upload("upload"));
    assert!(is_file_op("open Data/a.txt") && !is_file_op("input event 61"));
    assert!(is_rare_audio("Audio", 43) && !is_rare_audio("Audio", 13) && !is_rare_audio("OpenGLES", 43));
    assert!(!is_rare_audio("Audio", 2) && !is_rare_audio("Audio", 14) && !is_rare_audio("Audio", 15));
}

#[test]
fn sizes_are_ordered_by_their_bytes() {
    assert_eq!(
        order_by_bytes(&vec![(16, 3), (8, 6), (100, 1), (0, 9)]),
        vec![(100, 1), (16, 3), (8, 6), (0, 9)]
    );
    assert_eq!(
        order_by_bytes(&vec![(1, 1), (u32::MAX, u64::MAX)]),
        vec![(u32::MAX, u64::MAX), (1, 1)]
    );
}

#[test]
fn lines_of_the_journal() {
    assert_eq!(
        render_trace(Some("Audio"), 43, &[1, 2, 3, 4], &[5, 6], 0x1800_0010),
        "    Audio        #43   r:00000001 00000002 00000003 00000004  sp:00000005 00000006  \
         <-0x18000010\n"
    );
    assert_eq!(render_trace(None, 7, &[1], &[], 0), "    #7    r:00000001  sp:  <-0x00000000\n");
    assert_eq!(render_arrival(16, 32, &[1, 2], 99), "    0x00000010 <-0x00000020 r0-7:00000001 00000002 @99\n");
    assert_eq!(render_write(1, 2, 3), "    by 0x00000001: 0x00000002 -> 0x00000003\n");
    assert_eq!(render_census(16, 3), format!("    {:>9} x{:<7} = {:>11} bytes\n", 16, 3, 48));
    assert_eq!(
        render_caller(16, 32, 3, 96),
        format!("    from 0x00000010  r0={:<9} x{:<6} = {:>11} bytes\n", 32, 3, 96)
    );
    let mut regs = [0u32; 16];
    regs[1] = 0xff;
    regs[15] = 0x1800_0000;
    let text = render_registers(&regs);
    assert_eq!(text.lines().count(), 4);
    assert!(text.starts_with("    r0 =00000000  r1 =000000ff  r2 =00000000  r3 =00000000\n"));
    assert!(text.ends_with("    r12=00000000  r13=00000000  r14=00000000  r15=18000000\n"));
    assert_eq!(render_trail(&vec![1, 2, 3], 2), "0x00000002 -> 0x00000003");
    assert_eq!(render_trail(&vec![], 2), "");
    assert_eq!(
        render_page(16, 32, 7, 1),
        "    0x00000010..0x00000020  7 writes, hottest pc 0x00000001\n"
    );
}

#[test]
fn lines_of_what_the_player_did() {
    assert_eq!(render_button("Select", BTN_SELECT), "button Select      -> flags bit 0x01\n");
    assert_eq!(render_button("Menu", BTN_PREV), "button Menu        -> flags bit 0x10\n");
    assert_eq!(render_contact(QUARTER_BOTTOM, 192), "wheel hold bottom -> byte 0xc0\n");
    assert_eq!(render_contact(QUARTER_RIGHT, 0), "wheel hold right -> byte 0x00\n");
    assert_eq!(render_turn(-2, 118), "wheel right/cw  2 detent(s) -> raw 118, byte 0x02\n");
    assert_eq!(render_turn(11, 0), "wheel left/ccw 11 detent(s) -> raw   0, byte 0x3d\n");
}

#[test]
fn resources_lie_above_the_executable() {
    let above = || Some("Games/88888".to_string());
    assert_eq!(game_dir(&args(&["g"]), above()).as_deref(), Some("Games/88888"));
    assert_eq!(game_dir(&args(&["g", "--gamedir=/r"]), above()).as_deref(), Some("/r"));
    assert_eq!(game_dir(&args(&["g"]), None), None);
}
