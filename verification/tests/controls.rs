//! Keys, pads, menus, the recorder and the screens they lead to.

use net::client::VehicleKind;
use net::player_map::PlayerId;
use net::render::app::{AppPhase, ReadyMatch, SyncVerdict};
use net::render::codes::ChordDir;
use net::render::debug_wireframe::WireMode;
use net::render::driver::{PendingTaps, VehicleRequest};
use net::render::input::{gather_input, remember, ChordsPlayed, KeysHeld, PadHeld};
use net::render::menu::{
    gather_menu_inputs, lobby_roster, lobby_status_line, rejoin_label, start_label, FormationPoll,
    MatchTerms, MenuAction, MenuInput, MenuOrder, MenuPresses, MenuScreen, MenuState, NavReset,
    RejoinPoll, StartChoice, StickTilt,
};
use net::render::net_track::{input_sample, walker_sample, NetTrack};
use net::render::paths::{data_dir, expand_tilde, kept_at};
use net::render::pos_trace::Trace;
use net::render::screenshot::{
    chord_hit, shot_extension, CaptureStep, ChordScript, PilotScript, ScreenshotConfig,
    ScriptHold, ShotOutcome, ShotUx, StickClicks, SHOT_FLASH_NANOS,
};
use net::render::voice::{
    cap_samples, pick_mic, prompt_chip, resampled_len, sleep_slice, take_file_name, CapturePoll,
    DeliveryPoll, InboxPoll, PadButton, PollStep, PromptKey, Reply, ReplyOrder, ReplyPoller,
    ReplyUx, SaveOutcome, VoiceFrame, VoiceUx, FLASH_NANOS, MIN_TAKE_SAMPLES,
};
use net::render::wav::wav_bytes;
use net::sim::{Pos, Sim};
use net::voice_delivery::{is_pending_take, Report};

const HOST: &str = "ae58ff8833241ac82d6ff7611046ed67b5072d142c588d0063e942d9a75502b6";

fn no_keys() -> KeysHeld {
    KeysHeld {
        forward: false,
        back: false,
        right: false,
        left: false,
        extract: false,
        sprint: false,
        jump: false,
        slide: false,
        rudder_left: false,
        rudder_right: false,
        throttle_up: false,
        throttle_down: false,
        match_velocity: false,
        mouse_left: false,
    }
}

fn no_pad() -> PadHeld {
    PadHeld {
        up: false,
        down: false,
        right: false,
        left: false,
        extract: false,
        sprint: false,
        jump: false,
        slide: false,
        left_bumper: false,
        right_bumper: false,
        match_velocity: false,
    }
}

fn no_chords() -> ChordsPlayed {
    ChordsPlayed { board_plane: false, board_ship: false, exit: false, restart: false }
}

fn no_presses() -> MenuPresses {
    MenuPresses { up: false, down: false, confirm: false, back: false }
}

fn ready(sync: Option<SyncVerdict>) -> ReadyMatch {
    ReadyMatch { me: PlayerId(0), sim: Sim::new(2, &[PlayerId(0)]), sync }
}

fn frame() -> VoiceFrame {
    VoiceFrame {
        record: false,
        confirm: false,
        discard: false,
        closing_held: false,
        delta_nanos: 0,
        delivery: DeliveryPoll::Empty,
        capture: CapturePoll::Empty,
    }
}

fn line(v: &VoiceUx) -> Option<String> {
    v.hud_line("V", "A", "B", "1.5")
}

#[test]
fn keys_and_pads_add_up() {
    let keys = KeysHeld { forward: true, mouse_left: true, ..no_keys() };
    let pads = vec![PadHeld { up: true, jump: true, ..no_pad() }, PadHeld { right: true, ..no_pad() }];
    let g = gather_input(false, false, &keys, &pads, &no_chords());
    assert_eq!((g.forward, g.strafe), (2, 1));
    assert!(g.action && g.jump && !g.slide);
    let typing = gather_input(true, true, &keys, &pads, &no_chords());
    assert_eq!((typing.forward, typing.strafe), (0, 0), "the keys type");
    assert!(!typing.jump, "the review's buttons are not the game's");
}

#[test]
fn requests_wait_for_a_tick() {
    let chord = ChordsPlayed { board_plane: true, restart: true, ..no_chords() };
    let g = gather_input(false, false, &no_keys(), &vec![], &chord);
    let mut taps = PendingTaps { action: false, restart: false };
    let mut vehicle = None;
    remember(&mut taps, &mut vehicle, &g);
    remember(&mut taps, &mut vehicle, &gather_input(false, false, &no_keys(), &vec![], &no_chords()));
    assert_eq!(vehicle, Some(VehicleRequest::Board(VehicleKind::Plane)));
    assert!(taps.restart && !taps.action);
}

#[test]
fn a_held_stick_moves_the_menu_once() {
    let mut latched = false;
    let tilt = |t, latched: &mut bool| gather_menu_inputs(no_presses(), false, no_presses(), t, latched);
    assert_eq!(tilt(StickTilt::Up, &mut latched), vec![MenuInput::Up]);
    assert!(tilt(StickTilt::Up, &mut latched).is_empty());
    assert!(tilt(StickTilt::Between, &mut latched).is_empty());
    assert!(tilt(StickTilt::Up, &mut latched).is_empty(), "not before it came to rest");
    tilt(StickTilt::Rest, &mut latched);
    assert_eq!(tilt(StickTilt::Down, &mut latched), vec![MenuInput::Down]);
    let mut m = menu();
    let up = |m: &mut MenuState| m.gather(no_presses(), false, no_presses(), StickTilt::Up);
    assert_eq!(up(&mut m), vec![MenuInput::Up]);
    assert!(up(&mut m).is_empty());
    assert_eq!(m.reset_menu_nav(), NavReset::Fresh);
    assert_eq!(up(&mut m), vec![MenuInput::Up], "a menu that comes up counts a held stick anew");
    let typed = gather_menu_inputs(
        MenuPresses { confirm: true, ..no_presses() },
        true,
        no_presses(),
        StickTilt::Rest,
        &mut latched,
    );
    assert!(typed.is_empty(), "a text field takes the keys");
}

const TERMS: MatchTerms = MatchTerms {
    seed: 77,
    telemetry: Some([9; 32]),
    asset_digest: 0xfeed,
    crab_count: 2,
};

fn menu() -> MenuState {
    MenuState::new(77, Some([9; 32]), 0xfeed, 2)
}

#[test]
fn a_join_code_is_an_endpoint_id() {
    let mut m = menu();
    m.type_code(&format!("  {HOST}\n"));
    let step = m.join();
    match step.order {
        MenuOrder::Form { choice: StartChoice::Join(Some(id)), terms } => {
            assert_eq!(terms, TERMS);
            assert_eq!(&id[..3], &[0xae, 0x58, 0xff]);
            assert_eq!(id[31], 0xb6);
        }
        other => panic!("{other:?}"),
    }
    assert_eq!(step.next, Some(AppPhase::Connecting));
    let mut bad = menu();
    bad.type_code("not a code");
    assert_eq!(bad.code_input(), "not a code");
    let step = bad.join();
    assert!(matches!(step.order, MenuOrder::Nothing));
    assert_eq!(step.nav, Some(NavReset::ChooserJoin));
    assert_eq!(bad.error(), Some("That join code isn't a valid endpoint id."));
    let mut empty = menu();
    empty.type_code("   ");
    assert!(matches!(
        empty.join().order,
        MenuOrder::Form { choice: StartChoice::Join(None), terms: TERMS }
    ));
}

#[test]
fn menu_choices_lead_on() {
    let mut m = menu();
    assert_eq!(m.screen(AppPhase::Menu, false), MenuScreen::Chooser);
    let step = m.apply_action(MenuAction::Host);
    assert!(matches!(
        step.order,
        MenuOrder::Form { choice: StartChoice::Host, terms: TERMS }
    ));
    assert!(step.done);
    assert_eq!(m.screen(AppPhase::Connecting, false), MenuScreen::Lobby);
    assert!(matches!(m.apply_action(MenuAction::StartNetworked).order, MenuOrder::RequestStart));
    let cancelled = m.apply_action(MenuAction::Cancel);
    assert!(matches!(cancelled.order, MenuOrder::Abandon { cancel_forming: true }));
    assert!(matches!(m.apply_action(MenuAction::Nothing).order, MenuOrder::Nothing));
    let solo = m.apply_action(MenuAction::StartSolo);
    assert!(matches!(solo.order, MenuOrder::PlaySolo { seed: 77, cancel_forming: false }));
    assert_eq!(solo.next, Some(AppPhase::Playing));
}

#[test]
fn formations_arm_or_come_back() {
    let mut m = menu();
    m.apply_action(MenuAction::Host);
    assert!(matches!(m.poll_formation(FormationPoll::Pending).order, MenuOrder::Nothing));
    let step = m.poll_formation(FormationPoll::Ready(ready(None)));
    assert!(matches!(step.order, MenuOrder::Play(_)));
    assert_eq!(step.next, Some(AppPhase::Playing));
    let mut m = menu();
    m.apply_action(MenuAction::Host);
    let step = m.poll_formation(FormationPoll::Failed(String::from("no peers")));
    assert!(m.error().unwrap().contains("no peers"));
    assert_eq!(step.next, Some(AppPhase::Menu));
    let mut m = menu();
    m.apply_action(MenuAction::Host);
    m.poll_formation(FormationPoll::Ready(ready(Some(SyncVerdict { assets: true, crabs: false }))));
    assert!(m.error().is_some(), "an unarmable match is refused");
}

#[test]
fn a_lost_round_can_be_rejoined() {
    let mut m = menu();
    assert_eq!(m.consume_round_over(String::from("host gone"), [5; 32]), NavReset::Disconnected);
    assert_eq!(m.last_host(), Some([5; 32]));
    assert_eq!(m.screen(AppPhase::Menu, true), MenuScreen::Disconnected);
    match m.apply_action(MenuAction::Rejoin).order {
        MenuOrder::Redial { host, terms } => {
            assert_eq!(host, [5; 32]);
            assert_eq!(terms, TERMS);
        }
        other => panic!("{other:?}"),
    }
    assert!(matches!(m.poll_rejoin(RejoinPoll::Pending).order, MenuOrder::Nothing));
    m.poll_rejoin(RejoinPoll::Failed(String::from("flaky")));
    assert_eq!(m.error(), Some("Rejoin failed: flaky"));
    m.apply_action(MenuAction::Rejoin);
    assert_eq!(m.screen(AppPhase::Connecting, false), MenuScreen::Rejoining);
    assert!(matches!(m.poll_rejoin(RejoinPoll::Joined(ready(None))).order, MenuOrder::Play(_)));
    assert_eq!(m.last_host(), None);
    let mut m = menu();
    m.consume_round_over(String::from("host gone"), [5; 32]);
    m.apply_action(MenuAction::Rejoin);
    m.poll_rejoin(RejoinPoll::Refused(String::from("full")));
    assert_eq!(m.error(), Some("The host refused our rejoin: full"));
    assert_eq!(m.last_host(), None, "a refusal is final");
    let mut m = menu();
    m.consume_round_over(String::from("host gone"), [5; 32]);
    m.apply_action(MenuAction::Rejoin);
    m.poll_rejoin(RejoinPoll::Unreachable);
    assert!(m.error().unwrap().starts_with("The host is unreachable"));
}

#[test]
fn lobby_lines() {
    let roster = lobby_roster(&vec![[0xab; 32], [1; 32]], Some([1; 32]));
    assert_eq!(roster[0], "Players in the lobby: 2");
    assert!(roster[1].ends_with(" ababababab"));
    assert!(roster[2].ends_with("  (you)"), "you are marked");
    assert_eq!(lobby_roster(&vec![], None).len(), 1);
    assert_ne!(lobby_status_line(true, None), lobby_status_line(false, None));
    assert_ne!(start_label(1), start_label(2));
    assert_ne!(rejoin_label(None), rejoin_label(Some([2; 32])));
}

#[test]
fn a_take_is_recorded_reviewed_and_kept() {
    let mut v = VoiceUx::new();
    assert!(v.drive(VoiceFrame { record: true, ..frame() }).start);
    v.drive(VoiceFrame { delta_nanos: 61_500_000_000, ..frame() });
    assert_eq!(line(&v).unwrap(), "\u{25cf} REC 1:01  (tap V to stop)");
    assert!(v.drive(VoiceFrame { record: true, ..frame() }).stop);
    assert!(!v.drive(VoiceFrame { record: true, ..frame() }).stop, "one stop is enough");
    let take = vec![5i16; MIN_TAKE_SAMPLES];
    let o = v.drive(VoiceFrame { capture: CapturePoll::Taken(take.clone()), ..frame() });
    assert!(o.play && v.gameplay_gated());
    assert_eq!(v.take(), Some(&take));
    let o = v.drive(VoiceFrame { confirm: true, ..frame() });
    assert!(o.save && o.silence, "a kept take is not played on");
    v.saved(SaveOutcome::Saved(String::from("voice-1.wav")), true);
    assert!(v.awaiting_report() && !v.wants_sweep());
    assert!(v.gameplay_gated(), "the closing press is still held");
    v.drive(frame());
    assert!(!v.gameplay_gated());
    let report = Report { sent: 3, error: None };
    v.drive(VoiceFrame { delivery: DeliveryPoll::Reported(report), ..frame() });
    assert_eq!(line(&v).unwrap(), "3 voice notes sent");
    v.drive(VoiceFrame { delta_nanos: FLASH_NANOS, ..frame() });
    assert_eq!(line(&v), None);
}

#[test]
fn takes_that_fail_say_why() {
    let after = |capture| {
        let mut v = VoiceUx::new();
        v.drive(VoiceFrame { record: true, ..frame() });
        v.drive(VoiceFrame { capture, ..frame() });
        assert_eq!(v.take(), None);
        line(&v).unwrap()
    };
    assert!(after(CapturePoll::Taken(vec![0; 10])).contains("too short"));
    assert_eq!(after(CapturePoll::Failed(String::from("busy"))), "mic unavailable: busy");
    assert_eq!(after(CapturePoll::Dead), "mic capture failed");
    let mut v = VoiceUx::new();
    v.drive(VoiceFrame { record: true, ..frame() });
    let o = v.cancel_voice();
    assert!(o.stop && o.silence && !o.play, "the round's end stops the microphone and the playback");
    assert_eq!(line(&v), None);
    let o = v.cancel_voice();
    assert!(!o.stop && o.silence, "nothing was captured any more");
    v.swept(true);
    v.drive(VoiceFrame {
        delivery: DeliveryPoll::Reported(Report { sent: 0, error: Some(String::from("down")) }),
        ..frame()
    });
    assert!(line(&v).unwrap().contains("unreachable"));
}

#[test]
fn microphones_are_picked_whatever_the_case() {
    let names = vec![None, Some(String::from("Built-in")), Some(String::from("USB Blue YETI"))];
    assert_eq!(pick_mic(&names, "yeti"), Ok(2));
    assert_eq!(pick_mic(&names, "BUILT"), Ok(1));
    assert_eq!(pick_mic(&names, "rode"), Err(String::from("no input device matching RL_MIC=rode")));
    assert_eq!(cap_samples(48_000), 48_000 * 120);
    assert_eq!(resampled_len(48_000, 48_000), 44_100);
    assert!(is_pending_take(&take_file_name(17)));
    assert_eq!(take_file_name(17), "voice-17.wav");
    assert_eq!(prompt_chip(Some(PadButton::South), Some(PromptKey::Enter)), "A/Enter");
    assert_eq!(prompt_chip(None, None), "?");
}

#[test]
fn replies_are_shown_in_turn() {
    let mut r = ReplyUx::new();
    let reply = |t: &str| Reply { text: String::from(t), wav: wav_bytes(&[0i16; 4]) };
    match r.drive(vec![reply("one"), reply("two")], 0) {
        ReplyOrder::Show(q) => {
            assert_eq!(q.text, "one");
            assert_eq!(q.samples.map(|s| s.len()), Some(4));
        }
        other => panic!("{other:?}"),
    }
    assert!(matches!(r.drive(vec![], 1_000_000_000), ReplyOrder::Keep));
    assert!(matches!(r.drive(vec![], 30_000_000_000), ReplyOrder::Show(q) if q.text == "two"));
    assert!(matches!(r.drive(vec![], 30_000_000_000), ReplyOrder::Hide));
    let mut poller = ReplyPoller { warned: false };
    assert_eq!(poller.polled(InboxPoll::Failed), PollStep::WarnAndSleep);
    assert_eq!(poller.polled(InboxPoll::Failed), PollStep::Sleep, "one warning an outage");
    assert_eq!(poller.polled(InboxPoll::Found), PollStep::HandOver);
    assert_eq!(sleep_slice(1000), 200);
    assert_eq!(sleep_slice(50), 50);
}

#[test]
fn wire_modes_cycle_and_are_named() {
    assert_eq!(WireMode::default(), WireMode::Off);
    let m = WireMode::Off;
    assert_eq!(m.next().next().next(), m);
    for (name, m) in [("off", WireMode::Off), ("aligned", WireMode::Aligned), ("raw", WireMode::Raw)] {
        assert_eq!(WireMode::parse(name), Some(m));
    }
    assert_eq!(WireMode::Off.label(), "");
    assert!(WireMode::Raw.label().contains("RAW"));
    assert_eq!(WireMode::parse("nonsense"), None);
    assert_eq!(WireMode::from_env(None, true), WireMode::Raw);
    assert_eq!(WireMode::from_env(Some("aligned"), true), WireMode::Aligned);
    assert_eq!(WireMode::from_env(None, false), WireMode::Off);
}

#[test]
fn places_of_their_own() {
    assert_eq!(data_dir(Some("/x"), Some("/h")).as_deref(), Some("/x/giant-crab-rescue"));
    assert_eq!(
        data_dir(None, Some("/h")).as_deref(),
        Some("/h/.local/share/giant-crab-rescue")
    );
    assert_eq!(data_dir(None, None), None);
    assert_eq!(kept_at(Some("/set"), Some("/d"), "f").as_deref(), Some("/set"));
    assert_eq!(kept_at(None, Some("/d"), "f").as_deref(), Some("/d/f"));
    assert_eq!(kept_at(None, None, "f"), None);
}

#[test]
fn a_leading_tilde_is_home() {
    let home = Some("/h");
    assert_eq!(expand_tilde("~/.config/k", home), "/h/.config/k");
    assert_eq!(expand_tilde("~/.config/k", None), "~/.config/k");
    assert_eq!(expand_tilde("~/k", Some("/h/")), "/h/k");
    assert_eq!(expand_tilde("~/k", Some("")), "k");
    for left in ["", "/x", "x/~/y", "~user/k", "./~/k"] {
        assert_eq!(expand_tilde(left, home), left);
    }
    for path in ["~", "~/", "~//k", "~/./k", "~/k/", "~/k/.", "~/../k", "~/.k", "~/a/./b", "~/k..", "~/."] {
        let rest = std::path::Path::new(path).strip_prefix("~").unwrap();
        let joined = std::path::Path::new("/h").join(rest);
        assert_eq!(expand_tilde(path, home), joined.to_str().unwrap(), "{path}");
    }
}

#[test]
fn traces_and_tracks() {
    let mut t = Trace { origin: None };
    assert_eq!(t.tick(7, Pos { x: -3, z: 4 }, 5), "T,7,-3,4,5");
    assert_eq!(
        t.tick(7, Pos { x: i64::MIN, z: i64::MAX }, -1),
        "T,7,-9223372036854775808,9223372036854775807,-1"
    );
    assert_eq!(t.origin(8, Pos { x: 1, z: -2 }).as_deref(), Some("O,8,1,-2"));
    assert_eq!(t.origin(9, Pos { x: 1, z: -2 }), None, "told once");
    assert_eq!(t.origin(9, Pos { x: 2, z: -2 }).as_deref(), Some("O,9,2,-2"));
    assert_eq!(
        t.origin(9, Pos { x: 2, z: i64::MIN }).as_deref(),
        Some("O,9,2,-9223372036854775808")
    );

    let mut n = NetTrack::new();
    let due: Vec<u64> = (1..10).filter(|k| n.due(*k)).collect();
    assert_eq!(due, vec![1, 3, 6, 9]);
    let mut n = NetTrack::new();
    n.sample(0, None, "a");
    let b = n.sample(3, Some("p"), "b");
    assert_eq!((b.players, b.inputs), (None, None));
    let b = n.sample(30, Some(""), "c");
    assert_eq!(b.inputs.as_deref(), Some("[b,c]"));
    assert_eq!(b.players.as_deref(), Some("[p]"));
    assert_eq!(
        input_sample(1, 2, 3, "0.50", "0.00", 1),
        r#"{"t":1,"k":2,"pl":3,"mv":0.50,"lk":0.00,"b":1}"#
    );
    assert_eq!(
        walker_sample(1, 2, 3, ("1.00", "2.00", "3.00"), ("0.10", "0.00", "-0.10"), "0.50"),
        r#"{"t":1,"k":2,"pl":3,"p":[1.00,2.00,3.00],"v":[0.10,0.00,-0.10],"a":0.50}"#
    );
}

#[test]
fn scripts_play_by_frame() {
    let mut s = PilotScript::new(vec![2], Some(3));
    assert_eq!(s.drive(None).request, None);
    let o = s.drive(None);
    assert_eq!(o.request, Some(VehicleRequest::Board(VehicleKind::Plane)));
    assert_eq!(s.drive(None).hold, ScriptHold::Walk);
    assert_eq!(s.drive(Some(VehicleKind::Plane)).hold, ScriptHold::Fly);

    let mut c = ChordScript::new(1, Some(3), vec![(2, ChordDir::Up)]).with_layout_cycles(vec![4]);
    assert!(c.drive(false).press_modifier);
    assert_eq!(c.drive(true).press, vec![ChordDir::Up]);
    let o = c.drive(true);
    assert!(o.release_modifier && !o.press_modifier);
    assert_eq!(o.release, vec![ChordDir::Up]);
    assert!(c.drive(false).press_cycle);
    assert!(c.drive(false).release_cycle);
}

#[test]
fn shots_are_taken_and_confirmed() {
    let one = ScreenshotConfig::new(5, 640, 480);
    assert_eq!(one.capture_when_settled(5), CaptureStep::Single);
    let many = one.with_anim(Some((3, 2)));
    assert_eq!(many.capture_when_settled(5), CaptureStep::Shot { shot: 0, last: false });
    assert_eq!(many.capture_when_settled(6), CaptureStep::Wait);
    assert_eq!(many.capture_when_settled(9), CaptureStep::Shot { shot: 2, last: true });
    assert_eq!(one.with_anim(Some((1, 2))), one, "a series of one is one picture");
    assert_eq!(shot_extension(7), "0007.png");
    assert_eq!(shot_extension(12_345), "12345.png");
    let held = StickClicks { left: true, right: true, left_fresh: false, right_fresh: false };
    assert!(!chord_hit(false, &vec![held]));
    assert!(chord_hit(false, &vec![held, StickClicks { right_fresh: true, ..held }]));
    assert!(chord_hit(true, &vec![]));
    let mut ux = ShotUx::new();
    ux.report(&ShotOutcome::Saved(String::from("a.png")));
    assert_eq!(ux.line(), Some("saved a.png"));
    ux.fade(SHOT_FLASH_NANOS);
    assert_eq!(ux.line(), None);
    ux.report(&ShotOutcome::NoHome);
    assert_eq!(ux.line(), Some("screenshot: no HOME to write to"));
}
