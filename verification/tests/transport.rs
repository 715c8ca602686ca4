//! Links between peers, the frames on them, and what is reported and delivered.

use net::sim::{Input, Outcome, PlayerId, Sim};
use net::client::TickMsg;
use net::server::starvation::STARVATION_WINDOW;
use net::server::Server;
use net::telemetry::{
    check_report_len, clock, decode_key_hex, encode_key_hex, event_line, frame_fits, frame_report,
    hex8, key_from_text, key_text, line_from, next_dial, next_sample_tick, outcome_str, short_ids,
    surface_starvation, Envelope, KeyHexError, TelemetryEvent, MAX_FRAME_LEN,
    TELEMETRY_TICK_EVERY,
};
use net::transport::{
    check_frame_len, check_hello, frame_bytes, id_before, opens_stream, short_id, should_dial,
    state_frame_fits, LinkTable, Wired, HELLO,
};
use net::voice_delivery::{
    check_note_len, check_reply, endpoint, host_tag, is_pending_take, note_header, pending_takes,
    sanitize_host, try_begin_sweep, NoteOutcome, Report, SweepGate, DEFAULT_ENDPOINT,
    MAX_WAV_BYTES,
};

fn id(b: u8) -> [u8; 32] {
    let mut a = [0u8; 32];
    a[31] = b;
    a
}

fn a_tick(tick: u64) -> TelemetryEvent {
    TelemetryEvent::Tick { tick, state_hash: 0, roster: 1 }
}

#[test]
fn only_sampled_events_are_sheddable() {
    assert!(a_tick(0).is_sheddable());
    assert!(TelemetryEvent::Input {
        tick: 0,
        strafe: 0,
        forward: 0,
        look: 0,
        buttons: 0,
    }
    .is_sheddable());
    for ev in [
        TelemetryEvent::Fault { msg: "x".into() },
        TelemetryEvent::RoundDecided { outcome: Outcome::Extracted, tick: 1, state_hash: 0 },
        TelemetryEvent::RosterFailed { reason: "timeout".into() },
        TelemetryEvent::RosterForming { live: 1, expect: 2 },
        TelemetryEvent::RosterAgreed { members: vec![], roster_hash: 0, me: 0 },
        TelemetryEvent::Departed { player: 1, endpoint: "abcd".into() },
        TelemetryEvent::Admitted { player: 2, endpoint: "abcd".into(), effective_tick: 42 },
    ] {
        assert!(!ev.is_sheddable(), "{ev:?} must be critical (never dropped)");
    }
}

#[test]
fn host_tag_clamps_to_header_safe_alphabet() {
    assert_eq!(sanitize_host("ablaised"), "ablaised");
    assert_eq!(sanitize_host("bad host\nname!"), "badhostname");
    assert_eq!(sanitize_host(""), "unknown");
    assert_eq!(sanitize_host(&"x".repeat(99)).len(), 32);
}

#[test]
fn sweep_slot_is_exclusive_until_dropped() {
    let mut gate = SweepGate::new();
    let slot = try_begin_sweep(&mut gate).unwrap();
    assert!(try_begin_sweep(&mut gate).is_none());
    gate.end_sweep(slot);
    assert!(try_begin_sweep(&mut gate).is_some());
}

#[test]
fn notes_are_picked_framed_and_judged() {
    let named = |names: &[&str]| -> Vec<String> { names.iter().map(|s| String::from(*s)).collect() };
    let files = named(&["voice-43.tmp", "voice-7.wav", "notes.wav", "voice-42.wav", "voice-.wav"]);
    assert_eq!(pending_takes(files), vec!["voice-7.wav", "voice-42.wav", "voice-.wav"]);
    let stamps = named(&["voice-10.wav", "voice-9.wav", "voice-b.wav", "voice-a.wav", "voice-09.wav"]);
    assert_eq!(
        pending_takes(stamps),
        vec!["voice-09.wav", "voice-9.wav", "voice-10.wav", "voice-a.wav", "voice-b.wav"],
        "the oldest goes first, by number; what has no stamp goes last"
    );
    let long = named(&["voice-100000000000000000000000.wav", "voice-99999999999999999999999.wav"]);
    assert_eq!(pending_takes(long.clone()), vec![long[1].clone(), long[0].clone()]);
    assert!(is_pending_take("voice-42.wav"));
    assert!(!is_pending_take("voice-43.tmp") && !is_pending_take("notes.wav"));
    assert_eq!(note_header("testhost", 8), "voice/1 testhost 8\n");
    assert_eq!(check_note_len(MAX_WAV_BYTES), Ok(()));
    assert_eq!(
        check_note_len(MAX_WAV_BYTES + 1),
        Err(String::from("16777217 bytes exceeds the 16777216 note cap"))
    );
    assert_eq!(check_reply("ok\n"), Ok(()));
    assert_eq!(
        check_reply("no\n"),
        Err(String::from("inbox refused the note: \"no\\n\"")),
        "the reply is shown quoted"
    );
}

#[test]
fn a_rejected_note_does_not_end_the_sweep() {
    let mut r = Report::default();
    assert!(r.note(NoteOutcome::Rejected(String::from("poison"))));
    assert!(r.note(NoteOutcome::Delivered));
    assert_eq!(r, Report { sent: 1, error: Some(String::from("poison")) });
    assert!(!r.note(NoteOutcome::Transport(String::from("down"))), "no inbox, no sweep");
    assert_eq!(r, Report { sent: 1, error: Some(String::from("down")) });
}

#[test]
fn exactly_one_side_opens() {
    assert!(id_before(&id(1), &id(2)) && !id_before(&id(2), &id(1)) && !id_before(&id(1), &id(1)));
    assert_ne!(opens_stream(&id(1), &id(2)), opens_stream(&id(2), &id(1)));
    assert!(should_dial(&id(1), &id(2), false) != should_dial(&id(2), &id(1), false)
        || should_dial(&id(1), &id(2), false));
    assert!(!should_dial(&id(1), &id(2), true), "who is linked is not dialed");
    assert!(!should_dial(&id(1), &id(1), false), "nobody dials themself");
}

#[test]
fn crossed_dials_settle_on_one_connection() {
    let (a, b) = (id(1), id(2));
    // Both sides see both connections, each in its own order.
    let mut at_a = LinkTable::new();
    assert_eq!(at_a.wire_connection(&a, &b, true, 10, 4), Wired::Linked { closed: None });
    assert_eq!(at_a.wire_connection(&a, &b, false, 20, 4), Wired::Duplicate);
    let mut at_b = LinkTable::new();
    assert_eq!(at_b.wire_connection(&b, &a, true, 20, 4), Wired::Linked { closed: None });
    assert_eq!(at_b.wire_connection(&b, &a, false, 10, 4), Wired::Linked { closed: Some(20) });
    assert!(!at_b.drop_if_same(&a, 20), "the replaced connection takes nothing with it");
    assert!(at_b.drop_if_same(&a, 10));
    assert_eq!(at_b.len(), 0);
    assert_eq!(at_a.disconnect(&b), Some(10));
    assert_eq!(at_a.disconnect(&b), None);
}

#[test]
fn strangers_are_refused_at_capacity() {
    let me = id(0);
    let mut t = LinkTable::new();
    assert!(matches!(t.wire_connection(&me, &id(3), false, 1, 2), Wired::Linked { .. }));
    assert!(matches!(t.wire_connection(&me, &id(1), false, 2, 2), Wired::Linked { .. }));
    assert_eq!(t.wire_connection(&me, &id(2), false, 3, 2), Wired::Refused);
    assert!(matches!(t.wire_connection(&me, &id(2), true, 4, 2), Wired::Linked { .. }));
    assert!(t.contains(&id(2)));
    assert_eq!(t.connected_peers(), vec![id(1), id(2), id(3)]);
}

#[test]
fn frames_say_their_length() {
    assert_eq!(frame_bytes(9, &[1, 2]), vec![3, 0, 0, 0, 9, 1, 2]);
    assert_eq!(check_frame_len(1, 8), Ok(()));
    assert!(check_frame_len(0, 8).unwrap_err().contains("no room"));
    assert!(check_frame_len(9, 8).unwrap_err().contains("exceeds cap"));
    assert_eq!(check_hello(HELLO), Ok(()));
    assert_eq!(check_hello(3), Err(String::from("bad stream-open byte 0x3")));
    assert_eq!(check_hello(0xfe), Err(String::from("bad stream-open byte 0xfe")));
    assert!(state_frame_fits(8, 8) && !state_frame_fits(9, 8));
    assert_eq!(short_id(&[0xab; 32]), "ababababab");
}

#[test]
fn keys_travel_as_hex() {
    let mut key = [0u8; 32];
    for (i, b) in key.iter_mut().enumerate() {
        *b = (i * 37 % 256) as u8;
    }
    let text = encode_key_hex(&key);
    assert_eq!(text.len(), 64);
    assert_eq!(decode_key_hex(&text), Ok(key));
    assert_eq!(decode_key_hex(&text.to_uppercase()), Ok(key));
    assert_eq!(decode_key_hex("abc"), Err(KeyHexError::Length { got: 3 }));
    let bad = text.replacen("4a", "4x", 1);
    assert_eq!(decode_key_hex(&bad), Err(KeyHexError::BadHex { byte: 2 }));
    assert_eq!(hex8(&[0x0f; 32]), "0f0f0f0f");
}

#[test]
fn events_are_rendered() {
    let sim = Sim::new(6, &[PlayerId(0)]);
    match TelemetryEvent::tick(&sim, 1) {
        TelemetryEvent::Tick { tick, state_hash, roster } => {
            assert_eq!((tick, state_hash, roster), (0, sim.state_hash(), 1));
        }
        other => panic!("{other:?}"),
    }
    let i = TelemetryEvent::input(4, Input { move_strafe: -3, move_forward: 5, look_yaw: 0, buttons: 2 });
    assert!(i.render().contains("-3") && i.render().contains("btn=0x02"), "{}", i.render());
    let agreed = TelemetryEvent::RosterAgreed {
        members: vec![String::from("a\"b"), String::from("c")],
        roster_hash: 0x1f,
        me: 1,
    };
    let text = agreed.render();
    assert!(text.starts_with("ROSTER AGREED: 2 player(s) ["), "{text}");
    assert!(text.contains(r#""a\"b""#), "members are quoted: {text}");
    assert_eq!(TelemetryEvent::Fault { msg: String::from("boom") }.render(), "FAULT: boom");
    assert_ne!(outcome_str(Outcome::Extracted), outcome_str(Outcome::Wiped));
}

#[test]
fn clocks_and_samples() {
    assert_eq!(clock(0), "00:00:00.000");
    assert_eq!(clock(86_400_000 + 3_723_045), "01:02:03.045");
    assert_eq!(next_sample_tick(0), TELEMETRY_TICK_EVERY);
    assert_eq!(next_sample_tick(TELEMETRY_TICK_EVERY), 2 * TELEMETRY_TICK_EVERY);
    assert!(frame_fits(MAX_FRAME_LEN) && !frame_fits(MAX_FRAME_LEN + 1));
}

#[test]
fn a_key_file_gives_the_key_back() {
    let key = [0xc3u8; 32];
    assert_eq!(key_text(&key).len(), 65);
    assert_eq!(key_from_text(&key_text(&key)), Ok(key));
    assert_eq!(key_from_text(&format!("\n  {}\t", encode_key_hex(&key))), Ok(key));
    assert_eq!(key_from_text(" "), Err(KeyHexError::Length { got: 0 }));
}

#[test]
fn a_collector_prints_where_when_and_what() {
    let valid = decode_key_hex("ae58ff8833241ac82d6ff7611046ed67b5072d142c588d0063e942d9a75502b6").unwrap();
    let env = |game_id| Envelope {
        game_id,
        wall_ms: 1_500,
        event: TelemetryEvent::Fault { msg: String::from("x") },
    };
    assert_eq!(event_line(&env(valid)), "[ae58ff8833] 00:00:01.500 FAULT: x");
    // A y-coordinate that no point of the curve has.
    let mut off = [0u8; 32];
    off[0] = 2;
    assert_eq!(event_line(&env(off)), "[02000000] 00:00:01.500 FAULT: x");
    assert_eq!(line_from(&env(off), true), "[0200000000] 00:00:01.500 FAULT: x");
    assert_eq!(short_ids(&[valid, [0; 32]]), vec!["ae58ff8833", "0000000000"]);
}

#[test]
fn reports_are_framed_up_to_the_cap() {
    assert_eq!(frame_report(&[7, 8]), Ok(vec![2, 0, 0, 0, 7, 8]));
    assert!(frame_report(&vec![0; MAX_FRAME_LEN]).is_ok());
    assert_eq!(
        frame_report(&vec![0; MAX_FRAME_LEN + 1]),
        Err(String::from("telemetry frame too large"))
    );
    assert_eq!(check_report_len(MAX_FRAME_LEN as u32), Ok(()));
    assert_eq!(
        check_report_len(MAX_FRAME_LEN as u32 + 1),
        Err(String::from("telemetry frame 65537 exceeds cap"))
    );
}

#[test]
fn starvation_surfaces_as_faults_once() {
    let ids = [PlayerId(0), PlayerId(1)];
    let mut server = Server::new(PlayerId(0), &ids, Sim::new(2, &ids));
    for t in 0..=STARVATION_WINDOW {
        server.advance(TickMsg { issue_tick: t, input: Input::default(), pilot: None });
        server.step_next(&[], net::player_map::PlayerMap::new());
    }
    let faults = surface_starvation(&mut server);
    assert_eq!(faults.len(), 1);
    match &faults[0] {
        TelemetryEvent::Fault { msg } => assert!(msg.contains("player 1 held on 30/30"), "{msg}"),
        other => panic!("{other:?}"),
    }
    assert!(surface_starvation(&mut server).is_empty());
}

#[test]
fn where_and_who_of_a_delivery() {
    assert_eq!(endpoint(None), DEFAULT_ENDPOINT);
    assert_eq!(endpoint(Some("box:1")), "box:1");
    assert_eq!(host_tag(Some("deck 1"), Some("h")), "deck1");
    assert_eq!(host_tag(None, Some("h")), "h");
    assert_eq!(host_tag(None, None), "unknown");
}

#[test]
fn a_collector_is_dialed_ten_times() {
    let mut failed = 0;
    while let Some(wait_ms) = next_dial(failed) {
        assert_eq!(wait_ms, 500);
        failed += 1;
    }
    assert_eq!(failed, 10);
    assert_eq!(next_dial(u32::MAX), None);
}
