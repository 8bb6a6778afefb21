use keymap_suite::capture::{Meta, Provenance};
use keymap_suite::recorder::{
    banner, capture_name, gather_meta, keys_to_record, kitty_capability, mod_strings, now_rfc3339,
    recorded_time, recording_mode, Arrival, Environment, Gather, Session, MODE_BASELINE,
    MODE_KITTY_ENHANCED,
};
use keymap_suite::Modifiers;

fn environment() -> Environment {
    Environment {
        term: Some("xterm-256color".to_string()),
        term_program: Some(String::new()),
        term_program_version: None,
        tmux: Some("/tmp/tmux".to_string()),
        ssh_tty: None,
        ssh_connection: Some(String::new()),
    }
}

fn meta() -> Meta {
    gather_meta("2026-05-26T01:00:00Z".to_string(), "0.1.0", environment())
}

#[test]
fn empty_variables_count_as_not_set() {
    let meta = meta();
    assert_eq!(meta.term.as_deref(), Some("xterm-256color"));
    assert_eq!(meta.term_program, None);
    assert_eq!(meta.harness_version, "0.1.0");
    assert!(meta.tmux);
    assert!(!meta.ssh);
}

#[test]
fn the_banner_names_the_terminal_and_the_mode() {
    assert_eq!(
        banner(&meta(), true),
        [
            "keymap-probe — recording what this terminal sends",
            "  TERM=xterm-256color TERM_PROGRAM=? tmux=true ssh=false  \
             mode=kitty-enhanced (--enhanced)",
            "  press each prompted key once; we record the raw bytes.",
            "",
        ]
    );
    assert!(banner(&meta(), false)[1].ends_with("mode=baseline"));
}

#[test]
fn times_are_written_as_rfc_3339() {
    assert_eq!(now_rfc3339(0), "1970-01-01T00:00:00Z");
    assert_eq!(
        now_rfc3339(1_700_000_000_500_000_000),
        "2023-11-14T22:13:20.5Z"
    );
    assert_eq!(now_rfc3339(i128::MAX), "unknown");
    assert_eq!(recorded_time(None), "unknown");
    assert_eq!(recorded_time(Some("now".to_string())), "now");
}

#[test]
fn a_capture_is_named_after_its_terminal() {
    let mut meta = meta();
    assert_eq!(
        capture_name(&meta, MODE_BASELINE),
        "captures/xterm-256color_tmux-on_ssh-off_2026-05-26.toml"
    );
    meta.term_program = Some("iTerm.app".to_string());
    meta.captured_at = "unknown".to_string();
    assert_eq!(
        capture_name(&meta, MODE_KITTY_ENHANCED),
        "captures/iTerm-app_kitty-enhanced_tmux-on_ssh-off_unknown.toml"
    );
    meta.term_program = None;
    meta.term = None;
    assert_eq!(
        capture_name(&meta, MODE_BASELINE),
        "captures/unknown_tmux-on_ssh-off_unknown.toml"
    );
}

#[test]
fn the_enhanced_mode_needs_the_protocol() {
    let supported = kitty_capability(b"\x1b[?1u\x1b[?62c");
    assert_eq!(supported.name, "kitty_keyboard_protocol");
    assert_eq!(supported.value, "supported");
    assert_eq!(supported.provenance, Provenance::QueryResponse);
    assert_eq!(supported.raw_response[..3], ["1b", "5b", "3f"]);
    let missing = kitty_capability(b"\x1b[?62c");
    assert_eq!(recording_mode(true, &supported.value), Ok(MODE_KITTY_ENHANCED));
    assert_eq!(recording_mode(false, &missing.value), Ok(MODE_BASELINE));
    assert_eq!(
        recording_mode(true, &missing.value),
        Err(
            "--enhanced needs the kitty keyboard protocol, but this terminal reports it \
             \"unsupported\"; drop --enhanced to record a baseline capture instead"
                .to_string()
        )
    );
}

#[test]
fn a_session_records_every_key_in_turn() {
    let mut session = Session::new(MODE_BASELINE);
    let keys = keys_to_record();
    assert_eq!(session.prompt(), Some("ctrl+a"));
    assert_eq!(session.record(&[0x01], vec![1]), "  -> 01");
    assert_eq!(session.prompt(), Some("cmd+1"));
    assert_eq!(
        session.record(&[], Vec::new()),
        "  …no bytes within timeout (not delivered to the app)"
    );
    assert_eq!(session.record(b"\x1ba", vec![1, 1]), "  -> 1b 61");
    let first = &session.keypresses[0];
    assert_eq!(first.intended, "ctrl+a");
    assert_eq!(first.mode, "baseline");
    assert_eq!(first.raw_bytes, ["01"]);
    assert_eq!(first.read_chunks, [1]);
    assert_eq!(first.expected_key.as_deref(), Some("Char('a')"));
    assert_eq!(first.expected_mods, Some(vec!["CTRL".to_string()]));
    assert_eq!(session.left.len(), keys.len() - 3);
    assert_eq!(session.record(&[0x03], vec![1]), "ctrl+c — stopping.");
    assert_eq!(session.prompt(), None);
    assert_eq!(session.keypresses.len(), 3);
}

#[test]
fn reads_are_gathered_until_the_stream_is_idle() {
    let mut gather = Gather::new();
    assert!(gather.take(Arrival::Bytes(vec![0x1b])));
    assert!(gather.take(Arrival::Bytes(vec![b'[', b'A'])));
    assert!(!gather.take(Arrival::Idle));
    assert_eq!(gather.bytes, b"\x1b[A");
    assert_eq!(gather.chunks, [1, 2]);
    assert_eq!(gather.chunks.iter().sum::<usize>(), gather.bytes.len());
    assert!(!gather.take(Arrival::Bytes(Vec::new())));
    assert_eq!(gather.bytes.len(), 3);
}

#[test]
fn modifiers_are_named_in_a_fixed_order() {
    assert_eq!(
        mod_strings(Modifiers::SUPER | Modifiers::SHIFT | Modifiers::ALT | Modifiers::CTRL),
        ["CTRL", "ALT", "SHIFT", "SUPER"]
    );
    assert!(mod_strings(Modifiers::NONE).is_empty());
}
