use keymap_suite::recorder::{
    capture_path, detect_kitty_support, expected_strings, MODE_BASELINE, MODE_KITTY_ENHANCED,
};
use keymap_suite::KeyInput;

#[test]
fn expected_strings_match_capture_schema() {
    let input = "cmd+1".parse::<KeyInput>().unwrap();
    let (key, mods) = expected_strings(&input);
    assert_eq!(key, "Char('1')");
    assert_eq!(mods, vec!["SUPER".to_string()]);
}

#[test]
fn baseline_capture_path_keeps_the_original_scheme() {
    // No mode infix for baseline.
    assert_eq!(
        capture_path("iTerm-app", MODE_BASELINE, false, false, "2026-05-26"),
        "captures/iTerm-app_tmux-off_ssh-off_2026-05-26.toml"
    );
}

#[test]
fn enhanced_capture_path_carries_the_mode_infix() {
    // The enhanced file is self-describing and cannot collide with baseline.
    assert_eq!(
        capture_path(
            "xterm-kitty",
            MODE_KITTY_ENHANCED,
            false,
            false,
            "2026-05-27"
        ),
        "captures/xterm-kitty_kitty-enhanced_tmux-off_ssh-off_2026-05-27.toml"
    );
}

#[test]
fn detect_kitty_support_reads_final_byte() {
    // ESC [ ? 1 u  -> kitty reply (supported)
    assert!(detect_kitty_support(b"\x1b[?1u"));
    // ESC [ ? 62 ; 9 ; c  -> DA1 reply only (unsupported)
    assert!(!detect_kitty_support(b"\x1b[?62;9c"));
    // kitty reply arriving before the DA1 reply
    assert!(detect_kitty_support(b"\x1b[?5u\x1b[?62c"));
    assert!(!detect_kitty_support(b""));
}
