use keymap_suite::capture::{from_hex, to_hex};

#[test]
fn hex_round_trips_including_control_and_high_bytes() {
    let bytes = vec![0x00, 0x1b, 0x5b, 0x41, 0x7f, 0xff];
    let hex = to_hex(&bytes);
    assert_eq!(hex, ["00", "1b", "5b", "41", "7f", "ff"]);
    assert_eq!(from_hex(&hex).unwrap(), bytes);
}

#[test]
fn from_hex_rejects_malformed_tokens() {
    assert!(from_hex(&["1".to_string()]).is_err());
    assert!(from_hex(&["zz".to_string()]).is_err());
    assert!(from_hex(&["1bb".to_string()]).is_err());
}
