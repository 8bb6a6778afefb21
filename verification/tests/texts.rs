use keymap_suite::capture::from_hex;
use keymap_suite::config::build_config;
use keymap_suite::decode::{decode, DecodeMode};
use keymap_suite::describe::{show_decoded, show_key};
use keymap_suite::document::{read_config, RawConfig, RawSequence, RawValue, TomlError};
use keymap_suite::event::{KeyCode, KeyEvent, KeyModifiers, MediaKeyCode, ModifierKeyCode};
use keymap_suite::grammar::ErrorKind;
use keymap_suite::suite::{chord_rows, from_toml_read};
use keymap_suite::{
    from_str, to_toml, to_toml_layered, BuildError, Key, KeyInput, Keymap, LoadError, Modifiers,
    NameMap, SeqBindError, SequenceKeymap, UnsupportedKey, Warning,
};

fn none(_: &str) -> Option<u8> {
    None
}

fn some(name: &str) -> Option<String> {
    Some(name.to_string())
}

#[test]
fn parse_errors_quote_the_input() {
    let empty = KeyInput::parse("").unwrap_err();
    assert_eq!(empty.kind(), ErrorKind::Empty);
    assert_eq!(empty.to_string(), "empty key string");
    let bad = KeyInput::parse("ctrl+\"\n").unwrap_err();
    assert_eq!(bad.kind(), ErrorKind::InvalidKey);
    assert_eq!(bad.input(), "ctrl+\"\n");
    assert_eq!(bad.to_string(), "invalid key string: \"ctrl+\\\"\\n\"");
}

#[test]
fn function_keys_are_spelled_from_one_to_twenty_four() {
    assert_eq!(KeyInput::parse("F24").unwrap().key(), Key::F(24));
    assert!(KeyInput::parse("f0").is_err());
    assert!(KeyInput::parse("f25").is_err());
    assert!(KeyInput::parse("f256").is_err());
    assert_eq!(KeyInput::parse("f").unwrap().key(), Key::Char('f'));
    assert_eq!(KeyInput::new(Key::F(13), Modifiers::ALT).to_string(), "alt+f13");
}

#[test]
fn every_named_key_is_spelled() {
    for (k, name) in [
        (Key::Enter, "enter"),
        (Key::Esc, "esc"),
        (Key::Tab, "tab"),
        (Key::Backspace, "backspace"),
        (Key::Delete, "delete"),
        (Key::Insert, "insert"),
        (Key::Home, "home"),
        (Key::End, "end"),
        (Key::PageUp, "pageup"),
        (Key::PageDown, "pagedown"),
        (Key::Up, "up"),
        (Key::Down, "down"),
        (Key::Left, "left"),
        (Key::Right, "right"),
    ] {
        let chord = KeyInput::new(k, Modifiers::NONE);
        assert_eq!(chord.to_string(), name);
        assert_eq!(KeyInput::parse(name).unwrap(), chord);
    }
}

#[test]
fn build_errors_say_what_is_wrong() {
    let syntax = from_str("[keys", none).unwrap_err();
    assert!(matches!(syntax, BuildError::Toml(TomlError::Syntax(_))));
    assert_eq!(syntax.to_string(), "invalid TOML");
    let shape = from_str("[keys]\n\"a\" = 1\n", none).unwrap_err();
    assert!(matches!(
        shape,
        BuildError::Toml(TomlError::Shape { ref field }) if field == "keys"
    ));
    let key = from_str("[keys]\n\"nope+a\" = \"x\"\n", none).unwrap_err();
    assert_eq!(key.to_string(), "invalid key string \"nope+a\"");
    let tombstone = from_str("[keys]\n\"a\" = true\n", none).unwrap_err();
    assert_eq!(
        tombstone.to_string(),
        "invalid tombstone for \"a\": use `= false` to unbind, not `= true`"
    );
}

#[test]
fn a_date_in_place_of_a_layer_is_an_invalid_key() {
    for text in [
        "keys = 1979-05-27\n",
        "keys = 07:32:00\n",
        "[layers]\npanel = 1979-05-27T07:32:00Z\n",
        "[keys]\na = \"x\"\n[layers]\nglobal = 1979-05-27\n",
    ] {
        let err = from_str(text, none).unwrap_err();
        assert!(matches!(
            err,
            BuildError::KeyParse { ref key, .. } if key == "$__toml_private_datetime"
        ));
    }
    // The row that the date stands for holds its text.
    let config = read_config("keys = 1979-05-27\n").unwrap();
    assert_eq!(config.keys.len(), 1);
    assert_eq!(config.keys[0].0, "$__toml_private_datetime");
    assert!(matches!(config.keys[0].1, RawValue::Action(ref text) if text == "1979-05-27"));
    // An error in an earlier row comes first.
    let err = from_str("[keys]\na = true\n[layers]\nglobal = 1979-05-27\n", none).unwrap_err();
    assert!(matches!(err, BuildError::InvalidTombstone { .. }));
}

#[test]
fn a_date_anywhere_else_has_the_wrong_shape() {
    for (text, name) in [
        ("layers = 1979-05-27\n", "layers"),
        ("sequences = 1979-05-27\n", "sequences"),
        ("sequences = [1979-05-27]\n", "sequences"),
        ("[keys]\na = 1979-05-27\n", "keys"),
        ("[[sequences]]\nkeys = [\"g\"]\naction = 1979-05-27\n", "sequences"),
        ("date = 1979-05-27\n", "date"),
    ] {
        let err = from_str(text, none).unwrap_err();
        assert!(matches!(
            err,
            BuildError::Toml(TomlError::Shape { ref field }) if field == name
        ));
    }
}

#[test]
fn a_toml_error_becomes_a_build_error() {
    let source = "[keys".parse::<toml::Table>().unwrap_err();
    let message = source.message().to_string();
    match BuildError::from(source) {
        BuildError::Toml(TomlError::Syntax(e)) => assert_eq!(e.message(), message),
        other => panic!("{other:?}"),
    }
}

#[test]
fn a_document_is_read_as_written() {
    let config = read_config(
        "[keys]\nb = \"x\"\na = false\n[layers.l]\nc = \"y\"\n\
         [[sequences]]\nkeys = [\"g\", \"g\"]\naction = \"top\"\n",
    )
    .unwrap();
    assert_eq!(config.sequences.len(), 1);
    assert_eq!(config.sequences[0].keys, ["g", "g"]);
    assert_eq!(config.sequences[0].action, "top");
    assert!(read_config("[[sequences]]\nkeys = [\"g\"]\n").is_err());
    assert!(read_config("[[sequences]]\nkeys = \"g\"\naction = \"top\"\n").is_err());
    assert!(read_config("[layers]\nl = 3\n").is_err());
    assert!(read_config("keys = []\n").is_err());
}

#[test]
fn load_errors_tell_reading_from_parsing() {
    let io = std::io::Error::new(std::io::ErrorKind::NotFound, "no file");
    let read = from_toml_read(Err(io), none).unwrap_err();
    assert!(matches!(read, LoadError::Io(_)));
    assert_eq!(read.to_string(), "failed to read keymap configuration file");
    let parse = from_toml_read(Ok("[kyes]".to_string()), none).unwrap_err();
    assert!(matches!(parse, LoadError::Build(_)));
    assert_eq!(parse.to_string(), "failed to parse keymap configuration");
    let good = from_toml_read(Ok("[keys]\na = \"x\"\n".to_string()), some).unwrap();
    assert_eq!(good.global().len(), 1);
}

#[test]
fn sequence_errors_and_hex_errors_have_messages() {
    let mut map = SequenceKeymap::new();
    assert_eq!(map.bind(&[], 1).unwrap_err().to_string(), "empty key sequence");
    let g = KeyInput::parse("g").unwrap();
    map.bind(&[g], 1).unwrap();
    let shadow = map.bind(&[g, g], 2).unwrap_err();
    assert!(matches!(shadow, SeqBindError::PrefixShadow { .. }));
    assert_eq!(
        shadow.to_string(),
        "key sequence shares a prefix with an existing binding"
    );
    let hex = from_hex(&["0g".to_string()]).unwrap_err();
    assert_eq!(hex.to_string(), "invalid hex byte token: \"0g\"");
    assert!(from_hex(&["+5".to_string()]).is_err());
}

#[test]
fn every_warning_has_its_line() {
    let text = "[keys]\n\"control+a\" = \"x\"\n\"ctrl+a\" = \"y\"\nj = \"z\"\nk = \"no\"\n\
                [[sequences]]\nkeys = []\naction = \"e\"\n\
                [[sequences]]\nkeys = [\"g\"]\naction = \"g\"\n\
                [[sequences]]\nkeys = [\"g\", \"h\"]\naction = \"gh\"\n\
                [[sequences]]\nkeys = [\"j\", \"j\"]\naction = \"jj\"\n";
    let resolve = |name: &str| if name == "no" { None } else { some(name) };
    let out = from_str(text, resolve).unwrap();
    let lines: Vec<String> = out.warnings.iter().map(|w: &Warning| w.to_string()).collect();
    assert_eq!(
        lines,
        [
            "conflict on \"ctrl+a\": \"y\" wins",
            "unknown action \"no\" for key \"k\"",
            "empty sequence for action \"e\"",
            "prefix shadow: \"g\" (\"g\") shadows \"g h\"; later binding dropped",
            "sequence shadow: chord \"j\" (\"z\") shadows sequence \"j j\"",
        ]
    );
}

#[test]
fn a_configuration_is_written_in_order() {
    let mut keymap = Keymap::new();
    keymap.bind(KeyInput::parse("ctrl+z").unwrap(), "undo");
    keymap.bind(KeyInput::parse("ctrl+a").unwrap(), "all \"of\" it");
    let mut sequences = SequenceKeymap::new();
    let g = KeyInput::parse("g").unwrap();
    sequences.bind(&[g, g], "top").unwrap();
    assert_eq!(
        to_toml(&keymap, &sequences, |a: &&'static str| Some(*a)),
        "[keys]\n\"ctrl+a\" = 'all \"of\" it'\n\"ctrl+z\" = \"undo\"\n\n\
         [[sequences]]\naction = \"top\"\nkeys = [\"g\", \"g\"]\n"
    );
}

#[test]
fn event_codes_are_shown_like_their_variants() {
    for (code, text) in [
        (KeyCode::Char('\''), "Char('\\'')"),
        (KeyCode::Char('i'), "Char('i')"),
        (KeyCode::F(12), "F(12)"),
        (KeyCode::BackTab, "BackTab"),
        (KeyCode::Null, "Null"),
        (KeyCode::Media(MediaKeyCode::PlayPause), "Media(PlayPause)"),
        (
            KeyCode::Modifier(ModifierKeyCode::LeftShift),
            "Modifier(LeftShift)",
        ),
    ] {
        assert_eq!(code.to_string(), text);
    }
    let event = KeyEvent::new(KeyCode::Media(MediaKeyCode::Stop), KeyModifiers::none());
    let error: UnsupportedKey = KeyInput::try_from(event).unwrap_err();
    assert_eq!(error.code(), KeyCode::Media(MediaKeyCode::Stop));
    assert_eq!(error.to_string(), "unsupported key code: Media(Stop)");
}

#[test]
fn diagnostics_show_the_parts_of_a_press() {
    assert_eq!(show_key(Key::Char('\n')), "Char('\\n')");
    assert_eq!(show_key(Key::F(7)), "F(7)");
    assert_eq!(
        show_decoded(decode(b"\x1b[Z", DecodeMode::Baseline)),
        "Key { input: KeyInput { key: Tab, mods: Modifiers(4) }, consumed: 3 }"
    );
    assert_eq!(show_decoded(decode(b"", DecodeMode::Baseline)), "Incomplete");
    assert_eq!(show_decoded(decode(b"\x00", DecodeMode::Baseline)), "Unrecognized");
}

#[test]
fn a_help_screen_is_sorted() {
    let mut keymap = Keymap::new();
    for (chord, action) in [("tab", 1), ("ctrl+q", 2), ("a", 3)] {
        keymap.bind(KeyInput::parse(chord).unwrap(), action);
    }
    let rows = chord_rows(&keymap);
    assert_eq!(
        rows,
        [
            ("a".to_string(), &3),
            ("ctrl+q".to_string(), &2),
            ("tab".to_string(), &1)
        ]
    );
}

#[test]
fn a_codepoint_is_read_as_its_character() {
    let chord = |bytes: &[u8]| show_decoded(decode(bytes, DecodeMode::KittyEnhanced));
    assert_eq!(
        chord(b"\x1b[12354;5u"),
        "Key { input: KeyInput { key: Char('あ'), mods: Modifiers(1) }, consumed: 10 }"
    );
    assert_eq!(chord(b"\x1b[1114112u"), "Unrecognized");
}

#[test]
fn awkward_texts_are_read_back() {
    let awkward = [
        "",
        " ",
        "\r",
        "\r\n",
        "\n",
        "a\rb\r\nc\n",
        "\u{0}\u{1}\u{1f}\u{7f}\u{80}\u{9f}",
        "\"",
        "'",
        "'''",
        "\"\"\"",
        "it's \"both\"",
        "'''\"\"\"\\",
        "\\u0041\\",
        "\u{feff}bom",
        "\u{2028}\u{2029}\u{fffd}\u{10ffff}",
        "[table]\nkey = 1 # comment",
        "a.b.c",
        "\t tab",
        "ends in newline\n",
        "\nstarts with newline",
    ];
    for name in awkward {
        for layer in awkward {
            let mut layers = NameMap::new();
            let mut keymap = Keymap::new();
            let chord = KeyInput::parse("\"").unwrap();
            keymap.bind(chord, name.to_string());
            layers.insert(layer.to_string(), keymap);
            let mut sequences = SequenceKeymap::new();
            sequences.bind(&[chord, chord], name.to_string()).unwrap();
            let text = to_toml_layered(&layers, &sequences, |a: &String| Some(a.as_str()));
            let back = from_str(&text, some).unwrap();
            let found = back.layers.get(layer).unwrap().get(&chord);
            assert_eq!(found, Some(&name.to_string()), "{text}");
            assert_eq!(back.sequences.bindings()[0].1, name, "{text}");
        }
    }
}

#[test]
fn a_configuration_is_built_from_what_was_read() {
    let row = |key: &str, name: &str| (key.to_string(), RawValue::Action(name.to_string()));
    let raw = RawConfig {
        keys: vec![row("ctrl+a", "x"), ("b".to_string(), RawValue::Bool(false))],
        layers: vec![
            ("global".to_string(), vec![row("control+a", "y")]),
            ("l".to_string(), vec![row("c", "z")]),
        ],
        sequences: vec![RawSequence {
            keys: vec!["g".to_string(), "g".to_string()],
            action: "top".to_string(),
        }],
    };
    let out = build_config(raw, some).unwrap();
    let chord = |s: &str| KeyInput::parse(s).unwrap();
    assert_eq!(out.global().get(&chord("ctrl+a")), Some(&"y".to_string()));
    assert_eq!(out.unbinds.get("global"), Some(&vec![chord("b")]));
    assert_eq!(out.layers.get("l").unwrap().len(), 1);
    assert_eq!(out.sequences.bindings().len(), 1);
    assert_eq!(out.warnings.len(), 1);
    let bad = RawConfig {
        keys: vec![("a".to_string(), RawValue::Bool(true))],
        layers: Vec::new(),
        sequences: Vec::new(),
    };
    assert!(matches!(
        build_config(bad, some),
        Err(BuildError::InvalidTombstone { .. })
    ));
}
