use keymap_suite::capture::{from_hex, to_hex, Capture, KeyPress, Meta};
use keymap_suite::chords::{alt, ctrl, key};
use keymap_suite::cmd::next_prefix;
use keymap_suite::decode::{decode, DecodeMode, Decoded};
use keymap_suite::event::{KeyCode, KeyEvent, KeyModifiers};
use keymap_suite::input::normalize;
use keymap_suite::inspector::resolve_with_layer;
use keymap_suite::passthrough::{resolve_passthrough, RawInput, Resolution};
use keymap_suite::reachability::{reachability, Reachability};
use keymap_suite::time::{Duration, Instant};
use keymap_suite::{
    from_str, merge, resolve_layered, to_toml, to_toml_layered, to_toml_layered_with_unbinds,
    validate_rebind, BreakReason, BuildOutput, CommandIndex, Key, KeyInput, Keymap, LegacyForm,
    Match, Modifiers, NameMap, PendingSequence, RebindVerdict, SequenceKeymap, Step, TimedPending,
    Warning, GLOBAL_LAYER,
};

fn owned(name: &str) -> Option<String> {
    Some(name.to_string())
}

fn name_of(action: &String) -> Option<&str> {
    Some(action.as_str())
}

fn load(toml: &str) -> BuildOutput<String> {
    from_str(toml, owned).expect("valid configuration")
}

fn chords() -> Vec<KeyInput> {
    let mut all = Vec::new();
    for mods in [
        Modifiers::NONE,
        Modifiers::CTRL,
        Modifiers::ALT,
        Modifiers::SHIFT,
        Modifiers::SUPER,
        Modifiers::CTRL | Modifiers::SHIFT,
        Modifiers::CTRL | Modifiers::ALT | Modifiers::SHIFT | Modifiers::SUPER,
    ] {
        for k in [
            Key::Char('a'),
            Key::Char('i'),
            Key::Char('['),
            Key::Char('+'),
            Key::Char(' '),
            Key::F(24),
            Key::Tab,
            Key::PageDown,
        ] {
            all.push(KeyInput::normalized(k, mods));
        }
    }
    all
}

#[test]
fn normalizing_twice_is_normalizing_once() {
    for chord in chords() {
        assert_eq!(
            normalize(chord.key(), chord.modifiers()),
            (chord.key(), chord.modifiers())
        );
    }
    assert_eq!(
        normalize(Key::Char('a'), Modifiers::SHIFT),
        (Key::Char('a'), Modifiers::NONE)
    );
    assert_eq!(
        normalize(Key::Tab, Modifiers::SHIFT),
        (Key::Tab, Modifiers::SHIFT)
    );
}

#[test]
fn spellings_are_read_back_and_are_distinct() {
    let all = chords();
    for chord in &all {
        assert_eq!(KeyInput::parse(&chord.to_string()).unwrap(), *chord);
    }
    for a in &all {
        for b in &all {
            assert_eq!(a == b, a.to_string() == b.to_string());
        }
    }
}

#[test]
fn constructed_chords_are_the_parsed_ones() {
    for c in ['a', 'Z', '+', ' ', 'é'] {
        assert_eq!(KeyInput::parse(&key(c).to_string()).unwrap(), key(c));
        assert_eq!(KeyInput::parse(&ctrl(c).to_string()).unwrap(), ctrl(c));
        assert_eq!(KeyInput::parse(&alt(c).to_string()).unwrap(), alt(c));
    }
}

#[test]
fn a_collapse_is_followed_once() {
    for chord in chords() {
        if let LegacyForm::CollapsesTo(twin) = chord.legacy_form() {
            assert_eq!(twin.legacy_form(), LegacyForm::Representable);
        }
        assert_eq!(
            chord.legacy_form() == LegacyForm::Unrepresentable,
            chord.modifiers().contains(Modifiers::SUPER)
        );
    }
}

#[test]
fn the_first_layer_wins_and_raw_bytes_pass_on_a_miss() {
    let mut inner = Keymap::new();
    inner.bind(ctrl('s'), "inner");
    let mut outer = Keymap::new();
    outer.bind(ctrl('s'), "outer");
    outer.bind(ctrl('q'), "quit");
    for (chord, found) in [
        (ctrl('s'), Some(&"inner")),
        (ctrl('q'), Some(&"quit")),
        (ctrl('z'), None),
    ] {
        assert_eq!(resolve_layered(&[&inner, &outer], &chord), found);
        let raw = RawInput::from_bytes(b"\x1a");
        match resolve_passthrough(&[&inner, &outer], &chord, raw) {
            Resolution::Action(action) => assert_eq!(Some(action), found),
            Resolution::Passthrough(bytes) => {
                assert!(found.is_none());
                assert_eq!(bytes.as_bytes(), b"\x1a");
            }
            Resolution::Consume => panic!("a resolver never consumes"),
        }
    }
}

#[test]
fn an_allowed_rebind_keeps_every_reserved_key() {
    let reserved = [key('q'), KeyInput::new(Key::Tab, Modifiers::NONE)];
    let mut top = Keymap::new();
    top.bind(key('q'), "held");
    let base: Keymap<&str> = Keymap::new();
    for proposed in [key('q'), key('x'), ctrl('i'), ctrl('s')] {
        for target in [0, 1] {
            let stack = [&top, &base];
            let answer = validate_rebind(&stack, target, proposed, &reserved);
            let mut after = [top.clone(), base.clone()];
            after[target].bind(proposed, "new");
            let rebound = [&after[0], &after[1]];
            for r in &reserved {
                let changed = resolve_layered(&stack, r) != resolve_layered(&rebound, r);
                match &answer {
                    RebindVerdict::Allowed { .. } => assert!(!changed),
                    RebindVerdict::BreaksReserved { reserved, reason } => {
                        assert_eq!(changed, reserved == r && *reason == BreakReason::DirectSteal);
                    }
                }
            }
        }
    }
}

#[test]
fn completions_cover_the_prefix() {
    let mut index = CommandIndex::new();
    for name in ["split", "save", "save_as", "quit"] {
        index.bind(name, name.len());
    }
    for prefix in ["", "s", "save", "z"] {
        let found: Vec<&str> = index.complete(prefix).into_iter().map(|(n, _)| n).collect();
        for (name, _) in index.iter() {
            assert_eq!(found.contains(&name), name.starts_with(prefix));
        }
    }
    assert_eq!(next_prefix("ab"), Some("ac".to_string()));
}

#[test]
fn a_table_of_sequences_stays_prefix_free() {
    let mut map = SequenceKeymap::new();
    map.bind(&[key('g'), key('g')], 1).unwrap();
    map.bind(&[ctrl('x'), ctrl('s')], 2).unwrap();
    assert!(map.bind(&[key('g')], 3).is_err());
    assert!(map.bind(&[key('g'), key('g'), key('g')], 3).is_err());
    assert_eq!(map.bind(&[key('g'), key('t')], 3), Ok(None));
    let rows = map.bindings();
    for (path, action) in &rows {
        assert_eq!(map.lookup(path), Match::Exact(*action));
        for n in 0..path.len() {
            assert_eq!(map.lookup(&path[..n]), Match::Prefix);
            assert!(!map.continuations(&path[..n]).is_empty());
        }
        assert!(map.continuations(path).is_empty());
    }
    assert_eq!(rows.len(), 3);
}

#[test]
fn no_key_is_lost_between_feeds() {
    let mut map = SequenceKeymap::new();
    map.bind(&[key('j'), key('k')], "esc").unwrap();
    let mut plain = PendingSequence::new();
    assert_eq!(plain.feed(&map, key('j')), Step::Pending);
    assert_eq!(
        plain.feed(&map, key('x')),
        Step::PassThrough(vec![key('j'), key('x')])
    );
    let mut timed = TimedPending::new();
    let window = Duration::from_millis(10);
    let start = Instant::from_nanos(0);
    assert_eq!(timed.feed(&map, key('j'), start, window).step, Step::Pending);
    assert_eq!(timed.deadline(window), Some(Instant::from_nanos(10_000_000)));
    let late = timed.feed(&map, key('k'), Instant::from_nanos(10_000_001), window);
    assert_eq!(late.expired, Some(vec![key('j')]));
    assert_eq!(late.step, Step::PassThrough(vec![key('k')]));
    assert!(timed.is_empty());
}

#[test]
fn later_bytes_do_not_change_a_decoded_press() {
    for mode in [DecodeMode::Baseline, DecodeMode::KittyEnhanced] {
        for bytes in [&b"a"[..], b"\x1b[A", b"\x1bOP", b"\x01", b"\x7f", b"\xc3\xa5", b"\x1ba"] {
            let Decoded::Key { input, consumed } = decode(bytes, mode) else {
                panic!("{bytes:?} is a press");
            };
            assert_eq!(consumed, bytes.len());
            let mut more = bytes.to_vec();
            more.extend_from_slice(b"\x1b[Bxyz");
            assert_eq!(decode(&more, mode), Decoded::Key { input, consumed });
        }
    }
}

#[test]
fn the_enhanced_mode_reads_what_the_baseline_reads() {
    for b in 0..=255u8 {
        if let Decoded::Key { .. } = decode(&[b], DecodeMode::Baseline) {
            assert_eq!(
                decode(&[b], DecodeMode::KittyEnhanced),
                decode(&[b], DecodeMode::Baseline)
            );
        }
    }
}

#[test]
fn every_glyph_decodes_to_itself() {
    for c in ['a', '~', 'å', 'あ', '😀'] {
        let mut buffer = [0u8; 4];
        let bytes = c.encode_utf8(&mut buffer).as_bytes();
        assert_eq!(
            decode(bytes, DecodeMode::Baseline),
            Decoded::Key {
                input: key(c),
                consumed: bytes.len(),
            }
        );
    }
}

#[test]
fn hex_gives_the_bytes_back() {
    let all: Vec<u8> = (0..=255).collect();
    let hex = to_hex(&all);
    assert_eq!(from_hex(&hex).unwrap(), all);
    assert_eq!(from_hex(&["AF".to_string()]).unwrap(), [0xaf]);
}

#[test]
fn a_press_is_reachable_exactly_when_it_decodes_to_itself() {
    let press = |intended: &str, mode: &str, bytes: &[u8]| KeyPress {
        intended: intended.to_string(),
        mode: mode.to_string(),
        raw_bytes: to_hex(bytes),
        read_chunks: Vec::new(),
        expected_key: None,
        expected_mods: None,
    };
    let capture = Capture {
        meta: Meta {
            captured_at: "2026-01-02T03:04:05Z".to_string(),
            harness_version: "1".to_string(),
            term: None,
            term_program: None,
            term_program_version: None,
            tmux: false,
            ssh: false,
        },
        capability: Vec::new(),
        keypress: vec![
            press("up", "baseline", b"\x1b[A"),
            press("ctrl+i", "baseline", b"\t"),
            press("cmd+1", "kitty-enhanced", b""),
        ],
    };
    let rows = reachability(&capture);
    assert_eq!(rows.len(), 3);
    for (chord, row) in rows {
        assert_eq!(row == Reachability::Reachable, chord.key() == Key::Up);
    }
}

#[test]
fn a_reported_press_is_normalized() {
    for code in [KeyCode::Char('A'), KeyCode::Tab, KeyCode::BackTab, KeyCode::F(3)] {
        for mods in [KeyModifiers::none(), KeyModifiers::shift(), KeyModifiers::control()] {
            let input = KeyInput::try_from(KeyEvent::new(code, mods)).unwrap();
            assert_eq!(KeyInput::normalized(input.key(), input.modifiers()), input);
        }
    }
}

#[test]
fn the_overlay_wins_and_the_rest_stays() {
    let base = "[keys]\n\"ctrl+s\" = \"save\"\n\"ctrl+q\" = \"quit\"\n\"ctrl+z\" = \"undo\"\n\
                [[sequences]]\nkeys = [\"g\", \"g\"]\naction = \"top\"\n";
    let over = "[keys]\n\"ctrl+s\" = \"sync\"\n\"ctrl+z\" = false\n\
                [[sequences]]\nkeys = [\"g\"]\naction = \"go\"\n";
    let merged = merge(load(base), load(over)).output;
    assert_eq!(merged.global().get(&ctrl('s')), Some(&"sync".to_string()));
    assert_eq!(merged.global().get(&ctrl('q')), Some(&"quit".to_string()));
    assert_eq!(merged.global().get(&ctrl('z')), None);
    let rows = merged.sequences.bindings();
    assert_eq!(rows, vec![(vec![key('g')], &"go".to_string())]);
    let same = merge(load(base), load(""));
    assert!(same.notes.is_empty());
    assert_eq!(same.output.global().len(), 3);
    assert_eq!(same.output.sequences.bindings().len(), 1);
}

#[test]
fn writing_and_reading_is_the_identity() {
    let text = "[keys]\n\"ctrl+q\" = \"quit\"\n\"ctrl+s\" = false\n\n\
                [layers.panel]\n\"ctrl+s\" = \"split\"\n\n\
                [[sequences]]\naction = \"top\"\nkeys = [\"g\", \"g\"]\n";
    let out = load(text);
    let written =
        to_toml_layered_with_unbinds(&out.layers, &out.sequences, &out.unbinds, name_of);
    let back = load(&written);
    assert_eq!(back.global().get(&ctrl('q')), Some(&"quit".to_string()));
    assert_eq!(back.unbinds.get(GLOBAL_LAYER), Some(&vec![ctrl('s')]));
    let panel = back.layers.get("panel").unwrap();
    assert_eq!(panel.get(&ctrl('s')), Some(&"split".to_string()));
    assert_eq!(
        back.sequences.lookup(&[key('g'), key('g')]),
        Match::Exact(&"top".to_string())
    );
    assert!(back.warnings.is_empty());
    // The same maps give the same text.
    assert_eq!(
        to_toml_layered_with_unbinds(&back.layers, &back.sequences, &back.unbinds, name_of),
        written
    );
}

#[test]
fn incomplete_bytes_can_be_completed() {
    let samples: [(&[u8], &[u8]); 6] = [
        (&[], &[0x09]),
        (&[0x1b, 0x5b], &[0x41]),
        (&[0x1b, 0x4f], &[0x50]),
        (&[0xc2], &[0xa1]),
        (&[0xe0, 0xa0], &[0x80]),
        (&[0x1b, 0xf4, 0x8f], &[0xbf, 0xbf]),
    ];
    for (bytes, more) in samples {
        assert_eq!(decode(bytes, DecodeMode::Baseline), Decoded::Incomplete);
        let mut all = bytes.to_vec();
        all.extend_from_slice(more);
        assert!(matches!(decode(&all, DecodeMode::Baseline), Decoded::Key { .. }));
    }
    // Parameters are judged at their end: only the enhanced mode knows a press with them.
    let opened = [0x1b, 0x5b, b'9', b'7'];
    assert_eq!(decode(&opened, DecodeMode::Baseline), Decoded::Incomplete);
    assert_eq!(decode(&opened, DecodeMode::KittyEnhanced), Decoded::Incomplete);
    let closed = [0x1b, 0x5b, b'9', b'7', b'u'];
    assert_eq!(decode(&closed, DecodeMode::Baseline), Decoded::Unrecognized);
    assert!(matches!(decode(&closed, DecodeMode::KittyEnhanced), Decoded::Key { .. }));
}

#[test]
fn refused_bytes_stay_refused() {
    let samples: [&[u8]; 5] = [&[0xc0], &[0xe0, 0x80], &[0xff], &[0x1b, 0x5b, b'q'], &[0x1b, 0xf5]];
    for bytes in samples {
        for more in [0x00, 0x41, 0x80, 0xbf, 0xff] {
            let mut all = bytes.to_vec();
            all.push(more);
            assert_eq!(decode(bytes, DecodeMode::Baseline), Decoded::Unrecognized);
            assert_eq!(decode(&all, DecodeMode::Baseline), Decoded::Unrecognized);
        }
    }
}

#[test]
fn only_bound_actions_need_to_resolve_back() {
    // The action 3 is bound nowhere: it has no name and the resolver does not know it.
    fn name(action: &u8) -> Option<&str> {
        match action {
            1 => Some("quit"),
            2 => Some("top"),
            _ => None,
        }
    }
    fn resolve(text: &str) -> Option<u8> {
        match text {
            "quit" => Some(1),
            "top" => Some(2),
            _ => None,
        }
    }
    let mut global = Keymap::new();
    global.bind(key('g'), 1);
    let mut layers = NameMap::new();
    layers.insert(GLOBAL_LAYER.to_string(), global);
    let mut sequences = SequenceKeymap::new();
    sequences.bind(&[key('g'), key('t')], 2).unwrap();
    let mut unbinds = NameMap::new();
    unbinds.insert("panel".to_string(), vec![ctrl('s')]);
    let text = to_toml_layered_with_unbinds(&layers, &sequences, &unbinds, name);
    let back = from_str(&text, resolve).unwrap();
    assert_eq!(back.global().get(&key('g')), Some(&1));
    assert_eq!(back.unbinds.get("panel"), Some(&vec![ctrl('s')]));
    assert_eq!(back.sequences.lookup(&[key('g'), key('t')]), Match::Exact(&2));
    // The chord that the sequence begins with is the only thing that is warned about.
    assert_eq!(back.warnings.len(), 1);
    assert!(matches!(back.warnings[0], Warning::SequenceShadow { .. }));
}

#[test]
fn an_empty_layer_writes_nothing() {
    let mut layers = NameMap::new();
    let mut global = Keymap::new();
    global.bind(ctrl('q'), "quit".to_string());
    layers.insert(GLOBAL_LAYER.to_string(), global.clone());
    let sequences = SequenceKeymap::new();
    let without = to_toml_layered(&layers, &sequences, name_of);
    layers.insert("empty".to_string(), Keymap::new());
    assert_eq!(to_toml_layered(&layers, &sequences, name_of), without);
    assert_eq!(to_toml(&global, &sequences, name_of), without);
}

#[test]
fn a_set_of_modifiers_is_its_flags() {
    for chord in chords() {
        let mods = chord.modifiers();
        assert_eq!(Modifiers::from_flags(mods.flags()), mods);
    }
    assert_eq!(Modifiers::default(), Modifiers::empty());
}

#[test]
fn a_parsed_press_is_normalized() {
    for text in ["shift+a", "ctrl+shift+a", "SHIFT+TAB", "+", "shift++", "Escape"] {
        let chord = KeyInput::parse(text).unwrap();
        assert_eq!(KeyInput::normalized(chord.key(), chord.modifiers()), chord);
    }
}

#[test]
fn provenance_agrees_with_layered_resolution() {
    let mut inner = Keymap::new();
    inner.bind(ctrl('s'), 1);
    let mut outer = Keymap::new();
    outer.bind(ctrl('s'), 2);
    outer.bind(ctrl('q'), 3);
    for chord in [ctrl('s'), ctrl('q'), ctrl('z')] {
        let named = resolve_with_layer(&[("inner", &inner), ("outer", &outer)], &chord);
        assert_eq!(
            named.map(|(_, action)| action),
            resolve_layered(&[&inner, &outer], &chord)
        );
    }
    assert_eq!(
        resolve_with_layer(&[("inner", &inner), ("outer", &outer)], &ctrl('q')),
        Some(("outer", &3))
    );
}

#[test]
fn different_sequences_have_different_labels() {
    // The space key, and a sequence of two keys, each twice: two conflicts whose
    // labels differ.
    let text = "[[sequences]]\nkeys = [\"a\", \" \"]\naction = \"one\"\n\
                [[sequences]]\nkeys = [\"a\", \" \"]\naction = \"two\"\n\
                [[sequences]]\nkeys = [\"a\", \"b\"]\naction = \"one\"\n\
                [[sequences]]\nkeys = [\"a\", \"b\"]\naction = \"two\"\n";
    let out = load(text);
    assert_eq!(out.warnings.len(), 2);
    assert_ne!(out.warnings[0].to_string(), out.warnings[1].to_string());
}

#[test]
fn the_same_text_builds_the_same_maps() {
    let text = "[keys]\n\"control+a\" = \"x\"\n\"ctrl+a\" = \"y\"\n[layers.l]\nb = \"z\"\n";
    let (one, two) = (load(text), load(text));
    assert_eq!(one.warnings, two.warnings);
    assert_eq!(one.global().get(&ctrl('a')), two.global().get(&ctrl('a')));
    assert_eq!(one.layers.len(), two.layers.len());
}
