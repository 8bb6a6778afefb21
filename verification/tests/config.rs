use keymap_suite::{
    from_str, legacy_lints, merge, to_toml, to_toml_layered, to_toml_layered_with_unbinds,
    BuildError, BuildOutput, Key, KeyInput, Keymap, LegacyLint, Match, MergeNote, Modifiers,
    NameMap, SequenceKeymap, Warning, WarningKind, GLOBAL_LAYER,
};

#[derive(Debug, Clone, PartialEq)]
enum Action {
    Quit,
    Save,
    Split,
    Top,
}

fn resolver(name: &str) -> Option<Action> {
    match name {
        "quit" => Some(Action::Quit),
        "save" => Some(Action::Save),
        "split" => Some(Action::Split),
        "top" => Some(Action::Top),
        _ => None,
    }
}

/// The names of the layers, in order.
fn names<A>(out: &BuildOutput<A>) -> Vec<&str> {
    out.layers.iter().into_iter().map(|(name, _)| name).collect()
}

fn seq(keys: &[(char, Modifiers)]) -> Vec<KeyInput> {
    keys.iter()
        .map(|&(c, m)| KeyInput::new(Key::Char(c), m))
        .collect()
}

#[test]
fn builds_bindings_and_resolves_actions() {
    let toml = "[keys]\n\"ctrl+q\" = \"quit\"\n\"ctrl+s\" = \"save\"\n";
    let out = from_str(toml, resolver).unwrap();
    assert!(out.warnings.is_empty());
    let q = KeyInput::new(Key::Char('q'), Modifiers::CTRL);
    assert_eq!(out.global().get(&q), Some(&Action::Quit));
}

#[test]
fn bare_keys_build_the_global_layer_which_is_always_present() {
    // Even an empty config has a (empty) global layer, so `global()` never
    // panics and callers can rely on it.
    let empty: BuildOutput<Action> = from_str("", resolver).unwrap();
    assert_eq!(names(&empty), vec![GLOBAL_LAYER]);
    assert!(empty.global().is_empty());

    let out = from_str("[keys]\n\"ctrl+q\" = \"quit\"\n", resolver).unwrap();
    assert_eq!(names(&out), vec![GLOBAL_LAYER]);
}

#[test]
fn named_layers_are_parsed_under_their_names() {
    let toml = "\
[keys]\n\"ctrl+q\" = \"quit\"\n\
[layers.panel]\n\"ctrl+s\" = \"split\"\n";
    let out = from_str(toml, resolver).unwrap();
    assert!(out.warnings.is_empty());
    // global and panel both present, named exactly.
    assert_eq!(
        names(&out),
        vec!["global", "panel"]
    );
    let q = KeyInput::new(Key::Char('q'), Modifiers::CTRL);
    let s = KeyInput::new(Key::Char('s'), Modifiers::CTRL);
    assert_eq!(out.global().get(&q), Some(&Action::Quit));
    assert_eq!(out.layers.get("panel").unwrap().get(&s), Some(&Action::Split));
    // A chord lives only in the layer that bound it.
    assert_eq!(out.global().get(&s), None);
    assert_eq!(out.layers.get("panel").unwrap().get(&q), None);
}

#[test]
fn a_layer_with_no_keys_section_still_gets_an_empty_global() {
    let toml = "[layers.panel]\n\"ctrl+s\" = \"split\"\n";
    let out = from_str(toml, resolver).unwrap();
    assert!(out.global().is_empty());
    assert!(!out.layers.get("panel").unwrap().is_empty());
}

#[test]
fn same_chord_in_two_layers_is_an_override_not_a_conflict() {
    // The crux of the layered design: `ctrl+s` bound in both global and panel
    // is exactly the override `resolve_layered` exists for. The library never
    // knows which layer is active, so it must not report across the boundary.
    let toml = "\
[keys]\n\"ctrl+s\" = \"save\"\n\
[layers.panel]\n\"ctrl+s\" = \"split\"\n";
    let out = from_str(toml, resolver).unwrap();
    assert!(
        out.warnings.is_empty(),
        "cross-layer override must not warn: {:?}",
        out.warnings
    );
    let s = KeyInput::new(Key::Char('s'), Modifiers::CTRL);
    assert_eq!(out.global().get(&s), Some(&Action::Save));
    assert_eq!(out.layers.get("panel").unwrap().get(&s), Some(&Action::Split));
}

#[test]
fn explicit_global_layer_merges_into_the_top_level_keys() {
    let toml = "\
[keys]\n\"ctrl+q\" = \"quit\"\n\
[layers.global]\n\"ctrl+s\" = \"save\"\n";
    let out = from_str(toml, resolver).unwrap();
    assert!(out.warnings.is_empty());
    // No separate "global" layer is created beyond the merged one.
    assert_eq!(names(&out), vec![GLOBAL_LAYER]);
    let q = KeyInput::new(Key::Char('q'), Modifiers::CTRL);
    let s = KeyInput::new(Key::Char('s'), Modifiers::CTRL);
    assert_eq!(out.global().get(&q), Some(&Action::Quit));
    assert_eq!(out.global().get(&s), Some(&Action::Save));
}

#[test]
fn keys_and_explicit_global_colliding_on_a_chord_conflict_last_wins() {
    // The same chord in `[keys]` and `[layers.global]` is a within-layer
    // conflict (they are the same layer): reported, and the `[layers.global]`
    // entry — fed after `[keys]` — wins.
    let toml = "\
[keys]\n\"ctrl+q\" = \"quit\"\n\
[layers.global]\n\"ctrl+q\" = \"save\"\n";
    let out = from_str(toml, resolver).unwrap();
    assert_eq!(
        out.warnings,
        vec![Warning::Conflict {
            chord: "ctrl+q".to_string(),
            contenders: vec!["quit".to_string(), "save".to_string()],
            winner: "save".to_string(),
        }]
    );
    let q = KeyInput::new(Key::Char('q'), Modifiers::CTRL);
    assert_eq!(out.global().get(&q), Some(&Action::Save));
}

#[test]
fn conflict_within_a_named_layer_is_reported() {
    // `ctrl+a` and `control+a` are the same chord spelled two ways; within one
    // layer that is a conflict, exactly as it is in the global layer.
    let toml = "\
[layers.panel]\n\"ctrl+a\" = \"quit\"\n\"control+a\" = \"save\"\n";
    let out = from_str(toml, resolver).unwrap();
    assert_eq!(
        out.warnings,
        vec![Warning::Conflict {
            chord: "ctrl+a".to_string(),
            contenders: vec!["save".to_string(), "quit".to_string()],
            winner: "quit".to_string(),
        }]
    );
}

#[test]
fn cross_shadow_is_checked_against_global_only() {
    // A chord `j` lives in `panel`, while the (global) sequence `j k` lives in
    // the global config. Because sequences are global and cross-shadow is a
    // global-layer-only check, the panel chord is *not* flagged.
    let toml = "\
[layers.panel]\n\"j\" = \"top\"\n\
[[sequences]]\nkeys = [\"j\", \"k\"]\naction = \"save\"\n";
    let out = from_str(toml, resolver).unwrap();
    assert!(
        out.warnings.is_empty(),
        "a non-global chord must not cross-shadow a global sequence: {:?}",
        out.warnings
    );
}

#[test]
fn unknown_action_in_a_named_layer_is_a_warning_carrying_no_layer_name() {
    // A named layer goes through the same pipeline as global, so an unknown
    // action there is a `UnknownAction` warning (binding skipped, not fatal).
    // By design the warning names the chord, not the layer.
    let toml = "[layers.panel]\n\"ctrl+z\" = \"undo\"\n";
    let out = from_str(toml, resolver).unwrap();
    assert_eq!(
        out.warnings,
        vec![Warning::UnknownAction {
            key: "ctrl+z".to_string(),
            action: "undo".to_string(),
        }]
    );
    assert!(out.layers.get("panel").unwrap().is_empty());
}

#[test]
fn malformed_key_in_a_named_layer_is_a_fatal_error() {
    // Parse failures are fatal in any layer, not just `[keys]`.
    let toml = "[layers.panel]\n\"ctrl+nope\" = \"quit\"\n";
    let err = from_str(toml, resolver).unwrap_err();
    assert!(matches!(err, BuildError::KeyParse { .. }));
}

#[test]
fn sequences_do_not_create_extra_layers() {
    // A global-only config with sequences must still yield exactly the global
    // layer — sequences live beside the layers, not as one.
    let toml = "\
[keys]\n\"ctrl+q\" = \"quit\"\n\
[[sequences]]\nkeys = [\"ctrl+x\", \"ctrl+s\"]\naction = \"save\"\n";
    let out = from_str(toml, resolver).unwrap();
    assert!(out.warnings.is_empty());
    assert_eq!(names(&out), vec![GLOBAL_LAYER]);
    assert!(!out.sequences.is_empty());
}

#[test]
fn unknown_actions_across_layers_warn_global_first_then_name_order() {
    // Warning order is deterministic: global first, then named layers in
    // `NameMap` (lexicographic) name order.
    let toml = "\
[keys]\n\"a\" = \"nope_global\"\n\
[layers.zeta]\n\"b\" = \"nope_zeta\"\n\
[layers.alpha]\n\"c\" = \"nope_alpha\"\n";
    let out = from_str(toml, resolver).unwrap();
    let unknown_actions: Vec<&str> = out
        .warnings
        .iter()
        .filter_map(|w| match w {
            Warning::UnknownAction { action, .. } => Some(action.as_str()),
            _ => None,
        })
        .collect();
    assert_eq!(
        unknown_actions,
        vec!["nope_global", "nope_alpha", "nope_zeta"]
    );
}

#[test]
fn unknown_top_level_field_is_a_fatal_error() {
    // `deny_unknown_fields`: a misspelled table is rejected, not ignored.
    let err = from_str("[kesy]\n\"ctrl+q\" = \"quit\"\n", resolver).unwrap_err();
    assert!(matches!(err, BuildError::Toml(_)));
}

#[test]
fn unknown_sequence_field_is_a_fatal_error() {
    // Guards the future `layer = "..."` extension: an unsupported sequence
    // field fails loudly today rather than being silently dropped.
    let toml = "[[sequences]]\nkeys = [\"g\"]\naction = \"top\"\nlayer = \"panel\"\n";
    let err = from_str(toml, resolver).unwrap_err();
    assert!(matches!(err, BuildError::Toml(_)));
}

#[test]
fn unknown_action_is_a_warning_not_a_failure() {
    let toml = "[keys]\n\"ctrl+q\" = \"quit\"\n\"ctrl+z\" = \"undo\"\n";
    let out = from_str(toml, resolver).unwrap();
    // The good binding still works.
    let q = KeyInput::new(Key::Char('q'), Modifiers::CTRL);
    assert_eq!(out.global().get(&q), Some(&Action::Quit));
    assert_eq!(
        out.warnings,
        vec![Warning::UnknownAction {
            key: "ctrl+z".to_string(),
            action: "undo".to_string(),
        }]
    );
}

#[test]
fn distinct_spellings_of_same_chord_conflict() {
    // Different spellings of the same chord: "ctrl+a" and the alias
    // "control+a". (Note "ctrl+A" would be a *different* chord, since the
    // glyph case is significant by design.)
    let toml = "[keys]\n\"ctrl+a\" = \"quit\"\n\"control+a\" = \"save\"\n";
    let out = from_str(toml, resolver).unwrap();
    let a = KeyInput::new(Key::Char('a'), Modifiers::CTRL);
    // One winner is bound for the shared chord.
    assert!(out.global().get(&a).is_some());
    let conflicts: Vec<_> = out
        .warnings
        .iter()
        .filter(|w| matches!(w, Warning::Conflict { .. }))
        .collect();
    assert_eq!(conflicts.len(), 1);
}

#[test]
fn legacy_lints_are_opt_in_and_separate_from_warnings() {
    // `cmd+s` is a perfectly valid binding — the config is clean — but it
    // won't reach a legacy terminal. That is NOT a build warning; it surfaces
    // only when the caller opts in by calling `legacy_lints`.
    let toml = "[keys]\n\"cmd+s\" = \"save\"\n";
    let out = from_str(toml, resolver).unwrap();
    assert!(out.warnings.is_empty());
    assert_eq!(
        legacy_lints(out.global()),
        vec![LegacyLint::Unrepresentable {
            chord: "super+s".to_string(),
        }]
    );
}

#[test]
fn malformed_key_is_a_fatal_error() {
    let toml = "[keys]\n\"ctrl+nope\" = \"quit\"\n";
    let err = from_str(toml, resolver).unwrap_err();
    assert!(matches!(err, BuildError::KeyParse { .. }));
}

#[test]
fn malformed_toml_is_a_fatal_error() {
    let err = from_str("this is not toml", resolver).unwrap_err();
    assert!(matches!(err, BuildError::Toml(_)));
}

#[test]
fn empty_config_builds_empty_map() {
    let out: BuildOutput<Action> = from_str("", resolver).unwrap();
    assert!(out.global().is_empty());
    assert!(out.sequences.is_empty());
    assert!(out.warnings.is_empty());
}

#[test]
fn builds_sequence_bindings() {
    let toml = "\
[keys]\n\"ctrl+q\" = \"quit\"\n\
[[sequences]]\nkeys = [\"ctrl+x\", \"ctrl+s\"]\naction = \"save\"\n\
[[sequences]]\nkeys = [\"ctrl+x\", \"ctrl+c\"]\naction = \"quit\"\n";
    let out = from_str(toml, resolver).unwrap();
    assert!(out.warnings.is_empty());
    // Single chord still lands in the single-key map.
    let q = KeyInput::new(Key::Char('q'), Modifiers::CTRL);
    assert_eq!(out.global().get(&q), Some(&Action::Quit));
    // The sequence resolves; a partial buffer is a prefix.
    let save = seq(&[('x', Modifiers::CTRL), ('s', Modifiers::CTRL)]);
    assert_eq!(out.sequences.lookup(&save), Match::Exact(&Action::Save));
    assert_eq!(out.sequences.lookup(&save[..1]), Match::Prefix);
}

#[test]
fn sequence_unknown_action_is_a_warning() {
    let toml = "[[sequences]]\nkeys = [\"ctrl+x\", \"ctrl+z\"]\naction = \"undo\"\n";
    let out = from_str(toml, resolver).unwrap();
    assert!(out.sequences.is_empty());
    assert_eq!(
        out.warnings,
        vec![Warning::UnknownAction {
            key: "ctrl+x ctrl+z".to_string(),
            action: "undo".to_string(),
        }]
    );
}

#[test]
fn sequence_prefix_shadow_is_a_warning_and_drops_the_later() {
    // `g` (top) then `g g` (split): the shorter shadows the longer.
    let toml = "\
[[sequences]]\nkeys = [\"g\"]\naction = \"top\"\n\
[[sequences]]\nkeys = [\"g\", \"g\"]\naction = \"split\"\n";
    let out = from_str(toml, resolver).unwrap();
    // The earlier (shorter) binding survives; the later is dropped.
    assert_eq!(
        out.sequences.lookup(&seq(&[('g', Modifiers::NONE)])),
        Match::Exact(&Action::Top)
    );
    assert_eq!(
        out.warnings,
        vec![Warning::PrefixShadow {
            prefix: vec!["g".to_string()],
            prefix_action: "top".to_string(),
            shadowed: vec!["g".to_string(), "g".to_string()],
            shadowed_action: "split".to_string(),
        }]
    );
}

#[test]
fn sequence_prefix_shadow_reverse_order_drops_the_later_short_one() {
    // Longer bound first, then the shorter prefix arrives: the shorter is the
    // later binding and is dropped, but it is still labelled the `prefix`.
    let toml = "\
[[sequences]]\nkeys = [\"g\", \"g\"]\naction = \"split\"\n\
[[sequences]]\nkeys = [\"g\"]\naction = \"top\"\n";
    let out = from_str(toml, resolver).unwrap();
    // The earlier (longer) binding survives.
    assert_eq!(
        out.sequences
            .lookup(&seq(&[('g', Modifiers::NONE), ('g', Modifiers::NONE)])),
        Match::Exact(&Action::Split)
    );
    assert_eq!(
        out.warnings,
        vec![Warning::PrefixShadow {
            prefix: vec!["g".to_string()],
            prefix_action: "top".to_string(),
            shadowed: vec!["g".to_string(), "g".to_string()],
            shadowed_action: "split".to_string(),
        }]
    );
}

#[test]
fn same_sequence_three_times_reports_pairwise_conflicts() {
    let toml = "\
[[sequences]]\nkeys = [\"ctrl+x\"]\naction = \"save\"\n\
[[sequences]]\nkeys = [\"ctrl+x\"]\naction = \"split\"\n\
[[sequences]]\nkeys = [\"ctrl+x\"]\naction = \"quit\"\n";
    let out = from_str(toml, resolver).unwrap();
    // Last one wins.
    assert_eq!(
        out.sequences.lookup(&seq(&[('x', Modifiers::CTRL)])),
        Match::Exact(&Action::Quit)
    );
    // Two pairwise conflicts, each naming the running winner vs the newcomer.
    assert_eq!(
        out.warnings,
        vec![
            Warning::Conflict {
                chord: "ctrl+x".to_string(),
                contenders: vec!["save".to_string(), "split".to_string()],
                winner: "split".to_string(),
            },
            Warning::Conflict {
                chord: "ctrl+x".to_string(),
                contenders: vec!["split".to_string(), "quit".to_string()],
                winner: "quit".to_string(),
            },
        ]
    );
}

#[test]
fn empty_sequence_is_a_warning() {
    let toml = "[[sequences]]\nkeys = []\naction = \"save\"\n";
    let out = from_str(toml, resolver).unwrap();
    assert!(out.sequences.is_empty());
    assert_eq!(
        out.warnings,
        vec![Warning::EmptySequence {
            action: "save".to_string(),
        }]
    );
}

#[test]
fn duplicate_sequence_conflicts_and_last_wins() {
    let toml = "\
[[sequences]]\nkeys = [\"ctrl+x\", \"ctrl+s\"]\naction = \"save\"\n\
[[sequences]]\nkeys = [\"ctrl+x\", \"ctrl+s\"]\naction = \"split\"\n";
    let out = from_str(toml, resolver).unwrap();
    let s = seq(&[('x', Modifiers::CTRL), ('s', Modifiers::CTRL)]);
    assert_eq!(out.sequences.lookup(&s), Match::Exact(&Action::Split));
    assert_eq!(
        out.warnings,
        vec![Warning::Conflict {
            chord: "ctrl+x ctrl+s".to_string(),
            contenders: vec!["save".to_string(), "split".to_string()],
            winner: "split".to_string(),
        }]
    );
}

#[test]
fn malformed_sequence_key_is_a_fatal_error() {
    let toml = "[[sequences]]\nkeys = [\"ctrl+x\", \"ctrl+nope\"]\naction = \"save\"\n";
    let err = from_str(toml, resolver).unwrap_err();
    assert!(matches!(err, BuildError::KeyParse { .. }));
}

#[test]
fn single_chord_shadowing_a_sequence_is_an_advisory_warning() {
    // `j` (down) and a sequence `j j` (the vim `jj` case): pressing `j` is
    // ambiguous without a timeout. Both bindings are kept — only flagged.
    let toml = "\
[keys]\n\"j\" = \"top\"\n\
[[sequences]]\nkeys = [\"j\", \"k\"]\naction = \"save\"\n";
    let out = from_str(toml, resolver).unwrap();
    // Nothing dropped: the chord resolves and the sequence resolves.
    assert_eq!(
        out.global()
            .get(&KeyInput::new(Key::Char('j'), Modifiers::NONE)),
        Some(&Action::Top)
    );
    assert_eq!(
        out.sequences
            .lookup(&seq(&[('j', Modifiers::NONE), ('k', Modifiers::NONE)])),
        Match::Exact(&Action::Save)
    );
    assert_eq!(
        out.warnings,
        vec![Warning::SequenceShadow {
            chord: "j".to_string(),
            chord_action: "top".to_string(),
            sequence: vec!["j".to_string(), "k".to_string()],
            sequence_action: "save".to_string(),
        }]
    );
}

#[test]
fn length_one_sequence_equal_to_a_single_chord_shadows() {
    // A degenerate overlap: the single chord and a length-1 sequence are the
    // exact same key, bound in both maps.
    let toml = "\
[keys]\n\"q\" = \"quit\"\n\
[[sequences]]\nkeys = [\"q\"]\naction = \"save\"\n";
    let out = from_str(toml, resolver).unwrap();
    assert_eq!(
        out.warnings,
        vec![Warning::SequenceShadow {
            chord: "q".to_string(),
            chord_action: "quit".to_string(),
            sequence: vec!["q".to_string()],
            sequence_action: "save".to_string(),
        }]
    );
}

#[test]
fn disjoint_first_keys_do_not_shadow() {
    // `j` single, `g g` sequence: different first keys, no overlap.
    let toml = "\
[keys]\n\"j\" = \"top\"\n\
[[sequences]]\nkeys = [\"g\", \"g\"]\naction = \"save\"\n";
    let out = from_str(toml, resolver).unwrap();
    assert!(out.warnings.is_empty());
}

#[test]
fn one_chord_shadowing_several_sequences_reports_the_lex_first() {
    // `j` starts both `j k` and `j a`; one advisory names the lex-first (`j a`).
    let toml = "\
[keys]\n\"j\" = \"top\"\n\
[[sequences]]\nkeys = [\"j\", \"k\"]\naction = \"save\"\n\
[[sequences]]\nkeys = [\"j\", \"a\"]\naction = \"quit\"\n";
    let out = from_str(toml, resolver).unwrap();
    assert_eq!(
        out.warnings,
        vec![Warning::SequenceShadow {
            chord: "j".to_string(),
            chord_action: "top".to_string(),
            sequence: vec!["j".to_string(), "a".to_string()],
            sequence_action: "quit".to_string(),
        }]
    );
}

#[test]
fn multiple_shadowing_chords_emit_in_canonical_chord_order() {
    // `z` is declared before `j`, but warnings come out chord-sorted (`j`
    // before `z`) — pins the sort, which the HashMap source order would not
    // otherwise guarantee.
    let toml = "\
[keys]\n\"z\" = \"top\"\n\"j\" = \"quit\"\n\
[[sequences]]\nkeys = [\"z\", \"x\"]\naction = \"save\"\n\
[[sequences]]\nkeys = [\"j\", \"k\"]\naction = \"split\"\n";
    let out = from_str(toml, resolver).unwrap();
    assert_eq!(
        out.warnings,
        vec![
            Warning::SequenceShadow {
                chord: "j".to_string(),
                chord_action: "quit".to_string(),
                sequence: vec!["j".to_string(), "k".to_string()],
                sequence_action: "split".to_string(),
            },
            Warning::SequenceShadow {
                chord: "z".to_string(),
                chord_action: "top".to_string(),
                sequence: vec!["z".to_string(), "x".to_string()],
                sequence_action: "save".to_string(),
            },
        ]
    );
}

#[test]
fn unknown_single_chord_does_not_shadow() {
    // `j` resolves to nothing, so it never enters the keymap — it cannot
    // shadow. Only the UnknownAction warning fires, no SequenceShadow.
    let toml = "\
[keys]\n\"j\" = \"nonexistent\"\n\
[[sequences]]\nkeys = [\"j\", \"k\"]\naction = \"save\"\n";
    let out = from_str(toml, resolver).unwrap();
    assert_eq!(
        out.warnings,
        vec![Warning::UnknownAction {
            key: "j".to_string(),
            action: "nonexistent".to_string(),
        }]
    );
}

#[test]
fn cross_shadow_coexists_with_conflict_and_comes_last() {
    // A single-key Conflict and a SequenceShadow in one config: detection
    // appends after the key/sequence passes, so the shadow is emitted last.
    let toml = "\
[keys]\n\"ctrl+a\" = \"quit\"\n\"control+a\" = \"save\"\n\"j\" = \"top\"\n\
[[sequences]]\nkeys = [\"j\", \"k\"]\naction = \"split\"\n";
    let out = from_str(toml, resolver).unwrap();
    assert_eq!(
        out.warnings,
        vec![
            // The `[keys]` table is a NameMap, so "control+a" (save) sorts
            // before "ctrl+a" (quit); save is the earlier contender, quit wins.
            Warning::Conflict {
                chord: "ctrl+a".to_string(),
                contenders: vec!["save".to_string(), "quit".to_string()],
                winner: "quit".to_string(),
            },
            Warning::SequenceShadow {
                chord: "j".to_string(),
                chord_action: "top".to_string(),
                sequence: vec!["j".to_string(), "k".to_string()],
                sequence_action: "split".to_string(),
            },
        ]
    );
}

#[test]
fn chord_matching_a_non_first_sequence_key_does_not_shadow() {
    // `j` is only the *second* key of `g j`; the predicate is `first() ==`,
    // not "contains", so this must not warn.
    let toml = "\
[keys]\n\"j\" = \"top\"\n\
[[sequences]]\nkeys = [\"g\", \"j\"]\naction = \"save\"\n";
    let out = from_str(toml, resolver).unwrap();
    assert!(out.warnings.is_empty());
}

// --- to_toml round-trip ---
//
// These use `String` as the action type, so `name_of`/`resolve` are exact
// inverses (`|a| Some(a)` / `|n| Some(n.to_owned())`) and any round-trip
// failure is the serializer's, not the resolver's.

fn km_pairs(km: &Keymap<String>) -> Vec<(KeyInput, String)> {
    let mut v: Vec<_> = km.iter().into_iter().map(|(k, a)| (*k, a.clone())).collect();
    v.sort_by_key(|(k, _)| k.to_string());
    v
}

fn seq_pairs(s: &SequenceKeymap<String>) -> Vec<(Vec<KeyInput>, String)> {
    let mut v: Vec<_> = s.bindings().into_iter().map(|(p, a)| (p, a.clone())).collect();
    v.sort_by_key(|(p, _)| p.iter().map(|k| k.to_string()).collect::<Vec<_>>().join(" "));
    v
}

/// `to_toml` then `from_str` reproduces the same bindings.
fn assert_round_trips(km: &Keymap<String>, seq: &SequenceKeymap<String>) {
    let toml = to_toml(km, seq, |a: &String| Some(a.as_str()));
    let out = from_str(&toml, |name: &str| Some(name.to_owned())).unwrap();
    assert!(
        out.warnings.is_empty(),
        "round-trip warned: {:?}",
        out.warnings
    );
    assert_eq!(km_pairs(km), km_pairs(out.global()));
    assert_eq!(seq_pairs(seq), seq_pairs(&out.sequences));
}

fn norm(key: Key, mods: Modifiers) -> KeyInput {
    KeyInput::normalized(key, mods)
}

#[test]
fn to_toml_round_trips_keys_and_sequences() {
    let mut km = Keymap::new();
    km.bind(norm(Key::Char('q'), Modifiers::CTRL), "quit".to_owned());
    km.bind(norm(Key::Char('s'), Modifiers::CTRL), "save".to_owned());
    // Normalization fixed point: bare shift+letter folds to the letter, so it
    // emits as "a" and round-trips to the same normalized chord.
    km.bind(norm(Key::Char('a'), Modifiers::SHIFT), "all".to_owned());
    // Multi-modifier keeps shift: "ctrl+shift+a" survives as itself.
    km.bind(
        norm(Key::Char('a'), Modifiers::CTRL | Modifiers::SHIFT),
        "alt_all".to_owned(),
    );

    let mut seq = SequenceKeymap::new();
    seq.bind(
        &[
            norm(Key::Char('x'), Modifiers::CTRL),
            norm(Key::Char('s'), Modifiers::CTRL),
        ],
        "seq_save".to_owned(),
    )
    .unwrap();
    seq.bind(
        &[
            norm(Key::Char('g'), Modifiers::NONE),
            norm(Key::Char('g'), Modifiers::NONE),
        ],
        "top".to_owned(),
    )
    .unwrap();

    assert_round_trips(&km, &seq);
}

#[test]
fn to_toml_is_deterministic_and_canonically_ordered() {
    let mut km = Keymap::new();
    km.bind(norm(Key::Char('z'), Modifiers::CTRL), "z".to_owned());
    km.bind(norm(Key::Char('a'), Modifiers::CTRL), "a".to_owned());
    let seq = SequenceKeymap::new();

    let first = to_toml(&km, &seq, |a: &String| Some(a.as_str()));
    let second = to_toml(&km, &seq, |a: &String| Some(a.as_str()));
    assert_eq!(first, second, "output must be deterministic");
    // Canonical chord order: "ctrl+a" before "ctrl+z" regardless of bind order.
    let a_at = first.find("ctrl+a").unwrap();
    let z_at = first.find("ctrl+z").unwrap();
    assert!(
        a_at < z_at,
        "keys must be emitted in canonical order:\n{first}"
    );
}

#[test]
fn to_toml_omits_unnameable_bindings() {
    let mut km = Keymap::new();
    km.bind(norm(Key::Char('q'), Modifiers::CTRL), "quit".to_owned());
    km.bind(norm(Key::Char('x'), Modifiers::CTRL), "secret".to_owned());
    let seq = SequenceKeymap::new();

    // `name_of` declines to name "secret", so that binding is dropped.
    let toml = to_toml(&km, &seq, |a: &String| {
        (a != "secret").then_some(a.as_str())
    });
    let out = from_str(&toml, |name: &str| Some(name.to_owned())).unwrap();
    assert_eq!(
        out.global().get(&norm(Key::Char('q'), Modifiers::CTRL)),
        Some(&"quit".to_owned())
    );
    assert_eq!(
        out.global().get(&norm(Key::Char('x'), Modifiers::CTRL)),
        None
    );
}

#[test]
fn to_toml_empty_maps_emit_empty_string() {
    let km: Keymap<String> = Keymap::new();
    let seq: SequenceKeymap<String> = SequenceKeymap::new();
    assert_eq!(to_toml(&km, &seq, |a: &String| Some(a.as_str())), "");
}

#[test]
fn to_toml_round_trips_adversarial_names_and_chords() {
    // Action names with TOML metacharacters must not break out of their
    // string and inject bindings; emitting via `toml::Value` escapes them.
    let mut km = Keymap::new();
    km.bind(
        norm(Key::Char('a'), Modifiers::NONE),
        "quit\"; [injected]\nx = \"oops".to_owned(),
    );
    // Chords whose glyph collides with grammar/TOML punctuation.
    km.bind(norm(Key::Char('+'), Modifiers::NONE), "plus".to_owned());
    km.bind(norm(Key::Char(' '), Modifiers::NONE), "space".to_owned());
    km.bind(norm(Key::Char('"'), Modifiers::NONE), "quote".to_owned());
    km.bind(norm(Key::Char('あ'), Modifiers::NONE), "hira".to_owned());
    km.bind(norm(Key::Char('F'), Modifiers::NONE), "cap_f".to_owned());

    // Sequence starts with an unbound key (`z`) so it does not cross-shadow
    // the single-key ` `/`+` bindings; ` ` and `+` still appear as non-first
    // elements to exercise array-element round-tripping of odd glyphs.
    let mut seq = SequenceKeymap::new();
    seq.bind(
        &[
            norm(Key::Char('z'), Modifiers::NONE),
            norm(Key::Char(' '), Modifiers::NONE),
            norm(Key::Char('+'), Modifiers::NONE),
        ],
        "z_space_plus".to_owned(),
    )
    .unwrap();

    assert_round_trips(&km, &seq);
}

#[test]
fn shadow_matching_is_on_the_parsed_chord_not_the_label() {
    // Positive: `ctrl+x` single shadows `[ctrl+x, ctrl+s]`.
    let toml = "\
[keys]\n\"ctrl+x\" = \"top\"\n\
[[sequences]]\nkeys = [\"ctrl+x\", \"ctrl+s\"]\naction = \"save\"\n";
    let out = from_str(toml, resolver).unwrap();
    assert_eq!(
        out.warnings,
        vec![Warning::SequenceShadow {
            chord: "ctrl+x".to_string(),
            chord_action: "top".to_string(),
            sequence: vec!["ctrl+x".to_string(), "ctrl+s".to_string()],
            sequence_action: "save".to_string(),
        }]
    );

    // Negative: a different modifier set is a different KeyInput, no shadow.
    let toml = "\
[keys]\n\"ctrl+x\" = \"top\"\n\
[[sequences]]\nkeys = [\"ctrl+shift+x\", \"ctrl+s\"]\naction = \"save\"\n";
    let out = from_str(toml, resolver).unwrap();
    assert!(out.warnings.is_empty());
}

#[test]
fn to_toml_layered_round_trips_named_layers() {
    let mut global = Keymap::new();
    global.bind(norm(Key::Char('q'), Modifiers::CTRL), "quit".to_owned());
    let mut panel = Keymap::new();
    panel.bind(norm(Key::Char('s'), Modifiers::CTRL), "split".to_owned());
    // The same chord in two layers is preserved independently on round-trip.
    panel.bind(
        norm(Key::Char('q'), Modifiers::CTRL),
        "panel_quit".to_owned(),
    );

    let mut layers = NameMap::new();
    layers.insert(GLOBAL_LAYER.to_string(), global);
    layers.insert("panel".to_string(), panel);

    let mut seq = SequenceKeymap::new();
    seq.bind(
        &[
            norm(Key::Char('x'), Modifiers::CTRL),
            norm(Key::Char('s'), Modifiers::CTRL),
        ],
        "seq_save".to_owned(),
    )
    .unwrap();

    let toml = to_toml_layered(&layers, &seq, |a: &String| Some(a.as_str()));
    let out = from_str(&toml, |name: &str| Some(name.to_owned())).unwrap();
    assert!(
        out.warnings.is_empty(),
        "round-trip warned: {:?}",
        out.warnings
    );
    assert_eq!(km_pairs(layers.get("global").unwrap()), km_pairs(out.global()));
    assert_eq!(km_pairs(layers.get("panel").unwrap()), km_pairs(out.layers.get("panel").unwrap()));
    assert_eq!(seq_pairs(&seq), seq_pairs(&out.sequences));
}

#[test]
fn to_toml_layered_matches_to_toml_for_a_global_only_set() {
    // A set with only the global layer must emit byte-identical output to
    // `to_toml` on that one keymap, so the two emitters cannot drift.
    let mut global = Keymap::new();
    global.bind(norm(Key::Char('q'), Modifiers::CTRL), "quit".to_owned());
    global.bind(norm(Key::Char('s'), Modifiers::CTRL), "save".to_owned());
    let mut seq = SequenceKeymap::new();
    seq.bind(
        &[
            norm(Key::Char('g'), Modifiers::NONE),
            norm(Key::Char('g'), Modifiers::NONE),
        ],
        "top".to_owned(),
    )
    .unwrap();

    let mut layers = NameMap::new();
    layers.insert(GLOBAL_LAYER.to_string(), global.clone());

    let plain = to_toml(&global, &seq, |a: &String| Some(a.as_str()));
    let layered = to_toml_layered(&layers, &seq, |a: &String| Some(a.as_str()));
    assert_eq!(plain, layered);
    // And an empty global-only set emits the empty string, like `to_toml`.
    let empty_layers: NameMap<Keymap<String>> = NameMap::new();
    assert_eq!(
        to_toml_layered(&empty_layers, &SequenceKeymap::new(), |a: &String| Some(
            a.as_str()
        )),
        ""
    );
}

#[test]
fn to_toml_layered_drops_empty_layers() {
    // An empty layer emits no table, so it does not survive a round-trip.
    // This is the deliberate asymmetry: `from_str` keeps a declared-but-empty
    // layer in the map, but `to_toml_layered` writes only layers with bindings.
    let mut global = Keymap::new();
    global.bind(norm(Key::Char('q'), Modifiers::CTRL), "quit".to_owned());
    let mut layers = NameMap::new();
    layers.insert(GLOBAL_LAYER.to_string(), global);
    layers.insert("panel".to_string(), Keymap::<String>::new());

    let toml = to_toml_layered(&layers, &SequenceKeymap::new(), |a: &String| {
        Some(a.as_str())
    });
    assert!(
        !toml.contains("panel"),
        "empty layer must not be emitted:\n{toml}"
    );
    let out = from_str(&toml, |name: &str| Some(name.to_owned())).unwrap();
    assert_eq!(names(&out), vec![GLOBAL_LAYER]);
}

// --- chord tombstone (= false) tests ---

/// `"chord" = false` is accepted, and the chord lands in `unbinds`, not in the keymap.
#[test]
fn tombstone_false_was_build_error_in_0_1_0_now_accepted() {
    let toml = "[keys]\n\"ctrl+q\" = false\n";
    let out = from_str(toml, resolver).unwrap();
    // The chord is NOT in the keymap.
    let q = KeyInput::new(Key::Char('q'), Modifiers::CTRL);
    assert_eq!(out.global().get(&q), None);
    // The chord IS in unbinds.
    let global_unbinds = out
        .unbinds
        .get(GLOBAL_LAYER)
        .expect("global unbinds present");
    assert!(global_unbinds.contains(&q));
    // No warnings: tombstones are silent.
    assert!(out.warnings.is_empty());
}

/// `"chord" = true` is a `BuildError::InvalidTombstone`.
#[test]
fn tombstone_true_is_still_an_error() {
    let toml = "[keys]\n\"ctrl+q\" = true\n";
    let err = from_str(toml, resolver).unwrap_err();
    assert!(
        matches!(err, BuildError::InvalidTombstone { .. }),
        "expected InvalidTombstone, got {err:?}"
    );
}

#[test]
fn tombstone_in_named_layer_lands_in_unbinds_not_keymap() {
    let toml = "[layers.panel]\n\"ctrl+s\" = false\n";
    let out = from_str(toml, resolver).unwrap();
    let s = KeyInput::new(Key::Char('s'), Modifiers::CTRL);
    assert!(out.layers.get("panel").unwrap().is_empty());
    let panel_unbinds = out.unbinds.get("panel").expect("panel unbinds present");
    assert!(panel_unbinds.contains(&s));
}

#[test]
fn tombstone_coexists_with_bindings_in_same_layer() {
    // A layer can have both a binding and a tombstone.
    let toml = "[keys]\n\"ctrl+q\" = \"quit\"\n\"ctrl+s\" = false\n";
    let out = from_str(toml, resolver).unwrap();
    let q = KeyInput::new(Key::Char('q'), Modifiers::CTRL);
    let s = KeyInput::new(Key::Char('s'), Modifiers::CTRL);
    assert_eq!(out.global().get(&q), Some(&Action::Quit));
    assert_eq!(out.global().get(&s), None);
    let global_unbinds = out.unbinds.get(GLOBAL_LAYER).unwrap();
    assert!(global_unbinds.contains(&s));
}

#[test]
fn empty_config_has_empty_unbinds() {
    // Configs with no tombstones have an empty unbinds map.
    let out: BuildOutput<Action> =
        from_str("[keys]\n\"ctrl+q\" = \"quit\"\n", resolver).unwrap();
    assert!(out.unbinds.is_empty());
}

// --- to_toml_layered tombstone round-trip tests ---

/// When `unbinds` is empty, `to_toml_layered_with_unbinds` is byte-identical
/// to `to_toml_layered`.
#[test]
fn to_toml_layered_with_empty_unbinds_matches_0_1_0_behavior() {
    let mut global = Keymap::new();
    global.bind(norm(Key::Char('q'), Modifiers::CTRL), "quit".to_owned());
    let mut layers = NameMap::new();
    layers.insert(GLOBAL_LAYER.to_string(), global.clone());
    let seq = SequenceKeymap::new();
    let empty_unbinds: NameMap<Vec<KeyInput>> = NameMap::new();

    let plain = to_toml_layered(&layers, &seq, |a: &String| Some(a.as_str()));
    let with_empty =
        to_toml_layered_with_unbinds(&layers, &seq, &empty_unbinds, |a: &String| {
            Some(a.as_str())
        });
    assert_eq!(
        plain, with_empty,
        "empty unbinds must produce byte-identical output to to_toml_layered"
    );
}

#[test]
fn to_toml_layered_emits_tombstones_and_round_trips() {
    // A tombstone in the global layer round-trips through to_toml_layered →
    // from_str and appears again in unbinds.
    let global: Keymap<String> = Keymap::new(); // nothing bound
    let mut layers = NameMap::new();
    layers.insert(GLOBAL_LAYER.to_string(), global);

    let ctrl_s = norm(Key::Char('s'), Modifiers::CTRL);
    let mut unbinds: NameMap<Vec<KeyInput>> = NameMap::new();
    unbinds.insert(GLOBAL_LAYER.to_string(), vec![ctrl_s]);

    let toml_str = to_toml_layered_with_unbinds(
        &layers,
        &SequenceKeymap::new(),
        &unbinds,
        |a: &String| Some(a.as_str()),
    );
    // The tombstone must appear in the output.
    assert!(
        toml_str.contains("false"),
        "tombstone must be emitted as `= false`:\n{toml_str}"
    );
    // Round-trip: parsing the emitted TOML recovers the unbind.
    let out = from_str(&toml_str, |name: &str| Some(name.to_owned())).unwrap();
    let global_unbinds = out
        .unbinds
        .get(GLOBAL_LAYER)
        .expect("global unbinds present");
    assert!(global_unbinds.contains(&ctrl_s));
    assert!(out.warnings.is_empty());
}

#[test]
fn to_toml_layered_tombstone_injection_safe() {
    // A chord whose string representation contains TOML metacharacters must
    // not be able to inject extra entries. The tombstone is emitted via
    // `toml::Value::Boolean(false)` — the same injection-safe path as strings.
    // This test uses a space chord (which emits as `" "`) to exercise quoting.
    let space = norm(Key::Char(' '), Modifiers::NONE);
    let layers: NameMap<Keymap<String>> = NameMap::new();
    let mut unbinds: NameMap<Vec<KeyInput>> = NameMap::new();
    unbinds.insert(GLOBAL_LAYER.to_string(), vec![space]);

    let toml_str = to_toml_layered_with_unbinds(
        &layers,
        &SequenceKeymap::new(),
        &unbinds,
        |a: &String| Some(a.as_str()),
    );
    // Must round-trip cleanly (no injection = no parse error).
    let out = from_str(&toml_str, |name: &str| Some(name.to_owned())).unwrap();
    let global_unbinds = out
        .unbinds
        .get(GLOBAL_LAYER)
        .expect("global unbinds present");
    assert!(global_unbinds.contains(&space));
}

// --- merge tests ---

fn make_output(toml: &str) -> BuildOutput<String> {
    from_str(toml, |name: &str| Some(name.to_owned())).unwrap()
}

#[test]
fn merge_overlay_chord_wins_silently_with_override_note() {
    let base = make_output("[keys]\n\"ctrl+s\" = \"save_base\"\n");
    let overlay = make_output("[keys]\n\"ctrl+s\" = \"save_overlay\"\n");
    let merged = merge(base, overlay);

    let s = norm(Key::Char('s'), Modifiers::CTRL);
    assert_eq!(
        merged.output.global().get(&s),
        Some(&"save_overlay".to_owned()),
        "overlay wins"
    );
    assert!(
        merged.output.warnings.is_empty(),
        "override must not produce a Warning"
    );
    assert!(
        merged.notes.iter().any(|n| matches!(n,
            MergeNote::Overrode { layer, chord }
            if layer == GLOBAL_LAYER && chord == "ctrl+s"
        )),
        "Overrode note must be emitted: {:?}",
        merged.notes
    );
}

#[test]
fn merge_layer_union_adds_layers_from_overlay() {
    let base = make_output("[keys]\n\"ctrl+q\" = \"quit\"\n");
    let overlay = make_output("[layers.panel]\n\"ctrl+s\" = \"split\"\n");
    let merged = merge(base, overlay);

    assert!(
        merged.output.layers.contains_key("panel"),
        "panel layer added"
    );
    let s = norm(Key::Char('s'), Modifiers::CTRL);
    assert_eq!(
        merged.output.layers.get("panel").unwrap().get(&s),
        Some(&"split".to_owned())
    );
    assert!(
        merged.notes.is_empty(),
        "no notes for pure add: {:?}",
        merged.notes
    );
}

#[test]
fn merge_sequence_exact_overlay_wins() {
    let base =
        make_output("[[sequences]]\nkeys = [\"ctrl+x\", \"ctrl+s\"]\naction = \"save_base\"\n");
    let overlay = make_output(
        "[[sequences]]\nkeys = [\"ctrl+x\", \"ctrl+s\"]\naction = \"save_overlay\"\n",
    );
    let merged = merge(base, overlay);

    let xs = vec![
        norm(Key::Char('x'), Modifiers::CTRL),
        norm(Key::Char('s'), Modifiers::CTRL),
    ];
    assert_eq!(
        merged.output.sequences.lookup(&xs),
        Match::Exact(&"save_overlay".to_owned()),
        "overlay sequence wins"
    );
    assert!(merged.output.warnings.is_empty());
}

#[test]
fn merge_sequence_prefix_clash_drops_base_with_note() {
    // Base has `g g`; overlay has `g`. The overlay's shorter sequence is a
    // prefix of the base's longer one. The base sequence is dropped.
    let base = make_output("[[sequences]]\nkeys = [\"g\", \"g\"]\naction = \"top_base\"\n");
    let overlay = make_output("[[sequences]]\nkeys = [\"g\"]\naction = \"top_overlay\"\n");
    let merged = merge(base, overlay);

    let g = vec![norm(Key::Char('g'), Modifiers::NONE)];
    assert_eq!(
        merged.output.sequences.lookup(&g),
        Match::Exact(&"top_overlay".to_owned()),
        "overlay wins"
    );
    assert!(
        merged
            .notes
            .iter()
            .any(|n| matches!(n, MergeNote::DroppedSequence { .. })),
        "DroppedSequence note must be emitted: {:?}",
        merged.notes
    );
}

#[test]
fn merge_unbind_removes_from_base_with_unbound_note() {
    let base = make_output("[keys]\n\"ctrl+s\" = \"save\"\n");
    let overlay = make_output("[keys]\n\"ctrl+s\" = false\n");
    let merged = merge(base, overlay);

    let s = norm(Key::Char('s'), Modifiers::CTRL);
    assert_eq!(
        merged.output.global().get(&s),
        None,
        "chord removed from base"
    );
    assert!(
        merged.notes.iter().any(|n| matches!(n,
            MergeNote::Unbound { layer, chord }
            if layer == GLOBAL_LAYER && chord == "ctrl+s"
        )),
        "Unbound note must be emitted: {:?}",
        merged.notes
    );
    assert!(merged.output.warnings.is_empty());
}

#[test]
fn merge_unbind_of_absent_chord_produces_miss_note() {
    let base = make_output("[keys]\n\"ctrl+q\" = \"quit\"\n");
    let overlay = make_output("[keys]\n\"ctrl+s\" = false\n");
    let merged = merge(base, overlay);

    assert!(
        merged.notes.iter().any(|n| matches!(n,
            MergeNote::UnbindMiss { chord, .. }
            if chord == "ctrl+s"
        )),
        "UnbindMiss note expected: {:?}",
        merged.notes
    );
    // The present binding is untouched.
    let q = norm(Key::Char('q'), Modifiers::CTRL);
    assert_eq!(merged.output.global().get(&q), Some(&"quit".to_owned()));
}

#[test]
fn merge_warnings_are_concatenated_not_mixed_into_notes() {
    // Both base and overlay have warnings (unknown action names); they must
    // appear in output.warnings, not in notes. Use `resolver` which only
    // knows "quit"/"save"/"split"/"top" so "nope_*" is an UnknownAction.
    let base = from_str("[keys]\n\"ctrl+z\" = \"nope_base\"\n", resolver).unwrap();
    let overlay = from_str("[keys]\n\"ctrl+y\" = \"nope_overlay\"\n", resolver).unwrap();
    assert_eq!(base.warnings.len(), 1);
    assert_eq!(overlay.warnings.len(), 1);
    let merged = merge(base, overlay);

    assert_eq!(merged.output.warnings.len(), 2, "both warnings carried");
    assert!(merged.notes.is_empty());
}

// --- WarningKind + Display for Warning ---

/// Every `Warning` variant maps to the corresponding `WarningKind` variant with
/// no gaps — the table below pins the 1-to-1 correspondence.
#[test]
fn warning_kind_covers_all_variants() {
    let conflict = Warning::Conflict {
        chord: "ctrl+a".to_string(),
        contenders: vec!["quit".to_string(), "save".to_string()],
        winner: "save".to_string(),
    };
    assert_eq!(conflict.kind(), WarningKind::Conflict);

    let unknown = Warning::UnknownAction {
        key: "ctrl+z".to_string(),
        action: "undo".to_string(),
    };
    assert_eq!(unknown.kind(), WarningKind::UnknownAction);

    let prefix = Warning::PrefixShadow {
        prefix: vec!["g".to_string()],
        prefix_action: "top".to_string(),
        shadowed: vec!["g".to_string(), "g".to_string()],
        shadowed_action: "top2".to_string(),
    };
    assert_eq!(prefix.kind(), WarningKind::PrefixShadow);

    let empty = Warning::EmptySequence {
        action: "quit".to_string(),
    };
    assert_eq!(empty.kind(), WarningKind::EmptySequence);

    let shadow = Warning::SequenceShadow {
        chord: "j".to_string(),
        chord_action: "down".to_string(),
        sequence: vec!["j".to_string(), "k".to_string()],
        sequence_action: "top".to_string(),
    };
    assert_eq!(shadow.kind(), WarningKind::SequenceShadow);
}

/// Display output is non-empty, human-readable, and contains the key field
/// for each variant. Does not assert exact format (format is not stable), but
/// checks the load-bearing content the user would need to read.
#[test]
fn warning_display_is_human_readable() {
    let conflict = Warning::Conflict {
        chord: "ctrl+a".to_string(),
        contenders: vec!["quit".to_string(), "save".to_string()],
        winner: "save".to_string(),
    };
    let s = conflict.to_string();
    assert!(
        s.contains("ctrl+a"),
        "conflict display must mention the chord: {s}"
    );
    assert!(
        s.contains("save"),
        "conflict display must mention the winner: {s}"
    );

    let unknown = Warning::UnknownAction {
        key: "ctrl+z".to_string(),
        action: "undo".to_string(),
    };
    let s = unknown.to_string();
    assert!(
        s.contains("undo"),
        "unknown-action display must mention the action: {s}"
    );

    let prefix = Warning::PrefixShadow {
        prefix: vec!["g".to_string()],
        prefix_action: "top".to_string(),
        shadowed: vec!["g".to_string(), "g".to_string()],
        shadowed_action: "top2".to_string(),
    };
    let s = prefix.to_string();
    assert!(
        !s.is_empty(),
        "prefix-shadow display must not be empty: {s}"
    );

    let empty_seq = Warning::EmptySequence {
        action: "quit".to_string(),
    };
    let s = empty_seq.to_string();
    assert!(
        s.contains("quit"),
        "empty-sequence display must mention the action: {s}"
    );

    let shadow = Warning::SequenceShadow {
        chord: "j".to_string(),
        chord_action: "down".to_string(),
        sequence: vec!["j".to_string(), "k".to_string()],
        sequence_action: "top".to_string(),
    };
    let s = shadow.to_string();
    assert!(
        s.contains('j'),
        "sequence-shadow display must mention the chord: {s}"
    );
}
