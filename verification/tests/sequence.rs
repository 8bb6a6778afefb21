use keymap_suite::{Continuation, Key, KeyInput, Match, Modifiers, SeqBindError, SequenceKeymap};

#[derive(Debug, Clone, PartialEq)]
enum Action {
    Save,
    Quit,
    Top,
    Solo,
}

fn ctrl(c: char) -> KeyInput {
    KeyInput::new(Key::Char(c), Modifiers::CTRL)
}

fn plain(c: char) -> KeyInput {
    KeyInput::new(Key::Char(c), Modifiers::NONE)
}

/// `ctrl+x ctrl+s` -> Save, `ctrl+x ctrl+c` -> Quit, `g g` -> Top,
/// `q` (length-1 sequence) -> Solo.
fn sample() -> SequenceKeymap<Action> {
    let mut map = SequenceKeymap::new();
    map.bind(&[ctrl('x'), ctrl('s')], Action::Save).unwrap();
    map.bind(&[ctrl('x'), ctrl('c')], Action::Quit).unwrap();
    map.bind(&[plain('g'), plain('g')], Action::Top).unwrap();
    map.bind(&[plain('q')], Action::Solo).unwrap();
    map
}

#[test]
fn single_key_sequence_resolves() {
    let map = sample();
    assert_eq!(map.lookup(&[plain('q')]), Match::Exact(&Action::Solo));
}

#[test]
fn prefix_then_leaf() {
    let map = sample();
    // One key in: still a prefix.
    assert_eq!(map.lookup(&[ctrl('x')]), Match::Prefix);
    // Full sequence: exact.
    assert_eq!(
        map.lookup(&[ctrl('x'), ctrl('s')]),
        Match::Exact(&Action::Save)
    );
}

#[test]
fn map_branching_prefix_reaches_both_leaves() {
    let map = sample();
    assert_eq!(
        map.lookup(&[ctrl('x'), ctrl('c')]),
        Match::Exact(&Action::Quit)
    );
    assert_eq!(
        map.lookup(&[ctrl('x'), ctrl('s')]),
        Match::Exact(&Action::Save)
    );
}

#[test]
fn miss_on_first_key() {
    let map = sample();
    assert_eq!(map.lookup(&[plain('z')]), Match::NoMatch);
}

#[test]
fn miss_off_a_prefix_path() {
    let map = sample();
    // `ctrl+x` is a valid prefix, but `ctrl+x z` leaves the tree.
    assert_eq!(map.lookup(&[ctrl('x'), plain('z')]), Match::NoMatch);
}

#[test]
fn empty_buffer_on_nonempty_map_is_prefix() {
    let map = sample();
    // Nothing typed yet, but bindings exist: still possible.
    assert_eq!(map.lookup(&[]), Match::Prefix);
}

#[test]
fn empty_buffer_on_empty_map_is_no_match() {
    let map: SequenceKeymap<Action> = SequenceKeymap::new();
    assert!(map.is_empty());
    assert_eq!(map.lookup(&[]), Match::NoMatch);
    assert_eq!(map.lookup(&[ctrl('x')]), Match::NoMatch);
}

#[test]
fn rebinding_exact_sequence_overwrites_and_returns_previous() {
    let mut map = SequenceKeymap::new();
    assert_eq!(map.bind(&[ctrl('x'), ctrl('s')], Action::Save), Ok(None));
    assert_eq!(
        map.bind(&[ctrl('x'), ctrl('s')], Action::Quit),
        Ok(Some(Action::Save))
    );
    assert_eq!(
        map.lookup(&[ctrl('x'), ctrl('s')]),
        Match::Exact(&Action::Quit)
    );
}

#[test]
fn empty_sequence_is_rejected() {
    let mut map: SequenceKeymap<Action> = SequenceKeymap::new();
    assert_eq!(map.bind(&[], Action::Save), Err(SeqBindError::Empty));
}

#[test]
fn existing_short_binding_shadows_new_longer_one() {
    let mut map = SequenceKeymap::new();
    map.bind(&[plain('g')], Action::Solo).unwrap();
    // `g` is already terminal; `g g` would pass through it.
    assert_eq!(
        map.bind(&[plain('g'), plain('g')], Action::Top),
        Err(SeqBindError::PrefixShadow {
            sequence: vec![plain('g'), plain('g')],
            conflict: vec![plain('g')],
        })
    );
    // The map is unchanged: `g` still resolves, `g g` was never added.
    assert_eq!(map.lookup(&[plain('g')]), Match::Exact(&Action::Solo));
}

#[test]
fn new_short_binding_shadows_existing_longer_one() {
    let mut map = SequenceKeymap::new();
    map.bind(&[plain('g'), plain('g')], Action::Top).unwrap();
    // `g` would be a prefix of the existing `g g`.
    assert_eq!(
        map.bind(&[plain('g')], Action::Solo),
        Err(SeqBindError::PrefixShadow {
            sequence: vec![plain('g')],
            conflict: vec![plain('g'), plain('g')],
        })
    );
    // Unchanged: `g g` still resolves, `g` is only a prefix.
    assert_eq!(map.lookup(&[plain('g')]), Match::Prefix);
    assert_eq!(
        map.lookup(&[plain('g'), plain('g')]),
        Match::Exact(&Action::Top)
    );
}

#[test]
fn deep_sequence_is_prefix_at_every_step_then_exact() {
    // A length-3 sequence: every proper prefix resolves to Prefix, the full
    // sequence to Exact, and a wrong final key to NoMatch.
    let mut map = SequenceKeymap::new();
    map.bind(&[plain('a'), plain('b'), plain('c')], Action::Top)
        .unwrap();
    assert_eq!(map.lookup(&[plain('a')]), Match::Prefix);
    assert_eq!(map.lookup(&[plain('a'), plain('b')]), Match::Prefix);
    assert_eq!(
        map.lookup(&[plain('a'), plain('b'), plain('c')]),
        Match::Exact(&Action::Top)
    );
    assert_eq!(
        map.lookup(&[plain('a'), plain('b'), plain('z')]),
        Match::NoMatch
    );
}

#[test]
fn independent_single_and_sequence_coexist() {
    // `q` (single) and `ctrl+x ctrl+s` (sequence) share no prefix, so both
    // bind cleanly — only a *shared* prefix is forbidden.
    let map = sample();
    assert_eq!(map.lookup(&[plain('q')]), Match::Exact(&Action::Solo));
    assert_eq!(map.lookup(&[ctrl('x')]), Match::Prefix);
}

/// Collects `continuations` into a vec sorted by the canonical key string, because
/// the order of the rows is not part of the contract.
fn sorted_continuations<'a>(
    map: &'a SequenceKeymap<Action>,
    prefix: &[KeyInput],
) -> Vec<(KeyInput, Continuation<'a, Action>)> {
    let mut out: Vec<_> = map.continuations(prefix);
    out.sort_by_key(|(key, _)| key.to_string());
    out
}

#[test]
fn continuations_at_root_list_the_leader_keys() {
    // sample(): `ctrl+x …` (prefix), `g g` (prefix via `g`), `q` (action).
    assert_eq!(
        sorted_continuations(&sample(), &[]),
        vec![
            (ctrl('x'), Continuation::Prefix),
            (plain('g'), Continuation::Prefix),
            (plain('q'), Continuation::Action(&Action::Solo)),
        ]
    );
}

#[test]
fn continuations_after_a_prefix_classify_each_child() {
    // After `ctrl+x`, both `ctrl+s` (Save) and `ctrl+c` (Quit) complete.
    assert_eq!(
        sorted_continuations(&sample(), &[ctrl('x')]),
        vec![
            (ctrl('c'), Continuation::Action(&Action::Quit)),
            (ctrl('s'), Continuation::Action(&Action::Save)),
        ]
    );
}

#[test]
fn continuations_mix_action_and_prefix() {
    // `a b` (action) and `a c d` (deeper) share the prefix `a`: after `a`,
    // `b` completes while `c` opens a further prefix.
    let mut map = SequenceKeymap::new();
    map.bind(&[plain('a'), plain('b')], Action::Save).unwrap();
    map.bind(&[plain('a'), plain('c'), plain('d')], Action::Quit)
        .unwrap();
    assert_eq!(
        sorted_continuations(&map, &[plain('a')]),
        vec![
            (plain('b'), Continuation::Action(&Action::Save)),
            (plain('c'), Continuation::Prefix),
        ]
    );
}

#[test]
fn a_completed_binding_has_no_continuations() {
    // `q` is a leaf; nothing follows it.
    assert_eq!(sample().continuations(&[plain('q')]).len(), 0);
    assert_eq!(sample().continuations(&[ctrl('x'), ctrl('s')]).len(), 0);
}

#[test]
fn off_tree_prefix_has_no_continuations() {
    let map = sample();
    // A first key bound nowhere, and a valid prefix then a wrong key.
    assert_eq!(map.continuations(&[plain('z')]).len(), 0);
    assert_eq!(map.continuations(&[ctrl('x'), plain('z')]).len(), 0);
}

#[test]
fn empty_map_has_no_continuations() {
    let map: SequenceKeymap<Action> = SequenceKeymap::new();
    assert_eq!(map.continuations(&[]).len(), 0);
    assert_eq!(map.continuations(&[plain('a')]).len(), 0);
}

#[test]
fn continuations_descend_to_deeper_internal_nodes() {
    // `a b` (action) and `a c d e` (deep) share the prefix `a`; this drives
    // the descent past depth 1 on a *hit* (the other tests stop at depth 1).
    let mut map = SequenceKeymap::new();
    map.bind(&[plain('a'), plain('b')], Action::Save).unwrap();
    map.bind(
        &[plain('a'), plain('c'), plain('d'), plain('e')],
        Action::Quit,
    )
    .unwrap();
    // Depth 2: through `a c` to an internal node whose child `d` is a deeper
    // prefix (a `Prefix` continuation returned away from the root).
    assert_eq!(
        sorted_continuations(&map, &[plain('a'), plain('c')]),
        vec![(plain('d'), Continuation::Prefix)]
    );
    // Depth 3: one key short of the leaf, `e` completes the binding.
    assert_eq!(
        sorted_continuations(&map, &[plain('a'), plain('c'), plain('d')]),
        vec![(plain('e'), Continuation::Action(&Action::Quit))]
    );
}

/// Collects `bindings` into a vec sorted by the joined canonical path, because
/// the order of the rows is not part of the contract.
fn sorted_bindings(map: &SequenceKeymap<Action>) -> Vec<(Vec<KeyInput>, &Action)> {
    let mut out: Vec<_> = map.bindings();
    out.sort_by_key(|(path, _)| {
        path.iter()
            .map(|key| key.to_string())
            .collect::<Vec<_>>()
            .join(" ")
    });
    out
}

#[test]
fn bindings_enumerate_every_leaf_path() {
    // sample(): two branches under `ctrl+x`, the `g g` leaf, and the `q` leaf.
    assert_eq!(
        sorted_bindings(&sample()),
        vec![
            (vec![ctrl('x'), ctrl('c')], &Action::Quit),
            (vec![ctrl('x'), ctrl('s')], &Action::Save),
            (vec![plain('g'), plain('g')], &Action::Top),
            (vec![plain('q')], &Action::Solo),
        ]
    );
}

#[test]
fn bindings_of_empty_map_is_empty() {
    let map: SequenceKeymap<Action> = SequenceKeymap::new();
    assert_eq!(map.bindings().len(), 0);
}

#[test]
fn bindings_never_yield_internal_prefixes() {
    // Every yielded path must itself resolve to Exact (a leaf) — never a
    // partial prefix. This is the prefix-free invariant, viewed through
    // enumeration.
    let map = sample();
    for (path, action) in map.bindings() {
        assert_eq!(map.lookup(&path), Match::Exact(action));
    }
}

#[test]
fn continuations_nonempty_iff_lookup_is_prefix() {
    // Cross-method invariant: a buffer has continuations exactly when it is a
    // proper prefix; an exact hit or a miss has none. Catches a desync between
    // the two descents without re-deriving the contents (which would be
    // tautological).
    let map = sample();
    let cases: &[&[KeyInput]] = &[
        &[],
        &[plain('q')],
        &[ctrl('x')],
        &[ctrl('x'), ctrl('s')],
        &[plain('z')],
        &[ctrl('x'), plain('z')],
    ];
    for keys in cases {
        let has_next = map.continuations(keys).len() > 0;
        match map.lookup(keys) {
            Match::Prefix => assert!(has_next, "Prefix must have continuations: {keys:?}"),
            Match::Exact(_) | Match::NoMatch => {
                assert!(!has_next, "non-Prefix must have no continuations: {keys:?}");
            }
        }
    }
}
