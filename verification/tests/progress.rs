use keymap_suite::{Key, KeyInput, Modifiers, PendingSequence, SequenceKeymap, Step};

#[derive(Debug, Clone, PartialEq)]
enum Action {
    Save,
    Quit,
    Top,
    Solo,
}

fn ctrl(c: char) -> KeyInput {
    KeyInput::new(Key::Char(c), Modifiers::CTRL)
}

fn plain(c: char) -> KeyInput {
    KeyInput::new(Key::Char(c), Modifiers::NONE)
}

/// `ctrl+x ctrl+s` -> Save, `ctrl+x ctrl+c` -> Quit, `g g` -> Top, `q` -> Solo.
fn sample() -> SequenceKeymap<Action> {
    let mut map = SequenceKeymap::new();
    map.bind(&[ctrl('x'), ctrl('s')], Action::Save).unwrap();
    map.bind(&[ctrl('x'), ctrl('c')], Action::Quit).unwrap();
    map.bind(&[plain('g'), plain('g')], Action::Top).unwrap();
    map.bind(&[plain('q')], Action::Solo).unwrap();
    map
}

#[test]
fn prefix_then_exact_fires_and_clears() {
    let map = sample();
    let mut p = PendingSequence::new();
    assert_eq!(p.feed(&map, ctrl('x')), Step::Pending);
    assert_eq!(p.pending(), &[ctrl('x')]);
    assert_eq!(p.feed(&map, ctrl('s')), Step::Fired(&Action::Save));
    // Fired cleared the buffer.
    assert!(p.is_empty());
}

#[test]
fn clear_after_exact_lets_the_next_sequence_start_fresh() {
    // A forgotten clear, asserted through the *next* transition: a third
    // `g` after a completed `g g` must be a fresh Prefix, not a phantom Exact.
    let map = sample();
    let mut p = PendingSequence::new();
    assert_eq!(p.feed(&map, plain('g')), Step::Pending);
    assert_eq!(p.feed(&map, plain('g')), Step::Fired(&Action::Top));
    assert_eq!(p.feed(&map, plain('g')), Step::Pending);
    assert_eq!(p.pending(), &[plain('g')]);
}

#[test]
fn passthrough_returns_the_whole_buffer_not_just_the_last_key() {
    // An abandoned prefix (`ctrl+x` then an unrelated key) hands back both
    // keys, in order — dropping the held `ctrl+x` would silently eat input.
    let map = sample();
    let mut p = PendingSequence::new();
    assert_eq!(p.feed(&map, ctrl('x')), Step::Pending);
    assert_eq!(
        p.feed(&map, plain('z')),
        Step::PassThrough(vec![ctrl('x'), plain('z')])
    );
    assert!(p.is_empty());
}

#[test]
fn length_one_sequence_fires_on_the_first_key() {
    let map = sample();
    let mut p = PendingSequence::new();
    assert_eq!(p.feed(&map, plain('q')), Step::Fired(&Action::Solo));
    assert!(p.is_empty());
}

#[test]
fn empty_map_passes_every_key_through() {
    let map: SequenceKeymap<Action> = SequenceKeymap::new();
    let mut p = PendingSequence::new();
    // No binding can exist, so a key is never a Prefix to wait on.
    assert_eq!(
        p.feed(&map, plain('a')),
        Step::PassThrough(vec![plain('a')])
    );
    assert!(p.is_empty());
}

#[test]
fn abandoned_prefix_does_not_contaminate_a_fresh_sequence() {
    // An abandoned `ctrl+x z`, then a clean `g g`.
    let map = sample();
    let mut p = PendingSequence::new();
    assert_eq!(p.feed(&map, ctrl('x')), Step::Pending);
    assert_eq!(
        p.feed(&map, plain('z')),
        Step::PassThrough(vec![ctrl('x'), plain('z')])
    );
    assert_eq!(p.feed(&map, plain('g')), Step::Pending);
    assert_eq!(p.feed(&map, plain('g')), Step::Fired(&Action::Top));
    assert!(p.is_empty());
}

#[test]
fn a_key_that_could_start_a_sequence_is_passed_through_mid_prefix() {
    // `a b` and `c` bound; `a` then `c` makes `[a, c]` a miss — `c` is handed
    // back *with* `a`, not re-fed as a fresh start (lookahead is the caller's).
    let mut map = SequenceKeymap::new();
    map.bind(&[plain('a'), plain('b')], Action::Save).unwrap();
    map.bind(&[plain('c')], Action::Solo).unwrap();
    let mut p = PendingSequence::new();
    assert_eq!(p.feed(&map, plain('a')), Step::Pending);
    assert_eq!(
        p.feed(&map, plain('c')),
        Step::PassThrough(vec![plain('a'), plain('c')])
    );
}

#[test]
fn progress_branching_prefix_reaches_both_leaves() {
    let map = sample();
    let mut p = PendingSequence::new();
    assert_eq!(p.feed(&map, ctrl('x')), Step::Pending);
    assert_eq!(p.feed(&map, ctrl('c')), Step::Fired(&Action::Quit));
    assert_eq!(p.feed(&map, ctrl('x')), Step::Pending);
    assert_eq!(p.feed(&map, ctrl('s')), Step::Fired(&Action::Save));
}

#[test]
fn deep_prefix_is_pending_at_every_step_then_fires() {
    let mut map = SequenceKeymap::new();
    map.bind(&[plain('a'), plain('b'), plain('c')], Action::Top)
        .unwrap();
    let mut p = PendingSequence::new();
    assert_eq!(p.feed(&map, plain('a')), Step::Pending);
    assert_eq!(p.feed(&map, plain('b')), Step::Pending);
    assert_eq!(p.feed(&map, plain('c')), Step::Fired(&Action::Top));
}

// --- flush: idle flush and its abnormal cases. ---

#[test]
fn flush_drains_a_pending_prefix_as_literals_exactly_once() {
    // A prefix held, then the
    // caller's idle timer flushes the dangling key as a literal, once, and the
    // buffer ends empty.
    let mut map = SequenceKeymap::new();
    map.bind(&[plain('j'), plain('j')], Action::Top).unwrap();
    let mut p = PendingSequence::new();
    assert_eq!(p.feed(&map, plain('j')), Step::Pending);
    assert_eq!(p.pending(), &[plain('j')]);
    assert_eq!(p.flush(), vec![plain('j')]);
    assert!(p.is_empty());
    // Idempotent: a second flush has nothing left to drain.
    assert_eq!(p.flush(), Vec::<KeyInput>::new());
}

#[test]
fn flush_on_empty_buffer_is_a_no_op() {
    let mut p = PendingSequence::new();
    assert_eq!(p.flush(), Vec::<KeyInput>::new());
    assert!(p.is_empty());
}

#[test]
fn flush_after_fired_or_passthrough_is_empty() {
    // Fired and PassThrough both already cleared the buffer, so flush must not
    // replay their keys (which would double-emit them).
    let map = sample();
    let mut p = PendingSequence::new();
    assert_eq!(p.feed(&map, plain('q')), Step::Fired(&Action::Solo)); // cleared
    assert_eq!(p.flush(), Vec::<KeyInput>::new());
    assert_eq!(
        p.feed(&map, plain('z')),
        Step::PassThrough(vec![plain('z')])
    ); // cleared
    assert_eq!(p.flush(), Vec::<KeyInput>::new());
}

#[test]
fn no_key_is_dropped_or_duplicated_across_a_stream() {
    // Conservation law: the keys returned by PassThrough + flush,
    // plus the keys consumed by each Fired sequence, equal the input stream in
    // order, with nothing lost or repeated. Catches clear-bugs and the
    // mid-prefix pass-through edge in one assertion.
    let map = sample();
    let stream = [
        ctrl('x'),
        ctrl('s'), // completes Save: consumes [ctrl+x, ctrl+s]
        ctrl('x'),
        plain('z'), // miss: passes through [ctrl+x, z]
        plain('g'), // dangling prefix at end: flushed
    ];
    let mut p = PendingSequence::new();
    let mut seen: Vec<KeyInput> = Vec::new();
    let mut buf: Vec<KeyInput> = Vec::new();
    for key in stream {
        buf.push(key);
        match p.feed(&map, key) {
            Step::Fired(_) => {
                seen.append(&mut buf);
            }
            Step::Pending => {}
            Step::PassThrough(keys) => {
                // The buffered keys must equal what we tracked independently.
                assert_eq!(keys, buf);
                seen.append(&mut buf);
            }
        }
    }
    // Whatever is still pending is what flush will hand back.
    let mut flushed = p.flush();
    seen.append(&mut flushed);
    buf.clear();
    assert_eq!(seen, stream);
}
