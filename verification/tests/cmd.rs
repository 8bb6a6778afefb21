use keymap_suite::cmd::next_prefix;
use keymap_suite::CommandIndex;

// ---- bind / get ----------------------------------------------------

#[test]
fn bind_last_wins_returns_old_value() {
    let mut idx: CommandIndex<&str> = CommandIndex::new();
    assert_eq!(idx.bind(":w", "write"), None);
    assert_eq!(idx.bind(":w", "write-bang"), Some("write"));
    assert_eq!(idx.get(":w"), Some(&"write-bang"));
}

#[test]
fn get_exact_match_only() {
    let mut idx: CommandIndex<u8> = CommandIndex::new();
    idx.bind(":w", 1);
    idx.bind(":wq", 2);
    assert_eq!(idx.get(":w"), Some(&1));
    assert_eq!(idx.get(":wq"), Some(&2));
    // Prefix is not an exact match.
    assert_eq!(idx.get(":"), None);
    // Unknown name.
    assert_eq!(idx.get(":x"), None);
}

#[test]
fn get_returns_none_on_empty_index() {
    let idx: CommandIndex<u8> = CommandIndex::new();
    assert_eq!(idx.get(":w"), None);
}

// ---- complete ------------------------------------------------------

#[test]
fn complete_empty_prefix_yields_all_in_lex_order() {
    let mut idx: CommandIndex<u8> = CommandIndex::new();
    idx.bind(":wq", 2);
    idx.bind(":w", 1);
    idx.bind(":q", 3);
    let names: Vec<&str> = idx.complete("").into_iter().map(|(n, _)| n).collect();
    assert_eq!(names, vec![":q", ":w", ":wq"]);
}

#[test]
fn complete_prefix_returns_matching_subset_in_lex_order() {
    let mut idx: CommandIndex<u8> = CommandIndex::new();
    idx.bind(":w", 1);
    idx.bind(":wq", 2);
    idx.bind(":wqa", 3);
    idx.bind(":q", 4);

    let names: Vec<&str> = idx.complete(":w").into_iter().map(|(n, _)| n).collect();
    assert_eq!(names, vec![":w", ":wq", ":wqa"]);
}

#[test]
fn complete_exact_name_as_prefix_is_included() {
    // ":w" is both an exact command and a prefix for ":wq"; both come back.
    let mut idx: CommandIndex<u8> = CommandIndex::new();
    idx.bind(":w", 1);
    idx.bind(":wq", 2);

    let result: Vec<(&str, &u8)> = idx.complete(":w");
    assert_eq!(result, vec![(":w", &1), (":wq", &2)]);
}

#[test]
fn complete_no_match_yields_empty() {
    let mut idx: CommandIndex<u8> = CommandIndex::new();
    idx.bind(":w", 1);
    assert_eq!(idx.complete(":x").len(), 0);
}

#[test]
fn complete_yields_name_and_action_pairs() {
    let mut idx: CommandIndex<u8> = CommandIndex::new();
    idx.bind(":w", 1);
    idx.bind(":wq", 2);

    let result: Vec<(&str, &u8)> = idx.complete(":w");
    assert_eq!(result, [(":w", &1), (":wq", &2)]);
}

#[test]
fn complete_utf8_names_lex_order() {
    // Non-ASCII names: byte order determines lexicographic sort.
    let mut idx: CommandIndex<u8> = CommandIndex::new();
    idx.bind("écrire", 1);
    idx.bind("éditer", 2);
    idx.bind("effacer", 3);

    // "écrire" starts 0xc3,0xa9,0x63 and "éditer" starts 0xc3,0xa9,0x64 and
    // "effacer" starts 0x65,0x66 — "effacer" is ASCII 'e' which is 0x65 < 0xc3.
    // So lex order: "effacer" < "écrire" < "éditer".
    let all: Vec<&str> = idx.iter().into_iter().map(|(n, _)| n).collect();
    assert_eq!(all, vec!["effacer", "écrire", "éditer"]);

    // Complete on "é" (bytes 0xc3 0xa9) matches "écrire" and "éditer".
    let completions: Vec<&str> = idx.complete("é").into_iter().map(|(n, _)| n).collect();
    assert_eq!(completions, vec!["écrire", "éditer"]);
}

// ---- iter ----------------------------------------------------------

#[test]
fn iter_lexicographic_order() {
    let mut idx: CommandIndex<u8> = CommandIndex::new();
    idx.bind(":wq", 2);
    idx.bind(":q", 3);
    idx.bind(":w", 1);
    let all: Vec<(&str, &u8)> = idx.iter();
    assert_eq!(all, vec![(":q", &3), (":w", &1), (":wq", &2)]);
}

#[test]
fn iter_empty_index_is_empty() {
    let idx: CommandIndex<u8> = CommandIndex::new();
    assert_eq!(idx.iter().len(), 0);
}

// ---- len / is_empty ------------------------------------------------

#[test]
fn len_and_is_empty() {
    let mut idx: CommandIndex<u8> = CommandIndex::new();
    assert!(idx.is_empty());
    assert_eq!(idx.len(), 0);
    idx.bind(":w", 1);
    assert!(!idx.is_empty());
    assert_eq!(idx.len(), 1);
}

// ---- next_prefix helper --------------------------------------------

#[test]
fn next_prefix_increments_last_byte() {
    assert_eq!(next_prefix(":w"), Some(":x".to_string()));
}

#[test]
fn next_prefix_empty_returns_none() {
    assert_eq!(next_prefix(""), None);
}

#[test]
fn next_prefix_all_max_bytes_returns_none() {
    // All bytes are u8::MAX (0xFF): no byte can be incremented, so the
    // function returns None.
    // U+FFFF encodes as [0xEF, 0xBF, 0xBF] in UTF-8, all of which are < u8::MAX,
    // so that would not reach the None path. Use a single DEL byte (0x7f) instead:
    // 0x7f + 1 = 0x80, which is not a valid UTF-8 leading byte.
    let raw_ff = std::str::from_utf8(&[0x7f]).unwrap(); // 0x7f is valid ASCII
    // 0x7f + 1 = 0x80, which is not a valid UTF-8 leading byte → from_utf8 fails
    // → next_prefix returns None (safe fallback to Unbounded range).
    assert_eq!(next_prefix(raw_ff), None);
}

/// When `next_prefix` returns `None` (non-UTF-8 boundary), `complete` falls
/// back to an unbounded upper range and returns a superset — no panic, no
/// missing results.
#[test]
fn next_prefix_non_utf8_boundary_complete_returns_superset() {
    let mut idx: CommandIndex<u8> = CommandIndex::new();
    // Bind names that start with DEL (0x7f), which is a valid single-byte
    // ASCII character (the highest ASCII byte). Its next_prefix increments to
    // 0x80, which is invalid UTF-8 → fallback to Unbounded.
    let del_a = std::str::from_utf8(&[0x7f, b'a']).unwrap(); // "\x7fa"
    let del_b = std::str::from_utf8(&[0x7f, b'b']).unwrap(); // "\x7fb"
    let unrelated = "zzzz";
    idx.bind(del_a, 1);
    idx.bind(del_b, 2);
    idx.bind(unrelated, 3);

    // Prefix is a single DEL byte: next_prefix("\x7f") → None (0x7f+1 = 0x80,
    // not valid UTF-8) → Unbounded upper → complete returns all entries ≥ "\x7f",
    // which includes both "\x7fa" and "\x7fb" but also "zzzz" (superset is ok).
    let prefix = std::str::from_utf8(&[0x7f]).unwrap();
    let results: Vec<(&str, &u8)> = idx.complete(prefix);

    // Must include both del_a and del_b (no results dropped).
    assert!(
        results.iter().any(|(n, _)| *n == del_a),
        "del_a must appear in superset: {results:?}"
    );
    assert!(
        results.iter().any(|(n, _)| *n == del_b),
        "del_b must appear in superset: {results:?}"
    );
    // Must not panic: the function completed without error.
}
