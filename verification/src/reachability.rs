//! Empirical per-terminal reachability, refining the static legacy lower bound.
//!
//! [`KeyInput::legacy_form`] is a *terminal-independent* fact. For one recorded
//! [`Capture`], [`reachability`] reports whether each chord the terminal was asked
//! to type actually *arrives as itself*, by decoding the bytes the terminal really
//! sent and comparing to what was intended. It enumerates the chords that a
//! capture witnessed: absence from the result is the "no evidence" case.
use crate::capture::{from_hex, hex_byte, hex_bytes, law_hex_goes_token_by_token, texts, Capture,
    KeyPress};
use crate::decode::{decode, decodes_to, mode_named, DecodeMode, Decoded};
use crate::grammar::{chord_text, law_spelling_is_injective, parsed_chord};
use crate::input::KeyInput;
use crate::text::{is_before, lemma_text_total, lemma_text_transitive, text_before};
use vstd::prelude::*;

verus! {

/// The empirical reachability verdict for one recorded chord on one terminal.
#[derive(Debug, Clone, Copy, PartialEq, Eq, Structural)]
#[must_use]
pub enum Reachability {
    /// The recorded bytes decode back to the intended chord: typing it on this
    /// terminal produces it.
    Reachable,
    /// The recorded bytes decode to something *other* than the intended chord — a
    /// different key, or no complete key at all. The `decoded` outcome is the
    /// evidence.
    Unreachable {
        /// What the intended chord's recorded bytes actually decoded to.
        decoded: Decoded,
    },
}

/// The verdict on a chord whose bytes decoded so.
pub open spec fn verdict_on(intended: KeyInput, decoded: Decoded) -> Reachability {
    if decoded matches Decoded::Key { input, .. } && input == intended {
        Reachability::Reachable
    } else {
        Reachability::Unreachable { decoded }
    }
}

/// The chord and verdict of a recorded keypress; nothing where its label does not
/// parse, its mode is unknown, or its bytes are not valid hex.
pub open spec fn evidence(p: KeyPress) -> Option<(KeyInput, Reachability)> {
    match (parsed_chord(p.intended@), mode_named(p.mode@), hex_bytes(texts(p.raw_bytes@))) {
        (Some(intended), Some(mode), Some(bytes)) => Some(
            (intended, verdict_on(intended, decodes_to(bytes, mode))),
        ),
        _ => None,
    }
}

/// The recorded order, read off the rows: row `n` of the output is the evidence of
/// keypress `order[n]`, every keypress with evidence has one row, and the rows are
/// ordered by chord, those of one chord as they were recorded.
pub open spec fn enumerates(
    rows: Seq<(KeyInput, Reachability)>,
    presses: Seq<KeyPress>,
    order: Seq<int>,
) -> bool {
    &&& order.len() == rows.len()
    &&& forall|n: int|
        0 <= n < rows.len() ==> 0 <= #[trigger] order[n] < presses.len() && evidence(
            presses[order[n]],
        ) == Some(rows[n])
    &&& forall|i: int|
        0 <= i < presses.len() && evidence(#[trigger] presses[i]) is Some ==> order.contains(i)
    &&& stably_sorted(chord_texts(rows), order)
}

/// The canonical spellings of the chords of the rows.
pub open spec fn chord_texts(rows: Seq<(KeyInput, Reachability)>) -> Seq<Seq<char>> {
    rows.map_values(|r: (KeyInput, Reachability)| chord_text(r.0))
}

/// The texts are in ascending order, equal ones in the order of their positions.
pub open spec fn stably_sorted(keys: Seq<Seq<char>>, order: Seq<int>) -> bool {
    forall|a: int, b: int|
        0 <= a < b < keys.len() ==> sorts_before(
            #[trigger] keys[a],
            order[a],
            #[trigger] keys[b],
            order[b],
        )
}

/// A row with the text `a`, recorded at `i`, stands before one with the text `b`,
/// recorded at `j`.
pub open spec fn sorts_before(a: Seq<char>, i: int, b: Seq<char>, j: int) -> bool {
    text_before(a, b) || (a == b && i < j)
}

/// The evidence of one keypress.
fn weigh(p: &KeyPress) -> (e: Option<(KeyInput, Reachability)>)
    ensures
        e == evidence(*p),
{
    let intended = match KeyInput::parse(p.intended.as_str()) {
        Ok(k) => k,
        Err(_) => {
            return None;
        },
    };
    let mode = match DecodeMode::from_capture_mode(p.mode.as_str()) {
        Some(mode) => mode,
        None => {
            return None;
        },
    };
    let bytes = match from_hex(p.raw_bytes.as_slice()) {
        Ok(bytes) => bytes,
        Err(_) => {
            return None;
        },
    };
    let decoded = decode(bytes.as_slice(), mode);
    let verdict = match decoded {
        Decoded::Key { input, .. } => if input == intended {
            Reachability::Reachable
        } else {
            Reachability::Unreachable { decoded }
        },
        _ => Reachability::Unreachable { decoded },
    };
    Some((intended, verdict))
}

/// Enumerates the empirical reachability of every chord `capture` recorded.
///
/// Each item pairs the intended [`KeyInput`] with its [`Reachability`] verdict,
/// sorted by canonical chord string. A recorded keypress that is unusable evidence
/// contributes no entry.
#[must_use]
pub fn reachability(capture: &Capture) -> (rows: Vec<(KeyInput, Reachability)>)
    ensures
        exists|order: Seq<int>| #[trigger] enumerates(rows@, capture.keypress@, order),
{
    let presses = &capture.keypress;
    let mut rows: Vec<(KeyInput, Reachability)> = Vec::new();
    let ghost mut order: Seq<int> = Seq::empty();
    let mut i: usize = 0;
    while i < presses.len()
        invariant
            i <= presses.len(),
            presses@ == capture.keypress@,
            forall|n: int| 0 <= n < order.len() ==> 0 <= #[trigger] order[n] < i,
            enumerates(rows@, presses@.take(i as int), order),
        decreases presses.len() - i,
    {
        let ghost before = rows@;
        let ghost order0 = order;
        let ghost seen0 = presses@.take(i as int);
        let ghost seen1 = presses@.take(i + 1);
        match weigh(&presses[i]) {
            Some(row) => {
                let chord = row.0.to_string();
                let mut at: usize = rows.len();
                // Skip back over the rows that stand after the new one.
                while at > 0 && is_before(chord.as_str(), rows[at - 1].0.to_string().as_str())
                    invariant
                        at <= rows.len(),
                        rows@ == before,
                        chord@ == chord_text(row.0),
                        forall|n: int|
                            at <= n < rows.len() ==> text_before(
                                chord@,
                                chord_text((#[trigger] rows@[n]).0),
                            ),
                    decreases at,
                {
                    at = at - 1;
                }
                rows.insert(at, row);
                proof {
                    order = order.insert(at as int, i as int);
                    assert(seen1.drop_last() =~= seen0);
                    lemma_insert_sorted(
                        chord_texts(before),
                        order0,
                        chord@,
                        at as int,
                        i as int,
                    );
                    lemma_insert(before, order0, seen0, seen1, row, at as int);
                }
            },
            None => {
                proof {
                    assert(seen1.drop_last() =~= seen0);
                    lemma_skip(before, order0, seen0, seen1);
                }
            },
        }
        i = i + 1;
    }
    assert(presses@.take(i as int) =~= presses@);
    assert(enumerates(rows@, capture.keypress@, order));
    rows
}

/// Inserting a text with the newest position behind all texts that do not stand
/// after it keeps the order.
proof fn lemma_insert_sorted(keys: Seq<Seq<char>>, order: Seq<int>, t: Seq<char>, at: int, newest: int)
    requires
        keys.len() == order.len(),
        stably_sorted(keys, order),
        0 <= at <= keys.len(),
        forall|n: int| at <= n < keys.len() ==> text_before(t, #[trigger] keys[n]),
        at > 0 ==> !text_before(t, keys[at - 1]),
        forall|n: int| 0 <= n < order.len() ==> #[trigger] order[n] < newest,
    ensures
        stably_sorted(keys.insert(at, t), order.insert(at, newest)),
{
    let keys1 = keys.insert(at, t);
    let order1 = order.insert(at, newest);
    assert forall|a: int, b: int| 0 <= a < b < keys1.len() implies sorts_before(
        #[trigger] keys1[a],
        order1[a],
        #[trigger] keys1[b],
        order1[b],
    ) by {
        if a != at && b != at {
            let oa = if a < at {
                a
            } else {
                a - 1
            };
            let ob = if b < at {
                b
            } else {
                b - 1
            };
            assert(sorts_before(keys[oa], order[oa], keys[ob], order[ob]));
        } else if b == at {
            let last = keys[at - 1];
            lemma_text_total(last, t);
            if a < at - 1 {
                assert(sorts_before(keys[a], order[a], last, order[at - 1]));
                if text_before(keys[a], last) && text_before(last, t) {
                    lemma_text_transitive(keys[a], last, t);
                }
            }
            assert(order[a] < newest);
        } else {
            assert(text_before(t, keys[b - 1]));
        }
    }
}

/// Inserting the newest row behind all rows that do not stand after it keeps the
/// enumeration.
proof fn lemma_insert(
    rows: Seq<(KeyInput, Reachability)>,
    order: Seq<int>,
    seen: Seq<KeyPress>,
    next: Seq<KeyPress>,
    row: (KeyInput, Reachability),
    at: int,
)
    requires
        enumerates(rows, seen, order),
        next.len() == seen.len() + 1,
        next.drop_last() == seen,
        evidence(next.last()) == Some(row),
        0 <= at <= rows.len(),
        stably_sorted(
            chord_texts(rows).insert(at, chord_text(row.0)),
            order.insert(at, seen.len() as int),
        ),
    ensures
        enumerates(rows.insert(at, row), next, order.insert(at, seen.len() as int)),
{
    let rows1 = rows.insert(at, row);
    let order1 = order.insert(at, seen.len() as int);
    assert(chord_texts(rows1) =~= chord_texts(rows).insert(at, chord_text(row.0)));
    assert forall|j: int| 0 <= j < seen.len() implies next[j] == #[trigger] seen[j] by {
        assert(next.drop_last()[j] == next[j]);
    }
    assert forall|n: int| 0 <= n < rows1.len() implies 0 <= #[trigger] order1[n] < next.len()
        && evidence(next[order1[n]]) == Some(rows1[n]) by {
        if n < at {
            assert(order1[n] == order[n]);
            assert(seen[order[n]] == next[order[n]]);
        } else if n > at {
            assert(order1[n] == order[n - 1]);
            assert(seen[order[n - 1]] == next[order[n - 1]]);
        }
    }
    assert forall|i: int| 0 <= i < next.len() && evidence(#[trigger] next[i]) is Some implies order1.contains(i) by {
        if i < seen.len() {
            assert(seen[i] == next[i]);
            let n = choose|n: int| 0 <= n < order.len() && order[n] == i;
            if n < at {
                assert(order1[n] == i);
            } else {
                assert(order1[n + 1] == i);
            }
        } else {
            assert(order1[at] == i);
        }
    }
}

/// A keypress without evidence keeps the enumeration.
proof fn lemma_skip(
    rows: Seq<(KeyInput, Reachability)>,
    order: Seq<int>,
    seen: Seq<KeyPress>,
    next: Seq<KeyPress>,
)
    requires
        enumerates(rows, seen, order),
        next.len() == seen.len() + 1,
        next.drop_last() == seen,
        evidence(next.last()) is None,
    ensures
        enumerates(rows, next, order),
{
    assert forall|j: int| 0 <= j < seen.len() implies next[j] == #[trigger] seen[j] by {
        assert(next.drop_last()[j] == next[j]);
    }
    assert forall|n: int| 0 <= n < rows.len() implies 0 <= #[trigger] order[n] < next.len()
        && evidence(next[order[n]]) == Some(rows[n]) by {
        assert(seen[order[n]] == next[order[n]]);
    }
    assert forall|i: int| 0 <= i < next.len() && evidence(#[trigger] next[i]) is Some implies order.contains(i) by {
        if i < seen.len() {
            assert(seen[i] == next[i]);
        }
    }
}

/// A chord is reported reachable exactly when its recorded bytes decode to that
/// very chord.
pub proof fn law_reachable_iff_decodes_to_itself(p: KeyPress)
    requires
        evidence(p) is Some,
    ensures
        parsed_chord(p.intended@) == Some((evidence(p)->0).0),
        (evidence(p)->0).1 == Reachability::Reachable <==> (decodes_to(
            hex_bytes(texts(p.raw_bytes@))->0,
            mode_named(p.mode@)->0,
        ) matches Decoded::Key { input, .. } && input == (evidence(p)->0).0),
{
}

/// An eaten press, which recorded no bytes, is unreachable, and the evidence is
/// that nothing complete arrived.
pub proof fn law_eaten_press_is_unreachable(p: KeyPress)
    requires
        evidence(p) is Some,
        p.raw_bytes@.len() == 0,
    ensures
        (evidence(p)->0).1 == (Reachability::Unreachable { decoded: Decoded::Incomplete }),
{
    assert(texts(p.raw_bytes@).len() == 0);
}

/// The two modes that a capture can be read in, by their names.
pub proof fn law_modes_go_by_their_names(mode: Seq<char>)
    ensures
        mode_named(mode) == Some(DecodeMode::Baseline) <==> mode == "baseline"@,
        mode_named(mode) == Some(DecodeMode::KittyEnhanced) <==> mode == "kitty-enhanced"@,
{
    reveal_strlit("baseline");
    reveal_strlit("kitty-enhanced");
    assert("baseline"@.len() == 8 && "kitty-enhanced"@.len() == 14);
}

/// A keypress is evidence exactly where its label spells a chord, its mode is one of the
/// two, and each of its tokens is two hex digits.
pub proof fn law_what_counts_as_evidence(p: KeyPress)
    ensures
        evidence(p) is Some <==> {
            &&& parsed_chord(p.intended@) is Some
            &&& p.mode@ == "baseline"@ || p.mode@ == "kitty-enhanced"@
            &&& forall|i: int|
                0 <= i < p.raw_bytes@.len() ==> hex_byte((#[trigger] p.raw_bytes@[i])@) is Some
        },
        evidence(p) matches Some((intended, verdict)) ==> parsed_chord(p.intended@) == Some(
            intended,
        ) && exists|mode: DecodeMode, bytes: Seq<u8>|
            {
                let decoded = #[trigger] decodes_to(bytes, mode);
                let arrived = decoded matches Decoded::Key { input, .. } && input == intended;
                &&& mode == DecodeMode::Baseline <==> p.mode@ == "baseline"@
                &&& bytes.len() == p.raw_bytes@.len()
                &&& forall|i: int|
                    0 <= i < bytes.len() ==> hex_byte((#[trigger] p.raw_bytes@[i])@) == Some(
                        bytes[i],
                    )
                &&& verdict == Reachability::Reachable <==> arrived
                &&& !arrived ==> verdict == (Reachability::Unreachable { decoded })
            },
{
    let tokens = texts(p.raw_bytes@);
    law_modes_go_by_their_names(p.mode@);
    law_hex_goes_token_by_token(tokens);
    assert forall|i: int| 0 <= i < tokens.len() implies #[trigger] tokens[i] == p.raw_bytes@[i]@ by {}
    if forall|i: int|
        0 <= i < p.raw_bytes@.len() ==> hex_byte((#[trigger] p.raw_bytes@[i])@) is Some {
        assert forall|i: int| 0 <= i < tokens.len() implies hex_byte(#[trigger] tokens[i]) is Some by {
            assert(hex_byte(p.raw_bytes@[i]@) is Some);
        }
    }
    if hex_bytes(tokens) is Some {
        assert forall|i: int| 0 <= i < p.raw_bytes@.len() implies hex_byte(
            (#[trigger] p.raw_bytes@[i])@,
        ) == Some((hex_bytes(tokens)->0)[i]) by {
            assert(hex_byte(tokens[i]) is Some);
        }
    }
    if evidence(p) is Some {
        let mode = mode_named(p.mode@)->0;
        let bytes = hex_bytes(tokens)->0;
        let decoded = decodes_to(bytes, mode);
        assert(mode == DecodeMode::Baseline <==> p.mode@ == "baseline"@);
    }
}

/// Every keypress that is evidence is enumerated, with its chord and its verdict, and
/// nothing else is; the chords come in ascending order, those of one chord as they were
/// recorded.
pub proof fn law_all_evidence_is_enumerated(
    rows: Seq<(KeyInput, Reachability)>,
    presses: Seq<KeyPress>,
    order: Seq<int>,
)
    requires
        enumerates(rows, presses, order),
    ensures
        forall|i: int|
            0 <= i < presses.len() && evidence(#[trigger] presses[i]) is Some ==> rows.contains(
                evidence(presses[i])->0,
            ),
        forall|n: int|
            0 <= n < rows.len() ==> 0 <= order[n] < presses.len() && evidence(presses[order[n]])
                == Some(#[trigger] rows[n]),
        forall|a: int, b: int|
            0 <= a < b < rows.len() ==> (#[trigger] rows[a]).0 == (#[trigger] rows[b]).0
                || text_before(chord_text(rows[a].0), chord_text(rows[b].0)),
        forall|a: int, b: int|
            0 <= a < b < rows.len() && (#[trigger] rows[a]).0 == (#[trigger] rows[b]).0 ==> order[a]
                < order[b],
{
    assert forall|i: int| 0 <= i < presses.len() && evidence(#[trigger] presses[i]) is Some implies rows.contains(
        evidence(presses[i])->0,
    ) by {
        let n = choose|n: int| 0 <= n < order.len() && order[n] == i;
        assert(0 <= order[n] < presses.len());
        assert(rows[n] == evidence(presses[i])->0);
    }
    assert forall|n: int| 0 <= n < rows.len() implies 0 <= order[n] < presses.len() && evidence(
        presses[order[n]],
    ) == Some(#[trigger] rows[n]) by {
        assert(0 <= order[n]);
    }
    let keys = chord_texts(rows);
    assert forall|a: int, b: int| 0 <= a < b < rows.len() implies sorts_before(
        chord_text((#[trigger] rows[a]).0),
        order[a],
        chord_text((#[trigger] rows[b]).0),
        order[b],
    ) && (chord_text(rows[a].0) == chord_text(rows[b].0) ==> rows[a].0 == rows[b].0) by {
        assert(sorts_before(keys[a], order[a], keys[b], order[b]));
        if chord_text(rows[a].0) == chord_text(rows[b].0) {
            law_spelling_is_injective(rows[a].0, rows[b].0);
        }
    }
    assert forall|a: int, b: int|
        0 <= a < b < rows.len() && (#[trigger] rows[a]).0 == (#[trigger] rows[b]).0 implies order[a]
        < order[b] by {
        crate::text::lemma_text_irreflexive(chord_text(rows[a].0));
    }
}

} // verus!
