//! Conveniences for the common case: load a configuration, resolve keys against the
//! active layers, and list what is bound.
use crate::config::{from_str, is_load, BuildOutput};
use crate::error::BuildError;
use crate::grammar::{chord_text, law_spelling_is_injective};
use crate::input::KeyInput;
use crate::keymap::Keymap;
use crate::names::{ascending, lemma_ascending_distinct, row_views, NameMap};
use crate::progress::PendingSequence;
use crate::table::{lemma_table_dom, lemma_table_row};
use crate::text::copy_text;
use crate::warning::Warning;
use vstd::prelude::*;

verus! {

/// The result of loading a keymap configuration: named layers, a sequence table,
/// and any non-fatal warnings.
pub type Loaded<A> = BuildOutput<A>;

/// Conveniences attached to [`Loaded`].
pub trait LoadedExt: Sized {
    /// Returns the loaded keymap if no warnings were recorded, or hands the warnings
    /// back as an error so the caller can fail fast.
    ///
    /// # Errors
    ///
    /// Returns `Err(warnings)` if the loader collected any non-fatal problem; the
    /// keymap is dropped in that case, so that the caller cannot proceed with a
    /// partially bound table.
    fn deny_warnings(self) -> Result<Self, Vec<Warning>>;

    /// Returns a fresh, empty [`PendingSequence`] to feed keys into.
    fn pending_sequence(&self) -> PendingSequence;
}

impl<A> LoadedExt for BuildOutput<A> {
    fn deny_warnings(self) -> (r: Result<Self, Vec<Warning>>)
        ensures
            match r {
                Ok(out) => self.warnings@.len() == 0 && out == self,
                Err(warnings) => self.warnings@.len() > 0 && warnings == self.warnings,
            },
    {
        if self.warnings.len() == 0 {
            Ok(self)
        } else {
            Err(self.warnings)
        }
    }

    fn pending_sequence(&self) -> (p: PendingSequence)
        ensures
            p@ == Seq::<KeyInput>::empty(),
    {
        PendingSequence::new()
    }
}

/// The error of reading a file.
#[verifier::external_type_specification]
#[verifier::external_body]
pub struct ExIoError(std::io::Error);

/// Either the configuration file could not be read, or its contents could not be
/// turned into a keymap.
#[derive(Debug)]
pub enum LoadError {
    /// The file could not be read from disk.
    Io(std::io::Error),
    /// The file was read but its contents could not be parsed into a keymap.
    Build(BuildError),
}

impl LoadError {
    /// What the error says.
    pub open spec fn message(self) -> Seq<char> {
        match self {
            LoadError::Io(_) => "failed to read keymap configuration file"@,
            LoadError::Build(_) => "failed to parse keymap configuration"@,
        }
    }

    /// The message of the error.
    #[must_use]
    pub fn to_string(&self) -> (s: String)
        ensures
            s@ == self.message(),
    {
        match self {
            LoadError::Io(_) => copy_text("failed to read keymap configuration file"),
            LoadError::Build(_) => copy_text("failed to parse keymap configuration"),
        }
    }
}

impl From<std::io::Error> for LoadError {
    fn from(value: std::io::Error) -> (e: LoadError) {
        LoadError::Io(value)
    }
}

impl vstd::std_specs::convert::FromSpecImpl<std::io::Error> for LoadError {
    open spec fn obeys_from_spec() -> bool {
        true
    }

    open spec fn from_spec(value: std::io::Error) -> LoadError {
        LoadError::Io(value)
    }
}

impl From<BuildError> for LoadError {
    fn from(value: BuildError) -> (e: LoadError) {
        LoadError::Build(value)
    }
}

impl vstd::std_specs::convert::FromSpecImpl<BuildError> for LoadError {
    open spec fn obeys_from_spec() -> bool {
        true
    }

    open spec fn from_spec(value: BuildError) -> LoadError {
        LoadError::Build(value)
    }
}

/// Parses a TOML keymap configuration and resolves its action names with `resolve`.
///
/// # Errors
///
/// As [`from_str`]. Non-fatal problems are collected into the warnings, so that the
/// rest of the bindings still work.
pub fn from_toml_str<A, F: Fn(&str) -> Option<A>>(toml: &str, resolve: F) -> (r: Result<
    BuildOutput<A>,
    BuildError,
>)
    requires
        forall|s: &str| #[trigger] call_requires(resolve, (s,)),
    ensures
        is_load(toml@, resolve, r),
{
    from_str(toml, resolve)
}

/// Turns what reading a configuration file gave into a keymap.
///
/// # Errors
///
/// Returns [`LoadError::Io`] with the error of reading, and [`LoadError::Build`] if
/// the contents are present but malformed.
pub fn from_toml_read<A, F: Fn(&str) -> Option<A>>(
    contents: Result<String, std::io::Error>,
    resolve: F,
) -> (r: Result<BuildOutput<A>, LoadError>)
    requires
        forall|s: &str| #[trigger] call_requires(resolve, (s,)),
    ensures
        match contents {
            Err(e) => r == Result::<BuildOutput<A>, LoadError>::Err(LoadError::Io(e)),
            Ok(text) => match r {
                Ok(out) => is_load(text@, resolve, Ok(out)),
                Err(LoadError::Build(e)) => is_load(
                    text@,
                    resolve,
                    Result::<BuildOutput<A>, BuildError>::Err(e),
                ),
                Err(LoadError::Io(_)) => false,
            },
        },
{
    match contents {
        Err(e) => Err(LoadError::from(e)),
        Ok(text) => match from_toml_str(text.as_str(), resolve) {
            Ok(out) => Ok(out),
            Err(e) => Err(LoadError::from(e)),
        },
    }
}

/// Comparing the two actions may answer so.
pub open spec fn may_equal<A: PartialEq>(a: A, b: A, answer: bool) -> bool {
    call_ensures(A::eq, (&a, &b), answer)
}

/// Every chord bound to `action` in one keymap layer — the reverse of
/// [`Keymap::get`], for help screens and which-key menus.
///
/// Order is unspecified, and the chords are not formatted. This works on **one**
/// layer; with a layered chain, map it over the active layers.
pub fn keys_for_action<'a, A: PartialEq>(keymap: &'a Keymap<A>, action: &A) -> (keys: Vec<
    &'a KeyInput,
>)
    ensures
        forall|i: int, j: int|
            0 <= i < j < keys.len() ==> *(#[trigger] keys@[i]) != *(#[trigger] keys@[j]),
        forall|i: int|
            0 <= i < keys.len() ==> keymap@.contains_key(*(#[trigger] keys@[i])) && may_equal(
                keymap@[*keys@[i]],
                *action,
                true,
            ),
        forall|k: KeyInput| #[trigger]
            keymap@.contains_key(k) && !may_equal(keymap@[k], *action, false) ==> exists|i: int|
                0 <= i < keys.len() && *(#[trigger] keys@[i]) == k,
{
    let rows = keymap.iter();
    let mut keys: Vec<&'a KeyInput> = Vec::new();
    let ghost mut from: Seq<int> = Seq::empty();
    let mut i: usize = 0;
    while i < rows.len()
        invariant
            i <= rows.len(),
            crate::table::distinct_keys(rows@),
            forall|j: int|
                0 <= j < rows.len() ==> keymap@.contains_key(*(#[trigger] rows@[j]).0)
                    && keymap@[*rows@[j].0] == *rows@[j].1,
            from.len() == keys.len(),
            forall|a: int| 0 <= a < keys.len() ==> 0 <= #[trigger] from[a] < i,
            forall|a: int| 0 <= a < keys.len() ==> *(#[trigger] keys@[a]) == *rows@[from[a]].0,
            forall|a: int, b: int| 0 <= a < b < keys.len() ==> #[trigger] from[a] < #[trigger] from[b],
            forall|a: int|
                0 <= a < keys.len() ==> may_equal(
                    keymap@[*(#[trigger] keys@[a])],
                    *action,
                    true,
                ),
            forall|j: int|
                0 <= j < i && !may_equal(*(#[trigger] rows@[j]).1, *action, false) ==> exists|a: int|
                    0 <= a < keys.len() && *(#[trigger] keys@[a]) == *rows@[j].0,
        decreases rows.len() - i,
    {
        let equal = rows[i].1.eq(action);
        assert(may_equal(*rows@[i as int].1, *action, equal));
        let ghost keys0 = keys@;
        if equal {
            keys.push(rows[i].0);
            proof {
                from = from.push(i as int);
            }
        }
        proof {
            assert forall|j: int|
                0 <= j < i + 1 && !may_equal(*(#[trigger] rows@[j]).1, *action, false) implies exists|
                a: int,
            |
                0 <= a < keys.len() && *(#[trigger] keys@[a]) == *rows@[j].0 by {
                if j < i {
                    let a = choose|a: int|
                        0 <= a < keys0.len() && *(#[trigger] keys0[a]) == *rows@[j].0;
                    assert(*keys@[a] == *rows@[j].0);
                } else {
                    assert(*keys@[keys.len() - 1] == *rows@[j].0);
                }
            }
        }
        i = i + 1;
    }
    proof {
        assert forall|a: int, b: int| 0 <= a < b < keys.len() implies *(#[trigger] keys@[a]) != *(
        #[trigger] keys@[b]) by {
            assert(from[a] < from[b]);
            assert(rows@[from[a]].0 != rows@[from[b]].0);
        }
        assert forall|k: KeyInput| #[trigger]
            keymap@.contains_key(k) && !may_equal(keymap@[k], *action, false) implies exists|
            a: int,
        |
            0 <= a < keys.len() && *(#[trigger] keys@[a]) == k by {
            let j = choose|j: int| 0 <= j < rows.len() && *(#[trigger] rows@[j]).0 == k;
            assert(*rows@[j].1 == keymap@[k]);
        }
    }
    keys
}

/// The row is that of a binding.
pub open spec fn is_row_of<A>(m: Map<KeyInput, A>, row: (Seq<char>, &A)) -> bool {
    exists|k: KeyInput| #[trigger] m.contains_key(k) && row == (chord_text(k), &m[k])
}

/// The rows are those of all bindings, in ascending order of their chords.
pub open spec fn are_chord_rows<A>(rows: Seq<(Seq<char>, &A)>, m: Map<KeyInput, A>) -> bool {
    &&& ascending(rows)
    &&& forall|i: int| 0 <= i < rows.len() ==> is_row_of(m, #[trigger] rows[i])
    &&& forall|k: KeyInput| #[trigger]
        m.contains_key(k) ==> rows.contains((chord_text(k), &m[k]))
}

/// Every binding of a keymap, by the canonical spelling of its chord, in ascending
/// order — the rows of a help screen.
pub fn chord_rows<A>(keymap: &Keymap<A>) -> (rows: Vec<(String, &A)>)
    ensures
        are_chord_rows(row_views(rows@), keymap@),
{
    let given = keymap.iter();
    let mut sorted: NameMap<&A> = NameMap::new();
    let ghost m = keymap@;
    let mut i: usize = 0;
    while i < given.len()
        invariant
            i <= given.len(),
            m == keymap@,
            forall|j: int|
                0 <= j < given.len() ==> m.contains_key(*(#[trigger] given@[j]).0) && m[*given@[j].0]
                    == *given@[j].1,
            forall|j: int|
                0 <= j < i ==> sorted@.contains_key(chord_text(*(#[trigger] given@[j]).0))
                    && sorted@[chord_text(*given@[j].0)] == given@[j].1,
            forall|t: Seq<char>| #[trigger]
                sorted@.contains_key(t) ==> exists|k: KeyInput| #[trigger]
                    m.contains_key(k) && chord_text(k) == t && sorted@[t] == &m[k],
        decreases given.len() - i,
    {
        let ghost before = sorted@;
        let chord = given[i].0.to_string();
        let ghost text = chord@;
        sorted.insert(chord, given[i].1);
        proof {
            assert forall|j: int| 0 <= j < i + 1 implies sorted@.contains_key(
                chord_text(*(#[trigger] given@[j]).0),
            ) && sorted@[chord_text(*given@[j].0)] == given@[j].1 by {
                if chord_text(*given@[j].0) == text {
                    law_spelling_is_injective(*given@[j].0, *given@[i as int].0);
                }
            }
            assert forall|t: Seq<char>| #[trigger] sorted@.contains_key(t) implies exists|k: KeyInput|
             #[trigger]
                m.contains_key(k) && chord_text(k) == t && sorted@[t] == &m[k] by {
                if t == text {
                    assert(m.contains_key(*given@[i as int].0));
                } else {
                    assert(before.contains_key(t));
                }
            }
        }
        i = i + 1;
    }
    let ghost s = sorted@;
    let rows = sorted.into_rows();
    proof {
        let v = row_views(rows@);
        lemma_ascending_distinct(v);
        lemma_table_dom(v);
        assert forall|i: int| 0 <= i < rows.len() implies is_row_of(m, #[trigger] v[i]) by {
            lemma_table_row(v, i);
            assert(s.contains_key(v[i].0));
            let k = choose|k: KeyInput| #[trigger]
                m.contains_key(k) && chord_text(k) == v[i].0 && s[v[i].0] == &m[k];
            assert(m.contains_key(k) && v[i] == (chord_text(k), &m[k]));
        }
        assert forall|k: KeyInput| #[trigger] m.contains_key(k) implies v.contains(
            (chord_text(k), &m[k]),
        ) by {
            let j = choose|j: int| 0 <= j < given.len() && *(#[trigger] given@[j]).0 == k;
            assert(s.contains_key(chord_text(*given@[j].0)));
            let i = choose|i: int| 0 <= i < v.len() && (#[trigger] v[i]).0 == chord_text(k);
            lemma_table_row(v, i);
            assert(v[i] == (chord_text(k), &m[k]));
        }
    }
    rows
}

/// A help screen misses no binding and makes none up: its rows are the bindings of the
/// keymap, each once, by the spelling of the chord and in ascending order of it.
pub proof fn law_help_lists_every_binding<A>(
    rows: Seq<(Seq<char>, &A)>,
    m: Map<KeyInput, A>,
    k: KeyInput,
)
    requires
        are_chord_rows(rows, m),
    ensures
        m.contains_key(k) <==> exists|i: int| 0 <= i < rows.len() && (#[trigger] rows[i]).0 == chord_text(k),
        forall|i: int|
            0 <= i < rows.len() && (#[trigger] rows[i]).0 == chord_text(k) ==> *rows[i].1 == m[k],
        forall|i: int, j: int|
            0 <= i < j < rows.len() ==> crate::text::text_before(
                (#[trigger] rows[i]).0,
                (#[trigger] rows[j]).0,
            ),
{
    if m.contains_key(k) {
        let i = choose|i: int| 0 <= i < rows.len() && rows[i] == (chord_text(k), &m[k]);
        assert(rows[i].0 == chord_text(k));
    }
    assert forall|i: int| 0 <= i < rows.len() && (#[trigger] rows[i]).0 == chord_text(k) implies *rows[i].1
        == m[k] && m.contains_key(k) by {
        assert(is_row_of(m, rows[i]));
        let o = choose|o: KeyInput| #[trigger] m.contains_key(o) && rows[i] == (chord_text(o), &m[o]);
        law_spelling_is_injective(o, k);
    }
}

} // verus!
