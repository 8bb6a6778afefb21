//! Fatal problems of a configuration.
use crate::document::TomlError;
use crate::grammar::{parse_error, quote, quoted_text, ErrorKind, ParseKeyInputError};
use crate::text::{copy_text, push_text};
use crate::warning::mentions;
use vstd::prelude::*;

verus! {

/// A fatal problem that prevents building a keymap.
#[derive(Debug)]
pub enum BuildError {
    /// The input was not valid TOML, or not of the shape of a configuration.
    Toml(TomlError),
    /// A key string could not be parsed.
    KeyParse {
        /// The offending key string as written.
        key: String,
        /// The underlying parse error.
        source: ParseKeyInputError,
    },
    /// A chord in a `[keys]` or `[layers.<name>]` table was assigned `= true`.
    ///
    /// Only `= false` is a valid tombstone (unbind declaration).
    InvalidTombstone {
        /// The offending chord string as written.
        key: String,
    },
}

/// What a [`BuildError`] says, but for the text of the TOML error.
pub enum ErrorView {
    /// See [`BuildError::Toml`].
    Toml,
    /// See [`BuildError::KeyParse`].
    KeyParse { key: Seq<char>, source: (Seq<char>, ErrorKind) },
    /// See [`BuildError::InvalidTombstone`].
    InvalidTombstone { key: Seq<char> },
}

impl View for BuildError {
    type V = ErrorView;

    open spec fn view(&self) -> ErrorView {
        match *self {
            BuildError::Toml(_) => ErrorView::Toml,
            BuildError::KeyParse { key, source } => ErrorView::KeyParse {
                key: key@,
                source: source@,
            },
            BuildError::InvalidTombstone { key } => ErrorView::InvalidTombstone { key: key@ },
        }
    }
}

impl From<toml::de::Error> for BuildError {
    fn from(e: toml::de::Error) -> (error: BuildError) {
        BuildError::Toml(TomlError::Syntax(e))
    }
}

impl vstd::std_specs::convert::FromSpecImpl<toml::de::Error> for BuildError {
    open spec fn obeys_from_spec() -> bool {
        true
    }

    open spec fn from_spec(e: toml::de::Error) -> BuildError {
        BuildError::Toml(TomlError::Syntax(e))
    }
}

/// The error on a key string that is no chord.
pub open spec fn key_error(key: Seq<char>) -> ErrorView {
    ErrorView::KeyParse { key, source: parse_error(key) }
}

/// The message of an error.
pub open spec fn error_text(e: ErrorView) -> Seq<char> {
    match e {
        ErrorView::Toml => "invalid TOML"@,
        ErrorView::KeyParse { key, .. } => "invalid key string "@ + quoted_text(key),
        ErrorView::InvalidTombstone { key } => "invalid tombstone for "@ + quoted_text(key)
            + ": use `= false` to unbind, not `= true`"@,
    }
}

impl BuildError {
    /// The message of the error.
    #[must_use]
    pub fn to_string(&self) -> (s: String)
        ensures
            s@ == error_text(self@),
    {
        match self {
            BuildError::Toml(_) => copy_text("invalid TOML"),
            BuildError::KeyParse { key, .. } => {
                let mut s = copy_text("invalid key string ");
                let q = quote(key.as_str());
                push_text(&mut s, q.as_str());
                s
            },
            BuildError::InvalidTombstone { key } => {
                let mut s = copy_text("invalid tombstone for ");
                let q = quote(key.as_str());
                push_text(&mut s, q.as_str());
                push_text(&mut s, ": use `= false` to unbind, not `= true`");
                s
            },
        }
    }
}

/// What an error says is what it holds: which of the three it is, and the key as written.
pub proof fn law_errors_say_what_they_hold(e: BuildError)
    ensures
        e is Toml <==> e@ is Toml,
        e matches BuildError::KeyParse { key, source } ==> (e@ matches ErrorView::KeyParse {
            key: a,
            source: b,
        } && a == key@ && b == source@),
        e matches BuildError::InvalidTombstone { key } ==> (
        e@ matches ErrorView::InvalidTombstone { key: a } && a == key@),
{
}

/// The message of an error on a key names the key, in quotes; and the messages of the two
/// kinds of it differ where they begin.
pub proof fn law_error_names_the_key(key: Seq<char>, source: (Seq<char>, ErrorKind))
    ensures
        mentions(
            error_text(ErrorView::KeyParse { key, source }),
            quoted_text(key),
            Seq::empty(),
        ),
        mentions(
            error_text(ErrorView::InvalidTombstone { key }),
            quoted_text(key),
            Seq::empty(),
        ),
        "invalid key string "@.is_prefix_of(error_text(ErrorView::KeyParse { key, source })),
        "invalid tombstone for "@.is_prefix_of(error_text(ErrorView::InvalidTombstone { key })),
{
    let none = Seq::<char>::empty();
    let q = quoted_text(key);
    let a = error_text(ErrorView::KeyParse { key, source });
    let b = error_text(ErrorView::InvalidTombstone { key });
    let lead = "invalid key string "@;
    let other = "invalid tombstone for "@;
    assert(a =~= lead + q + none + none + none);
    assert(b =~= other + q + none + none + ": use `= false` to unbind, not `= true`"@);
    assert(a.subrange(0, lead.len() as int) =~= lead);
    assert(b.subrange(0, other.len() as int) =~= other);
}

} // verus!
