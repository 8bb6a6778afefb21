//! Key bindings for terminal applications: a backend-neutral key vocabulary, keymaps
//! and layered resolution, multi-key sequences, TOML configuration, decoding of raw
//! terminal bytes, and the checks around them.
//!
//! The usual path through the library: load a configuration with
//! [`from_toml_str`], pick the active layers, resolve a [`KeyInput`] against them with
//! [`resolve_layered`], and feed keys of sequences into a [`PendingSequence`] or a
//! [`TimedPending`]. The library keeps no state of its own: which layers are active,
//! the pending buffer and the clock are the caller's.
//!
//! - [`input`], [`grammar`], [`chords`], [`event`]: presses, their spelling, and where
//!   they come from.
//! - [`keymap`], [`passthrough`], [`rebind`], [`legacy`], [`cmd`]: single-chord tables
//!   and what is asked of them.
//! - [`sequence`], [`progress`], [`timed`], [`time`]: multi-key sequences.
//! - [`config`], [`merge`], [`emit`]: reading, merging and writing configurations, with
//!   [`document`], [`layer`], [`seqbuild`], [`cross`], [`warning`] and [`error`] as the
//!   parts of reading. [`roundtrip`] says what reading gives back of what was written, and
//!   [`loading`] what a loaded configuration has to do with what its file says.
//! - [`decode`], [`capture`], [`reachability`]: what terminals send.
//! - [`suite`]: conveniences over all of it.
//! - [`showcase`], [`inspector`], [`recorder`]: the logic of three terminal programs,
//!   with what they put on the screen in [`showcase_screen`], [`inspector_screen`] and
//!   [`screen`].
//! - [`names`], [`table`], [`text`], [`describe`]: what the rest is made of.
//!
//! Every function carries a contract over mathematical models: a keymap is a map from
//! presses to actions, a sequence table a map from sequences of presses, a text a
//! sequence of characters. The proof functions whose names begin with `law_` state what
//! holds of several functions together.
pub mod capture;
pub mod chords;
pub mod cmd;
pub mod config;
pub mod cross;
pub mod decode;
pub mod describe;
pub mod document;
pub mod emit;
pub mod error;
pub mod event;
pub mod grammar;
pub mod input;
pub mod inspector;
pub mod inspector_screen;
pub mod keymap;
pub mod layer;
pub mod legacy;
pub mod loading;
pub mod merge;
pub mod names;
pub mod passthrough;
pub mod prelude;
pub mod progress;
pub mod reachability;
pub mod rebind;
pub mod recorder;
pub mod roundtrip;
pub mod screen;
pub mod seqbuild;
pub mod sequence;
pub mod showcase;
pub mod showcase_screen;
pub mod suite;
pub mod table;
pub mod text;
pub mod time;
pub mod timed;
pub mod warning;

pub use crate::cmd::CommandIndex;
pub use crate::config::{from_str, BuildOutput, GLOBAL_LAYER};
pub use crate::emit::{to_toml, to_toml_layered, to_toml_layered_with_unbinds};
pub use crate::error::BuildError;
pub use crate::event::UnsupportedKey;
pub use crate::grammar::ParseKeyInputError;
pub use crate::input::{Key, KeyInput, Modifiers};
pub use crate::keymap::{resolve_layered, Keymap};
pub use crate::legacy::{legacy_lints, LegacyForm, LegacyLint};
pub use crate::merge::{merge, MergeNote, Merged};
pub use crate::names::NameMap;
pub use crate::progress::{PendingSequence, Step};
pub use crate::rebind::{validate_rebind, BreakReason, RebindVerdict};
pub use crate::sequence::{Continuation, Match, SeqBindError, SequenceKeymap};
pub use crate::suite::{from_toml_str, keys_for_action, LoadError, Loaded, LoadedExt};
pub use crate::timed::{TimedPending, TimedStep};
pub use crate::warning::{Warning, WarningKind};
