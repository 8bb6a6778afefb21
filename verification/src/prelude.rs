//! The one-import bundle most callers want: the vocabulary, the resolver, the sequence
//! buffers, and the load helpers.
pub use crate::chords;
pub use crate::error::BuildError;
pub use crate::input::{Key, KeyInput, Modifiers};
pub use crate::keymap::{resolve_layered, Keymap};
pub use crate::progress::{PendingSequence, Step};
pub use crate::sequence::{Match, SequenceKeymap};
pub use crate::suite::{keys_for_action, LoadError, Loaded, LoadedExt};
pub use crate::timed::{TimedPending, TimedStep};
pub use crate::warning::{Warning, WarningKind};
