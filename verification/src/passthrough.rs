//! Raw-byte passthrough resolution.
//!
//! [`resolve_layered`] answers "what action, if any, is bound?" and collapses a
//! miss to [`None`]. A terminal *multiplexer* needs one thing more: when no layer
//! binds a key, the original bytes must reach the child process exactly as they
//! arrived. [`resolve_passthrough`] is the raw-byte-carrying sibling of
//! `resolve_layered`: a miss carries the original bytes out as
//! [`Resolution::Passthrough`]. The child is a sink past the end of the scope
//! chain, never a layer in it.
//!
//! The third disposition, [`Resolution::Consume`], is a function of caller *mode*
//! state, which this state-free library does not hold. So `resolve_passthrough`
//! never returns it: a grabbing caller maps a `Passthrough` to `Consume` itself.
use crate::input::KeyInput;
use crate::keymap::{layered, resolve_layered, Keymap};
use vstd::prelude::*;

verus! {

/// The original, pre-decode bytes of a key press, borrowed from the caller's read
/// buffer, to be forwarded verbatim when no layer binds the input.
///
/// `RawInput` is a *view*, not a copy, and is constructed only from real bytes:
/// decoding is lossy, so there is no way back from a decoded key to its bytes.
#[derive(Debug, Clone, Copy, PartialEq, Eq)]
pub struct RawInput<'a>(&'a [u8]);

impl<'a> View for RawInput<'a> {
    type V = Seq<u8>;

    closed spec fn view(&self) -> Seq<u8> {
        self.0@
    }
}

impl<'a> RawInput<'a> {
    /// Wraps the verbatim bytes the caller read for this press.
    #[must_use]
    pub fn from_bytes(bytes: &'a [u8]) -> (raw: Self)
        ensures
            raw@ == bytes@,
    {
        RawInput(bytes)
    }

    /// The borrowed bytes, for forwarding verbatim to the sink.
    #[must_use]
    pub fn as_bytes(&self) -> (bytes: &'a [u8])
        ensures
            bytes@ == self@,
    {
        self.0
    }
}

/// What should happen to a key press, for a caller that forwards unbound input to
/// a terminal sink.
///
/// The three dispositions — run an action, forward the bytes verbatim, swallow the
/// key — are the complete set, so this enum is exhaustive on purpose.
#[derive(Debug, PartialEq, Eq)]
#[must_use]
pub enum Resolution<'a, A> {
    /// A layer bound the input; run this action.
    Action(&'a A),
    /// No layer bound the input; forward these original bytes to the sink
    /// verbatim.
    Passthrough(RawInput<'a>),
    /// Swallow the key with no action and do not forward it — a modal/input grab.
    /// [`resolve_passthrough`] never returns this.
    Consume,
}

/// Resolves `input` against an ordered list of layers for a caller that forwards
/// unbound keys to a terminal sink, carrying the original `raw` bytes so a miss
/// can be forwarded verbatim.
pub fn resolve_passthrough<'a, A>(
    layers: &[&'a Keymap<A>],
    input: &KeyInput,
    raw: RawInput<'a>,
) -> (r: Resolution<'a, A>)
    ensures
        match layered(layers@, *input) {
            Some(a) => r matches Resolution::Action(x) && *x == a,
            None => r == Resolution::<A>::Passthrough(raw),
        },
{
    match resolve_layered(layers, input) {
        Some(action) => Resolution::Action(action),
        None => Resolution::Passthrough(raw),
    }
}

} // verus!
