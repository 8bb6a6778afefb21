//! The pending buffer of a multi-key sequence.
//!
//! [`SequenceKeymap`] answers what a run of keys is; [`PendingSequence`] keeps
//! the run: it buffers keys while they are a prefix of a binding, and clears the
//! buffer when they complete one or lead nowhere. It holds no clock.
use crate::input::KeyInput;
use crate::sequence::{law_keys_open_what_begins_with_them, opens, prefix_free, proper_prefix,
    Match, SequenceKeymap};
use vstd::prelude::*;

verus! {

/// Tracks the keys of a sequence pressed so far.
///
/// Its model is the sequence of buffered keys.
#[derive(Debug)]
pub struct PendingSequence {
    pending: Vec<KeyInput>,
}

impl View for PendingSequence {
    type V = Seq<KeyInput>;

    closed spec fn view(&self) -> Seq<KeyInput> {
        self.pending@
    }
}

/// What a [`PendingSequence::feed`] resolved to — the caller's next action.
///
/// The trichotomy is closed: match all three arms.
#[derive(Debug, PartialEq, Eq)]
#[must_use]
pub enum Step<'a, A> {
    /// The buffer completed a binding, resolving to this action; the buffer has
    /// been cleared.
    Fired(&'a A),
    /// The buffer is a proper prefix of a longer binding; it has been kept.
    Pending,
    /// The buffer is on no binding path; these are all its keys, in press order,
    /// and it has been cleared.
    PassThrough(Vec<KeyInput>),
}

/// The keys that remain buffered after the keys `all` were resolved.
pub open spec fn kept<A>(m: Map<Seq<KeyInput>, A>, all: Seq<KeyInput>) -> Seq<KeyInput> {
    if !m.contains_key(all) && opens(m, all) {
        all
    } else {
        Seq::empty()
    }
}

/// The keys that leave the buffer when the keys `all` are resolved, consumed by
/// an action or passed through.
pub open spec fn released<A>(m: Map<Seq<KeyInput>, A>, all: Seq<KeyInput>) -> Seq<KeyInput> {
    if !m.contains_key(all) && opens(m, all) {
        Seq::empty()
    } else {
        all
    }
}

/// The step is what the table says of the keys `all`.
pub open spec fn is_step<A>(step: Step<A>, m: Map<Seq<KeyInput>, A>, all: Seq<KeyInput>) -> bool {
    match step {
        Step::Fired(a) => m.contains_key(all) && *a == m[all],
        Step::Pending => !m.contains_key(all) && opens(m, all),
        Step::PassThrough(keys) => !m.contains_key(all) && !opens(m, all) && keys@ == all,
    }
}

impl PendingSequence {
    /// Creates an empty pending buffer.
    #[must_use]
    pub fn new() -> (p: Self)
        ensures
            p@ == Seq::<KeyInput>::empty(),
    {
        PendingSequence { pending: Vec::new() }
    }

    /// Pushes `key` onto the buffer, resolves the buffer against `map`, and
    /// returns what the caller should do — applying the clear/retain bookkeeping
    /// itself.
    ///
    /// The whole buffer — not just `key` — is returned on a miss because the
    /// earlier keys were held on the promise of a longer binding that did not
    /// materialise, so they are now the caller's to handle.
    pub fn feed<'a, A>(&mut self, map: &'a SequenceKeymap<A>, key: KeyInput) -> (step: Step<'a, A>)
        ensures
            is_step(step, map@, old(self)@.push(key)),
            final(self)@ == kept(map@, old(self)@.push(key)),
    {
        self.pending.push(key);
        match map.lookup(self.pending.as_slice()) {
            Match::Exact(action) => {
                self.pending.clear();
                Step::Fired(action)
            },
            Match::Prefix => Step::Pending,
            Match::NoMatch => {
                let mut keys: Vec<KeyInput> = Vec::new();
                core::mem::swap(&mut keys, &mut self.pending);
                Step::PassThrough(keys)
            },
        }
    }

    /// Drains the pending buffer, returning the keys held in it (empty if none),
    /// and leaves the buffer empty.
    ///
    /// This is the idle flush: the decision that the prefix is stale is the
    /// caller's; `flush` only performs the drain the caller decided on.
    pub fn flush(&mut self) -> (keys: Vec<KeyInput>)
        ensures
            keys@ == old(self)@,
            final(self)@ == Seq::<KeyInput>::empty(),
    {
        let mut keys: Vec<KeyInput> = Vec::new();
        core::mem::swap(&mut keys, &mut self.pending);
        keys
    }

    /// The keys buffered so far, in press order.
    #[must_use]
    pub fn pending(&self) -> (keys: &[KeyInput])
        ensures
            keys@ == self@,
    {
        self.pending.as_slice()
    }

    /// Returns `true` if no keys are buffered.
    #[must_use]
    pub fn is_empty(&self) -> (r: bool)
        ensures
            r == (self@.len() == 0),
    {
        self.pending.len() == 0
    }
}

impl Default for PendingSequence {
    fn default() -> (p: Self)
        ensures
            p@ == Seq::<KeyInput>::empty(),
    {
        PendingSequence::new()
    }
}

impl Clone for PendingSequence {
    fn clone(&self) -> (p: Self)
        ensures
            p@ == self@,
    {
        let pending = crate::sequence::copy_keys(self.pending.as_slice(), self.pending.len());
        assert(pending@ =~= self.pending@);
        PendingSequence { pending }
    }
}

/// What is buffered after the keys of `stream` were fed one after the other to a
/// buffer that held `buffer`.
pub open spec fn buffer_after<A>(
    m: Map<Seq<KeyInput>, A>,
    buffer: Seq<KeyInput>,
    stream: Seq<KeyInput>,
) -> Seq<KeyInput>
    decreases stream.len(),
{
    if stream.len() == 0 {
        buffer
    } else {
        kept(m, buffer_after(m, buffer, stream.drop_last()).push(stream.last()))
    }
}

/// The keys that left the buffer, in order, while `stream` was fed to it.
pub open spec fn released_by<A>(
    m: Map<Seq<KeyInput>, A>,
    buffer: Seq<KeyInput>,
    stream: Seq<KeyInput>,
) -> Seq<KeyInput>
    decreases stream.len(),
{
    if stream.len() == 0 {
        Seq::empty()
    } else {
        released_by(m, buffer, stream.drop_last()) + released(
            m,
            buffer_after(m, buffer, stream.drop_last()).push(stream.last()),
        )
    }
}

/// No key is dropped, duplicated or reordered: over any stream, the keys that
/// left the buffer followed by those still in it are those that were in it
/// followed by the stream.
pub proof fn law_no_key_lost<A>(
    m: Map<Seq<KeyInput>, A>,
    buffer: Seq<KeyInput>,
    stream: Seq<KeyInput>,
)
    ensures
        released_by(m, buffer, stream) + buffer_after(m, buffer, stream) == buffer + stream,
    decreases stream.len(),
{
    if stream.len() == 0 {
        assert(Seq::<KeyInput>::empty() + buffer =~= buffer + stream);
    } else {
        let init = stream.drop_last();
        law_no_key_lost(m, buffer, init);
        let all = buffer_after(m, buffer, init).push(stream.last());
        assert(released(m, all) + kept(m, all) =~= all);
        assert(released_by(m, buffer, stream) + buffer_after(m, buffer, stream)
            =~= released_by(m, buffer, init) + all);
        assert(released_by(m, buffer, init) + all =~= (released_by(m, buffer, init) + buffer_after(
            m,
            buffer,
            init,
        )).push(stream.last()));
        assert((buffer + init).push(stream.last()) =~= buffer + stream);
    }
}

/// After any key, what is buffered is nothing or a proper prefix of a binding,
/// and never a completed binding.
pub proof fn law_buffer_is_live_prefix<A>(
    m: Map<Seq<KeyInput>, A>,
    buffer: Seq<KeyInput>,
    key: KeyInput,
)
    ensures
        ({
            let after = kept(m, buffer.push(key));
            after.len() == 0 || (opens(m, after) && !m.contains_key(after))
        }),
{
}

/// A step says what the table says of all the keys held: fired with the action that they
/// are bound to, pending where a longer bound sequence begins with them, and otherwise
/// every one of them passed through. What stays buffered follows: all of the keys while
/// they are pending, and none of them else.
pub proof fn law_step_is_what_the_table_says<A>(
    m: Map<Seq<KeyInput>, A>,
    all: Seq<KeyInput>,
    step: Step<A>,
)
    requires
        is_step(step, m, all),
    ensures
        ({
            let longer = exists|s: Seq<KeyInput>| #[trigger]
                m.contains_key(s) && all.is_prefix_of(s) && all.len() < s.len();
            &&& step is Fired <==> m.contains_key(all)
            &&& step matches Step::Fired(a) ==> *a == m[all]
            &&& step is Pending <==> longer && !m.contains_key(all)
            &&& step matches Step::PassThrough(keys) ==> keys@ == all
            &&& step is Pending ==> kept(m, all) == all && released(m, all).len() == 0
            &&& !(step is Pending) ==> kept(m, all).len() == 0 && released(m, all) == all
        }),
{
    law_keys_open_what_begins_with_them(m, all);
}

/// Typing a bound sequence fires it: from an empty buffer, its keys are held one after
/// the other until the last one, which completes the binding and empties the buffer.
pub proof fn law_typed_sequence_fires<A>(m: Map<Seq<KeyInput>, A>, s: Seq<KeyInput>, n: int)
    requires
        prefix_free(m),
        m.contains_key(s),
        0 <= n < s.len(),
    ensures
        buffer_after(m, Seq::empty(), s.take(n)) == s.take(n),
        released_by(m, Seq::empty(), s.take(n)).len() == 0,
        buffer_after(m, Seq::empty(), s.drop_last()).push(s.last()) == s,
        buffer_after(m, Seq::empty(), s).len() == 0,
        released_by(m, Seq::empty(), s) == s,
    decreases s.len() - n,
{
    let none = Seq::<KeyInput>::empty();
    lemma_typed(m, s, n);
    lemma_typed(m, s, s.len() - 1);
    assert(s.take(s.len() - 1) =~= s.drop_last());
    assert(s.drop_last().push(s.last()) =~= s);
    assert(released_by(m, none, s) =~= s);
}

/// The first keys of a bound sequence are held.
proof fn lemma_typed<A>(m: Map<Seq<KeyInput>, A>, s: Seq<KeyInput>, n: int)
    requires
        prefix_free(m),
        m.contains_key(s),
        0 <= n < s.len(),
    ensures
        buffer_after(m, Seq::empty(), s.take(n)) == s.take(n),
        released_by(m, Seq::empty(), s.take(n)) == Seq::<KeyInput>::empty(),
    decreases n,
{
    let none = Seq::<KeyInput>::empty();
    let front = s.take(n);
    if n == 0 {
        assert(front =~= none);
    } else {
        lemma_typed(m, s, n - 1);
        assert(front.drop_last() =~= s.take(n - 1));
        assert(s.take(n - 1).push(front.last()) =~= front);
        assert(proper_prefix(front, s));
        assert(opens(m, front));
        if m.contains_key(front) {
            assert(m.contains_key(front) && m.contains_key(s));
        }
        assert(released_by(m, none, front) =~= none);
    }
}

} // verus!
