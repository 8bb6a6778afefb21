//! A pending buffer with an inter-key timeout.
//!
//! [`TimedPending`] adds an expiry check to [`PendingSequence`]: a prefix that was
//! left waiting for longer than a window is given up before the next key is
//! processed. It holds no clock; the caller passes the time of each key in.
use crate::input::KeyInput;
use crate::progress::{is_step, kept, PendingSequence, Step};
use crate::sequence::SequenceKeymap;
use crate::time::{Duration, Instant};
use vstd::prelude::*;

verus! {

/// Tracks the keys of a sequence pressed so far, and when the last one came.
///
/// Its model is the sequence of buffered keys, and the time of the last of them.
#[derive(Debug)]
pub struct TimedPending {
    inner: PendingSequence,
    /// The instant of the last key that extended the live prefix; `None` when
    /// the buffer is empty.
    last_key_at: Option<Instant>,
}

impl View for TimedPending {
    type V = (Seq<KeyInput>, Option<Instant>);

    closed spec fn view(&self) -> (Seq<KeyInput>, Option<Instant>) {
        (self.inner@, self.last_key_at)
    }
}

/// The result of a single [`TimedPending::feed`] call.
#[must_use]
#[derive(Debug)]
pub struct TimedStep<'a, A> {
    /// Keys from the buffer that was discarded because the inter-key gap exceeded
    /// the window. When `Some`, the `Vec` is non-empty.
    pub expired: Option<Vec<KeyInput>>,
    /// The outcome of processing the new key after the expiry check.
    pub step: Step<'a, A>,
}

/// The buffered prefix is given up at `now`: the gap since its last key exceeds
/// the window. A clock that went backwards counts as no gap.
pub open spec fn has_expired(state: (Seq<KeyInput>, Option<Instant>), now: Instant, window: Duration) -> bool {
    match state.1 {
        Some(last) => now.nanos - last.nanos > window.nanos && state.0.len() > 0,
        None => false,
    }
}

/// The buffer that the new key is added to.
pub open spec fn live_buffer(
    state: (Seq<KeyInput>, Option<Instant>),
    now: Instant,
    window: Duration,
) -> Seq<KeyInput> {
    if has_expired(state, now, window) {
        Seq::empty()
    } else {
        state.0
    }
}

/// The state after a key was fed at `now`.
pub open spec fn timed_next<A>(
    m: Map<Seq<KeyInput>, A>,
    state: (Seq<KeyInput>, Option<Instant>),
    key: KeyInput,
    now: Instant,
    window: Duration,
) -> (Seq<KeyInput>, Option<Instant>) {
    let after = kept(m, live_buffer(state, now, window).push(key));
    (
        after,
        if after.len() > 0 {
            Some(now)
        } else {
            None
        },
    )
}

impl TimedPending {
    #[verifier::type_invariant]
    spec fn inv(self) -> bool {
        self.last_key_at is Some <==> self.inner@.len() > 0
    }

    /// Creates an empty timed pending buffer.
    #[must_use]
    pub fn new() -> (p: Self)
        ensures
            p@ == (Seq::<KeyInput>::empty(), None::<Instant>),
    {
        TimedPending { inner: PendingSequence::new(), last_key_at: None }
    }

    /// Processes one key with expiry checking, returning the combined result.
    ///
    /// 1. **Expiry check**: if the pending buffer is non-empty and the gap since
    ///    its last key exceeds `window`, the buffer is flushed into
    ///    [`TimedStep::expired`].
    /// 2. **Key processing**: `key` is fed into the (possibly just-reset) buffer.
    /// 3. **Clock update**: the time of the last key is `now` while keys are
    ///    buffered, and none otherwise.
    pub fn feed<'a, A>(
        &mut self,
        map: &'a SequenceKeymap<A>,
        key: KeyInput,
        now: Instant,
        window: Duration,
    ) -> (r: TimedStep<'a, A>)
        ensures
            match r.expired {
                Some(keys) => has_expired(old(self)@, now, window) && keys@ == old(self)@.0
                    && keys@.len() > 0,
                None => !has_expired(old(self)@, now, window),
            },
            is_step(r.step, map@, live_buffer(old(self)@, now, window).push(key)),
            final(self)@ == timed_next(map@, old(self)@, key, now, window),
            r.expired is Some <==> (old(self)@.1 matches Some(last) && now.nanos > last.nanos
                + window.nanos),
            r.expired matches Some(keys) ==> keys@ == old(self)@.0 && (r.step is PassThrough ==> (
            r.step->PassThrough_0)@ == seq![key]),
            final(self)@.0.len() > 0 <==> r.step is Pending,
            final(self)@.1 == (if r.step is Pending {
                Some(now)
            } else {
                None
            }),
    {
        proof {
            use_type_invariant(&*self);
        }
        let ghost state = self@;
        let mut taken = TimedPending::new();
        core::mem::swap(&mut taken, self);
        let last_key_at = taken.last_key_at;
        let mut inner = taken.inner;
        let expired = match last_key_at {
            Some(last) => if now.duration_since(last).nanos > window.nanos && !inner.is_empty() {
                Some(inner.flush())
            } else {
                None
            },
            None => None,
        };
        let step = inner.feed(map, key);
        let last_key_at = match &step {
            Step::Pending => Some(now),
            Step::Fired(_) => None,
            Step::PassThrough(_) => None,
        };
        *self = TimedPending { inner, last_key_at };
        assert(Seq::<KeyInput>::empty().push(key) =~= seq![key]);
        TimedStep { expired, step }
    }

    /// The deadline at which a pending prefix expires, or `None` if no keys are
    /// buffered. Use this as the `poll` timeout of an event loop.
    #[must_use]
    pub fn deadline(&self, window: Duration) -> (t: Option<Instant>)
        requires
            self@.1 matches Some(last) ==> last.nanos + window.nanos <= u128::MAX,
        ensures
            match self@.1 {
                Some(last) => t matches Some(t) && t.nanos == last.nanos + window.nanos,
                None => t is None,
            },
            t is Some <==> self@.0.len() > 0,
    {
        proof {
            use_type_invariant(self);
        }
        match self.last_key_at {
            Some(last) => Some(last + window),
            None => None,
        }
    }

    /// Drains the pending buffer, returning the keys held in it, and leaves the
    /// buffer empty.
    pub fn flush(&mut self) -> (keys: Vec<KeyInput>)
        ensures
            keys@ == old(self)@.0,
            final(self)@ == (Seq::<KeyInput>::empty(), None::<Instant>),
    {
        let mut taken = TimedPending::new();
        core::mem::swap(&mut taken, self);
        let mut inner = taken.inner;
        inner.flush()
    }

    /// The keys buffered so far, in press order.
    #[must_use]
    pub fn pending(&self) -> (keys: &[KeyInput])
        ensures
            keys@ == self@.0,
    {
        self.inner.pending()
    }

    /// Returns `true` if no keys are buffered.
    #[must_use]
    pub fn is_empty(&self) -> (r: bool)
        ensures
            r == (self@.0.len() == 0),
    {
        self.inner.is_empty()
    }
}

impl Clone for TimedPending {
    fn clone(&self) -> (p: Self)
        ensures
            p@ == self@,
    {
        proof {
            use_type_invariant(self);
        }
        TimedPending { inner: self.inner.clone(), last_key_at: self.last_key_at }
    }
}

impl Default for TimedPending {
    fn default() -> (p: Self)
        ensures
            p@ == (Seq::<KeyInput>::empty(), None::<Instant>),
    {
        TimedPending::new()
    }
}

/// No key is lost at a feed, expired or not: the keys given up, those released by
/// the step and those still buffered are the old buffer followed by the new key.
pub proof fn law_timed_feed_loses_no_key<A>(
    m: Map<Seq<KeyInput>, A>,
    state: (Seq<KeyInput>, Option<Instant>),
    key: KeyInput,
    now: Instant,
    window: Duration,
)
    ensures
        ({
            let live = live_buffer(state, now, window);
            let expired = if has_expired(state, now, window) {
                state.0
            } else {
                Seq::empty()
            };
            expired + crate::progress::released(m, live.push(key)) + timed_next(
                m,
                state,
                key,
                now,
                window,
            ).0 == state.0.push(key)
        }),
{
    let live = live_buffer(state, now, window);
    let expired = if has_expired(state, now, window) {
        state.0
    } else {
        Seq::empty()
    };
    assert(expired + crate::progress::released(m, live.push(key)) + timed_next(
        m,
        state,
        key,
        now,
        window,
    ).0 =~= state.0.push(key));
}

/// A key at the deadline is still in time: a prefix expires strictly after it.
pub proof fn law_deadline_is_in_time(state: (Seq<KeyInput>, Option<Instant>), now: Instant, window: Duration)
    requires
        state.1 matches Some(last) && now.nanos <= last.nanos + window.nanos,
    ensures
        !has_expired(state, now, window),
{
}

/// A prefix that was left waiting for longer than the window is given up, however many
/// keys it has: a key that comes later than the deadline finds the whole buffer expired,
/// and is resolved as if it were the first.
pub proof fn law_late_key_is_resolved_alone<A>(
    m: Map<Seq<KeyInput>, A>,
    state: (Seq<KeyInput>, Option<Instant>),
    last: Instant,
    key: KeyInput,
    now: Instant,
    window: Duration,
)
    requires
        state.0.len() > 0,
        state.1 == Some(last),
        now.nanos > last.nanos + window.nanos,
    ensures
        has_expired(state, now, window),
        live_buffer(state, now, window).push(key) == seq![key],
        timed_next(m, state, key, now, window) == timed_next(
            m,
            (Seq::empty(), None),
            key,
            now,
            window,
        ),
{
    assert(Seq::<KeyInput>::empty().push(key) =~= seq![key]);
}

/// A key in time is resolved together with every key that is held, as it is without a
/// clock: nothing expires before the deadline, nor where the clock went backwards.
pub proof fn law_key_in_time_joins_the_buffer<A>(
    m: Map<Seq<KeyInput>, A>,
    state: (Seq<KeyInput>, Option<Instant>),
    key: KeyInput,
    now: Instant,
    window: Duration,
)
    requires
        state.1 matches Some(last) ==> now.nanos <= last.nanos + window.nanos,
    ensures
        !has_expired(state, now, window),
        live_buffer(state, now, window) == state.0,
        timed_next(m, state, key, now, window).0 == crate::progress::buffer_after(
            m,
            state.0,
            seq![key],
        ),
{
    reveal_with_fuel(crate::progress::buffer_after, 2);
    assert(seq![key].drop_last() =~= Seq::<KeyInput>::empty());
}

/// What is held after presses, each with its time, were fed to an empty buffer.
pub open spec fn timed_after<A>(
    m: Map<Seq<KeyInput>, A>,
    presses: Seq<(KeyInput, Instant)>,
    window: Duration,
) -> (Seq<KeyInput>, Option<Instant>)
    decreases presses.len(),
{
    if presses.len() == 0 {
        (Seq::empty(), None)
    } else {
        timed_next(
            m,
            timed_after(m, presses.drop_last(), window),
            presses.last().0,
            presses.last().1,
            window,
        )
    }
}

/// In every state that feeding reaches, what is held is the end of what was pressed, and
/// its time is that of the last press: so a next press later than the window after that
/// one finds all of it expired, and one that is not later finds none of it expired.
pub proof fn law_every_reached_prefix_times_out<A>(
    m: Map<Seq<KeyInput>, A>,
    presses: Seq<(KeyInput, Instant)>,
    now: Instant,
    window: Duration,
)
    ensures
        ({
            let state = timed_after(m, presses, window);
            let held = state.0.len() as int;
            &&& held <= presses.len()
            &&& forall|i: int|
                0 <= i < held ==> #[trigger] state.0[i] == presses[presses.len() - held + i].0
            &&& held == 0 ==> state.1 is None && !has_expired(state, now, window)
            &&& held > 0 ==> state.1 == Some(presses.last().1) && (has_expired(state, now, window)
                <==> now.nanos > presses.last().1.nanos + window.nanos)
        }),
    decreases presses.len(),
{
    if presses.len() > 0 {
        let before = presses.drop_last();
        let (key, at) = presses.last();
        law_every_reached_prefix_times_out(m, before, at, window);
        let old_state = timed_after(m, before, window);
        let live = live_buffer(old_state, at, window);
        let state = timed_after(m, presses, window);
        assert(state.0.len() == 0 || state.0 == live.push(key));
        let held = state.0.len() as int;
        assert forall|i: int| 0 <= i < held implies #[trigger] state.0[i] == presses[presses.len()
            - held + i].0 by {
            if i < held - 1 {
                assert(live == old_state.0);
                assert(old_state.0[i] == before[before.len() - (held - 1) + i].0);
            }
        }
    }
}

/// The keys of presses.
pub open spec fn keys_pressed(presses: Seq<(KeyInput, Instant)>) -> Seq<KeyInput> {
    presses.map_values(|p: (KeyInput, Instant)| p.0)
}

/// Where no gap exceeds the window, the clock makes no difference: what is held is what the
/// keys alone would leave held, so that a bound sequence typed in time fires.
pub proof fn law_keys_in_time_are_as_without_a_clock<A>(
    m: Map<Seq<KeyInput>, A>,
    presses: Seq<(KeyInput, Instant)>,
    window: Duration,
)
    requires
        forall|i: int|
            0 < i < presses.len() ==> (#[trigger] presses[i]).1.nanos <= presses[i - 1].1.nanos
                + window.nanos,
    ensures
        timed_after(m, presses, window).0 == crate::progress::buffer_after(
            m,
            Seq::empty(),
            keys_pressed(presses),
        ),
    decreases presses.len(),
{
    let keys = keys_pressed(presses);
    if presses.len() > 0 {
        let before = presses.drop_last();
        let (key, at) = presses.last();
        assert forall|i: int| 0 < i < before.len() implies (#[trigger] before[i]).1.nanos
            <= before[i - 1].1.nanos + window.nanos by {
            assert(before[i] == presses[i] && before[i - 1] == presses[i - 1]);
        }
        law_keys_in_time_are_as_without_a_clock(m, before, window);
        law_every_reached_prefix_times_out(m, before, at, window);
        assert(keys.drop_last() =~= keys_pressed(before));
        assert(keys.last() == key);
        if before.len() > 0 {
            let n = presses.len() - 1;
            assert(presses[n].1.nanos <= presses[n - 1].1.nanos + window.nanos);
            assert(before.last() == presses[n - 1]);
        }
    }
}

} // verus!
