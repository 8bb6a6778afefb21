//! Opt-in rebind validation via virtual overlay.
//!
//! [`validate_rebind`] answers "is it safe to bind `proposed` into `target`?"
//! without cloning any keymap or requiring any bounds on `A`.
use crate::input::{Key, KeyInput, Modifiers};
use crate::keymap::{law_first_layer_wins, layered, resolve_layered, Keymap};
use crate::legacy::{legacy_form_of, LegacyForm};
use vstd::prelude::*;

verus! {

/// Why a proposed rebind would break a reserved key.
#[derive(Debug, Clone, Copy, PartialEq, Eq, Structural)]
pub enum BreakReason {
    /// `proposed` is identical to the reserved chord: placing it into `target`
    /// would directly steal that chord from the app's escape hatch.
    DirectSteal,
    /// On a legacy 7-bit (C0) terminal `proposed` is indistinguishable from the
    /// reserved chord (e.g. `ctrl+i` ≡ `tab`).
    LegacyCollapse,
}

/// What [`validate_rebind`] concluded.
#[derive(Debug)]
pub enum RebindVerdict<'a, A> {
    /// Refused. The proposed chord would break the caller's escape hatch.
    BreaksReserved {
        /// The reserved key whose resolution would be stolen.
        reserved: KeyInput,
        /// The structural reason the rebind is refused.
        reason: BreakReason,
    },
    /// Allowed. The rebind does not threaten any reserved key.
    Allowed {
        /// The action that `proposed` currently resolves to via the layer stack,
        /// if any.
        shadows: Option<&'a A>,
        /// How `proposed` fares on a legacy 7-bit C0 terminal.
        legacy: LegacyForm,
    },
}

/// Why a bind of `proposed` and the reserved key `r` collide, if they do.
pub open spec fn collision(proposed: KeyInput, r: KeyInput) -> Option<BreakReason> {
    if proposed == r {
        Some(BreakReason::DirectSteal)
    } else if legacy_form_of(proposed) == LegacyForm::CollapsesTo(r) {
        Some(BreakReason::LegacyCollapse)
    } else {
        None
    }
}

/// A layer before `target` binds `r`, so that nothing in `target` can change how
/// `r` resolves.
pub open spec fn held_above<A>(layers: Seq<&Keymap<A>>, target: int, r: KeyInput) -> bool {
    exists|i: int| 0 <= i < target && (#[trigger] layers[i])@.contains_key(r)
}

/// Why a bind of `proposed` into `layers[target]` breaks the reserved key `r`, if
/// it does: the two collide, and no layer above the target holds `r`.
pub open spec fn threat<A>(
    layers: Seq<&Keymap<A>>,
    target: int,
    proposed: KeyInput,
    r: KeyInput,
) -> Option<BreakReason> {
    if held_above(layers, target, r) {
        None
    } else {
        collision(proposed, r)
    }
}

/// Validates a proposed rebind of `proposed` into layer `layers[target]` without
/// mutating the live keymap.
///
/// The contract is strict: a reserved chord cannot be the target of a rebind,
/// not even to the action it already has. The first reserved key that is
/// threatened, in the order of `reserved`, is the one that is reported.
#[must_use]
pub fn validate_rebind<'a, A>(
    layers: &[&'a Keymap<A>],
    target: usize,
    proposed: KeyInput,
    reserved: &[KeyInput],
) -> (verdict: RebindVerdict<'a, A>)
    requires
        target < layers.len(),
    ensures
        match verdict {
            RebindVerdict::BreaksReserved { reserved: r, reason } => exists|i: int|
                {
                    &&& 0 <= i < reserved.len()
                    &&& #[trigger] reserved@[i] == r
                    &&& threat(layers@, target as int, proposed, r) == Some(reason)
                    &&& forall|j: int|
                        0 <= j < i ==> threat(
                            layers@,
                            target as int,
                            proposed,
                            #[trigger] reserved@[j],
                        ) is None
                },
            RebindVerdict::Allowed { shadows, legacy } => {
                &&& forall|j: int|
                    0 <= j < reserved.len() ==> threat(
                        layers@,
                        target as int,
                        proposed,
                        #[trigger] reserved@[j],
                    ) is None
                &&& legacy == legacy_form_of(proposed)
                &&& match shadows {
                    Some(a) => layered(layers@, proposed) == Some(*a),
                    None => layered(layers@, proposed) is None,
                }
            },
        },
        verdict is Allowed <==> forall|j: int|
            #![trigger reserved@[j]]
            0 <= j < reserved.len() && (reserved@[j] == proposed || legacy_form_of(proposed)
                == LegacyForm::CollapsesTo(reserved@[j])) ==> exists|i: int|
                0 <= i < target && (#[trigger] layers@[i])@.contains_key(reserved@[j]),
{
    let legacy = proposed.legacy_form();
    let mut i: usize = 0;
    while i < reserved.len()
        invariant
            i <= reserved.len(),
            target < layers.len(),
            legacy == legacy_form_of(proposed),
            forall|j: int|
                0 <= j < i ==> threat(
                    layers@,
                    target as int,
                    proposed,
                    #[trigger] reserved@[j],
                ) is None,
        decreases reserved.len() - i,
    {
        let r = reserved[i];
        let reason = if proposed == r {
            Some(BreakReason::DirectSteal)
        } else if let LegacyForm::CollapsesTo(twin) = legacy {
            if twin == r {
                Some(BreakReason::LegacyCollapse)
            } else {
                None
            }
        } else {
            None
        };
        if let Some(reason) = reason {
            if !any_binds(layers, target, &r) {
                assert(reserved@[i as int] == r);
                return RebindVerdict::BreaksReserved { reserved: r, reason };
            }
        }
        i = i + 1;
    }
    let shadows = resolve_layered(layers, &proposed);
    RebindVerdict::Allowed { shadows, legacy }
}

/// Whether one of the first `n` layers binds `r`.
fn any_binds<A>(layers: &[&Keymap<A>], n: usize, r: &KeyInput) -> (b: bool)
    requires
        n <= layers.len(),
    ensures
        b == held_above(layers@, n as int, *r),
{
    let mut i: usize = 0;
    while i < n
        invariant
            i <= n <= layers.len(),
            forall|j: int| 0 <= j < i ==> !(#[trigger] layers@[j])@.contains_key(*r),
        decreases n - i,
    {
        if layers[i].contains(r) {
            assert(layers@[i as int]@.contains_key(*r));
            return true;
        }
        i = i + 1;
    }
    false
}

/// The stack that a bind of `proposed` to `action` in `layers[target]` leaves.
pub open spec fn rebound<A>(
    before: Seq<&Keymap<A>>,
    after: Seq<&Keymap<A>>,
    target: int,
    proposed: KeyInput,
    action: A,
) -> bool {
    &&& 0 <= target < before.len()
    &&& after.len() == before.len()
    &&& forall|i: int|
        0 <= i < before.len() && i != target ==> (#[trigger] after[i])@ == before[i]@
    &&& after[target]@ == before[target]@.insert(proposed, action)
}

/// A bind leaves the resolution of every key alone but that of the chord it binds,
/// and that too where a layer above the target holds it.
proof fn lemma_other_keys_stay<A>(
    before: Seq<&Keymap<A>>,
    after: Seq<&Keymap<A>>,
    target: int,
    proposed: KeyInput,
    action: A,
    r: KeyInput,
)
    requires
        rebound(before, after, target, proposed, action),
        proposed != r || held_above(before, target, r),
    ensures
        layered(after, r) == layered(before, r),
{
    law_first_layer_wins(before, r);
    law_first_layer_wins(after, r);
    assert forall|i: int| 0 <= i < before.len() && (i < target || proposed != r) implies
        (#[trigger] after[i])@.contains_key(r) == before[i]@.contains_key(r) && (
    before[i]@.contains_key(r) ==> after[i]@[r] == before[i]@[r]) by {}
    if layered(before, r) is Some {
        let i = first_binder(before, r);
        if proposed == r {
            let h = choose|h: int| 0 <= h < target && (#[trigger] before[h])@.contains_key(r);
            assert(i <= h);
        }
        assert(after[i]@.contains_key(r));
        assert forall|j: int| 0 <= j < i implies !(#[trigger] after[j])@.contains_key(r) by {
            assert(!before[j]@.contains_key(r));
        }
    } else {
        assert forall|i: int| 0 <= i < after.len() implies !(#[trigger] after[i])@.contains_key(r) by {
            assert(!before[i]@.contains_key(r));
            if proposed == r {
                let h = choose|h: int| 0 <= h < target && (#[trigger] before[h])@.contains_key(r);
                assert(before[h]@.contains_key(r));
            }
        }
    }
}

/// The escape hatch survives: where a rebind is allowed, every reserved key
/// resolves after it as it did before it, whatever the action is and whatever
/// layer stack results.
pub proof fn law_allowed_rebind_keeps_reserved<A>(
    before: Seq<&Keymap<A>>,
    after: Seq<&Keymap<A>>,
    target: int,
    proposed: KeyInput,
    action: A,
    r: KeyInput,
)
    requires
        rebound(before, after, target, proposed, action),
        threat(before, target, proposed, r) is None,
    ensures
        layered(after, r) == layered(before, r),
{
    lemma_other_keys_stay(before, after, target, proposed, action, r);
}

/// The check agrees with trying the rebind out: for an action that the reserved key
/// does not resolve to already, its resolution changes exactly where a direct steal is
/// reported.
pub proof fn law_steal_is_what_changes_resolution<A>(
    before: Seq<&Keymap<A>>,
    after: Seq<&Keymap<A>>,
    target: int,
    proposed: KeyInput,
    action: A,
    r: KeyInput,
)
    requires
        rebound(before, after, target, proposed, action),
        layered(before, r) != Some(action),
    ensures
        layered(after, r) != layered(before, r) <==> threat(before, target, proposed, r) == Some(
            BreakReason::DirectSteal,
        ),
{
    if proposed == r && !held_above(before, target, r) {
        assert forall|j: int| 0 <= j < target implies !(#[trigger] after[j])@.contains_key(r) by {
            assert(!before[j]@.contains_key(r));
        }
        assert(after[target]@.contains_key(r));
        law_first_layer_wins(after, r);
    } else {
        lemma_other_keys_stay(before, after, target, proposed, action, r);
    }
}

/// The first layer that binds the key.
proof fn first_binder<A>(layers: Seq<&Keymap<A>>, r: KeyInput) -> (i: int)
    requires
        layered(layers, r) is Some,
    ensures
        0 <= i < layers.len(),
        layers[i]@.contains_key(r),
        forall|j: int| 0 <= j < i ==> !(#[trigger] layers[j])@.contains_key(r),
    decreases layers.len(),
{
    if layers[0]@.contains_key(r) {
        0
    } else {
        let k = first_binder(layers.drop_first(), r);
        assert forall|j: int| 0 <= j < k + 1 implies !(#[trigger] layers[j])@.contains_key(r) by {
            if j > 0 {
                assert(layers.drop_first()[j - 1] == layers[j]);
            }
        }
        k + 1
    }
}

/// A direct bind of a reserved key is refused unless a layer above the target
/// holds it, whatever it is bound to.
pub proof fn law_reserved_key_is_refused<A>(layers: Seq<&Keymap<A>>, target: int, r: KeyInput)
    ensures
        threat(layers, target, r, r) is Some <==> !held_above(layers, target, r),
{
}

/// A reserved key is threatened exactly where the proposed chord arrives as that key, be
/// it the key itself or a chord that a legacy terminal delivers as it, and no layer above
/// the target binds the key. The reason says which of the two it is.
pub proof fn law_threat_is_arriving_as_the_reserved_key<A>(
    layers: Seq<&Keymap<A>>,
    target: int,
    proposed: KeyInput,
    r: KeyInput,
)
    requires
        0 <= target < layers.len(),
    ensures
        ({
            let above = exists|i: int|
                0 <= i < target && (#[trigger] layers[i])@.contains_key(r);
            let why = threat(layers, target, proposed, r);
            &&& above ==> why is None
            &&& !above && proposed == r ==> why == Some(BreakReason::DirectSteal)
            &&& !above && proposed != r && legacy_form_of(proposed) == LegacyForm::CollapsesTo(r)
                ==> why == Some(BreakReason::LegacyCollapse)
            &&& proposed != r && legacy_form_of(proposed) != LegacyForm::CollapsesTo(r) ==> why is None
        }),
{
}

/// The chord that a press of `k` arrives as on a legacy terminal, where it arrives.
pub open spec fn arrives_as(k: KeyInput) -> KeyInput {
    match legacy_form_of(k) {
        LegacyForm::CollapsesTo(twin) => twin,
        _ => k,
    }
}

/// The escape hatch holds on a legacy terminal too: where a rebind threatens none of the
/// reserved keys, pressing the proposed chord does not arrive as a reserved key, whatever
/// modifiers the terminal drops, unless a layer above the target binds that key.
pub proof fn law_allowed_chord_does_not_arrive_as_reserved<A>(
    layers: Seq<&Keymap<A>>,
    target: int,
    proposed: KeyInput,
    reserved: Seq<KeyInput>,
)
    requires
        0 <= target < layers.len(),
        forall|j: int|
            0 <= j < reserved.len() ==> threat(layers, target, proposed, #[trigger] reserved[j]) is None,
    ensures
        forall|j: int|
            0 <= j < reserved.len() && (#[trigger] reserved[j] == proposed || reserved[j]
                == arrives_as(proposed)) ==> exists|i: int|
                0 <= i < target && (#[trigger] layers[i])@.contains_key(reserved[j]),
{
    assert forall|j: int|
        0 <= j < reserved.len() && (#[trigger] reserved[j] == proposed || reserved[j] == arrives_as(
            proposed,
        )) implies exists|i: int| 0 <= i < target && (#[trigger] layers[i])@.contains_key(reserved[j]) by {
        law_threat_is_arriving_as_the_reserved_key(layers, target, proposed, reserved[j]);
    }
}

/// A chord that loses only Shift on a legacy terminal is as good as the chord without it:
/// with Control and a character that is no byte of a named key, a bind of the shifted
/// chord threatens the unshifted one.
pub proof fn law_shifted_twin_threatens<A>(
    layers: Seq<&Keymap<A>>,
    target: int,
    c: char,
    mods: Modifiers,
)
    requires
        0 <= target < layers.len(),
        mods == Modifiers::CTRL || mods == Modifiers::CTRL_ALT,
        !(c == 'i' || c == 'I' || c == 'm' || c == 'M' || c == '['),
        forall|i: int|
            0 <= i < target ==> !(#[trigger] layers[i])@.contains_key(
                KeyInput { key: Key::Char(c), mods },
            ),
    ensures
        threat(
            layers,
            target,
            KeyInput { key: Key::Char(c), mods: mods.spec_union(Modifiers::SHIFT) },
            KeyInput { key: Key::Char(c), mods },
        ) == Some(BreakReason::LegacyCollapse),
{
}

} // verus!
