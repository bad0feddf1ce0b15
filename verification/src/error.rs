use vstd::prelude::*;

verus! {

/// Errors surfaced by the coordination core.
///
/// - `InvalidEntity`: an unknown, stale or removed identity was used in a
///   mutation or query; such a use must never silently succeed.
/// - `ComponentAccess`: a component-type storage access outside the range of
///   declared component types.
/// - `DuplicateActivation`: an attempt to activate an already-active entity.
/// - `IdentityExhausted`: the identity space is exhausted (free-list and
///   counter both spent); entity creation must stop.
#[derive(Clone, Copy, PartialEq, Eq, Structural, Debug)]
pub enum EcsError {
    InvalidEntity,
    ComponentAccess,
    DuplicateActivation,
    IdentityExhausted,
}

} // verus!
