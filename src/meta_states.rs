use vstd::prelude::*;

verus! {

/// A control state that decides, tick by tick, whether the pipeline runs.
/// `active_state` names the state in which every stage is enabled.
pub trait PluginControlState: Sized {
    spec fn spec_active_state() -> Self;

    fn active_state() -> (r: Self)
        ensures
            r == Self::spec_active_state(),
    ;

    /// Whether this state is the active one.
    fn is_active(&self) -> (r: bool)
        ensures
            r == (*self == Self::spec_active_state()),
    ;
}

/// A control state with a single value, so the pipeline is never paused.
#[derive(Clone, Copy, Debug, PartialEq, Eq, Structural, Hash, Default)]
pub enum DummyStates {
    #[default]
    AlwaysActive,
}

impl PluginControlState for DummyStates {
    open spec fn spec_active_state() -> Self {
        DummyStates::AlwaysActive
    }

    fn active_state() -> (r: Self) {
        DummyStates::AlwaysActive
    }

    fn is_active(&self) -> (r: bool) {
        match self {
            DummyStates::AlwaysActive => true,
        }
    }
}

/// The scheduling gate: stages run in a tick exactly when the current control
/// state is the active one. When it is not, no stage runs and no timer advances.
pub fn stages_enabled<T: PluginControlState>(current: &T) -> (r: bool)
    ensures
        r == (*current == T::spec_active_state()),
{
    current.is_active()
}

} // verus!
