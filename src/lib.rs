use vstd::prelude::*;

pub mod meta_states;
pub mod player;
pub mod projectile;
pub mod world;

use crate::meta_states::{DummyStates, PluginControlState};
use std::marker::PhantomData;

verus! {

/// Top-level configuration of the twin-stick pipeline, parameterised by the
/// control state that gates whether its stages run.
pub struct TwinStickToggleablePlugin<T: PluginControlState> {
    pub use_default_camera: bool,
    pub _p: PhantomData<T>,
}

impl<T: PluginControlState> TwinStickToggleablePlugin<T> {
    /// The default configuration installs the default camera.
    pub fn default() -> (r: Self)
        ensures
            r.use_default_camera,
    {
        TwinStickToggleablePlugin { use_default_camera: true, _p: PhantomData }
    }
}

/// The always-active configuration: the default camera is used and the
/// gating state never suspends the pipeline.
#[allow(non_snake_case)]
pub fn TwinStickPlugin() -> (r: TwinStickToggleablePlugin<DummyStates>)
    ensures
        r.use_default_camera,
{
    TwinStickToggleablePlugin::<DummyStates>::default()
}

} // verus!
