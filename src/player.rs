use vstd::prelude::*;

use crate::meta_states::PluginControlState;
use std::marker::PhantomData;

verus! {

/// Marks the camera that follows the player.
pub struct TwinStickCamera;

/// Marks the entity that follows the cursor.
pub struct CursorTracker;

/// Marks the player-controlled entity.
pub struct Player;

/// Player systems, gated by the control state `T`.
pub struct PlayerPlugin<T: PluginControlState> {
    pub _z: PhantomData<T>,
}

impl<T: PluginControlState> PlayerPlugin<T> {
    pub fn default() -> (r: Self) {
        PlayerPlugin { _z: PhantomData }
    }
}

} // verus!
