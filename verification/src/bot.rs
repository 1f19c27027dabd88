use vstd::prelude::*;

use crate::enums::Action;
use crate::helpers::GameHelpers;
use crate::models::GameState;

verus! {

/// The decision procedure a bot author supplies: given the current state and
/// helpers bound to it, choose the next action.
pub trait Bot {
    fn get_next_move(&mut self, state: &GameState, helpers: &GameHelpers) -> Action;
}

} // verus!
