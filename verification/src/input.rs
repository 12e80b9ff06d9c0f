//! Keyboard-style directional input state.

use vstd::prelude::*;

verus! {

/// Which of the four movement directions are currently held.
#[derive(Debug, Clone, Copy, PartialEq, Eq, Structural)]
pub struct DirectionalInput {
    pub backward: bool,
    pub forward: bool,
    pub left: bool,
    pub right: bool,
}

impl DirectionalInput {
    /// A fresh input state with no direction held.
    pub fn new() -> (input: DirectionalInput)
        ensures
            !input.backward,
            !input.forward,
            !input.left,
            !input.right,
    {
        DirectionalInput { backward: false, forward: false, left: false, right: false }
    }
}

} // verus!
