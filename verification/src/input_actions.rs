//! The logical actions that raw device input is mapped onto.

use vstd::prelude::*;

verus! {

/// What a binding asks for, independent of the device that produced it.
#[derive(Debug, Clone, Copy, PartialEq, Eq, Structural, Hash)]
pub enum Actions {
    MoveForward,
    Shoot,
    Rotate,
    Pause,
    Restart,
    Confirm,
    Cancel,
}

} // verus!
