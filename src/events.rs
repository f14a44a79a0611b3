//! Values that input handling passes on to the viewer.

use vstd::prelude::*;

verus! {

/// Settings that input handling can change.
pub struct Params {
    pub quit: bool,
}

/// A step that input asks of the camera.
#[derive(Clone, Copy, Debug, PartialEq, Eq, Structural)]
pub enum CameraMovement {
    MovLeft,
    MovRight,
    MovForward,
    MovBackward,
    MovUp,
    MovDown,
    RotLeft,
    RotRight,
    RotUp,
    RotDown,
}

} // verus!
