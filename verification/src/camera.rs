//! Camera display modes. The pose arithmetic itself is floating-point
//! renderer work; the library carries the mode switching.

use vstd::prelude::*;

verus! {

/// What the renderer colors the terrain with.
#[derive(Debug, Clone, Copy, PartialEq, Eq, Structural, Default)]
pub enum ViewMode {
    #[default]
    Default,
    Normals,
    Position,
}

impl ViewMode {
    /// The next mode in the cycle default -> normals -> position.
    pub fn toggle(&self) -> (r: ViewMode)
        ensures
            *self is Default ==> r is Normals,
            *self is Normals ==> r is Position,
            *self is Position ==> r is Default,
    {
        match self {
            ViewMode::Default => ViewMode::Normals,
            ViewMode::Normals => ViewMode::Position,
            ViewMode::Position => ViewMode::Default,
        }
    }
}

} // verus!
