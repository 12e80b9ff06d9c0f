//! Small user-interface value types.

use vstd::prelude::*;

verus! {

/// The axis along which a container lays out its children.
#[derive(Debug, Clone, Copy, PartialEq, Eq, Structural)]
pub enum Orientation {
    Horizontal,
    Vertical,
}

/// An opaque handle to a registered font.
#[derive(Debug, Copy, Clone, Eq, PartialEq, Structural, Hash)]
pub struct FontId {
    id: u32,
}

impl FontId {
    /// The raw id behind the handle.
    pub closed spec fn spec_id(&self) -> u32 {
        self.id
    }

    /// The handle with the given raw id.
    pub fn new(id: u32) -> (font_id: FontId)
        ensures
            font_id.spec_id() == id,
    {
        FontId { id }
    }
}

} // verus!
