//! Queue family bookkeeping for the rendering device.

use vstd::prelude::*;

verus! {

/// Which queue families a physical device offers: each index is meaningful
/// only while its flag is set.
#[derive(Clone, Copy, Debug, PartialEq, Eq, Structural)]
pub struct QueueFamilyIndices {
    pub graphics_family: u32,
    pub present_family: u32,
    pub graphics_family_has_value: bool,
    pub present_family_has_value: bool,
}

impl QueueFamilyIndices {
    /// Both a graphics and a present family have been found.
    pub fn is_complete(&self) -> (r: bool)
        ensures
            r == (self.graphics_family_has_value && self.present_family_has_value),
    {
        self.graphics_family_has_value && self.present_family_has_value
    }
}

} // verus!
