//! Which terrain is shown next when the viewer asks for another one.

use vstd::prelude::*;

verus! {

/// The mark that a spawned terrain carries: the number of vertices it was
/// given and its place in the list of terrains.
#[derive(Clone, Copy, Debug, Default, PartialEq, Eq)]
pub struct MyMesh {
    pub verts: u32,
    pub index: u32,
}

/// The place that follows `current` in a list of `count` terrains: the next
/// place, or the first one after the last.
pub open spec fn following(current: u32, count: u32) -> u32 {
    if current >= count - 1 {
        0
    } else {
        (current + 1) as u32
    }
}

impl MyMesh {
    /// The place of the terrain that replaces this one in a list of `count`
    /// terrains.
    pub fn next_index(&self, count: u32) -> (choice: u32)
        requires
            count >= 1,
        ensures
            choice == following(self.index, count),
            choice < count,
    {
        if self.index >= count - 1 {
            0
        } else {
            self.index + 1
        }
    }
}

} // verus!
