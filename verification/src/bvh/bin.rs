use vstd::prelude::*;
use crate::bvh::aabb::AABB;
use crate::vector::Vec3;

verus! {

/// What one slice of a node holds while a split is sought: how many
/// primitives, and the box around them.
#[derive(Clone, Copy, Debug, PartialEq, Eq, Structural)]
pub struct Bin {
    pub count: u32,
    pub bounds: AABB,
}

impl Bin {
    /// The bin that holds nothing.
    pub open spec fn empty() -> Bin {
        Bin { count: 0, bounds: AABB::empty() }
    }

    /// The bin that `default()` gives: it counts nothing, and its box is the
    /// origin.
    pub open spec fn blank() -> Bin {
        Bin {
            count: 0,
            bounds: AABB { bmin: Vec3 { x: 0, y: 0, z: 0 }, bmax: Vec3 { x: 0, y: 0, z: 0 } },
        }
    }

    /// Empties the bin.
    pub fn clear(&mut self)
        ensures
            *final(self) == Bin::empty(),
    {
        self.count = 0;
        self.bounds.reset();
    }
}

impl Default for Bin {
    fn default() -> (b: Bin)
        ensures
            b == Bin::blank(),
    {
        Bin { count: 0, bounds: AABB::default() }
    }
}

} // verus!
