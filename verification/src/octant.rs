use vstd::prelude::*;

use crate::vector::Vector3;

verus! {

/// One of the eight equal sub-regions of a cubic node.
///
/// The index of an octant combines one binary digit per axis, 0 for the lower
/// half and 1 for the upper half, as `(z_bit << 2) | (y_bit << 1) | x_bit`:
/// index 0 is the all-low corner, index 7 the all-high corner. `Left`/`Right`
/// name the x halves, `Rear`/`Front` the y halves, `Base`/`Top` the z halves.
#[derive(Debug, Copy, Clone, PartialEq, Eq, Structural)]
pub enum Octant {
    LeftRearBase,
    RightRearBase,
    LeftFrontBase,
    RightFrontBase,
    LeftRearTop,
    RightRearTop,
    LeftFrontTop,
    RightFrontTop,
}

impl Octant {
    /// The index of this octant, between 0 and 7.
    pub open spec fn idx(self) -> int {
        match self {
            Octant::LeftRearBase => 0,
            Octant::RightRearBase => 1,
            Octant::LeftFrontBase => 2,
            Octant::RightFrontBase => 3,
            Octant::LeftRearTop => 4,
            Octant::RightRearTop => 5,
            Octant::LeftFrontTop => 6,
            Octant::RightFrontTop => 7,
        }
    }

    /// Executable form of [`Octant::idx`].
    pub fn index(self) -> (r: usize)
        ensures
            r == self.idx(),
    {
        match self {
            Octant::LeftRearBase => 0,
            Octant::RightRearBase => 1,
            Octant::LeftFrontBase => 2,
            Octant::RightFrontBase => 3,
            Octant::LeftRearTop => 4,
            Octant::RightRearTop => 5,
            Octant::LeftFrontTop => 6,
            Octant::RightFrontTop => 7,
        }
    }

    /// The octant whose index is `i`.
    pub open spec fn spec_from_index(i: int) -> Octant {
        if i == 0 {
            Octant::LeftRearBase
        } else if i == 1 {
            Octant::RightRearBase
        } else if i == 2 {
            Octant::LeftFrontBase
        } else if i == 3 {
            Octant::RightFrontBase
        } else if i == 4 {
            Octant::LeftRearTop
        } else if i == 5 {
            Octant::RightRearTop
        } else if i == 6 {
            Octant::LeftFrontTop
        } else {
            Octant::RightFrontTop
        }
    }

    /// Executable form of [`Octant::spec_from_index`] for indices below 8.
    pub fn from_index(i: usize) -> (r: Octant)
        requires
            i < 8,
        ensures
            r == Octant::spec_from_index(i as int),
            r.idx() == i,
    {
        if i == 0 {
            Octant::LeftRearBase
        } else if i == 1 {
            Octant::RightRearBase
        } else if i == 2 {
            Octant::LeftFrontBase
        } else if i == 3 {
            Octant::RightFrontBase
        } else if i == 4 {
            Octant::LeftRearTop
        } else if i == 5 {
            Octant::RightRearTop
        } else if i == 6 {
            Octant::LeftFrontTop
        } else {
            Octant::RightFrontTop
        }
    }

    /// The corner vector of this octant: one 0/1 coordinate per axis, matching
    /// the bit encoding of the index.
    pub open spec fn spec_offset(self) -> Vector3 {
        Vector3 {
            x: (self.idx() % 2) as u32,
            y: ((self.idx() / 2) % 2) as u32,
            z: (self.idx() / 4) as u32,
        }
    }

    /// Executable form of [`Octant::spec_offset`].
    pub fn offset(&self) -> (r: Vector3)
        ensures
            r == self.spec_offset(),
    {
        match self {
            Octant::LeftRearBase => Vector3 { x: 0, y: 0, z: 0 },
            Octant::RightRearBase => Vector3 { x: 1, y: 0, z: 0 },
            Octant::LeftFrontBase => Vector3 { x: 0, y: 1, z: 0 },
            Octant::RightFrontBase => Vector3 { x: 1, y: 1, z: 0 },
            Octant::LeftRearTop => Vector3 { x: 0, y: 0, z: 1 },
            Octant::RightRearTop => Vector3 { x: 1, y: 0, z: 1 },
            Octant::LeftFrontTop => Vector3 { x: 0, y: 1, z: 1 },
            Octant::RightFrontTop => Vector3 { x: 1, y: 1, z: 1 },
        }
    }

    /// The octant of point `lhs` within the region whose midpoint is `rhs`:
    /// each axis contributes its bit according to which half the point falls
    /// into.
    pub open spec fn spec_octant_of(rhs: Vector3, lhs: Vector3) -> Octant {
        Octant::spec_from_index(
            (if lhs.x < rhs.x { 0int } else { 1int }) + (if lhs.y < rhs.y { 0int } else { 2int })
                + (if lhs.z < rhs.z { 0int } else { 4int }),
        )
    }

    /// Classifies point `lhs` against midpoint `rhs`.
    pub fn vector_diff(rhs: Vector3, lhs: Vector3) -> (r: Octant)
        ensures
            r == Octant::spec_octant_of(rhs, lhs),
    {
        if lhs.z < rhs.z {
            if lhs.y < rhs.y {
                if lhs.x < rhs.x {
                    Octant::LeftRearBase
                } else {
                    Octant::RightRearBase
                }
            } else {
                if lhs.x < rhs.x {
                    Octant::LeftFrontBase
                } else {
                    Octant::RightFrontBase
                }
            }
        } else {
            if lhs.y < rhs.y {
                if lhs.x < rhs.x {
                    Octant::LeftRearTop
                } else {
                    Octant::RightRearTop
                }
            } else {
                if lhs.x < rhs.x {
                    Octant::LeftFrontTop
                } else {
                    Octant::RightFrontTop
                }
            }
        }
    }

    /// Each axis bit of an octant's corner vector recovers the matching digit
    /// of its index.
    pub proof fn lemma_offset_bits(self)
        ensures
            self.spec_offset().x == self.idx() % 2,
            self.spec_offset().y == (self.idx() / 2) % 2,
            self.spec_offset().z == self.idx() / 4,
            self.idx() == self.spec_offset().x + 2 * self.spec_offset().y + 4 * self.spec_offset().z,
    {
    }
}

} // verus!
