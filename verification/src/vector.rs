use vstd::prelude::*;

verus! {

/// A 3-component integer vector naming a point or an extent in the cubic
/// domain.
#[derive(Debug, Clone, Copy, PartialEq, Eq, Structural)]
pub struct Vector3 {
    pub x: u32,
    pub y: u32,
    pub z: u32,
}

impl Vector3 {
    /// Builds a vector from its three components.
    pub fn new(x: u32, y: u32, z: u32) -> (r: Self)
        ensures
            r == (Vector3 { x, y, z }),
    {
        Vector3 { x, y, z }
    }

    /// Builds a vector from an `[x, y, z]` array.
    pub fn from_array(v: [u32; 3]) -> (r: Self)
        ensures
            r == (Vector3 { x: v[0], y: v[1], z: v[2] }),
    {
        Vector3 { x: v[0], y: v[1], z: v[2] }
    }

    /// Component-wise product.
    pub fn component_mul(self, other: &Self) -> (r: Self)
        requires
            self.x * other.x <= u32::MAX,
            self.y * other.y <= u32::MAX,
            self.z * other.z <= u32::MAX,
        ensures
            r == (Vector3 { x: (self.x * other.x) as u32, y: (self.y * other.y) as u32, z: (self.z * other.z) as u32 }),
    {
        Vector3 { x: self.x * other.x, y: self.y * other.y, z: self.z * other.z }
    }

    /// Scales every component by `rhs`.
    pub fn scl(self, rhs: u32) -> (r: Self)
        requires
            self.x * rhs <= u32::MAX,
            self.y * rhs <= u32::MAX,
            self.z * rhs <= u32::MAX,
        ensures
            r == (Vector3 { x: (self.x * rhs) as u32, y: (self.y * rhs) as u32, z: (self.z * rhs) as u32 }),
    {
        Vector3 { x: self.x * rhs, y: self.y * rhs, z: self.z * rhs }
    }

    /// Adds `rhs` to every component.
    pub fn offset(self, rhs: u32) -> (r: Self)
        requires
            self.x + rhs <= u32::MAX,
            self.y + rhs <= u32::MAX,
            self.z + rhs <= u32::MAX,
        ensures
            r == (Vector3 { x: (self.x + rhs) as u32, y: (self.y + rhs) as u32, z: (self.z + rhs) as u32 }),
    {
        Vector3 { x: self.x + rhs, y: self.y + rhs, z: self.z + rhs }
    }

    /// Component-wise sum of two vectors.
    pub fn plus(self, other: Self) -> (r: Self)
        requires
            self.x + other.x <= u32::MAX,
            self.y + other.y <= u32::MAX,
            self.z + other.z <= u32::MAX,
        ensures
            r == (Vector3 { x: (self.x + other.x) as u32, y: (self.y + other.y) as u32, z: (self.z + other.z) as u32 }),
    {
        Vector3 { x: self.x + other.x, y: self.y + other.y, z: self.z + other.z }
    }

    /// The components as an `[x, y, z]` array.
    pub fn to_array(self) -> (r: [u32; 3])
        ensures
            r@ == seq![self.x, self.y, self.z],
    {
        [self.x, self.y, self.z]
    }
}

} // verus!
