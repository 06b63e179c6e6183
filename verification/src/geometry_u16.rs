//! Geometry identifiers in the 16-bit encoding of the scene buffers.

use vstd::prelude::*;

verus! {

/// Identifies the kind of geometry an instance refers to.
#[derive(Clone, Copy, PartialEq, Eq, Structural, Debug)]
pub enum GeometryId {
    Sphere,
    Aabb,
    Quad,
    Mesh(u32),
}

impl GeometryId {
    /// The 16-bit code: the three primitive shapes take the three largest
    /// codes, a mesh its index truncated to 16 bits.
    pub open spec fn spec_encode(self) -> u16 {
        match self {
            GeometryId::Sphere => u16::MAX,
            GeometryId::Aabb => (u16::MAX - 1) as u16,
            GeometryId::Quad => (u16::MAX - 2) as u16,
            GeometryId::Mesh(i) => (i % 0x1_0000) as u16,
        }
    }

    pub fn encode(self) -> (code: u16)
        ensures
            code == self.spec_encode(),
            self matches GeometryId::Mesh(i) ==> code == i % 0x1_0000,
            !(self is Mesh) ==> code >= u16::MAX - 2,
            forall|other: GeometryId|
                !(self is Mesh) && !(other is Mesh) && other != self ==> #[trigger] other.spec_encode() != code,
    {
        match self {
            GeometryId::Sphere => u16::MAX,
            GeometryId::Aabb => u16::MAX - 1,
            GeometryId::Quad => u16::MAX - 2,
            GeometryId::Mesh(i) => (i % 0x1_0000) as u16,
        }
    }
}

} // verus!
