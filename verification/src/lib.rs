//! Codec for the "tsi" text format: a line-oriented description of a
//! triangulated surface mesh (vertices, triangles, point inclusions and
//! exclusion zones).
//!
//! Every length-like quantity (box dimensions, vertex positions, inclusion
//! direction vectors, exclusion radii) is held as a [`Fixed`] value: an
//! integer count of thousandths of a nanometer. The on-disk format writes
//! these fields with exactly three fractional digits, so `Fixed` represents
//! every value the format can carry, exactly, and the decoder rounds any
//! extra input digits to the nearest thousandth.

use vstd::prelude::*;

pub mod num;
pub mod text;
pub mod reader;
pub mod writer;
pub mod laws;

verus! {

/// A fixed-point number: `milli` thousandths, i.e. the value `milli / 1000`.
#[derive(Debug, Clone, Copy, PartialEq, Eq, Structural)]
pub struct Fixed {
    pub milli: i64,
}

/// A three-component fixed-point vector (nanometers).
#[derive(Debug, Clone, Copy, PartialEq, Eq, Structural)]
pub struct Vec3 {
    pub x: Fixed,
    pub y: Fixed,
    pub z: Fixed,
}

/// A two-component fixed-point vector.
#[derive(Debug, Clone, Copy, PartialEq, Eq, Structural)]
pub struct Vec2 {
    pub x: Fixed,
    pub y: Fixed,
}

/// One mesh vertex: a position in nanometers and a signed domain tag.
#[derive(Debug, Clone, Copy, PartialEq, Eq, Structural)]
pub struct Vertex {
    pub position: Vec3,
    pub domain: i32,
}

/// One triangle: three vertex indices in fixed order.
#[derive(Debug, Clone, Copy, PartialEq, Eq, Structural, Hash)]
pub struct Triangle {
    pub v0: u32,
    pub v1: u32,
    pub v2: u32,
}

/// A point feature attached to a vertex, with a category tag and a
/// unit-normalized (or zero) direction vector.
#[derive(Debug, Clone, Copy, PartialEq, Eq, Structural)]
pub struct Inclusion {
    pub ty: i32,
    pub vertex_index: u32,
    pub vector: Vec2,
}

/// A spherical exclusion zone anchored at a vertex.
#[derive(Debug, Clone, Copy, PartialEq, Eq, Structural)]
pub struct Exclusion {
    pub vertex_index: u32,
    pub radius: Fixed,
}

/// A complete mesh: the root value the decoder produces and the encoder
/// consumes. Element `i` of each sequence corresponds to on-disk index `i`.
#[derive(Debug, Clone, PartialEq)]
pub struct Tsi {
    /// Enclosing box dimensions in nanometers.
    pub dimensions: Vec3,
    pub vertices: Vec<Vertex>,
    pub triangles: Vec<Triangle>,
    pub inclusions: Vec<Inclusion>,
    pub exclusions: Vec<Exclusion>,
}

/// The mathematical model of a [`Tsi`] value.
#[verifier::ext_equal]
pub ghost struct TsiView {
    pub dimensions: Vec3,
    pub vertices: Seq<Vertex>,
    pub triangles: Seq<Triangle>,
    pub inclusions: Seq<Inclusion>,
    pub exclusions: Seq<Exclusion>,
}

impl View for Tsi {
    type V = TsiView;

    open spec fn view(&self) -> TsiView {
        TsiView {
            dimensions: self.dimensions,
            vertices: self.vertices@,
            triangles: self.triangles@,
            inclusions: self.inclusions@,
            exclusions: self.exclusions@,
        }
    }
}

} // verus!
