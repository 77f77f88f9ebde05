//! Typed indices into the mesh arenas.
use vstd::prelude::*;

verus! {

/// Raw value reserved for "no element".
pub const NULL_RAW: u32 = 0xFFFF_FFFFu32;

/// Index of a face.
#[derive(Clone, Copy, Debug, PartialEq, Eq, Hash, Structural)]
pub struct FaceId {
    pub id: u32,
}

/// Index of a vertex.
#[derive(Clone, Copy, Debug, PartialEq, Eq, Hash, Structural)]
pub struct VertId {
    pub id: u32,
}

/// Index of an edge.
#[derive(Clone, Copy, Debug, PartialEq, Eq, Hash, Structural)]
pub struct EdgeId {
    pub id: u32,
}

/// Index of a half-edge.
#[derive(Clone, Copy, Debug, PartialEq, Eq, Hash, Structural)]
pub struct HeId {
    pub id: u32,
}

/// Index of a material.
#[derive(Clone, Copy, Debug, PartialEq, Eq, Hash, Structural)]
pub struct MaterialId {
    pub id: u32,
}

impl FaceId {
    pub fn new(raw: u32) -> (r: FaceId)
        ensures
            r.id == raw,
    {
        FaceId { id: raw }
    }

    pub fn null() -> (r: FaceId)
        ensures
            r.id == NULL_RAW,
    {
        FaceId { id: NULL_RAW }
    }

    pub fn raw(&self) -> (r: u32)
        ensures
            r == self.id,
    {
        self.id
    }

    pub fn is_null(&self) -> (b: bool)
        ensures
            b == (self.id == NULL_RAW),
    {
        self.id == NULL_RAW
    }
}

impl VertId {
    pub fn new(raw: u32) -> (r: VertId)
        ensures
            r.id == raw,
    {
        VertId { id: raw }
    }

    pub fn raw(&self) -> (r: u32)
        ensures
            r == self.id,
    {
        self.id
    }
}

impl EdgeId {
    pub fn new(raw: u32) -> (r: EdgeId)
        ensures
            r.id == raw,
    {
        EdgeId { id: raw }
    }

    pub fn raw(&self) -> (r: u32)
        ensures
            r == self.id,
    {
        self.id
    }
}

impl HeId {
    pub fn new(raw: u32) -> (r: HeId)
        ensures
            r.id == raw,
    {
        HeId { id: raw }
    }

    pub fn null() -> (r: HeId)
        ensures
            r.id == NULL_RAW,
    {
        HeId { id: NULL_RAW }
    }

    pub fn raw(&self) -> (r: u32)
        ensures
            r == self.id,
    {
        self.id
    }

    pub fn is_null(&self) -> (b: bool)
        ensures
            b == (self.id == NULL_RAW),
    {
        self.id == NULL_RAW
    }
}

impl MaterialId {
    pub fn new(raw: u32) -> (r: MaterialId)
        ensures
            r.id == raw,
    {
        MaterialId { id: raw }
    }
}

} // verus!
