use vstd::prelude::*;

verus! {

/// An axis-aligned box: an identifier and its minimum and maximum corners.
#[derive(Clone, Copy, Debug, PartialEq, Eq)]
pub struct Cuboid {
    pub id: u16,
    pub x1: u16,
    pub y1: u16,
    pub z1: u16,
    pub x2: u16,
    pub y2: u16,
    pub z2: u16,
}

/// What a bounding record stands for: the whole scene, or one group.
#[derive(Clone, Copy, Debug, PartialEq, Eq)]
pub enum Tag {
    Scene,
    Group(usize),
}

/// A box summarised as centre and extent. Coordinates are integers, so the
/// centre is kept doubled: `double_cx / 2` is the centre on the x axis.
#[derive(Clone, Copy, Debug, PartialEq, Eq)]
pub struct BoundingRecord {
    pub tag: Tag,
    pub double_cx: u32,
    pub double_cy: u32,
    pub double_cz: u32,
    pub width: u16,
    pub height: u16,
    pub depth: u16,
}

/// Lower bound of `c` on axis 0 (x), 1 (y) or 2 (z).
pub open spec fn lo(c: Cuboid, axis: int) -> int {
    if axis == 0 {
        c.x1 as int
    } else if axis == 1 {
        c.y1 as int
    } else {
        c.z1 as int
    }
}

/// Upper bound of `c` on axis 0 (x), 1 (y) or 2 (z).
pub open spec fn hi(c: Cuboid, axis: int) -> int {
    if axis == 0 {
        c.x2 as int
    } else if axis == 1 {
        c.y2 as int
    } else {
        c.z2 as int
    }
}

impl Cuboid {
    /// The minimum corner lies below or on the maximum corner on every axis.
    pub open spec fn well_formed(&self) -> bool {
        self.x1 <= self.x2 && self.y1 <= self.y2 && self.z1 <= self.z2
    }

    pub fn new(id: u16, x1: u16, y1: u16, z1: u16, x2: u16, y2: u16, z2: u16) -> (r: Cuboid)
        ensures
            r == (Cuboid { id, x1, y1, z1, x2, y2, z2 }),
    {
        Cuboid { id, x1, y1, z1, x2, y2, z2 }
    }

    /// Whether the corners are ordered; a box that fails this is rejected.
    pub fn is_valid(&self) -> (r: bool)
        ensures
            r == self.well_formed(),
    {
        self.x1 <= self.x2 && self.y1 <= self.y2 && self.z1 <= self.z2
    }
}

/// Why a record cannot become a box.
#[derive(Clone, Copy, Debug, PartialEq, Eq)]
pub enum RecordError {
    /// The record does not hold seven numbers; the count it holds.
    FieldCount(usize),
    /// The minimum corner lies above the maximum corner on some axis.
    InvertedCorners,
}

/// The box that seven fields `id, x1, y1, z1, x2, y2, z2` describe.
pub open spec fn box_of_fields(f: Seq<u16>) -> Cuboid {
    Cuboid { id: f[0], x1: f[1], y1: f[2], z1: f[3], x2: f[4], y2: f[5], z2: f[6] }
}

/// The box of a record's fields, or why there is none: a record holds seven
/// numbers and a well-formed box.
pub fn cuboid_from_fields(fields: &[u16]) -> (r: Result<Cuboid, RecordError>)
    ensures
        fields@.len() != 7 ==> r == Err::<Cuboid, RecordError>(RecordError::FieldCount(fields@.len() as usize)),
        fields@.len() == 7 && box_of_fields(fields@).well_formed() ==> r == Ok::<Cuboid, RecordError>(
            box_of_fields(fields@),
        ),
        fields@.len() == 7 && !box_of_fields(fields@).well_formed() ==> r == Err::<Cuboid, RecordError>(
            RecordError::InvertedCorners,
        ),
{
    if fields.len() != 7 {
        return Err(RecordError::FieldCount(fields.len()));
    }
    let c = Cuboid::new(fields[0], fields[1], fields[2], fields[3], fields[4], fields[5], fields[6]);
    if c.is_valid() {
        Ok(c)
    } else {
        Err(RecordError::InvertedCorners)
    }
}

/// Every box of `s` is well formed.
pub open spec fn all_well_formed(s: Seq<Cuboid>) -> bool {
    forall|i: int| 0 <= i < s.len() ==> (#[trigger] s[i]).well_formed()
}

} // verus!
