use vstd::prelude::*;
use crate::types::{hi, lo, Cuboid};

verus! {

/// On `axis`, one box ends exactly where the other begins.
pub open spec fn touches(a: Cuboid, b: Cuboid, axis: int) -> bool {
    hi(a, axis) == lo(b, axis) || hi(b, axis) == lo(a, axis)
}

/// On `axis`, the two extents share an interval of positive length.
pub open spec fn overlaps(a: Cuboid, b: Cuboid, axis: int) -> bool {
    lo(a, axis) < hi(b, axis) && lo(b, axis) < hi(a, axis)
}

/// Face adjacency: the boxes touch on one axis and overlap strictly on the
/// other two.
pub open spec fn adjacent(a: Cuboid, b: Cuboid) -> bool {
    (touches(a, b, 0) && overlaps(a, b, 1) && overlaps(a, b, 2))
    || (touches(a, b, 1) && overlaps(a, b, 0) && overlaps(a, b, 2))
    || (touches(a, b, 2) && overlaps(a, b, 0) && overlaps(a, b, 1))
}

/// Decides face adjacency of two boxes.
pub fn are_face_adjacent(a: &Cuboid, b: &Cuboid) -> (r: bool)
    ensures
        r == adjacent(*a, *b),
{
    let oy = a.y2 > b.y1 && b.y2 > a.y1;
    let oz = a.z2 > b.z1 && b.z2 > a.z1;
    if (a.x2 == b.x1 || b.x2 == a.x1) && oy && oz {
        return true;
    }
    let ox = a.x2 > b.x1 && b.x2 > a.x1;
    if (a.y2 == b.y1 || b.y2 == a.y1) && ox && oz {
        return true;
    }
    if (a.z2 == b.z1 || b.z2 == a.z1) && ox && oy {
        return true;
    }
    false
}

/// Adjacency does not depend on the order of the two boxes.
pub proof fn lemma_adjacent_symmetric(a: Cuboid, b: Cuboid)
    ensures
        adjacent(a, b) == adjacent(b, a),
{
}

/// Boxes that touch on no axis are never adjacent, however their extents
/// overlap.
pub proof fn lemma_no_touch_not_adjacent(a: Cuboid, b: Cuboid)
    requires
        !touches(a, b, 0),
        !touches(a, b, 1),
        !touches(a, b, 2),
    ensures
        !adjacent(a, b),
{
}

} // verus!
