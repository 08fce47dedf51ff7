use vstd::prelude::*;
use crate::types::{all_well_formed, hi, lo, BoundingRecord, Cuboid, Tag};

verus! {

pub open spec fn min_int(a: int, b: int) -> int {
    if a <= b { a } else { b }
}

pub open spec fn max_int(a: int, b: int) -> int {
    if a >= b { a } else { b }
}

/// Smallest lower bound on `axis` over `s`, seeded with the largest coordinate.
pub open spec fn min_lo(s: Seq<Cuboid>, axis: int) -> int
    decreases s.len(),
{
    if s.len() == 0 {
        u16::MAX as int
    } else {
        min_int(min_lo(s.drop_last(), axis), lo(s.last(), axis))
    }
}

/// Largest upper bound on `axis` over `s`, seeded with the smallest coordinate.
pub open spec fn max_hi(s: Seq<Cuboid>, axis: int) -> int
    decreases s.len(),
{
    if s.len() == 0 {
        0
    } else {
        max_int(max_hi(s.drop_last(), axis), hi(s.last(), axis))
    }
}

/// The record that spans all of `s`: the origin with no extent when `s` is empty.
pub open spec fn scene_box(s: Seq<Cuboid>) -> BoundingRecord {
    if s.len() == 0 {
        BoundingRecord {
            tag: Tag::Scene,
            double_cx: 0,
            double_cy: 0,
            double_cz: 0,
            width: 0,
            height: 0,
            depth: 0,
        }
    } else {
        BoundingRecord {
            tag: Tag::Scene,
            double_cx: (min_lo(s, 0) + max_hi(s, 0)) as u32,
            double_cy: (min_lo(s, 1) + max_hi(s, 1)) as u32,
            double_cz: (min_lo(s, 2) + max_hi(s, 2)) as u32,
            width: (max_hi(s, 0) - min_lo(s, 0)) as u16,
            height: (max_hi(s, 1) - min_lo(s, 1)) as u16,
            depth: (max_hi(s, 2) - min_lo(s, 2)) as u16,
        }
    }
}

/// `min_lo` is the least lower bound of the boxes and `max_hi` the greatest
/// upper bound: each bounds every box and is reached by one of them.
pub proof fn lemma_fold_is_extremum(s: Seq<Cuboid>, axis: int)
    requires
        s.len() > 0,
    ensures
        forall|i: int| 0 <= i < s.len() ==> min_lo(s, axis) <= lo(#[trigger] s[i], axis),
        forall|i: int| 0 <= i < s.len() ==> hi(#[trigger] s[i], axis) <= max_hi(s, axis),
        exists|i: int| 0 <= i < s.len() && min_lo(s, axis) == lo(#[trigger] s[i], axis),
        exists|i: int| 0 <= i < s.len() && max_hi(s, axis) == hi(#[trigger] s[i], axis),
    decreases s.len(),
{
    let t = s.drop_last();
    let n = s.len() - 1;
    assert(lo(s[n], axis) <= u16::MAX);
    if t.len() > 0 {
        lemma_fold_is_extremum(t, axis);
        assert forall|i: int| 0 <= i < s.len() implies min_lo(s, axis) <= lo(#[trigger] s[i], axis) by {
            if i < n {
                assert(s[i] == t[i]);
            }
        }
        assert forall|i: int| 0 <= i < s.len() implies hi(#[trigger] s[i], axis) <= max_hi(s, axis) by {
            if i < n {
                assert(s[i] == t[i]);
            }
        }
        let j = choose|j: int| 0 <= j < t.len() && min_lo(t, axis) == lo(#[trigger] t[j], axis);
        let k = choose|k: int| 0 <= k < t.len() && max_hi(t, axis) == hi(#[trigger] t[k], axis);
        assert(s[j] == t[j]);
        assert(s[k] == t[k]);
        if min_lo(s, axis) == lo(s[n], axis) {
            assert(min_lo(s, axis) == lo(s[n], axis));
        } else {
            assert(min_lo(s, axis) == lo(s[j], axis));
        }
        if max_hi(s, axis) == hi(s[n], axis) {
            assert(max_hi(s, axis) == hi(s[n], axis));
        } else {
            assert(max_hi(s, axis) == hi(s[k], axis));
        }
    } else {
        assert(min_lo(t, axis) == u16::MAX);
        assert(max_hi(t, axis) == 0);
        assert(hi(s[n], axis) >= 0);
        assert(min_lo(s, axis) == lo(s[n], axis));
        assert(max_hi(s, axis) == hi(s[n], axis));
    }
}

/// For well-formed boxes the fold stays within coordinates and the lower
/// bound does not pass the upper one.
proof fn lemma_fold_ordered(s: Seq<Cuboid>, axis: int)
    requires
        s.len() > 0,
        all_well_formed(s),
        0 <= axis < 3,
    ensures
        0 <= min_lo(s, axis) <= max_hi(s, axis) <= u16::MAX,
{
    lemma_fold_is_extremum(s, axis);
    assert(s[0].well_formed());
    assert(min_lo(s, axis) <= lo(s[0], axis));
    assert(hi(s[0], axis) <= max_hi(s, axis));
    let k = choose|k: int| 0 <= k < s.len() && max_hi(s, axis) == hi(#[trigger] s[k], axis);
    let j = choose|j: int| 0 <= j < s.len() && min_lo(s, axis) == lo(#[trigger] s[j], axis);
    assert(hi(s[k], axis) <= u16::MAX);
    assert(lo(s[j], axis) >= 0);
}

/// The whole-scene bounding record of `cuboids`.
pub fn compute(cuboids: &[Cuboid]) -> (r: BoundingRecord)
    requires
        all_well_formed(cuboids@),
    ensures
        r == scene_box(cuboids@),
{
    if cuboids.len() == 0 {
        return BoundingRecord {
            tag: Tag::Scene,
            double_cx: 0,
            double_cy: 0,
            double_cz: 0,
            width: 0,
            height: 0,
            depth: 0,
        };
    }
    let mut min_x: u16 = u16::MAX;
    let mut min_y: u16 = u16::MAX;
    let mut min_z: u16 = u16::MAX;
    let mut max_x: u16 = 0;
    let mut max_y: u16 = 0;
    let mut max_z: u16 = 0;
    let mut i: usize = 0;
    while i < cuboids.len()
        invariant
            i <= cuboids.len(),
            min_x == min_lo(cuboids@.take(i as int), 0),
            min_y == min_lo(cuboids@.take(i as int), 1),
            min_z == min_lo(cuboids@.take(i as int), 2),
            max_x == max_hi(cuboids@.take(i as int), 0),
            max_y == max_hi(cuboids@.take(i as int), 1),
            max_z == max_hi(cuboids@.take(i as int), 2),
        decreases cuboids.len() - i,
    {
        let c = &cuboids[i];
        assert(cuboids@.take(i + 1).drop_last() == cuboids@.take(i as int));
        if c.x1 < min_x { min_x = c.x1; }
        if c.y1 < min_y { min_y = c.y1; }
        if c.z1 < min_z { min_z = c.z1; }
        if c.x2 > max_x { max_x = c.x2; }
        if c.y2 > max_y { max_y = c.y2; }
        if c.z2 > max_z { max_z = c.z2; }
        i = i + 1;
    }
    assert(cuboids@.take(i as int) == cuboids@);
    proof {
        lemma_fold_ordered(cuboids@, 0);
        lemma_fold_ordered(cuboids@, 1);
        lemma_fold_ordered(cuboids@, 2);
    }
    BoundingRecord {
        tag: Tag::Scene,
        double_cx: min_x as u32 + max_x as u32,
        double_cy: min_y as u32 + max_y as u32,
        double_cz: min_z as u32 + max_z as u32,
        width: max_x - min_x,
        height: max_y - min_y,
        depth: max_z - min_z,
    }
}

/// Extent of a record on axis 0 (x), 1 (y) or 2 (z).
pub open spec fn extent(r: BoundingRecord, axis: int) -> int {
    if axis == 0 {
        r.width as int
    } else if axis == 1 {
        r.height as int
    } else {
        r.depth as int
    }
}

/// Twice the centre of a record on axis 0 (x), 1 (y) or 2 (z).
pub open spec fn double_center(r: BoundingRecord, axis: int) -> int {
    if axis == 0 {
        r.double_cx as int
    } else if axis == 1 {
        r.double_cy as int
    } else {
        r.double_cz as int
    }
}

/// On each axis, the scene box of a non-empty set of well-formed boxes runs
/// from the least lower bound of the boxes to their greatest upper bound: its
/// extent is the difference of the two and its centre their midpoint.
pub proof fn lemma_scene_box_spans(s: Seq<Cuboid>, axis: int)
    requires
        s.len() > 0,
        all_well_formed(s),
        0 <= axis < 3,
    ensures
        forall|i: int| 0 <= i < s.len() ==> min_lo(s, axis) <= lo(#[trigger] s[i], axis),
        forall|i: int| 0 <= i < s.len() ==> hi(#[trigger] s[i], axis) <= max_hi(s, axis),
        exists|i: int| 0 <= i < s.len() && min_lo(s, axis) == lo(#[trigger] s[i], axis),
        exists|i: int| 0 <= i < s.len() && max_hi(s, axis) == hi(#[trigger] s[i], axis),
        extent(scene_box(s), axis) == max_hi(s, axis) - min_lo(s, axis),
        double_center(scene_box(s), axis) == min_lo(s, axis) + max_hi(s, axis),
        scene_box(s).tag == Tag::Scene,
{
    lemma_fold_is_extremum(s, axis);
    lemma_fold_ordered(s, axis);
}

/// The scene box of no boxes is the origin with no extent.
pub proof fn lemma_scene_box_empty(s: Seq<Cuboid>)
    requires
        s.len() == 0,
    ensures
        scene_box(s) == (BoundingRecord {
            tag: Tag::Scene,
            double_cx: 0,
            double_cy: 0,
            double_cz: 0,
            width: 0,
            height: 0,
            depth: 0,
        }),
{
}

} // verus!
