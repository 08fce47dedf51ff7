use cuboid_groups::adjacency::are_face_adjacent;
use cuboid_groups::encoding::{flatten, unflatten};
use cuboid_groups::groups::{build_all_groups, connected_groups, member_box, materialize};
use cuboid_groups::spatial_hash::build_spatial_hash;
use cuboid_groups::types::{cuboid_from_fields, BoundingRecord, Cuboid, RecordError, Tag};
use cuboid_groups::union_find::UnionFind;

fn groups_of(cuboids: &[Cuboid]) -> Vec<Vec<u16>> {
    let hash = build_spatial_hash(cuboids);
    let mut gs: Vec<Vec<u16>> = connected_groups(cuboids, &hash)
        .iter()
        .map(|g| {
            let mut ids: Vec<u16> = g.iter().map(|&i| cuboids[i].id).collect();
            ids.sort();
            ids
        })
        .collect();
    gs.sort();
    gs
}

#[test]
fn touching_pair_forms_one_group() {
    let a = Cuboid::new(0, 0, 0, 0, 10, 10, 10);
    let b = Cuboid::new(1, 10, 0, 0, 20, 10, 10);
    let cuboids = vec![a, b];
    let hash = build_spatial_hash(&cuboids);
    let groups = build_all_groups(&cuboids, &hash);
    assert_eq!(groups.len(), 1);
    assert_eq!(groups[0].len(), 2);
    for r in &groups[0] {
        assert_eq!(r.tag, Tag::Group(0));
    }
    assert_eq!(groups_of(&cuboids), vec![vec![0, 1]]);
}

#[test]
fn disjoint_pair_forms_no_group() {
    let cuboids = vec![
        Cuboid::new(0, 0, 0, 0, 5, 5, 5),
        Cuboid::new(1, 10, 10, 10, 20, 20, 20),
    ];
    let hash = build_spatial_hash(&cuboids);
    assert!(build_all_groups(&cuboids, &hash).is_empty());
}

#[test]
fn chain_of_three_is_one_group() {
    let cuboids = vec![
        Cuboid::new(0, 0, 0, 0, 10, 10, 10),
        Cuboid::new(1, 10, 0, 0, 20, 10, 10),
        Cuboid::new(2, 20, 0, 0, 30, 10, 10),
    ];
    assert!(!are_face_adjacent(&cuboids[0], &cuboids[2]));
    assert_eq!(groups_of(&cuboids), vec![vec![0, 1, 2]]);
}

#[test]
fn neighbours_across_a_cell_boundary_are_grouped() {
    let cuboids = vec![
        Cuboid::new(0, 0, 0, 0, 800, 10, 10),
        Cuboid::new(1, 800, 0, 0, 1600, 10, 10),
    ];
    assert_eq!(groups_of(&cuboids), vec![vec![0, 1]]);
}

#[test]
fn grouping_ignores_input_order() {
    let cuboids = vec![
        Cuboid::new(0, 0, 0, 0, 10, 10, 10),
        Cuboid::new(1, 10, 0, 0, 20, 10, 10),
        Cuboid::new(2, 100, 100, 100, 110, 110, 110),
        Cuboid::new(3, 100, 110, 100, 110, 120, 110),
        Cuboid::new(4, 500, 500, 500, 510, 510, 510),
    ];
    let mut permuted = cuboids.clone();
    permuted.reverse();
    permuted.swap(0, 3);
    assert_eq!(groups_of(&cuboids), groups_of(&permuted));
    assert_eq!(groups_of(&cuboids), vec![vec![0, 1], vec![2, 3]]);
}

#[test]
fn every_group_has_two_members() {
    let cuboids = vec![
        Cuboid::new(0, 0, 0, 0, 10, 10, 10),
        Cuboid::new(1, 10, 0, 0, 20, 10, 10),
        Cuboid::new(2, 50, 50, 50, 60, 60, 60),
        Cuboid::new(3, 0, 10, 0, 10, 20, 10),
    ];
    let hash = build_spatial_hash(&cuboids);
    let groups = build_all_groups(&cuboids, &hash);
    assert!(!groups.is_empty());
    for g in &groups {
        assert!(g.len() >= 2);
    }
}

#[test]
fn overlapping_boxes_are_not_grouped() {
    let a = Cuboid::new(0, 0, 0, 0, 10, 10, 10);
    let b = Cuboid::new(1, 5, 5, 5, 15, 15, 15);
    assert!(!are_face_adjacent(&a, &b));
    assert!(groups_of(&[a, b]).is_empty());
}

#[test]
fn edge_contact_is_not_adjacency() {
    let a = Cuboid::new(0, 0, 0, 0, 10, 10, 10);
    let b = Cuboid::new(1, 10, 10, 0, 20, 20, 10);
    assert!(!are_face_adjacent(&a, &b));
    assert!(!are_face_adjacent(&b, &a));
}

#[test]
fn adjacency_is_symmetric_on_each_axis() {
    let a = Cuboid::new(0, 0, 0, 0, 10, 10, 10);
    let bs = [
        Cuboid::new(1, 10, 2, 2, 12, 8, 8),
        Cuboid::new(2, 2, 10, 2, 8, 12, 8),
        Cuboid::new(3, 2, 2, 10, 8, 8, 12),
    ];
    for b in &bs {
        assert!(are_face_adjacent(&a, b));
        assert!(are_face_adjacent(b, &a));
    }
}

#[test]
fn member_records_keep_own_geometry() {
    let c = Cuboid::new(7, 2, 4, 6, 5, 10, 7);
    let r = member_box(&c, 3);
    assert_eq!(
        r,
        BoundingRecord {
            tag: Tag::Group(3),
            double_cx: 7,
            double_cy: 14,
            double_cz: 13,
            width: 3,
            height: 6,
            depth: 1,
        }
    );
    let rs = materialize(&vec![vec![0]], &[c]);
    assert_eq!(rs, vec![vec![member_box(&c, 0)]]);
    assert_eq!(rs[0][0].tag, Tag::Group(0));
    assert_eq!(rs[0][0].width, 3);
}

#[test]
fn spatial_hash_lists_each_cell() {
    let cuboids = vec![
        Cuboid::new(0, 0, 0, 0, 800, 10, 10),
        Cuboid::new(1, 900, 0, 0, 1000, 10, 10),
    ];
    let hash = build_spatial_hash(&cuboids);
    assert_eq!(hash.get(&(0, 0, 0)), Some(&vec![0]));
    assert_eq!(hash.get(&(1, 0, 0)), Some(&vec![0, 1]));
    assert_eq!(hash.len(), 2);
}

#[test]
fn union_find_joins_sets() {
    let mut uf = UnionFind::new(5);
    assert_eq!(uf.len(), 5);
    for i in 0..5 {
        assert_eq!(uf.find(i), i);
    }
    uf.union(0, 1);
    uf.union(3, 4);
    uf.union(1, 4);
    let r = uf.find(0);
    assert_eq!(uf.find(1), r);
    assert_eq!(uf.find(3), r);
    assert_eq!(uf.find(4), r);
    assert_ne!(uf.find(2), r);
    assert_eq!(uf.find(2), 2);
}

#[test]
fn round_trip_through_buffer() {
    let rec = |g: usize, w: u16| BoundingRecord {
        tag: Tag::Group(g),
        double_cx: 2,
        double_cy: 4,
        double_cz: 6,
        width: w,
        height: 1,
        depth: 1,
    };
    let groups = vec![vec![rec(0, 1), rec(0, 2)], vec![], vec![rec(2, 3), rec(2, 4), rec(2, 5)]];
    let (buf, offsets) = flatten(&groups);
    assert_eq!(offsets, vec![0, 2, 2, 5]);
    assert_eq!(buf.len(), 5);
    assert_eq!(unflatten(&buf, &offsets), groups);
}

#[test]
fn invalid_box_is_detected() {
    assert!(!Cuboid::new(0, 5, 0, 0, 4, 1, 1).is_valid());
    assert!(Cuboid::new(0, 4, 0, 0, 4, 1, 1).is_valid());
}

#[test]
fn group_boxes_runs_the_whole_pipeline() {
    let cuboids = vec![
        Cuboid::new(0, 0, 0, 0, 10, 10, 10),
        Cuboid::new(1, 10, 0, 0, 20, 10, 10),
        Cuboid::new(2, 40, 40, 40, 50, 50, 50),
    ];
    let groups = cuboid_groups::groups::group_boxes(&cuboids);
    assert_eq!(groups.len(), 1);
    let mut widths: Vec<u32> = groups[0].iter().map(|r| r.double_cx).collect();
    widths.sort();
    assert_eq!(widths, vec![10, 30]);
    for r in &groups[0] {
        assert_eq!(r.tag, Tag::Group(0));
        assert_eq!((r.width, r.height, r.depth), (10, 10, 10));
    }
}

#[test]
fn record_fields_make_a_box() {
    assert_eq!(
        cuboid_from_fields(&[1, 0, 0, 0, 10, 20, 30]),
        Ok(Cuboid::new(1, 0, 0, 0, 10, 20, 30))
    );
    assert_eq!(cuboid_from_fields(&[1, 2, 3]), Err(RecordError::FieldCount(3)));
    assert_eq!(cuboid_from_fields(&[]), Err(RecordError::FieldCount(0)));
    assert_eq!(
        cuboid_from_fields(&[1, 0, 0, 9, 10, 20, 8]),
        Err(RecordError::InvertedCorners)
    );
}

#[test]
fn spatial_hash_of_touching_pair_is_one_cell() {
    let cuboids = vec![
        Cuboid::new(0, 0, 0, 0, 10, 10, 10),
        Cuboid::new(1, 10, 0, 0, 20, 10, 10),
    ];
    let hash = build_spatial_hash(&cuboids);
    assert_eq!(hash.len(), 1);
    assert_eq!(hash.get(&(0, 0, 0)), Some(&vec![0, 1]));
}

#[test]
fn union_of_joined_elements_changes_nothing() {
    let mut uf = UnionFind::new(4);
    uf.union(0, 1);
    let r = uf.find(0);
    uf.union(1, 0);
    uf.union(0, 1);
    assert_eq!(uf.find(0), r);
    assert_eq!(uf.find(1), r);
    assert_eq!(uf.find(2), 2);
    assert_eq!(uf.find(3), 3);
}

#[test]
fn union_keeps_root_of_higher_rank() {
    let mut uf = UnionFind::new(3);
    // A tie: the root of 1 is hung under 0, whose rank rises.
    uf.union(0, 1);
    assert_eq!(uf.find(1), 0);
    // 2 has the lower rank, so it goes under 0 whichever side it is on.
    uf.union(2, 0);
    assert_eq!(uf.find(2), 0);
    assert_eq!(uf.find(0), 0);
}
