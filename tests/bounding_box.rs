use cuboid_groups::bounding_box::compute;
use cuboid_groups::types::{BoundingRecord, Cuboid, Tag};

fn as_array(r: &BoundingRecord) -> [f64; 7] {
    let tag = match r.tag {
        Tag::Scene => -1.0,
        Tag::Group(g) => g as f64,
    };
    [
        tag,
        r.double_cx as f64 / 2.0,
        r.double_cy as f64 / 2.0,
        r.double_cz as f64 / 2.0,
        r.width as f64,
        r.height as f64,
        r.depth as f64,
    ]
}

#[test]
fn test_single_cuboid() {
    let cuboids = vec![Cuboid::new(0, 0, 0, 0, 10, 20, 30)];
    let result = compute(&cuboids);
    assert_eq!(as_array(&result), [-1.0, 5.0, 10.0, 15.0, 10.0, 20.0, 30.0]);
}

#[test]
fn test_multiple_cuboids() {
    let cuboids = vec![
        Cuboid::new(0, 0, 0, 0, 5, 5, 5),
        Cuboid::new(1, 10, 10, 10, 20, 20, 20),
    ];
    let result = compute(&cuboids);
    assert_eq!(as_array(&result), [-1.0, 10.0, 10.0, 10.0, 20.0, 20.0, 20.0]);
}

#[test]
fn test_empty() {
    let cuboids: Vec<Cuboid> = vec![];
    let result = compute(&cuboids);
    assert_eq!(as_array(&result)[0], -1.0);
}

#[test]
fn empty_scene_is_zero_record() {
    let cuboids: Vec<Cuboid> = vec![];
    assert_eq!(as_array(&compute(&cuboids)), [-1.0, 0.0, 0.0, 0.0, 0.0, 0.0, 0.0]);
}

#[test]
fn scene_box_of_touching_pair() {
    let cuboids = vec![
        Cuboid::new(0, 0, 0, 0, 10, 10, 10),
        Cuboid::new(1, 10, 0, 0, 20, 10, 10),
    ];
    assert_eq!(as_array(&compute(&cuboids)), [-1.0, 10.0, 5.0, 5.0, 20.0, 10.0, 10.0]);
}

#[test]
fn scene_box_odd_extent_has_half_centre() {
    let cuboids = vec![Cuboid::new(3, 1, 2, 3, 4, 4, 4)];
    let r = compute(&cuboids);
    assert_eq!(as_array(&r), [-1.0, 2.5, 3.0, 3.5, 3.0, 2.0, 1.0]);
}

#[test]
fn scene_box_of_largest_coordinates() {
    let cuboids = vec![Cuboid::new(0, 0, 0, 0, 65535, 65535, 65535)];
    let r = compute(&cuboids);
    assert_eq!(r.width, 65535);
    assert_eq!(r.double_cx, 65535);
}
