use rustvent::day22::{Brick, HeightEntry, Position};

fn brick(start: (u64, u64, u64), end: (u64, u64, u64), id: usize) -> Brick {
    Brick {
        start: Position { x: start.0, y: start.1, z: start.2 },
        end: Position { x: end.0, y: end.1, z: end.2 },
        id: Some(id),
        supported_by: vec![],
        supporting: vec![],
    }
}

#[test]
fn day22_extent_getters() {
    let b = brick((2, 5, 9), (0, 3, 9), 0);
    assert_eq!(b.min_x(), 0);
    assert_eq!(b.max_x(), 2);
    assert_eq!(b.min_y(), 3);
    assert_eq!(b.max_y(), 5);
    assert_eq!(b.min_z(), 9);
    assert_eq!(b.max_z(), 9);
}

#[test]
fn day22_ground_lands_on_floor() {
    let mut map: Vec<HeightEntry> = vec![];
    let mut b = brick((1, 0, 5), (1, 2, 6), 0);
    b.ground(&mut map);
    assert_eq!(b.start.z, 1);
    assert_eq!(b.end.z, 2);
    assert!(b.supported_by.is_empty());
    // the map now records the brick's top over its footprint
    assert!(map.contains(&((1, 0), (2, Some(0)))));
    assert!(map.contains(&((1, 1), (2, Some(0)))));
    assert!(map.contains(&((1, 2), (2, Some(0)))));
}

#[test]
fn day22_ground_stacks_on_support() {
    let mut map: Vec<HeightEntry> = vec![];
    let mut a = brick((0, 0, 1), (2, 0, 1), 0);
    a.ground(&mut map);
    let mut b = brick((1, 0, 7), (1, 0, 8), 1);
    b.ground(&mut map);
    assert_eq!(b.start.z, 2);
    assert_eq!(b.end.z, 3);
    assert_eq!(b.supported_by, vec![0]);
}

#[test]
fn day22_ground_collects_all_supports() {
    let mut map: Vec<HeightEntry> = vec![];
    let mut a = brick((0, 0, 1), (0, 0, 1), 0);
    a.ground(&mut map);
    let mut b = brick((2, 0, 1), (2, 0, 1), 1);
    b.ground(&mut map);
    // a bar resting on both pillars
    let mut c = brick((0, 0, 9), (2, 0, 9), 2);
    c.ground(&mut map);
    assert_eq!(c.start.z, 2);
    let mut supports = c.supported_by.clone();
    supports.sort();
    assert_eq!(supports, vec![0, 1]);
}

#[test]
fn day22_could_be_desintegrated() {
    let mut lone_support = brick((0, 0, 1), (0, 0, 1), 0);
    lone_support.supporting = vec![1];
    let mut upper = brick((0, 0, 2), (0, 0, 2), 1);
    upper.supported_by = vec![0];
    let bricks = vec![
        brick((0, 0, 1), (0, 0, 1), 0),
        upper,
    ];
    // brick 1 rests on brick 0 alone: removing 0 would drop it
    assert!(!lone_support.could_be_desintegrated(&bricks));
    // a brick supporting nothing can always go
    let idle = brick((5, 5, 1), (5, 5, 1), 2);
    assert!(idle.could_be_desintegrated(&bricks));
}
