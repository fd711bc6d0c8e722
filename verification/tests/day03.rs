use rustvent::day03::{Marker, Part, Plan};

fn part(id: usize, row: usize, col: usize, length: usize) -> Part {
    Part { id, row, col, length }
}

/// The well-known example schematic.
fn example_plan() -> Plan {
    let parts = vec![
        part(467, 0, 0, 3),
        part(114, 0, 5, 3),
        part(35, 2, 2, 2),
        part(633, 2, 6, 3),
        part(617, 4, 0, 3),
        part(58, 5, 7, 2),
        part(592, 6, 2, 3),
        part(755, 7, 6, 3),
        part(664, 9, 1, 3),
        part(598, 9, 5, 3),
    ];
    let markers: Vec<Marker> = vec![
        ('*', 1, 3),
        ('#', 3, 6),
        ('*', 4, 3),
        ('+', 5, 5),
        ('$', 8, 3),
        ('*', 8, 5),
    ];
    Plan { parts, markers }
}

#[test]
fn day03_related_markers_of_touching_part() {
    let plan = example_plan();
    assert_eq!(plan.related_markers(&part(467, 0, 0, 3)), vec![('*', 1, 3)]);
    assert_eq!(plan.related_markers(&part(592, 6, 2, 3)), vec![('+', 5, 5)]);
}

#[test]
fn day03_isolated_parts_have_no_markers() {
    let plan = example_plan();
    assert_eq!(plan.related_markers(&part(114, 0, 5, 3)), vec![]);
    assert_eq!(plan.related_markers(&part(58, 5, 7, 2)), vec![]);
}

#[test]
fn day03_gears_pair_exactly_two_parts() {
    let plan = example_plan();
    let gears = plan.get_gears();
    assert_eq!(gears.len(), 2);
    assert_eq!(gears[0].0.id * gears[0].1.id, 16345);
    assert_eq!(gears[1].0.id * gears[1].1.id, 451490);
    let total: usize = gears.iter().map(|(a, b)| a.id * b.id).sum();
    assert_eq!(total, 467835);
}
