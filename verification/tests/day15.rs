use rustvent::day15::{xmas_hash, Lens, LensBox, Operation};

#[test]
fn day15_hash_of_hash() {
    assert_eq!(xmas_hash("HASH"), 52);
}

#[test]
fn day15_hash_of_example_steps() {
    assert_eq!(xmas_hash("rn=1"), 30);
    assert_eq!(xmas_hash("cm-"), 253);
    assert_eq!(xmas_hash("qp=3"), 97);
    assert_eq!(xmas_hash("rn"), 0);
    assert_eq!(xmas_hash("qp"), 1);
    assert_eq!(xmas_hash(""), 0);
}

fn lens(label: &str, f: usize) -> Lens {
    Lens { label: label.to_string(), focal_length: f }
}

#[test]
fn day15_operation_label_and_box() {
    let op = Operation::Remove("cm".to_string());
    assert_eq!(op.label(), "cm");
    assert_eq!(op.box_number(), 0);
    let op2 = Operation::Insert("qp".to_string(), lens("qp", 3));
    assert_eq!(op2.label(), "qp");
    assert_eq!(op2.box_number(), 1);
}

#[test]
fn day15_apply_insert_and_replace() {
    let mut b = LensBox { lenses: vec![] };
    b.apply(Operation::Insert("rn".to_string(), lens("rn", 1)));
    b.apply(Operation::Insert("cm".to_string(), lens("cm", 2)));
    assert_eq!(b.lenses.len(), 2);
    assert_eq!(b.lenses[0].label, "rn");
    assert_eq!(b.lenses[0].focal_length, 1);
    // replacing keeps the slot
    b.apply(Operation::Insert("rn".to_string(), lens("rn", 9)));
    assert_eq!(b.lenses.len(), 2);
    assert_eq!(b.lenses[0].label, "rn");
    assert_eq!(b.lenses[0].focal_length, 9);
    assert_eq!(b.lenses[1].label, "cm");
}

#[test]
fn day15_apply_remove() {
    let mut b = LensBox { lenses: vec![lens("rn", 1), lens("cm", 2)] };
    b.apply(Operation::Remove("rn".to_string()));
    assert_eq!(b.lenses.len(), 1);
    assert_eq!(b.lenses[0].label, "cm");
    // removing an absent label does nothing
    b.apply(Operation::Remove("xy".to_string()));
    assert_eq!(b.lenses.len(), 1);
}

#[test]
fn day15_focusing_power() {
    // box 0 of the example ends with rn 1, cm 2: 1*1 + 2*2 = 5
    let b = LensBox { lenses: vec![lens("rn", 1), lens("cm", 2)] };
    assert_eq!(b.focusing_power(), 5);
    // box 3 ends with ot 7, ab 5, pc 6: 1*7 + 2*5 + 3*6 = 35
    let b3 = LensBox { lenses: vec![lens("ot", 7), lens("ab", 5), lens("pc", 6)] };
    assert_eq!(b3.focusing_power(), 35);
}

#[test]
fn day15_empty_box_has_no_power() {
    let b = LensBox { lenses: vec![] };
    assert_eq!(b.focusing_power(), 0);
}
