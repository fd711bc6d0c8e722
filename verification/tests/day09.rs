use rustvent::day09::PredictionTree;

#[test]
fn day09_constant_sequence_extends_by_itself() {
    let t = PredictionTree::new(vec![3, 3, 3]);
    assert_eq!(t.get_prediction(), 3);
    assert_eq!(t.get_postdiction(), 3);
}

#[test]
fn day09_arithmetic_sequence() {
    let t = PredictionTree::new(vec![0, 3, 6, 9, 12, 15]);
    assert_eq!(t.get_prediction(), 18);
    assert_eq!(t.get_postdiction(), -3);
}

#[test]
fn day09_second_example_row() {
    let t = PredictionTree::new(vec![1, 3, 6, 10, 15, 21]);
    assert_eq!(t.get_prediction(), 28);
    assert_eq!(t.get_postdiction(), 0);
}

#[test]
fn day09_third_example_row() {
    let t = PredictionTree::new(vec![10, 13, 16, 21, 30, 45]);
    assert_eq!(t.get_prediction(), 68);
    assert_eq!(t.get_postdiction(), 5);
}

#[test]
fn day09_single_value() {
    let t = PredictionTree::new(vec![42]);
    assert_eq!(t.get_prediction(), 42);
    assert_eq!(t.get_postdiction(), 42);
}

#[test]
fn day09_negative_steps() {
    let t = PredictionTree::new(vec![10, 5, 0, -5]);
    assert_eq!(t.get_prediction(), -10);
    assert_eq!(t.get_postdiction(), 15);
}
