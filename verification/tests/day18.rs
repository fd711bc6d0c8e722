use rustvent::day18::{Direction, Instruction};

#[test]
fn day18_parse_plain_line() {
    let i = Instruction::parse_part1("R 6 (#70c710)");
    assert_eq!(i.direction, Direction::Right);
    assert_eq!(i.distance, 6);
    let i2 = Instruction::parse_part1("U 2 (#caa173)");
    assert_eq!(i2.direction, Direction::Up);
    assert_eq!(i2.distance, 2);
}

#[test]
fn day18_parse_plain_line_with_extra_blanks() {
    let i = Instruction::parse_part1("  D   527  ");
    assert_eq!(i.direction, Direction::Down);
    assert_eq!(i.distance, 527);
}

#[test]
fn day18_parse_colour_code() {
    let i = Instruction::parse_part2("R 6 (#70c710)");
    assert_eq!(i.direction, Direction::Right);
    assert_eq!(i.distance, 461937);
    let i2 = Instruction::parse_part2("D 2 (#d2c081)");
    assert_eq!(i2.direction, Direction::Down);
    assert_eq!(i2.distance, 863240);
    let i3 = Instruction::parse_part2("U 2 (#7a21e3)");
    assert_eq!(i3.direction, Direction::Up);
    assert_eq!(i3.distance, 500254);
}
