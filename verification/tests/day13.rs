use rustvent::day13::{Cell, Pattern};

fn parse_pattern(rows: &[&str]) -> Pattern {
    Pattern {
        cells: rows
            .iter()
            .map(|r| {
                r.chars()
                    .map(|c| if c == '#' { Cell::Rock } else { Cell::Ash })
                    .collect()
            })
            .collect(),
        ignore_row_mirror: None,
        ignore_col_mirror: None,
    }
}

fn first_example() -> Pattern {
    parse_pattern(&[
        "#.##..##.",
        "..#.##.#.",
        "##......#",
        "##......#",
        "..#.##.#.",
        "..##..##.",
        "#.#.##.#.",
    ])
}

fn second_example() -> Pattern {
    parse_pattern(&[
        "#...##..#",
        "#....#..#",
        "..##..###",
        "#####.##.",
        "#####.##.",
        "..##..###",
        "#....#..#",
    ])
}

#[test]
fn day13_vertical_mirror() {
    let p = first_example();
    assert_eq!(p.rows_above_mirror(), 0);
    assert_eq!(p.cols_left_of_mirror(), 5);
    assert_eq!(p.get_summary(), 5);
}

#[test]
fn day13_horizontal_mirror() {
    let p = second_example();
    assert_eq!(p.rows_above_mirror(), 4);
    assert_eq!(p.cols_left_of_mirror(), 0);
    assert_eq!(p.get_summary(), 400);
}

#[test]
fn day13_unsmudge_first_example() {
    let p = first_example();
    let fixed = p.unsmudge();
    assert_eq!(fixed.ignore_row_mirror, Some(0));
    assert_eq!(fixed.ignore_col_mirror, Some(5));
    assert_eq!(fixed.get_summary(), 300);
}

#[test]
fn day13_unsmudge_second_example() {
    let p = second_example();
    let fixed = p.unsmudge();
    assert_eq!(fixed.get_summary(), 100);
}

#[test]
fn day13_cell_flip() {
    let mut c = Cell::Ash;
    c.flip();
    assert_eq!(c, Cell::Rock);
    c.flip();
    assert_eq!(c, Cell::Ash);
}

#[test]
fn day13_empty_pattern_has_no_mirrors() {
    let p = parse_pattern(&[]);
    assert_eq!(p.rows_above_mirror(), 0);
    assert_eq!(p.cols_left_of_mirror(), 0);
}
