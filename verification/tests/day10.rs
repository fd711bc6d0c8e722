use rustvent::day10::{Direction, Pipe, PipeGrid};

fn parse_grid(rows: &[&str]) -> PipeGrid {
    let mut start = (0, 0);
    let map = rows
        .iter()
        .enumerate()
        .map(|(row, l)| {
            l.chars()
                .enumerate()
                .map(|(col, c)| match c {
                    'S' => {
                        start = (row, col);
                        Pipe::Start
                    },
                    '-' => Pipe::Horizontal,
                    '|' => Pipe::Vertical,
                    'L' => Pipe::CornerTopRight,
                    'J' => Pipe::CornerTopLeft,
                    'F' => Pipe::CornerBottomRight,
                    '7' => Pipe::CornerBottomLeft,
                    _ => Pipe::Empty,
                })
                .collect()
        })
        .collect();
    PipeGrid { map, start }
}

#[test]
fn day10_other_dir_turns() {
    assert_eq!(Pipe::CornerBottomLeft.other_dir(Direction::Up), Direction::Left);
    assert_eq!(Pipe::CornerBottomLeft.other_dir(Direction::Right), Direction::Down);
    assert_eq!(Pipe::CornerTopRight.other_dir(Direction::Down), Direction::Right);
    assert_eq!(Pipe::Horizontal.other_dir(Direction::Left), Direction::Left);
    assert_eq!(Pipe::Vertical.other_dir(Direction::Down), Direction::Down);
}

#[test]
fn day10_pos_in_dir() {
    let g = parse_grid(&["S-7", "|.|", "L-J"]);
    assert_eq!(g.pos_in_dir((1, 1), Direction::Up), (0, 1));
    assert_eq!(g.pos_in_dir((1, 1), Direction::Down), (2, 1));
    assert_eq!(g.pos_in_dir((1, 1), Direction::Left), (1, 0));
    assert_eq!(g.pos_in_dir((1, 1), Direction::Right), (1, 2));
}

#[test]
fn day10_pos_dir_possible_at_edges() {
    let g = parse_grid(&["S-7", "|.|", "L-J"]);
    assert!(!g.pos_dir_possible((0, 0), Direction::Up));
    assert!(!g.pos_dir_possible((0, 0), Direction::Left));
    assert!(g.pos_dir_possible((0, 0), Direction::Down));
    assert!(g.pos_dir_possible((0, 0), Direction::Right));
    assert!(!g.pos_dir_possible((2, 2), Direction::Down));
    assert!(!g.pos_dir_possible((2, 2), Direction::Right));
}

#[test]
fn day10_can_move_follows_openings() {
    let g = parse_grid(&["S-7", "|.|", "L-J"]);
    // from the start corner: down into a vertical pipe, right into a horizontal one
    assert!(g.can_move((0, 0), Direction::Down));
    assert!(g.can_move((0, 0), Direction::Right));
    // the center is empty: nothing connects into it
    assert!(!g.can_move((0, 1), Direction::Down));
    // the top-right corner piece opens downward
    assert!(g.can_move((1, 2), Direction::Up));
}
