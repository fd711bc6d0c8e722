use rustvent::day23::{Direction, Path, Position, Tile, Trails};

fn parse_trails(rows: &[&str]) -> Trails {
    Trails {
        tiles: rows
            .iter()
            .map(|r| {
                r.chars()
                    .map(|c| match c {
                        '.' => Tile::Path,
                        '#' => Tile::Forest,
                        '^' => Tile::Slope(Direction::Up),
                        'v' => Tile::Slope(Direction::Down),
                        '<' => Tile::Slope(Direction::Left),
                        _ => Tile::Slope(Direction::Right),
                    })
                    .collect()
            })
            .collect(),
    }
}

#[test]
fn day23_new_path_starts_at_start() {
    let p = Path::new(Position { x: 1, y: 0 });
    assert_eq!(p.len(), 1);
    assert_eq!(p.current_position(), Position { x: 1, y: 0 });
    assert!(p.is_visited(Position { x: 1, y: 0 }));
    assert!(!p.is_visited(Position { x: 1, y: 1 }));
}

#[test]
fn day23_move_extends_path() {
    let mut p = Path::new(Position { x: 1, y: 0 });
    p.move_to(Direction::Down);
    assert_eq!(p.len(), 2);
    assert_eq!(p.current_position(), Position { x: 1, y: 1 });
    assert!(p.is_visited(Position { x: 1, y: 1 }));
    p.move_to(Direction::Right);
    assert_eq!(p.current_position(), Position { x: 2, y: 1 });
}

#[test]
fn day23_possible_directions_avoid_forest_and_visited() {
    let map = parse_trails(&[
        "#.#",
        "...",
        "#.#",
    ]);
    let mut p = Path::new(Position { x: 1, y: 0 });
    p.move_to(Direction::Down);
    // from the center: up is visited, left and right open, down open
    let dirs = p.possible_directions(&map);
    assert_eq!(dirs, vec![Direction::Down, Direction::Left, Direction::Right]);
}

#[test]
fn day23_slopes_block_opposing_steps() {
    let map = parse_trails(&[
        "###",
        "#.#",
        "#^#",
        "#.#",
        "###",
    ]);
    let mut p = Path::new(Position { x: 1, y: 3 });
    // the tile above is an up-slope: walking up onto it is allowed
    let dirs = p.possible_directions_block_slopes(&map);
    assert_eq!(dirs, vec![Direction::Up]);
    p.move_to(Direction::Up);
    // standing on the up-slope forces up
    let dirs2 = p.possible_directions_block_slopes(&map);
    assert_eq!(dirs2, vec![Direction::Up]);
}

#[test]
fn day23_down_slope_blocks_upward_entry() {
    let map = parse_trails(&[
        "###",
        "#.#",
        "#v#",
        "#.#",
        "###",
    ]);
    let p = Path::new(Position { x: 1, y: 3 });
    // the tile above is a down-slope: entering it from below is blocked
    let dirs = p.possible_directions_block_slopes(&map);
    assert_eq!(dirs, vec![]);
    // without the slope rule the step is fine
    assert_eq!(p.possible_directions(&map), vec![Direction::Up]);
}
