//! The hiking-trails puzzle: a walk over a grid of paths, forests and
//! one-way slopes, never visiting a tile twice.  The visited tiles are kept
//! as a list that mirrors the path exactly.

use vstd::prelude::*;

verus! {

#[derive(Debug, PartialEq, Eq, Structural, Hash, Copy, Clone)]
pub struct Position {
    pub x: usize,
    pub y: usize,
}

#[derive(Debug, PartialEq, Eq, Structural, Hash, Copy, Clone)]
pub enum Direction {
    Up,
    Down,
    Left,
    Right,
}

#[derive(Debug, PartialEq, Eq, Structural, Hash, Copy, Clone)]
pub enum Tile {
    Path,
    Forest,
    Slope(Direction),
}

/// The grid of tiles, indexed row first.
#[derive(Debug)]
pub struct Trails {
    pub tiles: Vec<Vec<Tile>>,
}

impl Trails {
    pub open spec fn spec_get(self, x: int, y: int) -> Option<Tile> {
        if 0 <= y < self.tiles@.len() && 0 <= x < self.tiles@[y].len() {
            Some(self.tiles@[y][x])
        } else {
            None
        }
    }

    fn get(&self, x: usize, y: usize) -> (r: Option<Tile>)
        ensures
            r == self.spec_get(x as int, y as int),
    {
        if y < self.tiles.len() && x < self.tiles[y].len() {
            Some(self.tiles[y][x])
        } else {
            None
        }
    }
}

/// A walk in progress: the tiles in the order they were entered, and the
/// same tiles again as the visited list.
#[derive(Debug, PartialEq, Eq, Clone)]
pub struct Path {
    pub visited: Vec<Position>,
    pub path: Vec<Position>,
}

impl Path {
    /// The visited list mirrors the path, which is never empty.
    pub open spec fn wf(self) -> bool {
        &&& self.path@.len() >= 1
        &&& self.visited@ == self.path@
    }

    pub open spec fn spec_current(self) -> Position {
        self.path@.last()
    }

    /// Where one step in the given direction leads, `None` at the grid's
    /// upper or left edge.  (Steps down or right past `usize` are excluded
    /// by the callers' preconditions.)
    pub open spec fn spec_pos_in_direction(self, direction: Direction) -> Option<Position> {
        let cur = self.spec_current();
        match direction {
            Direction::Up => if cur.y > 0 {
                Some(Position { x: cur.x, y: (cur.y - 1) as usize })
            } else {
                None
            },
            Direction::Down => Some(Position { x: cur.x, y: (cur.y + 1) as usize }),
            Direction::Left => if cur.x > 0 {
                Some(Position { x: (cur.x - 1) as usize, y: cur.y })
            } else {
                None
            },
            Direction::Right => Some(Position { x: (cur.x + 1) as usize, y: cur.y }),
        }
    }

    /// A step this way stays on the grid's walkable part: it leads
    /// somewhere, to a tile not yet visited and not a forest.
    pub open spec fn spec_dir_ok(self, map: Trails, direction: Direction) -> bool {
        &&& self.spec_pos_in_direction(direction) is Some
        &&& !self.visited@.contains(self.spec_pos_in_direction(direction)->0)
        &&& !(map.spec_get(
            self.spec_pos_in_direction(direction)->0.x as int,
            self.spec_pos_in_direction(direction)->0.y as int,
        ) == Some(Tile::Forest))
    }

    /// The tile one step away is a slope pointing another way.
    pub open spec fn spec_slope_blocked(self, map: Trails, direction: Direction) -> bool {
        match map.spec_get(
            self.spec_pos_in_direction(direction)->0.x as int,
            self.spec_pos_in_direction(direction)->0.y as int,
        ) {
            Some(Tile::Slope(d)) => d != direction,
            _ => false,
        }
    }

    /// The possible next steps, in the fixed order up, down, left, right.
    pub open spec fn spec_possible(self, map: Trails) -> Seq<Direction> {
        (if self.spec_dir_ok(map, Direction::Up) {
            seq![Direction::Up]
        } else {
            Seq::empty()
        }) + (if self.spec_dir_ok(map, Direction::Down) {
            seq![Direction::Down]
        } else {
            Seq::empty()
        }) + (if self.spec_dir_ok(map, Direction::Left) {
            seq![Direction::Left]
        } else {
            Seq::empty()
        }) + (if self.spec_dir_ok(map, Direction::Right) {
            seq![Direction::Right]
        } else {
            Seq::empty()
        })
    }

    /// As `spec_possible`, with steps onto adverse slopes dropped.
    pub open spec fn spec_possible_unblocked(self, map: Trails) -> Seq<Direction> {
        (if self.spec_dir_ok(map, Direction::Up) && !self.spec_slope_blocked(map, Direction::Up) {
            seq![Direction::Up]
        } else {
            Seq::empty()
        }) + (if self.spec_dir_ok(map, Direction::Down) && !self.spec_slope_blocked(
            map,
            Direction::Down,
        ) {
            seq![Direction::Down]
        } else {
            Seq::empty()
        }) + (if self.spec_dir_ok(map, Direction::Left) && !self.spec_slope_blocked(
            map,
            Direction::Left,
        ) {
            seq![Direction::Left]
        } else {
            Seq::empty()
        }) + (if self.spec_dir_ok(map, Direction::Right) && !self.spec_slope_blocked(
            map,
            Direction::Right,
        ) {
            seq![Direction::Right]
        } else {
            Seq::empty()
        })
    }

    pub fn new(start: Position) -> (r: Path)
        ensures
            r.path@ == seq![start],
            r.visited@ == seq![start],
            r.wf(),
    {
        let mut visited: Vec<Position> = Vec::new();
        visited.push(start);
        let mut path: Vec<Position> = Vec::new();
        path.push(start);
        proof {
            assert(visited@ =~= seq![start]);
            assert(path@ =~= seq![start]);
        }
        Path { visited, path }
    }

    pub fn len(&self) -> (r: usize)
        ensures
            r == self.path@.len(),
    {
        self.path.len()
    }

    pub fn current_position(&self) -> (r: Position)
        requires
            self.path@.len() >= 1,
        ensures
            r == self.spec_current(),
    {
        self.path[self.path.len() - 1]
    }

    pub fn is_visited(&self, position: Position) -> (r: bool)
        ensures
            r == self.visited@.contains(position),
    {
        let n = self.visited.len();
        let mut i: usize = 0;
        while i < n
            invariant
                n == self.visited@.len(),
                0 <= i <= n,
                forall|j: int| 0 <= j < i ==> self.visited@[j] != position,
            decreases n - i,
        {
            if self.visited[i] == position {
                return true;
            }
            i = i + 1;
        }
        proof {
            if self.visited@.contains(position) {
                let j = choose|j: int|
                    0 <= j < self.visited@.len() && self.visited@[j] == position;
                assert(false);
            }
        }
        false
    }

    fn pos_in_direction(&self, direction: Direction) -> (r: Option<Position>)
        requires
            self.path@.len() >= 1,
            self.spec_current().x < usize::MAX,
            self.spec_current().y < usize::MAX,
        ensures
            r == self.spec_pos_in_direction(direction),
    {
        let cur = self.current_position();
        match direction {
            Direction::Up => if cur.y > 0 {
                Some(Position { x: cur.x, y: cur.y - 1 })
            } else {
                None
            },
            Direction::Down => Some(Position { x: cur.x, y: cur.y + 1 }),
            Direction::Left => if cur.x > 0 {
                Some(Position { x: cur.x - 1, y: cur.y })
            } else {
                None
            },
            Direction::Right => Some(Position { x: cur.x + 1, y: cur.y }),
        }
    }

    fn is_slope_blocked(&self, direction: Direction, map: &Trails) -> (r: bool)
        requires
            self.path@.len() >= 1,
            self.spec_current().x < usize::MAX,
            self.spec_current().y < usize::MAX,
            self.spec_pos_in_direction(direction) is Some,
            map.spec_get(
                self.spec_pos_in_direction(direction)->0.x as int,
                self.spec_pos_in_direction(direction)->0.y as int,
            ) is Some,
        ensures
            r == self.spec_slope_blocked(*map, direction),
    {
        let next_position = self.pos_in_direction(direction).unwrap();
        let current_tile = map.get(next_position.x, next_position.y).unwrap();
        if let Tile::Slope(dir) = current_tile {
            dir != direction
        } else {
            false
        }
    }

    fn dir_ok(&self, map: &Trails, direction: Direction) -> (r: bool)
        requires
            self.path@.len() >= 1,
            self.spec_current().x < usize::MAX,
            self.spec_current().y < usize::MAX,
        ensures
            r == self.spec_dir_ok(*map, direction),
    {
        match self.pos_in_direction(direction) {
            None => false,
            Some(p) => !self.is_visited(p) && !matches!(map.get(p.x, p.y), Some(Tile::Forest)),
        }
    }

    /// The possible next steps, in the fixed order up, down, left, right.
    pub fn possible_directions(&self, map: &Trails) -> (r: Vec<Direction>)
        requires
            self.path@.len() >= 1,
            self.spec_current().x < usize::MAX,
            self.spec_current().y < usize::MAX,
        ensures
            r@ == self.spec_possible(*map),
    {
        let mut r: Vec<Direction> = Vec::new();
        if self.dir_ok(map, Direction::Up) {
            r.push(Direction::Up);
        }
        if self.dir_ok(map, Direction::Down) {
            r.push(Direction::Down);
        }
        if self.dir_ok(map, Direction::Left) {
            r.push(Direction::Left);
        }
        if self.dir_ok(map, Direction::Right) {
            r.push(Direction::Right);
        }
        proof {
            assert(r@ =~= self.spec_possible(*map));
        }
        r
    }

    /// The possible next steps when slopes must be followed: standing on a
    /// slope forces its direction — unless the tile to the right was
    /// already visited, a quirk of the lookup — and steps onto adverse
    /// slopes are dropped.  Every reachable neighbour must lie on the
    /// grid.
    pub fn possible_directions_block_slopes(&self, map: &Trails) -> (r: Vec<Direction>)
        requires
            self.path@.len() >= 1,
            self.spec_current().x < usize::MAX,
            self.spec_current().y < usize::MAX,
            map.spec_get(self.spec_current().x as int, self.spec_current().y as int) is Some,
            forall|d: Direction|
                self.spec_dir_ok(*map, d) ==> map.spec_get(
                    (#[trigger] self.spec_pos_in_direction(d))->0.x as int,
                    self.spec_pos_in_direction(d)->0.y as int,
                ) is Some,
        ensures
            ({
                let cur_tile = map.spec_get(
                    self.spec_current().x as int,
                    self.spec_current().y as int,
                )->0;
                match cur_tile {
                    Tile::Slope(d) => if self.visited@.contains(
                        Position {
                            x: (self.spec_current().x + 1) as usize,
                            y: self.spec_current().y,
                        },
                    ) {
                        r@ == Seq::<Direction>::empty()
                    } else {
                        r@ == seq![d]
                    },
                    _ => r@ == self.spec_possible_unblocked(*map),
                }
            }),
    {
        let current_position = self.current_position();
        let current_tile = map.get(current_position.x, current_position.y).unwrap();
        if let Tile::Slope(direction) = current_tile {
            if self.is_visited(Position { x: current_position.x + 1, y: current_position.y }) {
                let r: Vec<Direction> = Vec::new();
                proof {
                    assert(r@ =~= Seq::<Direction>::empty());
                }
                return r;
            } else {
                let mut r: Vec<Direction> = Vec::new();
                r.push(direction);
                proof {
                    assert(r@ =~= seq![direction]);
                }
                return r;
            }
        }
        let mut r: Vec<Direction> = Vec::new();
        if self.dir_ok(map, Direction::Up) && !self.is_slope_blocked(Direction::Up, map) {
            r.push(Direction::Up);
        }
        if self.dir_ok(map, Direction::Down) && !self.is_slope_blocked(Direction::Down, map) {
            r.push(Direction::Down);
        }
        if self.dir_ok(map, Direction::Left) && !self.is_slope_blocked(Direction::Left, map) {
            r.push(Direction::Left);
        }
        if self.dir_ok(map, Direction::Right) && !self.is_slope_blocked(Direction::Right, map) {
            r.push(Direction::Right);
        }
        proof {
            assert(r@ =~= self.spec_possible_unblocked(*map));
        }
        r
    }

    /// Take one step in the given direction, extending both the path and
    /// the visited list.  The step must stay within coordinate bounds.
    pub fn move_to(&mut self, direction: Direction)
        requires
            old(self).path@.len() >= 1,
            direction == Direction::Up ==> old(self).spec_current().y > 0,
            direction == Direction::Left ==> old(self).spec_current().x > 0,
            direction == Direction::Down ==> old(self).spec_current().y < usize::MAX,
            direction == Direction::Right ==> old(self).spec_current().x < usize::MAX,
        ensures
            final(self).path@ == old(self).path@.push(
                old(self).spec_pos_in_direction(direction)->0,
            ),
            final(self).visited@ == old(self).visited@.push(
                old(self).spec_pos_in_direction(direction)->0,
            ),
    {
        let current_position = self.current_position();
        let new_position = match direction {
            Direction::Up => Position { x: current_position.x, y: current_position.y - 1 },
            Direction::Down => Position { x: current_position.x, y: current_position.y + 1 },
            Direction::Left => Position { x: current_position.x - 1, y: current_position.y },
            Direction::Right => Position { x: current_position.x + 1, y: current_position.y },
        };
        self.visited.push(new_position);
        self.path.push(new_position);
    }
}

} // verus!
