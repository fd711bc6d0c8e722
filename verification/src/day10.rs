//! The pipe-maze puzzle: a grid of pipe pieces walked along connected
//! ends.  The movement rules — which neighbouring piece can be entered
//! from which direction, and where a piece leads next — live here.

use vstd::prelude::*;

verus! {

#[derive(Debug, Clone, Copy, PartialEq, Eq, Structural)]
pub enum Direction {
    Up,
    Down,
    Left,
    Right,
}

#[derive(Debug, Clone, Copy, PartialEq, Eq, Structural)]
pub enum Pipe {
    Empty,
    Start,
    Horizontal,
    Vertical,
    CornerTopRight,
    CornerTopLeft,
    CornerBottomRight,
    CornerBottomLeft,
    Outside,
}

/// Entering `pipe` while walking in direction `dir` is possible: the piece
/// has an opening facing the walker.
pub open spec fn connects(dir: Direction, pipe: Pipe) -> bool {
    ||| (dir == Direction::Up && pipe == Pipe::CornerBottomLeft)
    ||| (dir == Direction::Up && pipe == Pipe::CornerBottomRight)
    ||| (dir == Direction::Down && pipe == Pipe::CornerTopLeft)
    ||| (dir == Direction::Down && pipe == Pipe::CornerTopRight)
    ||| (dir == Direction::Left && pipe == Pipe::CornerTopRight)
    ||| (dir == Direction::Left && pipe == Pipe::CornerBottomRight)
    ||| (dir == Direction::Right && pipe == Pipe::CornerTopLeft)
    ||| (dir == Direction::Right && pipe == Pipe::CornerBottomLeft)
    ||| (dir == Direction::Up && pipe == Pipe::Vertical)
    ||| (dir == Direction::Down && pipe == Pipe::Vertical)
    ||| (dir == Direction::Left && pipe == Pipe::Horizontal)
    ||| (dir == Direction::Right && pipe == Pipe::Horizontal)
}

/// Walking in `dir`, the pipe piece turns the walker this way.
pub open spec fn spec_other_dir(pipe: Pipe, dir: Direction) -> Direction {
    match (pipe, dir) {
        (Pipe::CornerBottomLeft, Direction::Up) => Direction::Left,
        (Pipe::CornerBottomLeft, Direction::Right) => Direction::Down,
        (Pipe::CornerBottomRight, Direction::Up) => Direction::Right,
        (Pipe::CornerBottomRight, Direction::Left) => Direction::Down,
        (Pipe::CornerTopLeft, Direction::Down) => Direction::Left,
        (Pipe::CornerTopLeft, Direction::Right) => Direction::Up,
        (Pipe::CornerTopRight, Direction::Down) => Direction::Right,
        (Pipe::CornerTopRight, Direction::Left) => Direction::Up,
        (Pipe::Horizontal, Direction::Left) => Direction::Left,
        (Pipe::Horizontal, Direction::Right) => Direction::Right,
        (Pipe::Vertical, Direction::Up) => Direction::Up,
        (Pipe::Vertical, Direction::Down) => Direction::Down,
        _ => Direction::Up,
    }
}

impl Pipe {
    /// Where the piece sends a walker that entered it moving in `dir`.
    /// The piece must have an opening facing the walker.
    pub fn other_dir(&self, dir: Direction) -> (r: Direction)
        requires
            connects(dir, *self),
        ensures
            r == spec_other_dir(*self, dir),
    {
        match (self, dir) {
            (Pipe::CornerBottomLeft, Direction::Up) => Direction::Left,
            (Pipe::CornerBottomLeft, Direction::Right) => Direction::Down,
            (Pipe::CornerBottomRight, Direction::Up) => Direction::Right,
            (Pipe::CornerBottomRight, Direction::Left) => Direction::Down,
            (Pipe::CornerTopLeft, Direction::Down) => Direction::Left,
            (Pipe::CornerTopLeft, Direction::Right) => Direction::Up,
            (Pipe::CornerTopRight, Direction::Down) => Direction::Right,
            (Pipe::CornerTopRight, Direction::Left) => Direction::Up,
            (Pipe::Horizontal, Direction::Left) => Direction::Left,
            (Pipe::Horizontal, Direction::Right) => Direction::Right,
            (Pipe::Vertical, Direction::Up) => Direction::Up,
            (Pipe::Vertical, Direction::Down) => Direction::Down,
            _ => Direction::Up,
        }
    }
}

/// The maze: the grid of pieces and the start coordinate, row first.
#[derive(Debug)]
pub struct PipeGrid {
    pub map: Vec<Vec<Pipe>>,
    pub start: (usize, usize),
}

impl PipeGrid {
    /// Every row is as wide as the first.
    pub open spec fn rect(self) -> bool {
        forall|i: int|
            0 <= i < self.map@.len() ==> (#[trigger] self.map@[i])@.len() == self.map@[0]@.len()
    }

    pub open spec fn spec_pos_in_dir(self, pos: (usize, usize), dir: Direction) -> (int, int) {
        match dir {
            Direction::Up => (pos.0 - 1, pos.1 as int),
            Direction::Down => (pos.0 + 1, pos.1 as int),
            Direction::Left => (pos.0 as int, pos.1 - 1),
            Direction::Right => (pos.0 as int, pos.1 + 1),
        }
    }

    /// The neighbouring coordinate in the given direction.  Stepping off
    /// the grid's upper or left edge is excluded.
    pub fn pos_in_dir(&self, pos: (usize, usize), dir: Direction) -> (r: (usize, usize))
        requires
            dir == Direction::Up ==> pos.0 > 0,
            dir == Direction::Left ==> pos.1 > 0,
            dir == Direction::Down ==> pos.0 < usize::MAX,
            dir == Direction::Right ==> pos.1 < usize::MAX,
        ensures
            (r.0 as int, r.1 as int) == self.spec_pos_in_dir(pos, dir),
    {
        match dir {
            Direction::Up => (pos.0 - 1, pos.1),
            Direction::Down => (pos.0 + 1, pos.1),
            Direction::Left => (pos.0, pos.1 - 1),
            Direction::Right => (pos.0, pos.1 + 1),
        }
    }

    /// The step stays on the grid.
    pub open spec fn spec_pos_dir_possible(self, pos: (usize, usize), dir: Direction) -> bool {
        match dir {
            Direction::Up => pos.0 > 0,
            Direction::Down => pos.0 < self.map@.len() - 1,
            Direction::Left => pos.1 > 0,
            Direction::Right => pos.1 < self.map@[0]@.len() - 1,
        }
    }

    pub fn pos_dir_possible(&self, pos: (usize, usize), dir: Direction) -> (r: bool)
        requires
            self.map@.len() > 0,
            self.map@[0]@.len() > 0,
        ensures
            r == self.spec_pos_dir_possible(pos, dir),
    {
        match dir {
            Direction::Up => pos.0 > 0,
            Direction::Down => pos.0 < self.map.len() - 1,
            Direction::Left => pos.1 > 0,
            Direction::Right => pos.1 < self.map[0].len() - 1,
        }
    }

    /// The walker standing at `pos` can move one step in `dir`: the step
    /// stays on the grid and the piece there has a matching opening.
    pub fn can_move(&self, pos: (usize, usize), dir: Direction) -> (r: bool)
        requires
            self.rect(),
            self.map@.len() > 0,
            self.map@[0]@.len() > 0,
            pos.0 < self.map@.len(),
            pos.1 < self.map@[0]@.len(),
        ensures
            r == (self.spec_pos_dir_possible(pos, dir) && connects(
                dir,
                self.map@[self.spec_pos_in_dir(pos, dir).0]@[self.spec_pos_in_dir(pos, dir).1],
            )),
    {
        let height = self.map.len();
        let width = self.map[0].len();
        if !self.pos_dir_possible(pos, dir) {
            return false;
        }
        proof {
            assert(height == self.map@.len() && width == self.map@[0]@.len());
        }
        let next = self.pos_in_dir(pos, dir);
        let next_pipe = self.map[next.0][next.1];
        match next_pipe {
            Pipe::Empty => false,
            _ => match (dir, next_pipe) {
                (Direction::Up, Pipe::CornerBottomLeft) => true,
                (Direction::Up, Pipe::CornerBottomRight) => true,
                (Direction::Down, Pipe::CornerTopLeft) => true,
                (Direction::Down, Pipe::CornerTopRight) => true,
                (Direction::Left, Pipe::CornerTopRight) => true,
                (Direction::Left, Pipe::CornerBottomRight) => true,
                (Direction::Right, Pipe::CornerTopLeft) => true,
                (Direction::Right, Pipe::CornerBottomLeft) => true,
                (Direction::Up, Pipe::Vertical) => true,
                (Direction::Down, Pipe::Vertical) => true,
                (Direction::Left, Pipe::Horizontal) => true,
                (Direction::Right, Pipe::Horizontal) => true,
                _ => false,
            },
        }
    }
}

} // verus!
