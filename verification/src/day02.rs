//! The cube game puzzle: each game shows a list of draws of red, green and
//! blue cubes; a game is possible under a given bag if no draw exceeds it,
//! and its power is the product of the per-colour maxima over its draws.

use vstd::prelude::*;

verus! {

/// One game: its id and the (red, green, blue) counts of each draw.
#[derive(Debug)]
pub struct Game {
    pub id: u64,
    pub draws: Vec<(u64, u64, u64)>,
}

/// The draw does not exceed the bag in any colour.
pub open spec fn draw_within(draw: (u64, u64, u64), max: (u64, u64, u64)) -> bool {
    draw.0 <= max.0 && draw.1 <= max.1 && draw.2 <= max.2
}

/// The largest red count among the draws, 0 with no draws.
pub open spec fn max_red(s: Seq<(u64, u64, u64)>) -> int
    decreases s.len(),
{
    if s.len() == 0 {
        0
    } else {
        let m = max_red(s.drop_last());
        if s.last().0 > m {
            s.last().0 as int
        } else {
            m
        }
    }
}

/// The largest green count among the draws, 0 with no draws.
pub open spec fn max_green(s: Seq<(u64, u64, u64)>) -> int
    decreases s.len(),
{
    if s.len() == 0 {
        0
    } else {
        let m = max_green(s.drop_last());
        if s.last().1 > m {
            s.last().1 as int
        } else {
            m
        }
    }
}

/// The largest blue count among the draws, 0 with no draws.
pub open spec fn max_blue(s: Seq<(u64, u64, u64)>) -> int
    decreases s.len(),
{
    if s.len() == 0 {
        0
    } else {
        let m = max_blue(s.drop_last());
        if s.last().2 > m {
            s.last().2 as int
        } else {
            m
        }
    }
}

impl Game {
    /// The game could have been played from a bag holding `max` cubes:
    /// every draw stays within the bag, colour by colour.
    pub fn is_possible(&self, max: (u64, u64, u64)) -> (r: bool)
        ensures
            r <==> forall|i: int|
                0 <= i < self.draws@.len() ==> draw_within(#[trigger] self.draws@[i], max),
    {
        let n = self.draws.len();
        let mut i: usize = 0;
        while i < n
            invariant
                n == self.draws@.len(),
                0 <= i <= n,
                forall|j: int| 0 <= j < i ==> draw_within(#[trigger] self.draws@[j], max),
            decreases n - i,
        {
            let draw = self.draws[i];
            if draw.0 > max.0 || draw.1 > max.1 || draw.2 > max.2 {
                return false;
            }
            i = i + 1;
        }
        true
    }

    /// The product of the per-colour maxima over the game's draws.
    pub fn get_power(&self) -> (r: u64)
        requires
            max_red(self.draws@) * max_green(self.draws@) <= u64::MAX,
            max_red(self.draws@) * max_green(self.draws@) * max_blue(self.draws@) <= u64::MAX,
        ensures
            r == max_red(self.draws@) * max_green(self.draws@) * max_blue(self.draws@),
    {
        let n = self.draws.len();
        let mut red: u64 = 0;
        let mut green: u64 = 0;
        let mut blue: u64 = 0;
        let mut i: usize = 0;
        while i < n
            invariant
                n == self.draws@.len(),
                0 <= i <= n,
                red == max_red(self.draws@.take(i as int)),
                green == max_green(self.draws@.take(i as int)),
                blue == max_blue(self.draws@.take(i as int)),
            decreases n - i,
        {
            let draw = self.draws[i];
            proof {
                assert(self.draws@.take(i + 1).drop_last() =~= self.draws@.take(i as int));
                assert(self.draws@.take(i + 1).last() == self.draws@[i as int]);
            }
            if draw.0 > red {
                red = draw.0;
            }
            if draw.1 > green {
                green = draw.1;
            }
            if draw.2 > blue {
                blue = draw.2;
            }
            i = i + 1;
        }
        proof {
            assert(self.draws@.take(n as int) =~= self.draws@);
        }
        let rg = red * green;
        rg * blue
    }
}

} // verus!
