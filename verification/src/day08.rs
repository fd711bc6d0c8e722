//! The desert network puzzle: named nodes, each with a left and a right
//! neighbour, walked by a repeating sequence of left/right turns; cycle
//! lengths are combined with the least common multiple.

use vstd::prelude::*;

verus! {

/// Euclid's greatest common divisor.
pub open spec fn gcd_spec(a: int, b: int) -> int
    decreases b,
{
    if b <= 0 {
        a
    } else {
        gcd_spec(b, a % b)
    }
}

proof fn lemma_gcd_pos(a: int, b: int)
    requires
        a >= 0,
        b >= 0,
        a > 0 || b > 0,
    ensures
        gcd_spec(a, b) > 0,
    decreases b,
{
    if b > 0 {
        lemma_gcd_pos(b, a % b);
    }
}

pub fn gcd(a: u64, b: u64) -> (r: u64)
    ensures
        r == gcd_spec(a as int, b as int),
    decreases b,
{
    if b == 0 {
        a
    } else {
        gcd(b, a % b)
    }
}

/// The least common multiple, computed as `a * b / gcd(a, b)`.  The
/// product must fit, and at least one argument must be nonzero, else the
/// divisor would be zero.
pub fn lcm(a: u64, b: u64) -> (r: u64)
    requires
        a * b <= u64::MAX,
        a > 0 || b > 0,
    ensures
        r == a * b / gcd_spec(a as int, b as int),
{
    proof {
        lemma_gcd_pos(a as int, b as int);
    }
    let g = gcd(a, b);
    (a * b) / g
}

/// A left or right turn of the walk.
#[derive(Debug, Clone, Copy, PartialEq, Eq, Hash, Structural)]
pub enum Direction {
    Left,
    Right,
}

/// One node of the network: its name and its two neighbours.
#[derive(Debug, Clone)]
pub struct Mapping {
    pub from: String,
    pub left: String,
    pub right: String,
}

impl Mapping {
    /// The neighbour reached by taking the given turn at this node.
    pub fn step(&self, dir: Direction) -> (r: &String)
        ensures
            dir == Direction::Left ==> r@ == self.left@,
            dir == Direction::Right ==> r@ == self.right@,
    {
        match dir {
            Direction::Left => &self.left,
            Direction::Right => &self.right,
        }
    }
}

/// The first node of the list carrying the given name.
pub open spec fn find_node(entries: Seq<Mapping>, name: Seq<char>) -> Option<Mapping>
    decreases entries.len(),
{
    if entries.len() == 0 {
        None
    } else if entries[0].from@ == name {
        Some(entries[0])
    } else {
        find_node(entries.drop_first(), name)
    }
}

proof fn lemma_find_node_at(entries: Seq<Mapping>, name: Seq<char>, k: int)
    requires
        0 <= k < entries.len(),
        forall|j: int| 0 <= j < k ==> (#[trigger] entries[j]).from@ != name,
        entries[k].from@ == name,
    ensures
        find_node(entries, name) == Some(entries[k]),
    decreases k,
{
    if k > 0 {
        assert(forall|j: int| 0 <= j < k - 1 ==> entries.drop_first()[j] == entries[j + 1]);
        lemma_find_node_at(entries.drop_first(), name, k - 1);
    }
}

proof fn lemma_find_node_none(entries: Seq<Mapping>, name: Seq<char>)
    requires
        forall|j: int| 0 <= j < entries.len() ==> (#[trigger] entries[j]).from@ != name,
    ensures
        find_node(entries, name) is None,
    decreases entries.len(),
{
    if entries.len() > 0 {
        assert(forall|j: int|
            0 <= j < entries.len() - 1 ==> entries.drop_first()[j] == entries[j + 1]);
        lemma_find_node_none(entries.drop_first(), name);
    }
}

/// The network of nodes, looked up by name.
#[derive(Debug)]
pub struct Network {
    pub mapping: Vec<Mapping>,
}

impl Network {
    /// The node walked to from the node named `from` under the given turn.
    /// The name must belong to the network.
    pub fn step(&self, from: &String, dir: Direction) -> (r: &String)
        requires
            find_node(self.mapping@, from@) is Some,
        ensures
            dir == Direction::Left ==> r@ == find_node(self.mapping@, from@)->0.left@,
            dir == Direction::Right ==> r@ == find_node(self.mapping@, from@)->0.right@,
    {
        let n = self.mapping.len();
        let mut i: usize = 0;
        while i < n
            invariant
                n == self.mapping@.len(),
                0 <= i <= n,
                find_node(self.mapping@, from@) is Some,
                forall|j: int| 0 <= j < i ==> (#[trigger] self.mapping@[j]).from@ != from@,
            decreases n - i,
        {
            if self.mapping[i].from == *from {
                proof {
                    lemma_find_node_at(self.mapping@, from@, i as int);
                }
                return self.mapping[i].step(dir);
            }
            i = i + 1;
        }
        proof {
            lemma_find_node_none(self.mapping@, from@);
        }
        // unreachable: the name was required to belong to the network
        &self.mapping[0].from
    }
}

} // verus!
