//! The falling-bricks puzzle: axis-aligned bricks drop onto a height map;
//! a brick can be disintegrated when every brick resting on it has at
//! least one other support.

use vstd::prelude::*;

verus! {

#[derive(Debug, Clone, Copy, PartialEq, Eq, Structural, Hash)]
pub struct Position {
    pub x: u64,
    pub y: u64,
    pub z: u64,
}

/// One brick, spanning the box between `start` and `end` (`start.z` is the
/// lower end).  `supported_by` and `supporting` list the ids of the bricks
/// directly below and above it, without repetition.
#[derive(Debug)]
pub struct Brick {
    pub start: Position,
    pub end: Position,
    pub id: Option<usize>,
    pub supported_by: Vec<usize>,
    pub supporting: Vec<usize>,
}

pub open spec fn min_int(a: int, b: int) -> int {
    if a <= b {
        a
    } else {
        b
    }
}

pub open spec fn max_int(a: int, b: int) -> int {
    if a <= b {
        b
    } else {
        a
    }
}

impl Brick {
    pub fn min_x(&self) -> (r: u64)
        ensures
            r == min_int(self.start.x as int, self.end.x as int),
    {
        if self.start.x <= self.end.x {
            self.start.x
        } else {
            self.end.x
        }
    }

    pub fn max_x(&self) -> (r: u64)
        ensures
            r == max_int(self.start.x as int, self.end.x as int),
    {
        if self.start.x <= self.end.x {
            self.end.x
        } else {
            self.start.x
        }
    }

    pub fn min_y(&self) -> (r: u64)
        ensures
            r == min_int(self.start.y as int, self.end.y as int),
    {
        if self.start.y <= self.end.y {
            self.start.y
        } else {
            self.end.y
        }
    }

    pub fn max_y(&self) -> (r: u64)
        ensures
            r == max_int(self.start.y as int, self.end.y as int),
    {
        if self.start.y <= self.end.y {
            self.end.y
        } else {
            self.start.y
        }
    }

    /// Bricks are parsed with `start.z <= end.z`, so the ends themselves
    /// give the vertical extent.
    pub fn min_z(&self) -> (r: u64)
        ensures
            r == self.start.z,
    {
        self.start.z
    }

    pub fn max_z(&self) -> (r: u64)
        ensures
            r == self.end.z,
    {
        self.end.z
    }

    /// The brick can be removed without anything falling: every brick it
    /// supports rests on more than one support.  All listed ids must be in
    /// bounds.
    pub fn could_be_desintegrated(&self, bricks: &Vec<Brick>) -> (r: bool)
        requires
            forall|i: int|
                0 <= i < self.supporting@.len() ==> (#[trigger] self.supporting@[i]) < bricks@.len(),
        ensures
            r <==> forall|i: int|
                0 <= i < self.supporting@.len() ==> bricks@[(#[trigger] self.supporting@[i]) as int].supported_by@.len() != 1,
    {
        let n = self.supporting.len();
        let mut i: usize = 0;
        while i < n
            invariant
                n == self.supporting@.len(),
                0 <= i <= n,
                forall|j: int|
                    0 <= j < n ==> (#[trigger] self.supporting@[j]) < bricks@.len(),
                forall|j: int|
                    0 <= j < i ==> bricks@[(#[trigger] self.supporting@[j]) as int].supported_by@.len() != 1,
            decreases n - i,
        {
            let id = self.supporting[i];
            if bricks[id].supported_by.len() == 1 {
                return false;
            }
            i = i + 1;
        }
        true
    }
}

/// One cell of the height map: a ground coordinate, and the top level
/// reached there together with the brick that reaches it.
pub type HeightEntry = ((u64, u64), (u64, Option<usize>));

/// What the height map holds at `key`: the first entry with that key, or
/// ground level `(0, None)`.
pub open spec fn hm_get(m: Seq<HeightEntry>, key: (u64, u64)) -> (u64, Option<usize>)
    decreases m.len(),
{
    if m.len() == 0 {
        (0u64, None)
    } else if m[0].0 == key {
        m[0].1
    } else {
        hm_get(m.drop_first(), key)
    }
}

proof fn lemma_hm_get_update(m: Seq<HeightEntry>, i: int, val: (u64, Option<usize>), k: (u64, u64))
    requires
        0 <= i < m.len(),
        forall|j: int| 0 <= j < i ==> (#[trigger] m[j]).0 != m[i].0,
    ensures
        hm_get(m.update(i, (m[i].0, val)), k) == if k == m[i].0 {
            val
        } else {
            hm_get(m, k)
        },
    decreases i,
{
    let m2 = m.update(i, (m[i].0, val));
    if i == 0 {
        assert(m2.drop_first() =~= m.drop_first());
    } else {
        assert(m2[0] == m[0]);
        assert(m2.drop_first() =~= m.drop_first().update(i - 1, (m[i].0, val)));
        assert(forall|j: int| 0 <= j < i - 1 ==> m.drop_first()[j] == m[j + 1]);
        assert(m.drop_first()[i - 1] == m[i]);
        lemma_hm_get_update(m.drop_first(), i - 1, val, k);
    }
}

proof fn lemma_hm_get_push(m: Seq<HeightEntry>, key: (u64, u64), val: (u64, Option<usize>), k: (u64, u64))
    requires
        forall|j: int| 0 <= j < m.len() ==> (#[trigger] m[j]).0 != key,
    ensures
        hm_get(m.push((key, val)), k) == if k == key {
            val
        } else {
            hm_get(m, k)
        },
    decreases m.len(),
{
    let m2 = m.push((key, val));
    if m.len() == 0 {
        assert(m2[0] == (key, val));
        assert(m2.drop_first() =~= Seq::<HeightEntry>::empty());
        assert(hm_get(Seq::<HeightEntry>::empty(), k) == (0u64, None::<usize>));
        assert(hm_get(m, k) == (0u64, None::<usize>));
    } else {
        assert(m2[0] == m[0]);
        assert(m2.drop_first() =~= m.drop_first().push((key, val)));
        assert(forall|j: int| 0 <= j < m.len() - 1 ==> m.drop_first()[j] == m[j + 1]);
        lemma_hm_get_push(m.drop_first(), key, val, k);
    }
}

/// Record `val` at `key`: overwrite the first entry with that key, or
/// append a new one.
fn hm_set(m: &mut Vec<HeightEntry>, key: (u64, u64), val: (u64, Option<usize>))
    ensures
        forall|k: (u64, u64)| #[trigger]
            hm_get(final(m)@, k) == if k == key {
                val
            } else {
                hm_get(old(m)@, k)
            },
{
    let n = m.len();
    let mut i: usize = 0;
    while i < n
        invariant
            n == m@.len(),
            m@ == old(m)@,
            0 <= i <= n,
            forall|j: int| 0 <= j < i ==> (#[trigger] m@[j]).0 != key,
        decreases n - i,
    {
        if m[i].0.0 == key.0 && m[i].0.1 == key.1 {
            proof {
                assert(m@[i as int].0 == key);
            }
            m.set(i, (key, val));
            proof {
                assert(m@ =~= old(m)@.update(i as int, (old(m)@[i as int].0, val)));
                assert forall|k: (u64, u64)| #[trigger]
                    hm_get(m@, k) == if k == key {
                        val
                    } else {
                        hm_get(old(m)@, k)
                    } by {
                    lemma_hm_get_update(old(m)@, i as int, val, k);
                }
            }
            return ;
        }
        i = i + 1;
    }
    m.push((key, val));
    proof {
        assert(m@ =~= old(m)@.push((key, val)));
        assert forall|k: (u64, u64)| #[trigger]
            hm_get(m@, k) == if k == key {
                val
            } else {
                hm_get(old(m)@, k)
            } by {
            lemma_hm_get_push(old(m)@, key, val, k);
        }
    }
}

/// The brick's footprint covers the ground coordinate `k`.
pub open spec fn covers(b: Brick, k: (u64, u64)) -> bool {
    &&& min_int(b.start.x as int, b.end.x as int) <= k.0 <= max_int(b.start.x as int, b.end.x as int)
    &&& min_int(b.start.y as int, b.end.y as int) <= k.1 <= max_int(b.start.y as int, b.end.y as int)
}

/// The part of the footprint scanned so far: whole columns before `x`,
/// and column `x` up to row `y` (inclusive; `y` may sit below the
/// footprint to mean none of column `x`).
pub open spec fn scanned(b: Brick, x: int, y: int, k: (u64, u64)) -> bool {
    covers(b, k) && (k.0 < x || (k.0 == x && k.1 <= y))
}

/// The running state of the support scan over the scanned region: `lvl`
/// is the highest level seen (0 before anything), and `sup` lists, without
/// repetition, exactly the bricks that reach that level.
pub open spec fn scan_ok(
    m: Seq<HeightEntry>,
    b: Brick,
    x: int,
    y: int,
    lvl: u64,
    sup: Seq<usize>,
) -> bool {
    &&& forall|k: (u64, u64)| #[trigger] scanned(b, x, y, k) ==> hm_get(m, k).0 <= lvl
    &&& (lvl == 0 || exists|k: (u64, u64)| #[trigger] scanned(b, x, y, k) && hm_get(m, k).0 == lvl)
    &&& forall|id: usize| #[trigger]
        sup.contains(id) <==> exists|k: (u64, u64)| #[trigger] scanned(b, x, y, k) && hm_get(m, k)
            == (lvl, Some(id))
    &&& forall|i: int, j: int| 0 <= i < j < sup.len() ==> sup[i] != sup[j]
}

fn contains_id(values: &Vec<usize>, x: usize) -> (r: bool)
    ensures
        r == values@.contains(x),
{
    let n = values.len();
    let mut i: usize = 0;
    while i < n
        invariant
            n == values@.len(),
            0 <= i <= n,
            forall|j: int| 0 <= j < i ==> values@[j] != x,
        decreases n - i,
    {
        if values[i] == x {
            return true;
        }
        i = i + 1;
    }
    proof {
        if values@.contains(x) {
            let j = choose|j: int| 0 <= j < values@.len() && values@[j] == x;
            assert(false);
        }
    }
    false
}

proof fn lemma_hm_get_at(m: Seq<HeightEntry>, key: (u64, u64), i: int)
    requires
        0 <= i < m.len(),
        forall|j: int| 0 <= j < i ==> (#[trigger] m[j]).0 != key,
        m[i].0 == key,
    ensures
        hm_get(m, key) == m[i].1,
    decreases i,
{
    if i > 0 {
        assert(forall|j: int| 0 <= j < i - 1 ==> m.drop_first()[j] == m[j + 1]);
        lemma_hm_get_at(m.drop_first(), key, i - 1);
    }
}

proof fn lemma_hm_get_none(m: Seq<HeightEntry>, key: (u64, u64))
    requires
        forall|j: int| 0 <= j < m.len() ==> (#[trigger] m[j]).0 != key,
    ensures
        hm_get(m, key) == (0u64, None::<usize>),
    decreases m.len(),
{
    if m.len() > 0 {
        assert(forall|j: int| 0 <= j < m.len() - 1 ==> m.drop_first()[j] == m[j + 1]);
        lemma_hm_get_none(m.drop_first(), key);
    }
}

/// Read the height map at `key` (ground level when absent).
fn hm_read(m: &Vec<HeightEntry>, key: (u64, u64)) -> (r: (u64, Option<usize>))
    ensures
        r == hm_get(m@, key),
{
    let n = m.len();
    let mut i: usize = 0;
    while i < n
        invariant
            n == m@.len(),
            0 <= i <= n,
            forall|j: int| 0 <= j < i ==> (#[trigger] m@[j]).0 != key,
        decreases n - i,
    {
        if m[i].0.0 == key.0 && m[i].0.1 == key.1 {
            proof {
                assert(m@[i as int].0 == key);
                lemma_hm_get_at(m@, key, i as int);
            }
            return m[i].1;
        }
        i = i + 1;
    }
    proof {
        lemma_hm_get_none(m@, key);
    }
    (0, None)
}

proof fn lemma_contains_push(s: Seq<usize>, v: usize, id: usize)
    ensures
        s.push(v).contains(id) <==> (s.contains(id) || id == v),
{
    if s.push(v).contains(id) {
        let j = choose|j: int| 0 <= j < s.push(v).len() && s.push(v)[j] == id;
        if j < s.len() {
            assert(s[j] == id);
        }
    }
    if s.contains(id) {
        let j = choose|j: int| 0 <= j < s.len() && s[j] == id;
        assert(s.push(v)[j] == id);
    }
    if id == v {
        assert(s.push(v)[s.len() as int] == id);
    }
}

impl Brick {
    /// Drop the brick straight down onto the height map: it lands one
    /// level above the highest level found under its footprint, records
    /// which bricks it now rests on, and raises the map under its whole
    /// footprint to its own new top.  The map must sit below the brick.
    #[verifier::loop_isolation(false)]
    #[verifier::rlimit(100)]
    pub fn ground(&mut self, supported_blocks: &mut Vec<HeightEntry>)
        requires
            old(self).start.z >= 1,
            old(self).start.z <= old(self).end.z,
            forall|k: (u64, u64)| #[trigger]
                covers(*old(self), k) ==> hm_get(old(supported_blocks)@, k).0
                    <= old(self).start.z - 1,
        ensures
            final(self).start.x == old(self).start.x,
            final(self).start.y == old(self).start.y,
            final(self).end.x == old(self).end.x,
            final(self).end.y == old(self).end.y,
            final(self).id == old(self).id,
            final(self).supporting == old(self).supporting,
            final(self).end.z - final(self).start.z == old(self).end.z - old(self).start.z,
            1 <= final(self).start.z <= old(self).start.z,
            forall|k: (u64, u64)| #[trigger]
                covers(*old(self), k) ==> hm_get(old(supported_blocks)@, k).0
                    <= final(self).start.z - 1,
            final(self).start.z == 1 || exists|k: (u64, u64)| #![auto]
                covers(*old(self), k) && hm_get(old(supported_blocks)@, k).0
                    == final(self).start.z - 1,
            forall|id: usize| #[trigger]
                final(self).supported_by@.contains(id) <==> exists|k: (u64, u64)| #![auto]
                    covers(*old(self), k) && hm_get(old(supported_blocks)@, k) == (
                    (final(self).start.z - 1) as u64,
                    Some(id),
                ),
            forall|i: int, j: int|
                0 <= i < j < final(self).supported_by@.len() ==> final(self).supported_by@[i]
                    != final(self).supported_by@[j],
            forall|k: (u64, u64)| #[trigger]
                hm_get(final(supported_blocks)@, k) == if covers(*old(self), k) {
                    (final(self).end.z, old(self).id)
                } else {
                    hm_get(old(supported_blocks)@, k)
                },
    {
        let ghost b0 = *old(self);
        let minx = self.min_x();
        let maxx = self.max_x();
        let miny = self.min_y();
        let maxy = self.max_y();
        let mut max_level: u64 = 0;
        let mut supported_by: Vec<usize> = Vec::new();
        proof {
            assert(scan_ok(supported_blocks@, b0, minx as int, miny - 1, 0, Seq::empty()));
        }
        let mut x: u64 = minx;
        let mut scan_done = false;
        while !scan_done
            invariant
                minx <= x <= maxx,
                !scan_done ==> scan_ok(
                    supported_blocks@,
                    b0,
                    x as int,
                    miny - 1,
                    max_level,
                    supported_by@,
                ),
                scan_done ==> scan_ok(
                    supported_blocks@,
                    b0,
                    maxx + 1,
                    miny - 1,
                    max_level,
                    supported_by@,
                ),
            decreases maxx - x + (if scan_done { 0int } else { 1int }),
        {
            let mut y: u64 = miny;
            let mut col_done = false;
            while !col_done
                invariant
                    miny <= y <= maxy,
                    !col_done ==> scan_ok(
                        supported_blocks@,
                        b0,
                        x as int,
                        y - 1,
                        max_level,
                        supported_by@,
                    ),
                    col_done ==> scan_ok(
                        supported_blocks@,
                        b0,
                        x as int,
                        maxy as int,
                        max_level,
                        supported_by@,
                    ),
                decreases maxy - y + (if col_done { 0int } else { 1int }),
            {
                let cell = hm_read(supported_blocks, (x, y));
                let level = cell.0;
                let ghost old_lvl = max_level;
                let ghost old_sup = supported_by@;
                if level > max_level {
                    max_level = level;
                    supported_by = Vec::new();
                }
                if level == max_level {
                    if let Some(id) = cell.1 {
                        if !contains_id(&supported_by, id) {
                            let ghost before_push = supported_by@;
                            supported_by.push(id);
                            proof {
                                assert forall|id2: usize|
                                    #[trigger] supported_by@.contains(id2) <==> (
                                    before_push.contains(id2) || id2 == id) by {
                                    lemma_contains_push(before_push, id, id2);
                                }
                            }
                        }
                    }
                }
                proof {
                    let k0 = (x, y);
                    let m = supported_blocks@;
                    assert(covers(b0, k0));
                    assert(hm_get(m, k0) == cell);
                    assert(scan_ok(m, b0, x as int, y as int, max_level, supported_by@)) by {
                        assert forall|k: (u64, u64)| #[trigger]
                            scanned(b0, x as int, y as int, k) implies hm_get(m, k).0
                            <= max_level by {
                            if k != k0 {
                                assert(scanned(b0, x as int, y - 1, k));
                            }
                        }
                        if max_level != 0 {
                            if level == max_level {
                                assert(scanned(b0, x as int, y as int, k0));
                            } else {
                                let kw = choose|k: (u64, u64)|
                                    #[trigger] scanned(b0, x as int, y - 1, k) && hm_get(m, k).0
                                        == max_level;
                                assert(scanned(b0, x as int, y as int, kw));
                            }
                        }
                        assert forall|id: usize| #[trigger]
                            supported_by@.contains(id) <==> exists|k: (u64, u64)|
                                #[trigger] scanned(b0, x as int, y as int, k) && hm_get(m, k) == (
                            max_level,
                            Some(id),
                            ) by {
                            if supported_by@.contains(id) {
                                if old_lvl == max_level && old_sup.contains(id) {
                                    let kw = choose|k: (u64, u64)|
                                        #[trigger] scanned(b0, x as int, y - 1, k) && hm_get(m, k)
                                            == (max_level, Some(id));
                                    assert(scanned(b0, x as int, y as int, kw));
                                    assert(hm_get(m, kw) == (max_level, Some(id)));
                                } else {
                                    assert(cell == (max_level, Some(id)));
                                    assert(scanned(b0, x as int, y as int, k0));
                                }
                            }
                            if exists|k: (u64, u64)|
                                #[trigger] scanned(b0, x as int, y as int, k) && hm_get(m, k) == (
                            max_level,
                            Some(id),
                            ) {
                                let kw = choose|k: (u64, u64)|
                                    #[trigger] scanned(b0, x as int, y as int, k) && hm_get(m, k)
                                        == (max_level, Some(id));
                                if kw == k0 {
                                    assert(supported_by@.contains(id));
                                } else {
                                    assert(scanned(b0, x as int, y - 1, kw));
                                    assert(hm_get(m, kw).0 == max_level);
                                    assert(old_lvl == max_level);
                                    assert(old_sup.contains(id));
                                    assert(supported_by@.contains(id));
                                }
                            }
                        }
                    }
                }
                if y == maxy {
                    col_done = true;
                    proof {
                        assert(scan_ok(
                            supported_blocks@,
                            b0,
                            x as int,
                            maxy as int,
                            max_level,
                            supported_by@,
                        ));
                    }
                } else {
                    y = y + 1;
                }
            }
            proof {
                assert forall|k: (u64, u64)| #[trigger]
                    scanned(b0, x + 1, miny - 1, k) == scanned(b0, x as int, maxy as int, k) by {}
                assert(scan_ok(supported_blocks@, b0, x + 1, miny - 1, max_level, supported_by@))
                    by {
                    assert forall|id: usize| #[trigger]
                        supported_by@.contains(id) <==> exists|k: (u64, u64)|
                            #[trigger] scanned(b0, x + 1, miny - 1, k) && hm_get(
                            supported_blocks@,
                            k,
                        ) == (max_level, Some(id)) by {
                        if supported_by@.contains(id) {
                            let kw = choose|k: (u64, u64)|
                                #[trigger] scanned(b0, x as int, maxy as int, k) && hm_get(
                                    supported_blocks@,
                                    k,
                                ) == (max_level, Some(id));
                            assert(scanned(b0, x + 1, miny - 1, kw));
                            assert(hm_get(supported_blocks@, kw) == (max_level, Some(id)));
                        }
                        if exists|k: (u64, u64)|
                            #[trigger] scanned(b0, x + 1, miny - 1, k) && hm_get(
                            supported_blocks@,
                            k,
                        ) == (max_level, Some(id)) {
                            let kw = choose|k: (u64, u64)|
                                #[trigger] scanned(b0, x + 1, miny - 1, k) && hm_get(
                                    supported_blocks@,
                                    k,
                                ) == (max_level, Some(id));
                            assert(scanned(b0, x as int, maxy as int, kw));
                        }
                    }
                    if max_level != 0 {
                        let kw = choose|k: (u64, u64)|
                            #[trigger] scanned(b0, x as int, maxy as int, k) && hm_get(
                                supported_blocks@,
                                k,
                            ).0 == max_level;
                        assert(scanned(b0, x + 1, miny - 1, kw));
                    }
                }
            }
            if x == maxx {
                scan_done = true;
            } else {
                x = x + 1;
            }
        }
        proof {
            assert forall|k: (u64, u64)| #[trigger]
                covers(b0, k) == scanned(b0, maxx + 1, miny - 1, k) by {}
            if max_level != 0 {
                let kw = choose|k: (u64, u64)|
                    #[trigger] scanned(b0, maxx + 1, miny - 1, k) && hm_get(
                        supported_blocks@,
                        k,
                    ).0 == max_level;
                assert(covers(b0, kw));
            }
        }
        let move_down = self.start.z - 1 - max_level;
        self.supported_by = supported_by;
        self.start.z = self.start.z - move_down;
        self.end.z = self.end.z - move_down;
        let top = self.end.z;
        let idv = self.id;
        let ghost m0 = supported_blocks@;
        let mut x2: u64 = minx;
        let mut write_done = false;
        while !write_done
            invariant
                minx <= x2 <= maxx,
                !write_done ==> forall|k: (u64, u64)| #[trigger]
                    hm_get(supported_blocks@, k) == if scanned(b0, x2 as int, miny - 1, k) {
                        (top, idv)
                    } else {
                        hm_get(m0, k)
                    },
                write_done ==> forall|k: (u64, u64)| #[trigger]
                    hm_get(supported_blocks@, k) == if scanned(b0, maxx + 1, miny - 1, k) {
                        (top, idv)
                    } else {
                        hm_get(m0, k)
                    },
            decreases maxx - x2 + (if write_done { 0int } else { 1int }),
        {
            let mut y2: u64 = miny;
            let mut wcol_done = false;
            while !wcol_done
                invariant
                    miny <= y2 <= maxy,
                    !wcol_done ==> forall|k: (u64, u64)| #[trigger]
                        hm_get(supported_blocks@, k) == if scanned(b0, x2 as int, y2 - 1, k) {
                            (top, idv)
                        } else {
                            hm_get(m0, k)
                        },
                    wcol_done ==> forall|k: (u64, u64)| #[trigger]
                        hm_get(supported_blocks@, k) == if scanned(b0, x2 as int, maxy as int, k) {
                            (top, idv)
                        } else {
                            hm_get(m0, k)
                        },
                decreases maxy - y2 + (if wcol_done { 0int } else { 1int }),
            {
                hm_set(supported_blocks, (x2, y2), (top, idv));
                proof {
                    assert(covers(b0, (x2, y2)));
                    assert forall|k: (u64, u64)| #[trigger]
                        scanned(b0, x2 as int, y2 as int, k) == (scanned(b0, x2 as int, y2 - 1, k)
                            || k == (x2, y2)) by {}
                }
                if y2 == maxy {
                    wcol_done = true;
                } else {
                    y2 = y2 + 1;
                }
            }
            proof {
                assert forall|k: (u64, u64)| #[trigger]
                    scanned(b0, x2 + 1, miny - 1, k) == scanned(b0, x2 as int, maxy as int, k)
                    by {}
            }
            if x2 == maxx {
                write_done = true;
            } else {
                x2 = x2 + 1;
            }
        }
        proof {
            assert forall|k: (u64, u64)| #[trigger]
                covers(b0, k) == scanned(b0, maxx + 1, miny - 1, k) by {}
        }
    }
}

} // verus!
