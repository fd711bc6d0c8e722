//! The almanac puzzle: values travel through seven piecewise-linear
//! remapping stages.  Each stage is a list of rules; a rule translates a
//! half-open source interval by a constant offset, and values outside every
//! rule pass through unchanged.  Besides mapping single values, a stage can
//! split an inclusive range into maximal sub-ranges on which the mapping is
//! a single translation, which is what makes range-based processing cheap.

use vstd::prelude::*;

verus! {

/// One remapping rule: the half-open source interval
/// `[source, source + length)` is translated to the congruent destination
/// interval `[dest, dest + length)`.
#[derive(Debug, Clone, Copy, PartialEq, Eq, Structural)]
pub struct Mapping {
    pub source: u64,
    pub dest: u64,
    pub length: u64,
}

impl Mapping {
    /// Both intervals stay within the `u64` range.
    pub open spec fn wf(self) -> bool {
        &&& self.source + self.length <= u64::MAX + 1
        &&& self.dest + self.length <= u64::MAX + 1
    }

    /// `v` lies in the rule's source interval.
    pub open spec fn in_source_spec(self, v: int) -> bool {
        self.source <= v < self.source + self.length
    }

    /// `v` lies in the rule's destination interval.
    pub open spec fn in_dest_spec(self, v: int) -> bool {
        self.dest <= v < self.dest + self.length
    }

    /// Forward translation of a value in the source interval.
    pub open spec fn map_spec(self, v: int) -> int {
        self.dest + (v - self.source)
    }

    /// Backward translation of a value in the destination interval.
    pub open spec fn unmap_spec(self, v: int) -> int {
        self.source + (v - self.dest)
    }

    pub fn in_source(&self, index: u64) -> (r: bool)
        ensures
            r == self.in_source_spec(index as int),
    {
        index >= self.source && index - self.source < self.length
    }

    pub fn in_dest(&self, index: u64) -> (r: bool)
        ensures
            r == self.in_dest_spec(index as int),
    {
        index >= self.dest && index - self.dest < self.length
    }

    pub fn map(&self, index: u64) -> (r: u64)
        requires
            self.wf(),
            self.in_source_spec(index as int),
        ensures
            r == self.map_spec(index as int),
    {
        self.dest + (index - self.source)
    }

    pub fn unmap(&self, index: u64) -> (r: u64)
        requires
            self.wf(),
            self.in_dest_spec(index as int),
        ensures
            r == self.unmap_spec(index as int),
    {
        self.source + (index - self.dest)
    }
}

/// An inclusive range `[low, high]` of values, tracked while a range of
/// seeds is pushed through the stages.  Note the asymmetry: rules use
/// half-open intervals, ranges are inclusive on both ends.
#[derive(Debug, Clone, Copy, PartialEq, Eq, Structural)]
pub struct Range {
    pub low: u64,
    pub high: u64,
}

impl Range {
    pub open spec fn wf(self) -> bool {
        self.low <= self.high
    }

    pub open spec fn has(self, v: int) -> bool {
        self.low <= v <= self.high
    }
}

/// The value that a list of rules sends `v` to: the first rule whose source
/// interval holds `v` translates it; with no such rule `v` passes through.
pub open spec fn map_value(rules: Seq<Mapping>, v: int) -> int
    decreases rules.len(),
{
    if rules.len() == 0 {
        v
    } else if rules[0].in_source_spec(v) {
        rules[0].map_spec(v)
    } else {
        map_value(rules.drop_first(), v)
    }
}

/// The value that a list of rules pulls `v` back to: the first rule whose
/// destination interval holds `v` translates it back; otherwise identity.
pub open spec fn unmap_value(rules: Seq<Mapping>, v: int) -> int
    decreases rules.len(),
{
    if rules.len() == 0 {
        v
    } else if rules[0].in_dest_spec(v) {
        rules[0].unmap_spec(v)
    } else {
        unmap_value(rules.drop_first(), v)
    }
}

proof fn lemma_map_value_skip(rules: Seq<Mapping>, v: int, k: int)
    requires
        0 <= k <= rules.len(),
        forall|j: int| 0 <= j < k ==> !(#[trigger] rules[j]).in_source_spec(v),
    ensures
        map_value(rules, v) == map_value(rules.skip(k), v),
    decreases k,
{
    if k > 0 {
        assert(forall|j: int| 0 <= j < k - 1 ==> rules.drop_first()[j] == rules[j + 1]);
        lemma_map_value_skip(rules.drop_first(), v, k - 1);
        assert(rules.drop_first().skip(k - 1) =~= rules.skip(k));
    } else {
        assert(rules.skip(0) =~= rules);
    }
}

proof fn lemma_unmap_value_skip(rules: Seq<Mapping>, v: int, k: int)
    requires
        0 <= k <= rules.len(),
        forall|j: int| 0 <= j < k ==> !(#[trigger] rules[j]).in_dest_spec(v),
    ensures
        unmap_value(rules, v) == unmap_value(rules.skip(k), v),
    decreases k,
{
    if k > 0 {
        assert(forall|j: int| 0 <= j < k - 1 ==> rules.drop_first()[j] == rules[j + 1]);
        lemma_unmap_value_skip(rules.drop_first(), v, k - 1);
        assert(rules.drop_first().skip(k - 1) =~= rules.skip(k));
    } else {
        assert(rules.skip(0) =~= rules);
    }
}

proof fn lemma_map_value_first_match(rules: Seq<Mapping>, v: int, k: int)
    requires
        0 <= k < rules.len(),
        forall|j: int| 0 <= j < k ==> !(#[trigger] rules[j]).in_source_spec(v),
        rules[k].in_source_spec(v),
    ensures
        map_value(rules, v) == rules[k].map_spec(v),
{
    lemma_map_value_skip(rules, v, k);
    assert(rules.skip(k)[0] == rules[k]);
}

proof fn lemma_unmap_value_first_match(rules: Seq<Mapping>, v: int, k: int)
    requires
        0 <= k < rules.len(),
        forall|j: int| 0 <= j < k ==> !(#[trigger] rules[j]).in_dest_spec(v),
        rules[k].in_dest_spec(v),
    ensures
        unmap_value(rules, v) == rules[k].unmap_spec(v),
{
    lemma_unmap_value_skip(rules, v, k);
    assert(rules.skip(k)[0] == rules[k]);
}

proof fn lemma_map_value_no_match(rules: Seq<Mapping>, v: int)
    requires
        forall|j: int| 0 <= j < rules.len() ==> !(#[trigger] rules[j]).in_source_spec(v),
    ensures
        map_value(rules, v) == v,
{
    lemma_map_value_skip(rules, v, rules.len() as int);
    assert(rules.skip(rules.len() as int) =~= Seq::<Mapping>::empty());
}

proof fn lemma_unmap_value_no_match(rules: Seq<Mapping>, v: int)
    requires
        forall|j: int| 0 <= j < rules.len() ==> !(#[trigger] rules[j]).in_dest_spec(v),
    ensures
        unmap_value(rules, v) == v,
{
    lemma_unmap_value_skip(rules, v, rules.len() as int);
    assert(rules.skip(rules.len() as int) =~= Seq::<Mapping>::empty());
}

/// One remapping stage: an ordered list of rules, assumed pairwise disjoint
/// in their source intervals (the puzzle input guarantees this).
#[derive(Debug)]
pub struct Stage {
    pub mappings: Vec<Mapping>,
}

impl Stage {
    pub open spec fn wf(self) -> bool {
        forall|i: int| 0 <= i < self.mappings@.len() ==> (#[trigger] self.mappings@[i]).wf()
    }

    /// No value lies in the source interval of two different rules.
    pub open spec fn disjoint_sources(self) -> bool {
        forall|i: int, j: int, v: int|
            0 <= i < self.mappings@.len() && 0 <= j < self.mappings@.len() && i != j
                && (#[trigger] self.mappings@[i].in_source_spec(v)) ==> !(#[trigger] self.mappings@[j].in_source_spec(v))
    }

    /// No value lies in the destination interval of two different rules.
    pub open spec fn disjoint_dests(self) -> bool {
        forall|i: int, j: int, v: int|
            0 <= i < self.mappings@.len() && 0 <= j < self.mappings@.len() && i != j
                && (#[trigger] self.mappings@[i].in_dest_spec(v)) ==> !(#[trigger] self.mappings@[j].in_dest_spec(v))
    }

    pub open spec fn spec_map(self, v: int) -> int {
        map_value(self.mappings@, v)
    }

    pub open spec fn spec_unmap(self, v: int) -> int {
        unmap_value(self.mappings@, v)
    }

    pub fn new(mappings: Vec<Mapping>) -> (r: Stage)
        ensures
            r.mappings@ == mappings@,
    {
        Stage { mappings }
    }

    /// Forward lookup: the first rule whose source interval holds `index`
    /// translates it; with no such rule the value passes through unchanged.
    pub fn map(&self, index: u64) -> (r: u64)
        requires
            self.wf(),
        ensures
            r == self.spec_map(index as int),
    {
        let n = self.mappings.len();
        let mut i: usize = 0;
        while i < n
            invariant
                n == self.mappings@.len(),
                self.wf(),
                0 <= i <= n,
                forall|j: int| 0 <= j < i ==> !(#[trigger] self.mappings@[j]).in_source_spec(index as int),
            decreases n - i,
        {
            if self.mappings[i].in_source(index) {
                proof {
                    lemma_map_value_first_match(self.mappings@, index as int, i as int);
                }
                return self.mappings[i].map(index);
            }
            i = i + 1;
        }
        proof {
            lemma_map_value_no_match(self.mappings@, index as int);
        }
        index
    }

    /// Backward lookup, scanning destination intervals instead.
    pub fn unmap(&self, index: u64) -> (r: u64)
        requires
            self.wf(),
        ensures
            r == self.spec_unmap(index as int),
    {
        let n = self.mappings.len();
        let mut i: usize = 0;
        while i < n
            invariant
                n == self.mappings@.len(),
                self.wf(),
                0 <= i <= n,
                forall|j: int| 0 <= j < i ==> !(#[trigger] self.mappings@[j]).in_dest_spec(index as int),
            decreases n - i,
        {
            if self.mappings[i].in_dest(index) {
                proof {
                    lemma_unmap_value_first_match(self.mappings@, index as int, i as int);
                }
                return self.mappings[i].unmap(index);
            }
            i = i + 1;
        }
        proof {
            lemma_unmap_value_no_match(self.mappings@, index as int);
        }
        index
    }
}

/// The rules of `rules` act as one constant translation on all of `p`:
/// every value of the range moves exactly as far as the range's low end.
pub open spec fn uniform_on(rules: Seq<Mapping>, p: Range) -> bool {
    forall|v: int|
        p.low <= v <= p.high ==> #[trigger] map_value(rules, v) == map_value(rules, p.low as int)
            + (v - p.low)
}

/// `s` decomposes the inclusive interval `[lo, hi]` exactly: the pieces are
/// nonempty, consecutive and in order, the first starts at `lo`, the last
/// ends at `hi`.
pub open spec fn chained(s: Seq<Range>, lo: int, hi: int) -> bool {
    &&& s.len() >= 1
    &&& s[0].low == lo
    &&& s[s.len() - 1].high == hi
    &&& forall|i: int| 0 <= i < s.len() ==> (#[trigger] s[i]).low <= s[i].high
    &&& forall|i: int| 0 <= i < s.len() - 1 ==> (#[trigger] s[i]).high + 1 == s[i + 1].low
}

proof fn lemma_chained_le(s: Seq<Range>, lo: int, hi: int, i: int, j: int)
    requires
        chained(s, lo, hi),
        0 <= i <= j < s.len(),
    ensures
        s[i].low <= s[j].low,
        i < j ==> s[i].high < s[j].low,
    decreases j - i,
{
    if i < j {
        lemma_chained_le(s, lo, hi, i, j - 1);
    }
}

/// Every piece of a chained decomposition lies inside `[lo, hi]`.
proof fn lemma_chained_bounds(s: Seq<Range>, lo: int, hi: int, i: int)
    requires
        chained(s, lo, hi),
        0 <= i < s.len(),
    ensures
        lo <= s[i].low,
        s[i].high <= hi,
{
    lemma_chained_le(s, lo, hi, 0, i);
    lemma_chained_le(s, lo, hi, i, s.len() - 1);
}

/// A chained decomposition of `[lo, hi]` covers exactly the integers of
/// `[lo, hi]`: each value of the interval lies in some piece, and nothing
/// outside the interval does.
pub proof fn lemma_chained_cover(s: Seq<Range>, lo: int, hi: int, v: int)
    requires
        chained(s, lo, hi),
    ensures
        (lo <= v <= hi) <==> exists|i: int| 0 <= i < s.len() && (#[trigger] s[i]).has(v),
    decreases s.len(),
{
    if exists|i: int| 0 <= i < s.len() && (#[trigger] s[i]).has(v) {
        let i = choose|i: int| 0 <= i < s.len() && (#[trigger] s[i]).has(v);
        lemma_chained_bounds(s, lo, hi, i);
    }
    if lo <= v <= hi {
        if v <= s[0].high {
            assert(s[0].has(v));
        } else {
            let t = s.drop_first();
            assert(chained(t, s[1].low as int, hi)) by {
                assert(forall|i: int| 0 <= i < t.len() ==> t[i] == s[i + 1]);
            }
            lemma_chained_cover(t, s[1].low as int, hi, v);
            let i = choose|i: int| 0 <= i < t.len() && (#[trigger] t[i]).has(v);
            assert(s[i + 1].has(v));
        }
    }
}

/// The pieces of a chained decomposition do not overlap.
pub proof fn lemma_chained_disjoint(s: Seq<Range>, lo: int, hi: int)
    requires
        chained(s, lo, hi),
    ensures
        forall|i: int, j: int, v: int|
            0 <= i < j < s.len() && (#[trigger] s[i].has(v)) ==> !(#[trigger] s[j].has(v)),
{
    assert forall|i: int, j: int, v: int|
        0 <= i < j < s.len() && (#[trigger] s[i].has(v)) implies !(#[trigger] s[j].has(v)) by {
        lemma_chained_le(s, lo, hi, i, j);
    }
}

/// Appending a next consecutive piece keeps a decomposition chained.
proof fn lemma_chained_push(s: Seq<Range>, lo: int, p: Range)
    requires
        p.low <= p.high,
        s.len() == 0 ==> p.low == lo,
        s.len() > 0 ==> chained(s, lo, p.low - 1),
    ensures
        chained(s.push(p), lo, p.high as int),
{
    let t = s.push(p);
    assert(forall|i: int| 0 <= i < s.len() ==> t[i] == s[i]);
    assert(t[t.len() - 1] == p);
}

/// The rule with index `k` holds `v` in its source interval, and no two
/// rules overlap: the stage translates `v` by exactly rule `k`.
proof fn lemma_map_value_unique(stage: Stage, v: int, k: int)
    requires
        stage.disjoint_sources(),
        0 <= k < stage.mappings@.len(),
        stage.mappings@[k].in_source_spec(v),
    ensures
        map_value(stage.mappings@, v) == stage.mappings@[k].map_spec(v),
{
    assert(forall|j: int| 0 <= j < k ==> !(#[trigger] stage.mappings@[j]).in_source_spec(v)) by {
        assert(stage.mappings@[k].in_source_spec(v));
    }
    lemma_map_value_first_match(stage.mappings@, v, k);
}

/// The source interval of `m` meets the inclusive interval `[lo, hi]`.
pub open spec fn touches(m: Mapping, lo: int, hi: int) -> bool {
    m.length > 0 && m.source <= hi && m.source + m.length - 1 >= lo
}

/// A value inside `[lo, hi]` that no rule of `rules` touching `[lo, hi]`
/// could hold is passed through unchanged.
proof fn lemma_identity_value(rules: Seq<Mapping>, lo: int, hi: int, v: int)
    requires
        lo <= v <= hi,
        forall|k: int| 0 <= k < rules.len() ==> !touches(#[trigger] rules[k], lo, hi),
    ensures
        map_value(rules, v) == v,
{
    assert forall|j: int| 0 <= j < rules.len() implies !(#[trigger] rules[j]).in_source_spec(v) by {
        if rules[j].in_source_spec(v) {
            assert(touches(rules[j], lo, hi));
        }
    }
    lemma_map_value_no_match(rules, v);
}

impl Stage {
    /// Decompose `range` into maximal consecutive sub-ranges, each lying
    /// entirely within one rule's source interval or entirely outside every
    /// rule.  The sub-ranges cover `range` exactly and in order, and on each
    /// of them the whole stage acts as one constant translation, so mapping
    /// a sub-range's endpoints tells where all of its interior goes.
    pub fn suggest_splits(&self, range: Range) -> (res: Vec<Range>)
        requires
            self.wf(),
            self.disjoint_sources(),
            range.wf(),
        ensures
            chained(res@, range.low as int, range.high as int),
            forall|i: int| 0 <= i < res@.len() ==> uniform_on(self.mappings@, #[trigger] res@[i]),
            (forall|j: int|
                0 <= j < self.mappings@.len() ==> !touches(
                    #[trigger] self.mappings@[j],
                    range.low as int,
                    range.high as int,
                )) ==> res@ == seq![range],
    {
        let mut res: Vec<Range> = Vec::new();
        let mut cursor: u64 = range.low;
        loop
            invariant
                self.wf(),
                self.disjoint_sources(),
                range.wf(),
                range.low <= cursor <= range.high,
                res@.len() == 0 ==> cursor == range.low,
                res@.len() > 0 ==> chained(res@, range.low as int, cursor - 1),
                (forall|j: int|
                    0 <= j < self.mappings@.len() ==> !touches(
                        #[trigger] self.mappings@[j],
                        range.low as int,
                        range.high as int,
                    )) ==> res@.len() == 0,
                forall|i: int| 0 <= i < res@.len() ==> uniform_on(self.mappings@, #[trigger] res@[i]),
                self.mappings@.len() == 0 ==> res@.len() == 0,
            decreases range.high - cursor,
        {
            let n = self.mappings.len();
            // Find the touching rule whose source interval starts first.
            let mut best: usize = n;
            let mut j: usize = 0;
            while j < n
                invariant
                    n == self.mappings@.len(),
                    self.wf(),
                    cursor <= range.high,
                    0 <= j <= n,
                    best <= n,
                    best == n ==> forall|k: int|
                        0 <= k < j ==> !touches(#[trigger] self.mappings@[k], cursor as int, range.high as int),
                    best < n ==> touches(self.mappings@[best as int], cursor as int, range.high as int),
                    best < n ==> forall|k: int|
                        0 <= k < j && touches(#[trigger] self.mappings@[k], cursor as int, range.high as int)
                            ==> self.mappings@[best as int].source <= self.mappings@[k].source,
                decreases n - j,
            {
                let m = &self.mappings[j];
                if m.length > 0 && m.source <= range.high && m.source + (m.length - 1) >= cursor {
                    if best == n || m.source < self.mappings[best].source {
                        best = j;
                    }
                }
                j = j + 1;
            }
            if best == n {
                // Nothing touches what is left: one final pass-through piece.
                let piece = Range { low: cursor, high: range.high };
                proof {
                    assert forall|v: int| piece.low <= v <= piece.high
                        implies #[trigger] map_value(self.mappings@, v) == v by {
                        lemma_identity_value(self.mappings@, cursor as int, range.high as int, v);
                    }
                    assert(uniform_on(self.mappings@, piece));
                    lemma_chained_push(res@, range.low as int, piece);
                }
                res.push(piece);
                proof {
                    if forall|j: int|
                        0 <= j < self.mappings@.len() ==> !touches(
                            #[trigger] self.mappings@[j],
                            range.low as int,
                            range.high as int,
                        ) {
                        assert(res@ =~= seq![range]);
                    }
                }
                return res;
            }
            let m = self.mappings[best];
            if m.source > cursor {
                // An identity gap lies before the chosen rule begins.
                let piece = Range { low: cursor, high: m.source - 1 };
                proof {
                    assert forall|v: int| piece.low <= v <= piece.high
                        implies #[trigger] map_value(self.mappings@, v) == v by {
                        assert forall|k: int| 0 <= k < self.mappings@.len()
                            implies !(#[trigger] self.mappings@[k]).in_source_spec(v) by {
                            if self.mappings@[k].in_source_spec(v) {
                                assert(touches(self.mappings@[k], cursor as int, range.high as int));
                                assert(self.mappings@[best as int].source <= self.mappings@[k].source);
                            }
                        }
                        lemma_map_value_no_match(self.mappings@, v);
                    }
                    assert(uniform_on(self.mappings@, piece));
                    lemma_chained_push(res@, range.low as int, piece);
                    // the chosen rule meets the whole range, so pieces may exist
                    assert(touches(self.mappings@[best as int], range.low as int, range.high as int));
                }
                res.push(piece);
                cursor = m.source;
            }
            // The piece covered by the chosen rule, clipped to the range.
            let m_end = m.source + (m.length - 1);
            let p_high = if m_end < range.high { m_end } else { range.high };
            let piece = Range { low: cursor, high: p_high };
            proof {
                assert forall|v: int| piece.low <= v <= piece.high
                    implies #[trigger] map_value(self.mappings@, v) == m.map_spec(v) by {
                    assert(m.in_source_spec(v));
                    lemma_map_value_unique(*self, v, best as int);
                }
                assert(uniform_on(self.mappings@, piece));
                lemma_chained_push(res@, range.low as int, piece);
                assert(touches(self.mappings@[best as int], range.low as int, range.high as int));
            }
            res.push(piece);
            if p_high >= range.high {
                return res;
            }
            cursor = p_high + 1;
        }
    }
}

/// On a sub-range on which a stage acts as one constant translation, the
/// images of the two endpoints differ by exactly the width of the range:
/// checking the endpoints accounts for every interior value.
pub proof fn lemma_uniform_offset_endpoints(stage: Stage, p: Range)
    requires
        p.wf(),
        uniform_on(stage.mappings@, p),
    ensures
        stage.spec_map(p.high as int) == stage.spec_map(p.low as int) + (p.high - p.low),
{
    assert(map_value(stage.mappings@, p.high as int) == map_value(stage.mappings@, p.low as int) + (
    p.high - p.low));
}

/// With no rules at all, a stage maps and unmaps every value to itself.
pub proof fn lemma_empty_stage_identity(stage: Stage, v: int)
    requires
        stage.mappings@.len() == 0,
    ensures
        stage.spec_map(v) == v,
        stage.spec_unmap(v) == v,
{
}

/// Mapping a value that lies in some rule's source interval forward and
/// then backward returns the value itself, provided no two rules overlap in
/// their source intervals or in their destination intervals.  (When
/// destination intervals alias other rules, the backward scan can pick a
/// different rule and the round trip genuinely fails.)
pub proof fn lemma_map_unmap_round_trip(stage: Stage, v: int)
    requires
        stage.wf(),
        stage.disjoint_sources(),
        stage.disjoint_dests(),
        exists|i: int|
            0 <= i < stage.mappings@.len() && (#[trigger] stage.mappings@[i]).in_source_spec(v),
    ensures
        stage.spec_unmap(stage.spec_map(v)) == v,
{
    let rules = stage.mappings@;
    let i = choose|i: int| 0 <= i < rules.len() && (#[trigger] rules[i]).in_source_spec(v);
    assert(forall|j: int| 0 <= j < i ==> !(#[trigger] rules[j]).in_source_spec(v)) by {
        assert(rules[i].in_source_spec(v));
    }
    lemma_map_value_first_match(rules, v, i);
    let w = rules[i].map_spec(v);
    assert(rules[i].in_dest_spec(w));
    assert(forall|j: int| 0 <= j < i ==> !(#[trigger] rules[j]).in_dest_spec(w)) by {
        assert(rules[i].in_dest_spec(w));
    }
    lemma_unmap_value_first_match(rules, w, i);
}

/// The seven remapping stages, applied in a fixed order: seed to soil, soil
/// to fertilizer, fertilizer to water, water to light, light to temperature,
/// temperature to humidity, humidity to location.
#[derive(Debug)]
pub struct Almanac {
    pub seed_to_soil: Stage,
    pub soil_to_fertilizer: Stage,
    pub fertilizer_to_water: Stage,
    pub water_to_light: Stage,
    pub light_to_temperature: Stage,
    pub temperature_to_humidity: Stage,
    pub humidity_to_location: Stage,
}

/// A value fed through a sequence of stages, front stage first.
pub open spec fn resolve_seq(stages: Seq<Stage>, v: int) -> int
    decreases stages.len(),
{
    if stages.len() == 0 {
        v
    } else {
        resolve_seq(stages.drop_first(), stages[0].spec_map(v))
    }
}

impl Almanac {
    /// The stages, in the order in which a seed value meets them.
    pub open spec fn stages(self) -> Seq<Stage> {
        seq![
            self.seed_to_soil,
            self.soil_to_fertilizer,
            self.fertilizer_to_water,
            self.water_to_light,
            self.light_to_temperature,
            self.temperature_to_humidity,
            self.humidity_to_location,
        ]
    }

    /// Every stage keeps its rules within the `u64` range and free of
    /// source-interval overlaps, as the puzzle input guarantees.
    pub open spec fn wf(self) -> bool {
        forall|i: int|
            0 <= i < self.stages().len() ==> (#[trigger] self.stages()[i]).wf()
                && self.stages()[i].disjoint_sources()
    }

    /// Where the whole pipeline sends a seed value.
    pub open spec fn spec_resolve(self, v: int) -> int {
        self.humidity_to_location.spec_map(
            self.temperature_to_humidity.spec_map(
                self.light_to_temperature.spec_map(
                    self.water_to_light.spec_map(
                        self.fertilizer_to_water.spec_map(
                            self.soil_to_fertilizer.spec_map(self.seed_to_soil.spec_map(v)),
                        ),
                    ),
                ),
            ),
        )
    }

    /// Where the whole pipeline, run backward, pulls a location value to.
    pub open spec fn spec_resolve_inverse(self, v: int) -> int {
        self.seed_to_soil.spec_unmap(
            self.soil_to_fertilizer.spec_unmap(
                self.fertilizer_to_water.spec_unmap(
                    self.water_to_light.spec_unmap(
                        self.light_to_temperature.spec_unmap(
                            self.temperature_to_humidity.spec_unmap(
                                self.humidity_to_location.spec_unmap(v),
                            ),
                        ),
                    ),
                ),
            ),
        )
    }

    pub fn map_seed_to_soil(&self, seed: u64) -> (r: u64)
        requires
            self.wf(),
        ensures
            r == self.seed_to_soil.spec_map(seed as int),
    {
        proof {
            assert(self.stages()[0] == self.seed_to_soil);
        }
        self.seed_to_soil.map(seed)
    }

    pub fn map_seed_to_fertilizer(&self, seed: u64) -> (r: u64)
        requires
            self.wf(),
        ensures
            r == self.soil_to_fertilizer.spec_map(self.seed_to_soil.spec_map(seed as int)),
    {
        proof {
            assert(self.stages()[1] == self.soil_to_fertilizer);
        }
        self.soil_to_fertilizer.map(self.map_seed_to_soil(seed))
    }

    pub fn map_seed_to_water(&self, seed: u64) -> (r: u64)
        requires
            self.wf(),
        ensures
            r == self.fertilizer_to_water.spec_map(
                self.soil_to_fertilizer.spec_map(self.seed_to_soil.spec_map(seed as int)),
            ),
    {
        proof {
            assert(self.stages()[2] == self.fertilizer_to_water);
        }
        self.fertilizer_to_water.map(self.map_seed_to_fertilizer(seed))
    }

    pub fn map_seed_to_light(&self, seed: u64) -> (r: u64)
        requires
            self.wf(),
        ensures
            r == self.water_to_light.spec_map(
                self.fertilizer_to_water.spec_map(
                    self.soil_to_fertilizer.spec_map(self.seed_to_soil.spec_map(seed as int)),
                ),
            ),
    {
        proof {
            assert(self.stages()[3] == self.water_to_light);
        }
        self.water_to_light.map(self.map_seed_to_water(seed))
    }

    pub fn map_seed_to_temperature(&self, seed: u64) -> (r: u64)
        requires
            self.wf(),
        ensures
            r == self.light_to_temperature.spec_map(
                self.water_to_light.spec_map(
                    self.fertilizer_to_water.spec_map(
                        self.soil_to_fertilizer.spec_map(self.seed_to_soil.spec_map(seed as int)),
                    ),
                ),
            ),
    {
        proof {
            assert(self.stages()[4] == self.light_to_temperature);
        }
        self.light_to_temperature.map(self.map_seed_to_light(seed))
    }

    pub fn map_seed_to_humidity(&self, seed: u64) -> (r: u64)
        requires
            self.wf(),
        ensures
            r == self.temperature_to_humidity.spec_map(
                self.light_to_temperature.spec_map(
                    self.water_to_light.spec_map(
                        self.fertilizer_to_water.spec_map(
                            self.soil_to_fertilizer.spec_map(
                                self.seed_to_soil.spec_map(seed as int),
                            ),
                        ),
                    ),
                ),
            ),
    {
        proof {
            assert(self.stages()[5] == self.temperature_to_humidity);
        }
        self.temperature_to_humidity.map(self.map_seed_to_temperature(seed))
    }

    pub fn map_seed_to_location(&self, seed: u64) -> (r: u64)
        requires
            self.wf(),
        ensures
            r == self.spec_resolve(seed as int),
    {
        proof {
            assert(self.stages()[6] == self.humidity_to_location);
        }
        self.humidity_to_location.map(self.map_seed_to_humidity(seed))
    }

    /// Feed one value through all seven stages, front to back.  Total: the
    /// identity fallback of every stage leaves no value without an image.
    pub fn resolve_scalar(&self, value: u64) -> (r: u64)
        requires
            self.wf(),
        ensures
            r == self.spec_resolve(value as int),
    {
        self.map_seed_to_location(value)
    }

    /// Feed one value backward through all seven stages, back to front.
    pub fn resolve_scalar_inverse(&self, value: u64) -> (r: u64)
        requires
            self.wf(),
        ensures
            r == self.spec_resolve_inverse(value as int),
    {
        proof {
            assert(self.stages()[0] == self.seed_to_soil);
            assert(self.stages()[1] == self.soil_to_fertilizer);
            assert(self.stages()[2] == self.fertilizer_to_water);
            assert(self.stages()[3] == self.water_to_light);
            assert(self.stages()[4] == self.light_to_temperature);
            assert(self.stages()[5] == self.temperature_to_humidity);
            assert(self.stages()[6] == self.humidity_to_location);
        }
        let v6 = self.humidity_to_location.unmap(value);
        let v5 = self.temperature_to_humidity.unmap(v6);
        let v4 = self.light_to_temperature.unmap(v5);
        let v3 = self.water_to_light.unmap(v4);
        let v2 = self.fertilizer_to_water.unmap(v3);
        let v1 = self.soil_to_fertilizer.unmap(v2);
        self.seed_to_soil.unmap(v1)
    }
}

/// The original-domain ranges of a list of tracked pairs.
pub open spec fn origs(ps: Seq<(Range, Range)>) -> Seq<Range> {
    ps.map_values(|p: (Range, Range)| p.0)
}

/// The stages seen so far translate the original-domain range `orig` onto
/// the current-domain range `cur` as one constant offset.
pub open spec fn congruent(stages: Seq<Stage>, orig: Range, cur: Range) -> bool {
    &&& cur.high - cur.low == orig.high - orig.low
    &&& forall|v: int|
        orig.low <= v <= orig.high ==> #[trigger] resolve_seq(stages, v) == cur.low + (v
            - orig.low)
}

proof fn lemma_resolve_push(stages: Seq<Stage>, st: Stage, v: int)
    ensures
        resolve_seq(stages.push(st), v) == st.spec_map(resolve_seq(stages, v)),
    decreases stages.len(),
{
    if stages.len() == 0 {
        assert(stages.push(st)[0] == st);
        assert(stages.push(st).drop_first() =~= Seq::<Stage>::empty());
        assert(resolve_seq(Seq::<Stage>::empty(), st.spec_map(v)) == st.spec_map(v));
        assert(resolve_seq(stages, v) == v);
    } else {
        assert(stages.push(st)[0] == stages[0]);
        assert(stages.push(st).drop_first() =~= stages.drop_first().push(st));
        lemma_resolve_push(stages.drop_first(), st, stages[0].spec_map(v));
        assert(resolve_seq(stages.push(st), v) == resolve_seq(
            stages.drop_first().push(st),
            stages[0].spec_map(v),
        ));
        assert(resolve_seq(stages, v) == resolve_seq(stages.drop_first(), stages[0].spec_map(v)));
    }
}

proof fn lemma_resolve_stages(a: Almanac, v: int)
    ensures
        resolve_seq(a.stages(), v) == a.spec_resolve(v),
{
    let s0 = a.stages();
    let s1 = seq![
        a.soil_to_fertilizer,
        a.fertilizer_to_water,
        a.water_to_light,
        a.light_to_temperature,
        a.temperature_to_humidity,
        a.humidity_to_location,
    ];
    let s2 = seq![
        a.fertilizer_to_water,
        a.water_to_light,
        a.light_to_temperature,
        a.temperature_to_humidity,
        a.humidity_to_location,
    ];
    let s3 = seq![
        a.water_to_light,
        a.light_to_temperature,
        a.temperature_to_humidity,
        a.humidity_to_location,
    ];
    let s4 = seq![a.light_to_temperature, a.temperature_to_humidity, a.humidity_to_location];
    let s5 = seq![a.temperature_to_humidity, a.humidity_to_location];
    let s6 = seq![a.humidity_to_location];
    let v1 = a.seed_to_soil.spec_map(v);
    let v2 = a.soil_to_fertilizer.spec_map(v1);
    let v3 = a.fertilizer_to_water.spec_map(v2);
    let v4 = a.water_to_light.spec_map(v3);
    let v5 = a.light_to_temperature.spec_map(v4);
    let v6 = a.temperature_to_humidity.spec_map(v5);
    let v7 = a.humidity_to_location.spec_map(v6);
    assert(resolve_seq(s0, v) == resolve_seq(s1, v1)) by {
        assert(s0[0] == a.seed_to_soil);
        assert(s0.drop_first() =~= s1);
    }
    assert(resolve_seq(s1, v1) == resolve_seq(s2, v2)) by {
        assert(s1[0] == a.soil_to_fertilizer);
        assert(s1.drop_first() =~= s2);
    }
    assert(resolve_seq(s2, v2) == resolve_seq(s3, v3)) by {
        assert(s2[0] == a.fertilizer_to_water);
        assert(s2.drop_first() =~= s3);
    }
    assert(resolve_seq(s3, v3) == resolve_seq(s4, v4)) by {
        assert(s3[0] == a.water_to_light);
        assert(s3.drop_first() =~= s4);
    }
    assert(resolve_seq(s4, v4) == resolve_seq(s5, v5)) by {
        assert(s4[0] == a.light_to_temperature);
        assert(s4.drop_first() =~= s5);
    }
    assert(resolve_seq(s5, v5) == resolve_seq(s6, v6)) by {
        assert(s5[0] == a.temperature_to_humidity);
        assert(s5.drop_first() =~= s6);
    }
    assert(resolve_seq(s6, v6) == v7) by {
        assert(s6[0] == a.humidity_to_location);
        assert(s6.drop_first() =~= Seq::<Stage>::empty());
        assert(resolve_seq(Seq::<Stage>::empty(), v7) == v7);
    }
}

/// One refinement step of the pipeline split: every tracked pair is cut
/// along the given stage's rule boundaries, and the stage is applied to the
/// current-domain side of each resulting piece.
#[verifier::loop_isolation(false)]
#[verifier::rlimit(100)]
fn refine_stage(stage: &Stage, pairs: Vec<(Range, Range)>, done: Ghost<Seq<Stage>>) -> (out: Vec<
    (Range, Range),
>)
    requires
        stage.wf(),
        stage.disjoint_sources(),
        pairs@.len() >= 1,
        forall|i: int|
            0 <= i < pairs@.len() ==> (#[trigger] pairs@[i]).0.wf() && pairs@[i].1.wf()
                && congruent(done@, pairs@[i].0, pairs@[i].1),
        chained(origs(pairs@), pairs@[0].0.low as int, pairs@[pairs@.len() - 1].0.high as int),
    ensures
        out@.len() >= 1,
        forall|i: int|
            0 <= i < out@.len() ==> (#[trigger] out@[i]).0.wf() && out@[i].1.wf()
                && congruent(done@.push(*stage), out@[i].0, out@[i].1),
        chained(origs(out@), pairs@[0].0.low as int, pairs@[pairs@.len() - 1].0.high as int),
{
    let ghost lo = pairs@[0].0.low as int;
    let ghost hi = pairs@[pairs@.len() - 1].0.high as int;
    let mut out: Vec<(Range, Range)> = Vec::new();
    let mut pi: usize = 0;
    while pi < pairs.len()
        invariant
            0 <= pi <= pairs@.len(),
            pi == 0 ==> out@.len() == 0,
            pi > 0 ==> out@.len() >= 1 && chained(origs(out@), lo, pairs@[pi - 1].0.high as int),
            forall|i: int|
                0 <= i < out@.len() ==> (#[trigger] out@[i]).0.wf() && out@[i].1.wf()
                    && congruent(done@.push(*stage), out@[i].0, out@[i].1),
        decreases pairs@.len() - pi,
    {
        let orig = pairs[pi].0;
        let cur = pairs[pi].1;
        proof {
            if pi > 0 {
                // the previous original-domain range ends right before this one
                assert(origs(pairs@)[pi - 1] == pairs@[pi - 1].0);
                assert(origs(pairs@)[pi as int] == pairs@[pi as int].0);
            }
        }
        let pieces = stage.suggest_splits(cur);
        let mut k: usize = 0;
        while k < pieces.len()
            invariant
                0 <= k <= pieces@.len(),
                chained(pieces@, cur.low as int, cur.high as int),
                forall|i: int|
                    0 <= i < pieces@.len() ==> uniform_on(stage.mappings@, #[trigger] pieces@[i]),
                k == 0 && pi == 0 ==> out@.len() == 0,
                k == 0 && pi > 0 ==> out@.len() >= 1 && chained(origs(out@), lo, orig.low - 1),
                k > 0 ==> out@.len() >= 1 && chained(
                    origs(out@),
                    lo,
                    orig.low + (pieces@[k - 1].high - cur.low),
                ),
                forall|i: int|
                    0 <= i < out@.len() ==> (#[trigger] out@[i]).0.wf() && out@[i].1.wf()
                        && congruent(done@.push(*stage), out@[i].0, out@[i].1),
            decreases pieces@.len() - k,
        {
            proof {
                lemma_chained_bounds(pieces@, cur.low as int, cur.high as int, k as int);
            }
            let p = pieces[k];
            let o_low = orig.low + (p.low - cur.low);
            let o_high = orig.low + (p.high - cur.low);
            let q_low = stage.map(p.low);
            let q_high = stage.map(p.high);
            let o = Range { low: o_low, high: o_high };
            let q = Range { low: q_low, high: q_high };
            proof {
                assert(uniform_on(stage.mappings@, pieces@[k as int]));
                assert(map_value(stage.mappings@, p.high as int) == map_value(
                    stage.mappings@,
                    p.low as int,
                ) + (p.high - p.low));
                assert(q.high - q.low == o.high - o.low);
                assert forall|v: int| o.low <= v <= o.high implies #[trigger] resolve_seq(
                    done@.push(*stage),
                    v,
                ) == q.low + (v - o.low) by {
                    let w = cur.low + (v - orig.low);
                    assert(orig.low <= v <= orig.high);
                    assert(resolve_seq(done@, v) == w);
                    lemma_resolve_push(done@, *stage, v);
                    assert(p.low <= w <= p.high);
                    assert(map_value(stage.mappings@, w) == map_value(stage.mappings@, p.low as int)
                        + (w - p.low));
                }
                assert(congruent(done@.push(*stage), o, q));
                if k == 0 && pi == 0 {
                    assert(o.low == lo);
                } else if k == 0 {
                    assert(o.low == orig.low);
                } else {
                    assert(pieces@[k - 1].high + 1 == pieces@[k as int].low);
                }
                lemma_chained_push(origs(out@), lo, o);
            }
            let ghost old_out = out@;
            out.push((o, q));
            proof {
                assert(origs(out@) =~= origs(old_out).push(o));
            }
            k = k + 1;
        }
        proof {
            // the last piece ends at cur.high, so the chain now ends at orig.high
            assert(pieces@[pieces@.len() - 1].high == cur.high);
        }
        pi = pi + 1;
    }
    out
}

impl Almanac {
    /// Decompose an original-domain range into consecutive sub-ranges that
    /// travel congruently through all seven stages: on each sub-range the
    /// whole pipeline acts as one constant translation, so resolving a
    /// sub-range's endpoints accounts for all of its interior.
    #[verifier::loop_isolation(false)]
    pub fn suggest_splits(&self, range: Range) -> (res: Vec<Range>)
        requires
            self.wf(),
            range.wf(),
        ensures
            chained(res@, range.low as int, range.high as int),
            forall|i: int, v: int|
                0 <= i < res@.len() && #[trigger] res@[i].has(v) ==> self.spec_resolve(v)
                    == self.spec_resolve(res@[i].low as int) + (v - res@[i].low),
    {
        proof {
            assert(self.stages()[0] == self.seed_to_soil);
            assert(self.stages()[1] == self.soil_to_fertilizer);
            assert(self.stages()[2] == self.fertilizer_to_water);
            assert(self.stages()[3] == self.water_to_light);
            assert(self.stages()[4] == self.light_to_temperature);
            assert(self.stages()[5] == self.temperature_to_humidity);
            assert(self.stages()[6] == self.humidity_to_location);
        }
        let ghost d0: Seq<Stage> = Seq::empty();
        let ghost d1: Seq<Stage> = seq![self.seed_to_soil];
        let ghost d2: Seq<Stage> = seq![self.seed_to_soil, self.soil_to_fertilizer];
        let ghost d3: Seq<Stage> = seq![
            self.seed_to_soil,
            self.soil_to_fertilizer,
            self.fertilizer_to_water,
        ];
        let ghost d4: Seq<Stage> = seq![
            self.seed_to_soil,
            self.soil_to_fertilizer,
            self.fertilizer_to_water,
            self.water_to_light,
        ];
        let ghost d5: Seq<Stage> = seq![
            self.seed_to_soil,
            self.soil_to_fertilizer,
            self.fertilizer_to_water,
            self.water_to_light,
            self.light_to_temperature,
        ];
        let ghost d6: Seq<Stage> = seq![
            self.seed_to_soil,
            self.soil_to_fertilizer,
            self.fertilizer_to_water,
            self.water_to_light,
            self.light_to_temperature,
            self.temperature_to_humidity,
        ];
        let mut start: Vec<(Range, Range)> = Vec::new();
        start.push((range, range));
        proof {
            assert(origs(start@) =~= seq![range]);
            assert(congruent(d0, range, range)) by {
                assert(forall|v: int|
                    range.low <= v <= range.high ==> #[trigger] resolve_seq(d0, v) == v);
            }
        }
        let p1 = refine_stage(&self.seed_to_soil, start, Ghost(d0));
        proof {
            assert(d0.push(self.seed_to_soil) =~= d1);
        }
        let p2 = refine_stage(&self.soil_to_fertilizer, p1, Ghost(d1));
        proof {
            assert(d1.push(self.soil_to_fertilizer) =~= d2);
        }
        let p3 = refine_stage(&self.fertilizer_to_water, p2, Ghost(d2));
        proof {
            assert(d2.push(self.fertilizer_to_water) =~= d3);
        }
        let p4 = refine_stage(&self.water_to_light, p3, Ghost(d3));
        proof {
            assert(d3.push(self.water_to_light) =~= d4);
        }
        let p5 = refine_stage(&self.light_to_temperature, p4, Ghost(d4));
        proof {
            assert(d4.push(self.light_to_temperature) =~= d5);
        }
        let p6 = refine_stage(&self.temperature_to_humidity, p5, Ghost(d5));
        proof {
            assert(d5.push(self.temperature_to_humidity) =~= d6);
        }
        let p7 = refine_stage(&self.humidity_to_location, p6, Ghost(d6));
        proof {
            assert(d6.push(self.humidity_to_location) =~= self.stages());
        }
        let mut res: Vec<Range> = Vec::new();
        let mut i: usize = 0;
        while i < p7.len()
            invariant
                0 <= i <= p7@.len(),
                res@ =~= origs(p7@).take(i as int),
            decreases p7@.len() - i,
        {
            res.push(p7[i].0);
            proof {
                assert(origs(p7@)[i as int] == p7@[i as int].0);
                assert(origs(p7@).take(i + 1) =~= origs(p7@).take(i as int).push(p7@[i as int].0));
            }
            i = i + 1;
        }
        proof {
            assert(res@ =~= origs(p7@));
            assert forall|i2: int, v: int|
                0 <= i2 < res@.len() && #[trigger] res@[i2].has(v) implies self.spec_resolve(v)
                == self.spec_resolve(res@[i2].low as int) + (v - res@[i2].low) by {
                let orig = p7@[i2].0;
                let cur = p7@[i2].1;
                assert(congruent(self.stages(), orig, cur));
                assert(resolve_seq(self.stages(), v) == cur.low + (v - orig.low));
                assert(resolve_seq(self.stages(), orig.low as int) == cur.low);
                lemma_resolve_stages(*self, v);
                lemma_resolve_stages(*self, orig.low as int);
            }
        }
        res
    }

    /// The least location value reachable from any value of the given
    /// original-domain ranges, found by splitting each range into congruent
    /// sub-ranges and resolving only their endpoints.  `None` exactly when
    /// no range was given.
    #[verifier::loop_isolation(false)]
    pub fn resolve_minimum(&self, ranges: &Vec<Range>) -> (r: Option<u64>)
        requires
            self.wf(),
            forall|i: int| 0 <= i < ranges@.len() ==> (#[trigger] ranges@[i]).wf(),
        ensures
            r is Some <==> ranges@.len() > 0,
            r is Some ==> forall|i: int, v: int|
                0 <= i < ranges@.len() && #[trigger] ranges@[i].has(v) ==> r->0
                    <= self.spec_resolve(v),
            r is Some ==> exists|i: int, v: int|
                0 <= i < ranges@.len() && #[trigger] ranges@[i].has(v) && r->0
                    == self.spec_resolve(v),
    {
        let mut best: Option<u64> = None;
        let ghost mut wit_i: int = 0;
        let ghost mut wit_v: int = 0;
        let mut i: usize = 0;
        while i < ranges.len()
            invariant
                0 <= i <= ranges@.len(),
                best is Some <==> i > 0,
                best is Some ==> forall|j: int, v: int|
                    0 <= j < i && #[trigger] ranges@[j].has(v) ==> best->0
                        <= self.spec_resolve(v),
                best is Some ==> 0 <= wit_i < i && ranges@[wit_i].has(wit_v) && best->0
                    == self.spec_resolve(wit_v),
            decreases ranges@.len() - i,
        {
            let range = ranges[i];
            let pieces = self.suggest_splits(range);
            let ghost pieces_seq = pieces@;
            let mut k: usize = 0;
            while k < pieces.len()
                invariant
                    0 <= k <= pieces@.len(),
                    pieces@ == pieces_seq,
                    chained(pieces@, range.low as int, range.high as int),
                    forall|p: int, v: int|
                        0 <= p < pieces@.len() && #[trigger] pieces@[p].has(v)
                            ==> self.spec_resolve(v) == self.spec_resolve(pieces@[p].low as int) + (
                        v - pieces@[p].low),
                    best is Some <==> (i > 0 || k > 0),
                    best is Some ==> forall|j: int, v: int|
                        0 <= j < i && #[trigger] ranges@[j].has(v) ==> best->0
                            <= self.spec_resolve(v),
                    best is Some ==> forall|p: int, v: int|
                        0 <= p < k && #[trigger] pieces@[p].has(v) ==> best->0
                            <= self.spec_resolve(v),
                    best is Some ==> (0 <= wit_i < ranges@.len() && ranges@[wit_i].has(wit_v)
                        && best->0 == self.spec_resolve(wit_v)),
                    best is Some ==> wit_i <= i,
                    best is Some && wit_i == i ==> i < ranges@.len(),
                decreases pieces@.len() - k,
            {
                let p = pieces[k];
                let lo_val = self.resolve_scalar(p.low);
                let hi_val = self.resolve_scalar(p.high);
                let cand = if lo_val <= hi_val {
                    lo_val
                } else {
                    hi_val
                };
                proof {
                    lemma_chained_bounds(pieces@, range.low as int, range.high as int, k as int);
                    assert(pieces@[k as int].has(p.low as int));
                    assert(pieces@[k as int].has(p.high as int));
                    assert(self.spec_resolve(p.high as int) == self.spec_resolve(p.low as int) + (
                    p.high - p.low));
                    assert(cand == lo_val);
                }
                match best {
                    None => {
                        best = Some(cand);
                        proof {
                            wit_i = i as int;
                            wit_v = p.low as int;
                        }
                    },
                    Some(b) => {
                        if cand < b {
                            best = Some(cand);
                            proof {
                                wit_i = i as int;
                                wit_v = p.low as int;
                            }
                        }
                    },
                }
                proof {
                    assert forall|pp: int, v: int|
                        0 <= pp < k + 1 && #[trigger] pieces@[pp].has(v) implies best->0
                        <= self.spec_resolve(v) by {
                        if pp == k {
                            assert(self.spec_resolve(v) == self.spec_resolve(p.low as int) + (v
                                - p.low));
                        }
                    }
                }
                k = k + 1;
            }
            proof {
                assert forall|j: int, v: int|
                    0 <= j < i + 1 && #[trigger] ranges@[j].has(v) implies best->0
                    <= self.spec_resolve(v) by {
                    if j == i {
                        lemma_chained_cover(pieces@, range.low as int, range.high as int, v);
                        let p = choose|p: int|
                            0 <= p < pieces@.len() && #[trigger] pieces@[p].has(v);
                        assert(best->0 <= self.spec_resolve(v));
                    }
                }
            }
            i = i + 1;
        }
        best
    }
}

} // verus!
