//! The part-sorting puzzle: parts with four ratings travel through named
//! workflows; each workflow is a list of conditional rules that send a part
//! on to another workflow, accept it, or reject it.  Rules can also be
//! applied to whole rating ranges, splitting them at rule boundaries.

use vstd::prelude::*;

verus! {

/// One part, rated in the four categories x, m, a and s.
#[derive(Debug, Clone, Copy, PartialEq, Eq, Structural)]
pub struct Part {
    pub x: u64,
    pub m: u64,
    pub a: u64,
    pub s: u64,
}

/// The part's rating in the category named by `attr`.
pub open spec fn attr_of(p: Part, attr: char) -> u64 {
    if attr == 'x' {
        p.x
    } else if attr == 'm' {
        p.m
    } else if attr == 'a' {
        p.a
    } else {
        p.s
    }
}

impl Part {
    /// The sum of the part's four ratings.
    pub fn value(&self) -> (r: u64)
        requires
            self.x + self.m + self.a + self.s <= u64::MAX,
        ensures
            r == self.x + self.m + self.a + self.s,
    {
        self.x + self.m + self.a + self.s
    }
}

/// One comparison against a rating: `attr` is one of x, m, a, s, and
/// `operator` is `<` or `>`.
#[derive(Debug, Clone, PartialEq, Eq, Structural)]
pub struct Condition {
    pub attr: char,
    pub operator: char,
    pub value: u64,
}

/// The condition's fields are the ones the puzzle grammar produces, with
/// the threshold clear of the `u64` ends, so that inverting it stays in
/// range.
pub open spec fn cond_valid(c: Condition) -> bool {
    &&& (c.attr == 'x' || c.attr == 'm' || c.attr == 'a' || c.attr == 's')
    &&& (c.operator == '<' && c.value >= 1 || c.operator == '>' && c.value < u64::MAX)
}

/// A quadruple of inclusive rating ranges, one per category.
pub type RatingRanges = ((u64, u64), (u64, u64), (u64, u64), (u64, u64));

/// The range of the category named by `attr`.
pub open spec fn range_of(r: RatingRanges, attr: char) -> (u64, u64) {
    if attr == 'x' {
        r.0
    } else if attr == 'm' {
        r.1
    } else if attr == 'a' {
        r.2
    } else {
        r.3
    }
}

/// `r` with the range of the category named by `attr` replaced.
pub open spec fn with_range(r: RatingRanges, attr: char, nr: (u64, u64)) -> RatingRanges {
    if attr == 'x' {
        (nr, r.1, r.2, r.3)
    } else if attr == 'm' {
        (r.0, nr, r.2, r.3)
    } else if attr == 'a' {
        (r.0, r.1, nr, r.3)
    } else {
        (r.0, r.1, r.2, nr)
    }
}

impl Condition {
    /// Does the part satisfy the comparison?
    pub open spec fn spec_matches(self, part: Part) -> bool {
        if self.operator == '<' {
            attr_of(part, self.attr) < self.value
        } else {
            attr_of(part, self.attr) > self.value
        }
    }

    pub fn matches(&self, part: &Part) -> (r: bool)
        requires
            cond_valid(*self),
        ensures
            r == self.spec_matches(*part),
    {
        match self.operator {
            '<' => match self.attr {
                'x' => part.x < self.value,
                'm' => part.m < self.value,
                'a' => part.a < self.value,
                's' => part.s < self.value,
                _ => false,
            },
            '>' => match self.attr {
                'x' => part.x > self.value,
                'm' => part.m > self.value,
                'a' => part.a > self.value,
                's' => part.s > self.value,
                _ => false,
            },
            _ => false,
        }
    }

    /// The complementary comparison: `< v` becomes `> v - 1`, and `> v`
    /// becomes `< v + 1`.
    pub fn invert(&self) -> (r: Condition)
        requires
            cond_valid(*self),
        ensures
            r.attr == self.attr,
            self.operator == '<' ==> r.operator == '>' && r.value == self.value - 1,
            self.operator == '>' ==> r.operator == '<' && r.value == self.value + 1,
    {
        match self.operator {
            '<' => Condition { attr: self.attr, operator: '>', value: self.value - 1 },
            _ => Condition { attr: self.attr, operator: '<', value: self.value + 1 },
        }
    }

    /// One range quadruple narrowed to the part of its `attr` range that
    /// satisfies the comparison — except that a range which the cut would
    /// empty or reduce to one value is kept whole.
    pub open spec fn spec_split_one(self, r: RatingRanges) -> RatingRanges {
        let (low, high) = range_of(r, self.attr);
        let nlow = if self.operator == '>' && low < self.value + 1 {
            self.value + 1
        } else {
            low as int
        };
        let nhigh = if self.operator == '<' && high > self.value - 1 {
            self.value - 1
        } else {
            high as int
        };
        if nlow < nhigh {
            with_range(r, self.attr, (nlow as u64, nhigh as u64))
        } else {
            r
        }
    }

    /// Narrow every quadruple of the list to the comparison.
    pub fn split(&self, ranges: &Vec<RatingRanges>) -> (out: Vec<RatingRanges>)
        requires
            cond_valid(*self),
        ensures
            out@.len() == ranges@.len(),
            forall|i: int|
                0 <= i < ranges@.len() ==> out@[i] == self.spec_split_one(#[trigger] ranges@[i]),
    {
        let n = ranges.len();
        let mut out: Vec<RatingRanges> = Vec::new();
        let mut i: usize = 0;
        while i < n
            invariant
                n == ranges@.len(),
                cond_valid(*self),
                0 <= i <= n,
                out@.len() == i,
                forall|j: int|
                    0 <= j < i ==> out@[j] == self.spec_split_one(#[trigger] ranges@[j]),
            decreases n - i,
        {
            let range = ranges[i];
            let (mut low, mut high) = match self.attr {
                'x' => range.0,
                'm' => range.1,
                'a' => range.2,
                _ => range.3,
            };
            match self.operator {
                '>' => {
                    if low < self.value + 1 {
                        low = self.value + 1;
                    }
                },
                _ => {
                    if high > self.value - 1 {
                        high = self.value - 1;
                    }
                },
            }
            if low < high {
                let nr = (low, high);
                let replaced = match self.attr {
                    'x' => (nr, range.1, range.2, range.3),
                    'm' => (range.0, nr, range.2, range.3),
                    'a' => (range.0, range.1, nr, range.3),
                    _ => (range.0, range.1, range.2, nr),
                };
                out.push(replaced);
            } else {
                out.push(range);
            }
            i = i + 1;
        }
        out
    }
}

/// One rule of a workflow: an optional condition and the action taken when
/// it holds (a workflow name, or `A` / `R`).
#[derive(Debug, Clone)]
pub struct Rule {
    pub condition: Option<Condition>,
    pub action: String,
}

impl Rule {
    /// An unconditional rule matches every part.
    pub open spec fn spec_matches(self, part: Part) -> bool {
        match self.condition {
            Option::None => true,
            Option::Some(c) => c.spec_matches(part),
        }
    }

    pub fn matches(&self, part: &Part) -> (r: bool)
        requires
            self.condition is Some ==> cond_valid(self.condition->0),
        ensures
            r == self.spec_matches(*part),
    {
        if let Some(condition) = &self.condition {
            condition.matches(part)
        } else {
            true
        }
    }
}

/// The first rule of the list that matches the part.
pub open spec fn first_matching_rule(rules: Seq<Rule>, part: Part) -> Option<Rule>
    decreases rules.len(),
{
    if rules.len() == 0 {
        None
    } else if rules[0].spec_matches(part) {
        Some(rules[0])
    } else {
        first_matching_rule(rules.drop_first(), part)
    }
}

proof fn lemma_first_matching_at(rules: Seq<Rule>, part: Part, k: int)
    requires
        0 <= k < rules.len(),
        forall|j: int| 0 <= j < k ==> !(#[trigger] rules[j]).spec_matches(part),
        rules[k].spec_matches(part),
    ensures
        first_matching_rule(rules, part) == Some(rules[k]),
    decreases k,
{
    if k > 0 {
        assert(forall|j: int| 0 <= j < k - 1 ==> rules.drop_first()[j] == rules[j + 1]);
        lemma_first_matching_at(rules.drop_first(), part, k - 1);
    }
}

/// One named workflow: its rules in order.
#[derive(Debug, Clone)]
pub struct Workflow {
    pub name: String,
    pub rules: Vec<Rule>,
}

impl Workflow {
    pub open spec fn rules_valid(self) -> bool {
        forall|i: int|
            0 <= i < self.rules@.len() ==> ((#[trigger] self.rules@[i]).condition is Some
                ==> cond_valid(self.rules@[i].condition->0))
    }

    /// The action of the first rule that matches the part.  Some rule must
    /// match; in the puzzle the last rule of every workflow is
    /// unconditional.
    pub fn apply(&self, part: &Part) -> (r: String)
        requires
            self.rules_valid(),
            exists|i: int|
                0 <= i < self.rules@.len() && (#[trigger] self.rules@[i]).spec_matches(*part),
        ensures
            first_matching_rule(self.rules@, *part) is Some,
            r@ == first_matching_rule(self.rules@, *part)->0.action@,
    {
        let n = self.rules.len();
        let mut i: usize = 0;
        while i < n
            invariant
                n == self.rules@.len(),
                self.rules_valid(),
                0 <= i <= n,
                exists|j: int|
                    0 <= j < self.rules@.len() && (#[trigger] self.rules@[j]).spec_matches(*part),
                forall|j: int| 0 <= j < i ==> !(#[trigger] self.rules@[j]).spec_matches(*part),
            decreases n - i,
        {
            if self.rules[i].matches(part) {
                proof {
                    lemma_first_matching_at(self.rules@, *part, i as int);
                }
                return self.rules[i].action.clone();
            }
            i = i + 1;
        }
        // unreachable: some rule was required to match
        proof {
            let j = choose|j: int|
                0 <= j < self.rules@.len() && (#[trigger] self.rules@[j]).spec_matches(*part);
            assert(false);
        }
        String::new()
    }
}

proof fn lemma_first_matching_exists(rules: Seq<Rule>, part: Part)
    requires
        first_matching_rule(rules, part) is Some,
    ensures
        exists|i: int| 0 <= i < rules.len() && (#[trigger] rules[i]).spec_matches(part),
    decreases rules.len(),
{
    if rules.len() > 0 {
        if rules[0].spec_matches(part) {
            assert(rules[0].spec_matches(part));
        } else {
            lemma_first_matching_exists(rules.drop_first(), part);
            let i = choose|i: int|
                0 <= i < rules.drop_first().len() && (#[trigger] rules.drop_first()[i]).spec_matches(
                    part,
                );
            assert(rules[i + 1].spec_matches(part));
        }
    }
}

/// The first workflow of the list carrying the given name.
pub open spec fn find_workflow(wfs: Seq<Workflow>, name: Seq<char>) -> Option<Workflow>
    decreases wfs.len(),
{
    if wfs.len() == 0 {
        None
    } else if wfs[0].name@ == name {
        Some(wfs[0])
    } else {
        find_workflow(wfs.drop_first(), name)
    }
}

proof fn lemma_find_workflow_at(wfs: Seq<Workflow>, name: Seq<char>, k: int)
    requires
        0 <= k < wfs.len(),
        forall|j: int| 0 <= j < k ==> (#[trigger] wfs[j]).name@ != name,
        wfs[k].name@ == name,
    ensures
        find_workflow(wfs, name) == Some(wfs[k]),
    decreases k,
{
    if k > 0 {
        assert(forall|j: int| 0 <= j < k - 1 ==> wfs.drop_first()[j] == wfs[j + 1]);
        lemma_find_workflow_at(wfs.drop_first(), name, k - 1);
    }
}

proof fn lemma_find_workflow_none(wfs: Seq<Workflow>, name: Seq<char>)
    requires
        forall|j: int| 0 <= j < wfs.len() ==> (#[trigger] wfs[j]).name@ != name,
    ensures
        find_workflow(wfs, name) is None,
    decreases wfs.len(),
{
    if wfs.len() > 0 {
        assert(forall|j: int| 0 <= j < wfs.len() - 1 ==> wfs.drop_first()[j] == wfs[j + 1]);
        lemma_find_workflow_none(wfs.drop_first(), name);
    }
}

/// Where the chase from the workflow named `name` ends, within `fuel`
/// steps: `A` or `R` when it gets there, `None` when a workflow is
/// missing, a workflow matches no rule, or the fuel runs out.
pub open spec fn chase(wfs: Seq<Workflow>, name: Seq<char>, part: Part, fuel: nat) -> Option<
    Seq<char>,
>
    decreases fuel,
{
    if name == "A"@ || name == "R"@ {
        Some(name)
    } else if fuel == 0 {
        None
    } else {
        match find_workflow(wfs, name) {
            None => None,
            Some(wf) => match first_matching_rule(wf.rules@, part) {
                None => None,
                Some(rule) => chase(wfs, rule.action@, part, (fuel - 1) as nat),
            },
        }
    }
}

impl Part {
    /// Chase the part from the workflow named `in` until it is accepted
    /// (`A`) or rejected (`R`).  The chase must come to rest: a cyclic set
    /// of workflows would be chased forever, and a missing name or a part
    /// that matches no rule has nowhere to go.  One more step than there
    /// are workflows is enough for every chase that ends, since revisiting
    /// a workflow with the same part could only repeat itself.
    pub fn is_accepted(&self, workflows: &Vec<Workflow>) -> (r: bool)
        requires
            forall|i: int| 0 <= i < workflows@.len() ==> (#[trigger] workflows@[i]).rules_valid(),
            chase(workflows@, "in"@, *self, workflows@.len() + 1) is Some,
        ensures
            r == (chase(workflows@, "in"@, *self, workflows@.len() + 1)->0 == "A"@),
    {
        let a_name: String = "A".to_owned();
        let r_name: String = "R".to_owned();
        let mut curr: String = "in".to_owned();
        let ghost mut fuel: nat = (workflows@.len() + 1) as nat;
        proof {
            assert(chase(workflows@, curr@, *self, fuel) is Some);
        }
        while !(curr == a_name || curr == r_name)
            invariant
                forall|i: int|
                    0 <= i < workflows@.len() ==> (#[trigger] workflows@[i]).rules_valid(),
                a_name@ == "A"@,
                r_name@ == "R"@,
                chase(workflows@, curr@, *self, fuel) is Some,
                chase(workflows@, curr@, *self, fuel) == chase(
                    workflows@,
                    "in"@,
                    *self,
                    workflows@.len() + 1,
                ),
            decreases fuel,
        {
            proof {
                // the chase has not ended, so fuel is left and a workflow
                // with a matching rule exists
                assert(curr@ != "A"@ && curr@ != "R"@);
                assert(fuel > 0);
                assert(find_workflow(workflows@, curr@) is Some);
                assert(first_matching_rule(find_workflow(workflows@, curr@)->0.rules@, *self)
                    is Some);
            }
            let n = workflows.len();
            let mut i: usize = 0;
            let mut next: Option<String> = None;
            while i < n
                invariant
                    n == workflows@.len(),
                    forall|k: int|
                        0 <= k < workflows@.len() ==> (#[trigger] workflows@[k]).rules_valid(),
                    find_workflow(workflows@, curr@) is Some,
                    first_matching_rule(find_workflow(workflows@, curr@)->0.rules@, *self)
                        is Some,
                    0 <= i <= n,
                    next is None ==> forall|j: int|
                        0 <= j < i ==> (#[trigger] workflows@[j]).name@ != curr@,
                    next is Some ==> next->0@ == first_matching_rule(
                        find_workflow(workflows@, curr@)->0.rules@,
                        *self,
                    )->0.action@,
                decreases n - i,
            {
                if next.is_none() && workflows[i].name == curr {
                    proof {
                        lemma_find_workflow_at(workflows@, curr@, i as int);
                        lemma_first_matching_exists(workflows@[i as int].rules@, *self);
                    }
                    next = Some(workflows[i].apply(self));
                }
                i = i + 1;
            }
            proof {
                if next is None {
                    lemma_find_workflow_none(workflows@, curr@);
                    assert(false);
                }
            }
            curr = next.unwrap();
            proof {
                fuel = (fuel - 1) as nat;
            }
        }
        curr == a_name
    }
}

/// The whole rating space: 1 to 4000 in every category.
pub open spec fn full_ranges() -> RatingRanges {
    ((1u64, 4000u64), (1u64, 4000u64), (1u64, 4000u64), (1u64, 4000u64))
}

/// The rating-range quadruples accepted from the given tail of a rule
/// list, within `fuel` workflow hops: an unconditional `A` accepts the
/// whole space, `R` accepts nothing, a name continues in that workflow,
/// and a conditional rule narrows what its action accepts by the condition
/// and what the remaining rules accept by its complement.  `None` when a
/// rule list runs empty, a name is missing, a condition is malformed, or
/// the fuel runs out.
pub open spec fn spec_accepted_ranges(
    wfs: Seq<Workflow>,
    rules: Seq<Rule>,
    fuel: nat,
) -> Option<Seq<RatingRanges>>
    decreases fuel, rules.len(),
{
    if rules.len() == 0 {
        None
    } else {
        match rules[0].condition {
            Option::None => {
                if rules[0].action@ == "A"@ {
                    Some(seq![full_ranges()])
                } else if rules[0].action@ == "R"@ {
                    Some(Seq::empty())
                } else if fuel == 0 {
                    None
                } else {
                    match find_workflow(wfs, rules[0].action@) {
                        Option::None => None,
                        Option::Some(wf) => spec_accepted_ranges(
                            wfs,
                            wf.rules@,
                            (fuel - 1) as nat,
                        ),
                    }
                }
            },
            Option::Some(c) => {
                if !cond_valid(c) {
                    None
                } else {
                    let matched = if rules[0].action@ == "A"@ {
                        Some(seq![full_ranges()])
                    } else if rules[0].action@ == "R"@ {
                        Some(Seq::<RatingRanges>::empty())
                    } else if fuel == 0 {
                        None
                    } else {
                        match find_workflow(wfs, rules[0].action@) {
                            Option::None => None,
                            Option::Some(wf) => spec_accepted_ranges(
                                wfs,
                                wf.rules@,
                                (fuel - 1) as nat,
                            ),
                        }
                    };
                    let rest = spec_accepted_ranges(wfs, rules.drop_first(), fuel);
                    match (matched, rest) {
                        (Option::Some(m), Option::Some(t)) => Some(
                            m.map_values(|rr: RatingRanges| c.spec_split_one(rr)) + t.map_values(
                                |rr: RatingRanges| spec_inverted(c).spec_split_one(rr),
                            ),
                        ),
                        _ => None,
                    }
                }
            },
        }
    }
}

/// The complement of a valid comparison, as `invert` builds it.
pub open spec fn spec_inverted(c: Condition) -> Condition {
    if c.operator == '<' {
        Condition { attr: c.attr, operator: '>', value: (c.value - 1) as u64 }
    } else {
        Condition { attr: c.attr, operator: '<', value: (c.value + 1) as u64 }
    }
}

/// The accepted ranges of the rules of `rules` from position `start` on.
#[verifier::loop_isolation(false)]
fn accepted_ranges_from(
    workflows: &Vec<Workflow>,
    rules: &Vec<Rule>,
    start: usize,
    fuel: usize,
) -> (out: Vec<RatingRanges>)
    requires
        forall|i: int| 0 <= i < workflows@.len() ==> (#[trigger] workflows@[i]).rules_valid(),
        start <= rules@.len(),
        spec_accepted_ranges(workflows@, rules@.skip(start as int), fuel as nat) is Some,
    ensures
        out@ == spec_accepted_ranges(workflows@, rules@.skip(start as int), fuel as nat)->0,
    decreases fuel, rules@.len() - start,
{
    let ghost tail = rules@.skip(start as int);
    proof {
        assert(tail.len() == rules@.len() - start);
        if tail.len() > 0 {
            assert(tail[0] == rules@[start as int]);
        }
    }
    if start >= rules.len() {
        // excluded: an empty rule list has no accepted ranges
        proof {
            assert(false);
        }
        return Vec::new();
    }
    let rule = &rules[start];
    let a_name: String = "A".to_owned();
    let r_name: String = "R".to_owned();
    match &rule.condition {
        None => {
            if rule.action == a_name {
                let mut out: Vec<RatingRanges> = Vec::new();
                out.push(((1, 4000), (1, 4000), (1, 4000), (1, 4000)));
                proof {
                    assert(out@ =~= seq![full_ranges()]);
                }
                out
            } else if rule.action == r_name {
                let out: Vec<RatingRanges> = Vec::new();
                proof {
                    assert(out@ =~= Seq::<RatingRanges>::empty());
                }
                out
            } else {
                proof {
                    assert(fuel > 0);
                    assert(find_workflow(workflows@, rule.action@) is Some);
                }
                let wf = lookup_workflow(workflows, &rule.action);
                proof {
                    assert(wf.rules@.skip(0) =~= wf.rules@);
                    assert(spec_accepted_ranges(workflows@, wf.rules@, (fuel - 1) as nat)
                        is Some);
                }
                accepted_ranges_from(workflows, &wf.rules, 0, fuel - 1)
            }
        },
        Some(c) => {
            proof {
                assert(cond_valid(*c));
            }
            let matched: Vec<RatingRanges> = if rule.action == a_name {
                let mut m: Vec<RatingRanges> = Vec::new();
                m.push(((1, 4000), (1, 4000), (1, 4000), (1, 4000)));
                proof {
                    assert(m@ =~= seq![full_ranges()]);
                }
                m
            } else if rule.action == r_name {
                Vec::new()
            } else {
                proof {
                    assert(fuel > 0);
                    assert(find_workflow(workflows@, rule.action@) is Some);
                }
                let wf = lookup_workflow(workflows, &rule.action);
                proof {
                    assert(wf.rules@.skip(0) =~= wf.rules@);
                    assert(spec_accepted_ranges(workflows@, wf.rules@, (fuel - 1) as nat)
                        is Some);
                }
                accepted_ranges_from(workflows, &wf.rules, 0, fuel - 1)
            };
            proof {
                assert(rules@.skip(start as int).drop_first() =~= rules@.skip(start + 1));
            }
            let rest = accepted_ranges_from(workflows, rules, start + 1, fuel);
            let inverted = c.invert();
            let mut out = c.split(&matched);
            let mut rest_split = inverted.split(&rest);
            let ghost m_spec = matched@.map_values(|rr: RatingRanges| c.spec_split_one(rr));
            let ghost t_spec = rest@.map_values(
                |rr: RatingRanges| spec_inverted(*c).spec_split_one(rr),
            );
            proof {
                assert(inverted == spec_inverted(*c));
                assert(out@ =~= m_spec);
                assert(rest_split@ =~= t_spec);
            }
            out.append(&mut rest_split);
            proof {
                assert(out@ =~= m_spec + t_spec);
            }
            out
        },
    }
}

/// The first workflow of the list with the given name, which must occur.
fn lookup_workflow<'a>(workflows: &'a Vec<Workflow>, name: &String) -> (r: &'a Workflow)
    requires
        find_workflow(workflows@, name@) is Some,
    ensures
        *r == find_workflow(workflows@, name@)->0,
{
    let n = workflows.len();
    let mut i: usize = 0;
    while i < n
        invariant
            n == workflows@.len(),
            find_workflow(workflows@, name@) is Some,
            0 <= i <= n,
            forall|j: int| 0 <= j < i ==> (#[trigger] workflows@[j]).name@ != name@,
        decreases n - i,
    {
        if workflows[i].name == *name {
            proof {
                lemma_find_workflow_at(workflows@, name@, i as int);
            }
            return &workflows[i];
        }
        i = i + 1;
    }
    proof {
        lemma_find_workflow_none(workflows@, name@);
        assert(false);
    }
    &workflows[0]
}

impl Workflow {
    /// The rating-range quadruples from which this workflow accepts a
    /// part, following names into the other workflows for at most `fuel`
    /// hops.  (The hop bound is what guarantees the walk ends; one hop
    /// per workflow is enough when no cycle is reachable.)
    pub fn get_accepted_ranges(&self, workflows: &Vec<Workflow>, fuel: usize) -> (out: Vec<
        RatingRanges,
    >)
        requires
            forall|i: int| 0 <= i < workflows@.len() ==> (#[trigger] workflows@[i]).rules_valid(),
            spec_accepted_ranges(workflows@, self.rules@, fuel as nat) is Some,
        ensures
            out@ == spec_accepted_ranges(workflows@, self.rules@, fuel as nat)->0,
    {
        proof {
            assert(self.rules@.skip(0) =~= self.rules@);
        }
        accepted_ranges_from(workflows, &self.rules, 0, fuel)
    }
}

} // verus!
