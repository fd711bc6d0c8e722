//! The damaged-springs puzzle: rows of operational, broken and unknown
//! springs, with the lengths of the runs of broken springs given; the
//! answer counts the assignments of the unknown springs that realize
//! exactly those runs.

use vstd::prelude::*;

verus! {

#[derive(Debug, PartialEq, Eq, Clone, Copy, Structural, Hash)]
pub enum SpringStatus {
    Operational,
    Broken,
    Unknown,
}

/// The total length of the given broken runs.
pub open spec fn chain_sum(c: Seq<usize>) -> int
    decreases c.len(),
{
    if c.len() == 0 {
        0
    } else {
        chain_sum(c.drop_last()) + c.last()
    }
}

pub open spec fn has_broken(s: Seq<SpringStatus>) -> bool {
    exists|i: int| 0 <= i < s.len() && s[i] == SpringStatus::Broken
}

/// 1 when the row starts with an unknown spring; the measure that shrinks
/// when that spring is decided.
pub open spec fn head_unknown(s: Seq<SpringStatus>) -> int {
    if s.len() > 0 && s[0] == SpringStatus::Unknown {
        1
    } else {
        0
    }
}

/// The number of ways to decide the unknown springs of `s` so that the
/// broken springs form exactly the runs of `c`, in order, by a greedy
/// recursion: an operational head is dropped, a broken head must begin a
/// full run followed by a non-broken spring, an unknown head is counted
/// both ways.
pub open spec fn count_spec(s: Seq<SpringStatus>, c: Seq<usize>) -> int
    decreases s.len(), head_unknown(s),
{
    if s.len() == 0 {
        if c.len() == 0 {
            1
        } else {
            0
        }
    } else if c.len() == 0 {
        if has_broken(s) {
            0
        } else {
            1
        }
    } else if s.len() < c.len() + chain_sum(c) - 1 {
        0
    } else {
        match s[0] {
            SpringStatus::Operational => count_spec(s.drop_first(), c),
            SpringStatus::Broken => {
                let run = c[0] as int;
                if s.len() < run || (run < s.len() && s[run] == SpringStatus::Broken) || (exists|
                    i: int,
                |
                    0 <= i < run && i < s.len() && s[i] == SpringStatus::Operational) {
                    0
                } else if run < s.len() {
                    count_spec(s.skip(run + 1), c.drop_first())
                } else {
                    1
                }
            },
            SpringStatus::Unknown => count_spec(s.update(0, SpringStatus::Operational), c)
                + count_spec(s.update(0, SpringStatus::Broken), c),
        }
    }
}

proof fn lemma_count_nonneg(s: Seq<SpringStatus>, c: Seq<usize>)
    ensures
        count_spec(s, c) >= 0,
    decreases s.len(), head_unknown(s),
{
    if s.len() == 0 {
    } else if c.len() == 0 {
    } else if s.len() < c.len() + chain_sum(c) - 1 {
    } else {
        match s[0] {
            SpringStatus::Operational => {
                lemma_count_nonneg(s.drop_first(), c);
            },
            SpringStatus::Broken => {
                let run = c[0] as int;
                if run < s.len() {
                    lemma_count_nonneg(s.skip(run + 1), c.drop_first());
                }
            },
            SpringStatus::Unknown => {
                lemma_count_nonneg(s.update(0, SpringStatus::Operational), c);
                lemma_count_nonneg(s.update(0, SpringStatus::Broken), c);
            },
        }
    }
}

proof fn lemma_chain_sum_first(c: Seq<usize>)
    requires
        c.len() > 0,
    ensures
        chain_sum(c) == c[0] + chain_sum(c.drop_first()),
    decreases c.len(),
{
    if c.len() == 1 {
        assert(c.drop_first() =~= Seq::<usize>::empty());
        assert(c.drop_last() =~= Seq::<usize>::empty());
        assert(chain_sum(c.drop_last()) == 0);
    } else {
        assert(c.drop_last().drop_first() =~= c.drop_first().drop_last());
        lemma_chain_sum_first(c.drop_last());
        assert(c.drop_last()[0] == c[0]);
        assert(c.drop_first().last() == c.last());
        assert(chain_sum(c.drop_first()) == chain_sum(c.drop_first().drop_last())
            + c.drop_first().last());
    }
}

proof fn lemma_chain_sum_nonneg(c: Seq<usize>)
    ensures
        chain_sum(c) >= 0,
    decreases c.len(),
{
    if c.len() > 0 {
        lemma_chain_sum_nonneg(c.drop_last());
    }
}

/// A copy of the elements of `v` from position `from` on.
fn suffix_of<T: Copy>(v: &Vec<T>, from: usize) -> (r: Vec<T>)
    requires
        from <= v@.len(),
    ensures
        r@ == v@.skip(from as int),
{
    let n = v.len();
    let mut r: Vec<T> = Vec::new();
    let mut i: usize = from;
    while i < n
        invariant
            from <= i <= n,
            n == v@.len(),
            r@.len() == i - from,
            forall|j: int| 0 <= j < i - from ==> r@[j] == v@[from + j],
        decreases n - i,
    {
        r.push(v[i]);
        i = i + 1;
    }
    proof {
        assert(r@ =~= v@.skip(from as int));
    }
    r
}

fn sum_chains(c: &Vec<usize>) -> (r: usize)
    requires
        chain_sum(c@) <= usize::MAX,
    ensures
        r == chain_sum(c@),
{
    let n = c.len();
    let mut acc: usize = 0;
    let mut i: usize = 0;
    while i < n
        invariant
            0 <= i <= n,
            n == c@.len(),
            chain_sum(c@) <= usize::MAX,
            acc == chain_sum(c@.take(i as int)),
        decreases n - i,
    {
        proof {
            assert(c@.take(i + 1).drop_last() =~= c@.take(i as int));
            assert(c@.take(i + 1).last() == c@[i as int]);
            lemma_chain_sum_prefix(c@, i + 1);
            lemma_chain_sum_nonneg(c@.take(i as int));
        }
        acc = acc + c[i];
        i = i + 1;
    }
    proof {
        assert(c@.take(n as int) =~= c@);
    }
    acc
}

proof fn lemma_chain_sum_prefix(c: Seq<usize>, n: int)
    requires
        0 <= n <= c.len(),
    ensures
        chain_sum(c.take(n)) <= chain_sum(c),
    decreases c.len() - n,
{
    if n < c.len() {
        assert(c.take(n + 1).drop_last() =~= c.take(n));
        lemma_chain_sum_prefix(c, n + 1);
    } else {
        assert(c.take(n) =~= c);
    }
}

fn any_broken(s: &Vec<SpringStatus>) -> (r: bool)
    ensures
        r == has_broken(s@),
{
    let n = s.len();
    let mut i: usize = 0;
    while i < n
        invariant
            0 <= i <= n,
            n == s@.len(),
            forall|j: int| 0 <= j < i ==> s@[j] != SpringStatus::Broken,
        decreases n - i,
    {
        if matches!(s[i], SpringStatus::Broken) {
            return true;
        }
        i = i + 1;
    }
    proof {
        if has_broken(s@) {
            let j = choose|j: int| 0 <= j < s@.len() && s@[j] == SpringStatus::Broken;
            assert(false);
        }
    }
    false
}

/// Count the assignments of the unknown springs that realize exactly the
/// given broken runs.
#[verifier::loop_isolation(false)]
pub fn count_ways(statuses: &Vec<SpringStatus>, broken_chains: &Vec<usize>) -> (r: usize)
    requires
        chain_sum(broken_chains@) + broken_chains@.len() <= usize::MAX,
        count_spec(statuses@, broken_chains@) <= usize::MAX,
    ensures
        r == count_spec(statuses@, broken_chains@),
    decreases statuses@.len(), head_unknown(statuses@),
{
    let s_len = statuses.len();
    let c_len = broken_chains.len();
    if s_len == 0 {
        if c_len == 0 {
            return 1;
        } else {
            return 0;
        }
    }
    if c_len == 0 {
        if any_broken(statuses) {
            return 0;
        } else {
            return 1;
        }
    }
    let total = sum_chains(broken_chains);
    proof {
        lemma_chain_sum_nonneg(broken_chains@);
    }
    if s_len < c_len + total - 1 {
        return 0;
    }
    match statuses[0] {
        SpringStatus::Operational => {
            let rest = suffix_of(statuses, 1);
            proof {
                lemma_count_nonneg(statuses@.drop_first(), broken_chains@);
                assert(statuses@.drop_first() =~= statuses@.skip(1));
            }
            count_ways(&rest, broken_chains)
        },
        SpringStatus::Broken => {
            let run = broken_chains[0];
            if s_len < run {
                return 0;
            }
            if run < s_len && matches!(statuses[run], SpringStatus::Broken) {
                return 0;
            }
            let mut i: usize = 0;
            while i < run
                invariant
                    0 <= i <= run,
                    run <= s_len,
                    run == broken_chains@[0],
                    s_len == statuses@.len(),
                    forall|j: int| 0 <= j < i ==> statuses@[j] != SpringStatus::Operational,
                decreases run - i,
            {
                if matches!(statuses[i], SpringStatus::Operational) {
                    proof {
                        let runi = broken_chains@[0] as int;
                        assert(exists|j: int|
                            0 <= j < runi && j < statuses@.len() && statuses@[j]
                                == SpringStatus::Operational) by {
                            assert(0 <= i < runi && (i as int) < statuses@.len()
                                && statuses@[i as int] == SpringStatus::Operational);
                        }
                    }
                    return 0;
                }
                i = i + 1;
            }
            proof {
                if exists|j: int|
                    0 <= j < run && j < statuses@.len() && statuses@[j]
                        == SpringStatus::Operational {
                    let j = choose|j: int|
                        0 <= j < run && j < statuses@.len() && statuses@[j]
                            == SpringStatus::Operational;
                    assert(false);
                }
            }
            if run < s_len {
                let rest = suffix_of(statuses, run + 1);
                let chains_rest = suffix_of(broken_chains, 1);
                proof {
                    assert(broken_chains@.drop_first() =~= broken_chains@.skip(1));
                    lemma_chain_sum_first(broken_chains@);
                    lemma_count_nonneg(statuses@.skip(run + 1), broken_chains@.drop_first());
                }
                count_ways(&rest, &chains_rest)
            } else {
                1
            }
        },
        SpringStatus::Unknown => {
            let mut as_ok = suffix_of(statuses, 0);
            proof {
                assert(statuses@.skip(0) =~= statuses@);
            }
            as_ok.set(0, SpringStatus::Operational);
            let mut as_broken = suffix_of(statuses, 0);
            as_broken.set(0, SpringStatus::Broken);
            proof {
                lemma_count_nonneg(statuses@.update(0, SpringStatus::Operational), broken_chains@);
                lemma_count_nonneg(statuses@.update(0, SpringStatus::Broken), broken_chains@);
            }
            let a = count_ways(&as_ok, broken_chains);
            let b = count_ways(&as_broken, broken_chains);
            a + b
        },
    }
}

/// One row of the record: the springs and the broken-run lengths.
#[derive(Debug, Clone)]
pub struct SpringSet {
    pub statuses: Vec<SpringStatus>,
    pub broken_chains: Vec<usize>,
}

impl SpringSet {
    /// The unfolded row of part two: five copies of the springs joined by
    /// single unknown springs, and five copies of the run lengths.
    pub fn unfold(&self) -> (r: SpringSet)
        ensures
            r.statuses@ == self.statuses@ + seq![SpringStatus::Unknown] + self.statuses@ + seq![
                SpringStatus::Unknown,
            ] + self.statuses@ + seq![SpringStatus::Unknown] + self.statuses@ + seq![
                SpringStatus::Unknown,
            ] + self.statuses@,
            r.broken_chains@ == self.broken_chains@ + self.broken_chains@ + self.broken_chains@
                + self.broken_chains@ + self.broken_chains@,
    {
        let mut statuses: Vec<SpringStatus> = Vec::new();
        let mut broken_chains: Vec<usize> = Vec::new();
        let mut copy: usize = 0;
        while copy < 5
            invariant
                0 <= copy <= 5,
                statuses@ == spec_join_copies(self.statuses@, copy as int),
                broken_chains@ == spec_repeat(self.broken_chains@, copy as int),
            decreases 5 - copy,
        {
            if copy > 0 {
                statuses.push(SpringStatus::Unknown);
            }
            let mut i: usize = 0;
            let n = self.statuses.len();
            let ghost before = statuses@;
            while i < n
                invariant
                    0 <= i <= n,
                    n == self.statuses@.len(),
                    statuses@ == before + self.statuses@.take(i as int),
                decreases n - i,
            {
                statuses.push(self.statuses[i]);
                proof {
                    assert(statuses@ =~= before + self.statuses@.take(i + 1));
                }
                i = i + 1;
            }
            let mut j: usize = 0;
            let m = self.broken_chains.len();
            let ghost cbefore = broken_chains@;
            while j < m
                invariant
                    0 <= j <= m,
                    m == self.broken_chains@.len(),
                    broken_chains@ == cbefore + self.broken_chains@.take(j as int),
                decreases m - j,
            {
                broken_chains.push(self.broken_chains[j]);
                proof {
                    assert(broken_chains@ =~= cbefore + self.broken_chains@.take(j + 1));
                }
                j = j + 1;
            }
            proof {
                assert(self.statuses@.take(n as int) =~= self.statuses@);
                assert(self.broken_chains@.take(m as int) =~= self.broken_chains@);
                assert(statuses@ =~= spec_join_copies(self.statuses@, copy + 1));
                assert(broken_chains@ =~= spec_repeat(self.broken_chains@, copy + 1));
            }
            copy = copy + 1;
        }
        proof {
            assert(spec_join_copies(self.statuses@, 5) =~= self.statuses@ + seq![
                SpringStatus::Unknown,
            ] + self.statuses@ + seq![SpringStatus::Unknown] + self.statuses@ + seq![
                SpringStatus::Unknown,
            ] + self.statuses@ + seq![SpringStatus::Unknown] + self.statuses@) by {
                reveal_with_fuel(spec_join_copies, 6);
            }
            assert(spec_repeat(self.broken_chains@, 5) =~= self.broken_chains@
                + self.broken_chains@ + self.broken_chains@ + self.broken_chains@
                + self.broken_chains@) by {
                reveal_with_fuel(spec_repeat, 6);
            }
        }
        SpringSet { statuses, broken_chains }
    }

    /// The number of valid assignments for this row.
    pub fn count_possibles(&self) -> (r: usize)
        requires
            chain_sum(self.broken_chains@) + self.broken_chains@.len() <= usize::MAX,
            count_spec(self.statuses@, self.broken_chains@) <= usize::MAX,
        ensures
            r == count_spec(self.statuses@, self.broken_chains@),
    {
        count_ways(&self.statuses, &self.broken_chains)
    }
}

/// `n` copies of `s` joined by single unknown springs.
pub open spec fn spec_join_copies(s: Seq<SpringStatus>, n: int) -> Seq<SpringStatus>
    decreases n,
{
    if n <= 0 {
        Seq::empty()
    } else if n == 1 {
        s
    } else {
        spec_join_copies(s, n - 1) + seq![SpringStatus::Unknown] + s
    }
}

/// `n` copies of `c`, concatenated.
pub open spec fn spec_repeat(c: Seq<usize>, n: int) -> Seq<usize>
    decreases n,
{
    if n <= 0 {
        Seq::empty()
    } else {
        spec_repeat(c, n - 1) + c
    }
}

} // verus!
