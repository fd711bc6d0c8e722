//! The scratchcard puzzle: each card lists winning numbers and the numbers
//! actually on the card; what matters is how many of the card's numbers
//! appear among the winning ones.

use vstd::prelude::*;

verus! {

/// One scratchcard: the winning numbers and the numbers on the card.
#[derive(Debug, Clone)]
pub struct Card {
    pub winning: Vec<u64>,
    pub actual: Vec<u64>,
}

/// How many entries of `actual` occur in `winning`; an entry counts once
/// per occurrence in `actual`.
pub open spec fn count_winning(winning: Seq<u64>, actual: Seq<u64>) -> int
    decreases actual.len(),
{
    if actual.len() == 0 {
        0
    } else {
        count_winning(winning, actual.drop_last()) + if winning.contains(actual.last()) {
            1int
        } else {
            0int
        }
    }
}

fn contains_value(values: &Vec<u64>, x: u64) -> (r: bool)
    ensures
        r == values@.contains(x),
{
    let n = values.len();
    let mut i: usize = 0;
    while i < n
        invariant
            n == values@.len(),
            0 <= i <= n,
            forall|j: int| 0 <= j < i ==> values@[j] != x,
        decreases n - i,
    {
        if values[i] == x {
            return true;
        }
        i = i + 1;
    }
    proof {
        if values@.contains(x) {
            let j = choose|j: int| 0 <= j < values@.len() && values@[j] == x;
            assert(false);
        }
    }
    false
}

impl Card {
    /// How many of the card's numbers are winning numbers.
    pub fn number_of_winning(&self) -> (r: usize)
        ensures
            r == count_winning(self.winning@, self.actual@),
    {
        let n = self.actual.len();
        let mut count: usize = 0;
        let mut i: usize = 0;
        while i < n
            invariant
                n == self.actual@.len(),
                0 <= i <= n,
                count <= i,
                count == count_winning(self.winning@, self.actual@.take(i as int)),
            decreases n - i,
        {
            proof {
                assert(self.actual@.take(i + 1).drop_last() =~= self.actual@.take(i as int));
                assert(self.actual@.take(i + 1).last() == self.actual@[i as int]);
            }
            if contains_value(&self.winning, self.actual[i]) {
                count = count + 1;
            }
            i = i + 1;
        }
        proof {
            assert(self.actual@.take(n as int) =~= self.actual@);
        }
        count
    }
}

pub open spec fn pow2_spec(n: int) -> int
    decreases n,
{
    if n <= 0 {
        1
    } else {
        2 * pow2_spec(n - 1)
    }
}

proof fn lemma_pow2_mono(a: int, b: int)
    requires
        a <= b,
    ensures
        pow2_spec(a) <= pow2_spec(b),
    decreases b - a,
{
    if a < b {
        lemma_pow2_mono(a, b - 1);
        assert(pow2_spec(b - 1) >= 1) by {
            lemma_pow2_pos(b - 1);
        }
    }
}

proof fn lemma_pow2_pos(n: int)
    ensures
        pow2_spec(n) >= 1,
    decreases n,
{
    if n > 0 {
        lemma_pow2_pos(n - 1);
    }
}

/// The part-one score of a card: its points double with every match past
/// the first, so `wins` matches score half of two to the `wins`, which is
/// 0 for no matches and otherwise two to the `wins - 1`.
#[verifier::loop_isolation(false)]
pub fn card_score(wins: usize) -> (r: usize)
    requires
        pow2_spec(wins as int) <= usize::MAX,
    ensures
        r == pow2_spec(wins as int) / 2,
{
    let mut acc: usize = 1;
    let mut j: usize = 0;
    while j < wins
        invariant
            0 <= j <= wins,
            acc == pow2_spec(j as int),
        decreases wins - j,
    {
        proof {
            lemma_pow2_mono(j + 1, wins as int);
        }
        acc = acc * 2;
        j = j + 1;
    }
    acc / 2
}

/// The winning counts of each card in the pile.
pub open spec fn wins_of(cards: Seq<Card>) -> Seq<int> {
    cards.map_values(|c: Card| count_winning(c.winning@, c.actual@))
}

/// One copy of every card, before any copies are won.
pub open spec fn initial_counts(n: int) -> Seq<int> {
    Seq::new(n as nat, |i: int| 1int)
}

/// Card `i` adds one copy of itself to each of the next `wins` cards, as
/// far as the pile reaches.
pub open spec fn apply_wins(counts: Seq<int>, i: int, wins: int) -> Seq<int> {
    Seq::new(
        counts.len(),
        |j: int|
            if i < j <= i + wins {
                counts[j] + counts[i]
            } else {
                counts[j]
            },
    )
}

/// How many copies of each card exist after the first `k` cards have
/// distributed their copies.
pub open spec fn counts_after(wins: Seq<int>, k: int) -> Seq<int>
    decreases k,
{
    if k <= 0 {
        initial_counts(wins.len() as int)
    } else {
        apply_wins(counts_after(wins, k - 1), k - 1, wins[k - 1])
    }
}

pub open spec fn seq_sum(s: Seq<int>) -> int
    decreases s.len(),
{
    if s.len() == 0 {
        0
    } else {
        seq_sum(s.drop_last()) + s.last()
    }
}

proof fn lemma_counts_after_len(wins: Seq<int>, k: int)
    ensures
        counts_after(wins, k).len() == wins.len(),
    decreases k,
{
    if k > 0 {
        lemma_counts_after_len(wins, k - 1);
    }
}

proof fn lemma_counts_after_nonneg(wins: Seq<int>, k: int, j: int)
    requires
        0 <= j < wins.len(),
    ensures
        counts_after(wins, k)[j] >= 1,
    decreases k,
{
    lemma_counts_after_len(wins, k);
    if k > 0 {
        lemma_counts_after_len(wins, k - 1);
        lemma_counts_after_nonneg(wins, k - 1, j);
        if k - 1 < j <= k - 1 + wins[k - 1] {
            lemma_counts_after_nonneg(wins, k - 1, k - 1);
        }
    }
}

proof fn lemma_counts_after_mono(wins: Seq<int>, k1: int, k2: int, j: int)
    requires
        0 <= j < wins.len(),
        k1 <= k2,
    ensures
        counts_after(wins, k1)[j] <= counts_after(wins, k2)[j],
    decreases k2 - k1,
{
    lemma_counts_after_len(wins, k1);
    lemma_counts_after_len(wins, k2);
    if k1 < k2 {
        lemma_counts_after_mono(wins, k1, k2 - 1, j);
        lemma_counts_after_len(wins, k2 - 1);
        if 0 <= k2 - 1 < wins.len() {
            lemma_counts_after_nonneg(wins, k2 - 1, k2 - 1);
        } else {
            if k2 - 1 < j <= k2 - 1 + wins[k2 - 1] {
                // the adding card lies outside the pile, so nothing is added
                assert(!(0 <= k2 - 1 < wins.len()) ==> counts_after(wins, k2)[j]
                    >= counts_after(wins, k2 - 1)[j]) by {
                    if k2 - 1 >= wins.len() {
                        assert(j < wins.len() <= k2 - 1);
                    }
                }
            }
        }
    }
}

proof fn lemma_entry_le_sum(s: Seq<int>, j: int)
    requires
        0 <= j < s.len(),
        forall|t: int| 0 <= t < s.len() ==> s[t] >= 0,
    ensures
        s[j] <= seq_sum(s),
    decreases s.len(),
{
    if j == s.len() - 1 {
        lemma_seq_sum_nonneg(s.drop_last());
    } else {
        assert(forall|t: int| 0 <= t < s.drop_last().len() ==> s.drop_last()[t] == s[t]);
        lemma_entry_le_sum(s.drop_last(), j);
    }
}

proof fn lemma_seq_sum_nonneg(s: Seq<int>)
    requires
        forall|t: int| 0 <= t < s.len() ==> s[t] >= 0,
    ensures
        seq_sum(s) >= 0,
    decreases s.len(),
{
    if s.len() > 0 {
        assert(forall|t: int| 0 <= t < s.drop_last().len() ==> s.drop_last()[t] == s[t]);
        lemma_seq_sum_nonneg(s.drop_last());
    }
}

proof fn lemma_seq_sum_prefix(s: Seq<int>, n: int)
    requires
        0 <= n <= s.len(),
        forall|t: int| 0 <= t < s.len() ==> s[t] >= 0,
    ensures
        seq_sum(s.take(n)) <= seq_sum(s),
    decreases s.len() - n,
{
    if n < s.len() {
        assert(s.take(n + 1).drop_last() =~= s.take(n));
        lemma_seq_sum_prefix(s, n + 1);
    } else {
        assert(s.take(n) =~= s);
    }
}

/// How many scratchcards the pile grows to: every card adds one copy of
/// itself to each of the cards won by its matches, copies included, and
/// the total of all copies is the answer.
#[verifier::loop_isolation(false)]
pub fn total_scratchcards(cards: &Vec<Card>) -> (r: usize)
    requires
        seq_sum(counts_after(wins_of(cards@), cards@.len() as int)) <= usize::MAX,
    ensures
        r == seq_sum(counts_after(wins_of(cards@), cards@.len() as int)),
{
    let n = cards.len();
    let ghost wins = wins_of(cards@);
    let ghost fin = counts_after(wins, n as int);
    proof {
        lemma_counts_after_len(wins, n as int);
    }
    let mut counts: Vec<usize> = Vec::new();
    let mut t: usize = 0;
    while t < n
        invariant
            0 <= t <= n,
            counts@.len() == t,
            forall|j: int| 0 <= j < t ==> counts@[j] == 1,
        decreases n - t,
    {
        counts.push(1);
        t = t + 1;
    }
    let mut i: usize = 0;
    while i < n
        invariant
            0 <= i <= n,
            counts@.len() == n,
            forall|j: int| 0 <= j < n ==> counts@[j] as int == counts_after(wins, i as int)[j],
        decreases n - i,
    {
        proof {
            lemma_counts_after_len(wins, i as int);
            lemma_counts_after_len(wins, i + 1);
        }
        let card_points = cards[i].number_of_winning();
        proof {
            assert(wins[i as int] == count_winning(cards@[i as int].winning@, cards@[i as int].actual@));
        }
        let ghost old_counts = counts_after(wins, i as int);
        let mut j: usize = 0;
        while j < card_points
            invariant
                0 <= j <= card_points,
                i < n,
                card_points == wins[i as int],
                counts@.len() == n,
                forall|u: int|
                    0 <= u < n ==> counts@[u] as int == (if i < u <= i + j {
                        old_counts[u] + old_counts[i as int]
                    } else {
                        old_counts[u]
                    }),
            decreases card_points - j,
        {
            if j < n - i - 1 {
                let idx = i + j + 1;
                proof {
                    // the grown copy count stays within the final total
                    assert(old_counts[idx as int] + old_counts[i as int] == counts_after(
                        wins,
                        i + 1,
                    )[idx as int]);
                    lemma_counts_after_mono(wins, i + 1, n as int, idx as int);
                    assert(forall|u: int| 0 <= u < n ==> fin[u] >= 1) by {
                        assert forall|u: int| 0 <= u < n implies fin[u] >= 1 by {
                            lemma_counts_after_nonneg(wins, n as int, u);
                        }
                    }
                    lemma_entry_le_sum(fin, idx as int);
                }
                let v = counts[idx] + counts[i];
                counts.set(idx, v);
            }
            j = j + 1;
        }
        proof {
            assert forall|u: int| 0 <= u < n implies counts@[u] as int == counts_after(
                wins,
                i + 1,
            )[u] by {
                assert(counts_after(wins, i + 1) == apply_wins(
                    old_counts,
                    i as int,
                    wins[i as int],
                ));
            }
        }
        i = i + 1;
    }
    let mut acc: usize = 0;
    let mut s: usize = 0;
    proof {
        assert forall|u: int| 0 <= u < n implies fin[u] >= 1 by {
            lemma_counts_after_nonneg(wins, n as int, u);
        }
    }
    while s < n
        invariant
            0 <= s <= n,
            counts@.len() == n,
            forall|j: int| 0 <= j < n ==> counts@[j] as int == fin[j],
            forall|u: int| 0 <= u < n ==> fin[u] >= 1,
            acc == seq_sum(fin.take(s as int)),
        decreases n - s,
    {
        proof {
            assert(fin.take(s + 1).drop_last() =~= fin.take(s as int));
            assert(fin.take(s + 1).last() == fin[s as int]);
            lemma_seq_sum_prefix(fin, s + 1);
            assert(forall|t2: int| 0 <= t2 < fin.take(s as int).len() ==> fin.take(s as int)[t2] >= 0);
            lemma_seq_sum_nonneg(fin.take(s as int));
        }
        acc = acc + counts[s];
        s = s + 1;
    }
    proof {
        assert(fin.take(n as int) =~= fin);
    }
    acc
}

} // verus!
