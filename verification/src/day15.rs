//! The lens-library puzzle: labels are hashed into one of 256 boxes, and
//! each box holds an ordered list of lenses that operations remove or
//! replace.

use vstd::prelude::*;

verus! {

/// The running hash of a label: start from 0; for each character add its
/// code, multiply by 17, and keep the remainder modulo 256.
pub open spec fn spec_hash(s: Seq<char>) -> int
    decreases s.len(),
{
    if s.len() == 0 {
        0
    } else {
        ((spec_hash(s.drop_last()) + (s.last() as u32)) * 17) % 256
    }
}

/// The label hash, always below 256.
pub fn xmas_hash(input: &str) -> (r: usize)
    ensures
        r == spec_hash(input@),
        r < 256,
{
    let n = input.unicode_len();
    let mut acc: usize = 0;
    let mut i: usize = 0;
    while i < n
        invariant
            n == input@.len(),
            0 <= i <= n,
            acc == spec_hash(input@.take(i as int)),
            acc < 256,
        decreases n - i,
    {
        let c = input.get_char(i);
        proof {
            assert(input@.take(i + 1).drop_last() =~= input@.take(i as int));
            assert(input@.take(i + 1).last() == input@[i as int]);
        }
        acc = ((acc + c as usize) * 17) % 256;
        i = i + 1;
    }
    proof {
        assert(input@.take(n as int) =~= input@);
    }
    acc
}

/// One lens: its label and focal length.
#[derive(Debug, Clone)]
pub struct Lens {
    pub label: String,
    pub focal_length: usize,
}

/// An operation from the initialization sequence: remove the lens with a
/// label, or set (insert or replace) a lens.
#[derive(Debug, Clone)]
pub enum Operation {
    Remove(String),
    Insert(String, Lens),
}

impl Operation {
    pub open spec fn spec_label(self) -> Seq<char> {
        match self {
            Operation::Remove(x) => x@,
            Operation::Insert(x, _) => x@,
        }
    }

    /// The label the operation concerns.
    pub fn label(&self) -> (r: &String)
        ensures
            r@ == self.spec_label(),
    {
        match self {
            Operation::Remove(x) => x,
            Operation::Insert(x, _) => x,
        }
    }

    /// The box the operation's label hashes into.
    pub fn box_number(&self) -> (r: usize)
        ensures
            r == spec_hash(self.spec_label()),
            r < 256,
    {
        xmas_hash(self.label().as_str())
    }
}

/// The first position holding a lens with the given label.
pub open spec fn first_lens(s: Seq<Lens>, label: Seq<char>) -> Option<int>
    decreases s.len(),
{
    if s.len() == 0 {
        None
    } else if s[0].label@ == label {
        Some(0int)
    } else {
        match first_lens(s.drop_first(), label) {
            Some(i) => Some(i + 1),
            None => None,
        }
    }
}

proof fn lemma_first_lens_at(s: Seq<Lens>, label: Seq<char>, k: int)
    requires
        0 <= k < s.len(),
        forall|j: int| 0 <= j < k ==> (#[trigger] s[j]).label@ != label,
        s[k].label@ == label,
    ensures
        first_lens(s, label) == Some(k),
    decreases k,
{
    if k > 0 {
        assert(forall|j: int| 0 <= j < k - 1 ==> s.drop_first()[j] == s[j + 1]);
        lemma_first_lens_at(s.drop_first(), label, k - 1);
    }
}

proof fn lemma_first_lens_none(s: Seq<Lens>, label: Seq<char>)
    requires
        forall|j: int| 0 <= j < s.len() ==> (#[trigger] s[j]).label@ != label,
    ensures
        first_lens(s, label) is None,
    decreases s.len(),
{
    if s.len() > 0 {
        assert(forall|j: int| 0 <= j < s.len() - 1 ==> s.drop_first()[j] == s[j + 1]);
        lemma_first_lens_none(s.drop_first(), label);
    }
}

/// The focusing power of a box's lenses: the sum of slot number (starting
/// at 1) times focal length.
pub open spec fn spec_power(s: Seq<Lens>) -> int
    decreases s.len(),
{
    if s.len() == 0 {
        0
    } else {
        spec_power(s.drop_last()) + s.len() * s.last().focal_length
    }
}

proof fn lemma_spec_power_step(s: Seq<Lens>, n: int)
    requires
        0 <= n < s.len(),
    ensures
        spec_power(s.take(n + 1)) == spec_power(s.take(n)) + (n + 1) * s[n].focal_length,
{
    assert(s.take(n + 1).drop_last() =~= s.take(n));
    assert(s.take(n + 1).last() == s[n]);
}

proof fn lemma_spec_power_prefix(s: Seq<Lens>, n: int)
    requires
        0 <= n <= s.len(),
    ensures
        spec_power(s.take(n)) <= spec_power(s),
    decreases s.len() - n,
{
    if n < s.len() {
        lemma_spec_power_step(s, n);
        lemma_spec_power_prefix(s, n + 1);
    } else {
        assert(s.take(n) =~= s);
    }
}

proof fn lemma_spec_power_nonneg(s: Seq<Lens>)
    ensures
        spec_power(s) >= 0,
    decreases s.len(),
{
    if s.len() > 0 {
        lemma_spec_power_nonneg(s.drop_last());
    }
}

/// One of the 256 boxes: its ordered lenses.
#[derive(Debug)]
pub struct LensBox {
    pub lenses: Vec<Lens>,
}

impl LensBox {
    fn pos_lens_with_label(&self, label: &String) -> (r: Option<usize>)
        ensures
            r is Some <==> first_lens(self.lenses@, label@) is Some,
            r is Some ==> r->0 == first_lens(self.lenses@, label@)->0 && r->0
                < self.lenses@.len(),
    {
        let n = self.lenses.len();
        let mut i: usize = 0;
        while i < n
            invariant
                n == self.lenses@.len(),
                0 <= i <= n,
                forall|j: int| 0 <= j < i ==> (#[trigger] self.lenses@[j]).label@ != label@,
            decreases n - i,
        {
            if self.lenses[i].label == *label {
                proof {
                    lemma_first_lens_at(self.lenses@, label@, i as int);
                }
                return Some(i);
            }
            i = i + 1;
        }
        proof {
            lemma_first_lens_none(self.lenses@, label@);
        }
        None
    }

    /// Apply one operation to this box: removing an absent label does
    /// nothing; removing a present one closes the gap; setting a new label
    /// appends; setting a present one replaces it in place.
    pub fn apply(&mut self, op: Operation)
        ensures
            match op {
                Operation::Remove(_) => match first_lens(old(self).lenses@, op.spec_label()) {
                    None => final(self).lenses@ == old(self).lenses@,
                    Some(i) => final(self).lenses@ == old(self).lenses@.remove(i),
                },
                Operation::Insert(_, lens) => match first_lens(old(self).lenses@, op.spec_label()) {
                    None => final(self).lenses@ == old(self).lenses@.push(lens),
                    Some(i) => final(self).lenses@ == old(self).lenses@.update(i, lens),
                },
            },
    {
        let pos = self.pos_lens_with_label(op.label());
        match op {
            Operation::Remove(_) => {
                if let Some(p) = pos {
                    self.lenses.remove(p);
                }
            },
            Operation::Insert(_, lens) => {
                match pos {
                    None => self.lenses.push(lens),
                    Some(p) => {
                        self.lenses.push(lens);
                        self.lenses.swap_remove(p);
                        proof {
                            assert(self.lenses@ =~= old(self).lenses@.update(p as int, lens));
                        }
                    },
                }
            },
        }
    }

    /// The box's focusing power.
    pub fn focusing_power(&self) -> (r: usize)
        requires
            spec_power(self.lenses@) <= usize::MAX,
        ensures
            r == spec_power(self.lenses@),
    {
        let n = self.lenses.len();
        let mut acc: usize = 0;
        let mut i: usize = 0;
        while i < n
            invariant
                n == self.lenses@.len(),
                0 <= i <= n,
                spec_power(self.lenses@) <= usize::MAX,
                acc == spec_power(self.lenses@.take(i as int)),
            decreases n - i,
        {
            proof {
                lemma_spec_power_step(self.lenses@, i as int);
                lemma_spec_power_prefix(self.lenses@, i + 1);
                lemma_spec_power_nonneg(self.lenses@.take(i as int));
            }
            acc = acc + (i + 1) * self.lenses[i].focal_length;
            i = i + 1;
        }
        proof {
            assert(self.lenses@.take(n as int) =~= self.lenses@);
        }
        acc
    }
}

} // verus!
