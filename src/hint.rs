//! Hints: small sets of letter-digit facts read off one column of the puzzle.
use vstd::prelude::*;

verus! {

/// One fact: `letter` stands for the digit `value`.
#[derive(Debug, Clone, Copy, Hash, PartialEq, Eq, Structural)]
pub struct LetterAssignment {
    pub letter: char,
    pub value: u32,
}

/// One, two or three letter-digit facts that hold together.
#[derive(Debug, Clone, Copy)]
pub enum Hint {
    One(LetterAssignment),
    Two(LetterAssignment, LetterAssignment),
    Three(LetterAssignment, LetterAssignment, LetterAssignment),
}

/// The fact `letter = value`.
pub open spec fn fact(letter: char, value: u32) -> LetterAssignment {
    LetterAssignment { letter, value }
}

impl Hint {
    /// The facts of the hint, as a set: the order they were written in does not count.
    pub open spec fn pairs(self) -> Set<LetterAssignment> {
        match self {
            Hint::One(a) => set![a],
            Hint::Two(a, b) => set![a, b],
            Hint::Three(a, b, c) => set![a, b, c],
        }
    }

    /// Every fact names one of `letters` and a decimal digit.
    pub open spec fn fits(self, letters: Seq<char>) -> bool {
        forall|p: LetterAssignment|
            #![trigger self.pairs().contains(p)]
            self.pairs().contains(p) ==> letters.contains(p.letter) && p.value < 10
    }

    /// Whether the hint states `p`.
    pub fn has_pair(&self, p: &LetterAssignment) -> (r: bool)
        ensures
            r == self.pairs().contains(*p),
    {
        match self {
            Hint::One(a) => *a == *p,
            Hint::Two(a, b) => *a == *p || *b == *p,
            Hint::Three(a, b, c) => *a == *p || *b == *p || *c == *p,
        }
    }

    /// Whether every fact of this hint is a fact of `other`.
    pub fn within(&self, other: &Hint) -> (r: bool)
        ensures
            r == self.pairs().subset_of(other.pairs()),
    {
        match self {
            Hint::One(a) => other.has_pair(a),
            Hint::Two(a, b) => other.has_pair(a) && other.has_pair(b),
            Hint::Three(a, b, c) => other.has_pair(a) && other.has_pair(b) && other.has_pair(c),
        }
    }

    /// Whether the hint agrees with one of the known partial solutions of
    /// DONALD + GERALD = ROBERT (see `reference_fact`).
    pub fn is_correct(&self) -> (r: bool)
        ensures
            r == matches_reference(*self),
    {
        let mut k: usize = 0;
        while k < REFERENCE_FACT_COUNT
            invariant
                k <= REFERENCE_FACT_COUNT,
                forall|j: int| 0 <= j < k ==> !covers(*self, #[trigger] reference_fact(j)),
            decreases REFERENCE_FACT_COUNT - k,
        {
            let known = reference_fact_at(k);
            let mut all = true;
            let mut i: usize = 0;
            while i < known.len()
                invariant
                    known@ == reference_fact(k as int),
                    i <= known@.len(),
                    all == (forall|j: int| 0 <= j < i ==> self.pairs().contains(#[trigger] known@[j])),
                decreases known@.len() - i,
            {
                all = all && self.has_pair(&known[i]);
                i = i + 1;
            }
            if all {
                return true;
            }
            k = k + 1;
        }
        false
    }
}

/// Hints are equal when they state the same facts, whatever their order.
impl PartialEq for Hint {
    fn eq(&self, other: &Hint) -> (r: bool) {
        let r = self.within(other) && other.within(self);
        proof {
            if r {
                assert(self.pairs() =~= other.pairs());
            }
        }
        r
    }
}

impl vstd::std_specs::cmp::PartialEqSpecImpl for Hint {
    open spec fn obeys_eq_spec() -> bool {
        true
    }

    open spec fn eq_spec(&self, other: &Hint) -> bool {
        self.pairs() == other.pairs()
    }
}

/// Whether hints `h` and `g` state the same facts.
pub open spec fn same_hint(h: Hint, g: Hint) -> bool {
    h.pairs() == g.pairs()
}

/// Whether `list` holds a hint that states the same facts as `h`.
pub open spec fn listed(list: Seq<Hint>, h: Hint) -> bool {
    exists|i: int| 0 <= i < list.len() && same_hint(#[trigger] list[i], h)
}

/// Whether `list` holds a hint that states the same facts as `h`.
pub fn is_listed(list: &Vec<Hint>, h: &Hint) -> (r: bool)
    ensures
        r == listed(list@, *h),
{
    let mut i: usize = 0;
    while i < list.len()
        invariant
            i <= list@.len(),
            forall|j: int| 0 <= j < i ==> !same_hint(#[trigger] list@[j], *h),
        decreases list@.len() - i,
    {
        if list[i].eq(h) {
            return true;
        }
        i = i + 1;
    }
    false
}

/// How many partial solutions the accuracy oracle knows.
pub const REFERENCE_FACT_COUNT: usize = 6;

/// The known partial solutions of DONALD + GERALD = ROBERT, one per column, that the
/// accuracy oracle compares sampled hints with.
pub open spec fn reference_fact(k: int) -> Seq<LetterAssignment> {
    if k == 0 {
        seq![fact('d', 5), fact('g', 1), fact('r', 7)]
    } else if k == 1 {
        seq![fact('o', 2), fact('e', 9)]
    } else if k == 2 {
        seq![fact('n', 6), fact('r', 7), fact('b', 3)]
    } else if k == 3 {
        seq![fact('a', 4), fact('e', 9)]
    } else if k == 4 {
        seq![fact('l', 8), fact('r', 7)]
    } else {
        seq![fact('d', 5), fact('t', 0)]
    }
}

/// Every fact of `known` is stated by `h`.
pub open spec fn covers(h: Hint, known: Seq<LetterAssignment>) -> bool {
    forall|j: int| 0 <= j < known.len() ==> h.pairs().contains(#[trigger] known[j])
}

/// `h` states all facts of one of the known partial solutions.
pub open spec fn matches_reference(h: Hint) -> bool {
    exists|k: int| 0 <= k < REFERENCE_FACT_COUNT && covers(h, #[trigger] reference_fact(k))
}

fn la(letter: char, value: u32) -> (r: LetterAssignment)
    ensures
        r == fact(letter, value),
{
    LetterAssignment { letter, value }
}

/// The `k`-th known partial solution.
fn reference_fact_at(k: usize) -> (r: Vec<LetterAssignment>)
    requires
        k < REFERENCE_FACT_COUNT,
    ensures
        r@ == reference_fact(k as int),
{
    let r = if k == 0 {
        vec![la('d', 5), la('g', 1), la('r', 7)]
    } else if k == 1 {
        vec![la('o', 2), la('e', 9)]
    } else if k == 2 {
        vec![la('n', 6), la('r', 7), la('b', 3)]
    } else if k == 3 {
        vec![la('a', 4), la('e', 9)]
    } else if k == 4 {
        vec![la('l', 8), la('r', 7)]
    } else {
        vec![la('d', 5), la('t', 0)]
    };
    assert(r@ =~= reference_fact(k as int));
    r
}

/// Hint equality does not depend on the order the facts were given in.
pub proof fn lemma_hint_order_irrelevant(a: LetterAssignment, b: LetterAssignment, c: LetterAssignment)
    ensures
        same_hint(Hint::Two(a, b), Hint::Two(b, a)),
        same_hint(Hint::Three(a, b, c), Hint::Three(a, c, b)),
        same_hint(Hint::Three(a, b, c), Hint::Three(b, a, c)),
        same_hint(Hint::Three(a, b, c), Hint::Three(b, c, a)),
        same_hint(Hint::Three(a, b, c), Hint::Three(c, a, b)),
        same_hint(Hint::Three(a, b, c), Hint::Three(c, b, a)),
{
    assert(set![a, b] =~= set![b, a]);
    assert(set![a, b, c] =~= set![a, c, b]);
    assert(set![a, b, c] =~= set![b, a, c]);
    assert(set![a, b, c] =~= set![b, c, a]);
    assert(set![a, b, c] =~= set![c, a, b]);
    assert(set![a, b, c] =~= set![c, b, a]);
}

} // verus!
