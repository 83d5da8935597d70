//! A searcher: its letter-digit table, the hints it reads off the table, and its moves.
use crate::board::{Blackboard, BoardView};
use crate::hint::{fact, is_listed, listed, matches_reference, Hint, LetterAssignment};
use crate::puzzle::{lemma_distinct_letters, Problem, PuzzleView, LETTER_COUNT};
use crate::random::random_below;
use rand::rngs::StdRng;
use crate::table::{
    after_insert, digit_of_letter, empty_table, insert_pair, letter_of_digit, pairs_of, table_len,
    LetterTable,
};
use vstd::prelude::*;

verus! {

/// Some letter of `m` stands for the digit `v`.
pub open spec fn holds_digit(m: Map<char, u32>, v: u32) -> bool {
    exists|c: char| m.contains_key(c) && m[c] == v
}

/// `m` pairs each of `letters`, and nothing else, with a decimal digit of its own,
/// and every decimal digit is used.
pub open spec fn is_bijection(m: Map<char, u32>, letters: Seq<char>) -> bool {
    &&& forall|c: char|
        #![trigger m.contains_key(c)]
        #![trigger letters.contains(c)]
        m.contains_key(c) <==> letters.contains(c)
    &&& forall|c: char| #[trigger] m.contains_key(c) ==> m[c] < 10
    &&& forall|c: char, d: char|
        #![trigger m[c], m[d]]
        m.contains_key(c) && m.contains_key(d) && m[c] == m[d] ==> c == d
    &&& forall|v: u32| v < 10 ==> #[trigger] holds_digit(m, v)
}

/// The table after letter `p.letter` takes digit `p.value` and the letter that held
/// `p.value` takes the old digit of `p.letter`.
pub open spec fn swapped(m: Map<char, u32>, p: LetterAssignment) -> Map<char, u32> {
    Map::new(
        |c: char| m.contains_key(c),
        |c: char|
            if c == p.letter {
                p.value
            } else if m[c] == p.value {
                m[p.letter]
            } else {
                m[c]
            },
    )
}

/// Swapping one letter onto a digit keeps the table a bijection.
pub proof fn lemma_swap_keeps_bijection(m: Map<char, u32>, letters: Seq<char>, p: LetterAssignment)
    requires
        is_bijection(m, letters),
        letters.contains(p.letter),
        p.value < 10,
    ensures
        is_bijection(swapped(m, p), letters),
{
    let s = swapped(m, p);
    assert(m.contains_key(p.letter));
    assert(holds_digit(m, p.value));
    let h = choose|c: char| m.contains_key(c) && m[c] == p.value;
    assert forall|c: char, d: char|
        #![trigger s[c], s[d]]
        s.contains_key(c) && s.contains_key(d) && s[c] == s[d] implies c == d by {
        assert(m.contains_key(c) && m.contains_key(d));
        if m[c] == p.value {
            assert(c == h);
        }
        if m[d] == p.value {
            assert(d == h);
        }
    }
    assert forall|v: u32| v < 10 implies #[trigger] holds_digit(s, v) by {
        if v == p.value {
            assert(s.contains_key(p.letter) && s[p.letter] == v);
        } else if v == m[p.letter] {
            assert(h != p.letter);
            assert(s.contains_key(h) && s[h] == v);
        } else {
            assert(holds_digit(m, v));
            let g = choose|c: char| m.contains_key(c) && m[c] == v;
            assert(s.contains_key(g) && s[g] == v);
        }
    }
}

/// Two `BiHashMap::insert` calls, first of the holder of `p.value` with the old digit of
/// `p.letter`, then of `p`, make the swap.
proof fn lemma_inserts_swap(m: Map<char, u32>, letters: Seq<char>, p: LetterAssignment, holder: char)
    requires
        is_bijection(m, letters),
        letters.contains(p.letter),
        m.contains_key(holder),
        m[holder] == p.value,
    ensures
        after_insert(after_insert(m, holder, m[p.letter]), p.letter, p.value) == swapped(m, p),
{
    assert(m.contains_key(p.letter));
    let m1 = after_insert(m, holder, m[p.letter]);
    let m2 = after_insert(m1, p.letter, p.value);
    let s = swapped(m, p);
    assert forall|c: char| #[trigger] m2.contains_key(c) <==> s.contains_key(c) by {
        if m.contains_key(c) && c != holder && c != p.letter {
            assert(m[c] != p.value);
            assert(m[c] != m[p.letter]);
        }
    }
    assert(m2 =~= s);
}

/// `10` to the power `n`.
pub open spec fn pow10(n: nat) -> int
    decreases n,
{
    if n == 0 {
        1
    } else {
        10 * pow10((n - 1) as nat)
    }
}

proof fn lemma_pow10_monotonic(a: nat, b: nat)
    requires
        a <= b,
    ensures
        1 <= pow10(a) <= pow10(b),
    decreases b,
{
    if b > 0 {
        if a == b {
            lemma_pow10_monotonic((b - 1) as nat, (b - 1) as nat);
        } else {
            lemma_pow10_monotonic(a, (b - 1) as nat);
        }
    }
}

/// The number a word spells under `m`, its first letter the most significant digit.
pub open spec fn number_of(w: Seq<char>, m: Map<char, u32>) -> int
    decreases w.len(),
{
    if w.len() == 0 {
        0
    } else {
        number_of(w.drop_last(), m) * 10 + m[w.last()]
    }
}

/// The addition `first + second == result` holds under `m`.
pub open spec fn solved_by(pz: PuzzleView, m: Map<char, u32>) -> bool {
    number_of(pz.first, m) + number_of(pz.second, m) == number_of(pz.result, m)
}

/// Some word starts with a letter that `m` gives the digit zero.
pub open spec fn leading_zero(pz: PuzzleView, m: Map<char, u32>) -> bool {
    m[pz.first[0]] == 0 || m[pz.second[0]] == 0 || m[pz.result[0]] == 0
}

/// The cost of a table that puts a zero in front of a word.
pub const LEADING_ZERO_PENALTY: u32 = 100_000_000;

/// How far `m` is from solving the puzzle: the gap between the sum and the result,
/// or the fixed penalty when a word starts with zero.
pub open spec fn cost_of(pz: PuzzleView, m: Map<char, u32>) -> int {
    if leading_zero(pz, m) {
        LEADING_ZERO_PENALTY as int
    } else {
        let gap = number_of(pz.result, m) - (number_of(pz.first, m) + number_of(pz.second, m));
        if gap >= 0 {
            gap
        } else {
            -gap
        }
    }
}

/// A column whose digits add up, with or without an incoming carry of one.
pub open spec fn column_holds(d1: u32, d2: u32, dr: u32) -> bool {
    (d1 + d2) % 10 == dr || (d1 + d2 + 1) % 10 == dr
}

/// The distinct facts of one column, in the order first word, second word, result.
pub open spec fn column_hint(a1: char, a2: char, r: char, m: Map<char, u32>) -> Hint {
    hint_of_facts(fact(a1, m[a1]), fact(a2, m[a2]), fact(r, m[r]))
}

/// The hint that states `a`, `b` and `c`, each once, in that order.
pub open spec fn hint_of_facts(a: LetterAssignment, b: LetterAssignment, c: LetterAssignment) -> Hint {
    if b == a {
        if c == a {
            Hint::One(a)
        } else {
            Hint::Two(a, c)
        }
    } else if c == a || c == b {
        Hint::Two(a, b)
    } else {
        Hint::Three(a, b, c)
    }
}

/// The hints of the first `n` columns that hold under `m`, left to right.
pub open spec fn hints_upto(pz: PuzzleView, m: Map<char, u32>, n: int) -> Seq<Hint>
    decreases n,
{
    if n <= 0 {
        Seq::empty()
    } else {
        let prev = hints_upto(pz, m, n - 1);
        let a1 = pz.first[n - 1];
        let a2 = pz.second[n - 1];
        let r = pz.result[n - 1];
        if column_holds(m[a1], m[a2], m[r]) {
            prev.push(column_hint(a1, a2, r, m))
        } else {
            prev
        }
    }
}

/// The hints of all columns that hold under `m`.
pub open spec fn derived_hints(pz: PuzzleView, m: Map<char, u32>) -> Seq<Hint> {
    hints_upto(pz, m, pz.width() as int)
}

/// The table after the facts of `h` are swapped in, in the order they were written.
pub open spec fn assimilated(m: Map<char, u32>, h: Hint) -> Map<char, u32> {
    match h {
        Hint::One(a) => swapped(m, a),
        Hint::Two(a, b) => swapped(swapped(m, a), b),
        Hint::Three(a, b, c) => swapped(swapped(swapped(m, a), b), c),
    }
}

/// Every letter of the three words is one of the puzzle's letters.
proof fn lemma_word_letters(pz: PuzzleView)
    requires
        pz.playable(),
    ensures
        forall|i: int| 0 <= i < pz.width() ==> pz.letters.contains(#[trigger] pz.first[i]),
        forall|i: int| 0 <= i < pz.width() ==> pz.letters.contains(#[trigger] pz.second[i]),
        forall|i: int| 0 <= i < pz.width() ==> pz.letters.contains(#[trigger] pz.result[i]),
{
    let all = pz.first + pz.second + pz.result;
    lemma_distinct_letters(all);
    assert forall|i: int| 0 <= i < pz.width() implies pz.letters.contains(#[trigger] pz.first[i]) by {
        assert(all[i] == pz.first[i]);
        assert(all.contains(pz.first[i]));
    }
    assert forall|i: int| 0 <= i < pz.width() implies pz.letters.contains(#[trigger] pz.second[i]) by {
        assert((pz.first + pz.second)[pz.width() + i] == pz.second[i]);
        assert(all[pz.width() + i] == pz.second[i]);
        assert(all.contains(pz.second[i]));
    }
    assert forall|i: int| 0 <= i < pz.width() implies pz.letters.contains(#[trigger] pz.result[i]) by {
        assert(all.len() == 3 * pz.width());
        assert(all[2 * pz.width() + i] == pz.result[i]);
        assert(all.contains(pz.result[i]));
    }
}

/// The hints of `hints` that `board` does not list, in order.
pub open spec fn novel_hints(hints: Seq<Hint>, board: Seq<Hint>) -> Seq<Hint>
    decreases hints.len(),
{
    if hints.len() == 0 {
        Seq::empty()
    } else {
        let prev = novel_hints(hints.drop_last(), board);
        if listed(board, hints.last()) {
            prev
        } else {
            prev.push(hints.last())
        }
    }
}

/// Slot `j` of `board` holds a hint that `hints` does not list.
pub open spec fn stale_slot(board: Seq<Hint>, hints: Seq<Hint>, j: int) -> bool {
    0 <= j < board.len() && !listed(hints, board[j])
}

/// Every hint of `entries` names the given letters and decimal digits.
pub open spec fn board_fits(entries: Seq<Hint>, letters: Seq<char>) -> bool {
    forall|i: int| 0 <= i < entries.len() ==> (#[trigger] entries[i]).fits(letters)
}

/// The boards that the write policy may leave after a writer whose hints are `hints`:
/// nothing changes without a novel hint; otherwise one novel hint is appended to a board
/// with room, or to a full board in place of one hint that `hints` does not list, if any.
pub open spec fn is_policy_write(hints: Seq<Hint>, before: BoardView, after: BoardView) -> bool {
    let novel = novel_hints(hints, before.entries);
    &&& after.capacity == before.capacity
    &&& if novel.len() == 0 {
        after == before
    } else if !before.is_full() {
        exists|k: int| 0 <= k < novel.len() && after.entries == before.entries.push(#[trigger] novel[k])
    } else if forall|j: int| 0 <= j < before.entries.len() ==> listed(hints, #[trigger] before.entries[j]) {
        after == before
    } else {
        exists|k: int, j: int|
            #![trigger novel[k], stale_slot(before.entries, hints, j)]
            0 <= k < novel.len() && stale_slot(before.entries, hints, j) && after.entries
                == before.entries.remove(j).push(novel[k])
    }
}

/// The write policy never drops a hint that the writer lists, and leaves a full board
/// whose hints the writer all lists as it was.
pub proof fn lemma_write_keeps_corroborated(hints: Seq<Hint>, before: BoardView, after: BoardView)
    requires
        is_policy_write(hints, before, after),
    ensures
        forall|j: int|
            0 <= j < before.entries.len() && listed(hints, #[trigger] before.entries[j])
                ==> after.entries.contains(before.entries[j]),
        before.is_full() && (forall|j: int|
            0 <= j < before.entries.len() ==> listed(hints, #[trigger] before.entries[j]))
            ==> after == before,
{
    let novel = novel_hints(hints, before.entries);
    assert forall|j: int|
        0 <= j < before.entries.len() && listed(hints, #[trigger] before.entries[j])
            implies after.entries.contains(before.entries[j]) by {
        if novel.len() == 0 {
            assert(after.entries[j] == before.entries[j]);
        } else if !before.is_full() {
            let k = choose|k: int| 0 <= k < novel.len() && after.entries == before.entries.push(#[trigger] novel[k]);
            assert(after.entries[j] == before.entries[j]);
        } else if forall|i: int| 0 <= i < before.entries.len() ==> listed(hints, #[trigger] before.entries[i]) {
            assert(after.entries[j] == before.entries[j]);
        } else {
            let (k, gone) = choose|k: int, gone: int|
                #![trigger novel[k], stale_slot(before.entries, hints, gone)]
                0 <= k < novel.len() && stale_slot(before.entries, hints, gone) && after.entries
                    == before.entries.remove(gone).push(novel[k]);
            assert(gone != j);
            if j < gone {
                assert(after.entries[j] == before.entries[j]);
            } else {
                assert(after.entries[j - 1] == before.entries[j]);
            }
        }
    }
}

/// A move of one of `letters` to another decimal digit.
pub open spec fn is_elementary(m: Map<char, u32>, letters: Seq<char>, p: LetterAssignment) -> bool {
    letters.contains(p.letter) && p.value < 10 && p.value != m[p.letter]
}

/// The `drawn`-th of the nine digits other than `current`, counted upwards from zero.
pub open spec fn other_digit(drawn: u32, current: u32) -> u32 {
    if drawn >= current {
        (drawn + 1) as u32
    } else {
        drawn
    }
}

/// The accuracy counters after a searcher with these counters samples `h`.
pub open spec fn counted(before: (bool, u64, u64), after: (u64, u64), h: Hint) -> bool {
    if before.0 {
        &&& after.1 == before.2 + 1
        &&& after.0 == before.1 + if matches_reference(h) {
            1int
        } else {
            0int
        }
    } else {
        after == (before.1, before.2)
    }
}

/// The hints of `hints` that `board` does not list, in order.
fn novel_of(hints: &Vec<Hint>, board: &Vec<Hint>) -> (r: Vec<Hint>)
    ensures
        r@ == novel_hints(hints@, board@),
        forall|k: int| 0 <= k < r@.len() ==> hints@.contains(#[trigger] r@[k]),
{
    let mut r: Vec<Hint> = Vec::new();
    let mut i: usize = 0;
    while i < hints.len()
        invariant
            i <= hints@.len(),
            r@ == novel_hints(hints@.take(i as int), board@),
            forall|k: int| 0 <= k < r@.len() ==> hints@.contains(#[trigger] r@[k]),
        decreases hints@.len() - i,
    {
        let h = hints[i];
        assert(hints@.take(i + 1).drop_last() =~= hints@.take(i as int));
        if !is_listed(board, &h) {
            r.push(h);
        }
        i = i + 1;
    }
    assert(hints@.take(hints@.len() as int) =~= hints@);
    r
}

/// The slots of `board` whose hint `hints` does not list, in order.
fn stale_slots(board: &Vec<Hint>, hints: &Vec<Hint>) -> (r: Vec<usize>)
    ensures
        forall|k: int| 0 <= k < r@.len() ==> stale_slot(board@, hints@, #[trigger] r@[k] as int),
        forall|j: int| stale_slot(board@, hints@, j) ==> r@.contains(j as usize),
{
    let mut r: Vec<usize> = Vec::new();
    let mut j: usize = 0;
    while j < board.len()
        invariant
            j <= board@.len(),
            forall|k: int| 0 <= k < r@.len() ==> stale_slot(board@, hints@, #[trigger] r@[k] as int),
            forall|i: int| 0 <= i < j && stale_slot(board@, hints@, i) ==> r@.contains(i as usize),
        decreases board@.len() - j,
    {
        if !is_listed(hints, &board[j]) {
            let ghost prev = r@;
            r.push(j);
            assert forall|i: int| 0 <= i < j + 1 && stale_slot(board@, hints@, i) implies r@.contains(
                i as usize,
            ) by {
                if i < j {
                    let w = choose|w: int| 0 <= w < prev.len() && prev[w] == i as usize;
                    assert(r@[w] == i as usize);
                } else {
                    assert(r@[r@.len() - 1] == j);
                }
            }
        }
        j = j + 1;
    }
    r
}

/// The hint that states `a`, `b` and `c`, each once, in that order.
fn distinct_facts(a: LetterAssignment, b: LetterAssignment, c: LetterAssignment) -> (h: Hint)
    ensures
        h == hint_of_facts(a, b, c),
{
    if b == a {
        if c == a {
            Hint::One(a)
        } else {
            Hint::Two(a, c)
        }
    } else if c == a || c == b {
        Hint::Two(a, b)
    } else {
        Hint::Three(a, b, c)
    }
}

/// One step of `before` that sampled `h`: the sample is counted, then swapped in when
/// `before` does not list it, else one letter makes an elementary move.
pub open spec fn sampled_move(before: &Agent, after: &Agent, h: Hint) -> bool {
    &&& counted(
        (before.compute_phi, before.correct_hints, before.total_hints),
        (after.correct_hints, after.total_hints),
        h,
    )
    &&& if !listed(before.hint_list(), h) {
        after.table() == assimilated(before.table(), h)
    } else {
        exists|p: LetterAssignment|
            is_elementary(before.table(), before.puzzle().letters, p) && after.table()
                == #[trigger] swapped(before.table(), p)
    }
}

/// What `find_hints` leaves: the hints derived from the unchanged table, nothing else changed.
pub open spec fn hints_refreshed(before: &Agent, after: &Agent) -> bool {
    &&& after.hint_list() == derived_hints(before.puzzle(), before.table())
    &&& after.table() == before.table()
    &&& after.puzzle() == before.puzzle()
    &&& after.cost == before.cost
    &&& after.correct_hints == before.correct_hints
    &&& after.total_hints == before.total_hints
    &&& after.compute_phi == before.compute_phi
}

/// Reading the hints twice without a move in between gives the same hints: they depend
/// on the puzzle and the table alone.
pub proof fn lemma_find_hints_deterministic(first: &Agent, second: &Agent, third: &Agent)
    requires
        hints_refreshed(first, second),
        hints_refreshed(second, third),
    ensures
        third.hint_list() == second.hint_list(),
        third.table() == first.table(),
{
}

/// Draws that pick a permutation: the `k`-th of the ten is below `10 - k`.
pub open spec fn valid_draws(draws: Seq<usize>) -> bool {
    draws.len() == LETTER_COUNT && forall|k: int| 0 <= k < LETTER_COUNT ==> #[trigger] draws[k] < LETTER_COUNT - k
}

/// The digits left after the first `k` draws: each draw takes the digit at its place
/// among those left, in increasing order.
pub open spec fn pool_after(draws: Seq<usize>, k: nat) -> Seq<u32>
    decreases k,
{
    if k == 0 {
        Seq::new(10, |i: int| i as u32)
    } else {
        pool_after(draws, (k - 1) as nat).remove(draws[k - 1] as int)
    }
}

/// The digit that the `k`-th draw picks.
pub open spec fn drawn_digit(draws: Seq<usize>, k: nat) -> u32 {
    pool_after(draws, k)[draws[k as int] as int]
}

/// The `k`-th of `letters` has the digit that the `k`-th draw picks, for each of the ten.
pub open spec fn table_drawn(m: Map<char, u32>, letters: Seq<char>, draws: Seq<usize>) -> bool {
    forall|k: int| 0 <= k < LETTER_COUNT ==> m[letters[k]] == #[trigger] drawn_digit(draws, k as nat)
}

/// What `make_move` may leave: a step that sampled one hint of `board`, or an
/// elementary move on an empty board; the puzzle, hints, cost and accuracy setting stay.
pub open spec fn board_move(before: &Agent, after: &Agent, board: Seq<Hint>) -> bool {
    &&& after.puzzle() == before.puzzle()
    &&& after.hint_list() == before.hint_list()
    &&& after.cost == before.cost
    &&& after.compute_phi == before.compute_phi
    &&& if board.len() == 0 {
        &&& after.correct_hints == before.correct_hints
        &&& after.total_hints == before.total_hints
        &&& exists|p: LetterAssignment|
            is_elementary(before.table(), before.puzzle().letters, p) && after.table()
                == #[trigger] swapped(before.table(), p)
    } else {
        exists|k: int| 0 <= k < board.len() && sampled_move(before, after, #[trigger] board[k])
    }
}

/// A searcher working on one puzzle.
#[derive(Debug)]
pub struct Agent<'a> {
    pub problem: &'a Problem,
    pub hints: Vec<Hint>,
    pub assignment: LetterTable,
    pub cost: u32,
    pub correct_hints: u64,
    pub total_hints: u64,
    pub compute_phi: bool,
}

impl<'a> Agent<'a> {
    /// The puzzle the searcher works on.
    pub open spec fn puzzle(&self) -> PuzzleView {
        self.problem@
    }

    /// The searcher's letter-to-digit table.
    pub open spec fn table(&self) -> Map<char, u32> {
        pairs_of(self.assignment)
    }

    /// The hints the searcher last read off its table.
    pub open spec fn hint_list(&self) -> Seq<Hint> {
        self.hints@
    }

    /// A playable puzzle, a table that is a bijection onto the digits, and hints that
    /// name the puzzle's letters and decimal digits.
    pub open spec fn wf(&self) -> bool {
        &&& self.puzzle().playable()
        &&& is_bijection(self.table(), self.puzzle().letters)
        &&& self.correct_hints <= self.total_hints
        &&& forall|i: int|
            0 <= i < self.hint_list().len() ==> (#[trigger] self.hint_list()[i]).fits(
                self.puzzle().letters,
            )
    }

    /// `self` and `other` differ at most in their tables.
    pub open spec fn same_but_table(&self, other: &Agent) -> bool {
        &&& self.puzzle() == other.puzzle()
        &&& self.hint_list() == other.hint_list()
        &&& self.cost == other.cost
        &&& self.correct_hints == other.correct_hints
        &&& self.total_hints == other.total_hints
        &&& self.compute_phi == other.compute_phi
    }

    /// A searcher whose table gives the `i`-th letter of the puzzle the digit `i`.
    pub fn new(problem: &'a Problem, compute_phi: bool) -> (r: Agent<'a>)
        requires
            problem@.playable(),
        ensures
            r.wf(),
            r.puzzle() == problem@,
            forall|i: int| 0 <= i < LETTER_COUNT ==> r.table()[problem@.letters[i]] == i,
            r.hint_list().len() == 0,
            r.cost == 0,
            r.correct_hints == 0,
            r.total_hints == 0,
            r.compute_phi == compute_phi,
    {
        let letters = problem.letters();
        proof {
            lemma_distinct_letters(problem@.first + problem@.second + problem@.result);
        }
        let mut assignment = empty_table();
        let mut i: usize = 0;
        while i < letters.len()
            invariant
                letters@ == problem@.letters,
                letters@.no_duplicates(),
                letters@.len() == LETTER_COUNT,
                i <= letters@.len(),
                forall|c: char|
                    #[trigger] pairs_of(assignment).contains_key(c) <==> letters@.take(
                        i as int,
                    ).contains(c),
                forall|j: int|
                    0 <= j < i ==> pairs_of(assignment)[#[trigger] letters@[j]] == j,
            decreases letters@.len() - i,
        {
            let ghost before = pairs_of(assignment);
            insert_pair(&mut assignment, letters[i], i as u32);
            proof {
                let take_next = letters@.take(i + 1);
                assert forall|c: char|
                    #[trigger] pairs_of(assignment).contains_key(c) <==> take_next.contains(c) by {
                    if letters@.take(i as int).contains(c) {
                        let j = choose|j: int| 0 <= j < i && letters@.take(i as int)[j] == c;
                        assert(take_next[j] == c);
                        assert(before[letters@[j]] == j);
                    }
                    if take_next.contains(c) {
                        let j = choose|j: int| 0 <= j <= i && take_next[j] == c;
                        if j < i {
                            assert(letters@.take(i as int)[j] == c);
                        }
                    }
                    assert(take_next[i as int] == letters@[i as int]);
                }
                assert forall|j: int| 0 <= j < i + 1 implies pairs_of(assignment)[#[trigger] letters@[j]] == j by {
                    if j < i {
                        assert(letters@[j] != letters@[i as int]);
                        assert(letters@.take(i as int)[j] == letters@[j]);
                    }
                }
            }
            i = i + 1;
        }
        let r = Agent {
            problem,
            hints: Vec::new(),
            assignment,
            cost: 0,
            correct_hints: 0,
            total_hints: 0,
            compute_phi,
        };
        proof {
            let m = pairs_of(assignment);
            assert(letters@.take(LETTER_COUNT as int) =~= letters@);
            assert forall|c: char| #[trigger] m.contains_key(c) implies m[c] < 10 by {
                let j = choose|j: int| 0 <= j < LETTER_COUNT && letters@[j] == c;
            }
            assert forall|c: char, d: char|
                #![trigger m[c], m[d]]
                m.contains_key(c) && m.contains_key(d) && m[c] == m[d] implies c == d by {
                let j = choose|j: int| 0 <= j < LETTER_COUNT && letters@[j] == c;
                let k = choose|k: int| 0 <= k < LETTER_COUNT && letters@[k] == d;
            }
            assert forall|v: u32| v < 10 implies #[trigger] holds_digit(m, v) by {
                assert(letters@.contains(letters@[v as int]));
                assert(m.contains_key(letters@[v as int]) && m[letters@[v as int]] == v);
            }
        }
        r
    }

    /// The digit the table gives `letter`, if it holds that letter.
    pub fn digit_of(&self, letter: char) -> (r: Option<u32>)
        ensures
            r == (if self.table().contains_key(letter) {
                Some(self.table()[letter])
            } else {
                None
            }),
    {
        digit_of_letter(&self.assignment, letter)
    }

    /// The digits of the puzzle's letters, in the order of `Problem::letters`.
    pub fn digits(&self) -> (r: Vec<u32>)
        requires
            self.wf(),
        ensures
            r@.len() == LETTER_COUNT,
            forall|i: int| 0 <= i < LETTER_COUNT ==> r@[i] == self.table()[self.puzzle().letters[i]],
    {
        let letters = self.problem.letters();
        let mut r: Vec<u32> = Vec::new();
        let mut i: usize = 0;
        while i < letters.len()
            invariant
                self.wf(),
                letters@ == self.puzzle().letters,
                i <= letters@.len(),
                r@.len() == i,
                forall|j: int| 0 <= j < i ==> r@[j] == self.table()[letters@[j]],
            decreases letters@.len() - i,
        {
            let d = self.digit(letters[i]);
            r.push(d);
            i = i + 1;
        }
        r
    }

    /// The number of letter-digit pairs in the table.
    pub fn assignment_len(&self) -> (r: usize)
        ensures
            r == self.table().dom().len(),
    {
        table_len(&self.assignment)
    }

    /// The digit of `letter`, one of the puzzle's letters.
    fn digit(&self, letter: char) -> (r: u32)
        requires
            self.wf(),
            self.puzzle().letters.contains(letter),
        ensures
            r == self.table()[letter],
            r < 10,
    {
        match digit_of_letter(&self.assignment, letter) {
            Some(d) => d,
            None => 0,
        }
    }

    /// Gives `desired.letter` the digit `desired.value`; the letter that held that digit
    /// takes the old digit of `desired.letter`.
    pub fn swap_letter_assignment(&mut self, desired: &LetterAssignment)
        requires
            old(self).wf(),
            old(self).puzzle().letters.contains(desired.letter),
            desired.value < 10,
        ensures
            final(self).wf(),
            final(self).table() == swapped(old(self).table(), *desired),
            final(self).same_but_table(old(self)),
    {
        let ghost m = self.table();
        proof {
            lemma_swap_keeps_bijection(m, self.puzzle().letters, *desired);
            assert(holds_digit(m, desired.value));
        }
        let current = self.digit(desired.letter);
        match letter_of_digit(&self.assignment, desired.value) {
            Some(other) => {
                proof {
                    lemma_inserts_swap(m, self.puzzle().letters, *desired, other);
                }
                insert_pair(&mut self.assignment, other, current);
                insert_pair(&mut self.assignment, desired.letter, desired.value);
                assert(self.hint_list() == old(self).hint_list());
            },
            None => {
                proof {
                    let h = choose|c: char| m.contains_key(c) && m[c] == desired.value;
                    assert(pairs_of(self.assignment).contains_key(h));
                }
            },
        }
    }

    /// The numbers the three words spell under the table.
    fn numbers(&self) -> (r: (u32, u32, u32))
        requires
            self.wf(),
        ensures
            r.0 == number_of(self.puzzle().first, self.table()),
            r.1 == number_of(self.puzzle().second, self.table()),
            r.2 == number_of(self.puzzle().result, self.table()),
            r.0 < 1_000_000_000,
            r.1 < 1_000_000_000,
            r.2 < 1_000_000_000,
    {
        let ghost pz = self.puzzle();
        let ghost m = self.table();
        proof {
            lemma_word_letters(pz);
            reveal_with_fuel(pow10, 10);
            assert(pow10(9) == 1_000_000_000);
        }
        let w = self.problem.width();
        let mut f: u32 = 0;
        let mut s: u32 = 0;
        let mut t: u32 = 0;
        let mut i: usize = 0;
        while i < w
            invariant
                self.wf(),
                pz == self.puzzle(),
                m == self.table(),
                w == pz.width(),
                i <= w,
                pow10(9) == 1_000_000_000,
                forall|j: int| 0 <= j < pz.width() ==> pz.letters.contains(#[trigger] pz.first[j]),
                forall|j: int| 0 <= j < pz.width() ==> pz.letters.contains(#[trigger] pz.second[j]),
                forall|j: int| 0 <= j < pz.width() ==> pz.letters.contains(#[trigger] pz.result[j]),
                f == number_of(pz.first.take(i as int), m),
                s == number_of(pz.second.take(i as int), m),
                t == number_of(pz.result.take(i as int), m),
                f < pow10(i as nat),
                s < pow10(i as nat),
                t < pow10(i as nat),
            decreases w - i,
        {
            let (a1, a2, r) = self.problem.column(i);
            let d1 = self.digit(a1);
            let d2 = self.digit(a2);
            let dr = self.digit(r);
            proof {
                lemma_pow10_monotonic((i + 1) as nat, 9);
                assert(pz.first.take(i + 1).drop_last() =~= pz.first.take(i as int));
                assert(pz.second.take(i + 1).drop_last() =~= pz.second.take(i as int));
                assert(pz.result.take(i + 1).drop_last() =~= pz.result.take(i as int));
            }
            f = f * 10 + d1;
            s = s * 10 + d2;
            t = t * 10 + dr;
            i = i + 1;
        }
        proof {
            lemma_pow10_monotonic(w as nat, 9);
            assert(pz.first.take(w as int) =~= pz.first);
            assert(pz.second.take(w as int) =~= pz.second);
            assert(pz.result.take(w as int) =~= pz.result);
        }
        (f, s, t)
    }

    /// Whether the table solves the puzzle: the first two numbers add up to the third.
    pub fn is_solved(&self) -> (r: bool)
        requires
            self.wf(),
        ensures
            r == solved_by(self.puzzle(), self.table()),
    {
        let (f, s, t) = self.numbers();
        f + s == t
    }

    /// Stores in `cost` how far the table is from a solution (see `cost_of`).
    pub fn compute_cost(&mut self)
        requires
            old(self).wf(),
        ensures
            final(self).wf(),
            final(self).cost == cost_of(old(self).puzzle(), old(self).table()),
            final(self).table() == old(self).table(),
            final(self).puzzle() == old(self).puzzle(),
            final(self).hint_list() == old(self).hint_list(),
            final(self).correct_hints == old(self).correct_hints,
            final(self).total_hints == old(self).total_hints,
            final(self).compute_phi == old(self).compute_phi,
    {
        proof {
            lemma_word_letters(self.puzzle());
        }
        let (a1, a2, r) = self.problem.column(0);
        if self.digit(a1) == 0 || self.digit(a2) == 0 || self.digit(r) == 0 {
            self.cost = LEADING_ZERO_PENALTY;
            assert(self.hint_list() == old(self).hint_list());
            return;
        }
        let (f, s, t) = self.numbers();
        if t >= f + s {
            self.cost = t - (f + s);
        } else {
            self.cost = (f + s) - t;
        }
        assert(self.hint_list() == old(self).hint_list());
    }

    /// Replaces the hint list with the hints of the columns that hold under the table.
    pub fn find_hints(&mut self)
        requires
            old(self).wf(),
        ensures
            final(self).wf(),
            hints_refreshed(old(self), final(self)),
    {
        let ghost pz = self.puzzle();
        let ghost m = self.table();
        proof {
            lemma_word_letters(pz);
        }
        self.hints = Vec::new();
        let w = self.problem.width();
        let mut i: usize = 0;
        while i < w
            invariant
                self.wf(),
                pz == self.puzzle(),
                m == self.table(),
                self.cost == old(self).cost,
                self.correct_hints == old(self).correct_hints,
                self.total_hints == old(self).total_hints,
                self.compute_phi == old(self).compute_phi,
                w == pz.width(),
                i <= w,
                forall|j: int| 0 <= j < pz.width() ==> pz.letters.contains(#[trigger] pz.first[j]),
                forall|j: int| 0 <= j < pz.width() ==> pz.letters.contains(#[trigger] pz.second[j]),
                forall|j: int| 0 <= j < pz.width() ==> pz.letters.contains(#[trigger] pz.result[j]),
                self.hints@ == hints_upto(pz, m, i as int),
            decreases w - i,
        {
            let (a1, a2, r) = self.problem.column(i);
            let d1 = self.digit(a1);
            let d2 = self.digit(a2);
            let dr = self.digit(r);
            if (d1 + d2) % 10 == dr || (d1 + d2 + 1) % 10 == dr {
                let h = distinct_facts(
                    LetterAssignment { letter: a1, value: d1 },
                    LetterAssignment { letter: a2, value: d2 },
                    LetterAssignment { letter: r, value: dr },
                );
                assert(h.fits(pz.letters));
                let ghost prev = self.hint_list();
                self.hints.push(h);
                assert forall|j: int| 0 <= j < self.hint_list().len() implies (
                #[trigger] self.hint_list()[j]).fits(pz.letters) by {
                    if j < prev.len() {
                        assert(self.hint_list()[j] == prev[j]);
                        assert(prev[j].fits(pz.letters));
                    } else {
                        assert(self.hint_list()[j] == h);
                    }
                }
            }
            i = i + 1;
        }
    }

    /// Swaps in the facts of `hint`, in the order they were written.
    pub fn assimilate_hint(&mut self, hint: &Hint)
        requires
            old(self).wf(),
            hint.fits(old(self).puzzle().letters),
        ensures
            final(self).wf(),
            final(self).table() == assimilated(old(self).table(), *hint),
            final(self).same_but_table(old(self)),
    {
        match hint {
            Hint::One(a) => {
                assert(hint.pairs().contains(*a));
                self.swap_letter_assignment(a);
            },
            Hint::Two(a, b) => {
                assert(hint.pairs().contains(*a) && hint.pairs().contains(*b));
                self.swap_letter_assignment(a);
                self.swap_letter_assignment(b);
            },
            Hint::Three(a, b, c) => {
                assert(hint.pairs().contains(*a) && hint.pairs().contains(*b));
                assert(hint.pairs().contains(*c));
                self.swap_letter_assignment(a);
                self.swap_letter_assignment(b);
                self.swap_letter_assignment(c);
            },
        }
    }

    /// Writes one of the searcher's hints that the board does not list: onto free room,
    /// or, on a full board, in place of a randomly chosen hint that the searcher does
    /// not list; nothing is written when no such hint or slot exists.
    pub fn pick_and_replace(&mut self, blackboard: &mut Blackboard, rng: &mut StdRng)
        requires
            old(self).wf(),
            old(blackboard)@.wf(),
        ensures
            *final(self) == *old(self),
            final(blackboard)@.wf(),
            board_fits(old(blackboard)@.entries, old(self).puzzle().letters) ==> board_fits(
                final(blackboard)@.entries,
                old(self).puzzle().letters,
            ),
            is_policy_write(old(self).hint_list(), old(blackboard)@, final(blackboard)@),
    {
        let ghost letters = self.puzzle().letters;
        let novel = novel_of(&self.hints, blackboard.entries());
        if novel.len() == 0 {
            return;
        }
        let k = random_below(rng, novel.len());
        let candidate = novel[k];
        assert(self.hints@.contains(candidate));
        let ghost at = choose|i: int| 0 <= i < self.hints@.len() && self.hints@[i] == candidate;
        assert(self.hint_list()[at] == candidate);
        assert(candidate.fits(letters));
        let ghost before = blackboard@;
        if !blackboard.is_full() {
            blackboard.append(candidate);
            assert(board_fits(before.entries, letters) ==> board_fits(blackboard@.entries, letters)) by {
                assert forall|i: int|
                    board_fits(before.entries, letters) && 0 <= i < blackboard@.entries.len() implies (
                #[trigger] blackboard@.entries[i]).fits(letters) by {
                    if i < before.entries.len() {
                        assert(blackboard@.entries[i] == before.entries[i]);
                    }
                }
            }
            return;
        }
        let slots = stale_slots(blackboard.entries(), &self.hints);
        if slots.len() == 0 {
            assert forall|j: int| 0 <= j < before.entries.len() implies listed(
                self.hint_list(),
                #[trigger] before.entries[j],
            ) by {
                if !listed(self.hint_list(), before.entries[j]) {
                    assert(stale_slot(before.entries, self.hints@, j));
                }
            }
            return;
        }
        let s = random_below(rng, slots.len());
        let slot = slots[s];
        assert(stale_slot(before.entries, self.hints@, slot as int));
        blackboard.replace_slot(slot, candidate);
        assert(board_fits(before.entries, letters) ==> board_fits(blackboard@.entries, letters)) by {
            assert forall|i: int|
                board_fits(before.entries, letters) && 0 <= i < blackboard@.entries.len() implies (
            #[trigger] blackboard@.entries[i]).fits(letters) by {
                if i < slot {
                    assert(blackboard@.entries[i] == before.entries[i]);
                } else if i < before.entries.len() - 1 {
                    assert(blackboard@.entries[i] == before.entries[i + 1]);
                }
            }
        }
    }

    /// Counts a hint sampled from the board when accuracy is tracked.
    pub fn record_sample(&mut self, hint: &Hint)
        requires
            old(self).total_hints < u64::MAX,
            old(self).correct_hints <= old(self).total_hints,
        ensures
            final(self).correct_hints <= final(self).total_hints,
            counted(
                (old(self).compute_phi, old(self).correct_hints, old(self).total_hints),
                (final(self).correct_hints, final(self).total_hints),
                *hint,
            ),
            final(self).compute_phi == old(self).compute_phi,
            final(self).table() == old(self).table(),
            final(self).puzzle() == old(self).puzzle(),
            final(self).hint_list() == old(self).hint_list(),
            final(self).cost == old(self).cost,
    {
        if self.compute_phi {
            self.total_hints = self.total_hints + 1;
            if hint.is_correct() {
                self.correct_hints = self.correct_hints + 1;
            }
        }
    }

    /// Moves `letter` to the `drawn`-th of the nine digits other than its current one.
    pub fn elementary_move_with(&mut self, letter: char, drawn: u32)
        requires
            old(self).wf(),
            old(self).puzzle().letters.contains(letter),
            drawn < 9,
        ensures
            final(self).wf(),
            final(self).table() == swapped(
                old(self).table(),
                fact(letter, other_digit(drawn, old(self).table()[letter])),
            ),
            is_elementary(
                old(self).table(),
                old(self).puzzle().letters,
                fact(letter, other_digit(drawn, old(self).table()[letter])),
            ),
            final(self).same_but_table(old(self)),
    {
        let current = self.digit(letter);
        let digit = if drawn >= current {
            drawn + 1
        } else {
            drawn
        };
        self.swap_letter_assignment(&LetterAssignment { letter, value: digit });
    }

    /// Moves a random letter to a digit drawn uniformly from the nine others.
    pub fn elementary_move(&mut self, rng: &mut StdRng)
        requires
            old(self).wf(),
        ensures
            final(self).wf(),
            exists|p: LetterAssignment|
                is_elementary(old(self).table(), old(self).puzzle().letters, p)
                    && final(self).table() == #[trigger] swapped(old(self).table(), p),
            final(self).same_but_table(old(self)),
    {
        let letters = self.problem.letters();
        let i = random_below(rng, LETTER_COUNT);
        let letter = letters[i];
        let drawn = random_below(rng, 9) as u32;
        let ghost m = self.table();
        self.elementary_move_with(letter, drawn);
        assert(self.table() == swapped(m, fact(letter, other_digit(drawn, m[letter]))));
    }

    /// Gives a random letter the digit that `best` gives it.
    pub fn imitate(&mut self, best: &Agent, rng: &mut StdRng)
        requires
            old(self).wf(),
            best.wf(),
            best.puzzle() == old(self).puzzle(),
        ensures
            final(self).wf(),
            exists|i: int|
                0 <= i < LETTER_COUNT && final(self).table() == swapped(
                    old(self).table(),
                    fact(
                        #[trigger] old(self).puzzle().letters[i],
                        best.table()[old(self).puzzle().letters[i]],
                    ),
                ),
            final(self).same_but_table(old(self)),
    {
        let letters = self.problem.letters();
        let i = random_below(rng, LETTER_COUNT);
        let letter = letters[i];
        let value = best.digit(letter);
        let hint = Hint::One(LetterAssignment { letter, value });
        assert(letters@[i as int] == letter);
        assert(letters@.contains(letter));
        assert(hint.pairs() =~= set![fact(letter, value)]);
        assert(hint.fits(letters@));
        self.assimilate_hint(&hint);
    }

    /// One step with the board: sample one of its hints, count it, and swap it in
    /// when the searcher does not list it; otherwise, or on an empty board, make an
    /// elementary move.
    pub fn make_move(&mut self, blackboard: &mut Blackboard, rng: &mut StdRng)
        requires
            old(self).wf(),
            old(blackboard)@.wf(),
            board_fits(old(blackboard)@.entries, old(self).puzzle().letters),
            old(self).total_hints < u64::MAX,
        ensures
            *final(blackboard) == *old(blackboard),
            final(self).wf(),
            board_move(old(self), final(self), old(blackboard)@.entries),
    {
        let ghost start = *self;
        if !blackboard.is_empty() {
            let k = random_below(rng, blackboard.len());
            let hint = blackboard.entries()[k];
            assert(hint == blackboard@.entries[k as int]);
            self.record_sample(&hint);
            if !is_listed(&self.hints, &hint) {
                self.assimilate_hint(&hint);
                assert(sampled_move(&start, self, hint));
                return;
            }
            self.elementary_move(rng);
            assert(sampled_move(&start, self, hint));
            return;
        }
        self.elementary_move(rng);
        assert(self.hint_list() == start.hint_list());
    }

    /// Gives the letters, in turn, digits drawn at random from those not yet given:
    /// a random permutation of the digits.
    pub fn assign_random(&mut self, rng: &mut StdRng)
        requires
            old(self).wf(),
        ensures
            final(self).wf(),
            final(self).same_but_table(old(self)),
            exists|draws: Seq<usize>|
                valid_draws(draws) && #[trigger] table_drawn(final(self).table(), final(self).puzzle().letters, draws),
    {
        let mut draws: Vec<usize> = Vec::new();
        let mut k: usize = 0;
        while k < LETTER_COUNT
            invariant
                k <= LETTER_COUNT,
                draws@.len() == k,
                forall|j: int| 0 <= j < k ==> #[trigger] draws@[j] < LETTER_COUNT - j,
            decreases LETTER_COUNT - k,
        {
            let d = random_below(rng, LETTER_COUNT - k);
            draws.push(d);
            k = k + 1;
        }
        self.assign_from_draws(&draws);
    }

    /// Gives the letters, in the order of `Problem::letters`, the digits picked by
    /// `draws`: the `k`-th letter takes the digit at place `draws[k]` among those that
    /// the letters before it left, in increasing order.
    pub fn assign_from_draws(&mut self, draws: &Vec<usize>)
        requires
            old(self).wf(),
            valid_draws(draws@),
        ensures
            final(self).wf(),
            final(self).same_but_table(old(self)),
            table_drawn(final(self).table(), final(self).puzzle().letters, draws@),
    {
        let letters = self.problem.letters();
        let ghost pz = self.puzzle();
        proof {
            lemma_distinct_letters(pz.first + pz.second + pz.result);
        }
        let mut digits: Vec<u32> = Vec::new();
        let mut v: u32 = 0;
        while v < 10
            invariant
                v <= 10,
                digits@.len() == v,
                forall|i: int| 0 <= i < v ==> digits@[i] == i,
            decreases 10 - v,
        {
            digits.push(v);
            v = v + 1;
        }
        assert forall|w: u32| w < 10 implies digits@.contains(w) by {
            assert(digits@[w as int] == w);
        }
        assert(digits@ =~= pool_after(draws@, 0));
        let mut table = empty_table();
        let ghost mut chosen: Seq<u32> = Seq::empty();
        let mut k: usize = 0;
        while k < LETTER_COUNT
            invariant
                letters@ == pz.letters,
                letters@.no_duplicates(),
                letters@.len() == LETTER_COUNT,
                k <= LETTER_COUNT,
                chosen.len() == k,
                digits@.len() + k == LETTER_COUNT,
                digits@.no_duplicates(),
                forall|i: int| 0 <= i < digits@.len() ==> #[trigger] digits@[i] < 10,
                forall|c: char|
                    #[trigger] pairs_of(table).contains_key(c) <==> letters@.take(k as int).contains(c),
                forall|j: int| 0 <= j < k ==> pairs_of(table)[#[trigger] letters@[j]] == chosen[j],
                forall|j: int| 0 <= j < k ==> #[trigger] chosen[j] < 10 && !digits@.contains(chosen[j]),
                forall|j1: int, j2: int|
                    0 <= j1 < k && 0 <= j2 < k && #[trigger] chosen[j1] == #[trigger] chosen[j2] ==> j1 == j2,
                forall|w: u32| w < 10 ==> digits@.contains(w) || #[trigger] chosen.contains(w),
                valid_draws(draws@),
                digits@ == pool_after(draws@, k as nat),
                forall|j: int| 0 <= j < k ==> #[trigger] chosen[j] == drawn_digit(draws@, j as nat),
            decreases LETTER_COUNT - k,
        {
            let idx = draws[k];
            let ghost pool = digits@;
            let d = digits.remove(idx);
            let ghost before = pairs_of(table);
            insert_pair(&mut table, letters[k], d);
            proof {
                assert(pool[idx as int] == d);
                assert forall|i: int| 0 <= i < digits@.len() implies #[trigger] digits@[i] < 10 by {
                    if i < idx {
                        assert(digits@[i] == pool[i]);
                    } else {
                        assert(digits@[i] == pool[i + 1]);
                    }
                }
                assert forall|x: u32| #[trigger] digits@.contains(x) implies pool.contains(x) && x != d by {
                    let i = choose|i: int| 0 <= i < digits@.len() && digits@[i] == x;
                    if i < idx {
                        assert(pool[i] == x);
                    } else {
                        assert(pool[i + 1] == x);
                    }
                }
                assert forall|x: u32| #[trigger] pool.contains(x) && x != d implies digits@.contains(x) by {
                    let i = choose|i: int| 0 <= i < pool.len() && pool[i] == x;
                    if i < idx {
                        assert(digits@[i] == x);
                    } else {
                        assert(digits@[i - 1] == x);
                    }
                }
                assert(digits@.no_duplicates()) by {
                    assert forall|a: int, b: int|
                        0 <= a < digits@.len() && 0 <= b < digits@.len() && a != b implies digits@[a]
                        != digits@[b] by {
                        let pa = if a < idx { a } else { a + 1 };
                        let pb = if b < idx { b } else { b + 1 };
                        assert(digits@[a] == pool[pa]);
                        assert(digits@[b] == pool[pb]);
                    }
                }
                // no pair of the table holds `d`: it was still in the pool
                assert forall|c: char| before.contains_key(c) implies before[c] != d by {
                    let j = choose|j: int| 0 <= j < k && letters@.take(k as int)[j] == c;
                    assert(letters@[j] == c);
                }
                let new_chosen = chosen.push(d);
                let take_next = letters@.take(k + 1);
                assert forall|c: char|
                    #[trigger] pairs_of(table).contains_key(c) <==> take_next.contains(c) by {
                    if letters@.take(k as int).contains(c) {
                        let j = choose|j: int| 0 <= j < k && letters@.take(k as int)[j] == c;
                        assert(take_next[j] == c);
                    }
                    if take_next.contains(c) {
                        let j = choose|j: int| 0 <= j <= k && take_next[j] == c;
                        if j < k {
                            assert(letters@.take(k as int)[j] == c);
                        }
                    }
                    assert(take_next[k as int] == letters@[k as int]);
                }
                assert forall|j: int| 0 <= j < k + 1 implies pairs_of(table)[#[trigger] letters@[j]]
                    == new_chosen[j] by {
                    if j < k {
                        assert(letters@[j] != letters@[k as int]);
                        assert(letters@.take(k as int)[j] == letters@[j]);
                        assert(before.contains_key(letters@[j]));
                    }
                }
                assert forall|w: u32| w < 10 implies digits@.contains(w) || #[trigger] new_chosen.contains(
                    w,
                ) by {
                    if w == d {
                        assert(new_chosen[k as int] == d);
                    } else if chosen.contains(w) {
                        let j = choose|j: int| 0 <= j < chosen.len() && chosen[j] == w;
                        assert(new_chosen[j] == w);
                    }
                }
                assert(digits@ == pool_after(draws@, (k + 1) as nat));
                assert(new_chosen[k as int] == drawn_digit(draws@, k as nat));
                chosen = new_chosen;
            }
            k = k + 1;
        }
        proof {
            let m = pairs_of(table);
            assert(letters@.take(LETTER_COUNT as int) =~= letters@);
            assert(digits@.len() == 0);
            assert forall|c: char| #[trigger] m.contains_key(c) implies m[c] < 10 by {
                let j = choose|j: int| 0 <= j < LETTER_COUNT && letters@[j] == c;
            }
            assert forall|c: char, e: char|
                #![trigger m[c], m[e]]
                m.contains_key(c) && m.contains_key(e) && m[c] == m[e] implies c == e by {
                let j = choose|j: int| 0 <= j < LETTER_COUNT && letters@[j] == c;
                let i = choose|i: int| 0 <= i < LETTER_COUNT && letters@[i] == e;
                assert(chosen[j] == chosen[i]);
            }
            assert forall|w: u32| w < 10 implies #[trigger] holds_digit(m, w) by {
                assert(chosen.contains(w));
                let j = choose|j: int| 0 <= j < chosen.len() && chosen[j] == w;
                assert(letters@.contains(letters@[j]));
                assert(m.contains_key(letters@[j]) && m[letters@[j]] == w);
            }
        }
        self.assignment = table;
        assert(self.hint_list() == old(self).hint_list());
    }
}

} // verus!
