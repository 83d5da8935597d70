//! The two search engines: searchers sharing a blackboard, and searchers imitating the
//! best of them. Time is counted in steps: a trial of `m` searchers starts at time one
//! and each step adds `1 / m`, so its work `m * t` is `m + steps` step units.
use crate::agent::{
    board_fits, board_move, cost_of, derived_hints, hints_refreshed, is_bijection, is_elementary,
    is_policy_write, solved_by, swapped, Agent,
};
use crate::hint::{fact, LetterAssignment};
use crate::board::Blackboard;
use crate::puzzle::{lemma_reference_playable, reference_puzzle, Problem, PuzzleView, LETTER_COUNT};
use crate::random::{random_below, random_ratio, seeded};
use rand::rngs::StdRng;
use vstd::prelude::*;

verus! {

/// `digits`, read in the order of the puzzle's letters, is a table that solves the puzzle.
pub open spec fn solution_digits(pz: PuzzleView, digits: Seq<u32>) -> bool {
    exists|t: Map<char, u32>|
        is_bijection(t, pz.letters) && #[trigger] solved_by(pz, t) && digits.len() == pz.letters.len()
            && forall|i: int| 0 <= i < digits.len() ==> digits[i] == t[pz.letters[i]]
}

/// `digits`, read in the order of the puzzle's letters, is a table of cost zero: it solves
/// the puzzle with no word starting with zero.
pub open spec fn zero_cost_digits(pz: PuzzleView, digits: Seq<u32>) -> bool {
    exists|t: Map<char, u32>|
        is_bijection(t, pz.letters) && #[trigger] cost_of(pz, t) == 0 && digits.len()
            == pz.letters.len() && forall|i: int| 0 <= i < digits.len() ==> digits[i] == t[pz.letters[i]]
}

/// The searchers all work on `pz`, are well formed, and have sampled at most `steps` hints.
pub open spec fn agents_ok(agents: Seq<Agent>, pz: PuzzleView, steps: u64) -> bool {
    forall|j: int|
        0 <= j < agents.len() ==> (#[trigger] agents[j]).wf() && agents[j].puzzle() == pz
            && agents[j].total_hints <= steps
}

/// A converged blackboard trial.
#[derive(Debug)]
pub struct BlackboardResult {
    /// The number of searchers.
    pub m: u32,
    /// The blackboard's capacity.
    pub b: u32,
    /// The steps taken; the time of convergence is `1 + steps / m`.
    pub steps: u64,
    /// For each searcher, the sampled hints that the oracle calls correct, and all sampled hints.
    pub hint_counts: Vec<(u64, u64)>,
    /// The digits of the searcher that solved the puzzle, in the order of `Problem::letters`.
    pub solution: Vec<u32>,
}

/// A converged imitation trial.
#[derive(Debug)]
pub struct ImitativeResult {
    /// The number of searchers.
    pub m: u32,
    /// The chance of imitation is `p_num / p_den`.
    pub p_num: u32,
    pub p_den: u32,
    /// The steps taken; the time of convergence is `1 + steps / m`.
    pub steps: u64,
    /// The digits of the searcher that reached cost zero, in the order of `Problem::letters`.
    pub solution: Vec<u32>,
}

/// The searchers of one blackboard trial and their shared board.
pub struct BlackboardTrial<'a> {
    pub agents: Vec<Agent<'a>>,
    pub board: Blackboard,
    pub steps: u64,
    pub compute_phi: bool,
}

/// The move of the best one that `before` did and `after` shows: one letter took
/// the digit that `best` gives it.
pub open spec fn imitated_from(before: Map<char, u32>, letters: Seq<char>, best: Map<char, u32>, after: Map<char, u32>) -> bool {
    exists|k: int|
        0 <= k < LETTER_COUNT && after == swapped(before, fact(#[trigger] letters[k], best[letters[k]]))
}

/// An elementary move from `before` to `after`: one letter took another digit.
pub open spec fn elementary_from(before: Map<char, u32>, letters: Seq<char>, after: Map<char, u32>) -> bool {
    exists|p: LetterAssignment| is_elementary(before, letters, p) && after == #[trigger] swapped(before, p)
}

/// One blackboard step by searcher `i`: it moved with the board, read its hints again and
/// wrote to the board by the write policy; nobody else changed, and `r` names it exactly
/// when its table solves the puzzle.
pub open spec fn blackboard_step(before: &BlackboardTrial, after: &BlackboardTrial, i: int, r: Option<usize>) -> bool {
    &&& 0 <= i < before.agents@.len()
    &&& after.agents@.len() == before.agents@.len()
    &&& forall|j: int| 0 <= j < after.agents@.len() && j != i ==> after.agents@[j] == before.agents@[j]
    &&& exists|moved: Agent|
        board_move(&before.agents@[i], &moved, before.board@.entries) && #[trigger] hints_refreshed(
            &moved,
            &after.agents@[i],
        )
    &&& is_policy_write(after.agents@[i].hint_list(), before.board@, after.board@)
    &&& after.steps == before.steps + 1
    &&& after.compute_phi == before.compute_phi
    &&& r == if solved_by(after.agents@[i].puzzle(), after.agents@[i].table()) {
        Some(i as usize)
    } else {
        None
    }
}

impl<'a> BlackboardTrial<'a> {
    /// Searchers on `pz` holding the hints of their tables, counting samples only when
    /// accuracy is tracked, with a well-formed board whose hints name the puzzle's letters.
    pub open spec fn wf(&self, pz: PuzzleView) -> bool {
        &&& agents_ok(self.agents@, pz, self.steps)
        &&& self.agents@.len() > 0
        &&& self.board@.wf()
        &&& board_fits(self.board@.entries, pz.letters)
        &&& forall|j: int|
            0 <= j < self.agents@.len() ==> (#[trigger] self.agents@[j]).compute_phi == self.compute_phi
                && self.agents@[j].hint_list() == derived_hints(pz, self.agents@[j].table())
                && (!self.compute_phi ==> self.agents@[j].total_hints == 0)
    }

    /// `m` searchers with random tables, each of which has read its hints and written
    /// to the board of capacity `b`, in turn, starting from an empty board.
    pub fn new(problem: &'a Problem, m: u32, b: u32, compute_phi: bool, rng: &mut StdRng) -> (r: BlackboardTrial<'a>)
        requires
            problem@.playable(),
            m > 0,
        ensures
            r.wf(problem@),
            r.agents@.len() == m,
            r.board@.capacity == b,
            r.steps == 0,
            r.compute_phi == compute_phi,
    {
        let mut board = Blackboard::new(b as usize);
        let mut agents: Vec<Agent<'a>> = Vec::new();
        let mut i: u32 = 0;
        while i < m
            invariant
                problem@.playable(),
                i <= m,
                agents@.len() == i,
                agents_ok(agents@, problem@, 0),
                forall|j: int|
                    0 <= j < i ==> (#[trigger] agents@[j]).compute_phi == compute_phi && agents@[j].hint_list()
                        == derived_hints(problem@, agents@[j].table()) && agents@[j].total_hints == 0,
                board@.wf(),
                board@.capacity == b,
                board_fits(board@.entries, problem@.letters),
            decreases m - i,
        {
            let mut a = Agent::new(problem, compute_phi);
            a.assign_random(rng);
            a.find_hints();
            a.pick_and_replace(&mut board, rng);
            agents.push(a);
            i = i + 1;
        }
        BlackboardTrial { agents, board, steps: 0, compute_phi }
    }

    /// One step by a randomly drawn searcher (see `step_with`).
    pub fn step(&mut self, rng: &mut StdRng) -> (r: Option<usize>)
        requires
            old(self).wf(old(self).agents@[0].puzzle()),
            old(self).steps < u64::MAX,
        ensures
            final(self).wf(old(self).agents@[0].puzzle()),
            exists|i: int| #[trigger] blackboard_step(old(self), final(self), i, r),
    {
        let i = random_below(rng, self.agents.len());
        self.step_with(i, rng)
    }

    /// One step by searcher `i`: it moves with the board, reads its hints again, and
    /// writes to the board. Returns `i` when its table solves the puzzle.
    pub fn step_with(&mut self, i: usize, rng: &mut StdRng) -> (r: Option<usize>)
        requires
            old(self).wf(old(self).agents@[0].puzzle()),
            old(self).steps < u64::MAX,
            i < old(self).agents@.len(),
        ensures
            final(self).wf(old(self).agents@[0].puzzle()),
            blackboard_step(old(self), final(self), i as int, r),
    {
        let ghost pz = self.agents@[0].puzzle();
        assert(self.agents@[i as int].wf());
        self.agents[i].make_move(&mut self.board, rng);
        let ghost moved = self.agents@[i as int];
        self.agents[i].find_hints();
        self.steps = self.steps + 1;
        self.agents[i].pick_and_replace(&mut self.board, rng);
        assert(hints_refreshed(&moved, &self.agents@[i as int]));
        assert forall|j: int| 0 <= j < self.agents@.len() && j != i implies self.agents@[j] == old(
            self,
        ).agents@[j] by {}
        assert(agents_ok(self.agents@, pz, self.steps)) by {
            assert forall|j: int| 0 <= j < self.agents@.len() implies (#[trigger] self.agents@[j]).wf()
                && self.agents@[j].puzzle() == pz && self.agents@[j].total_hints <= self.steps by {
                if j != i {
                    assert(self.agents@[j] == old(self).agents@[j]);
                }
            }
        }
        assert forall|j: int| 0 <= j < self.agents@.len() implies (#[trigger] self.agents@[j]).compute_phi
            == self.compute_phi && self.agents@[j].hint_list() == derived_hints(pz, self.agents@[j].table())
            && (!self.compute_phi ==> self.agents@[j].total_hints == 0) by {
            if j != i {
                assert(self.agents@[j] == old(self).agents@[j]);
            }
        }
        if self.agents[i].is_solved() {
            Some(i)
        } else {
            None
        }
    }

    /// The accuracy counters of each searcher.
    pub fn hint_counts(&self) -> (r: Vec<(u64, u64)>)
        ensures
            r@.len() == self.agents@.len(),
            forall|j: int|
                0 <= j < r@.len() ==> #[trigger] r@[j] == (self.agents@[j].correct_hints, self.agents@[j].total_hints),
    {
        let mut r: Vec<(u64, u64)> = Vec::new();
        let mut j: usize = 0;
        while j < self.agents.len()
            invariant
                j <= self.agents@.len(),
                r@.len() == j,
                forall|k: int|
                    0 <= k < j ==> #[trigger] r@[k] == (self.agents@[k].correct_hints, self.agents@[k].total_hints),
            decreases self.agents@.len() - j,
        {
            r.push((self.agents[j].correct_hints, self.agents[j].total_hints));
            j = j + 1;
        }
        r
    }
}

/// The searchers of one imitation trial and the best one seen.
pub struct ImitativeTrial<'a> {
    pub agents: Vec<Agent<'a>>,
    pub best: usize,
    pub best_cost: u32,
    pub steps: u64,
}

/// One imitation step by searcher `i` with chance `p_num / p_den` of imitation: it
/// imitated the best searcher (never when it is the best) or made an elementary move
/// (always when it is the best or the chance is zero), its cost was computed, it
/// became the best exactly when its cost fell below the best cost, nobody else
/// changed, and `r` names it exactly when its cost is zero.
pub open spec fn imitative_step(
    before: &ImitativeTrial,
    after: &ImitativeTrial,
    i: int,
    p_num: u32,
    p_den: u32,
    r: Option<usize>,
) -> bool {
    let a = before.agents@[i];
    let f = after.agents@[i];
    let letters = a.puzzle().letters;
    let imitated = imitated_from(a.table(), letters, before.agents@[before.best as int].table(), f.table());
    let moved = elementary_from(a.table(), letters, f.table());
    &&& 0 <= i < before.agents@.len()
    &&& after.agents@.len() == before.agents@.len()
    &&& forall|j: int| 0 <= j < after.agents@.len() && j != i ==> after.agents@[j] == before.agents@[j]
    &&& after.steps == before.steps + 1
    &&& f.puzzle() == a.puzzle()
    &&& f.cost == cost_of(f.puzzle(), f.table())
    &&& (i == before.best || p_num == 0) ==> moved
    &&& (i != before.best && p_num == p_den) ==> imitated
    &&& (i != before.best && imitated) || moved
    &&& after.best_cost == if f.cost < before.best_cost {
        f.cost
    } else {
        before.best_cost
    }
    &&& after.best == if f.cost < before.best_cost {
        i as usize
    } else {
        before.best
    }
    &&& r == if f.cost == 0 {
        Some(i as usize)
    } else {
        None
    }
}

impl<'a> ImitativeTrial<'a> {
    /// Searchers on `pz`, each with the cost of its table stored, a best index among
    /// them, and a best cost no searcher is below.
    pub open spec fn wf(&self, pz: PuzzleView) -> bool {
        &&& agents_ok(self.agents@, pz, self.steps)
        &&& self.agents@.len() > 0
        &&& self.best < self.agents@.len()
        &&& forall|j: int|
            0 <= j < self.agents@.len() ==> (#[trigger] self.agents@[j]).cost == cost_of(pz, self.agents@[j].table())
                && self.best_cost <= self.agents@[j].cost
    }

    /// `m` searchers with random tables and their costs; the best is the first of least cost.
    pub fn new(problem: &'a Problem, m: u32, rng: &mut StdRng) -> (r: ImitativeTrial<'a>)
        requires
            problem@.playable(),
            m > 0,
        ensures
            r.wf(problem@),
            r.agents@.len() == m,
            r.steps == 0,
            r.best_cost == r.agents@[r.best as int].cost,
            forall|j: int| 0 <= j < r.best ==> r.best_cost < #[trigger] r.agents@[j].cost,
    {
        let mut agents: Vec<Agent<'a>> = Vec::new();
        let mut i: u32 = 0;
        while i < m
            invariant
                problem@.playable(),
                i <= m,
                agents@.len() == i,
                agents_ok(agents@, problem@, 0),
                forall|j: int| 0 <= j < i ==> #[trigger] agents@[j].cost == cost_of(problem@, agents@[j].table()),
            decreases m - i,
        {
            let mut a = Agent::new(problem, false);
            a.assign_random(rng);
            a.compute_cost();
            agents.push(a);
            i = i + 1;
        }
        let mut best: usize = 0;
        let mut best_cost: u32 = agents[0].cost;
        let mut j: usize = 1;
        while j < agents.len()
            invariant
                agents@.len() == m,
                1 <= j <= m,
                best < j,
                best_cost == agents@[best as int].cost,
                forall|k: int| 0 <= k < j ==> best_cost <= #[trigger] agents@[k].cost,
                forall|k: int| 0 <= k < best ==> best_cost < #[trigger] agents@[k].cost,
            decreases m - j,
        {
            if agents[j].cost < best_cost {
                best = j;
                best_cost = agents[j].cost;
            }
            j = j + 1;
        }
        ImitativeTrial { agents, best, best_cost, steps: 0 }
    }

    /// One step by a randomly drawn searcher (see `step_with`).
    pub fn step(&mut self, p_num: u32, p_den: u32, rng: &mut StdRng) -> (r: Option<usize>)
        requires
            old(self).wf(old(self).agents@[0].puzzle()),
            old(self).steps < u64::MAX,
            0 < p_den,
            p_num <= p_den,
        ensures
            final(self).wf(old(self).agents@[0].puzzle()),
            final(self).best_cost <= old(self).best_cost,
            exists|i: int| #[trigger] imitative_step(old(self), final(self), i, p_num, p_den, r),
    {
        let i = random_below(rng, self.agents.len());
        self.step_with(i, p_num, p_den, rng)
    }

    /// One step by searcher `i`: when it is not the best it imitates the best with
    /// chance `p_num / p_den`, else it makes an elementary move; its cost is computed,
    /// and it becomes the best when its cost is below the best cost. Returns `i` when
    /// its cost is zero.
    pub fn step_with(&mut self, i: usize, p_num: u32, p_den: u32, rng: &mut StdRng) -> (r: Option<usize>)
        requires
            old(self).wf(old(self).agents@[0].puzzle()),
            old(self).steps < u64::MAX,
            i < old(self).agents@.len(),
            0 < p_den,
            p_num <= p_den,
        ensures
            final(self).wf(old(self).agents@[0].puzzle()),
            final(self).best_cost <= old(self).best_cost,
            imitative_step(old(self), final(self), i as int, p_num, p_den, r),
    {
        let ghost pz = self.agents@[0].puzzle();
        let ghost start = self.agents@[i as int].table();
        let ghost best_table = self.agents@[self.best as int].table();
        assert(self.agents@[i as int].wf());
        assert(self.agents@[self.best as int].wf());
        if i != self.best && random_ratio(rng, p_num, p_den) {
            let best = self.best;
            let ghost before = self.agents@;
            let mut a = self.agents.remove(i);
            let b = if best < i {
                best
            } else {
                best - 1
            };
            assert(self.agents@[b as int] == before[best as int]);
            a.imitate(&self.agents[b], rng);
            self.agents.insert(i, a);
            assert(self.agents@ =~= before.update(i as int, a));
            assert(imitated_from(start, pz.letters, best_table, a.table()));
        } else {
            self.agents[i].elementary_move(rng);
            assert(elementary_from(start, pz.letters, self.agents@[i as int].table()));
        }
        self.steps = self.steps + 1;
        self.agents[i].compute_cost();
        let cost = self.agents[i].cost;
        if cost < self.best_cost {
            self.best = i;
            self.best_cost = cost;
        }
        assert forall|j: int| 0 <= j < self.agents@.len() && j != i implies self.agents@[j] == old(
            self,
        ).agents@[j] by {}
        assert(agents_ok(self.agents@, pz, self.steps)) by {
            assert forall|j: int| 0 <= j < self.agents@.len() implies (#[trigger] self.agents@[j]).wf()
                && self.agents@[j].puzzle() == pz && self.agents@[j].total_hints <= self.steps by {
                if j != i {
                    assert(self.agents@[j] == old(self).agents@[j]);
                }
            }
        }
        assert forall|j: int| 0 <= j < self.agents@.len() implies (#[trigger] self.agents@[j]).cost
            == cost_of(pz, self.agents@[j].table()) && self.best_cost <= self.agents@[j].cost by {
            if j != i {
                assert(self.agents@[j] == old(self).agents@[j]);
            }
        }
        if cost == 0 {
            Some(i)
        } else {
            None
        }
    }
}

/// Every searcher's pair counts at most `steps` samples, the correct ones no more than
/// all, and none at all when accuracy is not tracked.
pub open spec fn counts_ok(counts: Seq<(u64, u64)>, steps: u64, compute_phi: bool) -> bool {
    forall|j: int|
        0 <= j < counts.len() ==> (#[trigger] counts[j]).0 <= counts[j].1 <= steps && (!compute_phi
            ==> counts[j] == (0u64, 0u64))
}

/// The steps a trial of `m` searchers takes before its work reaches `max_work`.
pub open spec fn budget_steps(m: u32, max_work: u64) -> u64 {
    if max_work > m {
        (max_work - m) as u64
    } else {
        0
    }
}

/// Runs a blackboard trial on a playable puzzle until a searcher solves it, or until
/// the work `m + steps` reaches `max_work`: then the steps taken are the error.
pub fn run_blackboard(problem: &Problem, m: u32, b: u32, max_work: u64, compute_phi: bool, rng: &mut StdRng) -> (r: Result<BlackboardResult, u64>)
    requires
        problem@.playable(),
        m > 0,
    ensures
        r matches Err(n) ==> n == budget_steps(m, max_work),
        max_work <= m ==> r is Err,
        r matches Ok(x) ==> x.m == m && x.b == b && 1 <= x.steps && m + x.steps <= max_work
            && x.hint_counts@.len() == m && counts_ok(x.hint_counts@, x.steps, compute_phi)
            && solution_digits(problem@, x.solution@),
{
    if max_work <= m as u64 {
        return Err(0);
    }
    let mut trial = BlackboardTrial::new(problem, m, b, compute_phi, rng);
    let mut work: u64 = m as u64;
    while work < max_work
        invariant
            trial.wf(problem@),
            trial.agents@.len() == m,
            trial.compute_phi == compute_phi,
            work == m + trial.steps,
            work <= max_work,
        decreases max_work - work,
    {
        assert(trial.agents@[0].puzzle() == problem@);
        let solved = trial.step(rng);
        work = work + 1;
        match solved {
            Some(i) => {
                assert(i < trial.agents@.len() && solved_by(problem@, trial.agents@[i as int].table()));
                let solution = trial.agents[i].digits();
                assert(solution_digits(problem@, solution@)) by {
                    assert(trial.agents@[i as int].wf());
                    let t = trial.agents@[i as int].table();
                    assert(solved_by(problem@, t));
                }
                let hint_counts = trial.hint_counts();
                assert(counts_ok(hint_counts@, trial.steps, compute_phi)) by {
                    assert forall|j: int| 0 <= j < hint_counts@.len() implies (#[trigger] hint_counts@[j]).0
                        <= hint_counts@[j].1 <= trial.steps && (!compute_phi ==> hint_counts@[j] == (
                        0u64,
                        0u64,
                    )) by {
                        assert(trial.agents@[j].wf());
                    }
                }
                return Ok(BlackboardResult { m, b, steps: trial.steps, hint_counts, solution });
            },
            None => {},
        }
    }
    Err(trial.steps)
}

/// Runs an imitation trial on a playable puzzle until a searcher reaches cost zero, or
/// until the work `m + steps` reaches `max_work`: then the steps taken are the error.
pub fn run_imitative(problem: &Problem, m: u32, p_num: u32, p_den: u32, max_work: u64, rng: &mut StdRng) -> (r: Result<ImitativeResult, u64>)
    requires
        problem@.playable(),
        m > 0,
        0 < p_den,
        p_num <= p_den,
    ensures
        r matches Err(n) ==> n == budget_steps(m, max_work),
        max_work <= m ==> r is Err,
        r matches Ok(x) ==> x.m == m && x.p_num == p_num && x.p_den == p_den && 1 <= x.steps && m
            + x.steps <= max_work && zero_cost_digits(problem@, x.solution@),
{
    if max_work <= m as u64 {
        return Err(0);
    }
    let mut trial = ImitativeTrial::new(problem, m, rng);
    let mut work: u64 = m as u64;
    while work < max_work
        invariant
            trial.wf(problem@),
            trial.agents@.len() == m,
            work == m + trial.steps,
            work <= max_work,
            0 < p_den,
            p_num <= p_den,
        decreases max_work - work,
    {
        assert(trial.agents@[0].puzzle() == problem@);
        let reached = trial.step(p_num, p_den, rng);
        work = work + 1;
        match reached {
            Some(i) => {
                assert(i < trial.agents@.len() && trial.agents@[i as int].cost == 0);
                let solution = trial.agents[i].digits();
                assert(zero_cost_digits(problem@, solution@)) by {
                    assert(trial.agents@[i as int].wf());
                    let t = trial.agents@[i as int].table();
                    assert(cost_of(problem@, t) == 0);
                }
                return Ok(ImitativeResult { m, p_num, p_den, steps: trial.steps, solution });
            },
            None => {},
        }
    }
    Err(trial.steps)
}

/// A blackboard trial on DONALD + GERALD = ROBERT with `m` searchers, a board of `b`
/// hints and a work budget of `max_work` step units, its draws seeded by `seed`.
pub fn blackboard(m: u32, b: u32, max_work: u64, compute_phi: bool, seed: u64) -> (r: Result<BlackboardResult, u64>)
    requires
        m > 0,
    ensures
        r matches Err(n) ==> n == budget_steps(m, max_work),
        max_work <= m ==> r is Err,
        r matches Ok(x) ==> x.m == m && x.b == b && 1 <= x.steps && m + x.steps <= max_work
            && x.hint_counts@.len() == m && counts_ok(x.hint_counts@, x.steps, compute_phi)
            && solution_digits(reference_puzzle(), x.solution@),
{
    let problem = Problem::default();
    proof {
        lemma_reference_playable();
    }
    let mut rng = seeded(seed);
    run_blackboard(&problem, m, b, max_work, compute_phi, &mut rng)
}

/// An imitation trial on DONALD + GERALD = ROBERT with `m` searchers, a chance of
/// imitation of `p_num / p_den` and a work budget of `max_work` step units, its draws
/// seeded by `seed`.
pub fn imitative(m: u32, p_num: u32, p_den: u32, max_work: u64, seed: u64) -> (r: Result<ImitativeResult, u64>)
    requires
        m > 0,
        0 < p_den,
        p_num <= p_den,
    ensures
        r matches Err(n) ==> n == budget_steps(m, max_work),
        max_work <= m ==> r is Err,
        r matches Ok(x) ==> x.m == m && x.p_num == p_num && x.p_den == p_den && 1 <= x.steps && m
            + x.steps <= max_work && zero_cost_digits(reference_puzzle(), x.solution@),
{
    let problem = Problem::default();
    proof {
        lemma_reference_playable();
    }
    let mut rng = seeded(seed);
    run_imitative(&problem, m, p_num, p_den, max_work, &mut rng)
}

} // verus!
