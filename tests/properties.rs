use collint::{
    blackboard, imitative, run_type_of, sizes_or_range, Agent, Blackboard, BlackboardConfigData,
    BlackboardTrial, Hint, ImitativeTrial, LetterAssignment, Problem, RunType,
};
use rand::rngs::StdRng;
use rand::SeedableRng;

fn la(letter: char, value: u32) -> LetterAssignment {
    LetterAssignment { letter, value }
}

fn set_solution(agent: &mut Agent) {
    for (l, v) in [
        ('d', 5),
        ('o', 2),
        ('n', 6),
        ('a', 4),
        ('l', 8),
        ('g', 1),
        ('e', 9),
        ('r', 7),
        ('b', 3),
        ('t', 0),
    ] {
        agent.swap_letter_assignment(&la(l, v));
    }
}

fn is_bijection(agent: &Agent, problem: &Problem) -> bool {
    let mut seen = [false; 10];
    for &c in problem.letters() {
        match agent.digit_of(c) {
            Some(d) if d < 10 && !seen[d as usize] => seen[d as usize] = true,
            _ => return false,
        }
    }
    agent.assignment_len() == 10 && seen.iter().all(|&s| s)
}

#[test]
fn problem_lowers_words_and_collects_ten_letters() {
    let problem = Problem::new("DONALD", "GERALD", "ROBERT");
    assert_eq!(problem.first(), "donald");
    assert_eq!(problem.second(), "gerald");
    assert_eq!(problem.result(), "robert");
    assert_eq!(problem.letters(), &vec!['d', 'o', 'n', 'a', 'l', 'g', 'e', 'r', 'b', 't']);
    assert_eq!(problem.width(), 6);
    assert!(problem.is_playable());
    assert_eq!(problem.column(0), ('d', 'g', 'r'));
}

#[test]
fn problem_with_too_few_letters_is_not_playable() {
    let problem = Problem::new("ab", "ab", "ba");
    assert_eq!(problem.letters(), &vec!['a', 'b']);
    assert!(!problem.is_playable());
}

#[test]
fn new_agent_gives_each_letter_its_index() {
    let problem = Problem::default();
    let agent = Agent::new(&problem, true);
    assert_eq!(agent.digits(), (0..10).collect::<Vec<u32>>());
    assert_eq!(agent.digit_of('z'), None);
    assert_eq!(agent.cost, 0);
    assert_eq!(agent.correct_hints, 0);
    assert_eq!(agent.total_hints, 0);
    assert!(agent.compute_phi);
    assert!(agent.hints.is_empty());
}

#[test]
fn every_move_keeps_the_table_a_bijection() {
    let problem = Problem::default();
    let mut rng = StdRng::seed_from_u64(3);
    let mut agent = Agent::new(&problem, true);
    let mut best = Agent::new(&problem, false);
    best.assign_random(&mut rng);
    let mut board = Blackboard::new(4);
    for round in 0..300 {
        match round % 5 {
            0 => agent.assign_random(&mut rng),
            1 => agent.elementary_move(&mut rng),
            2 => agent.imitate(&best, &mut rng),
            3 => agent.assimilate_hint(&Hint::Three(la('n', 6), la('r', 7), la('b', 3))),
            _ => {
                agent.find_hints();
                agent.pick_and_replace(&mut board, &mut rng);
                agent.make_move(&mut board, &mut rng);
            }
        }
        assert!(is_bijection(&agent, &problem));
    }
}

#[test]
fn swap_exchanges_digits_with_the_holder() {
    let problem = Problem::default();
    let mut agent = Agent::new(&problem, false);
    // d holds 0 and o holds 1 initially
    agent.swap_letter_assignment(&la('d', 1));
    assert_eq!(agent.digit_of('d'), Some(1));
    assert_eq!(agent.digit_of('o'), Some(0));
    agent.swap_letter_assignment(&la('d', 1));
    assert_eq!(agent.digit_of('d'), Some(1));
    assert_eq!(agent.digit_of('o'), Some(0));
}

#[test]
fn elementary_move_with_skips_the_current_digit() {
    let problem = Problem::default();
    let mut agent = Agent::new(&problem, false);
    // t is the tenth letter and holds 9: draw 0 is the digit 0
    agent.elementary_move_with('t', 0);
    assert_eq!(agent.digit_of('t'), Some(0));
    assert_eq!(agent.digit_of('d'), Some(9));
    // t holds 0 now: the nine other digits are 1..=9, draw 4 is the digit 5
    agent.elementary_move_with('t', 4);
    assert_eq!(agent.digit_of('t'), Some(5));
    // o holds 1: draw 0 is the digit 0, draw 8 the digit 9
    agent.elementary_move_with('o', 8);
    assert_eq!(agent.digit_of('o'), Some(9));
}

#[test]
fn imitate_copies_one_digit_of_the_best() {
    let problem = Problem::default();
    let mut rng = StdRng::seed_from_u64(11);
    let mut best = Agent::new(&problem, false);
    set_solution(&mut best);
    let mut agent = Agent::new(&problem, false);
    let before = agent.digits();
    agent.imitate(&best, &mut rng);
    let after = agent.digits();
    let target = best.digits();
    let changed: Vec<usize> = (0..10).filter(|&i| before[i] != after[i]).collect();
    assert!(changed.len() == 0 || changed.len() == 2);
    assert!((0..10).any(|i| after[i] == target[i] && (before[i] != target[i] || changed.is_empty())));
}

#[test]
fn hint_equality_ignores_order() {
    let (a, b, c) = (la('d', 5), la('t', 0), la('g', 1));
    assert!(Hint::Two(a, b) == Hint::Two(b, a));
    assert!(Hint::Three(a, b, c) == Hint::Three(c, a, b));
    assert!(Hint::Three(a, b, c) == Hint::Three(b, c, a));
    assert!(Hint::Three(a, b, c) == Hint::Three(a, c, b));
    assert!(Hint::Two(a, b) != Hint::Two(a, c));
    assert!(Hint::One(a) != Hint::Two(a, b));
    assert!(Hint::One(a) == Hint::One(a));
}

#[test]
fn oracle_accepts_known_partial_solutions() {
    assert!(Hint::Two(la('t', 0), la('d', 5)).is_correct());
    assert!(Hint::Three(la('b', 3), la('r', 7), la('n', 6)).is_correct());
    assert!(Hint::Two(la('e', 9), la('a', 4)).is_correct());
    assert!(!Hint::One(la('d', 5)).is_correct());
    assert!(!Hint::Two(la('d', 5), la('t', 1)).is_correct());
}

#[test]
fn find_hints_reads_satisfied_columns() {
    let problem = Problem::default();
    let mut agent = Agent::new(&problem, false);
    set_solution(&mut agent);
    agent.find_hints();
    // every column of a solution adds up, with or without a carry
    assert_eq!(agent.hints.len(), 6);
    assert!(agent.hints[0] == Hint::Three(la('d', 5), la('g', 1), la('r', 7)));
    assert!(agent.hints[1] == Hint::Two(la('o', 2), la('e', 9)));
    assert!(agent.hints[5] == Hint::Two(la('d', 5), la('t', 0)));
    assert!(agent.hints.iter().all(|h| h.is_correct()));
}

#[test]
fn find_hints_twice_gives_the_same_hints() {
    let problem = Problem::default();
    let mut rng = StdRng::seed_from_u64(5);
    let mut agent = Agent::new(&problem, false);
    for _ in 0..20 {
        agent.assign_random(&mut rng);
        agent.find_hints();
        let first = agent.hints.clone();
        let table = agent.digits();
        agent.find_hints();
        assert!(agent.hints == first);
        assert_eq!(agent.digits(), table);
    }
}

#[test]
fn solution_is_solved_and_costs_nothing() {
    let problem = Problem::default();
    let mut agent = Agent::new(&problem, false);
    set_solution(&mut agent);
    assert!(agent.is_solved());
    agent.compute_cost();
    assert_eq!(agent.cost, 0);
}

#[test]
fn cost_is_the_gap_or_the_leading_zero_penalty() {
    let problem = Problem::default();
    let mut agent = Agent::new(&problem, false);
    // d=0 leads DONALD
    agent.compute_cost();
    assert_eq!(agent.cost, 100_000_000);
    assert!(!agent.is_solved());
    set_solution(&mut agent);
    // swapping a and b: 526385 + 197385 = 723770 against robert 724970
    agent.swap_letter_assignment(&la('a', 3));
    agent.compute_cost();
    assert!(!agent.is_solved());
    assert_eq!(agent.cost, 1200);
}

#[test]
fn board_never_exceeds_its_capacity() {
    let problem = Problem::default();
    let mut rng = StdRng::seed_from_u64(9);
    let mut agents: Vec<Agent> = (0..4).map(|_| Agent::new(&problem, false)).collect();
    for capacity in [0usize, 1, 3] {
        let mut board = Blackboard::new(capacity);
        for round in 0..200 {
            let a = &mut agents[round % 4];
            a.assign_random(&mut rng);
            a.find_hints();
            a.pick_and_replace(&mut board, &mut rng);
            assert!(board.len() <= board.capacity());
        }
    }
}

#[test]
fn full_board_of_listed_hints_is_left_alone() {
    let problem = Problem::default();
    let mut rng = StdRng::seed_from_u64(1);
    let mut agent = Agent::new(&problem, false);
    set_solution(&mut agent);
    agent.find_hints();
    let listed = vec![agent.hints[0], agent.hints[1]];
    let mut board = Blackboard::with_entries(listed.clone(), 2);
    agent.pick_and_replace(&mut board, &mut rng);
    assert!(board.entries() == &listed);
}

#[test]
fn full_board_keeps_the_writers_hints() {
    let problem = Problem::default();
    let mut rng = StdRng::seed_from_u64(2);
    let mut agent = Agent::new(&problem, false);
    set_solution(&mut agent);
    agent.find_hints();
    let kept = agent.hints[0];
    let stale = Hint::One(la('d', 3));
    let mut board = Blackboard::with_entries(vec![stale, kept], 2);
    agent.pick_and_replace(&mut board, &mut rng);
    assert_eq!(board.len(), 2);
    assert!(board.entries()[0] == kept);
    assert!(board.entries()[1] != stale);
    assert!(agent.hints.contains(&board.entries()[1]));
}

#[test]
fn board_with_room_gets_a_novel_hint() {
    let problem = Problem::default();
    let mut rng = StdRng::seed_from_u64(4);
    let mut agent = Agent::new(&problem, false);
    set_solution(&mut agent);
    agent.find_hints();
    let mut board = Blackboard::new(10);
    for _ in 0..6 {
        agent.pick_and_replace(&mut board, &mut rng);
    }
    assert_eq!(board.len(), 6);
    // no novel hint is left: nothing more is written
    agent.pick_and_replace(&mut board, &mut rng);
    assert_eq!(board.len(), 6);
}

#[test]
fn sampling_a_correct_hint_is_counted() {
    let problem = Problem::default();
    let mut rng = StdRng::seed_from_u64(6);
    let mut agent = Agent::new(&problem, true);
    let hint = Hint::Two(la('d', 5), la('t', 0));
    let mut board = Blackboard::with_entries(vec![hint], 1);
    agent.make_move(&mut board, &mut rng);
    assert_eq!(agent.total_hints, 1);
    assert_eq!(agent.correct_hints, 1);
    assert_eq!(agent.digit_of('d'), Some(5));
    assert_eq!(agent.digit_of('t'), Some(0));
    let wrong = Hint::One(la('d', 3));
    let mut board = Blackboard::with_entries(vec![wrong], 1);
    agent.record_sample(&wrong);
    assert_eq!(agent.total_hints, 2);
    assert_eq!(agent.correct_hints, 1);
    agent.make_move(&mut board, &mut rng);
    assert_eq!(agent.total_hints, 3);
}

#[test]
fn imitative_best_cost_never_rises() {
    let problem = Problem::default();
    let mut rng = StdRng::seed_from_u64(8);
    let mut trial = ImitativeTrial::new(&problem, 6, &mut rng);
    let mut best = trial.best_cost;
    for _ in 0..2000 {
        trial.step(4, 5, &mut rng);
        assert!(trial.best_cost <= best);
        best = trial.best_cost;
    }
}

#[test]
fn zero_budget_gives_no_result() {
    assert!(matches!(blackboard(5, 3, 0, true, 1), Err(0)));
    assert!(matches!(imitative(5, 4, 5, 0, 1), Err(0)));
    // the budget counts the population's starting time too
    assert!(matches!(blackboard(5, 3, 5, false, 1), Err(0)));
}

#[test]
fn spent_budget_reports_the_steps_taken() {
    match blackboard(2, 3, 50, false, 1) {
        Err(n) => assert_eq!(n, 48),
        Ok(r) => assert!(r.steps <= 48),
    }
    match imitative(2, 1, 2, 40, 1) {
        Err(n) => assert_eq!(n, 38),
        Ok(r) => assert!(r.steps <= 38),
    }
}

#[test]
fn draws_pick_digits_from_the_remaining_pool() {
    let problem = Problem::default();
    let mut agent = Agent::new(&problem, false);
    agent.assign_from_draws(&vec![9, 8, 7, 6, 5, 4, 3, 2, 1, 0]);
    assert_eq!(agent.digits(), vec![9, 8, 7, 6, 5, 4, 3, 2, 1, 0]);
    agent.assign_from_draws(&vec![0; 10]);
    assert_eq!(agent.digits(), (0..10).collect::<Vec<u32>>());
    // 5 of 0..=9, then 0 of the rest, then 7 of 1,2,3,4,6,7,8,9, ...
    agent.assign_from_draws(&vec![5, 0, 7, 0, 0, 0, 0, 0, 0, 0]);
    assert_eq!(agent.digits(), vec![5, 0, 9, 1, 2, 3, 4, 6, 7, 8]);
}

#[test]
fn blackboard_step_changes_only_the_drawn_searcher() {
    let problem = Problem::default();
    let mut rng = StdRng::seed_from_u64(12);
    let mut trial = BlackboardTrial::new(&problem, 3, 4, true, &mut rng);
    for _ in 0..50 {
        let before: Vec<Vec<u32>> = trial.agents.iter().map(|a| a.digits()).collect();
        let solved = trial.step_with(1, &mut rng);
        assert_eq!(trial.agents[0].digits(), before[0]);
        assert_eq!(trial.agents[2].digits(), before[2]);
        assert_eq!(solved.is_some(), trial.agents[1].is_solved());
        assert!(trial.board.len() <= 4);
    }
    assert_eq!(trial.steps, 50);
    assert!(trial.agents[0].total_hints == 0 && trial.agents[1].total_hints <= 50);
}

#[test]
fn imitative_step_updates_the_best_on_a_lower_cost() {
    let problem = Problem::default();
    let mut rng = StdRng::seed_from_u64(13);
    let mut trial = ImitativeTrial::new(&problem, 4, &mut rng);
    for round in 0..500 {
        let old_best = trial.best_cost;
        let i = round % 4;
        trial.step_with(i, 1, 1, &mut rng);
        let cost = trial.agents[i].cost;
        if cost < old_best {
            assert_eq!((trial.best, trial.best_cost), (i, cost));
        } else {
            assert_eq!(trial.best_cost, old_best);
        }
        assert!(trial.agents.iter().all(|a| trial.best_cost <= a.cost));
    }
}

#[test]
fn single_searcher_blackboard_run_ends() {
    let budget: u64 = 200_000;
    match blackboard(1, 5, budget, false, 42) {
        Ok(r) => {
            assert_eq!(r.m, 1);
            assert_eq!(r.b, 5);
            assert!(r.steps >= 1 && 1 + r.steps <= budget);
            assert_eq!(r.hint_counts, vec![(0, 0)]);
            check_solution(&r.solution);
        }
        Err(n) => assert_eq!(n, budget - 1),
    }
}

fn check_solution(digits: &[u32]) {
    let problem = Problem::default();
    let mut agent = Agent::new(&problem, false);
    for (i, &c) in problem.letters().iter().enumerate() {
        agent.swap_letter_assignment(&la(c, digits[i]));
    }
    assert!(agent.is_solved());
}

#[test]
fn seeded_imitative_run_is_reproducible() {
    let budget: u64 = 300_000;
    let first = imitative(20, 4, 5, budget, 77);
    let second = imitative(20, 4, 5, budget, 77);
    match (first, second) {
        (Ok(a), Ok(b)) => {
            assert_eq!((a.m, a.p_num, a.p_den, a.steps), (b.m, b.p_num, b.p_den, b.steps));
            assert_eq!(a.solution, b.solution);
            check_solution(&a.solution);
        }
        (Err(a), Err(b)) => assert_eq!(a, b),
        _ => panic!("runs with one seed differ"),
    }
}

#[test]
fn seeded_blackboard_run_is_reproducible() {
    let first = blackboard(3, 4, 100_000, true, 5);
    let second = blackboard(3, 4, 100_000, true, 5);
    assert_eq!(
        first.map(|r| (r.steps, r.hint_counts, r.solution)),
        second.map(|r| (r.steps, r.hint_counts, r.solution))
    );
}

#[test]
fn standardize_expands_ranges_with_their_end() {
    let mut cfg = BlackboardConfigData {
        group_sizes: None,
        blackboard_sizes: Some(vec![5, 1]),
        group_range: Some(2..4),
        blackboard_range: Some(7..9),
        n_repeat: 3,
        output: "out.csv".to_string(),
        use_threads: false,
        flush_frequency: 10,
        compute_phi: true,
    };
    cfg.standardize();
    assert_eq!(cfg.group_sizes, Some(vec![2, 3, 4]));
    assert_eq!(cfg.blackboard_sizes, Some(vec![5, 1]));
    assert_eq!(cfg.n_repeat, 3);
    assert_eq!(sizes_or_range(&None, &Some(4..3)), Vec::<u32>::new());
    assert_eq!(sizes_or_range(&None, &Some(6..6)), vec![6]);
}

#[test]
fn run_type_is_read_in_any_case() {
    assert_eq!(run_type_of(Some("Blackboard")), RunType::Blackboard);
    assert_eq!(run_type_of(Some("B")), RunType::Blackboard);
    assert_eq!(run_type_of(Some("imitative")), RunType::Imitative);
    assert_eq!(run_type_of(Some("I")), RunType::Imitative);
    assert_eq!(run_type_of(Some("bb")), RunType::Error);
    assert_eq!(run_type_of(None), RunType::Error);
}
