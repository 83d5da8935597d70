use collint::{Agent, Blackboard, Hint, LetterAssignment, Problem};
use rand::rngs::StdRng;
use rand::seq::SliceRandom;
use rand::SeedableRng;

#[test]
fn problem() {
    let problem = Problem::default();
    assert!(problem.first() == "donald");
    assert!(problem.second() == "gerald");
    assert!(problem.result() == "robert");
}

#[test]
fn agent() {
    let mut rng = StdRng::seed_from_u64(20240611);
    let problem = Problem::default();
    let mut agent = Agent::new(&problem, false);

    assert!(agent.assignment.len() == 10);
    let assignment = agent.assignment.clone();
    agent.assign_random(&mut rng);
    assert!(agent.assignment != assignment);

    agent.swap_letter_assignment(&LetterAssignment {
        letter: 'd',
        value: 4,
    });
    agent.swap_letter_assignment(&LetterAssignment {
        letter: 'o',
        value: 5,
    });

    assert!(*agent.assignment.get_by_left(&'d').unwrap() == 4);
    assert!(*agent.assignment.get_by_left(&'o').unwrap() == 5);

    let assignment = agent.assignment.clone();
    agent.elementary_move(&mut rng);
    assert!(agent.assignment != assignment);

    assert!(!agent.is_solved());

    let hint = Hint::Two(
        LetterAssignment {
            letter: 'd',
            value: 5,
        },
        LetterAssignment {
            letter: 't',
            value: 0,
        },
    );

    agent.assign_random(&mut rng);

    let mut blackboard = Blackboard::with_entries(vec![hint.clone()], 1);

    assert!(blackboard.len() != 0);
    assert!(blackboard.entries().choose(&mut rng).unwrap().clone() == hint);
    assert!(agent.hints.contains(&hint) == false);

    agent.make_move(&mut blackboard, &mut rng);
    agent.find_hints();
    assert!(agent.hints.contains(&hint));

    agent.assign_random(&mut rng);
    assert!(!agent.is_solved());
    agent.assimilate_hint(&Hint::Three(
        LetterAssignment {
            letter: 'a',
            value: 4,
        },
        LetterAssignment {
            letter: 'b',
            value: 3,
        },
        LetterAssignment {
            letter: 'd',
            value: 5,
        },
    ));
    agent.assimilate_hint(&Hint::Three(
        LetterAssignment {
            letter: 'e',
            value: 9,
        },
        LetterAssignment {
            letter: 'g',
            value: 1,
        },
        LetterAssignment {
            letter: 'l',
            value: 8,
        },
    ));
    agent.assimilate_hint(&Hint::Three(
        LetterAssignment {
            letter: 'n',
            value: 6,
        },
        LetterAssignment {
            letter: 'o',
            value: 2,
        },
        LetterAssignment {
            letter: 'r',
            value: 7,
        },
    ));
    agent.assimilate_hint(&Hint::One(LetterAssignment {
        letter: 't',
        value: 0,
    }));
    assert!(agent.is_solved());
}
