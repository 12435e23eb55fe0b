use crn::{Draw, Error, StoCrn};
use rand::Rng;

/// One step of the simulation: the propensities, the draws, and the step
/// that the network takes for them.
fn step(crn: &mut StoCrn, ways: &mut Vec<Option<u128>>) -> Result<(), Error> {
    crn.ways(ways);
    let rates: Vec<f64> = crn
        .rxns
        .iter()
        .zip(ways.iter())
        .map(|(rxn, ways)| {
            let constant: f64 = rxn.rate.as_str().parse().unwrap();
            constant * ways.unwrap() as f64
        })
        .collect();
    let total: f64 = rates.iter().sum();
    let draw = if total == 0.0 {
        Draw::Nothing
    } else {
        let mut rng = rand::thread_rng();
        let time = f64::from_bits(crn.state.time) - (1.0 - rng.gen::<f64>()).ln() / total;
        let j = rng.gen::<f64>() * total;
        let mut sum = 0.0;
        let mut draw = Draw::Missed;
        for (idx, rate) in rates.iter().enumerate() {
            sum += rate;
            if j < sum {
                draw = Draw::Occurs(idx, time.to_bits());
                break;
            }
        }
        draw
    };
    assert!(crn.accepts(draw));
    crn.step(draw)
}

#[test]
fn sto_test() {
    const N: i32 = 100;
    let mut crn = StoCrn::parse(&format!("A = {N}; A -> ;")).unwrap();
    let mut ways = vec![None; crn.rxns.len()];
    for i in (0..N).rev() {
        step(&mut crn, &mut ways).unwrap();
        assert_eq!(crn.state.species[0], i);
    }
}

#[test]
fn sto_test2() {
    let mut crn = StoCrn::parse("A = 1; B = 1; A + B -> C; C -> A + B;").unwrap();
    let mut ways = vec![None; crn.rxns.len()];
    step(&mut crn, &mut ways).unwrap();
    assert_eq!(crn.state.species[0], 0);
    assert_eq!(crn.state.species[1], 0);
    assert_eq!(crn.state.species[2], 1);
    step(&mut crn, &mut ways).unwrap();
    assert_eq!(crn.state.species[0], 1);
    assert_eq!(crn.state.species[1], 1);
    assert_eq!(crn.state.species[2], 0);
}

#[test]
fn a_decay_ends_in_a_terminal_state() {
    const N: i32 = 25;
    let mut crn = StoCrn::parse(&format!("A = {N}; A -> ;")).unwrap();
    let mut ways = Vec::new();
    let mut steps = 0;
    let mut clock = 0.0;
    loop {
        let before = crn.state.species[0];
        match step(&mut crn, &mut ways) {
            Ok(()) => {
                steps += 1;
                assert_eq!(crn.state.species[0], before - 1);
                let now = f64::from_bits(crn.state.time);
                assert!(now >= clock);
                clock = now;
            }
            Err(e) => {
                assert_eq!(e, Error::TerminalState);
                break;
            }
        }
        assert!(steps <= N);
    }
    assert_eq!(steps, N);
    assert_eq!(crn.state.species[0], 0);
    let at_rest = crn.state.clone();
    assert_eq!(step(&mut crn, &mut ways), Err(Error::TerminalState));
    assert_eq!(crn.state, at_rest);
}

#[test]
fn a_pair_of_opposite_reactions_flips_the_state() {
    let mut crn = StoCrn::parse("A = 1; B = 1; A + B -> C; C -> A + B;").unwrap();
    let mut ways = Vec::new();
    for round in 0..200 {
        step(&mut crn, &mut ways).unwrap();
        let expected = if round % 2 == 0 { vec![0, 0, 1] } else { vec![1, 1, 0] };
        assert_eq!(crn.state.species, expected);
    }
}

#[test]
fn counts_never_turn_negative() {
    let mut crn = StoCrn::parse(crn::presets::ROCK_PAPER_SCISSORS).unwrap();
    let mut ways = Vec::new();
    for _ in 0..2000 {
        match step(&mut crn, &mut ways) {
            Ok(()) => {
                assert!(crn.state.species.iter().all(|count| *count >= 0));
                assert_eq!(crn.state.species.iter().sum::<i32>(), 150);
            }
            Err(e) => {
                assert_eq!(e, Error::TerminalState);
                break;
            }
        }
    }
}

#[test]
fn the_ways_of_every_reaction_are_counted() {
    let crn = StoCrn::parse("A = 5; B = 3; 2A -> ; A + B -> ; 4B -> ; -> A;").unwrap();
    let mut ways = vec![Some(99); 7];
    crn.ways(&mut ways);
    assert_eq!(ways, vec![Some(20), Some(15), Some(0), Some(1)]);
    let crn = StoCrn::parse("A = 2147483647; 5A -> ;").unwrap();
    crn.ways(&mut ways);
    assert_eq!(ways, vec![None]);
}

#[test]
fn a_step_takes_what_was_drawn() {
    let mut crn = StoCrn::parse("A = 5; B = 3; 2A -> B; B -> 3A;").unwrap();
    let start = crn.state.clone();

    assert_eq!(crn.step(Draw::Nothing), Err(Error::TerminalState));
    assert_eq!(crn.state, start);
    assert_eq!(crn.step(Draw::Missed), Err(Error::InsufficientPrecision));
    assert_eq!(crn.state, start);

    assert!(crn.accepts(Draw::Occurs(0, 17)));
    assert_eq!(crn.step(Draw::Occurs(0, 17)), Ok(()));
    assert_eq!(crn.state.species, vec![3, 4]);
    assert_eq!(crn.state.time, 17);
    assert_eq!(crn.init_state, start);

    assert!(crn.accepts(Draw::Occurs(1, 40)));
    assert_eq!(crn.step(Draw::Occurs(1, 40)), Ok(()));
    assert_eq!(crn.state.species, vec![6, 3]);
    assert_eq!(crn.state.time, 40);
}

#[test]
fn a_draw_is_accepted_where_it_can_be_taken() {
    let mut crn = StoCrn::parse("A = 5; B = 3; 2A -> B; B -> 3A;").unwrap();
    assert!(crn.accepts(Draw::Nothing));
    assert!(crn.accepts(Draw::Missed));
    assert!(crn.accepts(Draw::Occurs(1, 0)));
    assert!(!crn.accepts(Draw::Occurs(2, 0)));
    crn.state.species[0] = i32::MAX - 2;
    assert!(!crn.accepts(Draw::Occurs(1, 0)));
    assert!(crn.accepts(Draw::Occurs(0, 0)));
}

#[test]
fn the_errors_say_what_happened() {
    assert_eq!(Error::TerminalState.message(), "CRN has reached terminal state");
    assert_eq!(
        Error::InsufficientPrecision.message(),
        "Insufficient precision for accurate simulation"
    );
}
