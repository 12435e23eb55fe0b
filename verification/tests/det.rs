use crn::det::{records, stride, MAX_POINTS};
use crn::{RealCrn, Reaction};

/// The rate of change of each species: for each reaction, the mass-action
/// rate times the net change.
fn species_rates(rxns: &[(Reaction, f64)], x: &[f64]) -> Vec<f64> {
    let mut res = vec![0.0; x.len()];
    for (rxn, constant) in rxns {
        let rate = rxn
            .reactants
            .iter()
            .fold(*constant, |cur, (species, count)| cur * x[*species].powi(*count));
        for (species, change) in &rxn.delta {
            res[*species] += *change as f64 * rate;
        }
    }
    res
}

fn axpy(x: &[f64], k: &[f64], h: f64) -> Vec<f64> {
    x.iter().zip(k.iter()).map(|(a, b)| *a + *b * h).collect()
}

/// Integrates the rate equations of the network over `t` with the classical
/// Runge-Kutta scheme, and returns the final abundances.
fn integrate(text: &str, t: f64, dt: f64) -> Vec<f64> {
    let crn = RealCrn::parse(text).unwrap();
    let rxns: Vec<(Reaction, f64)> = crn
        .rxns
        .iter()
        .map(|rxn| (rxn.clone(), rxn.rate.as_str().parse().unwrap()))
        .collect();
    let mut x: Vec<f64> =
        crn.state.species.iter().map(|v| v.as_str().parse().unwrap()).collect();
    let steps = (t / dt).ceil() as usize;
    for _ in 0..steps {
        let k1 = species_rates(&rxns, &x);
        let k2 = species_rates(&rxns, &axpy(&x, &k1, dt / 2.0));
        let k3 = species_rates(&rxns, &axpy(&x, &k2, dt / 2.0));
        let k4 = species_rates(&rxns, &axpy(&x, &k3, dt));
        for i in 0..x.len() {
            x[i] += (k1[i] + 2.0 * k2[i] + 2.0 * k3[i] + k4[i]) * (dt / 6.0);
        }
    }
    x
}

#[test]
fn det_test() {
    const T: f64 = 1.0;
    let x = integrate("A = 1; A -> ;", T, 0.001);
    let expected = (-T).exp();
    assert!((x[0] - expected).abs() <= 0.001 * x[0].abs().max(expected.abs()));
}

#[test]
fn det_test2() {
    const T: f64 = 10.0;
    let x = integrate("A = 0; -> A;", T, 0.001);
    assert!((x[0] - T).abs() <= 0.001);
}

#[test]
fn test3() {
    const T: f64 = 10.0;
    let x = integrate("A = 1; A -> 2A;", T, 0.001);
    assert!((x[0] - T.exp()).abs() <= 0.001);
}

#[test]
fn test4() {
    const T: f64 = 10.0;
    let x = integrate("A = 1; A -> B;", T, 0.001);
    assert!((x[1] - (1.0 - (-T).exp())).abs() <= 0.001);
}

#[test]
fn short_runs_record_every_state() {
    assert_eq!(MAX_POINTS, 100000);
    assert_eq!(stride(0), 1);
    assert_eq!(stride(1), 1);
    assert_eq!(stride(99999), 1);
    assert_eq!(stride(100000), 1);
    assert_eq!(stride(199999), 1);
}

#[test]
fn long_runs_record_every_few_states() {
    assert_eq!(stride(200000), 2);
    assert_eq!(stride(299999), 2);
    assert_eq!(stride(1000000), 10);
    assert_eq!(stride(usize::MAX), usize::MAX / 100000);
}

#[test]
fn the_recorded_states_are_those_at_multiples_of_the_stride() {
    assert!(records(0, 1));
    assert!(records(5, 1));
    assert!(records(0, 3));
    assert!(!records(1, 3));
    assert!(!records(2, 3));
    assert!(records(3, 3));
    assert!(records(300, 3));
}

#[test]
fn a_run_records_fewer_than_twice_the_cap() {
    for steps in [0usize, 1, 99999, 100000, 199999, 200000, 299999, 12345678] {
        let d = stride(steps);
        let recorded = (0..steps).filter(|j| records(*j, d)).count();
        assert_eq!(recorded, (steps + d - 1) / d);
        assert!(recorded <= steps);
        assert!(recorded < 2 * MAX_POINTS);
    }
}
