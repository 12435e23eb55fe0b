use crn::{Number, Reaction, State, StoCrn};
use std::collections::HashMap;

fn map(pairs: &[(usize, i32)]) -> HashMap<usize, i32> {
    pairs.iter().copied().collect()
}

fn rxn(reactants: &[(usize, i32)], products: &[(usize, i32)]) -> Reaction {
    Reaction::new(map(reactants), map(products), Number::one())
}

fn state(species: &[i32]) -> State<i32> {
    State { species: species.to_vec(), time: 0 }
}

#[test]
fn a_reaction_is_applicable_where_enough_is_there() {
    let s = state(&[2, 0, 5]);
    assert!(s.applicable(&rxn(&[(0, 2), (2, 5)], &[(1, 1)])));
    assert!(!s.applicable(&rxn(&[(0, 3)], &[])));
    assert!(!s.applicable(&rxn(&[(0, 1), (1, 1)], &[])));
    assert!(s.applicable(&rxn(&[], &[(1, 1)])));
    assert!(s.applicable(&rxn(&[(1, 0)], &[])));
    assert!(s.applicable(&rxn(&[(1, -1)], &[])));
    assert!(!state(&[-1]).applicable(&rxn(&[(0, 0)], &[])));
}

#[test]
fn applying_adds_the_net_change() {
    let mut s = state(&[2, 0, 5, 9]);
    s.time = 77;
    let r = rxn(&[(0, 2), (2, 1)], &[(1, 3), (2, 1)]);
    assert!(s.fits(&r));
    s.apply(&r);
    assert_eq!(s.species, vec![0, 3, 5, 9]);
    assert_eq!(s.time, 77);
    s.apply(&r);
    assert_eq!(s.species, vec![-2, 6, 5, 9]);
}

#[test]
fn a_net_change_fits_where_no_sum_overflows() {
    let s = state(&[i32::MAX, i32::MIN, 0]);
    assert!(s.fits(&rxn(&[(0, 1)], &[(1, 1)])));
    assert!(!s.fits(&rxn(&[], &[(0, 1)])));
    assert!(!s.fits(&rxn(&[(1, 1)], &[])));
    assert!(!s.fits(&rxn(&[], &[(3, 1)])));
    assert!(s.fits(&rxn(&[(0, 1)], &[(0, 1)])));
    assert!(s.fits(&rxn(&[], &[])));
}

#[test]
fn the_ways_are_falling_factorials() {
    let s = state(&[5, 3, 0, 10]);
    // 5 * 4
    assert_eq!(s.ways(&rxn(&[(0, 2)], &[])), Some(20));
    // 5 * 3
    assert_eq!(s.ways(&rxn(&[(0, 1), (1, 1)], &[])), Some(15));
    // 5 * 4 * 3 * 2 * 1
    assert_eq!(s.ways(&rxn(&[(0, 5)], &[])), Some(120));
    // (5 * 4) * (3 * 2 * 1) * (10 * 9 * 8)
    assert_eq!(s.ways(&rxn(&[(0, 2), (1, 3), (3, 3)], &[])), Some(20 * 6 * 720));
    // nothing is consumed
    assert_eq!(s.ways(&rxn(&[], &[(0, 1)])), Some(1));
    assert_eq!(s.ways(&rxn(&[(2, 0)], &[])), Some(1));
    // too few
    assert_eq!(s.ways(&rxn(&[(0, 6)], &[])), Some(0));
    assert_eq!(s.ways(&rxn(&[(2, 1)], &[])), Some(0));
    assert_eq!(s.ways(&rxn(&[(0, 1), (2, 1)], &[])), Some(0));
}

#[test]
fn the_ways_are_counted_as_far_as_128_bits_reach() {
    let s = state(&[i32::MAX, i32::MAX, 34, 35]);
    let m = i32::MAX as u128;
    assert_eq!(s.ways(&rxn(&[(0, 4)], &[])), Some(m * (m - 1) * (m - 2) * (m - 3)));
    assert_eq!(s.ways(&rxn(&[(0, 5)], &[])), None);
    assert_eq!(s.ways(&rxn(&[(0, 2), (1, 2)], &[])), Some(m * (m - 1) * m * (m - 1)));
    assert_eq!(s.ways(&rxn(&[(0, 3), (1, 2)], &[])), None);
    assert_eq!(s.ways(&rxn(&[(0, i32::MAX)], &[])), None);
    // 34! fits, 35! does not
    let mut f: u128 = 1;
    for k in 1..=34u128 {
        f *= k;
    }
    assert_eq!(s.ways(&rxn(&[(2, 34)], &[])), Some(f));
    assert_eq!(s.ways(&rxn(&[(3, 35)], &[])), None);
    // too few of one species, however many ways the others give
    assert_eq!(s.ways(&rxn(&[(0, 5), (2, 35)], &[])), Some(0));
}

#[test]
fn states_are_added_element_by_element() {
    let a = State { species: vec![1, 2, 3], time: 5 };
    let b = State { species: vec![10, -20], time: 9 };
    let sum = a.add(&b);
    assert_eq!(sum.species, vec![11, -18]);
    assert_eq!(sum.time, 5);
    let sum = b.add(&a);
    assert_eq!(sum.species, vec![11, -18]);
    assert_eq!(sum.time, 9);
    let mut c = State { species: vec![1, 2, 3], time: 5 };
    c.add_assign(State { species: vec![10, -20], time: 9 });
    assert_eq!(c.species, vec![11, -18, 3]);
    assert_eq!(c.time, 5);
    let mut d = State { species: vec![1], time: 5 };
    d.add_assign(State { species: vec![10, -20], time: 9 });
    assert_eq!(d.species, vec![11]);
}

#[test]
fn a_copy_of_a_state_is_the_state() {
    let a = State { species: vec![1, 2, 3], time: 5 };
    assert_eq!(a.clone(), a);
    let b = State { species: vec![Number::one(), Number::new("2.5").unwrap()], time: 5 };
    assert_eq!(b.clone(), b);
}

#[test]
fn a_reset_returns_to_the_initial_state() {
    let mut crn = StoCrn::parse("A = 3; B = 4; A -> B;").unwrap();
    crn.state.species[0] = 0;
    crn.state.species[1] = 7;
    crn.state.time = 4607182418800017408;
    crn.reset();
    assert_eq!(crn.state, crn.init_state);
    assert_eq!(crn.state.species, vec![3, 4]);
    assert_eq!(crn.state.time, 0);
    assert_eq!(crn.rxns.len(), 1);
    assert_eq!(crn.names.len(), 2);
}

#[test]
fn a_second_reset_changes_nothing() {
    let mut crn = StoCrn::parse("A = 3; B = 4; A -> B;").unwrap();
    crn.state.species[0] = 0;
    crn.state.time = 12;
    crn.reset();
    let once = crn.clone();
    crn.reset();
    assert_eq!(crn.state, once.state);
    assert_eq!(crn.init_state, once.init_state);
    assert_eq!(crn.rxns, once.rxns);
    assert_eq!(crn.names, once.names);
    assert_eq!(crn.to_text(), once.to_text());
}

#[test]
fn a_copy_of_a_network_is_the_network() {
    let mut crn = StoCrn::parse("A = 3; B = 4; A -> B; 2B + C -> A : 0.25;").unwrap();
    crn.state.species[0] = 1;
    let copy = crn.clone();
    assert_eq!(copy.state, crn.state);
    assert_eq!(copy.init_state, crn.init_state);
    assert_eq!(copy.rxns, crn.rxns);
    assert_eq!(copy.names, crn.names);
    assert_eq!(copy.to_text(), "A = 1;\nB = 4;\nC = 0;\nA -> B : 1;\n2B + C -> A : 0.25;\n");
}

#[test]
fn the_default_network_is_empty() {
    let crn = StoCrn::default();
    assert!(crn.valid());
    assert_eq!(crn.state.species.len(), 0);
    assert_eq!(crn.init_state.species.len(), 0);
    assert_eq!(crn.state.time, 0);
    assert_eq!(crn.rxns.len(), 0);
    assert_eq!(crn.names.len(), 0);
    assert_eq!(crn.to_text(), "");
}

#[test]
fn a_network_is_valid_where_it_is_consistent() {
    let crn = StoCrn::parse("A = 3; B = 4; A -> B;").unwrap();
    assert!(crn.valid());
    let mut short = crn.clone();
    short.state.species.pop();
    assert!(!short.valid());
    let mut nameless = crn.clone();
    nameless.names.remove_by_left(&1);
    assert!(!nameless.valid());
    let mut far = crn.clone();
    far.rxns.push(rxn(&[(2, 1)], &[]));
    assert!(!far.valid());
    let mut broken = crn.clone();
    broken.rxns[0].delta.insert(0, 5);
    assert!(!broken.valid());
    let mut more = crn.clone();
    more.rxns.push(rxn(&[(1, 1)], &[(0, 2)]));
    assert!(more.valid());
}
