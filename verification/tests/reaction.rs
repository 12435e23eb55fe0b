use crn::reaction::entries;
use crn::{Number, Reaction};
use std::collections::HashMap;

fn map(pairs: &[(usize, i32)]) -> HashMap<usize, i32> {
    pairs.iter().copied().collect()
}

#[test]
fn the_net_change_is_products_less_reactants() {
    let rxn = Reaction::new(
        map(&[(0, 1), (1, 2), (4, 7)]),
        map(&[(1, 5), (2, 3), (4, 7)]),
        Number::new("0.5").unwrap(),
    );
    assert_eq!(rxn.delta, map(&[(0, -1), (1, 3), (2, 3), (4, 0)]));
    assert_eq!(rxn.reactants, map(&[(0, 1), (1, 2), (4, 7)]));
    assert_eq!(rxn.products, map(&[(1, 5), (2, 3), (4, 7)]));
    assert_eq!(rxn.rate.as_str(), "0.5");
    for s in 0..6usize {
        let expected = rxn.products.get(&s).copied().unwrap_or(0)
            - rxn.reactants.get(&s).copied().unwrap_or(0);
        let named = rxn.reactants.contains_key(&s) || rxn.products.contains_key(&s);
        assert_eq!(rxn.delta.get(&s).copied(), if named { Some(expected) } else { None });
    }
}

#[test]
fn the_net_change_of_one_sided_reactions() {
    let birth = Reaction::new(map(&[]), map(&[(3, 2)]), Number::one());
    assert_eq!(birth.delta, map(&[(3, 2)]));
    let death = Reaction::new(map(&[(3, 2)]), map(&[]), Number::one());
    assert_eq!(death.delta, map(&[(3, -2)]));
    let inert = Reaction::new(map(&[]), map(&[]), Number::one());
    assert!(inert.delta.is_empty());
    let extreme = Reaction::new(map(&[(0, i32::MAX)]), map(&[(0, -1)]), Number::one());
    assert_eq!(extreme.delta, map(&[(0, i32::MIN)]));
}

#[test]
fn a_reaction_is_valid_where_it_holds_its_net_change() {
    let mut rxn = Reaction::new(map(&[(0, 1), (1, 2)]), map(&[(1, 5), (2, 3)]), Number::one());
    assert!(rxn.valid(3));
    assert!(rxn.valid(10));
    assert!(!rxn.valid(2));
    assert!(!rxn.valid(0));
    rxn.delta.insert(1, 4);
    assert!(!rxn.valid(3));
    rxn.delta.insert(1, 3);
    assert!(rxn.valid(3));
    rxn.delta.insert(7, 0);
    assert!(!rxn.valid(10));
    rxn.delta.remove(&7);
    rxn.delta.remove(&0);
    assert!(!rxn.valid(3));
    let mut rxn = Reaction::new(map(&[]), map(&[(2, 3)]), Number::one());
    assert!(rxn.valid(3));
    rxn.products.insert(1, 0);
    assert!(!rxn.valid(3));
}

#[test]
fn a_copy_of_a_reaction_is_the_reaction() {
    let rxn = Reaction::new(map(&[(0, 1), (1, 2)]), map(&[(1, 5)]), Number::new("2e3").unwrap());
    assert_eq!(rxn.clone(), rxn);
}

#[test]
fn the_pairs_of_a_map_are_listed_once() {
    let m = map(&[(5, 1), (0, -2), (9, 3), (2, 0)]);
    let mut list = entries(&m);
    list.sort();
    assert_eq!(list, vec![(0, -2), (2, 0), (5, 1), (9, 3)]);
    assert!(entries(&map(&[])).is_empty());
}
