use crn::presets;
use crn::{Crn, Number, ParseError, RealCrn, StoCrn};

fn malformed_at(text: &str) -> usize {
    match StoCrn::parse(text) {
        Err(ParseError::MalformedInput(at)) => at,
        Err(ParseError::DuplicateDefinition(name)) => panic!("duplicate {}", name),
        Ok(_) => panic!("{:?} was read as a network", text),
    }
}

#[test]
fn parses_a_small_network() {
    let crn = StoCrn::parse("A = 1; B = 1; A + B -> C; C -> A + B;").unwrap();
    assert_eq!(crn.state.species, vec![1, 1, 0]);
    assert_eq!(crn.init_state.species, vec![1, 1, 0]);
    assert_eq!(crn.state.time, 0);
    assert_eq!(crn.rxns.len(), 2);
    assert_eq!(crn.names.get_by_left(&0).unwrap(), "A");
    assert_eq!(crn.names.get_by_left(&1).unwrap(), "B");
    assert_eq!(crn.names.get_by_left(&2).unwrap(), "C");
    assert_eq!(crn.names.len(), 3);
    assert_eq!(crn.rxns[0].reactants.len(), 2);
    assert_eq!(crn.rxns[0].reactants[&0], 1);
    assert_eq!(crn.rxns[0].reactants[&1], 1);
    assert_eq!(crn.rxns[0].products.len(), 1);
    assert_eq!(crn.rxns[0].products[&2], 1);
    assert_eq!(crn.rxns[0].delta[&0], -1);
    assert_eq!(crn.rxns[0].delta[&1], -1);
    assert_eq!(crn.rxns[0].delta[&2], 1);
    assert_eq!(crn.rxns[0].rate.as_str(), "1");
    assert!(crn.valid());
}

#[test]
fn the_empty_text_is_the_empty_network() {
    let crn = StoCrn::parse("").unwrap();
    assert_eq!(crn.state.species.len(), 0);
    assert_eq!(crn.rxns.len(), 0);
    assert_eq!(crn.to_text(), "");
    let crn = StoCrn::parse(" \n\t \r\n").unwrap();
    assert_eq!(crn.state.species.len(), 0);
    assert_eq!(crn.rxns.len(), 0);
}

#[test]
fn blanks_between_tokens_do_not_count() {
    let tight = StoCrn::parse("a=5;b=3;2a+b->3a:0.5;b->;").unwrap();
    let loose =
        StoCrn::parse(" a\t=\n5 ;\r\n b = 3 ; 2 a + b -> 3 a : 0.5 ;\n b -> ;\n\n").unwrap();
    assert_eq!(tight.to_text(), loose.to_text());
    assert_eq!(tight.to_text(), "a = 5;\nb = 3;\n2a + b -> 3a : 0.5;\nb ->  : 1;\n");
}

#[test]
fn a_species_of_a_reaction_gets_the_next_index() {
    let crn = StoCrn::parse("B = 7; A -> B; C + B -> A;").unwrap();
    assert_eq!(crn.state.species, vec![7, 0, 0]);
    assert_eq!(crn.names.get_by_left(&0).unwrap(), "B");
    assert_eq!(crn.names.get_by_left(&1).unwrap(), "A");
    assert_eq!(crn.names.get_by_left(&2).unwrap(), "C");
    assert_eq!(crn.rxns[1].reactants[&2], 1);
    assert_eq!(crn.rxns[1].reactants[&0], 1);
    assert_eq!(crn.rxns[1].products[&1], 1);
}

#[test]
fn the_last_coefficient_of_a_species_counts() {
    let crn = StoCrn::parse("A + 3A -> 2B + B;").unwrap();
    assert_eq!(crn.rxns[0].reactants.len(), 1);
    assert_eq!(crn.rxns[0].reactants[&0], 3);
    assert_eq!(crn.rxns[0].products[&1], 1);
    assert_eq!(crn.rxns[0].delta[&0], -3);
    assert_eq!(crn.rxns[0].delta[&1], 1);
}

#[test]
fn coefficients_are_read_in_decimal() {
    let crn = StoCrn::parse("0A + 007B + 2147483647C -> ;").unwrap();
    assert_eq!(crn.rxns[0].reactants[&0], 0);
    assert_eq!(crn.rxns[0].reactants[&1], 7);
    assert_eq!(crn.rxns[0].reactants[&2], 2147483647);
    assert_eq!(malformed_at("A = 1; 2147483648A -> ;"), 7);
}

#[test]
fn births_deaths_and_inert_reactions_are_read() {
    let crn = StoCrn::parse("-> A; A ->; ->;").unwrap();
    assert_eq!(crn.rxns.len(), 3);
    assert!(crn.rxns[0].reactants.is_empty());
    assert_eq!(crn.rxns[0].products[&0], 1);
    assert_eq!(crn.rxns[1].reactants[&0], 1);
    assert!(crn.rxns[1].products.is_empty());
    assert!(crn.rxns[2].reactants.is_empty());
    assert!(crn.rxns[2].products.is_empty());
    assert!(crn.rxns[2].delta.is_empty());
    assert_eq!(crn.to_text(), "A = 0;\n -> A : 1;\nA ->  : 1;\n ->  : 1;\n");
}

#[test]
fn integer_abundances_take_a_sign() {
    let crn = StoCrn::parse("A = +5; B = -3; C = -2147483648; D = 2147483647; E = 007;").unwrap();
    assert_eq!(crn.state.species, vec![5, -3, -2147483648, 2147483647, 7]);
}

#[test]
fn integer_abundances_reject_what_is_no_integer() {
    assert_eq!(malformed_at("A = 1.0;"), 4);
    assert_eq!(malformed_at("A = 1; B = 1e3;"), 11);
    assert_eq!(malformed_at("A =  2147483648;"), 5);
    assert_eq!(malformed_at("A = -2147483649;"), 4);
    assert_eq!(malformed_at("A = .5;"), 4);
}

#[test]
fn real_abundances_keep_literals_as_written() {
    let crn = RealCrn::parse("a=100;\n b=1.5e2;\n c=-.5;\n a+b->2b:0.005;\n b->: 1E-3;").unwrap();
    assert_eq!(crn.state.species[0].as_str(), "100");
    assert_eq!(crn.state.species[1].as_str(), "1.5e2");
    assert_eq!(crn.state.species[2].as_str(), "-.5");
    assert_eq!(crn.rxns[0].rate.as_str(), "0.005");
    assert_eq!(crn.rxns[1].rate.as_str(), "1E-3");
    assert_eq!(
        crn.to_text(),
        "a = 100;\nb = 1.5e2;\nc = -.5;\na + b -> 2b : 0.005;\nb ->  : 1E-3;\n"
    );
    let crn = RealCrn::parse("-> x;").unwrap();
    assert_eq!(crn.state.species[0].as_str(), "0");
}

#[test]
fn rejects_a_second_declaration() {
    match StoCrn::parse("A = 1; B = 2; A = 2;") {
        Err(ParseError::DuplicateDefinition(name)) => assert_eq!(name, "A"),
        _ => panic!("expected a duplicate definition"),
    }
    match RealCrn::parse("x1 = 1; x1 = 1;") {
        Err(ParseError::DuplicateDefinition(name)) => assert_eq!(name, "x1"),
        _ => panic!("expected a duplicate definition"),
    }
}

#[test]
fn the_first_failure_in_the_text_is_reported() {
    // the abundance of A fails before the second declaration of B is seen
    assert_eq!(malformed_at("B = 1; A = 1.5; B = 2;"), 11);
    // a duplicate is reported before anything about the reactions
    match StoCrn::parse("A = 1; A = 2; 99999999999A -> ; ???") {
        Err(ParseError::DuplicateDefinition(name)) => assert_eq!(name, "A"),
        _ => panic!("expected a duplicate definition"),
    }
    // a coefficient that does not fit is reported before what is left over
    assert_eq!(malformed_at("A = 1; 99999999999A -> ; ???"), 7);
}

#[test]
fn rejects_what_is_left_over() {
    assert_eq!(malformed_at("A = 1; A -> ; ???"), 14);
    assert_eq!(malformed_at("A = 1; A -> B"), 7);
    assert_eq!(malformed_at("A = ;"), 0);
    assert_eq!(malformed_at("A = 1e; A -> ;"), 0);
    assert_eq!(malformed_at("A -> B : ; "), 0);
    assert_eq!(malformed_at("A + -> B;"), 0);
    assert_eq!(malformed_at("2 -> A;"), 0);
    assert_eq!(malformed_at("A -> ; 1 -> ;"), 7);
    assert_eq!(malformed_at("A -> ; 1.x -> ;"), 7);
    assert_eq!(malformed_at("\u{e9} = 1;"), 0);
    assert_eq!(malformed_at("A = 1; \u{e9}"), 7);
}

#[test]
fn a_declaration_behind_a_reaction_is_rejected() {
    assert_eq!(malformed_at("A = 1; A -> B; B = 2;"), 15);
}

#[test]
fn the_presets_are_networks() {
    let all = [
        presets::ROCK_PAPER_SCISSORS,
        presets::PREDATOR_PREY,
        presets::POLYA,
        presets::RPSLS,
        presets::MAJORITY,
        presets::MAJORITY_CATALYZED,
        presets::MULTIPLY,
        presets::MULTIPLY_CATALYZED,
        presets::EQUILIBRIUM,
        presets::CHAIN,
        presets::OTHER,
    ];
    for text in all {
        let sto = StoCrn::parse(text).unwrap();
        assert!(sto.valid());
        let real = RealCrn::parse(text).unwrap();
        assert_eq!(real.rxns.len(), sto.rxns.len());
        assert_eq!(real.state.species.len(), sto.state.species.len());
    }
    let crn = StoCrn::parse(presets::PREDATOR_PREY).unwrap();
    assert_eq!(crn.state.species, vec![100, 100]);
    assert_eq!(crn.rxns[0].rate.as_str(), "0.005");
    assert_eq!(crn.rxns[0].delta[&0], -1);
    assert_eq!(crn.rxns[0].delta[&1], 1);
    let crn = StoCrn::parse(presets::OTHER).unwrap();
    assert_eq!(crn.state.species.len(), 18);
    assert_eq!(crn.rxns.len(), 20);
    assert_eq!(crn.rxns[19].rate.as_str(), "0.00001");
}

fn same_network<T: crn::Abundance + PartialEq + std::fmt::Debug>(a: &Crn<T>, b: &Crn<T>) {
    assert_eq!(a.state.species, b.state.species);
    assert_eq!(a.init_state.species, b.init_state.species);
    assert_eq!(a.rxns, b.rxns);
    assert_eq!(a.names, b.names);
}

#[test]
fn what_is_written_is_read_back() {
    let all = [
        "",
        "A = 1; A -> ;",
        "A = 1; B = 1; A + B -> C; C -> A + B;",
        "-> A; A ->; ->; 0A -> 12B + 3A : 2.5e-3;",
        "z = -4; y = 3; x = 2; x + y + z + w + v -> 2v + w + 3z + 4y + 5x : 7;",
        presets::ROCK_PAPER_SCISSORS,
        presets::PREDATOR_PREY,
        presets::POLYA,
        presets::RPSLS,
        presets::MAJORITY,
        presets::MAJORITY_CATALYZED,
        presets::MULTIPLY,
        presets::MULTIPLY_CATALYZED,
        presets::EQUILIBRIUM,
        presets::CHAIN,
        presets::OTHER,
    ];
    for text in all {
        let first = StoCrn::parse(text).unwrap();
        let written = first.to_text();
        let second = StoCrn::parse(&written).unwrap();
        same_network(&first, &second);
        assert_eq!(second.to_text(), written);

        let first = RealCrn::parse(text).unwrap();
        let written = first.to_text();
        let second = RealCrn::parse(&written).unwrap();
        same_network(&first, &second);
        assert_eq!(second.to_text(), written);
    }
}

#[test]
fn a_side_is_written_in_the_order_of_the_species() {
    let text = "a=1;b=1;c=1;d=1;e=1;f=1;g=1;h=1;i=1;j=1;k=1;l=1;\
                l + 2k + j + 3i + h + g + f + e + d + c + b + a -> 5l + a + 4f;";
    let crn = StoCrn::parse(text).unwrap();
    let written = crn.to_text();
    let last = written.lines().last().unwrap();
    assert_eq!(
        last,
        "a + b + c + d + e + f + g + h + 3i + j + 2k + l -> a + 4f + 5l : 1;"
    );
}

#[test]
fn the_current_abundances_are_written() {
    let mut crn = StoCrn::parse("A = 3; B = 4; A -> B;").unwrap();
    crn.state.species[0] = 2;
    crn.state.species[1] = -5;
    assert_eq!(crn.to_text(), "A = 2;\nB = -5;\nA -> B : 1;\n");
    let mut crn = RealCrn::parse("A = 3;").unwrap();
    crn.state.species[0] = Number::new("2.50").unwrap();
    assert_eq!(crn.to_text(), "A = 2.50;\n");
}
