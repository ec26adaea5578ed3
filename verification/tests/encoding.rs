use biodivine_lib_param_bn::{BooleanNetwork, RegulatoryGraph};
use pbn_ibmfa::encoding::{
    can_encode, distinct_names, encode, free_names, is_extra_of, no_extra_clash, reserved, rows_of,
    same_name, symbols_fit,
};
use pbn_ibmfa::symbolic_sync_graph::{ConstructionError, SymbSyncGraph};
use pbn_ibmfa::utils::add_self_regulations;

fn name(text: &str) -> Vec<char> {
    text.chars().collect()
}

fn network_of(names: &[&str]) -> BooleanNetwork {
    BooleanNetwork::new(RegulatoryGraph::new(names.iter().map(|n| n.to_string()).collect()))
}

#[test]
fn reserved_characters_are_those_of_formulas_and_the_bracket() {
    for c in "!&|^=<>()?:[".chars() {
        assert!(reserved(c), "{c}");
    }
    for c in "azAZ09_-.,]{} ".chars() {
        assert!(!reserved(c), "{c}");
    }
}

#[test]
fn names_are_free_unless_one_holds_a_reserved_character() {
    assert!(free_names(&vec![]));
    assert!(free_names(&vec![name("a"), name(""), name("b_1")]));
    assert!(!free_names(&vec![name("a"), name("b[0]")]));
    assert!(!free_names(&vec![name("a&b")]));
}

#[test]
fn extra_name_is_the_name_with_its_suffix() {
    assert!(is_extra_of(&name("a_extra_0"), &name("a")));
    assert!(is_extra_of(&name("_extra_0"), &name("")));
    assert!(!is_extra_of(&name("a_extra_1"), &name("a")));
    assert!(!is_extra_of(&name("b_extra_0"), &name("a")));
    assert!(!is_extra_of(&name("a_extra_0x"), &name("a")));
    assert!(!is_extra_of(&name("a"), &name("a")));
    assert!(!is_extra_of(&name("a"), &name("a_extra_0")));
}

#[test]
fn clash_is_found_in_either_order() {
    assert!(no_extra_clash(&vec![name("a"), name("b"), name("a_extra")]));
    assert!(!no_extra_clash(&vec![name("a"), name("a_extra_0")]));
    assert!(!no_extra_clash(&vec![name("a_extra_0"), name("b"), name("a")]));
}

#[test]
fn rows_double_with_each_argument_up_to_the_limit() {
    assert_eq!(rows_of(0), 1);
    assert_eq!(rows_of(1), 2);
    assert_eq!(rows_of(5), 32);
    assert_eq!(rows_of(15), 32768);
    assert_eq!(rows_of(16), 65536);
    assert_eq!(rows_of(40), 65536);
}

#[test]
fn small_network_fits_and_is_encoded() {
    let text = "a -> a\nc -> a\na -> b\nb -> b\na -> c\nb -> c\n$a: a & c\n$b: a | b\n";
    let bn = BooleanNetwork::try_from(text).unwrap();
    assert!(symbols_fit(&bn));
    assert!(can_encode(&bn));
    let context = encode(&bn).unwrap().unwrap();
    // Three state variables, three extra variables, four rows for `c`.
    assert_eq!(context.bdd_variable_set().num_vars(), 10);
}

#[test]
fn sixteen_regulators_without_a_rule_do_not_fit() {
    let names: Vec<String> = (0..17).map(|i| format!("v{i}")).collect();
    let mut graph = RegulatoryGraph::new(names.clone());
    for regulator in &names[1..] {
        graph.add_regulation(regulator, &names[0], true, None).unwrap();
    }
    let bn = add_self_regulations(BooleanNetwork::new(graph));
    assert!(!symbols_fit(&bn));
    assert!(encode(&bn).is_none());
    assert!(matches!(SymbSyncGraph::new(bn), Err(ConstructionError::Encoding(_))));
}

#[test]
fn fifteen_regulators_without_a_rule_fit() {
    let names: Vec<String> = (0..16).map(|i| format!("v{i}")).collect();
    let mut graph = RegulatoryGraph::new(names.clone());
    for regulator in &names[1..] {
        graph.add_regulation(regulator, &names[0], false, None).unwrap();
    }
    let bn = add_self_regulations(BooleanNetwork::new(graph));
    // 32 state and extra variables and 32768 rows.
    assert!(symbols_fit(&bn));
    assert!(can_encode(&bn));
}

#[test]
fn variable_named_as_an_extra_variable_is_refused() {
    let bn = add_self_regulations(network_of(&["a", "a_extra_0"]));
    assert!(!can_encode(&bn));
    assert!(encode(&bn).is_none());
    assert!(matches!(SymbSyncGraph::new(bn), Err(ConstructionError::Encoding(_))));
}

#[test]
fn variable_with_a_reserved_character_is_refused() {
    let bn = network_of(&["a", "b[0]"]);
    assert!(!can_encode(&bn));
    assert!(matches!(SymbSyncGraph::new(bn), Err(ConstructionError::Encoding(_))));
}

#[test]
fn input_with_an_unusual_name_gets_its_loop() {
    let bn = add_self_regulations(network_of(&["a-b", "c d"]));
    let a = bn.as_graph().find_variable("a-b").unwrap();
    assert_eq!(bn.regulators(a), vec![a]);
    assert!(can_encode(&bn));
    let graph = SymbSyncGraph::new(bn).unwrap();
    assert_eq!(graph.num_vars(), 2);
    assert_eq!(graph.parameter_variables().len(), 0);
}

#[test]
fn names_are_compared_character_by_character() {
    assert!(same_name(&name(""), &name("")));
    assert!(same_name(&name("abc"), &name("abc")));
    assert!(!same_name(&name("abc"), &name("abd")));
    assert!(!same_name(&name("abc"), &name("ab")));
    assert!(distinct_names(&vec![]));
    assert!(distinct_names(&vec![name("a"), name("b"), name("ab")]));
    assert!(!distinct_names(&vec![name("a"), name("b"), name("a")]));
}

#[test]
fn rows_of_declared_functions_count() {
    let mut small = network_of(&["a"]);
    small.add_parameter("f", 3).unwrap();
    assert!(symbols_fit(&small));
    assert!(can_encode(&small));
    let mut large = network_of(&["a"]);
    large.add_parameter("f", 16).unwrap();
    assert!(!symbols_fit(&large));
    assert!(!can_encode(&large));
}

#[test]
fn declared_function_is_encoded_with_its_rows() {
    let bn = BooleanNetwork::try_from("a -> b\nb -> a\n$a: f(b)\n$b: a\n").unwrap();
    assert!(can_encode(&bn));
    let graph = SymbSyncGraph::new(bn).unwrap();
    // The table of `f` has two rows; the regulation leaves one of its four fillings.
    assert_eq!(graph.parameter_variables().len(), 2);
}

#[test]
fn unused_function_is_refused_by_the_encoding() {
    let mut bn = add_self_regulations(network_of(&["a"]));
    bn.add_parameter("f", 1).unwrap();
    assert!(can_encode(&bn));
    assert!(encode(&bn).unwrap().is_err());
    assert!(matches!(SymbSyncGraph::new(bn), Err(ConstructionError::Encoding(_))));
}
