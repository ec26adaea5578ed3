use std::collections::HashMap;

use biodivine_lib_bdd::Bdd;
use biodivine_lib_param_bn::symbolic_async_graph::SymbolicContext;
use biodivine_lib_param_bn::BooleanNetwork;
use pbn_ibmfa::network::{regulation_of, Sign};
use pbn_ibmfa::symbolic_sync_graph::regulation_constraints::ViolationKind;
use pbn_ibmfa::symbolic_sync_graph::attractors::compute_attrs_map;
use pbn_ibmfa::symbolic_sync_graph::{ConstructionError, SymbSyncGraph};

fn network(text: &str) -> BooleanNetwork {
    BooleanNetwork::try_from(text).unwrap()
}

fn three_variables() -> SymbSyncGraph {
    // `c` has no rule: its four parametrization bits are free.
    let text = "a -> a\nc -> a\na -> b\nb -> b\na -> c\nb -> c\n$a: a & c\n$b: a | b\n";
    SymbSyncGraph::new(network(text)).unwrap()
}

/// The number of pairs of a state and a color in a set over `graph`.
fn pairs(graph: &SymbSyncGraph, set: &Bdd) -> f64 {
    let scratch = graph.extra_variables().len() as i32;
    set.cardinality() / 2.0f64.powi(scratch)
}

#[test]
fn graph_has_one_state_and_one_extra_variable_per_network_variable() {
    let graph = three_variables();
    assert_eq!(graph.num_vars(), 3);
    assert_eq!(graph.state_variables().len(), 3);
    assert_eq!(graph.extra_variables().len(), 3);
    assert_eq!(graph.parameter_variables().len(), 4);
    assert_eq!(graph.get_pupdate_functions().len(), 3);
    assert_eq!(usize::from(graph.unit_colors().num_vars()), 10);
}

#[test]
fn variable_index_maps_state_variables_back() {
    let graph = three_variables();
    let index = graph.get_var_index();
    assert_eq!(index.len(), 10);
    for (network_variable, symbolic) in graph.state_variables().iter().enumerate() {
        assert_eq!(index[*symbolic], Some(network_variable));
    }
    for symbolic in graph.extra_variables() {
        assert_eq!(index[*symbolic], None);
    }
    for symbolic in graph.parameter_variables() {
        assert_eq!(index[*symbolic], None);
    }
}

#[test]
fn regulations_leave_the_monotone_observable_rules() {
    // Both regulators of `c` activate it and show an effect: of the sixteen
    // tables only conjunction and disjunction remain.
    let graph = three_variables();
    let unit = graph.unit_colored_vertices();
    assert_eq!(pairs(&graph, &unit), 16.0);
    let colors = graph.colors(&unit);
    assert_eq!(pairs(&graph, &colors), 16.0);
}

#[test]
fn empty_set_is_empty() {
    let graph = three_variables();
    assert!(graph.empty_colored_vertices().is_false());
    assert!(graph.post_synch(&graph.empty_colored_vertices()).is_false());
    assert!(graph.pre_synch(&graph.empty_colored_vertices()).is_false());
}

#[test]
fn fixing_a_variable_halves_the_states() {
    let graph = three_variables();
    let fixed = graph.fix_network_variable(1, true);
    assert_eq!(pairs(&graph, &fixed), 8.0);
    let other = graph.fix_network_variable(1, false);
    assert!(fixed.and(&other).is_false());
    assert_eq!(fixed.or(&other), graph.unit_colored_vertices());
}

#[test]
fn successors_of_everything_under_a_constant_network() {
    // Every state of `x -> x, $x: x` is its own successor.
    let graph = SymbSyncGraph::new(network("x -> x\n$x: x\n")).unwrap();
    let unit = graph.unit_colored_vertices();
    assert_eq!(graph.post_synch(&unit), unit);
    assert_eq!(graph.pre_synch(&unit), unit);
    let up = graph.fix_network_variable(0, true);
    assert_eq!(graph.post_synch(&up), up);
    assert_eq!(graph.pre_synch(&up), up);
}

#[test]
fn successors_follow_the_rules() {
    // `$x: !y`, `$y: x`: the state (x, y) = (0, 0) steps to (1, 0).
    let graph = SymbSyncGraph::new(network("y -| x\nx -> y\n$x: !y\n$y: x\n")).unwrap();
    let both_low = graph.fix_network_variable(0, false).and(&graph.fix_network_variable(1, false));
    let expected = graph.fix_network_variable(0, true).and(&graph.fix_network_variable(1, false));
    assert_eq!(graph.post_synch(&both_low), expected);
    assert_eq!(graph.pre_synch(&expected), both_low);
}

#[test]
fn a_cycle_of_four_states_is_one_attractor() {
    let graph = SymbSyncGraph::new(network("y -| x\nx -> y\n$x: !y\n$y: x\n")).unwrap();
    let attractors = graph.attractors();
    assert_eq!(attractors.len(), 1);
    assert_eq!(attractors[0], graph.unit_colored_vertices());
    assert!(graph.fixed_point_attractors().is_empty());
}

#[test]
fn attractors_of_the_empty_set_are_none() {
    let graph = three_variables();
    assert!(graph.attractors_in(&graph.empty_colored_vertices()).is_empty());
    assert!(graph.fixed_point_attractors_in(&graph.empty_colored_vertices()).is_empty());
}

#[test]
fn attractors_are_cycles_and_do_not_overlap() {
    let graph = three_variables();
    let attractors = graph.attractors();
    assert!(!attractors.is_empty());
    for (i, attractor) in attractors.iter().enumerate() {
        assert!(!attractor.is_false());
        // The update permutes the pairs of an attractor.
        assert_eq!(graph.post_synch(attractor), *attractor);
        for other in &attractors[i + 1..] {
            assert!(attractor.and(other).is_false());
        }
    }
}

#[test]
fn fixed_points_are_split_by_state() {
    let graph = three_variables();
    let fixed = graph.fixed_point_attractors();
    // (0,0,0) under both colors, (0,1,0) under conjunction, (0,1,1) under
    // disjunction, (1,1,1) under both.
    assert_eq!(fixed.len(), 4);
    let mut sizes: Vec<f64> = fixed.iter().map(|region| pairs(&graph, region)).collect();
    sizes.sort_by(|a, b| a.partial_cmp(b).unwrap());
    assert_eq!(sizes, vec![1.0, 1.0, 2.0, 2.0]);
    for (i, region) in fixed.iter().enumerate() {
        assert_eq!(graph.post_synch(region), *region);
        // One state, whatever the color.
        assert_eq!(pairs(&graph, &graph.vertices(region)), 16.0);
        for other in &fixed[i + 1..] {
            assert!(region.and(other).is_false());
        }
    }
}

#[test]
fn construction_fails_without_a_valid_parametrization() {
    // `x` is declared to activate `y`, but the rule of `y` makes it inhibit.
    let result = SymbSyncGraph::new(network("x -> y\ny -> x\n$x: y\n$y: !x\n"));
    match result {
        Err(ConstructionError::Constraints(violations)) => {
            assert_eq!(violations.len(), 1);
            assert_eq!(violations[0].regulator, 0);
            assert_eq!(violations[0].target, 1);
            assert!(matches!(violations[0].kind, ViolationKind::WrongDirection(_)));
        }
        _ => panic!("the constraints cannot be met"),
    }
}

#[test]
fn construction_reports_a_regulator_without_effect() {
    let result = SymbSyncGraph::new(network("x -> y\ny -> x\n$x: y\n$y: true\n"));
    match result {
        Err(ConstructionError::Constraints(violations)) => {
            assert_eq!(violations.len(), 1);
            assert_eq!(violations[0].regulator, 0);
            assert_eq!(violations[0].target, 1);
            assert_eq!(violations[0].kind, ViolationKind::NoEffect);
        }
        _ => panic!("the constraints cannot be met"),
    }
}

#[test]
fn every_pair_ends_in_an_attractor() {
    let graph = three_variables();
    let attractors = graph.attractors();
    let mut basin = graph.empty_colored_vertices();
    for attractor in &attractors {
        let mut reached = attractor.clone();
        loop {
            let more = reached.or(&graph.pre_synch(&reached));
            if more == reached {
                break;
            }
            reached = more;
        }
        basin = basin.or(&reached);
    }
    assert_eq!(basin, graph.unit_colored_vertices());
}

#[test]
fn attractors_within_a_fixed_point_are_the_fixed_point() {
    let graph = three_variables();
    let fixed = graph.fixed_point_attractors();
    for region in &fixed {
        let attractors = graph.attractors_in(region);
        let mut together = graph.empty_colored_vertices();
        for attractor in &attractors {
            together = together.or(attractor);
        }
        assert_eq!(together, *region);
    }
}

#[test]
fn construction_fails_on_a_network_without_an_encoding() {
    let mut model = network("a -> b\nb -> a\n$a: b\n$b: a\n");
    model.add_parameter("unused", 1).unwrap();
    match SymbSyncGraph::new(model) {
        Err(ConstructionError::Encoding(message)) => assert!(message.contains("unused")),
        _ => panic!("a function that no rule uses has no place in the encoding"),
    }
}

#[test]
fn graph_from_a_context_at_hand_is_the_graph_of_the_network() {
    let text = "a -> a\nc -> a\na -> b\nb -> b\na -> c\nb -> c\n$a: a & c\n$b: a | b\n";
    let model = network(text);
    let extra: HashMap<_, _> = model.variables().map(|v| (v, 1u16)).collect();
    let context = SymbolicContext::with_extra_state_variables(&model, &extra).unwrap();
    let graph = SymbSyncGraph::with_context(model, context).unwrap();
    let other = three_variables();
    assert_eq!(graph.unit_colored_vertices(), other.unit_colored_vertices());
    assert_eq!(graph.state_variables(), other.state_variables());
    assert_eq!(graph.extra_variables(), other.extra_variables());
    assert_eq!(graph.parameter_variables(), other.parameter_variables());
    assert_eq!(*graph.total_update(), *other.total_update());
    assert_eq!(*graph.mirror(), *other.mirror());
}

#[test]
fn transition_relation_stores_the_next_state() {
    let graph = SymbSyncGraph::new(network("y -| x\nx -> y\n$x: !y\n$y: x\n")).unwrap();
    let set = graph.symbolic_context().bdd_variable_set();
    let var = |index: usize| set.mk_var(biodivine_lib_bdd::BddVariable::from_index(index));
    let state = graph.state_variables();
    let extra = graph.extra_variables();
    let expected = var(extra[0]).iff(&var(state[1]).not()).and(&var(extra[1]).iff(&var(state[0])));
    assert_eq!(*graph.total_update(), expected);
    let copied = var(extra[0]).iff(&var(state[0])).and(&var(extra[1]).iff(&var(state[1])));
    assert_eq!(*graph.mirror(), copied);
    assert_eq!(graph.get_all_false().cardinality(), 1.0);
}

#[test]
fn regulation_holds_what_it_is_given() {
    let declared = regulation_of(3, 1, true, Some(false));
    assert_eq!(declared.regulator, 3);
    assert_eq!(declared.target, 1);
    assert!(declared.observable);
    assert_eq!(declared.monotonicity, Some(Sign::Inhibition));
    assert_eq!(regulation_of(0, 0, false, Some(true)).monotonicity, Some(Sign::Activation));
    assert_eq!(regulation_of(0, 0, false, None).monotonicity, None);
}

#[test]
fn graph_hands_back_the_network_it_was_built_from() {
    let text = "a -> a\nc -> a\na -> b\nb -> b\na -> c\nb -> c\n$a: a & c\n$b: a | b\n";
    let given = network(text);
    let graph = SymbSyncGraph::new(given.clone()).unwrap();
    let held = graph.as_network();
    assert_eq!(*held, given);
    assert_eq!(held.num_vars(), 3);
    let names: Vec<String> =
        held.variables().map(|id| held.get_variable_name(id).clone()).collect();
    assert_eq!(names, vec!["a".to_string(), "b".to_string(), "c".to_string()]);
    assert!(held.get_update_function(held.variables().nth(2).unwrap()).is_none());
}

/// The colors of `set` one by one, each as the diagram of its pairs.
fn each_color(graph: &SymbSyncGraph, set: &Bdd) -> Vec<Bdd> {
    let mut rest = graph.colors(set);
    let mut found = Vec::new();
    while !rest.is_false() {
        let color = graph.pick_color(&rest);
        rest = rest.and_not(&color);
        found.push(color);
    }
    found
}

#[test]
fn attractor_is_one_cycle_under_each_of_its_colors() {
    let graph = three_variables();
    let regions = graph.attractors();
    assert!(!regions.is_empty());
    for region in &regions {
        for color in each_color(&graph, region) {
            let part = region.and(&color);
            let start = part.and(&graph.pick_state(&graph.vertices(&part)));
            let mut reached = start.clone();
            let mut front = start.clone();
            loop {
                front = graph.post_synch(&front);
                if front.and_not(&reached).is_false() {
                    break;
                }
                reached = reached.or(&front);
            }
            // From any of its states the cycle comes round to all of them.
            assert!(reached.xor(&part).is_false());
            assert!(!graph.post_synch(&reached).and(&start).is_false());
        }
    }
}

#[test]
fn map_entry_holds_the_states_of_a_region_under_each_of_its_colors() {
    let graph = three_variables();
    let regions = graph.attractors();
    let map = compute_attrs_map(&graph, &regions);
    assert!(!map.is_empty());
    for (vertices, colors) in &map {
        let mut exact = false;
        for color in each_color(&graph, colors) {
            let mut within = false;
            for region in &regions {
                let part = region.and(&color);
                if part.is_false() {
                    continue;
                }
                let states = graph.vertices(&part);
                within = within || states.and_not(vertices).is_false();
                exact = exact || states.xor(vertices).is_false();
            }
            assert!(within);
        }
        assert!(exact);
    }
}
