use biodivine_lib_bdd::{Bdd, BddVariable};
use biodivine_lib_param_bn::BooleanNetwork;
use pbn_ibmfa::decision_tree::{decision_tree, DecisionTree};
use pbn_ibmfa::ibmfa_computations::{MeanField, VariableRule};
use pbn_ibmfa::symbolic_sync_graph::attractors::compute_attrs_map;
use pbn_ibmfa::symbolic_sync_graph::{forget_unsupported, ParedUpdateFunction, SymbSyncGraph};
use pbn_ibmfa::utils::add_self_regulations;

fn three_variables() -> SymbSyncGraph {
    let text = "a -> a\nc -> a\na -> b\nb -> b\na -> c\nb -> c\n$a: a & c\n$b: a | b\n";
    SymbSyncGraph::new(BooleanNetwork::try_from(text).unwrap()).unwrap()
}

fn variable(index: usize) -> BddVariable {
    BddVariable::from_index(index)
}

fn entropy(probs: &[f32]) -> f32 {
    probs
        .iter()
        .map(|p| {
            let p = p.clamp(0.0, 1.0);
            if p == 0.0 || p == 1.0 {
                0.0
            } else {
                -p * p.log2() - (1.0 - p) * (1.0 - p).log2()
            }
        })
        .sum::<f32>()
        / probs.len() as f32
}

fn step(graph: &SymbSyncGraph, system: &MeanField, probs: &Vec<u32>) -> (Vec<u32>, u32) {
    let index = graph.get_var_index();
    let now: Vec<f32> = probs.iter().map(|bits| f32::from_bits(*bits)).collect();
    let next: Vec<f32> = system
        .rules
        .iter()
        .map(|rule| match rule {
            VariableRule::Fixed(value) => {
                if *value {
                    1.0
                } else {
                    0.0
                }
            }
            VariableRule::Free(forms) => {
                forms
                    .iter()
                    .map(|clauses| {
                        clauses
                            .iter()
                            .map(|clause| {
                                clause
                                    .iter()
                                    .map(|(var, value)| {
                                        let one = now[index[*var].unwrap()];
                                        if *value {
                                            one
                                        } else {
                                            1.0 - one
                                        }
                                    })
                                    .product::<f32>()
                            })
                            .sum::<f32>()
                    })
                    .sum::<f32>()
                    / forms.len() as f32
            }
        })
        .collect();
    let bits = next.iter().map(|p| p.to_bits()).collect();
    (bits, entropy(&next).to_bits())
}

#[test]
fn inputs_without_a_rule_get_the_identity() {
    // `i` has neither a regulator nor a rule; `o` has a regulator.
    let model = BooleanNetwork::try_from("i -> o\n").unwrap();
    assert!(model.get_update_function(model.as_graph().find_variable("i").unwrap()).is_none());
    let model = add_self_regulations(model);
    let i = model.as_graph().find_variable("i").unwrap();
    let o = model.as_graph().find_variable("o").unwrap();
    assert_eq!(model.regulators(i), vec![i]);
    assert_eq!(
        model.get_update_function(i),
        &Some(biodivine_lib_param_bn::FnUpdate::Var(i))
    );
    assert_eq!(model.regulators(o), vec![i]);
    assert!(model.get_update_function(o).is_none());
    // The loop is declared after the regulations that were there, as `i -> i` is.
    let declared: Vec<_> = model.as_graph().regulations().cloned().collect();
    assert_eq!(declared.len(), 2);
    assert_eq!((declared[0].get_regulator(), declared[0].get_target()), (i, o));
    assert_eq!((declared[1].get_regulator(), declared[1].get_target()), (i, i));
    assert!(declared[1].is_observable());
    assert_eq!(
        declared[1].get_monotonicity(),
        Some(biodivine_lib_param_bn::Monotonicity::Activation)
    );
    let mut by_text = BooleanNetwork::try_from("i -> o\n").unwrap();
    by_text.as_graph_mut().add_string_regulation("i -> i").unwrap();
    by_text.add_update_function(i, biodivine_lib_param_bn::FnUpdate::Var(i)).unwrap();
    assert_eq!(model, by_text);
    // A second pass finds nothing to do.
    assert_eq!(add_self_regulations(model.clone()), model);
}

#[test]
fn variables_with_a_rule_or_a_regulator_are_left_alone() {
    let text = "a -> b\nb -> a\n$a: b\n";
    let before = BooleanNetwork::try_from(text).unwrap();
    let after = add_self_regulations(before.clone());
    assert_eq!(after, before);
}

#[test]
fn self_regulated_input_is_a_state_and_no_parameter() {
    let graph =
        SymbSyncGraph::new(add_self_regulations(BooleanNetwork::try_from("i -> o\n").unwrap()))
            .unwrap();
    // Only the rule of `o` is parametrized: two rows, of which the
    // regulation leaves one table.
    assert_eq!(graph.parameter_variables().len(), 2);
    assert_eq!(graph.fixed_point_attractors().len(), 2);
}

#[test]
fn forgetting_keeps_the_variables_of_the_other_diagram() {
    let graph = three_variables();
    let state = graph.state_variables().clone();
    let set = graph.symbolic_context().bdd_variable_set();
    let a = set.mk_var(variable(state[0]));
    let b = set.mk_var(variable(state[1]));
    let c = set.mk_var(variable(state[2]));
    let of = a.and(&b).and(&c.not());
    let keep = b.or(&c);
    assert_eq!(forget_unsupported(&of, &keep), b.and(&c.not()));
    assert_eq!(forget_unsupported(&of, &of), of);
    assert!(forget_unsupported(&of, &set.mk_true()).is_true());
}

#[test]
fn rule_of_a_free_variable_depends_on_its_parameters() {
    let graph = three_variables();
    let rules = graph.get_pupdate_functions();
    assert!(rules[0].get_parameters().is_empty());
    assert!(rules[1].get_parameters().is_empty());
    assert_eq!(rules[2].get_parameters(), graph.parameter_variables());
    assert!(rules[0].get_parametrizations().is_true());
    assert_eq!(rules[2].get_parametrizations().cardinality(), 2.0 * 64.0);
    // The rule of `a` is `a & c` under every parametrization.
    let state = graph.state_variables().clone();
    let set = graph.symbolic_context().bdd_variable_set();
    assert_eq!(
        *rules[0].get_function(),
        set.mk_var(variable(state[0])).and(&set.mk_var(variable(state[2])))
    );
}

#[test]
fn restricted_rule_is_the_rule_under_one_parametrization() {
    let graph = three_variables();
    let rule: &ParedUpdateFunction = &graph.get_pupdate_functions()[2];
    let state = graph.state_variables().clone();
    let set = graph.symbolic_context().bdd_variable_set();
    let a = set.mk_var(variable(state[0]));
    let b = set.mk_var(variable(state[1]));
    let forms = rule.explicit_in(&graph.unit_colors(), &graph);
    assert_eq!(forms.len(), 2);
    assert!(forms.contains(&a.and(&b)));
    assert!(forms.contains(&a.or(&b)));
    // Under a table that is no valid parametrization the rule is never true.
    let width = usize::from(graph.unit_colors().num_vars());
    assert!(rule.restricted(&vec![true; width]).is_false());
}

#[test]
fn restricted_parametrizations_keep_the_bits_of_the_rule() {
    let graph = three_variables();
    let unit = graph.unit_colors();
    let bit = graph.parameter_variables()[1];
    let colors = unit.var_select(variable(bit), true);
    let of_c = &graph.get_pupdate_functions()[2];
    assert_eq!(of_c.restricted_parametrizations(colors.clone()), colors);
    assert_eq!(of_c.restricted_parametrizations_safe(colors.clone()), colors);
    // The rule of `a` has no parametrization bit: nothing of the colors is kept.
    let of_a = &graph.get_pupdate_functions()[0];
    assert!(of_a.restricted_parametrizations(colors.clone()).is_true());
    assert!(of_a.restricted_parametrizations_safe(colors).is_true());
}

#[test]
fn picked_color_is_one_parametrization() {
    let graph = three_variables();
    let unit = graph.unit_colors();
    let color = graph.pick_color(&unit);
    assert!(!color.is_false());
    assert!(color.and_not(&unit).is_false());
    // One of the two tables, with every state and every extra variable free.
    assert_eq!(color.cardinality(), 64.0);
    assert!(graph.pick_color(&graph.empty_colored_vertices()).is_false());
}

#[test]
fn picked_state_is_one_state() {
    let graph = three_variables();
    let unit = graph.unit_colored_vertices();
    let state = graph.pick_state(&graph.vertices(&unit));
    assert!(!state.is_false());
    // One of eight states, with every parametrization and extra variable free.
    assert_eq!(state.cardinality(), 128.0);
    assert!(graph.pick_state(&graph.empty_colored_vertices()).is_false());
}

#[test]
fn attractor_map_sorts_the_fixed_points_by_state() {
    let graph = three_variables();
    let fixed = graph.fixed_point_attractors();
    let mut together = graph.empty_colored_vertices();
    for region in &fixed {
        together = together.or(region);
    }
    let map = compute_attrs_map(&graph, &vec![together.clone()]);
    // Under either color the region holds three states, and not the same
    // three: one entry for each color.
    assert_eq!(map.len(), 2);
    for (vertices, colors) in &map {
        assert_eq!(vertices.cardinality(), 3.0 * 16.0 * 8.0);
        assert_eq!(colors.cardinality(), 64.0);
        assert_eq!(*vertices, graph.vertices(&together.and(colors)));
    }
    assert_ne!(map[0].0, map[1].0);
    assert!(map[0].1.and(&map[1].1).is_false());
    let mut covered: Bdd = graph.empty_colored_vertices();
    for (vertices, colors) in &map {
        covered = covered.or(&vertices.and(colors));
    }
    assert!(together.and_not(&covered).is_false());
}

#[test]
fn attractor_map_merges_regions_with_the_same_states() {
    let graph = three_variables();
    let fixed = graph.fixed_point_attractors();
    let twice = vec![fixed[0].clone(), fixed[0].clone()];
    let map = compute_attrs_map(&graph, &twice);
    assert_eq!(map.len(), 1);
    assert_eq!(map[0].0, graph.vertices(&fixed[0]));
    assert_eq!(map[0].1, graph.colors(&fixed[0]));
    assert!(compute_attrs_map(&graph, &Vec::new()).is_empty());
}

#[test]
fn tree_of_a_search_without_parameter_fixes_is_a_leaf() {
    let graph = three_variables();
    let kernel = |s: &MeanField, p: &Vec<u32>| step(&graph, s, p);
    let unit = graph.unit_colored_vertices();
    let states = graph.vertices(&unit);
    let colors = graph.colors(&unit);
    let tree = decision_tree(&graph, 10, (&states, &colors), true, &kernel);
    let mut leaves = 0;
    let mut pending = vec![&tree];
    while let Some(node) = pending.pop() {
        match node {
            DecisionTree::Leaf(set) => {
                leaves += 1;
                assert!(set.len() <= 3);
            }
            DecisionTree::Node(inner) => {
                let (low, high) = inner.get_childs();
                let question = inner.get_fix();
                assert!(graph
                    .parameter_variables()
                    .iter()
                    .any(|bit| *question == graph.symbolic_context().bdd_variable_set().mk_var(variable(*bit))));
                pending.push(low);
                pending.push(high);
            }
        }
    }
    assert!(leaves >= 1);
}
