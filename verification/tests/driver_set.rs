use biodivine_lib_bdd::{Bdd, BddVariable};
use biodivine_lib_param_bn::BooleanNetwork;
use pbn_ibmfa::driver_set::fixes::{PBNFix, UnitFix, UnitParameterFix, UnitVertexFix};
use pbn_ibmfa::driver_set::{
    build_driver_set, colors_partition, filter_fixes, find_driver_set, list_fixes, prepare_fixes,
    reduce_driver_set,
};
use pbn_ibmfa::ibmfa_computations::{ibmfa_entropy, MeanField, VariableRule};
use pbn_ibmfa::symbolic_sync_graph::SymbSyncGraph;

fn three_variables() -> SymbSyncGraph {
    let text = "a -> a\nc -> a\na -> b\nb -> b\na -> c\nb -> c\n$a: a & c\n$b: a | b\n";
    SymbSyncGraph::new(BooleanNetwork::try_from(text).unwrap()).unwrap()
}

fn entropy(probs: &[f32]) -> f32 {
    probs
        .iter()
        .map(|p| {
            let p = p.clamp(0.0, 1.0);
            if p == 0.0 || p == 1.0 {
                0.0
            } else {
                -p * p.log2() - (1.0 - p) * (1.0 - p).log2()
            }
        })
        .sum::<f32>()
        / probs.len() as f32
}

fn step(graph: &SymbSyncGraph, system: &MeanField, probs: &Vec<u32>) -> (Vec<u32>, u32) {
    let index = graph.get_var_index();
    let now: Vec<f32> = probs.iter().map(|bits| f32::from_bits(*bits)).collect();
    let next: Vec<f32> = system
        .rules
        .iter()
        .map(|rule| match rule {
            VariableRule::Fixed(value) => {
                if *value {
                    1.0
                } else {
                    0.0
                }
            }
            VariableRule::Free(forms) => {
                forms
                    .iter()
                    .map(|clauses| {
                        clauses
                            .iter()
                            .map(|clause| {
                                clause
                                    .iter()
                                    .map(|(var, value)| {
                                        let one = now[index[*var].unwrap()];
                                        if *value {
                                            one
                                        } else {
                                            1.0 - one
                                        }
                                    })
                                    .product::<f32>()
                            })
                            .sum::<f32>()
                    })
                    .sum::<f32>()
                    / forms.len() as f32
            }
        })
        .collect();
    let bits = next.iter().map(|p| p.to_bits()).collect();
    (bits, entropy(&next).to_bits())
}

fn vertex(var_id: usize, value: bool) -> UnitFix {
    UnitFix::Vertex(UnitVertexFix { var_id, value })
}

fn parameter(bdd_var: usize, value: bool) -> UnitFix {
    UnitFix::Parameter(UnitParameterFix { bdd_var, value })
}

/// The fixed point in which every variable is `false`.
fn all_false_fixed_point(graph: &SymbSyncGraph) -> Bdd {
    let mut state = graph.unit_colored_vertices();
    for var_id in 0..graph.num_vars() {
        state = state.and(&graph.fix_network_variable(var_id, false));
    }
    let regions = graph.fixed_point_attractors();
    let found: Vec<&Bdd> = regions.iter().filter(|r| !r.and(&state).is_false()).collect();
    assert_eq!(found.len(), 1);
    found[0].clone()
}

#[test]
fn candidates_without_a_target_are_all_vertex_fixes() {
    let graph = three_variables();
    let (available, fix) = prepare_fixes(&graph, None, graph.unit_colors(), true);
    assert_eq!(
        available,
        vec![
            vertex(0, false),
            vertex(0, true),
            vertex(1, false),
            vertex(1, true),
            vertex(2, false),
            vertex(2, true)
        ]
    );
    assert_eq!(fix.get_driver_set().len(), 0);
    assert_eq!(fix.colors(), graph.unit_colors());
}

#[test]
fn candidates_keep_to_the_values_of_the_target() {
    let graph = three_variables();
    let region = all_false_fixed_point(&graph);
    let states = graph.vertices(&region);
    let (available, _) = prepare_fixes(&graph, Some(&states), graph.colors(&region), true);
    assert_eq!(available, vec![vertex(0, false), vertex(1, false), vertex(2, false)]);
}

#[test]
fn candidates_include_the_parameter_fixes_that_change_the_colors() {
    let graph = three_variables();
    let bits = graph.parameter_variables().clone();
    let (available, _) = prepare_fixes(&graph, None, graph.unit_colors(), false);
    // The valid tables of `c` are conjunction and disjunction: they differ
    // in the rows for one regulator only, and agree in the other two rows.
    let parameters: Vec<UnitFix> =
        available.iter().filter(|f| matches!(f, UnitFix::Parameter(_))).cloned().collect();
    assert_eq!(available.len(), 6 + parameters.len());
    assert_eq!(parameters.len(), 2);
    let unit = graph.unit_colors();
    let mut seen: Vec<Bdd> = Vec::new();
    for fix in &parameters {
        if let UnitFix::Parameter(f) = fix {
            assert!(bits.contains(&f.bdd_var));
            let after = unit.var_select(BddVariable::from_index(f.bdd_var), f.value);
            assert!(!after.is_false());
            assert_ne!(after, unit);
            assert!(!seen.contains(&after));
            seen.push(after);
        }
    }
}

#[test]
fn filtering_drops_what_is_fixed() {
    let graph = three_variables();
    let bits = graph.parameter_variables().clone();
    let (available, mut fix) = prepare_fixes(&graph, None, graph.unit_colors(), false);
    fix.insert(&vertex(1, true));
    let left = filter_fixes(&available, &fix);
    assert!(!left.contains(&vertex(1, true)));
    assert!(!left.contains(&vertex(1, false)));
    assert_eq!(left.len(), available.len() - 2);
    let chosen = available.iter().find(|f| matches!(f, UnitFix::Parameter(_))).unwrap();
    fix.insert(chosen);
    // One color is left: no parameter fix can change it any more.
    let left = filter_fixes(&left, &fix);
    assert_eq!(left, vec![vertex(0, false), vertex(0, true), vertex(2, false), vertex(2, true)]);
    assert!(bits.len() == 4);
}

#[test]
fn filtering_keeps_one_fix_for_each_set_of_colors_left() {
    let graph = three_variables();
    let fix = PBNFix::new(graph.unit_colors());
    let bits = graph.parameter_variables().clone();
    let mut offered = Vec::new();
    for bit in &bits {
        offered.push(parameter(*bit, false));
        offered.push(parameter(*bit, true));
    }
    let kept = filter_fixes(&offered, &fix);
    assert_eq!(kept.len(), 2);
    // Each survivor is the first of the offered fixes with its effect.
    let unit = graph.unit_colors();
    let effect = |fix: &UnitFix| match fix {
        UnitFix::Parameter(f) => unit.var_select(BddVariable::from_index(f.bdd_var), f.value),
        UnitFix::Vertex(_) => unreachable!(),
    };
    for survivor in &kept {
        let first = offered.iter().find(|f| effect(f) == effect(survivor)).unwrap();
        assert_eq!(first, survivor);
    }
    assert_ne!(effect(&kept[0]), effect(&kept[1]));
}

#[test]
fn fixes_are_listed_vertices_first() {
    let graph = three_variables();
    let bit = graph.parameter_variables()[0];
    let mut fix = PBNFix::new(graph.unit_colors());
    fix.insert(&parameter(bit, true));
    fix.insert(&vertex(2, false));
    fix.insert(&vertex(0, true));
    assert_eq!(list_fixes(&fix), vec![vertex(0, true), vertex(2, false), parameter(bit, true)]);
}

#[test]
fn driver_set_of_the_all_false_fixed_point() {
    let graph = three_variables();
    let kernel = |s: &MeanField, p: &Vec<u32>| step(&graph, s, p);
    let region = all_false_fixed_point(&graph);
    let states = graph.vertices(&region);
    let colors = graph.colors(&region);
    let (fix, probs) = find_driver_set(&graph, 10, true, Some((&states, &colors)), true, &kernel);
    let found = fix.get_driver_set().fixes();
    // Pinning `a` and `b` to `false` lets `c` fall under every color.
    assert_eq!(
        found,
        vec![UnitVertexFix { var_id: 0, value: false }, UnitVertexFix { var_id: 1, value: false }]
    );
    assert!(fix.get_parameter_fixes().is_empty());
    assert_eq!(fix.colors(), colors);
    let last: Vec<f32> = probs.iter().map(|b| f32::from_bits(*b)).collect();
    assert_eq!(last, vec![0.0, 0.0, 0.0]);
    // The driver set alone brings the entropy to zero, at the target state.
    let outcome = ibmfa_entropy(&graph, &fix, 10, true, None, &kernel, None);
    assert_eq!(outcome.entropy, 0);
    assert!(outcome.index < 10);
    assert!(outcome.probabilities.iter().all(|b| f32::from_bits(*b) == 0.0));
    // Every fix of it is needed.
    for single in list_fixes(&fix) {
        let mut without = fix.clone();
        without.remove(&single);
        let outcome = ibmfa_entropy(&graph, &without, 10, false, None, &kernel, None);
        assert!(f32::from_bits(outcome.entropy) > 0.0);
    }
}

#[test]
fn reduction_is_idempotent() {
    let graph = three_variables();
    let kernel = |s: &MeanField, p: &Vec<u32>| step(&graph, s, p);
    let mut fix = PBNFix::new(graph.unit_colors());
    for var_id in 0..3 {
        fix.insert(&vertex(var_id, false));
    }
    let once = reduce_driver_set(fix, &graph, 10, None, &kernel);
    let first = list_fixes(&once);
    // Without `a` the entropy still falls to zero, and `a` is the first
    // such fix; of the two that are left, neither can go.
    assert_eq!(first, vec![vertex(1, false), vertex(2, false)]);
    let twice = reduce_driver_set(once.clone(), &graph, 10, None, &kernel);
    assert_eq!(list_fixes(&twice), first);
}

#[test]
fn reduction_of_no_fixes_is_empty() {
    let graph = three_variables();
    let kernel = |s: &MeanField, p: &Vec<u32>| step(&graph, s, p);
    let reduced = reduce_driver_set(PBNFix::new(graph.unit_colors()), &graph, 10, None, &kernel);
    assert!(list_fixes(&reduced).is_empty());
}

#[test]
fn reduction_drops_the_fix_whose_removal_settles_first() {
    let graph = three_variables();
    // No relaxation has entropy; the one without the second variable
    // settles earliest.
    let kernel = |system: &MeanField, _: &Vec<u32>| {
        let fixed = system.rules.iter().filter(|r| matches!(r, VariableRule::Fixed(_))).count();
        (vec![fixed as u32], 0.0f32.to_bits())
    };
    let mut fix = PBNFix::new(graph.unit_colors());
    fix.insert(&vertex(0, true));
    fix.insert(&vertex(1, true));
    let reduced = reduce_driver_set(fix, &graph, 10, None, &kernel);
    // Without early stop every trial reports all its steps: the first fix
    // goes first, and then the second.
    assert!(list_fixes(&reduced).is_empty());
}

#[test]
fn build_without_candidates_fixes_nothing() {
    let graph = three_variables();
    let kernel = |s: &MeanField, p: &Vec<u32>| step(&graph, s, p);
    let nothing = graph.empty_colored_vertices();
    let explicit = graph.explicit_pupdate_functions(&graph.unit_colors());
    let (fix, probs) =
        build_driver_set(&graph, 10, graph.unit_colors(), Some(&nothing), Some(&explicit), &kernel);
    assert_eq!(fix.get_driver_set().len(), 0);
    assert!(probs.is_empty());
}

#[test]
fn unconstrained_search_ends_with_zero_entropy() {
    let graph = three_variables();
    let kernel = |s: &MeanField, p: &Vec<u32>| step(&graph, s, p);
    let (fix, probs) = find_driver_set(&graph, 10, false, None, true, &kernel);
    assert!(fix.get_driver_set().len() > 0);
    assert!(probs.iter().all(|b| {
        let p = f32::from_bits(*b);
        p == 0.0 || p == 1.0
    }));
    let outcome = ibmfa_entropy(&graph, &fix, 10, true, None, &kernel, None);
    assert_eq!(outcome.entropy, 0);
}

#[test]
fn partition_covers_the_colors_without_overlap() {
    let graph = three_variables();
    let kernel = |s: &MeanField, p: &Vec<u32>| step(&graph, s, p);
    let region = all_false_fixed_point(&graph);
    let states = graph.vertices(&region);
    let colors = graph.colors(&region);
    let buckets = colors_partition(&graph, 10, true, (&states, &colors), &kernel);
    assert!(!buckets.is_empty());
    let mut union = graph.empty_colored_vertices();
    for (i, (bucket, driver_set)) in buckets.iter().enumerate() {
        assert!(!bucket.is_false());
        assert!(union.and(bucket).is_false());
        union = union.or(bucket);
        for (_, other) in &buckets[i + 1..] {
            assert!(!driver_set.equals(other));
        }
    }
    assert_eq!(union, colors);
}

#[test]
fn partition_tells_conjunction_from_disjunction() {
    let graph = three_variables();
    let kernel = |s: &MeanField, p: &Vec<u32>| step(&graph, s, p);
    let region = all_false_fixed_point(&graph);
    let states = graph.vertices(&region);
    let colors = graph.colors(&region);
    let buckets = colors_partition(&graph, 10, true, (&states, &colors), &kernel);
    // `b` keeps itself and must be pinned. Under conjunction that is
    // enough: `c` falls and takes `a` along. Under disjunction `a` must be
    // pinned as well.
    let mut sets: Vec<Vec<UnitVertexFix>> = buckets.iter().map(|(_, d)| d.fixes()).collect();
    sets.sort_by_key(|fixes| fixes.len());
    assert_eq!(
        sets,
        vec![
            vec![UnitVertexFix { var_id: 1, value: false }],
            vec![
                UnitVertexFix { var_id: 0, value: false },
                UnitVertexFix { var_id: 1, value: false }
            ]
        ]
    );
    assert_eq!(buckets[0].0.or(&buckets[1].0), colors);
    assert!(buckets[0].0.and(&buckets[1].0).is_false());
}

#[test]
fn partition_of_no_colors_is_empty() {
    let graph = three_variables();
    let kernel = |s: &MeanField, p: &Vec<u32>| step(&graph, s, p);
    let nothing = graph.empty_colored_vertices();
    let states = graph.unit_colored_vertices();
    assert!(colors_partition(&graph, 10, true, (&states, &nothing), &kernel).is_empty());
}
