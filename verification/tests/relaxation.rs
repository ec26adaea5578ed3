use std::cell::RefCell;

use biodivine_lib_param_bn::BooleanNetwork;
use pbn_ibmfa::driver_set::fixes::{PBNFix, UnitFix, UnitVertexFix};
use pbn_ibmfa::ibmfa_computations::{
    comes_before, entropy_is_zero, entropy_key, ibmfa_entropy, initial_probabilities, mean_field,
    minimize_entropy, relax, MeanField, VariableRule, PROBABILITY_HALF, PROBABILITY_ONE,
    PROBABILITY_ZERO,
};
use pbn_ibmfa::symbolic_sync_graph::SymbSyncGraph;

fn three_variables() -> SymbSyncGraph {
    let text = "a -> a\nc -> a\na -> b\nb -> b\na -> c\nb -> c\n$a: a & c\n$b: a | b\n";
    SymbSyncGraph::new(BooleanNetwork::try_from(text).unwrap()).unwrap()
}

fn entropy(probs: &[f32]) -> f32 {
    probs
        .iter()
        .map(|p| {
            let p = p.clamp(0.0, 1.0);
            if p == 0.0 || p == 1.0 {
                0.0
            } else {
                -p * p.log2() - (1.0 - p) * (1.0 - p).log2()
            }
        })
        .sum::<f32>()
        / probs.len() as f32
}

/// One step of the mean-field relaxation in single precision.
fn step(graph: &SymbSyncGraph, system: &MeanField, probs: &Vec<u32>) -> (Vec<u32>, u32) {
    let index = graph.get_var_index();
    let now: Vec<f32> = probs.iter().map(|bits| f32::from_bits(*bits)).collect();
    let next: Vec<f32> = system
        .rules
        .iter()
        .map(|rule| match rule {
            VariableRule::Fixed(value) => {
                if *value {
                    1.0
                } else {
                    0.0
                }
            }
            VariableRule::Free(forms) => {
                forms
                    .iter()
                    .map(|clauses| {
                        clauses
                            .iter()
                            .map(|clause| {
                                clause
                                    .iter()
                                    .map(|(var, value)| {
                                        let one = now[index[*var].unwrap()];
                                        if *value {
                                            one
                                        } else {
                                            1.0 - one
                                        }
                                    })
                                    .product::<f32>()
                            })
                            .sum::<f32>()
                    })
                    .sum::<f32>()
                    / forms.len() as f32
            }
        })
        .collect();
    let bits = next.iter().map(|p| p.to_bits()).collect();
    (bits, entropy(&next).to_bits())
}

fn floats(bits: &[u32]) -> Vec<f32> {
    bits.iter().map(|b| f32::from_bits(*b)).collect()
}

#[test]
fn probability_patterns_are_those_of_the_numbers() {
    assert_eq!(PROBABILITY_ZERO, 0.0f32.to_bits());
    assert_eq!(PROBABILITY_HALF, 0.5f32.to_bits());
    assert_eq!(PROBABILITY_ONE, 1.0f32.to_bits());
}

#[test]
fn zero_entropy_is_either_zero() {
    assert!(entropy_is_zero(0.0f32.to_bits()));
    assert!(entropy_is_zero((-0.0f32).to_bits()));
    assert!(!entropy_is_zero(1.0f32.to_bits()));
    assert!(!entropy_is_zero(f32::MIN_POSITIVE.to_bits()));
    assert!(!entropy_is_zero(f32::NAN.to_bits()));
}

#[test]
fn entropy_key_orders_as_the_total_order_of_the_numbers() {
    let values = [
        f32::NEG_INFINITY,
        -2.5,
        -1.0,
        -0.0,
        0.0,
        1.0e-30,
        0.25,
        0.5,
        1.0,
        3.0,
        f32::INFINITY,
        f32::NAN,
    ];
    for a in values {
        for b in values {
            assert_eq!(
                entropy_key(a.to_bits()).cmp(&entropy_key(b.to_bits())),
                a.total_cmp(&b),
                "{a} against {b}"
            );
        }
    }
    assert_eq!(entropy_key(0), 0);
    assert_eq!(entropy_key(1.0f32.to_bits()), 0x3F80_0000);
    assert_eq!(entropy_key((-0.0f32).to_bits()), -1);
}

#[test]
fn lower_entropy_comes_first_then_earlier_settling() {
    let low = 0.25f32.to_bits();
    let high = 0.5f32.to_bits();
    assert!(comes_before(low, 9, high, 1));
    assert!(!comes_before(high, 1, low, 9));
    assert!(comes_before(low, 3, low, 4));
    assert!(!comes_before(low, 4, low, 3));
    assert!(!comes_before(low, 4, low, 4));
}

#[test]
fn relaxation_without_steps_returns_the_start() {
    let system = MeanField { rules: Vec::new() };
    let kernel = |_: &MeanField, _: &Vec<u32>| -> (Vec<u32>, u32) { panic!("no step is due") };
    let outcome = relax(&system, vec![7, 8], 0, true, &kernel);
    assert_eq!(outcome.entropy, 0);
    assert_eq!(outcome.probabilities, vec![7, 8]);
    assert_eq!(outcome.index, 0);
}

/// A kernel that counts its calls in the probabilities and reports the
/// entropies of a fixed list, the last of them for ever.
fn scripted(entropies: Vec<f32>) -> impl Fn(&MeanField, &Vec<u32>) -> (Vec<u32>, u32) {
    move |_: &MeanField, probs: &Vec<u32>| {
        let call = probs[0] as usize;
        let entropy = entropies[call.min(entropies.len() - 1)];
        (vec![probs[0] + 1], entropy.to_bits())
    }
}

#[test]
fn relaxation_stops_after_two_zero_entropies_in_a_row() {
    let system = MeanField { rules: Vec::new() };
    let kernel = scripted(vec![0.5, 0.0, 0.25, 0.0, 0.0, 0.0]);
    let outcome = relax(&system, vec![0], 10, true, &kernel);
    // The steps 3 and 4 (counted from zero) end with zero entropy.
    assert_eq!(outcome.probabilities, vec![5]);
    assert_eq!(outcome.entropy, 0);
    assert_eq!(outcome.index, 3);
}

#[test]
fn relaxation_runs_all_steps_without_early_stop() {
    let system = MeanField { rules: Vec::new() };
    let kernel = scripted(vec![0.5, 0.0, 0.0, 0.0]);
    let outcome = relax(&system, vec![0], 10, false, &kernel);
    assert_eq!(outcome.probabilities, vec![10]);
    assert_eq!(outcome.entropy, 0);
    assert_eq!(outcome.index, 10);
}

#[test]
fn relaxation_that_does_not_settle_reports_the_number_of_steps() {
    let system = MeanField { rules: Vec::new() };
    let kernel = scripted(vec![0.5, 0.0, 0.5, 0.0, 0.5, 0.0]);
    let outcome = relax(&system, vec![0], 5, true, &kernel);
    assert_eq!(outcome.probabilities, vec![5]);
    assert_eq!(f32::from_bits(outcome.entropy), 0.5);
    assert_eq!(outcome.index, 5);
}

#[test]
fn relaxation_settling_at_the_first_two_steps_reports_step_zero() {
    let system = MeanField { rules: Vec::new() };
    let kernel = scripted(vec![0.0]);
    let outcome = relax(&system, vec![0], 10, true, &kernel);
    assert_eq!(outcome.probabilities, vec![2]);
    assert_eq!(outcome.index, 0);
}

#[test]
fn initial_probabilities_pin_the_fixed_variables() {
    let graph = three_variables();
    let mut fix = PBNFix::new(graph.unit_colors());
    fix.insert(&UnitFix::Vertex(UnitVertexFix { var_id: 0, value: true }));
    fix.insert(&UnitFix::Vertex(UnitVertexFix { var_id: 2, value: false }));
    assert_eq!(floats(&initial_probabilities(&fix, 3)), vec![1.0, 0.5, 0.0]);
}

#[test]
fn mean_field_walks_every_instantiation_of_a_free_rule() {
    let graph = three_variables();
    let mut fix = PBNFix::new(graph.unit_colors());
    fix.insert(&UnitFix::Vertex(UnitVertexFix { var_id: 1, value: true }));
    let explicit = graph.explicit_pupdate_functions(&fix.colors());
    assert_eq!(explicit.len(), 3);
    // The rules of `a` and `b` have no parametrization bit: one instantiation.
    assert_eq!(explicit[0].len(), 1);
    assert_eq!(explicit[1].len(), 1);
    // The rule of `c` is a conjunction or a disjunction.
    assert_eq!(explicit[2].len(), 2);
    let system = mean_field(&fix, &explicit);
    assert_eq!(system.rules.len(), 3);
    assert!(matches!(system.rules[1], VariableRule::Fixed(true)));
    match &system.rules[0] {
        VariableRule::Free(forms) => {
            assert_eq!(forms.len(), 1);
            // `a & c` is one clause of two positive literals.
            assert_eq!(forms[0].len(), 1);
            let mut clause = forms[0][0].clone();
            clause.sort();
            let a = graph.state_variables()[0];
            let c = graph.state_variables()[2];
            assert_eq!(clause, vec![(a, true), (c, true)]);
        }
        _ => panic!("`a` is free"),
    }
    match &system.rules[2] {
        VariableRule::Free(forms) => assert_eq!(forms.len(), 2),
        _ => panic!("`c` is free"),
    }
}

#[test]
fn one_step_averages_over_the_instantiations() {
    let graph = three_variables();
    let fix = PBNFix::new(graph.unit_colors());
    let kernel = |s: &MeanField, p: &Vec<u32>| step(&graph, s, p);
    let outcome = ibmfa_entropy(&graph, &fix, 1, false, None, &kernel, None);
    // a' = a & c = 1/4; b' = a | b = 3/4; c' is the mean of a & b and
    // a | b, that is of 1/4 and 3/4.
    assert_eq!(floats(&outcome.probabilities), vec![0.25, 0.75, 0.5]);
    assert_eq!(outcome.index, 1);
    let expected = entropy(&[0.25, 0.75, 0.5]);
    assert_eq!(f32::from_bits(outcome.entropy), expected);
}

#[test]
fn relaxation_of_a_pinned_state_settles_at_once() {
    let graph = three_variables();
    let mut fix = PBNFix::new(graph.unit_colors());
    for var_id in 0..3 {
        fix.insert(&UnitFix::Vertex(UnitVertexFix { var_id, value: false }));
    }
    let kernel = |s: &MeanField, p: &Vec<u32>| step(&graph, s, p);
    let outcome = ibmfa_entropy(&graph, &fix, 10, true, None, &kernel, None);
    assert_eq!(floats(&outcome.probabilities), vec![0.0, 0.0, 0.0]);
    assert_eq!(outcome.entropy, 0);
    assert_eq!(outcome.index, 0);
}

#[test]
fn relaxation_starts_from_the_given_probabilities() {
    let graph = three_variables();
    let fix = PBNFix::new(graph.unit_colors());
    let kernel = |s: &MeanField, p: &Vec<u32>| step(&graph, s, p);
    let start: Vec<u32> = [1.0f32, 1.0, 1.0].iter().map(|p| p.to_bits()).collect();
    let outcome = ibmfa_entropy(&graph, &fix, 3, false, None, &kernel, Some(start));
    assert_eq!(floats(&outcome.probabilities), vec![1.0, 1.0, 1.0]);
    assert_eq!(outcome.entropy, 0);
    assert_eq!(outcome.index, 3);
}

#[test]
fn explicit_forms_at_hand_give_the_same_relaxation() {
    let graph = three_variables();
    let fix = PBNFix::new(graph.unit_colors());
    let kernel = |s: &MeanField, p: &Vec<u32>| step(&graph, s, p);
    let explicit = graph.explicit_pupdate_functions(&fix.colors());
    let with = ibmfa_entropy(&graph, &fix, 4, true, Some(&explicit), &kernel, None);
    let without = ibmfa_entropy(&graph, &fix, 4, true, None, &kernel, None);
    assert_eq!(with.probabilities, without.probabilities);
    assert_eq!(with.entropy, without.entropy);
    assert_eq!(with.index, without.index);
}

#[test]
fn minimize_entropy_finds_nothing_among_no_fixes() {
    let graph = three_variables();
    let mut fix = PBNFix::new(graph.unit_colors());
    let kernel = |s: &MeanField, p: &Vec<u32>| step(&graph, s, p);
    assert!(minimize_entropy(&graph, 10, &mut fix, &Vec::new(), None, &kernel).is_none());
}

#[test]
fn minimize_entropy_picks_the_lowest_and_restores_the_state() {
    let graph = three_variables();
    let mut fix = PBNFix::new(graph.unit_colors());
    let tried: RefCell<Vec<Vec<Option<bool>>>> = RefCell::new(Vec::new());
    // The entropy is the number of free variables; the probabilities tell
    // which variable was pinned.
    let kernel = |system: &MeanField, _: &Vec<u32>| {
        let pinned: Vec<Option<bool>> = system
            .rules
            .iter()
            .map(|rule| match rule {
                VariableRule::Fixed(value) => Some(*value),
                VariableRule::Free(_) => None,
            })
            .collect();
        let free = pinned.iter().filter(|p| p.is_none()).count();
        let probs = pinned.iter().map(|p| if p.is_some() { 1 } else { 0 }).collect();
        tried.borrow_mut().push(pinned);
        (probs, (free as f32).to_bits())
    };
    let available = vec![
        UnitFix::Vertex(UnitVertexFix { var_id: 2, value: true }),
        UnitFix::Vertex(UnitVertexFix { var_id: 0, value: false }),
    ];
    let (best, entropy, probs) =
        minimize_entropy(&graph, 1, &mut fix, &available, None, &kernel).unwrap();
    // Both fixes leave two variables free: the first of them wins.
    assert_eq!(best, available[0]);
    assert_eq!(f32::from_bits(entropy), 2.0);
    assert_eq!(probs, vec![0, 0, 1]);
    assert_eq!(
        *tried.borrow(),
        vec![vec![None, None, Some(true)], vec![Some(false), None, None]]
    );
    assert_eq!(fix.get_driver_set().len(), 0);
    assert_eq!(fix.colors(), graph.unit_colors());
}
