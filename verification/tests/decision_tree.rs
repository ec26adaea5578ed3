use biodivine_lib_bdd::{Bdd, BddVariable};
use biodivine_lib_param_bn::BooleanNetwork;
use pbn_ibmfa::decision_tree::{
    best_decision_par, cost_less, decision_tree_from_partition, DecisionTree, SplitCounts,
    UnresolvedNode,
};
use pbn_ibmfa::driver_set::fixes::{DriverSet, UnitVertexFix};
use pbn_ibmfa::symbolic_sync_graph::SymbSyncGraph;

fn three_variables() -> SymbSyncGraph {
    let text = "a -> a\nc -> a\na -> b\nb -> b\na -> c\nb -> c\n$a: a & c\n$b: a | b\n";
    SymbSyncGraph::new(BooleanNetwork::try_from(text).unwrap()).unwrap()
}

/// The information entropy of the buckets within one side of a split.
fn side_entropy(total: u64, buckets: &[u64]) -> f64 {
    let e = buckets
        .iter()
        .map(|bits| {
            let c = f64::from_bits(*bits);
            if c == 0.0 {
                0.0
            } else {
                c * c.log2()
            }
        })
        .sum::<f64>();
    let total = f64::from_bits(total);
    if total == 0.0 {
        0.0
    } else {
        total.log2() - e / total
    }
}

fn score(counts: &SplitCounts) -> u64 {
    let cost = side_entropy(counts.low_total, &counts.low_buckets)
        + side_entropy(counts.high_total, &counts.high_buckets);
    cost.to_bits()
}

fn driver_set(fixes: &[(usize, bool)]) -> DriverSet {
    let mut set = DriverSet::new();
    for (var, value) in fixes {
        set.insert(*var, *value);
    }
    set
}

fn leaf(tree: &DecisionTree) -> Vec<UnitVertexFix> {
    match tree {
        DecisionTree::Leaf(set) => set.fixes(),
        DecisionTree::Node(_) => panic!("not a leaf"),
    }
}

#[test]
fn costs_are_ordered_as_numbers() {
    let values = [f64::NEG_INFINITY, -3.0, -0.5, 0.0, 1.0e-300, 0.5, 1.0, 7.0, f64::INFINITY];
    for a in values {
        for b in values {
            assert_eq!(cost_less(a.to_bits(), b.to_bits()), a < b, "{a} against {b}");
        }
    }
    assert!(!cost_less((-0.0f64).to_bits(), 0.0f64.to_bits()));
    assert!(!cost_less(0.0f64.to_bits(), (-0.0f64).to_bits()));
}

#[test]
fn tree_without_buckets_is_an_empty_leaf() {
    let graph = three_variables();
    let tree =
        decision_tree_from_partition(&graph.unit_colors(), &Vec::new(), graph.symbolic_context(), &score);
    assert!(leaf(&tree).is_empty());
}

#[test]
fn tree_of_one_bucket_is_its_leaf() {
    let graph = three_variables();
    let colors = graph.unit_colors();
    let buckets = vec![(colors.clone(), driver_set(&[(0, false), (2, true)]))];
    let tree = decision_tree_from_partition(&colors, &buckets, graph.symbolic_context(), &score);
    assert_eq!(
        leaf(&tree),
        vec![UnitVertexFix { var_id: 0, value: false }, UnitVertexFix { var_id: 2, value: true }]
    );
}

/// The parametrization bit in which the two valid rules of `c` differ
/// first, with the colors in which it is `false` and those in which it is `true`.
fn differing_bit(graph: &SymbSyncGraph) -> (usize, Bdd, Bdd) {
    let unit = graph.unit_colors();
    for bit in graph.parameter_variables() {
        let low = unit.var_select(BddVariable::from_index(*bit), false);
        let high = unit.var_select(BddVariable::from_index(*bit), true);
        if !low.is_false() && !high.is_false() {
            return (*bit, low, high);
        }
    }
    panic!("the colors differ somewhere");
}

#[test]
fn tree_of_two_buckets_asks_for_the_bit_that_tells_them_apart() {
    let graph = three_variables();
    let colors = graph.unit_colors();
    let (bit, low, high) = differing_bit(&graph);
    let buckets =
        vec![(high.clone(), driver_set(&[(1, true)])), (low.clone(), driver_set(&[(0, false)]))];
    let tree = decision_tree_from_partition(&colors, &buckets, graph.symbolic_context(), &score);
    match &tree {
        DecisionTree::Node(node) => {
            let question = node.get_fix();
            assert_eq!(
                *question,
                graph.symbolic_context().bdd_variable_set().mk_var(BddVariable::from_index(bit))
            );
            let (for_false, for_true) = node.get_childs();
            assert_eq!(leaf(for_false), vec![UnitVertexFix { var_id: 0, value: false }]);
            assert_eq!(leaf(for_true), vec![UnitVertexFix { var_id: 1, value: true }]);
        }
        DecisionTree::Leaf(_) => panic!("two buckets need a question"),
    }
}

#[test]
fn best_split_is_the_first_of_the_cheapest() {
    let graph = three_variables();
    let colors = graph.unit_colors();
    let (bit, low, high) = differing_bit(&graph);
    let node = UnresolvedNode {
        colors: colors.clone(),
        driver_sets: vec![(low.clone(), driver_set(&[(0, true)])), (high.clone(), driver_set(&[]))],
    };
    let pars = graph.parameter_variables().clone();
    // With a constant cost the first variable wins.
    let constant = |_: &SplitCounts| 1.0f64.to_bits();
    let (place, _, _) =
        best_decision_par(&pars, &node, graph.symbolic_context(), &constant).unwrap();
    assert_eq!(place, 0);
    // With the entropy as cost a variable that tells the buckets apart wins.
    let (place, for_false, for_true) =
        best_decision_par(&pars, &node, graph.symbolic_context(), &score).unwrap();
    assert_eq!(pars[place], bit);
    assert_eq!(for_false.colors, low);
    assert_eq!(for_true.colors, high);
    assert_eq!(for_false.driver_sets.len(), 1);
    assert_eq!(for_false.driver_sets[0].0, low);
    assert_eq!(for_true.driver_sets.len(), 1);
    assert_eq!(for_true.driver_sets[0].0, high);
    assert!(best_decision_par(&Vec::new(), &node, graph.symbolic_context(), &score).is_none());
}

#[test]
fn scorer_sees_the_numbers_of_colors() {
    let graph = three_variables();
    let colors = graph.unit_colors();
    let (bit, low, high) = differing_bit(&graph);
    let node = UnresolvedNode {
        colors: colors.clone(),
        driver_sets: vec![(colors.clone(), driver_set(&[]))],
    };
    let seen = std::cell::RefCell::new(Vec::new());
    let recording = |counts: &SplitCounts| {
        seen.borrow_mut().push((
            f64::from_bits(counts.low_total),
            counts.low_buckets.iter().map(|b| f64::from_bits(*b)).collect::<Vec<f64>>(),
            f64::from_bits(counts.high_total),
            counts.high_buckets.iter().map(|b| f64::from_bits(*b)).collect::<Vec<f64>>(),
        ));
        0u64
    };
    best_decision_par(&vec![bit], &node, graph.symbolic_context(), &recording).unwrap();
    assert_eq!(
        *seen.borrow(),
        vec![(low.cardinality(), vec![low.cardinality()], high.cardinality(), vec![high.cardinality()])]
    );
}

#[test]
fn tree_asks_for_a_bit_on_which_the_colors_as_a_whole_do_not_decide() {
    let graph = three_variables();
    let context = graph.symbolic_context();
    let everything = context.mk_constant(true);
    let bit = graph.parameter_variables()[0];
    let high = context.bdd_variable_set().mk_var(BddVariable::from_index(bit));
    let low = high.not();
    let buckets =
        vec![(low.clone(), driver_set(&[(0, false)])), (high.clone(), driver_set(&[(0, true)]))];
    let tree = decision_tree_from_partition(&everything, &buckets, context, &score);
    match &tree {
        DecisionTree::Node(node) => {
            assert_eq!(*node.get_fix(), high);
            let (for_false, for_true) = node.get_childs();
            assert_eq!(leaf(for_false), vec![UnitVertexFix { var_id: 0, value: false }]);
            assert_eq!(leaf(for_true), vec![UnitVertexFix { var_id: 0, value: true }]);
        }
        DecisionTree::Leaf(_) => panic!("two buckets need a question"),
    }
}

/// The driver set at the leaf to which the color leads.
fn lookup(tree: &DecisionTree, color: &biodivine_lib_bdd::BddValuation) -> Vec<UnitVertexFix> {
    let mut node = tree;
    while let DecisionTree::Node(inner) = node {
        let (for_false, for_true) = inner.get_childs();
        node = if inner.get_fix().eval_in(color) { for_true } else { for_false };
    }
    leaf(node)
}

#[test]
fn tree_leads_every_color_to_the_driver_set_of_its_bucket() {
    let graph = three_variables();
    let context = graph.symbolic_context();
    let everything = context.mk_constant(true);
    let set = context.bdd_variable_set();
    let bits = graph.parameter_variables();
    let p = set.mk_var(BddVariable::from_index(bits[0]));
    let q = set.mk_var(BddVariable::from_index(bits[1]));
    let buckets = vec![
        (p.and(&q), driver_set(&[(0, true)])),
        (p.and(&q.not()), driver_set(&[(1, true)])),
        (p.not(), driver_set(&[(2, true)])),
    ];
    let tree = decision_tree_from_partition(&everything, &buckets, context, &score);
    for (colors, wanted) in &buckets {
        for color in colors.sat_valuations() {
            assert_eq!(lookup(&tree, &color), wanted.fixes());
        }
    }
}
