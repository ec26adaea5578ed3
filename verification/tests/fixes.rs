use biodivine_lib_param_bn::BooleanNetwork;
use pbn_ibmfa::driver_set::fixes::{DriverSet, PBNFix, UnitFix, UnitParameterFix, UnitVertexFix};
use pbn_ibmfa::symbolic_sync_graph::SymbSyncGraph;

fn three_variables() -> SymbSyncGraph {
    let text = "a -> a\nc -> a\na -> b\nb -> b\na -> c\nb -> c\n$a: a & c\n$b: a | b\n";
    SymbSyncGraph::new(BooleanNetwork::try_from(text).unwrap()).unwrap()
}

fn vertex(var_id: usize, value: bool) -> UnitFix {
    UnitFix::Vertex(UnitVertexFix { var_id, value })
}

fn parameter(bdd_var: usize, value: bool) -> UnitFix {
    UnitFix::Parameter(UnitParameterFix { bdd_var, value })
}

#[test]
fn driver_set_starts_empty() {
    let set = DriverSet::new();
    assert_eq!(set.len(), 0);
    assert!(set.fixes().is_empty());
    assert_eq!(set.get(0), None);
    assert_eq!(set.get(7), None);
}

#[test]
fn driver_set_lists_fixes_by_variable() {
    let mut set = DriverSet::new();
    set.insert(4, true);
    set.insert(1, false);
    assert_eq!(set.len(), 2);
    assert_eq!(set.get(4), Some(true));
    assert_eq!(set.get(1), Some(false));
    assert_eq!(set.get(0), None);
    assert_eq!(
        set.fixes(),
        vec![
            UnitVertexFix { var_id: 1, value: false },
            UnitVertexFix { var_id: 4, value: true }
        ]
    );
    set.remove(4);
    assert_eq!(set.len(), 1);
    assert_eq!(set.get(4), None);
    assert_eq!(set.fixes(), vec![UnitVertexFix { var_id: 1, value: false }]);
}

#[test]
fn driver_sets_are_equal_by_content() {
    let mut first = DriverSet::new();
    let mut second = DriverSet::new();
    assert!(first.equals(&second));
    first.insert(5, true);
    assert!(!first.equals(&second));
    assert!(!second.equals(&first));
    second.insert(5, true);
    assert!(first.equals(&second));
    first.remove(5);
    assert!(!first.equals(&second));
    second.remove(5);
    // A driver set that once held a fix equals one that never did.
    assert!(first.equals(&DriverSet::new()));
    second.insert(5, false);
    first.insert(5, true);
    assert!(!first.equals(&second));
    assert!(first.clone().equals(&first));
}

#[test]
fn new_state_admits_all_colors() {
    let graph = three_variables();
    let unit = graph.unit_colors();
    let fix = PBNFix::new(unit.clone());
    assert!(fix.get_colors_fix().is_true());
    assert_eq!(fix.colors(), unit);
    assert_eq!(*fix.unit_colors(), unit);
    assert!(fix.get_parameter_fixes().is_empty());
    assert_eq!(fix.get_driver_set().len(), 0);
    assert_eq!(fix.get_vertex(0), None);
}

#[test]
fn vertex_fix_is_inserted_and_removed() {
    let graph = three_variables();
    let mut fix = PBNFix::new(graph.unit_colors());
    fix.insert(&vertex(2, true));
    assert_eq!(fix.get_vertex(2), Some(true));
    assert_eq!(fix.get_vertex(1), None);
    assert_eq!(fix.colors(), graph.unit_colors());
    fix.remove(&vertex(2, true));
    assert_eq!(fix.get_vertex(2), None);
    assert_eq!(fix.get_driver_set().len(), 0);
}

#[test]
fn parameter_fix_restricts_the_colors_and_is_undone() {
    let graph = three_variables();
    let unit = graph.unit_colors();
    let bit = graph.parameter_variables()[1];
    let mut fix = PBNFix::new(unit.clone());
    fix.insert(&parameter(bit, true));
    assert_eq!(fix.get_parameter_fixes(), &vec![UnitParameterFix { bdd_var: bit, value: true }]);
    let restricted = fix.colors();
    assert_eq!(restricted, unit.var_select(biodivine_lib_bdd::BddVariable::from_index(bit), true));
    assert!(!restricted.is_false());
    assert_ne!(restricted, unit);
    fix.remove(&parameter(bit, true));
    assert!(fix.get_parameter_fixes().is_empty());
    assert!(fix.get_colors_fix().is_true());
    assert_eq!(fix.colors(), unit);
}

#[test]
fn parameter_fixes_are_removed_in_any_order() {
    let graph = three_variables();
    let unit = graph.unit_colors();
    let first = graph.parameter_variables()[0];
    let second = graph.parameter_variables()[3];
    let mut fix = PBNFix::new(unit.clone());
    fix.insert(&parameter(first, false));
    let with_first = fix.colors();
    fix.insert(&parameter(second, true));
    fix.remove(&parameter(first, false));
    assert_eq!(
        fix.get_parameter_fixes(),
        &vec![UnitParameterFix { bdd_var: second, value: true }]
    );
    fix.insert(&parameter(first, false));
    fix.remove(&parameter(second, true));
    assert_eq!(fix.colors(), with_first);
    fix.remove(&parameter(first, false));
    assert_eq!(fix.colors(), unit);
}

#[test]
fn clearing_drops_the_parameter_fixes_only() {
    let graph = three_variables();
    let unit = graph.unit_colors();
    let bit = graph.parameter_variables()[2];
    let mut fix = PBNFix::new(unit.clone());
    fix.insert(&vertex(0, false));
    fix.insert(&parameter(bit, false));
    fix.clear_colors_fix();
    assert!(fix.get_parameter_fixes().is_empty());
    assert_eq!(fix.colors(), unit);
    assert_eq!(fix.get_vertex(0), Some(false));
}

#[test]
fn clone_holds_the_same_fixes() {
    let graph = three_variables();
    let bit = graph.parameter_variables()[2];
    let mut fix = PBNFix::new(graph.unit_colors());
    fix.insert(&vertex(1, true));
    fix.insert(&parameter(bit, true));
    let copy = fix.clone();
    fix.remove(&vertex(1, true));
    assert_eq!(copy.get_vertex(1), Some(true));
    assert_eq!(copy.get_parameter_fixes(), &vec![UnitParameterFix { bdd_var: bit, value: true }]);
    assert_eq!(copy.colors(), fix.colors());
}
