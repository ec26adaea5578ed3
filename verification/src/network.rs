//! The network model and its symbolic encoding.
//!
//! A Boolean network and the symbolic context that encodes it are values of
//! `biodivine_lib_param_bn`. This module states, without proof, what the
//! functions of that crate return; the graph construction is proved from
//! these statements.
use vstd::prelude::*;
use biodivine_lib_bdd::Bdd;
use biodivine_lib_bdd::BddValuation;
use biodivine_lib_bdd::BddVariable;
use biodivine_lib_param_bn::BooleanNetwork;
use biodivine_lib_param_bn::FnUpdate;
use biodivine_lib_param_bn::Monotonicity;
use biodivine_lib_param_bn::VariableId;
use biodivine_lib_param_bn::symbolic_async_graph::SymbolicContext;
use crate::encoding::is_nameable;
use crate::bdd::{
    ascending, bdd_valuations, bdd_wf, bdd_width, ignores, index_set, literal, valuation_space,
};

verus! {

#[verifier::external_type_specification]
#[verifier::external_body]
pub struct ExBooleanNetwork(BooleanNetwork);

#[verifier::external_type_specification]
#[verifier::external_body]
pub struct ExSymbolicContext(SymbolicContext);

/// For each variable of a network, whether it has an explicit update rule.
pub uninterp spec fn network_rules(bn: BooleanNetwork) -> Seq<bool>;

/// For each variable of a network, its regulators in ascending order.
pub uninterp spec fn network_regulators(bn: BooleanNetwork) -> Seq<Seq<usize>>;

/// The declared regulations of a network, in their order.
pub uninterp spec fn network_declared(bn: BooleanNetwork) -> Seq<Regulation>;

/// For each variable of a network, the variable that its update rule
/// repeats, if the rule is nothing but a variable.
pub uninterp spec fn network_copies(bn: BooleanNetwork) -> Seq<Option<usize>>;

/// The names of the variables of a network, in the order of the variables.
pub uninterp spec fn network_names(bn: BooleanNetwork) -> Seq<Seq<char>>;

/// The names of the declared functions of a network, in their order.
pub uninterp spec fn network_function_names(bn: BooleanNetwork) -> Seq<Seq<char>>;

/// The numbers of arguments of the declared functions of a network, in
/// their order.
pub uninterp spec fn network_function_arities(bn: BooleanNetwork) -> Seq<u32>;

/// Whether the network has an encoding: whether the encoding, asked for one
/// extra variable per network variable, accepts it.
pub uninterp spec fn encodable(bn: BooleanNetwork) -> bool;

/// For each variable of a network, the valuations under which its update
/// rule yields `true`, over the symbolic variables of the context that
/// encodes the network; for a variable without an explicit rule the rule is
/// the parametrization table of the variable.
pub uninterp spec fn network_rule_sets(bn: BooleanNetwork) -> Seq<Set<Seq<bool>>>;

/// The context that encodes a network with one extra symbolic variable for
/// each network variable.
pub uninterp spec fn encoding_of(bn: BooleanNetwork) -> SymbolicContext;

/// The number of symbolic variables of a context.
pub uninterp spec fn context_width(ctx: SymbolicContext) -> nat;

/// The symbolic variable of each network variable.
pub uninterp spec fn context_state_variables(ctx: SymbolicContext) -> Seq<usize>;

/// The extra symbolic variable of each network variable.
pub uninterp spec fn context_extra_variables(ctx: SymbolicContext) -> Seq<usize>;

/// The symbolic variables that stand for parametrization bits.
pub uninterp spec fn context_parameter_variables(ctx: SymbolicContext) -> Seq<usize>;

/// The direction that a regulation is declared to have.
#[derive(Debug, Clone, Copy, PartialEq, Eq, Structural)]
pub enum Sign {
    Activation,
    Inhibition,
}

/// A declared regulation: `regulator` acts on `target`.
#[derive(Debug, Clone, Copy, PartialEq, Eq, Structural)]
pub struct Regulation {
    pub regulator: usize,
    pub target: usize,
    pub observable: bool,
    pub monotonicity: Option<Sign>,
}

/// The three lists name every symbolic variable below `width` exactly once.
pub open spec fn is_layout(
    state: Seq<usize>,
    extra: Seq<usize>,
    parameters: Seq<usize>,
    width: nat,
) -> bool {
    let all = state + extra + parameters;
    &&& all.len() == width
    &&& all.no_duplicates()
    &&& forall|k: int| 0 <= k < all.len() ==> #[trigger] all[k] < width
    &&& forall|j: usize| j < width ==> #[trigger] all.contains(j)
}

/// What holds of the context that encodes a network of `size` variables:
/// each network variable has a state variable and an extra variable, the
/// state variables ascend in the order of the network variables, and the
/// state variables, the extra variables and the parametrization bits are all
/// the symbolic variables.
pub open spec fn context_wf(ctx: SymbolicContext, size: nat) -> bool {
    &&& context_state_variables(ctx).len() == size
    &&& ascending(context_state_variables(ctx))
    &&& context_extra_variables(ctx).len() == size
    &&& is_layout(
        context_state_variables(ctx),
        context_extra_variables(ctx),
        context_parameter_variables(ctx),
        context_width(ctx),
    )
}

/// `BooleanNetwork::num_vars`.
#[verifier::external_body]
pub(crate) fn network_size(bn: &BooleanNetwork) -> (r: usize)
    ensures
        r == network_rules(*bn).len(),
        r == network_regulators(*bn).len(),
        r == network_rule_sets(*bn).len(),
        r == network_copies(*bn).len(),
{
    bn.num_vars()
}

/// `BooleanNetwork::get_update_function`, asked only whether there is one.
/// The outside function panics on a variable that the network lacks.
#[verifier::external_body]
pub(crate) fn network_has_rule(bn: &BooleanNetwork, var: usize) -> (r: bool)
    requires
        var < network_rules(*bn).len(),
    ensures
        r == network_rules(*bn)[var as int],
{
    bn.get_update_function(VariableId::from_index(var)).is_some()
}

/// A regulation of `target` is among `declared`.
pub open spec fn is_regulated(declared: Seq<Regulation>, target: usize) -> bool {
    exists|k: int| 0 <= k < declared.len() && (#[trigger] declared[k]).target == target
}

/// `BooleanNetwork::regulators`, asked only for their number. The regulators
/// of a variable are the regulators of the declared regulations of which it
/// is the target: without such a regulation there is none.
#[verifier::external_body]
pub(crate) fn network_regulator_count(bn: &BooleanNetwork, var: usize) -> (r: usize)
    requires
        var < network_rules(*bn).len(),
    ensures
        r == network_regulators(*bn)[var as int].len(),
        (r == 0) == !is_regulated(network_declared(*bn), var),
{
    bn.regulators(VariableId::from_index(var)).len()
}

/// The regulation with the given ends and demands; `activation` tells the
/// declared direction, if one is declared.
pub fn regulation_of(regulator: usize, target: usize, observable: bool, activation: Option<bool>) -> (r:
    Regulation)
    ensures
        r.regulator == regulator,
        r.target == target,
        r.observable == observable,
        r.monotonicity == match activation {
            Some(true) => Some(Sign::Activation),
            Some(false) => Some(Sign::Inhibition),
            None => None,
        },
{
    let monotonicity = match activation {
        Some(true) => Some(Sign::Activation),
        Some(false) => Some(Sign::Inhibition),
        None => None,
    };
    Regulation { regulator, target, observable, monotonicity }
}

/// `RegulatoryGraph::regulations`: the declared regulations in their order.
/// Both ends of each are variables of the network.
#[verifier::external_body]
pub(crate) fn network_regulations(bn: &BooleanNetwork) -> (r: Vec<Regulation>)
    ensures
        r@ == network_declared(*bn),
        forall|k: int|
            0 <= k < r@.len() ==> (#[trigger] r@[k]).regulator < network_rules(*bn).len()
                && r@[k].target < network_rules(*bn).len(),
{
    bn.as_graph().regulations().map(
        |r|
            regulation_of(
                r.get_regulator().to_index(),
                r.get_target().to_index(),
                r.is_observable(),
                r.get_monotonicity().map(|m| m == Monotonicity::Activation),
            ),
    ).collect()
}

/// Whether a regulation of `target` by `regulator` is among `declared`.
pub open spec fn is_declared(declared: Seq<Regulation>, regulator: usize, target: usize) -> bool {
    exists|k: int|
        0 <= k < declared.len() && (#[trigger] declared[k]).regulator == regulator
            && declared[k].target == target
}

/// The ascending list `list` with `x` put in its place.
pub open spec fn with_regulator(list: Seq<usize>, x: usize) -> Seq<usize> {
    list.filter(|y: usize| y < x).push(x) + list.filter(|y: usize| y > x)
}

/// `RegulatoryGraph::add_regulation`, with both ends given by their
/// variables: it fails exactly if the regulation is declared already, and
/// otherwise appends it to the declared regulations. The regulators of a
/// variable are the regulators of its regulations, sorted. The outside
/// function takes the ends by name; the names are those of the network's own
/// variables.
#[verifier::external_body]
pub(crate) fn network_add_regulation(bn: &mut BooleanNetwork, regulation: &Regulation) -> (r: Result<
    (),
    String,
>)
    requires
        regulation.regulator < network_rules(*old(bn)).len(),
        regulation.target < network_rules(*old(bn)).len(),
    ensures
        r is Ok <==> !is_declared(
            network_declared(*old(bn)),
            regulation.regulator,
            regulation.target,
        ),
        r is Ok ==> network_declared(*final(bn)) == network_declared(*old(bn)).push(*regulation),
        r is Ok ==> network_regulators(*final(bn)) == network_regulators(*old(bn)).update(
            regulation.target as int,
            with_regulator(
                network_regulators(*old(bn))[regulation.target as int],
                regulation.regulator,
            ),
        ),
        r is Ok ==> network_rules(*final(bn)) == network_rules(*old(bn)),
        r is Ok ==> network_copies(*final(bn)) == network_copies(*old(bn)),
        r is Err ==> *final(bn) == *old(bn),
{
    let regulator = bn.get_variable_name(VariableId::from_index(regulation.regulator)).clone();
    let target = bn.get_variable_name(VariableId::from_index(regulation.target)).clone();
    let monotonicity = regulation.monotonicity.map(
        |sign| match sign {
            Sign::Activation => Monotonicity::Activation,
            Sign::Inhibition => Monotonicity::Inhibition,
        },
    );
    bn.as_graph_mut().add_regulation(&regulator, &target, regulation.observable, monotonicity)
}

/// `BooleanNetwork::add_update_function`, with the rule that repeats the
/// variable `source`: it fails exactly if `target` has a rule already or
/// `source` is none of its regulators, and otherwise gives `target` that
/// rule.
#[verifier::external_body]
pub(crate) fn network_add_copy_rule(bn: &mut BooleanNetwork, target: usize, source: usize) -> (r:
    Result<(), String>)
    requires
        target < network_rules(*old(bn)).len(),
        source < network_rules(*old(bn)).len(),
    ensures
        r is Ok <==> !network_rules(*old(bn))[target as int] && network_regulators(
            *old(bn),
        )[target as int].contains(source),
        r is Ok ==> network_rules(*final(bn)) == network_rules(*old(bn)).update(
            target as int,
            true,
        ),
        r is Ok ==> network_copies(*final(bn)) == network_copies(*old(bn)).update(
            target as int,
            Some(source),
        ),
        r is Ok ==> network_regulators(*final(bn)) == network_regulators(*old(bn)),
        r is Ok ==> network_declared(*final(bn)) == network_declared(*old(bn)),
        r is Err ==> *final(bn) == *old(bn),
{
    bn.add_update_function(
        VariableId::from_index(target),
        FnUpdate::Var(VariableId::from_index(source)),
    )
}

/// `BooleanNetwork::get_variable_name` for each variable, each name as its
/// characters.
#[verifier::external_body]
pub(crate) fn network_variable_names(bn: &BooleanNetwork) -> (r: Vec<Vec<char>>)
    ensures
        r.deep_view() == network_names(*bn),
        r@.len() == network_rules(*bn).len(),
{
    bn.variables().map(|v| bn.get_variable_name(v).chars().collect()).collect()
}

/// `BooleanNetwork::get_parameter` and `Parameter::get_name` for each
/// declared function, each name as its characters.
#[verifier::external_body]
pub(crate) fn network_parameter_names(bn: &BooleanNetwork) -> (r: Vec<Vec<char>>)
    ensures
        r.deep_view() == network_function_names(*bn),
{
    bn.parameters().map(|p| bn.get_parameter(p).get_name().chars().collect()).collect()
}

/// `BooleanNetwork::get_parameter` and `Parameter::get_arity` for each
/// declared function.
#[verifier::external_body]
pub(crate) fn network_parameter_arities(bn: &BooleanNetwork) -> (r: Vec<u32>)
    ensures
        r@ == network_function_arities(*bn),
{
    bn.parameters().map(|p| bn.get_parameter(p).get_arity()).collect()
}

/// `SymbolicContext::with_extra_state_variables`, asked for one extra
/// variable per network variable. It fails on a network that needs more
/// symbolic variables than it admits, or that declares a function it does
/// not use; whether it fails depends on the network alone.
///
/// The outside function panics where two symbolic variables get one name,
/// where a name holds a character that the variable set refuses, and where
/// the variable set runs out of numbers. It names the state variable as the
/// network variable, the extra variable with a suffix, and a row of a table
/// as the function with the row in square brackets; the names that it
/// makes up for the tables of variables without a rule differ from one
/// another and from the names of the functions.
#[verifier::external_body]
pub(crate) fn make_context(bn: &BooleanNetwork) -> (r: Result<SymbolicContext, String>)
    requires
        is_nameable(*bn),
    ensures
        (r is Ok) == encodable(*bn),
        r matches Ok(ctx) ==> ctx == encoding_of(*bn) && context_wf(ctx, network_rules(*bn).len()),
{
    let extra = bn.variables().map(|v| (v, 1u16)).collect();
    SymbolicContext::with_extra_state_variables(bn, &extra)
}

/// `SymbolicContext::bdd_variable_set` and `BddVariableSet::num_vars`.
#[verifier::external_body]
pub(crate) fn context_num_vars(ctx: &SymbolicContext) -> (r: usize)
    ensures
        r == context_width(*ctx),
{
    usize::from(ctx.bdd_variable_set().num_vars())
}

/// `SymbolicContext::state_variables`.
#[verifier::external_body]
pub(crate) fn context_state_vars(ctx: &SymbolicContext) -> (r: Vec<usize>)
    ensures
        r@ == context_state_variables(*ctx),
{
    ctx.state_variables().iter().map(|v| v.to_index()).collect()
}

/// `SymbolicContext::all_extra_state_variables`.
#[verifier::external_body]
pub(crate) fn context_extra_vars(ctx: &SymbolicContext) -> (r: Vec<usize>)
    ensures
        r@ == context_extra_variables(*ctx),
{
    ctx.all_extra_state_variables().iter().map(|v| v.to_index()).collect()
}

/// `SymbolicContext::parameter_variables`: the parametrization bits, which
/// are variables of the context's own variable set.
#[verifier::external_body]
pub(crate) fn context_parameter_vars(ctx: &SymbolicContext) -> (r: Vec<usize>)
    ensures
        r@ == context_parameter_variables(*ctx),
        forall|k: int| 0 <= k < r@.len() ==> #[trigger] r@[k] < context_width(*ctx),
{
    ctx.parameter_variables().iter().map(|v| v.to_index()).collect()
}

/// `SymbolicContext::mk_constant`: every valuation, or none.
#[verifier::external_body]
pub(crate) fn context_mk_constant(ctx: &SymbolicContext, value: bool) -> (r: Bdd)
    ensures
        bdd_wf(r),
        bdd_width(r) == context_width(*ctx),
        bdd_valuations(r) == if value {
            valuation_space(context_width(*ctx))
        } else {
            Set::<Seq<bool>>::empty()
        },
{
    ctx.mk_constant(value)
}

/// `BddVariableSet::mk_literal`: the valuations that give `var` the value `value`.
#[verifier::external_body]
pub(crate) fn context_mk_literal(ctx: &SymbolicContext, var: usize, value: bool) -> (r: Bdd)
    requires
        var < context_width(*ctx),
    ensures
        bdd_wf(r),
        bdd_width(r) == context_width(*ctx),
        bdd_valuations(r) == literal(var as int, value, context_width(*ctx)),
{
    ctx.bdd_variable_set().mk_literal(BddVariable::from_index(var), value)
}

/// `BddValuation::all_false` turned into a diagram: the one valuation that
/// gives every variable the value `false`.
#[verifier::external_body]
pub(crate) fn context_mk_all_false(ctx: &SymbolicContext) -> (r: Bdd)
    ensures
        bdd_wf(r),
        bdd_width(r) == context_width(*ctx),
        bdd_valuations(r) == set![Seq::new(context_width(*ctx), |i: int| false)],
{
    Bdd::from(BddValuation::all_false(ctx.bdd_variable_set().num_vars()))
}

/// `SymbolicContext::mk_fn_update_true` on the explicit rule of a variable:
/// the valuations under which the rule yields `true`. The diagram is built
/// from state variables and parametrization bits only, so it does not depend
/// on the extra variables.
#[verifier::external_body]
pub(crate) fn context_explicit_rule(ctx: &SymbolicContext, bn: &BooleanNetwork, var: usize) -> (r:
    Bdd)
    requires
        *ctx == encoding_of(*bn),
        var < network_rules(*bn).len(),
        network_rules(*bn)[var as int],
    ensures
        bdd_wf(r),
        bdd_width(r) == context_width(*ctx),
        bdd_valuations(r) == network_rule_sets(*bn)[var as int],
        ignores(bdd_valuations(r), index_set(context_extra_variables(*ctx))),
{
    ctx.mk_fn_update_true(bn.get_update_function(VariableId::from_index(var)).as_ref().unwrap())
}

/// `SymbolicContext::mk_implicit_function_is_true` on a variable without an
/// explicit rule and on its regulators: the valuations under which the
/// parametrization table of the variable yields `true`. The diagram is built
/// from state variables and parametrization bits only, so it does not depend
/// on the extra variables.
#[verifier::external_body]
pub(crate) fn context_implicit_rule(ctx: &SymbolicContext, bn: &BooleanNetwork, var: usize) -> (r:
    Bdd)
    requires
        *ctx == encoding_of(*bn),
        var < network_rules(*bn).len(),
        !network_rules(*bn)[var as int],
    ensures
        bdd_wf(r),
        bdd_width(r) == context_width(*ctx),
        bdd_valuations(r) == network_rule_sets(*bn)[var as int],
        ignores(bdd_valuations(r), index_set(context_extra_variables(*ctx))),
{
    let id = VariableId::from_index(var);
    ctx.mk_implicit_function_is_true(id, &bn.regulators(id))
}

/// `FnUpdate::collect_parameters` and
/// `SymbolicContext::get_explicit_function_table`: the parametrization bits
/// of the functions that the explicit rule of a variable names.
#[verifier::external_body]
pub(crate) fn context_explicit_parameters(
    ctx: &SymbolicContext,
    bn: &BooleanNetwork,
    var: usize,
) -> (r: Vec<usize>)
    requires
        *ctx == encoding_of(*bn),
        var < network_rules(*bn).len(),
        network_rules(*bn)[var as int],
    ensures
        forall|k: int| 0 <= k < r@.len() ==> #[trigger] r@[k] < context_width(*ctx),
{
    let rule = bn.get_update_function(VariableId::from_index(var)).as_ref().unwrap();
    rule.collect_parameters().iter().flat_map(
        |p| ctx.get_explicit_function_table(*p).symbolic_variables().iter().map(|v| v.to_index()),
    ).collect()
}

/// `SymbolicContext::get_implicit_function_table`: the parametrization bits
/// of the table of a variable without an explicit rule.
#[verifier::external_body]
pub(crate) fn context_implicit_parameters(
    ctx: &SymbolicContext,
    bn: &BooleanNetwork,
    var: usize,
) -> (r: Vec<usize>)
    requires
        *ctx == encoding_of(*bn),
        var < network_rules(*bn).len(),
        !network_rules(*bn)[var as int],
    ensures
        forall|k: int| 0 <= k < r@.len() ==> #[trigger] r@[k] < context_width(*ctx),
{
    let table = ctx.get_implicit_function_table(VariableId::from_index(var)).unwrap();
    table.symbolic_variables().iter().map(|v| v.to_index()).collect()
}

} // verus!
