//! The network under synchronous update, held symbolically: a relation over
//! pairs of a state and a parametrization.
use vstd::prelude::*;
use biodivine_lib_bdd::Bdd;
use biodivine_lib_param_bn::BooleanNetwork;
use biodivine_lib_param_bn::symbolic_async_graph::SymbolicContext;
use crate::bdd::{
    agree_outside, ascending, bdd_and, bdd_clone, bdd_exists, bdd_iff, bdd_over,
    bdd_sat_valuations, bdd_sat_witness, bdd_support, bdd_support_contains, bdd_valuations,
    bdd_var_exists, bdd_var_restrict, bdd_var_select, bdd_wf, bdd_width, ignores, index_set,
    project, select, valuation_space,
};
use crate::encoding::{encode, is_nameable};
use crate::network::{
    context_explicit_parameters, context_explicit_rule, context_extra_variables,
    context_extra_vars, context_implicit_parameters, context_implicit_rule, context_mk_all_false,
    context_mk_constant, context_mk_literal, context_num_vars, context_parameter_variables,
    context_parameter_vars, context_state_variables, context_state_vars, context_wf,
    context_width, encodable, encoding_of, is_layout, network_declared, network_has_rule,
    network_regulations, network_rule_sets, network_rules, network_size, Regulation,
};
use crate::symbolic_sync_graph::regulation_constraints::{
    apply_regulation_constraints, constrained, lemma_constrained_ignores, valuations_of,
    violations_of, Violation,
};

pub mod attractors;
pub mod regulation_constraints;

verus! {

/// Forgetting some variables and then others is forgetting all of them.
pub proof fn lemma_project_twice(s: Set<Seq<bool>>, first: Set<int>, second: Set<int>)
    ensures
        project(project(s, first), second) == project(s, first.union(second)),
{
    let left = project(project(s, first), second);
    let right = project(s, first.union(second));
    assert forall|v: Seq<bool>| left.contains(v) implies right.contains(v) by {
        let m = choose|m: Seq<bool>| project(s, first).contains(m) && agree_outside(m, v, second);
        let u = choose|u: Seq<bool>| s.contains(u) && agree_outside(u, m, first);
        assert(agree_outside(u, v, first.union(second)));
    }
    assert forall|v: Seq<bool>| right.contains(v) implies left.contains(v) by {
        let u = choose|u: Seq<bool>| s.contains(u) && agree_outside(u, v, first.union(second));
        let m = Seq::new(
            v.len(),
            |i: int|
                if second.contains(i) {
                    u[i]
                } else {
                    v[i]
                },
        );
        assert(agree_outside(u, m, first));
        assert(project(s, first).contains(m));
        assert(agree_outside(m, v, second));
    }
    assert(left =~= right);
}

/// Forgetting no variable changes nothing.
pub proof fn lemma_project_nothing(s: Set<Seq<bool>>)
    ensures
        project(s, Set::<int>::empty()) == s,
{
    let left = project(s, Set::<int>::empty());
    assert forall|v: Seq<bool>| left.contains(v) implies s.contains(v) by {
        let u = choose|u: Seq<bool>| s.contains(u) && agree_outside(u, v, Set::<int>::empty());
        assert(u =~= v);
    }
    assert forall|v: Seq<bool>| s.contains(v) implies left.contains(v) by {
        assert(agree_outside(v, v, Set::<int>::empty()));
    }
    assert(left =~= s);
}

/// The variables below `upto` that are in the support `of` and not in the
/// support `keep`.
pub open spec fn unsupported(of: Set<int>, keep: Set<int>, upto: int) -> Set<int> {
    Set::new(|i: int| 0 <= i < upto && of.contains(i) && !keep.contains(i))
}

/// Forgets in `of` every variable on which `of` decides and `keep` does not.
pub fn forget_unsupported(of: &Bdd, keep: &Bdd) -> (r: Bdd)
    requires
        bdd_wf(*of),
        bdd_wf(*keep),
        bdd_width(*of) == bdd_width(*keep),
        bdd_width(*of) <= usize::MAX,
    ensures
        bdd_over(r, bdd_width(*of)),
        bdd_valuations(r) == project(
            bdd_valuations(*of),
            unsupported(bdd_support(*of), bdd_support(*keep), bdd_width(*of) as int),
        ),
{
    let width = crate::bdd::bdd_num_vars(of);
    let mut r = bdd_clone(of);
    let mut var: usize = 0;
    proof {
        lemma_project_nothing(bdd_valuations(*of));
        assert(unsupported(bdd_support(*of), bdd_support(*keep), 0) =~= Set::<int>::empty());
    }
    while var < width
        invariant
            var <= width,
            width == bdd_width(*of),
            bdd_wf(*of),
            bdd_wf(*keep),
            bdd_width(*of) == bdd_width(*keep),
            bdd_over(r, bdd_width(*of)),
            bdd_valuations(r) == project(
                bdd_valuations(*of),
                unsupported(bdd_support(*of), bdd_support(*keep), var as int),
            ),
        decreases width - var,
    {
        let ghost before = unsupported(bdd_support(*of), bdd_support(*keep), var as int);
        if bdd_support_contains(of, var) && !bdd_support_contains(keep, var) {
            r = bdd_var_exists(&r, var);
            proof {
                lemma_project_twice(bdd_valuations(*of), before, set![var as int]);
                assert(unsupported(bdd_support(*of), bdd_support(*keep), var + 1)
                    =~= before.union(set![var as int]));
            }
        } else {
            proof {
                assert(unsupported(bdd_support(*of), bdd_support(*keep), var + 1) =~= before);
            }
        }
        var = var + 1;
    }
    r
}

/// The valuation `v` with the value of `values` at each position in `vars`.
pub open spec fn overridden(v: Seq<bool>, vars: Set<int>, values: Seq<bool>) -> Seq<bool> {
    Seq::new(
        v.len(),
        |i: int|
            if vars.contains(i) {
                values[i]
            } else {
                v[i]
            },
    )
}

/// The valuations of `width` variables that are in `s` once the variables in
/// `vars` take their values from `values`.
pub open spec fn instantiated(s: Set<Seq<bool>>, vars: Set<int>, values: Seq<bool>, width: nat) -> Set<
    Seq<bool>,
> {
    Set::new(|v: Seq<bool>| v.len() == width && s.contains(overridden(v, vars, values)))
}

/// The valuation that gives every one of `width` variables the value `false`.
pub open spec fn all_false(width: nat) -> Seq<bool> {
    Seq::new(width, |i: int| false)
}

/// The valuations that are `false` outside `vars`.
pub open spec fn false_outside(vars: Set<int>, width: nat) -> Set<Seq<bool>> {
    Set::new(
        |v: Seq<bool>|
            v.len() == width && forall|i: int| 0 <= i < width && !vars.contains(i) ==> !v[i],
    )
}

/// The update rule of one variable over the valid parametrizations, with the
/// parametrization bits that it depends on.
#[derive(Debug)]
pub struct ParedUpdateFunction {
    function: Bdd,
    parametrizations: Bdd,
    par_bdd_vars: Vec<usize>,
}

impl ParedUpdateFunction {
    /// The number of symbolic variables.
    pub closed spec fn width(&self) -> nat {
        bdd_width(self.function)
    }

    /// The valuations under which the rule yields `true` and whose
    /// parametrization is valid.
    pub closed spec fn function_set(&self) -> Set<Seq<bool>> {
        bdd_valuations(self.function)
    }

    /// The valid parametrizations, as far as the rule depends on them.
    pub closed spec fn parametrization_set(&self) -> Set<Seq<bool>> {
        bdd_valuations(self.parametrizations)
    }

    /// The parametrization bits of the rule.
    pub closed spec fn parameters(&self) -> Seq<usize> {
        self.par_bdd_vars@
    }

    /// The variables on which the rule, over the valid parametrizations, decides.
    pub closed spec fn support(&self) -> Set<int> {
        bdd_support(self.function)
    }

    /// The diagrams are well-formed and of one width, within which the
    /// parametrization bits lie.
    pub closed spec fn wf(&self) -> bool {
        &&& bdd_wf(self.function)
        &&& bdd_over(self.parametrizations, bdd_width(self.function))
        &&& bdd_width(self.function) <= usize::MAX
        &&& forall|k: int|
            0 <= k < self.par_bdd_vars@.len() ==> #[trigger] self.par_bdd_vars@[k] < bdd_width(
                self.function,
            )
    }

    /// The rule `update_function` over the valid parametrizations `unit_bdd`,
    /// which are kept only as far as the rule depends on them.
    pub fn new(update_function: &Bdd, unit_bdd: &Bdd, par_bdd_vars: Vec<usize>) -> (r: Self)
        requires
            bdd_wf(*update_function),
            bdd_over(*unit_bdd, bdd_width(*update_function)),
            bdd_width(*update_function) <= usize::MAX,
            forall|k: int|
                0 <= k < par_bdd_vars@.len() ==> #[trigger] par_bdd_vars@[k] < bdd_width(
                    *update_function,
                ),
        ensures
            r.wf(),
            r.width() == bdd_width(*update_function),
            r.parameters() == par_bdd_vars@,
            r.parametrization_set() == project(
                bdd_valuations(*unit_bdd),
                unsupported(
                    bdd_support(*unit_bdd),
                    bdd_support(*update_function),
                    bdd_width(*unit_bdd) as int,
                ),
            ),
            r.function_set() == bdd_valuations(*update_function).intersect(r.parametrization_set()),
    {
        let parametrizations = forget_unsupported(unit_bdd, update_function);
        let function = bdd_and(update_function, &parametrizations);
        ParedUpdateFunction { function, parametrizations, par_bdd_vars }
    }

    /// The rule over the valid parametrizations.
    pub fn get_function(&self) -> (r: &Bdd)
        requires
            self.wf(),
        ensures
            bdd_over(*r, self.width()),
            bdd_valuations(*r) == self.function_set(),
            bdd_support(*r) == self.support(),
    {
        &self.function
    }

    /// The valid parametrizations, as far as the rule depends on them.
    pub fn get_parametrizations(&self) -> (r: &Bdd)
        requires
            self.wf(),
        ensures
            bdd_over(*r, self.width()),
            bdd_valuations(*r) == self.parametrization_set(),
    {
        &self.parametrizations
    }

    /// The parametrization bits of the rule.
    pub fn get_parameters(&self) -> (r: &Vec<usize>)
        requires
            self.wf(),
        ensures
            r@ == self.parameters(),
            forall|k: int| 0 <= k < r@.len() ==> #[trigger] r@[k] < self.width(),
    {
        &self.par_bdd_vars
    }

    /// The rule with each of its parametrization bits set as `restriction`
    /// says; of `restriction` only those bits are read.
    pub fn restricted(&self, restriction: &Vec<bool>) -> (r: Bdd)
        requires
            self.wf(),
            restriction@.len() == self.width(),
        ensures
            bdd_over(r, self.width()),
            bdd_valuations(r) == instantiated(
                self.function_set(),
                index_set(self.parameters()),
                restriction@,
                self.width(),
            ),
    {
        let ghost width = self.width();
        let ghost source = self.function_set();
        let ghost values = restriction@;
        let mut acc = bdd_clone(&self.function);
        let mut i: usize = 0;
        proof {
            assert(index_set(self.par_bdd_vars@.subrange(0, 0)) =~= Set::<int>::empty());
            assert forall|v: Seq<bool>| v.len() == width implies overridden(
                v,
                Set::<int>::empty(),
                values,
            ) =~= v by {}
            assert(bdd_valuations(acc) =~= instantiated(
                source,
                Set::<int>::empty(),
                values,
                width,
            ));
        }
        while i < self.par_bdd_vars.len()
            invariant
                i <= self.par_bdd_vars@.len(),
                self.wf(),
                width == self.width(),
                source == self.function_set(),
                values == restriction@,
                values.len() == width,
                bdd_over(acc, width),
                bdd_valuations(acc) == instantiated(
                    source,
                    index_set(self.par_bdd_vars@.subrange(0, i as int)),
                    values,
                    width,
                ),
            decreases self.par_bdd_vars@.len() - i,
        {
            let var = self.par_bdd_vars[i];
            let ghost done = index_set(self.par_bdd_vars@.subrange(0, i as int));
            let ghost more = index_set(self.par_bdd_vars@.subrange(0, i + 1));
            let ghost before = bdd_valuations(acc);
            acc = bdd_var_restrict(&acc, var, restriction[var]);
            proof {
                assert forall|j: int| more.contains(j) <==> done.contains(j) || j == var by {
                    let longer = self.par_bdd_vars@.subrange(0, i + 1);
                    let shorter = self.par_bdd_vars@.subrange(0, i as int);
                    if more.contains(j) {
                        let k = choose|k: int| 0 <= k < longer.len() && longer[k] == j;
                        if k < i {
                            assert(shorter[k] == j);
                        }
                    }
                    if done.contains(j) {
                        let k = choose|k: int| 0 <= k < shorter.len() && shorter[k] == j;
                        assert(longer[k] == j);
                    }
                    if j == var {
                        assert(longer[i as int] == j);
                    }
                }
                assert forall|v: Seq<bool>| v.len() == width implies overridden(
                    v.update(var as int, values[var as int]),
                    done,
                    values,
                ) =~= overridden(v, more, values) by {}
                assert(bdd_valuations(acc) =~= instantiated(source, more, values, width));
            }
            i = i + 1;
        }
        proof {
            assert(self.par_bdd_vars@.subrange(0, i as int) =~= self.par_bdd_vars@);
        }
        acc
    }

    /// The colors `colors`, kept only as far as the rule depends on them.
    /// `colors` is meant to be a subset of the valid parametrizations.
    pub fn restricted_parametrizations(&self, colors: Bdd) -> (r: Bdd)
        requires
            self.wf(),
            bdd_over(colors, self.width()),
        ensures
            bdd_over(r, self.width()),
            bdd_valuations(r) == project(
                bdd_valuations(colors),
                unsupported(bdd_support(colors), self.support(), self.width() as int),
            ),
    {
        forget_unsupported(&colors, &self.function)
    }

    /// As `restricted_parametrizations`, for colors that need not be valid:
    /// the result is cut down to the valid parametrizations.
    pub fn restricted_parametrizations_safe(&self, restriction: Bdd) -> (r: Bdd)
        requires
            self.wf(),
            bdd_over(restriction, self.width()),
        ensures
            bdd_over(r, self.width()),
            bdd_valuations(r) == self.parametrization_set().intersect(
                project(
                    bdd_valuations(restriction),
                    unsupported(bdd_support(restriction), self.support(), self.width() as int),
                ),
            ),
    {
        let kept = self.restricted_parametrizations(restriction);
        bdd_and(&self.parametrizations, &kept)
    }
}

/// The valuations whose first `upto` extra variables hold what the rules
/// yield under the valuation itself.
pub open spec fn transition_of(
    rules: Seq<Set<Seq<bool>>>,
    extra: Seq<usize>,
    width: nat,
    upto: int,
) -> Set<Seq<bool>> {
    Set::new(
        |v: Seq<bool>|
            v.len() == width && forall|i: int|
                0 <= i < upto ==> v[extra[i] as int] == (#[trigger] rules[i]).contains(v),
    )
}

/// The valuations whose first `upto` extra variables repeat the state variables.
pub open spec fn mirror_of(state: Seq<usize>, extra: Seq<usize>, width: nat, upto: int) -> Set<
    Seq<bool>,
> {
    Set::new(
        |v: Seq<bool>|
            v.len() == width && forall|i: int|
                0 <= i < upto ==> v[(#[trigger] extra[i]) as int] == v[state[i] as int],
    )
}

/// The pairs of a state and a parametrization of the network `bn` that meet
/// its declared regulations.
pub open spec fn valid_pairs(bn: BooleanNetwork) -> Set<Seq<bool>> {
    constrained(
        valuation_space(context_width(encoding_of(bn))),
        network_declared(bn),
        network_rule_sets(bn),
        context_state_variables(encoding_of(bn)),
        context_width(encoding_of(bn)),
        network_declared(bn).len() as int,
    )
}

/// The declared regulations of the network `bn` that no parametrization meets.
pub open spec fn unmet_regulations(bn: BooleanNetwork) -> Seq<Violation> {
    violations_of(
        network_declared(bn),
        network_rule_sets(bn),
        context_state_variables(encoding_of(bn)),
        context_width(encoding_of(bn)),
        network_declared(bn).len() as int,
    )
}

/// Why a graph could not be built.
#[derive(Debug)]
pub enum ConstructionError {
    /// The network has no symbolic encoding; the message says why.
    Encoding(String),
    /// No parametrization meets the declared regulations; the list names the
    /// regulations that none meets on their own.
    Constraints(Vec<Violation>),
}

/// The network under synchronous update, held symbolically.
pub struct SymbSyncGraph {
    bn: BooleanNetwork,
    context: SymbolicContext,
    state_variables: Vec<usize>,
    extra_variables: Vec<usize>,
    parameter_variables: Vec<usize>,
    regulations: Vec<Regulation>,
    unit_bdd: Bdd,
    pupdate_functions: Vec<ParedUpdateFunction>,
    total_update_function: Bdd,
    extra_state_var_equivalence: Bdd,
    var_index: Vec<Option<usize>>,
    all_false_bdd: Bdd,
    rules: Ghost<Seq<Set<Seq<bool>>>>,
}

impl SymbSyncGraph {
    /// The number of symbolic variables.
    pub closed spec fn width(&self) -> nat {
        context_width(self.context)
    }

    /// The network that the graph was built from.
    pub closed spec fn network(&self) -> BooleanNetwork {
        self.bn
    }

    /// The number of network variables.
    pub closed spec fn size(&self) -> nat {
        self.state_variables@.len()
    }

    /// The symbolic variable of each network variable.
    pub closed spec fn state_vars(&self) -> Seq<usize> {
        self.state_variables@
    }

    /// The extra symbolic variable of each network variable. The extra
    /// variables are scratch space: they hold the next state while an image
    /// is computed, and no set of states and colors depends on them.
    pub closed spec fn extra_vars(&self) -> Seq<usize> {
        self.extra_variables@
    }

    /// The symbolic variables that stand for parametrization bits.
    pub closed spec fn parameter_vars(&self) -> Seq<usize> {
        self.parameter_variables@
    }

    /// The declared regulations.
    pub closed spec fn declared(&self) -> Seq<Regulation> {
        self.regulations@
    }

    /// The valid pairs of a state and a parametrization.
    pub closed spec fn unit_set(&self) -> Set<Seq<bool>> {
        bdd_valuations(self.unit_bdd)
    }

    /// For each network variable, the valuations under which its rule yields `true`.
    pub closed spec fn rule_sets(&self) -> Seq<Set<Seq<bool>>> {
        self.rules@
    }

    /// The update rules over the valid parametrizations.
    pub closed spec fn update_functions(&self) -> Seq<ParedUpdateFunction> {
        self.pupdate_functions@
    }

    /// For each symbolic variable, the network variable whose state it holds.
    pub closed spec fn index_of_variable(&self) -> Seq<Option<usize>> {
        self.var_index@
    }

    /// The positions of the extra variables.
    pub open spec fn scratch(&self) -> Set<int> {
        index_set(self.extra_vars())
    }

    /// One synchronous step: `w` holds, for each network variable, what its
    /// rule yields under `u`, and the parametrization of `u`.
    pub open spec fn step(&self, u: Seq<bool>, w: Seq<bool>) -> bool {
        &&& u.len() == self.width()
        &&& w.len() == self.width()
        &&& forall|i: int|
            0 <= i < self.size() ==> w[self.state_vars()[i] as int] == (
            #[trigger] self.rule_sets()[i]).contains(u)
        &&& forall|k: int|
            0 <= k < self.parameter_vars().len() ==> w[(
            #[trigger] self.parameter_vars()[k]) as int] == u[self.parameter_vars()[k] as int]
    }

    /// What one step makes of the members of `s`.
    pub open spec fn successors(&self, s: Set<Seq<bool>>) -> Set<Seq<bool>> {
        Set::new(|w: Seq<bool>| exists|u: Seq<bool>| s.contains(u) && self.step(u, w))
    }

    /// What one step turns into a member of `s`.
    pub open spec fn predecessors(&self, s: Set<Seq<bool>>) -> Set<Seq<bool>> {
        Set::new(|u: Seq<bool>| exists|w: Seq<bool>| s.contains(w) && self.step(u, w))
    }

    /// A diagram of the graph's width that stands for a set of pairs of a
    /// state and a parametrization: it does not depend on the extra variables.
    pub open spec fn is_colored_set(&self, b: Bdd) -> bool {
        bdd_over(b, self.width()) && ignores(bdd_valuations(b), self.scratch())
    }

    /// The invariant of the graph.
    pub closed spec fn wf(&self) -> bool {
        &&& self.context == encoding_of(self.bn)
        &&& context_wf(self.context, self.state_variables@.len())
        &&& network_rules(self.bn).len() == self.state_variables@.len()
        &&& self.rules@ == network_rule_sets(self.bn)
        &&& self.regulations@ == network_declared(self.bn)
        &&& context_width(self.context) <= usize::MAX
        &&& self.state_variables@ == context_state_variables(self.context)
        &&& self.extra_variables@ == context_extra_variables(self.context)
        &&& self.parameter_variables@ == context_parameter_variables(self.context)
        &&& self.rules@.len() == self.state_variables@.len()
        &&& forall|i: int|
            0 <= i < self.rules@.len() ==> (#[trigger] self.rules@[i]).subset_of(
                valuation_space(self.width()),
            ) && ignores(self.rules@[i], self.scratch())
        &&& forall|k: int|
            0 <= k < self.regulations@.len() ==> (#[trigger] self.regulations@[k]).regulator
                < self.state_variables@.len() && self.regulations@[k].target
                < self.state_variables@.len()
        &&& bdd_over(self.unit_bdd, self.width())
        &&& bdd_valuations(self.unit_bdd) == constrained(
            valuation_space(self.width()),
            self.regulations@,
            self.rules@,
            self.state_variables@,
            self.width(),
            self.regulations@.len() as int,
        )
        &&& !(bdd_valuations(self.unit_bdd) =~= Set::<Seq<bool>>::empty())
        &&& bdd_over(self.total_update_function, self.width())
        &&& bdd_valuations(self.total_update_function) == transition_of(
            self.rules@,
            self.extra_variables@,
            self.width(),
            self.rules@.len() as int,
        )
        &&& bdd_over(self.extra_state_var_equivalence, self.width())
        &&& bdd_valuations(self.extra_state_var_equivalence) == mirror_of(
            self.state_variables@,
            self.extra_variables@,
            self.width(),
            self.state_variables@.len() as int,
        )
        &&& bdd_over(self.all_false_bdd, self.width())
        &&& bdd_valuations(self.all_false_bdd) == set![all_false(self.width())]
        &&& self.pupdate_functions@.len() == self.state_variables@.len()
        &&& forall|i: int|
            0 <= i < self.pupdate_functions@.len() ==> (#[trigger] self.pupdate_functions@[i]).wf()
                && self.pupdate_functions@[i].width() == self.width()
        &&& self.var_index@.len() == self.width()
        &&& forall|i: int|
            0 <= i < self.state_variables@.len() ==> self.var_index@[(
            #[trigger] self.state_variables@[i]) as int] == Some(i as usize)
        &&& forall|j: int|
            0 <= j < self.var_index@.len() && !index_set(self.state_variables@).contains(j)
                ==> #[trigger] self.var_index@[j] is None
    }

    /// What the invariant says of the layout of the symbolic variables, of
    /// the rules and of the valid pairs.
    pub proof fn lemma_wf(&self)
        requires
            self.wf(),
        ensures
            self.width() <= usize::MAX,
            self.state_vars().len() == self.size(),
            self.extra_vars().len() == self.size(),
            self.rule_sets().len() == self.size(),
            self.update_functions().len() == self.size(),
            is_layout(self.state_vars(), self.extra_vars(), self.parameter_vars(), self.width()),
            forall|i: int|
                0 <= i < self.size() ==> (#[trigger] self.rule_sets()[i]).subset_of(
                    valuation_space(self.width()),
                ) && ignores(self.rule_sets()[i], self.scratch()),
            forall|i: int|
                0 <= i < self.size() ==> (#[trigger] self.update_functions()[i]).wf()
                    && self.update_functions()[i].width() == self.width(),
            forall|k: int|
                0 <= k < self.declared().len() ==> (#[trigger] self.declared()[k]).regulator
                    < self.size() && self.declared()[k].target < self.size(),
            self.unit_set() == constrained(
                valuation_space(self.width()),
                self.declared(),
                self.rule_sets(),
                self.state_vars(),
                self.width(),
                self.declared().len() as int,
            ),
            !(self.unit_set() =~= Set::<Seq<bool>>::empty()),
            self.index_of_variable().len() == self.width(),
            forall|i: int|
                0 <= i < self.size() ==> self.index_of_variable()[(
                #[trigger] self.state_vars()[i]) as int] == Some(i as usize),
    {
    }

    /// What the invariant says of the network that the graph was built
    /// from: the graph has its variables, its rules, its declared
    /// regulations, and the pairs that meet them.
    pub proof fn lemma_network(&self)
        requires
            self.wf(),
        ensures
            self.size() == network_rules(self.network()).len(),
            self.rule_sets() == network_rule_sets(self.network()),
            self.declared() == network_declared(self.network()),
            self.unit_set() == valid_pairs(self.network()),
            self.width() == context_width(encoding_of(self.network())),
            self.state_vars() == context_state_variables(encoding_of(self.network())),
    {
    }

    /// The underlying network: the one that the graph was built from.
    pub fn as_network(&self) -> (r: &BooleanNetwork)
        ensures
            *r == self.network(),
    {
        &self.bn
    }

    /// The underlying symbolic context.
    pub fn symbolic_context(&self) -> (r: &SymbolicContext)
        ensures
            self.wf() ==> *r == encoding_of(self.network()),
            self.wf() ==> context_width(*r) == self.width(),
            self.wf() ==> context_parameter_variables(*r) == self.parameter_vars(),
    {
        &self.context
    }

    /// The update rules over the valid parametrizations, in the order of the
    /// network variables.
    pub fn get_pupdate_functions(&self) -> (r: &Vec<ParedUpdateFunction>)
        ensures
            r@ == self.update_functions(),
    {
        &self.pupdate_functions
    }

    /// For each symbolic variable, the network variable whose state it holds.
    pub fn get_var_index(&self) -> (r: &Vec<Option<usize>>)
        ensures
            r@ == self.index_of_variable(),
    {
        &self.var_index
    }

    /// The diagram of the one valuation that gives every variable `false`.
    pub fn get_all_false(&self) -> (r: &Bdd)
        requires
            self.wf(),
        ensures
            bdd_over(*r, self.width()),
            bdd_valuations(*r) == set![all_false(self.width())],
    {
        &self.all_false_bdd
    }

    /// The symbolic variable of each network variable.
    pub fn state_variables(&self) -> (r: &Vec<usize>)
        requires
            self.wf(),
        ensures
            r@ == self.state_vars(),
            r@.len() == self.size(),
            forall|k: int| 0 <= k < r@.len() ==> #[trigger] r@[k] < self.width(),
    {
        proof {
            self.lemma_positions();
        }
        &self.state_variables
    }

    /// The extra symbolic variable of each network variable.
    pub fn extra_variables(&self) -> (r: &Vec<usize>)
        requires
            self.wf(),
        ensures
            r@ == self.extra_vars(),
            r@.len() == self.size(),
            forall|k: int| 0 <= k < r@.len() ==> #[trigger] r@[k] < self.width(),
    {
        proof {
            self.lemma_positions();
        }
        &self.extra_variables
    }

    /// The symbolic variables that stand for parametrization bits.
    pub fn parameter_variables(&self) -> (r: &Vec<usize>)
        requires
            self.wf(),
        ensures
            r@ == self.parameter_vars(),
            forall|k: int| 0 <= k < r@.len() ==> #[trigger] r@[k] < self.width(),
    {
        proof {
            self.lemma_positions();
        }
        &self.parameter_variables
    }

    /// The number of network variables.
    pub fn num_vars(&self) -> (r: usize)
        ensures
            r == self.size(),
    {
        self.state_variables.len()
    }

    /// Every listed symbolic variable lies within the width, the three lists
    /// share no variable, and every position is in one of them.
    pub proof fn lemma_positions(&self)
        requires
            self.wf(),
        ensures
            forall|k: int|
                0 <= k < self.state_vars().len() ==> #[trigger] self.state_vars()[k] < self.width(),
            forall|k: int|
                0 <= k < self.extra_vars().len() ==> #[trigger] self.extra_vars()[k] < self.width(),
            forall|k: int|
                0 <= k < self.parameter_vars().len() ==> #[trigger] self.parameter_vars()[k]
                    < self.width(),
            forall|j: int, k: int|
                0 <= j < self.state_vars().len() && 0 <= k < self.extra_vars().len()
                    ==> #[trigger] self.state_vars()[j] != #[trigger] self.extra_vars()[k],
            forall|j: int, k: int|
                0 <= j < self.state_vars().len() && 0 <= k < self.parameter_vars().len()
                    ==> #[trigger] self.state_vars()[j] != #[trigger] self.parameter_vars()[k],
            forall|j: int, k: int|
                0 <= j < self.extra_vars().len() && 0 <= k < self.parameter_vars().len()
                    ==> #[trigger] self.extra_vars()[j] != #[trigger] self.parameter_vars()[k],
            forall|j: int, k: int|
                0 <= j < k < self.state_vars().len() ==> #[trigger] self.state_vars()[j]
                    != #[trigger] self.state_vars()[k],
            forall|j: int, k: int|
                0 <= j < k < self.extra_vars().len() ==> #[trigger] self.extra_vars()[j]
                    != #[trigger] self.extra_vars()[k],
            forall|j: int|
                0 <= j < self.width() ==> #[trigger] index_set(self.state_vars()).contains(j)
                    || index_set(self.extra_vars()).contains(j) || index_set(
                    self.parameter_vars(),
                ).contains(j),
    {
        let state = self.state_vars();
        let extra = self.extra_vars();
        let pars = self.parameter_vars();
        let all = state + extra + pars;
        let n = state.len() as int;
        let m = extra.len() as int;
        assert forall|k: int| 0 <= k < state.len() implies #[trigger] state[k] < self.width() by {
            assert(all[k] == state[k]);
        }
        assert forall|k: int| 0 <= k < extra.len() implies #[trigger] extra[k] < self.width() by {
            assert(all[n + k] == extra[k]);
        }
        assert forall|k: int| 0 <= k < pars.len() implies #[trigger] pars[k] < self.width() by {
            assert(all[n + m + k] == pars[k]);
        }
        assert forall|j: int, k: int| 0 <= j < state.len() && 0 <= k < extra.len() implies
            #[trigger] state[j] != #[trigger] extra[k] by {
            assert(all[j] == state[j]);
            assert(all[n + k] == extra[k]);
        }
        assert forall|j: int, k: int| 0 <= j < state.len() && 0 <= k < pars.len() implies
            #[trigger] state[j] != #[trigger] pars[k] by {
            assert(all[j] == state[j]);
            assert(all[n + m + k] == pars[k]);
        }
        assert forall|j: int, k: int| 0 <= j < extra.len() && 0 <= k < pars.len() implies
            #[trigger] extra[j] != #[trigger] pars[k] by {
            assert(all[n + j] == extra[j]);
            assert(all[n + m + k] == pars[k]);
        }
        assert forall|j: int, k: int| 0 <= j < k < state.len() implies #[trigger] state[j]
            != #[trigger] state[k] by {
            assert(all[j] == state[j]);
            assert(all[k] == state[k]);
        }
        assert forall|j: int, k: int| 0 <= j < k < extra.len() implies #[trigger] extra[j]
            != #[trigger] extra[k] by {
            assert(all[n + j] == extra[j]);
            assert(all[n + k] == extra[k]);
        }
        assert forall|j: int| 0 <= j < self.width() implies #[trigger] index_set(state).contains(j)
            || index_set(extra).contains(j) || index_set(pars).contains(j) by {
            assert(all.contains(j as usize));
            let at = choose|at: int| 0 <= at < all.len() && all[at] == j as usize;
            if at < n {
                assert(state[at] == j);
            } else if at < n + m {
                assert(extra[at - n] == j);
            } else {
                assert(pars[at - n - m] == j);
            }
        }
    }
}

/// The diagrams of the rules of the first `count` network variables.
fn build_rules(bn: &BooleanNetwork, context: &SymbolicContext, count: usize) -> (r: Vec<Bdd>)
    requires
        *context == encoding_of(*bn),
        count <= network_rules(*bn).len(),
    ensures
        r@.len() == count,
        forall|i: int|
            0 <= i < count ==> bdd_over(#[trigger] r@[i], context_width(*context)) && ignores(
                bdd_valuations(r@[i]),
                index_set(context_extra_variables(*context)),
            ) && bdd_valuations(r@[i]) == network_rule_sets(*bn)[i],
{
    let mut rules: Vec<Bdd> = Vec::new();
    let mut var: usize = 0;
    while var < count
        invariant
            var <= count,
            *context == encoding_of(*bn),
            count <= network_rules(*bn).len(),
            rules@.len() == var,
            forall|i: int|
                0 <= i < var ==> bdd_over(#[trigger] rules@[i], context_width(*context))
                    && ignores(
                    bdd_valuations(rules@[i]),
                    index_set(context_extra_variables(*context)),
                ) && bdd_valuations(rules@[i]) == network_rule_sets(*bn)[i],
        decreases count - var,
    {
        let rule = if network_has_rule(bn, var) {
            context_explicit_rule(context, bn, var)
        } else {
            context_implicit_rule(context, bn, var)
        };
        rules.push(rule);
        var = var + 1;
    }
    rules
}

/// The parametrization bits of the rules of the first `count` network variables.
fn build_rule_parameters(bn: &BooleanNetwork, context: &SymbolicContext, count: usize) -> (r: Vec<
    Vec<usize>,
>)
    requires
        *context == encoding_of(*bn),
        count <= network_rules(*bn).len(),
    ensures
        r@.len() == count,
        forall|i: int, k: int|
            0 <= i < count && 0 <= k < r@[i]@.len() ==> #[trigger] r@[i]@[k] < context_width(
                *context,
            ),
{
    let mut all: Vec<Vec<usize>> = Vec::new();
    let mut var: usize = 0;
    while var < count
        invariant
            var <= count,
            *context == encoding_of(*bn),
            count <= network_rules(*bn).len(),
            all@.len() == var,
            forall|i: int, k: int|
                0 <= i < var && 0 <= k < all@[i]@.len() ==> #[trigger] all@[i]@[k]
                    < context_width(*context),
        decreases count - var,
    {
        let bits = if network_has_rule(bn, var) {
            context_explicit_parameters(context, bn, var)
        } else {
            context_implicit_parameters(context, bn, var)
        };
        all.push(bits);
        var = var + 1;
    }
    all
}

/// The relation that stores in the extra variables what the rules yield.
fn build_transition(context: &SymbolicContext, rules: &Vec<Bdd>, extra: &Vec<usize>) -> (r: Bdd)
    requires
        rules@.len() == extra@.len(),
        forall|i: int| 0 <= i < rules@.len() ==> bdd_over(#[trigger] rules@[i], context_width(*context)),
        forall|i: int| 0 <= i < extra@.len() ==> #[trigger] extra@[i] < context_width(*context),
    ensures
        bdd_over(r, context_width(*context)),
        bdd_valuations(r) == transition_of(
            valuations_of(rules@),
            extra@,
            context_width(*context),
            rules@.len() as int,
        ),
{
    let ghost width = context_width(*context);
    let ghost sets = valuations_of(rules@);
    let mut acc = context_mk_constant(context, true);
    let mut i: usize = 0;
    proof {
        assert(bdd_valuations(acc) =~= transition_of(sets, extra@, width, 0));
    }
    while i < rules.len()
        invariant
            i <= rules@.len(),
            width == context_width(*context),
            sets == valuations_of(rules@),
            rules@.len() == extra@.len(),
            forall|i: int| 0 <= i < rules@.len() ==> bdd_over(#[trigger] rules@[i], width),
            forall|i: int| 0 <= i < extra@.len() ==> #[trigger] extra@[i] < width,
            bdd_over(acc, width),
            bdd_valuations(acc) == transition_of(sets, extra@, width, i as int),
        decreases rules@.len() - i,
    {
        let stored = context_mk_literal(context, extra[i], true);
        let same = bdd_iff(&stored, &rules[i]);
        let ghost before = bdd_valuations(acc);
        acc = bdd_and(&acc, &same);
        proof {
            let after = transition_of(sets, extra@, width, i + 1);
            assert(sets[i as int] == bdd_valuations(rules@[i as int]));
            assert forall|v: Seq<bool>| bdd_valuations(acc).contains(v) implies after.contains(
                v,
            ) by {
                assert forall|k: int| 0 <= k < i + 1 implies v[extra@[k] as int] == (
                #[trigger] sets[k]).contains(v) by {
                    if k < i {
                        assert(before.contains(v));
                    }
                }
            }
            assert forall|v: Seq<bool>| after.contains(v) implies bdd_valuations(acc).contains(
                v,
            ) by {
                assert(v[extra@[i as int] as int] == sets[i as int].contains(v));
                assert(before.contains(v));
            }
            assert(bdd_valuations(acc) =~= after);
        }
        i = i + 1;
    }
    acc
}

/// The relation that lets the extra variables repeat the state variables.
fn build_mirror(context: &SymbolicContext, state: &Vec<usize>, extra: &Vec<usize>) -> (r: Bdd)
    requires
        state@.len() == extra@.len(),
        forall|i: int| 0 <= i < state@.len() ==> #[trigger] state@[i] < context_width(*context),
        forall|i: int| 0 <= i < extra@.len() ==> #[trigger] extra@[i] < context_width(*context),
    ensures
        bdd_over(r, context_width(*context)),
        bdd_valuations(r) == mirror_of(
            state@,
            extra@,
            context_width(*context),
            state@.len() as int,
        ),
{
    let ghost width = context_width(*context);
    let mut acc = context_mk_constant(context, true);
    let mut i: usize = 0;
    proof {
        assert(bdd_valuations(acc) =~= mirror_of(state@, extra@, width, 0));
    }
    while i < state.len()
        invariant
            i <= state@.len(),
            width == context_width(*context),
            state@.len() == extra@.len(),
            forall|i: int| 0 <= i < state@.len() ==> #[trigger] state@[i] < width,
            forall|i: int| 0 <= i < extra@.len() ==> #[trigger] extra@[i] < width,
            bdd_over(acc, width),
            bdd_valuations(acc) == mirror_of(state@, extra@, width, i as int),
        decreases state@.len() - i,
    {
        let stored = context_mk_literal(context, extra[i], true);
        let held = context_mk_literal(context, state[i], true);
        let same = bdd_iff(&stored, &held);
        let ghost before = bdd_valuations(acc);
        acc = bdd_and(&acc, &same);
        proof {
            let after = mirror_of(state@, extra@, width, i + 1);
            assert forall|v: Seq<bool>| bdd_valuations(acc).contains(v) implies after.contains(
                v,
            ) by {
                assert forall|k: int| 0 <= k < i + 1 implies v[(#[trigger] extra@[k]) as int]
                    == v[state@[k] as int] by {
                    if k < i {
                        assert(before.contains(v));
                    }
                }
            }
            assert forall|v: Seq<bool>| after.contains(v) implies bdd_valuations(acc).contains(
                v,
            ) by {
                assert(v[extra@[i as int] as int] == v[state@[i as int] as int]);
                assert(before.contains(v));
            }
            assert(bdd_valuations(acc) =~= after);
        }
        i = i + 1;
    }
    acc
}

/// For each of `width` symbolic variables, its place in `state`, if it has one.
fn build_var_index(state: &Vec<usize>, width: usize) -> (r: Vec<Option<usize>>)
    requires
        forall|i: int| 0 <= i < state@.len() ==> #[trigger] state@[i] < width,
        state@.no_duplicates(),
    ensures
        r@.len() == width,
        forall|i: int| 0 <= i < state@.len() ==> r@[(#[trigger] state@[i]) as int] == Some(i as usize),
        forall|j: int|
            0 <= j < width && !index_set(state@).contains(j) ==> #[trigger] r@[j] is None,
{
    let mut index: Vec<Option<usize>> = Vec::new();
    let mut j: usize = 0;
    while j < width
        invariant
            j <= width,
            index@.len() == j,
            forall|k: int| 0 <= k < j ==> #[trigger] index@[k] is None,
        decreases width - j,
    {
        index.push(None);
        j = j + 1;
    }
    let mut i: usize = 0;
    while i < state.len()
        invariant
            i <= state@.len(),
            index@.len() == width,
            forall|i: int| 0 <= i < state@.len() ==> #[trigger] state@[i] < width,
            state@.no_duplicates(),
            forall|k: int| 0 <= k < i ==> index@[(#[trigger] state@[k]) as int] == Some(k as usize),
            forall|j: int|
                0 <= j < width && !index_set(state@.subrange(0, i as int)).contains(j)
                    ==> #[trigger] index@[j] is None,
        decreases state@.len() - i,
    {
        let ghost before = index@;
        index.set(state[i], Some(i));
        proof {
            assert forall|k: int| 0 <= k < i + 1 implies index@[(#[trigger] state@[k]) as int]
                == Some(k as usize) by {
                if k < i {
                    assert(state@[k] != state@[i as int]);
                }
            }
            assert forall|j: int|
                0 <= j < width && !index_set(state@.subrange(0, i + 1)).contains(
                    j,
                ) implies #[trigger] index@[j] is None by {
                assert(state@.subrange(0, i + 1)[i as int] == state@[i as int]);
                assert(j != state@[i as int]);
                if index_set(state@.subrange(0, i as int)).contains(j) {
                    let k = choose|k: int|
                        0 <= k < state@.subrange(0, i as int).len() && state@.subrange(
                            0,
                            i as int,
                        )[k] == j;
                    assert(state@.subrange(0, i + 1)[k] == j);
                }
            }
        }
        i = i + 1;
    }
    proof {
        assert(state@.subrange(0, i as int) =~= state@);
    }
    index
}

/// The rules over the valid parametrizations `unit_bdd`.
fn build_pupdate_functions(rules: &Vec<Bdd>, unit_bdd: &Bdd, parameters: Vec<Vec<usize>>) -> (r: Vec<
    ParedUpdateFunction,
>)
    requires
        bdd_wf(*unit_bdd),
        bdd_width(*unit_bdd) <= usize::MAX,
        rules@.len() == parameters@.len(),
        forall|i: int| 0 <= i < rules@.len() ==> bdd_over(#[trigger] rules@[i], bdd_width(*unit_bdd)),
        forall|i: int, k: int|
            0 <= i < parameters@.len() && 0 <= k < parameters@[i]@.len()
                ==> #[trigger] parameters@[i]@[k] < bdd_width(*unit_bdd),
    ensures
        r@.len() == rules@.len(),
        forall|i: int|
            0 <= i < r@.len() ==> (#[trigger] r@[i]).wf() && r@[i].width() == bdd_width(*unit_bdd),
{
    let mut functions: Vec<ParedUpdateFunction> = Vec::new();
    let mut parameters = parameters;
    let ghost given = parameters@;
    let mut i: usize = 0;
    while i < rules.len()
        invariant
            i <= rules@.len(),
            bdd_wf(*unit_bdd),
            bdd_width(*unit_bdd) <= usize::MAX,
            rules@.len() == parameters@.len(),
            functions@.len() == i,
            forall|i: int|
                0 <= i < rules@.len() ==> bdd_over(#[trigger] rules@[i], bdd_width(*unit_bdd)),
            forall|j: int, k: int|
                i <= j < parameters@.len() && 0 <= k < parameters@[j]@.len()
                    ==> #[trigger] parameters@[j]@[k] < bdd_width(*unit_bdd),
            forall|j: int|
                0 <= j < functions@.len() ==> (#[trigger] functions@[j]).wf()
                    && functions@[j].width() == bdd_width(*unit_bdd),
        decreases rules@.len() - i,
    {
        let mut bits: Vec<usize> = Vec::new();
        let ghost wanted = parameters@[i as int]@;
        let mut k: usize = 0;
        while k < parameters[i].len()
            invariant
                i < parameters@.len(),
                k <= parameters@[i as int]@.len(),
                wanted == parameters@[i as int]@,
                bits@ == wanted.subrange(0, k as int),
            decreases parameters@[i as int]@.len() - k,
        {
            bits.push(parameters[i][k]);
            assert(bits@ =~= wanted.subrange(0, k + 1));
            k = k + 1;
        }
        assert(bits@ =~= wanted);
        assert forall|k: int| 0 <= k < bits@.len() implies #[trigger] bits@[k] < bdd_width(
            *unit_bdd,
        ) by {
            assert(bits@[k] == parameters@[i as int]@[k]);
        }
        functions.push(ParedUpdateFunction::new(&rules[i], unit_bdd, bits));
        i = i + 1;
    }
    functions
}

impl SymbSyncGraph {
    /// Builds the graph of the network `bn`: encodes the network, builds the
    /// transition relation from the rules, and keeps the parametrizations
    /// that meet the declared regulations.
    ///
    /// Fails with `Encoding` exactly if the network cannot be handed to the
    /// encoding or the encoding refuses it, and otherwise with `Constraints`
    /// exactly if no parametrization meets the declared regulations.
    pub fn new(bn: BooleanNetwork) -> (r: Result<SymbSyncGraph, ConstructionError>)
        ensures
            r is Ok <==> is_nameable(bn) && encodable(bn) && !(valid_pairs(bn) =~= Set::<
                Seq<bool>,
            >::empty()),
            r matches Err(ConstructionError::Encoding(_)) <==> !(is_nameable(bn) && encodable(bn)),
            r matches Ok(graph) ==> {
                &&& graph.wf()
                &&& graph.network() == bn
                &&& graph.size() == network_rules(bn).len()
                &&& graph.rule_sets() == network_rule_sets(bn)
                &&& graph.declared() == network_declared(bn)
                &&& graph.unit_set() == valid_pairs(bn)
            },
            r matches Err(ConstructionError::Constraints(violations)) ==> valid_pairs(bn)
                =~= Set::<Seq<bool>>::empty() && violations@ == unmet_regulations(bn),
    {
        match encode(&bn) {
            Some(Ok(context)) => Self::with_context(bn, context),
            Some(Err(message)) => Err(ConstructionError::Encoding(message)),
            None => Err(ConstructionError::Encoding("the network cannot be named".to_owned())),
        }
    }

    /// Builds the graph of the network `bn` from the context that encodes it.
    ///
    /// Fails exactly if no parametrization meets the declared regulations.
    pub fn with_context(bn: BooleanNetwork, context: SymbolicContext) -> (r: Result<
        SymbSyncGraph,
        ConstructionError,
    >)
        requires
            context == encoding_of(bn),
            context_wf(context, network_rules(bn).len()),
        ensures
            r is Ok <==> !(valid_pairs(bn) =~= Set::<Seq<bool>>::empty()),
            r matches Ok(graph) ==> {
                &&& graph.wf()
                &&& graph.network() == bn
                &&& graph.size() == network_rules(bn).len()
                &&& graph.rule_sets() == network_rule_sets(bn)
                &&& graph.declared() == network_declared(bn)
                &&& graph.unit_set() == valid_pairs(bn)
            },
            r matches Err(error) ==> error matches ConstructionError::Constraints(violations)
                && violations@ == unmet_regulations(bn),
    {
        let size = network_size(&bn);
        let width = context_num_vars(&context);
        let state_variables = context_state_vars(&context);
        let extra_variables = context_extra_vars(&context);
        let parameter_variables = context_parameter_vars(&context);
        let regulations = network_regulations(&bn);
        proof {
            let all = state_variables@ + extra_variables@ + parameter_variables@;
            assert forall|k: int| 0 <= k < state_variables@.len() implies
                #[trigger] state_variables@[k] < width by {
                assert(all[k] == state_variables@[k]);
            }
            assert forall|k: int| 0 <= k < extra_variables@.len() implies
                #[trigger] extra_variables@[k] < width by {
                assert(all[state_variables@.len() + k] == extra_variables@[k]);
            }
            assert forall|j: int, k: int| 0 <= j < k < state_variables@.len() implies
                state_variables@[j] != state_variables@[k] by {
                assert(all[j] == state_variables@[j]);
                assert(all[k] == state_variables@[k]);
            }
        }
        let rules = build_rules(&bn, &context, size);
        let rule_parameters = build_rule_parameters(&bn, &context, size);
        proof {
            assert(valuations_of(rules@) =~= network_rule_sets(bn));
        }
        let total_update_function = build_transition(&context, &rules, &extra_variables);
        let extra_state_var_equivalence = build_mirror(&context, &state_variables, &extra_variables);
        let var_index = build_var_index(&state_variables, width);
        let all_false_bdd = context_mk_all_false(&context);
        let everything = context_mk_constant(&context, true);
        match apply_regulation_constraints(
            everything,
            &regulations,
            &rules,
            &state_variables,
            &context,
        ) {
            Ok(unit_bdd) => {
                let pupdate_functions = build_pupdate_functions(&rules, &unit_bdd, rule_parameters);
                let ghost sets = valuations_of(rules@);
                let graph = SymbSyncGraph {
                    bn,
                    context,
                    state_variables,
                    extra_variables,
                    parameter_variables,
                    regulations,
                    unit_bdd,
                    pupdate_functions,
                    total_update_function,
                    extra_state_var_equivalence,
                    var_index,
                    all_false_bdd,
                    rules: Ghost(sets),
                };
                proof {
                    assert forall|i: int| 0 <= i < sets.len() implies (#[trigger] sets[i]).subset_of(
                        valuation_space(graph.width()),
                    ) && ignores(sets[i], graph.scratch()) by {
                        assert(bdd_over(rules@[i], graph.width()));
                    }
                    assert(all_false(graph.width()) =~= Seq::new(graph.width(), |i: int| false));
                }
                Ok(graph)
            },
            Err(violations) => Err(ConstructionError::Constraints(violations)),
        }
    }
}

/// The place of the position `j` in the list `vars`.
pub open spec fn slot(vars: Seq<usize>, j: int) -> int {
    choose|i: int| 0 <= i < vars.len() && vars[i] == j
}

impl SymbSyncGraph {
    /// The place of an extra variable in the list of extra variables is the
    /// network variable that it belongs to.
    pub proof fn lemma_slot(&self, i: int)
        requires
            self.wf(),
            0 <= i < self.size(),
        ensures
            slot(self.extra_vars(), self.extra_vars()[i] as int) == i,
            self.scratch().contains(self.extra_vars()[i] as int),
            !self.scratch().contains(self.state_vars()[i] as int),
            !index_set(self.state_vars()).contains(self.extra_vars()[i] as int),
    {
        self.lemma_positions();
        let extra = self.extra_vars();
        let state = self.state_vars();
        let j = extra[i] as int;
        let found = slot(extra, j);
        assert(0 <= found < extra.len() && extra[found] == j);
        if found != i {
            if found < i {
                assert(extra[found] != extra[i]);
            } else {
                assert(extra[i] != extra[found]);
            }
        }
        if self.scratch().contains(state[i] as int) {
            let k = choose|k: int| 0 <= k < extra.len() && extra[k] == state[i] as int;
            assert(state[i] != extra[k]);
        }
        if index_set(state).contains(j) {
            let k = choose|k: int| 0 <= k < state.len() && state[k] == j;
            assert(state[k] != extra[i]);
        }
    }

    /// The transition relation: the valuations whose extra variables hold
    /// what the rules yield.
    pub fn total_update(&self) -> (r: &Bdd)
        requires
            self.wf(),
        ensures
            bdd_over(*r, self.width()),
            bdd_valuations(*r) == transition_of(
                self.rule_sets(),
                self.extra_vars(),
                self.width(),
                self.size() as int,
            ),
    {
        &self.total_update_function
    }

    /// The mirror relation: the valuations whose extra variables repeat the
    /// state variables.
    pub fn mirror(&self) -> (r: &Bdd)
        requires
            self.wf(),
        ensures
            bdd_over(*r, self.width()),
            bdd_valuations(*r) == mirror_of(
                self.state_vars(),
                self.extra_vars(),
                self.width(),
                self.size() as int,
            ),
    {
        &self.extra_state_var_equivalence
    }

    /// The state variable and the extra variable of a network variable are
    /// different positions, the one outside the extra variables, the other
    /// among them.
    pub proof fn lemma_state_position(&self, i: int)
        requires
            self.wf(),
            0 <= i < self.size(),
        ensures
            self.scratch().contains(self.extra_vars()[i] as int),
            !self.scratch().contains(self.state_vars()[i] as int),
            self.state_vars()[i] < self.width(),
            self.extra_vars()[i] < self.width(),
    {
        self.lemma_slot(i);
        self.lemma_positions();
    }

    /// The state variables ascend in the order of the network variables.
    pub proof fn lemma_ascending(&self)
        requires
            self.wf(),
        ensures
            ascending(self.state_vars()),
    {
    }

    /// A parametrization bit is neither a state variable nor an extra variable.
    pub proof fn lemma_parameter_position(&self, k: int)
        requires
            self.wf(),
            0 <= k < self.parameter_vars().len(),
        ensures
            !self.scratch().contains(self.parameter_vars()[k] as int),
            !index_set(self.state_vars()).contains(self.parameter_vars()[k] as int),
            self.parameter_vars()[k] < self.width(),
    {
        self.lemma_positions();
        let p = self.parameter_vars()[k];
        if self.scratch().contains(p as int) {
            let i = choose|i: int| 0 <= i < self.extra_vars().len() && self.extra_vars()[i] == p;
            assert(self.extra_vars()[i] != self.parameter_vars()[k]);
        }
        if index_set(self.state_vars()).contains(p as int) {
            let i = choose|i: int| 0 <= i < self.state_vars().len() && self.state_vars()[i] == p;
            assert(self.state_vars()[i] != self.parameter_vars()[k]);
        }
    }

    /// The valuation `u` with the extra variables holding what the rules
    /// yield under `u`.
    pub open spec fn with_next(&self, u: Seq<bool>) -> Seq<bool> {
        Seq::new(
            u.len(),
            |j: int|
                if self.scratch().contains(j) {
                    self.rule_sets()[slot(self.extra_vars(), j)].contains(u)
                } else {
                    u[j]
                },
        )
    }

    /// The valuation `w` with the extra variables repeating the state variables.
    pub open spec fn with_copy(&self, w: Seq<bool>) -> Seq<bool> {
        Seq::new(
            w.len(),
            |j: int|
                if self.scratch().contains(j) {
                    w[self.state_vars()[slot(self.extra_vars(), j)] as int]
                } else {
                    w[j]
                },
        )
    }

    /// Storing the next state in the extra variables puts a valuation into
    /// the transition relation.
    pub proof fn lemma_with_next(&self, u: Seq<bool>)
        requires
            self.wf(),
            u.len() == self.width(),
        ensures
            agree_outside(u, self.with_next(u), self.scratch()),
            agree_outside(self.with_next(u), u, self.scratch()),
            transition_of(
                self.rule_sets(),
                self.extra_vars(),
                self.width(),
                self.size() as int,
            ).contains(self.with_next(u)),
    {
        self.lemma_positions();
        let t = self.with_next(u);
        assert forall|i: int| 0 <= i < self.size() implies t[self.extra_vars()[i] as int] == (
        #[trigger] self.rule_sets()[i]).contains(t) by {
            self.lemma_slot(i);
            assert(ignores(self.rule_sets()[i], self.scratch()));
            if self.rule_sets()[i].contains(u) {
                assert(agree_outside(u, t, self.scratch()));
            }
            if self.rule_sets()[i].contains(t) {
                assert(agree_outside(t, u, self.scratch()));
            }
        }
    }

    /// Copying the state into the extra variables puts a valuation into the
    /// mirror relation.
    proof fn lemma_with_copy(&self, w: Seq<bool>)
        requires
            self.wf(),
            w.len() == self.width(),
        ensures
            agree_outside(w, self.with_copy(w), self.scratch()),
            agree_outside(self.with_copy(w), w, self.scratch()),
            mirror_of(
                self.state_vars(),
                self.extra_vars(),
                self.width(),
                self.size() as int,
            ).contains(self.with_copy(w)),
    {
        self.lemma_positions();
        let x = self.with_copy(w);
        assert forall|i: int| 0 <= i < self.size() implies x[(
        #[trigger] self.extra_vars()[i]) as int] == x[self.state_vars()[i] as int] by {
            self.lemma_slot(i);
        }
    }

    /// Intersecting with the transition relation, forgetting the state,
    /// copying the extra variables into the state and forgetting them yields
    /// the successors.
    pub proof fn lemma_post(&self, s: Set<Seq<bool>>)
        requires
            self.wf(),
            s.subset_of(valuation_space(self.width())),
            ignores(s, self.scratch()),
        ensures
            project(
                project(
                    s.intersect(
                        transition_of(
                            self.rule_sets(),
                            self.extra_vars(),
                            self.width(),
                            self.size() as int,
                        ),
                    ),
                    index_set(self.state_vars()),
                ).intersect(
                    mirror_of(
                        self.state_vars(),
                        self.extra_vars(),
                        self.width(),
                        self.size() as int,
                    ),
                ),
                self.scratch(),
            ) == self.successors(s),
    {
        self.lemma_positions();
        let n = self.size() as int;
        let width = self.width();
        let st = index_set(self.state_vars());
        let ex = self.scratch();
        let t_set = transition_of(self.rule_sets(), self.extra_vars(), width, n);
        let q_set = mirror_of(self.state_vars(), self.extra_vars(), width, n);
        let moved = project(s.intersect(t_set), st);
        let left = project(moved.intersect(q_set), ex);
        let right = self.successors(s);
        assert forall|w: Seq<bool>| left.contains(w) implies right.contains(w) by {
            let x = choose|x: Seq<bool>| moved.intersect(q_set).contains(x) && agree_outside(x, w, ex);
            let u = choose|u: Seq<bool>| s.intersect(t_set).contains(u) && agree_outside(u, x, st);
            assert(valuation_space(width).contains(u));
            assert forall|i: int| 0 <= i < n implies w[self.state_vars()[i] as int] == (
            #[trigger] self.rule_sets()[i]).contains(u) by {
                self.lemma_slot(i);
                assert(x[(self.extra_vars()[i]) as int] == x[self.state_vars()[i] as int]);
            }
            assert forall|k: int| 0 <= k < self.parameter_vars().len() implies w[(
            #[trigger] self.parameter_vars()[k]) as int] == u[self.parameter_vars()[k] as int] by {
                self.lemma_parameter_position(k);
            }
            assert(self.step(u, w));
        }
        assert forall|w: Seq<bool>| right.contains(w) implies left.contains(w) by {
            let u = choose|u: Seq<bool>| s.contains(u) && self.step(u, w);
            let t = self.with_next(u);
            let x = self.with_copy(w);
            self.lemma_with_next(u);
            self.lemma_with_copy(w);
            assert(s.contains(t));
            assert forall|j: int| 0 <= j < t.len() && !st.contains(j) implies #[trigger] t[j]
                == x[j] by {
                if ex.contains(j) {
                    let i = slot(self.extra_vars(), j);
                    assert(0 <= i < n && self.extra_vars()[i] == j);
                    assert(w[self.state_vars()[i] as int] == self.rule_sets()[i].contains(u));
                } else {
                    assert(index_set(self.parameter_vars()).contains(j));
                    let k = choose|k: int|
                        0 <= k < self.parameter_vars().len() && self.parameter_vars()[k] == j;
                    assert(w[self.parameter_vars()[k] as int] == u[self.parameter_vars()[k] as int]);
                }
            }
            assert(agree_outside(t, x, st));
            assert(t_set.contains(t));
            assert(s.intersect(t_set).contains(t));
            assert(moved.contains(x));
            assert(moved.intersect(q_set).contains(x));
            assert(agree_outside(x, w, ex));
        }
        assert(left =~= right);
    }

    /// Intersecting with the mirror relation, forgetting the state,
    /// intersecting with the transition relation and forgetting the extra
    /// variables yields the predecessors.
    pub proof fn lemma_pre(&self, s: Set<Seq<bool>>)
        requires
            self.wf(),
            s.subset_of(valuation_space(self.width())),
            ignores(s, self.scratch()),
        ensures
            project(
                project(
                    s.intersect(
                        mirror_of(
                            self.state_vars(),
                            self.extra_vars(),
                            self.width(),
                            self.size() as int,
                        ),
                    ),
                    index_set(self.state_vars()),
                ).intersect(
                    transition_of(
                        self.rule_sets(),
                        self.extra_vars(),
                        self.width(),
                        self.size() as int,
                    ),
                ),
                self.scratch(),
            ) == self.predecessors(s),
    {
        self.lemma_positions();
        let n = self.size() as int;
        let width = self.width();
        let st = index_set(self.state_vars());
        let ex = self.scratch();
        let t_set = transition_of(self.rule_sets(), self.extra_vars(), width, n);
        let q_set = mirror_of(self.state_vars(), self.extra_vars(), width, n);
        let moved = project(s.intersect(q_set), st);
        let left = project(moved.intersect(t_set), ex);
        let right = self.predecessors(s);
        assert forall|a: Seq<bool>| left.contains(a) implies right.contains(a) by {
            let t = choose|t: Seq<bool>| moved.intersect(t_set).contains(t) && agree_outside(t, a, ex);
            let b = choose|b: Seq<bool>| s.intersect(q_set).contains(b) && agree_outside(b, t, st);
            assert(valuation_space(width).contains(b));
            assert forall|i: int| 0 <= i < n implies b[self.state_vars()[i] as int] == (
            #[trigger] self.rule_sets()[i]).contains(a) by {
                self.lemma_slot(i);
                assert(b[(self.extra_vars()[i]) as int] == b[self.state_vars()[i] as int]);
                assert(t[self.extra_vars()[i] as int] == self.rule_sets()[i].contains(t));
                assert(ignores(self.rule_sets()[i], ex));
                if self.rule_sets()[i].contains(t) {
                    assert(agree_outside(t, a, ex));
                }
                if self.rule_sets()[i].contains(a) {
                    assert(agree_outside(a, t, ex));
                }
            }
            assert forall|k: int| 0 <= k < self.parameter_vars().len() implies b[(
            #[trigger] self.parameter_vars()[k]) as int] == a[self.parameter_vars()[k] as int] by {
                self.lemma_parameter_position(k);
            }
            assert(self.step(a, b));
        }
        assert forall|a: Seq<bool>| right.contains(a) implies left.contains(a) by {
            let w = choose|w: Seq<bool>| s.contains(w) && self.step(a, w);
            let b = self.with_copy(w);
            let t = self.with_next(a);
            self.lemma_with_copy(w);
            self.lemma_with_next(a);
            assert(s.contains(b));
            assert forall|j: int| 0 <= j < b.len() && !st.contains(j) implies #[trigger] b[j]
                == t[j] by {
                if ex.contains(j) {
                    let i = slot(self.extra_vars(), j);
                    assert(0 <= i < n && self.extra_vars()[i] == j);
                    assert(w[self.state_vars()[i] as int] == self.rule_sets()[i].contains(a));
                } else {
                    assert(index_set(self.parameter_vars()).contains(j));
                    let k = choose|k: int|
                        0 <= k < self.parameter_vars().len() && self.parameter_vars()[k] == j;
                    assert(w[self.parameter_vars()[k] as int] == a[self.parameter_vars()[k] as int]);
                }
            }
            assert(agree_outside(b, t, st));
            assert(q_set.contains(b));
            assert(s.intersect(q_set).contains(b));
            assert(moved.contains(t));
            assert(moved.intersect(t_set).contains(t));
            assert(agree_outside(t, a, ex));
        }
        assert(left =~= right);
    }

    /// The successors of any set are valuations of the graph's width and do
    /// not depend on the extra variables.
    pub proof fn lemma_successors_colored(&self, s: Set<Seq<bool>>)
        requires
            self.wf(),
        ensures
            self.successors(s).subset_of(valuation_space(self.width())),
            ignores(self.successors(s), self.scratch()),
    {
        self.lemma_positions();
        let ex = self.scratch();
        assert forall|w: Seq<bool>, v: Seq<bool>|
            self.successors(s).contains(w) && #[trigger] agree_outside(
                w,
                v,
                ex,
            ) implies self.successors(s).contains(v) by {
            let u = choose|u: Seq<bool>| s.contains(u) && self.step(u, w);
            assert forall|i: int| 0 <= i < self.size() implies v[self.state_vars()[i] as int] == (
            #[trigger] self.rule_sets()[i]).contains(u) by {
                self.lemma_slot(i);
            }
            assert forall|k: int| 0 <= k < self.parameter_vars().len() implies v[(
            #[trigger] self.parameter_vars()[k]) as int] == u[self.parameter_vars()[k] as int] by {
                self.lemma_parameter_position(k);
            }
            assert(self.step(u, v));
        }
    }

    /// The predecessors of any set are valuations of the graph's width and do
    /// not depend on the extra variables.
    pub proof fn lemma_predecessors_colored(&self, s: Set<Seq<bool>>)
        requires
            self.wf(),
        ensures
            self.predecessors(s).subset_of(valuation_space(self.width())),
            ignores(self.predecessors(s), self.scratch()),
    {
        self.lemma_positions();
        let ex = self.scratch();
        assert forall|a: Seq<bool>, v: Seq<bool>|
            self.predecessors(s).contains(a) && #[trigger] agree_outside(
                a,
                v,
                ex,
            ) implies self.predecessors(s).contains(v) by {
            let w = choose|w: Seq<bool>| s.contains(w) && self.step(a, w);
            assert forall|i: int| 0 <= i < self.size() implies w[self.state_vars()[i] as int] == (
            #[trigger] self.rule_sets()[i]).contains(v) by {
                assert(ignores(self.rule_sets()[i], ex));
                if self.rule_sets()[i].contains(a) {
                    assert(agree_outside(a, v, ex));
                }
                if self.rule_sets()[i].contains(v) {
                    assert(agree_outside(v, a, ex));
                }
            }
            assert forall|k: int| 0 <= k < self.parameter_vars().len() implies w[(
            #[trigger] self.parameter_vars()[k]) as int] == v[self.parameter_vars()[k] as int] by {
                self.lemma_parameter_position(k);
            }
            assert(self.step(v, w));
        }
    }

    /// The successors of `initial` under synchronous update.
    pub fn post_synch(&self, initial: &Bdd) -> (r: Bdd)
        requires
            self.wf(),
            self.is_colored_set(*initial),
        ensures
            self.is_colored_set(r),
            bdd_valuations(r) == self.successors(bdd_valuations(*initial)),
    {
        proof {
            self.lemma_positions();
            self.lemma_post(bdd_valuations(*initial));
            self.lemma_successors_colored(bdd_valuations(*initial));
        }
        let met = bdd_and(initial, &self.total_update_function);
        let moved = bdd_exists(&met, &self.state_variables);
        let copied = bdd_and(&moved, &self.extra_state_var_equivalence);
        bdd_exists(&copied, &self.extra_variables)
    }

    /// The predecessors of `initial` under synchronous update.
    pub fn pre_synch(&self, initial: &Bdd) -> (r: Bdd)
        requires
            self.wf(),
            self.is_colored_set(*initial),
        ensures
            self.is_colored_set(r),
            bdd_valuations(r) == self.predecessors(bdd_valuations(*initial)),
    {
        proof {
            self.lemma_positions();
            self.lemma_pre(bdd_valuations(*initial));
            self.lemma_predecessors_colored(bdd_valuations(*initial));
        }
        let copied = bdd_and(initial, &self.extra_state_var_equivalence);
        let moved = bdd_exists(&copied, &self.state_variables);
        let met = bdd_and(&moved, &self.total_update_function);
        bdd_exists(&met, &self.extra_variables)
    }
}

/// Forgetting the variables `vars` in the valuation that is `false`
/// everywhere leaves the valuations that are `false` outside `vars`.
pub proof fn lemma_project_all_false(vars: Set<int>, width: nat)
    ensures
        project(set![all_false(width)], vars) == false_outside(vars, width),
{
    let left = project(set![all_false(width)], vars);
    let right = false_outside(vars, width);
    assert forall|v: Seq<bool>| left.contains(v) implies right.contains(v) by {
        let u = choose|u: Seq<bool>| set![all_false(width)].contains(u) && agree_outside(u, v, vars);
        assert forall|i: int| 0 <= i < width && !vars.contains(i) implies !v[i] by {
            assert(u[i] == v[i]);
        }
    }
    assert forall|v: Seq<bool>| right.contains(v) implies left.contains(v) by {
        assert(set![all_false(width)].contains(all_false(width)));
        assert(agree_outside(all_false(width), v, vars));
    }
    assert(left =~= right);
}

impl SymbSyncGraph {
    /// The valid pairs do not depend on the extra variables.
    pub proof fn lemma_unit_colored(&self)
        requires
            self.wf(),
        ensures
            self.unit_set().subset_of(valuation_space(self.width())),
            ignores(self.unit_set(), self.scratch()),
    {
        self.lemma_positions();
        lemma_constrained_ignores(
            valuation_space(self.width()),
            self.declared(),
            self.rule_sets(),
            self.state_vars(),
            self.width(),
            self.declared().len() as int,
            self.scratch(),
        );
    }

    /// All states with all valid parametrizations.
    pub fn unit_colored_vertices(&self) -> (r: Bdd)
        requires
            self.wf(),
        ensures
            self.is_colored_set(r),
            bdd_valuations(r) == self.unit_set(),
    {
        proof {
            self.lemma_unit_colored();
        }
        bdd_clone(&self.unit_bdd)
    }

    /// No state and no parametrization.
    pub fn empty_colored_vertices(&self) -> (r: Bdd)
        requires
            self.wf(),
        ensures
            self.is_colored_set(r),
            bdd_valuations(r) == Set::<Seq<bool>>::empty(),
    {
        context_mk_constant(&self.context, false)
    }

    /// The valid parametrizations.
    pub fn unit_colors(&self) -> (r: Bdd)
        requires
            self.wf(),
        ensures
            self.is_colored_set(r),
            bdd_valuations(r) == self.unit_set(),
    {
        proof {
            self.lemma_unit_colored();
        }
        bdd_clone(&self.unit_bdd)
    }

    /// The states in which the network variable `variable` has the value
    /// `value`, with all valid parametrizations.
    pub fn fix_network_variable(&self, variable: usize, value: bool) -> (r: Bdd)
        requires
            self.wf(),
            variable < self.size(),
        ensures
            self.is_colored_set(r),
            bdd_valuations(r) == select(
                self.unit_set(),
                self.state_vars()[variable as int] as int,
                value,
            ),
    {
        proof {
            self.lemma_positions();
            self.lemma_unit_colored();
            self.lemma_slot(variable as int);
        }
        let var = self.state_variables[variable];
        let r = bdd_var_select(&self.unit_bdd, var, value);
        proof {
            assert forall|u: Seq<bool>, v: Seq<bool>|
                bdd_valuations(r).contains(u) && #[trigger] agree_outside(
                    u,
                    v,
                    self.scratch(),
                ) implies bdd_valuations(r).contains(v) by {
                assert(self.unit_set().contains(u));
            }
        }
        r
    }

    /// `get_pupdate_functions` with each rule instantiated as `explicit_in` says.
    pub fn explicit_pupdate_functions(&self, colors: &Bdd) -> (r: Vec<Vec<Bdd>>)
        requires
            self.wf(),
            bdd_over(*colors, self.width()),
        ensures
            r@.len() == self.size(),
            are_forms(r@),
            forall|i: int|
                0 <= i < r@.len() ==> (#[trigger] self.update_functions()[i]).is_explicit_form(
                    r@[i]@,
                    *colors,
                ),
    {
        let mut all: Vec<Vec<Bdd>> = Vec::new();
        let mut i: usize = 0;
        while i < self.pupdate_functions.len()
            invariant
                i <= self.pupdate_functions@.len(),
                self.wf(),
                bdd_over(*colors, self.width()),
                all@.len() == i,
                forall|k: int|
                    0 <= k < all@.len() ==> (#[trigger] self.update_functions()[k]).is_explicit_form(
                        all@[k]@,
                        *colors,
                    ),
            decreases self.pupdate_functions@.len() - i,
        {
            let one = self.pupdate_functions[i].explicit_in(colors, self);
            all.push(one);
            i = i + 1;
        }
        proof {
            assert forall|i: int, k: int|
                0 <= i < all@.len() && 0 <= k < all@[i]@.len() implies bdd_wf(
                #[trigger] all@[i]@[k],
            ) by {
                assert(self.update_functions()[i].is_explicit_form(all@[i]@, *colors));
            }
        }
        all
    }
}

impl ParedUpdateFunction {
    /// The colors among `colors` that tell the instantiations of the rule
    /// apart: `colors` as far as the rule depends on them, with every
    /// variable that is no parametrization bit of the rule set to `false`.
    pub open spec fn instantiations(&self, colors: Bdd) -> Set<Seq<bool>> {
        project(
            bdd_valuations(colors),
            unsupported(bdd_support(colors), self.support(), self.width() as int),
        ).intersect(false_outside(index_set(self.parameters()), self.width()))
    }

    /// `forms` holds the rule once for each of its instantiations under
    /// `colors`, each with the parametrization bits set as the instantiation says.
    pub open spec fn is_explicit_form(&self, forms: Seq<Bdd>, colors: Bdd) -> bool {
        exists|chosen: Seq<Seq<bool>>|
            {
                &&& chosen.no_duplicates()
                &&& chosen.to_set() == self.instantiations(colors)
                &&& #[trigger] chosen.len() == forms.len()
                &&& forall|k: int|
                    0 <= k < forms.len() ==> bdd_over(#[trigger] forms[k], self.width())
                        && bdd_valuations(forms[k]) == instantiated(
                        self.function_set(),
                        index_set(self.parameters()),
                        chosen[k],
                        self.width(),
                    )
            }
    }

    /// The explicit form of the rule under `colors`: the rule once for each
    /// of its instantiations, so that a simulation can walk them.
    pub fn explicit_in(&self, colors: &Bdd, sync_graph: &SymbSyncGraph) -> (r: Vec<Bdd>)
        requires
            self.wf(),
            sync_graph.wf(),
            self.width() == sync_graph.width(),
            bdd_over(*colors, self.width()),
        ensures
            self.is_explicit_form(r@, *colors),
    {
        let kept = self.restricted_parametrizations(bdd_clone(colors));
        let others_false = bdd_exists(sync_graph.get_all_false(), &self.par_bdd_vars);
        let told_apart = bdd_and(&kept, &others_false);
        let chosen = bdd_sat_valuations(&told_apart);
        proof {
            lemma_project_all_false(index_set(self.parameters()), self.width());
            assert(bdd_valuations(told_apart) =~= self.instantiations(*colors));
        }
        let ghost list = chosen.deep_view();
        let mut forms: Vec<Bdd> = Vec::new();
        let mut k: usize = 0;
        while k < chosen.len()
            invariant
                k <= chosen@.len(),
                self.wf(),
                list == chosen.deep_view(),
                list.to_set() == self.instantiations(*colors),
                forms@.len() == k,
                forall|j: int|
                    0 <= j < forms@.len() ==> bdd_over(#[trigger] forms@[j], self.width())
                        && bdd_valuations(forms@[j]) == instantiated(
                        self.function_set(),
                        index_set(self.parameters()),
                        list[j],
                        self.width(),
                    ),
            decreases chosen@.len() - k,
        {
            proof {
                assert(list[k as int] == chosen@[k as int]@);
                assert(list.to_set().contains(list[k as int]));
                assert(false_outside(index_set(self.parameters()), self.width()).contains(
                    list[k as int],
                ));
            }
            let form = self.restricted(&chosen[k]);
            forms.push(form);
            k = k + 1;
        }
        proof {
            assert(list.len() == forms@.len());
        }
        forms
    }
}

/// Every diagram of `explicit` is well-formed.
pub open spec fn are_forms(explicit: Seq<Vec<Bdd>>) -> bool {
    forall|i: int, k: int|
        0 <= i < explicit.len() && 0 <= k < explicit[i]@.len() ==> bdd_wf(
            #[trigger] explicit[i]@[k],
        )
}

impl SymbSyncGraph {
    /// Two valuations hold the same parametrization.
    pub open spec fn same_color(&self, x: Seq<bool>, y: Seq<bool>) -> bool {
        forall|k: int|
            0 <= k < self.parameter_vars().len() ==> x[(
            #[trigger] self.parameter_vars()[k]) as int] == y[self.parameter_vars()[k] as int]
    }

    /// The members of `colors` that hold the parametrization of `witness`.
    pub open spec fn color_of(&self, colors: Set<Seq<bool>>, witness: Seq<bool>) -> Set<Seq<bool>> {
        Set::new(|v: Seq<bool>| colors.contains(v) && self.same_color(v, witness))
    }

    /// One parametrization of `colors`: the members of `colors` that hold
    /// the parametrization of one of them. Nothing if `colors` is empty.
    pub fn pick_color(&self, colors: &Bdd) -> (r: Bdd)
        requires
            self.wf(),
            bdd_over(*colors, self.width()),
        ensures
            bdd_over(r, self.width()),
            bdd_valuations(r).subset_of(bdd_valuations(*colors)),
            bdd_valuations(*colors) =~= Set::<Seq<bool>>::empty() ==> bdd_valuations(r)
                =~= Set::<Seq<bool>>::empty(),
            !(bdd_valuations(*colors) =~= Set::<Seq<bool>>::empty()) ==> exists|
                witness: Seq<bool>,
            |
                #[trigger] bdd_valuations(*colors).contains(witness) && bdd_valuations(r)
                    == self.color_of(bdd_valuations(*colors), witness),
    {
        match bdd_sat_witness(colors) {
            None => bdd_clone(colors),
            Some(witness) => {
                let ghost whole = bdd_valuations(*colors);
                let mut acc = bdd_clone(colors);
                let mut k: usize = 0;
                proof {
                    assert(valuation_space(self.width()).contains(witness@));
                }
                while k < self.parameter_variables().len()
                    invariant
                        self.wf(),
                        k <= self.parameter_vars().len(),
                        witness@.len() == self.width(),
                        whole == bdd_valuations(*colors),
                        bdd_over(acc, self.width()),
                        bdd_valuations(acc) == Set::new(
                            |v: Seq<bool>|
                                whole.contains(v) && forall|j: int|
                                    0 <= j < k ==> v[(#[trigger] self.parameter_vars()[j]) as int]
                                        == witness@[self.parameter_vars()[j] as int],
                        ),
                    decreases self.parameter_vars().len() - k,
                {
                    let var = self.parameter_variables()[k];
                    let ghost before = bdd_valuations(acc);
                    acc = bdd_var_select(&acc, var, witness[var]);
                    proof {
                        let after = Set::new(
                            |v: Seq<bool>|
                                whole.contains(v) && forall|j: int|
                                    0 <= j < k + 1 ==> v[(
                                    #[trigger] self.parameter_vars()[j]) as int]
                                        == witness@[self.parameter_vars()[j] as int],
                        );
                        assert forall|v: Seq<bool>| bdd_valuations(acc).contains(
                            v,
                        ) implies after.contains(v) by {
                            assert(before.contains(v));
                        }
                        assert forall|v: Seq<bool>| after.contains(v) implies bdd_valuations(
                            acc,
                        ).contains(v) by {
                            assert(v[(self.parameter_vars()[k as int]) as int]
                                == witness@[self.parameter_vars()[k as int] as int]);
                            assert(before.contains(v));
                        }
                        assert(bdd_valuations(acc) =~= after);
                    }
                    k = k + 1;
                }
                proof {
                    assert(bdd_valuations(acc) =~= self.color_of(whole, witness@));
                    assert(whole.contains(witness@));
                }
                acc
            },
        }
    }
}

impl SymbSyncGraph {
    /// The states of `set`, under whatever parametrization: `set` with the
    /// parametrization bits forgotten.
    pub fn vertices(&self, set: &Bdd) -> (r: Bdd)
        requires
            self.wf(),
            self.is_colored_set(*set),
        ensures
            self.is_colored_set(r),
            bdd_valuations(r) == project(bdd_valuations(*set), index_set(self.parameter_vars())),
    {
        proof {
            crate::bdd::lemma_project_ignores(
                bdd_valuations(*set),
                index_set(self.parameter_vars()),
                self.scratch(),
            );
        }
        bdd_exists(set, self.parameter_variables())
    }

    /// The parametrizations of `set`, in whatever state: `set` with the
    /// state variables forgotten.
    pub fn colors(&self, set: &Bdd) -> (r: Bdd)
        requires
            self.wf(),
            self.is_colored_set(*set),
        ensures
            self.is_colored_set(r),
            bdd_valuations(r) == project(bdd_valuations(*set), index_set(self.state_vars())),
    {
        proof {
            crate::bdd::lemma_project_ignores(
                bdd_valuations(*set),
                index_set(self.state_vars()),
                self.scratch(),
            );
        }
        bdd_exists(set, self.state_variables())
    }
}

impl SymbSyncGraph {
    /// Two valuations hold the same state.
    pub open spec fn same_vertex(&self, x: Seq<bool>, y: Seq<bool>) -> bool {
        forall|i: int|
            0 <= i < self.state_vars().len() ==> x[(#[trigger] self.state_vars()[i]) as int]
                == y[self.state_vars()[i] as int]
    }

    /// The members of `vertices` that hold the state of `witness`.
    pub open spec fn vertex_of(&self, vertices: Set<Seq<bool>>, witness: Seq<bool>) -> Set<
        Seq<bool>,
    > {
        Set::new(|v: Seq<bool>| vertices.contains(v) && self.same_vertex(v, witness))
    }

    /// One state of `vertices`: the members of `vertices` that hold the
    /// state of one of them. Nothing if `vertices` is empty.
    pub fn pick_state(&self, vertices: &Bdd) -> (r: Bdd)
        requires
            self.wf(),
            bdd_over(*vertices, self.width()),
        ensures
            bdd_over(r, self.width()),
            bdd_valuations(r).subset_of(bdd_valuations(*vertices)),
            bdd_valuations(*vertices) =~= Set::<Seq<bool>>::empty() ==> bdd_valuations(r)
                =~= Set::<Seq<bool>>::empty(),
            !(bdd_valuations(*vertices) =~= Set::<Seq<bool>>::empty()) ==> exists|
                witness: Seq<bool>,
            |
                #[trigger] bdd_valuations(*vertices).contains(witness) && bdd_valuations(r)
                    == self.vertex_of(bdd_valuations(*vertices), witness),
    {
        match bdd_sat_witness(vertices) {
            None => bdd_clone(vertices),
            Some(witness) => {
                let ghost whole = bdd_valuations(*vertices);
                let mut acc = bdd_clone(vertices);
                let mut k: usize = 0;
                proof {
                    assert(valuation_space(self.width()).contains(witness@));
                }
                while k < self.state_variables().len()
                    invariant
                        self.wf(),
                        k <= self.state_vars().len(),
                        witness@.len() == self.width(),
                        whole == bdd_valuations(*vertices),
                        bdd_over(acc, self.width()),
                        bdd_valuations(acc) == Set::new(
                            |v: Seq<bool>|
                                whole.contains(v) && forall|j: int|
                                    0 <= j < k ==> v[(#[trigger] self.state_vars()[j]) as int]
                                        == witness@[self.state_vars()[j] as int],
                        ),
                    decreases self.state_vars().len() - k,
                {
                    let var = self.state_variables()[k];
                    let ghost before = bdd_valuations(acc);
                    acc = bdd_var_select(&acc, var, witness[var]);
                    proof {
                        let after = Set::new(
                            |v: Seq<bool>|
                                whole.contains(v) && forall|j: int|
                                    0 <= j < k + 1 ==> v[(#[trigger] self.state_vars()[j]) as int]
                                        == witness@[self.state_vars()[j] as int],
                        );
                        assert forall|v: Seq<bool>| bdd_valuations(acc).contains(
                            v,
                        ) implies after.contains(v) by {
                            assert(before.contains(v));
                        }
                        assert forall|v: Seq<bool>| after.contains(v) implies bdd_valuations(
                            acc,
                        ).contains(v) by {
                            assert(v[(self.state_vars()[k as int]) as int]
                                == witness@[self.state_vars()[k as int] as int]);
                            assert(before.contains(v));
                        }
                        assert(bdd_valuations(acc) =~= after);
                    }
                    k = k + 1;
                }
                proof {
                    assert(bdd_valuations(acc) =~= self.vertex_of(whole, witness@));
                    assert(whole.contains(witness@));
                }
                acc
            },
        }
    }
}

} // verus!
