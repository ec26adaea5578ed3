//! The constraints that the declared regulations put on the parametrizations.
use vstd::prelude::*;
use biodivine_lib_bdd::Bdd;
use biodivine_lib_param_bn::symbolic_async_graph::SymbolicContext;
use crate::bdd::{
    agree_outside, bdd_and, bdd_exists, bdd_is_false, bdd_not, bdd_over, bdd_valuations,
    bdd_var_exists, bdd_xor, ignores, index_set, project, restrict, select, valuation_space,
};
use crate::network::{context_mk_constant, context_mk_literal, context_width, Regulation, Sign};

verus! {

/// What a regulation asks for and no parametrization gives.
#[derive(Debug, Clone, Copy, PartialEq, Eq, Structural)]
pub enum ViolationKind {
    /// The regulator has no effect on the target.
    NoEffect,
    /// The effect of the regulator does not have the declared direction.
    WrongDirection(Sign),
}

/// A regulation that no parametrization satisfies.
#[derive(Debug, Clone, Copy, PartialEq, Eq, Structural)]
pub struct Violation {
    pub regulator: usize,
    pub target: usize,
    pub kind: ViolationKind,
}

/// Under the valuation `u`, the value of the rule changes with the value of `var`.
pub open spec fn has_effect(rule: Set<Seq<bool>>, var: int, u: Seq<bool>) -> bool {
    rule.contains(u.update(var, true)) != rule.contains(u.update(var, false))
}

/// Under the valuation `u`, the rule moves against the direction `sign` when
/// `var` rises.
pub open spec fn breaks_direction(rule: Set<Seq<bool>>, var: int, sign: Sign, u: Seq<bool>) -> bool {
    match sign {
        Sign::Activation => rule.contains(u.update(var, false)) && !rule.contains(
            u.update(var, true),
        ),
        Sign::Inhibition => !rule.contains(u.update(var, false)) && rule.contains(
            u.update(var, true),
        ),
    }
}

/// The valuations whose parametrization lets `var` have an effect on the rule
/// in some state: those that agree outside the state variables with a
/// valuation under which the effect shows.
pub open spec fn observable_set(
    rule: Set<Seq<bool>>,
    var: int,
    state: Set<int>,
    width: nat,
) -> Set<Seq<bool>> {
    Set::new(
        |v: Seq<bool>|
            v.len() == width && exists|u: Seq<bool>|
                agree_outside(u, v, state) && has_effect(rule, var, u),
    )
}

/// The valuations whose parametrization lets the rule follow the direction
/// `sign` in every state.
pub open spec fn monotone_set(
    rule: Set<Seq<bool>>,
    var: int,
    sign: Sign,
    state: Set<int>,
    width: nat,
) -> Set<Seq<bool>> {
    Set::new(
        |v: Seq<bool>|
            v.len() == width && !exists|u: Seq<bool>|
                agree_outside(u, v, state) && breaks_direction(rule, var, sign, u),
    )
}

/// The valuations that meet the observability part of a regulation.
pub open spec fn observability_of(
    regulation: Regulation,
    rule: Set<Seq<bool>>,
    state_variables: Seq<usize>,
    width: nat,
) -> Set<Seq<bool>> {
    if regulation.observable {
        observable_set(
            rule,
            state_variables[regulation.regulator as int] as int,
            index_set(state_variables),
            width,
        )
    } else {
        valuation_space(width)
    }
}

/// The valuations that meet the monotonicity part of a regulation.
pub open spec fn monotonicity_of(
    regulation: Regulation,
    rule: Set<Seq<bool>>,
    state_variables: Seq<usize>,
    width: nat,
) -> Set<Seq<bool>> {
    match regulation.monotonicity {
        Some(sign) => monotone_set(
            rule,
            state_variables[regulation.regulator as int] as int,
            sign,
            index_set(state_variables),
            width,
        ),
        None => valuation_space(width),
    }
}

/// The members of `initial` that meet both parts of each of the first `upto`
/// regulations.
pub open spec fn constrained(
    initial: Set<Seq<bool>>,
    regulations: Seq<Regulation>,
    rules: Seq<Set<Seq<bool>>>,
    state_variables: Seq<usize>,
    width: nat,
    upto: int,
) -> Set<Seq<bool>>
    decreases upto,
{
    if upto <= 0 {
        initial
    } else {
        let regulation = regulations[upto - 1];
        let rule = rules[regulation.target as int];
        constrained(initial, regulations, rules, state_variables, width, upto - 1).intersect(
            monotonicity_of(regulation, rule, state_variables, width).intersect(
                observability_of(regulation, rule, state_variables, width),
            ),
        )
    }
}

/// The regulations among the first `upto` that no valuation meets, part by
/// part and in order: for each regulation the observability before the
/// monotonicity.
pub open spec fn violations_of(
    regulations: Seq<Regulation>,
    rules: Seq<Set<Seq<bool>>>,
    state_variables: Seq<usize>,
    width: nat,
    upto: int,
) -> Seq<Violation>
    decreases upto,
{
    if upto <= 0 {
        Seq::empty()
    } else {
        let regulation = regulations[upto - 1];
        let rule = rules[regulation.target as int];
        let before = violations_of(regulations, rules, state_variables, width, upto - 1);
        let first = if observability_of(regulation, rule, state_variables, width)
            =~= Set::<Seq<bool>>::empty() {
            before.push(
                Violation {
                    regulator: regulation.regulator,
                    target: regulation.target,
                    kind: ViolationKind::NoEffect,
                },
            )
        } else {
            before
        };
        match regulation.monotonicity {
            Some(sign) => if monotonicity_of(regulation, rule, state_variables, width)
                =~= Set::<Seq<bool>>::empty() {
                first.push(
                    Violation {
                        regulator: regulation.regulator,
                        target: regulation.target,
                        kind: ViolationKind::WrongDirection(sign),
                    },
                )
            } else {
                first
            },
            None => first,
        }
    }
}

/// The views of a list of diagrams.
pub open spec fn valuations_of(rules: Seq<Bdd>) -> Seq<Set<Seq<bool>>> {
    Seq::new(rules.len(), |i: int| bdd_valuations(rules[i]))
}

/// Selecting a value for a variable and then forgetting the variable is
/// restricting the variable to that value.
pub proof fn lemma_select_then_forget(s: Set<Seq<bool>>, var: int, value: bool, width: nat)
    requires
        s.subset_of(valuation_space(width)),
        0 <= var < width,
    ensures
        project(select(s, var, value), set![var]) == restrict(s, var, value, width),
{
    let left = project(select(s, var, value), set![var]);
    let right = restrict(s, var, value, width);
    assert forall|v: Seq<bool>| left.contains(v) implies right.contains(v) by {
        let u = choose|u: Seq<bool>|
            select(s, var, value).contains(u) && agree_outside(u, v, set![var]);
        assert(valuation_space(width).contains(u));
        assert forall|i: int| 0 <= i < u.len() implies u[i] == v.update(var, value)[i] by {
            if i != var {
                assert(!set![var].contains(i));
            }
        }
        assert(u =~= v.update(var, value));
    }
    assert forall|v: Seq<bool>| right.contains(v) implies left.contains(v) by {
        let u = v.update(var, value);
        assert(select(s, var, value).contains(u));
        assert(agree_outside(u, v, set![var]));
    }
    assert(left =~= right);
}

/// The diagram of the valuations under which the rule, with `var` set to
/// `value`, is `true` (or `false`, for a complemented rule).
fn rule_at(rule: &Bdd, context: &SymbolicContext, var: usize, value: bool) -> (r: Bdd)
    requires
        bdd_over(*rule, context_width(*context)),
        var < context_width(*context),
    ensures
        bdd_over(r, context_width(*context)),
        bdd_valuations(r) == restrict(
            bdd_valuations(*rule),
            var as int,
            value,
            context_width(*context),
        ),
{
    let lit = context_mk_literal(context, var, value);
    let both = bdd_and(rule, &lit);
    let r = bdd_var_exists(&both, var);
    proof {
        let width = context_width(*context);
        assert(bdd_valuations(both) =~= select(bdd_valuations(*rule), var as int, value));
        lemma_select_then_forget(bdd_valuations(*rule), var as int, value, width);
    }
    r
}

/// The diagram of the valuations that meet the observability part of a regulation.
fn observability(
    regulation: &Regulation,
    rule: &Bdd,
    state_variables: &Vec<usize>,
    context: &SymbolicContext,
) -> (r: Bdd)
    requires
        bdd_over(*rule, context_width(*context)),
        regulation.regulator < state_variables@.len(),
        forall|k: int|
            0 <= k < state_variables@.len() ==> #[trigger] state_variables@[k] < context_width(
                *context,
            ),
    ensures
        bdd_over(r, context_width(*context)),
        bdd_valuations(r) == observability_of(
            *regulation,
            bdd_valuations(*rule),
            state_variables@,
            context_width(*context),
        ),
{
    if regulation.observable {
        let var = state_variables[regulation.regulator];
        let at_one = rule_at(rule, context, var, true);
        let at_zero = rule_at(rule, context, var, false);
        let differ = bdd_xor(&at_one, &at_zero);
        let r = bdd_exists(&differ, state_variables);
        proof {
            let width = context_width(*context);
            let rule_set = bdd_valuations(*rule);
            let state = index_set(state_variables@);
            let target = observable_set(rule_set, var as int, state, width);
            assert forall|v: Seq<bool>| bdd_valuations(r).contains(v) implies target.contains(
                v,
            ) by {
                let u = choose|u: Seq<bool>|
                    bdd_valuations(differ).contains(u) && agree_outside(u, v, state);
                assert(valuation_space(width).contains(u));
                assert(has_effect(rule_set, var as int, u));
                assert(valuation_space(width).contains(v));
            }
            assert forall|v: Seq<bool>| target.contains(v) implies bdd_valuations(r).contains(
                v,
            ) by {
                let u = choose|u: Seq<bool>|
                    agree_outside(u, v, state) && has_effect(rule_set, var as int, u);
                assert(bdd_valuations(differ).contains(u));
            }
            assert(bdd_valuations(r) =~= target);
        }
        r
    } else {
        context_mk_constant(context, true)
    }
}

/// The diagram of the valuations that meet the monotonicity part of a regulation.
fn monotonicity(
    regulation: &Regulation,
    rule: &Bdd,
    state_variables: &Vec<usize>,
    context: &SymbolicContext,
) -> (r: Bdd)
    requires
        bdd_over(*rule, context_width(*context)),
        regulation.regulator < state_variables@.len(),
        forall|k: int|
            0 <= k < state_variables@.len() ==> #[trigger] state_variables@[k] < context_width(
                *context,
            ),
    ensures
        bdd_over(r, context_width(*context)),
        bdd_valuations(r) == monotonicity_of(
            *regulation,
            bdd_valuations(*rule),
            state_variables@,
            context_width(*context),
        ),
{
    let ghost width = context_width(*context);
    let ghost rule_set = bdd_valuations(*rule);
    let ghost state = index_set(state_variables@);
    match regulation.monotonicity {
        Some(sign) => {
            let var = state_variables[regulation.regulator];
            let negated = bdd_not(rule);
            let (falls, rises) = match sign {
                Sign::Activation => (
                    rule_at(&negated, context, var, true),
                    rule_at(rule, context, var, false),
                ),
                Sign::Inhibition => (
                    rule_at(&negated, context, var, false),
                    rule_at(rule, context, var, true),
                ),
            };
            let reversed = bdd_and(&rises, &falls);
            let witnessed = bdd_exists(&reversed, state_variables);
            let r = bdd_not(&witnessed);
            proof {
                let target = monotone_set(rule_set, var as int, sign, state, width);
                assert forall|u: Seq<bool>| u.len() == width implies (bdd_valuations(
                    reversed,
                ).contains(u) <==> breaks_direction(rule_set, var as int, sign, u)) by {
                    assert(u.update(var as int, true).len() == width);
                    assert(u.update(var as int, false).len() == width);
                }
                assert forall|v: Seq<bool>| bdd_valuations(r).contains(v) implies target.contains(
                    v,
                ) by {
                    if exists|u: Seq<bool>|
                        agree_outside(u, v, state) && breaks_direction(
                            rule_set,
                            var as int,
                            sign,
                            u,
                        ) {
                        let u = choose|u: Seq<bool>|
                            agree_outside(u, v, state) && breaks_direction(
                                rule_set,
                                var as int,
                                sign,
                                u,
                            );
                        assert(bdd_valuations(reversed).contains(u));
                        assert(bdd_valuations(witnessed).contains(v));
                    }
                }
                assert forall|v: Seq<bool>| target.contains(v) implies bdd_valuations(r).contains(
                    v,
                ) by {
                    if bdd_valuations(witnessed).contains(v) {
                        let u = choose|u: Seq<bool>|
                            bdd_valuations(reversed).contains(u) && agree_outside(u, v, state);
                        assert(valuation_space(width).contains(u));
                        assert(breaks_direction(rule_set, var as int, sign, u));
                    }
                }
                assert(bdd_valuations(r) =~= target);
            }
            r
        },
        None => {
            let none = context_mk_constant(context, false);
            let r = bdd_not(&none);
            proof {
                assert(bdd_valuations(r) =~= valuation_space(width));
            }
            r
        },
    }
}

/// Restricts `initial` to the valuations that meet every declared regulation:
/// each regulation that is declared observable must show an effect in some
/// state, and each that declares a direction must follow it in every state.
///
/// Returns the restricted set if it is not empty, and otherwise the
/// regulations that no valuation at all meets.
pub fn apply_regulation_constraints(
    initial: Bdd,
    regulations: &Vec<Regulation>,
    rules: &Vec<Bdd>,
    state_variables: &Vec<usize>,
    context: &SymbolicContext,
) -> (r: Result<Bdd, Vec<Violation>>)
    requires
        bdd_over(initial, context_width(*context)),
        forall|k: int|
            0 <= k < rules@.len() ==> bdd_over(#[trigger] rules@[k], context_width(*context)),
        forall|k: int|
            0 <= k < regulations@.len() ==> (#[trigger] regulations@[k]).regulator
                < state_variables@.len() && regulations@[k].target < rules@.len(),
        forall|k: int|
            0 <= k < state_variables@.len() ==> #[trigger] state_variables@[k] < context_width(
                *context,
            ),
    ensures
        match r {
            Ok(unit) => {
                &&& bdd_over(unit, context_width(*context))
                &&& bdd_valuations(unit) == constrained(
                    bdd_valuations(initial),
                    regulations@,
                    valuations_of(rules@),
                    state_variables@,
                    context_width(*context),
                    regulations@.len() as int,
                )
                &&& !(bdd_valuations(unit) =~= Set::<Seq<bool>>::empty())
            },
            Err(violations) => {
                &&& constrained(
                    bdd_valuations(initial),
                    regulations@,
                    valuations_of(rules@),
                    state_variables@,
                    context_width(*context),
                    regulations@.len() as int,
                ) =~= Set::<Seq<bool>>::empty()
                &&& violations@ == violations_of(
                    regulations@,
                    valuations_of(rules@),
                    state_variables@,
                    context_width(*context),
                    regulations@.len() as int,
                )
            },
        },
{
    let ghost width = context_width(*context);
    let ghost sets = valuations_of(rules@);
    let ghost start = bdd_valuations(initial);
    let mut violations: Vec<Violation> = Vec::new();
    let mut unit_bdd = initial;
    let mut i: usize = 0;
    while i < regulations.len()
        invariant
            i <= regulations@.len(),
            width == context_width(*context),
            sets == valuations_of(rules@),
            bdd_over(unit_bdd, width),
            bdd_valuations(unit_bdd) == constrained(
                start,
                regulations@,
                sets,
                state_variables@,
                width,
                i as int,
            ),
            violations@ == violations_of(regulations@, sets, state_variables@, width, i as int),
            forall|k: int| 0 <= k < rules@.len() ==> bdd_over(#[trigger] rules@[k], width),
            forall|k: int|
                0 <= k < regulations@.len() ==> (#[trigger] regulations@[k]).regulator
                    < state_variables@.len() && regulations@[k].target < rules@.len(),
            forall|k: int|
                0 <= k < state_variables@.len() ==> #[trigger] state_variables@[k] < width,
        decreases regulations@.len() - i,
    {
        let regulation = regulations[i];
        let rule = &rules[regulation.target];
        assert(sets[regulation.target as int] == bdd_valuations(*rule));
        let observable = observability(&regulation, rule, state_variables, context);
        if bdd_is_false(&observable) {
            violations.push(
                Violation {
                    regulator: regulation.regulator,
                    target: regulation.target,
                    kind: ViolationKind::NoEffect,
                },
            );
        }
        let monotone = monotonicity(&regulation, rule, state_variables, context);
        if bdd_is_false(&monotone) {
            match regulation.monotonicity {
                Some(sign) => {
                    violations.push(
                        Violation {
                            regulator: regulation.regulator,
                            target: regulation.target,
                            kind: ViolationKind::WrongDirection(sign),
                        },
                    );
                },
                None => {
                    proof {
                        assert(valuation_space(width).contains(Seq::new(width, |j: int| false)));
                    }
                },
            }
        }
        let both = bdd_and(&monotone, &observable);
        unit_bdd = bdd_and(&unit_bdd, &both);
        i = i + 1;
    }
    if bdd_is_false(&unit_bdd) {
        Err(violations)
    } else {
        Ok(unit_bdd)
    }
}

/// The valuation `u` with the value of `v` at each position in `vars`.
pub open spec fn patched(u: Seq<bool>, v: Seq<bool>, vars: Set<int>) -> Seq<bool> {
    Seq::new(
        u.len(),
        |j: int|
            if vars.contains(j) {
                v[j]
            } else {
                u[j]
            },
    )
}

/// A rule that ignores some positions shows the same effects, and the same
/// breaks of direction, under two valuations that differ only there.
proof fn lemma_effect_ignores(
    rule: Set<Seq<bool>>,
    var: int,
    u: Seq<bool>,
    w: Seq<bool>,
    vars: Set<int>,
)
    requires
        ignores(rule, vars),
        agree_outside(u, w, vars),
        0 <= var < u.len(),
    ensures
        has_effect(rule, var, u) == has_effect(rule, var, w),
        forall|sign: Sign|
            breaks_direction(rule, var, sign, u) == breaks_direction(rule, var, sign, w),
{
    assert forall|value: bool|
        rule.contains(u.update(var, value)) == rule.contains(w.update(var, value)) by {
        if rule.contains(u.update(var, value)) {
            assert(agree_outside(u.update(var, value), w.update(var, value), vars));
        }
        if rule.contains(w.update(var, value)) {
            assert(agree_outside(w.update(var, value), u.update(var, value), vars));
        }
    }
    assert(rule.contains(u.update(var, true)) == rule.contains(w.update(var, true)));
    assert(rule.contains(u.update(var, false)) == rule.contains(w.update(var, false)));
}

/// Both parts of a regulation ignore the positions that the rule ignores,
/// as long as no state variable is among them.
pub proof fn lemma_parts_ignore(
    regulation: Regulation,
    rule: Set<Seq<bool>>,
    state_variables: Seq<usize>,
    width: nat,
    vars: Set<int>,
)
    requires
        ignores(rule, vars),
        0 <= regulation.regulator < state_variables.len(),
        state_variables[regulation.regulator as int] < width,
    ensures
        ignores(observability_of(regulation, rule, state_variables, width), vars),
        ignores(monotonicity_of(regulation, rule, state_variables, width), vars),
{
    let state = index_set(state_variables);
    let var = state_variables[regulation.regulator as int] as int;
    let obs = observability_of(regulation, rule, state_variables, width);
    let mono = monotonicity_of(regulation, rule, state_variables, width);
    assert forall|v: Seq<bool>, w: Seq<bool>|
        obs.contains(v) && #[trigger] agree_outside(v, w, vars) implies obs.contains(w) by {
        if regulation.observable {
            let u = choose|u: Seq<bool>| agree_outside(u, v, state) && has_effect(rule, var, u);
            let moved = patched(u, w, vars);
            assert(agree_outside(u, moved, vars));
            lemma_effect_ignores(rule, var, u, moved, vars);
            assert(agree_outside(moved, w, state));
        }
    }
    assert forall|v: Seq<bool>, w: Seq<bool>|
        mono.contains(v) && #[trigger] agree_outside(v, w, vars) implies mono.contains(w) by {
        match regulation.monotonicity {
            Some(sign) => {
                if exists|u: Seq<bool>|
                    agree_outside(u, w, state) && breaks_direction(rule, var, sign, u) {
                    let u = choose|u: Seq<bool>|
                        agree_outside(u, w, state) && breaks_direction(rule, var, sign, u);
                    let moved = patched(u, v, vars);
                    assert(agree_outside(u, moved, vars));
                    lemma_effect_ignores(rule, var, u, moved, vars);
                    assert(agree_outside(moved, v, state));
                }
            },
            None => {},
        }
    }
}

/// What the regulations leave of a set ignores the positions that the set
/// and the rules ignore.
pub proof fn lemma_constrained_ignores(
    initial: Set<Seq<bool>>,
    regulations: Seq<Regulation>,
    rules: Seq<Set<Seq<bool>>>,
    state_variables: Seq<usize>,
    width: nat,
    upto: int,
    vars: Set<int>,
)
    requires
        0 <= upto <= regulations.len(),
        ignores(initial, vars),
        forall|k: int|
            0 <= k < regulations.len() ==> (#[trigger] regulations[k]).target < rules.len()
                && regulations[k].regulator < state_variables.len(),
        forall|i: int| 0 <= i < state_variables.len() ==> #[trigger] state_variables[i] < width,
        forall|i: int| 0 <= i < rules.len() ==> ignores(#[trigger] rules[i], vars),
    ensures
        ignores(constrained(initial, regulations, rules, state_variables, width, upto), vars),
    decreases upto,
{
    if upto > 0 {
        lemma_constrained_ignores(
            initial,
            regulations,
            rules,
            state_variables,
            width,
            upto - 1,
            vars,
        );
        let regulation = regulations[upto - 1];
        let rule = rules[regulation.target as int];
        lemma_parts_ignore(regulation, rule, state_variables, width, vars);
        let before = constrained(initial, regulations, rules, state_variables, width, upto - 1);
        let obs = observability_of(regulation, rule, state_variables, width);
        let mono = monotonicity_of(regulation, rule, state_variables, width);
        let now = constrained(initial, regulations, rules, state_variables, width, upto);
        assert forall|v: Seq<bool>, w: Seq<bool>|
            now.contains(v) && #[trigger] agree_outside(v, w, vars) implies now.contains(w) by {
            assert(before.contains(v) && obs.contains(v) && mono.contains(v));
        }
    }
}

} // verus!
