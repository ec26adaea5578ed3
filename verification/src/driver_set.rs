//! The search for driver sets: the greedy build-up, the reduction, and the
//! partition of the colors by their driver sets.
use vstd::prelude::*;
use biodivine_lib_bdd::Bdd;
use crate::bdd::{
    bdd_and_not, bdd_clone, bdd_is_false, bdd_or, bdd_over, bdd_valuations,
    bdd_var_select, bdd_xor, lemma_difference_shrinks, select, valuation_space,
};
use crate::driver_set::fixes::{
    effect, fixes_parameter, lemma_effect_of_fixed, lemma_lacks_is_without,
    lemma_remove_then_insert, DriverSet, PBNFix, UnitFix, UnitParameterFix, UnitVertexFix,
};
use crate::ibmfa_computations::{
    are_given_forms, entropy_is_zero, ibmfa_entropy, is_relaxation, is_trial, is_zero,
    lemma_minimum_of,
    minimize_entropy, minimum_of, MeanField, Simulation,
};
use crate::decision_tree::{agree_at, told_apart};
use crate::symbolic_sync_graph::attractors::is_color_closed;
use crate::symbolic_sync_graph::SymbSyncGraph;

pub mod fixes;

verus! {

/// Whether the fix at place `k` of a list of candidates survives the
/// filtering against a state with the fixed variables `driver` and the
/// admitted colors `admitted`: a vertex fix survives if its variable is
/// free; a parameter fix survives if it leaves some colors but not all, and
/// no parameter fix before it in the list leaves the same colors.
pub open spec fn is_kept(
    fixes: Seq<UnitFix>,
    k: int,
    driver: Map<usize, bool>,
    admitted: Set<Seq<bool>>,
) -> bool {
    match fixes[k] {
        UnitFix::Vertex(f) => !driver.contains_key(f.var_id),
        UnitFix::Parameter(f) => {
            &&& effect(admitted, f) != Set::<Seq<bool>>::empty()
            &&& effect(admitted, f) != admitted
            &&& forall|j: int|
                0 <= j < k ==> (#[trigger] fixes[j] matches UnitFix::Parameter(g) ==> effect(
                    admitted,
                    g,
                ) != effect(admitted, f))
        },
    }
}

/// The fixes among the first `upto` of a list that survive the filtering,
/// in their order.
pub open spec fn filtered(
    fixes: Seq<UnitFix>,
    driver: Map<usize, bool>,
    admitted: Set<Seq<bool>>,
    upto: int,
) -> Seq<UnitFix>
    decreases upto,
{
    if upto <= 0 {
        Seq::empty()
    } else {
        let before = filtered(fixes, driver, admitted, upto - 1);
        if is_kept(fixes, upto - 1, driver, admitted) {
            before.push(fixes[upto - 1])
        } else {
            before
        }
    }
}

/// `fix` is one of the first `upto` fixes of the list and survives the filtering.
pub open spec fn survives(
    fixes: Seq<UnitFix>,
    upto: int,
    driver: Map<usize, bool>,
    admitted: Set<Seq<bool>>,
    fix: UnitFix,
) -> bool {
    exists|j: int| 0 <= j < upto && is_kept(fixes, j, driver, admitted) && #[trigger] fixes[j] == fix
}

/// What survives a filtering is part of what was filtered, and no longer
/// than it; it is shorter if some fix did not survive.
pub proof fn lemma_filtered(
    fixes: Seq<UnitFix>,
    driver: Map<usize, bool>,
    admitted: Set<Seq<bool>>,
    upto: int,
)
    requires
        0 <= upto <= fixes.len(),
    ensures
        filtered(fixes, driver, admitted, upto).len() <= upto,
        forall|k: int|
            0 <= k < filtered(fixes, driver, admitted, upto).len() ==> survives(
                fixes,
                upto,
                driver,
                admitted,
                #[trigger] filtered(fixes, driver, admitted, upto)[k],
            ),
        forall|j: int|
            0 <= j < upto && !is_kept(fixes, j, driver, admitted) ==> filtered(
                fixes,
                driver,
                admitted,
                upto,
            ).len() < upto,
    decreases upto,
{
    if upto > 0 {
        lemma_filtered(fixes, driver, admitted, upto - 1);
        let before = filtered(fixes, driver, admitted, upto - 1);
        let now = filtered(fixes, driver, admitted, upto);
        assert forall|k: int| 0 <= k < now.len() implies survives(
            fixes,
            upto,
            driver,
            admitted,
            #[trigger] now[k],
        ) by {
            if k < before.len() {
                assert(survives(fixes, upto - 1, driver, admitted, before[k]));
                let j = choose|j: int|
                    0 <= j < upto - 1 && is_kept(fixes, j, driver, admitted) && #[trigger] fixes[j]
                        == before[k];
                assert(fixes[j] == now[k]);
            } else {
                assert(fixes[upto - 1] == now[k]);
            }
        }
    }
}

/// The fix is a parameter fix that leaves the colors `left` of `admitted`.
pub open spec fn leaves(fix: UnitFix, admitted: Set<Seq<bool>>, left: Set<Seq<bool>>) -> bool {
    fix matches UnitFix::Parameter(g) && effect(admitted, g) == left
}

/// One of the first `upto` fixes is a parameter fix that leaves the colors `left`.
pub open spec fn left_by(
    fixes: Seq<UnitFix>,
    upto: int,
    admitted: Set<Seq<bool>>,
    left: Set<Seq<bool>>,
) -> bool {
    exists|j: int| 0 <= j < upto && #[trigger] leaves(fixes[j], admitted, left)
}

/// One of the diagrams stands for the colors `left`.
pub open spec fn holds_colors(seen: Seq<Bdd>, left: Set<Seq<bool>>) -> bool {
    exists|s: int| 0 <= s < seen.len() && bdd_valuations(#[trigger] seen[s]) == left
}

/// Keeps of `fixes` those that can still change the state `pbn_fix`: the
/// vertex fixes of free variables, and the parameter fixes that leave some
/// of the admitted colors but not all of them, one for each set of colors
/// left.
pub fn filter_fixes(fixes: &Vec<UnitFix>, pbn_fix: &PBNFix) -> (r: Vec<UnitFix>)
    requires
        pbn_fix.wf(),
        forall|k: int|
            0 <= k < fixes@.len() ==> (#[trigger] fixes@[k] matches UnitFix::Parameter(f)
                ==> f.bdd_var < pbn_fix.width()),
    ensures
        r@ == filtered(fixes@, pbn_fix.driver(), pbn_fix.admitted(), fixes@.len() as int),
        forall|k: int| 0 <= k < r@.len() ==> pbn_fix.admits(#[trigger] r@[k]),
{
    let ghost driver = pbn_fix.driver();
    let ghost admitted = pbn_fix.admitted();
    let before = pbn_fix.colors();
    let mut seen: Vec<Bdd> = Vec::new();
    let mut kept: Vec<UnitFix> = Vec::new();
    let mut i: usize = 0;
    while i < fixes.len()
        invariant
            i <= fixes@.len(),
            pbn_fix.wf(),
            driver == pbn_fix.driver(),
            admitted == pbn_fix.admitted(),
            bdd_over(before, pbn_fix.width()),
            bdd_valuations(before) == admitted,
            forall|k: int|
                0 <= k < fixes@.len() ==> (#[trigger] fixes@[k] matches UnitFix::Parameter(f)
                    ==> f.bdd_var < pbn_fix.width()),
            kept@ == filtered(fixes@, driver, admitted, i as int),
            forall|k: int| 0 <= k < kept@.len() ==> pbn_fix.admits(#[trigger] kept@[k]),
            forall|s: int|
                0 <= s < seen@.len() ==> bdd_over(#[trigger] seen@[s], pbn_fix.width()),
            forall|s: int|
                0 <= s < seen@.len() ==> left_by(
                    fixes@,
                    i as int,
                    admitted,
                    bdd_valuations(#[trigger] seen@[s]),
                ),
            forall|j: int|
                0 <= j < i ==> (#[trigger] fixes@[j] matches UnitFix::Parameter(g) ==> effect(
                    admitted,
                    g,
                ) == Set::<Seq<bool>>::empty() || effect(admitted, g) == admitted
                    || holds_colors(seen@, effect(admitted, g))),
        decreases fixes@.len() - i,
    {
        let fix = fixes[i];
        let ghost found = seen@;
        match fix {
            UnitFix::Vertex(f) => {
                if pbn_fix.get_vertex(f.var_id).is_none() {
                    kept.push(fix);
                }
            },
            UnitFix::Parameter(f) => {
                let after = bdd_var_select(&before, f.bdd_var, f.value);
                let mut keep = !bdd_is_false(&after);
                if keep {
                    let lost = bdd_and_not(&before, &after);
                    keep = !bdd_is_false(&lost);
                    proof {
                        if bdd_valuations(lost) =~= Set::<Seq<bool>>::empty() {
                            assert(bdd_valuations(after) =~= admitted) by {
                                assert forall|v: Seq<bool>| admitted.contains(
                                    v,
                                ) implies bdd_valuations(after).contains(v) by {
                                    if !bdd_valuations(after).contains(v) {
                                        assert(bdd_valuations(lost).contains(v));
                                    }
                                }
                            }
                        } else {
                            let v = choose|v: Seq<bool>| bdd_valuations(lost).contains(v);
                            assert(bdd_valuations(lost).contains(v));
                            assert(admitted.contains(v) && !effect(admitted, f).contains(v));
                        }
                    }
                }
                if keep {
                    let mut s: usize = 0;
                    let mut fresh = true;
                    while s < seen.len()
                        invariant
                            s <= seen@.len(),
                            bdd_over(after, pbn_fix.width()),
                            forall|t: int|
                                0 <= t < seen@.len() ==> bdd_over(
                                    #[trigger] seen@[t],
                                    pbn_fix.width(),
                                ),
                            fresh <==> forall|t: int|
                                0 <= t < s ==> bdd_valuations(#[trigger] seen@[t])
                                    != bdd_valuations(after),
                        decreases seen@.len() - s,
                    {
                        let differ = bdd_xor(&seen[s], &after);
                        if bdd_is_false(&differ) {
                            proof {
                                assert(bdd_valuations(seen@[s as int]) =~= bdd_valuations(after))
                                    by {
                                    assert forall|v: Seq<bool>|
                                        bdd_valuations(seen@[s as int]).contains(v)
                                            == bdd_valuations(after).contains(v) by {
                                        if bdd_valuations(seen@[s as int]).contains(v)
                                            != bdd_valuations(after).contains(v) {
                                            assert(valuation_space(pbn_fix.width()).contains(v));
                                            assert(bdd_valuations(differ).contains(v));
                                        }
                                    }
                                }
                            }
                            fresh = false;
                        } else {
                            proof {
                                let v = choose|v: Seq<bool>| bdd_valuations(differ).contains(v);
                                assert(bdd_valuations(differ).contains(v));
                                assert(bdd_valuations(seen@[s as int]).contains(v)
                                    != bdd_valuations(after).contains(v));
                            }
                        }
                        s = s + 1;
                    }
                    proof {
                        assert(effect(admitted, f) == bdd_valuations(after));
                        if fresh {
                            assert forall|j: int| 0 <= j < i implies (
                            #[trigger] fixes@[j] matches UnitFix::Parameter(g) ==> effect(
                                admitted,
                                g,
                            ) != effect(admitted, f)) by {
                                if let UnitFix::Parameter(g) = fixes@[j] {
                                    if effect(admitted, g) == effect(admitted, f) {
                                        assert(holds_colors(seen@, effect(admitted, g)));
                                        let t = choose|t: int|
                                            0 <= t < seen@.len() && bdd_valuations(
                                                #[trigger] seen@[t],
                                            ) == effect(admitted, g);
                                        assert(bdd_valuations(seen@[t]) != bdd_valuations(after));
                                    }
                                }
                            }
                            assert(is_kept(fixes@, i as int, driver, admitted));
                        } else {
                            let t = choose|t: int|
                                0 <= t < seen@.len() && bdd_valuations(#[trigger] seen@[t])
                                    == bdd_valuations(after);
                            assert(left_by(fixes@, i as int, admitted, bdd_valuations(seen@[t])));
                            let j = choose|j: int|
                                0 <= j < i && #[trigger] leaves(
                                    fixes@[j],
                                    admitted,
                                    bdd_valuations(seen@[t]),
                                );
                            assert(!is_kept(fixes@, i as int, driver, admitted));
                        }
                    }
                    if fresh {
                        proof {
                            if fixes_parameter(pbn_fix.parameters(), f.bdd_var) {
                                lemma_effect_of_fixed(*pbn_fix, f);
                            }
                        }
                        seen.push(after);
                        kept.push(fix);
                        proof {
                            assert(leaves(
                                fixes@[i as int],
                                admitted,
                                bdd_valuations(seen@[found.len() as int]),
                            ));
                        }
                    }
                }
                proof {
                    assert forall|j: int| 0 <= j < i + 1 implies (
                    #[trigger] fixes@[j] matches UnitFix::Parameter(g) ==> effect(admitted, g)
                        == Set::<Seq<bool>>::empty() || effect(admitted, g) == admitted
                        || holds_colors(seen@, effect(admitted, g))) by {
                        if let UnitFix::Parameter(g) = fixes@[j] {
                            if j < i {
                                if !(effect(admitted, g) == Set::<Seq<bool>>::empty() || effect(
                                    admitted,
                                    g,
                                ) == admitted) {
                                    assert(holds_colors(found, effect(admitted, g)));
                                    let s = choose|s: int|
                                        0 <= s < found.len() && bdd_valuations(
                                            #[trigger] found[s],
                                        ) == effect(admitted, g);
                                    assert(seen@[s] == found[s]);
                                }
                            } else {
                                assert(g == f);
                                assert(effect(admitted, f) == bdd_valuations(after));
                                if keep {
                                    if seen@.len() > found.len() {
                                        assert(bdd_valuations(seen@[found.len() as int]) == effect(
                                            admitted,
                                            g,
                                        ));
                                    } else {
                                        let t = choose|t: int|
                                            0 <= t < found.len() && bdd_valuations(
                                                #[trigger] found[t],
                                            ) == bdd_valuations(after);
                                        assert(seen@[t] == found[t]);
                                    }
                                }
                            }
                        }
                    }
                }
            },
        }
        proof {
            assert forall|t: int| 0 <= t < seen@.len() implies left_by(
                fixes@,
                i + 1,
                admitted,
                bdd_valuations(#[trigger] seen@[t]),
            ) by {
                if t < found.len() {
                    assert(seen@[t] == found[t]);
                    assert(left_by(fixes@, i as int, admitted, bdd_valuations(found[t])));
                    let j = choose|j: int|
                        0 <= j < i && #[trigger] leaves(fixes@[j], admitted, bdd_valuations(found[t]));
                    assert(leaves(fixes@[j], admitted, bdd_valuations(seen@[t])));
                } else {
                    assert(leaves(fixes@[i as int], admitted, bdd_valuations(seen@[t])));
                }
            }
        }
        i = i + 1;
    }
    kept
}

/// The vertex fix of the variable `var` to `value`, unless the target
/// states `attr` hold no state in which the variable has that value.
pub open spec fn vertex_candidate(
    state_vars: Seq<usize>,
    attr: Option<Set<Seq<bool>>>,
    var: int,
    value: bool,
) -> Seq<UnitFix> {
    if attr matches Some(states) && select(states, state_vars[var] as int, value)
        == Set::<Seq<bool>>::empty() {
        Seq::empty()
    } else {
        seq![UnitFix::Vertex(UnitVertexFix { var_id: var as usize, value })]
    }
}

/// The vertex fixes of the first `upto` variables: for each variable first
/// the fix to `false`, then the fix to `true`.
pub open spec fn vertex_candidates(
    state_vars: Seq<usize>,
    attr: Option<Set<Seq<bool>>>,
    upto: int,
) -> Seq<UnitFix>
    decreases upto,
{
    if upto <= 0 {
        Seq::empty()
    } else {
        vertex_candidates(state_vars, attr, upto - 1) + vertex_candidate(
            state_vars,
            attr,
            upto - 1,
            false,
        ) + vertex_candidate(state_vars, attr, upto - 1, true)
    }
}

/// The parameter fixes of the first `upto` parametrization bits: for each
/// bit first the fix to `false`, then the fix to `true`.
pub open spec fn parameter_candidates(parameter_vars: Seq<usize>, upto: int) -> Seq<UnitFix>
    decreases upto,
{
    if upto <= 0 {
        Seq::empty()
    } else {
        parameter_candidates(parameter_vars, upto - 1).push(
            UnitFix::Parameter(
                UnitParameterFix { bdd_var: parameter_vars[upto - 1], value: false },
            ),
        ).push(
            UnitFix::Parameter(UnitParameterFix { bdd_var: parameter_vars[upto - 1], value: true }),
        )
    }
}

/// The fixes that a search starts from: the vertex fixes, and after them the
/// parameter fixes unless only vertices are to be fixed.
pub open spec fn candidates(
    state_vars: Seq<usize>,
    attr: Option<Set<Seq<bool>>>,
    parameter_vars: Seq<usize>,
    fix_only_vertices: bool,
) -> Seq<UnitFix> {
    if fix_only_vertices {
        vertex_candidates(state_vars, attr, state_vars.len() as int)
    } else {
        vertex_candidates(state_vars, attr, state_vars.len() as int) + parameter_candidates(
            parameter_vars,
            parameter_vars.len() as int,
        )
    }
}

/// The views of the target states, if there are any.
pub open spec fn target_states(attr_opt: Option<&Bdd>) -> Option<Set<Seq<bool>>> {
    match attr_opt {
        Some(attr) => Some(bdd_valuations(*attr)),
        None => None,
    }
}

/// The fixes that a search over the colors `colors` starts from, and the
/// state without fixes that it starts in.
///
/// * `attr_opt` - the target states; a variable is not fixed to a value
///   that it has in none of them.
/// * `fix_only_vertices` - leave the parametrization bits alone.
pub fn prepare_fixes(
    sync_graph: &SymbSyncGraph,
    attr_opt: Option<&Bdd>,
    colors: Bdd,
    fix_only_vertices: bool,
) -> (r: (Vec<UnitFix>, PBNFix))
    requires
        sync_graph.wf(),
        bdd_over(colors, sync_graph.width()),
        attr_opt matches Some(attr) ==> bdd_over(*attr, sync_graph.width()),
    ensures
        r.1.wf(),
        r.1.width() == sync_graph.width(),
        r.1.unit() == bdd_valuations(colors),
        r.1.admitted() == bdd_valuations(colors),
        r.1.driver() == Map::<usize, bool>::empty(),
        r.1.parameters() == Seq::<UnitParameterFix>::empty(),
        r.0@ == filtered(
            candidates(
                sync_graph.state_vars(),
                target_states(attr_opt),
                sync_graph.parameter_vars(),
                fix_only_vertices,
            ),
            Map::<usize, bool>::empty(),
            bdd_valuations(colors),
            candidates(
                sync_graph.state_vars(),
                target_states(attr_opt),
                sync_graph.parameter_vars(),
                fix_only_vertices,
            ).len() as int,
        ),
        forall|k: int| 0 <= k < r.0@.len() ==> r.1.admits(#[trigger] r.0@[k]),
        forall|k: int|
            0 <= k < r.0@.len() ==> (#[trigger] r.0@[k] matches UnitFix::Parameter(f)
                ==> f.bdd_var < sync_graph.width() && !fix_only_vertices),
        forall|k: int|
            0 <= k < r.0@.len() ==> (#[trigger] r.0@[k] matches UnitFix::Vertex(f) ==> f.var_id
                < sync_graph.size()),
{
    let ghost states = target_states(attr_opt);
    let ghost state_vars = sync_graph.state_vars();
    let ghost parameter_vars = sync_graph.parameter_vars();
    let mut available: Vec<UnitFix> = Vec::new();
    let size = sync_graph.num_vars();
    let mut var: usize = 0;
    proof {
        sync_graph.lemma_wf();
    }
    while var < size
        invariant
            var <= size,
            size == sync_graph.size(),
            sync_graph.wf(),
            state_vars == sync_graph.state_vars(),
            states == target_states(attr_opt),
            attr_opt matches Some(attr) ==> bdd_over(*attr, sync_graph.width()),
            available@ == vertex_candidates(state_vars, states, var as int),
            forall|k: int|
                0 <= k < available@.len() ==> (#[trigger] available@[k] matches UnitFix::Vertex(f)
                    && f.var_id < size),
        decreases size - var,
    {
        let symbolic = sync_graph.state_variables()[var];
        let ghost before = available@;
        let mut round: usize = 0;
        while round < 2
            invariant
                round <= 2,
                var < size,
                size == sync_graph.size(),
                sync_graph.wf(),
                symbolic == sync_graph.state_vars()[var as int],
                symbolic < sync_graph.width(),
                state_vars == sync_graph.state_vars(),
                states == target_states(attr_opt),
                attr_opt matches Some(attr) ==> bdd_over(*attr, sync_graph.width()),
                available@ == if round == 0 {
                    before
                } else if round == 1 {
                    before + vertex_candidate(state_vars, states, var as int, false)
                } else {
                    before + vertex_candidate(state_vars, states, var as int, false)
                        + vertex_candidate(state_vars, states, var as int, true)
                },
                forall|k: int|
                    0 <= k < before.len() ==> (#[trigger] before[k] matches UnitFix::Vertex(f)
                        && f.var_id < size),
                forall|k: int|
                    0 <= k < available@.len() ==> (
                    #[trigger] available@[k] matches UnitFix::Vertex(f) && f.var_id < size),
            decreases 2 - round,
        {
            let value = round == 1;
            let ghost so_far = available@;
            let skip = match attr_opt {
                Some(attr) => {
                    let with_value = bdd_var_select(attr, symbolic, value);
                    bdd_is_false(&with_value)
                },
                None => false,
            };
            if !skip {
                available.push(UnitFix::Vertex(UnitVertexFix { var_id: var, value }));
                proof {
                    assert(available@ =~= so_far + vertex_candidate(
                        state_vars,
                        states,
                        var as int,
                        value,
                    ));
                }
            } else {
                proof {
                    assert(available@ =~= so_far + vertex_candidate(
                        state_vars,
                        states,
                        var as int,
                        value,
                    ));
                }
            }
            round = round + 1;
        }
        var = var + 1;
    }
    if !fix_only_vertices {
        let ghost vertices = available@;
        let mut k: usize = 0;
        while k < sync_graph.parameter_variables().len()
            invariant
                sync_graph.wf(),
                k <= sync_graph.parameter_vars().len(),
                parameter_vars == sync_graph.parameter_vars(),
                available@ == vertices + parameter_candidates(parameter_vars, k as int),
                forall|j: int|
                    0 <= j < vertices.len() ==> (#[trigger] vertices[j] matches UnitFix::Vertex(f)
                        && f.var_id < sync_graph.size()),
                forall|j: int|
                    0 <= j < available@.len() ==> (
                    #[trigger] available@[j] matches UnitFix::Parameter(f) ==> f.bdd_var
                        < sync_graph.width()),
                forall|j: int|
                    0 <= j < available@.len() ==> (
                    #[trigger] available@[j] matches UnitFix::Vertex(f) ==> f.var_id
                        < sync_graph.size()),
            decreases sync_graph.parameter_vars().len() - k,
        {
            let bdd_var = sync_graph.parameter_variables()[k];
            let ghost so_far = available@;
            available.push(UnitFix::Parameter(UnitParameterFix { bdd_var, value: false }));
            available.push(UnitFix::Parameter(UnitParameterFix { bdd_var, value: true }));
            proof {
                assert(available@ =~= vertices + parameter_candidates(parameter_vars, k + 1));
                assert forall|j: int| 0 <= j < available@.len() implies (
                #[trigger] available@[j] matches UnitFix::Vertex(f) ==> f.var_id
                    < sync_graph.size()) by {
                    if j < so_far.len() {
                        assert(available@[j] == so_far[j]);
                    }
                }
                assert forall|j: int| 0 <= j < available@.len() implies (
                #[trigger] available@[j] matches UnitFix::Parameter(f) ==> f.bdd_var
                    < sync_graph.width()) by {
                    if j < so_far.len() {
                        assert(available@[j] == so_far[j]);
                    }
                }
            }
            k = k + 1;
        }
    } else {
        proof {
            assert(available@ =~= candidates(state_vars, states, parameter_vars, true));
        }
    }
    let pbn_fix = PBNFix::new(colors);
    proof {
        assert(pbn_fix.admitted() =~= bdd_valuations(colors));
    }
    let kept = filter_fixes(&available, &pbn_fix);
    proof {
        let all = available@;
        lemma_filtered(all, pbn_fix.driver(), pbn_fix.admitted(), all.len() as int);
        assert forall|k: int| 0 <= k < kept@.len() implies (
        #[trigger] kept@[k] matches UnitFix::Parameter(f) ==> f.bdd_var < sync_graph.width()
            && !fix_only_vertices) by {
            assert(survives(
                all,
                all.len() as int,
                pbn_fix.driver(),
                pbn_fix.admitted(),
                kept@[k],
            ));
            let j = choose|j: int|
                0 <= j < all.len() && is_kept(all, j, pbn_fix.driver(), pbn_fix.admitted())
                    && #[trigger] all[j] == kept@[k];
            if fix_only_vertices {
                assert(all[j] is Vertex);
            }
        }
        assert forall|k: int| 0 <= k < kept@.len() implies (
        #[trigger] kept@[k] matches UnitFix::Vertex(f) ==> f.var_id < sync_graph.size()) by {
            assert(survives(
                all,
                all.len() as int,
                pbn_fix.driver(),
                pbn_fix.admitted(),
                kept@[k],
            ));
            let j = choose|j: int|
                0 <= j < all.len() && is_kept(all, j, pbn_fix.driver(), pbn_fix.admitted())
                    && #[trigger] all[j] == kept@[k];
        }
    }
    (kept, pbn_fix)
}

/// Every fix that the state holds is one of `offered`.
pub open spec fn is_drawn_from(pbn_fix: PBNFix, offered: Seq<UnitFix>) -> bool {
    &&& forall|var: usize| #[trigger]
        pbn_fix.driver().contains_key(var) ==> offered.contains(
            UnitFix::Vertex(UnitVertexFix { var_id: var, value: pbn_fix.driver()[var] }),
        )
    &&& forall|k: int|
        0 <= k < pbn_fix.parameters().len() ==> offered.contains(
            UnitFix::Parameter(#[trigger] pbn_fix.parameters()[k]),
        )
}

/// The state holds some fix.
pub open spec fn holds_some(pbn_fix: PBNFix) -> bool {
    exists|fix: UnitFix| #[trigger] pbn_fix.has(fix)
}

/// `probabilities` are those of a trial of the fix that was committed last:
/// the state is some state with a fix added, and `probabilities` come from
/// a relaxation of that state with that fix.
pub open spec fn is_last_trial<K: Fn(&MeanField, &Vec<u32>) -> (Vec<u32>, u32)>(
    kernel: K,
    sync_graph: SymbSyncGraph,
    iterations: usize,
    given: Option<&Vec<Vec<Bdd>>>,
    found: PBNFix,
    probabilities: Vec<u32>,
) -> bool {
    exists|base: PBNFix, fix: UnitFix, outcome: Simulation|
        #![trigger
            found.extends(base, fix),
            is_trial(kernel, sync_graph, base, fix, iterations, given, outcome),
        ]
        found.extends(base, fix) && is_trial(
            kernel,
            sync_graph,
            base,
            fix,
            iterations,
            given,
            outcome,
        ) && probabilities == outcome.probabilities
}

/// One round of the greedy build-up: every fix of `available` is tried on
/// `state`; `next` is `state` with the fix whose trial came out lowest, the
/// first among equals; `pick` is the outcome of that trial; and `left` is
/// what survives of `available` when it is filtered against `next`.
pub open spec fn is_greedy_step<K: Fn(&MeanField, &Vec<u32>) -> (Vec<u32>, u32)>(
    kernel: K,
    sync_graph: SymbSyncGraph,
    iterations: usize,
    given: Option<&Vec<Vec<Bdd>>>,
    state: PBNFix,
    available: Seq<UnitFix>,
    next: PBNFix,
    left: Seq<UnitFix>,
    pick: Simulation,
) -> bool {
    exists|outcomes: Seq<Simulation>|
        {
            &&& #[trigger] outcomes.len() == available.len()
            &&& available.len() > 0
            &&& forall|k: int|
                0 <= k < outcomes.len() ==> is_trial(
                    kernel,
                    sync_graph,
                    state,
                    available[k],
                    iterations,
                    given,
                    #[trigger] outcomes[k],
                )
            &&& pick == outcomes[minimum_of(outcomes, outcomes.len() as int)]
            &&& next.extends(state, available[minimum_of(outcomes, outcomes.len() as int)])
            &&& left == filtered(available, next.driver(), next.admitted(), available.len() as int)
        }
}

/// The rounds of a greedy build-up, one after the other: `states` and
/// `lists` hold the state and the candidates before the first round and
/// after each round, `picks` the outcome of the winning trial of each round.
pub open spec fn is_greedy_trace<K: Fn(&MeanField, &Vec<u32>) -> (Vec<u32>, u32)>(
    kernel: K,
    sync_graph: SymbSyncGraph,
    iterations: usize,
    given: Option<&Vec<Vec<Bdd>>>,
    states: Seq<PBNFix>,
    lists: Seq<Seq<UnitFix>>,
    picks: Seq<Simulation>,
) -> bool {
    &&& states.len() == picks.len() + 1
    &&& lists.len() == picks.len() + 1
    &&& forall|t: int|
        0 <= t < picks.len() ==> is_greedy_step(
            kernel,
            sync_graph,
            iterations,
            given,
            states[t],
            lists[t],
            states[t + 1],
            lists[t + 1],
            #[trigger] picks[t],
        )
}

/// A greedy build-up from start to end: it goes on while candidates are
/// left and the last winning trial did not end with zero entropy, and no
/// longer.
pub open spec fn is_greedy_run<K: Fn(&MeanField, &Vec<u32>) -> (Vec<u32>, u32)>(
    kernel: K,
    sync_graph: SymbSyncGraph,
    iterations: usize,
    given: Option<&Vec<Vec<Bdd>>>,
    states: Seq<PBNFix>,
    lists: Seq<Seq<UnitFix>>,
    picks: Seq<Simulation>,
) -> bool {
    &&& is_greedy_trace(kernel, sync_graph, iterations, given, states, lists, picks)
    &&& forall|t: int| 0 <= t < picks.len() - 1 ==> !is_zero((#[trigger] picks[t]).entropy)
    &&& if picks.len() == 0 {
        lists[0].len() == 0
    } else {
        is_zero(picks[picks.len() - 1].entropy) || lists[lists.len() - 1].len() == 0
    }
}

/// A greedy trace goes on with one more round.
pub proof fn lemma_greedy_round<K: Fn(&MeanField, &Vec<u32>) -> (Vec<u32>, u32)>(
    kernel: K,
    sync_graph: SymbSyncGraph,
    iterations: usize,
    given: Option<&Vec<Vec<Bdd>>>,
    states: Seq<PBNFix>,
    lists: Seq<Seq<UnitFix>>,
    picks: Seq<Simulation>,
    next: PBNFix,
    left: Seq<UnitFix>,
    pick: Simulation,
)
    requires
        is_greedy_trace(kernel, sync_graph, iterations, given, states, lists, picks),
        is_greedy_step(
            kernel,
            sync_graph,
            iterations,
            given,
            states[states.len() - 1],
            lists[lists.len() - 1],
            next,
            left,
            pick,
        ),
    ensures
        is_greedy_trace(
            kernel,
            sync_graph,
            iterations,
            given,
            states.push(next),
            lists.push(left),
            picks.push(pick),
        ),
{
    let more_states = states.push(next);
    let more_lists = lists.push(left);
    let more_picks = picks.push(pick);
    assert forall|t: int| 0 <= t < more_picks.len() implies is_greedy_step(
        kernel,
        sync_graph,
        iterations,
        given,
        more_states[t],
        more_lists[t],
        more_states[t + 1],
        more_lists[t + 1],
        #[trigger] more_picks[t],
    ) by {
        if t < picks.len() {
            assert(more_picks[t] == picks[t]);
            assert(more_states[t] == states[t]);
            assert(more_states[t + 1] == states[t + 1]);
            assert(more_lists[t] == lists[t]);
            assert(more_lists[t + 1] == lists[t + 1]);
        }
    }
}

/// `built` with `probabilities` is what the greedy build-up over the colors
/// `colors` may return: a state over those colors whose fixes are among the
/// `offered` candidates; with some fix, and the probabilities of the trial
/// of the fix committed last, if any candidate survives the first
/// filtering; and without a fix and without probabilities otherwise.
pub open spec fn is_built<K: Fn(&MeanField, &Vec<u32>) -> (Vec<u32>, u32)>(
    kernel: K,
    sync_graph: SymbSyncGraph,
    iterations: usize,
    colors: Set<Seq<bool>>,
    offered: Seq<UnitFix>,
    given: Option<&Vec<Vec<Bdd>>>,
    built: PBNFix,
    probabilities: Vec<u32>,
) -> bool {
    &&& built.wf()
    &&& built.width() == sync_graph.width()
    &&& built.unit() == colors
    &&& is_drawn_from(built, offered)
    &&& given is Some ==> built.parameters() == Seq::<UnitParameterFix>::empty()
    &&& forall|var: usize| #[trigger] built.driver().contains_key(var) ==> var < sync_graph.size()
    &&& built.parameters().len() > 0 ==> built.admitted() != Set::<Seq<bool>>::empty()
    &&& if filtered(offered, Map::<usize, bool>::empty(), colors, offered.len() as int).len() > 0 {
        holds_some(built) && is_last_trial(
            kernel,
            sync_graph,
            iterations,
            given,
            built,
            probabilities,
        )
    } else {
        !holds_some(built) && probabilities@ == Seq::<u32>::empty()
    }
    &&& exists|states: Seq<PBNFix>, lists: Seq<Seq<UnitFix>>, picks: Seq<Simulation>|
        {
            &&& #[trigger] is_greedy_run(
                kernel,
                sync_graph,
                iterations,
                given,
                states,
                lists,
                picks,
            )
            &&& states[0].wf()
            &&& states[0].width() == sync_graph.width()
            &&& states[0].unit() == colors
            &&& states[0].driver() == Map::<usize, bool>::empty()
            &&& states[0].parameters() == Seq::<UnitParameterFix>::empty()
            &&& lists[0] == filtered(
                offered,
                Map::<usize, bool>::empty(),
                colors,
                offered.len() as int,
            )
            &&& built == states[states.len() - 1]
            &&& if picks.len() == 0 {
                probabilities@ == Seq::<u32>::empty()
            } else {
                probabilities == picks[picks.len() - 1].probabilities
            }
        }
}

/// Builds a driver set greedily: as long as a candidate is left, commits the
/// candidate whose relaxation comes out lowest and drops the candidates that
/// can no longer change the state; stops as soon as a committed fix brought
/// the entropy to zero.
///
/// Returns the state with the committed fixes and the probabilities of the
/// last relaxation (none if there was no candidate at all).
pub fn build_driver_set<K: Fn(&MeanField, &Vec<u32>) -> (Vec<u32>, u32)>(
    sync_graph: &SymbSyncGraph,
    iterations: usize,
    colors: Bdd,
    attr_opt: Option<&Bdd>,
    explicit_pupdate_funs_opt: Option<&Vec<Vec<Bdd>>>,
    kernel: &K,
) -> (r: (PBNFix, Vec<u32>))
    requires
        are_given_forms(explicit_pupdate_funs_opt),
        sync_graph.wf(),
        bdd_over(colors, sync_graph.width()),
        attr_opt matches Some(attr) ==> bdd_over(*attr, sync_graph.width()),
        forall|s: &MeanField, p: &Vec<u32>| call_requires(*kernel, (s, p)),
    ensures
        is_built(
            *kernel,
            *sync_graph,
            iterations,
            bdd_valuations(colors),
            candidates(
                sync_graph.state_vars(),
                target_states(attr_opt),
                sync_graph.parameter_vars(),
                explicit_pupdate_funs_opt is Some,
            ),
            explicit_pupdate_funs_opt,
            r.0,
            r.1,
        ),
{
    let fix_only_vertices = explicit_pupdate_funs_opt.is_some();
    let ghost offered = candidates(
        sync_graph.state_vars(),
        target_states(attr_opt),
        sync_graph.parameter_vars(),
        fix_only_vertices,
    );
    let ghost whole = bdd_valuations(colors);
    let (mut available_fixes, mut pbn_fix) = prepare_fixes(
        sync_graph,
        attr_opt,
        colors,
        fix_only_vertices,
    );
    let mut final_probs: Vec<u32> = Vec::new();
    let mut done = false;
    let ghost mut ran = false;
    let ghost first = available_fixes@;
    let ghost mut states: Seq<PBNFix> = seq![pbn_fix];
    let ghost mut lists: Seq<Seq<UnitFix>> = seq![available_fixes@];
    let ghost mut picks: Seq<Simulation> = Seq::empty();
    let ghost fresh = pbn_fix;
    proof {
        assert(pbn_fix.driver() =~= Map::<usize, bool>::empty());
        assert forall|fix: UnitFix| !(#[trigger] pbn_fix.has(fix)) by {
            match fix {
                UnitFix::Vertex(f) => {},
                UnitFix::Parameter(f) => {},
            }
        }
        lemma_filtered(offered, pbn_fix.driver(), pbn_fix.admitted(), offered.len() as int);
        assert forall|k: int| 0 <= k < available_fixes@.len() implies offered.contains(
            #[trigger] available_fixes@[k],
        ) && (available_fixes@[k] matches UnitFix::Parameter(f) ==> effect(pbn_fix.admitted(), f)
            != Set::<Seq<bool>>::empty()) by {
            assert(survives(
                offered,
                offered.len() as int,
                pbn_fix.driver(),
                pbn_fix.admitted(),
                available_fixes@[k],
            ));
            let j = choose|j: int|
                0 <= j < offered.len() && is_kept(offered, j, pbn_fix.driver(), pbn_fix.admitted())
                    && #[trigger] offered[j] == available_fixes@[k];
        }
    }
    while available_fixes.len() > 0 && !done
        invariant
            sync_graph.wf(),
            pbn_fix.wf(),
            pbn_fix.width() == sync_graph.width(),
            pbn_fix.unit() == whole,
            forall|s: &MeanField, p: &Vec<u32>| call_requires(*kernel, (s, p)),
            are_given_forms(explicit_pupdate_funs_opt),
            fix_only_vertices == (explicit_pupdate_funs_opt is Some),
            is_drawn_from(pbn_fix, offered),
            is_greedy_trace(
                *kernel,
                *sync_graph,
                iterations,
                explicit_pupdate_funs_opt,
                states,
                lists,
                picks,
            ),
            states[0] == fresh,
            lists[0] == first,
            states[states.len() - 1] == pbn_fix,
            lists[lists.len() - 1] == available_fixes@,
            ran == (picks.len() > 0),
            ran ==> final_probs == picks[picks.len() - 1].probabilities,
            !done ==> forall|t: int| 0 <= t < picks.len() ==> !is_zero((#[trigger] picks[t]).entropy),
            done ==> picks.len() > 0 && is_zero(picks[picks.len() - 1].entropy) && forall|t: int|
                0 <= t < picks.len() - 1 ==> !is_zero((#[trigger] picks[t]).entropy),
            !ran ==> !done && available_fixes@ == first && !holds_some(pbn_fix) && final_probs@
                == Seq::<u32>::empty(),
            ran ==> first.len() > 0 && holds_some(pbn_fix) && is_last_trial(
                *kernel,
                *sync_graph,
                iterations,
                explicit_pupdate_funs_opt,
                pbn_fix,
                final_probs,
            ),
            fix_only_vertices ==> pbn_fix.parameters() == Seq::<UnitParameterFix>::empty(),
            pbn_fix.parameters().len() > 0 ==> pbn_fix.admitted() != Set::<Seq<bool>>::empty(),
            forall|var: usize| #[trigger]
                pbn_fix.driver().contains_key(var) ==> var < sync_graph.size(),
            forall|k: int|
                0 <= k < available_fixes@.len() ==> pbn_fix.admits(#[trigger] available_fixes@[k]),
            forall|k: int|
                0 <= k < available_fixes@.len() ==> (
                #[trigger] available_fixes@[k] matches UnitFix::Parameter(f) ==> effect(
                    pbn_fix.admitted(),
                    f,
                ) != Set::<Seq<bool>>::empty()),
            forall|k: int|
                0 <= k < available_fixes@.len() ==> offered.contains(
                    #[trigger] available_fixes@[k],
                ),
            forall|k: int|
                0 <= k < available_fixes@.len() ==> (
                #[trigger] available_fixes@[k] matches UnitFix::Parameter(f) ==> f.bdd_var
                    < sync_graph.width() && !fix_only_vertices),
            forall|k: int|
                0 <= k < available_fixes@.len() ==> (
                #[trigger] available_fixes@[k] matches UnitFix::Vertex(f) ==> f.var_id
                    < sync_graph.size()),
        decreases available_fixes@.len(), if done { 0nat } else { 1nat },
    {
        let ghost before = pbn_fix;
        let ghost list = available_fixes@;
        let found = minimize_entropy(
            sync_graph,
            iterations,
            &mut pbn_fix,
            &available_fixes,
            explicit_pupdate_funs_opt,
            kernel,
        );
        match found {
            Some((unit_fix, min_entropy, probs)) => {
                let ghost at: int;
                let ghost outcome: Simulation;
                let ghost outcomes: Seq<Simulation>;
                proof {
                    outcomes = choose|outcomes: Seq<Simulation>|
                        {
                            &&& #[trigger] outcomes.len() == list.len()
                            &&& forall|k: int|
                                0 <= k < outcomes.len() ==> is_trial(
                                    *kernel,
                                    *sync_graph,
                                    before,
                                    list[k],
                                    iterations,
                                    explicit_pupdate_funs_opt,
                                    #[trigger] outcomes[k],
                                )
                            &&& unit_fix == list[minimum_of(outcomes, outcomes.len() as int)]
                            &&& min_entropy == outcomes[minimum_of(
                                outcomes,
                                outcomes.len() as int,
                            )].entropy
                            &&& probs == outcomes[minimum_of(
                                outcomes,
                                outcomes.len() as int,
                            )].probabilities
                        };
                    lemma_minimum_of(outcomes, outcomes.len() as int);
                    at = minimum_of(outcomes, outcomes.len() as int);
                    outcome = outcomes[at];
                    assert(list[at] == unit_fix);
                    assert(before.admits(list[at]));
                }
                pbn_fix.insert(&unit_fix);
                let ghost committed = pbn_fix;
                proof {
                    assert(pbn_fix.extends(before, unit_fix));
                    assert(pbn_fix.has(unit_fix));
                    assert(is_trial(
                        *kernel,
                        *sync_graph,
                        before,
                        unit_fix,
                        iterations,
                        explicit_pupdate_funs_opt,
                        outcome,
                    ));
                    ran = true;
                }
                proof {
                    assert forall|var: usize| #[trigger]
                        pbn_fix.driver().contains_key(var) implies offered.contains(
                        UnitFix::Vertex(UnitVertexFix { var_id: var, value: pbn_fix.driver()[var] }),
                    ) && var < sync_graph.size() by {
                        if !before.driver().contains_key(var) {
                            assert(unit_fix == UnitFix::Vertex(
                                UnitVertexFix { var_id: var, value: pbn_fix.driver()[var] },
                            ));
                            assert(offered.contains(list[at]));
                        } else {
                            assert(pbn_fix.driver()[var] == before.driver()[var]);
                        }
                    }
                    assert forall|k: int| 0 <= k < pbn_fix.parameters().len() implies offered.contains(
                        UnitFix::Parameter(#[trigger] pbn_fix.parameters()[k]),
                    ) by {
                        if k < before.parameters().len() {
                            assert(pbn_fix.parameters()[k] == before.parameters()[k]);
                        } else {
                            assert(offered.contains(list[at]));
                        }
                    }
                }
                let kept = filter_fixes(&available_fixes, &pbn_fix);
                proof {
                    lemma_filtered(list, pbn_fix.driver(), pbn_fix.admitted(), list.len() as int);
                    assert(!is_kept(list, at, pbn_fix.driver(), pbn_fix.admitted())) by {
                        match unit_fix {
                            UnitFix::Vertex(f) => {},
                            UnitFix::Parameter(f) => {
                                assert(effect(pbn_fix.admitted(), f) =~= pbn_fix.admitted());
                            },
                        }
                    }
                    match unit_fix {
                        UnitFix::Vertex(f) => {
                            assert(pbn_fix.admitted() == before.admitted());
                        },
                        UnitFix::Parameter(f) => {
                            assert(pbn_fix.admitted() =~= effect(before.admitted(), f));
                            assert(list[at] == unit_fix);
                        },
                    }
                    assert forall|k: int| 0 <= k < kept@.len() implies offered.contains(
                        #[trigger] kept@[k],
                    ) && (kept@[k] matches UnitFix::Parameter(f) ==> f.bdd_var < sync_graph.width()
                        && !fix_only_vertices && effect(pbn_fix.admitted(), f) != Set::<
                        Seq<bool>,
                    >::empty()) && (kept@[k] matches UnitFix::Vertex(f) ==> f.var_id
                        < sync_graph.size()) by {
                        assert(survives(
                            list,
                            list.len() as int,
                            pbn_fix.driver(),
                            pbn_fix.admitted(),
                            kept@[k],
                        ));
                        let j = choose|j: int|
                            0 <= j < list.len() && is_kept(
                                list,
                                j,
                                pbn_fix.driver(),
                                pbn_fix.admitted(),
                            ) && #[trigger] list[j] == kept@[k];
                    }
                }
                proof {
                    assert(min_entropy == outcome.entropy);
                    assert(is_greedy_step(
                        *kernel,
                        *sync_graph,
                        iterations,
                        explicit_pupdate_funs_opt,
                        before,
                        list,
                        pbn_fix,
                        kept@,
                        outcome,
                    ));
                    lemma_greedy_round(
                        *kernel,
                        *sync_graph,
                        iterations,
                        explicit_pupdate_funs_opt,
                        states,
                        lists,
                        picks,
                        pbn_fix,
                        kept@,
                        outcome,
                    );
                    let earlier = picks;
                    states = states.push(pbn_fix);
                    lists = lists.push(kept@);
                    picks = picks.push(outcome);
                    assert forall|t: int| 0 <= t < picks.len() - 1 implies !is_zero(
                        (#[trigger] picks[t]).entropy,
                    ) by {
                        assert(picks[t] == earlier[t]);
                    }
                }
                available_fixes = kept;
                final_probs = probs;
                if entropy_is_zero(min_entropy) {
                    done = true;
                }
            },
            None => {
                done = true;
                proof {
                    assert(false);
                }
            },
        }
    }
    proof {
        assert(first =~= filtered(
            offered,
            Map::<usize, bool>::empty(),
            whole,
            offered.len() as int,
        ));
        assert(is_greedy_run(
            *kernel,
            *sync_graph,
            iterations,
            explicit_pupdate_funs_opt,
            states,
            lists,
            picks,
        ));
    }
    (pbn_fix, final_probs)
}

/// `outcome` is an outcome of the relaxation of `base` without `fix`, run
/// through all its steps.
pub open spec fn is_dropping<K: Fn(&MeanField, &Vec<u32>) -> (Vec<u32>, u32)>(
    kernel: K,
    sync_graph: SymbSyncGraph,
    base: PBNFix,
    fix: UnitFix,
    iterations: usize,
    given: Option<&Vec<Vec<Bdd>>>,
    outcome: Simulation,
) -> bool {
    exists|lacking: PBNFix|
        #[trigger] lacking.is_without(base, fix) && is_relaxation(
            kernel,
            sync_graph,
            lacking,
            iterations,
            false,
            given,
            None,
            outcome,
        )
}

/// The state needs `fix`: some relaxation without it ends with an entropy
/// that is not zero.
pub open spec fn is_needed<K: Fn(&MeanField, &Vec<u32>) -> (Vec<u32>, u32)>(
    kernel: K,
    sync_graph: SymbSyncGraph,
    base: PBNFix,
    fix: UnitFix,
    iterations: usize,
    given: Option<&Vec<Vec<Bdd>>>,
) -> bool {
    exists|outcome: Simulation|
        #[trigger] is_dropping(kernel, sync_graph, base, fix, iterations, given, outcome)
            && !is_zero(outcome.entropy)
}

/// The state is reduced: it needs every fix that it holds.
pub open spec fn is_reduced<K: Fn(&MeanField, &Vec<u32>) -> (Vec<u32>, u32)>(
    kernel: K,
    sync_graph: SymbSyncGraph,
    pbn_fix: PBNFix,
    iterations: usize,
    given: Option<&Vec<Vec<Bdd>>>,
) -> bool {
    forall|fix: UnitFix| #[trigger]
        pbn_fix.has(fix) ==> is_needed(kernel, sync_graph, pbn_fix, fix, iterations, given)
}

/// Whether a relaxation ends with zero entropy depends only on the fixes of
/// the state that is relaxed: two relaxations of states that hold the same
/// fixes both end with zero entropy, or neither does.
pub open spec fn is_functional<K: Fn(&MeanField, &Vec<u32>) -> (Vec<u32>, u32)>(
    kernel: K,
    sync_graph: SymbSyncGraph,
    iterations: usize,
    given: Option<&Vec<Vec<Bdd>>>,
) -> bool {
    forall|a: PBNFix, b: PBNFix, first: Simulation, second: Simulation|
        a.same_content(b) && #[trigger] is_relaxation(
            kernel,
            sync_graph,
            a,
            iterations,
            false,
            given,
            None,
            first,
        ) && #[trigger] is_relaxation(kernel, sync_graph, b, iterations, false, given, None, second)
            ==> is_zero(first.entropy) == is_zero(second.entropy)
}

/// The place of the fix that a round of the reduction drops, given the
/// outcomes of the trials without each of the first `upto` fixes: among the
/// trials that ended with zero entropy the one that settled earliest, the
/// first among equals. Nothing if no trial ended with zero entropy.
pub open spec fn earliest_settled(outcomes: Seq<Simulation>, upto: int) -> Option<int>
    decreases upto,
{
    if upto <= 0 {
        None
    } else {
        let before = earliest_settled(outcomes, upto - 1);
        let sooner = match before {
            Some(place) => outcomes[upto - 1].index < outcomes[place].index,
            None => true,
        };
        if is_zero(outcomes[upto - 1].entropy) && sooner {
            Some(upto - 1)
        } else {
            before
        }
    }
}

/// The chosen place is one of the first `upto`, and its trial ended with
/// zero entropy; and if no place is chosen, no trial did.
pub proof fn lemma_earliest_settled(outcomes: Seq<Simulation>, upto: int)
    requires
        0 <= upto <= outcomes.len(),
    ensures
        earliest_settled(outcomes, upto) matches Some(place) ==> 0 <= place < upto && is_zero(
            outcomes[place].entropy,
        ),
        earliest_settled(outcomes, upto) is None ==> forall|k: int|
            0 <= k < upto ==> !is_zero((#[trigger] outcomes[k]).entropy),
    decreases upto,
{
    if upto > 0 {
        lemma_earliest_settled(outcomes, upto - 1);
    }
}

/// The choice among the first `upto` outcomes of a list is the same in any
/// list that starts with those outcomes.
pub proof fn lemma_earliest_prefix(short: Seq<Simulation>, long: Seq<Simulation>, upto: int)
    requires
        0 <= upto <= short.len() <= long.len(),
        forall|k: int| 0 <= k < short.len() ==> short[k] == long[k],
    ensures
        earliest_settled(short, upto) == earliest_settled(long, upto),
    decreases upto,
{
    if upto > 0 {
        lemma_earliest_prefix(short, long, upto - 1);
        lemma_earliest_settled(short, upto - 1);
    }
}

/// One round of the reduction: the state is tried without each of its
/// listed fixes, and `choice` is the place of the fix to drop.
pub open spec fn is_reduction_round<K: Fn(&MeanField, &Vec<u32>) -> (Vec<u32>, u32)>(
    kernel: K,
    sync_graph: SymbSyncGraph,
    iterations: usize,
    given: Option<&Vec<Vec<Bdd>>>,
    state: PBNFix,
    listed: Seq<UnitFix>,
    choice: Option<int>,
) -> bool {
    exists|outcomes: Seq<Simulation>|
        {
            &&& #[trigger] outcomes.len() == listed.len()
            &&& forall|k: int|
                0 <= k < outcomes.len() ==> is_dropping(
                    kernel,
                    sync_graph,
                    state,
                    listed[k],
                    iterations,
                    given,
                    #[trigger] outcomes[k],
                )
            &&& choice == earliest_settled(outcomes, outcomes.len() as int)
        }
}

/// The round at place `t` of a reduction drops a fix: the next state is the
/// state without the fix that the round chose, and the next list is the
/// list without it.
pub open spec fn is_reduction_step<K: Fn(&MeanField, &Vec<u32>) -> (Vec<u32>, u32)>(
    kernel: K,
    sync_graph: SymbSyncGraph,
    iterations: usize,
    given: Option<&Vec<Vec<Bdd>>>,
    state: PBNFix,
    listed: Seq<UnitFix>,
    next: PBNFix,
    left: Seq<UnitFix>,
) -> bool {
    exists|place: int|
        {
            &&& #[trigger] is_reduction_round(
                kernel,
                sync_graph,
                iterations,
                given,
                state,
                listed,
                Some(place),
            )
            &&& 0 <= place < listed.len()
            &&& next.is_without(state, listed[place])
            &&& left == listed.remove(place)
        }
}

/// The rounds of a reduction, one after the other: `states` and `lists`
/// hold the state and the list of its fixes before each round; each round
/// but the last drops a fix, and the last finds none to drop.
pub open spec fn is_reduction_run<K: Fn(&MeanField, &Vec<u32>) -> (Vec<u32>, u32)>(
    kernel: K,
    sync_graph: SymbSyncGraph,
    iterations: usize,
    given: Option<&Vec<Vec<Bdd>>>,
    states: Seq<PBNFix>,
    lists: Seq<Seq<UnitFix>>,
) -> bool {
    &&& states.len() == lists.len()
    &&& states.len() > 0
    &&& forall|t: int|
        0 <= t < states.len() - 1 ==> is_reduction_step(
            kernel,
            sync_graph,
            iterations,
            given,
            #[trigger] states[t],
            lists[t],
            states[t + 1],
            lists[t + 1],
        )
    &&& is_reduction_round(
        kernel,
        sync_graph,
        iterations,
        given,
        states[states.len() - 1],
        lists[lists.len() - 1],
        None,
    )
}

/// The fixes of a state in the order in which they are tried: the vertex
/// fixes by ascending variable, then the parameter fixes in the order of
/// their insertion.
pub open spec fn listing(pbn_fix: PBNFix) -> Seq<UnitFix> {
    Seq::new(
        pbn_fix.driver_fixes().len() + pbn_fix.parameters().len(),
        |j: int|
            if j < pbn_fix.driver_fixes().len() {
                UnitFix::Vertex(pbn_fix.driver_fixes()[j])
            } else {
                UnitFix::Parameter(pbn_fix.parameters()[j - pbn_fix.driver_fixes().len()])
            },
    )
}

/// Some relaxation of a state with the fixes of `pbn_fix`, run through all
/// its steps, ends with zero entropy.
pub open spec fn settles<K: Fn(&MeanField, &Vec<u32>) -> (Vec<u32>, u32)>(
    kernel: K,
    sync_graph: SymbSyncGraph,
    pbn_fix: PBNFix,
    iterations: usize,
    given: Option<&Vec<Vec<Bdd>>>,
) -> bool {
    exists|relaxed: PBNFix, outcome: Simulation|
        #![trigger
            relaxed.same_content(pbn_fix),
            is_relaxation(kernel, sync_graph, relaxed, iterations, false, given, None, outcome),
        ]
        relaxed.wf() && relaxed.same_content(pbn_fix) && is_relaxation(
            kernel,
            sync_graph,
            relaxed,
            iterations,
            false,
            given,
            None,
            outcome,
        ) && is_zero(outcome.entropy)
}

/// `output` is a reduction of `input`: it holds fixes of `input` only, over
/// the same colors, and needs each of them; if it lacks a fix of `input`,
/// it still settles; and if the relaxation is functional and `input` was
/// reduced already, it holds all the fixes of `input`.
pub open spec fn reduces_to<K: Fn(&MeanField, &Vec<u32>) -> (Vec<u32>, u32)>(
    kernel: K,
    sync_graph: SymbSyncGraph,
    input: PBNFix,
    iterations: usize,
    given: Option<&Vec<Vec<Bdd>>>,
    output: PBNFix,
) -> bool {
    &&& output.wf()
    &&& output.width() == input.width()
    &&& output.unit() == input.unit()
    &&& forall|fix: UnitFix| #[trigger] output.has(fix) ==> input.has(fix)
    &&& input.admitted().subset_of(output.admitted())
    &&& is_reduced(kernel, sync_graph, output, iterations, given)
    &&& output.same_content(input) || settles(kernel, sync_graph, output, iterations, given)
    &&& exists|states: Seq<PBNFix>, lists: Seq<Seq<UnitFix>>|
        {
            &&& #[trigger] is_reduction_run(kernel, sync_graph, iterations, given, states, lists)
            &&& states[0] == input
            &&& lists[0] == listing(input)
            &&& output.same_content(states[states.len() - 1])
        }
    &&& is_functional(kernel, sync_graph, iterations, given) && is_reduced(
        kernel,
        sync_graph,
        input,
        iterations,
        given,
    ) ==> output.same_content(input)
}

/// Reducing is idempotent: where the relaxation is functional, reducing a
/// reduction once more removes no further fix.
pub proof fn lemma_reduce_idempotent<K: Fn(&MeanField, &Vec<u32>) -> (Vec<u32>, u32)>(
    kernel: K,
    sync_graph: SymbSyncGraph,
    iterations: usize,
    given: Option<&Vec<Vec<Bdd>>>,
    input: PBNFix,
    once: PBNFix,
    twice: PBNFix,
)
    requires
        is_functional(kernel, sync_graph, iterations, given),
        reduces_to(kernel, sync_graph, input, iterations, given, once),
        reduces_to(kernel, sync_graph, once, iterations, given, twice),
    ensures
        twice.same_content(once),
        forall|fix: UnitFix| twice.has(fix) <==> once.has(fix),
{
    assert forall|fix: UnitFix| twice.has(fix) <==> once.has(fix) by {
        match fix {
            UnitFix::Vertex(f) => {},
            UnitFix::Parameter(f) => {},
        }
    }
}

/// The list holds exactly the fixes of the state, each once.
pub open spec fn lists_fixes(fixes: Seq<UnitFix>, pbn_fix: PBNFix) -> bool {
    &&& fixes.no_duplicates()
    &&& forall|k: int| 0 <= k < fixes.len() ==> pbn_fix.has(#[trigger] fixes[k])
    &&& forall|fix: UnitFix| #[trigger] pbn_fix.has(fix) ==> fixes.contains(fix)
}

/// Two states that hold the same fixes hold the same single fixes.
pub proof fn lemma_same_has(a: PBNFix, b: PBNFix, fix: UnitFix)
    requires
        a.same_content(b),
    ensures
        a.has(fix) <==> b.has(fix),
{
    match fix {
        UnitFix::Vertex(f) => {},
        UnitFix::Parameter(f) => {},
    }
}

/// What is one of two states without a fix is the other without it, if the
/// two hold the same fixes.
pub proof fn lemma_same_without(a: PBNFix, b: PBNFix, lacking: PBNFix, fix: UnitFix)
    requires
        a.same_content(b),
    ensures
        lacking.is_without(a, fix) <==> lacking.is_without(b, fix),
{
    match fix {
        UnitFix::Vertex(f) => {},
        UnitFix::Parameter(f) => {},
    }
}

/// A list of the fixes of one of two states lists the fixes of the other,
/// if the two hold the same fixes.
pub proof fn lemma_same_lists(a: PBNFix, b: PBNFix, fixes: Seq<UnitFix>)
    requires
        a.same_content(b),
        lists_fixes(fixes, a),
    ensures
        lists_fixes(fixes, b),
{
    assert forall|k: int| 0 <= k < fixes.len() implies b.has(#[trigger] fixes[k]) by {
        lemma_same_has(a, b, fixes[k]);
    }
    assert forall|fix: UnitFix| #[trigger] b.has(fix) implies fixes.contains(fix) by {
        lemma_same_has(a, b, fix);
    }
}

/// Two states that both are a third one without the same fix hold the same fixes.
pub proof fn lemma_without_same(first: PBNFix, second: PBNFix, a: PBNFix, b: PBNFix, fix: UnitFix)
    requires
        a.same_content(b),
        first.is_without(a, fix),
        second.is_without(b, fix),
    ensures
        first.same_content(second),
{
    match fix {
        UnitFix::Vertex(f) => {},
        UnitFix::Parameter(f) => {},
    }
}

/// The fixes of the state: the vertex fixes by ascending variable, then the
/// parameter fixes in the order of their insertion.
pub fn list_fixes(pbn_fix: &PBNFix) -> (r: Vec<UnitFix>)
    requires
        pbn_fix.wf(),
    ensures
        lists_fixes(r@, *pbn_fix),
        r@ == listing(*pbn_fix),
        r@.len() == pbn_fix.driver_fixes().len() + pbn_fix.parameters().len(),
        forall|j: int|
            0 <= j < pbn_fix.driver_fixes().len() ==> #[trigger] r@[j] == UnitFix::Vertex(
                pbn_fix.driver_fixes()[j],
            ),
        forall|j: int|
            0 <= j < pbn_fix.parameters().len() ==> #[trigger] r@[pbn_fix.driver_fixes().len()
                + j] == UnitFix::Parameter(pbn_fix.parameters()[j]),
{
    let vertices = pbn_fix.get_driver_set().fixes();
    let parameters = pbn_fix.get_parameter_fixes();
    let mut fixes: Vec<UnitFix> = Vec::new();
    let mut i: usize = 0;
    while i < vertices.len()
        invariant
            i <= vertices@.len(),
            fixes@.len() == i,
            forall|k: int| 0 <= k < i ==> #[trigger] fixes@[k] == UnitFix::Vertex(vertices@[k]),
        decreases vertices@.len() - i,
    {
        fixes.push(UnitFix::Vertex(vertices[i]));
        i = i + 1;
    }
    let mut k: usize = 0;
    while k < parameters.len()
        invariant
            k <= parameters@.len(),
            fixes@.len() == vertices@.len() + k,
            forall|j: int|
                0 <= j < vertices@.len() ==> #[trigger] fixes@[j] == UnitFix::Vertex(vertices@[j]),
            forall|j: int|
                0 <= j < k ==> #[trigger] fixes@[vertices@.len() + j] == UnitFix::Parameter(
                    parameters@[j],
                ),
        decreases parameters@.len() - k,
    {
        fixes.push(UnitFix::Parameter(parameters[k]));
        k = k + 1;
    }
    proof {
        let n = vertices@.len() as int;
        assert forall|a: int, b: int| 0 <= a < b < fixes@.len() implies fixes@[a] != fixes@[b] by {
            if b < n {
                assert(vertices@[a].var_id < vertices@[b].var_id);
            } else if a >= n {
                assert(fixes@[n + (a - n)] == UnitFix::Parameter(parameters@[a - n]));
                assert(fixes@[n + (b - n)] == UnitFix::Parameter(parameters@[b - n]));
                assert(pbn_fix.parameters()[a - n].bdd_var != pbn_fix.parameters()[b - n].bdd_var);
            } else {
                assert(fixes@[n + (b - n)] == UnitFix::Parameter(parameters@[b - n]));
            }
        }
        assert forall|j: int| 0 <= j < fixes@.len() implies pbn_fix.has(#[trigger] fixes@[j]) by {
            if j < n {
                assert(pbn_fix.driver().contains_pair(vertices@[j].var_id, vertices@[j].value));
            } else {
                assert(fixes@[n + (j - n)] == UnitFix::Parameter(parameters@[j - n]));
                assert(pbn_fix.parameters().contains(parameters@[j - n]));
            }
        }
        assert forall|fix: UnitFix| #[trigger] pbn_fix.has(fix) implies fixes@.contains(fix) by {
            match fix {
                UnitFix::Vertex(f) => {
                    assert(pbn_fix.driver().contains_key(f.var_id));
                    let j = choose|j: int| 0 <= j < vertices@.len() && vertices@[j].var_id == f.var_id;
                    assert(pbn_fix.driver().contains_pair(vertices@[j].var_id, vertices@[j].value));
                    assert(fixes@[j] == fix);
                },
                UnitFix::Parameter(f) => {
                    let j = choose|j: int| 0 <= j < parameters@.len() && parameters@[j] == f;
                    assert(fixes@[n + j] == fix);
                },
            }
        }
        assert forall|j: int| 0 <= j < fixes@.len() implies fixes@[j] == listing(*pbn_fix)[j] by {
            if j >= n {
                assert(fixes@[n + (j - n)] == UnitFix::Parameter(parameters@[j - n]));
            }
        }
        assert(fixes@ =~= listing(*pbn_fix));
    }
    fixes
}

/// Where the relaxation is functional, a state that holds the fixes of a
/// reduced state needs each of them: no relaxation without one of them ends
/// with zero entropy.
pub proof fn lemma_functional_needed<K: Fn(&MeanField, &Vec<u32>) -> (Vec<u32>, u32)>(
    kernel: K,
    sync_graph: SymbSyncGraph,
    iterations: usize,
    given: Option<&Vec<Vec<Bdd>>>,
    input: PBNFix,
    round: PBNFix,
    fix: UnitFix,
    outcome: Simulation,
)
    requires
        is_functional(kernel, sync_graph, iterations, given),
        is_reduced(kernel, sync_graph, input, iterations, given),
        round.same_content(input),
        round.has(fix),
        is_dropping(kernel, sync_graph, round, fix, iterations, given, outcome),
    ensures
        !is_zero(outcome.entropy),
{
    lemma_same_has(round, input, fix);
    assert(input.has(fix));
    assert(is_needed(kernel, sync_graph, input, fix, iterations, given));
    let other = choose|other: Simulation|
        #[trigger] is_dropping(kernel, sync_graph, input, fix, iterations, given, other)
            && !is_zero(other.entropy);
    let gone = choose|gone: PBNFix|
        #[trigger] gone.is_without(input, fix) && is_relaxation(
            kernel,
            sync_graph,
            gone,
            iterations,
            false,
            given,
            None,
            other,
        );
    let lacking = choose|lacking: PBNFix|
        #[trigger] lacking.is_without(round, fix) && is_relaxation(
            kernel,
            sync_graph,
            lacking,
            iterations,
            false,
            given,
            None,
            outcome,
        );
    lemma_without_same(lacking, gone, round, input, fix);
}

/// A state that a round of trials found to need every listed fix is reduced.
pub proof fn lemma_round_reduced<K: Fn(&MeanField, &Vec<u32>) -> (Vec<u32>, u32)>(
    kernel: K,
    sync_graph: SymbSyncGraph,
    iterations: usize,
    given: Option<&Vec<Vec<Bdd>>>,
    round: PBNFix,
    pbn_fix: PBNFix,
    fixes: Seq<UnitFix>,
)
    requires
        pbn_fix.same_content(round),
        lists_fixes(fixes, round),
        forall|j: int|
            0 <= j < fixes.len() ==> is_needed(
                kernel,
                sync_graph,
                round,
                #[trigger] fixes[j],
                iterations,
                given,
            ),
    ensures
        is_reduced(kernel, sync_graph, pbn_fix, iterations, given),
{
    assert forall|fix: UnitFix| #[trigger] pbn_fix.has(fix) implies is_needed(
        kernel,
        sync_graph,
        pbn_fix,
        fix,
        iterations,
        given,
    ) by {
        lemma_same_has(pbn_fix, round, fix);
        assert(fixes.contains(fix));
        let j = choose|j: int| 0 <= j < fixes.len() && fixes[j] == fix;
        assert(is_needed(kernel, sync_graph, round, fixes[j], iterations, given));
        let outcome = choose|outcome: Simulation|
            #[trigger] is_dropping(kernel, sync_graph, round, fix, iterations, given, outcome)
                && !is_zero(outcome.entropy);
        let lacking = choose|lacking: PBNFix|
            #[trigger] lacking.is_without(round, fix) && is_relaxation(
                kernel,
                sync_graph,
                lacking,
                iterations,
                false,
                given,
                None,
                outcome,
            );
        lemma_same_without(round, pbn_fix, lacking, fix);
        assert(is_dropping(kernel, sync_graph, pbn_fix, fix, iterations, given, outcome));
    }
}

/// A state settles if a state with the same fixes does.
pub proof fn lemma_settles_same<K: Fn(&MeanField, &Vec<u32>) -> (Vec<u32>, u32)>(
    kernel: K,
    sync_graph: SymbSyncGraph,
    iterations: usize,
    given: Option<&Vec<Vec<Bdd>>>,
    a: PBNFix,
    b: PBNFix,
)
    requires
        a.same_content(b),
        settles(kernel, sync_graph, a, iterations, given),
    ensures
        settles(kernel, sync_graph, b, iterations, given),
{
    let (relaxed, outcome) = choose|relaxed: PBNFix, outcome: Simulation|
        #![trigger
            relaxed.same_content(a),
            is_relaxation(kernel, sync_graph, relaxed, iterations, false, given, None, outcome),
        ]
        relaxed.wf() && relaxed.same_content(a) && is_relaxation(
            kernel,
            sync_graph,
            relaxed,
            iterations,
            false,
            given,
            None,
            outcome,
        ) && is_zero(outcome.entropy);
    assert(relaxed.same_content(b));
}

/// What is left of a state without a fix whose trial ended with zero
/// entropy settles.
pub proof fn lemma_dropped_settles<K: Fn(&MeanField, &Vec<u32>) -> (Vec<u32>, u32)>(
    kernel: K,
    sync_graph: SymbSyncGraph,
    iterations: usize,
    given: Option<&Vec<Vec<Bdd>>>,
    round: PBNFix,
    before: PBNFix,
    after: PBNFix,
    fix: UnitFix,
    outcome: Simulation,
)
    requires
        before.wf(),
        before.same_content(round),
        before.holds(fix),
        after.lacks(before, fix),
        is_dropping(kernel, sync_graph, round, fix, iterations, given, outcome),
        is_zero(outcome.entropy),
    ensures
        settles(kernel, sync_graph, after, iterations, given),
{
    let lacking = choose|lacking: PBNFix|
        #[trigger] lacking.is_without(round, fix) && is_relaxation(
            kernel,
            sync_graph,
            lacking,
            iterations,
            false,
            given,
            None,
            outcome,
        );
    lemma_lacks_is_without(before, after, fix);
    assert(round.same_content(before));
    lemma_without_same(lacking, after, round, before, fix);
    assert(lacking.same_content(after));
}

/// Relaxes the state without `fix`, through all the steps, and puts the fix back.
fn try_without<K: Fn(&MeanField, &Vec<u32>) -> (Vec<u32>, u32)>(
    pbn_fix: &mut PBNFix,
    fix: &UnitFix,
    sync_graph: &SymbSyncGraph,
    iterations: usize,
    explicit_pupdate_funs_opt: Option<&Vec<Vec<Bdd>>>,
    kernel: &K,
) -> (r: Simulation)
    requires
        are_given_forms(explicit_pupdate_funs_opt),
        sync_graph.wf(),
        old(pbn_fix).wf(),
        old(pbn_fix).width() == sync_graph.width(),
        old(pbn_fix).has(*fix),
        forall|s: &MeanField, p: &Vec<u32>| call_requires(*kernel, (s, p)),
    ensures
        final(pbn_fix).wf(),
        final(pbn_fix).same_content(*old(pbn_fix)),
        is_dropping(
            *kernel,
            *sync_graph,
            *old(pbn_fix),
            *fix,
            iterations,
            explicit_pupdate_funs_opt,
            r,
        ),
{
    let ghost before = *pbn_fix;
    pbn_fix.remove(fix);
    let ghost lacking = *pbn_fix;
    let outcome = ibmfa_entropy(
        sync_graph,
        pbn_fix,
        iterations,
        false,
        explicit_pupdate_funs_opt,
        kernel,
        None,
    );
    pbn_fix.insert(fix);
    proof {
        lemma_remove_then_insert(before, lacking, *pbn_fix, *fix);
        lemma_lacks_is_without(before, lacking, *fix);
    }
    outcome
}

/// Takes the fix at `place` of the list out of the state and out of the list.
fn drop_fix(pbn_fix: &mut PBNFix, fixes: &mut Vec<UnitFix>, place: usize)
    requires
        old(pbn_fix).wf(),
        place < old(fixes)@.len(),
        lists_fixes(old(fixes)@, *old(pbn_fix)),
    ensures
        final(pbn_fix).wf(),
        final(pbn_fix).width() == old(pbn_fix).width(),
        final(pbn_fix).unit() == old(pbn_fix).unit(),
        final(fixes)@.len() + 1 == old(fixes)@.len(),
        final(fixes)@ == old(fixes)@.remove(place as int),
        final(pbn_fix).lacks(*old(pbn_fix), old(fixes)@[place as int]),
        old(pbn_fix).admitted().subset_of(final(pbn_fix).admitted()),
        lists_fixes(final(fixes)@, *final(pbn_fix)),
        forall|fix: UnitFix| #[trigger] final(pbn_fix).has(fix) ==> old(pbn_fix).has(fix),
{
    let gone = fixes[place];
    let ghost before = *pbn_fix;
    let ghost listed = fixes@;
    assert(before.has(listed[place as int]));
    pbn_fix.remove(&gone);
    fixes.remove(place);
    proof {
        lemma_lacks_is_without(before, *pbn_fix, gone);
        assert forall|v: Seq<bool>| before.admitted().contains(v) implies pbn_fix.admitted().contains(
            v,
        ) by {
            assert(crate::bdd::agree_outside(v, v, Set::<int>::empty()));
            match gone {
                UnitFix::Vertex(f) => {},
                UnitFix::Parameter(f) => {
                    assert(crate::bdd::agree_outside(v, v, set![f.bdd_var as int]));
                },
            }
        }
        assert forall|fix: UnitFix| #[trigger] pbn_fix.has(fix) implies before.has(fix) && fix
            != gone by {
            match fix {
                UnitFix::Vertex(f) => {},
                UnitFix::Parameter(f) => {},
            }
        }
        assert forall|k: int| 0 <= k < fixes@.len() implies pbn_fix.has(#[trigger] fixes@[k]) by {
            let j = if k < place {
                k
            } else {
                k + 1
            };
            assert(fixes@[k] == listed[j]);
            assert(before.has(listed[j]));
            assert(listed[j] != listed[place as int]);
            match (listed[j], gone) {
                (UnitFix::Vertex(f), UnitFix::Vertex(g)) => {},
                (UnitFix::Vertex(f), UnitFix::Parameter(g)) => {},
                (UnitFix::Parameter(f), UnitFix::Vertex(g)) => {},
                (UnitFix::Parameter(f), UnitFix::Parameter(g)) => {},
            }
        }
        assert forall|fix: UnitFix| #[trigger] pbn_fix.has(fix) implies fixes@.contains(fix) by {
            assert(listed.contains(fix));
            let j = choose|j: int| 0 <= j < listed.len() && listed[j] == fix;
            let k = if j < place {
                j
            } else {
                j - 1
            };
            assert(fixes@[k] == fix);
        }
        assert forall|a: int, b: int| 0 <= a < b < fixes@.len() implies fixes@[a] != fixes@[b] by {
            let ja = if a < place {
                a
            } else {
                a + 1
            };
            let jb = if b < place {
                b
            } else {
                b + 1
            };
            assert(fixes@[a] == listed[ja]);
            assert(fixes@[b] == listed[jb]);
        }
    }
}

/// Removes superfluous fixes: tries the state without each of its fixes in
/// turn and, if some of these relaxations end with zero entropy, drops the
/// fix whose relaxation settled earliest (the first such fix if several
/// settled equally early); repeats until the state needs every fix it
/// holds.
pub fn reduce_driver_set<K: Fn(&MeanField, &Vec<u32>) -> (Vec<u32>, u32)>(
    pbn_fix: PBNFix,
    sync_graph: &SymbSyncGraph,
    iterations: usize,
    explicit_pupdate_funs_opt: Option<&Vec<Vec<Bdd>>>,
    kernel: &K,
) -> (r: PBNFix)
    requires
        are_given_forms(explicit_pupdate_funs_opt),
        sync_graph.wf(),
        pbn_fix.wf(),
        pbn_fix.width() == sync_graph.width(),
        forall|s: &MeanField, p: &Vec<u32>| call_requires(*kernel, (s, p)),
    ensures
        reduces_to(*kernel, *sync_graph, pbn_fix, iterations, explicit_pupdate_funs_opt, r),
{
    let ghost input = pbn_fix;
    let ghost given = explicit_pupdate_funs_opt;
    let ghost functional = is_functional(*kernel, *sync_graph, iterations, given) && is_reduced(
        *kernel,
        *sync_graph,
        input,
        iterations,
        given,
    );
    let mut pbn_fix = pbn_fix;
    let mut fixes = list_fixes(&pbn_fix);
    let mut done = false;
    let ghost mut states: Seq<PBNFix> = seq![pbn_fix];
    let ghost mut lists: Seq<Seq<UnitFix>> = seq![fixes@];
    while !done
        invariant
            sync_graph.wf(),
            pbn_fix.wf(),
            pbn_fix.width() == sync_graph.width(),
            pbn_fix.width() == input.width(),
            states.len() == lists.len(),
            states.len() > 0,
            states[0] == input,
            lists[0] == listing(input),
            lists[lists.len() - 1] == fixes@,
            !done ==> states[states.len() - 1] == pbn_fix,
            done ==> pbn_fix.same_content(states[states.len() - 1]) && is_reduction_round(
                *kernel,
                *sync_graph,
                iterations,
                given,
                states[states.len() - 1],
                lists[lists.len() - 1],
                None,
            ),
            forall|t: int|
                0 <= t < states.len() - 1 ==> is_reduction_step(
                    *kernel,
                    *sync_graph,
                    iterations,
                    given,
                    #[trigger] states[t],
                    lists[t],
                    states[t + 1],
                    lists[t + 1],
                ),
            pbn_fix.unit() == input.unit(),
            given == explicit_pupdate_funs_opt,
            are_given_forms(explicit_pupdate_funs_opt),
            functional == (is_functional(*kernel, *sync_graph, iterations, given) && is_reduced(
                *kernel,
                *sync_graph,
                input,
                iterations,
                given,
            )),
            forall|s: &MeanField, p: &Vec<u32>| call_requires(*kernel, (s, p)),
            lists_fixes(fixes@, pbn_fix),
            forall|fix: UnitFix| #[trigger] pbn_fix.has(fix) ==> input.has(fix),
            input.admitted().subset_of(pbn_fix.admitted()),
            functional ==> pbn_fix.same_content(input),
            pbn_fix.same_content(input) || settles(
                *kernel,
                *sync_graph,
                pbn_fix,
                iterations,
                given,
            ),
            done ==> is_reduced(*kernel, *sync_graph, pbn_fix, iterations, given),
        decreases
                fixes@.len(),
                if done {
                    0nat
                } else {
                    1nat
                },
    {
        let ghost round = pbn_fix;
        let ghost mut settled: Simulation = arbitrary();
        let ghost mut outcomes: Seq<Simulation> = Seq::empty();
        let mut to_remove: Option<(usize, usize)> = None;
        let mut i: usize = 0;
        while i < fixes.len()
            invariant
                i <= fixes@.len(),
                sync_graph.wf(),
                pbn_fix.wf(),
                pbn_fix.width() == sync_graph.width(),
                pbn_fix.same_content(round),
                given == explicit_pupdate_funs_opt,
                are_given_forms(explicit_pupdate_funs_opt),
            are_given_forms(explicit_pupdate_funs_opt),
                functional == (is_functional(*kernel, *sync_graph, iterations, given)
                    && is_reduced(*kernel, *sync_graph, input, iterations, given)),
                functional ==> round.same_content(input),
                forall|s: &MeanField, p: &Vec<u32>| call_requires(*kernel, (s, p)),
                lists_fixes(fixes@, round),
                outcomes.len() == i,
                forall|k: int|
                    0 <= k < outcomes.len() ==> is_dropping(
                        *kernel,
                        *sync_graph,
                        round,
                        fixes@[k],
                        iterations,
                        given,
                        #[trigger] outcomes[k],
                    ),
                match to_remove {
                    Some((place, index)) => earliest_settled(outcomes, i as int) == Some(
                        place as int,
                    ) && index == outcomes[place as int].index,
                    None => earliest_settled(outcomes, i as int) is None,
                },
                to_remove matches Some((place, _)) ==> place < i && is_zero(settled.entropy)
                    && is_dropping(
                    *kernel,
                    *sync_graph,
                    round,
                    fixes@[place as int],
                    iterations,
                    given,
                    settled,
                ),
                to_remove is None ==> forall|j: int|
                    0 <= j < i ==> is_needed(
                        *kernel,
                        *sync_graph,
                        round,
                        #[trigger] fixes@[j],
                        iterations,
                        given,
                    ),
                functional ==> to_remove is None,
            decreases fixes@.len() - i,
        {
            let unit_fix = fixes[i];
            let ghost before = pbn_fix;
            proof {
                assert(round.has(fixes@[i as int]));
                lemma_same_has(pbn_fix, round, unit_fix);
            }
            let outcome = try_without(
                &mut pbn_fix,
                &unit_fix,
                sync_graph,
                iterations,
                explicit_pupdate_funs_opt,
                kernel,
            );
            proof {
                let lacking = choose|lacking: PBNFix|
                    #[trigger] lacking.is_without(before, unit_fix) && is_relaxation(
                        *kernel,
                        *sync_graph,
                        lacking,
                        iterations,
                        false,
                        given,
                        None,
                        outcome,
                    );
                lemma_same_without(before, round, lacking, unit_fix);
                assert(is_dropping(
                    *kernel,
                    *sync_graph,
                    round,
                    unit_fix,
                    iterations,
                    given,
                    outcome,
                ));
                if functional {
                    lemma_functional_needed(
                        *kernel,
                        *sync_graph,
                        iterations,
                        given,
                        input,
                        round,
                        unit_fix,
                        outcome,
                    );
                }
            }
            proof {
                let earlier = outcomes;
                outcomes = outcomes.push(outcome);
                assert forall|k: int| 0 <= k < outcomes.len() implies is_dropping(
                    *kernel,
                    *sync_graph,
                    round,
                    fixes@[k],
                    iterations,
                    given,
                    #[trigger] outcomes[k],
                ) by {
                    if k < earlier.len() {
                        assert(outcomes[k] == earlier[k]);
                    }
                }
                lemma_earliest_prefix(earlier, outcomes, i as int);
                lemma_earliest_settled(earlier, i as int);
                if let Some(place) = earliest_settled(earlier, i as int) {
                    assert(outcomes[place] == earlier[place]);
                }
            }
            let zero = entropy_is_zero(outcome.entropy);
            if zero {
                let sooner = match to_remove {
                    Some((_, index)) => outcome.index < index,
                    None => true,
                };
                if sooner {
                    to_remove = Some((i, outcome.index));
                    proof {
                        settled = outcome;
                    }
                }
            } else {
                proof {
                    assert(is_needed(*kernel, *sync_graph, round, unit_fix, iterations, given));
                }
            }
            i = i + 1;
        }
        match to_remove {
            Some((place, _)) => {
                let ghost before = pbn_fix;
                let ghost gone = fixes@[place as int];
                proof {
                    lemma_same_lists(round, pbn_fix, fixes@);
                }
                let ghost listed = fixes@;
                drop_fix(&mut pbn_fix, &mut fixes, place);
                proof {
                    lemma_same_has(before, round, gone);
                    lemma_lacks_is_without(before, pbn_fix, gone);
                    lemma_same_without(before, round, pbn_fix, gone);
                    assert(is_reduction_round(
                        *kernel,
                        *sync_graph,
                        iterations,
                        given,
                        round,
                        listed,
                        Some(place as int),
                    ));
                    assert(is_reduction_step(
                        *kernel,
                        *sync_graph,
                        iterations,
                        given,
                        round,
                        listed,
                        pbn_fix,
                        fixes@,
                    ));
                    let old_states = states;
                    let old_lists = lists;
                    states = states.push(pbn_fix);
                    lists = lists.push(fixes@);
                    assert forall|t: int| 0 <= t < states.len() - 1 implies is_reduction_step(
                        *kernel,
                        *sync_graph,
                        iterations,
                        given,
                        #[trigger] states[t],
                        lists[t],
                        states[t + 1],
                        lists[t + 1],
                    ) by {
                        assert(states[t] == old_states[t]);
                        assert(lists[t] == old_lists[t]);
                        if t < old_states.len() - 1 {
                            assert(states[t + 1] == old_states[t + 1]);
                            assert(lists[t + 1] == old_lists[t + 1]);
                        }
                    }
                    lemma_dropped_settles(
                        *kernel,
                        *sync_graph,
                        iterations,
                        given,
                        round,
                        before,
                        pbn_fix,
                        gone,
                        settled,
                    );
                }
            },
            None => {
                proof {
                    lemma_round_reduced(
                        *kernel,
                        *sync_graph,
                        iterations,
                        given,
                        round,
                        pbn_fix,
                        fixes@,
                    );
                    lemma_same_lists(round, pbn_fix, fixes@);
                    assert(is_reduction_round(
                        *kernel,
                        *sync_graph,
                        iterations,
                        given,
                        round,
                        fixes@,
                        None,
                    ));
                    if round.same_content(input) {
                        assert(pbn_fix.same_content(input));
                    } else {
                        assert(round.same_content(pbn_fix));
                        lemma_settles_same(
                            *kernel,
                            *sync_graph,
                            iterations,
                            given,
                            round,
                            pbn_fix,
                        );
                    }
                }
                done = true;
            },
        }
    }
    proof {
        assert(is_reduction_run(*kernel, *sync_graph, iterations, given, states, lists));
    }
    pbn_fix
}

/// The colors that a search explores: those of the target, or all valid ones.
pub open spec fn explored(sync_graph: SymbSyncGraph, attr_opt: Option<(&Bdd, &Bdd)>) -> Set<
    Seq<bool>,
> {
    match attr_opt {
        Some((_, colors)) => bdd_valuations(*colors),
        None => sync_graph.unit_set(),
    }
}

/// The target states of a search, if it has a target.
pub open spec fn targeted(attr_opt: Option<(&Bdd, &Bdd)>) -> Option<Set<Seq<bool>>> {
    match attr_opt {
        Some((states, _)) => Some(bdd_valuations(*states)),
        None => None,
    }
}

/// `found` with `probabilities` is what a search over the colors of
/// `attr_opt` may return: what the greedy build-up returned, or a reduction
/// of it if that was asked for, with the probabilities of the build-up. It
/// is a state over those colors whose fixes are candidates of the search,
/// vertex fixes only if only vertices were to be fixed.
pub open spec fn is_driver_set<K: Fn(&MeanField, &Vec<u32>) -> (Vec<u32>, u32)>(
    kernel: K,
    sync_graph: SymbSyncGraph,
    iterations: usize,
    reduced: bool,
    attr_opt: Option<(&Bdd, &Bdd)>,
    fix_only_vertices: bool,
    found: PBNFix,
    probabilities: Vec<u32>,
) -> bool {
    &&& found.wf()
    &&& found.width() == sync_graph.width()
    &&& found.unit() == explored(sync_graph, attr_opt)
    &&& is_drawn_from(
        found,
        candidates(
            sync_graph.state_vars(),
            targeted(attr_opt),
            sync_graph.parameter_vars(),
            fix_only_vertices,
        ),
    )
    &&& fix_only_vertices ==> found.parameters() == Seq::<UnitParameterFix>::empty()
    &&& found.parameters().len() > 0 ==> found.admitted() != Set::<Seq<bool>>::empty()
    &&& exists|given: Option<&Vec<Vec<Bdd>>>, built: PBNFix|
        {
            &&& (given is Some) == fix_only_vertices
            &&& #[trigger] is_built(
                kernel,
                sync_graph,
                iterations,
                explored(sync_graph, attr_opt),
                candidates(
                    sync_graph.state_vars(),
                    targeted(attr_opt),
                    sync_graph.parameter_vars(),
                    fix_only_vertices,
                ),
                given,
                built,
                probabilities,
            )
            &&& if reduced {
                reduces_to(kernel, sync_graph, built, iterations, given, found)
            } else {
                found == built
            }
        }
}

/// Searches a driver set: builds one greedily and, if `reduced` is set,
/// removes the fixes that turn out superfluous.
///
/// * `attr_opt` - the target states and their colors; without a target the
///   search runs over all states and all valid colors.
/// * `fix_only_vertices` - leave the parametrization bits alone.
///
/// Returns the state with the fixes found and the probabilities of the last
/// relaxation of the build-up.
pub fn find_driver_set<K: Fn(&MeanField, &Vec<u32>) -> (Vec<u32>, u32)>(
    sync_graph: &SymbSyncGraph,
    iterations: usize,
    reduced: bool,
    attr_opt: Option<(&Bdd, &Bdd)>,
    fix_only_vertices: bool,
    kernel: &K,
) -> (r: (PBNFix, Vec<u32>))
    requires
        sync_graph.wf(),
        attr_opt matches Some((states, colors)) ==> bdd_over(*states, sync_graph.width())
            && bdd_over(*colors, sync_graph.width()),
        forall|s: &MeanField, p: &Vec<u32>| call_requires(*kernel, (s, p)),
    ensures
        is_driver_set(
            *kernel,
            *sync_graph,
            iterations,
            reduced,
            attr_opt,
            fix_only_vertices,
            r.0,
            r.1,
        ),
{
    let ghost offered = candidates(
        sync_graph.state_vars(),
        targeted(attr_opt),
        sync_graph.parameter_vars(),
        fix_only_vertices,
    );
    let ghost whole = explored(*sync_graph, attr_opt);
    let (colors, states) = match attr_opt {
        Some((attr_states, attr_colors)) => (bdd_clone(attr_colors), Some(attr_states)),
        None => (sync_graph.unit_colors(), None),
    };
    if fix_only_vertices {
        let explicit = sync_graph.explicit_pupdate_functions(&colors);
        let (built, probs) = build_driver_set(
            sync_graph,
            iterations,
            colors,
            states,
            Some(&explicit),
            kernel,
        );
        proof {
            assert(is_built(
                *kernel,
                *sync_graph,
                iterations,
                whole,
                offered,
                Some(&explicit),
                built,
                probs,
            ));
        }
        if reduced {
            let ghost grown = built;
            let pbn_fix = reduce_driver_set(built, sync_graph, iterations, Some(&explicit), kernel);
            proof {
                lemma_reduced_drawn(
                    grown,
                    pbn_fix,
                    candidates(
                        sync_graph.state_vars(),
                        targeted(attr_opt),
                        sync_graph.parameter_vars(),
                        fix_only_vertices,
                    ),
                );
                lemma_admitted_kept(grown, pbn_fix);
                assert(reduces_to(
                    *kernel,
                    *sync_graph,
                    grown,
                    iterations,
                    Some(&explicit),
                    pbn_fix,
                ));
            }
            (pbn_fix, probs)
        } else {
            (built, probs)
        }
    } else {
        let (built, probs) = build_driver_set(sync_graph, iterations, colors, states, None, kernel);
        proof {
            assert(is_built(
                *kernel,
                *sync_graph,
                iterations,
                whole,
                offered,
                None::<&Vec<Vec<Bdd>>>,
                built,
                probs,
            ));
        }
        if reduced {
            let ghost grown = built;
            let pbn_fix = reduce_driver_set(built, sync_graph, iterations, None, kernel);
            proof {
                lemma_reduced_drawn(
                    grown,
                    pbn_fix,
                    candidates(
                        sync_graph.state_vars(),
                        targeted(attr_opt),
                        sync_graph.parameter_vars(),
                        fix_only_vertices,
                    ),
                );
                lemma_admitted_kept(grown, pbn_fix);
                assert(reduces_to(
                    *kernel,
                    *sync_graph,
                    grown,
                    iterations,
                    None::<&Vec<Vec<Bdd>>>,
                    pbn_fix,
                ));
            }
            (pbn_fix, probs)
        } else {
            (built, probs)
        }
    }
}

/// A state that admits what another admits admits some color if the other does.
pub proof fn lemma_admitted_kept(grown: PBNFix, reduced: PBNFix)
    requires
        grown.admitted().subset_of(reduced.admitted()),
    ensures
        grown.admitted() != Set::<Seq<bool>>::empty() ==> reduced.admitted() != Set::<
            Seq<bool>,
        >::empty(),
{
    if grown.admitted() != Set::<Seq<bool>>::empty() {
        if forall|v: Seq<bool>| !grown.admitted().contains(v) {
            assert(grown.admitted() =~= Set::<Seq<bool>>::empty());
        }
        let v = choose|v: Seq<bool>| grown.admitted().contains(v);
        assert(reduced.admitted().contains(v));
    }
}

/// A state that holds some of the fixes of a state drawn from a list is
/// drawn from that list, and holds no parameter fix if the other holds none.
pub proof fn lemma_reduced_drawn(grown: PBNFix, reduced: PBNFix, offered: Seq<UnitFix>)
    requires
        is_drawn_from(grown, offered),
        forall|fix: UnitFix| #[trigger] reduced.has(fix) ==> grown.has(fix),
    ensures
        is_drawn_from(reduced, offered),
        grown.parameters() == Seq::<UnitParameterFix>::empty() ==> reduced.parameters()
            == Seq::<UnitParameterFix>::empty(),
        reduced.parameters().len() > 0 ==> grown.parameters().len() > 0,
{
    assert forall|var: usize| #[trigger] reduced.driver().contains_key(var) implies offered.contains(
        UnitFix::Vertex(UnitVertexFix { var_id: var, value: reduced.driver()[var] }),
    ) by {
        let fix = UnitFix::Vertex(UnitVertexFix { var_id: var, value: reduced.driver()[var] });
        assert(reduced.has(fix));
        assert(grown.has(fix));
        assert(grown.driver().contains_key(var));
    }
    assert forall|k: int| 0 <= k < reduced.parameters().len() implies offered.contains(
        UnitFix::Parameter(#[trigger] reduced.parameters()[k]),
    ) by {
        let fix = UnitFix::Parameter(reduced.parameters()[k]);
        assert(reduced.has(fix));
        assert(grown.has(fix));
        let j = choose|j: int|
            0 <= j < grown.parameters().len() && grown.parameters()[j] == reduced.parameters()[k];
        assert(offered.contains(UnitFix::Parameter(grown.parameters()[j])));
    }
    if reduced.parameters().len() > 0 {
        let fix = UnitFix::Parameter(reduced.parameters()[0]);
        assert(reduced.has(fix));
        assert(grown.has(fix));
    }
    if grown.parameters() == Seq::<UnitParameterFix>::empty() {
        if reduced.parameters().len() > 0 {
            let fix = UnitFix::Parameter(reduced.parameters()[0]);
            assert(reduced.has(fix));
            assert(grown.has(fix));
        }
        assert(reduced.parameters() =~= Seq::<UnitParameterFix>::empty());
    }
}

/// The buckets partition the colors `whole`: none is empty, no two share a
/// color, and together they hold exactly `whole`.
pub open spec fn is_partition(buckets: Seq<(Bdd, DriverSet)>, whole: Set<Seq<bool>>) -> bool {
    &&& forall|i: int|
        0 <= i < buckets.len() ==> bdd_valuations((#[trigger] buckets[i]).0) != Set::<
            Seq<bool>,
        >::empty()
    &&& forall|i: int, j: int|
        0 <= i < j < buckets.len() ==> bdd_valuations((#[trigger] buckets[i]).0).disjoint(
            bdd_valuations((#[trigger] buckets[j]).0),
        )
    &&& forall|v: Seq<bool>|
        whole.contains(v) <==> exists|i: int|
            0 <= i < buckets.len() && bdd_valuations((#[trigger] buckets[i]).0).contains(v)
}

/// The colors of the first `upto` buckets.
pub open spec fn covered(buckets: Seq<(Bdd, DriverSet)>, upto: int) -> Set<Seq<bool>>
    decreases upto,
{
    if upto <= 0 {
        Set::empty()
    } else {
        covered(buckets, upto - 1).union(bdd_valuations(buckets[upto - 1].0))
    }
}

/// A color is covered exactly if one of the buckets holds it.
pub proof fn lemma_covered(buckets: Seq<(Bdd, DriverSet)>, upto: int, v: Seq<bool>)
    requires
        0 <= upto <= buckets.len(),
    ensures
        covered(buckets, upto).contains(v) <==> exists|i: int|
            0 <= i < upto && bdd_valuations((#[trigger] buckets[i]).0).contains(v),
    decreases upto,
{
    if upto > 0 {
        lemma_covered(buckets, upto - 1, v);
        if covered(buckets, upto).contains(v) {
            if !covered(buckets, upto - 1).contains(v) {
                assert(bdd_valuations(buckets[upto - 1].0).contains(v));
            }
        }
    }
}

/// The parametrization of the color `v` of the target was searched alone,
/// and the driver set found for it is that of the bucket, which holds the
/// whole parametrization.
pub open spec fn is_searched<K: Fn(&MeanField, &Vec<u32>) -> (Vec<u32>, u32)>(
    kernel: K,
    sync_graph: SymbSyncGraph,
    iterations: usize,
    reduced: bool,
    attr: (&Bdd, &Bdd),
    bucket: (Bdd, DriverSet),
    v: Seq<bool>,
) -> bool {
    exists|color: Bdd, found: PBNFix, probabilities: Vec<u32>|
        {
            &&& bdd_valuations(color) == sync_graph.color_of(bdd_valuations(*attr.1), v)
            &&& bdd_valuations(color).subset_of(bdd_valuations(bucket.0))
            &&& #[trigger] is_driver_set(
                kernel,
                sync_graph,
                iterations,
                reduced,
                Some((attr.0, &color)),
                true,
                found,
                probabilities,
            )
            &&& found.driver() == bucket.1@
        }
}

/// For every color of the bucket, a search for vertex fixes for the
/// parametrization of that color alone found the driver set of the bucket.
pub open spec fn is_bucket<K: Fn(&MeanField, &Vec<u32>) -> (Vec<u32>, u32)>(
    kernel: K,
    sync_graph: SymbSyncGraph,
    iterations: usize,
    reduced: bool,
    attr: (&Bdd, &Bdd),
    bucket: (Bdd, DriverSet),
) -> bool {
    forall|v: Seq<bool>| #[trigger]
        bdd_valuations(bucket.0).contains(v) ==> is_searched(
            kernel,
            sync_graph,
            iterations,
            reduced,
            attr,
            bucket,
            v,
        )
}

/// What was searched for a bucket was searched for a bucket that holds at
/// least its colors, with the same driver set.
pub proof fn lemma_searched_in<K: Fn(&MeanField, &Vec<u32>) -> (Vec<u32>, u32)>(
    kernel: K,
    sync_graph: SymbSyncGraph,
    iterations: usize,
    reduced: bool,
    attr: (&Bdd, &Bdd),
    bucket: (Bdd, DriverSet),
    wider: (Bdd, DriverSet),
    v: Seq<bool>,
)
    requires
        is_searched(kernel, sync_graph, iterations, reduced, attr, bucket, v),
        bdd_valuations(bucket.0).subset_of(bdd_valuations(wider.0)),
        bucket.1@ == wider.1@,
    ensures
        is_searched(kernel, sync_graph, iterations, reduced, attr, wider, v),
{
    let (color, found, probabilities) = choose|color: Bdd, found: PBNFix, probabilities: Vec<u32>|
        {
            &&& bdd_valuations(color) == sync_graph.color_of(bdd_valuations(*attr.1), v)
            &&& bdd_valuations(color).subset_of(bdd_valuations(bucket.0))
            &&& #[trigger] is_driver_set(
                kernel,
                sync_graph,
                iterations,
                reduced,
                Some((attr.0, &color)),
                true,
                found,
                probabilities,
            )
            &&& found.driver() == bucket.1@
        };
    assert(bdd_valuations(color).subset_of(bdd_valuations(wider.0)));
}

/// Within colors that are closed in `whole`, the parametrization picked by
/// `witness` is the parametrization in `whole` of each of its members.
pub proof fn lemma_color_class(
    sync_graph: SymbSyncGraph,
    part: Set<Seq<bool>>,
    whole: Set<Seq<bool>>,
    witness: Seq<bool>,
    v: Seq<bool>,
)
    requires
        part.subset_of(whole),
        is_color_closed(sync_graph, part, whole),
        sync_graph.color_of(part, witness).contains(v),
    ensures
        sync_graph.color_of(part, witness) == sync_graph.color_of(whole, v),
{
    let vars = sync_graph.parameter_vars();
    assert forall|x: Seq<bool>| sync_graph.color_of(part, witness).contains(x)
        <==> sync_graph.color_of(whole, v).contains(x) by {
        if sync_graph.color_of(part, witness).contains(x) {
            assert(whole.contains(x));
            assert forall|k: int| 0 <= k < vars.len() implies x[(#[trigger] vars[k]) as int]
                == v[vars[k] as int] by {}
        }
        if sync_graph.color_of(whole, v).contains(x) {
            assert forall|k: int| 0 <= k < vars.len() implies v[(#[trigger] vars[k]) as int]
                == x[vars[k] as int] by {}
            assert(sync_graph.same_color(v, x));
            assert(part.contains(v) && whole.contains(x));
            assert(part.contains(x));
            assert forall|k: int| 0 <= k < vars.len() implies x[(#[trigger] vars[k]) as int]
                == witness[vars[k] as int] by {}
        }
    }
    assert(sync_graph.color_of(part, witness) =~= sync_graph.color_of(whole, v));
}

/// What is left of closed colors once a parametrization is taken out is
/// closed.
pub proof fn lemma_closed_without(
    sync_graph: SymbSyncGraph,
    part: Set<Seq<bool>>,
    whole: Set<Seq<bool>>,
    witness: Seq<bool>,
)
    requires
        is_color_closed(sync_graph, part, whole),
    ensures
        is_color_closed(sync_graph, part.difference(sync_graph.color_of(part, witness)), whole),
{
    let vars = sync_graph.parameter_vars();
    let rest = part.difference(sync_graph.color_of(part, witness));
    assert forall|u: Seq<bool>, v: Seq<bool>|
        #![trigger rest.contains(u), whole.contains(v)]
        rest.contains(u) && whole.contains(v) && sync_graph.same_color(u, v) implies rest.contains(
        v,
    ) by {
        assert(part.contains(u) && whole.contains(v));
        assert(part.contains(v));
        if sync_graph.same_color(v, witness) {
            assert forall|k: int| 0 <= k < vars.len() implies u[(#[trigger] vars[k]) as int]
                == witness[vars[k] as int] by {}
            assert(sync_graph.color_of(part, witness).contains(u));
        }
    }
}

/// The parametrization bits tell the buckets of a partition apart, if every
/// bucket holds the whole parametrization of each of its colors.
pub proof fn lemma_buckets_told_apart<K: Fn(&MeanField, &Vec<u32>) -> (Vec<u32>, u32)>(
    kernel: K,
    sync_graph: SymbSyncGraph,
    iterations: usize,
    reduced: bool,
    attr: (&Bdd, &Bdd),
    buckets: Seq<(Bdd, DriverSet)>,
)
    requires
        is_partition(buckets, bdd_valuations(*attr.1)),
        forall|i: int|
            0 <= i < buckets.len() ==> is_bucket(
                kernel,
                sync_graph,
                iterations,
                reduced,
                attr,
                #[trigger] buckets[i],
            ),
    ensures
        told_apart(buckets, sync_graph.parameter_vars()),
{
    let vars = sync_graph.parameter_vars();
    let whole = bdd_valuations(*attr.1);
    assert forall|i: int, j: int, u: Seq<bool>, v: Seq<bool>|
        #![trigger
            bdd_valuations(buckets[i].0).contains(u),
            bdd_valuations(buckets[j].0).contains(v),
        ]
        0 <= i < buckets.len() && 0 <= j < buckets.len() && i != j && bdd_valuations(
            buckets[i].0,
        ).contains(u) && bdd_valuations(buckets[j].0).contains(v) implies !agree_at(
        u,
        v,
        vars,
    ) by {
        if agree_at(u, v, vars) {
            assert(is_bucket(kernel, sync_graph, iterations, reduced, attr, buckets[i]));
            assert(is_searched(kernel, sync_graph, iterations, reduced, attr, buckets[i], u));
            assert(whole.contains(v));
            assert forall|k: int| 0 <= k < vars.len() implies v[(#[trigger] vars[k]) as int]
                == u[vars[k] as int] by {}
            assert(sync_graph.color_of(whole, u).contains(v));
            assert(bdd_valuations(buckets[i].0).contains(v));
            if i < j {
                assert(bdd_valuations(buckets[i].0).disjoint(bdd_valuations(buckets[j].0)));
            } else {
                assert(bdd_valuations(buckets[j].0).disjoint(bdd_valuations(buckets[i].0)));
            }
        }
    }
}

/// Partitions the colors of the target by their driver sets: finds, for one
/// color after the other, the driver set of vertex fixes for that color
/// alone, and puts the colors with equal driver sets into one bucket.
pub fn colors_partition<K: Fn(&MeanField, &Vec<u32>) -> (Vec<u32>, u32)>(
    sync_graph: &SymbSyncGraph,
    iterations: usize,
    reduced: bool,
    attr: (&Bdd, &Bdd),
    kernel: &K,
) -> (r: Vec<(Bdd, DriverSet)>)
    requires
        sync_graph.wf(),
        bdd_over(*attr.0, sync_graph.width()),
        bdd_over(*attr.1, sync_graph.width()),
        forall|s: &MeanField, p: &Vec<u32>| call_requires(*kernel, (s, p)),
    ensures
        is_partition(r@, bdd_valuations(*attr.1)),
        forall|i: int| 0 <= i < r@.len() ==> bdd_over((#[trigger] r@[i]).0, sync_graph.width()),
        forall|i: int, j: int|
            0 <= i < j < r@.len() ==> (#[trigger] r@[i]).1@ != (#[trigger] r@[j]).1@,
        forall|i: int|
            0 <= i < r@.len() ==> is_bucket(
                *kernel,
                *sync_graph,
                iterations,
                reduced,
                attr,
                #[trigger] r@[i],
            ),
        told_apart(r@, sync_graph.parameter_vars()),
{
    let ghost whole = bdd_valuations(*attr.1);
    let ghost width = sync_graph.width();
    let mut driver_sets: Vec<(Bdd, DriverSet)> = Vec::new();
    let mut remaining_colors = bdd_clone(attr.1);
    while !bdd_is_false(&remaining_colors)
        invariant
            sync_graph.wf(),
            width == sync_graph.width(),
            whole == bdd_valuations(*attr.1),
            bdd_over(*attr.0, width),
            bdd_over(*attr.1, width),
            bdd_over(remaining_colors, width),
            forall|s: &MeanField, p: &Vec<u32>| call_requires(*kernel, (s, p)),
            bdd_valuations(remaining_colors).subset_of(whole),
            covered(driver_sets@, driver_sets@.len() as int) == whole.difference(
                bdd_valuations(remaining_colors),
            ),
            forall|i: int|
                0 <= i < driver_sets@.len() ==> bdd_over((#[trigger] driver_sets@[i]).0, width)
                    && bdd_valuations(driver_sets@[i].0) != Set::<Seq<bool>>::empty(),
            forall|i: int, j: int|
                0 <= i < j < driver_sets@.len() ==> bdd_valuations(
                    (#[trigger] driver_sets@[i]).0,
                ).disjoint(bdd_valuations((#[trigger] driver_sets@[j]).0)),
            forall|i: int, j: int|
                0 <= i < j < driver_sets@.len() ==> (#[trigger] driver_sets@[i]).1@ != (
                #[trigger] driver_sets@[j]).1@,
            forall|i: int|
                0 <= i < driver_sets@.len() ==> is_bucket(
                    *kernel,
                    *sync_graph,
                    iterations,
                    reduced,
                    attr,
                    #[trigger] driver_sets@[i],
                ),
            is_color_closed(*sync_graph, bdd_valuations(remaining_colors), whole),
        decreases bdd_valuations(remaining_colors).len(),
    {
        let color = sync_graph.pick_color(&remaining_colors);
        let ghost before = bdd_valuations(remaining_colors);
        let ghost buckets = driver_sets@;
        let ghost picked = bdd_valuations(color);
        proof {
            let witness = choose|witness: Seq<bool>|
                #[trigger] before.contains(witness) && picked == sync_graph.color_of(
                    before,
                    witness,
                );
            assert(picked.contains(witness));
            assert(before.intersect(picked).contains(witness));
            lemma_difference_shrinks(before, picked, width);
            lemma_closed_without(*sync_graph, before, whole, witness);
            assert forall|v: Seq<bool>| picked.contains(v) implies picked == sync_graph.color_of(
                whole,
                v,
            ) by {
                lemma_color_class(*sync_graph, before, whole, witness, v);
            }
        }
        remaining_colors = bdd_and_not(&remaining_colors, &color);
        let (pbn_fix, last) = find_driver_set(
            sync_graph,
            iterations,
            reduced,
            Some((attr.0, &color)),
            true,
            kernel,
        );
        let driver_set = pbn_fix.get_driver_set();
        proof {
            assert(picked != Set::<Seq<bool>>::empty()) by {
                let witness = choose|witness: Seq<bool>| picked.contains(witness);
                assert(picked.contains(witness));
            }
        }
        let mut place: Option<usize> = None;
        let mut i: usize = 0;
        while i < driver_sets.len() && place.is_none()
            invariant
                i <= driver_sets@.len(),
                driver_sets@ == buckets,
                place matches Some(at) ==> at < buckets.len() && buckets[at as int].1@
                    == driver_set@,
                place is None ==> forall|j: int|
                    0 <= j < i ==> (#[trigger] buckets[j]).1@ != driver_set@,
            decreases driver_sets@.len() - i, if place is None { 1nat } else { 0nat },
        {
            if driver_sets[i].1.equals(driver_set) {
                place = Some(i);
            } else {
                i = i + 1;
            }
        }
        proof {
            assert forall|j: int| 0 <= j < buckets.len() implies bdd_valuations(
                (#[trigger] buckets[j]).0,
            ).disjoint(picked) by {
                assert forall|v: Seq<bool>|
                    bdd_valuations(buckets[j].0).contains(v) implies !picked.contains(v) by {
                    lemma_covered(buckets, buckets.len() as int, v);
                    assert(covered(buckets, buckets.len() as int).contains(v));
                }
            }
        }
        match place {
            Some(at) => {
                let merged = bdd_or(&driver_sets[at].0, &color);
                let kept = driver_sets[at].1.clone();
                driver_sets.set(at, (merged, kept));
                proof {
                    let now = driver_sets@;
                    assert forall|v: Seq<bool>|
                        covered(now, now.len() as int).contains(v) <==> whole.difference(
                            bdd_valuations(remaining_colors),
                        ).contains(v) by {
                        lemma_covered(now, now.len() as int, v);
                        lemma_covered(buckets, buckets.len() as int, v);
                        if covered(now, now.len() as int).contains(v) {
                            let k = choose|k: int|
                                0 <= k < now.len() && bdd_valuations((#[trigger] now[k]).0).contains(
                                    v,
                                );
                            if k != at {
                                assert(now[k] == buckets[k]);
                                assert(bdd_valuations(buckets[k].0).contains(v));
                            } else if !picked.contains(v) {
                                assert(bdd_valuations(buckets[at as int].0).contains(v));
                            }
                        }
                        if whole.difference(bdd_valuations(remaining_colors)).contains(v) {
                            if picked.contains(v) {
                                assert(bdd_valuations(now[at as int].0).contains(v));
                            } else {
                                assert(covered(buckets, buckets.len() as int).contains(v));
                                let k = choose|k: int|
                                    0 <= k < buckets.len() && bdd_valuations(
                                        (#[trigger] buckets[k]).0,
                                    ).contains(v);
                                if k != at {
                                    assert(now[k] == buckets[k]);
                                }
                                assert(bdd_valuations(now[k].0).contains(v));
                            }
                        }
                    }
                    assert(covered(now, now.len() as int) =~= whole.difference(
                        bdd_valuations(remaining_colors),
                    ));
                    assert forall|a: int| 0 <= a < now.len() implies bdd_over(
                        (#[trigger] now[a]).0,
                        width,
                    ) && bdd_valuations(now[a].0) != Set::<Seq<bool>>::empty() by {
                        if a != at {
                            assert(now[a] == buckets[a]);
                        } else {
                            let w = choose|w: Seq<bool>| picked.contains(w);
                            assert(bdd_valuations(now[a].0).contains(w));
                        }
                    }
                    assert forall|a: int, b: int| 0 <= a < b < now.len() implies bdd_valuations(
                        (#[trigger] now[a]).0,
                    ).disjoint(bdd_valuations((#[trigger] now[b]).0)) && now[a].1@ != now[b].1@ by {
                        assert(bdd_valuations(buckets[a].0).disjoint(bdd_valuations(buckets[b].0)));
                        assert(buckets[a].1@ != buckets[b].1@);
                        if a != at {
                            assert(now[a] == buckets[a]);
                        }
                        if b != at {
                            assert(now[b] == buckets[b]);
                        }
                    }
                    assert forall|a: int| 0 <= a < now.len() implies is_bucket(
                        *kernel,
                        *sync_graph,
                        iterations,
                        reduced,
                        attr,
                        #[trigger] now[a],
                    ) by {
                        if a != at {
                            assert(now[a] == buckets[a]);
                        } else {
                            assert(is_bucket(
                                *kernel,
                                *sync_graph,
                                iterations,
                                reduced,
                                attr,
                                buckets[a],
                            ));
                            assert forall|v: Seq<bool>| #[trigger]
                                bdd_valuations(now[a].0).contains(v) implies is_searched(
                                *kernel,
                                *sync_graph,
                                iterations,
                                reduced,
                                attr,
                                now[a],
                                v,
                            ) by {
                                if picked.contains(v) {
                                    assert(is_driver_set(
                                        *kernel,
                                        *sync_graph,
                                        iterations,
                                        reduced,
                                        Some((attr.0, &color)),
                                        true,
                                        pbn_fix,
                                        last,
                                    ));
                                } else {
                                    assert(bdd_valuations(buckets[a].0).contains(v));
                                    lemma_searched_in(
                                        *kernel,
                                        *sync_graph,
                                        iterations,
                                        reduced,
                                        attr,
                                        buckets[a],
                                        now[a],
                                        v,
                                    );
                                }
                            }
                        }
                    }
                }
            },
            None => {
                let own = driver_set.clone();
                driver_sets.push((color, own));
                proof {
                    let now = driver_sets@;
                    assert forall|v: Seq<bool>|
                        covered(now, now.len() as int).contains(v) <==> whole.difference(
                            bdd_valuations(remaining_colors),
                        ).contains(v) by {
                        assert(covered(now, now.len() as int) == covered(
                            now,
                            now.len() - 1,
                        ).union(picked));
                        lemma_covered(now, now.len() - 1, v);
                        lemma_covered(buckets, buckets.len() as int, v);
                        if covered(now, now.len() - 1).contains(v) {
                            let k = choose|k: int|
                                0 <= k < now.len() - 1 && bdd_valuations(
                                    (#[trigger] now[k]).0,
                                ).contains(v);
                            assert(now[k] == buckets[k]);
                        }
                        if covered(buckets, buckets.len() as int).contains(v) {
                            let k = choose|k: int|
                                0 <= k < buckets.len() && bdd_valuations(
                                    (#[trigger] buckets[k]).0,
                                ).contains(v);
                            assert(now[k] == buckets[k]);
                        }
                    }
                    assert(covered(now, now.len() as int) =~= whole.difference(
                        bdd_valuations(remaining_colors),
                    ));
                    assert forall|a: int| 0 <= a < now.len() implies bdd_over(
                        (#[trigger] now[a]).0,
                        width,
                    ) && bdd_valuations(now[a].0) != Set::<Seq<bool>>::empty() by {
                        if a < buckets.len() {
                            assert(now[a] == buckets[a]);
                        } else {
                            let w = choose|w: Seq<bool>| picked.contains(w);
                            assert(bdd_valuations(now[a].0).contains(w));
                        }
                    }
                    assert forall|a: int, b: int| 0 <= a < b < now.len() implies bdd_valuations(
                        (#[trigger] now[a]).0,
                    ).disjoint(bdd_valuations((#[trigger] now[b]).0)) && now[a].1@ != now[b].1@ by {
                        assert(now[a] == buckets[a]);
                        if b < buckets.len() {
                            assert(now[b] == buckets[b]);
                        }
                    }
                    assert forall|a: int| 0 <= a < now.len() implies is_bucket(
                        *kernel,
                        *sync_graph,
                        iterations,
                        reduced,
                        attr,
                        #[trigger] now[a],
                    ) by {
                        if a < buckets.len() {
                            assert(now[a] == buckets[a]);
                        } else {
                            assert forall|v: Seq<bool>| #[trigger]
                                bdd_valuations(now[a].0).contains(v) implies is_searched(
                                *kernel,
                                *sync_graph,
                                iterations,
                                reduced,
                                attr,
                                now[a],
                                v,
                            ) by {
                                assert(is_driver_set(
                                    *kernel,
                                    *sync_graph,
                                    iterations,
                                    reduced,
                                    Some((attr.0, &color)),
                                    true,
                                    pbn_fix,
                                    last,
                                ));
                            }
                        }
                    }
                }
            },
        }
    }
    proof {
        let buckets = driver_sets@;
        assert(whole.difference(bdd_valuations(remaining_colors)) =~= whole);
        assert forall|v: Seq<bool>|
            whole.contains(v) <==> exists|i: int|
                0 <= i < buckets.len() && bdd_valuations((#[trigger] buckets[i]).0).contains(v) by {
            lemma_covered(buckets, buckets.len() as int, v);
        }
        lemma_buckets_told_apart(*kernel, *sync_graph, iterations, reduced, attr, buckets);
    }
    driver_sets
}

/// The buckets of a partition cover the colors exactly and without overlap:
/// every color is in one bucket and in one only.
pub proof fn lemma_partition_exact(buckets: Seq<(Bdd, DriverSet)>, whole: Set<Seq<bool>>)
    requires
        is_partition(buckets, whole),
    ensures
        covered(buckets, buckets.len() as int) == whole,
        forall|v: Seq<bool>, i: int, j: int|
            0 <= i < buckets.len() && 0 <= j < buckets.len() && #[trigger] bdd_valuations(
                buckets[i].0,
            ).contains(v) && #[trigger] bdd_valuations(buckets[j].0).contains(v) ==> i == j,
{
    assert forall|v: Seq<bool>| covered(buckets, buckets.len() as int).contains(v)
        <==> whole.contains(v) by {
        lemma_covered(buckets, buckets.len() as int, v);
    }
    assert(covered(buckets, buckets.len() as int) =~= whole);
    assert forall|v: Seq<bool>, i: int, j: int|
        0 <= i < buckets.len() && 0 <= j < buckets.len() && #[trigger] bdd_valuations(
            buckets[i].0,
        ).contains(v) && #[trigger] bdd_valuations(buckets[j].0).contains(v) implies i == j by {
        if i < j {
            assert(bdd_valuations(buckets[i].0).disjoint(bdd_valuations(buckets[j].0)));
        } else if j < i {
            assert(bdd_valuations(buckets[j].0).disjoint(bdd_valuations(buckets[i].0)));
        }
    }
}

/// Every vertex candidate fixes one of the first `upto` variables, to a
/// value that the variable has in some target state if there is a target.
pub proof fn lemma_vertex_candidates(
    state_vars: Seq<usize>,
    attr: Option<Set<Seq<bool>>>,
    upto: int,
    fix: UnitFix,
)
    requires
        0 <= upto <= usize::MAX,
        vertex_candidates(state_vars, attr, upto).contains(fix),
    ensures
        fix matches UnitFix::Vertex(f) && f.var_id < upto && (attr matches Some(states) ==> select(
            states,
            state_vars[f.var_id as int] as int,
            f.value,
        ) != Set::<Seq<bool>>::empty()),
    decreases upto,
{
    let all = vertex_candidates(state_vars, attr, upto);
    let k = choose|k: int| 0 <= k < all.len() && all[k] == fix;
    if upto > 0 {
        let before = vertex_candidates(state_vars, attr, upto - 1);
        let low = vertex_candidate(state_vars, attr, upto - 1, false);
        let high = vertex_candidate(state_vars, attr, upto - 1, true);
        if k < before.len() {
            assert(before[k] == fix);
            lemma_vertex_candidates(state_vars, attr, upto - 1, fix);
        } else if k < before.len() + low.len() {
            assert(low[k - before.len()] == fix);
        } else {
            assert(high[k - before.len() - low.len()] == fix);
        }
    }
}

/// Every parameter candidate is a parameter fix.
pub proof fn lemma_parameter_candidates(parameter_vars: Seq<usize>, upto: int, fix: UnitFix)
    requires
        0 <= upto,
        parameter_candidates(parameter_vars, upto).contains(fix),
    ensures
        fix is Parameter,
    decreases upto,
{
    let all = parameter_candidates(parameter_vars, upto);
    let k = choose|k: int| 0 <= k < all.len() && all[k] == fix;
    if upto > 0 {
        let before = parameter_candidates(parameter_vars, upto - 1);
        if k < before.len() {
            assert(before[k] == fix);
            lemma_parameter_candidates(parameter_vars, upto - 1, fix);
        }
    }
}

/// A driver set for a target pins each of its variables to a value that the
/// variable has in some state of the target: the state that the fixes force
/// is not foreign to the target in any single variable.
pub proof fn lemma_driver_set_meets_target<K: Fn(&MeanField, &Vec<u32>) -> (Vec<u32>, u32)>(
    kernel: K,
    sync_graph: SymbSyncGraph,
    iterations: usize,
    reduced: bool,
    states: &Bdd,
    colors: &Bdd,
    fix_only_vertices: bool,
    found: PBNFix,
    probabilities: Vec<u32>,
)
    requires
        sync_graph.wf(),
        is_driver_set(
            kernel,
            sync_graph,
            iterations,
            reduced,
            Some((states, colors)),
            fix_only_vertices,
            found,
            probabilities,
        ),
    ensures
        forall|var: usize| #[trigger]
            found.driver().contains_key(var) ==> var < sync_graph.state_vars().len() && select(
                bdd_valuations(*states),
                sync_graph.state_vars()[var as int] as int,
                found.driver()[var],
            ) != Set::<Seq<bool>>::empty(),
{
    let state_vars = sync_graph.state_vars();
    let attr = Some(bdd_valuations(*states));
    let offered = candidates(state_vars, attr, sync_graph.parameter_vars(), fix_only_vertices);
    sync_graph.lemma_wf();
    sync_graph.lemma_positions();
    assert(state_vars.len() <= usize::MAX) by {
        if state_vars.len() > 0 {
            let all = state_vars + sync_graph.extra_vars() + sync_graph.parameter_vars();
            assert(all.len() == sync_graph.width());
        }
    }
    let vertices = vertex_candidates(state_vars, attr, state_vars.len() as int);
    assert forall|var: usize| #[trigger] found.driver().contains_key(var) implies var
        < state_vars.len() && select(
        bdd_valuations(*states),
        state_vars[var as int] as int,
        found.driver()[var],
    ) != Set::<Seq<bool>>::empty() by {
        let fix = UnitFix::Vertex(UnitVertexFix { var_id: var, value: found.driver()[var] });
        assert(offered.contains(fix));
        let k = choose|k: int| 0 <= k < offered.len() && offered[k] == fix;
        if k < vertices.len() {
            assert(vertices[k] == fix);
        } else {
            let parameters = parameter_candidates(
                sync_graph.parameter_vars(),
                sync_graph.parameter_vars().len() as int,
            );
            assert(parameters[k - vertices.len()] == fix);
            lemma_parameter_candidates(
                sync_graph.parameter_vars(),
                sync_graph.parameter_vars().len() as int,
                fix,
            );
        }
        lemma_vertex_candidates(state_vars, attr, state_vars.len() as int, fix);
    }
}

} // verus!
