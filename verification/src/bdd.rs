//! Symbolic sets of valuations.
//!
//! A binary decision diagram over `n` variables stands for a set of valuations,
//! each a sequence of `n` booleans. This module states, without proof, what the
//! diagram operations of `biodivine_lib_bdd` do to that set; everything else in
//! the crate is proved from these statements.
//!
//! The statements are about diagrams as the operations of that crate build
//! them: ordered and reduced, with the constant `false` for the empty set.
//! `bdd_reduced` names that premise; every operation asks it of its arguments
//! and promises it of its result.
use vstd::prelude::*;
use vstd::set_lib::lemma_len_subset;
use biodivine_lib_bdd::Bdd;
use biodivine_lib_bdd::BddVariable;

verus! {

#[verifier::external_type_specification]
#[verifier::external_body]
pub struct ExBdd(Bdd);

/// The valuations that satisfy a diagram.
pub uninterp spec fn bdd_valuations(b: Bdd) -> Set<Seq<bool>>;

/// The number of variables that a diagram ranges over.
pub uninterp spec fn bdd_width(b: Bdd) -> nat;

/// The variables on which some node of a diagram decides.
pub uninterp spec fn bdd_support(b: Bdd) -> Set<int>;

/// The satisfying valuations of a diagram in the order in which it lists them.
pub uninterp spec fn bdd_valuation_list(b: Bdd) -> Seq<Seq<bool>>;

/// The paths of a diagram that lead to `true`, each as the literals along it,
/// in the order in which the diagram lists them.
pub uninterp spec fn bdd_clause_list(b: Bdd) -> Seq<Seq<(usize, bool)>>;

/// The bit pattern of the double-precision approximation of a diagram's
/// number of satisfying valuations.
pub uninterp spec fn bdd_cardinality_bits(b: Bdd) -> u64;

/// The diagram is ordered and reduced: it holds a terminal node, each inner
/// node decides on a variable below those of its children, no node has two
/// equal children, and no two nodes are alike, so that a diagram without a
/// valuation is the constant `false`. The operations of the outside crate
/// build such diagrams from such diagrams; one read from text need not be
/// one.
pub uninterp spec fn bdd_reduced(b: Bdd) -> bool;

/// All valuations of `width` variables.
pub open spec fn valuation_space(width: nat) -> Set<Seq<bool>> {
    Set::new(|v: Seq<bool>| v.len() == width)
}

/// A diagram is ordered and reduced, and holds only valuations of its own
/// width.
pub open spec fn bdd_wf(b: Bdd) -> bool {
    bdd_reduced(b) && bdd_valuations(b).subset_of(valuation_space(bdd_width(b)))
}

/// A well-formed diagram over exactly `width` variables.
pub open spec fn bdd_over(b: Bdd, width: nat) -> bool {
    bdd_wf(b) && bdd_width(b) == width
}

/// The positions named by a list of variables.
pub open spec fn index_set(vars: Seq<usize>) -> Set<int> {
    Set::new(|i: int| exists|k: int| 0 <= k < vars.len() && #[trigger] vars[k] == i)
}

/// Two valuations of equal length differ at most at the positions in `vars`.
pub open spec fn agree_outside(u: Seq<bool>, v: Seq<bool>, vars: Set<int>) -> bool {
    u.len() == v.len() && forall|i: int|
        0 <= i < u.len() && !vars.contains(i) ==> #[trigger] u[i] == v[i]
}

/// Existential projection: every valuation that some member of `s` agrees with
/// outside `vars`.
pub open spec fn project(s: Set<Seq<bool>>, vars: Set<int>) -> Set<Seq<bool>> {
    Set::new(|v: Seq<bool>| exists|u: Seq<bool>| s.contains(u) && agree_outside(u, v, vars))
}

/// The members of `s` that give `var` the value `value`.
pub open spec fn select(s: Set<Seq<bool>>, var: int, value: bool) -> Set<Seq<bool>> {
    Set::new(|v: Seq<bool>| s.contains(v) && v[var] == value)
}

/// The valuations of `width` variables that are in `s` once `var` is set to `value`.
pub open spec fn restrict(s: Set<Seq<bool>>, var: int, value: bool, width: nat) -> Set<
    Seq<bool>,
> {
    Set::new(|v: Seq<bool>| v.len() == width && s.contains(v.update(var, value)))
}

/// The valuations of `width` variables that are not in `s`.
pub open spec fn complement(s: Set<Seq<bool>>, width: nat) -> Set<Seq<bool>> {
    Set::new(|v: Seq<bool>| v.len() == width && !s.contains(v))
}

/// The valuations of `width` variables that are in both of `a` and `b` or in neither.
pub open spec fn agreement(a: Set<Seq<bool>>, b: Set<Seq<bool>>, width: nat) -> Set<Seq<bool>> {
    Set::new(|v: Seq<bool>| v.len() == width && (a.contains(v) == b.contains(v)))
}

/// The valuations of `width` variables that give `var` the value `value`.
pub open spec fn literal(var: int, value: bool, width: nat) -> Set<Seq<bool>> {
    Set::new(|v: Seq<bool>| v.len() == width && v[var] == value)
}

/// Membership in `s` does not depend on the values at the positions in `vars`.
pub open spec fn ignores(s: Set<Seq<bool>>, vars: Set<int>) -> bool {
    forall|u: Seq<bool>, v: Seq<bool>|
        s.contains(u) && #[trigger] agree_outside(u, v, vars) ==> s.contains(v)
}

/// The members of `s` that give `var` the value `false`, and those that give
/// it `true` and are not in `s` with `false` in its place.
pub open spec fn var_picked(s: Set<Seq<bool>>, var: int) -> Set<Seq<bool>> {
    Set::new(|v: Seq<bool>| s.contains(v) && !(v[var] && s.contains(v.update(var, false))))
}

/// One witness for each member of `s` regardless of the variables `vars`:
/// the last variable is picked in `s`, the others in what is left of `s` when
/// the last is forgotten.
pub open spec fn picked(s: Set<Seq<bool>>, vars: Seq<usize>) -> Set<Seq<bool>>
    decreases vars.len(),
{
    if vars.len() == 0 {
        s
    } else {
        picked(project(s, set![vars.last() as int]), vars.drop_last()).intersect(
            var_picked(s, vars.last() as int),
        )
    }
}

/// The variables of the list ascend.
pub open spec fn ascending(vars: Seq<usize>) -> bool {
    forall|j: int, k: int| 0 <= j < k < vars.len() ==> vars[j] < vars[k]
}

/// What is left of a set when some variables are forgotten ignores those variables.
pub proof fn lemma_project_forgets(s: Set<Seq<bool>>, vars: Set<int>)
    ensures
        ignores(project(s, vars), vars),
{
    assert forall|v: Seq<bool>, w: Seq<bool>|
        project(s, vars).contains(v) && #[trigger] agree_outside(v, w, vars) implies project(
        s,
        vars,
    ).contains(w) by {
        let u = choose|u: Seq<bool>| s.contains(u) && agree_outside(u, v, vars);
        assert(agree_outside(u, w, vars));
    }
}

/// Forgetting variables in a set that ignores some positions leaves a set
/// that ignores them too.
pub proof fn lemma_project_ignores(s: Set<Seq<bool>>, vars: Set<int>, ign: Set<int>)
    requires
        ignores(s, ign),
    ensures
        ignores(project(s, vars), ign),
{
    assert forall|v: Seq<bool>, w: Seq<bool>|
        project(s, vars).contains(v) && #[trigger] agree_outside(v, w, ign) implies project(
        s,
        vars,
    ).contains(w) by {
        let u = choose|u: Seq<bool>| s.contains(u) && agree_outside(u, v, vars);
        let moved = Seq::new(
            u.len(),
            |j: int|
                if ign.contains(j) && !vars.contains(j) {
                    w[j]
                } else {
                    u[j]
                },
        );
        assert(agree_outside(u, moved, ign));
        assert(s.contains(moved));
        assert(agree_outside(moved, w, vars));
    }
}

/// Picking one variable in a set that ignores other positions leaves a set
/// that ignores them too.
pub proof fn lemma_var_picked_ignores(s: Set<Seq<bool>>, var: int, ign: Set<int>, width: nat)
    requires
        s.subset_of(valuation_space(width)),
        0 <= var < width,
        !ign.contains(var),
        ignores(s, ign),
    ensures
        ignores(var_picked(s, var), ign),
{
    assert forall|v: Seq<bool>, w: Seq<bool>|
        var_picked(s, var).contains(v) && #[trigger] agree_outside(v, w, ign) implies var_picked(
        s,
        var,
    ).contains(w) by {
        assert(valuation_space(width).contains(v));
        assert(s.contains(w));
        if s.contains(w.update(var, false)) {
            assert(agree_outside(w.update(var, false), v.update(var, false), ign));
        }
    }
}

/// Picking witnesses in a set that ignores other positions leaves a set that
/// ignores them too.
pub proof fn lemma_picked_ignores(s: Set<Seq<bool>>, vars: Seq<usize>, ign: Set<int>, width: nat)
    requires
        s.subset_of(valuation_space(width)),
        forall|k: int| 0 <= k < vars.len() ==> #[trigger] vars[k] < width && !ign.contains(
            vars[k] as int,
        ),
        ignores(s, ign),
    ensures
        ignores(picked(s, vars), ign),
        picked(s, vars).subset_of(s),
    decreases vars.len(),
{
    if vars.len() > 0 {
        let last = vars.last() as int;
        let rest = vars.drop_last();
        let forgot = project(s, set![last]);
        lemma_project_ignores(s, set![last], ign);
        assert forall|k: int| 0 <= k < rest.len() implies #[trigger] rest[k] < width
            && !ign.contains(rest[k] as int) by {
            assert(rest[k] == vars[k]);
        }
        assert(forgot.subset_of(valuation_space(width))) by {
            assert forall|v: Seq<bool>| forgot.contains(v) implies valuation_space(width).contains(
                v,
            ) by {
                let u = choose|u: Seq<bool>| s.contains(u) && agree_outside(u, v, set![last]);
                assert(valuation_space(width).contains(u));
            }
        }
        lemma_picked_ignores(forgot, rest, ign, width);
        lemma_var_picked_ignores(s, last, ign, width);
        assert forall|v: Seq<bool>, w: Seq<bool>|
            picked(s, vars).contains(v) && #[trigger] agree_outside(v, w, ign) implies picked(
            s,
            vars,
        ).contains(w) by {
            assert(picked(forgot, rest).contains(v));
            assert(var_picked(s, last).contains(v));
        }
    }
}

/// No two of the picked witnesses differ at the picked variables only.
pub proof fn lemma_picked_unique(
    s: Set<Seq<bool>>,
    vars: Seq<usize>,
    width: nat,
    u: Seq<bool>,
    w: Seq<bool>,
)
    requires
        s.subset_of(valuation_space(width)),
        ascending(vars),
        forall|k: int| 0 <= k < vars.len() ==> #[trigger] vars[k] < width,
        picked(s, vars).contains(u),
        picked(s, vars).contains(w),
        agree_outside(u, w, index_set(vars)),
    ensures
        u == w,
    decreases vars.len(),
{
    if vars.len() == 0 {
        assert(u =~= w);
    } else {
        let last = vars.last() as int;
        let rest = vars.drop_last();
        let forgot = project(s, set![last]);
        assert forall|k: int| 0 <= k < rest.len() implies #[trigger] rest[k] < width
            && !set![last].contains(rest[k] as int) by {
            assert(rest[k] == vars[k]);
            assert(vars[k] < vars[vars.len() - 1]);
        }
        assert(ascending(rest)) by {
            assert forall|j: int, k: int| 0 <= j < k < rest.len() implies rest[j] < rest[k] by {
                assert(rest[j] == vars[j] && rest[k] == vars[k]);
            }
        }
        assert(forgot.subset_of(valuation_space(width))) by {
            assert forall|x: Seq<bool>| forgot.contains(x) implies valuation_space(width).contains(
                x,
            ) by {
                let y = choose|y: Seq<bool>| s.contains(y) && agree_outside(y, x, set![last]);
                assert(valuation_space(width).contains(y));
            }
        }
        lemma_project_forgets(s, set![last]);
        lemma_picked_ignores(forgot, rest, set![last], width);
        assert(valuation_space(width).contains(u));
        assert(valuation_space(width).contains(w));
        let moved = w.update(last, u[last]);
        assert(agree_outside(w, moved, set![last]));
        assert(picked(forgot, rest).contains(moved));
        assert(agree_outside(u, moved, index_set(rest))) by {
            assert forall|i: int| 0 <= i < u.len() && !index_set(rest).contains(i) implies
                #[trigger] u[i] == moved[i] by {
                if i != last {
                    if index_set(vars).contains(i) {
                        let k = choose|k: int| 0 <= k < vars.len() && vars[k] == i;
                        assert(rest[k] == vars[k]);
                    }
                }
            }
        }
        lemma_picked_unique(forgot, rest, width, u, moved);
        if u[last] != w[last] {
            if w[last] {
                assert(w.update(last, false) =~= u);
            } else {
                assert(u.update(last, false) =~= w);
            }
        }
        assert(u =~= w);
    }
}

/// Picking witnesses in a set that is not empty leaves a set that is not empty.
pub proof fn lemma_picked_nonempty(s: Set<Seq<bool>>, vars: Seq<usize>, width: nat)
    requires
        s.subset_of(valuation_space(width)),
        ascending(vars),
        forall|k: int| 0 <= k < vars.len() ==> #[trigger] vars[k] < width,
        !(s =~= Set::<Seq<bool>>::empty()),
    ensures
        !(picked(s, vars) =~= Set::<Seq<bool>>::empty()),
    decreases vars.len(),
{
    let v = choose|v: Seq<bool>| s.contains(v);
    assert(s.contains(v));
    if vars.len() == 0 {
        assert(picked(s, vars).contains(v));
    } else {
        let last = vars.last() as int;
        let rest = vars.drop_last();
        let forgot = project(s, set![last]);
        assert(agree_outside(v, v, set![last]));
        assert(forgot.contains(v));
        assert forall|k: int| 0 <= k < rest.len() implies #[trigger] rest[k] < width
            && !set![last].contains(rest[k] as int) by {
            assert(rest[k] == vars[k]);
            assert(vars[k] < vars[vars.len() - 1]);
        }
        assert(ascending(rest)) by {
            assert forall|j: int, k: int| 0 <= j < k < rest.len() implies rest[j] < rest[k] by {
                assert(rest[j] == vars[j] && rest[k] == vars[k]);
            }
        }
        assert(forgot.subset_of(valuation_space(width))) by {
            assert forall|x: Seq<bool>| forgot.contains(x) implies valuation_space(width).contains(
                x,
            ) by {
                let u = choose|u: Seq<bool>| s.contains(u) && agree_outside(u, x, set![last]);
                assert(valuation_space(width).contains(u));
            }
        }
        lemma_picked_nonempty(forgot, rest, width);
        lemma_project_forgets(s, set![last]);
        lemma_picked_ignores(forgot, rest, set![last], width);
        let inner = choose|w: Seq<bool>| picked(forgot, rest).contains(w);
        assert(picked(forgot, rest).contains(inner));
        assert(forgot.contains(inner));
        let u = choose|u: Seq<bool>| s.contains(u) && agree_outside(u, inner, set![last]);
        assert(valuation_space(width).contains(u));
        let low = inner.update(last, false);
        let high = inner.update(last, true);
        assert(u =~= low || u =~= high) by {
            if u[last] {
                assert(u =~= high);
            } else {
                assert(u =~= low);
            }
        }
        let w = if s.contains(low) {
            low
        } else {
            high
        };
        assert(s.contains(w));
        assert(agree_outside(inner, w, set![last]));
        assert(picked(forgot, rest).contains(w));
        assert(w.update(last, false) =~= low);
        assert(var_picked(s, last).contains(w));
        assert(picked(s, vars).contains(w));
    }
}

/// The common part of two sets that ignore some positions ignores them too,
/// and so does what the second leaves of the first, and their union.
pub proof fn lemma_ignores_combined(a: Set<Seq<bool>>, b: Set<Seq<bool>>, vars: Set<int>)
    requires
        ignores(a, vars),
        ignores(b, vars),
    ensures
        ignores(a.intersect(b), vars),
        ignores(a.difference(b), vars),
        ignores(a.union(b), vars),
{
    assert forall|u: Seq<bool>, v: Seq<bool>|
        a.difference(b).contains(u) && #[trigger] agree_outside(u, v, vars) implies a.difference(
        b,
    ).contains(v) by {
        if b.contains(v) {
            assert(agree_outside(v, u, vars));
        }
    }
}

/// A set that ignores some positions and some others ignores all of them.
pub proof fn lemma_ignores_both(s: Set<Seq<bool>>, first: Set<int>, second: Set<int>)
    requires
        ignores(s, first),
        ignores(s, second),
    ensures
        ignores(s, first.union(second)),
{
    assert forall|u: Seq<bool>, v: Seq<bool>|
        s.contains(u) && #[trigger] agree_outside(u, v, first.union(second)) implies s.contains(
        v,
    ) by {
        let mid = Seq::new(
            u.len(),
            |j: int|
                if first.contains(j) {
                    v[j]
                } else {
                    u[j]
                },
        );
        assert(agree_outside(u, mid, first));
        assert(s.contains(mid));
        assert(agree_outside(mid, v, second));
    }
}

/// A member of a set is left when variables are forgotten.
pub proof fn lemma_in_project(s: Set<Seq<bool>>, vars: Set<int>, v: Seq<bool>)
    requires
        s.contains(v),
    ensures
        project(s, vars).contains(v),
{
    assert(agree_outside(v, v, vars));
}

/// Every member of a set is left when variables are forgotten.
pub proof fn lemma_project_holds(s: Set<Seq<bool>>, vars: Set<int>)
    ensures
        s.subset_of(project(s, vars)),
{
    assert forall|v: Seq<bool>| s.contains(v) implies project(s, vars).contains(v) by {
        assert(agree_outside(v, v, vars));
    }
}

/// There are finitely many valuations of `width` variables.
pub proof fn lemma_space_finite(width: nat)
    ensures
        valuation_space(width).finite(),
    decreases width,
{
    if width == 0 {
        assert(valuation_space(0) =~= set![Seq::<bool>::empty()]) by {
            assert forall|v: Seq<bool>| valuation_space(0).contains(v) implies v
                == Seq::<bool>::empty() by {
                assert(v =~= Seq::<bool>::empty());
            }
        }
    } else {
        let shorter = valuation_space((width - 1) as nat);
        lemma_space_finite((width - 1) as nat);
        let with_true = shorter.map(|v: Seq<bool>| v.push(true));
        let with_false = shorter.map(|v: Seq<bool>| v.push(false));
        shorter.lemma_map_finite(|v: Seq<bool>| v.push(true));
        shorter.lemma_map_finite(|v: Seq<bool>| v.push(false));
        assert forall|v: Seq<bool>| valuation_space(width).contains(v) implies with_true.union(
            with_false,
        ).contains(v) by {
            let head = v.drop_last();
            assert(shorter.contains(head));
            assert(v =~= head.push(v.last()));
            if v.last() {
                assert(with_true.contains(v));
            } else {
                assert(with_false.contains(v));
            }
        }
        assert(valuation_space(width).subset_of(with_true.union(with_false)));
        lemma_len_subset(valuation_space(width), with_true.union(with_false));
    }
}

/// How many valuations of `width` variables are outside `s`.
pub open spec fn room(s: Set<Seq<bool>>, width: nat) -> nat {
    (valuation_space(width).len() - s.len()) as nat
}

/// Adding valuations that a set does not hold leaves less room.
pub proof fn lemma_room_shrinks(s: Set<Seq<bool>>, more: Set<Seq<bool>>, width: nat)
    requires
        s.subset_of(valuation_space(width)),
        more.subset_of(valuation_space(width)),
        !(more =~= Set::<Seq<bool>>::empty()),
        s.disjoint(more),
    ensures
        room(s.union(more), width) < room(s, width),
{
    lemma_space_finite(width);
    let x = choose|x: Seq<bool>| more.contains(x);
    assert(more.contains(x));
    lemma_len_subset(s.union(more), valuation_space(width));
    s.lemma_subset_not_in_lt(s.union(more), x);
}

/// Taking away valuations that a set holds leaves a smaller set.
pub proof fn lemma_difference_shrinks(s: Set<Seq<bool>>, less: Set<Seq<bool>>, width: nat)
    requires
        s.subset_of(valuation_space(width)),
        !(s.intersect(less) =~= Set::<Seq<bool>>::empty()),
    ensures
        s.difference(less).len() < s.len(),
        s.finite(),
{
    lemma_space_finite(width);
    lemma_len_subset(s, valuation_space(width));
    let x = choose|x: Seq<bool>| s.intersect(less).contains(x);
    assert(s.intersect(less).contains(x));
    s.difference(less).lemma_subset_not_in_lt(s, x);
}

/// `Clone::clone` on a diagram: the copy is the same diagram.
#[verifier::external_body]
pub(crate) fn bdd_clone(a: &Bdd) -> (r: Bdd)
    ensures
        r == *a,
{
    a.clone()
}

/// `Bdd::and`: the intersection of the two sets. The outside function panics
/// on diagrams of different widths.
#[verifier::external_body]
pub(crate) fn bdd_and(a: &Bdd, b: &Bdd) -> (r: Bdd)
    requires
        bdd_wf(*a),
        bdd_wf(*b),
        bdd_width(*a) == bdd_width(*b),
    ensures
        bdd_reduced(r),
        bdd_wf(r),
        bdd_width(r) == bdd_width(*a),
        bdd_valuations(r) == bdd_valuations(*a).intersect(bdd_valuations(*b)),
{
    a.and(b)
}

/// `Bdd::or`: the union of the two sets.
#[verifier::external_body]
pub(crate) fn bdd_or(a: &Bdd, b: &Bdd) -> (r: Bdd)
    requires
        bdd_wf(*a),
        bdd_wf(*b),
        bdd_width(*a) == bdd_width(*b),
    ensures
        bdd_reduced(r),
        bdd_wf(r),
        bdd_width(r) == bdd_width(*a),
        bdd_valuations(r) == bdd_valuations(*a).union(bdd_valuations(*b)),
{
    a.or(b)
}

/// `Bdd::and_not`: the members of the first set that are not in the second.
#[verifier::external_body]
pub(crate) fn bdd_and_not(a: &Bdd, b: &Bdd) -> (r: Bdd)
    requires
        bdd_wf(*a),
        bdd_wf(*b),
        bdd_width(*a) == bdd_width(*b),
    ensures
        bdd_reduced(r),
        bdd_wf(r),
        bdd_width(r) == bdd_width(*a),
        bdd_valuations(r) == bdd_valuations(*a).difference(bdd_valuations(*b)),
{
    a.and_not(b)
}

/// `Bdd::iff`: the valuations on which the two diagrams agree.
#[verifier::external_body]
pub(crate) fn bdd_iff(a: &Bdd, b: &Bdd) -> (r: Bdd)
    requires
        bdd_wf(*a),
        bdd_wf(*b),
        bdd_width(*a) == bdd_width(*b),
    ensures
        bdd_reduced(r),
        bdd_wf(r),
        bdd_width(r) == bdd_width(*a),
        bdd_valuations(r) == agreement(bdd_valuations(*a), bdd_valuations(*b), bdd_width(*a)),
{
    a.iff(b)
}

/// `Bdd::xor`: the valuations on which the two diagrams differ.
#[verifier::external_body]
pub(crate) fn bdd_xor(a: &Bdd, b: &Bdd) -> (r: Bdd)
    requires
        bdd_wf(*a),
        bdd_wf(*b),
        bdd_width(*a) == bdd_width(*b),
    ensures
        bdd_reduced(r),
        bdd_wf(r),
        bdd_width(r) == bdd_width(*a),
        bdd_valuations(r) == complement(
            agreement(bdd_valuations(*a), bdd_valuations(*b), bdd_width(*a)),
            bdd_width(*a),
        ),
{
    a.xor(b)
}

/// `Bdd::not`: the valuations of the diagram's width that it does not hold.
#[verifier::external_body]
pub(crate) fn bdd_not(a: &Bdd) -> (r: Bdd)
    requires
        bdd_wf(*a),
    ensures
        bdd_reduced(r),
        bdd_wf(r),
        bdd_width(r) == bdd_width(*a),
        bdd_valuations(r) == complement(bdd_valuations(*a), bdd_width(*a)),
{
    a.not()
}

/// `Bdd::is_false`: whether the diagram is the constant `false`, which a
/// reduced diagram is exactly if it holds no valuation.
#[verifier::external_body]
pub(crate) fn bdd_is_false(a: &Bdd) -> (r: bool)
    requires
        bdd_wf(*a),
    ensures
        r == (bdd_valuations(*a) =~= Set::<Seq<bool>>::empty()),
{
    a.is_false()
}

/// `Bdd::var_select`: conjunction with the literal `var = value`.
#[verifier::external_body]
pub(crate) fn bdd_var_select(a: &Bdd, var: usize, value: bool) -> (r: Bdd)
    requires
        bdd_wf(*a),
        var < bdd_width(*a),
    ensures
        bdd_reduced(r),
        bdd_wf(r),
        bdd_width(r) == bdd_width(*a),
        bdd_valuations(r) == select(bdd_valuations(*a), var as int, value),
{
    a.var_select(BddVariable::from_index(var), value)
}

/// `Bdd::var_restrict`: fixes `var` to `value` and then forgets the variable.
#[verifier::external_body]
pub(crate) fn bdd_var_restrict(a: &Bdd, var: usize, value: bool) -> (r: Bdd)
    requires
        bdd_wf(*a),
        var < bdd_width(*a),
    ensures
        bdd_reduced(r),
        bdd_wf(r),
        bdd_width(r) == bdd_width(*a),
        bdd_valuations(r) == restrict(bdd_valuations(*a), var as int, value, bdd_width(*a)),
{
    a.var_restrict(BddVariable::from_index(var), value)
}

/// `Bdd::var_exists`: existential projection of one variable. The outside
/// function panics on a variable beyond the diagram's width.
#[verifier::external_body]
pub(crate) fn bdd_var_exists(a: &Bdd, var: usize) -> (r: Bdd)
    requires
        bdd_wf(*a),
        var < bdd_width(*a),
    ensures
        bdd_reduced(r),
        bdd_wf(r),
        bdd_width(r) == bdd_width(*a),
        bdd_valuations(r) == project(bdd_valuations(*a), set![var as int]),
{
    a.var_exists(BddVariable::from_index(var))
}

/// `Bdd::exists`: existential projection of all the listed variables.
#[verifier::external_body]
pub(crate) fn bdd_exists(a: &Bdd, vars: &Vec<usize>) -> (r: Bdd)
    requires
        bdd_wf(*a),
        forall|k: int| 0 <= k < vars@.len() ==> vars@[k] < bdd_width(*a),
    ensures
        bdd_reduced(r),
        bdd_wf(r),
        bdd_width(r) == bdd_width(*a),
        bdd_valuations(r) == project(bdd_valuations(*a), index_set(vars@)),
{
    let list: Vec<BddVariable> = vars.iter().map(|v| BddVariable::from_index(*v)).collect();
    a.exists(&list)
}

/// `Bdd::pick`: one witness for each member regardless of the listed
/// variables. The outside function takes the variables in ascending order,
/// picks the last of them in the diagram itself, preferring `false`, and the
/// others in the diagram with the last variable forgotten.
#[verifier::external_body]
pub(crate) fn bdd_pick(a: &Bdd, vars: &Vec<usize>) -> (r: Bdd)
    requires
        bdd_wf(*a),
        ascending(vars@),
        forall|k: int| 0 <= k < vars@.len() ==> vars@[k] < bdd_width(*a),
    ensures
        bdd_reduced(r),
        bdd_wf(r),
        bdd_width(r) == bdd_width(*a),
        bdd_valuations(r) == picked(bdd_valuations(*a), vars@),
{
    let list: Vec<BddVariable> = vars.iter().map(|v| BddVariable::from_index(*v)).collect();
    a.pick(&list)
}

/// `Bdd::sat_witness`: some member of the diagram, if it has one. The
/// outside function takes a diagram that is not the constant `false` to
/// have one.
#[verifier::external_body]
pub(crate) fn bdd_sat_witness(a: &Bdd) -> (r: Option<Vec<bool>>)
    requires
        bdd_wf(*a),
    ensures
        r is None <==> bdd_valuations(*a) =~= Set::<Seq<bool>>::empty(),
        r matches Some(v) ==> bdd_valuations(*a).contains(v@),
{
    a.sat_witness().map(|v| v.into_vector())
}

/// `Bdd::support_set_contains`: whether some node decides on `var`.
#[verifier::external_body]
pub(crate) fn bdd_support_contains(a: &Bdd, var: usize) -> (r: bool)
    requires
        bdd_wf(*a),
        var < bdd_width(*a),
    ensures
        r == bdd_support(*a).contains(var as int),
{
    a.support_set_contains(&BddVariable::from_index(var))
}

/// `Bdd::sat_valuations`: every member of the diagram, each once.
#[verifier::external_body]
pub(crate) fn bdd_sat_valuations(a: &Bdd) -> (r: Vec<Vec<bool>>)
    requires
        bdd_wf(*a),
    ensures
        r.deep_view() == bdd_valuation_list(*a),
        r.deep_view().no_duplicates(),
        r.deep_view().to_set() == bdd_valuations(*a),
{
    a.sat_valuations().map(|v| v.into_vector()).collect()
}

/// `Bdd::sat_clauses`: the paths of the diagram that lead to `true`.
#[verifier::external_body]
pub(crate) fn bdd_sat_clauses(a: &Bdd) -> (r: Vec<Vec<(usize, bool)>>)
    requires
        bdd_wf(*a),
    ensures
        r.deep_view() == bdd_clause_list(*a),
{
    a.sat_clauses().map(
        |c| c.to_values().into_iter().map(|(v, b)| (v.to_index(), b)).collect(),
    ).collect()
}

/// `Bdd::cardinality`, handed out as the bits of the number it returns.
#[verifier::external_body]
pub(crate) fn bdd_cardinality(a: &Bdd) -> (r: u64)
    requires
        bdd_wf(*a),
    ensures
        r == bdd_cardinality_bits(*a),
{
    a.cardinality().to_bits()
}

/// `Bdd::num_vars`: the width of the diagram, which it reads from the first
/// node.
#[verifier::external_body]
pub(crate) fn bdd_num_vars(a: &Bdd) -> (r: usize)
    requires
        bdd_reduced(*a),
    ensures
        r == bdd_width(*a),
{
    usize::from(a.num_vars())
}

} // verus!
