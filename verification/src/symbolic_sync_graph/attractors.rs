//! Attractors: the regions that the synchronous update cannot leave.
use vstd::prelude::*;
use biodivine_lib_bdd::Bdd;
use crate::bdd::{
    agree_outside, bdd_and, bdd_and_not, bdd_clone, bdd_exists, bdd_is_false, bdd_or, bdd_over,
    bdd_pick, bdd_sat_valuations, bdd_valuations, bdd_var_select, ignores, index_set,
    bdd_xor, lemma_difference_shrinks, lemma_ignores_both, lemma_ignores_combined, lemma_in_project,
    lemma_picked_unique, picked,
    lemma_picked_ignores, lemma_picked_nonempty, lemma_project_forgets, lemma_project_holds,
    lemma_room_shrinks, project, room, valuation_space,
};
use crate::symbolic_sync_graph::{
    false_outside, lemma_project_all_false, mirror_of, slot, transition_of, SymbSyncGraph,
};

verus! {

impl SymbSyncGraph {
    /// What `k` steps make of the members of `s`.
    pub open spec fn iterate(&self, s: Set<Seq<bool>>, k: nat) -> Set<Seq<bool>>
        decreases k,
    {
        if k == 0 {
            s
        } else {
            self.successors(self.iterate(s, (k - 1) as nat))
        }
    }

    /// Everything that some number of steps makes of a member of `s`.
    pub open spec fn reachable(&self, s: Set<Seq<bool>>) -> Set<Seq<bool>> {
        Set::new(|w: Seq<bool>| exists|k: nat| self.iterate(s, k).contains(w))
    }

    /// What `k` steps turn into a member of `s`.
    pub open spec fn iterate_back(&self, s: Set<Seq<bool>>, k: nat) -> Set<Seq<bool>>
        decreases k,
    {
        if k == 0 {
            s
        } else {
            self.predecessors(self.iterate_back(s, (k - 1) as nat))
        }
    }

    /// Everything that some number of steps turns into a member of `s`: the
    /// pairs whose fate lies in `s`.
    pub open spec fn basin(&self, s: Set<Seq<bool>>) -> Set<Seq<bool>> {
        Set::new(|u: Seq<bool>| exists|k: nat| self.iterate_back(s, k).contains(u))
    }

    /// The step leads out of no member of `s`.
    pub open spec fn forward_closed(&self, s: Set<Seq<bool>>) -> bool {
        self.successors(s).subset_of(s)
    }

    /// The members of `s` that the step leaves as they are.
    pub open spec fn fixed_points(&self, s: Set<Seq<bool>>) -> Set<Seq<bool>> {
        Set::new(|x: Seq<bool>| s.contains(x) && self.step(x, x))
    }

    /// The valuation that the step makes of `u`, with the extra variables of `u`.
    pub open spec fn next(&self, u: Seq<bool>) -> Seq<bool> {
        Seq::new(
            u.len(),
            |j: int|
                if index_set(self.state_vars()).contains(j) {
                    self.rule_sets()[slot(self.state_vars(), j)].contains(u)
                } else {
                    u[j]
                },
        )
    }

    /// Every valuation has a successor.
    pub proof fn lemma_step_total(&self, u: Seq<bool>)
        requires
            self.wf(),
            u.len() == self.width(),
        ensures
            self.step(u, self.next(u)),
    {
        self.lemma_positions();
        self.lemma_wf();
        let w = self.next(u);
        let state = self.state_vars();
        assert forall|i: int| 0 <= i < self.size() implies w[state[i] as int] == (
        #[trigger] self.rule_sets()[i]).contains(u) by {
            let j = state[i] as int;
            let found = slot(state, j);
            assert(0 <= found < state.len() && state[found] == j);
            if found != i {
                if found < i {
                    assert(state[found] != state[i]);
                } else {
                    assert(state[i] != state[found]);
                }
            }
        }
        assert forall|k: int| 0 <= k < self.parameter_vars().len() implies w[(
        #[trigger] self.parameter_vars()[k]) as int] == u[self.parameter_vars()[k] as int] by {
            let p = self.parameter_vars()[k];
            if index_set(state).contains(p as int) {
                let i = choose|i: int| 0 <= i < state.len() && state[i] == p;
                assert(state[i] != self.parameter_vars()[k]);
            }
        }
    }

    /// A set that is not empty has successors.
    pub proof fn lemma_successors_nonempty(&self, s: Set<Seq<bool>>)
        requires
            self.wf(),
            s.subset_of(valuation_space(self.width())),
            !(s =~= Set::<Seq<bool>>::empty()),
        ensures
            !(self.successors(s) =~= Set::<Seq<bool>>::empty()),
    {
        let u = choose|u: Seq<bool>| s.contains(u);
        assert(s.contains(u));
        assert(valuation_space(self.width()).contains(u));
        self.lemma_step_total(u);
        assert(self.successors(s).contains(self.next(u)));
    }

    /// What is reached from the successors of the reachable is reachable.
    pub proof fn lemma_reachable_step(&self, s: Set<Seq<bool>>, from: Set<Seq<bool>>)
        requires
            from.subset_of(self.reachable(s)),
        ensures
            self.successors(from).subset_of(self.reachable(s)),
    {
        assert forall|w: Seq<bool>| self.successors(from).contains(w) implies self.reachable(
            s,
        ).contains(w) by {
            let u = choose|u: Seq<bool>| from.contains(u) && self.step(u, w);
            assert(self.reachable(s).contains(u));
            let k = choose|k: nat| self.iterate(s, k).contains(u);
            assert(self.iterate(s, k + 1).contains(w));
        }
    }

    /// A set that holds `s` and all its own predecessors holds the basin of `s`.
    pub proof fn lemma_basin_least(&self, s: Set<Seq<bool>>, closed: Set<Seq<bool>>, k: nat)
        requires
            s.subset_of(closed),
            self.predecessors(closed).subset_of(closed),
        ensures
            self.iterate_back(s, k).subset_of(closed),
        decreases k,
    {
        if k > 0 {
            self.lemma_basin_least(s, closed, (k - 1) as nat);
            assert forall|u: Seq<bool>| self.iterate_back(s, k).contains(u) implies closed.contains(
                u,
            ) by {
                let w = choose|w: Seq<bool>|
                    self.iterate_back(s, (k - 1) as nat).contains(w) && self.step(u, w);
                assert(self.predecessors(closed).contains(u));
            }
        }
    }

    /// What reaches a member of `s` in `k` steps lies in the basin of `s`.
    pub proof fn lemma_basin_of_reached(&self, from: Set<Seq<bool>>, s: Set<Seq<bool>>, k: nat)
        requires
            !(self.iterate(from, k).intersect(s) =~= Set::<Seq<bool>>::empty()),
        ensures
            !(from.intersect(self.basin(s)) =~= Set::<Seq<bool>>::empty()),
        decreases k,
    {
        let w = choose|w: Seq<bool>| self.iterate(from, k).intersect(s).contains(w);
        assert(self.iterate(from, k).intersect(s).contains(w));
        if k == 0 {
            assert(self.iterate_back(s, 0).contains(w));
            assert(from.intersect(self.basin(s)).contains(w));
        } else {
            let u = choose|u: Seq<bool>|
                self.iterate(from, (k - 1) as nat).contains(u) && self.step(u, w);
            assert(self.predecessors(s).contains(u));
            assert(self.iterate(from, (k - 1) as nat).intersect(self.predecessors(s)).contains(u));
            self.lemma_basin_of_reached(from, self.predecessors(s), (k - 1) as nat);
            let a = choose|a: Seq<bool>| from.intersect(self.basin(self.predecessors(s))).contains(a);
            assert(from.intersect(self.basin(self.predecessors(s))).contains(a));
            let j = choose|j: nat| self.iterate_back(self.predecessors(s), j).contains(a);
            self.lemma_iterate_back_shift(s, j);
            assert(self.iterate_back(s, j + 1).contains(a));
            assert(from.intersect(self.basin(s)).contains(a));
        }
    }

    /// Stepping back once and then `k` times is stepping back `k + 1` times.
    pub proof fn lemma_iterate_back_shift(&self, s: Set<Seq<bool>>, k: nat)
        ensures
            self.iterate_back(self.predecessors(s), k) == self.iterate_back(s, k + 1),
        decreases k,
    {
        reveal_with_fuel(SymbSyncGraph::iterate_back, 2);
        if k > 0 {
            self.lemma_iterate_back_shift(s, (k - 1) as nat);
            assert(self.iterate_back(self.predecessors(s), k) == self.predecessors(
                self.iterate_back(self.predecessors(s), (k - 1) as nat),
            ));
        }
    }

    /// A set that holds `s` and all its own successors holds everything
    /// that `k` steps make of `s`.
    pub proof fn lemma_reachable_least(&self, s: Set<Seq<bool>>, closed: Set<Seq<bool>>, k: nat)
        requires
            s.subset_of(closed),
            self.forward_closed(closed),
        ensures
            self.iterate(s, k).subset_of(closed),
        decreases k,
    {
        if k > 0 {
            self.lemma_reachable_least(s, closed, (k - 1) as nat);
            assert forall|w: Seq<bool>| self.iterate(s, k).contains(w) implies closed.contains(
                w,
            ) by {
                let u = choose|u: Seq<bool>|
                    self.iterate(s, (k - 1) as nat).contains(u) && self.step(u, w);
                assert(self.successors(closed).contains(w));
            }
        }
    }

    /// The set holds at most one state under each color.
    pub open spec fn is_one_per_color(&self, s: Set<Seq<bool>>) -> bool {
        forall|u: Seq<bool>, v: Seq<bool>|
            #![trigger s.contains(u), s.contains(v)]
            s.contains(u) && s.contains(v) && self.same_color(u, v) ==> self.same_vertex(u, v)
    }

    /// The valuations that differ from `u` at most at the extra variables.
    pub open spec fn variants(&self, u: Seq<bool>) -> Set<Seq<bool>> {
        Set::new(|n: Seq<bool>| agree_outside(u, n, self.scratch()))
    }

    /// Some number of steps leads from `u` to `p`, whatever the extra
    /// variables of `u` hold.
    pub open spec fn follows(&self, u: Seq<bool>, p: Seq<bool>) -> bool {
        self.reachable(self.variants(u)).contains(p)
    }

    /// Each member of `new` follows every member of `all` of its color.
    pub open spec fn is_trail(&self, all: Set<Seq<bool>>, new: Set<Seq<bool>>) -> bool {
        forall|u: Seq<bool>, n: Seq<bool>|
            #![trigger all.contains(u), new.contains(n)]
            all.contains(u) && new.contains(n) && self.same_color(u, n) ==> self.follows(u, n)
    }

    /// Each member of the set is the successor of a valuation that follows it:
    /// it lies on a cycle.
    pub open spec fn is_returning(&self, s: Set<Seq<bool>>) -> bool {
        forall|x: Seq<bool>| #[trigger]
            s.contains(x) ==> exists|p: Seq<bool>| self.step(p, x) && #[trigger] self.follows(x, p)
    }

    /// Two valuations of the graph's width with the same state and the same
    /// color differ at most at the extra variables.
    pub proof fn lemma_agree_parts(&self, u: Seq<bool>, n: Seq<bool>)
        requires
            self.wf(),
            u.len() == self.width(),
            n.len() == self.width(),
            self.same_color(u, n),
            self.same_vertex(u, n),
        ensures
            agree_outside(u, n, self.scratch()),
            agree_outside(n, u, self.scratch()),
    {
        self.lemma_positions();
        assert forall|j: int| 0 <= j < u.len() && !self.scratch().contains(j) implies #[trigger] u[j]
            == n[j] by {
            if index_set(self.state_vars()).contains(j) {
                let i = choose|i: int| 0 <= i < self.state_vars().len() && self.state_vars()[i] == j;
                assert(u[self.state_vars()[i] as int] == n[self.state_vars()[i] as int]);
            } else {
                assert(index_set(self.parameter_vars()).contains(j));
                let k = choose|k: int|
                    0 <= k < self.parameter_vars().len() && self.parameter_vars()[k] == j;
                assert(u[self.parameter_vars()[k] as int] == n[self.parameter_vars()[k] as int]);
            }
        }
    }

    /// A step keeps the color, and from the same state under the same color
    /// it leads to the same state.
    pub proof fn lemma_step_parts(&self, u: Seq<bool>, w: Seq<bool>, v: Seq<bool>, x: Seq<bool>)
        requires
            self.wf(),
            self.step(u, w),
            self.step(v, x),
            self.same_color(u, v),
            self.same_vertex(u, v),
        ensures
            self.same_color(u, w),
            self.same_color(w, x),
            self.same_vertex(w, x),
    {
        self.lemma_wf();
        self.lemma_agree_parts(u, v);
        assert forall|i: int| 0 <= i < self.state_vars().len() implies w[(
        #[trigger] self.state_vars()[i]) as int] == x[self.state_vars()[i] as int] by {
            assert(w[self.state_vars()[i] as int] == self.rule_sets()[i].contains(u));
            assert(x[self.state_vars()[i] as int] == self.rule_sets()[i].contains(v));
            assert(ignores(self.rule_sets()[i], self.scratch()));
        }
    }

    /// What succeeds a valuation that follows `u` follows `u`.
    pub proof fn lemma_follows_step(&self, u: Seq<bool>, n: Seq<bool>, next: Seq<bool>)
        requires
            self.follows(u, n),
            self.step(n, next),
        ensures
            self.follows(u, next),
    {
        let k = choose|k: nat| self.iterate(self.variants(u), k).contains(n);
        assert(self.iterate(self.variants(u), k + 1).contains(next));
    }

    /// To have the same color is symmetric and transitive.
    pub proof fn lemma_same_color(&self, x: Seq<bool>, y: Seq<bool>, z: Seq<bool>)
        requires
            self.same_color(x, y),
            self.same_color(y, z),
        ensures
            self.same_color(y, x),
            self.same_color(x, z),
    {
        let vars = self.parameter_vars();
        assert forall|k: int| 0 <= k < vars.len() implies y[(#[trigger] vars[k]) as int]
            == x[vars[k] as int] by {}
        assert forall|k: int| 0 <= k < vars.len() implies x[(#[trigger] vars[k]) as int]
            == z[vars[k] as int] by {}
    }

    /// What some steps make of the variants of a valuation does not depend
    /// on the extra variables.
    pub proof fn lemma_iterate_ignores(&self, u: Seq<bool>, k: nat)
        requires
            self.wf(),
        ensures
            ignores(self.iterate(self.variants(u), k), self.scratch()),
    {
        if k == 0 {
            assert forall|n: Seq<bool>, m: Seq<bool>|
                self.variants(u).contains(n) && #[trigger] agree_outside(
                    n,
                    m,
                    self.scratch(),
                ) implies self.variants(u).contains(m) by {
                assert(agree_outside(u, m, self.scratch()));
            }
        } else {
            self.lemma_successors_colored(self.iterate(self.variants(u), (k - 1) as nat));
        }
    }

    /// What follows a valuation that follows `u` follows `u`.
    pub proof fn lemma_follows_far(&self, u: Seq<bool>, x: Seq<bool>, v: Seq<bool>, k: nat)
        requires
            self.wf(),
            self.follows(u, x),
            self.iterate(self.variants(x), k).contains(v),
        ensures
            self.follows(u, v),
        decreases k,
    {
        if k == 0 {
            let j = choose|j: nat| self.iterate(self.variants(u), j).contains(x);
            self.lemma_iterate_ignores(u, j);
            assert(agree_outside(x, v, self.scratch()));
            assert(self.iterate(self.variants(u), j).contains(v));
        } else {
            let w = choose|w: Seq<bool>|
                self.iterate(self.variants(x), (k - 1) as nat).contains(w) && self.step(w, v);
            self.lemma_follows_far(u, x, w, (k - 1) as nat);
            self.lemma_follows_step(u, w, v);
        }
    }

    /// Every member of `s` follows each member of `s` of its color: under
    /// one color the set is one cycle, or nothing.
    #[verifier::opaque]
    pub open spec fn is_connected(&self, s: Set<Seq<bool>>) -> bool {
        self.is_trail(s, s)
    }

    /// Each member of `s` has the color of a member of `roots`.
    pub open spec fn has_roots(&self, roots: Set<Seq<bool>>, s: Set<Seq<bool>>) -> bool {
        forall|v: Seq<bool>| #[trigger]
            s.contains(v) ==> exists|x: Seq<bool>| roots.contains(x) && #[trigger] self.same_color(
                x,
                v,
            )
    }

    /// Roots that follow each member of `all` of their color, and are
    /// among `all`, follow one another and are their own roots.
    proof fn lemma_roots_begin(&self, all: Set<Seq<bool>>, roots: Set<Seq<bool>>)
        requires
            roots.subset_of(all),
            self.is_trail(all, roots),
        ensures
            self.is_trail(roots, roots),
            self.has_roots(roots, roots),
    {
        assert forall|u: Seq<bool>, n: Seq<bool>|
            #![trigger roots.contains(u), roots.contains(n)]
            roots.contains(u) && roots.contains(n) && self.same_color(u, n) implies self.follows(
            u,
            n,
        ) by {
            assert(all.contains(u) && roots.contains(n));
        }
        assert forall|v: Seq<bool>| #[trigger] roots.contains(v) implies exists|x: Seq<bool>|
            roots.contains(x) && #[trigger] self.same_color(x, v) by {
            assert(self.same_color(v, v));
        }
    }

    /// Where every member of `roots` follows each member of `all` of its
    /// color, and each member of `s` is in `all` and follows the member of
    /// `roots` of its color, every member of `s` follows each member of `s`
    /// of its color.
    proof fn lemma_round_trip(&self, all: Set<Seq<bool>>, roots: Set<Seq<bool>>, s: Set<Seq<bool>>)
        requires
            self.wf(),
            s.subset_of(all),
            self.is_trail(all, roots),
            self.is_trail(roots, s),
            self.has_roots(roots, s),
        ensures
            self.is_trail(s, s),
    {
        assert forall|u: Seq<bool>, v: Seq<bool>|
            #![trigger s.contains(u), s.contains(v)]
            s.contains(u) && s.contains(v) && self.same_color(u, v) implies self.follows(u, v) by {
            let x = choose|x: Seq<bool>| roots.contains(x) && #[trigger] self.same_color(x, u);
            self.lemma_same_color(x, u, v);
            assert(all.contains(u) && roots.contains(x));
            assert(self.follows(u, x));
            assert(roots.contains(x) && s.contains(v));
            assert(self.follows(x, v));
            let k = choose|k: nat| self.iterate(self.variants(x), k).contains(v);
            self.lemma_follows_far(u, x, v, k);
        }
    }

    /// The successors of the latest members of a trail that are known
    /// already follow every member of their color.
    proof fn lemma_trail_closes(&self, all: Set<Seq<bool>>, new: Set<Seq<bool>>)
        requires
            self.wf(),
            self.is_trail(all, new),
        ensures
            self.is_trail(all, self.successors(new)),
    {
        assert forall|u: Seq<bool>, x: Seq<bool>|
            #![trigger all.contains(u), self.successors(new).contains(x)]
            all.contains(u) && self.successors(new).contains(x) && self.same_color(
                u,
                x,
            ) implies self.follows(u, x) by {
            let p = choose|p: Seq<bool>| new.contains(p) && self.step(p, x);
            self.lemma_step_parts(p, x, p, x);
            self.lemma_same_color(p, x, x);
            self.lemma_same_color(u, x, p);
            assert(all.contains(u) && new.contains(p));
            self.lemma_follows_step(u, p, x);
        }
    }

    /// One more step from roots: what succeeds members that follow the
    /// roots of their color follows them too, and has a root.
    proof fn lemma_rooted_step(
        &self,
        roots: Set<Seq<bool>>,
        s: Set<Seq<bool>>,
        from: Set<Seq<bool>>,
        fresh: Set<Seq<bool>>,
    )
        requires
            self.wf(),
            from.subset_of(s),
            fresh.subset_of(self.successors(from)),
            self.is_trail(roots, s),
            self.has_roots(roots, s),
        ensures
            self.is_trail(roots, s.union(fresh)),
            self.has_roots(roots, s.union(fresh)),
    {
        assert forall|x: Seq<bool>, v: Seq<bool>|
            #![trigger roots.contains(x), s.union(fresh).contains(v)]
            roots.contains(x) && s.union(fresh).contains(v) && self.same_color(
                x,
                v,
            ) implies self.follows(x, v) by {
            if !s.contains(v) {
                let u = choose|u: Seq<bool>| from.contains(u) && self.step(u, v);
                self.lemma_step_parts(u, v, u, v);
                self.lemma_same_color(u, v, v);
                self.lemma_same_color(x, v, u);
                assert(roots.contains(x) && s.contains(u));
                self.lemma_follows_step(x, u, v);
            }
        }
        assert forall|v: Seq<bool>| #[trigger] s.union(fresh).contains(v) implies exists|
            x: Seq<bool>,
        |
            roots.contains(x) && #[trigger] self.same_color(x, v) by {
            if !s.contains(v) {
                let u = choose|u: Seq<bool>| from.contains(u) && self.step(u, v);
                self.lemma_step_parts(u, v, u, v);
                assert(s.contains(u));
                let x = choose|x: Seq<bool>| roots.contains(x) && #[trigger] self.same_color(x, u);
                self.lemma_same_color(x, u, v);
            }
        }
    }

    /// One more step on a trail: what is new among the successors of the
    /// latest members follows every member, old or new, of its color, and
    /// holds one state per color.
    proof fn lemma_trail_step(&self, all: Set<Seq<bool>>, new: Set<Seq<bool>>, fresh: Set<Seq<bool>>)
        requires
            self.wf(),
            all.subset_of(valuation_space(self.width())),
            new.subset_of(all),
            self.is_trail(all, new),
            self.is_one_per_color(new),
            fresh == self.successors(new).difference(all),
        ensures
            self.is_trail(all.union(fresh), fresh),
            self.is_one_per_color(fresh),
    {
        assert forall|u: Seq<bool>, n: Seq<bool>|
            #![trigger all.union(fresh).contains(u), fresh.contains(n)]
            all.union(fresh).contains(u) && fresh.contains(n) && self.same_color(
                u,
                n,
            ) implies self.follows(u, n) by {
            let before = choose|before: Seq<bool>| new.contains(before) && self.step(before, n);
            self.lemma_step_parts(before, n, before, n);
            if all.contains(u) {
                assert(self.same_color(u, before));
                assert(all.contains(u) && new.contains(before));
                self.lemma_follows_step(u, before, n);
            } else {
                let other = choose|other: Seq<bool>| new.contains(other) && self.step(other, u);
                self.lemma_step_parts(other, u, other, u);
                assert(self.same_color(other, before));
                assert(new.contains(other) && new.contains(before));
                self.lemma_step_parts(other, u, before, n);
                self.lemma_agree_parts(u, n);
                assert(self.iterate(self.variants(u), 0).contains(n));
            }
        }
        assert forall|u: Seq<bool>, v: Seq<bool>|
            #![trigger fresh.contains(u), fresh.contains(v)]
            fresh.contains(u) && fresh.contains(v) && self.same_color(
                u,
                v,
            ) implies self.same_vertex(u, v) by {
            let a = choose|a: Seq<bool>| new.contains(a) && self.step(a, u);
            let b = choose|b: Seq<bool>| new.contains(b) && self.step(b, v);
            self.lemma_step_parts(a, u, a, u);
            self.lemma_step_parts(b, v, b, v);
            assert(self.same_color(a, b));
            assert(new.contains(a) && new.contains(b));
            self.lemma_step_parts(a, u, b, v);
        }
    }

    /// The end of a trail: where the successors of the latest members are
    /// all known, each of them lies on a cycle.
    proof fn lemma_trail_end(&self, all: Set<Seq<bool>>, new: Set<Seq<bool>>)
        requires
            self.wf(),
            self.is_trail(all, new),
            self.successors(new).subset_of(all),
        ensures
            self.is_returning(self.successors(new)),
    {
        assert forall|x: Seq<bool>| #[trigger] self.successors(new).contains(x) implies exists|
            p: Seq<bool>,
        |
            self.step(p, x) && #[trigger] self.follows(x, p) by {
            let p = choose|p: Seq<bool>| new.contains(p) && self.step(p, x);
            self.lemma_step_parts(p, x, p, x);
            assert(self.same_color(x, p));
            assert(all.contains(x) && new.contains(p));
            assert(self.follows(x, p));
        }
    }

    /// A set that the step cannot leave, that ignores the extra variables
    /// and begins on cycles holds a predecessor of each of its members.
    proof fn lemma_cycles(&self, result: Set<Seq<bool>>, begun: Set<Seq<bool>>)
        requires
            self.wf(),
            self.forward_closed(result),
            ignores(result, self.scratch()),
            begun.subset_of(result),
            self.is_returning(begun),
            forall|y: Seq<bool>| #[trigger]
                result.contains(y) ==> begun.contains(y) || self.successors(result).contains(y),
        ensures
            result.subset_of(self.successors(result)),
    {
        assert forall|y: Seq<bool>| result.contains(y) implies self.successors(result).contains(
            y,
        ) by {
            if begun.contains(y) {
                let p = choose|p: Seq<bool>| self.step(p, y) && #[trigger] self.follows(y, p);
                let k = choose|k: nat| self.iterate(self.variants(y), k).contains(p);
                assert(self.variants(y).subset_of(result));
                self.lemma_reachable_least(self.variants(y), result, k);
                assert(result.contains(p));
            }
        }
    }

    /// From `initial`, follows the update until nothing new is reached, and
    /// returns what the update can still reach from the last step: a region
    /// that the update cannot leave.
    #[verifier::rlimit(40)]
    fn search_loop(&self, initial: &Bdd) -> (r: Bdd)
        requires
            self.wf(),
            self.is_colored_set(*initial),
        ensures
            self.is_colored_set(r),
            self.forward_closed(bdd_valuations(r)),
            bdd_valuations(r).subset_of(self.reachable(bdd_valuations(*initial))),
            !(bdd_valuations(*initial) =~= Set::<Seq<bool>>::empty()) ==> !(bdd_valuations(r)
                =~= Set::<Seq<bool>>::empty()),
            self.is_one_per_color(bdd_valuations(*initial)) ==> bdd_valuations(r).subset_of(
                self.successors(bdd_valuations(r)),
            ),
            self.is_one_per_color(bdd_valuations(*initial)) ==> self.is_connected(
                bdd_valuations(r),
            ),
    {
        let ghost width = self.width();
        let ghost start = bdd_valuations(*initial);
        let ghost single = self.is_one_per_color(start);
        let mut new = bdd_clone(initial);
        let mut all = bdd_clone(initial);
        let mut last = self.empty_colored_vertices();
        proof {
            assert(self.iterate(start, 0) == start);
            assert(start.subset_of(self.reachable(start))) by {
                assert forall|w: Seq<bool>| start.contains(w) implies self.reachable(
                    start,
                ).contains(w) by {
                    assert(self.iterate(start, 0).contains(w));
                }
            }
            if single {
                assert forall|u: Seq<bool>, n: Seq<bool>|
                    #![trigger start.contains(u), start.contains(n)]
                    start.contains(u) && start.contains(n) && self.same_color(
                        u,
                        n,
                    ) implies self.follows(u, n) by {
                    assert(valuation_space(width).contains(u));
                    assert(valuation_space(width).contains(n));
                    self.lemma_agree_parts(u, n);
                    assert(self.iterate(self.variants(u), 0).contains(n));
                }
            }
            assert(start.difference(start) =~= Set::<Seq<bool>>::empty());
            assert(self.successors(Set::<Seq<bool>>::empty()) =~= Set::<Seq<bool>>::empty());
            assert(bdd_valuations(last) =~= Set::<Seq<bool>>::empty());
        }
        while !bdd_is_false(&new)
            invariant
                self.wf(),
                width == self.width(),
                self.is_colored_set(new),
                self.is_colored_set(all),
                self.is_colored_set(last),
                bdd_valuations(new).subset_of(bdd_valuations(all)),
                single ==> self.is_trail(bdd_valuations(all), bdd_valuations(new)),
                single ==> self.is_one_per_color(bdd_valuations(new)),
                single && bdd_valuations(new) =~= Set::<Seq<bool>>::empty() ==> self.is_returning(
                    bdd_valuations(last),
                ),
                single && bdd_valuations(new) =~= Set::<Seq<bool>>::empty() ==> self.is_trail(
                    bdd_valuations(all),
                    bdd_valuations(last),
                ),
                bdd_valuations(new) =~= Set::<Seq<bool>>::empty() ==> bdd_valuations(
                    last,
                ).subset_of(bdd_valuations(all)),
                self.successors(bdd_valuations(all).difference(bdd_valuations(new))).subset_of(
                    bdd_valuations(all),
                ),
                bdd_valuations(new).subset_of(self.reachable(start)),
                bdd_valuations(last).subset_of(self.reachable(start)),
                !(start =~= Set::<Seq<bool>>::empty()) ==> !(bdd_valuations(new)
                    =~= Set::<Seq<bool>>::empty()) || !(bdd_valuations(last)
                    =~= Set::<Seq<bool>>::empty()),
            decreases
                    room(bdd_valuations(all), width),
                    if bdd_valuations(new) =~= Set::<Seq<bool>>::empty() {
                        0nat
                    } else {
                        1nat
                    },
        {
            proof {
                self.lemma_successors_nonempty(bdd_valuations(new));
                self.lemma_reachable_step(start, bdd_valuations(new));
            }
            let ghost latest = bdd_valuations(new);
            last = self.post_synch(&new);
            new = bdd_and_not(&last, &all);
            let ghost before = bdd_valuations(all);
            all = bdd_or(&all, &new);
            proof {
                if single {
                    self.lemma_trail_step(before, latest, bdd_valuations(new));
                    if bdd_valuations(new) =~= Set::<Seq<bool>>::empty() {
                        assert(bdd_valuations(last).subset_of(before)) by {
                            assert forall|x: Seq<bool>| bdd_valuations(last).contains(
                                x,
                            ) implies before.contains(x) by {
                                if !before.contains(x) {
                                    assert(bdd_valuations(new).contains(x));
                                }
                            }
                        }
                        self.lemma_trail_end(before, latest);
                        self.lemma_trail_closes(before, latest);
                    }
                }
                if bdd_valuations(new) =~= Set::<Seq<bool>>::empty() {
                    assert forall|x: Seq<bool>| bdd_valuations(last).contains(
                        x,
                    ) implies before.contains(x) by {
                        if !before.contains(x) {
                            assert(bdd_valuations(new).contains(x));
                        }
                    }
                }
                assert forall|w: Seq<bool>|
                    self.successors(
                        bdd_valuations(all).difference(bdd_valuations(new)),
                    ).contains(w) implies bdd_valuations(all).contains(w) by {
                    let u = choose|u: Seq<bool>|
                        bdd_valuations(all).difference(bdd_valuations(new)).contains(u)
                            && self.step(u, w);
                    assert(before.contains(u));
                    if latest.contains(u) {
                        assert(bdd_valuations(last).contains(w));
                    } else {
                        assert(before.difference(latest).contains(u));
                        assert(self.successors(before.difference(latest)).contains(w));
                    }
                }
                assert(ignores(bdd_valuations(new), self.scratch())) by {
                    assert forall|u: Seq<bool>, v: Seq<bool>|
                        bdd_valuations(new).contains(u) && #[trigger] agree_outside(
                            u,
                            v,
                            self.scratch(),
                        ) implies bdd_valuations(new).contains(v) by {
                        assert(bdd_valuations(last).contains(v));
                        if before.contains(v) {
                            assert(agree_outside(v, u, self.scratch()));
                        }
                    }
                }
                if !(bdd_valuations(new) =~= Set::<Seq<bool>>::empty()) {
                    assert(before.disjoint(bdd_valuations(new)));
                    lemma_room_shrinks(before, bdd_valuations(new), width);
                } else {
                    assert(bdd_valuations(all) =~= before);
                }
            }
        }
        let mut result = bdd_clone(&last);
        let ghost begun = bdd_valuations(last);
        let ghost known = bdd_valuations(all);
        proof {
            assert(known.difference(bdd_valuations(new)) =~= known);
            if single {
                self.lemma_roots_begin(known, begun);
            }
        }
        while !bdd_is_false(&last)
            invariant
                self.wf(),
                width == self.width(),
                self.is_colored_set(last),
                self.is_colored_set(result),
                self.successors(known).subset_of(known),
                bdd_valuations(result).subset_of(known),
                single ==> self.is_trail(known, begun),
                single ==> self.is_trail(begun, bdd_valuations(result)),
                single ==> self.has_roots(begun, bdd_valuations(result)),
                begun.subset_of(bdd_valuations(result)),
                forall|y: Seq<bool>| #[trigger]
                    bdd_valuations(result).contains(y) ==> begun.contains(y) || self.successors(
                        bdd_valuations(result),
                    ).contains(y),
                bdd_valuations(last).subset_of(bdd_valuations(result)),
                bdd_valuations(result).subset_of(self.reachable(start)),
                self.successors(bdd_valuations(result).difference(bdd_valuations(last))).subset_of(
                    bdd_valuations(result),
                ),
                !(start =~= Set::<Seq<bool>>::empty()) ==> !(bdd_valuations(result)
                    =~= Set::<Seq<bool>>::empty()),
            decreases
                    room(bdd_valuations(result), width),
                    if bdd_valuations(last) =~= Set::<Seq<bool>>::empty() {
                        0nat
                    } else {
                        1nat
                    },
        {
            let ghost old_last = bdd_valuations(last);
            let ghost old_result = bdd_valuations(result);
            proof {
                self.lemma_reachable_step(start, old_last);
            }
            let image = self.post_synch(&last);
            last = bdd_and_not(&image, &result);
            result = bdd_or(&result, &last);
            proof {
                let fresh = bdd_valuations(last);
                assert(bdd_valuations(result) =~= old_result.union(fresh));
                assert forall|v: Seq<bool>| fresh.contains(v) implies known.contains(v) by {
                    let u = choose|u: Seq<bool>| old_last.contains(u) && self.step(u, v);
                    assert(known.contains(u));
                    assert(self.successors(known).contains(v));
                }
                if single {
                    self.lemma_rooted_step(begun, old_result, old_last, fresh);
                }
                assert(ignores(fresh, self.scratch())) by {
                    assert forall|u: Seq<bool>, v: Seq<bool>|
                        fresh.contains(u) && #[trigger] agree_outside(
                            u,
                            v,
                            self.scratch(),
                        ) implies fresh.contains(v) by {
                        assert(bdd_valuations(image).contains(v));
                        if old_result.contains(v) {
                            assert(agree_outside(v, u, self.scratch()));
                        }
                    }
                }
                assert(ignores(bdd_valuations(result), self.scratch()));
                assert forall|y: Seq<bool>| #[trigger]
                    bdd_valuations(result).contains(y) implies begun.contains(y)
                    || self.successors(bdd_valuations(result)).contains(y) by {
                    if !begun.contains(y) {
                        if old_result.contains(y) {
                            let u = choose|u: Seq<bool>| old_result.contains(u) && self.step(u, y);
                            assert(bdd_valuations(result).contains(u));
                        } else {
                            let u = choose|u: Seq<bool>| old_last.contains(u) && self.step(u, y);
                            assert(bdd_valuations(result).contains(u));
                        }
                    }
                }
                assert forall|w: Seq<bool>|
                    self.successors(bdd_valuations(result).difference(fresh)).contains(
                        w,
                    ) implies bdd_valuations(result).contains(w) by {
                    let u = choose|u: Seq<bool>|
                        bdd_valuations(result).difference(fresh).contains(u) && self.step(u, w);
                    assert(old_result.contains(u));
                    if old_last.contains(u) {
                        assert(self.successors(old_last).contains(w));
                    } else {
                        assert(old_result.difference(old_last).contains(u));
                        assert(self.successors(old_result.difference(old_last)).contains(w));
                    }
                }
                if !(fresh =~= Set::<Seq<bool>>::empty()) {
                    assert(old_result.disjoint(fresh));
                    lemma_room_shrinks(old_result, fresh, width);
                } else {
                    assert(bdd_valuations(result) =~= old_result);
                }
            }
        }
        proof {
            assert(bdd_valuations(result).difference(bdd_valuations(last)) =~= bdd_valuations(
                result,
            ));
            if single {
                self.lemma_cycles(bdd_valuations(result), begun);
                self.lemma_round_trip(known, begun, bdd_valuations(result));
                reveal(SymbSyncGraph::is_connected);
            }
        }
        result
    }

    /// Everything whose fate lies in `initial`.
    fn predecessors_of(&self, initial: &Bdd) -> (r: Bdd)
        requires
            self.wf(),
            self.is_colored_set(*initial),
        ensures
            self.is_colored_set(r),
            bdd_valuations(r) == self.basin(bdd_valuations(*initial)),
    {
        let ghost width = self.width();
        let ghost start = bdd_valuations(*initial);
        let mut new = bdd_clone(initial);
        let mut result = bdd_clone(initial);
        proof {
            assert forall|u: Seq<bool>| start.contains(u) implies self.basin(start).contains(u) by {
                assert(self.iterate_back(start, 0).contains(u));
            }
            assert(start.difference(start) =~= Set::<Seq<bool>>::empty());
        }
        while !bdd_is_false(&new)
            invariant
                self.wf(),
                width == self.width(),
                self.is_colored_set(new),
                self.is_colored_set(result),
                start.subset_of(bdd_valuations(result)),
                bdd_valuations(new).subset_of(bdd_valuations(result)),
                bdd_valuations(result).subset_of(self.basin(start)),
                self.predecessors(
                    bdd_valuations(result).difference(bdd_valuations(new)),
                ).subset_of(bdd_valuations(result)),
            decreases
                    room(bdd_valuations(result), width),
                    if bdd_valuations(new) =~= Set::<Seq<bool>>::empty() {
                        0nat
                    } else {
                        1nat
                    },
        {
            let ghost old_new = bdd_valuations(new);
            let ghost old_result = bdd_valuations(result);
            let image = self.pre_synch(&new);
            new = bdd_and_not(&image, &result);
            result = bdd_or(&result, &new);
            proof {
                let fresh = bdd_valuations(new);
                assert(ignores(fresh, self.scratch())) by {
                    assert forall|u: Seq<bool>, v: Seq<bool>|
                        fresh.contains(u) && #[trigger] agree_outside(
                            u,
                            v,
                            self.scratch(),
                        ) implies fresh.contains(v) by {
                        assert(bdd_valuations(image).contains(v));
                        if old_result.contains(v) {
                            assert(agree_outside(v, u, self.scratch()));
                        }
                    }
                }
                assert(ignores(bdd_valuations(result), self.scratch()));
                assert forall|u: Seq<bool>| fresh.contains(u) implies self.basin(start).contains(
                    u,
                ) by {
                    let w = choose|w: Seq<bool>| old_new.contains(w) && self.step(u, w);
                    assert(self.basin(start).contains(w));
                    let k = choose|k: nat| self.iterate_back(start, k).contains(w);
                    assert(self.iterate_back(start, k + 1).contains(u));
                }
                assert forall|u: Seq<bool>|
                    self.predecessors(bdd_valuations(result).difference(fresh)).contains(
                        u,
                    ) implies bdd_valuations(result).contains(u) by {
                    let w = choose|w: Seq<bool>|
                        bdd_valuations(result).difference(fresh).contains(w) && self.step(u, w);
                    assert(old_result.contains(w));
                    if old_new.contains(w) {
                        assert(self.predecessors(old_new).contains(u));
                    } else {
                        assert(old_result.difference(old_new).contains(w));
                        assert(self.predecessors(old_result.difference(old_new)).contains(u));
                    }
                }
                if !(fresh =~= Set::<Seq<bool>>::empty()) {
                    assert(old_result.disjoint(fresh));
                    lemma_room_shrinks(old_result, fresh, width);
                } else {
                    assert(bdd_valuations(result) =~= old_result);
                }
            }
        }
        proof {
            let closed = bdd_valuations(result);
            assert(closed.difference(bdd_valuations(new)) =~= closed);
            assert forall|u: Seq<bool>| self.basin(start).contains(u) implies closed.contains(
                u,
            ) by {
                let k = choose|k: nat| self.iterate_back(start, k).contains(u);
                self.lemma_basin_least(start, closed, k);
            }
            assert(closed =~= self.basin(start));
        }
        result
    }
}

impl SymbSyncGraph {
    /// One state for each parametrization of `set`.
    fn pick_vertex(&self, set: &Bdd) -> (r: Bdd)
        requires
            self.wf(),
            self.is_colored_set(*set),
        ensures
            self.is_colored_set(r),
            bdd_valuations(r).subset_of(bdd_valuations(*set)),
            !(bdd_valuations(*set) =~= Set::<Seq<bool>>::empty()) ==> !(bdd_valuations(r)
                =~= Set::<Seq<bool>>::empty()),
            self.is_one_per_color(bdd_valuations(r)),
    {
        proof {
            self.lemma_positions();
            self.lemma_ascending();
            assert forall|k: int| 0 <= k < self.state_vars().len() implies
                #[trigger] self.state_vars()[k] < self.width() && !self.scratch().contains(
                self.state_vars()[k] as int,
            ) by {
                if self.scratch().contains(self.state_vars()[k] as int) {
                    let i = choose|i: int|
                        0 <= i < self.extra_vars().len() && self.extra_vars()[i]
                            == self.state_vars()[k];
                    assert(self.state_vars()[k] != self.extra_vars()[i]);
                }
            }
            lemma_picked_ignores(
                bdd_valuations(*set),
                self.state_vars(),
                self.scratch(),
                self.width(),
            );
            if !(bdd_valuations(*set) =~= Set::<Seq<bool>>::empty()) {
                lemma_picked_nonempty(bdd_valuations(*set), self.state_vars(), self.width());
            }
            let chosen = picked(bdd_valuations(*set), self.state_vars());
            assert forall|u: Seq<bool>, v: Seq<bool>|
                #![trigger chosen.contains(u), chosen.contains(v)]
                chosen.contains(u) && chosen.contains(v) && self.same_color(
                    u,
                    v,
                ) implies self.same_vertex(u, v) by {
                assert(valuation_space(self.width()).contains(u));
                assert(valuation_space(self.width()).contains(v));
                let moved = Seq::new(
                    v.len(),
                    |j: int|
                        if self.scratch().contains(j) {
                            u[j]
                        } else {
                            v[j]
                        },
                );
                assert(agree_outside(v, moved, self.scratch()));
                assert(chosen.contains(moved));
                assert forall|j: int|
                    0 <= j < u.len() && !index_set(self.state_vars()).contains(
                        j,
                    ) implies #[trigger] u[j] == moved[j] by {
                    if !self.scratch().contains(j) {
                        assert(index_set(self.parameter_vars()).contains(j));
                        let k = choose|k: int|
                            0 <= k < self.parameter_vars().len() && self.parameter_vars()[k] == j;
                        assert(u[self.parameter_vars()[k] as int]
                            == v[self.parameter_vars()[k] as int]);
                    }
                }
                assert(agree_outside(u, moved, index_set(self.state_vars())));
                lemma_picked_unique(
                    bdd_valuations(*set),
                    self.state_vars(),
                    self.width(),
                    u,
                    moved,
                );
                assert forall|i: int| 0 <= i < self.state_vars().len() implies u[(
                #[trigger] self.state_vars()[i]) as int] == v[self.state_vars()[i] as int] by {
                    self.lemma_state_position(i);
                }
            }
        }
        bdd_pick(set, self.state_variables())
    }

    /// The regions within reach of `set` that the update cannot leave, one
    /// for each fate that a member of `set` can have: each region is made up
    /// of cycles of the update, one cycle under each of its colors, every
    /// member of `set` ends in one of the regions, and no two of them share
    /// a pair.
    pub fn attractors_in(&self, set: &Bdd) -> (r: Vec<Bdd>)
        requires
            self.wf(),
            self.is_colored_set(*set),
        ensures
            forall|i: int|
                0 <= i < r@.len() ==> self.is_colored_set(#[trigger] r@[i]) && self.forward_closed(
                    bdd_valuations(r@[i]),
                ) && !(bdd_valuations(r@[i]) =~= Set::<Seq<bool>>::empty()) && bdd_valuations(
                    r@[i],
                ).subset_of(self.reachable(bdd_valuations(*set))) && bdd_valuations(
                    r@[i],
                ).subset_of(self.successors(bdd_valuations(r@[i]))),
            forall|i: int| 0 <= i < r@.len() ==> self.is_connected(bdd_valuations(#[trigger] r@[i])),
            forall|i: int, j: int|
                0 <= i < j < r@.len() ==> bdd_valuations(#[trigger] r@[i]).disjoint(
                    bdd_valuations(#[trigger] r@[j]),
                ),
            forall|v: Seq<bool>| #[trigger]
                bdd_valuations(*set).contains(v) ==> exists|i: int|
                    0 <= i < r@.len() && self.basin(bdd_valuations(#[trigger] r@[i])).contains(v),
    {
        let ghost width = self.width();
        let ghost whole = bdd_valuations(*set);
        let mut result: Vec<Bdd> = Vec::new();
        let mut all = bdd_clone(set);
        while !bdd_is_false(&all)
            invariant
                self.wf(),
                width == self.width(),
                self.is_colored_set(all),
                bdd_valuations(all).subset_of(whole),
                forall|i: int|
                    0 <= i < result@.len() ==> self.is_colored_set(#[trigger] result@[i])
                        && self.forward_closed(bdd_valuations(result@[i])) && !(bdd_valuations(
                        result@[i],
                    ) =~= Set::<Seq<bool>>::empty()) && bdd_valuations(result@[i]).subset_of(
                        self.reachable(whole),
                    ) && bdd_valuations(result@[i]).subset_of(
                        self.successors(bdd_valuations(result@[i])),
                    ),
                forall|i: int|
                    0 <= i < result@.len() ==> self.is_connected(
                        bdd_valuations(#[trigger] result@[i]),
                    ),
                forall|i: int|
                    0 <= i < result@.len() ==> bdd_valuations(all).disjoint(
                        self.basin(bdd_valuations(#[trigger] result@[i])),
                    ),
                forall|i: int, j: int|
                    0 <= i < j < result@.len() ==> bdd_valuations(#[trigger] result@[i]).disjoint(
                        bdd_valuations(#[trigger] result@[j]),
                    ),
                forall|v: Seq<bool>| #[trigger]
                    whole.contains(v) ==> bdd_valuations(all).contains(v) || exists|i: int|
                        0 <= i < result@.len() && self.basin(
                            bdd_valuations(#[trigger] result@[i]),
                        ).contains(v),
            decreases bdd_valuations(all).len(),
        {
            let picked = self.pick_vertex(&all);
            let attr = self.search_loop(&picked);
            let fate = self.predecessors_of(&attr);
            let ghost before = bdd_valuations(all);
            let ghost found = result@;
            all = bdd_and_not(&all, &fate);
            proof {
                let region = bdd_valuations(attr);
                let start = bdd_valuations(picked);
                let w = choose|w: Seq<bool>| region.contains(w);
                assert(region.contains(w));
                assert(self.reachable(start).contains(w));
                let k = choose|k: nat| self.iterate(start, k).contains(w);
                assert(self.iterate(start, k).intersect(region).contains(w));
                self.lemma_basin_of_reached(start, region, k);
                let a = choose|a: Seq<bool>| start.intersect(self.basin(region)).contains(a);
                assert(start.intersect(self.basin(region)).contains(a));
                assert(before.intersect(bdd_valuations(fate)).contains(a));
                lemma_difference_shrinks(before, bdd_valuations(fate), width);
                assert(ignores(bdd_valuations(all), self.scratch())) by {
                    assert forall|u: Seq<bool>, v: Seq<bool>|
                        bdd_valuations(all).contains(u) && #[trigger] agree_outside(
                            u,
                            v,
                            self.scratch(),
                        ) implies bdd_valuations(all).contains(v) by {
                        assert(before.contains(v));
                        if bdd_valuations(fate).contains(v) {
                            assert(agree_outside(v, u, self.scratch()));
                        }
                    }
                }
                self.lemma_reachable_within(whole, start);
                assert forall|i: int| 0 <= i < found.len() implies bdd_valuations(
                    #[trigger] found[i],
                ).disjoint(region) by {
                    let other = bdd_valuations(found[i]);
                    if !other.disjoint(region) {
                        let x = choose|x: Seq<bool>| other.contains(x) && region.contains(x);
                        assert(self.reachable(start).contains(x));
                        let n = choose|n: nat| self.iterate(start, n).contains(x);
                        assert(self.iterate(start, n).intersect(other).contains(x));
                        self.lemma_basin_of_reached(start, other, n);
                        let b = choose|b: Seq<bool>| start.intersect(self.basin(other)).contains(b);
                        assert(start.intersect(self.basin(other)).contains(b));
                        assert(before.contains(b));
                    }
                }
            }
            result.push(attr);
            proof {
                assert forall|i: int| 0 <= i < result@.len() implies bdd_valuations(all).disjoint(
                    self.basin(bdd_valuations(#[trigger] result@[i])),
                ) by {
                    if i < found.len() {
                        assert(result@[i] == found[i]);
                        assert(before.disjoint(self.basin(bdd_valuations(found[i]))));
                    }
                }
                assert forall|i: int, j: int| 0 <= i < j < result@.len() implies bdd_valuations(
                    #[trigger] result@[i],
                ).disjoint(bdd_valuations(#[trigger] result@[j])) by {
                    assert(result@[i] == found[i]);
                    if j < found.len() {
                        assert(result@[j] == found[j]);
                    }
                }
                assert forall|v: Seq<bool>| #[trigger] whole.contains(v) implies bdd_valuations(
                    all,
                ).contains(v) || exists|i: int|
                    0 <= i < result@.len() && self.basin(
                        bdd_valuations(#[trigger] result@[i]),
                    ).contains(v) by {
                    if before.contains(v) {
                        if !bdd_valuations(all).contains(v) {
                            assert(self.basin(bdd_valuations(result@[found.len() as int])).contains(
                                v,
                            ));
                        }
                    } else {
                        let i = choose|i: int|
                            0 <= i < found.len() && self.basin(
                                bdd_valuations(#[trigger] found[i]),
                            ).contains(v);
                        assert(result@[i] == found[i]);
                    }
                }
                assert forall|i: int| 0 <= i < result@.len() implies self.is_colored_set(
                    #[trigger] result@[i],
                ) && self.forward_closed(bdd_valuations(result@[i])) && !(bdd_valuations(
                    result@[i],
                ) =~= Set::<Seq<bool>>::empty()) && bdd_valuations(result@[i]).subset_of(
                    self.reachable(whole),
                ) && bdd_valuations(result@[i]).subset_of(
                    self.successors(bdd_valuations(result@[i])),
                ) by {
                    if i < found.len() {
                        assert(result@[i] == found[i]);
                    }
                }
                assert forall|i: int| 0 <= i < result@.len() implies self.is_connected(
                    bdd_valuations(#[trigger] result@[i]),
                ) by {
                    if i < found.len() {
                        assert(result@[i] == found[i]);
                    }
                }
            }
        }
        result
    }

    /// What is reachable from a part of a set is reachable from the set.
    pub proof fn lemma_reachable_within(&self, s: Set<Seq<bool>>, part: Set<Seq<bool>>)
        requires
            part.subset_of(s),
        ensures
            self.reachable(part).subset_of(self.reachable(s)),
    {
        assert forall|w: Seq<bool>| self.reachable(part).contains(w) implies self.reachable(
            s,
        ).contains(w) by {
            let k = choose|k: nat| self.iterate(part, k).contains(w);
            self.lemma_iterate_within(s, part, k);
            assert(self.iterate(s, k).contains(w));
        }
    }

    /// What `k` steps make of a part of a set they make of the set.
    pub proof fn lemma_iterate_within(&self, s: Set<Seq<bool>>, part: Set<Seq<bool>>, k: nat)
        requires
            part.subset_of(s),
        ensures
            self.iterate(part, k).subset_of(self.iterate(s, k)),
        decreases k,
    {
        if k > 0 {
            self.lemma_iterate_within(s, part, (k - 1) as nat);
            assert forall|w: Seq<bool>| self.iterate(part, k).contains(w) implies self.iterate(
                s,
                k,
            ).contains(w) by {
                let u = choose|u: Seq<bool>|
                    self.iterate(part, (k - 1) as nat).contains(u) && self.step(u, w);
                assert(self.iterate(s, (k - 1) as nat).contains(u));
            }
        }
    }

    /// The regions that the update cannot leave, over all states and all
    /// valid parametrizations.
    pub fn attractors(&self) -> (r: Vec<Bdd>)
        requires
            self.wf(),
        ensures
            forall|i: int|
                0 <= i < r@.len() ==> self.is_colored_set(#[trigger] r@[i]) && self.forward_closed(
                    bdd_valuations(r@[i]),
                ) && !(bdd_valuations(r@[i]) =~= Set::<Seq<bool>>::empty()) && bdd_valuations(
                    r@[i],
                ).subset_of(self.reachable(self.unit_set())) && bdd_valuations(r@[i]).subset_of(
                    self.successors(bdd_valuations(r@[i])),
                ),
            forall|i: int, j: int|
                0 <= i < j < r@.len() ==> bdd_valuations(#[trigger] r@[i]).disjoint(
                    bdd_valuations(#[trigger] r@[j]),
                ),
            forall|v: Seq<bool>| #[trigger]
                self.unit_set().contains(v) ==> exists|i: int|
                    0 <= i < r@.len() && self.basin(bdd_valuations(#[trigger] r@[i])).contains(v),
    {
        let unit = self.unit_colored_vertices();
        self.attractors_in(&unit)
    }
}

impl SymbSyncGraph {
    /// Two valuations hold the same state.
    pub open spec fn same_state(&self, x: Seq<bool>, y: Seq<bool>) -> bool {
        forall|i: int|
            0 <= i < self.size() ==> x[(#[trigger] self.state_vars()[i]) as int]
                == y[self.state_vars()[i] as int]
    }

    /// The positions that hold no state: the extra variables and the
    /// parametrization bits.
    pub open spec fn stateless(&self) -> Set<int> {
        index_set(self.extra_vars() + self.parameter_vars())
    }

    /// The states of the fixed points in `s`, each as the valuation that is
    /// `false` at every position that holds no state.
    pub open spec fn fixed_states(&self, s: Set<Seq<bool>>) -> Set<Seq<bool>> {
        project(self.fixed_points(s), self.stateless()).intersect(
            false_outside(index_set(self.state_vars()), self.width()),
        )
    }

    /// `regions` holds the fixed points in `s`, one region for each state
    /// that is a fixed point under some parametrization, with all the
    /// parametrizations under which it is one.
    pub open spec fn is_fixed_point_split(&self, regions: Seq<Bdd>, s: Set<Seq<bool>>) -> bool {
        exists|states: Seq<Seq<bool>>|
            {
                &&& states.no_duplicates()
                &&& states.to_set() == self.fixed_states(s)
                &&& #[trigger] states.len() == regions.len()
                &&& forall|k: int|
                    0 <= k < regions.len() ==> self.is_colored_set(#[trigger] regions[k])
                        && bdd_valuations(regions[k]) == Set::new(
                        |x: Seq<bool>|
                            self.fixed_points(s).contains(x) && self.same_state(x, states[k]),
                    )
            }
    }

    /// Intersecting with the transition relation and the mirror relation and
    /// forgetting the extra variables yields the fixed points.
    pub proof fn lemma_fixed(&self, s: Set<Seq<bool>>)
        requires
            self.wf(),
            s.subset_of(valuation_space(self.width())),
            ignores(s, self.scratch()),
        ensures
            project(
                s.intersect(
                    transition_of(
                        self.rule_sets(),
                        self.extra_vars(),
                        self.width(),
                        self.size() as int,
                    ),
                ).intersect(
                    mirror_of(
                        self.state_vars(),
                        self.extra_vars(),
                        self.width(),
                        self.size() as int,
                    ),
                ),
                self.scratch(),
            ) == self.fixed_points(s),
            ignores(self.fixed_points(s), self.scratch()),
    {
        self.lemma_positions();
        self.lemma_wf();
        let n = self.size() as int;
        let width = self.width();
        let ex = self.scratch();
        let t_set = transition_of(self.rule_sets(), self.extra_vars(), width, n);
        let q_set = mirror_of(self.state_vars(), self.extra_vars(), width, n);
        let left = project(s.intersect(t_set).intersect(q_set), ex);
        let right = self.fixed_points(s);
        assert forall|x: Seq<bool>| left.contains(x) implies right.contains(x) by {
            let y = choose|y: Seq<bool>|
                s.intersect(t_set).intersect(q_set).contains(y) && agree_outside(y, x, ex);
            assert(valuation_space(width).contains(y));
            assert(s.contains(x));
            assert forall|i: int| 0 <= i < n implies x[self.state_vars()[i] as int] == (
            #[trigger] self.rule_sets()[i]).contains(x) by {
                self.lemma_state_position(i);
                assert(y[(self.extra_vars()[i]) as int] == y[self.state_vars()[i] as int]);
                assert(y[self.extra_vars()[i] as int] == self.rule_sets()[i].contains(y));
                assert(ignores(self.rule_sets()[i], ex));
                if self.rule_sets()[i].contains(x) {
                    assert(agree_outside(x, y, ex));
                }
            }
            assert(self.step(x, x));
        }
        assert forall|x: Seq<bool>| right.contains(x) implies left.contains(x) by {
            assert(valuation_space(width).contains(x));
            let y = self.with_next(x);
            self.lemma_with_next(x);
            assert(s.contains(y));
            assert forall|i: int| 0 <= i < n implies y[(#[trigger] self.extra_vars()[i]) as int]
                == y[self.state_vars()[i] as int] by {
                self.lemma_state_position(i);
                assert(y[self.extra_vars()[i] as int] == self.rule_sets()[i].contains(y));
                assert(ignores(self.rule_sets()[i], ex));
                if self.rule_sets()[i].contains(x) {
                    assert(agree_outside(x, y, ex));
                }
                assert(x[self.state_vars()[i] as int] == self.rule_sets()[i].contains(x));
            }
            assert(s.intersect(t_set).intersect(q_set).contains(y));
        }
        assert(left =~= right);
        crate::bdd::lemma_project_forgets(s.intersect(t_set).intersect(q_set), ex);
    }

    /// The fixed points in `set`, one region for each state that is a fixed
    /// point under some parametrization of `set`.
    pub fn fixed_point_attractors_in(&self, set: &Bdd) -> (r: Vec<Bdd>)
        requires
            self.wf(),
            self.is_colored_set(*set),
        ensures
            self.is_fixed_point_split(r@, bdd_valuations(*set)),
    {
        let ghost whole = bdd_valuations(*set);
        let ghost fixed = self.fixed_points(whole);
        proof {
            self.lemma_positions();
            self.lemma_fixed(whole);
        }
        let met = bdd_and(set, self.total_update());
        let still = bdd_and(&met, self.mirror());
        let attrs = bdd_exists(&still, self.extra_variables());
        let mut stateless: Vec<usize> = Vec::new();
        let mut i: usize = 0;
        while i < self.extra_variables().len()
            invariant
                self.wf(),
                i <= self.extra_vars().len(),
                stateless@ == self.extra_vars().subrange(0, i as int),
            decreases self.extra_vars().len() - i,
        {
            stateless.push(self.extra_variables()[i]);
            assert(stateless@ =~= self.extra_vars().subrange(0, i + 1));
            i = i + 1;
        }
        assert(stateless@ =~= self.extra_vars());
        let mut k: usize = 0;
        while k < self.parameter_variables().len()
            invariant
                self.wf(),
                k <= self.parameter_vars().len(),
                stateless@ == self.extra_vars() + self.parameter_vars().subrange(0, k as int),
            decreases self.parameter_vars().len() - k,
        {
            stateless.push(self.parameter_variables()[k]);
            assert(stateless@ =~= self.extra_vars() + self.parameter_vars().subrange(0, k + 1));
            k = k + 1;
        }
        proof {
            assert(stateless@ =~= self.extra_vars() + self.parameter_vars());
            assert forall|j: int| 0 <= j < stateless@.len() implies stateless@[j] < self.width() by {
                if j < self.extra_vars().len() {
                    assert(stateless@[j] == self.extra_vars()[j]);
                } else {
                    assert(stateless@[j] == self.parameter_vars()[j - self.extra_vars().len()]);
                }
            }
        }
        let states_only = bdd_exists(&attrs, &stateless);
        let others_false = bdd_exists(self.get_all_false(), self.state_variables());
        let told_apart = bdd_and(&states_only, &others_false);
        let chosen = bdd_sat_valuations(&told_apart);
        proof {
            lemma_project_all_false(index_set(self.state_vars()), self.width());
            assert(bdd_valuations(told_apart) =~= self.fixed_states(whole));
        }
        let ghost list = chosen.deep_view();
        let mut regions: Vec<Bdd> = Vec::new();
        let mut at: usize = 0;
        while at < chosen.len()
            invariant
                at <= chosen@.len(),
                self.wf(),
                list == chosen.deep_view(),
                list.to_set() == self.fixed_states(whole),
                fixed == self.fixed_points(whole),
                bdd_over(attrs, self.width()),
                bdd_valuations(attrs) == fixed,
                ignores(fixed, self.scratch()),
                regions@.len() == at,
                forall|j: int|
                    0 <= j < regions@.len() ==> self.is_colored_set(#[trigger] regions@[j])
                        && bdd_valuations(regions@[j]) == Set::new(
                        |x: Seq<bool>| fixed.contains(x) && self.same_state(x, list[j]),
                    ),
            decreases chosen@.len() - at,
        {
            proof {
                assert(list[at as int] == chosen@[at as int]@);
                assert(list.to_set().contains(list[at as int]));
            }
            let region = self.with_state(&attrs, &chosen[at]);
            regions.push(region);
            at = at + 1;
        }
        proof {
            assert(list.len() == regions@.len());
        }
        regions
    }

    /// The members of `set` that hold the state of `state`.
    fn with_state(&self, set: &Bdd, state: &Vec<bool>) -> (r: Bdd)
        requires
            self.wf(),
            self.is_colored_set(*set),
            state@.len() == self.width(),
        ensures
            self.is_colored_set(r),
            bdd_valuations(r) == Set::new(
                |x: Seq<bool>| bdd_valuations(*set).contains(x) && self.same_state(x, state@),
            ),
    {
        let ghost whole = bdd_valuations(*set);
        let mut acc = bdd_clone(set);
        let mut i: usize = 0;
        proof {
            self.lemma_positions();
        }
        while i < self.state_variables().len()
            invariant
                self.wf(),
                i <= self.size(),
                state@.len() == self.width(),
                whole == bdd_valuations(*set),
                self.is_colored_set(*set),
                bdd_over(acc, self.width()),
                bdd_valuations(acc) == Set::new(
                    |x: Seq<bool>|
                        whole.contains(x) && forall|j: int|
                            0 <= j < i ==> x[(#[trigger] self.state_vars()[j]) as int]
                                == state@[self.state_vars()[j] as int],
                ),
            decreases self.size() - i,
        {
            let var = self.state_variables()[i];
            let ghost before = bdd_valuations(acc);
            acc = bdd_var_select(&acc, var, state[var]);
            proof {
                let after = Set::new(
                    |x: Seq<bool>|
                        whole.contains(x) && forall|j: int|
                            0 <= j < i + 1 ==> x[(#[trigger] self.state_vars()[j]) as int]
                                == state@[self.state_vars()[j] as int],
                );
                assert forall|x: Seq<bool>| bdd_valuations(acc).contains(x) implies after.contains(
                    x,
                ) by {
                    assert(before.contains(x));
                }
                assert forall|x: Seq<bool>| after.contains(x) implies bdd_valuations(acc).contains(
                    x,
                ) by {
                    assert(x[(self.state_vars()[i as int]) as int]
                        == state@[self.state_vars()[i as int] as int]);
                    assert(before.contains(x));
                }
                assert(bdd_valuations(acc) =~= after);
            }
            i = i + 1;
        }
        proof {
            let target = Set::new(
                |x: Seq<bool>| whole.contains(x) && self.same_state(x, state@),
            );
            assert(bdd_valuations(acc) =~= target);
            assert forall|u: Seq<bool>, v: Seq<bool>|
                target.contains(u) && #[trigger] agree_outside(
                    u,
                    v,
                    self.scratch(),
                ) implies target.contains(v) by {
                assert forall|j: int| 0 <= j < self.size() implies v[(
                #[trigger] self.state_vars()[j]) as int] == state@[self.state_vars()[j] as int] by {
                    self.lemma_state_position(j);
                }
            }
        }
        acc
    }

    /// A position that is no state variable is an extra variable or a
    /// parametrization bit, and a state variable is neither.
    pub proof fn lemma_stateless(&self, j: int)
        requires
            self.wf(),
            0 <= j < self.width(),
        ensures
            self.stateless().contains(j) <==> !index_set(self.state_vars()).contains(j),
    {
        self.lemma_positions();
        let both = self.extra_vars() + self.parameter_vars();
        let n = self.extra_vars().len() as int;
        if self.stateless().contains(j) {
            let k = choose|k: int| 0 <= k < both.len() && both[k] == j;
            if index_set(self.state_vars()).contains(j) {
                let i = choose|i: int| 0 <= i < self.state_vars().len() && self.state_vars()[i] == j;
                if k < n {
                    assert(both[k] == self.extra_vars()[k]);
                    assert(self.state_vars()[i] != self.extra_vars()[k]);
                } else {
                    assert(both[k] == self.parameter_vars()[k - n]);
                    assert(self.state_vars()[i] != self.parameter_vars()[k - n]);
                }
            }
        } else if !index_set(self.state_vars()).contains(j) {
            if self.scratch().contains(j) {
                let k = choose|k: int| 0 <= k < self.extra_vars().len() && self.extra_vars()[k] == j;
                assert(both[k] == j);
            } else {
                assert(index_set(self.parameter_vars()).contains(j));
                let k = choose|k: int|
                    0 <= k < self.parameter_vars().len() && self.parameter_vars()[k] == j;
                assert(both[n + k] == j);
            }
        }
    }

    /// The regions of a split of the fixed points hold fixed points only,
    /// none of them is empty, no two of them share a pair, and every fixed
    /// point is in one of them.
    pub proof fn lemma_fixed_point_split(&self, regions: Seq<Bdd>, s: Set<Seq<bool>>)
        requires
            self.wf(),
            s.subset_of(valuation_space(self.width())),
            self.is_fixed_point_split(regions, s),
        ensures
            forall|k: int|
                0 <= k < regions.len() ==> bdd_valuations(#[trigger] regions[k]).subset_of(
                    self.fixed_points(s),
                ) && bdd_valuations(regions[k]) != Set::<Seq<bool>>::empty(),
            forall|k: int, l: int|
                0 <= k < l < regions.len() ==> bdd_valuations(#[trigger] regions[k]).disjoint(
                    bdd_valuations(#[trigger] regions[l]),
                ),
            forall|x: Seq<bool>| #[trigger]
                self.fixed_points(s).contains(x) ==> exists|k: int|
                    0 <= k < regions.len() && bdd_valuations(#[trigger] regions[k]).contains(x),
    {
        self.lemma_positions();
        let fixed = self.fixed_points(s);
        let width = self.width();
        let states = choose|states: Seq<Seq<bool>>|
            {
                &&& states.no_duplicates()
                &&& states.to_set() == self.fixed_states(s)
                &&& #[trigger] states.len() == regions.len()
                &&& forall|k: int|
                    0 <= k < regions.len() ==> self.is_colored_set(#[trigger] regions[k])
                        && bdd_valuations(regions[k]) == Set::new(
                        |x: Seq<bool>| fixed.contains(x) && self.same_state(x, states[k]),
                    )
            };
        assert forall|k: int| 0 <= k < regions.len() implies bdd_valuations(
            #[trigger] regions[k],
        ).subset_of(fixed) && bdd_valuations(regions[k]) != Set::<Seq<bool>>::empty() by {
            assert(states.to_set().contains(states[k]));
            let u = choose|u: Seq<bool>|
                fixed.contains(u) && agree_outside(u, states[k], self.stateless());
            assert forall|i: int| 0 <= i < self.size() implies u[(
            #[trigger] self.state_vars()[i]) as int] == states[k][self.state_vars()[i] as int] by {
                self.lemma_stateless(self.state_vars()[i] as int);
            }
            assert(bdd_valuations(regions[k]).contains(u));
        }
        assert forall|k: int, l: int| 0 <= k < l < regions.len() implies bdd_valuations(
            #[trigger] regions[k],
        ).disjoint(bdd_valuations(#[trigger] regions[l])) by {
            if exists|x: Seq<bool>|
                bdd_valuations(regions[k]).contains(x) && bdd_valuations(regions[l]).contains(x) {
                let x = choose|x: Seq<bool>|
                    bdd_valuations(regions[k]).contains(x) && bdd_valuations(regions[l]).contains(
                        x,
                    );
                assert(states.to_set().contains(states[k]));
                assert(states.to_set().contains(states[l]));
                assert forall|j: int| 0 <= j < width implies states[k][j] == states[l][j] by {
                    self.lemma_stateless(j);
                    if index_set(self.state_vars()).contains(j) {
                        let i = choose|i: int|
                            0 <= i < self.state_vars().len() && self.state_vars()[i] == j;
                        assert(x[self.state_vars()[i] as int]
                            == states[k][self.state_vars()[i] as int]);
                        assert(x[self.state_vars()[i] as int]
                            == states[l][self.state_vars()[i] as int]);
                    }
                }
                assert(states[k] =~= states[l]);
            }
        }
        assert forall|x: Seq<bool>| #[trigger] fixed.contains(x) implies exists|k: int|
            0 <= k < regions.len() && bdd_valuations(#[trigger] regions[k]).contains(x) by {
            let p = Seq::new(
                width,
                |j: int|
                    if index_set(self.state_vars()).contains(j) {
                        x[j]
                    } else {
                        false
                    },
            );
            assert(valuation_space(width).contains(x));
            assert forall|j: int| 0 <= j < x.len() && !self.stateless().contains(j) implies
                #[trigger] x[j] == p[j] by {
                self.lemma_stateless(j);
            }
            assert(agree_outside(x, p, self.stateless()));
            assert(self.fixed_states(s).contains(p));
            assert(states.to_set().contains(p));
            let k = choose|k: int| 0 <= k < states.len() && states[k] == p;
            assert forall|i: int| 0 <= i < self.size() implies x[(
            #[trigger] self.state_vars()[i]) as int] == states[k][self.state_vars()[i] as int] by {
                assert(index_set(self.state_vars()).contains(self.state_vars()[i] as int));
            }
            assert(bdd_valuations(regions[k]).contains(x));
        }
    }

    /// The fixed points over all states and all valid parametrizations.
    pub fn fixed_point_attractors(&self) -> (r: Vec<Bdd>)
        requires
            self.wf(),
        ensures
            self.is_fixed_point_split(r@, self.unit_set()),
    {
        let unit = self.unit_colored_vertices();
        self.fixed_point_attractors_in(&unit)
    }
}

impl SymbSyncGraph {
    /// The positions of the state variables.
    pub open spec fn state_positions(&self) -> Set<int> {
        index_set(self.state_vars())
    }

    /// The positions of the parametrization bits.
    pub open spec fn parameter_positions(&self) -> Set<int> {
        index_set(self.parameter_vars())
    }

    /// Two valuations of the graph's width that differ at most in the state
    /// hold the same color; two that differ at most in the color or in the
    /// extra variables hold the same state; and two that differ at most in
    /// the extra variables hold the same color too.
    pub proof fn lemma_same_parts(&self, x: Seq<bool>, y: Seq<bool>)
        requires
            self.wf(),
            x.len() == self.width(),
            y.len() == self.width(),
        ensures
            agree_outside(x, y, self.state_positions()) ==> self.same_color(x, y),
            agree_outside(x, y, self.scratch()) ==> self.same_color(x, y) && self.same_vertex(x, y),
            agree_outside(x, y, self.parameter_positions()) ==> self.same_vertex(x, y),
            agree_outside(x, y, self.parameter_positions().union(self.scratch()))
                ==> self.same_vertex(x, y),
    {
        self.lemma_positions();
        if agree_outside(x, y, self.state_positions()) || agree_outside(x, y, self.scratch()) {
            assert forall|k: int| 0 <= k < self.parameter_vars().len() implies x[(
            #[trigger] self.parameter_vars()[k]) as int] == y[self.parameter_vars()[k] as int] by {
                self.lemma_parameter_position(k);
            }
        }
        if agree_outside(x, y, self.parameter_positions()) || agree_outside(x, y, self.scratch())
            || agree_outside(x, y, self.parameter_positions().union(self.scratch())) {
            assert forall|i: int| 0 <= i < self.state_vars().len() implies x[(
            #[trigger] self.state_vars()[i]) as int] == y[self.state_vars()[i] as int] by {
                self.lemma_state_not_parameter(i);
            }
        }
    }

    /// A state variable is no parametrization bit and no extra variable.
    pub proof fn lemma_state_not_parameter(&self, i: int)
        requires
            self.wf(),
            0 <= i < self.state_vars().len(),
        ensures
            self.state_vars()[i] < self.width(),
            !self.parameter_positions().contains(self.state_vars()[i] as int),
            !self.scratch().contains(self.state_vars()[i] as int),
            !self.parameter_positions().union(self.scratch()).contains(self.state_vars()[i] as int),
    {
        self.lemma_positions();
        self.lemma_wf();
        self.lemma_slot(i);
        let s = self.state_vars()[i];
        if self.parameter_positions().contains(s as int) {
            let k = choose|k: int|
                0 <= k < self.parameter_vars().len() && self.parameter_vars()[k] == s;
            assert(self.state_vars()[i] != self.parameter_vars()[k]);
        }
    }

    /// The color of a pair of `whole` shows among the colors of the pairs of
    /// `whole` with a state of `wanted`, if `wanted` holds a state that
    /// `whole` has under that color.
    proof fn lemma_color_reaches(
        &self,
        whole: Set<Seq<bool>>,
        every: Set<Seq<bool>>,
        w: Seq<bool>,
        a: Seq<bool>,
        wanted: Set<Seq<bool>>,
    )
        requires
            self.wf(),
            whole.subset_of(valuation_space(self.width())),
            ignores(whole, self.scratch()),
            whole.contains(a),
            self.same_color(a, w),
            wanted != Set::<Seq<bool>>::empty(),
            wanted.subset_of(
                project(whole.intersect(self.color_of(every, w)), self.parameter_positions()),
            ),
            ignores(wanted, self.parameter_positions().union(self.scratch())),
        ensures
            project(whole.intersect(wanted), self.state_positions()).contains(a),
    {
        self.lemma_positions();
        let st = self.state_positions();
        let pr = self.parameter_positions();
        let ex = self.scratch();
        let rest = pr.union(ex);
        if forall|s: Seq<bool>| !wanted.contains(s) {
            assert(wanted =~= Set::<Seq<bool>>::empty());
        }
        let s = choose|s: Seq<bool>| wanted.contains(s);
        let d = choose|d: Seq<bool>|
            whole.intersect(self.color_of(every, w)).contains(d) && agree_outside(d, s, pr);
        assert(valuation_space(self.width()).contains(d));
        assert(valuation_space(self.width()).contains(a));
        let e = Seq::new(
            a.len(),
            |j: int|
                if st.contains(j) {
                    s[j]
                } else {
                    a[j]
                },
        );
        assert forall|j: int| 0 <= j < d.len() && !ex.contains(j) implies #[trigger] d[j] == e[j] by {
            if st.contains(j) {
                let i = choose|i: int| 0 <= i < self.state_vars().len() && self.state_vars()[i] == j;
                self.lemma_state_not_parameter(i);
            } else {
                assert(pr.contains(j));
                let k = choose|k: int|
                    0 <= k < self.parameter_vars().len() && self.parameter_vars()[k] == j;
                assert(d[self.parameter_vars()[k] as int] == w[self.parameter_vars()[k] as int]);
                assert(a[self.parameter_vars()[k] as int] == w[self.parameter_vars()[k] as int]);
            }
        }
        assert(agree_outside(d, e, ex));
        assert(whole.contains(e));
        assert forall|j: int| 0 <= j < s.len() && !rest.contains(j) implies #[trigger] s[j]
            == e[j] by {
            assert(st.contains(j));
        }
        assert(agree_outside(s, e, rest));
        assert(wanted.contains(e));
        assert(agree_outside(e, a, st));
        assert(whole.intersect(wanted).contains(e));
    }

    /// The members of a set of the graph's width that hold the color, or the
    /// state, of a valuation ignore what the set ignores beside the color,
    /// or beside the state.
    proof fn lemma_parts_ignore(&self, s: Set<Seq<bool>>, witness: Seq<bool>)
        requires
            self.wf(),
            s.subset_of(valuation_space(self.width())),
        ensures
            ignores(s, self.scratch()) ==> ignores(self.color_of(s, witness), self.scratch())
                && ignores(self.vertex_of(s, witness), self.scratch()),
            ignores(s, self.parameter_positions().union(self.scratch())) ==> ignores(
                self.vertex_of(s, witness),
                self.parameter_positions().union(self.scratch()),
            ),
    {
        let ex = self.scratch();
        let rest = self.parameter_positions().union(self.scratch());
        if ignores(s, ex) {
            assert forall|u: Seq<bool>, v: Seq<bool>|
                self.color_of(s, witness).contains(u) && #[trigger] agree_outside(
                    u,
                    v,
                    ex,
                ) implies self.color_of(s, witness).contains(v) by {
                assert(valuation_space(self.width()).contains(u));
                self.lemma_same_parts(u, v);
            }
            assert forall|u: Seq<bool>, v: Seq<bool>|
                self.vertex_of(s, witness).contains(u) && #[trigger] agree_outside(
                    u,
                    v,
                    ex,
                ) implies self.vertex_of(s, witness).contains(v) by {
                assert(valuation_space(self.width()).contains(u));
                self.lemma_same_parts(u, v);
            }
        }
        if ignores(s, rest) {
            assert forall|u: Seq<bool>, v: Seq<bool>|
                self.vertex_of(s, witness).contains(u) && #[trigger] agree_outside(
                    u,
                    v,
                    rest,
                ) implies self.vertex_of(s, witness).contains(v) by {
                assert(valuation_space(self.width()).contains(u));
                self.lemma_same_parts(u, v);
            }
        }
    }

    /// A pair of `whole` with the color of `w` holds one of the states that
    /// `whole` has under that color.
    proof fn lemma_color_chosen(&self, whole: Set<Seq<bool>>, w: Seq<bool>, b: Seq<bool>)
        requires
            whole.contains(b),
            self.same_color(b, w),
        ensures
            project(
                whole.intersect(self.color_of(project(whole, self.state_positions()), w)),
                self.parameter_positions(),
            ).contains(b),
    {
        let every = project(whole, self.state_positions());
        lemma_in_project(whole, self.state_positions(), b);
        assert(self.color_of(every, w).contains(b));
        lemma_in_project(
            whole.intersect(self.color_of(every, w)),
            self.parameter_positions(),
            b,
        );
    }

    /// The valuation `x` with the extra variables of `v`.
    pub open spec fn moved(&self, x: Seq<bool>, v: Seq<bool>) -> Seq<bool> {
        Seq::new(
            x.len(),
            |j: int|
                if self.scratch().contains(j) {
                    v[j]
                } else {
                    x[j]
                },
        )
    }

    /// A valuation with the extra variables of another differs from it only
    /// in the color if the two hold the same state, and only in the state if
    /// they hold the same color.
    pub proof fn lemma_moved(&self, x: Seq<bool>, v: Seq<bool>)
        requires
            self.wf(),
            x.len() == self.width(),
            v.len() == self.width(),
        ensures
            self.moved(x, v).len() == self.width(),
            agree_outside(x, self.moved(x, v), self.scratch()),
            self.same_vertex(x, v) ==> agree_outside(
                self.moved(x, v),
                v,
                self.parameter_positions(),
            ),
            self.same_color(x, v) ==> agree_outside(self.moved(x, v), v, self.state_positions()),
    {
        self.lemma_positions();
        let u = self.moved(x, v);
        if self.same_vertex(x, v) {
            assert forall|j: int|
                0 <= j < u.len() && !self.parameter_positions().contains(j) implies #[trigger] u[j]
                == v[j] by {
                if !self.scratch().contains(j) {
                    assert(index_set(self.state_vars()).contains(j));
                    let i = choose|i: int|
                        0 <= i < self.state_vars().len() && self.state_vars()[i] == j;
                    assert(x[self.state_vars()[i] as int] == v[self.state_vars()[i] as int]);
                }
            }
        }
        if self.same_color(x, v) {
            assert forall|j: int|
                0 <= j < u.len() && !self.state_positions().contains(j) implies #[trigger] u[j]
                == v[j] by {
                if !self.scratch().contains(j) {
                    assert(index_set(self.parameter_vars()).contains(j));
                    let k = choose|k: int|
                        0 <= k < self.parameter_vars().len() && self.parameter_vars()[k] == j;
                    assert(x[self.parameter_vars()[k] as int] == v[self.parameter_vars()[k] as int]);
                }
            }
        }
    }

    /// The states that `region` has under the color of `c`, with whatever
    /// color and extra variables.
    pub open spec fn states_under(&self, region: Set<Seq<bool>>, c: Seq<bool>) -> Set<Seq<bool>> {
        Set::new(
            |v: Seq<bool>|
                v.len() == self.width() && exists|x: Seq<bool>|
                    region.contains(x) && self.same_color(x, c) && #[trigger] self.same_vertex(x, v),
        )
    }

    /// The region has the color of `c`, and under it states of `states`
    /// only.
    #[verifier::opaque]
    pub open spec fn keeps_within(
        &self,
        region: Set<Seq<bool>>,
        c: Seq<bool>,
        states: Set<Seq<bool>>,
    ) -> bool {
        &&& exists|x: Seq<bool>| region.contains(x) && #[trigger] self.same_color(x, c)
        &&& forall|x: Seq<bool>|
            region.contains(x) && #[trigger] self.same_color(x, c) ==> states.contains(x)
    }

    /// What is left of the pairs of `whole` with the color of `w` when the
    /// parametrization is forgotten is the states that `whole` has under
    /// the color of a pair `a` of that color.
    proof fn lemma_fate_states(&self, whole: Set<Seq<bool>>, w: Seq<bool>, a: Seq<bool>)
        requires
            self.wf(),
            whole.subset_of(valuation_space(self.width())),
            ignores(whole, self.scratch()),
            self.same_color(a, w),
        ensures
            project(
                whole.intersect(self.color_of(project(whole, self.state_positions()), w)),
                self.parameter_positions(),
            ) == self.states_under(whole, a),
    {
        let st = self.state_positions();
        let pr = self.parameter_positions();
        let every = project(whole, st);
        let of_color = whole.intersect(self.color_of(every, w));
        assert forall|v: Seq<bool>| project(of_color, pr).contains(v) <==> self.states_under(
            whole,
            a,
        ).contains(v) by {
            if project(of_color, pr).contains(v) {
                let u = choose|u: Seq<bool>| of_color.contains(u) && agree_outside(u, v, pr);
                assert(valuation_space(self.width()).contains(u));
                self.lemma_same_parts(u, v);
                self.lemma_same_color(a, w, w);
                self.lemma_same_color(u, w, a);
                assert(whole.contains(u) && self.same_color(u, a) && self.same_vertex(u, v));
            }
            if self.states_under(whole, a).contains(v) {
                let x = choose|x: Seq<bool>|
                    whole.contains(x) && self.same_color(x, a) && #[trigger] self.same_vertex(x, v);
                assert(valuation_space(self.width()).contains(x));
                self.lemma_moved(x, v);
                let u = self.moved(x, v);
                assert(whole.contains(u));
                self.lemma_same_parts(x, u);
                self.lemma_same_color(x, u, u);
                self.lemma_same_color(u, x, a);
                self.lemma_same_color(u, a, w);
                lemma_in_project(whole, st, u);
                assert(self.color_of(every, w).contains(u));
                assert(of_color.contains(u) && agree_outside(u, v, pr));
            }
        }
        assert(project(of_color, pr) =~= self.states_under(whole, a));
    }

    /// Under a color that only has states of `chosen`, `whole` holds
    /// states of `chosen` only.
    proof fn lemma_kept_within(&self, whole: Set<Seq<bool>>, chosen: Set<Seq<bool>>, c: Seq<bool>)
        requires
            self.wf(),
            whole.subset_of(valuation_space(self.width())),
            ignores(whole, self.scratch()),
            ignores(chosen, self.scratch()),
            self.colors_within(whole, chosen).contains(c),
        ensures
            self.keeps_within(whole, c, chosen),
    {
        reveal(SymbSyncGraph::keeps_within);
        let st = self.state_positions();
        let pr = self.parameter_positions();
        let other = project(whole, pr).difference(chosen);
        let lost = project(whole.intersect(other), st);
        let first = choose|x: Seq<bool>| whole.contains(x) && agree_outside(x, c, st);
        assert(valuation_space(self.width()).contains(first));
        self.lemma_same_parts(first, c);
        assert(whole.contains(first) && self.same_color(first, c));
        assert forall|y: Seq<bool>| whole.contains(y) && #[trigger] self.same_color(
            y,
            c,
        ) implies chosen.contains(y) by {
            if !chosen.contains(y) {
                assert(valuation_space(self.width()).contains(y));
                self.lemma_moved(y, c);
                let b = self.moved(y, c);
                assert(whole.contains(b));
                lemma_in_project(whole, pr, b);
                assert(agree_outside(b, y, self.scratch())) by {
                    assert(agree_outside(y, b, self.scratch()));
                }
                assert(!chosen.contains(b));
                assert(whole.intersect(other).contains(b) && agree_outside(b, c, st));
                assert(lost.contains(c));
            }
        }
    }

    /// The colors of `whole` that only have states of `chosen`: those of
    /// `whole` without those that `whole` has with a state outside `chosen`.
    pub open spec fn colors_within(&self, whole: Set<Seq<bool>>, chosen: Set<Seq<bool>>) -> Set<
        Seq<bool>,
    > {
        project(whole, self.state_positions()).difference(
            project(
                whole.intersect(project(whole, self.parameter_positions()).difference(chosen)),
                self.state_positions(),
            ),
        )
    }

    /// A pair of `whole` with a color that only has states of `chosen` holds
    /// a state of `chosen`.
    proof fn lemma_within_chosen(&self, whole: Set<Seq<bool>>, chosen: Set<Seq<bool>>, x: Seq<bool>)
        requires
            whole.contains(x),
            self.colors_within(whole, chosen).contains(x),
        ensures
            chosen.contains(x),
    {
        if !chosen.contains(x) {
            lemma_in_project(whole, self.parameter_positions(), x);
            let other = project(whole, self.parameter_positions()).difference(chosen);
            assert(other.contains(x));
            lemma_in_project(whole.intersect(other), self.state_positions(), x);
        }
    }

    /// The color under which the states `chosen` were found only has states
    /// of `chosen`.
    proof fn lemma_color_within(&self, whole: Set<Seq<bool>>, w: Seq<bool>, a: Seq<bool>)
        requires
            self.wf(),
            whole.subset_of(valuation_space(self.width())),
            whole.contains(a),
            self.same_color(a, w),
        ensures
            self.colors_within(
                whole,
                project(
                    whole.intersect(self.color_of(project(whole, self.state_positions()), w)),
                    self.parameter_positions(),
                ),
            ).contains(a),
    {
        let st = self.state_positions();
        let pr = self.parameter_positions();
        let every = project(whole, st);
        let chosen = project(whole.intersect(self.color_of(every, w)), pr);
        let other = project(whole, pr).difference(chosen);
        let lost = project(whole.intersect(other), st);
        lemma_in_project(whole, st, a);
        if lost.contains(a) {
            let b = choose|b: Seq<bool>| whole.intersect(other).contains(b) && agree_outside(b, a, st);
            assert(valuation_space(self.width()).contains(b));
            assert(valuation_space(self.width()).contains(a));
            self.lemma_same_parts(b, a);
            assert(self.same_color(b, w)) by {
                assert forall|k: int| 0 <= k < self.parameter_vars().len() implies b[(
                #[trigger] self.parameter_vars()[k]) as int] == w[self.parameter_vars()[k] as int] by {
                    assert(a[self.parameter_vars()[k] as int]
                        == w[self.parameter_vars()[k] as int]);
                }
            }
            self.lemma_color_chosen(whole, w, b);
        }
    }

    /// The vertices and the colors of one fate within `attr`: the states
    /// that `attr` holds under one of its colors, and the colors of `attr`
    /// that hold states among these only, and the last of them that is
    /// looked at.
    fn one_fate(&self, attr: &Bdd) -> (r: (Bdd, Bdd))
        requires
            self.wf(),
            self.is_colored_set(*attr),
            !(bdd_valuations(*attr) =~= Set::<Seq<bool>>::empty()),
        ensures
            self.is_colored_set(r.0),
            self.is_colored_set(r.1),
            !(bdd_valuations(*attr).intersect(bdd_valuations(r.1)) =~= Set::<Seq<bool>>::empty()),
            bdd_valuations(*attr).intersect(bdd_valuations(r.1)).subset_of(bdd_valuations(r.0)),
            ignores(bdd_valuations(r.1), self.state_positions()),
            exists|a: Seq<bool>|
                bdd_valuations(*attr).contains(a) && bdd_valuations(r.1).contains(a)
                    && bdd_valuations(r.0) == #[trigger] self.states_under(bdd_valuations(*attr), a),
            forall|c: Seq<bool>| #[trigger]
                bdd_valuations(r.1).contains(c) ==> self.keeps_within(
                    bdd_valuations(*attr),
                    c,
                    bdd_valuations(r.0),
                ),
    {
        let ghost whole = bdd_valuations(*attr);
        let ghost st = self.state_positions();
        let ghost pr = self.parameter_positions();
        let ghost ex = self.scratch();
        let ghost rest = pr.union(ex);
        let all_colors = self.colors(attr);
        let color = self.pick_color(&all_colors);
        let ghost every = bdd_valuations(all_colors);
        proof {
            lemma_project_holds(whole, st);
            let x = choose|x: Seq<bool>| whole.contains(x);
            assert(whole.contains(x));
            assert(every.contains(x));
        }
        let ghost w = choose|w: Seq<bool>|
            #[trigger] every.contains(w) && bdd_valuations(color) == self.color_of(every, w);
        let ghost a = choose|a: Seq<bool>| whole.contains(a) && agree_outside(a, w, st);
        proof {
            self.lemma_parts_ignore(every, w);
            assert(valuation_space(self.width()).contains(a));
            assert(valuation_space(self.width()).contains(w));
            self.lemma_same_parts(a, w);
            self.lemma_color_within(whole, w, a);
        }
        let of_color = bdd_and(attr, &color);
        proof {
            lemma_ignores_combined(whole, bdd_valuations(color), ex);
        }
        let mut wanted_vertices = self.vertices(&of_color);
        let one_attr_vertices = bdd_clone(&wanted_vertices);
        let all_vertices = self.vertices(attr);
        let other_vertices = bdd_and_not(&all_vertices, &one_attr_vertices);
        proof {
            lemma_ignores_combined(
                bdd_valuations(all_vertices),
                bdd_valuations(one_attr_vertices),
                ex,
            );
        }
        let in_other = bdd_and(attr, &other_vertices);
        proof {
            lemma_ignores_combined(whole, bdd_valuations(other_vertices), ex);
        }
        let lost_colors = self.colors(&in_other);
        let mut one_attr_colors = bdd_and_not(&all_colors, &lost_colors);
        let ghost chosen = bdd_valuations(one_attr_vertices);
        let ghost first = bdd_valuations(one_attr_colors);
        proof {
            lemma_ignores_combined(every, bdd_valuations(lost_colors), ex);
            lemma_project_forgets(bdd_valuations(of_color), pr);
            lemma_ignores_both(chosen, pr, ex);
            assert(first == self.colors_within(whole, chosen));
            lemma_project_forgets(whole, st);
            lemma_project_forgets(bdd_valuations(in_other), st);
            lemma_ignores_combined(every, bdd_valuations(lost_colors), st);
        }
        while !bdd_is_false(&wanted_vertices)
            invariant
                self.wf(),
                self.is_colored_set(*attr),
                whole == bdd_valuations(*attr),
                st == self.state_positions(),
                pr == self.parameter_positions(),
                ex == self.scratch(),
                rest == pr.union(ex),
                self.is_colored_set(wanted_vertices),
                self.is_colored_set(one_attr_colors),
                ignores(bdd_valuations(one_attr_colors), st),
                ignores(bdd_valuations(wanted_vertices), rest),
                bdd_valuations(wanted_vertices).subset_of(chosen),
                chosen == project(whole.intersect(self.color_of(every, w)), pr),
                bdd_valuations(one_attr_colors).subset_of(first),
                first == self.colors_within(whole, chosen),
                bdd_valuations(one_attr_colors).contains(a),
                whole.contains(a),
                self.same_color(a, w),
            decreases bdd_valuations(wanted_vertices).len(),
        {
            let ghost wanted = bdd_valuations(wanted_vertices);
            let one_attr_vertex = self.pick_state(&wanted_vertices);
            let in_wanted = bdd_and(attr, &wanted_vertices);
            proof {
                lemma_ignores_combined(whole, wanted, ex);
            }
            let their_colors = self.colors(&in_wanted);
            proof {
                self.lemma_color_reaches(whole, every, w, a, wanted);
                let picked = bdd_valuations(one_attr_vertex);
                let witness = choose|witness: Seq<bool>|
                    #[trigger] wanted.contains(witness) && picked == self.vertex_of(wanted, witness);
                assert(wanted.intersect(picked).contains(witness));
                lemma_difference_shrinks(wanted, picked, self.width());
                self.lemma_parts_ignore(wanted, witness);
                lemma_ignores_combined(wanted, picked, rest);
                lemma_ignores_combined(wanted, picked, ex);
                lemma_ignores_combined(
                    bdd_valuations(one_attr_colors),
                    bdd_valuations(their_colors),
                    ex,
                );
                lemma_project_forgets(bdd_valuations(in_wanted), st);
                lemma_ignores_combined(
                    bdd_valuations(one_attr_colors),
                    bdd_valuations(their_colors),
                    st,
                );
            }
            one_attr_colors = bdd_and(&one_attr_colors, &their_colors);
            wanted_vertices = bdd_and_not(&wanted_vertices, &one_attr_vertex);
        }
        proof {
            assert(whole.intersect(bdd_valuations(one_attr_colors)).contains(a));
            assert forall|x: Seq<bool>|
                whole.intersect(bdd_valuations(one_attr_colors)).contains(x) implies chosen.contains(
                x,
            ) by {
                self.lemma_within_chosen(whole, chosen, x);
            }
            self.lemma_fate_states(whole, w, a);
            assert(chosen == self.states_under(whole, a));
            assert forall|c: Seq<bool>| #[trigger]
                bdd_valuations(one_attr_colors).contains(c) implies self.keeps_within(
                whole,
                c,
                chosen,
            ) by {
                self.lemma_kept_within(whole, chosen, c);
            }
        }
        (one_attr_vertices, one_attr_colors)
    }
}

/// The pairs `part` hold, with each of their members, every member of
/// `whole` of the same color.
pub open spec fn is_color_closed(
    sync_graph: SymbSyncGraph,
    part: Set<Seq<bool>>,
    whole: Set<Seq<bool>>,
) -> bool {
    forall|x: Seq<bool>, y: Seq<bool>|
        #![trigger part.contains(x), whole.contains(y)]
        part.contains(x) && whole.contains(y) && sync_graph.same_color(x, y) ==> part.contains(y)
}

/// The entry stands for a fate: its vertices are the states that one of the
/// regions has under one of the colors of the entry, and under each color
/// of the entry one of the regions has states among them only.
pub open spec fn is_entry(sync_graph: SymbSyncGraph, attrs: Seq<Bdd>, entry: (Bdd, Bdd)) -> bool {
    &&& exists|i: int, a: Seq<bool>|
        #![trigger bdd_valuations(attrs[i]).contains(a)]
        0 <= i < attrs.len() && bdd_valuations(attrs[i]).contains(a) && bdd_valuations(
            entry.1,
        ).contains(a) && bdd_valuations(entry.0) == sync_graph.states_under(
            bdd_valuations(attrs[i]),
            a,
        )
    &&& forall|c: Seq<bool>| #[trigger]
        bdd_valuations(entry.1).contains(c) ==> has_fate(
            sync_graph,
            attrs,
            c,
            bdd_valuations(entry.0),
        )
}

/// Under the color of `c` one of the regions has states of `states` only.
pub open spec fn has_fate(
    sync_graph: SymbSyncGraph,
    attrs: Seq<Bdd>,
    c: Seq<bool>,
    states: Set<Seq<bool>>,
) -> bool {
    exists|i: int|
        0 <= i < attrs.len() && #[trigger] sync_graph.keeps_within(
            bdd_valuations(attrs[i]),
            c,
            states,
        )
}

/// What holds of a color-closed part of a region under a color holds of the
/// region: the part has all the states that the region has under any of
/// its colors.
pub proof fn lemma_closed_part(
    sync_graph: SymbSyncGraph,
    part: Set<Seq<bool>>,
    whole: Set<Seq<bool>>,
    c: Seq<bool>,
    states: Set<Seq<bool>>,
)
    requires
        part.subset_of(whole),
        is_color_closed(sync_graph, part, whole),
    ensures
        sync_graph.keeps_within(part, c, states) ==> sync_graph.keeps_within(whole, c, states),
        part.contains(c) ==> sync_graph.states_under(part, c) == sync_graph.states_under(whole, c),
{
    reveal(SymbSyncGraph::keeps_within);
    if sync_graph.keeps_within(part, c, states) {
        let first = choose|x: Seq<bool>| part.contains(x) && #[trigger] sync_graph.same_color(x, c);
        assert(whole.contains(first) && sync_graph.same_color(first, c));
        assert forall|y: Seq<bool>| whole.contains(y) && #[trigger] sync_graph.same_color(
            y,
            c,
        ) implies states.contains(y) by {
            sync_graph.lemma_same_color(y, c, c);
            sync_graph.lemma_same_color(first, c, y);
            assert(part.contains(first) && whole.contains(y));
            assert(part.contains(y));
        }
    }
    if part.contains(c) {
        assert forall|v: Seq<bool>| sync_graph.states_under(part, c).contains(v)
            <==> sync_graph.states_under(whole, c).contains(v) by {
            if sync_graph.states_under(whole, c).contains(v) {
                let x = choose|x: Seq<bool>|
                    whole.contains(x) && sync_graph.same_color(x, c)
                        && #[trigger] sync_graph.same_vertex(x, v);
                sync_graph.lemma_same_color(x, c, c);
                assert(part.contains(c) && whole.contains(x));
                assert(part.contains(x));
            }
            if sync_graph.states_under(part, c).contains(v) {
                let x = choose|x: Seq<bool>|
                    part.contains(x) && sync_graph.same_color(x, c)
                        && #[trigger] sync_graph.same_vertex(x, v);
                assert(whole.contains(x));
            }
        }
        assert(sync_graph.states_under(part, c) =~= sync_graph.states_under(whole, c));
    }
}

/// What is left of a color-closed part once colors are taken out is
/// color-closed.
pub proof fn lemma_closed_less(
    sync_graph: SymbSyncGraph,
    part: Set<Seq<bool>>,
    whole: Set<Seq<bool>>,
    colors: Set<Seq<bool>>,
)
    requires
        sync_graph.wf(),
        whole.subset_of(valuation_space(sync_graph.width())),
        part.subset_of(whole),
        is_color_closed(sync_graph, part, whole),
        ignores(colors, sync_graph.scratch()),
        ignores(colors, sync_graph.state_positions()),
    ensures
        is_color_closed(sync_graph, part.difference(colors), whole),
{
    let rest = part.difference(colors);
    assert forall|x: Seq<bool>, y: Seq<bool>|
        #![trigger rest.contains(x), whole.contains(y)]
        rest.contains(x) && whole.contains(y) && sync_graph.same_color(x, y) implies rest.contains(
        y,
    ) by {
        assert(part.contains(x) && whole.contains(y));
        assert(part.contains(y));
        if colors.contains(y) {
            assert(valuation_space(sync_graph.width()).contains(x));
            assert(valuation_space(sync_graph.width()).contains(y));
            sync_graph.lemma_same_color(x, y, y);
            sync_graph.lemma_moved(y, x);
            let u = sync_graph.moved(y, x);
            assert(colors.contains(u));
            assert(colors.contains(x));
        }
    }
}

/// What `one_fate` finds in a color-closed part of a region is an entry.
proof fn lemma_fresh_entry(
    sync_graph: SymbSyncGraph,
    attrs: Seq<Bdd>,
    i: int,
    part: Set<Seq<bool>>,
    fresh: (Bdd, Bdd),
)
    requires
        0 <= i < attrs.len(),
        part.subset_of(bdd_valuations(attrs[i])),
        is_color_closed(sync_graph, part, bdd_valuations(attrs[i])),
        exists|a: Seq<bool>|
            part.contains(a) && bdd_valuations(fresh.1).contains(a) && bdd_valuations(fresh.0)
                == #[trigger] sync_graph.states_under(part, a),
        forall|c: Seq<bool>| #[trigger]
            bdd_valuations(fresh.1).contains(c) ==> sync_graph.keeps_within(
                part,
                c,
                bdd_valuations(fresh.0),
            ),
    ensures
        is_entry(sync_graph, attrs, fresh),
{
    let whole = bdd_valuations(attrs[i]);
    let states = bdd_valuations(fresh.0);
    let a = choose|a: Seq<bool>|
        part.contains(a) && bdd_valuations(fresh.1).contains(a) && states
            == #[trigger] sync_graph.states_under(part, a);
    lemma_closed_part(sync_graph, part, whole, a, states);
    assert(bdd_valuations(attrs[i]).contains(a) && bdd_valuations(fresh.1).contains(a) && states
        == sync_graph.states_under(bdd_valuations(attrs[i]), a));
    assert forall|c: Seq<bool>| #[trigger] bdd_valuations(fresh.1).contains(c) implies has_fate(
        sync_graph,
        attrs,
        c,
        states,
    ) by {
        assert(sync_graph.keeps_within(part, c, states));
        lemma_closed_part(sync_graph, part, whole, c, states);
        assert(sync_graph.keeps_within(bdd_valuations(attrs[i]), c, states));
    }
}

/// An entry with the colors of another entry of the same vertices added to
/// it is an entry.
proof fn lemma_merged_entry(
    sync_graph: SymbSyncGraph,
    attrs: Seq<Bdd>,
    old_entry: (Bdd, Bdd),
    fresh: (Bdd, Bdd),
    merged: (Bdd, Bdd),
)
    requires
        is_entry(sync_graph, attrs, old_entry),
        is_entry(sync_graph, attrs, fresh),
        bdd_valuations(old_entry.0) == bdd_valuations(fresh.0),
        bdd_valuations(merged.0) == bdd_valuations(old_entry.0),
        bdd_valuations(merged.1) == bdd_valuations(old_entry.1).union(bdd_valuations(fresh.1)),
    ensures
        is_entry(sync_graph, attrs, merged),
{
    let (i, a) = choose|i: int, a: Seq<bool>|
        #![trigger bdd_valuations(attrs[i]).contains(a)]
        0 <= i < attrs.len() && bdd_valuations(attrs[i]).contains(a) && bdd_valuations(
            old_entry.1,
        ).contains(a) && bdd_valuations(old_entry.0) == sync_graph.states_under(
            bdd_valuations(attrs[i]),
            a,
        );
    assert(bdd_valuations(attrs[i]).contains(a) && bdd_valuations(merged.1).contains(a));
    assert forall|c: Seq<bool>| #[trigger] bdd_valuations(merged.1).contains(c) implies has_fate(
        sync_graph,
        attrs,
        c,
        bdd_valuations(merged.0),
    ) by {
        if bdd_valuations(old_entry.1).contains(c) {
            assert(has_fate(sync_graph, attrs, c, bdd_valuations(old_entry.0)));
        } else {
            assert(bdd_valuations(fresh.1).contains(c));
            assert(has_fate(sync_graph, attrs, c, bdd_valuations(fresh.0)));
        }
    }
}

/// Some entry of the map holds `x` among its vertices and among its
/// colors, and its vertices hold every state that `region` has under the
/// color of `x`.
pub open spec fn is_mapped(
    sync_graph: SymbSyncGraph,
    map: Seq<(Bdd, Bdd)>,
    region: Set<Seq<bool>>,
    x: Seq<bool>,
) -> bool {
    exists|e: int|
        0 <= e < map.len() && bdd_valuations((#[trigger] map[e]).0).contains(x) && bdd_valuations(
            map[e].1,
        ).contains(x) && sync_graph.keeps_within(region, x, bdd_valuations(map[e].0))
}

/// The map `now` holds the entries of `entries` with their vertices, and
/// with their colors at least.
pub open spec fn is_grown(entries: Seq<(Bdd, Bdd)>, now: Seq<(Bdd, Bdd)>) -> bool {
    &&& entries.len() <= now.len()
    &&& forall|k: int|
        0 <= k < entries.len() ==> bdd_valuations((#[trigger] now[k]).0) == bdd_valuations(
            entries[k].0,
        ) && bdd_valuations(entries[k].1).subset_of(bdd_valuations(now[k].1))
}

/// What was mapped stays mapped when the map grows.
pub proof fn lemma_mapped_still(
    sync_graph: SymbSyncGraph,
    entries: Seq<(Bdd, Bdd)>,
    now: Seq<(Bdd, Bdd)>,
    region: Set<Seq<bool>>,
    x: Seq<bool>,
)
    requires
        is_grown(entries, now),
        is_mapped(sync_graph, entries, region, x),
    ensures
        is_mapped(sync_graph, now, region, x),
{
    let k = choose|k: int|
        0 <= k < entries.len() && bdd_valuations((#[trigger] entries[k]).0).contains(x)
            && bdd_valuations(entries[k].1).contains(x) && sync_graph.keeps_within(
            region,
            x,
            bdd_valuations(entries[k].0),
        );
    assert(bdd_valuations(now[k].0) == bdd_valuations(entries[k].0));
    assert(bdd_valuations(now[k].0).contains(x) && bdd_valuations(now[k].1).contains(x));
}

/// Sorts the attractors out by their states: each entry holds the states of
/// one fate, and the colors under which the attractor of that fate has
/// these states.
///
/// Every pair of a state and a color of every region is among the vertices
/// and among the colors of one entry, whose vertices hold every state that
/// the region has under that color, and no two entries hold the same
/// vertices. The vertices of an entry are the states that a region has
/// under one of the colors of the entry, and under each color of the entry
/// a region has states among them only.
pub fn compute_attrs_map(sync_graph: &SymbSyncGraph, attrs: &Vec<Bdd>) -> (r: Vec<(Bdd, Bdd)>)
    requires
        sync_graph.wf(),
        forall|i: int| 0 <= i < attrs@.len() ==> sync_graph.is_colored_set(#[trigger] attrs@[i]),
    ensures
        forall|e: int|
            0 <= e < r@.len() ==> sync_graph.is_colored_set((#[trigger] r@[e]).0)
                && sync_graph.is_colored_set(r@[e].1),
        forall|e: int, f: int|
            0 <= e < f < r@.len() ==> bdd_valuations((#[trigger] r@[e]).0) != bdd_valuations(
                (#[trigger] r@[f]).0,
            ),
        forall|i: int, x: Seq<bool>|
            0 <= i < attrs@.len() && #[trigger] bdd_valuations(attrs@[i]).contains(x) ==> is_mapped(
                *sync_graph,
                r@,
                bdd_valuations(attrs@[i]),
                x,
            ),
        forall|e: int| 0 <= e < r@.len() ==> is_entry(*sync_graph, attrs@, #[trigger] r@[e]),
{
    let ghost width = sync_graph.width();
    let mut attrs_map: Vec<(Bdd, Bdd)> = Vec::new();
    let mut i: usize = 0;
    while i < attrs.len()
        invariant
            i <= attrs@.len(),
            sync_graph.wf(),
            width == sync_graph.width(),
            forall|k: int| 0 <= k < attrs@.len() ==> sync_graph.is_colored_set(#[trigger] attrs@[k]),
            forall|e: int|
                0 <= e < attrs_map@.len() ==> sync_graph.is_colored_set((#[trigger] attrs_map@[e]).0)
                    && sync_graph.is_colored_set(attrs_map@[e].1),
            forall|e: int, f: int|
                0 <= e < f < attrs_map@.len() ==> bdd_valuations((#[trigger] attrs_map@[e]).0)
                    != bdd_valuations((#[trigger] attrs_map@[f]).0),
            forall|k: int, x: Seq<bool>|
                0 <= k < i && #[trigger] bdd_valuations(attrs@[k]).contains(x) ==> is_mapped(
                    *sync_graph,
                    attrs_map@,
                    bdd_valuations(attrs@[k]),
                    x,
                ),
            forall|e: int|
                0 <= e < attrs_map@.len() ==> is_entry(
                    *sync_graph,
                    attrs@,
                    #[trigger] attrs_map@[e],
                ),
        decreases attrs@.len() - i,
    {
        let mut attr = bdd_clone(&attrs[i]);
        let ghost whole = bdd_valuations(attrs@[i as int]);
        while !bdd_is_false(&attr)
            invariant
                i < attrs@.len(),
                sync_graph.wf(),
                width == sync_graph.width(),
                whole == bdd_valuations(attrs@[i as int]),
                sync_graph.is_colored_set(attr),
                bdd_valuations(attr).subset_of(whole),
                forall|e: int|
                    0 <= e < attrs_map@.len() ==> sync_graph.is_colored_set(
                        (#[trigger] attrs_map@[e]).0,
                    ) && sync_graph.is_colored_set(attrs_map@[e].1),
                forall|e: int, f: int|
                    0 <= e < f < attrs_map@.len() ==> bdd_valuations((#[trigger] attrs_map@[e]).0)
                        != bdd_valuations((#[trigger] attrs_map@[f]).0),
                forall|k: int, x: Seq<bool>|
                    0 <= k < i && #[trigger] bdd_valuations(attrs@[k]).contains(x) ==> is_mapped(
                        *sync_graph,
                        attrs_map@,
                        bdd_valuations(attrs@[k]),
                        x,
                    ),
                forall|x: Seq<bool>|
                    whole.contains(x) && !(#[trigger] bdd_valuations(attr).contains(x))
                        ==> is_mapped(*sync_graph, attrs_map@, whole, x),
                forall|e: int|
                    0 <= e < attrs_map@.len() ==> is_entry(
                        *sync_graph,
                        attrs@,
                        #[trigger] attrs_map@[e],
                    ),
                is_color_closed(*sync_graph, bdd_valuations(attr), whole),
            decreases bdd_valuations(attr).len(),
        {
            let ghost before = bdd_valuations(attr);
            let ghost entries = attrs_map@;
            let (one_attr_vertices, one_attr_colors) = sync_graph.one_fate(&attr);
            let ghost gone = bdd_valuations(one_attr_colors);
            let ghost states = bdd_valuations(one_attr_vertices);
            let ghost fresh = (one_attr_vertices, one_attr_colors);
            proof {
                lemma_difference_shrinks(before, gone, width);
                lemma_ignores_combined(before, gone, sync_graph.scratch());
                lemma_closed_less(*sync_graph, before, whole, gone);
                lemma_fresh_entry(*sync_graph, attrs@, i as int, before, fresh);
            }
            attr = bdd_and_not(&attr, &one_attr_colors);
            let mut place: Option<usize> = None;
            let mut e: usize = 0;
            while e < attrs_map.len() && place.is_none()
                invariant
                    e <= attrs_map@.len(),
                    attrs_map@ == entries,
                    states == bdd_valuations(one_attr_vertices),
                    bdd_over(one_attr_vertices, width),
                    forall|k: int|
                        0 <= k < entries.len() ==> bdd_over((#[trigger] entries[k]).0, width),
                    place matches Some(at) ==> at < entries.len() && bdd_valuations(
                        entries[at as int].0,
                    ) == states,
                    place is None ==> forall|k: int|
                        0 <= k < e ==> bdd_valuations((#[trigger] entries[k]).0) != states,
                decreases
                        attrs_map@.len() - e,
                        if place is None {
                            1nat
                        } else {
                            0nat
                        },
            {
                let differ = bdd_xor(&attrs_map[e].0, &one_attr_vertices);
                if bdd_is_false(&differ) {
                    proof {
                        assert(bdd_valuations(entries[e as int].0) =~= states) by {
                            assert forall|v: Seq<bool>|
                                bdd_valuations(entries[e as int].0).contains(v) == states.contains(
                                    v,
                                ) by {
                                if bdd_valuations(entries[e as int].0).contains(v)
                                    != states.contains(v) {
                                    assert(bdd_over(entries[e as int].0, width));
                                    assert(valuation_space(width).contains(v));
                                    assert(bdd_valuations(differ).contains(v));
                                }
                            }
                        }
                    }
                    place = Some(e);
                } else {
                    proof {
                        let v = choose|v: Seq<bool>| bdd_valuations(differ).contains(v);
                        assert(bdd_valuations(differ).contains(v));
                        assert(bdd_valuations(entries[e as int].0).contains(v) != states.contains(
                            v,
                        ));
                    }
                    e = e + 1;
                }
            }
            match place {
                Some(at) => {
                    let merged = bdd_or(&attrs_map[at].1, &one_attr_colors);
                    let kept = bdd_clone(&attrs_map[at].0);
                    proof {
                        lemma_ignores_combined(
                            bdd_valuations(entries[at as int].1),
                            gone,
                            sync_graph.scratch(),
                        );
                    }
                    attrs_map.set(at, (kept, merged));
                    proof {
                        let now = attrs_map@;
                        assert(is_grown(entries, now)) by {
                            assert forall|k: int| 0 <= k < entries.len() implies bdd_valuations(
                                (#[trigger] now[k]).0,
                            ) == bdd_valuations(entries[k].0) && bdd_valuations(
                                entries[k].1,
                            ).subset_of(bdd_valuations(now[k].1)) by {
                                if k != at {
                                    assert(now[k] == entries[k]);
                                }
                            }
                        }
                        assert forall|x: Seq<bool>|
                            whole.contains(x) && !(#[trigger] bdd_valuations(attr).contains(
                                x,
                            )) implies is_mapped(*sync_graph, now, whole, x) by {
                            if before.contains(x) {
                                assert(before.intersect(gone).contains(x));
                                lemma_closed_part(*sync_graph, before, whole, x, states);
                                assert(bdd_valuations(now[at as int].0).contains(x)
                                    && bdd_valuations(now[at as int].1).contains(x)
                                    && sync_graph.keeps_within(
                                    whole,
                                    x,
                                    bdd_valuations(now[at as int].0),
                                ));
                            } else {
                                lemma_mapped_still(*sync_graph, entries, now, whole, x);
                            }
                        }
                        assert forall|a: int| 0 <= a < now.len() implies sync_graph.is_colored_set(
                            (#[trigger] now[a]).0,
                        ) && sync_graph.is_colored_set(now[a].1) by {
                            if a != at {
                                assert(now[a] == entries[a]);
                            }
                        }
                        assert forall|a: int, b: int| 0 <= a < b < now.len() implies bdd_valuations(
                            (#[trigger] now[a]).0,
                        ) != bdd_valuations((#[trigger] now[b]).0) by {
                            assert(bdd_valuations(entries[a].0) != bdd_valuations(entries[b].0));
                            if a != at {
                                assert(now[a] == entries[a]);
                            }
                            if b != at {
                                assert(now[b] == entries[b]);
                            }
                        }
                        assert forall|k: int, x: Seq<bool>|
                            0 <= k < i && #[trigger] bdd_valuations(attrs@[k]).contains(
                                x,
                            ) implies is_mapped(
                            *sync_graph,
                            now,
                            bdd_valuations(attrs@[k]),
                            x,
                        ) by {
                            lemma_mapped_still(
                                *sync_graph,
                                entries,
                                now,
                                bdd_valuations(attrs@[k]),
                                x,
                            );
                        }
                        assert forall|a: int| 0 <= a < now.len() implies is_entry(
                            *sync_graph,
                            attrs@,
                            #[trigger] now[a],
                        ) by {
                            if a != at {
                                assert(now[a] == entries[a]);
                            } else {
                                lemma_merged_entry(
                                    *sync_graph,
                                    attrs@,
                                    entries[at as int],
                                    fresh,
                                    now[at as int],
                                );
                            }
                        }
                    }
                },
                None => {
                    attrs_map.push((one_attr_vertices, one_attr_colors));
                    proof {
                        let now = attrs_map@;
                        assert(is_grown(entries, now)) by {
                            assert forall|k: int| 0 <= k < entries.len() implies bdd_valuations(
                                (#[trigger] now[k]).0,
                            ) == bdd_valuations(entries[k].0) && bdd_valuations(
                                entries[k].1,
                            ).subset_of(bdd_valuations(now[k].1)) by {
                                assert(now[k] == entries[k]);
                            }
                        }
                        assert forall|x: Seq<bool>|
                            whole.contains(x) && !(#[trigger] bdd_valuations(attr).contains(
                                x,
                            )) implies is_mapped(*sync_graph, now, whole, x) by {
                            if before.contains(x) {
                                assert(before.intersect(gone).contains(x));
                                lemma_closed_part(*sync_graph, before, whole, x, states);
                                assert(bdd_valuations(now[entries.len() as int].0).contains(x)
                                    && bdd_valuations(now[entries.len() as int].1).contains(x)
                                    && sync_graph.keeps_within(
                                    whole,
                                    x,
                                    bdd_valuations(now[entries.len() as int].0),
                                ));
                            } else {
                                lemma_mapped_still(*sync_graph, entries, now, whole, x);
                            }
                        }
                        assert forall|a: int| 0 <= a < now.len() implies sync_graph.is_colored_set(
                            (#[trigger] now[a]).0,
                        ) && sync_graph.is_colored_set(now[a].1) by {
                            if a < entries.len() {
                                assert(now[a] == entries[a]);
                            }
                        }
                        assert forall|a: int, b: int| 0 <= a < b < now.len() implies bdd_valuations(
                            (#[trigger] now[a]).0,
                        ) != bdd_valuations((#[trigger] now[b]).0) by {
                            assert(now[a] == entries[a]);
                            if b < entries.len() {
                                assert(now[b] == entries[b]);
                            }
                        }
                        assert forall|k: int, x: Seq<bool>|
                            0 <= k < i && #[trigger] bdd_valuations(attrs@[k]).contains(
                                x,
                            ) implies is_mapped(
                            *sync_graph,
                            now,
                            bdd_valuations(attrs@[k]),
                            x,
                        ) by {
                            lemma_mapped_still(
                                *sync_graph,
                                entries,
                                now,
                                bdd_valuations(attrs@[k]),
                                x,
                            );
                        }
                        assert forall|a: int| 0 <= a < now.len() implies is_entry(
                            *sync_graph,
                            attrs@,
                            #[trigger] now[a],
                        ) by {
                            if a < entries.len() {
                                assert(now[a] == entries[a]);
                            }
                        }
                    }
                },
            }
        }
        proof {
            assert forall|k: int, x: Seq<bool>|
                0 <= k < i + 1 && #[trigger] bdd_valuations(attrs@[k]).contains(
                    x,
                ) implies is_mapped(*sync_graph, attrs_map@, bdd_valuations(attrs@[k]), x) by {
                if k == i {
                    assert(!bdd_valuations(attr).contains(x));
                }
            }
        }
        i = i + 1;
    }
    attrs_map
}

} // verus!
