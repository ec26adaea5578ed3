//! Fixes: the atomic constraints of a driver-set search, and the state that
//! accumulates them.
use vstd::prelude::*;
use biodivine_lib_bdd::Bdd;
use crate::bdd::{
    bdd_and, bdd_clone, bdd_iff, bdd_over, bdd_valuations, bdd_var_exists, bdd_var_select, bdd_wf,
    bdd_width, agree_outside, project, select, valuation_space,
};

verus! {

/// A network variable forced to one value.
#[derive(Debug, Clone, Copy, PartialEq, Eq, Structural)]
pub struct UnitVertexFix {
    pub var_id: usize,
    pub value: bool,
}

/// One parametrization bit (a symbolic variable) forced to one value.
#[derive(Debug, Clone, Copy, PartialEq, Eq, Structural)]
pub struct UnitParameterFix {
    pub bdd_var: usize,
    pub value: bool,
}

/// A fix of either kind.
#[derive(Debug, Clone, Copy, PartialEq, Eq, Structural)]
pub enum UnitFix {
    Vertex(UnitVertexFix),
    Parameter(UnitParameterFix),
}

/// The fixed network variables with their values: at most one value per variable.
#[derive(Debug)]
pub struct DriverSet {
    slots: Vec<Option<bool>>,
}

impl View for DriverSet {
    type V = Map<usize, bool>;

    closed spec fn view(&self) -> Map<usize, bool> {
        Map::new(
            |var: usize| var < self.slots@.len() && self.slots@[var as int] is Some,
            |var: usize| self.slots@[var as int]->Some_0,
        )
    }
}

/// The fixes held in the first `upto` slots, by ascending variable.
pub open spec fn fixes_upto(slots: Seq<Option<bool>>, upto: int) -> Seq<UnitVertexFix>
    decreases upto,
{
    if upto <= 0 {
        Seq::empty()
    } else {
        let before = fixes_upto(slots, upto - 1);
        match slots[upto - 1] {
            Some(value) => before.push(UnitVertexFix { var_id: (upto - 1) as usize, value }),
            None => before,
        }
    }
}

impl DriverSet {
    /// The fixes of the set, by ascending variable.
    pub closed spec fn ordered(&self) -> Seq<UnitVertexFix> {
        fixes_upto(self.slots@, self.slots@.len() as int)
    }

    /// The empty driver set.
    pub fn new() -> (r: Self)
        ensures
            r@ == Map::<usize, bool>::empty(),
            r.ordered() == Seq::<UnitVertexFix>::empty(),
    {
        let r = DriverSet { slots: Vec::new() };
        assert(r@ =~= Map::<usize, bool>::empty());
        r
    }

    /// The value that `var` is fixed to, if it is fixed.
    pub fn get(&self, var: usize) -> (r: Option<bool>)
        ensures
            r == if self@.contains_key(var) {
                Some(self@[var])
            } else {
                None
            },
    {
        if var < self.slots.len() {
            self.slots[var]
        } else {
            None
        }
    }

    /// Fixes `var`, which must be free, to `value`.
    pub fn insert(&mut self, var: usize, value: bool)
        requires
            !old(self)@.contains_key(var),
        ensures
            final(self)@ == old(self)@.insert(var, value),
    {
        while self.slots.len() <= var
            invariant
                self@ == old(self)@,
            decreases var + 1 - self.slots@.len(),
        {
            let ghost before = self@;
            self.slots.push(None);
            assert(self@ =~= before);
        }
        self.slots.set(var, Some(value));
        assert(self@ =~= old(self)@.insert(var, value));
    }

    /// Frees `var`, which must be fixed.
    pub fn remove(&mut self, var: usize)
        requires
            old(self)@.contains_key(var),
        ensures
            final(self)@ == old(self)@.remove(var),
    {
        self.slots.set(var, None);
        assert(self@ =~= old(self)@.remove(var));
    }

    /// The fixes of the set, by ascending variable.
    pub fn fixes(&self) -> (r: Vec<UnitVertexFix>)
        ensures
            r@ == self.ordered(),
            forall|k: int| 0 <= k < r@.len() ==> self@.contains_pair(r@[k].var_id, r@[k].value),
            forall|var: usize| #[trigger]
                self@.contains_key(var) ==> exists|k: int|
                    0 <= k < r@.len() && r@[k].var_id == var,
            forall|j: int, k: int| 0 <= j < k < r@.len() ==> r@[j].var_id < r@[k].var_id,
    {
        let mut r: Vec<UnitVertexFix> = Vec::new();
        let mut i: usize = 0;
        while i < self.slots.len()
            invariant
                i <= self.slots@.len(),
                r@ == fixes_upto(self.slots@, i as int),
                forall|k: int|
                    0 <= k < r@.len() ==> r@[k].var_id < i && self@.contains_pair(
                        r@[k].var_id,
                        r@[k].value,
                    ),
                forall|var: usize|
                    var < i && #[trigger] self@.contains_key(var) ==> exists|k: int|
                        0 <= k < r@.len() && r@[k].var_id == var,
                forall|j: int, k: int| 0 <= j < k < r@.len() ==> r@[j].var_id < r@[k].var_id,
            decreases self.slots@.len() - i,
        {
            let ghost before = r@;
            match self.slots[i] {
                Some(value) => {
                    r.push(UnitVertexFix { var_id: i, value });
                    assert forall|var: usize|
                        var < i + 1 && #[trigger] self@.contains_key(var) implies exists|k: int|
                        0 <= k < r@.len() && r@[k].var_id == var by {
                        if var < i {
                            let k = choose|k: int| 0 <= k < before.len() && before[k].var_id == var;
                            assert(r@[k].var_id == var);
                        } else {
                            assert(r@[before.len() as int].var_id == var);
                        }
                    }
                },
                None => {},
            }
            i = i + 1;
        }
        r
    }

    /// The number of fixed variables.
    pub fn len(&self) -> (r: usize)
        ensures
            r == self.ordered().len(),
    {
        let mut n: usize = 0;
        let mut i: usize = 0;
        while i < self.slots.len()
            invariant
                i <= self.slots@.len(),
                n <= i,
                n == fixes_upto(self.slots@, i as int).len(),
            decreases self.slots@.len() - i,
        {
            if self.slots[i].is_some() {
                n = n + 1;
            }
            i = i + 1;
        }
        n
    }

    /// Whether two driver sets fix the same variables to the same values.
    pub fn equals(&self, other: &DriverSet) -> (r: bool)
        ensures
            r == (self@ == other@),
    {
        let longest = if self.slots.len() < other.slots.len() {
            other.slots.len()
        } else {
            self.slots.len()
        };
        let mut i: usize = 0;
        while i < longest
            invariant
                i <= longest,
                longest >= self.slots@.len(),
                longest >= other.slots@.len(),
                forall|var: usize|
                    var < i ==> (#[trigger] self@.contains_key(var)) == other@.contains_key(var),
                forall|var: usize|
                    var < i && #[trigger] self@.contains_key(var) ==> self@[var] == other@[var],
            decreases longest - i,
        {
            let same = match (self.get(i), other.get(i)) {
                (Some(a), Some(b)) => a == b,
                (None, None) => true,
                _ => false,
            };
            if !same {
                assert(self@.contains_key(i) != other@.contains_key(i) || (self@.contains_key(i)
                    && self@[i] != other@[i]));
                return false;
            }
            i = i + 1;
        }
        assert forall|var: usize| self@.contains_key(var) == other@.contains_key(var) by {
            if var < longest {
                assert((#[trigger] self@.contains_key(var)) == other@.contains_key(var));
            }
        }
        assert(self@ =~= other@);
        true
    }
}

impl Clone for DriverSet {
    fn clone(&self) -> (r: Self)
        ensures
            r@ == self@,
            r.ordered() == self.ordered(),
    {
        let mut slots: Vec<Option<bool>> = Vec::new();
        let mut i: usize = 0;
        while i < self.slots.len()
            invariant
                i <= self.slots@.len(),
                slots@ == self.slots@.subrange(0, i as int),
            decreases self.slots@.len() - i,
        {
            slots.push(self.slots[i]);
            assert(slots@ =~= self.slots@.subrange(0, i + 1));
            i = i + 1;
        }
        assert(slots@ =~= self.slots@);
        let r = DriverSet { slots };
        assert(r@ =~= self@);
        r
    }
}

/// The valuations of `width` variables that meet every one of the `fixes`.
pub open spec fn conjunction(fixes: Seq<UnitParameterFix>, width: nat) -> Set<Seq<bool>> {
    Set::new(
        |v: Seq<bool>|
            v.len() == width && forall|k: int|
                0 <= k < fixes.len() ==> v[(#[trigger] fixes[k]).bdd_var as int] == fixes[k].value,
    )
}

/// No two of the `fixes` speak of the same parametrization bit.
pub open spec fn distinct_parameters(fixes: Seq<UnitParameterFix>) -> bool {
    forall|j: int, k: int|
        0 <= j < k < fixes.len() ==> (#[trigger] fixes[j]).bdd_var != (#[trigger] fixes[k]).bdd_var
}

/// One of the `fixes` speaks of the parametrization bit `var`.
pub open spec fn fixes_parameter(fixes: Seq<UnitParameterFix>, var: usize) -> bool {
    exists|k: int| 0 <= k < fixes.len() && (#[trigger] fixes[k]).bdd_var == var
}

/// Forgetting the bit of one fix in the conjunction of distinct fixes leaves
/// the conjunction of the others.
pub proof fn lemma_project_conjunction(fixes: Seq<UnitParameterFix>, width: nat, index: int)
    requires
        0 <= index < fixes.len(),
        distinct_parameters(fixes),
        forall|k: int| 0 <= k < fixes.len() ==> (#[trigger] fixes[k]).bdd_var < width,
    ensures
        project(conjunction(fixes, width), set![fixes[index].bdd_var as int]) == conjunction(
            fixes.remove(index),
            width,
        ),
{
    let var = fixes[index].bdd_var as int;
    let rest = fixes.remove(index);
    let left = project(conjunction(fixes, width), set![var]);
    let right = conjunction(rest, width);
    assert forall|v: Seq<bool>| left.contains(v) implies right.contains(v) by {
        let u = choose|u: Seq<bool>|
            conjunction(fixes, width).contains(u) && agree_outside(u, v, set![var]);
        assert forall|k: int| 0 <= k < rest.len() implies v[(#[trigger] rest[k]).bdd_var as int]
            == rest[k].value by {
            let orig = if k < index {
                k
            } else {
                k + 1
            };
            assert(rest[k] == fixes[orig]);
            assert(fixes[orig].bdd_var != fixes[index].bdd_var);
            assert(u[fixes[orig].bdd_var as int] == fixes[orig].value);
            assert(!set![var].contains(fixes[orig].bdd_var as int));
        }
    }
    assert forall|v: Seq<bool>| right.contains(v) implies left.contains(v) by {
        let u = v.update(var, fixes[index].value);
        assert forall|k: int| 0 <= k < fixes.len() implies u[(#[trigger] fixes[k]).bdd_var as int]
            == fixes[k].value by {
            if k != index {
                let at = if k < index {
                    k
                } else {
                    k - 1
                };
                assert(rest[at] == fixes[k]);
                assert(fixes[k].bdd_var != fixes[index].bdd_var);
                assert(v[rest[at].bdd_var as int] == rest[at].value);
            }
        }
        assert(conjunction(fixes, width).contains(u));
        assert(agree_outside(u, v, set![var]));
    }
    assert(left =~= right);
}

/// Fixing one more bit, distinct from those already fixed, conjoins its literal.
pub proof fn lemma_select_conjunction(fixes: Seq<UnitParameterFix>, width: nat, fix: UnitParameterFix)
    requires
        fix.bdd_var < width,
    ensures
        select(conjunction(fixes, width), fix.bdd_var as int, fix.value) == conjunction(
            fixes.push(fix),
            width,
        ),
{
    let more = fixes.push(fix);
    let left = select(conjunction(fixes, width), fix.bdd_var as int, fix.value);
    let right = conjunction(more, width);
    assert forall|v: Seq<bool>| left.contains(v) implies right.contains(v) by {
        assert forall|k: int| 0 <= k < more.len() implies v[(#[trigger] more[k]).bdd_var as int]
            == more[k].value by {
            if k < fixes.len() {
                assert(more[k] == fixes[k]);
            }
        }
    }
    assert forall|v: Seq<bool>| right.contains(v) implies left.contains(v) by {
        assert(more[fixes.len() as int] == fix);
        assert forall|k: int| 0 <= k < fixes.len() implies v[(#[trigger] fixes[k]).bdd_var as int]
            == fixes[k].value by {
            assert(more[k] == fixes[k]);
        }
    }
    assert(left =~= right);
}

/// The state that a driver-set search accumulates: the fixed variables, the
/// parameter fixes, the restriction of the colors that those fixes amount to,
/// and the ambient set of valid colors.
#[derive(Debug)]
pub struct PBNFix {
    driver_set: DriverSet,
    colors_fix: Bdd,
    parameter_fixes: Vec<UnitParameterFix>,
    unit_bdd: Bdd,
}

impl PBNFix {
    /// The number of symbolic variables of the ambient set.
    pub closed spec fn width(&self) -> nat {
        bdd_width(self.unit_bdd)
    }

    /// The ambient set of valid colors.
    pub closed spec fn unit(&self) -> Set<Seq<bool>> {
        bdd_valuations(self.unit_bdd)
    }

    /// The restriction that the parameter fixes amount to.
    pub closed spec fn restriction(&self) -> Set<Seq<bool>> {
        bdd_valuations(self.colors_fix)
    }

    /// The recorded parameter fixes, in the order of their insertion.
    pub closed spec fn parameters(&self) -> Seq<UnitParameterFix> {
        self.parameter_fixes@
    }

    /// The fixed variables with their values.
    pub closed spec fn driver(&self) -> Map<usize, bool> {
        self.driver_set@
    }

    /// The vertex fixes, by ascending variable.
    pub closed spec fn driver_fixes(&self) -> Seq<UnitVertexFix> {
        self.driver_set.ordered()
    }

    /// The colors that the state admits: the valid ones that meet the restriction.
    pub open spec fn admitted(&self) -> Set<Seq<bool>> {
        self.unit().intersect(self.restriction())
    }

    /// The two diagrams are well-formed and of one width.
    pub closed spec fn diagrams_wf(&self) -> bool {
        bdd_wf(self.unit_bdd) && bdd_over(self.colors_fix, bdd_width(self.unit_bdd))
    }

    /// The invariant: the parameter fixes speak of distinct bits within the
    /// width, and the restriction is the conjunction of exactly those fixes.
    pub open spec fn wf(&self) -> bool {
        &&& self.diagrams_wf()
        &&& distinct_parameters(self.parameters())
        &&& forall|k: int|
            0 <= k < self.parameters().len() ==> (#[trigger] self.parameters()[k]).bdd_var
                < self.width()
        &&& self.restriction() == conjunction(self.parameters(), self.width())
    }

    /// A state without fixes over the valid colors `unit_bdd`.
    pub fn new(unit_bdd: Bdd) -> (r: Self)
        requires
            bdd_wf(unit_bdd),
        ensures
            r.wf(),
            r.width() == bdd_width(unit_bdd),
            r.unit() == bdd_valuations(unit_bdd),
            r.driver() == Map::<usize, bool>::empty(),
            r.driver_fixes() == Seq::<UnitVertexFix>::empty(),
            r.parameters() == Seq::<UnitParameterFix>::empty(),
            r.restriction() == valuation_space(bdd_width(unit_bdd)),
    {
        let colors_fix = bdd_iff(&unit_bdd, &unit_bdd);
        let r = PBNFix {
            driver_set: DriverSet::new(),
            colors_fix,
            parameter_fixes: Vec::new(),
            unit_bdd,
        };
        proof {
            assert(r.restriction() =~= valuation_space(bdd_width(unit_bdd)));
            assert(r.restriction() =~= conjunction(r.parameters(), r.width()));
        }
        r
    }

    /// The restriction that the parameter fixes amount to.
    pub fn get_colors_fix(&self) -> (r: &Bdd)
        requires
            self.wf(),
        ensures
            bdd_over(*r, self.width()),
            bdd_valuations(*r) == self.restriction(),
    {
        &self.colors_fix
    }

    /// Drops every parameter fix.
    pub fn clear_colors_fix(&mut self)
        requires
            old(self).wf(),
        ensures
            final(self).wf(),
            final(self).width() == old(self).width(),
            final(self).unit() == old(self).unit(),
            final(self).driver() == old(self).driver(),
            final(self).driver_fixes() == old(self).driver_fixes(),
            final(self).parameters() == Seq::<UnitParameterFix>::empty(),
            final(self).restriction() == valuation_space(old(self).width()),
    {
        self.parameter_fixes.clear();
        self.colors_fix = bdd_iff(&self.colors_fix, &self.colors_fix);
        proof {
            assert(self.restriction() =~= valuation_space(old(self).width()));
            assert(self.restriction() =~= conjunction(self.parameters(), self.width()));
        }
    }

    /// The colors that the state admits.
    pub fn colors(&self) -> (r: Bdd)
        requires
            self.wf(),
        ensures
            bdd_over(r, self.width()),
            bdd_valuations(r) == self.admitted(),
    {
        bdd_and(&self.unit_bdd, &self.colors_fix)
    }

    /// The ambient set of valid colors.
    pub fn unit_colors(&self) -> (r: &Bdd)
        requires
            self.wf(),
        ensures
            bdd_over(*r, self.width()),
            bdd_valuations(*r) == self.unit(),
    {
        &self.unit_bdd
    }

    /// The recorded parameter fixes, in the order of their insertion.
    pub fn get_parameter_fixes(&self) -> (r: &Vec<UnitParameterFix>)
        ensures
            r@ == self.parameters(),
    {
        &self.parameter_fixes
    }

    /// The value that the variable `vertex` is fixed to, if it is fixed.
    pub fn get_vertex(&self, vertex: usize) -> (r: Option<bool>)
        ensures
            r == if self.driver().contains_key(vertex) {
                Some(self.driver()[vertex])
            } else {
                None
            },
    {
        self.driver_set.get(vertex)
    }

    /// The fixed variables with their values.
    pub fn get_driver_set(&self) -> (r: &DriverSet)
        ensures
            r@ == self.driver(),
            r.ordered() == self.driver_fixes(),
    {
        &self.driver_set
    }

    /// Whether `fix` can be inserted: its variable, or its parametrization
    /// bit, is not fixed yet, and the bit lies within the width.
    pub open spec fn admits(&self, fix: UnitFix) -> bool {
        match fix {
            UnitFix::Vertex(f) => !self.driver().contains_key(f.var_id),
            UnitFix::Parameter(f) => f.bdd_var < self.width() && !fixes_parameter(
                self.parameters(),
                f.bdd_var,
            ),
        }
    }

    /// The variable of `fix` is fixed, to whatever value, or `fix` is one
    /// of the recorded parameter fixes.
    pub open spec fn holds(&self, fix: UnitFix) -> bool {
        match fix {
            UnitFix::Vertex(f) => self.driver().contains_key(f.var_id),
            UnitFix::Parameter(f) => self.parameters().contains(f),
        }
    }

    /// The state is `base` with `fix` added to it.
    pub open spec fn extends(&self, base: PBNFix, fix: UnitFix) -> bool {
        &&& self.wf()
        &&& self.width() == base.width()
        &&& self.unit() == base.unit()
        &&& match fix {
            UnitFix::Vertex(f) => {
                &&& self.driver() == base.driver().insert(f.var_id, f.value)
                &&& self.parameters() == base.parameters()
                &&& self.restriction() == base.restriction()
            },
            UnitFix::Parameter(f) => {
                &&& self.driver() == base.driver()
                &&& self.parameters() == base.parameters().push(f)
                &&& self.restriction() == select(base.restriction(), f.bdd_var as int, f.value)
            },
        }
    }

    /// The state is `base` with `fix` taken out of it.
    pub open spec fn lacks(&self, base: PBNFix, fix: UnitFix) -> bool {
        &&& self.wf()
        &&& self.width() == base.width()
        &&& self.unit() == base.unit()
        &&& match fix {
            UnitFix::Vertex(f) => {
                &&& self.driver() == base.driver().remove(f.var_id)
                &&& self.parameters() == base.parameters()
                &&& self.restriction() == base.restriction()
            },
            UnitFix::Parameter(f) => {
                &&& self.driver() == base.driver()
                &&& self.parameters() == base.parameters().remove(base.parameters().index_of(f))
                &&& self.restriction() == project(base.restriction(), set![f.bdd_var as int])
                &&& !fixes_parameter(self.parameters(), f.bdd_var)
            },
        }
    }

    /// The state holds what `other` holds.
    pub open spec fn same_as(&self, other: PBNFix) -> bool {
        &&& self.width() == other.width()
        &&& self.unit() == other.unit()
        &&& self.driver() == other.driver()
        &&& self.parameters() == other.parameters()
        &&& self.restriction() == other.restriction()
    }

    /// The state holds the fixes that `other` holds, the parameter fixes in
    /// whatever order.
    pub open spec fn same_content(&self, other: PBNFix) -> bool {
        &&& self.width() == other.width()
        &&& self.unit() == other.unit()
        &&& self.driver() == other.driver()
        &&& self.restriction() == other.restriction()
        &&& forall|g: UnitParameterFix|
            self.parameters().contains(g) <==> other.parameters().contains(g)
    }

    /// The state holds the fixes that `base` holds but for `fix`, the
    /// parameter fixes in whatever order.
    pub open spec fn is_without(&self, base: PBNFix, fix: UnitFix) -> bool {
        &&& self.wf()
        &&& self.width() == base.width()
        &&& self.unit() == base.unit()
        &&& match fix {
            UnitFix::Vertex(f) => {
                &&& self.driver() == base.driver().remove(f.var_id)
                &&& self.restriction() == base.restriction()
                &&& forall|g: UnitParameterFix|
                    self.parameters().contains(g) <==> base.parameters().contains(g)
            },
            UnitFix::Parameter(f) => {
                &&& self.driver() == base.driver()
                &&& self.restriction() == project(base.restriction(), set![f.bdd_var as int])
                &&& forall|g: UnitParameterFix|
                    self.parameters().contains(g) <==> base.parameters().contains(g) && g != f
            },
        }
    }

    /// The state holds exactly the fix `fix`: the variable with that value,
    /// or that parameter fix.
    pub open spec fn has(&self, fix: UnitFix) -> bool {
        match fix {
            UnitFix::Vertex(f) => self.driver().contains_pair(f.var_id, f.value),
            UnitFix::Parameter(f) => self.parameters().contains(f),
        }
    }

    /// Adds `fix` to the state.
    pub fn insert(&mut self, fix: &UnitFix)
        requires
            old(self).wf(),
            old(self).admits(*fix),
        ensures
            final(self).extends(*old(self), *fix),
            final(self).holds(*fix),
    {
        match fix {
            UnitFix::Vertex(f) => {
                self.driver_set.insert(f.var_id, f.value);
            },
            UnitFix::Parameter(f) => {
                proof {
                    lemma_select_conjunction(old(self).parameters(), old(self).width(), *f);
                }
                self.colors_fix = bdd_var_select(&self.colors_fix, f.bdd_var, f.value);
                self.parameter_fixes.push(*f);
                proof {
                    let grown = self.parameters();
                    assert(grown[grown.len() - 1] == *f);
                    assert forall|j: int, k: int| 0 <= j < k < grown.len() implies (
                    #[trigger] grown[j]).bdd_var != (#[trigger] grown[k]).bdd_var by {
                        assert(grown[j] == old(self).parameters()[j]);
                        if k < grown.len() - 1 {
                            assert(grown[k] == old(self).parameters()[k]);
                        }
                    }
                    assert forall|k: int| 0 <= k < grown.len() implies (#[trigger] grown[k]).bdd_var
                        < self.width() by {
                        if k < grown.len() - 1 {
                            assert(grown[k] == old(self).parameters()[k]);
                        }
                    }
                }
            },
        }
    }

    /// Takes `fix` out of the state, which must hold it: the variable
    /// fixed to that value, or that parameter fix.
    pub fn remove(&mut self, fix: &UnitFix)
        requires
            old(self).wf(),
            old(self).has(*fix),
        ensures
            final(self).lacks(*old(self), *fix),
            !final(self).holds(*fix),
            final(self).admits(*fix),
    {
        match fix {
            UnitFix::Vertex(f) => {
                self.driver_set.remove(f.var_id);
            },
            UnitFix::Parameter(f) => {
                let ghost fixes = self.parameters();
                let ghost at = fixes.index_of(*f);
                let mut i: usize = 0;
                while i < self.parameter_fixes.len() && !(self.parameter_fixes[i].bdd_var
                    == f.bdd_var)
                    invariant
                        i <= self.parameter_fixes@.len(),
                        self.parameter_fixes@ == fixes,
                        forall|k: int| 0 <= k < i ==> (#[trigger] fixes[k]).bdd_var != f.bdd_var,
                    decreases self.parameter_fixes@.len() - i,
                {
                    i = i + 1;
                }
                proof {
                    assert(fixes[at] == *f);
                    assert(i < fixes.len());
                    if i != at {
                        if i < at {
                            assert(fixes[i as int].bdd_var != fixes[at].bdd_var);
                        } else {
                            assert(fixes[at].bdd_var != fixes[i as int].bdd_var);
                        }
                    }
                    lemma_project_conjunction(fixes, self.width(), at);
                }
                self.parameter_fixes.remove(i);
                self.colors_fix = bdd_var_exists(&self.colors_fix, f.bdd_var);
                proof {
                    let rest = self.parameters();
                    assert(rest == fixes.remove(at));
                    assert forall|k: int| 0 <= k < rest.len() implies (#[trigger] rest[k]).bdd_var
                        < self.width() && rest[k].bdd_var != f.bdd_var by {
                        let orig = if k < at {
                            k
                        } else {
                            k + 1
                        };
                        assert(rest[k] == fixes[orig]);
                        assert(fixes[orig].bdd_var < self.width());
                        if orig < at {
                            assert(fixes[orig].bdd_var != fixes[at].bdd_var);
                        } else {
                            assert(fixes[at].bdd_var != fixes[orig].bdd_var);
                        }
                    }
                    assert forall|j: int, k: int| 0 <= j < k < rest.len() implies (
                    #[trigger] rest[j]).bdd_var != (#[trigger] rest[k]).bdd_var by {
                        let oj = if j < at {
                            j
                        } else {
                            j + 1
                        };
                        let ok = if k < at {
                            k
                        } else {
                            k + 1
                        };
                        assert(rest[j] == fixes[oj]);
                        assert(rest[k] == fixes[ok]);
                    }
                    if rest.contains(*f) {
                        let k = choose|k: int| 0 <= k < rest.len() && rest[k] == *f;
                        assert(rest[k].bdd_var != f.bdd_var);
                    }
                    if fixes_parameter(rest, f.bdd_var) {
                        let k = choose|k: int|
                            0 <= k < rest.len() && (#[trigger] rest[k]).bdd_var == f.bdd_var;
                        assert(rest[k].bdd_var != f.bdd_var);
                    }
                }
            },
        }
    }
}

/// What fixing one more parametrization bit leaves of a set of colors.
pub open spec fn effect(admitted: Set<Seq<bool>>, fix: UnitParameterFix) -> Set<Seq<bool>> {
    select(admitted, fix.bdd_var as int, fix.value)
}

/// A fix of a parametrization bit that the state has fixed already either
/// changes nothing or leaves no color.
pub proof fn lemma_effect_of_fixed(state: PBNFix, fix: UnitParameterFix)
    requires
        state.wf(),
        fixes_parameter(state.parameters(), fix.bdd_var),
    ensures
        effect(state.admitted(), fix) == state.admitted() || effect(state.admitted(), fix)
            == Set::<Seq<bool>>::empty(),
{
    let fixes = state.parameters();
    let k = choose|k: int| 0 <= k < fixes.len() && (#[trigger] fixes[k]).bdd_var == fix.bdd_var;
    let after = effect(state.admitted(), fix);
    if fixes[k].value == fix.value {
        assert forall|v: Seq<bool>| state.admitted().contains(v) implies after.contains(v) by {
            assert(conjunction(fixes, state.width()).contains(v));
            assert(v[fixes[k].bdd_var as int] == fixes[k].value);
        }
        assert(after =~= state.admitted());
    } else {
        assert forall|v: Seq<bool>| !after.contains(v) by {
            if after.contains(v) {
                assert(conjunction(fixes, state.width()).contains(v));
                assert(v[fixes[k].bdd_var as int] == fixes[k].value);
            }
        }
        assert(after =~= Set::<Seq<bool>>::empty());
    }
}

/// Fixes are invertible: a state from which a fix is removed right after it
/// was inserted holds what it held before.
pub proof fn lemma_insert_then_remove(before: PBNFix, with: PBNFix, after: PBNFix, fix: UnitFix)
    requires
        before.wf(),
        before.admits(fix),
        with.extends(before, fix),
        after.lacks(with, fix),
    ensures
        after.same_as(before),
        after.admitted() == before.admitted(),
{
    match fix {
        UnitFix::Vertex(f) => {
            assert(after.driver() =~= before.driver());
        },
        UnitFix::Parameter(f) => {
            let grown = with.parameters();
            let at = grown.index_of(f);
            assert(grown[before.parameters().len() as int] == f);
            assert(grown.contains(f));
            assert(0 <= at < grown.len() && grown[at] == f);
            if at != before.parameters().len() {
                assert(grown[at] == before.parameters()[at]);
                assert(fixes_parameter(before.parameters(), f.bdd_var));
            }
            assert(grown.remove(at) =~= before.parameters());
        },
    }
}

/// A state from which a fix was taken holds what the state held but for the fix.
pub proof fn lemma_lacks_is_without(base: PBNFix, without: PBNFix, fix: UnitFix)
    requires
        base.wf(),
        base.holds(fix),
        without.lacks(base, fix),
    ensures
        without.is_without(base, fix),
{
    match fix {
        UnitFix::Vertex(f) => {},
        UnitFix::Parameter(f) => {
            let fixes = base.parameters();
            let at = fixes.index_of(f);
            assert(fixes.contains(f));
            assert(0 <= at < fixes.len() && fixes[at] == f);
            let rest = fixes.remove(at);
            assert forall|g: UnitParameterFix|
                rest.contains(g) <==> fixes.contains(g) && g != f by {
                if rest.contains(g) {
                    let k = choose|k: int| 0 <= k < rest.len() && rest[k] == g;
                    let j = if k < at {
                        k
                    } else {
                        k + 1
                    };
                    assert(fixes[j] == g);
                    if g == f {
                        if j < at {
                            assert(fixes[j].bdd_var != fixes[at].bdd_var);
                        } else {
                            assert(fixes[at].bdd_var != fixes[j].bdd_var);
                        }
                    }
                }
                if fixes.contains(g) && g != f {
                    let k = choose|k: int| 0 <= k < fixes.len() && fixes[k] == g;
                    let j = if k < at {
                        k
                    } else {
                        k - 1
                    };
                    assert(rest[j] == g);
                }
            }
        },
    }
}

/// Taking a fix out of a state and putting it back leaves what the state held.
pub proof fn lemma_remove_then_insert(before: PBNFix, without: PBNFix, after: PBNFix, fix: UnitFix)
    requires
        before.wf(),
        before.holds(fix),
        fix matches UnitFix::Vertex(f) ==> before.driver()[f.var_id] == f.value,
        without.lacks(before, fix),
        after.extends(without, fix),
    ensures
        after.width() == before.width(),
        after.unit() == before.unit(),
        after.driver() == before.driver(),
        forall|g: UnitParameterFix|
            after.parameters().contains(g) <==> before.parameters().contains(g),
        after.restriction() == before.restriction(),
        after.admitted() == before.admitted(),
{
    match fix {
        UnitFix::Vertex(f) => {
            assert(after.driver() =~= before.driver());
        },
        UnitFix::Parameter(f) => {
            let fixes = before.parameters();
            let at = fixes.index_of(f);
            assert(fixes.contains(f));
            assert(0 <= at < fixes.len() && fixes[at] == f);
            let rest = fixes.remove(at);
            let back = rest.push(f);
            assert forall|g: UnitParameterFix| back.contains(g) <==> fixes.contains(g) by {
                if back.contains(g) {
                    let k = choose|k: int| 0 <= k < back.len() && back[k] == g;
                    if k == rest.len() {
                        assert(fixes[at] == g);
                    } else {
                        let j = if k < at {
                            k
                        } else {
                            k + 1
                        };
                        assert(fixes[j] == g);
                    }
                }
                if fixes.contains(g) {
                    let k = choose|k: int| 0 <= k < fixes.len() && fixes[k] == g;
                    if k == at {
                        assert(back[rest.len() as int] == g);
                    } else {
                        let j = if k < at {
                            k
                        } else {
                            k - 1
                        };
                        assert(back[j] == g);
                    }
                }
            }
            assert(after.restriction() =~= before.restriction()) by {
                assert forall|v: Seq<bool>|
                    conjunction(back, before.width()).contains(v) <==> conjunction(
                        fixes,
                        before.width(),
                    ).contains(v) by {
                    if conjunction(back, before.width()).contains(v) {
                        assert forall|k: int| 0 <= k < fixes.len() implies v[(
                        #[trigger] fixes[k]).bdd_var as int] == fixes[k].value by {
                            if k == at {
                                assert(back[rest.len() as int] == f);
                            } else {
                                let j = if k < at {
                                    k
                                } else {
                                    k - 1
                                };
                                assert(back[j] == fixes[k]);
                            }
                        }
                    }
                    if conjunction(fixes, before.width()).contains(v) {
                        assert forall|k: int| 0 <= k < back.len() implies v[(
                        #[trigger] back[k]).bdd_var as int] == back[k].value by {
                            if k == rest.len() {
                                assert(back[k] == fixes[at]);
                            } else {
                                let j = if k < at {
                                    k
                                } else {
                                    k + 1
                                };
                                assert(back[k] == fixes[j]);
                            }
                        }
                    }
                }
            }
        },
    }
}

impl Clone for PBNFix {
    fn clone(&self) -> (r: Self)
        ensures
            r.width() == self.width(),
            r.unit() == self.unit(),
            r.restriction() == self.restriction(),
            r.parameters() == self.parameters(),
            r.driver() == self.driver(),
            r.driver_fixes() == self.driver_fixes(),
            self.wf() ==> r.wf(),
    {
        let mut parameter_fixes: Vec<UnitParameterFix> = Vec::new();
        let mut i: usize = 0;
        while i < self.parameter_fixes.len()
            invariant
                i <= self.parameter_fixes@.len(),
                parameter_fixes@ == self.parameter_fixes@.subrange(0, i as int),
            decreases self.parameter_fixes@.len() - i,
        {
            parameter_fixes.push(self.parameter_fixes[i]);
            assert(parameter_fixes@ =~= self.parameter_fixes@.subrange(0, i + 1));
            i = i + 1;
        }
        assert(parameter_fixes@ =~= self.parameter_fixes@);
        PBNFix {
            driver_set: self.driver_set.clone(),
            colors_fix: bdd_clone(&self.colors_fix),
            parameter_fixes,
            unit_bdd: bdd_clone(&self.unit_bdd),
        }
    }
}

} // verus!
