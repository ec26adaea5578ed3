//! Decision trees that tell the buckets of a partition of the colors apart.
use vstd::prelude::*;
use biodivine_lib_bdd::Bdd;
use biodivine_lib_param_bn::symbolic_async_graph::SymbolicContext;
use crate::bdd::{
    bdd_and, bdd_and_not, bdd_cardinality, bdd_cardinality_bits, bdd_clone, bdd_is_false,
    bdd_over, bdd_valuations, bdd_var_select, bdd_wf, bdd_width, complement, lemma_space_finite,
    literal, select, valuation_space,
};
use crate::driver_set::{find_driver_set, is_driver_set};
use crate::driver_set::fixes::{conjunction, DriverSet, PBNFix, UnitFix, UnitParameterFix};
use crate::ibmfa_computations::{
    is_trial, lemma_minimum_of, minimize_entropy, minimum_of, MeanField, Simulation,
};
use crate::network::{
    context_mk_literal, context_parameter_variables, context_parameter_vars, context_width,
};
use crate::symbolic_sync_graph::SymbSyncGraph;

verus! {

/// An inner node: a question about one parametrization bit, with the
/// subtree for the colors in which the bit is `false` and the subtree for
/// those in which it is `true`.
#[derive(Debug)]
pub struct DecisionNode {
    low: Box<DecisionTree>,
    high: Box<DecisionTree>,
    color_fix: Bdd,
}

/// A decision tree over the colors, with a driver set at each leaf.
#[derive(Debug)]
pub enum DecisionTree {
    Node(DecisionNode),
    Leaf(DriverSet),
}

impl DecisionNode {
    /// The colors in which the bit of the node is `true`.
    pub closed spec fn question(&self) -> Set<Seq<bool>> {
        bdd_valuations(self.color_fix)
    }

    /// The subtree for the colors in which the bit is `false`.
    pub closed spec fn low(&self) -> DecisionTree {
        *self.low
    }

    /// The subtree for the colors in which the bit is `true`.
    pub closed spec fn high(&self) -> DecisionTree {
        *self.high
    }

    /// The two subtrees: first the one for `false`, then the one for `true`.
    pub fn get_childs(&self) -> (r: (&DecisionTree, &DecisionTree))
        ensures
            *r.0 == self.low(),
            *r.1 == self.high(),
    {
        (&*self.low, &*self.high)
    }

    /// The diagram of the colors in which the bit of the node is `true`.
    pub fn get_fix(&self) -> (r: &Bdd)
        ensures
            bdd_valuations(*r) == self.question(),
    {
        &self.color_fix
    }
}

impl DecisionTree {
    /// The driver set at the leaf that the color `v` leads to.
    pub closed spec fn lookup(self, v: Seq<bool>) -> Map<usize, bool>
        decreases self,
    {
        match self {
            DecisionTree::Leaf(driver_set) => driver_set@,
            DecisionTree::Node(node) => if bdd_valuations(node.color_fix).contains(v) {
                (*node.high).lookup(v)
            } else {
                (*node.low).lookup(v)
            },
        }
    }

    /// How a color finds its leaf: at a leaf it has arrived; at an inner
    /// node it goes on in the subtree that the bit of the node sends it to.
    pub proof fn lemma_lookup(self, v: Seq<bool>)
        ensures
            self.lookup(v) == match self {
                DecisionTree::Leaf(driver_set) => driver_set@,
                DecisionTree::Node(node) => if node.question().contains(v) {
                    node.high().lookup(v)
                } else {
                    node.low().lookup(v)
                },
            },
    {
    }
}

/// The bit pattern of the sign of a double-precision number.
pub const SIGN_BIT_64: u64 = 0x8000_0000_0000_0000;

/// What a scorer sees of a split: for each side the bit pattern of the
/// number of its colors, and of the number of colors of each bucket that
/// reaches into it. The numbers are double-precision approximations.
pub struct SplitCounts {
    pub low_total: u64,
    pub low_buckets: Vec<u64>,
    pub high_total: u64,
    pub high_buckets: Vec<u64>,
}

/// The place of the bit pattern of a cost among the numbers: negative
/// numbers come first, the greater magnitude the earlier, and the two zeros
/// are one.
pub open spec fn cost_key(bits: u64) -> int {
    if bits < SIGN_BIT_64 {
        bits as int
    } else {
        -(bits - SIGN_BIT_64)
    }
}

/// Whether the first cost is lower than the second.
pub fn cost_less(a: u64, b: u64) -> (r: bool)
    ensures
        r == (cost_key(a) < cost_key(b)),
{
    let key_a: i128 = if a < SIGN_BIT_64 {
        a as i128
    } else {
        -((a - SIGN_BIT_64) as i128)
    };
    let key_b: i128 = if b < SIGN_BIT_64 {
        b as i128
    } else {
        -((b - SIGN_BIT_64) as i128)
    };
    key_a < key_b
}

/// A part of the colors that is not resolved into a tree yet, with the
/// buckets that reach into it, each cut down to the part.
pub struct UnresolvedNode {
    pub colors: Bdd,
    pub driver_sets: Vec<(Bdd, DriverSet)>,
}

impl UnresolvedNode {
    /// All diagrams of the node are well-formed and of the width `width`.
    pub open spec fn over(&self, width: nat) -> bool {
        &&& bdd_over(self.colors, width)
        &&& forall|k: int|
            0 <= k < self.driver_sets@.len() ==> bdd_over((#[trigger] self.driver_sets@[k]).0, width)
    }

    /// The node holds the colors `part` of `parent`, and of each bucket of
    /// `parent` that reaches into `part` what lies in `part`, in the order
    /// of the buckets of `parent`; `origin` tells for each bucket of the
    /// node which bucket of `parent` it was cut from.
    pub open spec fn is_cut_of(
        &self,
        parent: UnresolvedNode,
        part: Set<Seq<bool>>,
        origin: Seq<int>,
    ) -> bool {
        &&& bdd_valuations(self.colors) == bdd_valuations(parent.colors).intersect(part)
        &&& origin.len() == self.driver_sets@.len()
        &&& forall|k: int|
            0 <= k < origin.len() ==> {
                &&& 0 <= #[trigger] origin[k] < parent.driver_sets@.len()
                &&& bdd_valuations(self.driver_sets@[k].0) == bdd_valuations(
                    parent.driver_sets@[origin[k]].0,
                ).intersect(bdd_valuations(self.colors))
                &&& bdd_valuations(self.driver_sets@[k].0) != Set::<Seq<bool>>::empty()
                &&& self.driver_sets@[k].1@ == parent.driver_sets@[origin[k]].1@
            }
        &&& forall|a: int, b: int| 0 <= a < b < origin.len() ==> origin[a] < origin[b]
        &&& forall|j: int|
            0 <= j < parent.driver_sets@.len() && bdd_valuations(
                (#[trigger] parent.driver_sets@[j]).0,
            ).intersect(bdd_valuations(self.colors)) != Set::<Seq<bool>>::empty()
                ==> origin.contains(j)
    }

    /// The part of the node in which the colors agree with `side`.
    fn cut(&self, side: &Bdd, inside: bool) -> (r: (UnresolvedNode, Ghost<Seq<int>>))
        requires
            self.over(bdd_width(*side)),
            bdd_wf(*side),
        ensures
            r.0.over(bdd_width(*side)),
            r.0.is_cut_of(
                *self,
                if inside {
                    bdd_valuations(*side)
                } else {
                    complement(bdd_valuations(*side), bdd_width(*side))
                },
                r.1@,
            ),
    {
        let ghost width = bdd_width(*side);
        let ghost part = if inside {
            bdd_valuations(*side)
        } else {
            complement(bdd_valuations(*side), width)
        };
        let colors = if inside {
            bdd_and(&self.colors, side)
        } else {
            bdd_and_not(&self.colors, side)
        };
        proof {
            assert(bdd_valuations(colors) =~= bdd_valuations(self.colors).intersect(part));
        }
        let mut driver_sets: Vec<(Bdd, DriverSet)> = Vec::new();
        let ghost mut origin: Seq<int> = Seq::empty();
        let mut i: usize = 0;
        while i < self.driver_sets.len()
            invariant
                i <= self.driver_sets@.len(),
                self.over(width),
                bdd_over(colors, width),
                origin.len() == driver_sets@.len(),
                forall|k: int|
                    0 <= k < driver_sets@.len() ==> bdd_over((#[trigger] driver_sets@[k]).0, width),
                forall|k: int|
                    0 <= k < origin.len() ==> {
                        &&& 0 <= #[trigger] origin[k] < i
                        &&& bdd_valuations(driver_sets@[k].0) == bdd_valuations(
                            self.driver_sets@[origin[k]].0,
                        ).intersect(bdd_valuations(colors))
                        &&& bdd_valuations(driver_sets@[k].0) != Set::<Seq<bool>>::empty()
                        &&& driver_sets@[k].1@ == self.driver_sets@[origin[k]].1@
                    },
                forall|a: int, b: int| 0 <= a < b < origin.len() ==> origin[a] < origin[b],
                forall|j: int|
                    0 <= j < i && bdd_valuations((#[trigger] self.driver_sets@[j]).0).intersect(
                        bdd_valuations(colors),
                    ) != Set::<Seq<bool>>::empty() ==> origin.contains(j),
            decreases self.driver_sets@.len() - i,
        {
            let subcolors = bdd_and(&self.driver_sets[i].0, &colors);
            let ghost before = origin;
            let ghost listed = driver_sets@;
            if !bdd_is_false(&subcolors) {
                let driver_set = self.driver_sets[i].1.clone();
                driver_sets.push((subcolors, driver_set));
                proof {
                    origin = origin.push(i as int);
                    assert forall|k: int| 0 <= k < origin.len() implies {
                        &&& 0 <= #[trigger] origin[k] < i + 1
                        &&& bdd_valuations(driver_sets@[k].0) == bdd_valuations(
                            self.driver_sets@[origin[k]].0,
                        ).intersect(bdd_valuations(colors))
                        &&& bdd_valuations(driver_sets@[k].0) != Set::<Seq<bool>>::empty()
                        &&& driver_sets@[k].1@ == self.driver_sets@[origin[k]].1@
                    } by {
                        if k < before.len() {
                            assert(origin[k] == before[k]);
                            assert(driver_sets@[k] == listed[k]);
                        }
                    }
                    assert forall|a: int, b: int| 0 <= a < b < origin.len() implies origin[a]
                        < origin[b] by {
                        assert(origin[a] == before[a]);
                        if b < before.len() {
                            assert(origin[b] == before[b]);
                        }
                    }
                    assert(origin[before.len() as int] == i);
                }
            }
            proof {
                assert forall|j: int|
                    0 <= j < i + 1 && bdd_valuations((#[trigger] self.driver_sets@[j]).0).intersect(
                        bdd_valuations(colors),
                    ) != Set::<Seq<bool>>::empty() implies origin.contains(j) by {
                    if j < i {
                        assert(before.contains(j));
                        let k = choose|k: int| 0 <= k < before.len() && before[k] == j;
                        assert(origin[k] == j);
                    } else {
                        assert(origin[origin.len() - 1] == j);
                    }
                }
            }
            i = i + 1;
        }
        (UnresolvedNode { colors, driver_sets }, Ghost(origin))
    }

    /// The numbers of colors of the node and of its buckets.
    fn counts(&self) -> (r: (u64, Vec<u64>))
        requires
            bdd_wf(self.colors),
            forall|k: int|
                0 <= k < self.driver_sets@.len() ==> bdd_wf((#[trigger] self.driver_sets@[k]).0),
        ensures
            r.0 == bdd_cardinality_bits(self.colors),
            r.1@.len() == self.driver_sets@.len(),
            forall|k: int|
                0 <= k < r.1@.len() ==> #[trigger] r.1@[k] == bdd_cardinality_bits(
                    self.driver_sets@[k].0,
                ),
    {
        let total = bdd_cardinality(&self.colors);
        let mut buckets: Vec<u64> = Vec::new();
        let mut i: usize = 0;
        while i < self.driver_sets.len()
            invariant
                i <= self.driver_sets@.len(),
                buckets@.len() == i,
                forall|k: int|
                    0 <= k < i ==> #[trigger] buckets@[k] == bdd_cardinality_bits(
                        self.driver_sets@[k].0,
                    ),
                forall|k: int|
                    0 <= k < self.driver_sets@.len() ==> bdd_wf(
                        (#[trigger] self.driver_sets@[k]).0,
                    ),
            decreases self.driver_sets@.len() - i,
        {
            buckets.push(bdd_cardinality(&self.driver_sets[i].0));
            i = i + 1;
        }
        (total, buckets)
    }
}

/// `counts` holds the numbers of colors of the two sides of a split.
pub open spec fn is_counts(counts: SplitCounts, low: UnresolvedNode, high: UnresolvedNode) -> bool {
    &&& counts.low_total == bdd_cardinality_bits(low.colors)
    &&& counts.low_buckets@ == Seq::new(
        low.driver_sets@.len(),
        |k: int| bdd_cardinality_bits(low.driver_sets@[k].0),
    )
    &&& counts.high_total == bdd_cardinality_bits(high.colors)
    &&& counts.high_buckets@ == Seq::new(
        high.driver_sets@.len(),
        |k: int| bdd_cardinality_bits(high.driver_sets@[k].0),
    )
}

/// `low` and `high` are the two sides of the split of `node` by the
/// variable `par`: the colors in which it is `false`, and those in which it
/// is `true`.
pub open spec fn is_split(
    node: UnresolvedNode,
    par: usize,
    width: nat,
    low: UnresolvedNode,
    high: UnresolvedNode,
) -> bool {
    &&& low.over(width)
    &&& high.over(width)
    &&& exists|origin: Seq<int>|
        #[trigger] low.is_cut_of(
            node,
            complement(literal(par as int, true, width), width),
            origin,
        )
    &&& exists|origin: Seq<int>|
        #[trigger] high.is_cut_of(node, literal(par as int, true, width), origin)
}

/// `cost` is what the scorer makes of the split of `node` by `par`.
pub open spec fn is_cost<S: Fn(&SplitCounts) -> u64>(
    score: S,
    node: UnresolvedNode,
    par: usize,
    width: nat,
    cost: u64,
) -> bool {
    exists|low: UnresolvedNode, high: UnresolvedNode, counts: SplitCounts|
        #![trigger is_split(node, par, width, low, high), is_counts(counts, low, high)]
        is_split(node, par, width, low, high) && is_counts(counts, low, high) && call_ensures(
            score,
            (&counts,),
            cost,
        )
}

/// The place of the first of the lowest among the first `upto` costs.
pub open spec fn cheapest(costs: Seq<u64>, upto: int) -> int
    decreases upto,
{
    if upto <= 1 {
        0
    } else {
        let before = cheapest(costs, upto - 1);
        if cost_key(costs[upto - 1]) < cost_key(costs[before]) {
            upto - 1
        } else {
            before
        }
    }
}

/// The first of the lowest costs is one of the costs, none is lower, and
/// each of those before it is higher.
pub proof fn lemma_cheapest(costs: Seq<u64>, upto: int)
    requires
        1 <= upto <= costs.len(),
    ensures
        0 <= cheapest(costs, upto) < upto,
        forall|j: int|
            0 <= j < upto ==> cost_key(costs[cheapest(costs, upto)]) <= cost_key(
                #[trigger] costs[j],
            ),
        forall|j: int|
            0 <= j < cheapest(costs, upto) ==> cost_key(costs[cheapest(costs, upto)]) < cost_key(
                #[trigger] costs[j],
            ),
    decreases upto,
{
    if upto > 1 {
        lemma_cheapest(costs, upto - 1);
    }
}

/// The first of the lowest among the first `upto` costs of a list is the
/// same in any list that starts with those costs.
pub proof fn lemma_cheapest_prefix(short: Seq<u64>, long: Seq<u64>, upto: int)
    requires
        0 <= upto <= short.len() <= long.len(),
        forall|k: int| 0 <= k < short.len() ==> short[k] == long[k],
    ensures
        cheapest(short, upto) == cheapest(long, upto),
    decreases upto,
{
    if upto > 1 {
        lemma_cheapest_prefix(short, long, upto - 1);
        lemma_cheapest(short, upto - 1);
    }
}

/// Splits `node` by each of the variables `pars` in turn and returns the
/// place of the variable whose split the scorer gives the lowest cost (the
/// first such variable if several cost the same), with the two sides of
/// that split. Nothing if there is no variable to split by.
pub fn best_decision_par<S: Fn(&SplitCounts) -> u64>(
    pars: &Vec<usize>,
    node: &UnresolvedNode,
    context: &SymbolicContext,
    score: &S,
) -> (r: Option<(usize, UnresolvedNode, UnresolvedNode)>)
    requires
        node.over(context_width(*context)),
        forall|k: int| 0 <= k < pars@.len() ==> #[trigger] pars@[k] < context_width(*context),
        forall|c: &SplitCounts| call_requires(*score, (c,)),
    ensures
        r is None <==> pars@.len() == 0,
        r matches Some((place, low, high)) ==> {
            &&& place < pars@.len()
            &&& is_split(*node, pars@[place as int], context_width(*context), low, high)
            &&& exists|costs: Seq<u64>|
                {
                    &&& #[trigger] costs.len() == pars@.len()
                    &&& forall|k: int|
                        0 <= k < costs.len() ==> is_cost(
                            *score,
                            *node,
                            pars@[k],
                            context_width(*context),
                            #[trigger] costs[k],
                        )
                    &&& place == cheapest(costs, costs.len() as int)
                }
        },
{
    let ghost width = context_width(*context);
    let ghost mut costs: Seq<u64> = Seq::empty();
    let mut best: Option<(usize, UnresolvedNode, UnresolvedNode)> = None;
    let mut best_cost: u64 = 0;
    let mut i: usize = 0;
    while i < pars.len()
        invariant
            i <= pars@.len(),
            width == context_width(*context),
            node.over(width),
            forall|k: int| 0 <= k < pars@.len() ==> #[trigger] pars@[k] < width,
            forall|c: &SplitCounts| call_requires(*score, (c,)),
            costs.len() == i,
            forall|k: int|
                0 <= k < costs.len() ==> is_cost(
                    *score,
                    *node,
                    pars@[k],
                    width,
                    #[trigger] costs[k],
                ),
            best is None <==> i == 0,
            best matches Some((place, low, high)) ==> {
                &&& place == cheapest(costs, i as int)
                &&& place < i
                &&& best_cost == costs[place as int]
                &&& is_split(*node, pars@[place as int], width, low, high)
            },
        decreases pars@.len() - i,
    {
        let question = context_mk_literal(context, pars[i], true);
        let (low, low_origin) = node.cut(&question, false);
        let (high, high_origin) = node.cut(&question, true);
        let (low_total, low_buckets) = low.counts();
        let (high_total, high_buckets) = high.counts();
        let counts = SplitCounts { low_total, low_buckets, high_total, high_buckets };
        let cost = score(&counts);
        proof {
            assert(counts.low_buckets@ =~= Seq::new(
                low.driver_sets@.len(),
                |k: int| bdd_cardinality_bits(low.driver_sets@[k].0),
            ));
            assert(counts.high_buckets@ =~= Seq::new(
                high.driver_sets@.len(),
                |k: int| bdd_cardinality_bits(high.driver_sets@[k].0),
            ));
            assert(low.is_cut_of(
                *node,
                complement(literal(pars@[i as int] as int, true, width), width),
                low_origin@,
            ));
            assert(high.is_cut_of(*node, literal(pars@[i as int] as int, true, width), high_origin@));
            assert(is_split(*node, pars@[i as int], width, low, high));
            assert(is_counts(counts, low, high));
            assert(is_cost(*score, *node, pars@[i as int], width, cost));
            let earlier = costs;
            costs = costs.push(cost);
            assert forall|k: int| 0 <= k < costs.len() implies is_cost(
                *score,
                *node,
                pars@[k],
                width,
                #[trigger] costs[k],
            ) by {
                if k < earlier.len() {
                    assert(costs[k] == earlier[k]);
                }
            }
            if i > 0 {
                lemma_cheapest(earlier, i as int);
                lemma_cheapest_prefix(earlier, costs, i as int);
                assert(costs[cheapest(earlier, i as int)] == earlier[cheapest(earlier, i as int)]);
            }
        }
        let better = match &best {
            None => true,
            Some(_) => cost_less(cost, best_cost),
        };
        if better {
            best_cost = cost;
            best = Some((i, low, high));
        }
        i = i + 1;
    }
    best
}

/// `costs` are the costs of the splits of `node` by each of the variables
/// `pars`, and `low` and `high` are the sides of the cheapest split, the
/// first among equals.
pub open spec fn is_cheapest_split<S: Fn(&SplitCounts) -> u64>(
    score: S,
    node: UnresolvedNode,
    pars: Seq<usize>,
    width: nat,
    costs: Seq<u64>,
    low: UnresolvedNode,
    high: UnresolvedNode,
) -> bool {
    &&& costs.len() == pars.len()
    &&& forall|k: int|
        0 <= k < costs.len() ==> is_cost(score, node, pars[k], width, #[trigger] costs[k])
    &&& is_split(node, pars[cheapest(costs, costs.len() as int)], width, low, high)
}

/// The tree resolves `node` by the variables `pars`: it is a leaf with the
/// empty driver set if no bucket reaches into the node; a leaf with the
/// driver set of the bucket if only one does; and otherwise a question
/// about the variable with the cheapest split, over trees that resolve the
/// two sides by the other variables.
pub open spec fn is_resolution<S: Fn(&SplitCounts) -> u64>(
    tree: DecisionTree,
    node: UnresolvedNode,
    pars: Seq<usize>,
    score: S,
    width: nat,
) -> bool
    decreases pars.len(),
{
    if node.driver_sets@.len() == 0 {
        tree matches DecisionTree::Leaf(driver_set) && driver_set@ == Map::<usize, bool>::empty()
    } else if node.driver_sets@.len() == 1 {
        tree matches DecisionTree::Leaf(driver_set) && driver_set@ == node.driver_sets@[0].1@
    } else {
        tree matches DecisionTree::Node(inner) && exists|
            costs: Seq<u64>,
            low: UnresolvedNode,
            high: UnresolvedNode,
        |
            {
                &&& #[trigger] is_cheapest_split(score, node, pars, width, costs, low, high)
                &&& 0 <= cheapest(costs, costs.len() as int) < pars.len()
                &&& inner.question() == literal(
                    pars[cheapest(costs, costs.len() as int)] as int,
                    true,
                    width,
                )
                &&& is_resolution(
                    inner.low(),
                    low,
                    pars.remove(cheapest(costs, costs.len() as int)),
                    score,
                    width,
                )
                &&& is_resolution(
                    inner.high(),
                    high,
                    pars.remove(cheapest(costs, costs.len() as int)),
                    score,
                    width,
                )
            }
    }
}

/// Two colors agree at each of the listed variables.
pub open spec fn agree_at(u: Seq<bool>, v: Seq<bool>, vars: Seq<usize>) -> bool {
    forall|c: int| 0 <= c < vars.len() ==> u[(#[trigger] vars[c]) as int] == v[vars[c] as int]
}

/// The variables `candidates` tell the buckets apart: no color of one bucket
/// agrees at all of them with a color of another bucket.
pub open spec fn told_apart(driver_sets: Seq<(Bdd, DriverSet)>, candidates: Seq<usize>) -> bool {
    forall|i: int, j: int, u: Seq<bool>, v: Seq<bool>|
        #![trigger
            bdd_valuations(driver_sets[i].0).contains(u),
            bdd_valuations(driver_sets[j].0).contains(v),
        ]
        0 <= i < driver_sets.len() && 0 <= j < driver_sets.len() && i != j && bdd_valuations(
            driver_sets[i].0,
        ).contains(u) && bdd_valuations(driver_sets[j].0).contains(v) ==> !agree_at(
            u,
            v,
            candidates,
        )
}

/// The color `v` is settled by the tree: the leaf that it leads to holds the
/// driver set of a bucket of `root` that holds a color of `root` which the
/// variables `candidates` do not tell from `v`.
pub open spec fn is_settled(
    tree: DecisionTree,
    v: Seq<bool>,
    root: UnresolvedNode,
    candidates: Seq<usize>,
) -> bool {
    exists|j: int, u: Seq<bool>|
        #![trigger root.driver_sets@[j], agree_at(u, v, candidates)]
        {
            &&& 0 <= j < root.driver_sets@.len()
            &&& bdd_valuations(root.driver_sets@[j].0).contains(u)
            &&& bdd_valuations(root.colors).contains(u)
            &&& agree_at(u, v, candidates)
            &&& tree.lookup(v) == root.driver_sets@[j].1@
        }
}

/// The colors agree at every one of the `candidates` that is not among `pars`.
pub open spec fn is_cube(colors: Set<Seq<bool>>, candidates: Seq<usize>, pars: Seq<usize>) -> bool {
    forall|u: Seq<bool>, v: Seq<bool>, c: int|
        #![trigger colors.contains(u), colors.contains(v), candidates[c]]
        colors.contains(u) && colors.contains(v) && 0 <= c < candidates.len() && !pars.contains(
            candidates[c],
        ) ==> u[candidates[c] as int] == v[candidates[c] as int]
}

/// A cut of a cut of a node is a cut of the node.
pub proof fn lemma_cut_of_cut(
    child: UnresolvedNode,
    node: UnresolvedNode,
    root: UnresolvedNode,
    part: Set<Seq<bool>>,
    inner: Seq<int>,
    outer: Seq<int>,
)
    requires
        child.is_cut_of(node, part, inner),
        node.is_cut_of(root, bdd_valuations(node.colors), outer),
    ensures
        child.is_cut_of(
            root,
            bdd_valuations(child.colors),
            Seq::new(inner.len(), |k: int| outer[inner[k]]),
        ),
{
    let both = Seq::new(inner.len(), |k: int| outer[inner[k]]);
    let mine = bdd_valuations(child.colors);
    assert(mine =~= bdd_valuations(root.colors).intersect(mine));
    assert forall|k: int| 0 <= k < both.len() implies {
        &&& 0 <= #[trigger] both[k] < root.driver_sets@.len()
        &&& bdd_valuations(child.driver_sets@[k].0) == bdd_valuations(
            root.driver_sets@[both[k]].0,
        ).intersect(mine)
        &&& bdd_valuations(child.driver_sets@[k].0) != Set::<Seq<bool>>::empty()
        &&& child.driver_sets@[k].1@ == root.driver_sets@[both[k]].1@
    } by {
        let mid = inner[k];
        assert(0 <= mid < node.driver_sets@.len());
        assert(0 <= outer[mid] < root.driver_sets@.len());
        assert(bdd_valuations(child.driver_sets@[k].0) =~= bdd_valuations(
            root.driver_sets@[both[k]].0,
        ).intersect(mine));
    }
    assert forall|a: int, b: int| 0 <= a < b < both.len() implies both[a] < both[b] by {
        assert(inner[a] < inner[b]);
    }
    assert forall|j: int|
        0 <= j < root.driver_sets@.len() && bdd_valuations(
            (#[trigger] root.driver_sets@[j]).0,
        ).intersect(mine) != Set::<Seq<bool>>::empty() implies both.contains(j) by {
        let w = choose|w: Seq<bool>|
            bdd_valuations(root.driver_sets@[j].0).intersect(mine).contains(w);
        assert(bdd_valuations(root.driver_sets@[j].0).intersect(mine).contains(w)) by {
            if forall|w: Seq<bool>|
                !bdd_valuations(root.driver_sets@[j].0).intersect(mine).contains(w) {
                assert(bdd_valuations(root.driver_sets@[j].0).intersect(mine) =~= Set::<
                    Seq<bool>,
                >::empty());
            }
        }
        assert(bdd_valuations(root.driver_sets@[j].0).intersect(
            bdd_valuations(node.colors),
        ).contains(w));
        assert(outer.contains(j));
        let mid = choose|mid: int| 0 <= mid < outer.len() && outer[mid] == j;
        assert(bdd_valuations(node.driver_sets@[mid].0).intersect(mine).contains(w));
        assert(inner.contains(mid));
        let k = choose|k: int| 0 <= k < inner.len() && inner[k] == mid;
        assert(both[k] == j);
    }
}

/// A bucket that differs from the empty set holds a color.
pub proof fn lemma_bucket_member(node: UnresolvedNode, k: int) -> (u: Seq<bool>)
    requires
        0 <= k < node.driver_sets@.len(),
        bdd_valuations(node.driver_sets@[k].0) != Set::<Seq<bool>>::empty(),
    ensures
        bdd_valuations(node.driver_sets@[k].0).contains(u),
{
    let u = choose|u: Seq<bool>| bdd_valuations(node.driver_sets@[k].0).contains(u);
    if forall|u: Seq<bool>| !bdd_valuations(node.driver_sets@[k].0).contains(u) {
        assert(bdd_valuations(node.driver_sets@[k].0) =~= Set::<Seq<bool>>::empty());
    }
    u
}

/// Resolves a part of the colors into a tree: a leaf where at most one
/// bucket reaches into the part; otherwise a question about the variable
/// with the cheapest split, over the trees of the two sides.
fn split_unresolved<S: Fn(&SplitCounts) -> u64>(
    node: UnresolvedNode,
    pars: Vec<usize>,
    context: &SymbolicContext,
    score: &S,
    Ghost(root): Ghost<UnresolvedNode>,
    Ghost(origin): Ghost<Seq<int>>,
    Ghost(candidates): Ghost<Seq<usize>>,
) -> (r: DecisionTree)
    requires
        node.over(context_width(*context)),
        forall|k: int| 0 <= k < pars@.len() ==> #[trigger] pars@[k] < context_width(*context),
        forall|c: &SplitCounts| call_requires(*score, (c,)),
        node.is_cut_of(root, bdd_valuations(node.colors), origin),
        is_cube(bdd_valuations(node.colors), candidates, pars@),
        told_apart(root.driver_sets@, candidates),
        forall|k: int| 0 <= k < pars@.len() ==> candidates.contains(#[trigger] pars@[k]),
    ensures
        is_resolution(r, node, pars@, *score, context_width(*context)),
        node.driver_sets@.len() == 0 ==> (r matches DecisionTree::Leaf(driver_set)
            && driver_set@ == Map::<usize, bool>::empty()),
        node.driver_sets@.len() == 1 ==> (r matches DecisionTree::Leaf(driver_set) && driver_set@
            == node.driver_sets@[0].1@),
        node.driver_sets@.len() >= 2 ==> r is Node,
        forall|v: Seq<bool>, i: int|
            #![trigger bdd_valuations(root.driver_sets@[i].0).contains(v)]
            0 <= i < root.driver_sets@.len() && bdd_valuations(node.colors).contains(v)
                && bdd_valuations(root.driver_sets@[i].0).contains(v) ==> is_settled(
                r,
                v,
                root,
                candidates,
            ),
    decreases pars@.len(),
{
    let ghost width = context_width(*context);
    let ghost here = bdd_valuations(node.colors);
    let mut node = node;
    let ghost given = node;
    if node.driver_sets.len() == 0 {
        let tree = DecisionTree::Leaf(DriverSet::new());
        proof {
            assert forall|v: Seq<bool>, i: int|
                #![trigger bdd_valuations(root.driver_sets@[i].0).contains(v)]
                0 <= i < root.driver_sets@.len() && here.contains(v) && bdd_valuations(
                    root.driver_sets@[i].0,
                ).contains(v) implies is_settled(tree, v, root, candidates) by {
                assert(bdd_valuations(root.driver_sets@[i].0).intersect(here).contains(v));
                assert(origin.contains(i));
            }
        }
        return tree;
    }
    if node.driver_sets.len() == 1 {
        let first = node.driver_sets[0].1.clone();
        let tree = DecisionTree::Leaf(first);
        proof {
            assert forall|v: Seq<bool>, i: int|
                #![trigger bdd_valuations(root.driver_sets@[i].0).contains(v)]
                0 <= i < root.driver_sets@.len() && here.contains(v) && bdd_valuations(
                    root.driver_sets@[i].0,
                ).contains(v) implies is_settled(tree, v, root, candidates) by {
                tree.lemma_lookup(v);
                assert(bdd_valuations(root.driver_sets@[i].0).intersect(here).contains(v));
                assert(origin.contains(i));
                let k = choose|k: int| 0 <= k < origin.len() && origin[k] == i;
                assert(k == 0);
                assert(agree_at(v, v, candidates));
                assert(bdd_valuations(root.colors).contains(v));
                assert(tree.lookup(v) == root.driver_sets@[i].1@);
            }
        }
        return tree;
    }
    proof {
        if pars@.len() == 0 {
            assert(0 <= origin[0] < origin[1] < root.driver_sets@.len());
            let u = lemma_bucket_member(given, 0);
            let v = lemma_bucket_member(given, 1);
            assert(bdd_valuations(root.driver_sets@[origin[0]].0).contains(u));
            assert(bdd_valuations(root.driver_sets@[origin[1]].0).contains(v));
            assert(here.contains(u) && here.contains(v));
            assert forall|c: int| 0 <= c < candidates.len() implies u[(
            #[trigger] candidates[c]) as int] == v[candidates[c] as int] by {
                assert(!pars@.contains(candidates[c]));
            }
            assert(agree_at(u, v, candidates));
            assert(false);
        }
    }
    match best_decision_par(&pars, &node, context, score) {
        None => {
            proof {
                assert(false);
            }
            DecisionTree::Leaf(DriverSet::new())
        },
        Some((place, low, high)) => {
            let ghost costs = choose|costs: Seq<u64>|
                {
                    &&& #[trigger] costs.len() == pars@.len()
                    &&& forall|k: int|
                        0 <= k < costs.len() ==> is_cost(
                            *score,
                            node,
                            pars@[k],
                            width,
                            #[trigger] costs[k],
                        )
                    &&& place == cheapest(costs, costs.len() as int)
                };
            let ghost all_pars = pars@;
            let ghost split_node = node;
            let ghost low_node = low;
            let ghost high_node = high;
            let par = pars[place];
            let mut rest: Vec<usize> = Vec::new();
            let mut k: usize = 0;
            while k < pars.len()
                invariant
                    k <= pars@.len(),
                    place < pars@.len(),
                    rest@.len() == if k <= place {
                        k as int
                    } else {
                        k - 1
                    },
                    forall|j: int|
                        0 <= j < rest@.len() ==> #[trigger] rest@[j] == pars@[if j < place {
                            j
                        } else {
                            j + 1
                        }],
                decreases pars@.len() - k,
            {
                if k != place {
                    rest.push(pars[k]);
                }
                k = k + 1;
            }
            let mut again: Vec<usize> = Vec::new();
            let mut k: usize = 0;
            while k < rest.len()
                invariant
                    k <= rest@.len(),
                    again@ == rest@.subrange(0, k as int),
                decreases rest@.len() - k,
            {
                again.push(rest[k]);
                assert(again@ =~= rest@.subrange(0, k + 1));
                k = k + 1;
            }
            assert(again@ =~= rest@);
            assert(rest@ =~= all_pars.remove(place as int));
            let question = context_mk_literal(context, par, true);
            let ghost asked = literal(par as int, true, width);
            let ghost low_origin: Seq<int>;
            let ghost high_origin: Seq<int>;
            let ghost low_here = bdd_valuations(low.colors);
            let ghost high_here = bdd_valuations(high.colors);
            proof {
                let low_inner = choose|inner: Seq<int>|
                    #[trigger] low.is_cut_of(node, complement(asked, width), inner);
                let high_inner = choose|inner: Seq<int>| #[trigger] high.is_cut_of(node, asked, inner);
                low_origin = Seq::new(low_inner.len(), |k: int| origin[low_inner[k]]);
                high_origin = Seq::new(high_inner.len(), |k: int| origin[high_inner[k]]);
                assert forall|j: int| 0 <= j < rest@.len() implies #[trigger] rest@[j] < width
                    && candidates.contains(rest@[j]) by {
                    let from = if j < place {
                        j
                    } else {
                        j + 1
                    };
                    assert(rest@[j] == pars@[from]);
                }
                lemma_cut_of_cut(
                    low,
                    node,
                    root,
                    complement(asked, width),
                    low_inner,
                    origin,
                );
                lemma_cut_of_cut(high, node, root, asked, high_inner, origin);
                assert forall|p: usize| !rest@.contains(p) && pars@.contains(p) implies p
                    == par by {
                    let j = choose|j: int| 0 <= j < pars@.len() && pars@[j] == p;
                    if j != place {
                        let to = if j < place {
                            j
                        } else {
                            j - 1
                        };
                        assert(rest@[to] == pars@[j]);
                    }
                }
                assert(is_cube(low_here, candidates, rest@)) by {
                    assert forall|u: Seq<bool>, v: Seq<bool>, c: int|
                        #![trigger low_here.contains(u), low_here.contains(v), candidates[c]]
                        low_here.contains(u) && low_here.contains(v) && 0 <= c
                            < candidates.len() && !rest@.contains(
                            candidates[c],
                        ) implies u[candidates[c] as int] == v[candidates[c] as int] by {
                        assert(here.contains(u) && here.contains(v));
                        if pars@.contains(candidates[c]) {
                            assert(candidates[c] == par);
                        }
                    }
                }
                assert(is_cube(high_here, candidates, rest@)) by {
                    assert forall|u: Seq<bool>, v: Seq<bool>, c: int|
                        #![trigger high_here.contains(u), high_here.contains(v), candidates[c]]
                        high_here.contains(u) && high_here.contains(v) && 0 <= c
                            < candidates.len() && !rest@.contains(
                            candidates[c],
                        ) implies u[candidates[c] as int] == v[candidates[c] as int] by {
                        assert(here.contains(u) && here.contains(v));
                        if pars@.contains(candidates[c]) {
                            assert(candidates[c] == par);
                        }
                    }
                }
            }
            let low_tree = split_unresolved(
                low,
                rest,
                context,
                score,
                Ghost(root),
                Ghost(low_origin),
                Ghost(candidates),
            );
            let high_tree = split_unresolved(
                high,
                again,
                context,
                score,
                Ghost(root),
                Ghost(high_origin),
                Ghost(candidates),
            );
            let tree = DecisionTree::Node(
                DecisionNode {
                    low: Box::new(low_tree),
                    high: Box::new(high_tree),
                    color_fix: question,
                },
            );
            proof {
                assert(is_cheapest_split(
                    *score,
                    split_node,
                    all_pars,
                    width,
                    costs,
                    low_node,
                    high_node,
                ));
                assert(is_resolution(tree, split_node, all_pars, *score, width));
                assert forall|v: Seq<bool>, i: int|
                    #![trigger bdd_valuations(root.driver_sets@[i].0).contains(v)]
                    0 <= i < root.driver_sets@.len() && here.contains(v) && bdd_valuations(
                        root.driver_sets@[i].0,
                    ).contains(v) implies is_settled(tree, v, root, candidates) by {
                    tree.lemma_lookup(v);
                    assert(v.len() == width);
                    if asked.contains(v) {
                        assert(high_here.contains(v));
                        assert(is_settled(high_tree, v, root, candidates));
                        let (j, u) = choose|j: int, u: Seq<bool>|
                            #![trigger root.driver_sets@[j], agree_at(u, v, candidates)]
                            {
                                &&& 0 <= j < root.driver_sets@.len()
                                &&& bdd_valuations(root.driver_sets@[j].0).contains(u)
                                &&& bdd_valuations(root.colors).contains(u)
                                &&& agree_at(u, v, candidates)
                                &&& high_tree.lookup(v) == root.driver_sets@[j].1@
                            };
                        assert(tree.lookup(v) == root.driver_sets@[j].1@);
                    } else {
                        assert(low_here.contains(v));
                        assert(is_settled(low_tree, v, root, candidates));
                        let (j, u) = choose|j: int, u: Seq<bool>|
                            #![trigger root.driver_sets@[j], agree_at(u, v, candidates)]
                            {
                                &&& 0 <= j < root.driver_sets@.len()
                                &&& bdd_valuations(root.driver_sets@[j].0).contains(u)
                                &&& bdd_valuations(root.colors).contains(u)
                                &&& agree_at(u, v, candidates)
                                &&& low_tree.lookup(v) == root.driver_sets@[j].1@
                            };
                        assert(tree.lookup(v) == root.driver_sets@[j].1@);
                    }
                }
            }
            tree
        },
    }
}

/// Every bucket holds some color, and colors of `all_colors` only.
pub open spec fn is_tidy(all_colors: Bdd, driver_sets: Seq<(Bdd, DriverSet)>) -> bool {
    forall|k: int|
        0 <= k < driver_sets.len() ==> bdd_valuations((#[trigger] driver_sets[k]).0) != Set::<
            Seq<bool>,
        >::empty() && bdd_valuations(driver_sets[k].0).subset_of(bdd_valuations(all_colors))
}

/// Builds a decision tree that tells the buckets of a partition of
/// `all_colors` apart by the parametrization bits of `context`: at each node
/// the question is about the bit whose split the scorer gives the lowest
/// cost, the first in the list of the context among equals.
///
/// Without buckets the tree is a leaf with the empty driver set; with one
/// bucket it is a leaf with the driver set of that bucket; with more it
/// begins with a question. Every color of a bucket is led to the driver set
/// of that bucket.
///
/// The buckets hold colors of `all_colors`, each at least one, and the
/// parametrization bits tell them apart: buckets that share a
/// parametrization cannot be told apart by any question.
pub fn decision_tree_from_partition<S: Fn(&SplitCounts) -> u64>(
    all_colors: &Bdd,
    driver_sets: &Vec<(Bdd, DriverSet)>,
    context: &SymbolicContext,
    score: &S,
) -> (r: DecisionTree)
    requires
        bdd_over(*all_colors, context_width(*context)),
        forall|k: int|
            0 <= k < driver_sets@.len() ==> bdd_over(
                (#[trigger] driver_sets@[k]).0,
                context_width(*context),
            ),
        is_tidy(*all_colors, driver_sets@),
        told_apart(driver_sets@, context_parameter_variables(*context)),
        forall|c: &SplitCounts| call_requires(*score, (c,)),
    ensures
        exists|root: UnresolvedNode|
            {
                &&& root.colors == *all_colors
                &&& root.driver_sets@.len() == driver_sets@.len()
                &&& forall|k: int|
                    0 <= k < driver_sets@.len() ==> (#[trigger] root.driver_sets@[k]).0
                        == driver_sets@[k].0 && root.driver_sets@[k].1@ == driver_sets@[k].1@
                &&& #[trigger] is_resolution(
                    r,
                    root,
                    context_parameter_variables(*context),
                    *score,
                    context_width(*context),
                )
            },
        driver_sets@.len() == 0 ==> (r matches DecisionTree::Leaf(driver_set) && driver_set@
            == Map::<usize, bool>::empty()),
        driver_sets@.len() == 1 ==> (r matches DecisionTree::Leaf(driver_set) && driver_set@
            == driver_sets@[0].1@),
        driver_sets@.len() >= 2 ==> r is Node,
        forall|v: Seq<bool>, i: int|
            #![trigger bdd_valuations(driver_sets@[i].0).contains(v)]
            0 <= i < driver_sets@.len() && bdd_valuations(driver_sets@[i].0).contains(v)
                ==> r.lookup(v) == driver_sets@[i].1@,
{
    let ghost width = context_width(*context);
    let mut copies: Vec<(Bdd, DriverSet)> = Vec::new();
    let mut i: usize = 0;
    while i < driver_sets.len()
        invariant
            i <= driver_sets@.len(),
            copies@.len() == i,
            forall|k: int|
                0 <= k < i ==> (#[trigger] copies@[k]).0 == driver_sets@[k].0 && copies@[k].1@
                    == driver_sets@[k].1@,
        decreases driver_sets@.len() - i,
    {
        copies.push((bdd_clone(&driver_sets[i].0), driver_sets[i].1.clone()));
        i = i + 1;
    }
    let node = UnresolvedNode { colors: bdd_clone(all_colors), driver_sets: copies };
    let pars = context_parameter_vars(context);
    let ghost candidates = pars@;
    let ghost origin = Seq::new(node.driver_sets@.len(), |k: int| k);
    proof {
        assert forall|k: int| 0 <= k < origin.len() implies {
            &&& 0 <= #[trigger] origin[k] < node.driver_sets@.len()
            &&& bdd_valuations(node.driver_sets@[k].0) == bdd_valuations(
                node.driver_sets@[origin[k]].0,
            ).intersect(bdd_valuations(node.colors))
            &&& bdd_valuations(node.driver_sets@[k].0) != Set::<Seq<bool>>::empty()
            &&& node.driver_sets@[k].1@ == node.driver_sets@[origin[k]].1@
        } by {
            assert(node.driver_sets@[k].0 == driver_sets@[k].0);
            assert(bdd_valuations(node.driver_sets@[k].0) =~= bdd_valuations(
                node.driver_sets@[k].0,
            ).intersect(bdd_valuations(node.colors)));
        }
        assert forall|j: int|
            0 <= j < node.driver_sets@.len() && bdd_valuations(
                (#[trigger] node.driver_sets@[j]).0,
            ).intersect(bdd_valuations(node.colors)) != Set::<Seq<bool>>::empty()
                implies origin.contains(j) by {
            assert(origin[j] == j);
        }
        assert(bdd_valuations(node.colors) =~= bdd_valuations(node.colors).intersect(
            bdd_valuations(node.colors),
        ));
        assert forall|k: int| 0 <= k < node.driver_sets@.len() implies bdd_over(
            (#[trigger] node.driver_sets@[k]).0,
            width,
        ) by {
            assert(node.driver_sets@[k].0 == driver_sets@[k].0);
        }
        assert(told_apart(node.driver_sets@, candidates)) by {
            assert forall|i: int, j: int, u: Seq<bool>, v: Seq<bool>|
                #![trigger
                    bdd_valuations(node.driver_sets@[i].0).contains(u),
                    bdd_valuations(node.driver_sets@[j].0).contains(v),
                ]
                0 <= i < node.driver_sets@.len() && 0 <= j < node.driver_sets@.len() && i != j
                    && bdd_valuations(node.driver_sets@[i].0).contains(u) && bdd_valuations(
                    node.driver_sets@[j].0,
                ).contains(v) implies !agree_at(u, v, candidates) by {
                assert(node.driver_sets@[i].0 == driver_sets@[i].0);
                assert(node.driver_sets@[j].0 == driver_sets@[j].0);
                assert(bdd_valuations(driver_sets@[i].0).contains(u));
                assert(bdd_valuations(driver_sets@[j].0).contains(v));
            }
        }
    }
    let ghost root = node;
    let tree = split_unresolved(
        node,
        pars,
        context,
        score,
        Ghost(root),
        Ghost(origin),
        Ghost(candidates),
    );
    proof {
        if driver_sets@.len() == 1 {
            assert(root.driver_sets@[0].1@ == driver_sets@[0].1@);
        }
        assert forall|v: Seq<bool>, i: int|
            #![trigger bdd_valuations(driver_sets@[i].0).contains(v)]
            0 <= i < driver_sets@.len() && bdd_valuations(driver_sets@[i].0).contains(
                v,
            ) implies tree.lookup(v) == driver_sets@[i].1@ by {
            assert(root.driver_sets@[i].0 == driver_sets@[i].0);
            assert(bdd_valuations(root.driver_sets@[i].0).contains(v));
            assert(bdd_valuations(root.colors).contains(v));
            assert(is_settled(tree, v, root, candidates));
            let (j, u) = choose|j: int, u: Seq<bool>|
                #![trigger root.driver_sets@[j], agree_at(u, v, candidates)]
                {
                    &&& 0 <= j < root.driver_sets@.len()
                    &&& bdd_valuations(root.driver_sets@[j].0).contains(u)
                    &&& bdd_valuations(root.colors).contains(u)
                    &&& agree_at(u, v, candidates)
                    &&& tree.lookup(v) == root.driver_sets@[j].1@
                };
            if j != i {
                assert(bdd_valuations(root.driver_sets@[j].0).contains(u));
                assert(bdd_valuations(root.driver_sets@[i].0).contains(v));
                assert(!agree_at(u, v, candidates));
            }
            assert(root.driver_sets@[i].1@ == driver_sets@[i].1@);
        }
    }
    tree
}

/// Some color of `colors` meets every parameter fix of the state, if the
/// state holds any.
pub open spec fn is_met_in(pbn_fix: PBNFix, colors: Set<Seq<bool>>) -> bool {
    pbn_fix.parameters().len() > 0 ==> exists|v: Seq<bool>|
        #[trigger] colors.contains(v) && conjunction(
            pbn_fix.parameters(),
            pbn_fix.width(),
        ).contains(v)
}

/// `base` is `pbn_fix` without its parameter fixes.
pub open spec fn is_cleared(base: PBNFix, pbn_fix: PBNFix) -> bool {
    &&& base.wf()
    &&& base.width() == pbn_fix.width()
    &&& base.unit() == pbn_fix.unit()
    &&& base.driver() == pbn_fix.driver()
    &&& base.parameters() == Seq::<UnitParameterFix>::empty()
    &&& base.restriction() == valuation_space(pbn_fix.width())
}

/// `fix` is the parameter fix of `pbn_fix` to ask for first: the one that,
/// as the only parameter fix beside the fixed variables, brings the entropy
/// lowest, the first among equals.
pub open spec fn is_first_question<K: Fn(&MeanField, &Vec<u32>) -> (Vec<u32>, u32)>(
    kernel: K,
    sync_graph: SymbSyncGraph,
    iterations: usize,
    pbn_fix: PBNFix,
    fix: UnitParameterFix,
) -> bool {
    exists|base: PBNFix, outcomes: Seq<Simulation>|
        #![trigger is_cleared(base, pbn_fix), outcomes.len()]
        {
            &&& is_cleared(base, pbn_fix)
            &&& outcomes.len() == pbn_fix.parameters().len()
            &&& forall|k: int|
                0 <= k < outcomes.len() ==> is_trial(
                    kernel,
                    sync_graph,
                    base,
                    UnitFix::Parameter(pbn_fix.parameters()[k]),
                    iterations,
                    None,
                    #[trigger] outcomes[k],
                )
            &&& 0 <= minimum_of(outcomes, outcomes.len() as int) < outcomes.len()
            &&& fix == pbn_fix.parameters()[minimum_of(outcomes, outcomes.len() as int)]
        }
}

/// The tree is the tree of the driver set `pbn_fix` for the states `states`
/// under the colors `colors`: a leaf with the fixed variables if `pbn_fix`
/// holds no parameter fix; otherwise a question about the bit of the
/// parameter fix to ask for first, with the tree of the rest of `pbn_fix`
/// on the side of the fix, under the colors that meet it, and on the other
/// side the tree of a driver set found for the colors that do not.
pub open spec fn is_tree_of<K: Fn(&MeanField, &Vec<u32>) -> (Vec<u32>, u32)>(
    tree: DecisionTree,
    kernel: K,
    sync_graph: SymbSyncGraph,
    iterations: usize,
    reduced: bool,
    states: &Bdd,
    colors: Set<Seq<bool>>,
    pbn_fix: PBNFix,
) -> bool
    decreases tree,
{
    match tree {
        DecisionTree::Leaf(driver_set) => pbn_fix.parameters().len() == 0 && driver_set@
            == pbn_fix.driver(),
        DecisionTree::Node(node) => pbn_fix.parameters().len() > 0 && exists|
            fix: UnitParameterFix,
            rest: PBNFix,
            other: PBNFix,
            beyond: Bdd,
            probabilities: Vec<u32>,
        |
            #![trigger
                rest.lacks(pbn_fix, UnitFix::Parameter(fix)),
                is_driver_set(
                    kernel,
                    sync_graph,
                    iterations,
                    reduced,
                    Some((states, &beyond)),
                    false,
                    other,
                    probabilities,
                ),
            ]
            {
                &&& is_first_question(kernel, sync_graph, iterations, pbn_fix, fix)
                &&& node.question() == literal(fix.bdd_var as int, true, sync_graph.width())
                &&& rest.lacks(pbn_fix, UnitFix::Parameter(fix))
                &&& bdd_valuations(beyond) == select(colors, fix.bdd_var as int, !fix.value)
                &&& is_driver_set(
                    kernel,
                    sync_graph,
                    iterations,
                    reduced,
                    Some((states, &beyond)),
                    false,
                    other,
                    probabilities,
                )
                &&& is_tree_of(
                    if fix.value {
                        node.high()
                    } else {
                        node.low()
                    },
                    kernel,
                    sync_graph,
                    iterations,
                    reduced,
                    states,
                    select(colors, fix.bdd_var as int, fix.value),
                    rest,
                )
                &&& is_tree_of(
                    if fix.value {
                        node.low()
                    } else {
                        node.high()
                    },
                    kernel,
                    sync_graph,
                    iterations,
                    reduced,
                    states,
                    select(colors, fix.bdd_var as int, !fix.value),
                    other,
                )
            },
    }
}

/// Builds a decision tree along with the search for driver sets: searches
/// a driver set of vertex and parameter fixes for the target, asks at the
/// root for the parameter fix of it that alone brings the entropy lowest,
/// and goes on in the same way on either side of the question.
///
/// The search favours vertex fixes, and a reduction may remove every
/// parameter fix: the tree may well be a single leaf. A partition of the
/// colors with `decision_tree_from_partition` on top of it tells the colors
/// apart more reliably.
pub fn decision_tree<K: Fn(&MeanField, &Vec<u32>) -> (Vec<u32>, u32)>(
    sync_graph: &SymbSyncGraph,
    iterations: usize,
    attr: (&Bdd, &Bdd),
    reduced: bool,
    kernel: &K,
) -> (r: DecisionTree)
    requires
        sync_graph.wf(),
        bdd_over(*attr.0, sync_graph.width()),
        bdd_over(*attr.1, sync_graph.width()),
        forall|s: &MeanField, p: &Vec<u32>| call_requires(*kernel, (s, p)),
    ensures
        exists|found: PBNFix, probabilities: Vec<u32>|
            #[trigger] is_driver_set(
                *kernel,
                *sync_graph,
                iterations,
                reduced,
                Some(attr),
                false,
                found,
                probabilities,
            ) && is_tree_of(
                r,
                *kernel,
                *sync_graph,
                iterations,
                reduced,
                attr.0,
                bdd_valuations(*attr.1),
                found,
            ),
{
    let (pbn_fix, _) = find_driver_set(sync_graph, iterations, reduced, Some(attr), false, kernel);
    proof {
        if pbn_fix.parameters().len() > 0 {
            if forall|v: Seq<bool>| !pbn_fix.admitted().contains(v) {
                assert(pbn_fix.admitted() =~= Set::<Seq<bool>>::empty());
            }
            let v = choose|v: Seq<bool>| pbn_fix.admitted().contains(v);
            assert(bdd_valuations(*attr.1).contains(v));
        }
    }
    decision_tree_recursive(sync_graph, iterations, attr, pbn_fix, reduced, kernel)
}

/// The tree for the driver set `pbn_fix` of the target `attr`: a leaf with
/// the fixed variables if `pbn_fix` holds no parameter fix; otherwise a
/// question about the parameter fix that alone brings the entropy lowest,
/// over the tree for the rest of `pbn_fix` on the side of the fix and the
/// tree for a new driver set on the other side.
fn decision_tree_recursive<K: Fn(&MeanField, &Vec<u32>) -> (Vec<u32>, u32)>(
    sync_graph: &SymbSyncGraph,
    iterations: usize,
    attr: (&Bdd, &Bdd),
    pbn_fix: PBNFix,
    reduced: bool,
    kernel: &K,
) -> (r: DecisionTree)
    requires
        sync_graph.wf(),
        bdd_over(*attr.0, sync_graph.width()),
        bdd_over(*attr.1, sync_graph.width()),
        pbn_fix.wf(),
        pbn_fix.width() == sync_graph.width(),
        is_met_in(pbn_fix, bdd_valuations(*attr.1)),
        forall|s: &MeanField, p: &Vec<u32>| call_requires(*kernel, (s, p)),
    ensures
        is_tree_of(
            r,
            *kernel,
            *sync_graph,
            iterations,
            reduced,
            attr.0,
            bdd_valuations(*attr.1),
            pbn_fix,
        ),
    decreases bdd_valuations(*attr.1).len(), pbn_fix.parameters().len(),
{
    let ghost width = sync_graph.width();
    let ghost colors = bdd_valuations(*attr.1);
    let ghost given = pbn_fix;
    let mut pbn_fix = pbn_fix;
    if pbn_fix.get_parameter_fixes().len() == 0 {
        return DecisionTree::Leaf(pbn_fix.get_driver_set().clone());
    }
    let mut pbn_fix_copy = pbn_fix.clone();
    pbn_fix_copy.clear_colors_fix();
    let ghost base = pbn_fix_copy;
    let mut available_fixings: Vec<UnitFix> = Vec::new();
    let mut k: usize = 0;
    while k < pbn_fix.get_parameter_fixes().len()
        invariant
            k <= pbn_fix.parameters().len(),
            available_fixings@.len() == k,
            forall|j: int|
                0 <= j < k ==> #[trigger] available_fixings@[j] == UnitFix::Parameter(
                    pbn_fix.parameters()[j],
                ),
        decreases pbn_fix.parameters().len() - k,
    {
        available_fixings.push(UnitFix::Parameter(pbn_fix.get_parameter_fixes()[k]));
        k = k + 1;
    }
    proof {
        assert forall|j: int| 0 <= j < available_fixings@.len() implies pbn_fix_copy.admits(
            #[trigger] available_fixings@[j],
        ) by {
            assert(pbn_fix.parameters()[j].bdd_var < width);
        }
    }
    let found = minimize_entropy(
        sync_graph,
        iterations,
        &mut pbn_fix_copy,
        &available_fixings,
        None,
        kernel,
    );
    let chosen = match found {
        Some((chosen, _, _)) => chosen,
        None => {
            proof {
                assert(false);
            }
            return DecisionTree::Leaf(pbn_fix.get_driver_set().clone());
        },
    };
    proof {
        let outcomes = choose|outcomes: Seq<Simulation>|
            {
                &&& #[trigger] outcomes.len() == available_fixings@.len()
                &&& forall|k: int|
                    0 <= k < outcomes.len() ==> is_trial(
                        *kernel,
                        *sync_graph,
                        base,
                        available_fixings@[k],
                        iterations,
                        None,
                        #[trigger] outcomes[k],
                    )
                &&& chosen == available_fixings@[minimum_of(outcomes, outcomes.len() as int)]
            };
        lemma_minimum_of(outcomes, outcomes.len() as int);
        let at = minimum_of(outcomes, outcomes.len() as int);
        assert(available_fixings@[at] == UnitFix::Parameter(pbn_fix.parameters()[at]));
        assert(pbn_fix.parameters().contains(pbn_fix.parameters()[at]));
        assert(is_cleared(base, given));
        assert forall|k: int| 0 <= k < outcomes.len() implies is_trial(
            *kernel,
            *sync_graph,
            base,
            UnitFix::Parameter(given.parameters()[k]),
            iterations,
            None,
            #[trigger] outcomes[k],
        ) by {
            assert(available_fixings@[k] == UnitFix::Parameter(given.parameters()[k]));
        }
        assert(is_first_question(*kernel, *sync_graph, iterations, given, pbn_fix.parameters()[at]));
        lemma_space_finite(width);
        vstd::set_lib::lemma_len_subset(colors, valuation_space(width));
    }
    let fix = match chosen {
        UnitFix::Parameter(fix) => fix,
        UnitFix::Vertex(_) => {
            proof {
                assert(false);
            }
            return DecisionTree::Leaf(pbn_fix.get_driver_set().clone());
        },
    };
    let ghost witness = choose|v: Seq<bool>|
        #[trigger] colors.contains(v) && conjunction(given.parameters(), width).contains(v);
    pbn_fix.remove(&UnitFix::Parameter(fix));
    let ghost rest = pbn_fix;
    let colors_value = bdd_var_select(attr.1, fix.bdd_var, fix.value);
    proof {
        let at = given.parameters().index_of(fix);
        assert(witness[given.parameters()[at].bdd_var as int] == given.parameters()[at].value);
        assert(bdd_valuations(colors_value).contains(witness));
        assert(bdd_valuations(colors_value).subset_of(colors));
        vstd::set_lib::lemma_len_subset(bdd_valuations(colors_value), colors);
        if pbn_fix.parameters().len() > 0 {
            let rest = pbn_fix.parameters();
            assert forall|j: int| 0 <= j < rest.len() implies witness[(
            #[trigger] rest[j]).bdd_var as int] == rest[j].value by {
                let from = if j < at {
                    j
                } else {
                    j + 1
                };
                assert(rest[j] == given.parameters()[from]);
            }
            assert(conjunction(rest, width).contains(witness));
        }
    }
    let subtree_value = decision_tree_recursive(
        sync_graph,
        iterations,
        (attr.0, &colors_value),
        pbn_fix,
        reduced,
        kernel,
    );
    let colors_neg_value = bdd_var_select(attr.1, fix.bdd_var, !fix.value);
    proof {
        assert(!bdd_valuations(colors_neg_value).contains(witness));
        assert(bdd_valuations(colors_neg_value).subset_of(colors));
        bdd_valuations(colors_neg_value).lemma_subset_not_in_lt(colors, witness);
    }
    let (other_fix, other_last) = find_driver_set(
        sync_graph,
        iterations,
        reduced,
        Some((attr.0, &colors_neg_value)),
        false,
        kernel,
    );
    let ghost other = other_fix;
    let ghost other_probabilities = other_last;
    proof {
        if other_fix.parameters().len() > 0 {
            if forall|v: Seq<bool>| !other_fix.admitted().contains(v) {
                assert(other_fix.admitted() =~= Set::<Seq<bool>>::empty());
            }
            let v = choose|v: Seq<bool>| other_fix.admitted().contains(v);
            assert(bdd_valuations(colors_neg_value).contains(v));
        }
    }
    let subtree_neg_value = decision_tree_recursive(
        sync_graph,
        iterations,
        (attr.0, &colors_neg_value),
        other_fix,
        reduced,
        kernel,
    );
    let (low, high) = if fix.value {
        (subtree_neg_value, subtree_value)
    } else {
        (subtree_value, subtree_neg_value)
    };
    let color_fix = context_mk_literal(sync_graph.symbolic_context(), fix.bdd_var, true);
    let tree = DecisionTree::Node(
        DecisionNode { low: Box::new(low), high: Box::new(high), color_fix },
    );
    proof {
        assert(rest.lacks(given, UnitFix::Parameter(fix)));
        assert(is_driver_set(
            *kernel,
            *sync_graph,
            iterations,
            reduced,
            Some((attr.0, &colors_neg_value)),
            false,
            other,
            other_probabilities,
        ));
    }
    tree
}

} // verus!
