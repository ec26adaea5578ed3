//! The mean-field relaxation that stands in for exact simulation.
//!
//! A probability is carried as the bit pattern of a single-precision number
//! in IEEE 754 binary32 format. The library never computes with
//! probabilities: one step of the relaxation is the work of a kernel that the
//! caller hands in. The library prepares what the kernel walks, runs the
//! steps, and decides when the relaxation has settled.
use vstd::prelude::*;
use biodivine_lib_bdd::Bdd;
use crate::bdd::{bdd_clause_list, bdd_sat_clauses, bdd_valuations, bdd_wf};
use crate::driver_set::fixes::{PBNFix, UnitFix};
use crate::symbolic_sync_graph::{are_forms, SymbSyncGraph};

verus! {

/// The bit pattern of the probability zero.
pub const PROBABILITY_ZERO: u32 = 0;

/// The bit pattern of the probability one half.
pub const PROBABILITY_HALF: u32 = 0x3F00_0000;

/// The bit pattern of the probability one.
pub const PROBABILITY_ONE: u32 = 0x3F80_0000;

/// The bit pattern of the sign of a number.
pub const SIGN_BIT: u32 = 0x8000_0000;

/// A conjunction of literals, each a symbolic variable with the value it must have.
pub type Clause = Vec<(usize, bool)>;

/// What one step makes of a network variable.
pub enum VariableRule {
    /// The variable is pinned to a value.
    Fixed(bool),
    /// The variable follows its rule: for each instantiation of the rule
    /// that the colors admit, the clauses under which the instantiation
    /// yields `true`.
    Free(Vec<Vec<Clause>>),
}

/// What a kernel walks in one step: a rule for each network variable.
pub struct MeanField {
    pub rules: Vec<VariableRule>,
}

/// The outcome of a relaxation: the entropy and the probabilities after the
/// last step, and the step at which the entropy first was zero twice in a
/// row, or the number of steps asked for if the relaxation did not stop early.
pub struct Simulation {
    pub entropy: u32,
    pub probabilities: Vec<u32>,
    pub index: usize,
}

/// The number with this bit pattern is zero.
pub open spec fn is_zero(bits: u32) -> bool {
    bits == 0 || bits == SIGN_BIT
}

/// The place of a bit pattern in the total order of the numbers: patterns
/// with the sign bit come first, the greater magnitude the earlier; those
/// without follow in the order of their magnitude.
pub open spec fn order_key(bits: u32) -> int {
    if bits < SIGN_BIT {
        bits as int
    } else {
        -1 - (bits - SIGN_BIT)
    }
}

/// Whether the number with the bit pattern `bits` is zero.
pub fn entropy_is_zero(bits: u32) -> (r: bool)
    ensures
        r == is_zero(bits),
{
    bits == 0 || bits == SIGN_BIT
}

/// The place of a bit pattern in the total order of the numbers.
pub fn entropy_key(bits: u32) -> (r: i64)
    ensures
        r == order_key(bits),
{
    if bits < SIGN_BIT {
        bits as i64
    } else {
        -1 - ((bits - SIGN_BIT) as i64)
    }
}

/// `system` is what a kernel walks under the fixed variables `driver` and
/// the explicit forms `explicit` of the rules.
pub open spec fn is_mean_field(
    system: MeanField,
    driver: Map<usize, bool>,
    explicit: Seq<Vec<Bdd>>,
) -> bool {
    &&& system.rules@.len() == explicit.len()
    &&& forall|i: int|
        0 <= i < explicit.len() ==> match #[trigger] system.rules@[i] {
            VariableRule::Fixed(value) => driver.contains_key(i as usize) && driver[i as usize]
                == value,
            VariableRule::Free(forms) => !driver.contains_key(i as usize) && forms.deep_view()
                == Seq::new(explicit[i]@.len(), |k: int| bdd_clause_list(explicit[i]@[k])),
        }
}

/// The probabilities from which a relaxation starts when none are given:
/// the pinned value for a fixed variable, and one half for any other.
pub open spec fn default_start(driver: Map<usize, bool>, size: nat) -> Seq<u32> {
    Seq::new(
        size,
        |i: int|
            if driver.contains_key(i as usize) {
                if driver[i as usize] {
                    PROBABILITY_ONE
                } else {
                    PROBABILITY_ZERO
                }
            } else {
                PROBABILITY_HALF
            },
    )
}

/// `trace` holds what successive calls of the kernel return, the first on
/// `start`, each later one on the probabilities that the one before returned.
pub open spec fn is_run<K: Fn(&MeanField, &Vec<u32>) -> (Vec<u32>, u32)>(
    kernel: K,
    system: MeanField,
    start: Vec<u32>,
    trace: Seq<(Vec<u32>, u32)>,
) -> bool {
    forall|i: int|
        0 <= i < trace.len() ==> call_ensures(
            kernel,
            (
                &system,
                &(if i == 0 {
                    start
                } else {
                    trace[i - 1].0
                }),
            ),
            #[trigger] trace[i],
        )
}

/// At step `i` of the trace the entropy is zero for the second time in a row.
pub open spec fn settled(trace: Seq<(Vec<u32>, u32)>, i: int) -> bool {
    1 <= i < trace.len() && is_zero(trace[i].1) && is_zero(trace[i - 1].1)
}

/// `result` is what a relaxation of at most `iterations` steps returns on
/// the run `trace`: if it may stop early, it stops at the first step at
/// which the run has settled and reports the step before; otherwise it runs
/// all its steps and reports their number.
pub open spec fn is_outcome(
    trace: Seq<(Vec<u32>, u32)>,
    start: Vec<u32>,
    iterations: usize,
    early_stop: bool,
    result: Simulation,
) -> bool {
    &&& trace.len() <= iterations
    &&& forall|i: int| 0 <= i < trace.len() - 1 ==> !(early_stop && #[trigger] settled(trace, i))
    &&& if trace.len() == 0 {
        iterations == 0 && result.entropy == 0 && result.probabilities == start && result.index
            == 0
    } else {
        let last = trace[trace.len() - 1];
        &&& result.entropy == last.1
        &&& result.probabilities == last.0
        &&& if early_stop && settled(trace, trace.len() - 1) {
            result.index == trace.len() - 2
        } else {
            trace.len() == iterations && result.index == iterations
        }
    }
}

/// The explicit forms that were handed in, if any, are well-formed diagrams.
pub open spec fn are_given_forms(given: Option<&Vec<Vec<Bdd>>>) -> bool {
    given matches Some(forms) ==> are_forms(forms@)
}

/// Prepares what a kernel walks: a pinned value for each variable that
/// `pbn_fix` fixes, and for any other the clauses of each explicit form of
/// its rule.
pub fn mean_field(pbn_fix: &PBNFix, explicit: &Vec<Vec<Bdd>>) -> (r: MeanField)
    requires
        are_forms(explicit@),
    ensures
        is_mean_field(r, pbn_fix.driver(), explicit@),
{
    let mut rules: Vec<VariableRule> = Vec::new();
    let mut i: usize = 0;
    while i < explicit.len()
        invariant
            i <= explicit@.len(),
            are_forms(explicit@),
            rules@.len() == i,
            forall|j: int|
                0 <= j < i ==> match #[trigger] rules@[j] {
                    VariableRule::Fixed(value) => pbn_fix.driver().contains_key(j as usize)
                        && pbn_fix.driver()[j as usize] == value,
                    VariableRule::Free(forms) => !pbn_fix.driver().contains_key(j as usize)
                        && forms.deep_view() == Seq::new(
                        explicit@[j]@.len(),
                        |k: int| bdd_clause_list(explicit@[j]@[k]),
                    ),
                },
        decreases explicit@.len() - i,
    {
        let rule = match pbn_fix.get_vertex(i) {
            Some(value) => VariableRule::Fixed(value),
            None => {
                let mut forms: Vec<Vec<Clause>> = Vec::new();
                let mut k: usize = 0;
                while k < explicit[i].len()
                    invariant
                        i < explicit@.len(),
                        are_forms(explicit@),
                        k <= explicit@[i as int]@.len(),
                        forms@.len() == k,
                        forall|j: int|
                            0 <= j < k ==> (#[trigger] forms@[j]).deep_view() == bdd_clause_list(
                                explicit@[i as int]@[j],
                            ),
                    decreases explicit@[i as int]@.len() - k,
                {
                    assert(bdd_wf(explicit@[i as int]@[k as int]));
                    let clauses = bdd_sat_clauses(&explicit[i][k]);
                    forms.push(clauses);
                    k = k + 1;
                }
                proof {
                    assert(forms.deep_view() =~= Seq::new(
                        explicit@[i as int]@.len(),
                        |k: int| bdd_clause_list(explicit@[i as int]@[k]),
                    )) by {
                        assert forall|j: int| 0 <= j < forms@.len() implies forms.deep_view()[j]
                            == bdd_clause_list(explicit@[i as int]@[j]) by {
                            assert(forms.deep_view()[j] == forms@[j].deep_view());
                        }
                    }
                }
                VariableRule::Free(forms)
            },
        };
        rules.push(rule);
        i = i + 1;
    }
    MeanField { rules }
}

/// The probabilities from which a relaxation starts when none are given.
pub fn initial_probabilities(pbn_fix: &PBNFix, size: usize) -> (r: Vec<u32>)
    ensures
        r@ == default_start(pbn_fix.driver(), size as nat),
{
    let mut probs: Vec<u32> = Vec::new();
    let mut i: usize = 0;
    while i < size
        invariant
            i <= size,
            probs@.len() == i,
            forall|j: int|
                0 <= j < i ==> #[trigger] probs@[j] == default_start(
                    pbn_fix.driver(),
                    size as nat,
                )[j],
        decreases size - i,
    {
        let p = match pbn_fix.get_vertex(i) {
            Some(true) => PROBABILITY_ONE,
            Some(false) => PROBABILITY_ZERO,
            None => PROBABILITY_HALF,
        };
        probs.push(p);
        i = i + 1;
    }
    assert(probs@ =~= default_start(pbn_fix.driver(), size as nat));
    probs
}

/// Runs the relaxation of `system` from `start`: at most `iterations` steps
/// of `kernel`, and, if `early_stop` is set, no step beyond the first at
/// which the entropy is zero for the second time in a row.
pub fn relax<K: Fn(&MeanField, &Vec<u32>) -> (Vec<u32>, u32)>(
    system: &MeanField,
    start: Vec<u32>,
    iterations: usize,
    early_stop: bool,
    kernel: &K,
) -> (r: Simulation)
    requires
        forall|s: &MeanField, p: &Vec<u32>| call_requires(*kernel, (s, p)),
    ensures
        exists|trace: Seq<(Vec<u32>, u32)>|
            is_run(*kernel, *system, start, trace) && #[trigger] is_outcome(
                trace,
                start,
                iterations,
                early_stop,
                r,
            ),
{
    let ghost mut trace: Seq<(Vec<u32>, u32)> = Seq::empty();
    let mut probs = start;
    let mut entropy: u32 = 0;
    let mut last_zero = false;
    let mut i: usize = 0;
    while i < iterations
        invariant
            i <= iterations,
            forall|s: &MeanField, p: &Vec<u32>| call_requires(*kernel, (s, p)),
            trace.len() == i,
            is_run(*kernel, *system, start, trace),
            forall|j: int| 0 <= j < trace.len() ==> !(early_stop && #[trigger] settled(trace, j)),
            i == 0 ==> probs == start && entropy == 0 && !last_zero,
            i > 0 ==> probs == trace[i - 1].0 && entropy == trace[i - 1].1 && last_zero == is_zero(
                trace[i - 1].1,
            ),
        decreases iterations - i,
    {
        let stepped = kernel(system, &probs);
        let ghost before = trace;
        proof {
            trace = trace.push(stepped);
            assert forall|j: int| 0 <= j < trace.len() implies call_ensures(
                *kernel,
                (
                    system,
                    &(if j == 0 {
                        start
                    } else {
                        trace[j - 1].0
                    }),
                ),
                #[trigger] trace[j],
            ) by {
                if j < before.len() {
                    assert(trace[j] == before[j]);
                    if j > 0 {
                        assert(trace[j - 1] == before[j - 1]);
                    }
                }
            }
            assert forall|j: int| 0 <= j < trace.len() - 1 implies !(early_stop
                && #[trigger] settled(trace, j)) by {
                assert(trace[j] == before[j]);
                if j > 0 {
                    assert(trace[j - 1] == before[j - 1]);
                }
                assert(settled(trace, j) == settled(before, j));
            }
        }
        probs = stepped.0;
        entropy = stepped.1;
        let zero = entropy_is_zero(entropy);
        if zero && last_zero && early_stop {
            let r = Simulation { entropy, probabilities: probs, index: i - 1 };
            proof {
                assert(settled(trace, trace.len() - 1));
                assert(is_outcome(trace, start, iterations, early_stop, r));
            }
            return r;
        }
        proof {
            assert(!(early_stop && settled(trace, trace.len() - 1)));
        }
        last_zero = zero;
        i = i + 1;
    }
    let r = Simulation { entropy, probabilities: probs, index: iterations };
    proof {
        assert(is_outcome(trace, start, iterations, early_stop, r));
    }
    r
}

/// `explicit` holds explicit forms that the relaxation of `pbn_fix` may
/// walk: those that were handed in, or else the explicit forms of the rules
/// under the colors that `pbn_fix` admits.
pub open spec fn is_explicit_for(
    sync_graph: SymbSyncGraph,
    pbn_fix: PBNFix,
    given: Option<&Vec<Vec<Bdd>>>,
    explicit: Seq<Vec<Bdd>>,
) -> bool {
    match given {
        Some(forms) => explicit == forms@,
        None => exists|colors: Bdd|
            {
                &&& #[trigger] bdd_valuations(colors) == pbn_fix.admitted()
                &&& explicit.len() == sync_graph.size()
                &&& forall|i: int|
                    0 <= i < explicit.len() ==> (
                    #[trigger] sync_graph.update_functions()[i]).is_explicit_form(
                        explicit[i]@,
                        colors,
                    )
            },
    }
}

/// `result` is an outcome of the relaxation of the network under `pbn_fix`:
/// of a run of the kernel on the mean field of `pbn_fix`, from the given
/// probabilities or else from the default ones.
#[verifier::opaque]
pub open spec fn is_relaxation<K: Fn(&MeanField, &Vec<u32>) -> (Vec<u32>, u32)>(
    kernel: K,
    sync_graph: SymbSyncGraph,
    pbn_fix: PBNFix,
    iterations: usize,
    early_stop: bool,
    given: Option<&Vec<Vec<Bdd>>>,
    initial: Option<Vec<u32>>,
    result: Simulation,
) -> bool {
    exists|explicit: Seq<Vec<Bdd>>, system: MeanField, start: Vec<u32>, trace: Seq<(Vec<u32>, u32)>|
        #![trigger
            is_mean_field(system, pbn_fix.driver(), explicit),
            is_outcome(trace, start, iterations, early_stop, result),
        ]
        {
            &&& is_explicit_for(sync_graph, pbn_fix, given, explicit)
            &&& is_mean_field(system, pbn_fix.driver(), explicit)
            &&& match initial {
                Some(probabilities) => start == probabilities,
                None => start@ == default_start(pbn_fix.driver(), sync_graph.size()),
            }
            &&& is_run(kernel, system, start, trace)
            &&& is_outcome(trace, start, iterations, early_stop, result)
        }
}

/// The forms are explicit forms of the rules of the graph under the colors
/// that `pbn_fix` admits.
pub open spec fn are_forms_of(
    sync_graph: SymbSyncGraph,
    pbn_fix: PBNFix,
    forms: Seq<Vec<Bdd>>,
) -> bool {
    is_explicit_for(sync_graph, pbn_fix, None, forms)
}

/// The relaxation of `pbn_fix` that computes the explicit forms itself has
/// one outcome only.
pub open spec fn is_determined<K: Fn(&MeanField, &Vec<u32>) -> (Vec<u32>, u32)>(
    kernel: K,
    sync_graph: SymbSyncGraph,
    pbn_fix: PBNFix,
    iterations: usize,
    early_stop: bool,
    initial: Option<Vec<u32>>,
) -> bool {
    forall|first: Simulation, second: Simulation|
        #[trigger] is_relaxation(
            kernel,
            sync_graph,
            pbn_fix,
            iterations,
            early_stop,
            None,
            initial,
            first,
        ) && #[trigger] is_relaxation(
            kernel,
            sync_graph,
            pbn_fix,
            iterations,
            early_stop,
            None,
            initial,
            second,
        ) ==> first.entropy == second.entropy && first.probabilities@ == second.probabilities@
            && first.index == second.index
}

/// Explicit forms that are handed in bring nothing new: where they are
/// explicit forms of the rules under the colors that `pbn_fix` admits, an
/// outcome of the relaxation with them is an outcome of the relaxation that
/// computes the forms itself.
pub proof fn lemma_given_forms<K: Fn(&MeanField, &Vec<u32>) -> (Vec<u32>, u32)>(
    kernel: K,
    sync_graph: SymbSyncGraph,
    pbn_fix: PBNFix,
    iterations: usize,
    early_stop: bool,
    forms: &Vec<Vec<Bdd>>,
    initial: Option<Vec<u32>>,
    result: Simulation,
)
    requires
        are_forms_of(sync_graph, pbn_fix, forms@),
        is_relaxation(
            kernel,
            sync_graph,
            pbn_fix,
            iterations,
            early_stop,
            Some(forms),
            initial,
            result,
        ),
    ensures
        is_relaxation(kernel, sync_graph, pbn_fix, iterations, early_stop, None, initial, result),
{
    reveal(is_relaxation);
    let (explicit, system, start, trace) = choose|
        explicit: Seq<Vec<Bdd>>,
        system: MeanField,
        start: Vec<u32>,
        trace: Seq<(Vec<u32>, u32)>,
    |
        #![trigger
            is_mean_field(system, pbn_fix.driver(), explicit),
            is_outcome(trace, start, iterations, early_stop, result),
        ]
        {
            &&& is_explicit_for(sync_graph, pbn_fix, Some(forms), explicit)
            &&& is_mean_field(system, pbn_fix.driver(), explicit)
            &&& match initial {
                Some(probabilities) => start == probabilities,
                None => start@ == default_start(pbn_fix.driver(), sync_graph.size()),
            }
            &&& is_run(kernel, system, start, trace)
            &&& is_outcome(trace, start, iterations, early_stop, result)
        };
    assert(explicit == forms@);
    assert(is_explicit_for(sync_graph, pbn_fix, None, explicit));
    assert(is_mean_field(system, pbn_fix.driver(), explicit) && is_outcome(
        trace,
        start,
        iterations,
        early_stop,
        result,
    ));
}

/// To hand in the explicit forms changes nothing: where the relaxation that
/// computes the forms itself has one outcome only, the relaxation with
/// explicit forms of the rules under the colors that `pbn_fix` admits has
/// that outcome.
pub proof fn lemma_same_with_forms<K: Fn(&MeanField, &Vec<u32>) -> (Vec<u32>, u32)>(
    kernel: K,
    sync_graph: SymbSyncGraph,
    pbn_fix: PBNFix,
    iterations: usize,
    early_stop: bool,
    forms: &Vec<Vec<Bdd>>,
    initial: Option<Vec<u32>>,
    with: Simulation,
    without: Simulation,
)
    requires
        is_determined(kernel, sync_graph, pbn_fix, iterations, early_stop, initial),
        are_forms_of(sync_graph, pbn_fix, forms@),
        is_relaxation(
            kernel,
            sync_graph,
            pbn_fix,
            iterations,
            early_stop,
            Some(forms),
            initial,
            with,
        ),
        is_relaxation(kernel, sync_graph, pbn_fix, iterations, early_stop, None, initial, without),
    ensures
        with.entropy == without.entropy,
        with.probabilities@ == without.probabilities@,
        with.index == without.index,
{
    lemma_given_forms(kernel, sync_graph, pbn_fix, iterations, early_stop, forms, initial, with);
}

/// The relaxation of the network under `pbn_fix`: at most `iterations` steps
/// of the kernel, without the steps after the entropy was zero twice in a
/// row if `early_stop` is set.
///
/// * `explicit_pupdate_funs_opt` - the explicit forms of the rules, if the
///   caller has them at hand; they are computed from the colors that
///   `pbn_fix` admits otherwise.
/// * `initial` - the probabilities to start from; by default the pinned
///   value for each fixed variable and one half for the others.
pub fn ibmfa_entropy<K: Fn(&MeanField, &Vec<u32>) -> (Vec<u32>, u32)>(
    sync_graph: &SymbSyncGraph,
    pbn_fix: &PBNFix,
    iterations: usize,
    early_stop: bool,
    explicit_pupdate_funs_opt: Option<&Vec<Vec<Bdd>>>,
    kernel: &K,
    initial: Option<Vec<u32>>,
) -> (r: Simulation)
    requires
        sync_graph.wf(),
        pbn_fix.wf(),
        pbn_fix.width() == sync_graph.width(),
        are_given_forms(explicit_pupdate_funs_opt),
        forall|s: &MeanField, p: &Vec<u32>| call_requires(*kernel, (s, p)),
    ensures
        is_relaxation(
            *kernel,
            *sync_graph,
            *pbn_fix,
            iterations,
            early_stop,
            explicit_pupdate_funs_opt,
            initial,
            r,
        ),
        !early_stop ==> r.index == iterations,
        r.index <= iterations,
{
    proof {
        reveal(is_relaxation);
    }
    let start = match initial {
        Some(probabilities) => probabilities,
        None => initial_probabilities(pbn_fix, sync_graph.num_vars()),
    };
    let ghost begun = start;
    match explicit_pupdate_funs_opt {
        Some(forms) => {
            let system = mean_field(pbn_fix, forms);
            let r = relax(&system, start, iterations, early_stop, kernel);
            proof {
                let trace = choose|trace: Seq<(Vec<u32>, u32)>|
                    is_run(*kernel, system, begun, trace) && #[trigger] is_outcome(
                        trace,
                        begun,
                        iterations,
                        early_stop,
                        r,
                    );
                assert(is_explicit_for(*sync_graph, *pbn_fix, explicit_pupdate_funs_opt, forms@));
                assert(is_outcome(trace, begun, iterations, early_stop, r));
            }
            r
        },
        None => {
            let colors = pbn_fix.colors();
            let forms = sync_graph.explicit_pupdate_functions(&colors);
            let system = mean_field(pbn_fix, &forms);
            let r = relax(&system, start, iterations, early_stop, kernel);
            proof {
                let trace = choose|trace: Seq<(Vec<u32>, u32)>|
                    is_run(*kernel, system, begun, trace) && #[trigger] is_outcome(
                        trace,
                        begun,
                        iterations,
                        early_stop,
                        r,
                    );
                assert(bdd_valuations(colors) == pbn_fix.admitted());
                assert(is_explicit_for(*sync_graph, *pbn_fix, explicit_pupdate_funs_opt, forms@));
                assert(is_outcome(trace, begun, iterations, early_stop, r));
            }
            r
        },
    }
}

/// The first outcome comes before the second: its entropy is lower, or the
/// entropies are the same and it settled earlier.
pub open spec fn precedes(a: Simulation, b: Simulation) -> bool {
    order_key(a.entropy) < order_key(b.entropy) || (a.entropy == b.entropy && a.index < b.index)
}

/// The place of the first of the least among the first `upto` outcomes.
pub open spec fn minimum_of(outcomes: Seq<Simulation>, upto: int) -> int
    decreases upto,
{
    if upto <= 1 {
        0
    } else {
        let before = minimum_of(outcomes, upto - 1);
        if precedes(outcomes[upto - 1], outcomes[before]) {
            upto - 1
        } else {
            before
        }
    }
}

/// The first of the least outcomes is one of the outcomes, none comes before
/// it, and it comes before each of those that stand before it.
pub proof fn lemma_minimum_of(outcomes: Seq<Simulation>, upto: int)
    requires
        1 <= upto <= outcomes.len(),
    ensures
        0 <= minimum_of(outcomes, upto) < upto,
        forall|j: int|
            0 <= j < upto ==> !precedes(#[trigger] outcomes[j], outcomes[minimum_of(outcomes, upto)]),
        forall|j: int|
            0 <= j < minimum_of(outcomes, upto) ==> precedes(
                outcomes[minimum_of(outcomes, upto)],
                #[trigger] outcomes[j],
            ),
    decreases upto,
{
    if upto > 1 {
        lemma_minimum_of(outcomes, upto - 1);
        let before = minimum_of(outcomes, upto - 1);
        let now = minimum_of(outcomes, upto);
        assert forall|j: int| 0 <= j < upto implies !precedes(
            #[trigger] outcomes[j],
            outcomes[now],
        ) by {
            if j < upto - 1 {
                assert(!precedes(outcomes[j], outcomes[before]));
            }
        }
        assert forall|j: int| 0 <= j < now implies precedes(
            outcomes[now],
            #[trigger] outcomes[j],
        ) by {
            if now == upto - 1 {
                assert(!precedes(outcomes[j], outcomes[before]));
                if j < before {
                    assert(precedes(outcomes[before], outcomes[j]));
                }
            }
        }
    }
}

/// Whether an outcome with the entropy `entropy` and the step `index` comes
/// before one with `other_entropy` and `other_index`.
pub fn comes_before(entropy: u32, index: usize, other_entropy: u32, other_index: usize) -> (r:
    bool)
    ensures
        r == (order_key(entropy) < order_key(other_entropy) || (entropy == other_entropy && index
            < other_index)),
{
    let key = entropy_key(entropy);
    let other_key = entropy_key(other_entropy);
    key < other_key || (entropy == other_entropy && index < other_index)
}

/// Tries each of the `available_fixes` on `pbn_fix` in turn and returns the
/// one whose relaxation comes out lowest, with the entropy and the
/// probabilities of that relaxation: the lowest entropy wins, among equal
/// entropies the earliest settling, and among those the fix that stands
/// first. `pbn_fix` is left as it was.
pub fn minimize_entropy<K: Fn(&MeanField, &Vec<u32>) -> (Vec<u32>, u32)>(
    sync_graph: &SymbSyncGraph,
    iterations: usize,
    pbn_fix: &mut PBNFix,
    available_fixes: &Vec<UnitFix>,
    explicit_pupdate_funs_opt: Option<&Vec<Vec<Bdd>>>,
    kernel: &K,
) -> (r: Option<(UnitFix, u32, Vec<u32>)>)
    requires
        are_given_forms(explicit_pupdate_funs_opt),
        sync_graph.wf(),
        old(pbn_fix).wf(),
        old(pbn_fix).width() == sync_graph.width(),
        forall|k: int|
            0 <= k < available_fixes@.len() ==> old(pbn_fix).admits(#[trigger] available_fixes@[k]),
        forall|s: &MeanField, p: &Vec<u32>| call_requires(*kernel, (s, p)),
    ensures
        final(pbn_fix).wf(),
        final(pbn_fix).same_as(*old(pbn_fix)),
        r is None <==> available_fixes@.len() == 0,
        r matches Some((fix, entropy, probabilities)) ==> exists|outcomes: Seq<Simulation>|
            {
                &&& #[trigger] outcomes.len() == available_fixes@.len()
                &&& forall|k: int|
                    0 <= k < outcomes.len() ==> is_trial(
                        *kernel,
                        *sync_graph,
                        *old(pbn_fix),
                        available_fixes@[k],
                        iterations,
                        explicit_pupdate_funs_opt,
                        #[trigger] outcomes[k],
                    )
                &&& fix == available_fixes@[minimum_of(outcomes, outcomes.len() as int)]
                &&& entropy == outcomes[minimum_of(outcomes, outcomes.len() as int)].entropy
                &&& probabilities == outcomes[minimum_of(
                    outcomes,
                    outcomes.len() as int,
                )].probabilities
            },
{
    let ghost base = *pbn_fix;
    let ghost mut outcomes: Seq<Simulation> = Seq::empty();
    let mut best: Option<(UnitFix, u32, Vec<u32>)> = None;
    let mut best_index: usize = 0;
    let mut i: usize = 0;
    while i < available_fixes.len()
        invariant
            i <= available_fixes@.len(),
            sync_graph.wf(),
            pbn_fix.wf(),
            pbn_fix.same_as(base),
            base.wf(),
            base.width() == sync_graph.width(),
            forall|k: int|
                0 <= k < available_fixes@.len() ==> base.admits(#[trigger] available_fixes@[k]),
            forall|s: &MeanField, p: &Vec<u32>| call_requires(*kernel, (s, p)),
            are_given_forms(explicit_pupdate_funs_opt),
            outcomes.len() == i,
            forall|k: int|
                0 <= k < outcomes.len() ==> is_trial(
                    *kernel,
                    *sync_graph,
                    base,
                    available_fixes@[k],
                    iterations,
                    explicit_pupdate_funs_opt,
                    #[trigger] outcomes[k],
                ),
            best is None <==> i == 0,
            best matches Some((fix, entropy, probabilities)) ==> {
                &&& fix == available_fixes@[minimum_of(outcomes, i as int)]
                &&& entropy == outcomes[minimum_of(outcomes, i as int)].entropy
                &&& probabilities == outcomes[minimum_of(outcomes, i as int)].probabilities
                &&& best_index == outcomes[minimum_of(outcomes, i as int)].index
            },
        decreases available_fixes@.len() - i,
    {
        let unit_fix = available_fixes[i];
        let ghost before = *pbn_fix;
        assert(base.admits(unit_fix));
        pbn_fix.insert(&unit_fix);
        let ghost tried = *pbn_fix;
        let outcome = ibmfa_entropy(
            sync_graph,
            pbn_fix,
            iterations,
            true,
            explicit_pupdate_funs_opt,
            kernel,
            None,
        );
        pbn_fix.remove(&unit_fix);
        proof {
            crate::driver_set::fixes::lemma_insert_then_remove(before, tried, *pbn_fix, unit_fix);
            assert(tried.extends(base, unit_fix));
            let ghost earlier = outcomes;
            outcomes = outcomes.push(outcome);
            assert forall|k: int| 0 <= k < outcomes.len() implies is_trial(
                *kernel,
                *sync_graph,
                base,
                available_fixes@[k],
                iterations,
                explicit_pupdate_funs_opt,
                #[trigger] outcomes[k],
            ) by {
                if k < earlier.len() {
                    assert(outcomes[k] == earlier[k]);
                }
            }
            if i > 0 {
                lemma_minimum_of(earlier, i as int);
                assert(minimum_of(outcomes, i as int) == minimum_of(earlier, i as int)) by {
                    lemma_minimum_prefix(earlier, outcomes, i as int);
                }
                assert(outcomes[minimum_of(earlier, i as int)] == earlier[minimum_of(
                    earlier,
                    i as int,
                )]);
            }
        }
        let better = match &best {
            None => true,
            Some((_, entropy, _)) => comes_before(
                outcome.entropy,
                outcome.index,
                *entropy,
                best_index,
            ),
        };
        if better {
            best_index = outcome.index;
            best = Some((unit_fix, outcome.entropy, outcome.probabilities));
        }
        i = i + 1;
    }
    best
}

/// The first of the least among the first `upto` outcomes of a list is the
/// same in any list that starts with those outcomes.
pub proof fn lemma_minimum_prefix(short: Seq<Simulation>, long: Seq<Simulation>, upto: int)
    requires
        0 <= upto <= short.len() <= long.len(),
        forall|k: int| 0 <= k < short.len() ==> short[k] == long[k],
    ensures
        minimum_of(short, upto) == minimum_of(long, upto),
    decreases upto,
{
    if upto > 1 {
        lemma_minimum_prefix(short, long, upto - 1);
        lemma_minimum_of(short, upto - 1);
    }
}

/// `outcome` is an outcome of the relaxation of `base` with `fix` added to
/// it, stopped early.
pub open spec fn is_trial<K: Fn(&MeanField, &Vec<u32>) -> (Vec<u32>, u32)>(
    kernel: K,
    sync_graph: SymbSyncGraph,
    base: PBNFix,
    fix: UnitFix,
    iterations: usize,
    given: Option<&Vec<Vec<Bdd>>>,
    outcome: Simulation,
) -> bool {
    exists|tried: PBNFix|
        #[trigger] tried.extends(base, fix) && is_relaxation(
            kernel,
            sync_graph,
            tried,
            iterations,
            true,
            given,
            None,
            outcome,
        )
}

} // verus!
