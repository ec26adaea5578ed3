//! Which networks can be handed to the symbolic encoding.
//!
//! The encoding names one symbolic variable after each network variable, one
//! after each extra variable, and one after each row of each parametrization
//! table, and it can number 65534 symbolic variables. The test in this module
//! tells whether those names are admissible and different and whether the
//! variables can be numbered, before the encoding is asked for.
use vstd::prelude::*;
use biodivine_lib_param_bn::BooleanNetwork;
use biodivine_lib_param_bn::symbolic_async_graph::SymbolicContext;
use crate::network::{
    context_wf, encodable, encoding_of, make_context, network_function_arities,
    network_function_names, network_has_rule, network_names, network_parameter_arities,
    network_parameter_names, network_regulator_count, network_regulators, network_rules,
    network_size, network_variable_names,
};

verus! {

/// The greatest number of symbolic variables of an encoding.
pub const SYMBOL_LIMIT: u64 = 65534;

/// A character that no name of a symbolic variable may hold, or the bracket
/// that sets the row of a table off from the name of the table.
pub open spec fn is_reserved(c: char) -> bool {
    c == '!' || c == '&' || c == '|' || c == '^' || c == '=' || c == '<' || c == '>' || c == '('
        || c == ')' || c == '?' || c == ':' || c == '['
}

/// The name holds no reserved character.
pub open spec fn is_free_name(name: Seq<char>) -> bool {
    forall|i: int| 0 <= i < name.len() ==> !is_reserved(#[trigger] name[i])
}

/// Every name of the list holds no reserved character.
pub open spec fn are_free_names(names: Seq<Seq<char>>) -> bool {
    forall|k: int| 0 <= k < names.len() ==> is_free_name(#[trigger] names[k])
}

/// No two names of the list are the same.
pub open spec fn are_distinct_names(names: Seq<Seq<char>>) -> bool {
    forall|i: int, j: int| 0 <= i < j < names.len() ==> #[trigger] names[i] != #[trigger] names[j]
}

/// What follows the name of a network variable in the name of its extra
/// variable.
pub open spec fn extra_suffix() -> Seq<char> {
    seq!['_', 'e', 'x', 't', 'r', 'a', '_', '0']
}

/// No name of the list is the name of the extra variable of another.
pub open spec fn has_no_extra_clash(names: Seq<Seq<char>>) -> bool {
    forall|i: int, j: int|
        0 <= i < names.len() && 0 <= j < names.len() ==> #[trigger] names[j] != (
        #[trigger] names[i]) + extra_suffix()
}

/// The number of rows of the table of a function of `arity` arguments, as
/// far as it matters below the limit.
pub open spec fn table_rows(arity: nat) -> int {
    if arity == 0 {
        1
    } else if arity == 1 {
        2
    } else if arity == 2 {
        4
    } else if arity == 3 {
        8
    } else if arity == 4 {
        16
    } else if arity == 5 {
        32
    } else if arity == 6 {
        64
    } else if arity == 7 {
        128
    } else if arity == 8 {
        256
    } else if arity == 9 {
        512
    } else if arity == 10 {
        1024
    } else if arity == 11 {
        2048
    } else if arity == 12 {
        4096
    } else if arity == 13 {
        8192
    } else if arity == 14 {
        16384
    } else if arity == 15 {
        32768
    } else {
        65536
    }
}

/// The rows of the tables of the first `upto` declared functions.
pub open spec fn declared_rows(arities: Seq<u32>, upto: int) -> int
    decreases upto,
{
    if upto <= 0 {
        0
    } else {
        declared_rows(arities, upto - 1) + table_rows(arities[upto - 1] as nat)
    }
}

/// The rows of the tables of those of the first `upto` variables that have
/// no rule: each has a table over its regulators.
pub open spec fn implicit_rows(rules: Seq<bool>, regulators: Seq<Seq<usize>>, upto: int) -> int
    decreases upto,
{
    if upto <= 0 {
        0
    } else if rules[upto - 1] {
        implicit_rows(rules, regulators, upto - 1)
    } else {
        implicit_rows(rules, regulators, upto - 1) + table_rows(regulators[upto - 1].len())
    }
}

/// The symbolic variables that the encoding of the network may need: a state
/// variable and an extra variable for each network variable, and the rows of
/// all tables.
pub open spec fn symbol_count(bn: BooleanNetwork) -> int {
    2 * network_rules(bn).len() + declared_rows(
        network_function_arities(bn),
        network_function_arities(bn).len() as int,
    ) + implicit_rows(network_rules(bn), network_regulators(bn), network_rules(bn).len() as int)
}

/// The network can be handed to the encoding: the names of its variables
/// and functions hold no reserved character, no two variables and no two
/// functions bear the same name, no variable bears the name of the extra
/// variable of another, and the symbolic variables can be numbered.
pub open spec fn is_nameable(bn: BooleanNetwork) -> bool {
    &&& are_free_names(network_names(bn))
    &&& are_free_names(network_function_names(bn))
    &&& are_distinct_names(network_names(bn))
    &&& are_distinct_names(network_function_names(bn))
    &&& has_no_extra_clash(network_names(bn))
    &&& symbol_count(bn) <= SYMBOL_LIMIT
}

/// Whether a character is reserved.
pub fn reserved(c: char) -> (r: bool)
    ensures
        r == is_reserved(c),
{
    c == '!' || c == '&' || c == '|' || c == '^' || c == '=' || c == '<' || c == '>' || c == '('
        || c == ')' || c == '?' || c == ':' || c == '['
}

/// Whether every name of the list holds no reserved character.
pub fn free_names(names: &Vec<Vec<char>>) -> (r: bool)
    ensures
        r == are_free_names(names.deep_view()),
{
    let mut k: usize = 0;
    while k < names.len()
        invariant
            k <= names@.len(),
            forall|j: int| 0 <= j < k ==> is_free_name(#[trigger] names.deep_view()[j]),
        decreases names@.len() - k,
    {
        let mut i: usize = 0;
        while i < names[k].len()
            invariant
                k < names@.len(),
                i <= names@[k as int]@.len(),
                forall|j: int| 0 <= j < i ==> !is_reserved(#[trigger] names@[k as int]@[j]),
            decreases names@[k as int]@.len() - i,
        {
            if reserved(names[k][i]) {
                proof {
                    assert(names.deep_view()[k as int] == names@[k as int]@);
                    assert(is_reserved(names.deep_view()[k as int][i as int]));
                    assert(!is_free_name(names.deep_view()[k as int]));
                }
                return false;
            }
            i = i + 1;
        }
        proof {
            assert(names.deep_view()[k as int] == names@[k as int]@);
        }
        k = k + 1;
    }
    true
}

/// Whether the two names are the same.
pub fn same_name(first: &Vec<char>, second: &Vec<char>) -> (r: bool)
    ensures
        r == (first@ == second@),
{
    if first.len() != second.len() {
        return false;
    }
    let mut i: usize = 0;
    while i < first.len()
        invariant
            i <= first@.len(),
            first@.len() == second@.len(),
            forall|j: int| 0 <= j < i ==> first@[j] == second@[j],
        decreases first@.len() - i,
    {
        if first[i] != second[i] {
            return false;
        }
        i = i + 1;
    }
    proof {
        assert(first@ =~= second@);
    }
    true
}

/// Whether no two names of the list are the same.
pub fn distinct_names(names: &Vec<Vec<char>>) -> (r: bool)
    ensures
        r == are_distinct_names(names.deep_view()),
{
    let ghost list = names.deep_view();
    let mut j: usize = 0;
    while j < names.len()
        invariant
            j <= names@.len(),
            list == names.deep_view(),
            forall|a: int, b: int| 0 <= a < b < j ==> #[trigger] list[a] != #[trigger] list[b],
        decreases names@.len() - j,
    {
        let mut i: usize = 0;
        while i < j
            invariant
                i <= j < names@.len(),
                list == names.deep_view(),
                forall|a: int| 0 <= a < i ==> #[trigger] list[a] != list[j as int],
            decreases j - i,
        {
            proof {
                assert(list[i as int] == names@[i as int]@);
                assert(list[j as int] == names@[j as int]@);
            }
            if same_name(&names[i], &names[j]) {
                return false;
            }
            i = i + 1;
        }
        j = j + 1;
    }
    true
}

/// Whether `long` is `short` with the suffix of an extra variable.
pub fn is_extra_of(long: &Vec<char>, short: &Vec<char>) -> (r: bool)
    ensures
        r == (long@ == short@ + extra_suffix()),
{
    let suffix: [char; 8] = ['_', 'e', 'x', 't', 'r', 'a', '_', '0'];
    let ghost wanted = short@ + extra_suffix();
    proof {
        assert(suffix@ =~= extra_suffix());
        assert(extra_suffix().len() == 8);
        assert(wanted.len() == short@.len() + 8);
    }
    let length = long.len();
    if short.len() > usize::MAX - 8 || length != short.len() + 8 {
        return false;
    }
    let mut i: usize = 0;
    while i < short.len()
        invariant
            i <= short@.len(),
            long@.len() == short@.len() + 8,
            wanted == short@ + extra_suffix(),
            forall|j: int| 0 <= j < i ==> long@[j] == wanted[j],
        decreases short@.len() - i,
    {
        if long[i] != short[i] {
            proof {
                assert(wanted[i as int] == short@[i as int]);
            }
            return false;
        }
        i = i + 1;
    }
    let mut k: usize = 0;
    while k < 8
        invariant
            k <= 8,
            long@.len() == short@.len() + 8,
            short@.len() + 8 <= usize::MAX,
            wanted == short@ + extra_suffix(),
            suffix@ == extra_suffix(),
            forall|j: int| 0 <= j < short@.len() + k ==> long@[j] == wanted[j],
        decreases 8 - k,
    {
        if long[short.len() + k] != suffix[k] {
            proof {
                assert(wanted[short@.len() + k] == extra_suffix()[k as int]);
            }
            return false;
        }
        proof {
            assert(wanted[short@.len() + k] == extra_suffix()[k as int]);
        }
        k = k + 1;
    }
    proof {
        assert(long@ =~= wanted);
    }
    true
}

/// Whether no name of the list is the name of the extra variable of another.
pub fn no_extra_clash(names: &Vec<Vec<char>>) -> (r: bool)
    ensures
        r == has_no_extra_clash(names.deep_view()),
{
    let ghost list = names.deep_view();
    let mut i: usize = 0;
    while i < names.len()
        invariant
            i <= names@.len(),
            list == names.deep_view(),
            forall|a: int, b: int|
                0 <= a < i && 0 <= b < list.len() ==> #[trigger] list[b] != (#[trigger] list[a])
                    + extra_suffix(),
        decreases names@.len() - i,
    {
        let mut j: usize = 0;
        while j < names.len()
            invariant
                i < names@.len(),
                j <= names@.len(),
                list == names.deep_view(),
                forall|b: int|
                    0 <= b < j ==> #[trigger] list[b] != list[i as int] + extra_suffix(),
            decreases names@.len() - j,
        {
            proof {
                assert(list[i as int] == names@[i as int]@);
                assert(list[j as int] == names@[j as int]@);
            }
            if is_extra_of(&names[j], &names[i]) {
                return false;
            }
            j = j + 1;
        }
        i = i + 1;
    }
    true
}

/// The number of rows of the table of a function of `arity` arguments, as
/// far as it matters below the limit.
pub fn rows_of(arity: usize) -> (r: u64)
    ensures
        r == table_rows(arity as nat),
{
    if arity == 0 {
        1
    } else if arity == 1 {
        2
    } else if arity == 2 {
        4
    } else if arity == 3 {
        8
    } else if arity == 4 {
        16
    } else if arity == 5 {
        32
    } else if arity == 6 {
        64
    } else if arity == 7 {
        128
    } else if arity == 8 {
        256
    } else if arity == 9 {
        512
    } else if arity == 10 {
        1024
    } else if arity == 11 {
        2048
    } else if arity == 12 {
        4096
    } else if arity == 13 {
        8192
    } else if arity == 14 {
        16384
    } else if arity == 15 {
        32768
    } else {
        65536
    }
}

/// The sum of the rows grows with the functions counted.
pub proof fn lemma_declared_rows_grow(arities: Seq<u32>, from: int, upto: int)
    requires
        from <= upto,
    ensures
        0 <= declared_rows(arities, from) <= declared_rows(arities, upto),
    decreases upto - from, upto,
{
    if from < upto {
        lemma_declared_rows_grow(arities, from, upto - 1);
    } else if upto > 0 {
        lemma_declared_rows_grow(arities, upto - 1, upto - 1);
    }
}

/// The sum of the rows grows with the variables counted.
pub proof fn lemma_implicit_rows_grow(
    rules: Seq<bool>,
    regulators: Seq<Seq<usize>>,
    from: int,
    upto: int,
)
    requires
        from <= upto,
    ensures
        0 <= implicit_rows(rules, regulators, from) <= implicit_rows(rules, regulators, upto),
    decreases upto - from, upto,
{
    if from < upto {
        lemma_implicit_rows_grow(rules, regulators, from, upto - 1);
    } else if upto > 0 {
        lemma_implicit_rows_grow(rules, regulators, upto - 1, upto - 1);
    }
}

/// Whether the symbolic variables of the encoding can be numbered.
pub fn symbols_fit(bn: &BooleanNetwork) -> (r: bool)
    ensures
        r == (symbol_count(*bn) <= SYMBOL_LIMIT),
{
    let size = network_size(bn);
    let arities = network_parameter_arities(bn);
    let ghost rules = network_rules(*bn);
    let ghost regulators = network_regulators(*bn);
    proof {
        lemma_declared_rows_grow(arities@, 0, arities@.len() as int);
        lemma_implicit_rows_grow(rules, regulators, 0, size as int);
    }
    if size > 32767 {
        return false;
    }
    let mut total: u64 = 2 * (size as u64);
    let mut p: usize = 0;
    while p < arities.len()
        invariant
            p <= arities@.len(),
            size <= 32767,
            size == rules.len(),
            arities@ == network_function_arities(*bn),
            rules == network_rules(*bn),
            regulators == network_regulators(*bn),
            total == 2 * size + declared_rows(arities@, p as int),
            total <= SYMBOL_LIMIT,
        decreases arities@.len() - p,
    {
        total = total + rows_of(arities[p] as usize);
        if total > SYMBOL_LIMIT {
            proof {
                lemma_declared_rows_grow(arities@, p + 1, arities@.len() as int);
                lemma_implicit_rows_grow(rules, regulators, 0, size as int);
            }
            return false;
        }
        p = p + 1;
    }
    let mut var: usize = 0;
    while var < size
        invariant
            var <= size,
            size == rules.len(),
            arities@ == network_function_arities(*bn),
            rules == network_rules(*bn),
            regulators == network_regulators(*bn),
            total == 2 * size + declared_rows(arities@, arities@.len() as int) + implicit_rows(
                rules,
                regulators,
                var as int,
            ),
            total <= SYMBOL_LIMIT,
        decreases size - var,
    {
        if !network_has_rule(bn, var) {
            total = total + rows_of(network_regulator_count(bn, var));
            if total > SYMBOL_LIMIT {
                proof {
                    lemma_implicit_rows_grow(rules, regulators, var + 1, size as int);
                }
                return false;
            }
        }
        var = var + 1;
    }
    true
}

/// Whether the network can be handed to the encoding.
pub fn can_encode(bn: &BooleanNetwork) -> (r: bool)
    ensures
        r == is_nameable(*bn),
{
    let names = network_variable_names(bn);
    let functions = network_parameter_names(bn);
    free_names(&names) && free_names(&functions) && distinct_names(&names) && distinct_names(
        &functions,
    ) && no_extra_clash(&names) && symbols_fit(bn)
}

/// The context that encodes the network, with one extra symbolic variable
/// for each network variable; none if the network cannot be handed to the
/// encoding, or if the encoding refuses it.
pub fn encode(bn: &BooleanNetwork) -> (r: Option<Result<SymbolicContext, String>>)
    ensures
        r is None <==> !is_nameable(*bn),
        r matches Some(outcome) ==> (outcome is Ok) == encodable(*bn),
        r matches Some(Ok(context)) ==> context == encoding_of(*bn) && context_wf(
            context,
            network_rules(*bn).len(),
        ),
{
    if can_encode(bn) {
        Some(make_context(bn))
    } else {
        None
    }
}

} // verus!
