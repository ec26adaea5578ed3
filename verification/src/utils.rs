use vstd::prelude::*;
use biodivine_lib_param_bn::BooleanNetwork;
use crate::network::{
    is_declared, is_regulated, network_add_copy_rule, network_add_regulation, network_copies,
    network_declared, network_has_rule, network_regulator_count, network_regulators,
    network_rules, network_size, with_regulator, Regulation, Sign,
};
use vstd::arithmetic::div_mod::lemma_fundamental_div_mod_converse;
use vstd::arithmetic::mul::lemma_mul_is_distributive_add_other_way;

verus! {

/// The number of variations of length `k` over `n` values: `n` to the power `k`.
pub open spec fn variation_count(n: nat, k: nat) -> nat
    decreases k,
{
    if k == 0 {
        1
    } else {
        n * variation_count(n, (k - 1) as nat)
    }
}

/// Which of the `n` values stands at position `pos` of the `j`-th variation of
/// length `k`, when the variations are listed in lexicographic order with the
/// leftmost position the most significant.
pub open spec fn variation_digit(n: nat, k: nat, j: nat, pos: nat) -> nat
    decreases k,
{
    if k == 0 {
        0
    } else {
        let rest = variation_count(n, (k - 1) as nat);
        if rest == 0 {
            0
        } else if pos == 0 {
            j / rest
        } else {
            variation_digit(n, (k - 1) as nat, j % rest, (pos - 1) as nat)
        }
    }
}

/// `b` was obtained from `a` by cloning at most twice.
pub open spec fn copy_of<T: Clone>(a: T, b: T) -> bool {
    exists|m: T| cloned(a, m) && cloned(m, b)
}

/// Every digit of a variation names one of the `n` values.
pub proof fn lemma_variation_digit_bound(n: nat, k: nat, j: nat, pos: nat)
    requires
        pos < k,
        j < variation_count(n, k),
    ensures
        variation_digit(n, k, j, pos) < n,
    decreases k,
{
    let rest = variation_count(n, (k - 1) as nat);
    if rest == 0 {
        assert(variation_count(n, k) == n * rest);
        assert(n * rest == 0) by (nonlinear_arith)
            requires
                rest == 0,
        ;
    } else if pos == 0 {
        assert(j / rest < n) by (nonlinear_arith)
            requires
                j < n * rest,
                rest > 0,
        ;
    } else {
        assert(j % rest < rest) by (nonlinear_arith)
            requires
                rest > 0,
        ;
        lemma_variation_digit_bound(n, (k - 1) as nat, j % rest, (pos - 1) as nat);
    }
}

/// Returns all variations with replacement of `num` of the `values`, in
/// lexicographic order of the positions of the chosen values.
pub fn variations_with_replacement<T: Default + Clone>(values: &[T], num: usize) -> (result: Vec<
    Vec<T>,
>)
    ensures
        result@.len() == variation_count(values@.len(), num as nat),
        forall|j: int|
            0 <= j < result@.len() ==> (#[trigger] result@[j])@.len() == num,
        forall|j: int, pos: int|
            0 <= j < result@.len() && 0 <= pos < num ==> #[trigger] variation_digit(
                values@.len(),
                num as nat,
                j as nat,
                pos as nat,
            ) < values@.len(),
        forall|j: int, pos: int|
            0 <= j < result@.len() && 0 <= pos < num ==> copy_of(
                values@[variation_digit(values@.len(), num as nat, j as nat, pos as nat) as int],
                #[trigger] result@[j]@[pos],
            ),
{
    let mut result: Vec<Vec<T>> = Vec::new();
    let mut first: Vec<T> = Vec::new();
    let mut i: usize = 0;
    while i < num
        invariant
            i <= num,
            first@.len() == i,
        decreases num - i,
    {
        first.push(T::default());
        i = i + 1;
    }
    variations_with_replacement_r(values, &mut first, 0, &mut result);
    proof {
        assert forall|j: int, pos: int|
            0 <= j < result@.len() && 0 <= pos < num implies #[trigger] variation_digit(
            values@.len(),
            num as nat,
            j as nat,
            pos as nat,
        ) < values@.len() by {
            lemma_variation_digit_bound(values@.len(), num as nat, j as nat, pos as nat);
        }
    }
    result
}

/// Appends to `result` every variation that keeps the first `index` entries of
/// `current` and fills the remaining positions from `values`, in
/// lexicographic order.
pub fn variations_with_replacement_r<T: Default + Clone>(
    values: &[T],
    current: &mut Vec<T>,
    index: usize,
    result: &mut Vec<Vec<T>>,
)
    requires
        index <= old(current)@.len(),
    ensures
        final(current)@.len() == old(current)@.len(),
        forall|pos: int| 0 <= pos < index ==> final(current)@[pos] == old(current)@[pos],
        final(result)@.len() == old(result)@.len() + variation_count(
            values@.len(),
            (old(current)@.len() - index) as nat,
        ),
        forall|j: int| 0 <= j < old(result)@.len() ==> final(result)@[j] == old(result)@[j],
        forall|j: int|
            old(result)@.len() <= j < final(result)@.len() ==> (#[trigger] final(result)@[j])@.len()
                == old(current)@.len(),
        forall|j: int, pos: int|
            old(result)@.len() <= j < final(result)@.len() && 0 <= pos < index ==> cloned(
                old(current)@[pos],
                #[trigger] final(result)@[j]@[pos],
            ),
        forall|j: int, pos: int|
            old(result)@.len() <= j < final(result)@.len() && index <= pos < old(current)@.len()
                ==> copy_of(
                values@[variation_digit(
                    values@.len(),
                    (old(current)@.len() - index) as nat,
                    (j - old(result)@.len()) as nat,
                    (pos - index) as nat,
                ) as int],
                #[trigger] final(result)@[j]@[pos],
            ),
    decreases old(current)@.len() - index,
{
    let ghost len = current@.len();
    let ghost base = result@.len();
    let ghost n = values@.len();
    let ghost k = (len - index) as nat;
    if index == current.len() {
        let leaf = current.clone();
        result.push(leaf);
        return ;
    }
    let ghost rest = variation_count(n, (k - 1) as nat);
    let mut d: usize = 0;
    while d < values.len()
        invariant
            d <= values@.len(),
            n == values@.len(),
            index < len,
            len == old(current)@.len(),
            k == len - index,
            rest == variation_count(n, (k - 1) as nat),
            current@.len() == len,
            base == old(result)@.len(),
            forall|pos: int| 0 <= pos < index ==> current@[pos] == old(current)@[pos],
            result@.len() == base + d * rest,
            forall|j: int| 0 <= j < base ==> result@[j] == old(result)@[j],
            forall|j: int| base <= j < result@.len() ==> (#[trigger] result@[j])@.len() == len,
            forall|j: int, pos: int|
                base <= j < result@.len() && 0 <= pos < index ==> cloned(
                    old(current)@[pos],
                    #[trigger] result@[j]@[pos],
                ),
            forall|j: int, pos: int|
                base <= j < result@.len() && index <= pos < len ==> copy_of(
                    values@[variation_digit(n, k, (j - base) as nat, (pos - index) as nat) as int],
                    #[trigger] result@[j]@[pos],
                ),
        decreases values@.len() - d,
    {
        assert(index < current.len());
        let chosen = values[d].clone();
        current.set(index, chosen);
        let ghost before = result@;
        let ghost filled = current@;
        variations_with_replacement_r(values, current, index + 1, result);
        proof {
            let start = base + d * rest;
            assert(before.len() == start);
            assert(result@.len() == base + (d + 1) * rest) by {
                lemma_mul_is_distributive_add_other_way(rest as int, d as int, 1);
            }
            assert forall|j: int, pos: int|
                base <= j < result@.len() && index <= pos < len implies copy_of(
                values@[variation_digit(n, k, (j - base) as nat, (pos - index) as nat) as int],
                #[trigger] result@[j]@[pos],
            ) by {
                if j >= start {
                    let t = j - start;
                    assert(0 <= t < rest);
                    lemma_fundamental_div_mod_converse(j - base, rest as int, d as int, t);
                    if pos == index {
                        assert(variation_digit(n, k, (j - base) as nat, 0) == d);
                        assert(cloned(filled[pos], result@[j]@[pos]));
                        assert(cloned(values@[d as int], filled[pos]));
                    } else {
                        assert(variation_digit(n, k, (j - base) as nat, (pos - index) as nat)
                            == variation_digit(
                            n,
                            (k - 1) as nat,
                            t as nat,
                            (pos - index - 1) as nat,
                        ));
                    }
                } else {
                    assert(result@[j] == before[j]);
                }
            }
            assert forall|j: int, pos: int|
                base <= j < result@.len() && 0 <= pos < index implies cloned(
                old(current)@[pos],
                #[trigger] result@[j]@[pos],
            ) by {
                if j >= start {
                    assert(filled[pos] == old(current)@[pos]);
                } else {
                    assert(result@[j] == before[j]);
                }
            }
            assert forall|j: int| base <= j < result@.len() implies (#[trigger] result@[j])@.len()
                == len by {
                if j < start {
                    assert(result@[j] == before[j]);
                }
            }
        }
        d = d + 1;
    }
    proof {
        assert(variation_count(n, k) == n * rest);
    }
}

/// The variable `var` of the network is an input without a rule: it has
/// neither a regulator nor an update rule.
pub open spec fn is_bare_input(model: BooleanNetwork, var: int) -> bool {
    !network_rules(model)[var] && network_regulators(model)[var].len() == 0
}

/// The regulation by which an input acts on itself: observable and
/// activating.
pub open spec fn self_loop(var: usize) -> Regulation {
    Regulation { regulator: var, target: var, observable: true, monotonicity: Some(Sign::Activation) }
}

/// The regulations `declared` with a self loop for each of the first `upto`
/// variables of `model` that is an input without a rule, in the order of the
/// variables.
pub open spec fn with_self_loops(declared: Seq<Regulation>, model: BooleanNetwork, upto: int) -> Seq<
    Regulation,
>
    decreases upto,
{
    if upto <= 0 {
        declared
    } else if is_bare_input(model, upto - 1) {
        with_self_loops(declared, model, upto - 1).push(self_loop((upto - 1) as usize))
    } else {
        with_self_loops(declared, model, upto - 1)
    }
}

/// Gives every input of `model` that has no update rule itself as its
/// regulator and the identity as its rule, so that such a variable can be
/// fixed as a part of the state and is no free parametrization. The
/// regulation of an input by itself is declared observable and activating.
pub fn add_self_regulations(model: BooleanNetwork) -> (r: BooleanNetwork)
    ensures
        network_rules(r).len() == network_rules(model).len(),
        network_regulators(r).len() == network_regulators(model).len(),
        network_copies(r).len() == network_rules(model).len(),
        forall|var: int|
            0 <= var < network_rules(model).len() ==> #[trigger] network_rules(r)[var] == (
            network_rules(model)[var] || is_bare_input(model, var)),
        forall|var: int|
            0 <= var < network_rules(model).len() ==> #[trigger] network_regulators(r)[var]
                == if is_bare_input(model, var) {
                seq![var as usize]
            } else {
                network_regulators(model)[var]
            },
        network_declared(r) == with_self_loops(
            network_declared(model),
            model,
            network_rules(model).len() as int,
        ),
        forall|var: int|
            0 <= var < network_rules(model).len() && is_bare_input(model, var)
                ==> #[trigger] network_copies(r)[var] == Some(var as usize),
        forall|var: int| 0 <= var < network_rules(r).len() ==> !is_bare_input(r, var),
{
    let ghost given = model;
    let mut model = model;
    let size = network_size(&model);
    let mut var: usize = 0;
    while var < size
        invariant
            var <= size,
            size == network_rules(given).len(),
            size == network_regulators(given).len(),
            network_rules(model).len() == size,
            network_regulators(model).len() == size,
            network_copies(model).len() == size,
            forall|i: int|
                0 <= i < var ==> #[trigger] network_rules(model)[i] == (network_rules(given)[i]
                    || is_bare_input(given, i)),
            forall|i: int|
                0 <= i < var ==> #[trigger] network_regulators(model)[i] == if is_bare_input(
                    given,
                    i,
                ) {
                    seq![i as usize]
                } else {
                    network_regulators(given)[i]
                },
            forall|i: int|
                var <= i < size ==> #[trigger] network_rules(model)[i] == network_rules(given)[i],
            forall|i: int|
                var <= i < size ==> #[trigger] network_regulators(model)[i] == network_regulators(
                    given,
                )[i],
            network_declared(model) == with_self_loops(network_declared(given), given, var as int),
            forall|i: int|
                0 <= i < var && is_bare_input(given, i) ==> #[trigger] network_copies(model)[i]
                    == Some(i as usize),
        decreases size - var,
    {
        if network_regulator_count(&model, var) == 0 && !network_has_rule(&model, var) {
            let ghost before = model;
            let own = Regulation {
                regulator: var,
                target: var,
                observable: true,
                monotonicity: Some(Sign::Activation),
            };
            proof {
                if is_declared(network_declared(model), var, var) {
                    let k = choose|k: int|
                        0 <= k < network_declared(model).len() && (
                        #[trigger] network_declared(model)[k]).regulator == var
                            && network_declared(model)[k].target == var;
                    assert(is_regulated(network_declared(model), var));
                }
            }
            let looped = network_add_regulation(&mut model, &own);
            proof {
                let none = network_regulators(before)[var as int];
                broadcast use vstd::seq_lib::group_filter_ensures;
                assert(none.filter(|y: usize| y < var) =~= Seq::<usize>::empty());
                assert(none.filter(|y: usize| y > var) =~= Seq::<usize>::empty());
                assert(with_regulator(none, var) =~= seq![var]);
                assert(seq![var].contains(var)) by {
                    assert(seq![var][0] == var);
                }
            }
            if looped.is_ok() {
                let ruled = network_add_copy_rule(&mut model, var, var);
                assert(ruled is Ok);
            }
        }
        var = var + 1;
    }
    model
}

} // verus!
