//! Modular-arithmetic facts about logarithms and scalars modulo the group order.

use crate::scalar::group_order;
use vstd::arithmetic::div_mod::{
    lemma_add_mod_noop, lemma_add_mod_noop_right, lemma_mod_add_multiples_vanish, lemma_mod_bound,
    lemma_mul_mod_noop_left, lemma_mul_mod_noop_right, lemma_small_mod, lemma_sub_mod_noop,
    lemma_sub_mod_noop_right,
};
use vstd::arithmetic::mul::{
    lemma_mul_is_associative, lemma_mul_is_commutative, lemma_mul_is_distributive_add,
    lemma_mul_is_distributive_sub, lemma_mul_is_distributive_sub_other_way,
};
use vstd::prelude::*;

verus! {

/// A value already in `[0, r)` is its own residue.
pub proof fn lemma_reduced(x: int)
    requires
        0 <= x < group_order(),
    ensures
        x % group_order() == x,
{
    lemma_small_mod(x as nat, group_order() as nat);
}

/// Multiplying the generator's logarithm `1` by `a` gives `a`.
pub proof fn lemma_one_times(a: int)
    requires
        0 <= a < group_order(),
    ensures
        (1 * a) % group_order() == a,
{
    lemma_reduced(a);
}

/// The sigma-protocol equation: with response `s = k + e·w`, the point `g·s`
/// equals the commitment `g·k` plus `e` times the statement `g·w`.
pub proof fn lemma_response_balances(g: int, k: int, w: int, e: int)
    ensures
        (g * ((k + (e * w) % group_order()) % group_order())) % group_order() == ((g * k)
            % group_order() + ((g * w) % group_order() * e) % group_order()) % group_order(),
{
    let m = group_order();
    lemma_add_mod_noop_right(k, e * w, m);
    lemma_mul_mod_noop_right(g, k + e * w, m);
    lemma_mul_is_distributive_add(g, k, e * w);
    lemma_mul_is_associative(g, e, w);
    lemma_mul_is_commutative(g, e);
    lemma_mul_is_associative(e, g, w);
    lemma_mul_is_commutative(e, g * w);
    lemma_mul_mod_noop_left(g * w, e, m);
    lemma_add_mod_noop(g * k, (g * w) * e, m);
}

/// Re-masking by `a` and then by `b = (c - a) mod r` re-masks by `c`, on the
/// first component of a ciphertext.
pub proof fn lemma_first_component_composes(x: int, a: int, c: int)
    ensures
        ((x + a) % group_order() + (c - a) % group_order()) % group_order() == (x + c)
            % group_order(),
{
    let m = group_order();
    lemma_add_mod_noop(x + a, c - a, m);
}

/// Re-masking by `a` and then by `b = (c - a) mod r` re-masks by `c`, on the
/// second component of a ciphertext under the key with logarithm `h`.
pub proof fn lemma_second_component_composes(y: int, h: int, a: int, c: int)
    ensures
        ((y + (h * a) % group_order()) % group_order() + (h * ((c - a) % group_order()))
            % group_order()) % group_order() == (y + (h * c) % group_order()) % group_order(),
{
    let m = group_order();
    lemma_mul_mod_noop_right(h, c - a, m);
    lemma_add_mod_noop(y + (h * a) % m, h * (c - a), m);
    lemma_mod_bound(y + (h * a) % m, m);
    lemma_add_mod_noop_right(y, h * a, m);
    lemma_mod_bound(y + h * a, m);
    lemma_add_mod_noop(y + h * a, h * (c - a), m);
    lemma_mul_is_distributive_sub(h, c, a);
    lemma_add_mod_noop_right(y, h * c, m);
    assert(((y + (h * a) % m) % m + (h * (c - a)) % m) % m == ((y + (h * a) % m) + h * (c - a))
        % m);
    assert(((y + (h * a) % m) + h * (c - a)) % m == (y + h * a + h * (c - a)) % m) by {
        lemma_add_mod_noop_right(y + h * (c - a), h * a, m);
    }
}

/// Two values in `[0, r)` that agree modulo `r` are equal.
pub proof fn lemma_reduced_equal(a: int, b: int)
    requires
        0 <= a < group_order(),
        0 <= b < group_order(),
        (a - b) % group_order() == 0,
    ensures
        a == b,
{
    let m = group_order();
    if a >= b {
        lemma_reduced(a - b);
    } else {
        lemma_mod_add_multiples_vanish(a - b, m);
        lemma_reduced(m + (a - b));
    }
}

/// The sigma-protocol check, read backwards: when `e·a` and `e·p` shift `c` to
/// the same residue, `e·(a − p)` is a multiple of `r`; and when `e` has an
/// inverse modulo `r`, `a` and `p` agree modulo `r`.
pub proof fn lemma_challenge_cancels(c: int, a: int, p: int, e: int, e_inv: int)
    requires
        (c + (a * e) % group_order()) % group_order() == (c + (p * e) % group_order())
            % group_order(),
    ensures
        (e * (a - p)) % group_order() == 0,
        (e * e_inv) % group_order() == 1 ==> (a - p) % group_order() == 0,
{
    let m = group_order();
    lemma_add_mod_noop_right(c, a * e, m);
    lemma_add_mod_noop_right(c, p * e, m);
    lemma_sub_mod_noop(c + a * e, c + p * e, m);
    assert(c + a * e - (c + p * e) == a * e - p * e);
    lemma_mul_is_distributive_sub_other_way(e, a, p);
    lemma_mul_is_commutative(e, a - p);
    if (e * e_inv) % m == 1 {
        let x = a - p;
        lemma_mul_mod_noop_left(e * x, e_inv, m);
        lemma_mul_is_associative(e, x, e_inv);
        lemma_mul_is_commutative(x, e_inv);
        lemma_mul_is_associative(e, e_inv, x);
        lemma_mul_mod_noop_left(e * e_inv, x, m);
        assert((e * x) * e_inv == (e * e_inv) * x);
    }
}

/// Adding a reduced value after a reduction is adding it before.
pub proof fn lemma_add_after_reduction(a: int, b: int)
    requires
        0 <= b < group_order(),
    ensures
        ((a % group_order()) + b) % group_order() == (a + b) % group_order(),
{
    let m = group_order();
    lemma_add_mod_noop(a, b, m);
    lemma_reduced(b);
    vstd::arithmetic::div_mod::lemma_mod_twice(a, m);
}

/// Subtracting a sum that includes `t` and then adding `t` back is
/// subtracting the sum without `t`, modulo `r`.
pub proof fn lemma_withheld_term(c: int, rest: int, t: int)
    requires
        0 <= t < group_order(),
    ensures
        (c - rest % group_order()) % group_order() == ((c - (rest + t) % group_order())
            % group_order() + t) % group_order(),
{
    let m = group_order();
    lemma_sub_mod_noop_right(c, rest, m);
    lemma_sub_mod_noop_right(c, rest + t, m);
    lemma_add_after_reduction(c - (rest + t), t);
    assert(c - (rest + t) + t == c - rest);
}

} // verus!
