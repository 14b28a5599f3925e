//! Finite sums of an integer-valued function, and the identities the
//! inverse-transform proof needs: linearity, exchange of a double sum,
//! and congruence modulo `p`.

use crate::field::lemma_add_mod_terms;
use vstd::arithmetic::div_mod::{lemma_add_mod_noop, lemma_mod_twice};
use vstd::prelude::*;

verus! {

/// `f(0) + f(1) + ... + f(n-1)`.
pub open spec fn sum_of(f: spec_fn(int) -> int, n: nat) -> int
    decreases n,
{
    if n == 0 {
        0
    } else {
        sum_of(f, (n - 1) as nat) + f(n - 1)
    }
}

/// Functions equal below `n` have equal sums.
pub proof fn lemma_sum_ext(f: spec_fn(int) -> int, g: spec_fn(int) -> int, n: nat)
    requires
        forall|i: int| 0 <= i < n ==> #[trigger] f(i) == g(i),
    ensures
        sum_of(f, n) == sum_of(g, n),
    decreases n,
{
    if n != 0 {
        lemma_sum_ext(f, g, (n - 1) as nat);
    }
}

/// The sum of a pointwise sum splits.
pub proof fn lemma_sum_add(f: spec_fn(int) -> int, g: spec_fn(int) -> int, s: spec_fn(int) -> int, n: nat)
    requires
        forall|i: int| 0 <= i < n ==> #[trigger] s(i) == f(i) + g(i),
    ensures
        sum_of(s, n) == sum_of(f, n) + sum_of(g, n),
    decreases n,
{
    if n != 0 {
        lemma_sum_add(f, g, s, (n - 1) as nat);
    }
}

/// A sum of zeros is zero.
pub proof fn lemma_sum_zero(f: spec_fn(int) -> int, n: nat)
    requires
        forall|i: int| 0 <= i < n ==> #[trigger] f(i) == 0,
    ensures
        sum_of(f, n) == 0,
    decreases n,
{
    if n != 0 {
        lemma_sum_zero(f, (n - 1) as nat);
    }
}

/// A sum of a constant is that constant times the count.
pub proof fn lemma_sum_const(f: spec_fn(int) -> int, c: int, n: nat)
    requires
        forall|i: int| 0 <= i < n ==> #[trigger] f(i) == c,
    ensures
        sum_of(f, n) == n * c,
    decreases n,
{
    if n == 0 {
        assert(0int * c == 0) by (nonlinear_arith);
    } else {
        lemma_sum_const(f, c, (n - 1) as nat);
        assert((n as int) * c == ((n - 1) as int) * c + c) by (nonlinear_arith);
    }
}

/// A common factor moves out of a sum.
pub proof fn lemma_sum_scale(f: spec_fn(int) -> int, s: spec_fn(int) -> int, c: int, n: nat)
    requires
        forall|i: int| 0 <= i < n ==> #[trigger] s(i) == f(i) * c,
    ensures
        sum_of(s, n) == sum_of(f, n) * c,
    decreases n,
{
    if n == 0 {
        assert(0int * c == 0) by (nonlinear_arith);
    } else {
        lemma_sum_scale(f, s, c, (n - 1) as nat);
        assert((sum_of(f, (n - 1) as nat) + f(n - 1)) * c == sum_of(f, (n - 1) as nat) * c + f(
            n - 1,
        ) * c) by (nonlinear_arith);
    }
}

/// A double sum may be summed in either order.
pub proof fn lemma_sum_swap(h: spec_fn(int, int) -> int, n: nat, m: nat)
    ensures
        sum_of(|i: int| sum_of(|j: int| h(i, j), m), n) == sum_of(
            |j: int| sum_of(|i: int| h(i, j), n),
            m,
        ),
    decreases n,
{
    let rows = |i: int| sum_of(|j: int| h(i, j), m);
    let cols_all = |j: int| sum_of(|i: int| h(i, j), n);
    if n == 0 {
        lemma_sum_zero(cols_all, m);
    } else {
        let n0 = (n - 1) as nat;
        lemma_sum_swap(h, n0, m);
        let cols_head = |j: int| sum_of(|i: int| h(i, j), n0);
        let last = |j: int| h(n - 1, j);
        assert forall|j: int| 0 <= j < m implies #[trigger] cols_all(j) == cols_head(j) + last(
            j,
        ) by {
            assert(sum_of(|i: int| h(i, j), n) == sum_of(|i: int| h(i, j), n0) + h(n - 1, j));
        };
        lemma_sum_add(cols_head, last, cols_all, m);
        assert(sum_of(rows, n) == sum_of(rows, n0) + rows(n - 1));
        assert(sum_of(rows, n0) == sum_of(cols_head, m));
        assert(rows(n - 1) == sum_of(last, m));
    }
}

/// Sums of termwise congruent functions are congruent.
pub proof fn lemma_sum_mod_congruent(f: spec_fn(int) -> int, g: spec_fn(int) -> int, n: nat, p: int)
    requires
        1 <= p,
        forall|i: int| 0 <= i < n ==> #[trigger] f(i) % p == g(i) % p,
    ensures
        sum_of(f, n) % p == sum_of(g, n) % p,
    decreases n,
{
    if n != 0 {
        lemma_sum_mod_congruent(f, g, (n - 1) as nat, p);
        lemma_add_mod_terms(sum_of(f, (n - 1) as nat), f(n - 1), sum_of(g, (n - 1) as nat), g(n - 1), p);
    }
}

/// A sum whose terms all vanish modulo `p` except the one at `k` is, modulo
/// `p`, that one term.
pub proof fn lemma_sum_all_but_one(f: spec_fn(int) -> int, n: nat, k: int, p: int)
    requires
        1 <= p,
        0 <= k < n,
        forall|i: int| 0 <= i < n && i != k ==> #[trigger] f(i) % p == 0,
    ensures
        sum_of(f, n) % p == f(k) % p,
    decreases n,
{
    let n0 = (n - 1) as nat;
    lemma_mod_twice(f(k), p);
    if k == n - 1 {
        let z = |i: int| 0;
        lemma_sum_mod_congruent(f, z, n0, p);
        lemma_sum_zero(z, n0);
        lemma_add_mod_noop(sum_of(f, n0), f(n - 1), p);
        assert((0int) % p == 0);
        lemma_mod_twice(f(n - 1), p);
    } else {
        lemma_sum_all_but_one(f, n0, k, p);
        lemma_add_mod_noop(sum_of(f, n0), f(n - 1), p);
        assert((f(k) % p + 0) % p == f(k) % p);
    }
}

} // verus!
