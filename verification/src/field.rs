//! Arithmetic in the prime field `Z/p`, on residues held as `u64`.
//!
//! A field element is a plain integer below the modulus `p`; the operations
//! reduce after every step, so `u128` intermediates never overflow.

use vstd::arithmetic::div_mod::{
    lemma_add_mod_noop, lemma_mod_bound, lemma_mul_mod_noop_general, lemma_small_mod,
};
use vstd::arithmetic::mul::{lemma_mul_is_associative, lemma_mul_is_distributive_add_other_way};
use vstd::prelude::*;

verus! {

/// `b^e` modulo `p`, with every intermediate product reduced.
pub open spec fn pow_mod(b: int, e: nat, p: int) -> int
    decreases e,
{
    if e == 0 {
        1int % p
    } else {
        (b * pow_mod(b, (e - 1) as nat, p)) % p
    }
}

pub proof fn lemma_pow_mod_bound(b: int, e: nat, p: int)
    requires
        1 <= p,
    ensures
        0 <= pow_mod(b, e, p) < p,
    decreases e,
{
    if e == 0 {
        lemma_mod_bound(1, p);
    } else {
        lemma_mod_bound(b * pow_mod(b, (e - 1) as nat, p), p);
    }
}

/// Sum of residues, reduced.
pub fn add_mod(a: u64, b: u64, p: u64) -> (r: u64)
    requires
        1 <= p,
        a < p,
        b < p,
    ensures
        r == (a + b) % (p as int),
        r < p,
{
    let s: u128 = a as u128 + b as u128;
    proof {
        lemma_mod_bound(s as int, p as int);
    }
    (s % (p as u128)) as u64
}

/// Product of residues, reduced through a `u128` intermediate.
pub fn mul_mod(a: u64, b: u64, p: u64) -> (r: u64)
    requires
        1 <= p,
        a < p,
        b < p,
    ensures
        r == (a * b) % (p as int),
        r < p,
{
    proof {
        assert((a as int) * (b as int) < 0x100000000000000000000000000000000int) by (nonlinear_arith)
            requires
                a < 0x10000000000000000,
                b < 0x10000000000000000,
        ;
    }
    let s: u128 = (a as u128) * (b as u128);
    proof {
        lemma_mod_bound(s as int, p as int);
    }
    (s % (p as u128)) as u64
}

/// Modular exponentiation by repeated multiplication.
pub fn pow_mod_exec(b: u64, e: u64, p: u64) -> (r: u64)
    requires
        1 <= p,
        b < p,
    ensures
        r == pow_mod(b as int, e as nat, p as int),
        r < p,
{
    let mut acc: u64 = 1 % p;
    let mut i: u64 = 0;
    proof {
        lemma_mod_bound(1, p as int);
    }
    while i < e
        invariant
            i <= e,
            1 <= p,
            b < p,
            acc == pow_mod(b as int, i as nat, p as int),
            acc < p,
        decreases e - i,
    {
        proof {
            assert(pow_mod(b as int, (i + 1) as nat, p as int) == ((b as int) * pow_mod(
                b as int,
                i as nat,
                p as int,
            )) % (p as int));
            assert((acc as int) * (b as int) == (b as int) * (acc as int)) by (nonlinear_arith);
        }
        acc = mul_mod(acc, b, p);
        i = i + 1;
    }
    acc
}

/// The power of a sum of exponents is the reduced product of the powers.
pub proof fn lemma_pow_mod_add(b: int, e1: nat, e2: nat, p: int)
    requires
        1 <= p,
    ensures
        pow_mod(b, e1 + e2, p) == (pow_mod(b, e1, p) * pow_mod(b, e2, p)) % p,
    decreases e1,
{
    lemma_pow_mod_bound(b, e2, p);
    if e1 == 0 {
        lemma_small_mod(pow_mod(b, e2, p) as nat, p as nat);
        lemma_mul_mod_noop_general(1, pow_mod(b, e2, p), p);
    } else {
        let e0 = (e1 - 1) as nat;
        lemma_pow_mod_add(b, e0, e2, p);
        assert(pow_mod(b, e1 + e2, p) == (b * pow_mod(b, e0 + e2, p)) % p);
        lemma_mul_mod_noop_general(b, pow_mod(b, e0, p) * pow_mod(b, e2, p), p);
        assert((b * ((pow_mod(b, e0, p) * pow_mod(b, e2, p)) % p)) % p == (b * (pow_mod(b, e0, p)
            * pow_mod(b, e2, p))) % p);
        lemma_mul_is_associative(b, pow_mod(b, e0, p), pow_mod(b, e2, p));
        lemma_mul_mod_noop_general(b * pow_mod(b, e0, p), pow_mod(b, e2, p), p);
    }
}

/// The power of a product of exponents is an iterated power.
pub proof fn lemma_pow_mod_mul(b: int, e1: nat, e2: nat, p: int)
    requires
        1 <= p,
    ensures
        pow_mod(b, e1 * e2, p) == pow_mod(pow_mod(b, e1, p), e2, p),
    decreases e2,
{
    if e2 == 0 {
        assert(e1 * 0 == 0);
    } else {
        let e0 = (e2 - 1) as nat;
        lemma_pow_mod_mul(b, e1, e0, p);
        lemma_pow_mod_add(b, e1, e1 * e0, p);
        lemma_mul_is_distributive_add_other_way(e1 as int, 1, e0 as int);
        assert(e1 * e2 == e1 + e1 * e0) by (nonlinear_arith)
            requires
                e2 == e0 + 1,
        ;
    }
}

/// Reducing the base first does not change a power.
pub proof fn lemma_pow_mod_base_reduce(b: int, e: nat, p: int)
    requires
        1 <= p,
    ensures
        pow_mod(b % p, e, p) == pow_mod(b, e, p),
    decreases e,
{
    if e != 0 {
        let e0 = (e - 1) as nat;
        lemma_pow_mod_base_reduce(b, e0, p);
        lemma_mul_mod_noop_general(b, pow_mod(b, e0, p), p);
    }
}

/// The power of a product of bases is the reduced product of the powers.
pub proof fn lemma_pow_mod_product(a: int, b: int, e: nat, p: int)
    requires
        1 <= p,
    ensures
        pow_mod(a * b, e, p) == (pow_mod(a, e, p) * pow_mod(b, e, p)) % p,
    decreases e,
{
    lemma_pow_mod_bound(a, e, p);
    lemma_pow_mod_bound(b, e, p);
    if e == 0 {
        let o = 1int % p;
        lemma_mod_bound(1, p);
        if p == 1 {
            assert(o == 0);
            assert((o * o) % p == 0);
        } else {
            lemma_small_mod(1, p as nat);
            assert(o == 1);
            assert(o * o == 1) by (nonlinear_arith)
                requires
                    o == 1,
            ;
        }
    } else {
        let e0 = (e - 1) as nat;
        lemma_pow_mod_product(a, b, e0, p);
        let pa = pow_mod(a, e0, p);
        let pb = pow_mod(b, e0, p);
        // pow(a*b, e) == (a*b * ((pa*pb) % p)) % p == (a*b*pa*pb) % p
        lemma_mul_mod_noop_general(a * b, pa * pb, p);
        // target: (((a*pa)%p) * ((b*pb)%p)) % p == (a*pa*(b*pb)) % p
        lemma_mul_mod_noop_general(a * pow_mod(a, e0, p), b * pow_mod(b, e0, p), p);
        assert((a * b) * (pa * pb) == (a * pa) * (b * pb)) by (nonlinear_arith);
    }
}

/// Powers of one are one.
pub proof fn lemma_pow_mod_one(e: nat, p: int)
    requires
        1 <= p,
    ensures
        pow_mod(1, e, p) == 1int % p,
    decreases e,
{
    if e != 0 {
        lemma_pow_mod_one((e - 1) as nat, p);
        vstd::arithmetic::div_mod::lemma_mod_twice(1, p);
    }
}

/// `sum_{j < n} w^(d*j)` modulo nothing: the geometric sum of the powers
/// of `w` taken `d` apart, each term reduced.
pub open spec fn geo_sum(w: u64, d: nat, n: nat, p: u64) -> int
    decreases n,
{
    if n == 0 {
        0
    } else {
        geo_sum(w, d, (n - 1) as nat, p) + pow_mod(w as int, d * ((n - 1) as nat), p as int)
    }
}

/// `w` is a principal root of unity of order `r` in `Z/p`: every proper
/// geometric sum of its powers vanishes.  This is the exact property a
/// root of the two-adic subgroup has in a prime field, and what the
/// inverse transform rests on.
pub open spec fn principal_root(w: u64, r: nat, p: u64) -> bool {
    forall|d: nat| 1 <= d < r ==> (#[trigger] geo_sum(w, d, r, p)) % (p as int) == 0
}

/// Modular sums may be reduced term by term.
pub proof fn lemma_add_mod_terms(x: int, y: int, x2: int, y2: int, p: int)
    requires
        1 <= p,
        x % p == x2 % p,
        y % p == y2 % p,
    ensures
        (x + y) % p == (x2 + y2) % p,
{
    lemma_add_mod_noop(x, y, p);
    lemma_add_mod_noop(x2, y2, p);
}

} // verus!
