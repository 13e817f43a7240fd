//! Orders of residues: `x^a ≡ x^b (mod m)` exactly when `a ≡ b` modulo the
//! order of `x`.

use vstd::prelude::*;
use crate::arith::pow_mod;
use vstd::arithmetic::power::{pow, lemma_pow_adds, lemma_pow_multiplies, lemma_pow_mod_noop, lemma1_pow};
use vstd::arithmetic::div_mod::{
    lemma_mul_mod_noop, lemma_fundamental_div_mod, lemma_small_mod, lemma_mod_bound,
    lemma_add_mod_noop, lemma_sub_mod_noop, lemma_mod_multiples_vanish, lemma_mul_mod_noop_left,
    lemma_mul_mod_noop_right,
};
use vstd::arithmetic::power::lemma_pow1;

verus! {

/// `x` has multiplicative order `n` modulo `m`.
pub open spec fn has_order(x: nat, n: nat, m: nat) -> bool {
    &&& m > 1
    &&& n > 0
    &&& pow_mod(x, n, m) == 1
    &&& forall|k: nat| 0 < k < n ==> #[trigger] pow_mod(x, k, m) != 1
}

/// Powers of a natural number are natural.
pub proof fn lemma_pow_nat(b: nat, e: nat)
    ensures
        pow(b as int, e) >= 0,
    decreases e,
{
    reveal(pow);
    if e > 0 {
        lemma_pow_nat(b, (e - 1) as nat);
        assert(b * pow(b as int, (e - 1) as nat) >= 0) by (nonlinear_arith)
            requires
                b >= 0,
                pow(b as int, (e - 1) as nat) >= 0,
        ;
    }
}

/// `x^(a+b) mod m` from the two reduced powers.
pub proof fn lemma_pow_mod_add(x: nat, a: nat, b: nat, m: nat)
    requires
        m > 0,
    ensures
        pow_mod(x, a + b, m) == (pow_mod(x, a, m) * pow_mod(x, b, m)) % m,
{
    lemma_pow_adds(x as int, a, b);
    lemma_mul_mod_noop(pow(x as int, a), pow(x as int, b), m as int);
}

/// `(x^a mod m)^b mod m == x^(a*b) mod m`.
pub proof fn lemma_pow_mod_mul(x: nat, a: nat, b: nat, m: nat)
    requires
        m > 0,
    ensures
        pow_mod(pow_mod(x, a, m), b, m) == pow_mod(x, a * b, m),
{
    lemma_pow_mod_noop(pow(x as int, a), b, m as int);
    lemma_pow_multiplies(x as int, a, b);
    lemma_mod_bound(pow(x as int, a), m as int);
}

/// Exponents of an element of order `n` reduce modulo `n`.
pub proof fn lemma_pow_mod_reduce(x: nat, n: nat, m: nat, a: nat)
    requires
        has_order(x, n, m),
    ensures
        pow_mod(x, a, m) == pow_mod(x, a % n, m),
{
    let t = a / n;
    let r = a % n;
    lemma_fundamental_div_mod(a as int, n as int);
    assert(a == n * t + r);
    lemma_pow_mod_add(x, n * t, r, m);
    lemma_pow_mod_mul(x, n, t, m);
    lemma1_pow(t);
    lemma_small_mod(1, m);
    lemma_mod_bound(pow(x as int, r), m as int);
    lemma_small_mod(pow_mod(x, r, m), m);
}

/// Distinct exponents below the order give distinct powers.
pub proof fn lemma_pow_mod_cancel(x: nat, n: nat, m: nat, a: nat, b: nat)
    requires
        has_order(x, n, m),
        a < n,
        b < n,
        pow_mod(x, a, m) == pow_mod(x, b, m),
    ensures
        a == b,
{
    if a != b {
        let (lo, hi) = if a < b { (a, b) } else { (b, a) };
        let k = (hi - lo) as nat;
        let c = (n - lo) as nat;
        // x^(c + hi) = x^c * x^hi ≡ x^c * x^lo = x^n ≡ 1
        lemma_pow_mod_add(x, c, hi, m);
        lemma_pow_mod_add(x, c, lo, m);
        assert(c + lo == n);
        // x^(c + hi) = x^n * x^k ≡ x^k
        assert(c + hi == n + k);
        lemma_pow_mod_add(x, n, k, m);
        lemma_mod_bound(pow(x as int, k), m as int);
        lemma_small_mod(pow_mod(x, k, m), m);
        assert(pow_mod(x, k, m) == 1);
        assert(0 < k < n);
    }
}

/// `x^a ≡ x^b (mod m)` exactly when `a ≡ b (mod n)`, `n` the order of `x`.
pub proof fn lemma_pow_mod_eq_iff(x: nat, n: nat, m: nat, a: nat, b: nat)
    requires
        has_order(x, n, m),
    ensures
        pow_mod(x, a, m) == pow_mod(x, b, m) <==> a % n == b % n,
{
    lemma_pow_mod_reduce(x, n, m, a);
    lemma_pow_mod_reduce(x, n, m, b);
    lemma_mod_bound(a as int, n as int);
    lemma_mod_bound(b as int, n as int);
    if pow_mod(x, a, m) == pow_mod(x, b, m) {
        lemma_pow_mod_cancel(x, n, m, a % n, b % n);
    }
}

/// `(n-1)*u ≡ (n-1)*x0 + w (mod n)` exactly when `u + w ≡ x0 (mod n)`.
pub proof fn lemma_negated_congruence(n: nat, u: nat, x0: nat, w: nat)
    requires
        n > 0,
    ensures
        ((n - 1) * u) % (n as int) == ((n - 1) * x0 + w) % (n as int) <==> (u + w) % n == x0 % n,
{
    let a: int = (n - 1) * u;
    let b: int = (n - 1) * x0 + w;
    let t: int = (u + x0) as int;
    assert(a + t == n * u + x0) by (nonlinear_arith)
        requires
            a == (n - 1) * u,
            t == u + x0,
    ;
    assert(b + t == n * x0 + (u + w)) by (nonlinear_arith)
        requires
            b == (n - 1) * x0 + w,
            t == u + x0,
    ;
    lemma_mod_multiples_vanish(u as int, x0 as int, n as int);
    lemma_mod_multiples_vanish(x0 as int, (u + w) as int, n as int);
    lemma_add_mod_noop(a, t, n as int);
    lemma_add_mod_noop(b, t, n as int);
    lemma_sub_mod_noop(a + t, t, n as int);
    lemma_sub_mod_noop(b + t, t, n as int);
}

/// The inverse of an element of order `n` modulo `q` is its `(n-1)`-th power.
pub proof fn lemma_inverse_is_power(eta: nat, ei: nat, n: nat, q: nat)
    requires
        has_order(eta, n, q),
        ei < q,
        (eta * ei) % q == 1,
    ensures
        ei == pow_mod(eta, (n - 1) as nat, q),
{
    let c = pow(eta as int, (n - 1) as nat);
    lemma_pow_adds(eta as int, 1, (n - 1) as nat);
    lemma_pow1(eta as int);
    assert(1 + (n - 1) as nat == n);
    // eta * c ≡ 1, so ei ≡ ei * (eta * c) = (ei * eta) * c ≡ c
    lemma_mul_mod_noop_right(ei as int, eta * c, q as int);
    lemma_small_mod(1, q);
    lemma_small_mod(ei, q);
    assert(ei * (eta * c) == (ei * eta) * c) by (nonlinear_arith);
    lemma_mul_mod_noop_left((ei * eta) as int, c, q as int);
    assert(ei * eta == eta * ei) by (nonlinear_arith);
}

} // verus!
