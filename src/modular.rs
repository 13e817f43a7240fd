//! A concrete group for the solver: the order-`q` subgroup of the
//! multiplicative group modulo `p`, with elements kept as residues.

use vstd::prelude::*;
use crate::arith::{pow_mod, pow_mod_u64};
use crate::group::ScalarGroup;
use crate::arith::is_isqrt;
use crate::bsgs::{walk, walk_key, is_bsgs_result, step_count, sqrt_floor, lemma_search_finds_congruent};
use crate::order::{
    has_order, lemma_pow_nat, lemma_pow_mod_mul, lemma_pow_mod_eq_iff, lemma_pow_mod_add,
    lemma_inverse_is_power, lemma_negated_congruence, lemma_pow_mod_reduce,
};
use vstd::arithmetic::power::{pow, lemma_pow0, lemma_pow1, lemma_pow_adds, lemma_pow_multiplies, lemma_pow_mod_noop};
use vstd::arithmetic::div_mod::{lemma_mod_bound, lemma_small_mod};

verus! {

/// Residues modulo `p`, raised to exponents modulo `q`.
#[derive(Clone, Copy, Debug, PartialEq, Eq)]
pub struct ModularGroup {
    pub p: u64,
    pub q: u64,
}

impl ModularGroup {
    /// Accepts the moduli when `p > 1` and `q > 2`.
    pub fn new(p: u64, q: u64) -> (r: Option<ModularGroup>)
        ensures
            r is Some <==> (p > 1 && q > 2),
            r matches Some(grp) ==> grp.p == p && grp.q == q && grp.wf(),
    {
        if p > 1 && q > 2 {
            Some(ModularGroup { p, q })
        } else {
            None
        }
    }

    /// `b^e mod p`, the group element `b` raised to the exponent `e`.
    pub fn power(&self, b: u64, e: u128) -> (r: u64)
        requires
            self.wf(),
        ensures
            r as nat == pow_mod(b as nat, e as nat, self.p as nat),
    {
        pow_mod_u64(b, e, self.p)
    }
}

/// The candidate inverse `a^(q-2) mod q`, which is the inverse when `q` is prime.
pub open spec fn fermat_inverse(a: nat, q: nat) -> nat {
    pow_mod(a, (q - 2) as nat, q)
}

impl ScalarGroup for ModularGroup {
    type Elem = u64;

    open spec fn order(&self) -> nat {
        self.q as nat
    }

    open spec fn wf(&self) -> bool {
        self.p > 1 && self.q > 2
    }

    open spec fn act_spec(&self, x: u64, s: nat) -> u64 {
        pow_mod(x as nat, s, self.p as nat) as u64
    }

    open spec fn key_spec(&self, x: u64) -> u128 {
        x as u128
    }

    open spec fn inv_spec(&self, a: nat) -> Option<nat> {
        if (a * fermat_inverse(a, self.q as nat)) % (self.q as nat) == 1 {
            Some(fermat_inverse(a, self.q as nat))
        } else {
            None
        }
    }

    fn modulus(&self) -> (r: u128) {
        self.q as u128
    }

    fn act(&self, x: &u64, s: u128) -> (r: u64) {
        proof {
            lemma_mod_bound(vstd::arithmetic::power::pow(*x as int, s as nat), self.p as int);
        }
        pow_mod_u64(*x, s, self.p)
    }

    fn key(&self, x: &u64) -> (r: u128) {
        *x as u128
    }

    fn copy_elem(&self, x: &u64) -> (r: u64) {
        *x
    }

    fn scalar_mul(&self, a: u128, b: u128) -> (r: u128) {
        assert(a * b <= u64::MAX as nat * u64::MAX as nat) by (nonlinear_arith)
            requires
                a <= u64::MAX,
                b <= u64::MAX,
        ;
        (a * b) % (self.q as u128)
    }

    fn scalar_inv(&self, a: u128) -> (r: Option<u128>) {
        let c = pow_mod_u64(a as u64, (self.q - 2) as u128, self.q);
        assert(a * c <= u64::MAX as nat * u64::MAX as nat) by (nonlinear_arith)
            requires
                a <= u64::MAX,
                c <= u64::MAX,
        ;
        if (a * c as u128) % (self.q as u128) == 1 {
            proof {
                lemma_mod_bound(vstd::arithmetic::power::pow(a as int, (self.q - 2) as nat), self.q as int);
            }
            Some(c as u128)
        } else {
            None
        }
    }
}

/// Walking `k` steps of `s` from `x` raises `x` to `s^k`.
pub proof fn lemma_walk_closed_form(grp: ModularGroup, x: u64, s: nat, k: nat)
    requires
        grp.wf(),
        x < grp.p,
    ensures
        pow(s as int, k) >= 0,
        walk(grp, x, s, k) as nat == pow_mod(x as nat, pow(s as int, k) as nat, grp.p as nat),
    decreases k,
{
    lemma_pow_nat(s, k);
    if k == 0 {
        lemma_pow1(x as int);
        lemma_small_mod(x as nat, grp.p as nat);
        reveal(pow);
    } else {
        let k1 = (k - 1) as nat;
        lemma_walk_closed_form(grp, x, s, k1);
        let e = pow(s as int, k1) as nat;
        lemma_pow_mod_mul(x as nat, e, s, grp.p as nat);
        lemma_pow_adds(s as int, k1, 1);
        lemma_pow1(s as int);
        assert(pow(s as int, k) == e * s);
        lemma_mod_bound(pow(x as int, e * s), grp.p as int);
    }
}

/// Baby step `u` and giant step `v` of the solver meet exactly when
/// `u + m*v ≡ x0 (mod n)`, for a generator `gu0` of the order-`q` subgroup,
/// a step `eta` of order `n` and `gv0 = gu0^(eta^-x0)`.
proof fn lemma_meeting_condition(
    grp: ModularGroup,
    gu0: u64,
    eta: nat,
    ei: nat,
    n: nat,
    x0: nat,
    m: nat,
    u: nat,
    v: nat,
)
    requires
        grp.wf(),
        gu0 < grp.p,
        has_order(gu0 as nat, grp.q as nat, grp.p as nat),
        has_order(eta, n, grp.q as nat),
        ei < grp.q,
        (eta * ei) % (grp.q as nat) == 1,
    ensures
        walk_key(grp, gu0, ei, u) == walk_key(
            grp,
            grp.act_spec(gu0, pow_mod(ei, x0, grp.q as nat)),
            pow_mod(eta, m, grp.q as nat),
            v,
        ) <==> (u + m * v) % n == x0 % n,
{
    let p = grp.p as nat;
    let q = grp.q as nat;
    let e0 = pow_mod(ei, x0, q);
    lemma_mod_bound(pow(ei as int, x0), q as int);
    let gv0 = grp.act_spec(gu0, e0);
    lemma_mod_bound(pow(gu0 as int, e0), p as int);
    let em = pow_mod(eta, m, q);
    lemma_mod_bound(pow(eta as int, m), q as int);
    // both walks in closed form
    lemma_walk_closed_form(grp, gu0, ei, u);
    lemma_walk_closed_form(grp, gv0, em, v);
    let bu = pow(ei as int, u) as nat;
    let gvv = pow(em as int, v) as nat;
    lemma_pow_mod_mul(gu0 as nat, e0, gvv, p);
    // the keys are the residues, so they meet when the exponents agree mod q
    lemma_pow_mod_eq_iff(gu0 as nat, q, p, bu, e0 * gvv);
    // ei = eta^(n-1) mod q, so every exponent becomes a power of eta
    let c = (n - 1) as nat;
    lemma_inverse_is_power(eta, ei, n, q);
    lemma_pow_mod_mul(eta, c, u, q);
    lemma_pow_mod_mul(eta, c, x0, q);
    lemma_pow_mod_noop(em as int, v, q as int);
    lemma_pow_mod_noop(pow(eta as int, m), v, q as int);
    lemma_pow_multiplies(eta as int, m, v);
    lemma_pow_mod_mul(eta, m, v, q);
    lemma_pow_nat(em, v);
    assert(gvv % q == pow_mod(eta, m * v, q));
    vstd::arithmetic::div_mod::lemma_mul_mod_noop_right(e0 as int, gvv as int, q as int);
    lemma_pow_mod_add(eta, c * x0, m * v, q);
    assert((e0 * gvv) % q == pow_mod(eta, c * x0 + m * v, q));
    assert(bu % q == pow_mod(eta, c * u, q));
    lemma_pow_mod_eq_iff(eta, n, q, c * u, c * x0 + m * v);
    lemma_negated_congruence(n, u, x0, m * v);
}

/// Every natural number has a truncated square root.
proof fn lemma_isqrt_exists(x: nat)
    ensures
        exists|r: nat| #[trigger] is_isqrt(x, r),
    decreases x,
{
    if x == 0 {
        assert(0nat * 0nat <= 0 && 0 < (0nat + 1) * (0nat + 1)) by (nonlinear_arith);
        assert(is_isqrt(x, 0));
    } else {
        lemma_isqrt_exists((x - 1) as nat);
        let r = choose|r: nat| #[trigger] is_isqrt((x - 1) as nat, r);
        if (r + 1) * (r + 1) <= x {
            assert((r + 2) * (r + 2) > x) by (nonlinear_arith)
                requires
                    (r + 1) * (r + 1) <= x,
                    x - 1 < (r + 1) * (r + 1),
            ;
            assert(is_isqrt(x, r + 1));
        } else {
            assert(is_isqrt(x, r));
        }
    }
}

/// The solver recovers every exponent in range: for a generator `gu0` of
/// the order-`q` subgroup, a step `eta` whose order `n` in the scalar field
/// divides `q - 1` (as every order does when `q` is prime), and
/// `gv0 = gu0^(eta^-x0)` with `x0 <= max < n`, the solver returns exactly `x0`.
pub proof fn lemma_bsgs_recovers_exponent(
    grp: ModularGroup,
    eta: nat,
    n: nat,
    max: nat,
    gu0: u64,
    x0: nat,
    r: Option<u128>,
)
    requires
        grp.wf(),
        gu0 < grp.p,
        has_order(gu0 as nat, grp.q as nat, grp.p as nat),
        has_order(eta, n, grp.q as nat),
        (grp.q - 1) as nat % n == 0,
        eta < grp.q,
        x0 <= max < n,
        is_bsgs_result(
            grp,
            eta,
            max,
            gu0,
            grp.act_spec(gu0, pow_mod(grp.inv_spec(eta)->0, x0, grp.q as nat)),
            r,
        ),
    ensures
        r == Some(x0 as u128),
{
    let q = grp.q as nat;
    // eta^(q-1) ≡ 1 since its order divides q - 1, so eta^(q-2) inverts it
    lemma_pow_mod_reduce(eta, n, q, (q - 1) as nat);
    lemma_pow0(eta as int);
    lemma_small_mod(1, q);
    lemma_pow_mod_add(eta, 1, (q - 2) as nat, q);
    lemma_pow1(eta as int);
    lemma_small_mod(eta, q);
    assert(1 + (q - 2) as nat == (q - 1) as nat);
    assert(grp.inv_spec(eta) is Some);
    let ei = grp.inv_spec(eta)->0;
    lemma_mod_bound(pow(eta as int, (q - 2) as nat), q as int);
    assert(ei < q && (eta * ei) % q == 1);
    let gv0 = grp.act_spec(gu0, pow_mod(ei, x0, q));
    let m = step_count(max);
    let em = pow_mod(eta, m, q);
    lemma_isqrt_exists(max);
    let rt = sqrt_floor(max);
    assert(is_isqrt(max, rt));
    assert(rt <= max) by (nonlinear_arith)
        requires
            rt * rt <= max,
    ;
    vstd::arithmetic::div_mod::lemma_div_is_ordered(x0 as int, max as int, m as int);
    lemma_small_mod(x0, n);
    assert forall|u: nat, v: nat| u < m && v <= max / m implies (#[trigger] walk_key(grp, gu0, ei, u)
        == #[trigger] walk_key(grp, gv0, em, v) <==> (u + m * v) % n == x0) by {
        lemma_meeting_condition(grp, gu0, eta, ei, n, x0, m, u, v);
    }
    lemma_search_finds_congruent(grp, gu0, ei, m, gv0, em, max / m, x0, n, r);
}

} // verus!
