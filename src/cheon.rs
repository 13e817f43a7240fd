//! Cheon's attack: recovers `tau` from `g`, `g^tau` and `g^(tau^d)` when
//! `tau = 2^k`, a divisor `d = d1 + d2` of `q - 1` is known, and `k mod (q-1)/d`
//! lies in a known interval `[a, b)`.

use vstd::prelude::*;
use crate::arith::pow_mod;
use crate::group::{ScalarGroup, scalar_pow};
use crate::bsgs::{baby_step_giant_step, is_bsgs_result, lemma_bsgs_deterministic, SEARCH_LIMIT};

verus! {

/// The attack's structural knowledge: the split `d = d1 + d2` of the divisor
/// and the interval `[a, b)` holding the first partial exponent.
#[derive(Clone, Copy, Debug, PartialEq, Eq)]
pub struct AttackParams {
    pub d1: u128,
    pub d2: u128,
    pub a: u128,
    pub b: u128,
}

/// The parameters can drive the two searches: `d` is positive and fits, the
/// interval is ordered, and both search bounds stay within the solver's range.
pub open spec fn params_ok(pr: AttackParams) -> bool {
    &&& pr.d1 + pr.d2 <= SEARCH_LIMIT
    &&& pr.d1 + pr.d2 > 0
    &&& pr.a <= pr.b
    &&& pr.b - pr.a <= SEARCH_LIMIT
}

/// `k0 + k1 * c`, the exponent put back together from its residue `k0` and
/// its quotient digit `k1` for the cofactor `c = (q-1)/d`.
pub open spec fn recombine_spec(k0: nat, k1: nat, c: nat) -> nat {
    k0 + k1 * c
}

/// `k0 + k1 * ((q-1)/d)`, or `None` where it does not fit in a `u128`.
pub fn recombine(k0: u128, k1: u128, q: u128, d: u128) -> (r: Option<u128>)
    requires
        q > 0,
        d > 0,
    ensures
        r is Some <==> recombine_spec(k0 as nat, k1 as nat, ((q - 1) as nat / d as nat) as nat) <= u128::MAX,
        r matches Some(k) ==> k as nat == recombine_spec(k0 as nat, k1 as nat, ((q - 1) as nat / d as nat) as nat),
{
    let c: u128 = (q - 1) / d;
    match k1.checked_mul(c) {
        None => {
            assert(k0 + k1 * c > u128::MAX) by (nonlinear_arith)
                requires
                    k1 * c > u128::MAX,
                    k0 >= 0,
            ;
            None
        },
        Some(t) => k0.checked_add(t),
    }
}

/// Splitting `k` by the cofactor `c = (q-1)/d` into `k0 = k mod c` and
/// `k1 = (k - k0) / c` and recombining as `k0 + k1 * (q-1)/d` gives `k` back.
pub proof fn lemma_recombine_round_trip(k: nat, q: nat, d: nat)
    requires
        0 < d < q,
    ensures
        ({
            let c = ((q - 1) as nat / d) as nat;
            recombine_spec(k % c, ((k - k % c) / c as int) as nat, c) == k
        }),
{
    let c = ((q - 1) as nat / d) as nat;
    vstd::arithmetic::div_mod::lemma_div_is_ordered(d as int, (q - 1) as int, d as int);
    vstd::arithmetic::div_mod::lemma_div_basics(d as int);
    let t = k / c;
    vstd::arithmetic::div_mod::lemma_fundamental_div_mod(k as int, c as int);
    assert(k - k % c == c * t);
    vstd::arithmetic::div_mod::lemma_div_multiples_vanish(t as int, c as int);
    assert((k - k % c) / c as int == t);
    assert(t * c == c * t) by (nonlinear_arith);
}

/// The second stage: from the first search's outcome `s1`, recover the
/// digit `k1` with steps of `2^((q-1)/d)` and return `2^(k0 + k1 (q-1)/d)`.
pub open spec fn is_stage_two_result<G: ScalarGroup>(
    g: G,
    base: G::Elem,
    g1: G::Elem,
    pr: AttackParams,
    s1: Option<u128>,
    r: Option<u128>,
) -> bool {
    let q = g.order();
    let d = (pr.d1 + pr.d2) as nat;
    let c = ((q - 1) as nat / d) as nat;
    match s1 {
        None => r is None,
        Some(x1) => if pr.a + x1 > u128::MAX {
            r is None
        } else {
            let k0 = (pr.a + x1) as nat;
            match g.inv_spec(2) {
                None => r is None,
                Some(two_inv) => {
                    let gu1 = g.act_spec(g1, pow_mod(two_inv, k0, q));
                    exists|s2: Option<u128>|
                        #[trigger] is_bsgs_result(g, pow_mod(2, c, q), d, gu1, base, s2) && match s2 {
                            None => r is None,
                            Some(k1) => if recombine_spec(k0, k1 as nat, c) > u128::MAX {
                                r is None
                            } else {
                                r == Some(pow_mod(2, recombine_spec(k0, k1 as nat, c), q) as u128)
                            },
                        }
                },
            }
        },
    }
}

/// What [`recover_tau`] returns: with `d = d1 + d2` and `eta = 2^d`, the
/// first search runs over `[0, b - a]` from `gd^(eta^-a)` to `base`; its
/// result, offset by `a`, is `k0`, and the second stage finishes.
pub open spec fn is_attack_result<G: ScalarGroup>(
    g: G,
    base: G::Elem,
    g1: G::Elem,
    gd: G::Elem,
    pr: AttackParams,
    r: Option<u128>,
) -> bool {
    let q = g.order();
    let d = (pr.d1 + pr.d2) as nat;
    let eta = pow_mod(2, d, q);
    if !params_ok(pr) {
        r is None
    } else {
        match g.inv_spec(eta) {
            None => r is None,
            Some(eta_inv) => {
                let gu0 = g.act_spec(gd, pow_mod(eta_inv, pr.a as nat, q));
                exists|s1: Option<u128>|
                    #[trigger] is_bsgs_result(g, eta, (pr.b - pr.a) as nat, gu0, base, s1)
                        && is_stage_two_result(g, base, g1, pr, s1, r)
            },
        }
    }
}

/// Recovers `tau` from `base = g`, `g1 = g^tau` and `gd = g^(tau^d)`.
/// Returns `None` when the parameters are unusable, a scalar has no inverse,
/// a search finds nothing, or the recombined exponent overflows.
pub fn recover_tau<G: ScalarGroup>(
    g: &G,
    base: &G::Elem,
    g1: &G::Elem,
    gd: &G::Elem,
    pr: &AttackParams,
) -> (r: Option<u128>)
    requires
        g.wf(),
    ensures
        is_attack_result(*g, *base, *g1, *gd, *pr, r),
{
    if !(pr.d1 <= SEARCH_LIMIT && pr.d2 <= SEARCH_LIMIT - pr.d1 && pr.a <= pr.b
        && pr.b - pr.a <= SEARCH_LIMIT) {
        return None;
    }
    let d: u128 = pr.d1 + pr.d2;
    if d == 0 {
        return None;
    }
    let q = g.modulus();
    let two: u128 = 2;
    let eta = scalar_pow(g, two, d);
    let eta_inv = match g.scalar_inv(eta) {
        Some(i) => i,
        None => {
            return None;
        },
    };
    let shift = scalar_pow(g, eta_inv, pr.a);
    let gu0 = g.act(gd, shift);
    let s1 = baby_step_giant_step(g, eta, pr.b - pr.a, &gu0, base);
    let r = recover_second_stage(g, base, g1, pr, s1);
    assert(is_bsgs_result(*g, eta as nat, (pr.b - pr.a) as nat, gu0, *base, s1));
    r
}

/// The second stage of [`recover_tau`], from the first search's outcome.
fn recover_second_stage<G: ScalarGroup>(
    g: &G,
    base: &G::Elem,
    g1: &G::Elem,
    pr: &AttackParams,
    s1: Option<u128>,
) -> (r: Option<u128>)
    requires
        g.wf(),
        params_ok(*pr),
    ensures
        is_stage_two_result(*g, *base, *g1, *pr, s1, r),
{
    let x1 = match s1 {
        Some(x) => x,
        None => {
            return None;
        },
    };
    let k0 = match pr.a.checked_add(x1) {
        Some(k) => k,
        None => {
            return None;
        },
    };
    let q = g.modulus();
    let d: u128 = pr.d1 + pr.d2;
    let two_inv = match g.scalar_inv(2) {
        Some(i) => i,
        None => {
            return None;
        },
    };
    let c: u128 = (q - 1) / d;
    let eta = scalar_pow(g, 2, c);
    let shift = scalar_pow(g, two_inv, k0);
    let gu1 = g.act(g1, shift);
    let s2 = baby_step_giant_step(g, eta, d, &gu1, base);
    let r = match s2 {
        None => None,
        Some(k1) => match recombine(k0, k1, q, d) {
            None => None,
            Some(k) => Some(scalar_pow(g, 2, k)),
        },
    };
    proof {
        let qq = g.order();
        let cc = ((qq - 1) as nat / d as nat) as nat;
        assert(cc == c as nat);
        assert(s1 == Some(x1));
        assert(!(pr.a + x1 > u128::MAX));
        assert(k0 as nat == (pr.a + x1) as nat);
        assert(g.inv_spec(2) == Some(two_inv as nat));
        assert(d as nat == (pr.d1 + pr.d2) as nat);
        assert(is_bsgs_result(*g, pow_mod(2, cc, qq), d as nat, gu1, *base, s2));
        assert(g.act_spec(*g1, pow_mod(two_inv as nat, k0 as nat, qq)) == gu1);
        assert(match s2 {
            None => r is None,
            Some(k1) => if recombine_spec(k0 as nat, k1 as nat, cc) > u128::MAX {
                r is None
            } else {
                r == Some(pow_mod(2, recombine_spec(k0 as nat, k1 as nat, cc), qq) as u128)
            },
        });
    }
    r
}

/// Repeated attacks on the same inputs recover the same value.
pub proof fn lemma_attack_deterministic<G: ScalarGroup>(
    g: G,
    base: G::Elem,
    g1: G::Elem,
    gd: G::Elem,
    pr: AttackParams,
    r1: Option<u128>,
    r2: Option<u128>,
)
    requires
        is_attack_result(g, base, g1, gd, pr, r1),
        is_attack_result(g, base, g1, gd, pr, r2),
    ensures
        r1 == r2,
{
    let q = g.order();
    let d = (pr.d1 + pr.d2) as nat;
    let eta = pow_mod(2, d, q);
    if params_ok(pr) {
        if let Some(eta_inv) = g.inv_spec(eta) {
            let gu0 = g.act_spec(gd, pow_mod(eta_inv, pr.a as nat, q));
            let max = (pr.b - pr.a) as nat;
            let s1 = choose|s1: Option<u128>|
                #[trigger] is_bsgs_result(g, eta, max, gu0, base, s1)
                    && is_stage_two_result(g, base, g1, pr, s1, r1);
            let t1 = choose|s1: Option<u128>|
                #[trigger] is_bsgs_result(g, eta, max, gu0, base, s1)
                    && is_stage_two_result(g, base, g1, pr, s1, r2);
            lemma_bsgs_deterministic(g, eta, max, gu0, base, s1, t1);
            lemma_stage_two_deterministic(g, base, g1, pr, s1, r1, r2);
        }
    }
}

/// The second stage is determined by its inputs.
proof fn lemma_stage_two_deterministic<G: ScalarGroup>(
    g: G,
    base: G::Elem,
    g1: G::Elem,
    pr: AttackParams,
    s1: Option<u128>,
    r1: Option<u128>,
    r2: Option<u128>,
)
    requires
        is_stage_two_result(g, base, g1, pr, s1, r1),
        is_stage_two_result(g, base, g1, pr, s1, r2),
    ensures
        r1 == r2,
{
    let q = g.order();
    let d = (pr.d1 + pr.d2) as nat;
    let c = ((q - 1) as nat / d) as nat;
    if let Some(x1) = s1 {
        if pr.a + x1 <= u128::MAX {
            let k0 = (pr.a + x1) as nat;
            if let Some(two_inv) = g.inv_spec(2) {
                let gu1 = g.act_spec(g1, pow_mod(two_inv, k0, q));
                let eta = pow_mod(2, c, q);
                let s2 = choose|s2: Option<u128>|
                    #[trigger] is_bsgs_result(g, eta, d, gu1, base, s2) && match s2 {
                        None => r1 is None,
                        Some(k1) => if recombine_spec(k0, k1 as nat, c) > u128::MAX {
                            r1 is None
                        } else {
                            r1 == Some(pow_mod(2, recombine_spec(k0, k1 as nat, c), q) as u128)
                        },
                    };
                let t2 = choose|s2: Option<u128>|
                    #[trigger] is_bsgs_result(g, eta, d, gu1, base, s2) && match s2 {
                        None => r2 is None,
                        Some(k1) => if recombine_spec(k0, k1 as nat, c) > u128::MAX {
                            r2 is None
                        } else {
                            r2 == Some(pow_mod(2, recombine_spec(k0, k1 as nat, c), q) as u128)
                        },
                    };
                lemma_bsgs_deterministic(g, eta, d, gu1, base, s2, t2);
            }
        }
    }
}

} // verus!
