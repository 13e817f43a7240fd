//! Baby-step giant-step search for a bounded discrete logarithm.

use vstd::prelude::*;
use std::collections::HashMap;
use crate::arith::{isqrt, is_isqrt, lemma_isqrt_bound, pow_mod};
use crate::group::{ScalarGroup, scalar_pow};

verus! {

/// The largest search bound the solver accepts, `2^128 - 2^64`: the answer
/// `u + m*v` then fits in a `u128`.
pub const SEARCH_LIMIT: u128 = 340282366920938463444927863358058659840;

/// `x^(s^n)`: `n` successive steps from `x`, each raising to `s`.
pub open spec fn walk<G: ScalarGroup>(g: G, x: G::Elem, s: nat, n: nat) -> G::Elem
    decreases n,
{
    if n == 0 {
        x
    } else {
        g.act_spec(walk(g, x, s, (n - 1) as nat), s)
    }
}

/// Key of the element reached after `n` steps.
pub open spec fn walk_key<G: ScalarGroup>(g: G, x: G::Elem, s: nat, n: nat) -> u128 {
    g.key_spec(walk(g, x, s, n))
}

/// `⌊√x⌋`.
pub open spec fn sqrt_floor(x: nat) -> nat {
    choose|r: nat| is_isqrt(x, r)
}

/// The truncated square root is unique.
pub proof fn lemma_isqrt_unique(x: nat, r1: nat, r2: nat)
    requires
        is_isqrt(x, r1),
        is_isqrt(x, r2),
    ensures
        r1 == r2,
{
    if r1 < r2 {
        assert((r1 + 1) * (r1 + 1) <= r2 * r2) by (nonlinear_arith)
            requires
                r1 + 1 <= r2,
        ;
    } else if r2 < r1 {
        assert((r2 + 1) * (r2 + 1) <= r1 * r1) by (nonlinear_arith)
            requires
                r2 + 1 <= r1,
        ;
    }
}

/// The baby-step table for `m` steps of `s` from `x`: each key reached in
/// the first `m` steps, mapped to the first step that reaches it.
pub open spec fn is_baby_table<G: ScalarGroup>(
    g: G,
    x: G::Elem,
    s: nat,
    m: nat,
    t: Map<u128, u128>,
) -> bool {
    &&& forall|k: u128| #[trigger]
        t.contains_key(k) <==> exists|u: nat| u < m && walk_key(g, x, s, u) == k
    &&& forall|k: u128| #[trigger]
        t.contains_key(k) ==> t[k] < m && walk_key(g, x, s, t[k] as nat) == k && forall|u: nat|
            u < t[k] ==> walk_key(g, x, s, u) != k
}

/// Giant step `v` lands on some baby step.
pub open spec fn giant_hits<G: ScalarGroup>(
    g: G,
    gu0: G::Elem,
    s_inv: nat,
    m: nat,
    gv0: G::Elem,
    s_m: nat,
    v: nat,
) -> bool {
    exists|u: nat| u < m && #[trigger] walk_key(g, gu0, s_inv, u) == walk_key(g, gv0, s_m, v)
}

/// The outcome of the search with `m` baby steps of `s_inv` from `gu0` and
/// giant steps `0..=v_max` of `s_m` from `gv0`: the first giant step `v` that
/// meets a baby step, with the first baby step `u` it meets, gives `u + m*v`;
/// no meeting gives `None`.
pub open spec fn is_search_result<G: ScalarGroup>(
    g: G,
    gu0: G::Elem,
    s_inv: nat,
    m: nat,
    gv0: G::Elem,
    s_m: nat,
    v_max: nat,
    r: Option<u128>,
) -> bool {
    match r {
        None => forall|v: nat| v <= v_max ==> !#[trigger] giant_hits(g, gu0, s_inv, m, gv0, s_m, v),
        Some(x) => exists|u: nat, v: nat|
            #![trigger walk_key(g, gu0, s_inv, u), walk_key(g, gv0, s_m, v)]
            {
                &&& v <= v_max
                &&& u < m
                &&& x == u + m * v
                &&& walk_key(g, gu0, s_inv, u) == walk_key(g, gv0, s_m, v)
                &&& forall|w: nat| w < u ==> walk_key(g, gu0, s_inv, w) != walk_key(g, gu0, s_inv, u)
                &&& forall|w: nat| w < v ==> !#[trigger] giant_hits(g, gu0, s_inv, m, gv0, s_m, w)
            },
    }
}

/// Builds the baby-step table: `m` steps of `s` from `x`, keeping for each
/// key the first step that reaches it. It never holds more than `m` entries.
pub fn baby_steps<G: ScalarGroup>(g: &G, x: &G::Elem, s: u128, m: u128) -> (t: HashMap<u128, u128>)
    requires
        g.wf(),
        s < g.order(),
    ensures
        is_baby_table(*g, *x, s as nat, m as nat, t@),
        t@.len() <= m,
{
    let mut t: HashMap<u128, u128> = HashMap::new();
    let mut cur = g.copy_elem(x);
    let mut u: u128 = 0;
    while u < m
        invariant
            g.wf(),
            s < g.order(),
            u <= m,
            cur == walk(*g, *x, s as nat, u as nat),
            t@.len() <= u,
            is_baby_table(*g, *x, s as nat, u as nat, t@),
        decreases m - u,
    {
        let k = g.key(&cur);
        let ghost t0 = t@;
        if !t.contains_key(&k) {
            t.insert(k, u);
        }
        assert forall|kk: u128| #[trigger]
            t@.contains_key(kk) <==> exists|w: nat| w < u + 1 && walk_key(*g, *x, s as nat, w) == kk by {
            if t@.contains_key(kk) {
                if kk == k {
                    assert(walk_key(*g, *x, s as nat, u as nat) == kk);
                } else {
                    assert(t0.contains_key(kk));
                    let w = choose|w: nat| w < u && walk_key(*g, *x, s as nat, w) == kk;
                    assert(w < u + 1 && walk_key(*g, *x, s as nat, w) == kk);
                }
            }
            if exists|w: nat| w < u + 1 && walk_key(*g, *x, s as nat, w) == kk {
                let w = choose|w: nat| w < u + 1 && walk_key(*g, *x, s as nat, w) == kk;
                if w < u {
                    assert(t0.contains_key(kk));
                }
            }
        }
        assert forall|kk: u128| #[trigger] t@.contains_key(kk) implies t@[kk] < u + 1
            && walk_key(*g, *x, s as nat, t@[kk] as nat) == kk && forall|w: nat|
            w < t@[kk] ==> walk_key(*g, *x, s as nat, w) != kk by {
            if kk != k || t0.contains_key(k) {
                assert(t0.contains_key(kk));
            } else {
                assert forall|w: nat| w < t@[kk] implies walk_key(*g, *x, s as nat, w) != kk by {
                    if walk_key(*g, *x, s as nat, w) == kk {
                        assert(t0.contains_key(kk));
                    }
                }
            }
        }
        cur = g.act(&cur, s);
        u = u + 1;
    }
    t
}

/// The number of baby steps for a search bound `max`: `⌊√max⌋ + 1`.
pub open spec fn step_count(max: nat) -> nat {
    sqrt_floor(max) + 1
}

/// The number of baby steps for the search bound `max`, `⌊√max⌋ + 1`.
pub fn baby_step_count(max: u128) -> (m: u128)
    ensures
        m == step_count(max as nat),
        0 < m <= u64::MAX + 1,
{
    let root = isqrt(max);
    proof {
        lemma_isqrt_bound(max as nat, root as nat);
        lemma_isqrt_unique(max as nat, root as nat, sqrt_floor(max as nat));
    }
    root + 1
}

/// What [`baby_step_giant_step`] returns: `None` where `eta` has no inverse;
/// otherwise the search with `m = ⌊√max⌋ + 1` baby steps of `eta^-1` from `gu0`
/// and giant steps `0..=⌊max/m⌋` of `eta^m` from `gv0`.
pub open spec fn is_bsgs_result<G: ScalarGroup>(
    g: G,
    eta: nat,
    max: nat,
    gu0: G::Elem,
    gv0: G::Elem,
    r: Option<u128>,
) -> bool {
    match g.inv_spec(eta) {
        None => r is None,
        Some(eta_inv) => is_search_result(
            g,
            gu0,
            eta_inv,
            step_count(max),
            gv0,
            pow_mod(eta, step_count(max), g.order()),
            max / step_count(max),
            r,
        ),
    }
}

/// Finds the exponent `x = u + m*v` with `gu0^(eta^-u) == gv0^(eta^(m*v))`,
/// taking the first giant step `v <= ⌊max/m⌋` that meets the table and the
/// first baby step `u < m` it meets, where `m = ⌊√max⌋ + 1`. Returns `None`
/// when no giant step meets the table, or when `eta` is not invertible.
pub fn baby_step_giant_step<G: ScalarGroup>(
    g: &G,
    eta: u128,
    max: u128,
    gu0: &G::Elem,
    gv0: &G::Elem,
) -> (r: Option<u128>)
    requires
        g.wf(),
        eta < g.order(),
        max <= SEARCH_LIMIT,
    ensures
        is_bsgs_result(*g, eta as nat, max as nat, *gu0, *gv0, r),
{
    let eta_inv = match g.scalar_inv(eta) {
        Some(i) => i,
        None => {
            return None;
        },
    };
    let m = baby_step_count(max);
    let table = baby_steps(g, gu0, eta_inv, m);
    let eta_m = scalar_pow(g, eta, m);
    let m_hat: u128 = max / m;
    assert(m * m_hat <= max) by (nonlinear_arith)
        requires
            m > 0,
            m_hat == max / m,
    ;
    let ghost gg = *g;
    assert(step_count(max as nat) == m as nat);
    assert(gg.inv_spec(eta as nat) == Some(eta_inv as nat));
    let ghost (ei, em, mm) = (eta_inv as nat, eta_m as nat, m as nat);
    let mut cur = g.copy_elem(gv0);
    let mut v: u128 = 0;
    while v <= m_hat
        invariant
            g.wf(),
            gg == *g,
            eta_m < g.order(),
            ei == eta_inv,
            em == eta_m,
            mm == m,
            m > 0,
            m <= u64::MAX + 1,
            m_hat == max / m,
            m * m_hat <= max,
            step_count(max as nat) == mm,
            em == pow_mod(eta as nat, mm, gg.order()),
            gg.inv_spec(eta as nat) == Some(ei),
            max <= SEARCH_LIMIT,
            v <= m_hat + 1,
            cur == walk(gg, *gv0, em, v as nat),
            is_baby_table(gg, *gu0, ei, mm, table@),
            forall|w: nat| w < v ==> !#[trigger] giant_hits(gg, *gu0, ei, mm, *gv0, em, w),
        decreases m_hat + 1 - v,
    {
        let k = g.key(&cur);
        match table.get(&k) {
            Some(u) => {
                let u: u128 = *u;
                assert(m * v <= max) by (nonlinear_arith)
                    requires
                        v <= m_hat,
                        m * m_hat <= max,
                ;
                let x: u128 = u + m * v;
                assert(table@.contains_key(k) && table@[k] == u);
                assert(walk_key(gg, *gu0, ei, u as nat) == walk_key(gg, *gv0, em, v as nat));
                assert(forall|w: nat|
                    w < u ==> walk_key(gg, *gu0, ei, w) != walk_key(gg, *gu0, ei, u as nat));
                assert(is_search_result(gg, *gu0, ei, mm, *gv0, em, m_hat as nat, Some(x))) by {
                    let uu = u as nat;
                    let vv = v as nat;
                    assert(x == uu + mm * vv);
                    assert(walk_key(gg, *gu0, ei, uu) == walk_key(gg, *gv0, em, vv));
                }
                return Some(x);
            },
            None => {
                assert(!giant_hits(gg, *gu0, ei, mm, *gv0, em, v as nat)) by {
                    if giant_hits(gg, *gu0, ei, mm, *gv0, em, v as nat) {
                        let u = choose|u: nat|
                            u < mm && #[trigger] walk_key(gg, *gu0, ei, u) == walk_key(gg, *gv0, em, v as nat);
                        assert(table@.contains_key(walk_key(gg, *gu0, ei, u)));
                    }
                }
            },
        }
        cur = g.act(&cur, eta_m);
        v = v + 1;
    }
    None
}

/// The search outcome is determined by its inputs: two outcomes that both
/// meet the description are the same.
pub proof fn lemma_search_result_unique<G: ScalarGroup>(
    g: G,
    gu0: G::Elem,
    s_inv: nat,
    m: nat,
    gv0: G::Elem,
    s_m: nat,
    v_max: nat,
    r1: Option<u128>,
    r2: Option<u128>,
)
    requires
        is_search_result(g, gu0, s_inv, m, gv0, s_m, v_max, r1),
        is_search_result(g, gu0, s_inv, m, gv0, s_m, v_max, r2),
    ensures
        r1 == r2,
{
    if let Some(x1) = r1 {
        let (u1, v1) = choose|u: nat, v: nat|
            #![trigger walk_key(g, gu0, s_inv, u), walk_key(g, gv0, s_m, v)]
            {
                &&& v <= v_max
                &&& u < m
                &&& x1 == u + m * v
                &&& walk_key(g, gu0, s_inv, u) == walk_key(g, gv0, s_m, v)
                &&& forall|w: nat| w < u ==> walk_key(g, gu0, s_inv, w) != walk_key(g, gu0, s_inv, u)
                &&& forall|w: nat| w < v ==> !#[trigger] giant_hits(g, gu0, s_inv, m, gv0, s_m, w)
            };
        assert(giant_hits(g, gu0, s_inv, m, gv0, s_m, v1));
        if let Some(x2) = r2 {
            let (u2, v2) = choose|u: nat, v: nat|
                #![trigger walk_key(g, gu0, s_inv, u), walk_key(g, gv0, s_m, v)]
                {
                    &&& v <= v_max
                    &&& u < m
                    &&& x2 == u + m * v
                    &&& walk_key(g, gu0, s_inv, u) == walk_key(g, gv0, s_m, v)
                    &&& forall|w: nat| w < u ==> walk_key(g, gu0, s_inv, w) != walk_key(g, gu0, s_inv, u)
                    &&& forall|w: nat| w < v ==> !#[trigger] giant_hits(g, gu0, s_inv, m, gv0, s_m, w)
                };
            assert(giant_hits(g, gu0, s_inv, m, gv0, s_m, v2));
            assert(v1 == v2);
            assert(u1 == u2);
        }
    } else if let Some(x2) = r2 {
        let (u2, v2) = choose|u: nat, v: nat|
            #![trigger walk_key(g, gu0, s_inv, u), walk_key(g, gv0, s_m, v)]
            {
                &&& v <= v_max
                &&& u < m
                &&& x2 == u + m * v
                &&& walk_key(g, gu0, s_inv, u) == walk_key(g, gv0, s_m, v)
                &&& forall|w: nat| w < u ==> walk_key(g, gu0, s_inv, w) != walk_key(g, gu0, s_inv, u)
                &&& forall|w: nat| w < v ==> !#[trigger] giant_hits(g, gu0, s_inv, m, gv0, s_m, w)
            };
        assert(giant_hits(g, gu0, s_inv, m, gv0, s_m, v2));
    }
}

/// Repeated solves on the same inputs give the same answer.
pub proof fn lemma_bsgs_deterministic<G: ScalarGroup>(
    g: G,
    eta: nat,
    max: nat,
    gu0: G::Elem,
    gv0: G::Elem,
    r1: Option<u128>,
    r2: Option<u128>,
)
    requires
        is_bsgs_result(g, eta, max, gu0, gv0, r1),
        is_bsgs_result(g, eta, max, gu0, gv0, r2),
    ensures
        r1 == r2,
{
    if let Some(eta_inv) = g.inv_spec(eta) {
        let m = step_count(max);
        lemma_search_result_unique(
            g, gu0, eta_inv, m, gv0, pow_mod(eta, m, g.order()), max / m, r1, r2);
    }
}

/// Meet-in-the-middle correctness: when the baby step `u < m` and the giant
/// step `v <= v_max` meet exactly when `u + m*v == x0`, and `x0` is within
/// reach of the search, the search returns `x0`.
pub proof fn lemma_search_finds_unique_meeting<G: ScalarGroup>(
    g: G,
    gu0: G::Elem,
    s_inv: nat,
    m: nat,
    gv0: G::Elem,
    s_m: nat,
    v_max: nat,
    x0: nat,
    r: Option<u128>,
)
    requires
        m > 0,
        x0 / m <= v_max,
        forall|u: nat, v: nat|
            u < m && v <= v_max ==> (#[trigger] walk_key(g, gu0, s_inv, u) == #[trigger] walk_key(
                g,
                gv0,
                s_m,
                v,
            ) <==> u + m * v == x0),
        is_search_result(g, gu0, s_inv, m, gv0, s_m, v_max, r),
    ensures
        r == Some(x0 as u128),
{
    let u0 = x0 % m;
    let v0 = x0 / m;
    vstd::arithmetic::div_mod::lemma_fundamental_div_mod(x0 as int, m as int);
    assert(u0 + m * v0 == x0) by (nonlinear_arith)
        requires
            x0 == m * (x0 / m) + x0 % m,
            u0 == x0 % m,
            v0 == x0 / m,
    ;
    assert(walk_key(g, gu0, s_inv, u0) == walk_key(g, gv0, s_m, v0));
    assert(giant_hits(g, gu0, s_inv, m, gv0, s_m, v0));
    if let Some(x) = r {
        let (u, v) = choose|u: nat, v: nat|
            #![trigger walk_key(g, gu0, s_inv, u), walk_key(g, gv0, s_m, v)]
            {
                &&& v <= v_max
                &&& u < m
                &&& x == u + m * v
                &&& walk_key(g, gu0, s_inv, u) == walk_key(g, gv0, s_m, v)
                &&& forall|w: nat| w < u ==> walk_key(g, gu0, s_inv, w) != walk_key(g, gu0, s_inv, u)
                &&& forall|w: nat| w < v ==> !#[trigger] giant_hits(g, gu0, s_inv, m, gv0, s_m, w)
            };
        assert(u + m * v == x0);
    }
}

/// Meet-in-the-middle correctness up to an order `n`: when the baby step
/// `u < m` and the giant step `v <= v_max` meet exactly when
/// `u + m*v ≡ x0 (mod n)`, with `x0 < n`, `m <= n` and `x0` within reach of
/// the search, the search returns `x0`.
pub proof fn lemma_search_finds_congruent<G: ScalarGroup>(
    g: G,
    gu0: G::Elem,
    s_inv: nat,
    m: nat,
    gv0: G::Elem,
    s_m: nat,
    v_max: nat,
    x0: nat,
    n: nat,
    r: Option<u128>,
)
    requires
        0 < m <= n,
        x0 < n,
        x0 / m <= v_max,
        forall|u: nat, v: nat|
            u < m && v <= v_max ==> (#[trigger] walk_key(g, gu0, s_inv, u) == #[trigger] walk_key(
                g,
                gv0,
                s_m,
                v,
            ) <==> (u + m * v) % n == x0),
        is_search_result(g, gu0, s_inv, m, gv0, s_m, v_max, r),
    ensures
        r == Some(x0 as u128),
{
    let u0 = x0 % m;
    let v0 = x0 / m;
    vstd::arithmetic::div_mod::lemma_fundamental_div_mod(x0 as int, m as int);
    vstd::arithmetic::div_mod::lemma_mod_bound(x0 as int, m as int);
    assert(u0 + m * v0 == x0) by (nonlinear_arith)
        requires
            x0 == m * (x0 / m) + x0 % m,
            u0 == x0 % m,
            v0 == x0 / m,
    ;
    vstd::arithmetic::div_mod::lemma_small_mod(x0, n);
    assert(walk_key(g, gu0, s_inv, u0) == walk_key(g, gv0, s_m, v0));
    assert(giant_hits(g, gu0, s_inv, m, gv0, s_m, v0));
    if let Some(x) = r {
        let (u, v) = choose|u: nat, v: nat|
            #![trigger walk_key(g, gu0, s_inv, u), walk_key(g, gv0, s_m, v)]
            {
                &&& v <= v_max
                &&& u < m
                &&& x == u + m * v
                &&& walk_key(g, gu0, s_inv, u) == walk_key(g, gv0, s_m, v)
                &&& forall|w: nat| w < u ==> walk_key(g, gu0, s_inv, w) != walk_key(g, gu0, s_inv, u)
                &&& forall|w: nat| w < v ==> !#[trigger] giant_hits(g, gu0, s_inv, m, gv0, s_m, w)
            };
        assert((u + m * v) % n == x0);
        if v < v0 {
            assert(u + m * v < x0) by (nonlinear_arith)
                requires
                    u < m,
                    v < v0,
                    u0 + m * v0 == x0,
                    u0 >= 0,
            ;
            vstd::arithmetic::div_mod::lemma_small_mod(u + m * v, n);
        }
        assert(v == v0);
        let y = u + m * v;
        vstd::arithmetic::div_mod::lemma_fundamental_div_mod(y as int, n as int);
        assert(y < x0 + n && x0 <= y + m);
        assert(y / n == 0) by (nonlinear_arith)
            requires
                y == n * (y / n) + x0,
                y < x0 + n,
                y >= 0,
                x0 >= 0,
                n > 0,
        ;
        assert(u + m * v == x0);
    }
}

} // verus!
