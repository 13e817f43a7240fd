//! Integer helpers: truncated square roots and modular exponentiation.

use vstd::prelude::*;
use vstd::arithmetic::power::{pow, lemma_pow_adds, lemma_pow0, lemma_pow1};
use vstd::arithmetic::div_mod::{lemma_mul_mod_noop, lemma_mod_bound};

verus! {

/// The truncated square root `⌊√x⌋`.
pub open spec fn is_isqrt(x: nat, r: nat) -> bool {
    r * r <= x && x < (r + 1) * (r + 1)
}

/// Relies on num_integer::Roots::sqrt for u128, which returns the
/// truncated principal square root, `r * r <= x < (r + 1) * (r + 1)`.
#[verifier::external_body]
pub(crate) fn isqrt(x: u128) -> (r: u128)
    ensures
        is_isqrt(x as nat, r as nat),
{
    num_integer::Roots::sqrt(&x)
}

/// The square root of a `u128` fits in 64 bits.
pub proof fn lemma_isqrt_bound(x: nat, r: nat)
    requires
        is_isqrt(x, r),
        x <= u128::MAX,
    ensures
        r <= u64::MAX,
{
    if r > u64::MAX {
        assert(r * r > u128::MAX) by (nonlinear_arith)
            requires
                r >= 0x1_0000_0000_0000_0000nat,
        ;
    }
}

/// `b^e mod n`.
pub open spec fn pow_mod(b: nat, e: nat, n: nat) -> nat
    recommends
        n > 0,
{
    (pow(b as int, e) % (n as int)) as nat
}

/// Reducing the base first does not change `b^e mod n`.
pub proof fn lemma_pow_mod_step(b: nat, e: nat, n: nat)
    requires
        n > 0,
    ensures
        pow_mod(b, 2 * e, n) == (pow_mod(b, e, n) * pow_mod(b, e, n)) % n,
        pow_mod(b, 2 * e + 1, n) == (((pow_mod(b, e, n) * pow_mod(b, e, n)) % n) * (b % n)) % n,
{
    lemma_pow_adds(b as int, e, e);
    lemma_mul_mod_noop(pow(b as int, e), pow(b as int, e), n as int);
    lemma_pow_adds(b as int, 2 * e, 1);
    lemma_pow1(b as int);
    lemma_mul_mod_noop(pow(b as int, 2 * e), b as int, n as int);
    lemma_mod_bound(pow(b as int, e), n as int);
}

/// `b^e mod n` by recursive squaring, for a modulus below `2^64`.
pub fn pow_mod_u64(b: u64, e: u128, n: u64) -> (r: u64)
    requires
        n > 0,
    ensures
        r as nat == pow_mod(b as nat, e as nat, n as nat),
    decreases e,
{
    if e == 0 {
        proof {
            lemma_pow0(b as int);
        }
        return (1 % n) as u64;
    }
    let h = pow_mod_u64(b, e / 2, n);
    proof {
        lemma_pow_mod_step(b as nat, (e / 2) as nat, n as nat);
        lemma_mod_bound(pow(b as int, (e / 2) as nat), n as int);
    }
    assert((h as nat) * (h as nat) <= u64::MAX as nat * u64::MAX as nat) by (nonlinear_arith)
        requires
            h <= u64::MAX,
    ;
    let hh: u128 = h as u128 * h as u128;
    let sq: u64 = (hh % n as u128) as u64;
    if e % 2 == 0 {
        assert(e as nat == 2 * (e / 2) as nat);
        sq
    } else {
        assert(e as nat == 2 * (e / 2) as nat + 1);
        let bn: u64 = b % n;
        assert((sq as nat) * (bn as nat) <= u64::MAX as nat * u64::MAX as nat) by (nonlinear_arith)
            requires
                sq <= u64::MAX,
                bn <= u64::MAX,
        ;
        let t: u128 = sq as u128 * bn as u128;
        (t % n as u128) as u64
    }
}

} // verus!
