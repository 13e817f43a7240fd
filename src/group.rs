//! The algebra the attack runs on: a cyclic group of prime order `q` on which
//! the scalar field `Z_q` acts by exponentiation.

use vstd::prelude::*;
use crate::arith::{pow_mod, lemma_pow_mod_step};
use vstd::arithmetic::power::{pow, lemma_pow0};
use vstd::arithmetic::div_mod::{lemma_mod_bound, lemma_small_mod};

verus! {

/// A cyclic group whose elements are raised to scalars of the field `Z_q`.
///
/// Elements are compared through an integer key; the search tables of the
/// solver are indexed by it.
pub trait ScalarGroup {
    type Elem;

    /// The scalar modulus `q`.
    spec fn order(&self) -> nat;

    /// The parameters describe a usable group: `2 < q <= u128::MAX`.
    spec fn wf(&self) -> bool;

    /// `x^s`.
    spec fn act_spec(&self, x: Self::Elem, s: nat) -> Self::Elem;

    /// The lookup key of an element.
    spec fn key_spec(&self, x: Self::Elem) -> u128;

    /// The inverse of a scalar, if it has one.
    spec fn inv_spec(&self, a: nat) -> Option<nat>;

    fn modulus(&self) -> (r: u128)
        requires
            self.wf(),
        ensures
            r == self.order(),
            2 < r,
    ;

    fn act(&self, x: &Self::Elem, s: u128) -> (r: Self::Elem)
        requires
            self.wf(),
            s < self.order(),
        ensures
            r == self.act_spec(*x, s as nat),
    ;

    fn key(&self, x: &Self::Elem) -> (r: u128)
        ensures
            r == self.key_spec(*x),
    ;

    fn copy_elem(&self, x: &Self::Elem) -> (r: Self::Elem)
        ensures
            r == *x,
    ;

    fn scalar_mul(&self, a: u128, b: u128) -> (r: u128)
        requires
            self.wf(),
            a < self.order(),
            b < self.order(),
        ensures
            r as nat == (a as nat * b as nat) % self.order(),
    ;

    fn scalar_inv(&self, a: u128) -> (r: Option<u128>)
        requires
            self.wf(),
            a < self.order(),
        ensures
            r is Some <==> self.inv_spec(a as nat) is Some,
            r matches Some(i) ==> i as nat == self.inv_spec(a as nat)->0 && i < self.order()
                && (a as nat * i as nat) % self.order() == 1,
    ;
}

/// `b^e` in the scalar field, by recursive squaring.
pub fn scalar_pow<G: ScalarGroup>(g: &G, b: u128, e: u128) -> (r: u128)
    requires
        g.wf(),
        b < g.order(),
    ensures
        r as nat == pow_mod(b as nat, e as nat, g.order()),
        r < g.order(),
    decreases e,
{
    let q = g.modulus();
    if e == 0 {
        proof {
            lemma_pow0(b as int);
            lemma_small_mod(1, q as nat);
        }
        return 1;
    }
    let h = scalar_pow(g, b, e / 2);
    proof {
        lemma_pow_mod_step(b as nat, (e / 2) as nat, q as nat);
    }
    let sq = g.scalar_mul(h, h);
    if e % 2 == 0 {
        assert(e as nat == 2 * (e / 2) as nat);
        sq
    } else {
        assert(e as nat == 2 * (e / 2) as nat + 1);
        let r = g.scalar_mul(sq, b);
        proof {
            lemma_small_mod(b as nat, q as nat);
            lemma_mod_bound(pow(b as int, e as nat), q as int);
        }
        r
    }
}

} // verus!
