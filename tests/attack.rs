use cheon_attack::arith::pow_mod_u64;
use cheon_attack::bsgs::{baby_step_count, baby_step_giant_step, baby_steps};
use cheon_attack::cheon::{recombine, recover_tau, AttackParams};
use cheon_attack::group::{scalar_pow, ScalarGroup};
use cheon_attack::modular::ModularGroup;

// The order-1009 subgroup of the units modulo 10091, generated by 1024.
const P: u64 = 10091;
const Q: u64 = 1009;
const G: u64 = 1024;

fn toy() -> ModularGroup {
    ModularGroup::new(P, Q).unwrap()
}

#[test]
fn step_count_is_truncated_root_plus_one() {
    assert_eq!(baby_step_count(0), 1);
    assert_eq!(baby_step_count(15), 4);
    assert_eq!(baby_step_count(16), 5);
    assert_eq!(baby_step_count(17), 5);
    assert_eq!(baby_step_count(100), 11);
    assert_eq!(baby_step_count(u128::MAX), 1u128 << 64);
}

#[test]
fn modular_power_values() {
    assert_eq!(pow_mod_u64(3, 1000, 10091), 182);
    assert_eq!(pow_mod_u64(2, 10, 1009), 15);
    assert_eq!(pow_mod_u64(7, 0, 13), 1);
    assert_eq!(pow_mod_u64(5, 3, 13), 8);
    assert_eq!(toy().power(G, 1009), 1);
}

#[test]
fn scalar_field_arithmetic() {
    let grp = toy();
    assert_eq!(grp.modulus(), 1009);
    assert_eq!(grp.scalar_mul(1000, 1000), 1000 * 1000 % 1009);
    assert_eq!(scalar_pow(&grp, 2, 10), 15);
    let i = grp.scalar_inv(2).unwrap();
    assert_eq!(2 * i % 1009, 1);
    assert_eq!(grp.scalar_inv(0), None);
    assert_eq!(grp.act(&G, 2), G * G % P);
}

#[test]
fn group_constructor_rejects_small_moduli() {
    assert!(ModularGroup::new(1, 1009).is_none());
    assert!(ModularGroup::new(10091, 2).is_none());
    assert_eq!(ModularGroup::new(10091, 3), Some(ModularGroup { p: 10091, q: 3 }));
}

#[test]
fn bsgs_recovers_every_exponent_in_range() {
    let grp = toy();
    let eta: u128 = 2; // of order 504 in the scalar field
    let max: u128 = 100;
    let eta_inv = grp.scalar_inv(eta).unwrap();
    for x0 in 0..=max {
        let gv0 = grp.act(&G, scalar_pow(&grp, eta_inv, x0));
        assert_eq!(baby_step_giant_step(&grp, eta, max, &G, &gv0), Some(x0));
    }
}

#[test]
fn bsgs_known_value() {
    let grp = toy();
    let eta_inv = grp.scalar_inv(2).unwrap();
    let gv0 = grp.act(&G, scalar_pow(&grp, eta_inv, 57));
    assert_eq!(baby_step_giant_step(&grp, 2, 100, &G, &gv0), Some(57));
}

#[test]
fn bsgs_reports_non_convergence() {
    let grp = toy();
    // 1 is never reached from a generator raised to a unit.
    assert_eq!(baby_step_giant_step(&grp, 2, 100, &G, &1), None);
    // 2 lies outside the order-1009 subgroup.
    assert_eq!(baby_step_giant_step(&grp, 2, 100, &G, &2), None);
}

#[test]
fn bsgs_rejects_non_invertible_step() {
    let grp = toy();
    assert_eq!(baby_step_giant_step(&grp, 0, 100, &G, &G), None);
}

#[test]
fn bsgs_is_deterministic() {
    let grp = toy();
    let gv0 = grp.act(&G, 555);
    let a = baby_step_giant_step(&grp, 2, 500, &G, &gv0);
    let b = baby_step_giant_step(&grp, 2, 500, &G, &gv0);
    assert_eq!(a, b);
}

#[test]
fn baby_table_size_is_bounded() {
    let grp = toy();
    for max in [0u128, 1, 2, 3, 10, 99, 100, 1000] {
        let m = baby_step_count(max);
        let t = baby_steps(&grp, &G, 2, m);
        assert!(t.len() as u128 <= m);
        // Steps of an element of order 504 do not repeat this early.
        assert_eq!(t.len() as u128, m);
        assert_eq!(t.get(&(G as u128)), Some(&0));
    }
    // A step of order 1 collapses the table to one entry.
    let t = baby_steps(&grp, &G, 1, 10);
    assert_eq!(t.len(), 1);
    assert_eq!(t.get(&(G as u128)), Some(&0));
}

#[test]
fn recombine_round_trip() {
    // q = 1009, d = 7: cofactor 144.
    for k in [0u128, 35, 143, 144, 179, 1007] {
        let (k0, k1) = (k % 144, k / 144);
        assert_eq!(recombine(k0, k1, 1009, 7), Some(k));
    }
    assert_eq!(recombine(35, 1, 1009, 7), Some(179));
    assert_eq!(recombine(1, u128::MAX, 1009, 7), None);
    assert_eq!(recombine(u128::MAX, 0, 1009, 7), Some(u128::MAX));
    assert_eq!(recombine(u128::MAX, 1, 1009, 1008), None);
}

#[test]
fn toy_attack_recovers_tau() {
    let grp = toy();
    let tau: u128 = 37;
    let g1 = grp.act(&G, tau);
    let gd = grp.act(&G, scalar_pow(&grp, tau, 5));
    assert_eq!(g1, 2025);
    assert_eq!(gd, 7427);
    let pr = AttackParams { d1: 2, d2: 3, a: 30, b: 50 };
    assert_eq!(recover_tau(&grp, &G, &g1, &gd, &pr), Some(37));
    assert_eq!(recover_tau(&grp, &G, &g1, &gd, &pr), Some(37));
}

#[test]
fn toy_attack_with_nonzero_digit() {
    let grp = toy();
    let tau: u128 = 858; // 2^179 = 2^(35 + 1 * 144)
    let g1 = grp.act(&G, tau);
    let gd = grp.act(&G, scalar_pow(&grp, tau, 7));
    assert_eq!(g1, 1125);
    assert_eq!(gd, 6218);
    let pr = AttackParams { d1: 3, d2: 4, a: 30, b: 50 };
    assert_eq!(recover_tau(&grp, &G, &g1, &gd, &pr), Some(858));
}

#[test]
fn attack_rejects_bad_parameters() {
    let grp = toy();
    let g1 = grp.act(&G, 37);
    let gd = grp.act(&G, scalar_pow(&grp, 37, 5));
    let zero_d = AttackParams { d1: 0, d2: 0, a: 30, b: 50 };
    assert_eq!(recover_tau(&grp, &G, &g1, &gd, &zero_d), None);
    let reversed = AttackParams { d1: 2, d2: 3, a: 50, b: 30 };
    assert_eq!(recover_tau(&grp, &G, &g1, &gd, &reversed), None);
    let huge = AttackParams { d1: u128::MAX, d2: 1, a: 30, b: 50 };
    assert_eq!(recover_tau(&grp, &G, &g1, &gd, &huge), None);
}

#[test]
fn attack_reports_failed_search() {
    let grp = toy();
    // gd = 1 is not g raised to any unit, so the first search finds nothing.
    let pr = AttackParams { d1: 2, d2: 3, a: 30, b: 50 };
    assert_eq!(recover_tau(&grp, &G, &G, &1, &pr), None);
}
