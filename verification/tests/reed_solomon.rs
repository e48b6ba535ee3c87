use interactive_proofs::reed_solomon::{
    reed_solomon_simulation, reed_solomon_simulation_at, Party,
};

#[test]
fn fingerprint_exact_values() {
    let party = Party::new(vec![1, 2, 3, 4, 5]);
    // 1 + 2*2 + 3*4 + 4*8 + 5*16 = 129
    assert_eq!(party.evaluate(2, 31), 129 % 31);
    assert_eq!(party.evaluate(2, 1000), 129);
    assert_eq!(party.evaluate(0, 31), 1);
    assert_eq!(party.evaluate(1, 31), 15);
    // 1 + 20 + 300 + 4000 + 50000 = 54321
    assert_eq!(party.evaluate(10, 100_000), 54321);
    assert_eq!(party.evaluate(10, 31), 54321 % 31);
    assert_eq!(party.evaluate(7, 1), 0);
    assert_eq!(Party::new(vec![]).evaluate(5, 31), 0);
    assert_eq!(Party::new(vec![40]).evaluate(5, 31), 9);
}

#[test]
fn equal_data_agree_at_every_point() {
    let alice = Party::new(vec![1, 2, 3, 4, 5]);
    let bob = Party::new(vec![1, 2, 3, 4, 5]);
    for r in 0..31u64 {
        assert_eq!(alice.evaluate(r, 31), bob.evaluate(r, 31));
    }
}

#[test]
fn different_data_collide_at_few_points() {
    let alice = Party::new(vec![1, 2, 3, 4, 5]);
    let bob = Party::new(vec![1, 2, 7, 4, 5]);
    let mut collisions = 0;
    for r in 0..31u64 {
        if alice.evaluate(r, 31) == bob.evaluate(r, 31) {
            collisions += 1;
        }
    }
    // the difference is 4 * r^2, which vanishes at r = 0 only
    assert_eq!(collisions, 1);
    assert!(collisions <= 5);
}

#[test]
fn large_inputs_do_not_overflow() {
    let party = Party::new(vec![u64::MAX, u64::MAX, u64::MAX]);
    let field = u64::MAX - 58;
    // u64::MAX = 58 modulo the field, and field - 1 = -1
    assert_eq!(party.evaluate(field - 1, field), 58);
    assert_eq!(party.evaluate(u64::MAX, field), (58 + 58 * 58 + 58 * 58 * 58) % field);
}

#[test]
fn simulation_agrees() {
    assert!(reed_solomon_simulation());
    for seed in 0..100u64 {
        assert!(reed_solomon_simulation_at(seed));
    }
}
