use plasma::rng::Lcg64;
use plasma::stabilizer::StabilizerBackend;

const X0: u64 = 1;
const Y0: u64 = 2;
const Z0: u64 = 3;

#[test]
fn the_ground_state() {
    let sb = StabilizerBackend::new(3);
    assert_eq!(sb.dim(), 8);
    assert_eq!(sb.expect_value(Z0), 1);
    assert_eq!(sb.expect_value(X0), 0);
    assert_eq!(sb.expect_value(Y0), 0);
    assert_eq!(sb.expect_value(0), 1);
    assert_eq!(sb.probability(0), 0);
    assert_eq!(sb.norm(), 1);
    // X on each qubit, then Z on each qubit.
    assert_eq!(
        sb.dump_tableau(),
        vec![(1, 0, 0), (2, 0, 0), (4, 0, 0), (0, 1, 0), (0, 2, 0), (0, 4, 0)]
    );
}

#[test]
fn gates_turn_expectations() {
    let mut sb = StabilizerBackend::new(1);
    sb.apply_x(0);
    assert_eq!(sb.expect_value(Z0), -1);
    assert_eq!(sb.probability(0), 2);
    sb.apply_h(0);
    assert_eq!(sb.expect_value(X0), -1);
    assert_eq!(sb.probability(0), 1);
    sb.apply_s(0);
    assert_eq!(sb.expect_value(Y0), -1);
    sb.apply_z(0);
    assert_eq!(sb.expect_value(Y0), 1);
    sb.reset();
    assert_eq!(sb.expect_value(Z0), 1);
}

#[test]
fn a_bell_pair() {
    let mut sb = StabilizerBackend::new(2);
    sb.apply_h(0);
    sb.apply_cnot(0, 1);
    assert_eq!(sb.expect_value(3), 0);
    assert_eq!(sb.expect_value(12), 0);
    assert_eq!(sb.expect_value(15), 1);
    assert_eq!(sb.expect_value(5), 1);
    assert_eq!(sb.expect_value(10), -1);
    for seed in 0..20 {
        let mut copy = sb.clone();
        let mut rng = Lcg64::new(seed);
        let a = copy.measure(0, &mut rng);
        assert_eq!(copy.measure(1, &mut rng), a);
        assert_eq!(copy.measure(0, &mut rng), a);
    }
}

#[test]
fn pair_gates() {
    let mut sb = StabilizerBackend::new(2);
    sb.apply_x(0);
    sb.apply_swap(0, 1);
    assert_eq!(sb.expect_value(3), 1);
    assert_eq!(sb.expect_value(12), -1);
    sb.apply_h(0);
    sb.apply_cz(0, 1);
    // X on qubit 0 picked up the sign of qubit 1.
    assert_eq!(sb.expect_value(1), -1);
    // On one qubit a controlled Z is Z, the others do nothing.
    let mut one = StabilizerBackend::new(1);
    one.apply_h(0);
    one.apply_cz(0, 0);
    assert_eq!(one.expect_value(X0), -1);
    one.apply_cnot(0, 0);
    one.apply_swap(0, 0);
    assert_eq!(one.expect_value(X0), -1);
}

#[test]
fn rotated_measurements_are_sharp() {
    for seed in 0..20 {
        let mut rng = Lcg64::new(seed);
        let mut plus = StabilizerBackend::new(1);
        plus.apply_h(0);
        assert_eq!(plus.measure_x(0, &mut rng), 0);
        assert_eq!(plus.expect_value(X0), 1);
        let mut plus_y = StabilizerBackend::new(1);
        plus_y.apply_h(0);
        plus_y.apply_s(0);
        assert_eq!(plus_y.measure_y(0, &mut rng), 0);
        assert_eq!(plus_y.expect_value(Y0), 1);
        let mut any = StabilizerBackend::new(1);
        let o = any.measure_y(0, &mut rng);
        assert_eq!(any.expect_value(Y0), 1 - 2 * o as i8);
    }
}

#[test]
fn measured_and_cleared() {
    for seed in 0..20 {
        let mut rng = Lcg64::new(seed);
        let mut sb = StabilizerBackend::new(2);
        sb.apply_h(0);
        sb.apply_cnot(0, 1);
        let o = sb.measure_and_reset(0, &mut rng);
        assert_eq!(sb.expect_value(3), 1);
        assert_eq!(sb.expect_value(12), 1 - 2 * o as i8);
    }
}

#[test]
fn samples_follow_the_state() {
    let mut sb = StabilizerBackend::new(3);
    sb.apply_x(0);
    sb.apply_x(2);
    assert_eq!(sb.sample(&mut Lcg64::new(1)), 5);
    let mut rng = Lcg64::new(1);
    let before = rng.0;
    assert_eq!(sb.sample(&mut rng), 5);
    // A definite outcome draws nothing.
    assert_eq!(rng.0, before);
}

#[test]
fn the_draw_decides() {
    // Bits of a draw below one half give one.
    for seed in 0..50 {
        let mut sb = StabilizerBackend::new(1);
        sb.apply_h(0);
        let mut rng = Lcg64::new(seed);
        let mut peek = Lcg64::new(seed);
        let low = peek.next_bits() < (1 << 52);
        assert_eq!(sb.measure(0, &mut rng), low as u8);
        assert_eq!(rng.0, peek.0);
    }
}

#[test]
fn a_sample_leaves_its_values_behind() {
    for seed in 0..40 {
        let mut sb = StabilizerBackend::new(4);
        sb.apply_h(0);
        sb.apply_cnot(0, 2);
        sb.apply_h(3);
        sb.apply_s(3);
        sb.apply_cz(3, 1);
        let mut rng = Lcg64::new(seed);
        let out = sb.sample(&mut rng);
        let after = rng.0;
        for q in 0..4u8 {
            assert_eq!(sb.measure(q, &mut rng) as usize, (out >> q) & 1);
        }
        assert_eq!(sb.sample(&mut rng), out);
        assert_eq!(rng.0, after);
    }
}

#[test]
fn pair_gates_undo_themselves() {
    let mut sb = StabilizerBackend::new(3);
    sb.apply_h(0);
    sb.apply_s(0);
    sb.apply_cnot(0, 1);
    let before = sb.dump_tableau();
    sb.apply_cnot(1, 2);
    sb.apply_cnot(1, 2);
    sb.apply_swap(0, 2);
    sb.apply_swap(0, 2);
    sb.apply_cz(0, 2);
    sb.apply_cz(0, 2);
    assert_eq!(sb.dump_tableau(), before);
}
