use plasma::amplitudes::{pauli_masks, PauliMasks, State};

/// A register whose amplitudes are their own indices.
fn numbered(n: usize) -> State<i64> {
    let mut s = State::new(n, 0, 1);
    for i in 0..n {
        s.re[i] = i as i64;
        s.im[i] = -(i as i64);
    }
    s
}

fn moved(s: &State<i64>) -> Vec<i64> {
    for i in 0..s.re.len() {
        assert_eq!(s.im[i], -s.re[i]);
    }
    s.re.clone()
}

#[test]
fn a_new_register_is_in_the_ground_state() {
    let mut s: State<i64> = State::new(4, 0, 1);
    assert_eq!(s.re, vec![1, 0, 0, 0]);
    assert_eq!(s.im, vec![0, 0, 0, 0]);
    s.re[3] = 5;
    s.im[0] = 2;
    s.reset(0, 1);
    assert_eq!(s.re, vec![1, 0, 0, 0]);
    assert_eq!(s.im, vec![0, 0, 0, 0]);
}

#[test]
fn flips() {
    let mut s = numbered(8);
    s.apply_x(1);
    assert_eq!(moved(&s), vec![2, 3, 0, 1, 6, 7, 4, 5]);
    let mut s = numbered(4);
    s.apply_cnot(0, 1);
    assert_eq!(moved(&s), vec![0, 3, 2, 1]);
    let mut s = numbered(8);
    s.apply_toff(0, 1, 2);
    assert_eq!(moved(&s), vec![0, 1, 2, 7, 4, 5, 6, 3]);
    let mut s = numbered(8);
    s.apply_mcx(0b101, 1);
    assert_eq!(moved(&s), vec![0, 1, 2, 3, 4, 7, 6, 5]);
}

#[test]
fn exchanges() {
    let mut s = numbered(4);
    s.apply_swap(0, 1);
    assert_eq!(moved(&s), vec![0, 2, 1, 3]);
    let mut s = numbered(8);
    s.apply_cswap(2, 0, 1);
    assert_eq!(moved(&s), vec![0, 1, 2, 3, 4, 6, 5, 7]);
}

#[test]
fn a_control_that_is_the_target_does_nothing() {
    let mut s = numbered(8);
    s.apply_cnot(1, 1);
    s.apply_toff(0, 2, 2);
    s.apply_mcx(0b111, 0);
    s.apply_swap(2, 2);
    assert_eq!(moved(&s), vec![0, 1, 2, 3, 4, 5, 6, 7]);
}

#[test]
fn moves_undo_themselves() {
    let mut s = numbered(16);
    for _ in 0..2 {
        s.apply_x(3);
    }
    for _ in 0..2 {
        s.apply_toff(3, 1, 0);
    }
    for _ in 0..2 {
        s.apply_cswap(0, 2, 3);
    }
    assert_eq!(moved(&s), (0..16).collect::<Vec<i64>>());
}

#[test]
fn pairs_are_visited_once() {
    let mut s = numbered(8);
    s.for_each_pair(1, |a, b| {
        assert_eq!(b.0, a.0 + 2);
        ((a.0 + 100, 0), (b.0 + 200, 0))
    });
    assert_eq!(s.re, vec![100, 101, 202, 203, 104, 105, 206, 207]);
    let mut s = numbered(4);
    s.for_each_exchange(0, 1, |a, b| {
        assert_eq!((a.0, b.0), (1, 2));
        ((10 * b.0, 0), (10 * a.0, 0))
    });
    assert_eq!(s.re, vec![0, 20, 10, 3]);
}

#[test]
fn selected_amplitudes_change() {
    let mut s = numbered(8);
    s.for_each_both(0, 2, |a| (-a.0, -a.1));
    assert_eq!(s.re, vec![0, 1, 2, 3, 4, -5, 6, -7]);
    let mut s = numbered(4);
    s.for_each_both(1, 1, |a| (-a.0, -a.1));
    assert_eq!(s.re, vec![0, 1, -2, -3]);
}

#[test]
fn quads_are_visited_once() {
    let mut s = numbered(8);
    s.for_each_quad(2, 0, |a, b, c, d| {
        assert_eq!((b.0, c.0, d.0), (a.0 + 4, a.0 + 1, a.0 + 5));
        (d, c, b, a)
    });
    assert_eq!(moved(&s), vec![5, 4, 7, 6, 1, 0, 3, 2]);
}

#[test]
fn a_measurement_discards_the_other_outcome() {
    let mut s = numbered(4);
    s.discard(0, true, 9);
    assert_eq!(s.re, vec![9, 1, 9, 3]);
    let mut s = numbered(4);
    s.discard(1, false, 9);
    assert_eq!(s.re, vec![0, 1, 9, 9]);
    assert_eq!(s.im, vec![0, -1, 9, 9]);
}

#[test]
fn captures() {
    let s = numbered(2);
    assert_eq!(s.interleaved(), vec![0, 0, 1, -1]);
    assert_eq!(s.indexed(), vec![(0, 0, 0), (1, 1, -1)]);
}

#[test]
fn masks_of_pauli_products() {
    // Z0 X1 Y2 Y3
    assert_eq!(
        pauli_masks(0b10_10_01_11),
        PauliMasks { flip: 0b1110, z: 0b0001, y: 0b1100, y_letters: 2 }
    );
    assert_eq!(pauli_masks(0), PauliMasks { flip: 0, z: 0, y: 0, y_letters: 0 });
    assert_eq!(
        pauli_masks(u64::MAX),
        PauliMasks { flip: 0, z: 0xFFFF_FFFF, y: 0, y_letters: 0 }
    );
}
