use plasma::chain::Chain;

fn sites(c: &Chain, n: usize) -> Vec<usize> {
    (0..n).map(|k| c.qubit_at(k)).collect()
}

#[test]
fn a_new_chain_is_in_order() {
    let c = Chain::new(4);
    assert_eq!(sites(&c, 4), vec![0, 1, 2, 3]);
    assert_eq!(c.site_of(2), 2);
}

#[test]
fn neighbours_stay() {
    let mut c = Chain::new(3);
    let m = c.bring_together(1, 2);
    assert!(m.swaps.is_empty());
    assert_eq!(m.site, 1);
    assert!(!m.crossed);
    let m = c.bring_together(2, 1);
    assert!(m.swaps.is_empty());
    assert_eq!(m.site, 1);
    assert!(m.crossed);
}

#[test]
fn distant_qubits_meet_and_return() {
    let mut c = Chain::new(5);
    let m = c.bring_together(4, 1);
    assert_eq!(m.swaps, vec![3, 2]);
    assert_eq!(m.site, 1);
    assert!(m.crossed);
    assert_eq!(sites(&c, 5), vec![0, 1, 4, 2, 3]);
    c.send_back(&m.swaps);
    assert_eq!(sites(&c, 5), vec![0, 1, 2, 3, 4]);
}

#[test]
fn to_the_front() {
    let mut c = Chain::new(4);
    assert_eq!(c.bring_to_front(2), vec![1, 0]);
    assert_eq!(sites(&c, 4), vec![2, 0, 1, 3]);
    assert_eq!(c.bring_to_front(2), Vec::<usize>::new());
    assert_eq!(c.site_of(3), 3);
    assert_eq!(c.bring_to_front(3), vec![2, 1, 0]);
    assert_eq!(sites(&c, 4), vec![3, 2, 0, 1]);
}
