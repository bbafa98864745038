use plasma::fusion::{can_fuse, fuse_program, FusedOp};
use plasma::ir::{IrOp, Program};

type M = Vec<Vec<(f64, f64)>>;

fn zero(n: usize) -> M {
    vec![vec![(0.0, 0.0); n]; n]
}

fn product(a: &M, b: &M) -> M {
    let n = a.len();
    let mut out = zero(n);
    for i in 0..n {
        for j in 0..n {
            for k in 0..n {
                let (x, y) = (a[i][k], b[k][j]);
                out[i][j].0 += x.0 * y.0 - x.1 * y.1;
                out[i][j].1 += x.0 * y.1 + x.1 * y.0;
            }
        }
    }
    out
}

/// The matrix of a gate on one qubit.
fn single(op: IrOp) -> M {
    let h = 0.5f64.sqrt();
    match op {
        IrOp::H(_) => vec![vec![(h, 0.0), (h, 0.0)], vec![(h, 0.0), (-h, 0.0)]],
        IrOp::X(_) => vec![vec![(0.0, 0.0), (1.0, 0.0)], vec![(1.0, 0.0), (0.0, 0.0)]],
        _ => panic!("no matrix"),
    }
}

/// The matrix of a gate on the qubits `a` and `b`, in the basis
/// `bit(a) + 2 bit(b)`.
fn pair(a: u8, b: u8, op: IrOp) -> M {
    let mut out = zero(4);
    match op {
        IrOp::CNOT(c, t) => {
            for s in 0..4usize {
                let (cp, tp) = if c == a { (0, 1) } else { (1, 0) };
                assert!((c == a && t == b) || (c == b && t == a));
                let d = if (s >> cp) & 1 == 1 { s ^ (1 << tp) } else { s };
                out[d][s] = (1.0, 0.0);
            }
        }
        IrOp::H(q) | IrOp::X(q) => {
            let m = single(op);
            let p = if q == a { 0 } else { 1 };
            for s in 0..4usize {
                for v in 0..2usize {
                    let d = (s & !(1 << p)) | (v << p);
                    out[d][s] = m[v][(s >> p) & 1];
                }
            }
        }
        _ => panic!("no matrix"),
    }
    out
}

fn program(n: u8, ops: &[IrOp]) -> Box<Program<f64>> {
    let mut prog: Box<Program<f64>> = Box::new(Program::new());
    prog.num_qubits = n;
    for op in ops.iter() {
        assert!(prog.emit(*op));
    }
    prog
}

#[test]
fn test_fuse_identity_hh() {
    let mut prog: Program<f64> = Program::new();
    prog.num_qubits = 1;
    prog.emit(IrOp::H(0));
    prog.emit(IrOp::H(0));
    let fused = fuse_program(&prog);
    assert_eq!(fused.len(), 1);
    match &fused[0] {
        FusedOp::U1(_, gates) => {
            let mut m = vec![vec![(1.0, 0.0), (0.0, 0.0)], vec![(0.0, 0.0), (1.0, 0.0)]];
            for g in gates.iter() {
                m = product(&single(*g), &m);
            }
            assert!((m[0][0].0 - 1.0).abs() < 1e-12);
            assert!((m[1][1].0 - 1.0).abs() < 1e-12);
        }
        _ => panic!("expected U1"),
    }
}

#[test]
fn test_fuse_h_cnot_h() {
    let mut prog: Program<f64> = Program::new();
    prog.num_qubits = 2;
    prog.emit(IrOp::H(0));
    prog.emit(IrOp::CNOT(0, 1));
    prog.emit(IrOp::H(1));
    let fused = fuse_program(&prog);
    assert_eq!(fused.len(), 1);
    match &fused[0] {
        FusedOp::U2(0, 1, _) => {}
        _ => panic!("expected single U2"),
    }
}

#[test]
fn test_fuse_preserves_measure() {
    let mut prog: Program<f64> = Program::new();
    prog.num_qubits = 2;
    prog.emit(IrOp::H(0));
    prog.emit(IrOp::Measure(0, 0));
    prog.emit(IrOp::X(1));
    let fused = fuse_program(&prog);
    assert_eq!(fused.len(), 3);
    assert!(matches!(fused[0], FusedOp::U1(0, _)));
    assert!(matches!(fused[1], FusedOp::Original(IrOp::Measure(0, 0))));
    assert!(matches!(fused[2], FusedOp::U1(1, _)));
}

#[test]
fn test_fuse_patches_if_body() {
    let mut prog: Program<f64> = Program::new();
    prog.num_qubits = 1;
    prog.emit(IrOp::IfEq(0, 1, 1, 2));
    prog.emit(IrOp::H(0));
    prog.emit(IrOp::X(0));
    let fused = fuse_program(&prog);
    assert_eq!(fused.len(), 2);
    match &fused[0] {
        FusedOp::Original(IrOp::IfEq(c, v, off, len)) => {
            assert_eq!(*c, 0);
            assert_eq!(*v, 1);
            assert_eq!(*off, 1);
            assert_eq!(*len, 1);
        }
        _ => panic!("expected patched IfEq"),
    }
    assert!(matches!(fused[1], FusedOp::U1(0, _)));
}

#[test]
fn test_fuse_never_grows() {
    let mut prog: Program<f64> = Program::new();
    prog.num_qubits = 3;
    for _ in 0..50 {
        prog.emit(IrOp::H(0));
        prog.emit(IrOp::CNOT(0, 1));
        prog.emit(IrOp::RZ(1, 0));
    }
    let fused = fuse_program(&prog);
    assert!(fused.len() <= 100);
    assert_eq!(fused.len(), 1);
}

#[test]
fn test_gate_matrix_consistency() {
    let mut prog: Program<f64> = Program::new();
    prog.num_qubits = 2;
    prog.emit(IrOp::H(0));
    prog.emit(IrOp::CNOT(0, 1));
    let fused = fuse_program(&prog);
    assert_eq!(fused.len(), 1);
    match &fused[0] {
        FusedOp::U2(0, 1, gates) => {
            let mut m = zero(4);
            for s in 0..4 {
                m[s][s] = (1.0, 0.0);
            }
            for g in gates.iter() {
                m = product(&pair(0, 1, *g), &m);
            }
            assert!((m[0][0].0 - 1.0 / 2.0f64.sqrt()).abs() < 1e-12);
            assert!((m[3][0].0 - 1.0 / 2.0f64.sqrt()).abs() < 1e-12);
            assert!((m[1][3].0 + 1.0 / 2.0f64.sqrt()).abs() < 1e-12);
            assert!((m[2][3].0 - 1.0 / 2.0f64.sqrt()).abs() < 1e-12);
        }
        _ => panic!("expected U2"),
    }
}

#[test]
fn blocks_hold_their_gates_in_order() {
    let ops = [IrOp::H(2), IrOp::S(2), IrOp::CNOT(2, 0), IrOp::X(0), IrOp::H(1)];
    let fused = fuse_program(&program(3, &ops));
    assert_eq!(fused.len(), 2);
    match &fused[0] {
        FusedOp::U2(2, 0, gates) => assert_eq!(gates[..], ops[..4]),
        _ => panic!("expected U2"),
    }
    match &fused[1] {
        FusedOp::U1(1, gates) => assert_eq!(gates[..], ops[4..]),
        _ => panic!("expected U1"),
    }
}

#[test]
fn a_third_qubit_starts_a_new_block() {
    let ops = [IrOp::CNOT(0, 1), IrOp::CNOT(1, 2)];
    let fused = fuse_program(&program(3, &ops));
    assert_eq!(fused.len(), 2);
    assert!(matches!(&fused[0], FusedOp::U2(0, 1, g) if g.len() == 1));
    assert!(matches!(&fused[1], FusedOp::U2(1, 2, g) if g.len() == 1));
}

#[test]
fn three_qubit_gates_are_kept() {
    let ops = [IrOp::H(0), IrOp::Toff(0, 1, 2), IrOp::H(0)];
    let fused = fuse_program(&program(3, &ops));
    assert_eq!(fused.len(), 3);
    assert!(matches!(fused[1], FusedOp::Original(IrOp::Toff(0, 1, 2))));
}

#[test]
fn bodies_of_repetitions_are_patched() {
    let ops = [IrOp::H(0), IrOp::H(0), IrOp::Shot(9, 3, 2), IrOp::X(1), IrOp::X(1), IrOp::Print];
    let fused = fuse_program(&program(2, &ops));
    assert_eq!(fused.len(), 4);
    assert!(matches!(fused[1], FusedOp::Original(IrOp::Shot(9, 2, 1))));
    assert!(matches!(fused[2], FusedOp::U1(1, _)));
    assert!(matches!(fused[3], FusedOp::Original(IrOp::Print)));
}

#[test]
fn bodies_must_stand_behind_their_ops() {
    assert!(can_fuse(&program(1, &[IrOp::IfEq(0, 1, 1, 1), IrOp::H(0), IrOp::Shot(5, 0, 0)])));
    assert!(!can_fuse(&program(1, &[IrOp::H(0), IrOp::IfEq(0, 1, 0, 1)])));
    assert!(!can_fuse(&program(1, &[IrOp::IfNe(0, 1, 1, 9), IrOp::H(0)])));
    let inner = [IrOp::Shot(2, 1, 2), IrOp::IfEq(0, 0, 2, 5), IrOp::H(0)];
    assert!(!can_fuse(&program(1, &inner)));
}
