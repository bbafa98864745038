use plasma::device::{
    batch_region, build_mega_ops, grid_size, is_batchable, is_pure_unitary, sample_from_cum,
    Region, MEGA_MAX_AMPS,
};
use plasma::ir::{IrOp, Program};

fn program(ops: &[IrOp], explicit: bool) -> Box<Program<f64>> {
    let mut prog: Box<Program<f64>> = Box::new(Program::new());
    prog.num_qubits = 3;
    prog.has_explicit_shot = explicit;
    for op in ops.iter() {
        assert!(prog.emit(*op));
    }
    prog.sub_len = prog.len;
    prog
}

#[test]
fn purity() {
    assert!(is_pure_unitary(&program(&[IrOp::H(0), IrOp::Print, IrOp::Expect(3)], false)));
    for op in [
        IrOp::Measure(0, 0),
        IrOp::MeasureX(0, 0),
        IrOp::MeasureY(0, 0),
        IrOp::Reset(0),
        IrOp::IfEq(0, 0, 2, 0),
        IrOp::IfNe(0, 0, 2, 0),
    ] {
        assert!(!is_pure_unitary(&program(&[IrOp::H(0), op], false)));
    }
}

#[test]
fn a_measurement_inside_a_called_gate_counts() {
    let mut prog = program(&[IrOp::Call(0, 0, 255, 255)], false);
    prog.emit_sub(IrOp::H(0));
    assert!(is_batchable(&prog));
    prog.emit_sub(IrOp::Measure(0, 0));
    assert!(!is_pure_unitary(&prog));
    assert!(!is_batchable(&prog));
}

#[test]
fn regions() {
    let plain = program(&[IrOp::H(0), IrOp::X(1)], false);
    assert_eq!(batch_region(&plain, None), Some(Region { start: 0, end: 2, samples: 1 }));
    assert_eq!(batch_region(&plain, Some(9)), Some(Region { start: 0, end: 2, samples: 9 }));
    let bare = program(&[IrOp::H(0), IrOp::Shot(5, 0, 0), IrOp::X(1)], true);
    assert_eq!(batch_region(&bare, Some(9)), Some(Region { start: 0, end: 1, samples: 5 }));
    let body = program(&[IrOp::H(0), IrOp::Shot(5, 2, 1), IrOp::X(1), IrOp::X(2)], true);
    assert_eq!(batch_region(&body, None), Some(Region { start: 2, end: 3, samples: 5 }));
    let two = program(&[IrOp::Shot(5, 0, 0), IrOp::Shot(5, 0, 0)], true);
    assert!(!is_batchable(&two));
    assert_eq!(batch_region(&two, None), None);
}

#[test]
fn records() {
    let mut prog = program(
        &[
            IrOp::H(2),
            IrOp::Print,
            IrOp::CNOT(1, 2),
            IrOp::RX(1, 0),
            IrOp::CPHASE(0, 2, 1),
            IrOp::Toff(0, 1, 2),
            IrOp::MCX(0x3, 2),
        ],
        false,
    );
    prog.consts[0] = 0.5;
    prog.consts[1] = 0.25;
    let ops = build_mega_ops(&prog, 0, 7).unwrap();
    let words: Vec<[u32; 8]> = ops.iter().map(|m| m.words).collect();
    assert_eq!(
        words,
        vec![
            [0, 2, 0, 0, 0, 0, 0, 0],
            [2, 1, 2, 0, 0, 0, 0, 0],
            [5, 1, 0, 0, 0, 0, 0, 0],
            [14, 0, 2, 0, 0, 0, 0, 0],
            [3, 0, 1, 2, 0, 0, 0, 0],
            [16, 3, 2, 0, 0, 0, 0, 0],
        ]
    );
    let turn = ops[2].turn.unwrap();
    assert_eq!((turn.angle, turn.half), (0.5, true));
    let turn = ops[3].turn.unwrap();
    assert_eq!((turn.angle, turn.half), (0.25, false));
    assert!(ops[0].turn.is_none());
    assert_eq!(build_mega_ops(&prog, 1, 2).unwrap().len(), 0);
}

#[test]
fn operation_codes() {
    let ops = [
        IrOp::H(1),
        IrOp::X(1),
        IrOp::CNOT(1, 2),
        IrOp::Toff(0, 1, 2),
        IrOp::RZ(1, 0),
        IrOp::RX(1, 0),
        IrOp::RY(1, 0),
        IrOp::Phase(1, 0),
        IrOp::S(1),
        IrOp::T(1),
        IrOp::SX(1),
        IrOp::SWAP(1, 2),
        IrOp::ISWAP(1, 2),
        IrOp::CZ(1, 2),
        IrOp::CPHASE(1, 2, 0),
        IrOp::CSWAP(0, 1, 2),
        IrOp::MCX(1, 2),
    ];
    let encoded = build_mega_ops(&program(&ops, false), 0, ops.len()).unwrap();
    for (k, m) in encoded.iter().enumerate() {
        assert_eq!(m.words[0], k as u32);
        assert_eq!(m.turn.is_some(), matches!(k, 4 | 5 | 6 | 7 | 14));
    }
}

#[test]
fn unknown_ops_are_not_encoded() {
    let prog = program(&[IrOp::H(0), IrOp::Measure(0, 0)], false);
    assert!(build_mega_ops(&prog, 0, 1).is_some());
    assert!(build_mega_ops(&prog, 0, 2).is_none());
}

#[test]
fn sampling_from_sums() {
    let cum = [0u64, 2, 2, 7, 10];
    let drawn: Vec<usize> = (0..12).map(|r| sample_from_cum(&cum, r)).collect();
    assert_eq!(drawn, vec![0, 0, 2, 2, 2, 2, 2, 3, 3, 3, 3, 3]);
    // Bits of non-negative floating-point numbers order like the numbers.
    let sums: Vec<u64> = [0.0f64, 0.25, 0.25, 0.75, 1.0].iter().map(|p| p.to_bits()).collect();
    assert_eq!(sample_from_cum(&sums, 0.1f64.to_bits()), 0);
    assert_eq!(sample_from_cum(&sums, 0.25f64.to_bits()), 2);
    assert_eq!(sample_from_cum(&sums, 0.9f64.to_bits()), 3);
}

#[test]
fn grids() {
    assert_eq!(MEGA_MAX_AMPS, 8192);
    assert_eq!(grid_size(1, 256), 1);
    assert_eq!(grid_size(0, 256), 1);
    assert_eq!(grid_size(256, 256), 1);
    assert_eq!(grid_size(257, 256), 2);
    assert_eq!(grid_size(1 << 28, 256), 1 << 20);
}
