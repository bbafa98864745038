use plasma::ir::{IrOp, Program, Sub, MAX_CONSTS, MAX_ESTIMATE_TERMS, MAX_OPS, MAX_SUBS};

fn empty() -> Box<Program<f64>> {
    Box::new(Program::new())
}

#[test]
fn bodies_stand_behind_the_main_region() {
    let mut p = empty();
    assert!(p.emit(IrOp::H(0)));
    assert_eq!((p.len, p.sub_len), (1, 1));
    assert!(p.emit_sub(IrOp::X(1)));
    assert_eq!((p.len, p.sub_len), (1, 2));
    assert_eq!(p.ops[0], IrOp::H(0));
    assert_eq!(p.ops[1], IrOp::X(1));
    assert_eq!(p.extent(), 2);
    assert_eq!(p.add_sub(1, 2), Some(0));
    assert_eq!(p.subs[0], Sub { off: 1, len: 1, nparams: 2 });
}

#[test]
fn a_lagging_end_of_the_bodies_is_passed_over() {
    let mut p = empty();
    p.emit(IrOp::H(0));
    p.emit(IrOp::H(1));
    p.sub_len = 0;
    assert!(p.emit_sub(IrOp::X(1)));
    assert_eq!(p.ops[..3], [IrOp::H(0), IrOp::H(1), IrOp::X(1)]);
    assert_eq!(p.sub_len, 3);
}

#[test]
fn full_pools_refuse() {
    let mut p = empty();
    for _ in 0..MAX_OPS {
        assert!(p.emit(IrOp::Print));
    }
    assert!(!p.emit(IrOp::Print));
    assert!(!p.emit_sub(IrOp::Print));
    assert_eq!((p.len, p.sub_len), (MAX_OPS, MAX_OPS));
    for k in 0..MAX_CONSTS {
        assert_eq!(p.emit_const(k as f64), Some(k as u16));
    }
    assert_eq!(p.emit_const(0.0), None);
    for _ in 0..MAX_ESTIMATE_TERMS {
        assert!(p.push_estimate_term(1.0, 3));
    }
    assert!(!p.push_estimate_term(1.0, 3));
    for k in 0..MAX_SUBS {
        assert_eq!(p.add_sub(0, 1), Some(k as u16));
    }
    assert_eq!(p.add_sub(0, 1), None);
    p.reset();
    assert_eq!((p.len, p.sub_len, p.num_consts, p.num_subs), (0, 0, 0, 0));
}

#[test]
fn other_numbers_in_the_same_program() {
    let mut p = empty();
    p.emit(IrOp::RZ(0, 0));
    p.emit_const(0.5);
    p.push_estimate_term(2.0, 3);
    let q: Program<i32> = p.with_numbers(|x| (x * 10.0) as i32);
    assert_eq!(q.consts[0], 5);
    assert_eq!(q.estimate_terms[0], (20, 3));
    assert_eq!(q.ops[0], IrOp::RZ(0, 0));
    assert_eq!((q.len, q.num_consts, q.num_estimate_terms), (1, 1, 1));
}
