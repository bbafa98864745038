use plasma::diag::Diag;
use plasma::ir::{IrOp, Program, Sub};
use plasma::lexer::{tokenise, LexResult, Literal, Token};
use plasma::parser::parse;

/// The value of a literal of `src`.
fn value(l: Literal, src: &[u8]) -> f64 {
    let mut frac = 0.0f64;
    let mut scale = 0.1f64;
    for k in 0..l.frac_len {
        frac += (src[l.frac_start + k] - b'0') as f64 * scale;
        scale *= 0.1;
    }
    let v = l.whole as f64 + frac;
    if l.negative {
        -v
    } else {
        v
    }
}

fn parse_str(input: &[u8]) -> Option<Box<Program<Literal>>> {
    let mut lex = LexResult::new();
    tokenise(input, &mut lex);
    if lex.error {
        return None;
    }
    let mut prog: Box<Program<Literal>> = Box::new(Program::new());
    let mut diag = Diag::new();
    if parse(&lex, &mut prog, &mut diag) {
        Some(prog)
    } else {
        None
    }
}

fn parse_diag(input: &[u8]) -> (bool, Diag) {
    let mut lex = LexResult::new();
    tokenise(input, &mut lex);
    let mut prog: Box<Program<Literal>> = Box::new(Program::new());
    let mut diag = Diag::new();
    let ok = !lex.error && parse(&lex, &mut prog, &mut diag);
    (ok, diag)
}

#[test]
fn test_simple_circuit() {
    let prog = parse_str(b"QUBITS 2\nH 0\nCNOT 0 1\nMEASURE 0 -> c0\n").unwrap();
    assert_eq!(prog.num_qubits, 2);
    assert_eq!(prog.num_classical, 2);
    assert_eq!(prog.ops[0], IrOp::H(0));
    assert_eq!(prog.ops[1], IrOp::CNOT(0, 1));
    assert_eq!(prog.ops[2], IrOp::Measure(0, 0));
}

#[test]
fn test_measure_implicit_classical() {
    let prog = parse_str(b"QUBITS 2\nMEASURE 0\n").unwrap();
    assert_eq!(prog.ops[0], IrOp::Measure(0, 0));
}

#[test]
fn parser_test_if_statement() {
    let prog = parse_str(b"QUBITS 1\nIF c0 == 1 THEN\nX 0\nENDIF\n").unwrap();
    assert_eq!(prog.ops[0], IrOp::IfEq(0, 1, 1, 1));
    assert_eq!(prog.ops[1], IrOp::X(0));
}

#[test]
fn parser_test_shot_with_body() {
    let prog = parse_str(b"QUBITS 1\nSHOT 10\nH 0\nENDSHOT\n").unwrap();
    assert!(prog.has_explicit_shot);
    let IrOp::Shot(count, off, len) = prog.ops[0] else {
        panic!("expected Shot");
    };
    assert_eq!(count, 10);
    assert_eq!(off, 1);
    assert_eq!(len, 1);
    assert_eq!(prog.ops[1], IrOp::H(0));
}

#[test]
fn test_shot_without_body() {
    let prog = parse_str(b"QUBITS 1\nH 0\nSHOT 100\nPRINT\n").unwrap();
    assert!(prog.has_explicit_shot);
    assert_eq!(prog.ops[1], IrOp::Shot(100, 0, 0));
}

#[test]
fn parser_test_toffoli() {
    let prog = parse_str(b"QUBITS 3\nTOFF 0 1 2\n").unwrap();
    assert_eq!(prog.ops[0], IrOp::Toff(0, 1, 2));
}

#[test]
fn test_invalid_nesting_too_deep() {
    let mut input = b"QUBITS 1\n".to_vec();
    // Generate 33 nested IFs
    for _ in 0..33 {
        input.extend_from_slice(b"IF c0 == 1 THEN\n");
    }
    for _ in 0..33 {
        input.extend_from_slice(b"ENDIF\n");
    }
    assert!(parse_str(&input).is_none());
}

#[test]
fn test_print_instruction() {
    let prog = parse_str(b"QUBITS 1\nH 0\nPRINT\n").unwrap();
    assert_eq!(prog.ops[1], IrOp::Print);
}

#[test]
fn test_out_of_range_qubit_rejected() {
    // H on qubit 2 of a 1-qubit circuit must be rejected.
    assert!(parse_str(b"QUBITS 1\nH 2\n").is_none());
    assert!(parse_str(b"QUBITS 2\nCNOT 0 3\n").is_none());
    assert!(parse_str(b"QUBITS 3\nTOFF 0 1 7\n").is_none());
}

#[test]
fn test_truncating_large_operand_rejected() {
    // 266 as u8 wraps to 10; must not silently become qubit 10.
    assert!(parse_str(b"QUBITS 1\nH 266\n").is_none());
    assert!(parse_str(b"QUBITS 2\nMEASURE 300\n").is_none());
}

#[test]
fn test_qubit_count_overflow_rejected() {
    // 266 as u8 == 10; must not wrap into an accepted qubit count.
    assert!(parse_str(b"QUBITS 266\nH 0\n").is_none());
}

#[test]
fn test_diag_reports_position() {
    let (ok, diag) = parse_diag(b"QUBITS 2\nH 0\nCNOT 0 9\n");
    assert!(!ok);
    assert_eq!(diag.line, 3); // error is on line 3
    assert_eq!(diag.message(), "qubit index out of range");
}

#[test]
fn test_diag_missing_qubits() {
    let (ok, diag) = parse_diag(b"H 0\n");
    assert!(!ok);
    assert_eq!(diag.message(), "expected QUBITS declaration");
}

// v0.2

#[test]
fn test_rotations_and_angles() {
    let src = b"QUBITS 1\nRZ 0 1.5707963267948966\nRX 0 0.5\nRY 0 3\n";
    let prog = parse_str(src).unwrap();
    assert_eq!(prog.ops[0], IrOp::RZ(0, 0));
    assert_eq!(prog.ops[1], IrOp::RX(0, 1));
    assert_eq!(prog.ops[2], IrOp::RY(0, 2));
    assert_eq!(value(prog.consts[0], src), 1.5707963267948966);
    assert_eq!(value(prog.consts[1], src), 0.5);
    assert_eq!(value(prog.consts[2], src), 3.0);
    assert_eq!(prog.num_consts, 3);
}

#[test]
fn test_fixed_gates() {
    let prog = parse_str(b"QUBITS 2\nS 0\nT 1\nSX 0\nSWAP 0 1\nISWAP 0 1\nCZ 0 1\n").unwrap();
    assert_eq!(prog.ops[0], IrOp::S(0));
    assert_eq!(prog.ops[1], IrOp::T(1));
    assert_eq!(prog.ops[2], IrOp::SX(0));
    assert_eq!(prog.ops[3], IrOp::SWAP(0, 1));
    assert_eq!(prog.ops[4], IrOp::ISWAP(0, 1));
    assert_eq!(prog.ops[5], IrOp::CZ(0, 1));
}

#[test]
fn test_mcx_and_cswap() {
    let src = b"QUBITS 4\nCSWAP 0 1 2\nMCX 7 3\nCPHASE 0 1 0.25\n";
    let prog = parse_str(src).unwrap();
    assert_eq!(prog.ops[0], IrOp::CSWAP(0, 1, 2));
    assert_eq!(prog.ops[1], IrOp::MCX(7, 3));
    assert_eq!(prog.ops[2], IrOp::CPHASE(0, 1, 0));
    assert_eq!(value(prog.consts[0], src), 0.25);
}

#[test]
fn test_mcx_validation() {
    // Target overlapping the mask must be rejected.
    assert!(parse_str(b"QUBITS 4\nMCX 7 2\n").is_none()); // mask 0b111 includes target 2
    assert!(parse_str(b"QUBITS 2\nMCX 0 1\n").is_none()); // zero mask
    assert!(parse_str(b"QUBITS 2\nMCX 8 1\n").is_none()); // mask bit out of range
}

#[test]
fn test_reset_and_measure_x_y() {
    let prog = parse_str(b"QUBITS 2\nRESET 0\nMEASURE_X 0 -> c0\nMEASURE_Y 1\n").unwrap();
    assert_eq!(prog.ops[0], IrOp::Reset(0));
    assert_eq!(prog.ops[1], IrOp::MeasureX(0, 0));
    assert_eq!(prog.ops[2], IrOp::MeasureY(1, 1));
}

#[test]
fn test_classical_ops() {
    let prog = parse_str(b"QUBITS 1\nSET c0 5\nNOT c0\nAND c0 c1\nOR c0 c1\nXOR c0 c1\nADD c0 c1\nSUB c0 c1\n").unwrap();
    assert_eq!(prog.ops[0], IrOp::SetVal(0, 5));
    assert_eq!(prog.ops[1], IrOp::Not(0));
    assert_eq!(prog.ops[2], IrOp::And(0, 1));
    assert_eq!(prog.ops[3], IrOp::Or(0, 1));
    assert_eq!(prog.ops[4], IrOp::Xor(0, 1));
    assert_eq!(prog.ops[5], IrOp::Add(0, 1));
    assert_eq!(prog.ops[6], IrOp::Sub(0, 1));
}

#[test]
fn test_multi_measure() {
    let prog = parse_str(b"QUBITS 3\nMEASURE 0 1 2 -> c0 c1 c2\n").unwrap();
    assert_eq!(prog.ops[0], IrOp::Measure(0, 0));
    assert_eq!(prog.ops[1], IrOp::Measure(1, 1));
    assert_eq!(prog.ops[2], IrOp::Measure(2, 2));
}

#[test]
fn test_multi_measure_implicit() {
    let prog = parse_str(b"QUBITS 3\nMEASURE 0 2\n").unwrap();
    assert_eq!(prog.ops[0], IrOp::Measure(0, 0));
    assert_eq!(prog.ops[1], IrOp::Measure(2, 2));
}

#[test]
fn test_multi_measure_mismatch_rejected() {
    assert!(parse_str(b"QUBITS 3\nMEASURE 0 1 2 -> c0 c1\n").is_none());
}

#[test]
fn test_if_ne_lowered() {
    // IF c0 != 1 THEN ... lowers to IfNe(c0, 1, ...).
    let prog = parse_str(b"QUBITS 1\nIF c0 != 1 THEN\nX 0\nENDIF\n").unwrap();
    assert_eq!(prog.ops[0], IrOp::IfNe(0, 1, 1, 1));
    assert_eq!(prog.ops[1], IrOp::X(0));
}

#[test]
fn test_if_byte_value() {
    // IF compares the full byte; any value 0..=255 is allowed.
    let prog = parse_str(b"QUBITS 1\nIF c0 == 5 THEN\nX 0\nENDIF\n").unwrap();
    assert_eq!(prog.ops[0], IrOp::IfEq(0, 5, 1, 1));
    assert!(parse_str(b"QUBITS 1\nIF c0 == 256 THEN\nX 0\nENDIF\n").is_none());
}

#[test]
fn test_float_lexing() {
    let mut lex = LexResult::new();
    let src = b"QUBITS 1\nRZ 0 3.14159\n";
    tokenise(src, &mut lex);
    assert!(!lex.error);
    let Token::Float(l) = lex.tokens[5] else {
        panic!("expected a literal");
    };
    assert_eq!(value(l, src), 3.14159);
}

#[test]
fn test_pauli_lexing() {
    // Z0X1 -> Z on q0 (3) | X on q1 (1 << 2) = 7.
    let mut lex = LexResult::new();
    tokenise(b"QUBITS 2\nEXPECT Z0X1\n", &mut lex);
    assert!(!lex.error);
    assert_eq!(lex.tokens[3], Token::Expect);
    assert_eq!(lex.tokens[4], Token::Pauli(7));
}

#[test]
fn test_expect_parse() {
    let prog = parse_str(b"QUBITS 2\nEXPECT Z0Z1\nEXPECT Y0\n").unwrap();
    assert_eq!(prog.ops[0], IrOp::Expect(15)); // Z0Z1
    assert_eq!(prog.ops[1], IrOp::Expect(2)); // Y0
}

#[test]
fn test_expect_qubit_range_validated() {
    // Z2 on a 2-qubit program must be rejected.
    assert!(parse_str(b"QUBITS 2\nEXPECT Z2\n").is_none());
    // Z0Z3 on 2 qubits: Z3 out of range.
    assert!(parse_str(b"QUBITS 2\nEXPECT Z0Z3\n").is_none());
}

#[test]
fn test_save_parse() {
    let prog = parse_str(
        b"QUBITS 1\nH 0\nSAVE_STATEVECTOR\nSAVE_AMPLITUDES\nSAVE_PROBABILITIES\n",
    )
    .unwrap();
    assert_eq!(prog.ops[1], IrOp::SaveState);
    assert_eq!(prog.ops[2], IrOp::SaveAmps);
    assert_eq!(prog.ops[3], IrOp::SaveProbs);
}

/// The line and message of the diagnostic for `src`.
fn complaint(src: &str) -> (u32, String) {
    let (ok, diag) = parse_diag(src.as_bytes());
    assert!(!ok, "accepted: {}", src);
    (diag.line, diag.message().to_string())
}

fn complains(src: &str, line: u32, message: &str) {
    assert_eq!(complaint(src), (line, message.to_string()), "{}", src);
}

#[test]
fn declaration_errors() {
    complains("H 0\n", 1, "expected QUBITS declaration");
    complains("QUBITS H\n", 1, "expected qubit count after QUBITS");
    complains("QUBITS 0\n", 1, "qubit count must be in 1..=28");
    complains("QUBITS 29\n", 1, "qubit count must be in 1..=28");
    assert!(parse_str(b"QUBITS 28\n").is_some());
}

#[test]
fn operand_errors() {
    complains("QUBITS 1\nH H\n", 2, "expected a qubit index");
    complains("QUBITS 1\nH 1\n", 2, "qubit index out of range");
    complains("QUBITS 1\nRZ 0 H\n", 2, "expected an angle");
    complains("QUBITS 1\nSET 0 1\n", 2, "expected a classical bit");
    complains("QUBITS 1\nSET c64 1\n", 2, "classical bit index too large");
    complains("QUBITS 1\nSET c0 H\n", 2, "expected a value after SET");
    complains("QUBITS 1\nSET c0 256\n", 2, "SET value must fit in a byte");
    complains("QUBITS 1\nEXPECT 0\n", 2, "expected a Pauli product after EXPECT");
    complains("QUBITS 1\nEXPECT Z1\n", 2, "Pauli qubit index out of range");
    complains("QUBITS 1\n-> 0\n", 2, "unexpected token");
}

#[test]
fn mcx_errors() {
    complains("QUBITS 2\nMCX H 0\n", 2, "expected a control mask");
    complains("QUBITS 2\nMCX 0 0\n", 2, "MCX control mask must be nonzero");
    complains("QUBITS 2\nMCX 4 0\n", 2, "MCX control mask out of range");
    complains("QUBITS 2\nMCX 1 0\n", 2, "MCX target overlaps the control mask");
}

#[test]
fn estimate_errors() {
    complains(
        "QUBITS 1\nESTIMATE\n",
        2,
        "expected at least one coefficient/Pauli pair after ESTIMATE",
    );
    complains("QUBITS 1\nESTIMATE - Z0\n", 2, "expected a coefficient after '-' in ESTIMATE");
    complains("QUBITS 1\nESTIMATE 0.5 1\n", 2, "expected a Pauli product after the coefficient");
    complains("QUBITS 1\nESTIMATE 0.5 Z1\n", 2, "Pauli qubit index out of range");
    let mut src = String::from("QUBITS 1\n");
    for _ in 0..257 {
        src.push_str("ESTIMATE 1 Z0\n");
    }
    complains(&src, 258, "too many ESTIMATE terms");
}

#[test]
fn measure_errors() {
    complains("QUBITS 1\nMEASURE 0 -> 1\n", 2, "expected a classical bit after '->'");
    complains("QUBITS 1\nMEASURE 0 -> c64\n", 2, "classical bit index too large");
    complains(
        "QUBITS 2\nMEASURE 0 1 -> c0\n",
        2,
        "measurement qubits and classical targets must match",
    );
    complains("QUBITS 1\nMEASURE H\n", 2, "expected a qubit index");
    complains("QUBITS 1\nMEASURE 1\n", 2, "qubit index out of range");
}

#[test]
fn branch_errors() {
    complains("QUBITS 1\nIF 0 == 1 THEN\nENDIF\n", 2, "expected a classical bit after IF");
    complains("QUBITS 1\nIF c64 == 1 THEN\nENDIF\n", 2, "classical bit index too large");
    complains("QUBITS 1\nIF c0 1 THEN\nENDIF\n", 2, "expected '==' or '!=' after IF condition");
    complains("QUBITS 1\nIF c0 == H THEN\nENDIF\n", 2, "expected a value after the comparison");
    complains("QUBITS 1\nIF c0 == 256 THEN\nENDIF\n", 2, "IF value must fit in a byte");
    complains("QUBITS 1\nIF c0 == 1\nENDIF\n", 2, "expected THEN");
    assert_eq!(complaint("QUBITS 1\nIF c0 == 1 THEN\nH 0\n").1, "expected ENDIF");
    assert_eq!(complaint("QUBITS 1\nIF c0 == 1 THEN\nH 0\nENDSHOT\n").1, "expected ENDIF");
}

#[test]
fn repetition_errors() {
    complains("QUBITS 1\nSHOT H\n", 2, "expected shot count");
    // At least one repetition is made.
    assert_eq!(parse_str(b"QUBITS 1\nSHOT 0\n").unwrap().ops[0], IrOp::Shot(1, 0, 0));
    assert_eq!(complaint("QUBITS 1\nIF c0 == 1 THEN\nENDSHOT\n").1, "expected ENDIF");
}

#[test]
fn gate_errors() {
    complains("QUBITS 1\nGATE 1\n", 2, "expected a gate name after GATE");
    complains("QUBITS 1\nGATE g H\n", 2, "expected a parameter count after a gate name");
    complains("QUBITS 1\nGATE g 0\nENDGATE\n", 2, "gate parameter count must be 1..=3");
    complains("QUBITS 1\nGATE g 4\nENDGATE\n", 2, "gate parameter count must be 1..=3");
    complains("QUBITS 1\nGATE abcdefghijklmnopq 1\nENDGATE\n", 2, "gate name too long");
    complains("QUBITS 1\nGATE g 1\nENDGATE\nGATE g 1\nENDGATE\n", 4, "duplicate gate definition");
    complains("QUBITS 1\nGATE g 1\nH 0\n", 3, "expected ENDGATE");
    complains("QUBITS 1\nfoo 0\n", 2, "undefined gate");
    complains("QUBITS 1\nGATE g 1\nGATE h 1\nENDGATE\n", 3, "GATE definitions cannot be nested");
}

#[test]
fn a_gate_may_call_one_defined_later() {
    let prog = parse_str(b"QUBITS 2\nGATE g 1\nh 0\nENDGATE\nGATE h 1\nX 0\nENDGATE\ng 1\n")
        .unwrap();
    assert_eq!(prog.len, 1);
    assert_eq!(prog.ops[0], IrOp::Call(0, 1, 255, 255));
    assert_eq!(prog.num_subs, 2);
    assert_eq!(prog.subs[0], Sub { off: 1, len: 1, nparams: 1 });
    assert_eq!(prog.subs[1], Sub { off: 2, len: 1, nparams: 1 });
    assert_eq!(prog.ops[1], IrOp::Call(1, 0, 255, 255));
    assert_eq!(prog.ops[2], IrOp::X(0));
    assert_eq!(prog.sub_len, 3);
}

#[test]
fn limits() {
    let mut src = String::from("QUBITS 1\n");
    for k in 0..1025 {
        src.push_str(&format!("RZ 0 {}\n", k));
    }
    complains(&src, 1026, "constant pool full");

    let mut src = String::from("QUBITS 1\n");
    for k in 0..129 {
        src.push_str(&format!("GATE g{} 1\nENDGATE\n", k));
    }
    complains(&src, 258, "too many gates");

    let zeros = " 0".repeat(64);
    assert!(parse_str(format!("QUBITS 1\nMEASURE{}\n", zeros).as_bytes()).is_some());
    complains(&format!("QUBITS 1\nMEASURE{} 0\n", zeros), 2, "too many measurements");
    let bytes = " c0".repeat(65);
    complains(&format!("QUBITS 1\nMEASURE 0 ->{}\n", bytes), 2, "too many classical targets");
}

#[test]
fn nesting_limit() {
    let nested = |n: usize| {
        let mut src = String::from("QUBITS 1\n");
        for _ in 0..n {
            src.push_str("IF c0 == 1 THEN\n");
        }
        src.push_str("X 0\n");
        for _ in 0..n {
            src.push_str("ENDIF\n");
        }
        src
    };
    assert!(parse_str(nested(31).as_bytes()).is_some());
    complains(&nested(33), 35, "nesting too deep");
}

#[test]
fn nested_bodies_are_placed_behind_their_ops() {
    let prog = parse_str(
        b"QUBITS 1\nSHOT 5\nH 0\nIF c1 != 2 THEN\nX 0\nENDIF\nENDSHOT\nX 0\nEND\n",
    )
    .unwrap();
    assert_eq!(prog.len, 5);
    assert_eq!(prog.ops[0], IrOp::Shot(5, 1, 3));
    assert_eq!(prog.ops[1], IrOp::H(0));
    assert_eq!(prog.ops[2], IrOp::IfNe(1, 2, 3, 1));
    assert_eq!(prog.ops[3], IrOp::X(0));
    assert_eq!(prog.ops[4], IrOp::X(0));
}

#[test]
fn a_declared_number_of_classical_bytes_grows_with_use() {
    let prog = parse_str(b"QUBITS 2\nMEASURE 0 -> c9\n").unwrap();
    assert_eq!(prog.num_classical, 10);
    assert_eq!(prog.ops[0], IrOp::Measure(0, 9));
}

#[test]
fn estimates_keep_sign_and_order() {
    let src = b"QUBITS 2\nESTIMATE 0.5 Z0Z1 3 X0 -0.2 Y0Y1\n";
    let prog = parse_str(src).unwrap();
    assert_eq!(prog.ops[0], IrOp::Estimate(0, 3));
    assert_eq!(prog.num_estimate_terms, 3);
    assert_eq!(value(prog.estimate_terms[0].0, src), 0.5);
    assert_eq!(prog.estimate_terms[0].1, 15);
    assert_eq!(value(prog.estimate_terms[1].0, src), 3.0);
    assert_eq!(prog.estimate_terms[1].1, 1);
    assert_eq!(value(prog.estimate_terms[2].0, src), -0.2);
    assert_eq!(prog.estimate_terms[2].1, 10);
}

#[test]
fn nothing_after_the_end_is_read() {
    let short = parse_str(b"QUBITS 1\nH 0\nEND\n").unwrap();
    let long = parse_str(b"QUBITS 1\nH 0\nEND\nX 7 -> THEN QUBITS\nGATE\n").unwrap();
    assert_eq!(short.len, 1);
    assert_eq!(long.len, 1);
    assert_eq!(long.sub_len, 1);
    assert_eq!(short.ops[..], long.ops[..]);
    assert!(parse_str(b"QUBITS 1\nH 0\nHALT\nfoo bar\n").is_some());
}

#[test]
fn several_qubits_are_measured_in_order() {
    let list = parse_str(b"QUBITS 3\nMEASURE_X 2 0 -> c5 c1\n").unwrap();
    let single = parse_str(b"QUBITS 3\nMEASURE_X 2 -> c5\nMEASURE_X 0 -> c1\n").unwrap();
    assert_eq!(list.len, 2);
    assert_eq!(list.ops[0], IrOp::MeasureX(2, 5));
    assert_eq!(list.ops[1], IrOp::MeasureX(0, 1));
    assert_eq!(list.ops[..2], single.ops[..2]);
    assert_eq!(list.num_classical, 6);
}

#[test]
fn an_overlong_operand_is_located() {
    let mut lex = LexResult::new();
    tokenise(b"QUBITS 1\nH 4294967296\n", &mut lex);
    assert!(lex.error);
    assert_eq!((lex.diag.line, lex.diag.col), (2, 3));
}

#[test]
fn operands_never_wrap() {
    assert!(parse_str(b"QUBITS 1\nH 4294967296\n").is_none());
    assert!(parse_str(b"QUBITS 4294967297\n").is_none());
    assert!(parse_str(b"QUBITS 1\nMEASURE 0 -> c4294967296\n").is_none());
    assert!(parse_str(b"QUBITS 1\nSHOT 4294967296\n").is_none());
}

#[test]
fn every_named_qubit_is_declared() {
    complains("QUBITS 2\nEXPECT Z0I5\n", 2, "Pauli qubit index out of range");
    complains("QUBITS 2\nESTIMATE 0.5 I2\n", 2, "Pauli qubit index out of range");
    let prog = parse_str(b"QUBITS 2\nEXPECT Z0I1\n").unwrap();
    assert_eq!(prog.ops[0], IrOp::Expect(3));
}

#[test]
fn a_refused_statement_leaves_no_trace() {
    let sources: [&[u8]; 6] = [
        b"QUBITS 2\nH 0\nMCX 0 1\n",
        b"QUBITS 2\nH 0\nMEASURE 0 1 -> c9\n",
        b"QUBITS 2\nH 0\nEXPECT Z0I5\n",
        b"QUBITS 2\nH 0\nESTIMATE 1 Z0 2 Z7\n",
        b"QUBITS 2\nH 0\nIF c0 == 1 THEN\nRZ 0 0.5\nMEASURE 0 -> c9\n",
        b"QUBITS 2\nH 0\nSHOT 5\nX 0\nRZ 1 0.25\nX 7\nENDSHOT\n",
    ];
    for src in sources.iter() {
        let mut lex = LexResult::new();
        tokenise(src, &mut lex);
        let mut prog: Box<Program<Literal>> = Box::new(Program::new());
        let mut diag = Diag::new();
        assert!(!parse(&lex, &mut prog, &mut diag));
        assert!(!diag.is_empty());
        assert_eq!(prog.len, 1);
        assert_eq!(prog.ops[0], IrOp::H(0));
        assert_eq!(prog.num_consts, 0);
        assert_eq!(prog.num_estimate_terms, 0);
        assert_eq!(prog.num_classical, 2);
        assert!(!prog.has_explicit_shot);
    }
}
