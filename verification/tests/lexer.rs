use plasma::lexer::{parse_pauli, tokenise, LexResult, Literal, Token, MAX_TOKENS};

fn lexed(src: &[u8]) -> Box<LexResult> {
    let mut lex = Box::new(LexResult::new());
    tokenise(src, &mut lex);
    lex
}

#[test]
fn test_single_gate() {
    let mut lex = LexResult::new();
    tokenise(b"H 0\nCNOT 0 1\n", &mut lex);
    assert!(!lex.error);
    assert_eq!(lex.tokens[0], Token::H);
    assert_eq!(lex.tokens[1], Token::Number(0));
    assert_eq!(lex.tokens[2], Token::Newline);
    assert_eq!(lex.tokens[3], Token::Cnot);
    assert_eq!(lex.tokens[4], Token::Number(0));
    assert_eq!(lex.tokens[5], Token::Number(1));
}

#[test]
fn test_comment_skipped() {
    let mut lex = LexResult::new();
    tokenise(b"H 0 // comment\nX 1\n", &mut lex);
    assert!(!lex.error);
    assert_eq!(lex.tokens[0], Token::H);
    assert_eq!(lex.tokens[1], Token::Number(0));
    assert_eq!(lex.tokens[2], Token::Newline);
    assert_eq!(lex.tokens[3], Token::X);
    assert_eq!(lex.tokens[4], Token::Number(1));
}

#[test]
fn test_classical_ref() {
    let mut lex = LexResult::new();
    tokenise(b"MEASURE 0 -> c0\n", &mut lex);
    assert!(!lex.error);
    assert_eq!(lex.tokens[0], Token::Measure);
    assert_eq!(lex.tokens[1], Token::Number(0));
    assert_eq!(lex.tokens[2], Token::Arrow);
    assert_eq!(lex.tokens[3], Token::ClassicalRef(0));
}

#[test]
fn lexer_test_if_statement() {
    let mut lex = LexResult::new();
    tokenise(b"IF c0 == 1 THEN\nH 0\nENDIF\n", &mut lex);
    assert!(!lex.error);
    assert_eq!(lex.tokens[0], Token::If);
    assert_eq!(lex.tokens[1], Token::ClassicalRef(0));
    assert_eq!(lex.tokens[2], Token::Equals);
    assert_eq!(lex.tokens[3], Token::Number(1));
    assert_eq!(lex.tokens[4], Token::Then);
    assert_eq!(lex.tokens[5], Token::Newline);
    assert_eq!(lex.tokens[6], Token::H);
    assert_eq!(lex.tokens[7], Token::Number(0));
    assert_eq!(lex.tokens[8], Token::Newline);
    assert_eq!(lex.tokens[9], Token::Endif);
}

#[test]
fn test_unknown_word_is_gate_name() {
    let mut lex = LexResult::new();
    tokenise(b"FOO 0\n", &mut lex);
    assert!(!lex.error);
    assert_eq!(lex.tokens[0], Token::Ident);
    assert_eq!(lex.ident_at(0), b"FOO");
}

#[test]
fn every_keyword_is_a_token() {
    let words: [(&[u8], Token); 44] = [
        (b"QUBITS", Token::Qubits),
        (b"H", Token::H),
        (b"X", Token::X),
        (b"CNOT", Token::Cnot),
        (b"TOFF", Token::Toff),
        (b"MEASURE", Token::Measure),
        (b"IF", Token::If),
        (b"THEN", Token::Then),
        (b"ENDIF", Token::Endif),
        (b"SHOT", Token::Shot),
        (b"ENDSHOT", Token::Endshot),
        (b"PRINT", Token::Print),
        (b"END", Token::End),
        (b"HALT", Token::Halt),
        (b"RZ", Token::Rz),
        (b"RX", Token::Rx),
        (b"RY", Token::Ry),
        (b"PHASE", Token::Phase),
        (b"S", Token::S),
        (b"T", Token::T),
        (b"SX", Token::Sx),
        (b"SWAP", Token::Swap),
        (b"ISWAP", Token::Iswap),
        (b"CZ", Token::Cz),
        (b"CPHASE", Token::Cphase),
        (b"CSWAP", Token::Cswap),
        (b"MCX", Token::Mcx),
        (b"RESET", Token::Reset),
        (b"MEASURE_X", Token::MeasureX),
        (b"MEASURE_Y", Token::MeasureY),
        (b"SET", Token::SetVal),
        (b"NOT", Token::Not),
        (b"AND", Token::And),
        (b"OR", Token::Or),
        (b"XOR", Token::Xor),
        (b"ADD", Token::Add),
        (b"SUB", Token::Sub),
        (b"EXPECT", Token::Expect),
        (b"ESTIMATE", Token::Estimate),
        (b"SAVE_STATEVECTOR", Token::SaveState),
        (b"SAVE_AMPLITUDES", Token::SaveAmps),
        (b"SAVE_PROBABILITIES", Token::SaveProbs),
        (b"GATE", Token::Gate),
        (b"ENDGATE", Token::Endgate),
    ];
    for (word, token) in words.iter() {
        let lex = lexed(word);
        assert!(!lex.error);
        assert_eq!(lex.count, 1);
        assert_eq!(lex.tokens[0], *token);
    }
}

#[test]
fn numbers_keep_their_digits() {
    let lex = lexed(b"12 3.25 4294967295 c65 18446744073709551615.5");
    assert!(!lex.error);
    assert_eq!(lex.tokens[0], Token::Number(12));
    assert_eq!(
        lex.tokens[1],
        Token::Float(Literal { negative: false, whole: 3, frac_start: 5, frac_len: 2 })
    );
    assert_eq!(lex.tokens[2], Token::Number(4294967295));
    assert_eq!(lex.tokens[3], Token::ClassicalRef(65));
    assert_eq!(
        lex.tokens[4],
        Token::Float(Literal {
            negative: false,
            whole: 18446744073709551615,
            frac_start: 44,
            frac_len: 1
        })
    );
}

#[test]
fn a_point_needs_a_digit_behind_it() {
    let lex = lexed(b"5.");
    assert_eq!(lex.tokens[0], Token::Number(5));
    assert!(lex.error);
    assert_eq!(lex.diag.message(), "unexpected character");
    assert_eq!(lex.diag.col, 2);
}

#[test]
fn numbers_that_do_not_fit_are_errors() {
    let sources: [&[u8]; 6] = [
        b"H 0\nH 4294967296\n",
        b"H 0\nX 4294967297\n",
        b"H 0\nX 99999999999999999999999999\n",
        b"H 0\nH c4294967296\n",
        b"H 0\nH 18446744073709551616.5\n",
        b"H 0\nH 18446744073709551616\n",
    ];
    for src in sources.iter() {
        let lex = lexed(src);
        assert!(lex.error);
        assert_eq!((lex.diag.line, lex.diag.col), (2, 3));
        assert_eq!(lex.diag.message(), "number too large");
        assert_eq!(lex.count, 4);
    }
}

#[test]
fn names_that_do_not_fit_are_errors() {
    // 256 names of 16 bytes fill the pool.
    let mut src = String::new();
    for k in 0..256 {
        src.push_str(&format!("name_of_gate_{:03}\n", k));
    }
    let lex = lexed(src.as_bytes());
    assert!(!lex.error);
    assert_eq!(lex.ident_len, 4096);
    for k in 0..256 {
        assert_eq!(lex.tokens[2 * k], Token::Ident);
        assert_eq!(lex.ident_at(2 * k), format!("name_of_gate_{:03}", k).as_bytes());
    }
    src.push_str("  a\n");
    let lex = lexed(src.as_bytes());
    assert!(lex.error);
    assert_eq!((lex.diag.line, lex.diag.col), (257, 3));
    assert_eq!(lex.diag.message(), "too many gate names");
    assert_eq!(lex.count, 512);
    let long = lexed("x".repeat(4097).as_bytes());
    assert!(long.error);
    assert_eq!(long.count, 0);
}

#[test]
fn the_highest_qubit_of_a_product_is_kept() {
    let lex = lexed(b"EXPECT Z0I5 X3Y1 I31");
    assert_eq!(lex.tokens[1], Token::Pauli(3));
    assert_eq!(lex.pauli_tops[1], 5);
    assert_eq!(lex.pauli_tops[2], 3);
    assert_eq!(lex.tokens[3], Token::Pauli(0));
    assert_eq!(lex.pauli_tops[3], 31);
    assert_eq!(lex.pauli_tops[0], 0);
}

#[test]
fn symbols() {
    let lex = lexed(b"-> - == !=\n");
    assert_eq!(lex.tokens[0], Token::Arrow);
    assert_eq!(lex.tokens[1], Token::Minus);
    assert_eq!(lex.tokens[2], Token::Equals);
    assert_eq!(lex.tokens[3], Token::Ne);
    assert_eq!(lex.tokens[4], Token::Newline);
    assert_eq!(lex.count, 5);
}

#[test]
fn positions_count_from_one() {
    let lex = lexed(b"H 0\n  X 1");
    assert_eq!((lex.token_lines[0], lex.token_cols[0]), (1, 1));
    assert_eq!((lex.token_lines[1], lex.token_cols[1]), (1, 3));
    assert_eq!((lex.token_lines[3], lex.token_cols[3]), (2, 3));
    assert_eq!((lex.token_lines[4], lex.token_cols[4]), (2, 5));
}

#[test]
fn unexpected_characters_are_reported_where_they_stand() {
    let lex = lexed(b"H 0\nX $\n");
    assert!(lex.error);
    assert_eq!(lex.diag.line, 2);
    assert_eq!(lex.diag.col, 3);
    assert_eq!(lex.diag.message(), "unexpected character");
}

#[test]
fn too_many_tokens_are_reported() {
    let mut src = Vec::new();
    for _ in 0..MAX_TOKENS + 1 {
        src.extend_from_slice(b"H ");
    }
    let lex = lexed(&src);
    assert!(lex.error);
    assert_eq!(lex.diag.message(), "source exceeds token limit");
}

#[test]
fn pauli_products() {
    assert_eq!(parse_pauli(b"Z0X1"), Some(7));
    assert_eq!(parse_pauli(b"Y0"), Some(2));
    assert_eq!(parse_pauli(b"Y31"), Some(2 << 62));
    assert_eq!(parse_pauli(b"Z32"), None);
    assert_eq!(parse_pauli(b"X18446744073709551616"), None);
    assert_eq!(parse_pauli(b"Z0X4294967296"), None);
    assert_eq!(parse_pauli(b"Z"), None);
    assert_eq!(parse_pauli(b"A0"), None);
    assert_eq!(parse_pauli(b""), None);
}

#[test]
fn a_result_can_be_used_again() {
    let mut lex = LexResult::new();
    tokenise(b"H $", &mut lex);
    assert!(lex.error);
    tokenise(b"foo", &mut lex);
    assert!(!lex.error);
    assert_eq!(lex.count, 1);
    assert_eq!(lex.ident_at(0), b"foo");
    lex.reset();
    assert_eq!(lex.count, 0);
}
