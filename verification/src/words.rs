//! The keywords of the language, letter by letter.
use crate::lexer::{keyword, Token};
use vstd::prelude::*;
use vstd::string::{is_ascii_spec_bytes, StringSliceAdditionalSpecFns};

verus! {

/// The word that a keyword token stands for, in ASCII; empty for other tokens.
#[verifier::opaque]
pub open spec fn letters(t: Token) -> Seq<u8> {
    match t {
        // QUBITS
        Token::Qubits => seq![81u8, 85, 66, 73, 84, 83],
        // H
        Token::H => seq![72u8],
        // X
        Token::X => seq![88u8],
        // CNOT
        Token::Cnot => seq![67u8, 78, 79, 84],
        // TOFF
        Token::Toff => seq![84u8, 79, 70, 70],
        // MEASURE
        Token::Measure => seq![77u8, 69, 65, 83, 85, 82, 69],
        // IF
        Token::If => seq![73u8, 70],
        // THEN
        Token::Then => seq![84u8, 72, 69, 78],
        // ENDIF
        Token::Endif => seq![69u8, 78, 68, 73, 70],
        // SHOT
        Token::Shot => seq![83u8, 72, 79, 84],
        // ENDSHOT
        Token::Endshot => seq![69u8, 78, 68, 83, 72, 79, 84],
        // PRINT
        Token::Print => seq![80u8, 82, 73, 78, 84],
        // END
        Token::End => seq![69u8, 78, 68],
        // HALT
        Token::Halt => seq![72u8, 65, 76, 84],
        // RZ
        Token::Rz => seq![82u8, 90],
        // RX
        Token::Rx => seq![82u8, 88],
        // RY
        Token::Ry => seq![82u8, 89],
        // PHASE
        Token::Phase => seq![80u8, 72, 65, 83, 69],
        // S
        Token::S => seq![83u8],
        // T
        Token::T => seq![84u8],
        // SX
        Token::Sx => seq![83u8, 88],
        // SWAP
        Token::Swap => seq![83u8, 87, 65, 80],
        // ISWAP
        Token::Iswap => seq![73u8, 83, 87, 65, 80],
        // CZ
        Token::Cz => seq![67u8, 90],
        // CPHASE
        Token::Cphase => seq![67u8, 80, 72, 65, 83, 69],
        // CSWAP
        Token::Cswap => seq![67u8, 83, 87, 65, 80],
        // MCX
        Token::Mcx => seq![77u8, 67, 88],
        // RESET
        Token::Reset => seq![82u8, 69, 83, 69, 84],
        // MEASURE_X
        Token::MeasureX => seq![77u8, 69, 65, 83, 85, 82, 69, 95, 88],
        // MEASURE_Y
        Token::MeasureY => seq![77u8, 69, 65, 83, 85, 82, 69, 95, 89],
        // SET
        Token::SetVal => seq![83u8, 69, 84],
        // NOT
        Token::Not => seq![78u8, 79, 84],
        // AND
        Token::And => seq![65u8, 78, 68],
        // OR
        Token::Or => seq![79u8, 82],
        // XOR
        Token::Xor => seq![88u8, 79, 82],
        // ADD
        Token::Add => seq![65u8, 68, 68],
        // SUB
        Token::Sub => seq![83u8, 85, 66],
        // EXPECT
        Token::Expect => seq![69u8, 88, 80, 69, 67, 84],
        // ESTIMATE
        Token::Estimate => seq![69u8, 83, 84, 73, 77, 65, 84, 69],
        // SAVE_STATEVECTOR
        Token::SaveState => seq![83u8, 65, 86, 69, 95, 83, 84, 65, 84, 69, 86, 69, 67, 84, 79, 82],
        // SAVE_AMPLITUDES
        Token::SaveAmps => seq![83u8, 65, 86, 69, 95, 65, 77, 80, 76, 73, 84, 85, 68, 69, 83],
        // SAVE_PROBABILITIES
        Token::SaveProbs => seq![
            83u8, 65, 86, 69, 95, 80, 82, 79, 66,
            65, 66, 73, 76, 73, 84, 73, 69, 83,
        ],
        // GATE
        Token::Gate => seq![71u8, 65, 84, 69],
        // ENDGATE
        Token::Endgate => seq![69u8, 78, 68, 71, 65, 84, 69],
        _ => Seq::empty(),
    }
}

/// The keyword token with a given mark.
spec fn marked(m: int) -> Token {
    if m == 732498106 {
        Token::Qubits
    } else if m == 722167201 {
        Token::H
    } else if m == 882648801 {
        Token::X
    } else if m == 792526704 {
        Token::Cnot
    } else if m == 702108404 {
        Token::Toff
    } else if m == 832077707 {
        Token::Measure
    } else if m == 702107302 {
        Token::If
    } else if m == 692348404 {
        Token::Then
    } else if m == 682106905 {
        Token::Endif
    } else if m == 792528304 {
        Token::Shot
    } else if m == 832526907 {
        Token::Endshot
    } else if m == 732528005 {
        Token::Print
    } else if m == 782046903 {
        Token::End
    } else if m == 762527204 {
        Token::Halt
    } else if m == 902708202 {
        Token::Rz
    } else if m == 882648202 {
        Token::Rx
    } else if m == 892678202 {
        Token::Ry
    } else if m == 652078005 {
        Token::Phase
    } else if m == 832498301 {
        Token::S
    } else if m == 842528401 {
        Token::T
    } else if m == 882648302 {
        Token::Sx
    } else if m == 652408304 {
        Token::Swap
    } else if m == 872407305 {
        Token::Iswap
    } else if m == 902706702 {
        Token::Cz
    } else if m == 652076706 {
        Token::Cphase
    } else if m == 872406705 {
        Token::Cswap
    } else if m == 672647703 {
        Token::Mcx
    } else if m == 832528205 {
        Token::Reset
    } else if m == 852647709 {
        Token::MeasureX
    } else if m == 852677709 {
        Token::MeasureY
    } else if m == 692528303 {
        Token::SetVal
    } else if m == 792527803 {
        Token::Not
    } else if m == 782046503 {
        Token::And
    } else if m == 822467902 {
        Token::Or
    } else if m == 792468803 {
        Token::Xor
    } else if m == 682046503 {
        Token::Add
    } else if m == 851988303 {
        Token::Sub
    } else if m == 692526906 {
        Token::Expect
    } else if m == 772076908 {
        Token::Estimate
    } else if m == 842468316 {
        Token::SaveState
    } else if m == 802498315 {
        Token::SaveAmps
    } else if m == 652498318 {
        Token::SaveProbs
    } else if m == 842077104 {
        Token::Gate
    } else if m == 712076907 {
        Token::Endgate
    } else {
        Token::Error
    }
}

/// A number that tells the keywords apart.
#[verifier::opaque]
spec fn mark(w: Seq<u8>) -> int {
    if w.len() == 0 {
        0
    } else {
        w.len() + 100 * w[0] + 30_000 * w[w.len() - 1] + 10_000_000 * w[w.len() as int / 2]
    }
}

proof fn lemma_qubits_word()
    ensures
        "QUBITS".spec_bytes() == letters(Token::Qubits),
        mark(letters(Token::Qubits)) == 732498106,
        letters(Token::Qubits).len() > 0,
{
    reveal(letters);
    reveal(mark);
    reveal_strlit("QUBITS");
    is_ascii_spec_bytes("QUBITS");
    assert("QUBITS".is_ascii());
    assert("QUBITS".spec_bytes() =~= letters(Token::Qubits));
}

proof fn lemma_h_word()
    ensures
        "H".spec_bytes() == letters(Token::H),
        mark(letters(Token::H)) == 722167201,
        letters(Token::H).len() > 0,
{
    reveal(letters);
    reveal(mark);
    reveal_strlit("H");
    is_ascii_spec_bytes("H");
    assert("H".is_ascii());
    assert("H".spec_bytes() =~= letters(Token::H));
}

proof fn lemma_x_word()
    ensures
        "X".spec_bytes() == letters(Token::X),
        mark(letters(Token::X)) == 882648801,
        letters(Token::X).len() > 0,
{
    reveal(letters);
    reveal(mark);
    reveal_strlit("X");
    is_ascii_spec_bytes("X");
    assert("X".is_ascii());
    assert("X".spec_bytes() =~= letters(Token::X));
}

proof fn lemma_cnot_word()
    ensures
        "CNOT".spec_bytes() == letters(Token::Cnot),
        mark(letters(Token::Cnot)) == 792526704,
        letters(Token::Cnot).len() > 0,
{
    reveal(letters);
    reveal(mark);
    reveal_strlit("CNOT");
    is_ascii_spec_bytes("CNOT");
    assert("CNOT".is_ascii());
    assert("CNOT".spec_bytes() =~= letters(Token::Cnot));
}

proof fn lemma_toff_word()
    ensures
        "TOFF".spec_bytes() == letters(Token::Toff),
        mark(letters(Token::Toff)) == 702108404,
        letters(Token::Toff).len() > 0,
{
    reveal(letters);
    reveal(mark);
    reveal_strlit("TOFF");
    is_ascii_spec_bytes("TOFF");
    assert("TOFF".is_ascii());
    assert("TOFF".spec_bytes() =~= letters(Token::Toff));
}

proof fn lemma_measure_word()
    ensures
        "MEASURE".spec_bytes() == letters(Token::Measure),
        mark(letters(Token::Measure)) == 832077707,
        letters(Token::Measure).len() > 0,
{
    reveal(letters);
    reveal(mark);
    reveal_strlit("MEASURE");
    is_ascii_spec_bytes("MEASURE");
    assert("MEASURE".is_ascii());
    assert("MEASURE".spec_bytes() =~= letters(Token::Measure));
}

proof fn lemma_if_word()
    ensures
        "IF".spec_bytes() == letters(Token::If),
        mark(letters(Token::If)) == 702107302,
        letters(Token::If).len() > 0,
{
    reveal(letters);
    reveal(mark);
    reveal_strlit("IF");
    is_ascii_spec_bytes("IF");
    assert("IF".is_ascii());
    assert("IF".spec_bytes() =~= letters(Token::If));
}

proof fn lemma_then_word()
    ensures
        "THEN".spec_bytes() == letters(Token::Then),
        mark(letters(Token::Then)) == 692348404,
        letters(Token::Then).len() > 0,
{
    reveal(letters);
    reveal(mark);
    reveal_strlit("THEN");
    is_ascii_spec_bytes("THEN");
    assert("THEN".is_ascii());
    assert("THEN".spec_bytes() =~= letters(Token::Then));
}

proof fn lemma_endif_word()
    ensures
        "ENDIF".spec_bytes() == letters(Token::Endif),
        mark(letters(Token::Endif)) == 682106905,
        letters(Token::Endif).len() > 0,
{
    reveal(letters);
    reveal(mark);
    reveal_strlit("ENDIF");
    is_ascii_spec_bytes("ENDIF");
    assert("ENDIF".is_ascii());
    assert("ENDIF".spec_bytes() =~= letters(Token::Endif));
}

proof fn lemma_shot_word()
    ensures
        "SHOT".spec_bytes() == letters(Token::Shot),
        mark(letters(Token::Shot)) == 792528304,
        letters(Token::Shot).len() > 0,
{
    reveal(letters);
    reveal(mark);
    reveal_strlit("SHOT");
    is_ascii_spec_bytes("SHOT");
    assert("SHOT".is_ascii());
    assert("SHOT".spec_bytes() =~= letters(Token::Shot));
}

proof fn lemma_endshot_word()
    ensures
        "ENDSHOT".spec_bytes() == letters(Token::Endshot),
        mark(letters(Token::Endshot)) == 832526907,
        letters(Token::Endshot).len() > 0,
{
    reveal(letters);
    reveal(mark);
    reveal_strlit("ENDSHOT");
    is_ascii_spec_bytes("ENDSHOT");
    assert("ENDSHOT".is_ascii());
    assert("ENDSHOT".spec_bytes() =~= letters(Token::Endshot));
}

proof fn lemma_print_word()
    ensures
        "PRINT".spec_bytes() == letters(Token::Print),
        mark(letters(Token::Print)) == 732528005,
        letters(Token::Print).len() > 0,
{
    reveal(letters);
    reveal(mark);
    reveal_strlit("PRINT");
    is_ascii_spec_bytes("PRINT");
    assert("PRINT".is_ascii());
    assert("PRINT".spec_bytes() =~= letters(Token::Print));
}

proof fn lemma_end_word()
    ensures
        "END".spec_bytes() == letters(Token::End),
        mark(letters(Token::End)) == 782046903,
        letters(Token::End).len() > 0,
{
    reveal(letters);
    reveal(mark);
    reveal_strlit("END");
    is_ascii_spec_bytes("END");
    assert("END".is_ascii());
    assert("END".spec_bytes() =~= letters(Token::End));
}

proof fn lemma_halt_word()
    ensures
        "HALT".spec_bytes() == letters(Token::Halt),
        mark(letters(Token::Halt)) == 762527204,
        letters(Token::Halt).len() > 0,
{
    reveal(letters);
    reveal(mark);
    reveal_strlit("HALT");
    is_ascii_spec_bytes("HALT");
    assert("HALT".is_ascii());
    assert("HALT".spec_bytes() =~= letters(Token::Halt));
}

proof fn lemma_rz_word()
    ensures
        "RZ".spec_bytes() == letters(Token::Rz),
        mark(letters(Token::Rz)) == 902708202,
        letters(Token::Rz).len() > 0,
{
    reveal(letters);
    reveal(mark);
    reveal_strlit("RZ");
    is_ascii_spec_bytes("RZ");
    assert("RZ".is_ascii());
    assert("RZ".spec_bytes() =~= letters(Token::Rz));
}

proof fn lemma_rx_word()
    ensures
        "RX".spec_bytes() == letters(Token::Rx),
        mark(letters(Token::Rx)) == 882648202,
        letters(Token::Rx).len() > 0,
{
    reveal(letters);
    reveal(mark);
    reveal_strlit("RX");
    is_ascii_spec_bytes("RX");
    assert("RX".is_ascii());
    assert("RX".spec_bytes() =~= letters(Token::Rx));
}

proof fn lemma_ry_word()
    ensures
        "RY".spec_bytes() == letters(Token::Ry),
        mark(letters(Token::Ry)) == 892678202,
        letters(Token::Ry).len() > 0,
{
    reveal(letters);
    reveal(mark);
    reveal_strlit("RY");
    is_ascii_spec_bytes("RY");
    assert("RY".is_ascii());
    assert("RY".spec_bytes() =~= letters(Token::Ry));
}

proof fn lemma_phase_word()
    ensures
        "PHASE".spec_bytes() == letters(Token::Phase),
        mark(letters(Token::Phase)) == 652078005,
        letters(Token::Phase).len() > 0,
{
    reveal(letters);
    reveal(mark);
    reveal_strlit("PHASE");
    is_ascii_spec_bytes("PHASE");
    assert("PHASE".is_ascii());
    assert("PHASE".spec_bytes() =~= letters(Token::Phase));
}

proof fn lemma_s_word()
    ensures
        "S".spec_bytes() == letters(Token::S),
        mark(letters(Token::S)) == 832498301,
        letters(Token::S).len() > 0,
{
    reveal(letters);
    reveal(mark);
    reveal_strlit("S");
    is_ascii_spec_bytes("S");
    assert("S".is_ascii());
    assert("S".spec_bytes() =~= letters(Token::S));
}

proof fn lemma_t_word()
    ensures
        "T".spec_bytes() == letters(Token::T),
        mark(letters(Token::T)) == 842528401,
        letters(Token::T).len() > 0,
{
    reveal(letters);
    reveal(mark);
    reveal_strlit("T");
    is_ascii_spec_bytes("T");
    assert("T".is_ascii());
    assert("T".spec_bytes() =~= letters(Token::T));
}

proof fn lemma_sx_word()
    ensures
        "SX".spec_bytes() == letters(Token::Sx),
        mark(letters(Token::Sx)) == 882648302,
        letters(Token::Sx).len() > 0,
{
    reveal(letters);
    reveal(mark);
    reveal_strlit("SX");
    is_ascii_spec_bytes("SX");
    assert("SX".is_ascii());
    assert("SX".spec_bytes() =~= letters(Token::Sx));
}

proof fn lemma_swap_word()
    ensures
        "SWAP".spec_bytes() == letters(Token::Swap),
        mark(letters(Token::Swap)) == 652408304,
        letters(Token::Swap).len() > 0,
{
    reveal(letters);
    reveal(mark);
    reveal_strlit("SWAP");
    is_ascii_spec_bytes("SWAP");
    assert("SWAP".is_ascii());
    assert("SWAP".spec_bytes() =~= letters(Token::Swap));
}

proof fn lemma_iswap_word()
    ensures
        "ISWAP".spec_bytes() == letters(Token::Iswap),
        mark(letters(Token::Iswap)) == 872407305,
        letters(Token::Iswap).len() > 0,
{
    reveal(letters);
    reveal(mark);
    reveal_strlit("ISWAP");
    is_ascii_spec_bytes("ISWAP");
    assert("ISWAP".is_ascii());
    assert("ISWAP".spec_bytes() =~= letters(Token::Iswap));
}

proof fn lemma_cz_word()
    ensures
        "CZ".spec_bytes() == letters(Token::Cz),
        mark(letters(Token::Cz)) == 902706702,
        letters(Token::Cz).len() > 0,
{
    reveal(letters);
    reveal(mark);
    reveal_strlit("CZ");
    is_ascii_spec_bytes("CZ");
    assert("CZ".is_ascii());
    assert("CZ".spec_bytes() =~= letters(Token::Cz));
}

proof fn lemma_cphase_word()
    ensures
        "CPHASE".spec_bytes() == letters(Token::Cphase),
        mark(letters(Token::Cphase)) == 652076706,
        letters(Token::Cphase).len() > 0,
{
    reveal(letters);
    reveal(mark);
    reveal_strlit("CPHASE");
    is_ascii_spec_bytes("CPHASE");
    assert("CPHASE".is_ascii());
    assert("CPHASE".spec_bytes() =~= letters(Token::Cphase));
}

proof fn lemma_cswap_word()
    ensures
        "CSWAP".spec_bytes() == letters(Token::Cswap),
        mark(letters(Token::Cswap)) == 872406705,
        letters(Token::Cswap).len() > 0,
{
    reveal(letters);
    reveal(mark);
    reveal_strlit("CSWAP");
    is_ascii_spec_bytes("CSWAP");
    assert("CSWAP".is_ascii());
    assert("CSWAP".spec_bytes() =~= letters(Token::Cswap));
}

proof fn lemma_mcx_word()
    ensures
        "MCX".spec_bytes() == letters(Token::Mcx),
        mark(letters(Token::Mcx)) == 672647703,
        letters(Token::Mcx).len() > 0,
{
    reveal(letters);
    reveal(mark);
    reveal_strlit("MCX");
    is_ascii_spec_bytes("MCX");
    assert("MCX".is_ascii());
    assert("MCX".spec_bytes() =~= letters(Token::Mcx));
}

proof fn lemma_reset_word()
    ensures
        "RESET".spec_bytes() == letters(Token::Reset),
        mark(letters(Token::Reset)) == 832528205,
        letters(Token::Reset).len() > 0,
{
    reveal(letters);
    reveal(mark);
    reveal_strlit("RESET");
    is_ascii_spec_bytes("RESET");
    assert("RESET".is_ascii());
    assert("RESET".spec_bytes() =~= letters(Token::Reset));
}

proof fn lemma_measurex_word()
    ensures
        "MEASURE_X".spec_bytes() == letters(Token::MeasureX),
        mark(letters(Token::MeasureX)) == 852647709,
        letters(Token::MeasureX).len() > 0,
{
    reveal(letters);
    reveal(mark);
    reveal_strlit("MEASURE_X");
    is_ascii_spec_bytes("MEASURE_X");
    assert("MEASURE_X".is_ascii());
    assert("MEASURE_X".spec_bytes() =~= letters(Token::MeasureX));
}

proof fn lemma_measurey_word()
    ensures
        "MEASURE_Y".spec_bytes() == letters(Token::MeasureY),
        mark(letters(Token::MeasureY)) == 852677709,
        letters(Token::MeasureY).len() > 0,
{
    reveal(letters);
    reveal(mark);
    reveal_strlit("MEASURE_Y");
    is_ascii_spec_bytes("MEASURE_Y");
    assert("MEASURE_Y".is_ascii());
    assert("MEASURE_Y".spec_bytes() =~= letters(Token::MeasureY));
}

proof fn lemma_setval_word()
    ensures
        "SET".spec_bytes() == letters(Token::SetVal),
        mark(letters(Token::SetVal)) == 692528303,
        letters(Token::SetVal).len() > 0,
{
    reveal(letters);
    reveal(mark);
    reveal_strlit("SET");
    is_ascii_spec_bytes("SET");
    assert("SET".is_ascii());
    assert("SET".spec_bytes() =~= letters(Token::SetVal));
}

proof fn lemma_not_word()
    ensures
        "NOT".spec_bytes() == letters(Token::Not),
        mark(letters(Token::Not)) == 792527803,
        letters(Token::Not).len() > 0,
{
    reveal(letters);
    reveal(mark);
    reveal_strlit("NOT");
    is_ascii_spec_bytes("NOT");
    assert("NOT".is_ascii());
    assert("NOT".spec_bytes() =~= letters(Token::Not));
}

proof fn lemma_and_word()
    ensures
        "AND".spec_bytes() == letters(Token::And),
        mark(letters(Token::And)) == 782046503,
        letters(Token::And).len() > 0,
{
    reveal(letters);
    reveal(mark);
    reveal_strlit("AND");
    is_ascii_spec_bytes("AND");
    assert("AND".is_ascii());
    assert("AND".spec_bytes() =~= letters(Token::And));
}

proof fn lemma_or_word()
    ensures
        "OR".spec_bytes() == letters(Token::Or),
        mark(letters(Token::Or)) == 822467902,
        letters(Token::Or).len() > 0,
{
    reveal(letters);
    reveal(mark);
    reveal_strlit("OR");
    is_ascii_spec_bytes("OR");
    assert("OR".is_ascii());
    assert("OR".spec_bytes() =~= letters(Token::Or));
}

proof fn lemma_xor_word()
    ensures
        "XOR".spec_bytes() == letters(Token::Xor),
        mark(letters(Token::Xor)) == 792468803,
        letters(Token::Xor).len() > 0,
{
    reveal(letters);
    reveal(mark);
    reveal_strlit("XOR");
    is_ascii_spec_bytes("XOR");
    assert("XOR".is_ascii());
    assert("XOR".spec_bytes() =~= letters(Token::Xor));
}

proof fn lemma_add_word()
    ensures
        "ADD".spec_bytes() == letters(Token::Add),
        mark(letters(Token::Add)) == 682046503,
        letters(Token::Add).len() > 0,
{
    reveal(letters);
    reveal(mark);
    reveal_strlit("ADD");
    is_ascii_spec_bytes("ADD");
    assert("ADD".is_ascii());
    assert("ADD".spec_bytes() =~= letters(Token::Add));
}

proof fn lemma_sub_word()
    ensures
        "SUB".spec_bytes() == letters(Token::Sub),
        mark(letters(Token::Sub)) == 851988303,
        letters(Token::Sub).len() > 0,
{
    reveal(letters);
    reveal(mark);
    reveal_strlit("SUB");
    is_ascii_spec_bytes("SUB");
    assert("SUB".is_ascii());
    assert("SUB".spec_bytes() =~= letters(Token::Sub));
}

proof fn lemma_expect_word()
    ensures
        "EXPECT".spec_bytes() == letters(Token::Expect),
        mark(letters(Token::Expect)) == 692526906,
        letters(Token::Expect).len() > 0,
{
    reveal(letters);
    reveal(mark);
    reveal_strlit("EXPECT");
    is_ascii_spec_bytes("EXPECT");
    assert("EXPECT".is_ascii());
    assert("EXPECT".spec_bytes() =~= letters(Token::Expect));
}

proof fn lemma_estimate_word()
    ensures
        "ESTIMATE".spec_bytes() == letters(Token::Estimate),
        mark(letters(Token::Estimate)) == 772076908,
        letters(Token::Estimate).len() > 0,
{
    reveal(letters);
    reveal(mark);
    reveal_strlit("ESTIMATE");
    is_ascii_spec_bytes("ESTIMATE");
    assert("ESTIMATE".is_ascii());
    assert("ESTIMATE".spec_bytes() =~= letters(Token::Estimate));
}

proof fn lemma_savestate_word()
    ensures
        "SAVE_STATEVECTOR".spec_bytes() == letters(Token::SaveState),
        mark(letters(Token::SaveState)) == 842468316,
        letters(Token::SaveState).len() > 0,
{
    reveal(letters);
    reveal(mark);
    reveal_strlit("SAVE_STATEVECTOR");
    is_ascii_spec_bytes("SAVE_STATEVECTOR");
    assert("SAVE_STATEVECTOR".is_ascii());
    assert("SAVE_STATEVECTOR".spec_bytes() =~= letters(Token::SaveState));
}

proof fn lemma_saveamps_word()
    ensures
        "SAVE_AMPLITUDES".spec_bytes() == letters(Token::SaveAmps),
        mark(letters(Token::SaveAmps)) == 802498315,
        letters(Token::SaveAmps).len() > 0,
{
    reveal(letters);
    reveal(mark);
    reveal_strlit("SAVE_AMPLITUDES");
    is_ascii_spec_bytes("SAVE_AMPLITUDES");
    assert("SAVE_AMPLITUDES".is_ascii());
    assert("SAVE_AMPLITUDES".spec_bytes() =~= letters(Token::SaveAmps));
}

proof fn lemma_saveprobs_word()
    ensures
        "SAVE_PROBABILITIES".spec_bytes() == letters(Token::SaveProbs),
        mark(letters(Token::SaveProbs)) == 652498318,
        letters(Token::SaveProbs).len() > 0,
{
    reveal(letters);
    reveal(mark);
    reveal_strlit("SAVE_PROBABILITIES");
    is_ascii_spec_bytes("SAVE_PROBABILITIES");
    assert("SAVE_PROBABILITIES".is_ascii());
    assert("SAVE_PROBABILITIES".spec_bytes() =~= letters(Token::SaveProbs));
}

proof fn lemma_gate_word()
    ensures
        "GATE".spec_bytes() == letters(Token::Gate),
        mark(letters(Token::Gate)) == 842077104,
        letters(Token::Gate).len() > 0,
{
    reveal(letters);
    reveal(mark);
    reveal_strlit("GATE");
    is_ascii_spec_bytes("GATE");
    assert("GATE".is_ascii());
    assert("GATE".spec_bytes() =~= letters(Token::Gate));
}

proof fn lemma_endgate_word()
    ensures
        "ENDGATE".spec_bytes() == letters(Token::Endgate),
        mark(letters(Token::Endgate)) == 712076907,
        letters(Token::Endgate).len() > 0,
{
    reveal(letters);
    reveal(mark);
    reveal_strlit("ENDGATE");
    is_ascii_spec_bytes("ENDGATE");
    assert("ENDGATE".is_ascii());
    assert("ENDGATE".spec_bytes() =~= letters(Token::Endgate));
}

proof fn lemma_other_word(t: Token)
    requires
        t != Token::Qubits,
        t != Token::H,
        t != Token::X,
        t != Token::Cnot,
        t != Token::Toff,
        t != Token::Measure,
        t != Token::If,
        t != Token::Then,
        t != Token::Endif,
        t != Token::Shot,
        t != Token::Endshot,
        t != Token::Print,
        t != Token::End,
        t != Token::Halt,
        t != Token::Rz,
        t != Token::Rx,
        t != Token::Ry,
        t != Token::Phase,
        t != Token::S,
        t != Token::T,
        t != Token::Sx,
        t != Token::Swap,
        t != Token::Iswap,
        t != Token::Cz,
        t != Token::Cphase,
        t != Token::Cswap,
        t != Token::Mcx,
        t != Token::Reset,
        t != Token::MeasureX,
        t != Token::MeasureY,
        t != Token::SetVal,
        t != Token::Not,
        t != Token::And,
        t != Token::Or,
        t != Token::Xor,
        t != Token::Add,
        t != Token::Sub,
        t != Token::Expect,
        t != Token::Estimate,
        t != Token::SaveState,
        t != Token::SaveAmps,
        t != Token::SaveProbs,
        t != Token::Gate,
        t != Token::Endgate,
    ensures
        letters(t).len() == 0,
{
    reveal(letters);
}

proof fn lemma_marks(t: Token)
    ensures
        letters(t).len() > 0 ==> keyword(letters(t)) != Token::Error && marked(mark(letters(t)))
            == t,
{
    match t {
        Token::Qubits => lemma_qubits_word(),
        Token::H => lemma_h_word(),
        Token::X => lemma_x_word(),
        Token::Cnot => lemma_cnot_word(),
        Token::Toff => lemma_toff_word(),
        Token::Measure => lemma_measure_word(),
        Token::If => lemma_if_word(),
        Token::Then => lemma_then_word(),
        Token::Endif => lemma_endif_word(),
        Token::Shot => lemma_shot_word(),
        Token::Endshot => lemma_endshot_word(),
        Token::Print => lemma_print_word(),
        Token::End => lemma_end_word(),
        Token::Halt => lemma_halt_word(),
        Token::Rz => lemma_rz_word(),
        Token::Rx => lemma_rx_word(),
        Token::Ry => lemma_ry_word(),
        Token::Phase => lemma_phase_word(),
        Token::S => lemma_s_word(),
        Token::T => lemma_t_word(),
        Token::Sx => lemma_sx_word(),
        Token::Swap => lemma_swap_word(),
        Token::Iswap => lemma_iswap_word(),
        Token::Cz => lemma_cz_word(),
        Token::Cphase => lemma_cphase_word(),
        Token::Cswap => lemma_cswap_word(),
        Token::Mcx => lemma_mcx_word(),
        Token::Reset => lemma_reset_word(),
        Token::MeasureX => lemma_measurex_word(),
        Token::MeasureY => lemma_measurey_word(),
        Token::SetVal => lemma_setval_word(),
        Token::Not => lemma_not_word(),
        Token::And => lemma_and_word(),
        Token::Or => lemma_or_word(),
        Token::Xor => lemma_xor_word(),
        Token::Add => lemma_add_word(),
        Token::Sub => lemma_sub_word(),
        Token::Expect => lemma_expect_word(),
        Token::Estimate => lemma_estimate_word(),
        Token::SaveState => lemma_savestate_word(),
        Token::SaveAmps => lemma_saveamps_word(),
        Token::SaveProbs => lemma_saveprobs_word(),
        Token::Gate => lemma_gate_word(),
        Token::Endgate => lemma_endgate_word(),
        _ => lemma_other_word(t),
    }
}

/// Whether a token is a keyword.
pub open spec fn is_word(t: Token) -> bool {
    match t {
        Token::Qubits => true,
        Token::H => true,
        Token::X => true,
        Token::Cnot => true,
        Token::Toff => true,
        Token::Measure => true,
        Token::If => true,
        Token::Then => true,
        Token::Endif => true,
        Token::Shot => true,
        Token::Endshot => true,
        Token::Print => true,
        Token::End => true,
        Token::Halt => true,
        Token::Rz => true,
        Token::Rx => true,
        Token::Ry => true,
        Token::Phase => true,
        Token::S => true,
        Token::T => true,
        Token::Sx => true,
        Token::Swap => true,
        Token::Iswap => true,
        Token::Cz => true,
        Token::Cphase => true,
        Token::Cswap => true,
        Token::Mcx => true,
        Token::Reset => true,
        Token::MeasureX => true,
        Token::MeasureY => true,
        Token::SetVal => true,
        Token::Not => true,
        Token::And => true,
        Token::Or => true,
        Token::Xor => true,
        Token::Add => true,
        Token::Sub => true,
        Token::Expect => true,
        Token::Estimate => true,
        Token::SaveState => true,
        Token::SaveAmps => true,
        Token::SaveProbs => true,
        Token::Gate => true,
        Token::Endgate => true,
        _ => false,
    }
}

proof fn lemma_has_letters(t: Token)
    requires
        is_word(t),
    ensures
        letters(t).len() > 0,
{
    match t {
        Token::Qubits => lemma_qubits_word(),
        Token::H => lemma_h_word(),
        Token::X => lemma_x_word(),
        Token::Cnot => lemma_cnot_word(),
        Token::Toff => lemma_toff_word(),
        Token::Measure => lemma_measure_word(),
        Token::If => lemma_if_word(),
        Token::Then => lemma_then_word(),
        Token::Endif => lemma_endif_word(),
        Token::Shot => lemma_shot_word(),
        Token::Endshot => lemma_endshot_word(),
        Token::Print => lemma_print_word(),
        Token::End => lemma_end_word(),
        Token::Halt => lemma_halt_word(),
        Token::Rz => lemma_rz_word(),
        Token::Rx => lemma_rx_word(),
        Token::Ry => lemma_ry_word(),
        Token::Phase => lemma_phase_word(),
        Token::S => lemma_s_word(),
        Token::T => lemma_t_word(),
        Token::Sx => lemma_sx_word(),
        Token::Swap => lemma_swap_word(),
        Token::Iswap => lemma_iswap_word(),
        Token::Cz => lemma_cz_word(),
        Token::Cphase => lemma_cphase_word(),
        Token::Cswap => lemma_cswap_word(),
        Token::Mcx => lemma_mcx_word(),
        Token::Reset => lemma_reset_word(),
        Token::MeasureX => lemma_measurex_word(),
        Token::MeasureY => lemma_measurey_word(),
        Token::SetVal => lemma_setval_word(),
        Token::Not => lemma_not_word(),
        Token::And => lemma_and_word(),
        Token::Or => lemma_or_word(),
        Token::Xor => lemma_xor_word(),
        Token::Add => lemma_add_word(),
        Token::Sub => lemma_sub_word(),
        Token::Expect => lemma_expect_word(),
        Token::Estimate => lemma_estimate_word(),
        Token::SaveState => lemma_savestate_word(),
        Token::SaveAmps => lemma_saveamps_word(),
        Token::SaveProbs => lemma_saveprobs_word(),
        Token::Gate => lemma_gate_word(),
        Token::Endgate => lemma_endgate_word(),
        _ => {},
    }
}

/// Whether the word is the keyword of the token.
#[verifier::opaque]
pub open spec fn is_keyword_of(w: Seq<u8>, t: Token) -> bool {
    keyword(w) == t
}

pub proof fn lemma_letters(t: Token)
    requires
        is_word(t),
    ensures
        is_keyword_of(letters(t), t),
{
    lemma_has_letters(t);
    law_keywords_are_recognised(t, letters(t));
    reveal(is_keyword_of);
}

/// No other word is taken for a keyword.
proof fn lemma_keyword_text(w: Seq<u8>)
    ensures
        keyword(w) != Token::Error ==> w == letters(keyword(w)) && w.len() > 0,
{
    lemma_qubits_word();
    lemma_h_word();
    lemma_x_word();
    lemma_cnot_word();
    lemma_toff_word();
    lemma_measure_word();
    lemma_if_word();
    lemma_then_word();
    lemma_endif_word();
    lemma_shot_word();
    lemma_endshot_word();
    lemma_print_word();
    lemma_end_word();
    lemma_halt_word();
    lemma_rz_word();
    lemma_rx_word();
    lemma_ry_word();
    lemma_phase_word();
    lemma_s_word();
    lemma_t_word();
    lemma_sx_word();
    lemma_swap_word();
    lemma_iswap_word();
    lemma_cz_word();
    lemma_cphase_word();
    lemma_cswap_word();
    lemma_mcx_word();
    lemma_reset_word();
    lemma_measurex_word();
    lemma_measurey_word();
    lemma_setval_word();
    lemma_not_word();
    lemma_and_word();
    lemma_or_word();
    lemma_xor_word();
    lemma_add_word();
    lemma_sub_word();
    lemma_expect_word();
    lemma_estimate_word();
    lemma_savestate_word();
    lemma_saveamps_word();
    lemma_saveprobs_word();
    lemma_gate_word();
    lemma_endgate_word();
}

/// Every keyword is recognised by its letters, and no other word is taken for it.
pub proof fn law_keywords_are_recognised(t: Token, w: Seq<u8>)
    ensures
        letters(t).len() > 0 ==> keyword(letters(t)) == t,
        keyword(w) != Token::Error ==> w == letters(keyword(w)) && w.len() > 0,
{
    lemma_keyword_text(w);
    lemma_keyword_text(letters(t));
    lemma_marks(t);
    if letters(t).len() > 0 {
        lemma_marks(keyword(letters(t)));
    }
}

} // verus!
