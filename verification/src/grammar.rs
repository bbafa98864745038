//! The language: which token sequences are programs, and what they are lowered to.
use crate::ir::{
    IrOp, Sub, MAX_CLASSICAL, MAX_CONSTS, MAX_ESTIMATE_TERMS, MAX_OPS, MAX_QUBITS, MAX_SUBS, NO_ARG,
};
use crate::lexer::{LexResult, Literal, Token};
use vstd::prelude::*;

verus! {

/// Deepest nesting of bodies.
pub const MAX_NESTING: u8 = 32;

/// Longest gate name, in bytes.
pub const MAX_NAME: usize = 16;

/// A refusal: the token it is reported at, and the message.
#[derive(Clone, Copy, Debug)]
pub struct Complaint {
    pub at: usize,
    pub msg: &'static str,
}

/// What is read: the tokens, the name of each token that is a gate name, the highest
/// qubit named by each token that is a Pauli product, the number of declared qubits,
/// and whether a subprogram body is being read.
pub struct Text {
    pub tokens: Seq<Token>,
    pub names: Seq<Seq<u8>>,
    pub tops: Seq<u8>,
    pub nq: u8,
    pub sub: bool,
}

/// A user-defined gate: its name, its number of parameters and the token at which
/// its body starts.
#[verifier::ext_equal]
pub struct GateView {
    pub name: Seq<u8>,
    pub nparams: u8,
    pub start: int,
}

/// How far reading has come, and what it has produced.
#[verifier::ext_equal]
pub struct Reading {
    pub pos: int,
    pub ops: Seq<IrOp>,
    pub consts: Seq<Literal>,
    pub terms: Seq<(Literal, u64)>,
    pub bytes: u8,
    pub shot: bool,
    pub gates: Seq<GateView>,
}

/// What a lexed source offers to read.
pub open spec fn text_of(lex: LexResult, nq: u8, sub: bool) -> Text {
    Text {
        tokens: lex.tokens@.subrange(0, lex.count as int),
        names: Seq::new(lex.count as nat, |k: int| lex.name_at(k)),
        tops: lex.pauli_tops@.subrange(0, lex.count as int),
        nq,
        sub,
    }
}

/// The token at `pos`, if there is one.
pub open spec fn tok(c: Text, pos: int) -> Option<Token> {
    if 0 <= pos < c.tokens.len() {
        Some(c.tokens[pos])
    } else {
        None
    }
}

/// A refusal at token `at`.
pub open spec fn complaint<T>(at: int, msg: &'static str) -> Result<T, Complaint> {
    Err(Complaint { at: at as usize, msg })
}

/// The first token at or after `pos` that is no line end.
pub open spec fn past_newlines(c: Text, pos: int) -> int
    decreases c.tokens.len() - pos,
{
    if tok(c, pos) == Some(Token::Newline) {
        past_newlines(c, pos + 1)
    } else {
        pos
    }
}

/// What an operand of a statement is.
#[derive(Clone, Copy, Debug, PartialEq, Eq, Structural)]
pub enum Operand {
    /// A declared qubit.
    Qubit,
    /// A classical byte.
    Cbit,
    /// An angle, put into the constant pool.
    Angle,
    /// A value of a classical byte.
    Byte,
    /// A Pauli product on declared qubits.
    Observable,
}

/// The operands of the statements that are a keyword with a fixed list of
/// operands.
pub open spec fn shape(t: Token) -> Option<Seq<Operand>> {
    match t {
        Token::H | Token::X | Token::S | Token::T | Token::Sx | Token::Reset => Some(
            seq![Operand::Qubit],
        ),
        Token::Cnot | Token::Swap | Token::Iswap | Token::Cz => Some(
            seq![Operand::Qubit, Operand::Qubit],
        ),
        Token::Toff | Token::Cswap => Some(seq![Operand::Qubit, Operand::Qubit, Operand::Qubit]),
        Token::Rz | Token::Rx | Token::Ry | Token::Phase => Some(
            seq![Operand::Qubit, Operand::Angle],
        ),
        Token::Cphase => Some(seq![Operand::Qubit, Operand::Qubit, Operand::Angle]),
        Token::SetVal => Some(seq![Operand::Cbit, Operand::Byte]),
        Token::Not => Some(seq![Operand::Cbit]),
        Token::And | Token::Or | Token::Xor | Token::Add | Token::Sub => Some(
            seq![Operand::Cbit, Operand::Cbit],
        ),
        Token::Expect => Some(seq![Operand::Observable]),
        Token::SaveState | Token::SaveAmps | Token::SaveProbs | Token::Print => Some(Seq::empty()),
        _ => None,
    }
}

/// The op of such a statement with the given operand values.
pub open spec fn assembled(t: Token, v: Seq<u64>) -> IrOp {
    match t {
        Token::H => IrOp::H(v[0] as u8),
        Token::X => IrOp::X(v[0] as u8),
        Token::S => IrOp::S(v[0] as u8),
        Token::T => IrOp::T(v[0] as u8),
        Token::Sx => IrOp::SX(v[0] as u8),
        Token::Reset => IrOp::Reset(v[0] as u8),
        Token::Cnot => IrOp::CNOT(v[0] as u8, v[1] as u8),
        Token::Swap => IrOp::SWAP(v[0] as u8, v[1] as u8),
        Token::Iswap => IrOp::ISWAP(v[0] as u8, v[1] as u8),
        Token::Cz => IrOp::CZ(v[0] as u8, v[1] as u8),
        Token::Toff => IrOp::Toff(v[0] as u8, v[1] as u8, v[2] as u8),
        Token::Cswap => IrOp::CSWAP(v[0] as u8, v[1] as u8, v[2] as u8),
        Token::Rz => IrOp::RZ(v[0] as u8, v[1] as u16),
        Token::Rx => IrOp::RX(v[0] as u8, v[1] as u16),
        Token::Ry => IrOp::RY(v[0] as u8, v[1] as u16),
        Token::Phase => IrOp::Phase(v[0] as u8, v[1] as u16),
        Token::Cphase => IrOp::CPHASE(v[0] as u8, v[1] as u8, v[2] as u16),
        Token::SetVal => IrOp::SetVal(v[0] as u8, v[1] as u8),
        Token::Not => IrOp::Not(v[0] as u8),
        Token::And => IrOp::And(v[0] as u8, v[1] as u8),
        Token::Or => IrOp::Or(v[0] as u8, v[1] as u8),
        Token::Xor => IrOp::Xor(v[0] as u8, v[1] as u8),
        Token::Add => IrOp::Add(v[0] as u8, v[1] as u8),
        Token::Sub => IrOp::Sub(v[0] as u8, v[1] as u8),
        Token::Expect => IrOp::Expect(v[0]),
        Token::SaveState => IrOp::SaveState,
        Token::SaveAmps => IrOp::SaveAmps,
        Token::SaveProbs => IrOp::SaveProbs,
        _ => IrOp::Print,
    }
}

/// Whether every qubit on which a Pauli code acts is declared.
pub open spec fn pauli_declared(code: u64, nq: u8) -> bool {
    forall|q: u64| q < 32 && q >= nq ==> #[trigger] ((code >> (2 * q) as u64) & 3) == 0
}

/// Whether every qubit that the Pauli product at `pos` names is declared, also those
/// under the letter I.
pub open spec fn all_declared(c: Text, pos: int, code: u64) -> bool {
    c.tops[pos] < c.nq && pauli_declared(code, c.nq)
}

/// A whole number as a literal.
pub open spec fn whole_literal(n: u32, negative: bool) -> Literal {
    Literal { negative, whole: n as u64, frac_start: 0, frac_len: 0 }
}

/// The value of the operand at the current token, and the reading after it.
pub open spec fn operand(c: Text, k: Operand, st: Reading) -> Result<(u64, Reading), Complaint> {
    let t = tok(c, st.pos);
    let next = Reading { pos: st.pos + 1, ..st };
    match k {
        Operand::Qubit => match t {
            Some(Token::Number(n)) => if n >= c.nq {
                complaint(st.pos + 1, "qubit index out of range")
            } else {
                Ok((n as u64, next))
            },
            _ => complaint(st.pos, "expected a qubit index"),
        },
        Operand::Cbit => match t {
            Some(Token::ClassicalRef(n)) => if n >= MAX_CLASSICAL {
                complaint(st.pos, "classical bit index too large")
            } else {
                Ok((n as u64, next))
            },
            _ => complaint(st.pos, "expected a classical bit"),
        },
        Operand::Angle => {
            let lit = match t {
                Some(Token::Float(l)) => Some(l),
                Some(Token::Number(n)) => Some(whole_literal(n, false)),
                _ => None,
            };
            match lit {
                None => complaint(st.pos, "expected an angle"),
                Some(l) => if st.consts.len() >= MAX_CONSTS {
                    complaint(st.pos + 1, "constant pool full")
                } else {
                    Ok((st.consts.len() as u64, Reading { consts: st.consts.push(l), ..next }))
                },
            }
        },
        Operand::Byte => match t {
            Some(Token::Number(n)) => if n > 255 {
                complaint(st.pos + 1, "SET value must fit in a byte")
            } else {
                Ok((n as u64, next))
            },
            _ => complaint(st.pos, "expected a value after SET"),
        },
        Operand::Observable => match t {
            Some(Token::Pauli(code)) => if !all_declared(c, st.pos, code) {
                complaint(st.pos + 1, "Pauli qubit index out of range")
            } else {
                Ok((code, next))
            },
            _ => complaint(st.pos, "expected a Pauli product after EXPECT"),
        },
    }
}

/// The values of a list of operands, read one after another.
pub open spec fn operands(c: Text, ks: Seq<Operand>, st: Reading) -> Result<
    (Seq<u64>, Reading),
    Complaint,
>
    decreases ks.len(),
{
    if ks.len() == 0 {
        Ok((Seq::empty(), st))
    } else {
        match operands(c, ks.drop_last(), st) {
            Err(e) => Err(e),
            Ok((v, s)) => match operand(c, ks.last(), s) {
                Err(e) => Err(e),
                Ok((x, s2)) => Ok((v.push(x), s2)),
            },
        }
    }
}

/// The reading with one more op.
pub open spec fn emitted(st: Reading, op: IrOp) -> Result<Reading, Complaint> {
    if st.ops.len() >= MAX_OPS {
        complaint(st.pos, "too many operations")
    } else {
        Ok(Reading { ops: st.ops.push(op), ..st })
    }
}

/// A keyword with a fixed list of operands.
pub open spec fn plain(c: Text, t: Token, ks: Seq<Operand>, st: Reading) -> Result<
    Reading,
    Complaint,
> {
    match operands(c, ks, st) {
        Err(e) => Err(e),
        Ok((v, s)) => emitted(s, assembled(t, v)),
    }
}

/// `MCX mask target`: the mask is not zero, names declared qubits only and does
/// not hold the target.
pub open spec fn mcx(c: Text, st: Reading) -> Result<Reading, Complaint> {
    match tok(c, st.pos) {
        Some(Token::Number(m)) => if m == 0 {
            complaint(st.pos + 1, "MCX control mask must be nonzero")
        } else if m >= (1u32 << c.nq) {
            complaint(st.pos + 1, "MCX control mask out of range")
        } else {
            match operand(c, Operand::Qubit, Reading { pos: st.pos + 1, ..st }) {
                Err(e) => Err(e),
                Ok((t, s)) => if (m >> (t as u32)) & 1 == 1 {
                    complaint(s.pos, "MCX target overlaps the control mask")
                } else {
                    emitted(s, IrOp::MCX(m, t as u8))
                },
            }
        },
        _ => complaint(st.pos, "expected a control mask"),
    }
}

/// The terms of `ESTIMATE`: pairs of a signed coefficient and a Pauli product.
pub open spec fn estimate_terms(c: Text, st: Reading, n: nat) -> Result<(Reading, nat), Complaint>
    decreases c.tokens.len() - st.pos,
{
    let neg = tok(c, st.pos) == Some(Token::Minus);
    let at = if neg {
        st.pos + 1
    } else {
        st.pos
    };
    let coef = match tok(c, at) {
        Some(Token::Number(x)) => Some(whole_literal(x, neg)),
        Some(Token::Float(l)) => Some(Literal { negative: neg, ..l }),
        _ => None,
    };
    match coef {
        None => if neg {
            complaint(at, "expected a coefficient after '-' in ESTIMATE")
        } else {
            Ok((st, n))
        },
        Some(l) => match tok(c, at + 1) {
            Some(Token::Pauli(code)) => if !all_declared(c, at + 1, code) {
                complaint(at + 2, "Pauli qubit index out of range")
            } else if st.terms.len() >= MAX_ESTIMATE_TERMS {
                complaint(at + 2, "too many ESTIMATE terms")
            } else {
                estimate_terms(
                    c,
                    Reading { pos: at + 2, terms: st.terms.push((l, code)), ..st },
                    n + 1,
                )
            },
            _ => complaint(at + 1, "expected a Pauli product after the coefficient"),
        },
    }
}

/// `ESTIMATE c0 P0 c1 P1 ...`, with at least one term.
pub open spec fn estimate(c: Text, st: Reading) -> Result<Reading, Complaint> {
    match estimate_terms(c, st, 0) {
        Err(e) => Err(e),
        Ok((s, n)) => if n == 0 {
            complaint(
                s.pos,
                "expected at least one coefficient/Pauli pair after ESTIMATE",
            )
        } else {
            emitted(s, IrOp::Estimate(st.terms.len() as u16, n as u16))
        },
    }
}

/// Further qubits of a measurement.
pub open spec fn qubit_list(c: Text, pos: int, qs: Seq<u8>) -> Result<(Seq<u8>, int), Complaint>
    decreases c.tokens.len() - pos,
{
    match tok(c, pos) {
        Some(Token::Number(n)) => if n >= c.nq {
            complaint(pos, "qubit index out of range")
        } else if qs.len() >= MAX_CLASSICAL {
            complaint(pos, "too many measurements")
        } else {
            qubit_list(c, pos + 1, qs.push(n as u8))
        },
        _ => Ok((qs, pos)),
    }
}

/// The classical targets of a measurement.
pub open spec fn target_list(c: Text, pos: int, cs: Seq<u8>) -> Result<(Seq<u8>, int), Complaint>
    decreases c.tokens.len() - pos,
{
    match tok(c, pos) {
        Some(Token::ClassicalRef(n)) => if n >= MAX_CLASSICAL {
            complaint(pos, "classical bit index too large")
        } else if cs.len() >= MAX_CLASSICAL {
            complaint(pos, "too many classical targets")
        } else {
            target_list(c, pos + 1, cs.push(n as u8))
        },
        _ => Ok((cs, pos)),
    }
}

/// The op that measures a qubit into a classical byte.
pub open spec fn measurement(t: Token, q: u8, b: u8) -> IrOp {
    match t {
        Token::MeasureX => IrOp::MeasureX(q, b),
        Token::MeasureY => IrOp::MeasureY(q, b),
        _ => IrOp::Measure(q, b),
    }
}

/// One measurement op per pair of qubit and target, the first `k` of them. The
/// number of classical bytes grows to hold every target.
pub open spec fn measures(st: Reading, t: Token, qs: Seq<u8>, cs: Seq<u8>, k: nat) -> Result<
    Reading,
    Complaint,
>
    decreases k,
{
    if k == 0 {
        Ok(st)
    } else {
        match measures(st, t, qs, cs, (k - 1) as nat) {
            Err(e) => Err(e),
            Ok(s) => {
                let (q, b) = (qs[k - 1], cs[k - 1]);
                emitted(
                    Reading {
                        bytes: if b >= s.bytes {
                            (b + 1) as u8
                        } else {
                            s.bytes
                        },
                        ..s
                    },
                    measurement(t, q, b),
                )
            },
        }
    }
}

/// Measuring several qubits is measuring one after another, from left to right, each
/// into its own byte.
pub proof fn law_measure_lists_are_sequences(
    st: Reading,
    t: Token,
    qs: Seq<u8>,
    cs: Seq<u8>,
    k: nat,
)
    requires
        k <= qs.len(),
        k <= cs.len(),
    ensures
        measures(st, t, qs, cs, k) matches Ok(s) ==> s.ops == st.ops + Seq::new(
            k,
            |i: int| measurement(t, qs[i], cs[i]),
        ),
    decreases k,
{
    let all = Seq::new(k, |i: int| measurement(t, qs[i], cs[i]));
    if k == 0 {
        assert(st.ops + all =~= st.ops);
    } else {
        law_measure_lists_are_sequences(st, t, qs, cs, (k - 1) as nat);
        let init = Seq::new((k - 1) as nat, |i: int| measurement(t, qs[i], cs[i]));
        assert(st.ops + all =~= (st.ops + init).push(all[k - 1]));
    }
}

/// `MEASURE q1 q2 ... [-> c1 c2 ...]`: without targets each qubit is measured into
/// the byte of the same number.
pub open spec fn measure(c: Text, t: Token, st: Reading) -> Result<Reading, Complaint> {
    match operand(c, Operand::Qubit, st) {
        Err(e) => Err(e),
        Ok((first, s)) => match qubit_list(c, s.pos, seq![first as u8]) {
            Err(e) => Err(e),
            Ok((qs, p)) => if tok(c, p) == Some(Token::Arrow) {
                match target_list(c, p + 1, Seq::empty()) {
                    Err(e) => Err(e),
                    Ok((cs, p2)) => if cs.len() == 0 {
                        complaint(p2, "expected a classical bit after '->'")
                    } else if cs.len() != qs.len() {
                        complaint(p2, "measurement qubits and classical targets must match")
                    } else {
                        measures(Reading { pos: p2, ..s }, t, qs, cs, qs.len())
                    },
                }
            } else {
                measures(Reading { pos: p, ..s }, t, qs, qs, qs.len())
            },
        },
    }
}

/// The index of the first gate of that name at or after `from`.
pub open spec fn found(gates: Seq<GateView>, name: Seq<u8>, from: int) -> Option<u16>
    decreases gates.len() - from,
{
    if from < 0 || from >= gates.len() {
        None
    } else if gates[from].name == name {
        Some(from as u16)
    } else {
        found(gates, name, from + 1)
    }
}

/// The token at or after `pos` that ends a gate definition: `ENDGATE`, or the
/// place where it is missing.
pub open spec fn gate_end(c: Text, pos: int) -> int
    decreases c.tokens.len() - pos,
{
    match tok(c, pos) {
        None => pos,
        Some(Token::Endgate) | Some(Token::End) | Some(Token::Halt) | Some(Token::Eof) => pos,
        _ => gate_end(c, pos + 1),
    }
}

/// `GATE name nparams ... ENDGATE`: the body is noted, and read later.
pub open spec fn gate_def(c: Text, st: Reading) -> Result<Reading, Complaint> {
    if c.sub {
        complaint(st.pos, "GATE definitions cannot be nested")
    } else if tok(c, st.pos) != Some(Token::Ident) {
        complaint(st.pos, "expected a gate name after GATE")
    } else {
        match tok(c, st.pos + 1) {
            Some(Token::Number(n)) => if n < 1 || n > 3 {
                complaint(st.pos + 2, "gate parameter count must be 1..=3")
            } else if st.gates.len() >= MAX_SUBS {
                complaint(st.pos + 2, "too many gates")
            } else if c.names[st.pos].len() > MAX_NAME {
                complaint(st.pos + 2, "gate name too long")
            } else if found(st.gates, c.names[st.pos], 0) is Some {
                complaint(st.pos + 2, "duplicate gate definition")
            } else {
                let start = past_newlines(c, st.pos + 2);
                let end = gate_end(c, start);
                if tok(c, end) != Some(Token::Endgate) {
                    complaint(end, "expected ENDGATE")
                } else {
                    Ok(
                        Reading {
                            pos: end + 1,
                            gates: st.gates.push(
                                GateView { name: c.names[st.pos], nparams: n as u8, start },
                            ),
                            ..st
                        },
                    )
                }
            },
            _ => complaint(st.pos + 1, "expected a parameter count after a gate name"),
        }
    }
}

/// A call of a gate: its name is the token before the current one.
pub open spec fn gate_call(c: Text, st: Reading) -> Result<Reading, Complaint> {
    match found(st.gates, c.names[st.pos - 1], 0) {
        None => complaint(st.pos, "undefined gate"),
        Some(id) => {
            let np = st.gates[id as int].nparams;
            match operands(c, Seq::new(np as nat, |k: int| Operand::Qubit), st) {
                Err(e) => Err(e),
                Ok((v, s)) => emitted(
                    s,
                    IrOp::Call(
                        id,
                        if np > 0 {
                            v[0] as u8
                        } else {
                            NO_ARG
                        },
                        if np > 1 {
                            v[1] as u8
                        } else {
                            NO_ARG
                        },
                        if np > 2 {
                            v[2] as u8
                        } else {
                            NO_ARG
                        },
                    ),
                ),
            }
        },
    }
}

/// A statement without a body, after its first token `t`.
pub open spec fn flat(c: Text, t: Token, st: Reading) -> Result<Reading, Complaint> {
    match shape(t) {
        Some(ks) => plain(c, t, ks, st),
        None => match t {
            Token::Mcx => mcx(c, st),
            Token::Estimate => estimate(c, st),
            Token::Measure | Token::MeasureX | Token::MeasureY => measure(c, t, st),
            Token::Gate => gate_def(c, st),
            Token::Ident => gate_call(c, st),
            _ => complaint(st.pos, "unexpected token"),
        },
    }
}

/// The op that opens a body: a branch or a repetition.
pub enum Head {
    Branch(u8, bool, u8),
    Repeat(u32),
}

/// The op of an opened body that turned out to be `ops[off..off + len]`.
pub open spec fn headed(h: Head, off: u16, len: u16) -> IrOp {
    match h {
        Head::Branch(b, negate, v) => if negate {
            IrOp::IfNe(b, v, off, len)
        } else {
            IrOp::IfEq(b, v, off, len)
        },
        Head::Repeat(count) => IrOp::Shot(count, off, len),
    }
}

/// `IF c == v THEN` or `IF c != v THEN`, after `IF`: the head and the start of the
/// body.
pub open spec fn if_head(c: Text, pos: int) -> Result<(Head, int), Complaint> {
    match tok(c, pos) {
        Some(Token::ClassicalRef(b)) => if b >= MAX_CLASSICAL {
            complaint(pos + 1, "classical bit index too large")
        } else {
            let op = tok(c, pos + 1);
            if op != Some(Token::Equals) && op != Some(Token::Ne) {
                complaint(pos + 1, "expected '==' or '!=' after IF condition")
            } else {
                match tok(c, pos + 2) {
                    Some(Token::Number(v)) => if v > 255 {
                        complaint(pos + 3, "IF value must fit in a byte")
                    } else if tok(c, pos + 3) != Some(Token::Then) {
                        complaint(pos + 3, "expected THEN")
                    } else {
                        Ok(
                            (
                                Head::Branch(b as u8, op == Some(Token::Ne), v as u8),
                                past_newlines(c, pos + 4),
                            ),
                        )
                    },
                    _ => complaint(pos + 2, "expected a value after the comparison"),
                }
            }
        },
        _ => complaint(pos, "expected a classical bit after IF"),
    }
}

/// Whether a token starts a statement that belongs to the body of `SHOT`.
pub open spec fn body_start(t: Token) -> bool {
    match t {
        Token::H | Token::X | Token::Cnot | Token::Toff | Token::Measure | Token::If => true,
        Token::Shot | Token::Rz | Token::Rx | Token::Ry | Token::Phase | Token::S => true,
        Token::T | Token::Sx | Token::Swap | Token::Iswap | Token::Cz | Token::Cphase => true,
        Token::Cswap | Token::Mcx | Token::Reset | Token::MeasureX | Token::MeasureY => true,
        Token::SetVal | Token::Not | Token::And | Token::Or | Token::Xor | Token::Add => true,
        Token::Sub | Token::Expect | Token::Estimate | Token::SaveState => true,
        Token::SaveAmps | Token::SaveProbs | Token::Gate | Token::Ident => true,
        _ => false,
    }
}

/// `SHOT n`, after `SHOT`: a count of zero means one, and the next statement
/// decides whether a body follows.
pub open spec fn shot_head(c: Text, pos: int) -> Result<(u32, int, bool), Complaint> {
    match tok(c, pos) {
        Some(Token::Number(n)) => {
            let p = past_newlines(c, pos + 1);
            let bare = match tok(c, p) {
                Some(t) => !body_start(t),
                None => true,
            };
            Ok(
                (
                    if n == 0 {
                        1u32
                    } else {
                        n
                    },
                    p,
                    bare,
                ),
            )
        },
        _ => complaint(pos, "expected shot count"),
    }
}

/// `SHOT n` without a body; an `ENDSHOT` may follow.
pub open spec fn bare_shot(c: Text, count: u32, st: Reading) -> Result<Reading, Complaint> {
    emitted(
        Reading {
            pos: if tok(c, st.pos) == Some(Token::Endshot) {
                st.pos + 1
            } else {
                st.pos
            },
            shot: true,
            ..st
        },
        IrOp::Shot(count, 0, 0),
    )
}

/// The reading with a slot for the op that opens a body.
pub open spec fn opened(st: Reading) -> Result<Reading, Complaint> {
    emitted(st, IrOp::Print)
}

/// The reading after a body whose slot is `slot`: the closing token is consumed
/// and the op put into its slot.
pub open spec fn closed(c: Text, h: Head, slot: int, st: Reading) -> Result<Reading, Complaint> {
    let (end, msg) = match h {
        Head::Branch(_, _, _) => (Token::Endif, "expected ENDIF"),
        Head::Repeat(_) => (Token::Endshot, "expected ENDSHOT"),
    };
    if tok(c, st.pos) != Some(end) {
        complaint(st.pos, msg)
    } else {
        Ok(
            Reading {
                pos: st.pos + 1,
                ops: st.ops.update(
                    slot,
                    headed(h, (slot + 1) as u16, (st.ops.len() - slot - 1) as u16),
                ),
                shot: st.shot || h is Repeat,
                ..st
            },
        )
    }
}

/// Tokens from `pos` to the end.
pub open spec fn left(c: Text, pos: int) -> nat {
    if pos <= c.tokens.len() {
        (c.tokens.len() - pos) as nat
    } else {
        0
    }
}

/// A body: statements up to a token that ends a block.
pub open spec fn body(c: Text, st: Reading, depth: nat) -> Result<Reading, Complaint>
    decreases left(c, st.pos), 3int,
{
    if depth > MAX_NESTING {
        complaint(st.pos, "nesting too deep")
    } else {
        statements(c, st, depth)
    }
}

/// Whether a token ends a block.
pub open spec fn ends_block(t: Token) -> bool {
    match t {
        Token::Endif | Token::Endshot | Token::End | Token::Halt | Token::Eof => true,
        Token::Endgate => true,
        _ => false,
    }
}

/// Statements and line ends, up to a token that ends a block.
pub open spec fn statements(c: Text, st: Reading, depth: nat) -> Result<Reading, Complaint>
    decreases left(c, st.pos), 2int,
{
    match tok(c, st.pos) {
        None => Ok(st),
        Some(t) => if t == Token::Newline {
            statements(c, Reading { pos: st.pos + 1, ..st }, depth)
        } else if ends_block(t) {
            Ok(st)
        } else {
            match statement(c, st, depth) {
                Err(e) => Err(e),
                Ok(s) => if s.pos > st.pos {
                    statements(c, s, depth)
                } else {
                    complaint(st.pos, "unexpected token")
                },
            }
        },
    }
}

/// The body of an opened block, and its end.
pub open spec fn block(c: Text, h: Head, from: int, st: Reading, depth: nat) -> Result<
    Reading,
    Complaint,
>
    decreases left(c, from), 0int,
{
    match opened(st) {
        Err(e) => Err(e),
        Ok(s) => if 0 <= from < s.pos <= c.tokens.len() {
            match body(c, s, depth + 1) {
                Err(e) => Err(e),
                Ok(s2) => closed(c, h, st.ops.len() as int, s2),
            }
        } else {
            complaint(s.pos, "unexpected token")
        },
    }
}

/// One statement.
pub open spec fn statement(c: Text, st: Reading, depth: nat) -> Result<Reading, Complaint>
    decreases left(c, st.pos), 1int,
{
    let t = match tok(c, st.pos) {
        Some(t) => t,
        None => Token::Error,
    };
    let next = Reading { pos: st.pos + 1, ..st };
    match t {
        Token::If => match if_head(c, next.pos) {
            Err(e) => Err(e),
            Ok((h, p)) => block(c, h, st.pos, Reading { pos: p, ..st }, depth),
        },
        Token::Shot => match shot_head(c, next.pos) {
            Err(e) => Err(e),
            Ok((count, p, bare)) => if bare {
                bare_shot(c, count, Reading { pos: p, ..st })
            } else {
                block(c, Head::Repeat(count), st.pos, Reading { pos: p, ..st }, depth)
            },
        },
        _ => flat(c, t, next),
    }
}

/// A lowered program.
#[verifier::ext_equal]
pub struct Lowered {
    /// The main region, then the subprogram bodies.
    pub ops: Seq<IrOp>,
    /// Length of the main region.
    pub len: nat,
    pub num_qubits: u8,
    pub num_classical: u8,
    pub has_explicit_shot: bool,
    pub consts: Seq<Literal>,
    pub terms: Seq<(Literal, u64)>,
    pub subs: Seq<Sub>,
}

/// The bodies of the gates from the `i`th on, appended to what was read so far.
pub open spec fn gate_bodies(c: Text, st: Reading, subs: Seq<Sub>, n: nat) -> Result<
    (Reading, Seq<Sub>),
    Complaint,
>
    decreases n - subs.len(),
{
    let i = subs.len() as int;
    if i >= n {
        Ok((st, subs))
    } else {
        match body(c, Reading { pos: st.gates[i].start, ..st }, 0) {
            Err(e) => Err(e),
            Ok(s) => if tok(c, s.pos) != Some(Token::Endgate) {
                complaint(s.pos, "expected ENDGATE")
            } else {
                gate_bodies(
                    c,
                    s,
                    subs.push(
                        Sub {
                            off: st.ops.len() as u16,
                            len: (s.ops.len() - st.ops.len()) as u16,
                            nparams: st.gates[i].nparams,
                        },
                    ),
                    n,
                )
            },
        }
    }
}

/// The number of qubits a program declares, and where its body starts.
pub open spec fn declaration(c: Text) -> Result<(u8, int), Complaint> {
    let p = past_newlines(c, 0);
    if tok(c, p) != Some(Token::Qubits) {
        complaint(p, "expected QUBITS declaration")
    } else {
        match tok(c, p + 1) {
            Some(Token::Number(n)) => if n == 0 || n > MAX_QUBITS {
                complaint(p + 2, "qubit count must be in 1..=28")
            } else {
                Ok((n as u8, past_newlines(c, p + 2)))
            },
            _ => complaint(p + 1, "expected qubit count after QUBITS"),
        }
    }
}

/// The main part of a program: its body and the end marker.
pub open spec fn main_part(c: Text, pos: int) -> Result<Reading, Complaint> {
    match body(
        c,
        Reading {
            pos,
            ops: Seq::empty(),
            consts: Seq::empty(),
            terms: Seq::empty(),
            bytes: c.nq,
            shot: false,
            gates: Seq::empty(),
        },
        0,
    ) {
        Err(e) => Err(e),
        Ok(s) => {
            let p = past_newlines(c, s.pos);
            match tok(c, p) {
                None | Some(Token::Eof) | Some(Token::End) | Some(Token::Halt) => Ok(s),
                _ => complaint(p, "expected END or HALT at end of program"),
            }
        },
    }
}

/// The program that a lexed source spells, or why it spells none. Gate bodies are
/// read after the main part, so that calls may refer to gates defined later in
/// other bodies.
pub open spec fn lowered(lex: LexResult) -> Result<Lowered, Complaint> {
    match declaration(text_of(lex, 0, false)) {
        Err(e) => Err(e),
        Ok((nq, pos)) => match main_part(text_of(lex, nq, false), pos) {
            Err(e) => Err(e),
            Ok(s) => match gate_bodies(text_of(lex, nq, true), s, Seq::empty(), s.gates.len()) {
                Err(e) => Err(e),
                Ok((t, subs)) => Ok(
                    Lowered {
                        ops: t.ops,
                        len: s.ops.len(),
                        num_qubits: nq,
                        num_classical: t.bytes,
                        has_explicit_shot: t.shot,
                        consts: t.consts,
                        terms: t.terms,
                        subs,
                    },
                ),
            },
        },
    }
}

} // verus!
