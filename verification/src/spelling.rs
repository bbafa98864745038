//! How the ops of a program are written: what a statement is lowered to, told by the text
//! that spells it.
use crate::grammar::{
    assembled, bare_shot, block, body, body_start, closed, emitted, ends_block, estimate,
    estimate_terms, flat, found, gate_call, gate_def, gate_end, if_head,
    law_measure_lists_are_sequences, left, mcx, measure, measurement, measures, opened, operand,
    operands, past_newlines, plain, qubit_list, shape, shot_head, statement, statements,
    target_list, tok, Complaint, GateView, Head, Operand, Reading, Text,
};
use crate::ir::{IrOp, MAX_CLASSICAL, MAX_ESTIMATE_TERMS};
use crate::lexer::{Literal, Token};
use crate::words::{is_keyword_of, is_word, lemma_letters, letters};
use vstd::pervasive::arbitrary;
use vstd::prelude::*;

verus! {

/// The word that starts the statement of an op; a call starts with the name of its gate.
pub open spec fn word_of(op: IrOp) -> Seq<u8> {
    match op {
        IrOp::H(_) => letters(Token::H),
        IrOp::X(_) => letters(Token::X),
        IrOp::CNOT(_, _) => letters(Token::Cnot),
        IrOp::Toff(_, _, _) => letters(Token::Toff),
        IrOp::Measure(_, _) => letters(Token::Measure),
        IrOp::IfEq(_, _, _, _) | IrOp::IfNe(_, _, _, _) => letters(Token::If),
        IrOp::Shot(_, _, _) => letters(Token::Shot),
        IrOp::Print => letters(Token::Print),
        IrOp::RZ(_, _) => letters(Token::Rz),
        IrOp::RX(_, _) => letters(Token::Rx),
        IrOp::RY(_, _) => letters(Token::Ry),
        IrOp::Phase(_, _) => letters(Token::Phase),
        IrOp::S(_) => letters(Token::S),
        IrOp::T(_) => letters(Token::T),
        IrOp::SX(_) => letters(Token::Sx),
        IrOp::SWAP(_, _) => letters(Token::Swap),
        IrOp::ISWAP(_, _) => letters(Token::Iswap),
        IrOp::CZ(_, _) => letters(Token::Cz),
        IrOp::CPHASE(_, _, _) => letters(Token::Cphase),
        IrOp::CSWAP(_, _, _) => letters(Token::Cswap),
        IrOp::MCX(_, _) => letters(Token::Mcx),
        IrOp::Reset(_) => letters(Token::Reset),
        IrOp::MeasureX(_, _) => letters(Token::MeasureX),
        IrOp::MeasureY(_, _) => letters(Token::MeasureY),
        IrOp::SetVal(_, _) => letters(Token::SetVal),
        IrOp::Not(_) => letters(Token::Not),
        IrOp::And(_, _) => letters(Token::And),
        IrOp::Or(_, _) => letters(Token::Or),
        IrOp::Xor(_, _) => letters(Token::Xor),
        IrOp::Add(_, _) => letters(Token::Add),
        IrOp::Sub(_, _) => letters(Token::Sub),
        IrOp::Expect(_) => letters(Token::Expect),
        IrOp::SaveState => letters(Token::SaveState),
        IrOp::SaveAmps => letters(Token::SaveAmps),
        IrOp::SaveProbs => letters(Token::SaveProbs),
        IrOp::Estimate(_, _) => letters(Token::Estimate),
        IrOp::Call(_, _, _, _) => Seq::empty(),
    }
}

/// What an op says besides its kind.
pub enum Arg {
    Qubit(u8),
    /// A classical byte.
    Byte(u8),
    /// A number that is put into a byte.
    Value(u8),
    /// An index into the constant pool.
    Angle(u16),
    /// A control mask.
    Mask(u32),
    /// A Pauli product.
    Product(u64),
}

/// The operands of an op in the order in which they are written.
pub open spec fn args_of(op: IrOp) -> Seq<Arg> {
    match op {
        IrOp::H(q) | IrOp::X(q) | IrOp::S(q) | IrOp::T(q) | IrOp::SX(q) | IrOp::Reset(q) => seq![
            Arg::Qubit(q),
        ],
        IrOp::CNOT(a, b) | IrOp::SWAP(a, b) | IrOp::ISWAP(a, b) | IrOp::CZ(a, b) => seq![
            Arg::Qubit(a),
            Arg::Qubit(b),
        ],
        IrOp::Toff(a, b, c) | IrOp::CSWAP(a, b, c) => seq![
            Arg::Qubit(a),
            Arg::Qubit(b),
            Arg::Qubit(c),
        ],
        IrOp::RZ(q, k) | IrOp::RX(q, k) | IrOp::RY(q, k) | IrOp::Phase(q, k) => seq![
            Arg::Qubit(q),
            Arg::Angle(k),
        ],
        IrOp::CPHASE(a, b, k) => seq![Arg::Qubit(a), Arg::Qubit(b), Arg::Angle(k)],
        IrOp::MCX(m, t) => seq![Arg::Mask(m), Arg::Qubit(t)],
        IrOp::Measure(q, c) | IrOp::MeasureX(q, c) | IrOp::MeasureY(q, c) => seq![
            Arg::Qubit(q),
            Arg::Byte(c),
        ],
        IrOp::SetVal(c, v) => seq![Arg::Byte(c), Arg::Value(v)],
        IrOp::Not(c) => seq![Arg::Byte(c)],
        IrOp::And(a, b) | IrOp::Or(a, b) | IrOp::Xor(a, b) | IrOp::Add(a, b) | IrOp::Sub(a, b) => seq![
            Arg::Byte(a),
            Arg::Byte(b),
        ],
        IrOp::Expect(p) => seq![Arg::Product(p)],
        IrOp::IfEq(c, v, _, _) | IrOp::IfNe(c, v, _, _) => seq![Arg::Byte(c), Arg::Value(v)],
        _ => Seq::empty(),
    }
}

/// Whether a token writes a number down, with a sign in front of it or without.
pub open spec fn writes_number(t: Token, l: Literal, negative: bool) -> bool {
    match t {
        Token::Number(n) => l == (Literal {
            negative,
            whole: n as u64,
            frac_start: 0,
            frac_len: 0,
        }),
        Token::Float(f) => l.negative == negative && l.whole == f.whole && l.frac_start
            == f.frac_start && l.frac_len == f.frac_len,
        _ => false,
    }
}

/// Whether a token writes an operand down.
pub open spec fn writes(t: Token, a: Arg, consts: Seq<Literal>) -> bool {
    match a {
        Arg::Qubit(q) => t == Token::Number(q as u32),
        Arg::Byte(b) => t == Token::ClassicalRef(b as u32),
        Arg::Value(v) => t == Token::Number(v as u32),
        Arg::Angle(k) => k < consts.len() && (t matches Token::Float(f) && consts[k as int] == f
            || t is Number && writes_number(t, consts[k as int], false)),
        Arg::Mask(m) => t == Token::Number(m),
        Arg::Product(p) => t == Token::Pauli(p),
    }
}

/// Whether the tokens `from..to` are the statement of an op: its word, then its operands.
pub open spec fn written(c: Text, from: int, to: int, op: IrOp, consts: Seq<Literal>) -> bool {
    &&& 0 <= from < to <= c.tokens.len()
    &&& to == from + 1 + args_of(op).len()
    &&& is_keyword_of(word_of(op), c.tokens[from])
    &&& forall|k: int|
        0 <= k < args_of(op).len() ==> writes(
            c.tokens[from + 1 + k],
            #[trigger] args_of(op)[k],
            consts,
        )
}

/// Whether nothing changed but the ops, the constants and the place.
spec fn beside(st: Reading, s: Reading) -> bool {
    &&& s.terms == st.terms
    &&& s.bytes == st.bytes
    &&& s.shot == st.shot
    &&& s.gates == st.gates
}

/// What an operand value of a kind says.
spec fn said(k: Operand, v: u64) -> Arg {
    match k {
        Operand::Qubit => Arg::Qubit(v as u8),
        Operand::Cbit => Arg::Byte(v as u8),
        Operand::Angle => Arg::Angle(v as u16),
        Operand::Byte => Arg::Value(v as u8),
        Operand::Observable => Arg::Product(v),
    }
}

proof fn lemma_operand_written(c: Text, k: Operand, st: Reading)
    requires
        0 <= st.pos,
    ensures
        operand(c, k, st) matches Ok((v, s)) ==> {
            &&& beside(st, s)
            &&& s.ops == st.ops
            &&& s.pos == st.pos + 1 <= c.tokens.len()
            &&& writes(c.tokens[st.pos], said(k, v), s.consts)
            &&& st.consts.is_prefix_of(s.consts)
        },
{
    if let Ok((v, s)) = operand(c, k, st) {
        assert(st.consts =~= s.consts.take(st.consts.len() as int));
    }
}

proof fn lemma_writes_grow(t: Token, a: Arg, small: Seq<Literal>, large: Seq<Literal>)
    requires
        writes(t, a, small),
        small.is_prefix_of(large),
    ensures
        writes(t, a, large),
{
}

/// Whether the values of operands are written one after another.
spec fn listed(c: Text, ks: Seq<Operand>, st: Reading, v: Seq<u64>, s: Reading) -> bool {
    &&& beside(st, s)
    &&& s.ops == st.ops
    &&& v.len() == ks.len()
    &&& s.pos == st.pos + ks.len()
    &&& ks.len() > 0 ==> s.pos <= c.tokens.len()
    &&& st.consts.is_prefix_of(s.consts)
    &&& forall|k: int|
        0 <= k < ks.len() ==> writes(c.tokens[st.pos + k], said(ks[k], #[trigger] v[k]), s.consts)
}

proof fn lemma_operands_written(c: Text, ks: Seq<Operand>, st: Reading)
    requires
        0 <= st.pos,
    ensures
        operands(c, ks, st) matches Ok((v, s)) ==> listed(c, ks, st, v, s),
    decreases ks.len(),
{
    if ks.len() > 0 {
        let init = ks.drop_last();
        lemma_operands_written(c, init, st);
        if let Ok((v, s)) = operands(c, init, st) {
            lemma_operand_written(c, ks.last(), s);
            if let Ok((x, s2)) = operand(c, ks.last(), s) {
                let w = v.push(x);
                assert(st.consts.is_prefix_of(s2.consts));
                assert forall|k: int| 0 <= k < ks.len() implies writes(
                    c.tokens[st.pos + k],
                    said(ks[k], #[trigger] w[k]),
                    s2.consts,
                ) by {
                    if k < init.len() {
                        assert(v[k] == w[k]);
                        assert(init[k] == ks[k]);
                        lemma_writes_grow(
                            c.tokens[st.pos + k],
                            said(ks[k], v[k]),
                            s.consts,
                            s2.consts,
                        );
                    }
                }
            }
        }
    }
}

/// Whether a token starts a statement that is one op with a fixed list of operands.
pub open spec fn simple(t: Token) -> bool {
    match t {
        Token::H | Token::X | Token::S | Token::T | Token::Sx | Token::Reset => true,
        Token::Cnot | Token::Swap | Token::Iswap | Token::Cz | Token::Toff | Token::Cswap => true,
        Token::Rz | Token::Rx | Token::Ry | Token::Phase | Token::Cphase | Token::Mcx => true,
        Token::SetVal | Token::Not | Token::And | Token::Or | Token::Xor => true,
        Token::Add | Token::Sub | Token::Expect | Token::Print => true,
        Token::SaveState | Token::SaveAmps | Token::SaveProbs => true,
        _ => false,
    }
}

proof fn lemma_assembled(t: Token, v: Seq<u64>)
    requires
        simple(t),
        t != Token::Mcx,
    ensures
        ({
            let ks = shape(t)->Some_0;
            let op = assembled(t, v);
            &&& shape(t) is Some
            &&& word_of(op) == letters(t)
            &&& args_of(op).len() == ks.len()
            &&& forall|k: int| 0 <= k < ks.len() ==> #[trigger] args_of(op)[k] == said(ks[k], v[k])
        }),
{
}

/// Lowering and spelling are inverse: a statement with a fixed list of operands adds one
/// op, and the statement is the word of that op followed by the operands of that op. An
/// angle is found in the constant pool; nothing else changes.
pub proof fn law_simple_statements_spell_their_op(c: Text, st: Reading, depth: nat)
    requires
        0 <= st.pos < c.tokens.len(),
        simple(c.tokens[st.pos]),
    ensures
        statement(c, st, depth) matches Ok(s) ==> {
            &&& s.ops.len() == st.ops.len() + 1
            &&& s.ops.drop_last() == st.ops
            &&& written(c, st.pos, s.pos, s.ops.last(), s.consts)
            &&& st.consts.is_prefix_of(s.consts)
            &&& s.terms == st.terms
            &&& s.bytes == st.bytes
            &&& s.shot == st.shot
            &&& s.gates == st.gates
        },
{
    let t = c.tokens[st.pos];
    let next = Reading { pos: st.pos + 1, ..st };
    lemma_letters(t);
    if let Ok(s) = statement(c, st, depth) {
        if t == Token::Mcx {
            let there = Reading { pos: st.pos + 2, ..st };
            lemma_operand_written(c, Operand::Qubit, there);
            assert(s.ops.drop_last() =~= st.ops);
            assert(st.consts.is_prefix_of(s.consts));
        } else {
            let ks = shape(t)->Some_0;
            lemma_operands_written(c, ks, next);
            let (v, s1) = operands(c, ks, next)->Ok_0;
            lemma_assembled(t, v);
            let op = assembled(t, v);
            assert(s.ops == st.ops.push(op));
            assert(s.ops.drop_last() =~= st.ops);
            assert forall|k: int| 0 <= k < args_of(op).len() implies writes(
                c.tokens[st.pos + 1 + k],
                #[trigger] args_of(op)[k],
                s.consts,
            ) by {
                assert(writes(c.tokens[next.pos + k], said(ks[k], v[k]), s1.consts));
            }
        }
    }
}

/// Whether the tokens `from..to` write a list of weighted Pauli products: for each the sign,
/// if it is negative, the coefficient and the product.
pub open spec fn writes_terms(c: Text, from: int, to: int, ts: Seq<(Literal, u64)>) -> bool
    decreases ts.len(),
{
    if ts.len() == 0 {
        from == to
    } else {
        let (l, code) = ts[0];
        let at = if l.negative {
            from + 1
        } else {
            from
        };
        &&& 0 <= from
        &&& at + 1 < c.tokens.len()
        &&& l.negative ==> c.tokens[from] == Token::Minus
        &&& writes_number(c.tokens[at], l, l.negative)
        &&& c.tokens[at + 1] == Token::Pauli(code)
        &&& writes_terms(c, at + 2, to, ts.drop_first())
    }
}

proof fn lemma_terms_written(c: Text, st: Reading, n: nat)
    requires
        0 <= st.pos,
    ensures
        estimate_terms(c, st, n) matches Ok((s, m)) ==> {
            let old = st.terms.len() as int;
            &&& s == (Reading { pos: s.pos, terms: s.terms, ..st })
            &&& st.terms.is_prefix_of(s.terms)
            &&& m - n == s.terms.len() - old
            &&& writes_terms(c, st.pos, s.pos, s.terms.subrange(old, s.terms.len() as int))
            &&& tok(c, s.pos) matches Some(t) ==> !(t is Number || t is Float || t is Minus)
            &&& s.pos >= st.pos
        },
    decreases c.tokens.len() - st.pos,
{
    let neg = tok(c, st.pos) == Some(Token::Minus);
    let at = if neg {
        st.pos + 1
    } else {
        st.pos
    };
    let coef = match tok(c, at) {
        Some(Token::Number(x)) => Some(
            Literal { negative: neg, whole: x as u64, frac_start: 0, frac_len: 0 },
        ),
        Some(Token::Float(l)) => Some(Literal { negative: neg, ..l }),
        _ => None,
    };
    if let Ok((s, m)) = estimate_terms(c, st, n) {
        let old = st.terms.len() as int;
        let ts = s.terms.subrange(old, s.terms.len() as int);
        match coef {
            None => {
                assert(ts =~= Seq::empty());
                assert(st.terms.is_prefix_of(s.terms));
            },
            Some(l) => {
                let code = tok(c, at + 1)->Some_0->Pauli_0;
                let mid = Reading { pos: at + 2, terms: st.terms.push((l, code)), ..st };
                lemma_terms_written(c, mid, n + 1);
                assert(mid.terms[old] == (l, code));
                assert(s.terms[old] == mid.terms[old]);
                assert(ts.drop_first() =~= s.terms.subrange(old + 1, s.terms.len() as int));
                assert(ts[0] == (l, code));
                assert(st.terms =~= s.terms.take(old)) by {
                    assert(mid.terms =~= s.terms.take(old + 1));
                    assert forall|k: int| 0 <= k < old implies st.terms[k] == s.terms[k] by {
                        assert(mid.terms[k] == s.terms.take(old + 1)[k]);
                    }
                }
            },
        }
    }
}

/// `ESTIMATE` adds one op, whose slice of the term pool holds exactly the coefficients and
/// products of its own statement, in order; the terms of earlier statements stay.
pub proof fn law_estimates_hold_their_own_terms(c: Text, st: Reading, depth: nat)
    requires
        0 <= st.pos < c.tokens.len(),
        c.tokens[st.pos] == Token::Estimate,
        st.terms.len() <= 0xFFFF,
    ensures
        statement(c, st, depth) matches Ok(s) ==> {
            &&& s.ops.len() == st.ops.len() + 1
            &&& s.ops.drop_last() == st.ops
            &&& s.ops.last() matches IrOp::Estimate(off, len) && {
                &&& off + len == s.terms.len()
                &&& len > 0
                &&& s.terms.subrange(0, off as int) == st.terms
                &&& writes_terms(
                    c,
                    st.pos + 1,
                    s.pos,
                    s.terms.subrange(off as int, off + len),
                )
            }
            &&& tok(c, s.pos) matches Some(t) ==> !(t is Number || t is Float || t is Minus)
            &&& s.consts == st.consts
            &&& s.bytes == st.bytes
            &&& s.shot == st.shot
            &&& s.gates == st.gates
        },
{
    let next = Reading { pos: st.pos + 1, ..st };
    lemma_terms_written(c, next, 0);
    lemma_few_terms(c, next, 0);
    if let Ok(s) = statement(c, st, depth) {
        assert(s.ops.drop_last() =~= st.ops);
        assert(s.terms.subrange(0, st.terms.len() as int) =~= st.terms);
    }
}

proof fn lemma_few_terms(c: Text, st: Reading, n: nat)
    ensures
        estimate_terms(c, st, n) matches Ok((s, m)) ==> s.terms.len() <= MAX_ESTIMATE_TERMS
            || s.terms.len() == st.terms.len(),
    decreases c.tokens.len() - st.pos,
{
    let neg = tok(c, st.pos) == Some(Token::Minus);
    let at = if neg {
        st.pos + 1
    } else {
        st.pos
    };
    let coef = match tok(c, at) {
        Some(Token::Number(x)) => Some(
            Literal { negative: neg, whole: x as u64, frac_start: 0, frac_len: 0 },
        ),
        Some(Token::Float(l)) => Some(Literal { negative: neg, ..l }),
        _ => None,
    };
    if let (Some(l), Some(Token::Pauli(code))) = (coef, tok(c, at + 1)) {
        if st.terms.len() < MAX_ESTIMATE_TERMS {
            lemma_few_terms(
                c,
                Reading { pos: at + 2, terms: st.terms.push((l, code)), ..st },
                n + 1,
            );
        }
    }
}

proof fn lemma_qubits_written(c: Text, pos: int, qs: Seq<u8>)
    requires
        0 <= pos,
        c.nq <= 255,
    ensures
        qubit_list(c, pos, qs) matches Ok((r, p)) ==> {
            &&& qs.is_prefix_of(r)
            &&& r.len() - qs.len() == p - pos
            &&& forall|k: int|
                qs.len() <= k < r.len() ==> tok(c, pos + k - qs.len()) == Some(
                    Token::Number(#[trigger] r[k] as u32),
                )
            &&& !(tok(c, p) matches Some(Token::Number(_)))
        },
    decreases c.tokens.len() - pos,
{
    if let Ok((r, p)) = qubit_list(c, pos, qs) {
        match tok(c, pos) {
            Some(Token::Number(n)) => {
                let more = qs.push(n as u8);
                lemma_qubits_written(c, pos + 1, more);
                assert(more[qs.len() as int] == r[qs.len() as int]);
                assert(qs =~= r.take(qs.len() as int)) by {
                    assert(more =~= r.take(more.len() as int));
                    assert forall|k: int| 0 <= k < qs.len() implies qs[k] == r[k] by {
                        assert(more[k] == r.take(more.len() as int)[k]);
                    }
                }
                assert forall|k: int| qs.len() <= k < r.len() implies tok(c, pos + k - qs.len())
                    == Some(Token::Number(#[trigger] r[k] as u32)) by {
                    if k > qs.len() {
                        assert(tok(c, pos + 1 + k - more.len()) == Some(
                            Token::Number(r[k] as u32),
                        ));
                    }
                }
            },
            _ => {
                assert(qs.is_prefix_of(r));
            },
        }
    }
}

proof fn lemma_targets_written(c: Text, pos: int, cs: Seq<u8>)
    requires
        0 <= pos,
    ensures
        target_list(c, pos, cs) matches Ok((r, p)) ==> {
            &&& cs.is_prefix_of(r)
            &&& r.len() - cs.len() == p - pos
            &&& forall|k: int|
                cs.len() <= k < r.len() ==> tok(c, pos + k - cs.len()) == Some(
                    Token::ClassicalRef(#[trigger] r[k] as u32),
                )
            &&& !(tok(c, p) matches Some(Token::ClassicalRef(_)))
        },
    decreases c.tokens.len() - pos,
{
    if let Ok((r, p)) = target_list(c, pos, cs) {
        match tok(c, pos) {
            Some(Token::ClassicalRef(n)) => {
                let more = cs.push(n as u8);
                lemma_targets_written(c, pos + 1, more);
                assert(more[cs.len() as int] == r[cs.len() as int]);
                assert(cs =~= r.take(cs.len() as int)) by {
                    assert(more =~= r.take(more.len() as int));
                    assert forall|k: int| 0 <= k < cs.len() implies cs[k] == r[k] by {
                        assert(more[k] == r.take(more.len() as int)[k]);
                    }
                }
                assert forall|k: int| cs.len() <= k < r.len() implies tok(c, pos + k - cs.len())
                    == Some(Token::ClassicalRef(#[trigger] r[k] as u32)) by {
                    if k > cs.len() {
                        assert(tok(c, pos + 1 + k - more.len()) == Some(
                            Token::ClassicalRef(r[k] as u32),
                        ));
                    }
                }
            },
            _ => {
                assert(cs.is_prefix_of(r));
            },
        }
    }
}

/// Whether a number of bytes is the least that holds the bytes before and all targets.
pub open spec fn holds_targets(before: u8, after: u8, cs: Seq<u8>) -> bool {
    &&& before <= after
    &&& forall|k: int| 0 <= k < cs.len() ==> #[trigger] cs[k] < after
    &&& after == before || exists|k: int| 0 <= k < cs.len() && #[trigger] cs[k] + 1 == after
}

proof fn lemma_measures_bytes(st: Reading, t: Token, qs: Seq<u8>, cs: Seq<u8>, k: nat)
    requires
        k <= qs.len(),
        k <= cs.len(),
        forall|i: int| 0 <= i < cs.len() ==> #[trigger] cs[i] < 255,
    ensures
        measures(st, t, qs, cs, k) matches Ok(s) ==> {
            &&& holds_targets(st.bytes, s.bytes, cs.take(k as int))
            &&& s == (Reading { ops: s.ops, bytes: s.bytes, ..st })
        },
    decreases k,
{
    if k > 0 {
        let j = (k - 1) as nat;
        lemma_measures_bytes(st, t, qs, cs, j);
        if let (Ok(s0), Ok(s)) = (measures(st, t, qs, cs, j), measures(st, t, qs, cs, k)) {
            let (a, b) = (cs.take(j as int), cs.take(k as int));
            assert(b[j as int] == cs[j as int]);
            assert forall|i: int| 0 <= i < b.len() implies #[trigger] b[i] < s.bytes by {
                if i < j {
                    assert(a[i] == b[i]);
                }
            }
            if s.bytes != st.bytes && s.bytes == s0.bytes {
                let i = choose|i: int| 0 <= i < a.len() && #[trigger] a[i] + 1 == s0.bytes;
                assert(b[i] == a[i]);
            }
        }
    }
}

/// Whether a token is one of the three words for measuring.
pub open spec fn measuring(t: Token) -> bool {
    t == Token::Measure || t == Token::MeasureX || t == Token::MeasureY
}

proof fn lemma_measurement_word(t: Token, q: u8, b: u8)
    requires
        measuring(t),
    ensures
        is_keyword_of(word_of(measurement(t, q, b)), t),
        args_of(measurement(t, q, b)) == seq![Arg::Qubit(q), Arg::Byte(b)],
{
    lemma_letters(t);
}

/// The lists of a measurement and what they leave behind.
proof fn lemma_measure_lists(c: Text, t: Token, st: Reading) -> (lists: (Seq<u8>, Seq<u8>))
    requires
        0 <= st.pos,
        c.nq <= 254,
        measure(c, t, st) is Ok,
    ensures
        ({
            let s = measure(c, t, st)->Ok_0;
            let (qs, cs) = lists;
            let n = qs.len() as int;
            let arrow = tok(c, st.pos + n) == Some(Token::Arrow);
            &&& n >= 1
            &&& cs.len() == n
            &&& s.ops == st.ops + Seq::new(n as nat, |i: int| measurement(t, qs[i], cs[i]))
            &&& s == (Reading { pos: s.pos, ops: s.ops, bytes: s.bytes, ..st })
            &&& holds_targets(st.bytes, s.bytes, cs)
            &&& forall|k: int|
                0 <= k < n ==> tok(c, st.pos + k) == Some(Token::Number(#[trigger] qs[k] as u32))
            &&& !(tok(c, st.pos + n) matches Some(Token::Number(_)))
            &&& s.pos == if arrow {
                st.pos + 2 * n + 1
            } else {
                st.pos + n
            }
            &&& !arrow ==> cs == qs
            &&& arrow ==> forall|k: int|
                0 <= k < n ==> tok(c, st.pos + n + 1 + k) == Some(
                    Token::ClassicalRef(#[trigger] cs[k] as u32),
                )
            &&& arrow ==> !(tok(c, s.pos) matches Some(Token::ClassicalRef(_)))
        }),
{
    let s = measure(c, t, st)->Ok_0;
    let first = operand(c, Operand::Qubit, st)->Ok_0.0 as u8;
    let one = seq![first];
    lemma_qubits_written(c, st.pos + 1, one);
    let (qs, p) = qubit_list(c, st.pos + 1, one)->Ok_0;
    assert(qs[0] == one[0]) by {
        assert(one =~= qs.take(1));
    }
    assert forall|k: int| 0 <= k < qs.len() implies tok(c, st.pos + k) == Some(
        Token::Number(#[trigger] qs[k] as u32),
    ) by {
        if k > 0 {
            assert(tok(c, st.pos + 1 + k - one.len()) == Some(Token::Number(qs[k] as u32)));
        }
    }
    let n = qs.len();
    let arrow = tok(c, p) == Some(Token::Arrow);
    let (cs, p2) = if arrow {
        target_list(c, p + 1, Seq::empty())->Ok_0
    } else {
        (qs, p)
    };
    lemma_targets_written(c, p + 1, Seq::empty());
    lemma_small_lists(c, st.pos + 1, one);
    lemma_small_lists(c, p + 1, Seq::empty());
    let here = Reading { pos: p2, ..st };
    law_measure_lists_are_sequences(here, t, qs, cs, n);
    lemma_measures_bytes(here, t, qs, cs, n);
    assert(cs.take(n as int) =~= cs);
    if arrow {
        assert forall|k: int| 0 <= k < n implies tok(c, st.pos + n + 1 + k) == Some(
            Token::ClassicalRef(#[trigger] cs[k] as u32),
        ) by {
            assert(tok(c, p + 1 + k - Seq::<u8>::empty().len()) == Some(
                Token::ClassicalRef(cs[k] as u32),
            ));
        }
    }
    (qs, cs)
}

/// A measurement of `n` qubits adds `n` ops of the word it starts with. The `k`th measures
/// the `k`th qubit that is written, into the `k`th byte that is written behind the arrow,
/// or, without an arrow, into the byte of the same number. Both lists are read to their
/// ends, and the number of classical bytes grows to hold the targets.
pub proof fn law_measurements_spell_their_ops(c: Text, st: Reading, depth: nat)
    requires
        0 <= st.pos < c.tokens.len(),
        measuring(c.tokens[st.pos]),
        c.nq <= 254,
    ensures
        statement(c, st, depth) matches Ok(s) ==> {
            let n = s.ops.len() - st.ops.len();
            let at = st.pos + 1;
            let arrow = tok(c, at + n) == Some(Token::Arrow);
            &&& n >= 1
            &&& st.ops.is_prefix_of(s.ops)
            &&& forall|k: int|
                0 <= k < n ==> {
                    let op = #[trigger] s.ops[st.ops.len() + k];
                    &&& is_keyword_of(word_of(op), c.tokens[st.pos])
                    &&& args_of(op).len() == 2
                    &&& args_of(op)[0] matches Arg::Qubit(q) && args_of(op)[1] matches Arg::Byte(
                        b,
                    ) && {
                        &&& tok(c, at + k) == Some(Token::Number(q as u32))
                        &&& b < s.bytes
                        &&& if arrow {
                            tok(c, at + n + 1 + k) == Some(Token::ClassicalRef(b as u32))
                        } else {
                            b == q
                        }
                    }
                }
            &&& !(tok(c, at + n) matches Some(Token::Number(_)))
            &&& s.pos == if arrow {
                at + 2 * n + 1
            } else {
                at + n
            }
            &&& arrow ==> !(tok(c, s.pos) matches Some(Token::ClassicalRef(_)))
            &&& st.bytes <= s.bytes
            &&& s.bytes == st.bytes || exists|k: int|
                0 <= k < n && args_of(#[trigger] s.ops[st.ops.len() + k])[1] == Arg::Byte(
                    (s.bytes - 1) as u8,
                )
            &&& s.consts == st.consts
            &&& s.terms == st.terms
            &&& s.shot == st.shot
            &&& s.gates == st.gates
        },
{
    let t = c.tokens[st.pos];
    let next = Reading { pos: st.pos + 1, ..st };
    assert(statement(c, st, depth) == measure(c, t, next));
    if let Ok(s) = statement(c, st, depth) {
        let (qs, cs) = lemma_measure_lists(c, t, next);
        let n = s.ops.len() - st.ops.len();
        assert(st.ops =~= s.ops.take(st.ops.len() as int));
        assert forall|k: int| 0 <= k < n implies #[trigger] s.ops[st.ops.len() + k] == measurement(
            t,
            qs[k],
            cs[k],
        ) && is_keyword_of(word_of(s.ops[st.ops.len() + k]), t) && args_of(s.ops[st.ops.len() + k])
            == seq![Arg::Qubit(qs[k]), Arg::Byte(cs[k])] by {
            lemma_measurement_word(t, qs[k], cs[k]);
        }
        if s.bytes != st.bytes {
            let k = choose|k: int| 0 <= k < cs.len() && #[trigger] cs[k] + 1 == s.bytes;
            assert(args_of(s.ops[st.ops.len() + k])[1] == Arg::Byte(cs[k]));
        }
    }
}

proof fn lemma_small_lists(c: Text, pos: int, l: Seq<u8>)
    requires
        forall|k: int| 0 <= k < l.len() ==> #[trigger] l[k] < 255,
        c.nq <= 254,
    ensures
        qubit_list(c, pos, l) matches Ok((r, _)) ==> forall|k: int|
            0 <= k < r.len() ==> #[trigger] r[k] < 255,
        target_list(c, pos, l) matches Ok((r, _)) ==> forall|k: int|
            0 <= k < r.len() ==> #[trigger] r[k] < 255,
    decreases c.tokens.len() - pos,
{
    match tok(c, pos) {
        Some(Token::Number(n)) => if n < c.nq {
            lemma_small_lists(c, pos + 1, l.push(n as u8));
        },
        Some(Token::ClassicalRef(n)) => if n < MAX_CLASSICAL {
            lemma_small_lists(c, pos + 1, l.push(n as u8));
        },
        _ => {},
    }
}

proof fn lemma_found_first(gates: Seq<GateView>, name: Seq<u8>, from: int)
    requires
        0 <= from,
        gates.len() <= 0xFFFF,
    ensures
        match found(gates, name, from) {
            Some(id) => {
                &&& from <= id < gates.len()
                &&& gates[id as int].name == name
                &&& forall|k: int| from <= k < id ==> (#[trigger] gates[k]).name != name
            },
            None => forall|k: int| from <= k < gates.len() ==> (#[trigger] gates[k]).name != name,
        },
    decreases gates.len() - from,
{
    if from < gates.len() && gates[from].name != name {
        lemma_found_first(gates, name, from + 1);
    }
}

/// A call adds one op: it refers to that gate whose name it starts with, its arguments are
/// the qubits that are written, one for each parameter, and unused arguments
/// are marked. A name that no gate has is refused.
pub proof fn law_calls_spell_their_op(c: Text, st: Reading, depth: nat)
    requires
        0 <= st.pos < c.tokens.len(),
        c.tokens[st.pos] == Token::Ident,
        st.gates.len() <= 0xFFFF,
    ensures
        statement(c, st, depth) matches Ok(s) ==> {
            &&& s.ops.len() == st.ops.len() + 1
            &&& s.ops.drop_last() == st.ops
            &&& s.ops.last() matches IrOp::Call(id, a0, a1, a2) && {
                let np = st.gates[id as int].nparams;
                &&& id < st.gates.len()
                &&& st.gates[id as int].name == c.names[st.pos]
                &&& np <= 3 ==> s.pos == st.pos + 1 + np
                &&& if np > 0 {
                    tok(c, st.pos + 1) == Some(Token::Number(a0 as u32))
                } else {
                    a0 == 0xFF
                }
                &&& if np > 1 {
                    tok(c, st.pos + 2) == Some(Token::Number(a1 as u32))
                } else {
                    a1 == 0xFF
                }
                &&& if np > 2 {
                    tok(c, st.pos + 3) == Some(Token::Number(a2 as u32))
                } else {
                    a2 == 0xFF
                }
            }
            &&& s.consts == st.consts
            &&& s.terms == st.terms
            &&& s.bytes == st.bytes
            &&& s.shot == st.shot
            &&& s.gates == st.gates
        },
        (forall|k: int| 0 <= k < st.gates.len() ==> (#[trigger] st.gates[k]).name != c.names[st.pos])
            ==> statement(c, st, depth) is Err,
{
    let next = Reading { pos: st.pos + 1, ..st };
    lemma_found_first(st.gates, c.names[st.pos], 0);
    if let Some(id) = found(st.gates, c.names[st.pos], 0) {
        let np = st.gates[id as int].nparams;
        let ks = Seq::new(np as nat, |k: int| Operand::Qubit);
        lemma_operands_written(c, ks, next);
        lemma_qubit_consts(c, ks, next);
        if let Ok((v, s1)) = operands(c, ks, next) {
            assert forall|k: int| 0 <= k < np implies tok(c, st.pos + 1 + k) == Some(
                Token::Number(#[trigger] v[k] as u8 as u32),
            ) by {
                assert(writes(c.tokens[next.pos + k], said(ks[k], v[k]), s1.consts));
            }
            if let Ok(s) = statement(c, st, depth) {
                assert(s.ops.drop_last() =~= st.ops);
                if np > 0 {
                    assert(tok(c, st.pos + 1 + 0) == Some(Token::Number(v[0] as u8 as u32)));
                }
                if np > 1 {
                    assert(tok(c, st.pos + 1 + 1) == Some(Token::Number(v[1] as u8 as u32)));
                }
                if np > 2 {
                    assert(tok(c, st.pos + 1 + 2) == Some(Token::Number(v[2] as u8 as u32)));
                }
            }
        }
    }
}

proof fn lemma_qubit_consts(c: Text, ks: Seq<Operand>, st: Reading)
    requires
        forall|k: int| 0 <= k < ks.len() ==> #[trigger] ks[k] == Operand::Qubit,
    ensures
        operands(c, ks, st) matches Ok((v, s)) ==> s.consts == st.consts,
    decreases ks.len(),
{
    if ks.len() > 0 {
        lemma_qubit_consts(c, ks.drop_last(), st);
    }
}

proof fn lemma_gate_end_is_first(c: Text, pos: int)
    requires
        0 <= pos,
    ensures
        pos <= gate_end(c, pos),
        forall|k: int|
            pos <= k < gate_end(c, pos) ==> k < c.tokens.len() && #[trigger] c.tokens[k]
                != Token::Endgate,
    decreases c.tokens.len() - pos,
{
    match tok(c, pos) {
        None => {},
        Some(Token::Endgate) | Some(Token::End) | Some(Token::Halt) | Some(Token::Eof) => {},
        _ => lemma_gate_end_is_first(c, pos + 1),
    }
}

proof fn lemma_newlines_skipped(c: Text, pos: int)
    requires
        0 <= pos,
    ensures
        pos <= past_newlines(c, pos),
        forall|k: int|
            pos <= k < past_newlines(c, pos) ==> k < c.tokens.len() && #[trigger] c.tokens[k]
                == Token::Newline,
        tok(c, past_newlines(c, pos)) != Some(Token::Newline),
    decreases c.tokens.len() - pos,
{
    if tok(c, pos) == Some(Token::Newline) {
        lemma_newlines_skipped(c, pos + 1);
    }
}

/// A gate definition adds a gate and no op: it has the name and the number of
/// parameters that are written, its body starts behind the line ends that follow, and
/// reading goes on behind the first `ENDGATE`. No two gates have the same name.
pub proof fn law_definitions_spell_their_gate(c: Text, st: Reading, depth: nat)
    requires
        0 <= st.pos < c.tokens.len(),
        c.tokens[st.pos] == Token::Gate,
        st.gates.len() <= 0xFFFF,
    ensures
        statement(c, st, depth) matches Ok(s) ==> {
            let g = s.gates.last();
            &&& !c.sub
            &&& s.gates.len() == st.gates.len() + 1
            &&& s.gates.drop_last() == st.gates
            &&& tok(c, st.pos + 1) == Some(Token::Ident)
            &&& g.name == c.names[st.pos + 1]
            &&& tok(c, st.pos + 2) == Some(Token::Number(g.nparams as u32))
            &&& 1 <= g.nparams <= 3
            &&& forall|k: int| 0 <= k < st.gates.len() ==> (#[trigger] st.gates[k]).name != g.name
            &&& st.pos + 3 <= g.start < s.pos
            &&& forall|k: int| st.pos + 3 <= k < g.start ==> #[trigger] c.tokens[k] == Token::Newline
            &&& c.tokens[g.start] != Token::Newline
            &&& tok(c, s.pos - 1) == Some(Token::Endgate)
            &&& forall|k: int| g.start <= k < s.pos - 1 ==> #[trigger] c.tokens[k] != Token::Endgate
            &&& s.ops == st.ops
            &&& s.consts == st.consts
            &&& s.terms == st.terms
            &&& s.bytes == st.bytes
            &&& s.shot == st.shot
        },
{
    if let Ok(s) = statement(c, st, depth) {
        lemma_found_first(st.gates, c.names[st.pos + 1], 0);
        lemma_newlines_skipped(c, st.pos + 3);
        lemma_gate_end_is_first(c, past_newlines(c, st.pos + 3));
        assert(s.gates.drop_last() =~= st.gates);
    }
}

/// Whether a reading kept all that an earlier one had produced.
pub open spec fn adds_to(st: Reading, s: Reading) -> bool {
    &&& st.ops.is_prefix_of(s.ops)
    &&& st.consts.is_prefix_of(s.consts)
    &&& st.terms.is_prefix_of(s.terms)
    &&& st.gates.is_prefix_of(s.gates)
    &&& st.bytes <= s.bytes
    &&& st.shot ==> s.shot
}

proof fn lemma_prefixes<T>(a: Seq<T>, b: Seq<T>, d: Seq<T>, x: T)
    ensures
        a.is_prefix_of(a),
        a.is_prefix_of(a.push(x)),
        a.is_prefix_of(b) && b.is_prefix_of(d) ==> a.is_prefix_of(d),
{
    assert(a =~= a.take(a.len() as int));
    assert(a =~= a.push(x).take(a.len() as int));
    if a.is_prefix_of(b) && b.is_prefix_of(d) {
        assert(a =~= d.take(a.len() as int)) by {
            assert forall|k: int| 0 <= k < a.len() implies a[k] == d[k] by {
                assert(a[k] == b.take(a.len() as int)[k]);
                assert(b[k] == d.take(b.len() as int)[k]);
            }
        }
    }
}

proof fn lemma_adds(a: Reading, b: Reading, d: Reading)
    ensures
        adds_to(a, a),
        adds_to(a, b) && adds_to(b, d) ==> adds_to(a, d),
{
    lemma_prefixes(a.ops, b.ops, d.ops, IrOp::Print);
    lemma_prefixes(a.consts, b.consts, d.consts, arbitrary());
    lemma_prefixes(a.terms, b.terms, d.terms, arbitrary());
    lemma_prefixes(a.gates, b.gates, d.gates, arbitrary());
}

proof fn lemma_emitted_adds(st: Reading, op: IrOp)
    ensures
        emitted(st, op) matches Ok(s) ==> adds_to(st, s),
{
    lemma_prefixes(st.ops, st.ops, st.ops, op);
    lemma_adds(st, st, st);
}

proof fn lemma_operand_adds(c: Text, k: Operand, st: Reading)
    ensures
        operand(c, k, st) matches Ok((_, s)) ==> adds_to(st, s),
{
    lemma_adds(st, st, st);
    if let Ok((_, s)) = operand(c, k, st) {
        assert(st.consts =~= s.consts.take(st.consts.len() as int));
    }
}

proof fn lemma_operands_add(c: Text, ks: Seq<Operand>, st: Reading)
    ensures
        operands(c, ks, st) matches Ok((_, s)) ==> adds_to(st, s),
    decreases ks.len(),
{
    lemma_adds(st, st, st);
    if ks.len() > 0 {
        lemma_operands_add(c, ks.drop_last(), st);
        if let Ok((_, s)) = operands(c, ks.drop_last(), st) {
            lemma_operand_adds(c, ks.last(), s);
            if let Ok((_, s2)) = operand(c, ks.last(), s) {
                lemma_adds(st, s, s2);
            }
        }
    }
}

proof fn lemma_estimate_adds(c: Text, st: Reading, n: nat)
    ensures
        estimate_terms(c, st, n) matches Ok((s, _)) ==> adds_to(st, s),
    decreases c.tokens.len() - st.pos,
{
    lemma_adds(st, st, st);
    let neg = tok(c, st.pos) == Some(Token::Minus);
    let at = if neg {
        st.pos + 1
    } else {
        st.pos
    };
    let coef = match tok(c, at) {
        Some(Token::Number(x)) => Some(
            Literal { negative: neg, whole: x as u64, frac_start: 0, frac_len: 0 },
        ),
        Some(Token::Float(l)) => Some(Literal { negative: neg, ..l }),
        _ => None,
    };
    if let (Some(l), Some(Token::Pauli(code))) = (coef, tok(c, at + 1)) {
        let mid = Reading { pos: at + 2, terms: st.terms.push((l, code)), ..st };
        lemma_estimate_adds(c, mid, n + 1);
        lemma_prefixes(st.terms, st.terms, st.terms, (l, code));
        assert(adds_to(st, mid));
        if let Ok((s, _)) = estimate_terms(c, mid, n + 1) {
            lemma_adds(st, mid, s);
        }
    }
}

proof fn lemma_measures_add(st: Reading, t: Token, qs: Seq<u8>, cs: Seq<u8>, k: nat)
    requires
        k <= cs.len(),
        forall|i: int| 0 <= i < cs.len() ==> #[trigger] cs[i] < 255,
    ensures
        measures(st, t, qs, cs, k) matches Ok(s) ==> adds_to(st, s),
    decreases k,
{
    lemma_adds(st, st, st);
    if k > 0 {
        lemma_measures_add(st, t, qs, cs, (k - 1) as nat);
        if let Ok(s) = measures(st, t, qs, cs, (k - 1) as nat) {
            let (q, b) = (qs[k - 1], cs[k - 1]);
            let mid = Reading {
                bytes: if b >= s.bytes {
                    (b + 1) as u8
                } else {
                    s.bytes
                },
                ..s
            };
            lemma_adds(s, s, s);
            assert(adds_to(s, mid));
            lemma_emitted_adds(mid, measurement(t, q, b));
            if let Ok(s2) = emitted(mid, measurement(t, q, b)) {
                lemma_adds(s, mid, s2);
                lemma_adds(st, s, s2);
            }
        }
    }
}

proof fn lemma_flat_adds(c: Text, t: Token, st: Reading)
    requires
        c.nq <= 254,
    ensures
        flat(c, t, st) matches Ok(s) ==> adds_to(st, s),
{
    lemma_adds(st, st, st);
    match shape(t) {
        Some(ks) => {
            lemma_operands_add(c, ks, st);
            if let Ok((v, s1)) = operands(c, ks, st) {
                lemma_emitted_adds(s1, assembled(t, v));
                if let Ok(s) = emitted(s1, assembled(t, v)) {
                    lemma_adds(st, s1, s);
                }
            }
        },
        None => match t {
            Token::Mcx => {
                if let Ok(s) = mcx(c, st) {
                    lemma_prefixes(st.ops, st.ops, st.ops, s.ops.last());
                    assert(s.ops == st.ops.push(s.ops.last()));
                }
            },
            Token::Estimate => {
                lemma_estimate_adds(c, st, 0);
                if let Ok((s1, n)) = estimate_terms(c, st, 0) {
                    let op = IrOp::Estimate(st.terms.len() as u16, n as u16);
                    lemma_prefixes(s1.ops, s1.ops, s1.ops, op);
                    lemma_adds(s1, s1, s1);
                    if let Ok(s) = estimate(c, st) {
                        assert(s.ops == s1.ops.push(s.ops.last()));
                        lemma_prefixes(s1.ops, s1.ops, s1.ops, s.ops.last());
                        lemma_adds(st, s1, s);
                    }
                }
            },
            Token::Measure | Token::MeasureX | Token::MeasureY => {
                if let Ok((first, s1)) = operand(c, Operand::Qubit, st) {
                    let one = seq![first as u8];
                    lemma_small_lists(c, s1.pos, one);
                    if let Ok((qs, p)) = qubit_list(c, s1.pos, one) {
                        lemma_small_lists(c, p + 1, Seq::empty());
                        lemma_measures_add(Reading { pos: p, ..s1 }, t, qs, qs, qs.len());
                        if let Ok((cs, p2)) = target_list(c, p + 1, Seq::empty()) {
                            if cs.len() == qs.len() {
                                lemma_measures_add(
                                    Reading { pos: p2, ..s1 },
                                    t,
                                    qs,
                                    cs,
                                    qs.len(),
                                );
                            }
                        }
                    }
                }
            },
            Token::Gate => {
                if let Ok(s) = gate_def(c, st) {
                    assert(s.gates == st.gates.push(s.gates.last()));
                    lemma_prefixes(st.gates, st.gates, st.gates, s.gates.last());
                }
            },
            Token::Ident => {
                if let Some(id) = found(st.gates, c.names[st.pos - 1], 0) {
                    let np = st.gates[id as int].nparams;
                    let ks = Seq::new(np as nat, |k: int| Operand::Qubit);
                    lemma_operands_add(c, ks, st);
                    if let Ok((v, s1)) = operands(c, ks, st) {
                        if let Ok(s) = gate_call(c, st) {
                            assert(s.ops == s1.ops.push(s.ops.last()));
                            lemma_emitted_adds(s1, s.ops.last());
                            lemma_adds(st, s1, s);
                        }
                    }
                }
            },
            _ => {},
        },
    }
}

proof fn lemma_block_adds(c: Text, h: Head, from: int, st: Reading, depth: nat)
    requires
        c.nq <= 254,
    ensures
        block(c, h, from, st, depth) matches Ok(s) ==> adds_to(st, s) && s.ops.len()
            > st.ops.len(),
    decreases left(c, from), 0int,
{
    if let Ok(s0) = opened(st) {
        lemma_emitted_adds(st, IrOp::Print);
        if 0 <= from < s0.pos <= c.tokens.len() {
            law_statements_only_add(c, s0, depth + 1, 2);
            if let Ok(r) = body(c, s0, depth + 1) {
                lemma_adds(st, s0, r);
                if let Ok(s) = closed(c, h, st.ops.len() as int, r) {
                    assert(st.ops =~= s.ops.take(st.ops.len() as int)) by {
                        assert forall|k: int| 0 <= k < st.ops.len() implies st.ops[k]
                            == s.ops[k] by {
                            assert(st.ops[k] == r.ops.take(st.ops.len() as int)[k]);
                        }
                    }
                }
            }
        }
    }
}

/// Reading only adds: a statement, a run of statements or a body leaves the ops, the
/// constants, the terms and the gates that were there as they are.
pub proof fn law_statements_only_add(c: Text, st: Reading, depth: nat, which: int)
    requires
        c.nq <= 254,
        0 <= which <= 2,
    ensures
        which == 0 ==> (statement(c, st, depth) matches Ok(s) ==> adds_to(st, s)),
        which == 1 ==> (statements(c, st, depth) matches Ok(s) ==> adds_to(st, s)),
        which == 2 ==> (body(c, st, depth) matches Ok(s) ==> adds_to(st, s)),
    decreases left(c, st.pos), which + 1,
{
    lemma_adds(st, st, st);
    if which == 2 {
        law_statements_only_add(c, st, depth, 1);
    } else if which == 1 {
        if let Some(t) = tok(c, st.pos) {
            if t == Token::Newline {
                let next = Reading { pos: st.pos + 1, ..st };
                law_statements_only_add(c, next, depth, 1);
                if let Ok(s) = statements(c, next, depth) {
                    lemma_adds(st, next, s);
                }
            } else if !ends_block(t) {
                law_statements_only_add(c, st, depth, 0);
                if let Ok(s) = statement(c, st, depth) {
                    if s.pos > st.pos {
                        law_statements_only_add(c, s, depth, 1);
                        if let Ok(r) = statements(c, s, depth) {
                            lemma_adds(st, s, r);
                        }
                    }
                }
            }
        }
    } else {
        let t = match tok(c, st.pos) {
            Some(t) => t,
            None => Token::Error,
        };
        match t {
            Token::If => {
                if let Ok((h, p)) = if_head(c, st.pos + 1) {
                    lemma_block_adds(c, h, st.pos, Reading { pos: p, ..st }, depth);
                }
            },
            Token::Shot => {
                if let Ok((count, p, bare)) = shot_head(c, st.pos + 1) {
                    let start = Reading { pos: p, ..st };
                    if bare {
                        if let Ok(s) = bare_shot(c, count, start) {
                            assert(s.ops == st.ops.push(s.ops.last()));
                            lemma_prefixes(st.ops, st.ops, st.ops, s.ops.last());
                        }
                    } else {
                        lemma_block_adds(c, Head::Repeat(count), st.pos, start, depth);
                    }
                }
            },
            _ => lemma_flat_adds(c, t, Reading { pos: st.pos + 1, ..st }),
        }
    }
}

proof fn lemma_block_unfolded(c: Text, h: Head, from: int, st: Reading, depth: nat)
    requires
        c.nq <= 254,
        block(c, h, from, st, depth) is Ok,
    ensures
        ({
            let r = body(c, Reading { ops: st.ops.push(IrOp::Print), ..st }, depth + 1);
            &&& r is Ok
            &&& block(c, h, from, st, depth) == closed(c, h, st.ops.len() as int, r->Ok_0)
            &&& st.ops.len() < r->Ok_0.ops.len()
        }),
{
    let s0 = Reading { ops: st.ops.push(IrOp::Print), ..st };
    law_statements_only_add(c, s0, depth + 1, 2);
}

/// A branch adds an op that compares the byte with the value that are written, for equality
/// after `==` and for difference after `!=`, and whose body is all that the statements up
/// to `ENDIF` are lowered to.
pub proof fn law_branches_spell_their_op(c: Text, st: Reading, depth: nat)
    requires
        0 <= st.pos < c.tokens.len(),
        c.tokens[st.pos] == Token::If,
        c.nq <= 254,
    ensures
        statement(c, st, depth) matches Ok(s) ==> {
            let slot = st.ops.len() as int;
            let from = past_newlines(c, st.pos + 5);
            &&& body(
                c,
                Reading { pos: from, ops: st.ops.push(IrOp::Print), ..st },
                depth + 1,
            ) matches Ok(r) && {
                &&& s.ops.len() == r.ops.len()
                &&& forall|k: int| 0 <= k < r.ops.len() && k != slot ==> #[trigger] s.ops[k]
                    == r.ops[k]
                &&& tok(c, r.pos) == Some(Token::Endif)
                &&& s.pos == r.pos + 1
                &&& s.consts == r.consts
                &&& s.terms == r.terms
                &&& s.bytes == r.bytes
                &&& s.shot == r.shot
                &&& s.gates == r.gates
            }
            &&& slot < s.ops.len()
            &&& s.ops.len() <= 0xFFFF ==> {
                let op = s.ops[slot];
                &&& args_of(op).len() == 2
                &&& args_of(op)[0] matches Arg::Byte(b) && tok(c, st.pos + 1) == Some(
                    Token::ClassicalRef(b as u32),
                )
                &&& args_of(op)[1] matches Arg::Value(v) && tok(c, st.pos + 3) == Some(
                    Token::Number(v as u32),
                )
                &&& tok(c, st.pos + 4) == Some(Token::Then)
                &&& match op {
                    IrOp::IfEq(_, _, off, len) => tok(c, st.pos + 2) == Some(Token::Equals) && off
                        == slot + 1 && off + len == s.ops.len(),
                    IrOp::IfNe(_, _, off, len) => tok(c, st.pos + 2) == Some(Token::Ne) && off
                        == slot + 1 && off + len == s.ops.len(),
                    _ => false,
                }
            }
        },
{
    if let Ok(s) = statement(c, st, depth) {
        let (h, p) = if_head(c, st.pos + 1)->Ok_0;
        let start = Reading { pos: p, ..st };
        assert(statement(c, st, depth) == block(c, h, st.pos, start, depth));
        lemma_block_unfolded(c, h, st.pos, start, depth);
    }
}

/// A repetition adds an op with the number that is written, at least one, and marks the
/// program as sampling by itself. If a statement follows, the body is all that the
/// statements up to `ENDSHOT` are lowered to; else the op stands alone.
pub proof fn law_repetitions_spell_their_op(c: Text, st: Reading, depth: nat)
    requires
        0 <= st.pos < c.tokens.len(),
        c.tokens[st.pos] == Token::Shot,
        c.nq <= 254,
    ensures
        statement(c, st, depth) matches Ok(s) ==> {
            let slot = st.ops.len() as int;
            let from = past_newlines(c, st.pos + 2);
            &&& s.shot
            &&& slot < s.ops.len()
            &&& s.ops.len() <= 0xFFFF ==> {
                &&& s.ops[slot] matches IrOp::Shot(count, off, len) && {
                    &&& count >= 1
                    &&& tok(c, st.pos + 1) == Some(Token::Number(count)) || count == 1 && tok(
                        c,
                        st.pos + 1,
                    ) == Some(Token::Number(0))
                    &&& (tok(c, from) matches Some(t) && body_start(t)) ==> off == slot + 1 && off
                        + len == s.ops.len()
                    &&& !(tok(c, from) matches Some(t) && body_start(t)) ==> off == 0 && len == 0
                        && s.ops.len() == slot + 1
                }
            }
            &&& (tok(c, from) matches Some(t) && body_start(t)) ==> {
                &&& body(
                    c,
                    Reading { pos: from, ops: st.ops.push(IrOp::Print), ..st },
                    depth + 1,
                ) matches Ok(r) && {
                    &&& s.ops.len() == r.ops.len()
                    &&& forall|k: int| 0 <= k < r.ops.len() && k != slot ==> #[trigger] s.ops[k]
                        == r.ops[k]
                    &&& tok(c, r.pos) == Some(Token::Endshot)
                    &&& s.pos == r.pos + 1
                    &&& s.consts == r.consts
                    &&& s.terms == r.terms
                    &&& s.bytes == r.bytes
                    &&& s.gates == r.gates
                }
            }
            &&& !(tok(c, from) matches Some(t) && body_start(t)) ==> {
                &&& s.ops == st.ops.push(IrOp::Shot(s.ops.last()->Shot_0, 0, 0))
                &&& s.pos == if tok(c, from) == Some(Token::Endshot) {
                    from + 1
                } else {
                    from
                }
                &&& s.consts == st.consts
                &&& s.terms == st.terms
                &&& s.bytes == st.bytes
                &&& s.gates == st.gates
            }
        },
{
    if let Ok(s) = statement(c, st, depth) {
        let (count, p, bare) = shot_head(c, st.pos + 1)->Ok_0;
        let start = Reading { pos: p, ..st };
        if !bare {
            let h = Head::Repeat(count);
            assert(statement(c, st, depth) == block(c, h, st.pos, start, depth));
            lemma_block_unfolded(c, h, st.pos, start, depth);
        }
    }
}

/// What makes the body of a repetition: any word that starts a statement but `PRINT`, or the
/// name of a gate.
pub proof fn law_statements_make_a_body(t: Token)
    ensures
        body_start(t) <==> t == Token::Ident || is_word(t) && !(t is Qubits || t is Then || t
            is Endif || t is Endshot || t is Endgate || t is End || t is Halt || t is Print),
{
}

/// Whether an operand is in range.
pub open spec fn arg_in_range(c: Text, at: int, a: Arg) -> bool {
    match a {
        Arg::Qubit(q) => q < c.nq,
        Arg::Byte(b) => b < 64,
        Arg::Product(p) => c.tops[at] < c.nq && forall|q: u64|
            q < 32 && q >= c.nq ==> #[trigger] ((p >> (2 * q) as u64) & 3) == 0,
        _ => true,
    }
}

/// Whether the operands of an op that is written from token `from` on are in range.
pub open spec fn in_range(c: Text, from: int, op: IrOp) -> bool {
    &&& forall|k: int|
        0 <= k < args_of(op).len() ==> arg_in_range(c, from + 1 + k, #[trigger] args_of(op)[k])
    &&& op matches IrOp::MCX(m, t) ==> 0 < m < (1u32 << c.nq) && (m >> (t as u32)) & 1 != 1
}

/// Whether an op is written as a word with a fixed list of operands.
pub open spec fn simple_op(op: IrOp) -> bool {
    match op {
        IrOp::Measure(_, _) | IrOp::MeasureX(_, _) | IrOp::MeasureY(_, _) => false,
        IrOp::IfEq(_, _, _, _) | IrOp::IfNe(_, _, _, _) | IrOp::Shot(_, _, _) => false,
        IrOp::Call(_, _, _, _) | IrOp::Estimate(_, _) => false,
        _ => true,
    }
}

/// The constants after an op was read, if it brings an angle.
pub open spec fn pool_after(op: IrOp, before: Seq<Literal>, after: Seq<Literal>) -> bool {
    match op {
        IrOp::RZ(_, k) | IrOp::RX(_, k) | IrOp::RY(_, k) | IrOp::Phase(_, k) | IrOp::CPHASE(_, _, k)
        => k == before.len() < 1024 && after.len() == k + 1 && after == before.push(
            after[k as int],
        ),
        _ => after == before,
    }
}

/// The token of the word of a simple op.
spec fn token_of(op: IrOp) -> Token {
    match op {
        IrOp::H(_) => Token::H,
        IrOp::X(_) => Token::X,
        IrOp::CNOT(_, _) => Token::Cnot,
        IrOp::Toff(_, _, _) => Token::Toff,
        IrOp::RZ(_, _) => Token::Rz,
        IrOp::RX(_, _) => Token::Rx,
        IrOp::RY(_, _) => Token::Ry,
        IrOp::Phase(_, _) => Token::Phase,
        IrOp::S(_) => Token::S,
        IrOp::T(_) => Token::T,
        IrOp::SX(_) => Token::Sx,
        IrOp::SWAP(_, _) => Token::Swap,
        IrOp::ISWAP(_, _) => Token::Iswap,
        IrOp::CZ(_, _) => Token::Cz,
        IrOp::CPHASE(_, _, _) => Token::Cphase,
        IrOp::CSWAP(_, _, _) => Token::Cswap,
        IrOp::MCX(_, _) => Token::Mcx,
        IrOp::Reset(_) => Token::Reset,
        IrOp::SetVal(_, _) => Token::SetVal,
        IrOp::Not(_) => Token::Not,
        IrOp::And(_, _) => Token::And,
        IrOp::Or(_, _) => Token::Or,
        IrOp::Xor(_, _) => Token::Xor,
        IrOp::Add(_, _) => Token::Add,
        IrOp::Sub(_, _) => Token::Sub,
        IrOp::Expect(_) => Token::Expect,
        IrOp::SaveState => Token::SaveState,
        IrOp::SaveAmps => Token::SaveAmps,
        IrOp::SaveProbs => Token::SaveProbs,
        _ => Token::Print,
    }
}

proof fn lemma_token_of(op: IrOp, t: Token)
    requires
        simple_op(op),
        is_keyword_of(word_of(op), t),
    ensures
        t == token_of(op),
{
    lemma_letters(token_of(op));
    reveal(is_keyword_of);
}

/// The value with which an operand is handed on.
spec fn value_of(a: Arg) -> u64 {
    match a {
        Arg::Qubit(q) => q as u64,
        Arg::Byte(b) => b as u64,
        Arg::Value(v) => v as u64,
        Arg::Angle(k) => k as u64,
        Arg::Mask(m) => m as u64,
        Arg::Product(p) => p,
    }
}

proof fn lemma_operands_of(op: IrOp, v: Seq<u64>)
    requires
        simple_op(op),
        !(op is MCX),
        v.len() == args_of(op).len(),
        forall|k: int| 0 <= k < v.len() ==> #[trigger] v[k] == value_of(args_of(op)[k]),
    ensures
        shape(token_of(op)) matches Some(ks) && {
            &&& ks.len() == args_of(op).len()
            &&& forall|k: int|
                0 <= k < ks.len() ==> said(#[trigger] ks[k], value_of(args_of(op)[k]))
                    == args_of(op)[k]
            &&& forall|k: int| 0 <= k < ks.len() - 1 ==> !((#[trigger] ks[k]) is Angle)
        },
        assembled(token_of(op), v) == op,
{
    if v.len() > 0 {
        assert(v[0] == value_of(args_of(op)[0]));
    }
    if v.len() > 1 {
        assert(v[1] == value_of(args_of(op)[1]));
    }
    if v.len() > 2 {
        assert(v[2] == value_of(args_of(op)[2]));
    }
}

proof fn lemma_operand_read(c: Text, k: Operand, st: Reading, a: Arg, after: Seq<Literal>)
    requires
        0 <= st.pos < c.tokens.len(),
        said(k, value_of(a)) == a,
        writes(c.tokens[st.pos], a, after),
        arg_in_range(c, st.pos, a),
        match a {
            Arg::Angle(i) => i == st.consts.len() < 1024 && after == st.consts.push(after[i as int]),
            _ => after == st.consts,
        },
    ensures
        operand(c, k, st) == Ok::<(u64, Reading), Complaint>(
            (value_of(a), Reading { pos: st.pos + 1, consts: after, ..st }),
        ),
{
}

proof fn lemma_operands_read(
    c: Text,
    ks: Seq<Operand>,
    st: Reading,
    args: Seq<Arg>,
    after: Seq<Literal>,
)
    requires
        0 <= st.pos,
        st.pos + ks.len() <= c.tokens.len(),
        args.len() == ks.len(),
        forall|k: int|
            0 <= k < ks.len() ==> {
                &&& said(ks[k], value_of(#[trigger] args[k])) == args[k]
                &&& writes(c.tokens[st.pos + k], args[k], after)
                &&& arg_in_range(c, st.pos + k, args[k])
                &&& k < ks.len() - 1 ==> !(args[k] is Angle)
            },
        if ks.len() > 0 && args.last() is Angle {
            let i = args.last()->Angle_0;
            i == st.consts.len() < 1024 && after == st.consts.push(after[i as int])
        } else {
            after == st.consts
        },
    ensures
        operands(c, ks, st) == Ok::<(Seq<u64>, Reading), Complaint>(
            (
                Seq::new(ks.len(), |k: int| value_of(args[k])),
                Reading { pos: st.pos + ks.len(), consts: after, ..st },
            ),
        ),
    decreases ks.len(),
{
    let v = Seq::new(ks.len(), |k: int| value_of(args[k]));
    if ks.len() == 0 {
        assert(v =~= Seq::empty());
    } else {
        let (init, some) = (ks.drop_last(), args.drop_last());
        assert forall|k: int| 0 <= k < init.len() implies {
            &&& said(init[k], value_of(#[trigger] some[k])) == some[k]
            &&& writes(c.tokens[st.pos + k], some[k], st.consts)
            &&& arg_in_range(c, st.pos + k, some[k])
            &&& k < init.len() - 1 ==> !(some[k] is Angle)
        } by {
            assert(some[k] == args[k] && init[k] == ks[k]);
            assert(!(args[k] is Angle));
        }
        if init.len() > 0 {
            assert(some.last() == args[init.len() - 1]);
        }
        lemma_operands_read(c, init, st, some, st.consts);
        let mid = Reading { pos: st.pos + init.len(), ..st };
        assert(args.last() == args[ks.len() - 1]);
        lemma_operand_read(c, ks.last(), mid, args.last(), after);
        let w = Seq::new(init.len(), |k: int| value_of(some[k]));
        assert(w.push(value_of(args.last())) =~= v);
    }
}

/// What an op spells is read as that op: the word of an op, followed by its operands, is
/// accepted where the operands are in range and there is room, and adds that op.
pub proof fn law_spelled_ops_are_read(
    c: Text,
    st: Reading,
    depth: nat,
    op: IrOp,
    to: int,
    after: Seq<Literal>,
)
    requires
        simple_op(op),
        written(c, st.pos, to, op, after),
        in_range(c, st.pos, op),
        pool_after(op, st.consts, after),
        st.ops.len() < 16384,
    ensures
        statement(c, st, depth) == Ok::<Reading, Complaint>(
            Reading { pos: to, ops: st.ops.push(op), consts: after, ..st },
        ),
{
    let t = c.tokens[st.pos];
    let next = Reading { pos: st.pos + 1, ..st };
    lemma_token_of(op, t);
    let args = args_of(op);
    if let IrOp::MCX(m, q) = op {
        assert(args[0] == Arg::Mask(m) && args[1] == Arg::Qubit(q));
        assert(writes(c.tokens[st.pos + 1 + 0], args[0], after));
        assert(writes(c.tokens[st.pos + 1 + 1], args[1], after));
        assert(arg_in_range(c, st.pos + 1 + 1, args[1]));
        let there = Reading { pos: st.pos + 2, ..st };
        lemma_operand_read(c, Operand::Qubit, there, args[1], after);
        assert(statement(c, st, depth) == mcx(c, next));
    } else {
        let v = Seq::new(args.len(), |k: int| value_of(args[k]));
        lemma_operands_of(op, v);
        let ks = shape(t)->Some_0;
        assert forall|k: int| 0 <= k < ks.len() implies {
            &&& said(ks[k], value_of(#[trigger] args[k])) == args[k]
            &&& writes(c.tokens[next.pos + k], args[k], after)
            &&& arg_in_range(c, next.pos + k, args[k])
            &&& k < ks.len() - 1 ==> !(args[k] is Angle)
        } by {
            assert(said(ks[k], value_of(args[k])) == args[k]);
            assert(writes(c.tokens[st.pos + 1 + k], args[k], after));
            assert(arg_in_range(c, st.pos + 1 + k, args[k]));
        }
        lemma_operands_read(c, ks, next, args, after);
        assert(statement(c, st, depth) == plain(c, t, ks, next));
    }
}

} // verus!
