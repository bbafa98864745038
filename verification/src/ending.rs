//! Nothing after the end marker of a program matters.
use crate::grammar::{
    block, body, declaration, ends_block, estimate_terms, flat, found, gate_bodies, gate_call,
    gate_def, gate_end, if_head, lowered, main_part, mcx, measure, measures, opened, operand,
    operands, past_newlines, qubit_list, shape, shot_head, statement, statements, target_list,
    text_of, tok, whole_literal, Head, Operand, Reading, Text,
};
use crate::ir::Sub;
use crate::lexer::{LexResult, Literal, Token};
use crate::wellformed::lemma_sub_keeps_gates;
use vstd::prelude::*;

verus! {

/// Whether a token ends the program.
pub open spec fn end_marker(t: Token) -> bool {
    t == Token::End || t == Token::Halt
}

/// Two texts that are the same up to an end marker at `e`.
spec fn alike(c: Text, d: Text, e: int) -> bool {
    &&& c.nq == d.nq
    &&& c.sub == d.sub
    &&& 0 <= e < c.tokens.len()
    &&& e < d.tokens.len()
    &&& end_marker(c.tokens[e])
    &&& forall|k: int| 0 <= k <= e ==> #[trigger] c.tokens[k] == d.tokens[k]
    &&& forall|k: int| 0 <= k <= e ==> #[trigger] c.names[k] == d.names[k]
    &&& forall|k: int| 0 <= k <= e ==> #[trigger] c.tops[k] == d.tops[k]
}

/// A reading that has not passed the end marker.
spec fn near(st: Reading, e: int) -> bool {
    &&& 0 <= st.pos <= e
    &&& forall|i: int| 0 <= i < st.gates.len() ==> 0 <= (#[trigger] st.gates[i]).start <= e
}

proof fn lemma_tok(c: Text, d: Text, e: int, pos: int)
    requires
        alike(c, d, e),
        0 <= pos <= e,
    ensures
        tok(c, pos) == tok(d, pos),
        tok(c, pos) is Some,
        pos == e ==> end_marker(tok(c, pos)->0),
        c.tops[pos] == d.tops[pos],
{
    assert(c.tokens[pos] == d.tokens[pos]);
}

proof fn lemma_past_newlines(c: Text, d: Text, e: int, pos: int)
    requires
        alike(c, d, e),
        0 <= pos <= e,
    ensures
        past_newlines(c, pos) == past_newlines(d, pos),
        pos <= past_newlines(c, pos) <= e,
    decreases e - pos,
{
    lemma_tok(c, d, e, pos);
    if tok(c, pos) == Some(Token::Newline) {
        lemma_past_newlines(c, d, e, pos + 1);
    }
}

proof fn lemma_operand(c: Text, d: Text, e: int, k: Operand, st: Reading)
    requires
        alike(c, d, e),
        near(st, e),
    ensures
        operand(c, k, st) == operand(d, k, st),
        operand(c, k, st) matches Ok((_, s)) ==> near(s, e),
{
    lemma_tok(c, d, e, st.pos);
}

proof fn lemma_operands(c: Text, d: Text, e: int, ks: Seq<Operand>, st: Reading)
    requires
        alike(c, d, e),
        near(st, e),
    ensures
        operands(c, ks, st) == operands(d, ks, st),
        operands(c, ks, st) matches Ok((_, s)) ==> near(s, e),
    decreases ks.len(),
{
    if ks.len() > 0 {
        lemma_operands(c, d, e, ks.drop_last(), st);
        if let Ok((_, s)) = operands(c, ks.drop_last(), st) {
            lemma_operand(c, d, e, ks.last(), s);
        }
    }
}

proof fn lemma_mcx(c: Text, d: Text, e: int, st: Reading)
    requires
        alike(c, d, e),
        near(st, e),
    ensures
        mcx(c, st) == mcx(d, st),
        mcx(c, st) matches Ok(s) ==> near(s, e),
{
    lemma_tok(c, d, e, st.pos);
    if let Some(Token::Number(_)) = tok(c, st.pos) {
        lemma_operand(c, d, e, Operand::Qubit, Reading { pos: st.pos + 1, ..st });
    }
}

proof fn lemma_estimate_terms(c: Text, d: Text, e: int, st: Reading, n: nat)
    requires
        alike(c, d, e),
        near(st, e),
    ensures
        estimate_terms(c, st, n) == estimate_terms(d, st, n),
        estimate_terms(c, st, n) matches Ok((s, _)) ==> near(s, e),
    decreases e - st.pos,
{
    lemma_tok(c, d, e, st.pos);
    let neg = tok(c, st.pos) == Some(Token::Minus);
    let at = if neg {
        st.pos + 1
    } else {
        st.pos
    };
    lemma_tok(c, d, e, at);
    let coef = match tok(c, at) {
        Some(Token::Number(x)) => Some(whole_literal(x, neg)),
        Some(Token::Float(l)) => Some(Literal { negative: neg, ..l }),
        _ => None,
    };
    if let Some(l) = coef {
        lemma_tok(c, d, e, at + 1);
        if let Some(Token::Pauli(code)) = tok(c, at + 1) {
            lemma_estimate_terms(
                c,
                d,
                e,
                Reading { pos: at + 2, terms: st.terms.push((l, code)), ..st },
                n + 1,
            );
        }
    }
}

proof fn lemma_qubit_list(c: Text, d: Text, e: int, pos: int, qs: Seq<u8>)
    requires
        alike(c, d, e),
        0 <= pos <= e,
    ensures
        qubit_list(c, pos, qs) == qubit_list(d, pos, qs),
        qubit_list(c, pos, qs) matches Ok((_, p)) ==> 0 <= p <= e,
    decreases e - pos,
{
    lemma_tok(c, d, e, pos);
    if let Some(Token::Number(n)) = tok(c, pos) {
        lemma_qubit_list(c, d, e, pos + 1, qs.push(n as u8));
    }
}

proof fn lemma_target_list(c: Text, d: Text, e: int, pos: int, cs: Seq<u8>)
    requires
        alike(c, d, e),
        0 <= pos <= e,
    ensures
        target_list(c, pos, cs) == target_list(d, pos, cs),
        target_list(c, pos, cs) matches Ok((_, p)) ==> 0 <= p <= e,
    decreases e - pos,
{
    lemma_tok(c, d, e, pos);
    if let Some(Token::ClassicalRef(n)) = tok(c, pos) {
        lemma_target_list(c, d, e, pos + 1, cs.push(n as u8));
    }
}

proof fn lemma_measures(e: int, st: Reading, t: Token, qs: Seq<u8>, cs: Seq<u8>, k: nat)
    requires
        near(st, e),
    ensures
        measures(st, t, qs, cs, k) matches Ok(s) ==> near(s, e),
    decreases k,
{
    if k > 0 {
        lemma_measures(e, st, t, qs, cs, (k - 1) as nat);
    }
}

proof fn lemma_measure(c: Text, d: Text, e: int, t: Token, st: Reading)
    requires
        alike(c, d, e),
        near(st, e),
    ensures
        measure(c, t, st) == measure(d, t, st),
        measure(c, t, st) matches Ok(s) ==> near(s, e),
{
    lemma_operand(c, d, e, Operand::Qubit, st);
    if let Ok((first, s)) = operand(c, Operand::Qubit, st) {
        lemma_qubit_list(c, d, e, s.pos, seq![first as u8]);
        if let Ok((qs, p)) = qubit_list(c, s.pos, seq![first as u8]) {
            lemma_tok(c, d, e, p);
            lemma_measures(e, Reading { pos: p, ..s }, t, qs, qs, qs.len());
            if tok(c, p) == Some(Token::Arrow) {
                lemma_target_list(c, d, e, p + 1, Seq::empty());
                if let Ok((cs, p2)) = target_list(c, p + 1, Seq::empty()) {
                    lemma_measures(e, Reading { pos: p2, ..s }, t, qs, cs, qs.len());
                }
            }
        }
    }
}

proof fn lemma_gate_end(c: Text, d: Text, e: int, pos: int)
    requires
        alike(c, d, e),
        0 <= pos <= e,
    ensures
        gate_end(c, pos) == gate_end(d, pos),
        pos <= gate_end(c, pos) <= e,
    decreases e - pos,
{
    lemma_tok(c, d, e, pos);
    match tok(c, pos) {
        None => {},
        Some(Token::Endgate) | Some(Token::End) | Some(Token::Halt) | Some(Token::Eof) => {},
        _ => {
            lemma_gate_end(c, d, e, pos + 1);
        },
    }
}

proof fn lemma_gate_def(c: Text, d: Text, e: int, st: Reading)
    requires
        alike(c, d, e),
        near(st, e),
    ensures
        gate_def(c, st) == gate_def(d, st),
        gate_def(c, st) matches Ok(s) ==> near(s, e),
{
    lemma_tok(c, d, e, st.pos);
    assert(c.names[st.pos] == d.names[st.pos]);
    if tok(c, st.pos) == Some(Token::Ident) {
        lemma_tok(c, d, e, st.pos + 1);
        if let Some(Token::Number(n)) = tok(c, st.pos + 1) {
            lemma_past_newlines(c, d, e, st.pos + 2);
            let start = past_newlines(c, st.pos + 2);
            lemma_gate_end(c, d, e, start);
            lemma_tok(c, d, e, gate_end(c, start));
        }
    }
}

proof fn lemma_gate_call(c: Text, d: Text, e: int, st: Reading)
    requires
        alike(c, d, e),
        near(st, e),
        st.pos > 0,
    ensures
        gate_call(c, st) == gate_call(d, st),
        gate_call(c, st) matches Ok(s) ==> near(s, e),
{
    assert(c.names[st.pos - 1] == d.names[st.pos - 1]);
    if let Some(id) = found(st.gates, c.names[st.pos - 1], 0) {
        let np = st.gates[id as int].nparams;
        lemma_operands(c, d, e, Seq::new(np as nat, |k: int| Operand::Qubit), st);
    }
}

proof fn lemma_flat(c: Text, d: Text, e: int, t: Token, st: Reading)
    requires
        alike(c, d, e),
        near(st, e),
        st.pos > 0,
    ensures
        flat(c, t, st) == flat(d, t, st),
        flat(c, t, st) matches Ok(s) ==> near(s, e),
{
    match shape(t) {
        Some(ks) => {
            lemma_operands(c, d, e, ks, st);
        },
        None => {
            lemma_mcx(c, d, e, st);
            lemma_estimate_terms(c, d, e, st, 0);
            lemma_measure(c, d, e, t, st);
            lemma_gate_def(c, d, e, st);
            lemma_gate_call(c, d, e, st);
        },
    }
}

proof fn lemma_heads(c: Text, d: Text, e: int, pos: int)
    requires
        alike(c, d, e),
        0 <= pos <= e,
    ensures
        if_head(c, pos) == if_head(d, pos),
        if_head(c, pos) matches Ok((_, p)) ==> 0 <= p <= e,
        shot_head(c, pos) == shot_head(d, pos),
        shot_head(c, pos) matches Ok((_, p, _)) ==> 0 <= p <= e,
{
    lemma_tok(c, d, e, pos);
    if let Some(Token::ClassicalRef(_)) = tok(c, pos) {
        lemma_tok(c, d, e, pos + 1);
        let op = tok(c, pos + 1);
        if op == Some(Token::Equals) || op == Some(Token::Ne) {
            lemma_tok(c, d, e, pos + 2);
            if let Some(Token::Number(_)) = tok(c, pos + 2) {
                lemma_tok(c, d, e, pos + 3);
                if tok(c, pos + 3) == Some(Token::Then) {
                    lemma_past_newlines(c, d, e, pos + 4);
                }
            }
        }
    }
    if let Some(Token::Number(_)) = tok(c, pos) {
        lemma_past_newlines(c, d, e, pos + 1);
        lemma_tok(c, d, e, past_newlines(c, pos + 1));
    }
}

proof fn lemma_body(c: Text, d: Text, e: int, st: Reading, depth: nat)
    requires
        alike(c, d, e),
        near(st, e),
    ensures
        body(c, st, depth) == body(d, st, depth),
        body(c, st, depth) matches Ok(s) ==> near(s, e),
    decreases e - st.pos, 3int,
{
    lemma_statements(c, d, e, st, depth);
}

proof fn lemma_statements(c: Text, d: Text, e: int, st: Reading, depth: nat)
    requires
        alike(c, d, e),
        near(st, e),
    ensures
        statements(c, st, depth) == statements(d, st, depth),
        statements(c, st, depth) matches Ok(s) ==> near(s, e),
    decreases e - st.pos, 2int,
{
    lemma_tok(c, d, e, st.pos);
    let t = tok(c, st.pos)->0;
    if t == Token::Newline {
        lemma_statements(c, d, e, Reading { pos: st.pos + 1, ..st }, depth);
    } else if !ends_block(t) {
        lemma_statement(c, d, e, st, depth);
        if let Ok(s) = statement(c, st, depth) {
            if s.pos > st.pos {
                lemma_statements(c, d, e, s, depth);
            }
        }
    }
}

proof fn lemma_statement(c: Text, d: Text, e: int, st: Reading, depth: nat)
    requires
        alike(c, d, e),
        near(st, e),
        st.pos < e,
    ensures
        statement(c, st, depth) == statement(d, st, depth),
        statement(c, st, depth) matches Ok(s) ==> near(s, e),
    decreases e - st.pos, 1int,
{
    lemma_tok(c, d, e, st.pos);
    let t = tok(c, st.pos)->0;
    let next = Reading { pos: st.pos + 1, ..st };
    lemma_heads(c, d, e, next.pos);
    match t {
        Token::If => {
            if let Ok((h, p)) = if_head(c, next.pos) {
                lemma_block(c, d, e, h, st.pos, Reading { pos: p, ..st }, depth);
            }
        },
        Token::Shot => {
            if let Ok((count, p, bare)) = shot_head(c, next.pos) {
                let at = Reading { pos: p, ..st };
                if bare {
                    lemma_tok(c, d, e, p);
                } else {
                    lemma_block(c, d, e, Head::Repeat(count), st.pos, at, depth);
                }
            }
        },
        _ => {
            lemma_flat(c, d, e, t, next);
        },
    }
}

proof fn lemma_block(c: Text, d: Text, e: int, h: Head, from: int, st: Reading, depth: nat)
    requires
        alike(c, d, e),
        near(st, e),
        0 <= from < e,
    ensures
        block(c, h, from, st, depth) == block(d, h, from, st, depth),
        block(c, h, from, st, depth) matches Ok(s) ==> near(s, e),
    decreases e - from, 0int,
{
    if let Ok(s) = opened(st) {
        if 0 <= from < s.pos <= c.tokens.len() {
            lemma_body(c, d, e, s, depth + 1);
            if let Ok(s2) = body(c, s, depth + 1) {
                lemma_tok(c, d, e, s2.pos);
            }
        }
    }
}

proof fn lemma_gate_bodies(c: Text, d: Text, e: int, st: Reading, subs: Seq<Sub>, n: nat)
    requires
        alike(c, d, e),
        near(st, e),
        c.sub,
        n <= st.gates.len(),
    ensures
        gate_bodies(c, st, subs, n) == gate_bodies(d, st, subs, n),
    decreases n - subs.len(),
{
    let i = subs.len() as int;
    if i < n {
        let at = Reading { pos: st.gates[i].start, ..st };
        lemma_body(c, d, e, at, 0);
        lemma_sub_keeps_gates(c, at, 0, 2);
        if let Ok(s) = body(c, at, 0) {
            lemma_tok(c, d, e, s.pos);
            let more = Sub {
                off: st.ops.len() as u16,
                len: (s.ops.len() - st.ops.len()) as u16,
                nparams: st.gates[i].nparams,
            };
            lemma_gate_bodies(c, d, e, s, subs.push(more), n);
        }
    }
}

proof fn lemma_declaration(c: Text, d: Text, e: int)
    requires
        alike(c, d, e),
    ensures
        declaration(c) == declaration(d),
        declaration(c) matches Ok((_, p)) ==> 0 <= p <= e,
{
    lemma_past_newlines(c, d, e, 0);
    let p = past_newlines(c, 0);
    lemma_tok(c, d, e, p);
    if tok(c, p) == Some(Token::Qubits) {
        lemma_tok(c, d, e, p + 1);
        if let Some(Token::Number(_)) = tok(c, p + 1) {
            lemma_past_newlines(c, d, e, p + 2);
        }
    }
}

proof fn lemma_main_part(c: Text, d: Text, e: int, pos: int)
    requires
        alike(c, d, e),
        0 <= pos <= e,
    ensures
        main_part(c, pos) == main_part(d, pos),
        main_part(c, pos) matches Ok(s) ==> near(s, e),
{
    let start = Reading {
        pos,
        ops: Seq::empty(),
        consts: Seq::empty(),
        terms: Seq::empty(),
        bytes: c.nq,
        shot: false,
        gates: Seq::empty(),
    };
    lemma_body(c, d, e, start, 0);
    if let Ok(s) = body(c, start, 0) {
        lemma_past_newlines(c, d, e, s.pos);
        lemma_tok(c, d, e, past_newlines(c, s.pos));
    }
}

/// Tokens after the first `END` or `HALT` are ignored: two sources that agree up to it
/// spell the same program, or are refused with the same complaint.
pub proof fn law_nothing_after_the_end_matters(a: LexResult, b: LexResult, e: int)
    requires
        0 <= e < a.count <= a.tokens@.len(),
        e < b.count <= b.tokens@.len(),
        end_marker(a.tokens@[e]),
        forall|k: int| 0 <= k <= e ==> #[trigger] a.tokens@[k] == b.tokens@[k],
        forall|k: int| 0 <= k <= e ==> #[trigger] a.name_at(k) == b.name_at(k),
        forall|k: int| 0 <= k <= e ==> #[trigger] a.pauli_tops@[k] == b.pauli_tops@[k],
    ensures
        lowered(a) == lowered(b),
{
    assert forall|nq: u8, sub: bool| alike(
        #[trigger] text_of(a, nq, sub),
        text_of(b, nq, sub),
        e,
    ) by {
        let (c, d) = (text_of(a, nq, sub), text_of(b, nq, sub));
        assert forall|k: int| 0 <= k <= e implies #[trigger] c.tokens[k] == d.tokens[k] by {
            assert(a.tokens@[k] == b.tokens@[k]);
        }
        assert forall|k: int| 0 <= k <= e implies #[trigger] c.names[k] == d.names[k] by {
            assert(a.name_at(k) == b.name_at(k));
        }
        assert forall|k: int| 0 <= k <= e implies #[trigger] c.tops[k] == d.tops[k] by {
            assert(a.pauli_tops@[k] == b.pauli_tops@[k]);
        }
    }
    let (c, d) = (text_of(a, 0, false), text_of(b, 0, false));
    assert(alike(c, d, e));
    lemma_declaration(c, d, e);
    if let Ok((nq, pos)) = declaration(c) {
        let (c2, d2) = (text_of(a, nq, false), text_of(b, nq, false));
        assert(alike(c2, d2, e));
        lemma_main_part(c2, d2, e, pos);
        if let Ok(s) = main_part(c2, pos) {
            let (c3, d3) = (text_of(a, nq, true), text_of(b, nq, true));
            assert(alike(c3, d3, e));
            lemma_gate_bodies(c3, d3, e, s, Seq::empty(), s.gates.len());
        }
    }
}

} // verus!
