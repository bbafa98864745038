//! What every accepted program satisfies.
use crate::grammar::{
    assembled, bare_shot, block, body, closed, declaration, emitted, ends_block, estimate,
    estimate_terms, flat, found, gate_bodies, gate_call, gate_def, headed, if_head, left,
    lowered, main_part, mcx, measure, measures, opened, operand, operands, pauli_declared,
    plain, qubit_list, shape, shot_head, statement, statements, target_list, text_of, tok,
    whole_literal, GateView, Head, Lowered, Operand, Reading, Text, MAX_NESTING,
};
use crate::ir::{
    IrOp, Sub, MAX_CLASSICAL, MAX_CONSTS, MAX_ESTIMATE_TERMS, MAX_OPS, MAX_QUBITS, MAX_SUBS, NO_ARG,
};
use crate::lexer::{LexResult, Literal, Token};
use vstd::prelude::*;

verus! {

/// Whether the first `np` arguments of a call are declared qubits, and the others are
/// marked as unused.
pub open spec fn args_ok(np: u8, nq: u8, a0: u8, a1: u8, a2: u8) -> bool {
    &&& 1 <= np <= 3
    &&& a0 < nq
    &&& if np > 1 {
        a1 < nq
    } else {
        a1 == NO_ARG
    }
    &&& if np > 2 {
        a2 < nq
    } else {
        a2 == NO_ARG
    }
}

/// Whether the operands of an op are in range: declared qubits, existing classical
/// bytes, constants and terms, defined gates, valid control masks, at least one
/// repetition.
pub open spec fn op_ok(op: IrOp, nq: u8, consts: nat, terms: nat, params: Seq<u8>) -> bool {
    match op {
        IrOp::H(q) | IrOp::X(q) | IrOp::S(q) | IrOp::T(q) | IrOp::SX(q) | IrOp::Reset(q) => q < nq,
        IrOp::CNOT(a, b) | IrOp::SWAP(a, b) | IrOp::ISWAP(a, b) | IrOp::CZ(a, b) => a < nq && b
            < nq,
        IrOp::Toff(a, b, c) | IrOp::CSWAP(a, b, c) => a < nq && b < nq && c < nq,
        IrOp::RZ(q, k) | IrOp::RX(q, k) | IrOp::RY(q, k) | IrOp::Phase(q, k) => q < nq && k
            < consts,
        IrOp::CPHASE(a, b, k) => a < nq && b < nq && k < consts,
        IrOp::MCX(m, t) => t < nq && 0 < m < (1u32 << nq) && (m >> (t as u32)) & 1 != 1,
        IrOp::Measure(q, c) | IrOp::MeasureX(q, c) | IrOp::MeasureY(q, c) => q < nq && c
            < MAX_CLASSICAL,
        IrOp::IfEq(c, _, _, _) | IrOp::IfNe(c, _, _, _) => c < MAX_CLASSICAL,
        IrOp::Shot(n, _, _) => n >= 1,
        IrOp::SetVal(c, _) | IrOp::Not(c) => c < MAX_CLASSICAL,
        IrOp::And(a, b) | IrOp::Or(a, b) | IrOp::Xor(a, b) | IrOp::Add(a, b) | IrOp::Sub(a, b) => a
            < MAX_CLASSICAL && b < MAX_CLASSICAL,
        IrOp::Expect(p) => pauli_declared(p, nq),
        IrOp::Estimate(off, len) => len >= 1 && off + len <= terms,
        IrOp::Call(id, a0, a1, a2) => id < params.len() && args_ok(
            params[id as int],
            nq,
            a0,
            a1,
            a2,
        ),
        IrOp::SaveState | IrOp::SaveAmps | IrOp::SaveProbs | IrOp::Print => true,
    }
}

/// The body of an op that has one.
pub open spec fn body_of(op: IrOp) -> Option<(int, int)> {
    match op {
        IrOp::IfEq(_, _, off, len) | IrOp::IfNe(_, _, off, len) => Some(
            (off as int, off + len),
        ),
        IrOp::Shot(_, off, len) => if len > 0 {
            Some((off as int, off + len))
        } else {
            None
        },
        _ => None,
    }
}

/// Whether every body stands behind its op and ends within the ops.
pub open spec fn bodies_inside(ops: Seq<IrOp>) -> bool {
    forall|i: int|
        0 <= i < ops.len() ==> (body_of(#[trigger] ops[i]) matches Some((b, e)) ==> i < b <= e
            <= ops.len())
}

/// Whether bodies in `ops[lo..hi]` are properly nested: each stands right behind
/// its op, inside the range.
pub open spec fn nested(ops: Seq<IrOp>, lo: int, hi: int) -> bool
    decreases hi - lo,
{
    if lo >= hi {
        lo == hi
    } else {
        match body_of(ops[lo]) {
            Some((b, e)) => b == lo + 1 && b <= e <= hi && nested(ops, b, e) && nested(ops, e, hi),
            None => nested(ops, lo + 1, hi),
        }
    }
}

/// The parameter counts of a list of gates.
pub open spec fn params_of(gates: Seq<GateView>) -> Seq<u8> {
    gates.map_values(|g: GateView| g.nparams)
}

/// Whether a repetition stands among the ops.
pub open spec fn has_shot(ops: Seq<IrOp>) -> bool {
    exists|i: int| 0 <= i < ops.len() && #[trigger] ops[i] is Shot
}

/// A program that keeps all limits, whose operands are in range and whose flag says
/// whether it has a repetition.
pub open spec fn well_formed(l: Lowered) -> bool {
    let params = l.subs.map_values(|s: Sub| s.nparams);
    &&& l.has_explicit_shot <==> has_shot(l.ops)
    &&& 1 <= l.num_qubits <= MAX_QUBITS
    &&& l.num_qubits <= l.num_classical <= MAX_CLASSICAL
    &&& l.len <= l.ops.len() <= MAX_OPS
    &&& l.consts.len() <= MAX_CONSTS
    &&& l.terms.len() <= MAX_ESTIMATE_TERMS
    &&& l.subs.len() <= MAX_SUBS
    &&& forall|i: int|
        0 <= i < l.ops.len() ==> op_ok(
            #[trigger] l.ops[i],
            l.num_qubits,
            l.consts.len(),
            l.terms.len(),
            params,
        )
    &&& bodies_inside(l.ops)
    &&& forall|i: int|
        0 <= i < l.terms.len() ==> pauli_declared((#[trigger] l.terms[i]).1, l.num_qubits)
    &&& nested(l.ops, 0, l.len as int)
    &&& forall|k: int|
        0 <= k < l.subs.len() ==> {
            let s = #[trigger] l.subs[k];
            1 <= s.nparams <= 3 && l.len <= s.off && s.off + s.len <= l.ops.len() && nested(
                l.ops,
                s.off as int,
                s.off + s.len,
            )
        }
}

/// What holds of a reading at every point.
spec fn fine(c: Text, st: Reading) -> bool {
    sound(c, st) && (st.shot <==> has_shot(st.ops))
}

spec fn sound(c: Text, st: Reading) -> bool {
    &&& c.nq <= MAX_QUBITS
    &&& c.nq <= st.bytes <= MAX_CLASSICAL
    &&& st.ops.len() <= MAX_OPS
    &&& st.consts.len() <= MAX_CONSTS
    &&& st.terms.len() <= MAX_ESTIMATE_TERMS
    &&& st.gates.len() <= MAX_SUBS
    &&& forall|i: int|
        0 <= i < st.ops.len() ==> op_ok(
            #[trigger] st.ops[i],
            c.nq,
            st.consts.len(),
            st.terms.len(),
            params_of(st.gates),
        )
    &&& bodies_inside(st.ops)
    &&& forall|i: int| 0 <= i < st.terms.len() ==> pauli_declared((#[trigger] st.terms[i]).1, c.nq)
    &&& forall|i: int| 0 <= i < st.gates.len() ==> 1 <= (#[trigger] st.gates[i]).nparams <= 3
}

/// Whether `b` starts with `a`.
spec fn extends<T>(a: Seq<T>, b: Seq<T>) -> bool {
    a.len() <= b.len() && forall|i: int| 0 <= i < a.len() ==> #[trigger] a[i] == b[i]
}

/// Whether `s` continues `st`.
spec fn grew(st: Reading, s: Reading) -> bool {
    &&& extends(st.ops, s.ops)
    &&& extends(st.consts, s.consts)
    &&& extends(st.terms, s.terms)
    &&& extends(st.gates, s.gates)
}

proof fn lemma_nested_same(a: Seq<IrOp>, b: Seq<IrOp>, lo: int, hi: int)
    requires
        forall|i: int| lo <= i < hi ==> a[i] == b[i],
    ensures
        nested(a, lo, hi) == nested(b, lo, hi),
    decreases hi - lo,
{
    if lo < hi {
        assert(a[lo] == b[lo]);
        match body_of(a[lo]) {
            Some((s, e)) => {
                if s == lo + 1 && s <= e <= hi {
                    lemma_nested_same(a, b, s, e);
                    lemma_nested_same(a, b, e, hi);
                }
            },
            None => lemma_nested_same(a, b, lo + 1, hi),
        }
    }
}

/// Two properly nested ranges side by side are one.
pub proof fn lemma_nested_join(ops: Seq<IrOp>, lo: int, mid: int, hi: int)
    requires
        nested(ops, lo, mid),
        nested(ops, mid, hi),
    ensures
        nested(ops, lo, hi),
        lo <= mid <= hi,
    decreases mid - lo,
{
    lemma_nested_order(ops, lo, mid);
    lemma_nested_order(ops, mid, hi);
    if lo < mid {
        match body_of(ops[lo]) {
            Some((b, e)) => lemma_nested_join(ops, e, mid, hi),
            None => lemma_nested_join(ops, lo + 1, mid, hi),
        }
    }
}

proof fn lemma_nested_order(ops: Seq<IrOp>, lo: int, hi: int)
    requires
        nested(ops, lo, hi),
    ensures
        lo <= hi,
{
}

proof fn lemma_plain_nested(ops: Seq<IrOp>, lo: int, hi: int)
    requires
        lo <= hi,
        forall|i: int| lo <= i < hi ==> body_of(#[trigger] ops[i]) is None,
    ensures
        nested(ops, lo, hi),
    decreases hi - lo,
{
    if lo < hi {
        lemma_plain_nested(ops, lo + 1, hi);
    }
}

proof fn lemma_op_ok_grows(c: Text, st: Reading, s: Reading, op: IrOp)
    requires
        op_ok(op, c.nq, st.consts.len(), st.terms.len(), params_of(st.gates)),
        grew(st, s),
    ensures
        op_ok(op, c.nq, s.consts.len(), s.terms.len(), params_of(s.gates)),
{
    if let IrOp::Call(id, _, _, _) = op {
        assert(st.gates[id as int] == s.gates[id as int]);
    }
}

/// An emitted op that is in range keeps what holds of the reading.
proof fn lemma_emitted(c: Text, st: Reading, op: IrOp)
    requires
        sound(c, st),
        st.shot <==> has_shot(st.ops) || op is Shot,
        op_ok(op, c.nq, st.consts.len(), st.terms.len(), params_of(st.gates)),
        body_of(op) is None,
    ensures
        emitted(st, op) matches Ok(s) ==> fine(c, s) && grew(st, s) && s.ops == st.ops.push(op),
{
    lemma_shot_pushed(st.ops, op);
}

proof fn lemma_shot_pushed(ops: Seq<IrOp>, op: IrOp)
    ensures
        has_shot(ops.push(op)) <==> has_shot(ops) || op is Shot,
{
    let all = ops.push(op);
    assert(all[ops.len() as int] == op);
    if has_shot(ops) {
        let i = choose|i: int| 0 <= i < ops.len() && #[trigger] ops[i] is Shot;
        assert(all[i] is Shot);
    }
    if has_shot(all) {
        let i = choose|i: int| 0 <= i < all.len() && #[trigger] all[i] is Shot;
        if i < ops.len() {
            assert(ops[i] is Shot);
        }
    }
}

proof fn lemma_shot_replaced(ops: Seq<IrOp>, slot: int, op: IrOp)
    requires
        0 <= slot < ops.len(),
        !(ops[slot] is Shot),
    ensures
        has_shot(ops.update(slot, op)) <==> has_shot(ops) || op is Shot,
{
    let all = ops.update(slot, op);
    assert(all[slot] == op);
    if has_shot(ops) {
        let i = choose|i: int| 0 <= i < ops.len() && #[trigger] ops[i] is Shot;
        assert(all[i] is Shot);
    }
    if has_shot(all) {
        let i = choose|i: int| 0 <= i < all.len() && #[trigger] all[i] is Shot;
        if i != slot {
            assert(ops[i] is Shot);
        }
    }
}

proof fn lemma_grew_trans(a: Reading, b: Reading, d: Reading)
    requires
        grew(a, b),
        grew(b, d),
    ensures
        grew(a, d),
{
    assert forall|i: int| 0 <= i < a.ops.len() implies #[trigger] a.ops[i] == d.ops[i] by {
        assert(a.ops[i] == b.ops[i]);
    }
    assert forall|i: int| 0 <= i < a.consts.len() implies #[trigger] a.consts[i] == d.consts[i] by {
        assert(a.consts[i] == b.consts[i]);
    }
    assert forall|i: int| 0 <= i < a.terms.len() implies #[trigger] a.terms[i] == d.terms[i] by {
        assert(a.terms[i] == b.terms[i]);
    }
    assert forall|i: int| 0 <= i < a.gates.len() implies #[trigger] a.gates[i] == d.gates[i] by {
        assert(a.gates[i] == b.gates[i]);
    }
}

/// The range of an operand's value.
spec fn value_ok(c: Text, k: Operand, v: u64, consts: nat) -> bool {
    match k {
        Operand::Qubit => v < c.nq,
        Operand::Cbit => v < MAX_CLASSICAL,
        Operand::Angle => v < consts,
        Operand::Byte => v <= 255,
        Operand::Observable => pauli_declared(v, c.nq),
    }
}

proof fn lemma_operand(c: Text, k: Operand, st: Reading)
    requires
        fine(c, st),
    ensures
        operand(c, k, st) matches Ok((v, s)) ==> {
            &&& fine(c, s)
            &&& grew(st, s)
            &&& s.ops == st.ops
            &&& s.terms == st.terms
            &&& s.gates == st.gates
            &&& value_ok(c, k, v, s.consts.len())
        },
{
    if let Ok((v, s)) = operand(c, k, st) {
        assert forall|i: int| 0 <= i < s.ops.len() implies op_ok(
            #[trigger] s.ops[i],
            c.nq,
            s.consts.len(),
            s.terms.len(),
            params_of(s.gates),
        ) by {
            assert(st.ops[i] == s.ops[i]);
            lemma_op_ok_grows(c, st, s, st.ops[i]);
        }
    }
}

proof fn lemma_operands(c: Text, ks: Seq<Operand>, st: Reading)
    requires
        fine(c, st),
    ensures
        operands(c, ks, st) matches Ok((v, s)) ==> {
            &&& fine(c, s)
            &&& grew(st, s)
            &&& s.ops == st.ops
            &&& s.terms == st.terms
            &&& s.gates == st.gates
            &&& v.len() == ks.len()
            &&& forall|i: int|
                0 <= i < ks.len() ==> value_ok(c, ks[i], #[trigger] v[i], s.consts.len())
        },
    decreases ks.len(),
{
    if ks.len() > 0 {
        lemma_operands(c, ks.drop_last(), st);
        if let Ok((v, s)) = operands(c, ks.drop_last(), st) {
            lemma_operand(c, ks.last(), s);
            if let Ok((x, s2)) = operand(c, ks.last(), s) {
                lemma_grew_trans(st, s, s2);
                assert forall|i: int| 0 <= i < ks.len() implies value_ok(
                    c,
                    ks[i],
                    #[trigger] v.push(x)[i],
                    s2.consts.len(),
                ) by {
                    if i < ks.len() - 1 {
                        assert(value_ok(c, ks.drop_last()[i], v[i], s.consts.len()));
                    }
                }
            }
        }
    }
}

/// A statement's effect on what holds: the reading stays fine, continues, and the
/// new ops are properly nested.
spec fn good_step(c: Text, st: Reading, s: Reading) -> bool {
    fine(c, s) && grew(st, s) && nested(s.ops, st.ops.len() as int, s.ops.len() as int)
}

proof fn lemma_plain(c: Text, t: Token, ks: Seq<Operand>, st: Reading)
    requires
        fine(c, st),
        shape(t) == Some(ks),
    ensures
        plain(c, t, ks, st) matches Ok(s) ==> good_step(c, st, s),
{
    lemma_operands(c, ks, st);
    if let Ok((v, s)) = operands(c, ks, st) {
        let op = assembled(t, v);
        assert(op_ok(op, c.nq, s.consts.len(), s.terms.len(), params_of(s.gates))) by {
            if ks.len() > 0 {
                assert(value_ok(c, ks[0], v[0], s.consts.len()));
            }
            if ks.len() > 1 {
                assert(value_ok(c, ks[1], v[1], s.consts.len()));
            }
            if ks.len() > 2 {
                assert(value_ok(c, ks[2], v[2], s.consts.len()));
            }
        }
        lemma_emitted(c, s, op);
        if let Ok(s2) = emitted(s, op) {
            lemma_grew_trans(st, s, s2);
            lemma_plain_nested(s2.ops, st.ops.len() as int, s2.ops.len() as int);
        }
    }
}

proof fn lemma_mcx(c: Text, st: Reading)
    requires
        fine(c, st),
    ensures
        mcx(c, st) matches Ok(s) ==> good_step(c, st, s),
{
    if let Some(Token::Number(m)) = tok(c, st.pos) {
        let st1 = Reading { pos: st.pos + 1, ..st };
        lemma_operand(c, Operand::Qubit, st1);
        if let Ok((t, s)) = operand(c, Operand::Qubit, st1) {
            if mcx(c, st) is Ok {
                let op = IrOp::MCX(m, t as u8);
                lemma_emitted(c, s, op);
                let s2 = mcx(c, st)->Ok_0;
                lemma_plain_nested(s2.ops, st.ops.len() as int, s2.ops.len() as int);
            }
        }
    }
}

proof fn lemma_estimate_terms(c: Text, st: Reading, n: nat)
    requires
        fine(c, st),
        n <= st.terms.len(),
    ensures
        estimate_terms(c, st, n) matches Ok((s, k)) ==> {
            &&& fine(c, s)
            &&& grew(st, s)
            &&& s.ops == st.ops
            &&& s.gates == st.gates
            &&& k - n == s.terms.len() - st.terms.len()
            &&& k >= n
        },
    decreases c.tokens.len() - st.pos,
{
    let neg = tok(c, st.pos) == Some(Token::Minus);
    let at = if neg {
        st.pos + 1
    } else {
        st.pos
    };
    let coef = match tok(c, at) {
        Some(Token::Number(x)) => Some(whole_literal(x, neg)),
        Some(Token::Float(l)) => Some(Literal { negative: neg, ..l }),
        _ => None,
    };
    if let Some(l) = coef {
        if let Some(Token::Pauli(code)) = tok(c, at + 1) {
            if pauli_declared(code, c.nq) && st.terms.len() < MAX_ESTIMATE_TERMS {
                let s = Reading { pos: at + 2, terms: st.terms.push((l, code)), ..st };
                assert(grew(st, s));
                assert forall|i: int| 0 <= i < s.ops.len() implies op_ok(
                    #[trigger] s.ops[i],
                    c.nq,
                    s.consts.len(),
                    s.terms.len(),
                    params_of(s.gates),
                ) by {
                    assert(st.ops[i] == s.ops[i]);
                    lemma_op_ok_grows(c, st, s, st.ops[i]);
                }
                assert(fine(c, s));
                lemma_estimate_terms(c, s, n + 1);
                if let Ok((s2, k)) = estimate_terms(c, s, n + 1) {
                    lemma_grew_trans(st, s, s2);
                }
            }
        }
    }
}

proof fn lemma_estimate(c: Text, st: Reading)
    requires
        fine(c, st),
    ensures
        estimate(c, st) matches Ok(s) ==> good_step(c, st, s),
{
    lemma_estimate_terms(c, st, 0);
    if let Ok((s, n)) = estimate_terms(c, st, 0) {
        if n > 0 {
            let op = IrOp::Estimate(st.terms.len() as u16, n as u16);
            lemma_emitted(c, s, op);
            if let Ok(s2) = emitted(s, op) {
                lemma_grew_trans(st, s, s2);
                lemma_plain_nested(s2.ops, st.ops.len() as int, s2.ops.len() as int);
            }
        }
    }
}

proof fn lemma_lists(c: Text, pos: int, l: Seq<u8>)
    requires
        c.nq <= MAX_QUBITS,
        l.len() <= MAX_CLASSICAL,
    ensures
        (forall|i: int| 0 <= i < l.len() ==> #[trigger] l[i] < c.nq) ==> (qubit_list(
            c,
            pos,
            l,
        ) matches Ok((qs, _)) ==> forall|i: int| 0 <= i < qs.len() ==> #[trigger] qs[i] < c.nq),
        (forall|i: int| 0 <= i < l.len() ==> #[trigger] l[i] < MAX_CLASSICAL) ==> (target_list(
            c,
            pos,
            l,
        ) matches Ok((cs, _)) ==> forall|i: int|
            0 <= i < cs.len() ==> #[trigger] cs[i] < MAX_CLASSICAL),
    decreases c.tokens.len() - pos,
{
    match tok(c, pos) {
        Some(Token::Number(n)) => {
            if n < c.nq && l.len() < MAX_CLASSICAL {
                lemma_lists(c, pos + 1, l.push(n as u8));
            }
        },
        Some(Token::ClassicalRef(n)) => {
            if n < MAX_CLASSICAL && l.len() < MAX_CLASSICAL {
                lemma_lists(c, pos + 1, l.push(n as u8));
            }
        },
        _ => {},
    }
}

proof fn lemma_measures(c: Text, st: Reading, t: Token, qs: Seq<u8>, cs: Seq<u8>, k: nat)
    requires
        fine(c, st),
        k <= qs.len(),
        k <= cs.len(),
        forall|i: int| 0 <= i < qs.len() ==> #[trigger] qs[i] < c.nq,
        forall|i: int| 0 <= i < cs.len() ==> #[trigger] cs[i] < MAX_CLASSICAL,
    ensures
        measures(st, t, qs, cs, k) matches Ok(s) ==> {
            &&& fine(c, s)
            &&& grew(st, s)
            &&& forall|i: int|
                st.ops.len() <= i < s.ops.len() ==> body_of(#[trigger] s.ops[i]) is None
        },
    decreases k,
{
    if k > 0 {
        lemma_measures(c, st, t, qs, cs, (k - 1) as nat);
        if let Ok(s) = measures(st, t, qs, cs, (k - 1) as nat) {
            let (q, b) = (qs[k - 1], cs[k - 1]);
            let s1 = Reading {
                bytes: if b >= s.bytes {
                    (b + 1) as u8
                } else {
                    s.bytes
                },
                ..s
            };
            assert(fine(c, s1));
            let op = match t {
                Token::MeasureX => IrOp::MeasureX(q, b),
                Token::MeasureY => IrOp::MeasureY(q, b),
                _ => IrOp::Measure(q, b),
            };
            lemma_emitted(c, s1, op);
            if let Ok(s2) = emitted(s1, op) {
                lemma_grew_trans(st, s, s2);
            }
        }
    }
}

proof fn lemma_measure(c: Text, t: Token, st: Reading)
    requires
        fine(c, st),
    ensures
        measure(c, t, st) matches Ok(s) ==> good_step(c, st, s),
{
    lemma_operand(c, Operand::Qubit, st);
    if let Ok((first, s)) = operand(c, Operand::Qubit, st) {
        lemma_lists(c, s.pos, seq![first as u8]);
        if let Ok((qs, p)) = qubit_list(c, s.pos, seq![first as u8]) {
            if tok(c, p) == Some(Token::Arrow) {
                lemma_lists(c, p + 1, Seq::empty());
                if let Ok((cs, p2)) = target_list(c, p + 1, Seq::empty()) {
                    if cs.len() == qs.len() {
                        let s1 = Reading { pos: p2, ..s };
                        lemma_measures(c, s1, t, qs, cs, qs.len());
                        if let Ok(s2) = measures(s1, t, qs, cs, qs.len()) {
                            lemma_grew_trans(st, s1, s2);
                            lemma_plain_nested(s2.ops, st.ops.len() as int, s2.ops.len() as int);
                        }
                    }
                }
            } else {
                let s1 = Reading { pos: p, ..s };
                lemma_measures(c, s1, t, qs, qs, qs.len());
                if let Ok(s2) = measures(s1, t, qs, qs, qs.len()) {
                    lemma_grew_trans(st, s1, s2);
                    lemma_plain_nested(s2.ops, st.ops.len() as int, s2.ops.len() as int);
                }
            }
        }
    }
}

proof fn lemma_gate_def(c: Text, st: Reading)
    requires
        fine(c, st),
    ensures
        gate_def(c, st) matches Ok(s) ==> good_step(c, st, s),
{
    if let Ok(s) = gate_def(c, st) {
        assert(grew(st, s));
        assert forall|i: int| 0 <= i < s.ops.len() implies op_ok(
            #[trigger] s.ops[i],
            c.nq,
            s.consts.len(),
            s.terms.len(),
            params_of(s.gates),
        ) by {
            assert(st.ops[i] == s.ops[i]);
            lemma_op_ok_grows(c, st, s, st.ops[i]);
        }
    }
}

proof fn lemma_found(gates: Seq<GateView>, name: Seq<u8>, from: int)
    requires
        gates.len() <= MAX_SUBS,
        from >= 0,
    ensures
        found(gates, name, from) matches Some(i) ==> i < gates.len(),
    decreases gates.len() - from,
{
    if from < gates.len() {
        lemma_found(gates, name, from + 1);
    }
}

proof fn lemma_gate_call(c: Text, st: Reading)
    requires
        fine(c, st),
    ensures
        gate_call(c, st) matches Ok(s) ==> good_step(c, st, s),
{
    lemma_found(st.gates, c.names[st.pos - 1], 0);
    if let Some(id) = found(st.gates, c.names[st.pos - 1], 0) {
        let np = st.gates[id as int].nparams;
        let ks = Seq::new(np as nat, |k: int| Operand::Qubit);
        lemma_operands(c, ks, st);
        if let Ok((v, s)) = operands(c, ks, st) {
            if let Ok(s2) = gate_call(c, st) {
                assert(value_ok(c, ks[0], v[0], s.consts.len()));
                if np > 1 {
                    assert(value_ok(c, ks[1], v[1], s.consts.len()));
                }
                if np > 2 {
                    assert(value_ok(c, ks[2], v[2], s.consts.len()));
                }
                let op = s2.ops.last();
                assert(params_of(st.gates)[id as int] == np);
                lemma_emitted(c, s, op);
                lemma_grew_trans(st, s, s2);
                lemma_plain_nested(s2.ops, st.ops.len() as int, s2.ops.len() as int);
            }
        }
    }
}

proof fn lemma_flat(c: Text, t: Token, st: Reading)
    requires
        fine(c, st),
    ensures
        flat(c, t, st) matches Ok(s) ==> good_step(c, st, s),
{
    match shape(t) {
        Some(ks) => lemma_plain(c, t, ks, st),
        None => match t {
            Token::Mcx => lemma_mcx(c, st),
            Token::Estimate => lemma_estimate(c, st),
            Token::Measure | Token::MeasureX | Token::MeasureY => lemma_measure(c, t, st),
            Token::Gate => lemma_gate_def(c, st),
            Token::Ident => lemma_gate_call(c, st),
            _ => {},
        },
    }
}

proof fn lemma_body(c: Text, st: Reading, depth: nat)
    requires
        fine(c, st),
    ensures
        body(c, st, depth) matches Ok(s) ==> good_step(c, st, s),
    decreases left(c, st.pos), 3int,
{
    if depth <= MAX_NESTING {
        lemma_statements(c, st, depth);
    }
}

proof fn lemma_statements(c: Text, st: Reading, depth: nat)
    requires
        fine(c, st),
    ensures
        statements(c, st, depth) matches Ok(s) ==> good_step(c, st, s),
    decreases left(c, st.pos), 2int,
{
    if let Some(t) = tok(c, st.pos) {
        if t == Token::Newline {
            lemma_statements(c, Reading { pos: st.pos + 1, ..st }, depth);
        } else if !ends_block(t) {
            lemma_statement(c, st, depth);
            if let Ok(s) = statement(c, st, depth) {
                if s.pos > st.pos {
                    lemma_statements(c, s, depth);
                    if let Ok(s2) = statements(c, s, depth) {
                        lemma_grew_trans(st, s, s2);
                        lemma_nested_same(
                            s.ops,
                            s2.ops,
                            st.ops.len() as int,
                            s.ops.len() as int,
                        );
                        lemma_nested_join(
                            s2.ops,
                            st.ops.len() as int,
                            s.ops.len() as int,
                            s2.ops.len() as int,
                        );
                    }
                }
            }
        }
    }
}

proof fn lemma_statement(c: Text, st: Reading, depth: nat)
    requires
        fine(c, st),
    ensures
        statement(c, st, depth) matches Ok(s) ==> good_step(c, st, s),
    decreases left(c, st.pos), 1int,
{
    let t = match tok(c, st.pos) {
        Some(t) => t,
        None => Token::Error,
    };
    match t {
        Token::If => {
            if let Ok((h, p)) = if_head(c, st.pos + 1) {
                lemma_block(c, h, st.pos, Reading { pos: p, ..st }, depth);
            }
        },
        Token::Shot => {
            if let Ok((count, p, bare)) = shot_head(c, st.pos + 1) {
                let s1 = Reading { pos: p, ..st };
                if bare {
                    if let Ok(s) = bare_shot(c, count, s1) {
                        let s0 = Reading { pos: s.pos, shot: true, ..s1 };
                        assert(sound(c, s0));
                        lemma_emitted(c, s0, IrOp::Shot(count, 0, 0));
                        lemma_plain_nested(s.ops, st.ops.len() as int, s.ops.len() as int);
                    }
                } else {
                    lemma_block(c, Head::Repeat(count), st.pos, s1, depth);
                }
            }
        },
        _ => lemma_flat(c, t, Reading { pos: st.pos + 1, ..st }),
    }
}

proof fn lemma_block(c: Text, h: Head, from: int, st: Reading, depth: nat)
    requires
        fine(c, st),
        match h {
            Head::Branch(b, _, _) => b < MAX_CLASSICAL,
            Head::Repeat(n) => n >= 1,
        },
    ensures
        block(c, h, from, st, depth) matches Ok(s) ==> good_step(c, st, s),
    decreases left(c, from), 0int,
{
    lemma_emitted(c, st, IrOp::Print);
    if let Ok(s) = opened(st) {
        if 0 <= from < s.pos <= c.tokens.len() {
            lemma_body(c, s, depth + 1);
            if let Ok(s2) = body(c, s, depth + 1) {
                lemma_grew_trans(st, s, s2);
                let slot = st.ops.len() as int;
                if let Ok(s3) = closed(c, h, slot, s2) {
                    let len = s2.ops.len() - slot - 1;
                    let op = headed(h, (slot + 1) as u16, len as u16);
                    assert(s3.ops == s2.ops.update(slot, op));
                    assert(s2.ops[slot] == s.ops[slot]);
                    lemma_shot_replaced(s2.ops, slot, op);
                    assert(op_ok(
                        op,
                        c.nq,
                        s3.consts.len(),
                        s3.terms.len(),
                        params_of(s3.gates),
                    ));
                    assert forall|i: int| 0 <= i < s3.ops.len() implies op_ok(
                        #[trigger] s3.ops[i],
                        c.nq,
                        s3.consts.len(),
                        s3.terms.len(),
                        params_of(s3.gates),
                    ) by {
                        if i != slot {
                            assert(s3.ops[i] == s2.ops[i]);
                        }
                    }
                    assert forall|i: int| 0 <= i < st.ops.len() implies #[trigger] st.ops[i]
                        == s3.ops[i] by {
                        assert(st.ops[i] == s2.ops[i]);
                    }
                    lemma_nested_same(s2.ops, s3.ops, slot + 1, s3.ops.len() as int);
                    assert(nested(s3.ops, slot + 1, s3.ops.len() as int));
                    assert(nested(s3.ops, s3.ops.len() as int, s3.ops.len() as int));
                    assert(s3.ops[slot] == op);
                    if len == 0 {
                        assert(nested(s3.ops, slot, s3.ops.len() as int));
                    } else {
                        assert(body_of(op) == Some((slot + 1, s3.ops.len() as int)));
                        assert(nested(s3.ops, slot, s3.ops.len() as int));
                    }
                }
            }
        }
    }
}

pub proof fn lemma_sub_keeps_gates(c: Text, st: Reading, depth: nat, which: int)
    requires
        c.sub,
        0 <= which <= 2,
    ensures
        which == 2 ==> (body(c, st, depth) matches Ok(s) ==> s.gates == st.gates),
        which == 1 ==> (statements(c, st, depth) matches Ok(s) ==> s.gates == st.gates),
        which == 0 ==> (statement(c, st, depth) matches Ok(s) ==> s.gates == st.gates),
    decreases left(c, st.pos), which,
{
    if which == 2 {
        lemma_sub_keeps_gates(c, st, depth, 1);
    } else if which == 1 {
        if let Some(t) = tok(c, st.pos) {
            if t == Token::Newline {
                lemma_sub_keeps_gates(c, Reading { pos: st.pos + 1, ..st }, depth, 1);
            } else if !ends_block(t) {
                lemma_sub_keeps_gates(c, st, depth, 0);
                if let Ok(s) = statement(c, st, depth) {
                    if s.pos > st.pos {
                        lemma_sub_keeps_gates(c, s, depth, 1);
                    }
                }
            }
        }
    } else {
        let t = match tok(c, st.pos) {
            Some(t) => t,
            None => Token::Error,
        };
        match t {
            Token::If => {
                if let Ok((h, p)) = if_head(c, st.pos + 1) {
                    if let Ok(s) = opened(Reading { pos: p, ..st }) {
                        if 0 <= st.pos < s.pos <= c.tokens.len() {
                            lemma_sub_keeps_gates(c, s, depth + 1, 2);
                        }
                    }
                }
            },
            Token::Shot => {
                if let Ok((count, p, bare)) = shot_head(c, st.pos + 1) {
                    if let Ok(s) = opened(Reading { pos: p, ..st }) {
                        if 0 <= st.pos < s.pos <= c.tokens.len() {
                            lemma_sub_keeps_gates(c, s, depth + 1, 2);
                        }
                    }
                }
            },
            _ => lemma_flat_keeps_gates(c, t, Reading { pos: st.pos + 1, ..st }),
        }
    }
}

proof fn lemma_flat_keeps_gates(c: Text, t: Token, st: Reading)
    requires
        c.sub,
    ensures
        flat(c, t, st) matches Ok(s) ==> s.gates == st.gates,
{
    match shape(t) {
        Some(ks) => lemma_operands_gates(c, ks, st),
        None => match t {
            Token::Estimate => lemma_estimate_gates(c, st, 0),
            Token::Measure | Token::MeasureX | Token::MeasureY => {
                if let Ok((first, s)) = operand(c, Operand::Qubit, st) {
                    if let Ok((qs, p)) = qubit_list(c, s.pos, seq![first as u8]) {
                        lemma_measures_gates(Reading { pos: p, ..s }, t, qs, qs, qs.len());
                        if let Ok((cs, p2)) = target_list(c, p + 1, Seq::empty()) {
                            lemma_measures_gates(Reading { pos: p2, ..s }, t, qs, cs, qs.len());
                        }
                    }
                }
            },
            Token::Ident => {
                if let Some(id) = found(st.gates, c.names[st.pos - 1], 0) {
                    let np = st.gates[id as int].nparams;
                    lemma_operands_gates(c, Seq::new(np as nat, |k: int| Operand::Qubit), st);
                }
            },
            _ => {},
        },
    }
}

proof fn lemma_operands_gates(c: Text, ks: Seq<Operand>, st: Reading)
    ensures
        operands(c, ks, st) matches Ok((v, s)) ==> s.gates == st.gates,
    decreases ks.len(),
{
    if ks.len() > 0 {
        lemma_operands_gates(c, ks.drop_last(), st);
    }
}

proof fn lemma_estimate_gates(c: Text, st: Reading, n: nat)
    ensures
        estimate_terms(c, st, n) matches Ok((s, _)) ==> s.gates == st.gates,
    decreases c.tokens.len() - st.pos,
{
    let neg = tok(c, st.pos) == Some(Token::Minus);
    let at = if neg {
        st.pos + 1
    } else {
        st.pos
    };
    let coef = match tok(c, at) {
        Some(Token::Number(x)) => Some(whole_literal(x, neg)),
        Some(Token::Float(l)) => Some(Literal { negative: neg, ..l }),
        _ => None,
    };
    if let Some(l) = coef {
        if let Some(Token::Pauli(code)) = tok(c, at + 1) {
            lemma_estimate_gates(
                c,
                Reading { pos: at + 2, terms: st.terms.push((l, code)), ..st },
                n + 1,
            );
        }
    }
}

proof fn lemma_measures_gates(st: Reading, t: Token, qs: Seq<u8>, cs: Seq<u8>, k: nat)
    ensures
        measures(st, t, qs, cs, k) matches Ok(s) ==> s.gates == st.gates,
    decreases k,
{
    if k > 0 {
        lemma_measures_gates(st, t, qs, cs, (k - 1) as nat);
    }
}

/// What holds of all gate bodies read so far.
spec fn bodies_ok(ops: Seq<IrOp>, subs: Seq<Sub>, base: int, gates: Seq<GateView>) -> bool {
    forall|k: int|
        0 <= k < subs.len() ==> {
            let s = #[trigger] subs[k];
            base <= s.off && s.off + s.len <= ops.len() && nested(
                ops,
                s.off as int,
                s.off + s.len,
            ) && s.nparams == gates[k].nparams
        }
}

proof fn lemma_gate_bodies(c: Text, st: Reading, subs: Seq<Sub>, n: nat, base: int)
    requires
        fine(c, st),
        c.sub,
        subs.len() <= n == st.gates.len(),
        0 <= base <= st.ops.len(),
        bodies_ok(st.ops, subs, base, st.gates),
    ensures
        gate_bodies(c, st, subs, n) matches Ok((s, all)) ==> {
            &&& fine(c, s)
            &&& grew(st, s)
            &&& s.gates == st.gates
            &&& all.len() == n
            &&& bodies_ok(s.ops, all, base, s.gates)
        },
    decreases n - subs.len(),
{
    let i = subs.len() as int;
    if i < n {
        let st1 = Reading { pos: st.gates[i].start, ..st };
        lemma_body(c, st1, 0);
        lemma_sub_keeps_gates(c, st1, 0, 2);
        if let Ok(s) = body(c, st1, 0) {
            if tok(c, s.pos) == Some(Token::Endgate) {
                let x = Sub {
                    off: st.ops.len() as u16,
                    len: (s.ops.len() - st.ops.len()) as u16,
                    nparams: st.gates[i].nparams,
                };
                let more = subs.push(x);
                assert forall|k: int| 0 <= k < more.len() implies ({
                    let u = #[trigger] more[k];
                    base <= u.off && u.off + u.len <= s.ops.len() && nested(
                        s.ops,
                        u.off as int,
                        u.off + u.len,
                    ) && u.nparams == s.gates[k].nparams
                }) by {
                    if k < i {
                        let u = subs[k];
                        lemma_nested_same(st.ops, s.ops, u.off as int, u.off + u.len);
                    }
                }
                lemma_gate_bodies(c, s, more, n, base);
                if let Ok((s2, all)) = gate_bodies(c, s, more, n) {
                    lemma_grew_trans(st, s, s2);
                }
            }
        }
    }
}

/// Every accepted program is well-formed: all limits are kept, every operand is in
/// range, and bodies are properly nested.
pub proof fn law_accepted_programs_are_well_formed(lex: LexResult)
    ensures
        lowered(lex) matches Ok(l) ==> well_formed(l),
{
    if let Ok((nq, pos)) = declaration(text_of(lex, 0, false)) {
        let c = text_of(lex, nq, false);
        let d = text_of(lex, nq, true);
        let st = Reading {
            pos,
            ops: Seq::empty(),
            consts: Seq::empty(),
            terms: Seq::empty(),
            bytes: nq,
            shot: false,
            gates: Seq::empty(),
        };
        lemma_body(c, st, 0);
        if let Ok(s) = main_part(c, pos) {
            assert(fine(d, s));
            lemma_gate_bodies(d, s, Seq::empty(), s.gates.len(), s.ops.len() as int);
            if let Ok((t, subs)) = gate_bodies(d, s, Seq::empty(), s.gates.len()) {
                let l = lowered(lex)->Ok_0;
                assert(subs.map_values(|u: Sub| u.nparams) =~= params_of(t.gates));
                lemma_nested_same(s.ops, t.ops, 0, s.ops.len() as int);
                assert(well_formed(l));
            }
        }
    }
}

/// The limits of the language.
pub proof fn law_limits()
    ensures
        MAX_QUBITS == 28,
        MAX_OPS == 16384,
        MAX_CLASSICAL == 64,
        MAX_CONSTS == 1024,
        MAX_SUBS == 128,
        MAX_ESTIMATE_TERMS == 256,
        MAX_NESTING == 32,
        NO_ARG == 255,
        crate::grammar::MAX_NAME == 16,
        crate::lexer::MAX_TOKENS == 16384,
        crate::lexer::MAX_NAMES == 4096,
        crate::stabilizer::STAB_MAX_QUBITS == 28,
        crate::device::MEGA_MAX_AMPS == 8192,
        crate::ir::IR_VERSION == 2,
{
}

} // verus!
