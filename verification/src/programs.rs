//! How a source text as a whole becomes a program: statements in sequence, the main region,
//! and the bodies of gates behind it; and which statements are accepted.
use crate::grammar::{
    block, body, body_start, closed, declaration, estimate, estimate_terms, found, gate_bodies,
    gate_call, gate_def, gate_end, if_head, lowered, main_part, measure, measures, operand,
    operands, past_newlines, pauli_declared, plain, qubit_list, shape, shot_head, statement,
    statements, target_list, text_of, tok, Complaint, GateView, Head, Lowered, Operand, Reading,
    Text,
};
use crate::ir::{IrOp, Sub};
use crate::lexer::{LexResult, Literal, Token};
use crate::spelling::{adds_to, law_statements_only_add, measuring, writes_terms};
use crate::wellformed::lemma_sub_keeps_gates;
use vstd::prelude::*;

verus! {

/// A body is read statement by statement: line ends are skipped, a word that ends a block
/// ends it, and any other statement is read and the body goes on behind it. Bodies lie in
/// each other at most 32 deep.
pub proof fn law_bodies_are_sequences(c: Text, st: Reading, depth: nat)
    requires
        0 <= st.pos,
    ensures
        depth > 32 ==> body(c, st, depth) is Err,
        depth <= 32 ==> body(c, st, depth) == match tok(c, st.pos) {
            None | Some(Token::Endif) | Some(Token::Endshot) | Some(Token::Endgate) | Some(
                Token::End,
            ) | Some(Token::Halt) | Some(Token::Eof) => Ok(st),
            Some(Token::Newline) => body(c, Reading { pos: st.pos + 1, ..st }, depth),
            _ => match statement(c, st, depth) {
                Ok(s) => if s.pos > st.pos {
                    body(c, s, depth)
                } else {
                    body(c, st, depth)
                },
                Err(e) => Err(e),
            },
        },
{
}

/// Where the main part of a program starts: behind `QUBITS` and the number of qubits.
pub open spec fn main_start(c: Text, nq: u8, from: int) -> bool {
    let p = past_newlines(c, 0);
    &&& tok(c, p) == Some(Token::Qubits)
    &&& tok(c, p + 1) == Some(Token::Number(nq as u32))
    &&& from == past_newlines(c, p + 2)
}

/// The reading of a program with `nq` qubits at its start: nothing was produced yet, and
/// there is one classical byte per qubit.
pub open spec fn fresh(nq: u8, pos: int) -> Reading {
    Reading {
        pos,
        ops: Seq::empty(),
        consts: Seq::empty(),
        terms: Seq::empty(),
        bytes: nq,
        shot: false,
        gates: Seq::empty(),
    }
}

/// Whether the body of a gate was read from the place where its definition starts into the
/// slice of its subprogram.
#[verifier::opaque]
pub open spec fn read_into(c: Text, g: GateView, sub: Sub, ops: Seq<IrOp>) -> bool {
    exists|before: Reading, after: Reading|
        {
            &&& before.pos == g.start
            &&& before.ops.len() == sub.off
            &&& #[trigger] adds_to(before, after)
            &&& body(c, before, 0) == Ok::<Reading, Complaint>(after)
            &&& after.ops.len() == sub.off + sub.len
            &&& after.ops.is_prefix_of(ops)
            &&& tok(c, after.pos) == Some(Token::Endgate)
        }
}

/// Whether the subprograms from the `i`th on stand one behind the other in `ops[from..]`,
/// each read from the definition of its gate.
spec fn chained(
    c: Text,
    gates: Seq<GateView>,
    subs: Seq<Sub>,
    ops: Seq<IrOp>,
    i: int,
    from: int,
) -> bool
    decreases subs.len() - i,
{
    if i >= subs.len() {
        from == ops.len()
    } else {
        &&& subs[i].off == from
        &&& subs[i].nparams == gates[i].nparams
        &&& read_into(c, gates[i], subs[i], ops)
        &&& chained(c, gates, subs, ops, i + 1, from + subs[i].len)
    }
}

proof fn lemma_gate_bodies_chained(c: Text, st: Reading, subs: Seq<Sub>, n: nat)
    requires
        c.sub,
        c.nq <= 254,
        subs.len() <= n <= st.gates.len(),
    ensures
        gate_bodies(c, st, subs, n) matches Ok((t, all)) ==> {
            &&& all.len() == n
            &&& subs.is_prefix_of(all)
            &&& adds_to(st, t)
            &&& t.gates == st.gates
            &&& t.ops.len() <= 0xFFFF ==> chained(
                c,
                st.gates,
                all,
                t.ops,
                subs.len() as int,
                st.ops.len() as int,
            )
        },
    decreases n - subs.len(),
{
    let i = subs.len() as int;
    if let Ok((t, all)) = gate_bodies(c, st, subs, n) {
        if i >= n {
            assert(subs.is_prefix_of(all));
            lemma_same(st);
        } else {
            let r0 = Reading { pos: st.gates[i].start, ..st };
            law_statements_only_add(c, r0, 0, 2);
            lemma_sub_keeps_gates(c, r0, 0, 2);
            let s = body(c, r0, 0)->Ok_0;
            let sub = Sub {
                off: st.ops.len() as u16,
                len: (s.ops.len() - st.ops.len()) as u16,
                nparams: st.gates[i].nparams,
            };
            let more = subs.push(sub);
            lemma_gate_bodies_chained(c, s, more, n);
            assert(more.is_prefix_of(all));
            assert(all[i] == sub) by {
                assert(more[i] == all.take(more.len() as int)[i]);
            }
            assert(subs =~= all.take(i)) by {
                assert forall|k: int| 0 <= k < i implies subs[k] == all[k] by {
                    assert(more[k] == all.take(more.len() as int)[k]);
                }
            }
            lemma_trans(st, s, t);
            if t.ops.len() <= 0xFFFF {
                assert(s.ops.len() <= t.ops.len());
                assert(adds_to(r0, s));
                reveal(read_into);
                assert(read_into(c, st.gates[i], sub, t.ops));
            }
        }
    }
}

proof fn lemma_same(a: Reading)
    ensures
        adds_to(a, a),
{
    assert(a.ops =~= a.ops.take(a.ops.len() as int));
    assert(a.consts =~= a.consts.take(a.consts.len() as int));
    assert(a.terms =~= a.terms.take(a.terms.len() as int));
    assert(a.gates =~= a.gates.take(a.gates.len() as int));
}

proof fn lemma_prefix<T>(a: Seq<T>, b: Seq<T>, d: Seq<T>)
    requires
        a.is_prefix_of(b),
        b.is_prefix_of(d),
    ensures
        a.is_prefix_of(d),
{
    assert(a =~= d.take(a.len() as int)) by {
        assert forall|k: int| 0 <= k < a.len() implies a[k] == d[k] by {
            assert(a[k] == b.take(a.len() as int)[k]);
            assert(b[k] == d.take(b.len() as int)[k]);
        }
    }
}

proof fn lemma_trans(a: Reading, b: Reading, d: Reading)
    requires
        adds_to(a, b),
        adds_to(b, d),
    ensures
        adds_to(a, d),
{
    lemma_prefix(a.ops, b.ops, d.ops);
    lemma_prefix(a.consts, b.consts, d.consts);
    lemma_prefix(a.terms, b.terms, d.terms);
    lemma_prefix(a.gates, b.gates, d.gates);
}

/// Whether the subprograms of a program stand behind its main region, one behind the other,
/// each read from the definition of its gate and with its number of parameters.
pub open spec fn holds_bodies(c: Text, gates: Seq<GateView>, l: Lowered) -> bool {
    &&& l.subs.len() == gates.len()
    &&& forall|k: int|
        0 <= k < gates.len() ==> {
            let s = #[trigger] l.subs[k];
            &&& s.nparams == gates[k].nparams
            &&& s.off == if k == 0 {
                l.len as int
            } else {
                l.subs[k - 1].off + l.subs[k - 1].len
            }
            &&& read_into(c, gates[k], s, l.ops)
        }
    &&& l.ops.len() == if gates.len() == 0 {
        l.len as int
    } else {
        l.subs.last().off + l.subs.last().len
    }
}

proof fn lemma_chained(
    c: Text,
    gates: Seq<GateView>,
    l: Lowered,
    i: int,
    from: int,
)
    requires
        l.subs.len() == gates.len(),
        0 <= i <= gates.len(),
        chained(c, gates, l.subs, l.ops, i, from),
        from == if i == 0 {
            l.len as int
        } else {
            l.subs[i - 1].off + l.subs[i - 1].len
        },
        forall|k: int|
            0 <= k < i ==> {
                let s = #[trigger] l.subs[k];
                &&& s.nparams == gates[k].nparams
                &&& s.off == if k == 0 {
                    l.len as int
                } else {
                    l.subs[k - 1].off + l.subs[k - 1].len
                }
                &&& read_into(c, gates[k], s, l.ops)
            },
    ensures
        holds_bodies(c, gates, l),
    decreases gates.len() - i,
{
    if i < gates.len() {
        lemma_chained(c, gates, l, i + 1, from + l.subs[i].len);
    }
}

/// An accepted source declares its number of qubits, from 1 to 28. Its main region is what
/// the statements behind the declaration are lowered to, starting from nothing, up to an end
/// marker or the end; its subprograms are the bodies of the gates that were defined there,
/// in that order, behind the main region.
pub proof fn law_programs_are_main_region_and_bodies(lex: LexResult)
    requires
        lowered(lex) is Ok,
    ensures
        ({
            let l = lowered(lex)->Ok_0;
            let c = text_of(lex, l.num_qubits, false);
            exists|from: int|
                {
                    &&& #[trigger] main_start(c, l.num_qubits, from)
                    &&& 1 <= l.num_qubits <= 28
                    &&& body(c, fresh(l.num_qubits, from), 0) matches Ok(s) && {
                        &&& l.len == s.ops.len()
                        &&& s.ops.is_prefix_of(l.ops)
                        &&& s.consts.is_prefix_of(l.consts)
                        &&& s.terms.is_prefix_of(l.terms)
                        &&& s.bytes <= l.num_classical
                        &&& s.shot ==> l.has_explicit_shot
                        &&& s.gates.len() == 0 ==> s.ops == l.ops && s.consts == l.consts && s.terms
                            == l.terms && s.bytes == l.num_classical && s.shot
                            == l.has_explicit_shot
                        &&& match tok(c, past_newlines(c, s.pos)) {
                            None | Some(Token::Eof) | Some(Token::End) | Some(Token::Halt) => true,
                            _ => false,
                        }
                        &&& l.ops.len() <= 0xFFFF ==> holds_bodies(
                            text_of(lex, l.num_qubits, true),
                            s.gates,
                            l,
                        )
                    }
                }
        }),
{
    let l = lowered(lex)->Ok_0;
    let c0 = text_of(lex, 0, false);
    let (nq, from) = declaration(c0)->Ok_0;
    let c = text_of(lex, nq, false);
    let cs = text_of(lex, nq, true);
    lemma_newlines_same(c0, c, 0);
    let p = past_newlines(c, 0);
    lemma_newlines_same(c0, c, p + 2);
    assert(main_start(c, l.num_qubits, from));
    assert(fresh(nq, from) == (Reading {
        pos: from,
        ops: Seq::empty(),
        consts: Seq::empty(),
        terms: Seq::empty(),
        bytes: c.nq,
        shot: false,
        gates: Seq::empty(),
    }));
    let s = main_part(c, from)->Ok_0;
    assert(body(c, fresh(nq, from), 0) == Ok::<Reading, Complaint>(s));
    lemma_gate_bodies_chained(cs, s, Seq::empty(), s.gates.len());
    if l.ops.len() <= 0xFFFF {
        lemma_chained(cs, s.gates, l, 0, l.len as int);
    }
}

proof fn lemma_newlines_same(a: Text, b: Text, pos: int)
    requires
        a.tokens == b.tokens,
    ensures
        past_newlines(a, pos) == past_newlines(b, pos),
    decreases a.tokens.len() - pos,
{
    if tok(a, pos) == Some(Token::Newline) {
        lemma_newlines_same(a, b, pos + 1);
    }
}

/// Whether the tokens from `at` on are the numbers of a list of declared qubits that ends
/// there.
pub open spec fn lists_qubits(c: Text, at: int, qs: Seq<u8>) -> bool {
    &&& 0 <= at
    &&& forall|k: int|
        0 <= k < qs.len() ==> tok(c, at + k) == Some(Token::Number(#[trigger] qs[k] as u32)) && qs[k]
            < c.nq
    &&& !(tok(c, at + qs.len()) matches Some(Token::Number(_)))
}

/// Whether the tokens from `at` on are a list of classical bytes that ends there.
pub open spec fn lists_bytes(c: Text, at: int, cs: Seq<u8>) -> bool {
    &&& 0 <= at
    &&& forall|k: int|
        0 <= k < cs.len() ==> tok(c, at + k) == Some(Token::ClassicalRef(#[trigger] cs[k] as u32))
            && cs[k] < 64
    &&& !(tok(c, at + cs.len()) matches Some(Token::ClassicalRef(_)))
}

proof fn lemma_qubits_listed(c: Text, at: int, qs: Seq<u8>, k: nat)
    requires
        lists_qubits(c, at, qs),
        k <= qs.len() <= 64,
    ensures
        qubit_list(c, at + k, qs.take(k as int)) == Ok::<(Seq<u8>, int), Complaint>(
            (qs, at + qs.len()),
        ),
    decreases qs.len() - k,
{
    if k < qs.len() {
        lemma_qubits_listed(c, at, qs, k + 1);
        assert(qs.take(k as int).push(qs[k as int]) =~= qs.take((k + 1) as int));
        assert(tok(c, at + k) == Some(Token::Number(qs[k as int] as u32)));
    } else {
        assert(qs.take(k as int) =~= qs);
    }
}

proof fn lemma_bytes_listed(c: Text, at: int, cs: Seq<u8>, k: nat)
    requires
        lists_bytes(c, at, cs),
        k <= cs.len() <= 64,
    ensures
        target_list(c, at + k, cs.take(k as int)) == Ok::<(Seq<u8>, int), Complaint>(
            (cs, at + cs.len()),
        ),
    decreases cs.len() - k,
{
    if k < cs.len() {
        lemma_bytes_listed(c, at, cs, k + 1);
        assert(cs.take(k as int).push(cs[k as int]) =~= cs.take((k + 1) as int));
        assert(tok(c, at + k) == Some(Token::ClassicalRef(cs[k as int] as u32)));
    } else {
        assert(cs.take(k as int) =~= cs);
    }
}

proof fn lemma_measures_fit(st: Reading, t: Token, qs: Seq<u8>, cs: Seq<u8>, k: nat)
    requires
        st.ops.len() + k <= 16384,
    ensures
        measures(st, t, qs, cs, k) matches Ok(s) && s.ops.len() == st.ops.len() + k && s.pos
            == st.pos,
    decreases k,
{
    if k > 0 {
        lemma_measures_fit(st, t, qs, cs, (k - 1) as nat);
    }
}

/// A measurement of up to 64 declared qubits is accepted while there is room, with an arrow
/// and as many classical bytes, or without; with another number of bytes it is refused.
pub proof fn law_measurements_are_accepted(
    c: Text,
    st: Reading,
    depth: nat,
    qs: Seq<u8>,
    cs: Seq<u8>,
)
    requires
        0 <= st.pos < c.tokens.len(),
        measuring(c.tokens[st.pos]),
        1 <= qs.len() <= 64,
        cs.len() <= 64,
        lists_qubits(c, st.pos + 1, qs),
        st.ops.len() + qs.len() <= 16384,
    ensures
        tok(c, st.pos + 1 + qs.len()) != Some(Token::Arrow) ==> (statement(c, st, depth) matches Ok(
            s,
        ) && s.ops.len() == st.ops.len() + qs.len() && s.pos == st.pos + 1 + qs.len()),
        tok(c, st.pos + 1 + qs.len()) == Some(Token::Arrow) && lists_bytes(
            c,
            st.pos + 2 + qs.len(),
            cs,
        ) ==> if cs.len() == qs.len() {
            statement(c, st, depth) matches Ok(s) && s.ops.len() == st.ops.len() + qs.len() && s.pos
                == st.pos + 2 + 2 * qs.len()
        } else {
            statement(c, st, depth) is Err
        },
{
    let t = c.tokens[st.pos];
    let next = Reading { pos: st.pos + 1, ..st };
    assert(statement(c, st, depth) == measure(c, t, next));
    assert(tok(c, st.pos + 1 + 0) == Some(Token::Number(qs[0] as u32)));
    lemma_qubits_listed(c, st.pos + 1, qs, 1);
    assert(qs.take(1) =~= seq![qs[0]]);
    let p = st.pos + 1 + qs.len();
    lemma_measures_fit(Reading { pos: p, ..next }, t, qs, qs, qs.len());
    if tok(c, p) == Some(Token::Arrow) && lists_bytes(c, p + 1, cs) {
        lemma_bytes_listed(c, p + 1, cs, 0);
        assert(cs.take(0) =~= Seq::empty());
        if cs.len() == qs.len() {
            let p2 = p + 1 + cs.len();
            lemma_measures_fit(Reading { pos: p2, ..next }, t, qs, cs, qs.len());
        }
    }
}

/// Whether the products of terms that are written from token `at` on name declared qubits
/// only.
pub open spec fn terms_declared(c: Text, at: int, ts: Seq<(Literal, u64)>) -> bool
    decreases ts.len(),
{
    if ts.len() == 0 {
        true
    } else {
        let p = if ts[0].0.negative {
            at + 2
        } else {
            at + 1
        };
        &&& c.tops[p] < c.nq
        &&& forall|q: u64| q < 32 && q >= c.nq ==> #[trigger] ((ts[0].1 >> (2 * q) as u64) & 3) == 0
        &&& terms_declared(c, p + 1, ts.drop_first())
    }
}

proof fn lemma_terms_accepted(c: Text, st: Reading, n: nat, to: int, ts: Seq<(Literal, u64)>)
    requires
        writes_terms(c, st.pos, to, ts),
        terms_declared(c, st.pos, ts),
        0 <= to,
        tok(c, to) matches Some(t) ==> !(t is Number || t is Float || t is Minus),
        st.terms.len() + ts.len() <= 256,
    ensures
        estimate_terms(c, st, n) == Ok::<(Reading, nat), Complaint>(
            (Reading { pos: to, terms: st.terms + ts, ..st }, n + ts.len()),
        ),
    decreases ts.len(),
{
    if ts.len() == 0 {
        assert(st.terms + ts =~= st.terms);
    } else {
        let (l, code) = ts[0];
        let at = if l.negative {
            st.pos + 1
        } else {
            st.pos
        };
        let mid = Reading { pos: at + 2, terms: st.terms.push((l, code)), ..st };
        lemma_terms_accepted(c, mid, n + 1, to, ts.drop_first());
        assert(st.terms.push((l, code)) + ts.drop_first() =~= st.terms + ts);
        if !l.negative {
            assert(c.tokens[st.pos] != Token::Minus);
        }
    }
}

/// A weighted sum of products on declared qubits is accepted while there is room, and its
/// terms are put behind those that were there.
pub proof fn law_estimates_are_accepted(
    c: Text,
    st: Reading,
    depth: nat,
    to: int,
    ts: Seq<(Literal, u64)>,
)
    requires
        0 <= st.pos < c.tokens.len(),
        c.tokens[st.pos] == Token::Estimate,
        0 <= to,
        ts.len() > 0,
        writes_terms(c, st.pos + 1, to, ts),
        terms_declared(c, st.pos + 1, ts),
        tok(c, to) matches Some(t) ==> !(t is Number || t is Float || t is Minus),
        st.terms.len() + ts.len() <= 256,
        st.ops.len() < 16384,
    ensures
        statement(c, st, depth) matches Ok(s) && s.pos == to && s.terms == st.terms + ts,
{
    let next = Reading { pos: st.pos + 1, ..st };
    lemma_terms_accepted(c, next, 0, to, ts);
    assert(statement(c, st, depth) == estimate(c, next));
}

/// A branch whose head is complete is accepted if its body is and `ENDIF` follows.
pub proof fn law_branches_are_accepted(c: Text, st: Reading, depth: nat, r: Reading)
    requires
        0 <= st.pos < c.tokens.len(),
        st.ops.len() < 16384,
        c.tokens[st.pos] == Token::If,
        tok(c, st.pos + 1) matches Some(Token::ClassicalRef(b)) && b < 64,
        tok(c, st.pos + 2) == Some(Token::Equals) || tok(c, st.pos + 2) == Some(Token::Ne),
        tok(c, st.pos + 3) matches Some(Token::Number(v)) && v < 256,
        tok(c, st.pos + 4) == Some(Token::Then),
        body(
            c,
            Reading {
                pos: past_newlines(c, st.pos + 5),
                ops: st.ops.push(IrOp::Print),
                ..st
            },
            depth + 1,
        ) == Ok::<Reading, Complaint>(r),
        tok(c, r.pos) == Some(Token::Endif),
    ensures
        statement(c, st, depth) is Ok,
{
    lemma_newlines_go_on(c, st.pos + 5);
    let (h, p) = if_head(c, st.pos + 1)->Ok_0;
    let start = Reading { pos: p, ..st };
    assert(statement(c, st, depth) == block(c, h, st.pos, start, depth));
    lemma_block_read(c, h, st.pos, start, depth);
}

/// A repetition with a body is accepted if its body is and `ENDSHOT` follows; one without is
/// accepted while there is room.
pub proof fn law_repetitions_are_accepted(c: Text, st: Reading, depth: nat, r: Reading)
    requires
        0 <= st.pos < c.tokens.len(),
        st.ops.len() < 16384,
        c.tokens[st.pos] == Token::Shot,
        tok(c, st.pos + 1) is Some,
        tok(c, st.pos + 1)->Some_0 is Number,
        tok(c, past_newlines(c, st.pos + 2)) matches Some(t) ==> body_start(t) ==> body(
            c,
            Reading {
                pos: past_newlines(c, st.pos + 2),
                ops: st.ops.push(IrOp::Print),
                ..st
            },
            depth + 1,
        ) == Ok::<Reading, Complaint>(r) && tok(c, r.pos) == Some(Token::Endshot),
    ensures
        statement(c, st, depth) is Ok,
{
    lemma_newlines_go_on(c, st.pos + 2);
    let (count, p, bare) = shot_head(c, st.pos + 1)->Ok_0;
    let start = Reading { pos: p, ..st };
    if !bare {
        let h = Head::Repeat(count);
        assert(statement(c, st, depth) == block(c, h, st.pos, start, depth));
        lemma_block_read(c, h, st.pos, start, depth);
    }
}

proof fn lemma_newlines_go_on(c: Text, pos: int)
    requires
        0 <= pos,
    ensures
        pos <= past_newlines(c, pos),
        pos <= c.tokens.len() ==> past_newlines(c, pos) <= c.tokens.len(),
    decreases c.tokens.len() - pos,
{
    if tok(c, pos) == Some(Token::Newline) {
        lemma_newlines_go_on(c, pos + 1);
    }
}

proof fn lemma_block_read(c: Text, h: Head, from: int, st: Reading, depth: nat)
    requires
        st.ops.len() < 16384,
        0 <= from < st.pos <= c.tokens.len(),
    ensures
        body(c, Reading { ops: st.ops.push(IrOp::Print), ..st }, depth + 1) matches Ok(r) ==> block(
            c,
            h,
            from,
            st,
            depth,
        ) == closed(c, h, st.ops.len() as int, r),
{
}

/// A call of a defined gate with as many declared qubits as it has parameters is accepted
/// while there is room.
pub proof fn law_calls_are_accepted(c: Text, st: Reading, depth: nat, id: int)
    requires
        0 <= st.pos < c.tokens.len(),
        c.tokens[st.pos] == Token::Ident,
        0 <= id < st.gates.len() <= 128,
        st.gates[id].name == c.names[st.pos],
        forall|k: int| 0 <= k < id ==> (#[trigger] st.gates[k]).name != c.names[st.pos],
        forall|k: int|
            0 <= k < st.gates[id].nparams ==> (#[trigger] tok(c, st.pos + 1 + k) matches Some(
                Token::Number(q),
            ) && q < c.nq),
        st.ops.len() < 16384,
    ensures
        statement(c, st, depth) matches Ok(s) && (s.ops.last() matches IrOp::Call(i, _, _, _) && i
            == id),
{
    let next = Reading { pos: st.pos + 1, ..st };
    lemma_first_found(st.gates, c.names[st.pos], 0, id);
    let np = st.gates[id].nparams;
    lemma_qubits_read(c, np as nat, next);
    assert(statement(c, st, depth) == gate_call(c, next));
}

proof fn lemma_first_found(gates: Seq<GateView>, name: Seq<u8>, from: int, id: int)
    requires
        0 <= from <= id < gates.len() <= 128,
        gates[id].name == name,
        forall|k: int| from <= k < id ==> (#[trigger] gates[k]).name != name,
    ensures
        found(gates, name, from) == Some(id as u16),
    decreases id - from,
{
    if from < id {
        assert(gates[from].name != name);
        lemma_first_found(gates, name, from + 1, id);
    }
}

proof fn lemma_qubits_read(c: Text, n: nat, st: Reading)
    requires
        forall|k: int|
            0 <= k < n ==> (#[trigger] tok(c, st.pos + k) matches Some(Token::Number(q)) && q
                < c.nq),
    ensures
        operands(c, Seq::new(n, |k: int| Operand::Qubit), st) matches Ok((v, s)) && v.len() == n && s
            == (Reading { pos: st.pos + n, ..st }),
    decreases n,
{
    let ks = Seq::new(n, |k: int| Operand::Qubit);
    if n > 0 {
        lemma_qubits_read(c, (n - 1) as nat, st);
        assert(ks.drop_last() =~= Seq::new((n - 1) as nat, |k: int| Operand::Qubit));
        assert(tok(c, st.pos + (n - 1)) matches Some(Token::Number(q)) && q < c.nq);
    }
}

/// A declaration of 1 to 28 qubits is accepted, and no other.
pub proof fn law_declarations_are_accepted(c: Text)
    ensures
        ({
            let p = past_newlines(c, 0);
            declaration(c) is Ok <==> tok(c, p) == Some(Token::Qubits) && (tok(c, p + 1) matches Some(
                Token::Number(n),
            ) && 1 <= n <= 28)
        }),
{
}

/// A gate definition with a name of at most 16 bytes that no gate has yet, 1 to 3 parameters
/// and an `ENDGATE` before the end of the program is accepted outside of other definitions,
/// for up to 128 gates.
pub proof fn law_definitions_are_accepted(c: Text, st: Reading, depth: nat, end: int)
    requires
        0 <= st.pos < c.tokens.len(),
        c.tokens[st.pos] == Token::Gate,
        !c.sub,
        tok(c, st.pos + 1) == Some(Token::Ident),
        tok(c, st.pos + 2) matches Some(Token::Number(n)) && 1 <= n <= 3,
        c.names[st.pos + 1].len() <= 16,
        st.gates.len() < 128,
        forall|k: int|
            0 <= k < st.gates.len() ==> (#[trigger] st.gates[k]).name != c.names[st.pos + 1],
        st.pos + 3 <= end,
        tok(c, end) == Some(Token::Endgate),
        forall|k: int|
            st.pos + 3 <= k < end ==> {
                let t = #[trigger] c.tokens[k];
                !(t is Endgate || t is End || t is Halt || t is Eof)
            },
    ensures
        statement(c, st, depth) matches Ok(s) && s.pos == end + 1,
{
    let next = Reading { pos: st.pos + 1, ..st };
    lemma_none_found(st.gates, c.names[st.pos + 1], 0);
    lemma_newlines_before(c, st.pos + 3, end);
    lemma_end_found(c, past_newlines(c, st.pos + 3), end);
    assert(statement(c, st, depth) == gate_def(c, next));
}

proof fn lemma_none_found(gates: Seq<GateView>, name: Seq<u8>, from: int)
    requires
        0 <= from,
        forall|k: int| from <= k < gates.len() ==> (#[trigger] gates[k]).name != name,
    ensures
        found(gates, name, from) is None,
    decreases gates.len() - from,
{
    if from < gates.len() {
        assert(gates[from].name != name);
        lemma_none_found(gates, name, from + 1);
    }
}

proof fn lemma_newlines_before(c: Text, pos: int, end: int)
    requires
        0 <= pos <= end,
        tok(c, end) == Some(Token::Endgate),
    ensures
        pos <= past_newlines(c, pos) <= end,
    decreases end - pos,
{
    if tok(c, pos) == Some(Token::Newline) {
        lemma_newlines_before(c, pos + 1, end);
    }
}

proof fn lemma_end_found(c: Text, pos: int, end: int)
    requires
        0 <= pos <= end,
        tok(c, end) == Some(Token::Endgate),
        forall|k: int|
            pos <= k < end ==> {
                let t = #[trigger] c.tokens[k];
                !(t is Endgate || t is End || t is Halt || t is Eof)
            },
    ensures
        gate_end(c, pos) == end,
    decreases end - pos,
{
    if pos < end {
        let t = c.tokens[pos];
        assert(!(t is Endgate || t is End || t is Halt || t is Eof));
        lemma_end_found(c, pos + 1, end);
    }
}

/// What is wrong with the token at `p` as an operand of a kind: where a complaint about it
/// stands, and what it says. Complaints about a missing operand stand at the token that is
/// there instead, those about a value out of range behind it.
pub open spec fn fault_of(c: Text, k: Operand, p: int) -> Option<(int, &'static str)> {
    match (k, tok(c, p)) {
        (Operand::Qubit, Some(Token::Number(n))) => if n < c.nq {
            None
        } else {
            Some((p + 1, "qubit index out of range"))
        },
        (Operand::Qubit, _) => Some((p, "expected a qubit index")),
        (Operand::Cbit, Some(Token::ClassicalRef(n))) => if n < 64 {
            None
        } else {
            Some((p, "classical bit index too large"))
        },
        (Operand::Cbit, _) => Some((p, "expected a classical bit")),
        (Operand::Angle, Some(Token::Number(_))) | (Operand::Angle, Some(Token::Float(_))) => None,
        (Operand::Angle, _) => Some((p, "expected an angle")),
        (Operand::Byte, Some(Token::Number(n))) => if n < 256 {
            None
        } else {
            Some((p + 1, "SET value must fit in a byte"))
        },
        (Operand::Byte, _) => Some((p, "expected a value after SET")),
        (Operand::Observable, Some(Token::Pauli(code))) => if c.tops[p] < c.nq && pauli_declared(
            code,
            c.nq,
        ) {
            None
        } else {
            Some((p + 1, "Pauli qubit index out of range"))
        },
        (Operand::Observable, _) => Some((p, "expected a Pauli product after EXPECT")),
    }
}

proof fn lemma_first_operands(c: Text, ks: Seq<Operand>, st: Reading, k: nat)
    requires
        k <= ks.len(),
        0 <= st.pos,
        st.consts.len() + k <= 1024,
        forall|j: int| 0 <= j < k ==> fault_of(c, #[trigger] ks[j], st.pos + j) is None,
    ensures
        operands(c, ks.take(k as int), st) matches Ok((_, s)) && s.pos == st.pos + k
            && s.consts.len() <= st.consts.len() + k,
    decreases k,
{
    if k > 0 {
        lemma_first_operands(c, ks, st, (k - 1) as nat);
        assert(ks.take(k as int).drop_last() =~= ks.take(k - 1));
        assert(ks.take(k as int).last() == ks[k - 1]);
        assert(fault_of(c, ks[k - 1], st.pos + (k - 1)) is None);
    }
}

proof fn lemma_operands_stop(c: Text, ks: Seq<Operand>, st: Reading, k: nat, n: nat)
    requires
        k <= n <= ks.len(),
        operands(c, ks.take(k as int), st) is Err,
    ensures
        operands(c, ks.take(n as int), st) == operands(c, ks.take(k as int), st),
    decreases n,
{
    if k < n {
        lemma_operands_stop(c, ks, st, k, (n - 1) as nat);
        assert(ks.take(n as int).drop_last() =~= ks.take(n - 1));
    }
}

/// The first operand that does not fit is reported: a statement with a fixed list of operands
/// is refused with the complaint about it.
pub proof fn law_unfit_operands_are_reported(
    c: Text,
    st: Reading,
    depth: nat,
    ks: Seq<Operand>,
    k: int,
)
    requires
        0 <= st.pos < c.tokens.len() < usize::MAX,
        shape(c.tokens[st.pos]) == Some(ks),
        0 <= k < ks.len(),
        st.consts.len() + k <= 1024,
        forall|j: int| 0 <= j < k ==> fault_of(c, #[trigger] ks[j], st.pos + 1 + j) is None,
        fault_of(c, ks[k], st.pos + 1 + k) is Some,
        st.pos + 2 + k <= usize::MAX,
    ensures
        statement(c, st, depth) matches Err(e) && e.at == fault_of(
            c,
            ks[k],
            st.pos + 1 + k,
        )->Some_0.0 && e.msg == fault_of(c, ks[k], st.pos + 1 + k)->Some_0.1,
{
    let t = c.tokens[st.pos];
    let next = Reading { pos: st.pos + 1, ..st };
    lemma_first_operands(c, ks, next, k as nat);
    let upto = ks.take(k + 1);
    assert(upto.drop_last() =~= ks.take(k));
    assert(upto.last() == ks[k]);
    assert(operands(c, upto, next) is Err);
    lemma_operands_stop(c, ks, next, (k + 1) as nat, ks.len());
    assert(ks.take(ks.len() as int) =~= ks);
    assert(statement(c, st, depth) == plain(c, t, ks, next));
}

} // verus!
