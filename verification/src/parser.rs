//! Lowering tokens to a program.
pub use crate::grammar::{Complaint, MAX_NAME, MAX_NESTING};

use crate::diag::{clipped, Diag};
use crate::grammar::{
    all_declared, assembled, block, body, body_start, closed, complaint, declaration, emitted, estimate,
    estimate_terms, flat, found, gate_bodies, gate_call, gate_def, gate_end, if_head, lowered,
    mcx, measure, measures, opened, operand, operands, past_newlines, pauli_declared, plain,
    qubit_list, shape, shot_head, statement, statements, target_list, text_of, tok,
    whole_literal, GateView, Head, Lowered, Operand, Reading, Text,
};
use crate::ir::{
    IrOp, Program, Sub, MAX_CLASSICAL, MAX_CONSTS, MAX_ESTIMATE_TERMS, MAX_OPS, MAX_QUBITS,
    MAX_SUBS, NO_ARG,
};
use crate::lexer::{LexResult, Literal, Token, MAX_TOKENS};
use vstd::prelude::*;
use vstd::string::StringSliceAdditionalSpecFns;

verus! {

/// A gate definition: its name, its number of parameters and the token at which
/// its body starts.
#[derive(Clone, Copy, Debug)]
pub struct GateDef {
    pub name: [u8; MAX_NAME],
    pub name_len: u8,
    pub nparams: u8,
    pub body_start: u16,
}

/// The table of gate definitions; a gate's index is the index of its subprogram.
#[derive(Clone, Debug)]
pub struct Gates {
    pub defs: [GateDef; MAX_SUBS],
    pub count: usize,
}

impl GateDef {
    /// What the definition says.
    pub open spec fn told(&self) -> GateView {
        GateView {
            name: self.name@.subrange(0, self.name_len as int),
            nparams: self.nparams,
            start: self.body_start as int,
        }
    }
}

impl View for Gates {
    type V = Seq<GateView>;

    open spec fn view(&self) -> Seq<GateView> {
        Seq::new(self.count as nat, |i: int| self.defs@[i].told())
    }
}

impl Gates {
    /// Whether the counters fit their arrays and parameters are at most three.
    pub open spec fn wf(&self) -> bool {
        &&& self.count <= MAX_SUBS
        &&& forall|i: int|
            0 <= i < self.count ==> (#[trigger] self.defs@[i]).name_len <= MAX_NAME
                && self.defs@[i].nparams <= 3 && self.defs@[i].body_start <= MAX_TOKENS
    }

    /// An empty table.
    pub fn new() -> (g: Self)
        ensures
            g.wf(),
            g@ == Seq::<GateView>::empty(),
    {
        let g = Gates {
            defs: [GateDef { name: [0; MAX_NAME], name_len: 0, nparams: 0, body_start: 0 }; MAX_SUBS],
            count: 0,
        };
        assert(g@ =~= Seq::<GateView>::empty());
        g
    }

    /// The index of a gate of that name.
    pub fn lookup(&self, name: &[u8]) -> (id: Option<u16>)
        requires
            self.wf(),
        ensures
            id == found(self@, name@, 0),
            id matches Some(i) ==> i < self.count,
    {
        let mut i: usize = 0;
        while i < self.count
            invariant
                self.wf(),
                i <= self.count,
                found(self@, name@, 0) == found(self@, name@, i as int),
            decreases self.count - i,
        {
            let def: GateDef = self.defs[i];
            assert(self@[i as int] == def.told());
            assert(self.defs@[i as int].name_len <= MAX_NAME);
            if def.name_len as usize == name.len() {
                let mut k: usize = 0;
                while k < name.len() && def.name[k] == name[k]
                    invariant
                        k <= name@.len() == def.name_len <= MAX_NAME,
                        forall|j: int| 0 <= j < k ==> def.name@[j] == name@[j],
                    decreases name@.len() - k,
                {
                    k += 1;
                }
                if k == name.len() {
                    assert(def.told().name =~= name@);
                    return Some(i as u16);
                }
                assert(def.told().name[k as int] != name@[k as int]);
            } else {
                assert(def.told().name.len() != name@.len());
            }
            i += 1;
        }
        None
    }

    /// Appends a definition.
    fn define(&mut self, name: &[u8], nparams: u8, start: usize)
        requires
            old(self).wf(),
            old(self).count < MAX_SUBS,
            name@.len() <= MAX_NAME,
            nparams <= 3,
            start <= MAX_TOKENS,
        ensures
            final(self).wf(),
            final(self).count == old(self).count + 1,
            forall|i: int|
                0 <= i < old(self).count ==> #[trigger] final(self).defs@[i] == old(self).defs@[i],
            final(self)@ == old(self)@.push(
                GateView { name: name@, nparams, start: start as int },
            ),
    {
        let mut def = GateDef {
            name: [0; MAX_NAME],
            name_len: name.len() as u8,
            nparams,
            body_start: start as u16,
        };
        let mut k: usize = 0;
        while k < name.len()
            invariant
                k <= name@.len() <= MAX_NAME,
                def.name_len == name@.len(),
                def.nparams == nparams,
                def.body_start == start,
                forall|j: int| 0 <= j < k ==> def.name@[j] == name@[j],
            decreases name@.len() - k,
        {
            def.name[k] = name[k];
            k += 1;
        }
        assert(def.told().name =~= name@);
        self.defs[self.count] = def;
        self.count += 1;
        assert(self@ =~= old(self)@.push(GateView { name: name@, nparams, start: start as int }));
    }
}

/// The end of the region being written.
pub open spec fn spec_cursor(prog: Program<Literal>, sub: bool) -> int {
    if sub {
        prog.sub_len as int
    } else {
        prog.len as int
    }
}

/// Whether the counters fit the pools.
pub open spec fn sound(prog: Program<Literal>) -> bool {
    prog.len <= prog.sub_len && prog.sub_len <= MAX_OPS && prog.num_consts <= MAX_CONSTS
        && prog.num_estimate_terms <= MAX_ESTIMATE_TERMS
}

/// How far reading has come, as the program and the position show it.
pub open spec fn reading(prog: Program<Literal>, gates: Seq<GateView>, pos: int, sub: bool) -> Reading {
    Reading {
        pos,
        ops: prog.ops@.subrange(0, spec_cursor(prog, sub)),
        consts: prog.consts@.subrange(0, prog.num_consts as int),
        terms: prog.estimate_terms@.subrange(0, prog.num_estimate_terms as int),
        bytes: prog.num_classical,
        shot: prog.has_explicit_shot,
        gates,
    }
}

/// What reading statements leaves alone: everything but what it appends.
pub open spec fn kept(before: Program<Literal>, after: Program<Literal>, sub: bool) -> bool {
    &&& after.version == before.version
    &&& after.num_qubits == before.num_qubits
    &&& after.subs@ == before.subs@
    &&& after.num_subs == before.num_subs
    &&& spec_cursor(before, sub) <= spec_cursor(after, sub)
    &&& sub ==> after.len == before.len
    &&& !sub ==> before.sub_len <= after.sub_len
    &&& forall|i: int|
        0 <= i < spec_cursor(before, sub) ==> #[trigger] after.ops@[i] == before.ops@[i]
    &&& before.num_consts <= after.num_consts
    &&& forall|i: int|
        0 <= i < before.num_consts ==> #[trigger] after.consts@[i] == before.consts@[i]
    &&& before.num_estimate_terms <= after.num_estimate_terms
    &&& forall|i: int|
        0 <= i < before.num_estimate_terms ==> #[trigger] after.estimate_terms@[i]
            == before.estimate_terms@[i]
}

/// Whether the program is as before: its counters and flags, the ops of the region
/// being written, the constants and the terms.
pub open spec fn stays(before: Program<Literal>, after: Program<Literal>, sub: bool) -> bool {
    &&& kept(before, after, sub)
    &&& after.len == before.len
    &&& after.sub_len == before.sub_len
    &&& after.num_consts == before.num_consts
    &&& after.num_estimate_terms == before.num_estimate_terms
    &&& after.num_classical == before.num_classical
    &&& after.has_explicit_shot == before.has_explicit_shot
}

/// The counters and flags of a program.
#[derive(Clone, Copy, Debug)]
struct Mark {
    len: usize,
    sub_len: usize,
    consts: usize,
    terms: usize,
    bytes: u8,
    shot: bool,
}

/// Whether the mark was taken of the program.
spec fn marks(m: Mark, prog: Program<Literal>) -> bool {
    &&& m.len == prog.len
    &&& m.sub_len == prog.sub_len
    &&& m.consts == prog.num_consts
    &&& m.terms == prog.num_estimate_terms
    &&& m.bytes == prog.num_classical
    &&& m.shot == prog.has_explicit_shot
}

/// Notes how much a program holds.
fn mark(prog: &Program<Literal>) -> (m: Mark)
    ensures
        marks(m, *prog),
{
    Mark {
        len: prog.len,
        sub_len: prog.sub_len,
        consts: prog.num_consts,
        terms: prog.num_estimate_terms,
        bytes: prog.num_classical,
        shot: prog.has_explicit_shot,
    }
}

/// Drops what was appended since a mark was taken.
fn rewind(prog: &mut Program<Literal>, m: Mark, before: Ghost<Program<Literal>>, sub: Ghost<bool>)
    requires
        sound(before@),
        marks(m, before@),
        kept(before@, *old(prog), sub@),
    ensures
        sound(*final(prog)),
        stays(before@, *final(prog), sub@),
{
    prog.len = m.len;
    prog.sub_len = m.sub_len;
    prog.num_consts = m.consts;
    prog.num_estimate_terms = m.terms;
    prog.num_classical = m.bytes;
    prog.has_explicit_shot = m.shot;
}

/// Whether no gate definition was lost or changed.
pub open spec fn grown(before: Gates, after: Gates) -> bool {
    &&& before.count <= after.count
    &&& forall|i: int| 0 <= i < before.count ==> #[trigger] after.defs@[i] == before.defs@[i]
}

/// Emits an op into the region being written.
fn emit_op(prog: &mut Program<Literal>, op: IrOp, sub: bool, gates: Ghost<Seq<GateView>>, pos: Ghost<int>) -> (ok: bool)
    requires
        sound(*old(prog)),
    ensures
        sound(*final(prog)),
        kept(*old(prog), *final(prog), sub),
        ok == (spec_cursor(*old(prog), sub) < MAX_OPS),
        ok ==> reading(*final(prog), gates@, pos@, sub) == (Reading {
            ops: reading(*old(prog), gates@, pos@, sub).ops.push(op),
            ..reading(*old(prog), gates@, pos@, sub)
        }),
        !ok ==> stays(*old(prog), *final(prog), sub),
{
    let ok: bool = if sub {
        prog.emit_sub(op)
    } else {
        prog.emit(op)
    };
    proof {
        assert(prog.ops@ == prog@.ops);
        assert(old(prog).ops@ == old(prog)@.ops);
        assert(prog.consts@ == prog@.consts);
        assert(old(prog).consts@ == old(prog)@.consts);
        assert(prog.estimate_terms@ == prog@.estimate_terms);
        assert(old(prog).estimate_terms@ == old(prog)@.estimate_terms);
        assert(prog.subs@ == prog@.subs);
        assert(old(prog).subs@ == old(prog)@.subs);
        if ok {
            assert(reading(*prog, gates@, pos@, sub).ops =~= reading(*old(prog), gates@, pos@, sub).ops.push(op));
        }
    }
    ok
}

/// Emits an op, or complains that there are too many.
fn emit_at(
    prog: &mut Program<Literal>,
    op: IrOp,
    sub: bool,
    pos: usize,
    gates: Ghost<Seq<GateView>>,
) -> (r: Result<(), Complaint>)
    requires
        sound(*old(prog)),
    ensures
        sound(*final(prog)),
        kept(*old(prog), *final(prog), sub),
        match emitted(reading(*old(prog), gates@, pos as int, sub), op) {
            Ok(s) => r is Ok && reading(*final(prog), gates@, pos as int, sub) == s,
            Err(e) => r == Err::<(), Complaint>(e),
        },
        r is Err ==> stays(*old(prog), *final(prog), sub),
{
    if emit_op(prog, op, sub, gates, Ghost(pos as int)) {
        Ok(())
    } else {
        Err(Complaint { at: pos, msg: "too many operations" })
    }
}

/// The token at `pos`, if there is one.
fn peek(lex: &LexResult, pos: usize) -> (t: Option<Token>)
    requires
        lex.count <= MAX_TOKENS,
    ensures
        forall|nq: u8, sub: bool| #[trigger] tok(text_of(*lex, nq, sub), pos as int) == t,
        t is Some <==> pos < lex.count,
{
    if pos < lex.count {
        Some(lex.tokens[pos])
    } else {
        None
    }
}

/// Moves past line ends.
fn skip_newlines(lex: &LexResult, pos: usize, c: Ghost<Text>) -> (p: usize)
    requires
        lex.count <= MAX_TOKENS,
        pos <= lex.count,
        c@ == text_of(*lex, c@.nq, c@.sub),
    ensures
        p == past_newlines(c@, pos as int),
        pos <= p <= lex.count,
{
    let mut p: usize = pos;
    while peek(lex, p) == Some(Token::Newline)
        invariant
            lex.count <= MAX_TOKENS,
            pos <= p <= lex.count,
            c@ == text_of(*lex, c@.nq, c@.sub),
            past_newlines(c@, pos as int) == past_newlines(c@, p as int),
        decreases lex.count - p,
    {
        assert(tok(c@, p as int) == Some(Token::Newline));
        p += 1;
    }
    assert(tok(c@, p as int) != Some(Token::Newline));
    p
}

/// Whether every qubit on which a Pauli code acts is declared.
fn pauli_fits(code: u64, nq: u8) -> (r: bool)
    ensures
        r == pauli_declared(code, nq),
{
    let mut q: u64 = 0;
    while q < 32
        invariant
            q <= 32,
            forall|k: u64| k < q && k >= nq ==> #[trigger] ((code >> (2 * k) as u64) & 3) == 0,
        decreases 32 - q,
    {
        if q >= nq as u64 && (code >> (2 * q)) & 3 != 0 {
            assert(!pauli_declared(code, nq)) by {
                assert(((code >> (2 * q) as u64) & 3) != 0);
            }
            return false;
        }
        q += 1;
    }
    true
}

/// Whether every qubit that the Pauli product at `pos` names is declared.
fn product_fits(lex: &LexResult, pos: usize, code: u64, nq: u8, c: Ghost<Text>) -> (r: bool)
    requires
        pos < lex.count <= MAX_TOKENS,
        c@ == text_of(*lex, nq, c@.sub),
    ensures
        r == all_declared(c@, pos as int, code),
{
    assert(c@.tops[pos as int] == lex.pauli_tops@[pos as int]);
    lex.pauli_tops[pos] < nq && pauli_fits(code, nq)
}

/// Reads an operand.
fn read_operand(
    lex: &LexResult,
    k: Operand,
    pos: &mut usize,
    prog: &mut Program<Literal>,
    sub: bool,
    gates: Ghost<Seq<GateView>>,
) -> (r: Result<u64, Complaint>)
    requires
        lex.wf(),
        sound(*old(prog)),
        *old(pos) <= lex.count,
    ensures
        sound(*final(prog)),
        kept(*old(prog), *final(prog), sub),
        r is Ok ==> *final(pos) <= lex.count,
        match operand(
            text_of(*lex, old(prog).num_qubits, sub),
            k,
            reading(*old(prog), gates@, *old(pos) as int, sub),
        ) {
            Ok((v, s)) => r == Ok::<u64, Complaint>(v) && reading(
                *final(prog),
                gates@,
                *final(pos) as int,
                sub,
            ) == s,
            Err(e) => r == Err::<u64, Complaint>(e),
        },
        r is Err || k != Operand::Angle ==> stays(*old(prog), *final(prog), sub),
{
    let ghost c = text_of(*lex, prog.num_qubits, sub);
    let p: usize = *pos;
    let t: Option<Token> = peek(lex, p);
    assert(tok(c, p as int) == t);
    match k {
        Operand::Qubit => match t {
            Some(Token::Number(n)) => {
                *pos = p + 1;
                if n >= prog.num_qubits as u32 {
                    Err(Complaint { at: p + 1, msg: "qubit index out of range" })
                } else {
                    Ok(n as u64)
                }
            },
            _ => Err(Complaint { at: p, msg: "expected a qubit index" }),
        },
        Operand::Cbit => match t {
            Some(Token::ClassicalRef(n)) => {
                if n >= MAX_CLASSICAL as u32 {
                    Err(Complaint { at: p, msg: "classical bit index too large" })
                } else {
                    *pos = p + 1;
                    Ok(n as u64)
                }
            },
            _ => Err(Complaint { at: p, msg: "expected a classical bit" }),
        },
        Operand::Angle => {
            let lit: Literal = match t {
                Some(Token::Float(l)) => l,
                Some(Token::Number(n)) => Literal {
                    negative: false,
                    whole: n as u64,
                    frac_start: 0,
                    frac_len: 0,
                },
                _ => {
                    return Err(Complaint { at: p, msg: "expected an angle" });
                },
            };
            *pos = p + 1;
            match prog.emit_const(lit) {
                Some(i) => {
                    assert(reading(*prog, gates@, *pos as int, sub).consts =~= reading(
                        *old(prog),
                        gates@,
                        p as int,
                        sub,
                    ).consts.push(lit)) by {
                        assert(prog.consts@ == prog@.consts);
                        assert(old(prog).consts@ == old(prog)@.consts);
                    }
                    assert(prog.ops@ == prog@.ops);
                    assert(old(prog).ops@ == old(prog)@.ops);
                    assert(prog.estimate_terms@ == prog@.estimate_terms);
                    assert(old(prog).estimate_terms@ == old(prog)@.estimate_terms);
                    assert(prog.subs@ == prog@.subs);
                    assert(old(prog).subs@ == old(prog)@.subs);
                    Ok(i as u64)
                },
                None => Err(Complaint { at: p + 1, msg: "constant pool full" }),
            }
        },
        Operand::Byte => match t {
            Some(Token::Number(n)) => {
                *pos = p + 1;
                if n > 255 {
                    Err(Complaint { at: p + 1, msg: "SET value must fit in a byte" })
                } else {
                    Ok(n as u64)
                }
            },
            _ => Err(Complaint { at: p, msg: "expected a value after SET" }),
        },
        Operand::Observable => match t {
            Some(Token::Pauli(code)) => {
                *pos = p + 1;
                if !product_fits(lex, p, code, prog.num_qubits, Ghost(c)) {
                    Err(Complaint { at: p + 1, msg: "Pauli qubit index out of range" })
                } else {
                    Ok(code)
                }
            },
            _ => Err(Complaint { at: p, msg: "expected a Pauli product after EXPECT" }),
        },
    }
}

proof fn lemma_operands_stop(c: Text, ks: Seq<Operand>, j: int, st: Reading)
    requires
        0 <= j <= ks.len(),
        operands(c, ks.take(j), st) is Err,
    ensures
        operands(c, ks, st) is Err,
        operands(c, ks, st)->Err_0 == operands(c, ks.take(j), st)->Err_0,
    decreases ks.len() - j,
{
    if j == ks.len() {
        assert(ks.take(j) =~= ks);
    } else {
        assert(ks.take(j + 1).drop_last() =~= ks.take(j));
        lemma_operands_stop(c, ks, j + 1, st);
    }
}

/// Reads the first `n` operands of a list.
fn read_list(
    lex: &LexResult,
    n: usize,
    ks: [Operand; 3],
    pos: &mut usize,
    prog: &mut Program<Literal>,
    sub: bool,
    gates: Ghost<Seq<GateView>>,
) -> (r: Result<[u64; 3], Complaint>)
    requires
        lex.wf(),
        sound(*old(prog)),
        *old(pos) <= lex.count,
        n <= 3,
    ensures
        sound(*final(prog)),
        kept(*old(prog), *final(prog), sub),
        r is Ok ==> *final(pos) <= lex.count,
        match operands(
            text_of(*lex, old(prog).num_qubits, sub),
            ks@.take(n as int),
            reading(*old(prog), gates@, *old(pos) as int, sub),
        ) {
            Ok((v, s)) => v.len() == n && r is Ok && r->Ok_0@.take(n as int) == v && reading(
                *final(prog),
                gates@,
                *final(pos) as int,
                sub,
            ) == s,
            Err(e) => r is Err && r->Err_0 == e,
        },
{
    let ghost c = text_of(*lex, prog.num_qubits, sub);
    let ghost st = reading(*prog, gates@, *pos as int, sub);
    let ghost list = ks@.take(n as int);
    let mut v: [u64; 3] = [0; 3];
    let mut k: usize = 0;
    assert(list.take(0) =~= Seq::<Operand>::empty());
    assert(v@.take(0) =~= Seq::<u64>::empty());
    while k < n
        invariant
            lex.wf(),
            sound(*prog),
            kept(*old(prog), *prog, sub),
            *pos <= lex.count,
            k <= n <= 3,
            list == ks@.take(n as int),
            c == text_of(*lex, prog.num_qubits, sub),
            operands(c, list.take(k as int), st) == Ok::<(Seq<u64>, Reading), Complaint>(
                (v@.take(k as int), reading(*prog, gates@, *pos as int, sub)),
            ),
            st == reading(*old(prog), gates@, *old(pos) as int, sub),
        decreases n - k,
    {
        let ghost before = v@;
        assert(list.take(k + 1).drop_last() =~= list.take(k as int));
        assert(list.take(k + 1).last() == ks@[k as int]);
        match read_operand(lex, ks[k], pos, prog, sub, gates) {
            Ok(x) => {
                v[k] = x;
                assert(v@.take(k + 1) =~= before.take(k as int).push(x));
            },
            Err(e) => {
                proof {
                    lemma_operands_stop(c, list, k + 1, st);
                }
                return Err(e);
            },
        }
        k += 1;
    }
    assert(list.take(n as int) =~= list);
    Ok(v)
}

/// The operands of the statements that are a keyword with a fixed list of
/// operands.
fn shape_of(t: Token) -> (r: Option<(usize, [Operand; 3])>)
    ensures
        r is Some <==> shape(t) is Some,
        r matches Some((n, ks)) ==> n <= 3 && shape(t) == Some(ks@.take(n as int)),
{
    let q: Operand = Operand::Qubit;
    let b: Operand = Operand::Cbit;
    let r: Option<(usize, [Operand; 3])> = match t {
        Token::H | Token::X | Token::S | Token::T | Token::Sx | Token::Reset => Some(
            (1usize, [q, q, q]),
        ),
        Token::Cnot | Token::Swap | Token::Iswap | Token::Cz => Some((2usize, [q, q, q])),
        Token::Toff | Token::Cswap => Some((3usize, [q, q, q])),
        Token::Rz | Token::Rx | Token::Ry | Token::Phase => Some((2usize, [q, Operand::Angle, q])),
        Token::Cphase => Some((3usize, [q, q, Operand::Angle])),
        Token::SetVal => Some((2usize, [b, Operand::Byte, b])),
        Token::Not => Some((1usize, [b, b, b])),
        Token::And | Token::Or | Token::Xor | Token::Add | Token::Sub => Some((2usize, [b, b, b])),
        Token::Expect => Some((1usize, [Operand::Observable, q, q])),
        Token::SaveState | Token::SaveAmps | Token::SaveProbs | Token::Print => Some(
            (0usize, [q, q, q]),
        ),
        _ => None,
    };
    proof {
        if let Some((n, ks)) = r {
            assert(shape(t)->0 =~= ks@.take(n as int));
        }
    }
    r
}

/// The op of such a statement.
fn assemble(t: Token, v: [u64; 3]) -> (op: IrOp)
    ensures
        op == assembled(t, v@),
{
    let a: u8 = #[verifier::truncate] (v[0] as u8);
    let b: u8 = #[verifier::truncate] (v[1] as u8);
    let c: u8 = #[verifier::truncate] (v[2] as u8);
    let k: u16 = #[verifier::truncate] (v[1] as u16);
    let m: u16 = #[verifier::truncate] (v[2] as u16);
    match t {
        Token::H => IrOp::H(a),
        Token::X => IrOp::X(a),
        Token::S => IrOp::S(a),
        Token::T => IrOp::T(a),
        Token::Sx => IrOp::SX(a),
        Token::Reset => IrOp::Reset(a),
        Token::Cnot => IrOp::CNOT(a, b),
        Token::Swap => IrOp::SWAP(a, b),
        Token::Iswap => IrOp::ISWAP(a, b),
        Token::Cz => IrOp::CZ(a, b),
        Token::Toff => IrOp::Toff(a, b, c),
        Token::Cswap => IrOp::CSWAP(a, b, c),
        Token::Rz => IrOp::RZ(a, k),
        Token::Rx => IrOp::RX(a, k),
        Token::Ry => IrOp::RY(a, k),
        Token::Phase => IrOp::Phase(a, k),
        Token::Cphase => IrOp::CPHASE(a, b, m),
        Token::SetVal => IrOp::SetVal(a, b),
        Token::Not => IrOp::Not(a),
        Token::And => IrOp::And(a, b),
        Token::Or => IrOp::Or(a, b),
        Token::Xor => IrOp::Xor(a, b),
        Token::Add => IrOp::Add(a, b),
        Token::Sub => IrOp::Sub(a, b),
        Token::Expect => IrOp::Expect(v[0]),
        Token::SaveState => IrOp::SaveState,
        Token::SaveAmps => IrOp::SaveAmps,
        Token::SaveProbs => IrOp::SaveProbs,
        _ => IrOp::Print,
    }
}

/// Reads a keyword's fixed list of operands and emits its op.
fn parse_plain(
    lex: &LexResult,
    t: Token,
    n: usize,
    ks: [Operand; 3],
    pos: &mut usize,
    prog: &mut Program<Literal>,
    sub: bool,
    gates: Ghost<Seq<GateView>>,
) -> (r: Result<(), Complaint>)
    requires
        lex.wf(),
        sound(*old(prog)),
        *old(pos) <= lex.count,
        n <= 3,
        shape(t) == Some(ks@.take(n as int)),
    ensures
        sound(*final(prog)),
        kept(*old(prog), *final(prog), sub),
        r is Ok ==> *final(pos) <= lex.count,
        match plain(
            text_of(*lex, old(prog).num_qubits, sub),
            t,
            ks@.take(n as int),
            reading(*old(prog), gates@, *old(pos) as int, sub),
        ) {
            Ok(s) => r is Ok && reading(*final(prog), gates@, *final(pos) as int, sub) == s,
            Err(e) => r == Err::<(), Complaint>(e),
        },
{
    match read_list(lex, n, ks, pos, prog, sub, gates) {
        Err(e) => Err(e),
        Ok(v) => {
            let op: IrOp = assemble(t, v);
            assert(op == assembled(t, v@.take(n as int))) by {
                assert(ks@.take(n as int).len() == n);
                assert forall|i: int| 0 <= i < n implies v@.take(n as int)[i] == v@[i] by {}
            }
            emit_at(prog, op, sub, *pos, gates)
        },
    }
}

/// Reads `MCX mask target`.
fn parse_mcx(
    lex: &LexResult,
    pos: &mut usize,
    prog: &mut Program<Literal>,
    sub: bool,
    gates: Ghost<Seq<GateView>>,
) -> (r: Result<(), Complaint>)
    requires
        lex.wf(),
        sound(*old(prog)),
        *old(pos) <= lex.count,
        old(prog).num_qubits <= MAX_QUBITS,
    ensures
        sound(*final(prog)),
        kept(*old(prog), *final(prog), sub),
        r is Ok ==> *final(pos) <= lex.count,
        match mcx(
            text_of(*lex, old(prog).num_qubits, sub),
            reading(*old(prog), gates@, *old(pos) as int, sub),
        ) {
            Ok(s) => r is Ok && reading(*final(prog), gates@, *final(pos) as int, sub) == s,
            Err(e) => r == Err::<(), Complaint>(e),
        },
        r is Err ==> stays(*old(prog), *final(prog), sub),
{
    let ghost c = text_of(*lex, prog.num_qubits, sub);
    let p: usize = *pos;
    let t: Option<Token> = peek(lex, p);
    assert(tok(c, p as int) == t);
    let m: u32 = match t {
        Some(Token::Number(m)) => m,
        _ => {
            return Err(Complaint { at: p, msg: "expected a control mask" });
        },
    };
    *pos = p + 1;
    if m == 0 {
        return Err(Complaint { at: p + 1, msg: "MCX control mask must be nonzero" });
    }
    if m >= (1u32 << prog.num_qubits) {
        return Err(Complaint { at: p + 1, msg: "MCX control mask out of range" });
    }
    match read_operand(lex, Operand::Qubit, pos, prog, sub, gates) {
        Err(e) => Err(e),
        Ok(q) => {
            if (m >> (q as u32)) & 1 == 1 {
                return Err(Complaint { at: *pos, msg: "MCX target overlaps the control mask" });
            }
            emit_at(prog, IrOp::MCX(m, q as u8), sub, *pos, gates)
        },
    }
}

/// Reads the terms of `ESTIMATE` and emits its op.
fn parse_estimate(
    lex: &LexResult,
    pos: &mut usize,
    prog: &mut Program<Literal>,
    sub: bool,
    gates: Ghost<Seq<GateView>>,
) -> (r: Result<(), Complaint>)
    requires
        lex.wf(),
        sound(*old(prog)),
        *old(pos) <= lex.count,
    ensures
        sound(*final(prog)),
        kept(*old(prog), *final(prog), sub),
        r is Ok ==> *final(pos) <= lex.count,
        match estimate(
            text_of(*lex, old(prog).num_qubits, sub),
            reading(*old(prog), gates@, *old(pos) as int, sub),
        ) {
            Ok(s) => r is Ok && reading(*final(prog), gates@, *final(pos) as int, sub) == s,
            Err(e) => r == Err::<(), Complaint>(e),
        },
{
    let ghost c = text_of(*lex, prog.num_qubits, sub);
    let ghost st = reading(*prog, gates@, *pos as int, sub);
    let off: usize = prog.num_estimate_terms;
    let mut n: usize = 0;
    loop
        invariant_except_break
            sound(*prog),
            kept(*old(prog), *prog, sub),
            *pos <= lex.count,
            off + n == prog.num_estimate_terms,
        invariant
            lex.wf(),
            c == text_of(*lex, prog.num_qubits, sub),
            st == reading(*old(prog), gates@, *old(pos) as int, sub),
            c == text_of(*lex, old(prog).num_qubits, sub),
            off == old(prog).num_estimate_terms,
            estimate_terms(c, st, 0) == estimate_terms(
                c,
                reading(*prog, gates@, *pos as int, sub),
                n as nat,
            ),
        ensures
            sound(*prog),
            kept(*old(prog), *prog, sub),
            *pos <= lex.count,
            off + n == prog.num_estimate_terms,
            estimate_terms(c, st, 0) == Ok::<(Reading, nat), Complaint>(
                (reading(*prog, gates@, *pos as int, sub), n as nat),
            ),
        decreases lex.count - *pos,
    {
        let p: usize = *pos;
        let first: Option<Token> = peek(lex, p);
        assert(tok(c, p as int) == first);
        let neg: bool = first == Some(Token::Minus);
        let at: usize = if neg {
            p + 1
        } else {
            p
        };
        let num: Option<Token> = peek(lex, at);
        assert(tok(c, at as int) == num);
        let coef: Option<Literal> = match num {
            Some(Token::Number(x)) => Some(
                Literal { negative: neg, whole: x as u64, frac_start: 0, frac_len: 0 },
            ),
            Some(Token::Float(l)) => Some(
                Literal {
                    negative: neg,
                    whole: l.whole,
                    frac_start: l.frac_start,
                    frac_len: l.frac_len,
                },
            ),
            _ => None,
        };
        match coef {
            None => {
                if neg {
                    return Err(
                        Complaint { at, msg: "expected a coefficient after '-' in ESTIMATE" },
                    );
                }
                break ;
            },
            Some(l) => {
                let second: Option<Token> = peek(lex, at + 1);
                assert(tok(c, at + 1) == second);
                let code: u64 = match second {
                    Some(Token::Pauli(code)) => code,
                    _ => {
                        return Err(
                            Complaint {
                                at: at + 1,
                                msg: "expected a Pauli product after the coefficient",
                            },
                        );
                    },
                };
                if !product_fits(lex, at + 1, code, prog.num_qubits, Ghost(c)) {
                    return Err(
                        Complaint { at: at + 2, msg: "Pauli qubit index out of range" },
                    );
                }
                let ghost before = *prog;
                if !prog.push_estimate_term(l, code) {
                    return Err(Complaint { at: at + 2, msg: "too many ESTIMATE terms" });
                }
                *pos = at + 2;
                n = n + 1;
                proof {
                    assert(prog.ops@ == prog@.ops);
                    assert(before.ops@ == before@.ops);
                    assert(prog.consts@ == prog@.consts);
                    assert(before.consts@ == before@.consts);
                    assert(prog.subs@ == prog@.subs);
                    assert(before.subs@ == before@.subs);
                    assert(prog.estimate_terms@ == prog@.estimate_terms);
                    assert(before.estimate_terms@ == before@.estimate_terms);
                    let s = reading(before, gates@, p as int, sub);
                    assert(reading(*prog, gates@, *pos as int, sub) =~= (Reading {
                        pos: at + 2,
                        terms: s.terms.push((l, code)),
                        ..s
                    }));
                }
            },
        }
    }
    if n == 0 {
        return Err(
            Complaint {
                at: *pos,
                msg: "expected at least one coefficient/Pauli pair after ESTIMATE",
            },
        );
    }
    emit_at(prog, IrOp::Estimate(off as u16, n as u16), sub, *pos, gates)
}

proof fn lemma_measures_stop(st: Reading, t: Token, qs: Seq<u8>, cs: Seq<u8>, j: nat, k: nat)
    requires
        j <= k,
        measures(st, t, qs, cs, j) is Err,
    ensures
        measures(st, t, qs, cs, k) is Err,
        measures(st, t, qs, cs, k)->Err_0 == measures(st, t, qs, cs, j)->Err_0,
    decreases k - j,
{
    if j < k {
        lemma_measures_stop(st, t, qs, cs, j, (k - 1) as nat);
    }
}

proof fn lemma_measures_prefix(
    st: Reading,
    t: Token,
    qs: Seq<u8>,
    cs: Seq<u8>,
    qs2: Seq<u8>,
    cs2: Seq<u8>,
    k: nat,
)
    requires
        k <= qs.len(),
        k <= qs2.len(),
        k <= cs.len(),
        k <= cs2.len(),
        forall|i: int| 0 <= i < k ==> qs[i] == qs2[i] && cs[i] == cs2[i],
    ensures
        measures(st, t, qs, cs, k) == measures(st, t, qs2, cs2, k),
    decreases k,
{
    if k > 0 {
        lemma_measures_prefix(st, t, qs, cs, qs2, cs2, (k - 1) as nat);
    }
}

/// Emits one measurement op per pair of qubit and target.
fn emit_measures(
    t: Token,
    qs: &[u8; 64],
    cs: &[u8; 64],
    n: usize,
    pos: usize,
    prog: &mut Program<Literal>,
    sub: bool,
    gates: Ghost<Seq<GateView>>,
) -> (r: Result<(), Complaint>)
    requires
        sound(*old(prog)),
        n <= 64,
        forall|i: int| 0 <= i < n ==> cs@[i] < 255,
    ensures
        sound(*final(prog)),
        kept(*old(prog), *final(prog), sub),
        match measures(
            reading(*old(prog), gates@, pos as int, sub),
            t,
            qs@.take(n as int),
            cs@.take(n as int),
            n as nat,
        ) {
            Ok(s) => r is Ok && reading(*final(prog), gates@, pos as int, sub) == s,
            Err(e) => r == Err::<(), Complaint>(e),
        },
        r is Err ==> stays(*old(prog), *final(prog), sub),
{
    let ghost st = reading(*prog, gates@, pos as int, sub);
    let start: Mark = mark(prog);
    let mut i: usize = 0;
    while i < n
        invariant
            i <= n <= 64,
            sound(*prog),
            sound(*old(prog)),
            marks(start, *old(prog)),
            kept(*old(prog), *prog, sub),
            st == reading(*old(prog), gates@, pos as int, sub),
            forall|i: int| 0 <= i < n ==> cs@[i] < 255,
            measures(st, t, qs@.take(n as int), cs@.take(n as int), i as nat) == Ok::<
                Reading,
                Complaint,
            >(reading(*prog, gates@, pos as int, sub)),
        decreases n - i,
    {
        let q: u8 = qs[i];
        let b: u8 = cs[i];
        let ghost before = *prog;
        if b >= prog.num_classical {
            prog.num_classical = b + 1;
        }
        let op: IrOp = match t {
            Token::MeasureX => IrOp::MeasureX(q, b),
            Token::MeasureY => IrOp::MeasureY(q, b),
            _ => IrOp::Measure(q, b),
        };
        assert(reading(*prog, gates@, pos as int, sub) =~= (Reading {
            bytes: if b >= before.num_classical {
                (b + 1) as u8
            } else {
                before.num_classical
            },
            ..reading(before, gates@, pos as int, sub)
        }));
        match emit_at(prog, op, sub, pos, gates) {
            Ok(_) => {},
            Err(e) => {
                proof {
                    lemma_measures_stop(
                        st,
                        t,
                        qs@.take(n as int),
                        cs@.take(n as int),
                        (i + 1) as nat,
                        n as nat,
                    );
                }
                rewind(prog, start, Ghost(*old(prog)), Ghost(sub));
                return Err(e);
            },
        }
        i += 1;
    }
    Ok(())
}

/// Reads a measurement.
fn parse_measure(
    lex: &LexResult,
    t: Token,
    pos: &mut usize,
    prog: &mut Program<Literal>,
    sub: bool,
    gates: Ghost<Seq<GateView>>,
) -> (r: Result<(), Complaint>)
    requires
        lex.wf(),
        sound(*old(prog)),
        *old(pos) <= lex.count,
        old(prog).num_qubits <= MAX_QUBITS,
    ensures
        sound(*final(prog)),
        kept(*old(prog), *final(prog), sub),
        r is Ok ==> *final(pos) <= lex.count,
        match measure(
            text_of(*lex, old(prog).num_qubits, sub),
            t,
            reading(*old(prog), gates@, *old(pos) as int, sub),
        ) {
            Ok(s) => r is Ok && reading(*final(prog), gates@, *final(pos) as int, sub) == s,
            Err(e) => r == Err::<(), Complaint>(e),
        },
        r is Err ==> stays(*old(prog), *final(prog), sub),
{
    let ghost c = text_of(*lex, prog.num_qubits, sub);
    let first: u64 = match read_operand(lex, Operand::Qubit, pos, prog, sub, gates) {
        Ok(v) => v,
        Err(e) => {
            return Err(e);
        },
    };
    let ghost s0 = reading(*prog, gates@, *pos as int, sub);
    let mut qs: [u8; 64] = [0; 64];
    let mut cs: [u8; 64] = [0; 64];
    qs[0] = first as u8;
    let mut n: usize = 1;
    let mut p: usize = *pos;
    assert(qs@.take(1) =~= seq![first as u8]);
    let ghost list = qubit_list(c, p as int, seq![first as u8]);
    loop
        invariant_except_break
            p <= lex.count,
            1 <= n <= 64,
        invariant
            lex.wf(),
            c == text_of(*lex, prog.num_qubits, sub),
            prog.num_qubits <= MAX_QUBITS,
            list == qubit_list(c, p as int, qs@.take(n as int)),
            forall|i: int| 0 <= i < n ==> qs@[i] < 28,
            s0 == reading(*prog, gates@, *pos as int, sub),
            sound(*prog),
            stays(*old(prog), *prog, sub),
            c == text_of(*lex, old(prog).num_qubits, sub),
            operand(c, Operand::Qubit, reading(*old(prog), gates@, *old(pos) as int, sub)) == Ok::<
                (u64, Reading),
                Complaint,
            >((first, s0)),
            list == qubit_list(c, s0.pos, seq![first as u8]),
        ensures
            p <= lex.count,
            1 <= n <= 64,
            list == Ok::<(Seq<u8>, int), Complaint>((qs@.take(n as int), p as int)),
        decreases lex.count - p,
    {
        let next: Option<Token> = peek(lex, p);
        assert(tok(c, p as int) == next);
        match next {
            Some(Token::Number(q)) => {
                if q >= prog.num_qubits as u32 {
                    return Err(Complaint { at: p, msg: "qubit index out of range" });
                }
                if n >= 64 {
                    return Err(Complaint { at: p, msg: "too many measurements" });
                }
                let ghost before = qs@;
                qs[n] = q as u8;
                assert(qs@.take(n + 1) =~= before.take(n as int).push(q as u8));
                n = n + 1;
                p = p + 1;
            },
            _ => {
                break ;
            },
        }
    }
    let arrow: Option<Token> = peek(lex, p);
    assert(tok(c, p as int) == arrow);
    if arrow != Some(Token::Arrow) {
        *pos = p;
        assert(reading(*prog, gates@, p as int, sub) =~= (Reading { pos: p as int, ..s0 }));
        return emit_measures(t, &qs, &qs, n, p, prog, sub, gates);
    }
    p = p + 1;
    let mut m: usize = 0;
    let ghost targets = target_list(c, p as int, Seq::empty());
    assert(cs@.take(0) =~= Seq::<u8>::empty());
    loop
        invariant_except_break
            p <= lex.count,
            m <= 64,
        invariant
            lex.wf(),
            c == text_of(*lex, prog.num_qubits, sub),
            targets == target_list(c, p as int, cs@.take(m as int)),
            forall|i: int| 0 <= i < m ==> cs@[i] < 64,
            s0 == reading(*prog, gates@, *pos as int, sub),
            sound(*prog),
            stays(*old(prog), *prog, sub),
            c == text_of(*lex, old(prog).num_qubits, sub),
            1 <= n <= 64,
            operand(c, Operand::Qubit, reading(*old(prog), gates@, *old(pos) as int, sub)) == Ok::<
                (u64, Reading),
                Complaint,
            >((first, s0)),
            list == qubit_list(c, s0.pos, seq![first as u8]),
            list is Ok,
            list->Ok_0.0 == qs@.take(n as int),
            tok(c, list->Ok_0.1) == Some(Token::Arrow),
            targets == target_list(c, list->Ok_0.1 + 1, Seq::empty()),
        ensures
            p <= lex.count,
            m <= 64,
            targets == Ok::<(Seq<u8>, int), Complaint>((cs@.take(m as int), p as int)),
        decreases lex.count - p,
    {
        let next: Option<Token> = peek(lex, p);
        assert(tok(c, p as int) == next);
        match next {
            Some(Token::ClassicalRef(b)) => {
                if b >= MAX_CLASSICAL as u32 {
                    return Err(Complaint { at: p, msg: "classical bit index too large" });
                }
                if m >= 64 {
                    return Err(Complaint { at: p, msg: "too many classical targets" });
                }
                let ghost before = cs@;
                cs[m] = b as u8;
                assert(cs@.take(m + 1) =~= before.take(m as int).push(b as u8));
                m = m + 1;
                p = p + 1;
            },
            _ => {
                break ;
            },
        }
    }
    if m == 0 {
        return Err(Complaint { at: p, msg: "expected a classical bit after '->'" });
    }
    if m != n {
        return Err(
            Complaint { at: p, msg: "measurement qubits and classical targets must match" },
        );
    }
    *pos = p;
    assert(reading(*prog, gates@, p as int, sub) =~= (Reading { pos: p as int, ..s0 }));
    emit_measures(t, &qs, &cs, n, p, prog, sub, gates)
}

/// Reads a gate definition: notes it and moves past its body.
fn parse_gate_def(
    lex: &LexResult,
    pos: &mut usize,
    prog: &Program<Literal>,
    sub: bool,
    gates: &mut Gates,
) -> (r: Result<(), Complaint>)
    requires
        lex.wf(),
        *old(pos) <= lex.count,
        old(gates).wf(),
    ensures
        final(gates).wf(),
        grown(*old(gates), *final(gates)),
        r is Ok ==> *final(pos) <= lex.count,
        match gate_def(
            text_of(*lex, prog.num_qubits, sub),
            reading(*prog, old(gates)@, *old(pos) as int, sub),
        ) {
            Ok(s) => r is Ok && reading(*prog, final(gates)@, *final(pos) as int, sub) == s,
            Err(e) => r == Err::<(), Complaint>(e),
        },
{
    let ghost c = text_of(*lex, prog.num_qubits, sub);
    let p: usize = *pos;
    if sub {
        return Err(Complaint { at: p, msg: "GATE definitions cannot be nested" });
    }
    let t: Option<Token> = peek(lex, p);
    assert(tok(c, p as int) == t);
    if t != Some(Token::Ident) {
        return Err(Complaint { at: p, msg: "expected a gate name after GATE" });
    }
    let u: Option<Token> = peek(lex, p + 1);
    assert(tok(c, p + 1) == u);
    let n: u32 = match u {
        Some(Token::Number(n)) => n,
        _ => {
            return Err(
                Complaint { at: p + 1, msg: "expected a parameter count after a gate name" },
            );
        },
    };
    if n < 1 || n > 3 {
        return Err(Complaint { at: p + 2, msg: "gate parameter count must be 1..=3" });
    }
    if gates.count >= MAX_SUBS {
        return Err(Complaint { at: p + 2, msg: "too many gates" });
    }
    let name: &[u8] = lex.ident_at(p);
    assert(c.names[p as int] == name@);
    if name.len() > MAX_NAME {
        return Err(Complaint { at: p + 2, msg: "gate name too long" });
    }
    if gates.lookup(name).is_some() {
        return Err(Complaint { at: p + 2, msg: "duplicate gate definition" });
    }
    let start: usize = skip_newlines(lex, p + 2, Ghost(c));
    let mut e: usize = start;
    loop
        invariant_except_break
            e <= lex.count,
        invariant
            lex.wf(),
            c == text_of(*lex, prog.num_qubits, sub),
            gate_end(c, start as int) == gate_end(c, e as int),
        ensures
            e <= lex.count,
            gate_end(c, start as int) == e,
        decreases lex.count - e,
    {
        let next: Option<Token> = peek(lex, e);
        assert(tok(c, e as int) == next);
        match next {
            None => {
                break ;
            },
            Some(Token::Endgate) | Some(Token::End) | Some(Token::Halt) | Some(Token::Eof) => {
                break ;
            },
            _ => {
                e = e + 1;
            },
        }
    }
    let last: Option<Token> = peek(lex, e);
    assert(tok(c, e as int) == last);
    if last != Some(Token::Endgate) {
        return Err(Complaint { at: e, msg: "expected ENDGATE" });
    }
    gates.define(name, n as u8, start);
    *pos = e + 1;
    Ok(())
}

/// Reads a call of a user-defined gate, after its name.
fn parse_gate_call(
    lex: &LexResult,
    pos: &mut usize,
    prog: &mut Program<Literal>,
    sub: bool,
    gates: &Gates,
) -> (r: Result<(), Complaint>)
    requires
        lex.wf(),
        sound(*old(prog)),
        0 < *old(pos) <= lex.count,
        gates.wf(),
    ensures
        sound(*final(prog)),
        kept(*old(prog), *final(prog), sub),
        r is Ok ==> *final(pos) <= lex.count,
        match gate_call(
            text_of(*lex, old(prog).num_qubits, sub),
            reading(*old(prog), gates@, *old(pos) as int, sub),
        ) {
            Ok(s) => r is Ok && reading(*final(prog), gates@, *final(pos) as int, sub) == s,
            Err(e) => r == Err::<(), Complaint>(e),
        },
{
    let ghost c = text_of(*lex, prog.num_qubits, sub);
    let name: &[u8] = lex.ident_at(*pos - 1);
    assert(c.names[*pos - 1] == name@);
    let id: u16 = match gates.lookup(name) {
        Some(id) => id,
        None => {
            return Err(Complaint { at: *pos, msg: "undefined gate" });
        },
    };
    let np: u8 = gates.defs[id as usize].nparams;
    assert(gates.defs@[id as int].nparams <= 3);
    assert(gates@[id as int].nparams == np);
    let q: Operand = Operand::Qubit;
    let ks: [Operand; 3] = [q, q, q];
    assert(ks@.take(np as int) =~= Seq::new(np as nat, |k: int| Operand::Qubit));
    match read_list(lex, np as usize, ks, pos, prog, sub, Ghost(gates@)) {
        Err(e) => Err(e),
        Ok(v) => {
            assert forall|i: int| 0 <= i < np implies v@.take(np as int)[i] == v@[i] by {}
            let a0: u8 = if np > 0 {
                #[verifier::truncate]
                (v[0] as u8)
            } else {
                NO_ARG
            };
            let a1: u8 = if np > 1 {
                #[verifier::truncate]
                (v[1] as u8)
            } else {
                NO_ARG
            };
            let a2: u8 = if np > 2 {
                #[verifier::truncate]
                (v[2] as u8)
            } else {
                NO_ARG
            };
            emit_at(prog, IrOp::Call(id, a0, a1, a2), sub, *pos, Ghost(gates@))
        },
    }
}

/// Reads a statement without a body, after its first token.
fn parse_flat(
    lex: &LexResult,
    t: Token,
    pos: &mut usize,
    prog: &mut Program<Literal>,
    sub: bool,
    gates: &mut Gates,
) -> (r: Result<(), Complaint>)
    requires
        lex.wf(),
        sound(*old(prog)),
        0 < *old(pos) <= lex.count,
        old(gates).wf(),
        old(prog).num_qubits <= MAX_QUBITS,
    ensures
        sound(*final(prog)),
        kept(*old(prog), *final(prog), sub),
        final(gates).wf(),
        grown(*old(gates), *final(gates)),
        r is Ok ==> *final(pos) <= lex.count,
        match flat(
            text_of(*lex, old(prog).num_qubits, sub),
            t,
            reading(*old(prog), old(gates)@, *old(pos) as int, sub),
        ) {
            Ok(s) => r is Ok && reading(*final(prog), final(gates)@, *final(pos) as int, sub) == s,
            Err(e) => r == Err::<(), Complaint>(e),
        },
{
    match shape_of(t) {
        Some((n, ks)) => parse_plain(lex, t, n, ks, pos, prog, sub, Ghost(gates@)),
        None => match t {
            Token::Mcx => parse_mcx(lex, pos, prog, sub, Ghost(gates@)),
            Token::Estimate => parse_estimate(lex, pos, prog, sub, Ghost(gates@)),
            Token::Measure | Token::MeasureX | Token::MeasureY => parse_measure(
                lex,
                t,
                pos,
                prog,
                sub,
                Ghost(gates@),
            ),
            Token::Gate => parse_gate_def(lex, pos, prog, sub, gates),
            Token::Ident => parse_gate_call(lex, pos, prog, sub, gates),
            _ => Err(Complaint { at: *pos, msg: "unexpected token" }),
        },
    }
}

/// The op that opens a body.
#[derive(Clone, Copy, Debug)]
enum Opening {
    Branch(u8, bool, u8),
    Repeat(u32),
}

/// What an opening op says.
spec fn told(h: Opening) -> Head {
    match h {
        Opening::Branch(b, negate, v) => Head::Branch(b, negate, v),
        Opening::Repeat(count) => Head::Repeat(count),
    }
}

/// Reads the condition of `IF`, after `IF`.
fn parse_if_head(lex: &LexResult, pos: usize, c: Ghost<Text>) -> (r: Result<
    (Opening, usize),
    Complaint,
>)
    requires
        lex.wf(),
        pos <= lex.count,
        c@ == text_of(*lex, c@.nq, c@.sub),
    ensures
        match if_head(c@, pos as int) {
            Ok((h, p)) => r is Ok && told(r->Ok_0.0) == h && r->Ok_0.1 == p && pos < r->Ok_0.1
                <= lex.count,
            Err(e) => r is Err && r->Err_0 == e,
        },
{
    let t0: Option<Token> = peek(lex, pos);
    assert(tok(c@, pos as int) == t0);
    let b: u32 = match t0 {
        Some(Token::ClassicalRef(b)) => b,
        _ => {
            return Err(Complaint { at: pos, msg: "expected a classical bit after IF" });
        },
    };
    if b >= MAX_CLASSICAL as u32 {
        return Err(Complaint { at: pos + 1, msg: "classical bit index too large" });
    }
    let t1: Option<Token> = peek(lex, pos + 1);
    assert(tok(c@, pos + 1) == t1);
    if t1 != Some(Token::Equals) && t1 != Some(Token::Ne) {
        return Err(
            Complaint { at: pos + 1, msg: "expected '==' or '!=' after IF condition" },
        );
    }
    let t2: Option<Token> = peek(lex, pos + 2);
    assert(tok(c@, pos + 2) == t2);
    let v: u32 = match t2 {
        Some(Token::Number(v)) => v,
        _ => {
            return Err(Complaint { at: pos + 2, msg: "expected a value after the comparison" });
        },
    };
    if v > 255 {
        return Err(Complaint { at: pos + 3, msg: "IF value must fit in a byte" });
    }
    let t3: Option<Token> = peek(lex, pos + 3);
    assert(tok(c@, pos + 3) == t3);
    if t3 != Some(Token::Then) {
        return Err(Complaint { at: pos + 3, msg: "expected THEN" });
    }
    let p: usize = skip_newlines(lex, pos + 4, c);
    Ok((Opening::Branch(b as u8, t1 == Some(Token::Ne), v as u8), p))
}

/// Whether a token starts a statement that belongs to the body of `SHOT`.
fn is_body_start(t: Token) -> (r: bool)
    ensures
        r == body_start(t),
{
    match t {
        Token::H | Token::X | Token::Cnot | Token::Toff | Token::Measure | Token::If => true,
        Token::Shot | Token::Rz | Token::Rx | Token::Ry | Token::Phase | Token::S => true,
        Token::T | Token::Sx | Token::Swap | Token::Iswap | Token::Cz | Token::Cphase => true,
        Token::Cswap | Token::Mcx | Token::Reset | Token::MeasureX | Token::MeasureY => true,
        Token::SetVal | Token::Not | Token::And | Token::Or | Token::Xor | Token::Add => true,
        Token::Sub | Token::Expect | Token::Estimate | Token::SaveState => true,
        Token::SaveAmps | Token::SaveProbs | Token::Gate | Token::Ident => true,
        _ => false,
    }
}

/// Reads the count of `SHOT`, after `SHOT`, and whether it is bare.
fn parse_shot_head(lex: &LexResult, pos: usize, c: Ghost<Text>) -> (r: Result<
    (u32, usize, bool),
    Complaint,
>)
    requires
        lex.wf(),
        pos <= lex.count,
        c@ == text_of(*lex, c@.nq, c@.sub),
    ensures
        match shot_head(c@, pos as int) {
            Ok((n, p, bare)) => r is Ok && r->Ok_0.0 == n && r->Ok_0.1 == p && r->Ok_0.2 == bare
                && pos < r->Ok_0.1 <= lex.count,
            Err(e) => r is Err && r->Err_0 == e,
        },
{
    let t: Option<Token> = peek(lex, pos);
    assert(tok(c@, pos as int) == t);
    match t {
        Some(Token::Number(n)) => {
            let p: usize = skip_newlines(lex, pos + 1, c);
            let next: Option<Token> = peek(lex, p);
            assert(tok(c@, p as int) == next);
            let bare: bool = match next {
                Some(u) => !is_body_start(u),
                None => true,
            };
            Ok(
                (
                    if n == 0 {
                        1
                    } else {
                        n
                    },
                    p,
                    bare,
                ),
            )
        },
        _ => Err(Complaint { at: pos, msg: "expected shot count" }),
    }
}

/// Reads statements and line ends, up to a token that ends a block.
fn parse_body(
    lex: &LexResult,
    pos: &mut usize,
    prog: &mut Program<Literal>,
    depth: u8,
    sub: bool,
    gates: &mut Gates,
) -> (r: Result<(), Complaint>)
    requires
        lex.wf(),
        sound(*old(prog)),
        *old(pos) <= lex.count,
        old(gates).wf(),
        old(prog).num_qubits <= MAX_QUBITS,
        depth <= MAX_NESTING + 1,
    ensures
        sound(*final(prog)),
        kept(*old(prog), *final(prog), sub),
        final(gates).wf(),
        grown(*old(gates), *final(gates)),
        r is Ok ==> *old(pos) <= *final(pos) <= lex.count,
        match body(
            text_of(*lex, old(prog).num_qubits, sub),
            reading(*old(prog), old(gates)@, *old(pos) as int, sub),
            depth as nat,
        ) {
            Ok(s) => r is Ok && reading(*final(prog), final(gates)@, *final(pos) as int, sub) == s,
            Err(e) => r == Err::<(), Complaint>(e),
        },
    decreases lex.count - *old(pos), 2int,
{
    let ghost c = text_of(*lex, prog.num_qubits, sub);
    let ghost st = reading(*prog, gates@, *pos as int, sub);
    if depth > MAX_NESTING {
        return Err(Complaint { at: *pos, msg: "nesting too deep" });
    }
    loop
        invariant_except_break
            sound(*prog),
            kept(*old(prog), *prog, sub),
            gates.wf(),
            grown(*old(gates), *gates),
            *old(pos) <= *pos <= lex.count,
        invariant
            lex.wf(),
            depth <= MAX_NESTING,
            c == text_of(*lex, prog.num_qubits, sub),
            c == text_of(*lex, old(prog).num_qubits, sub),
            prog.num_qubits <= MAX_QUBITS,
            st == reading(*old(prog), old(gates)@, *old(pos) as int, sub),
            body(c, st, depth as nat) == statements(
                c,
                reading(*prog, gates@, *pos as int, sub),
                depth as nat,
            ),
        ensures
            sound(*prog),
            kept(*old(prog), *prog, sub),
            gates.wf(),
            grown(*old(gates), *gates),
            *old(pos) <= *pos <= lex.count,
            body(c, st, depth as nat) == Ok::<Reading, Complaint>(
                reading(*prog, gates@, *pos as int, sub),
            ),
        decreases lex.count - *pos,
    {
        let t: Option<Token> = peek(lex, *pos);
        assert(tok(c, *pos as int) == t);
        match t {
            None => {
                break ;
            },
            Some(Token::Newline) => {
                let ghost before = reading(*prog, gates@, *pos as int, sub);
                *pos = *pos + 1;
                assert(reading(*prog, gates@, *pos as int, sub) =~= (Reading {
                    pos: before.pos + 1,
                    ..before
                }));
            },
            Some(Token::Endif) | Some(Token::Endshot) | Some(Token::End) | Some(Token::Halt) => {
                break ;
            },
            Some(Token::Eof) | Some(Token::Endgate) => {
                break ;
            },
            Some(_) => {
                match parse_line(lex, pos, prog, depth, sub, gates) {
                    Ok(_) => {},
                    Err(e) => {
                        return Err(e);
                    },
                }
            },
        }
    }
    Ok(())
}

/// Reads one statement. A refused one leaves the program and the gates as before.
fn parse_line(
    lex: &LexResult,
    pos: &mut usize,
    prog: &mut Program<Literal>,
    depth: u8,
    sub: bool,
    gates: &mut Gates,
) -> (r: Result<(), Complaint>)
    requires
        lex.wf(),
        sound(*old(prog)),
        *old(pos) < lex.count,
        old(gates).wf(),
        old(prog).num_qubits <= MAX_QUBITS,
        depth <= MAX_NESTING,
    ensures
        sound(*final(prog)),
        kept(*old(prog), *final(prog), sub),
        final(gates).wf(),
        grown(*old(gates), *final(gates)),
        r is Ok ==> *old(pos) < *final(pos) <= lex.count,
        match statement(
            text_of(*lex, old(prog).num_qubits, sub),
            reading(*old(prog), old(gates)@, *old(pos) as int, sub),
            depth as nat,
        ) {
            Ok(s) => r is Ok && reading(*final(prog), final(gates)@, *final(pos) as int, sub) == s,
            Err(e) => r == Err::<(), Complaint>(e),
        },
        r is Err ==> stays(*old(prog), *final(prog), sub) && final(gates)@ == old(gates)@,
    decreases lex.count - *old(pos), 1int,
{
    let start: Mark = mark(prog);
    let count: usize = gates.count;
    match parse_statement(lex, pos, prog, depth, sub, gates) {
        Ok(_) => Ok(()),
        Err(e) => {
            rewind(prog, start, Ghost(*old(prog)), Ghost(sub));
            gates.count = count;
            assert(gates@ =~= old(gates)@);
            Err(e)
        },
    }
}

/// Reads one statement. A refused one may leave a part of itself behind.
fn parse_statement(
    lex: &LexResult,
    pos: &mut usize,
    prog: &mut Program<Literal>,
    depth: u8,
    sub: bool,
    gates: &mut Gates,
) -> (r: Result<(), Complaint>)
    requires
        lex.wf(),
        sound(*old(prog)),
        *old(pos) < lex.count,
        old(gates).wf(),
        old(prog).num_qubits <= MAX_QUBITS,
        depth <= MAX_NESTING,
    ensures
        sound(*final(prog)),
        kept(*old(prog), *final(prog), sub),
        final(gates).wf(),
        grown(*old(gates), *final(gates)),
        r is Ok ==> *old(pos) < *final(pos) <= lex.count,
        match statement(
            text_of(*lex, old(prog).num_qubits, sub),
            reading(*old(prog), old(gates)@, *old(pos) as int, sub),
            depth as nat,
        ) {
            Ok(s) => r is Ok && reading(*final(prog), final(gates)@, *final(pos) as int, sub) == s,
            Err(e) => r == Err::<(), Complaint>(e),
        },
    decreases lex.count - *old(pos), 0int,
{
    let ghost c = text_of(*lex, prog.num_qubits, sub);
    let ghost st = reading(*prog, gates@, *pos as int, sub);
    let p: usize = *pos;
    let t: Token = lex.tokens[p];
    assert(tok(c, p as int) == Some(t));
    *pos = p + 1;
    assert(reading(*prog, gates@, p + 1, sub) =~= (Reading { pos: p + 1, ..st }));
    match t {
        Token::If => {
            match parse_if_head(lex, p + 1, Ghost(c)) {
                Err(e) => Err(e),
                Ok((h, b)) => {
                    *pos = b;
                    assert(reading(*prog, gates@, b as int, sub) =~= (Reading {
                        pos: b as int,
                        ..st
                    }));
                    parse_block(lex, h, pos, prog, depth, sub, gates, Ghost(p as int))
                },
            }
        },
        Token::Shot => {
            match parse_shot_head(lex, p + 1, Ghost(c)) {
                Err(e) => Err(e),
                Ok((count, b, bare)) => {
                    *pos = b;
                    assert(reading(*prog, gates@, b as int, sub) =~= (Reading {
                        pos: b as int,
                        ..st
                    }));
                    if bare {
                        let next: Option<Token> = peek(lex, b);
                        assert(tok(c, b as int) == next);
                        if next == Some(Token::Endshot) {
                            *pos = b + 1;
                        }
                        prog.has_explicit_shot = true;
                        assert(reading(*prog, gates@, *pos as int, sub) =~= (Reading {
                            pos: *pos as int,
                            shot: true,
                            ..st
                        }));
                        emit_at(prog, IrOp::Shot(count, 0, 0), sub, *pos, Ghost(gates@))
                    } else {
                        parse_block(
                            lex,
                            Opening::Repeat(count),
                            pos,
                            prog,
                            depth,
                            sub,
                            gates,
                            Ghost(p as int),
                        )
                    }
                },
            }
        },
        _ => {
            proof {
                lemma_flat_moves(c, t, Reading { pos: p + 1, ..st });
            }
            parse_flat(lex, t, pos, prog, sub, gates)
        },
    }
}

proof fn lemma_flat_moves(c: Text, t: Token, st: Reading)
    requires
        0 <= st.pos <= c.tokens.len(),
    ensures
        flat(c, t, st) matches Ok(s) ==> s.pos >= st.pos,
{
    match shape(t) {
        Some(ks) => lemma_operands_move(c, ks, st),
        None => match t {
            Token::Estimate => lemma_estimate_moves(c, st, 0),
            Token::Measure | Token::MeasureX | Token::MeasureY => {
                if let Ok((first, s)) = operand(c, Operand::Qubit, st) {
                    lemma_lists_move(c, s.pos, seq![first as u8]);
                    if let Ok((qs, p)) = qubit_list(c, s.pos, seq![first as u8]) {
                        lemma_lists_move(c, p + 1, Seq::empty());
                        lemma_measures_move(Reading { pos: p, ..s }, t, qs, qs, qs.len());
                        if let Ok((cs, p2)) = target_list(c, p + 1, Seq::empty()) {
                            lemma_measures_move(Reading { pos: p2, ..s }, t, qs, cs, qs.len());
                        }
                    }
                }
            },
            Token::Gate => {
                lemma_newlines_move(c, st.pos + 2);
                lemma_gate_end_moves(c, past_newlines(c, st.pos + 2));
            },
            Token::Ident => {
                if let Some(id) = found(st.gates, c.names[st.pos - 1], 0) {
                    let np = st.gates[id as int].nparams;
                    lemma_operands_move(c, Seq::new(np as nat, |k: int| Operand::Qubit), st);
                }
            },
            _ => {},
        },
    }
}

proof fn lemma_operands_move(c: Text, ks: Seq<Operand>, st: Reading)
    ensures
        operands(c, ks, st) matches Ok((v, s)) ==> s.pos >= st.pos,
    decreases ks.len(),
{
    if ks.len() > 0 {
        lemma_operands_move(c, ks.drop_last(), st);
    }
}

proof fn lemma_estimate_moves(c: Text, st: Reading, n: nat)
    ensures
        estimate_terms(c, st, n) matches Ok((s, _)) ==> s.pos >= st.pos,
    decreases c.tokens.len() - st.pos,
{
    let neg = tok(c, st.pos) == Some(Token::Minus);
    let at = if neg {
        st.pos + 1
    } else {
        st.pos
    };
    let coef = match tok(c, at) {
        Some(Token::Number(x)) => Some(whole_literal(x, neg)),
        Some(Token::Float(l)) => Some(Literal { negative: neg, ..l }),
        _ => None,
    };
    if let Some(l) = coef {
        if let Some(Token::Pauli(code)) = tok(c, at + 1) {
            lemma_estimate_moves(
                c,
                Reading { pos: at + 2, terms: st.terms.push((l, code)), ..st },
                n + 1,
            );
        }
    }
}

proof fn lemma_lists_move(c: Text, pos: int, l: Seq<u8>)
    ensures
        qubit_list(c, pos, l) matches Ok((_, p)) ==> p >= pos,
        target_list(c, pos, l) matches Ok((_, p)) ==> p >= pos,
    decreases c.tokens.len() - pos,
{
    match tok(c, pos) {
        Some(Token::Number(n)) => lemma_lists_move(c, pos + 1, l.push(n as u8)),
        Some(Token::ClassicalRef(n)) => lemma_lists_move(c, pos + 1, l.push(n as u8)),
        _ => {},
    }
}

proof fn lemma_measures_move(st: Reading, t: Token, qs: Seq<u8>, cs: Seq<u8>, k: nat)
    ensures
        measures(st, t, qs, cs, k) matches Ok(s) ==> s.pos == st.pos,
    decreases k,
{
    if k > 0 {
        lemma_measures_move(st, t, qs, cs, (k - 1) as nat);
    }
}

proof fn lemma_newlines_move(c: Text, pos: int)
    ensures
        past_newlines(c, pos) >= pos,
    decreases c.tokens.len() - pos,
{
    if tok(c, pos) == Some(Token::Newline) {
        lemma_newlines_move(c, pos + 1);
    }
}

proof fn lemma_gate_end_moves(c: Text, pos: int)
    ensures
        gate_end(c, pos) >= pos,
    decreases c.tokens.len() - pos,
{
    match tok(c, pos) {
        None => {},
        Some(Token::Endgate) | Some(Token::End) | Some(Token::Halt) | Some(Token::Eof) => {},
        _ => lemma_gate_end_moves(c, pos + 1),
    }
}

/// Reads the body of an opened block and its end, and puts the op into the slot
/// before the body.
#[verifier::spinoff_prover]
#[verifier::rlimit(60)]
fn parse_block(
    lex: &LexResult,
    h: Opening,
    pos: &mut usize,
    prog: &mut Program<Literal>,
    depth: u8,
    sub: bool,
    gates: &mut Gates,
    from: Ghost<int>,
) -> (r: Result<(), Complaint>)
    requires
        lex.wf(),
        sound(*old(prog)),
        0 <= from@ < *old(pos) <= lex.count,
        old(gates).wf(),
        old(prog).num_qubits <= MAX_QUBITS,
        depth <= MAX_NESTING,
    ensures
        sound(*final(prog)),
        kept(*old(prog), *final(prog), sub),
        final(gates).wf(),
        grown(*old(gates), *final(gates)),
        r is Ok ==> *old(pos) <= *final(pos) <= lex.count,
        match block(
            text_of(*lex, old(prog).num_qubits, sub),
            told(h),
            from@,
            reading(*old(prog), old(gates)@, *old(pos) as int, sub),
            depth as nat,
        ) {
            Ok(s) => r is Ok && reading(*final(prog), final(gates)@, *final(pos) as int, sub) == s,
            Err(e) => r == Err::<(), Complaint>(e),
        },
    decreases lex.count - *old(pos), 3int,
{
    let slot: usize = if sub {
        prog.sub_len
    } else {
        prog.len
    };
    match emit_at(prog, IrOp::Print, sub, *pos, Ghost(gates@)) {
        Ok(_) => {},
        Err(e) => {
            return Err(e);
        },
    }
    match parse_body(lex, pos, prog, depth + 1, sub, gates) {
        Ok(_) => {},
        Err(e) => {
            return Err(e);
        },
    }
    close_block(lex, h, slot, pos, prog, sub, Ghost(gates@))
}

/// What closing a block leaves alone: everything but the slot of its op.
spec fn kept_from(before: Program<Literal>, after: Program<Literal>, slot: int, sub: bool) -> bool {
    &&& after.version == before.version
    &&& after.num_qubits == before.num_qubits
    &&& after.subs@ == before.subs@
    &&& after.num_subs == before.num_subs
    &&& after.len == before.len
    &&& after.sub_len == before.sub_len
    &&& forall|i: int| 0 <= i < slot ==> #[trigger] after.ops@[i] == before.ops@[i]
    &&& after.num_consts == before.num_consts
    &&& after.consts@ == before.consts@
    &&& after.num_estimate_terms == before.num_estimate_terms
    &&& after.estimate_terms@ == before.estimate_terms@
}

/// Consumes the end of a block and puts its op into the slot before the body.
fn close_block(
    lex: &LexResult,
    h: Opening,
    slot: usize,
    pos: &mut usize,
    prog: &mut Program<Literal>,
    sub: bool,
    gates: Ghost<Seq<GateView>>,
) -> (r: Result<(), Complaint>)
    requires
        lex.wf(),
        sound(*old(prog)),
        *old(pos) <= lex.count,
        slot < spec_cursor(*old(prog), sub),
    ensures
        sound(*final(prog)),
        kept_from(*old(prog), *final(prog), slot as int, sub),
        r is Ok ==> *old(pos) <= *final(pos) <= lex.count,
        match closed(
            text_of(*lex, old(prog).num_qubits, sub),
            told(h),
            slot as int,
            reading(*old(prog), gates@, *old(pos) as int, sub),
        ) {
            Ok(s) => r is Ok && reading(*final(prog), gates@, *final(pos) as int, sub) == s,
            Err(e) => r == Err::<(), Complaint>(e),
        },
{
    let ghost c = text_of(*lex, prog.num_qubits, sub);
    let ghost s2 = reading(*prog, gates@, *pos as int, sub);
    let t: Option<Token> = peek(lex, *pos);
    assert(tok(c, *pos as int) == t);
    let end: usize = if sub {
        prog.sub_len
    } else {
        prog.len
    };
    let off: u16 = (slot + 1) as u16;
    let len: u16 = (end - slot - 1) as u16;
    let op: IrOp = match h {
        Opening::Branch(b, negate, v) => {
            if t != Some(Token::Endif) {
                return Err(Complaint { at: *pos, msg: "expected ENDIF" });
            }
            if negate {
                IrOp::IfNe(b, v, off, len)
            } else {
                IrOp::IfEq(b, v, off, len)
            }
        },
        Opening::Repeat(count) => {
            if t != Some(Token::Endshot) {
                return Err(Complaint { at: *pos, msg: "expected ENDSHOT" });
            }
            prog.has_explicit_shot = true;
            IrOp::Shot(count, off, len)
        },
    };
    prog.ops[slot] = op;
    *pos = *pos + 1;
    assert(reading(*prog, gates@, *pos as int, sub).ops =~= s2.ops.update(slot as int, op));
    Ok(())
}

/// Whether the program holds what was lowered.
pub open spec fn spells(prog: Program<Literal>, l: Lowered) -> bool {
    &&& prog.sub_len == l.ops.len() <= MAX_OPS
    &&& prog.ops@.subrange(0, prog.sub_len as int) == l.ops
    &&& prog.len == l.len <= l.ops.len()
    &&& prog.num_qubits == l.num_qubits
    &&& prog.num_classical == l.num_classical
    &&& prog.has_explicit_shot == l.has_explicit_shot
    &&& prog.num_consts == l.consts.len() <= MAX_CONSTS
    &&& prog.consts@.subrange(0, prog.num_consts as int) == l.consts
    &&& prog.num_estimate_terms == l.terms.len() <= MAX_ESTIMATE_TERMS
    &&& prog.estimate_terms@.subrange(0, prog.num_estimate_terms as int) == l.terms
    &&& prog.num_subs == l.subs.len() <= MAX_SUBS
    &&& prog.subs@.subrange(0, prog.num_subs as int) == l.subs
}

/// Reads the declaration of qubits; returns their number and where the body
/// starts.
fn parse_declaration(lex: &LexResult) -> (r: Result<(u8, usize), Complaint>)
    requires
        lex.wf(),
    ensures
        match declaration(text_of(*lex, 0, false)) {
            Ok((n, p)) => r is Ok && r->Ok_0.0 == n && r->Ok_0.1 == p && n <= MAX_QUBITS
                && r->Ok_0.1 <= lex.count,
            Err(e) => r is Err && r->Err_0 == e,
        },
{
    let ghost c = text_of(*lex, 0, false);
    let p: usize = skip_newlines(lex, 0, Ghost(c));
    let t: Option<Token> = peek(lex, p);
    assert(tok(c, p as int) == t);
    if t != Some(Token::Qubits) {
        return Err(Complaint { at: p, msg: "expected QUBITS declaration" });
    }
    let u: Option<Token> = peek(lex, p + 1);
    assert(tok(c, p + 1) == u);
    match u {
        Some(Token::Number(n)) => {
            if n == 0 || n > MAX_QUBITS as u32 {
                return Err(Complaint { at: p + 2, msg: "qubit count must be in 1..=28" });
            }
            Ok((n as u8, skip_newlines(lex, p + 2, Ghost(c))))
        },
        _ => Err(Complaint { at: p + 1, msg: "expected qubit count after QUBITS" }),
    }
}

/// Reads all gate bodies into the subprogram region.
#[verifier::rlimit(60)]
#[verifier::spinoff_prover]
fn parse_gate_bodies(
    lex: &LexResult,
    prog: &mut Program<Literal>,
    gates: &mut Gates,
    pos: Ghost<int>,
) -> (r: Result<(), Complaint>)
    requires
        lex.wf(),
        sound(*old(prog)),
        old(gates).wf(),
        old(prog).num_qubits <= MAX_QUBITS,
        old(prog).num_subs == 0,
    ensures
        sound(*final(prog)),
        final(prog).num_qubits == old(prog).num_qubits,
        final(prog).version == old(prog).version,
        match gate_bodies(
            text_of(*lex, old(prog).num_qubits, true),
            reading(*old(prog), old(gates)@, pos@, true),
            Seq::empty(),
            old(gates)@.len(),
        ) {
            Ok((s, subs)) => {
                &&& r is Ok
                &&& final(prog).num_subs == subs.len() <= MAX_SUBS
                &&& final(prog).subs@.subrange(0, subs.len() as int) == subs
                &&& final(prog).len == old(prog).len
                &&& reading(*final(prog), s.gates, s.pos, true) == s
                &&& final(prog).sub_len >= old(prog).sub_len
            },
            Err(e) => r == Err::<(), Complaint>(e),
        },
{
    let ghost c = text_of(*lex, prog.num_qubits, true);
    let ghost goal = gate_bodies(
        c,
        reading(*prog, gates@, pos@, true),
        Seq::empty(),
        gates@.len(),
    );
    let n: usize = gates.count;
    let mut i: usize = 0;
    let ghost mut at = pos@;
    assert(prog.subs@.subrange(0, 0) =~= Seq::<Sub>::empty());
    while i < n
        invariant
            lex.wf(),
            sound(*prog),
            gates.wf(),
            i <= n <= gates.count,
            n <= MAX_SUBS,
            prog.num_qubits <= MAX_QUBITS,
            prog.num_subs == i,
            c == text_of(*lex, prog.num_qubits, true),
            c == text_of(*lex, old(prog).num_qubits, true),
            n == old(gates)@.len(),
            prog.len == old(prog).len,
            prog.num_qubits == old(prog).num_qubits,
            prog.version == old(prog).version,
            prog.sub_len >= old(prog).sub_len,
            goal == gate_bodies(
                c,
                reading(*old(prog), old(gates)@, pos@, true),
                Seq::empty(),
                n as nat,
            ),
            goal == gate_bodies(
                c,
                reading(*prog, gates@, at, true),
                prog.subs@.subrange(0, i as int),
                n as nat,
            ),
        decreases n - i,
    {
        let ghost st = reading(*prog, gates@, at, true);
        let ghost subs = prog.subs@.subrange(0, i as int);
        let def: GateDef = gates.defs[i];
        assert(gates.defs@[i as int].body_start <= MAX_TOKENS);
        assert(gates@[i as int] == def.told());
        let before: usize = prog.sub_len;
        let mut bpos: usize = def.body_start as usize;
        assert(reading(*prog, gates@, bpos as int, true) =~= (Reading {
            pos: st.gates[i as int].start,
            ..st
        }));
        if bpos > lex.count {
            proof {
                assert(tok(c, bpos as int) is None);
            }
            return Err(Complaint { at: bpos, msg: "expected ENDGATE" });
        }
        match parse_body(lex, &mut bpos, prog, 0, true, gates) {
            Ok(_) => {},
            Err(e) => {
                return Err(e);
            },
        }
        let t: Option<Token> = peek(lex, bpos);
        assert(tok(c, bpos as int) == t);
        if t != Some(Token::Endgate) {
            return Err(Complaint { at: bpos, msg: "expected ENDGATE" });
        }
        let len: usize = prog.sub_len - before;
        let ghost mid = *prog;
        let _ = prog.add_sub(len, def.nparams);
        proof {
            assert(prog.ops@ == prog@.ops);
            assert(mid.ops@ == mid@.ops);
            assert(prog.consts@ == prog@.consts);
            assert(mid.consts@ == mid@.consts);
            assert(prog.subs@ == prog@.subs);
            assert(mid.subs@ == mid@.subs);
            assert(prog.estimate_terms@ == prog@.estimate_terms);
            assert(mid.estimate_terms@ == mid@.estimate_terms);
            assert(reading(*prog, gates@, bpos as int, true) =~= reading(
                mid,
                gates@,
                bpos as int,
                true,
            ));
            assert(prog.subs@.subrange(0, i + 1) =~= subs.push(
                Sub { off: before as u16, len: len as u16, nparams: def.nparams },
            ));
            at = bpos as int;
        }
        i += 1;
    }
    Ok(())
}

/// Lowers a lexed source into `prog`.
fn lower(lex: &LexResult, prog: &mut Program<Literal>) -> (r: Result<(), Complaint>)
    requires
        lex.wf(),
    ensures
        sound(*final(prog)),
        final(prog).version == old(prog).version,
        match lowered(*lex) {
            Ok(l) => r is Ok && spells(*final(prog), l),
            Err(e) => r == Err::<(), Complaint>(e),
        },
{
    prog.reset();
    let (n, start): (u8, usize) = match parse_declaration(lex) {
        Ok(d) => d,
        Err(e) => {
            return Err(e);
        },
    };
    prog.num_qubits = n;
    prog.num_classical = n;
    let ghost c = text_of(*lex, n, false);
    let mut gates: Gates = Gates::new();
    let mut pos: usize = start;
    assert(reading(*prog, gates@, pos as int, false) =~= (Reading {
        pos: start as int,
        ops: Seq::empty(),
        consts: Seq::empty(),
        terms: Seq::empty(),
        bytes: n,
        shot: false,
        gates: Seq::empty(),
    }));
    match parse_body(lex, &mut pos, prog, 0, false, &mut gates) {
        Ok(_) => {},
        Err(e) => {
            return Err(e);
        },
    }
    let ghost s = reading(*prog, gates@, pos as int, false);
    let p: usize = skip_newlines(lex, pos, Ghost(c));
    let t: Option<Token> = peek(lex, p);
    assert(tok(c, p as int) == t);
    match t {
        None => {},
        Some(Token::Eof) | Some(Token::End) | Some(Token::Halt) => {},
        _ => {
            return Err(Complaint { at: p, msg: "expected END or HALT at end of program" });
        },
    }
    prog.sub_len = prog.len;
    assert(reading(*prog, gates@, pos as int, true) =~= s);
    parse_gate_bodies(lex, prog, &mut gates, Ghost(pos as int))
}

/// The token at which a complaint is shown: the one it is about, or the last.
pub open spec fn shown(lex: LexResult, at: usize) -> int {
    if at < lex.count {
        at as int
    } else if lex.count > 0 {
        lex.count - 1
    } else {
        0
    }
}

/// Lowers a lexed source into `prog` and says whether it is a program. If it is
/// not, `diag` says where and why, and `prog` holds nothing of use, though its counters
/// stay inside their pools.
pub fn parse(lex: &LexResult, prog: &mut Program<Literal>, diag: &mut Diag) -> (ok: bool)
    requires
        lex.wf(),
    ensures
        sound(*final(prog)),
        final(prog).version == old(prog).version,
        match lowered(*lex) {
            Ok(l) => {
                &&& ok
                &&& spells(*final(prog), l)
                &&& final(diag).line == 1
                &&& final(diag).col == 1
                &&& final(diag).len == 0
            },
            Err(e) => {
                &&& !ok
                &&& final(diag).line == lex.token_lines@[shown(*lex, e.at)]
                &&& final(diag).col == lex.token_cols@[shown(*lex, e.at)]
                &&& final(diag).text() == clipped(e.msg.spec_bytes())
                &&& final(diag).wf()
            },
        },
{
    diag.clear();
    match lower(lex, prog) {
        Ok(_) => true,
        Err(e) => {
            let p: usize = if e.at < lex.count {
                e.at
            } else if lex.count > 0 {
                lex.count - 1
            } else {
                0
            };
            diag.set(lex.token_lines[p] as u32, lex.token_cols[p] as u32, e.msg);
            false
        },
    }
}

} // verus!
