//! The meaning of a program: how its ops act on the state of a run.
use crate::backend::{Basis, Gate, ResultsView, SimBackend};
use crate::ir::{IrOp, ProgramView};
use vstd::prelude::*;

verus! {

/// Why a run cannot go on.
#[derive(Clone, Copy, Debug, PartialEq, Eq, Structural)]
pub enum Fault {
    /// An op reads or writes a classical byte that does not exist.
    Classical,
    /// An op refers past the end of the constant, term or subprogram pool.
    Pool,
    /// Execution runs past the end of the op array.
    Range,
    /// The backend does not perform the op.
    Rejected,
    /// A sample has no histogram bin, or the bin is full.
    Histogram,
    /// The run did not end within its budget of steps.
    OutOfFuel,
}

/// Everything a run changes: the quantum state, the generator, the classical
/// bytes, the histogram and the captured results.
#[verifier::ext_equal]
pub struct Machine<M, A, V> {
    pub model: M,
    pub seed: u64,
    pub classical: Seq<u8>,
    pub histogram: Seq<u32>,
    pub results: ResultsView<A, V>,
}

/// The actual qubit behind operand `q`: operands below 3 that are bound by the
/// current call stand for its arguments.
pub open spec fn renamed(remap: Seq<Option<u8>>, q: u8) -> u8 {
    if q < 3 {
        match remap[q as int] {
            Some(v) => v,
            None => q,
        }
    } else {
        q
    }
}

/// The place of a qubit in a control mask. No register reaches the last place, which
/// stands for all qubits beyond.
pub open spec fn place(q: u8) -> u32 {
    if q < 31 {
        q as u32
    } else {
        31
    }
}

/// A mask with the bit at `at` if `mask` has bit `k`, else an empty mask.
pub open spec fn carried(mask: u32, k: u32, at: u32) -> u32 {
    if (mask >> k) & 1 == 1 {
        1u32 << at
    } else {
        0
    }
}

/// A control mask whose bits for the operands 0, 1 and 2 are moved to `a`, `b` and `c`.
pub open spec fn rearranged(mask: u32, a: u32, b: u32, c: u32) -> u32 {
    (mask & !7u32) | carried(mask, 0, a) | carried(mask, 1, b) | carried(mask, 2, c)
}

/// The control mask with every operand replaced by the actual qubit.
pub open spec fn renamed_mask(m: Seq<Option<u8>>, mask: u32) -> u32 {
    rearranged(mask, place(renamed(m, 0)), place(renamed(m, 1)), place(renamed(m, 2)))
}

/// Whether a control mask names a qubit.
pub open spec fn controls(mask: u32, q: u8) -> bool {
    (mask >> place(q)) & 1 == 1
}

proof fn lemma_rearranged(mask: u32, a: u32, b: u32, c: u32, q: u32)
    by (bit_vector)
    requires
        a < 32,
        b < 32,
        c < 32,
        q < 32,
    ensures
        a == 0 && b == 1 && c == 2 ==> rearranged(mask, a, b, c) == mask,
        ((rearranged(mask, a, b, c) >> q) & 1 == 1) == (q >= 3 && (mask >> q) & 1 == 1 || q == a
            && (mask >> 0) & 1 == 1 || q == b && (mask >> 1) & 1 == 1 || q == c && (mask >> 2) & 1
            == 1),
{
}

/// A control mask without bindings stays as it is.
pub proof fn lemma_unbound_mask(mask: u32)
    ensures
        rearranged(mask, 0, 1, 2) == mask,
{
    lemma_rearranged(mask, 0, 1, 2, 0);
}

/// Controls are bound like all operands: a renamed mask names exactly the qubits behind
/// the operands that the mask names.
pub proof fn law_bound_controls_move(m: Seq<Option<u8>>, mask: u32, q: u8)
    requires
        q < 31,
    ensures
        controls(renamed_mask(m, mask), q) <==> {
            ||| q >= 3 && controls(mask, q)
            ||| controls(mask, 0) && place(renamed(m, 0)) == q
            ||| controls(mask, 1) && place(renamed(m, 1)) == q
            ||| controls(mask, 2) && place(renamed(m, 2)) == q
        },
{
    lemma_rearranged(
        mask,
        place(renamed(m, 0)),
        place(renamed(m, 1)),
        place(renamed(m, 2)),
        q as u32,
    );
}

/// The op with every qubit operand replaced by the actual qubit.
pub open spec fn renamed_op(op: IrOp, m: Seq<Option<u8>>) -> IrOp {
    match op {
        IrOp::H(q) => IrOp::H(renamed(m, q)),
        IrOp::X(q) => IrOp::X(renamed(m, q)),
        IrOp::CNOT(c, t) => IrOp::CNOT(renamed(m, c), renamed(m, t)),
        IrOp::Toff(a, b, t) => IrOp::Toff(renamed(m, a), renamed(m, b), renamed(m, t)),
        IrOp::RZ(q, k) => IrOp::RZ(renamed(m, q), k),
        IrOp::RX(q, k) => IrOp::RX(renamed(m, q), k),
        IrOp::RY(q, k) => IrOp::RY(renamed(m, q), k),
        IrOp::Phase(q, k) => IrOp::Phase(renamed(m, q), k),
        IrOp::S(q) => IrOp::S(renamed(m, q)),
        IrOp::T(q) => IrOp::T(renamed(m, q)),
        IrOp::SX(q) => IrOp::SX(renamed(m, q)),
        IrOp::SWAP(a, b) => IrOp::SWAP(renamed(m, a), renamed(m, b)),
        IrOp::ISWAP(a, b) => IrOp::ISWAP(renamed(m, a), renamed(m, b)),
        IrOp::CZ(a, b) => IrOp::CZ(renamed(m, a), renamed(m, b)),
        IrOp::CPHASE(a, b, k) => IrOp::CPHASE(renamed(m, a), renamed(m, b), k),
        IrOp::CSWAP(a, b, c) => IrOp::CSWAP(renamed(m, a), renamed(m, b), renamed(m, c)),
        IrOp::MCX(mask, t) => IrOp::MCX(renamed_mask(m, mask), renamed(m, t)),
        IrOp::Reset(q) => IrOp::Reset(renamed(m, q)),
        IrOp::Measure(q, c) => IrOp::Measure(renamed(m, q), c),
        IrOp::MeasureX(q, c) => IrOp::MeasureX(renamed(m, q), c),
        IrOp::MeasureY(q, c) => IrOp::MeasureY(renamed(m, q), c),
        IrOp::Call(id, a0, a1, a2) => IrOp::Call(
            id,
            renamed(m, a0),
            renamed(m, a1),
            renamed(m, a2),
        ),
        _ => op,
    }
}

/// The operand bindings of a call with `nparams` parameters.
pub open spec fn bound(nparams: u8, a0: u8, a1: u8, a2: u8) -> Seq<Option<u8>> {
    seq![
        if nparams > 0 {
            Some(a0)
        } else {
            None
        },
        if nparams > 1 {
            Some(a1)
        } else {
            None
        },
        if nparams > 2 {
            Some(a2)
        } else {
            None
        },
    ]
}

/// No operand is bound.
pub open spec fn unbound() -> Seq<Option<u8>> {
    seq![None, None, None]
}

/// Whether the op is a unitary gate.
pub open spec fn is_gate(op: IrOp) -> bool {
    match op {
        IrOp::H(_) | IrOp::X(_) | IrOp::CNOT(_, _) | IrOp::Toff(_, _, _) | IrOp::RZ(_, _) => true,
        IrOp::RX(_, _) | IrOp::RY(_, _) | IrOp::Phase(_, _) | IrOp::S(_) | IrOp::T(_) => true,
        IrOp::SX(_) | IrOp::SWAP(_, _) | IrOp::ISWAP(_, _) | IrOp::CZ(_, _) => true,
        IrOp::CPHASE(_, _, _) | IrOp::CSWAP(_, _, _) | IrOp::MCX(_, _) => true,
        _ => false,
    }
}

/// What gate a unitary op is, its angle taken from the constant pool.
pub open spec fn gate_of<A>(op: IrOp, consts: Seq<A>) -> Option<Gate<A>> {
    match op {
        IrOp::H(q) => Some(Gate::H(q)),
        IrOp::X(q) => Some(Gate::X(q)),
        IrOp::CNOT(c, t) => Some(Gate::CNOT(c, t)),
        IrOp::Toff(a, b, t) => Some(Gate::Toff(a, b, t)),
        IrOp::RZ(q, k) => if k < consts.len() {
            Some(Gate::RZ(q, consts[k as int]))
        } else {
            None
        },
        IrOp::RX(q, k) => if k < consts.len() {
            Some(Gate::RX(q, consts[k as int]))
        } else {
            None
        },
        IrOp::RY(q, k) => if k < consts.len() {
            Some(Gate::RY(q, consts[k as int]))
        } else {
            None
        },
        IrOp::Phase(q, k) => if k < consts.len() {
            Some(Gate::Phase(q, consts[k as int]))
        } else {
            None
        },
        IrOp::S(q) => Some(Gate::S(q)),
        IrOp::T(q) => Some(Gate::T(q)),
        IrOp::SX(q) => Some(Gate::SX(q)),
        IrOp::SWAP(a, b) => Some(Gate::SWAP(a, b)),
        IrOp::ISWAP(a, b) => Some(Gate::ISWAP(a, b)),
        IrOp::CZ(a, b) => Some(Gate::CZ(a, b)),
        IrOp::CPHASE(a, b, k) => if k < consts.len() {
            Some(Gate::CPHASE(a, b, consts[k as int]))
        } else {
            None
        },
        IrOp::CSWAP(c, b, t) => Some(Gate::CSWAP(c, b, t)),
        IrOp::MCX(mask, t) => Some(Gate::MCX(mask, t)),
        _ => None,
    }
}

/// Noise on two qubits in order.
pub open spec fn noisy2<A: Copy, B: SimBackend<A>>(m: B::Model, a: u8, b: u8, seed: u64) -> (
    B::Model,
    u64,
) {
    let n = B::noisy(m, a, seed);
    B::noisy(n.0, b, n.1)
}

/// State and generator after a gate and the noise on the qubits it touched.
pub open spec fn gated<A: Copy, B: SimBackend<A>>(m: B::Model, g: Gate<A>, seed: u64) -> (
    B::Model,
    u64,
) {
    let e = B::evolved(m, g);
    match g {
        Gate::H(q) | Gate::X(q) | Gate::S(q) | Gate::T(q) | Gate::SX(q) => B::noisy(e, q, seed),
        Gate::RZ(q, _) | Gate::RX(q, _) | Gate::RY(q, _) | Gate::Phase(q, _) => B::noisy(
            e,
            q,
            seed,
        ),
        Gate::CNOT(a, b) | Gate::SWAP(a, b) | Gate::ISWAP(a, b) | Gate::CZ(a, b) => noisy2::<
            A,
            B,
        >(e, a, b, seed),
        Gate::CPHASE(a, b, _) => noisy2::<A, B>(e, a, b, seed),
        Gate::Toff(a, b, c) | Gate::CSWAP(a, b, c) => {
            let n = noisy2::<A, B>(e, a, b, seed);
            B::noisy(n.0, c, n.1)
        },
        Gate::MCX(_, t) => B::noisy(e, t, seed),
    }
}

/// The classical bytes after a classical op, if its bytes exist. Bytes are
/// numbers modulo 256; `Not` flips the lowest bit.
pub open spec fn computed(op: IrOp, c: Seq<u8>) -> Option<Seq<u8>> {
    match op {
        IrOp::SetVal(a, v) => if a < c.len() {
            Some(c.update(a as int, v))
        } else {
            None
        },
        IrOp::Not(a) => if a < c.len() {
            Some(c.update(a as int, c[a as int] ^ 1))
        } else {
            None
        },
        IrOp::And(a, b) => if a < c.len() && b < c.len() {
            Some(c.update(a as int, c[a as int] & c[b as int]))
        } else {
            None
        },
        IrOp::Or(a, b) => if a < c.len() && b < c.len() {
            Some(c.update(a as int, c[a as int] | c[b as int]))
        } else {
            None
        },
        IrOp::Xor(a, b) => if a < c.len() && b < c.len() {
            Some(c.update(a as int, c[a as int] ^ c[b as int]))
        } else {
            None
        },
        IrOp::Add(a, b) => if a < c.len() && b < c.len() {
            Some(c.update(a as int, ((c[a as int] + c[b as int]) % 256) as u8))
        } else {
            None
        },
        IrOp::Sub(a, b) => if a < c.len() && b < c.len() {
            Some(c.update(a as int, ((c[a as int] - c[b as int]) % 256) as u8))
        } else {
            None
        },
        _ => None,
    }
}

/// A measurement written to classical byte `c`.
pub open spec fn recorded<A: Copy, B: SimBackend<A>>(
    st: Machine<B::Model, A, B::Value>,
    basis: Basis,
    q: u8,
    c: u8,
) -> Result<Machine<B::Model, A, B::Value>, Fault> {
    if !B::takes_qubit(st.model, q) {
        Err(Fault::Rejected)
    } else if c >= st.classical.len() {
        Err(Fault::Classical)
    } else {
        let m = B::measured(st.model, basis, q, st.seed);
        Ok(
            Machine {
                model: m.0,
                seed: m.1,
                classical: st.classical.update(c as int, m.2),
                ..st
            },
        )
    }
}

/// Whether every term of a weighted Pauli sum can be evaluated.
pub open spec fn terms_admitted<A: Copy, B: SimBackend<A>>(
    m: B::Model,
    terms: Seq<(A, u64)>,
    off: int,
    len: int,
) -> bool {
    forall|k: int|
        off <= k < off + len ==> B::takes_pauli(m, (#[trigger] terms[k]).1)
}

/// The effect of an op that is neither a branch, a repetition nor a call.
pub open spec fn acted<A: Copy, B: SimBackend<A>>(
    prog: ProgramView<A>,
    op: IrOp,
    st: Machine<B::Model, A, B::Value>,
) -> Result<Machine<B::Model, A, B::Value>, Fault> {
    if is_gate(op) {
        match gate_of(op, prog.consts) {
            None => Err(Fault::Pool),
            Some(g) => if !B::takes_gate(st.model, g) {
                Err(Fault::Rejected)
            } else {
                let n = gated::<A, B>(st.model, g, st.seed);
                Ok(Machine { model: n.0, seed: n.1, ..st })
            },
        }
    } else {
        match op {
            IrOp::Measure(q, c) => recorded::<A, B>(st, Basis::Z, q, c),
            IrOp::MeasureX(q, c) => recorded::<A, B>(st, Basis::X, q, c),
            IrOp::MeasureY(q, c) => recorded::<A, B>(st, Basis::Y, q, c),
            IrOp::Reset(q) => if !B::takes_qubit(st.model, q) {
                Err(Fault::Rejected)
            } else {
                let n = B::cleared(st.model, q, st.seed);
                Ok(Machine { model: n.0, seed: n.1, ..st })
            },
            IrOp::Expect(pauli) => if !B::takes_pauli(st.model, pauli) {
                Err(Fault::Rejected)
            } else {
                Ok(
                    Machine {
                        results: ResultsView {
                            expectations: st.results.expectations.push(
                                B::expectation(st.model, pauli),
                            ),
                            ..st.results
                        },
                        ..st
                    },
                )
            },
            IrOp::Estimate(off, len) => if len > 0 && off + len > prog.estimate_terms.len() {
                Err(Fault::Pool)
            } else if !terms_admitted::<A, B>(
                st.model,
                prog.estimate_terms,
                off as int,
                len as int,
            ) {
                Err(Fault::Rejected)
            } else {
                Ok(
                    Machine {
                        results: ResultsView {
                            estimates: st.results.estimates.push(
                                Seq::new(
                                    len as nat,
                                    |k: int|
                                        (
                                            prog.estimate_terms[off + k].0,
                                            B::expectation(
                                                st.model,
                                                prog.estimate_terms[off + k].1,
                                            ),
                                        ),
                                ),
                            ),
                            ..st.results
                        },
                        ..st
                    },
                )
            },
            IrOp::SaveState => if !B::takes_capture(st.model) {
                Err(Fault::Rejected)
            } else {
                Ok(
                    Machine {
                        results: ResultsView {
                            saved_states: st.results.saved_states.push(B::state_of(st.model)),
                            ..st.results
                        },
                        ..st
                    },
                )
            },
            IrOp::SaveAmps => if !B::takes_capture(st.model) {
                Err(Fault::Rejected)
            } else {
                Ok(
                    Machine {
                        results: ResultsView {
                            saved_amplitudes: st.results.saved_amplitudes.push(
                                B::amplitudes_of(st.model),
                            ),
                            ..st.results
                        },
                        ..st
                    },
                )
            },
            IrOp::SaveProbs => if !B::takes_capture(st.model) {
                Err(Fault::Rejected)
            } else {
                Ok(
                    Machine {
                        results: ResultsView {
                            saved_probs: st.results.saved_probs.push(
                                B::probabilities_of(st.model),
                            ),
                            ..st.results
                        },
                        ..st
                    },
                )
            },
            IrOp::Print => Ok(st),
            _ => match computed(op, st.classical) {
                Some(c) => Ok(Machine { classical: c, ..st }),
                None => Err(Fault::Classical),
            },
        }
    }
}

/// The state after one sample was drawn and counted.
pub open spec fn tallied<A: Copy, B: SimBackend<A>>(st: Machine<B::Model, A, B::Value>) -> Result<
    Machine<B::Model, A, B::Value>,
    Fault,
> {
    let s = B::sampled(st.model, st.seed);
    if s.2 >= st.histogram.len() || st.histogram[s.2 as int] == u32::MAX {
        Err(Fault::Histogram)
    } else {
        Ok(
            Machine {
                model: s.0,
                seed: s.1,
                histogram: st.histogram.update(
                    s.2 as int,
                    (st.histogram[s.2 as int] + 1) as u32,
                ),
                ..st
            },
        )
    }
}

/// The state with the quantum part back at the all-zero state.
pub open spec fn grounded<A: Copy, B: SimBackend<A>>(
    st: Machine<B::Model, A, B::Value>,
) -> Machine<B::Model, A, B::Value> {
    Machine { model: B::ground(st.model), ..st }
}

/// Whether a branch op takes its body: its byte equals, or differs from, the
/// value.
pub open spec fn taken(op: IrOp, classical: Seq<u8>) -> bool {
    match op {
        IrOp::IfEq(c, v, _, _) => classical[c as int] == v,
        IrOp::IfNe(c, v, _, _) => classical[c as int] != v,
        _ => false,
    }
}

/// The ops `i..end` executed in order from `st`, with `fuel` bounding the number
/// of steps in a row and the nesting together. A branch runs its body or skips
/// it; a repetition runs its body `count` times, each time from the all-zero
/// state and followed by a sample; a repetition without a body repeats
/// everything before it; a call runs the subprogram with its operands bound.
pub open spec fn run<A: Copy, B: SimBackend<A>>(
    prog: ProgramView<A>,
    fuel: nat,
    i: int,
    end: int,
    remap: Seq<Option<u8>>,
    st: Machine<B::Model, A, B::Value>,
) -> Result<Machine<B::Model, A, B::Value>, Fault>
    decreases fuel,
{
    if i >= end {
        Ok(st)
    } else if fuel == 0 {
        Err(Fault::OutOfFuel)
    } else if i >= prog.ops.len() {
        Err(Fault::Range)
    } else {
        let f = (fuel - 1) as nat;
        let op = renamed_op(prog.ops[i], remap);
        match op {
            IrOp::IfEq(c, _, off, len) | IrOp::IfNe(c, _, off, len) => if c >= st.classical.len() {
                Err(Fault::Classical)
            } else if taken(op, st.classical) {
                match run::<A, B>(prog, f, off as int, off + len, remap, st) {
                    Ok(s) => run::<A, B>(prog, f, off + len, end, remap, s),
                    Err(e) => Err(e),
                }
            } else {
                run::<A, B>(prog, f, off + len, end, remap, st)
            },
            IrOp::Shot(count, off, len) => if len == 0 {
                match repeated::<A, B>(prog, f, count as nat, 0, i, remap, st) {
                    Ok(s) => run::<A, B>(prog, f, i + 1, end, remap, s),
                    Err(e) => Err(e),
                }
            } else {
                match repeated::<A, B>(prog, f, count as nat, off as int, off + len, remap, st) {
                    Ok(s) => run::<A, B>(prog, f, off + len, end, remap, s),
                    Err(e) => Err(e),
                }
            },
            IrOp::Call(id, a0, a1, a2) => if id >= prog.subs.len() || prog.subs[id as int].nparams
                > 3 {
                Err(Fault::Pool)
            } else {
                let sub = prog.subs[id as int];
                match run::<A, B>(
                    prog,
                    f,
                    sub.off as int,
                    sub.off + sub.len,
                    bound(sub.nparams, a0, a1, a2),
                    st,
                ) {
                    Ok(s) => run::<A, B>(prog, f, i + 1, end, remap, s),
                    Err(e) => Err(e),
                }
            },
            _ => match acted::<A, B>(prog, op, st) {
                Ok(s) => run::<A, B>(prog, f, i + 1, end, remap, s),
                Err(e) => Err(e),
            },
        }
    }
}

/// The ops `lo..hi` executed `count` times, each time from the all-zero state and
/// followed by a sample. Classical bytes persist.
pub open spec fn repeated<A: Copy, B: SimBackend<A>>(
    prog: ProgramView<A>,
    fuel: nat,
    count: nat,
    lo: int,
    hi: int,
    remap: Seq<Option<u8>>,
    st: Machine<B::Model, A, B::Value>,
) -> Result<Machine<B::Model, A, B::Value>, Fault>
    decreases fuel,
{
    if count == 0 {
        Ok(st)
    } else if fuel == 0 {
        Err(Fault::OutOfFuel)
    } else {
        let f = (fuel - 1) as nat;
        match run::<A, B>(prog, f, lo, hi, remap, grounded::<A, B>(st)) {
            Err(e) => Err(e),
            Ok(s) => match tallied::<A, B>(s) {
                Err(e) => Err(e),
                Ok(t) => repeated::<A, B>(prog, f, (count - 1) as nat, lo, hi, remap, t),
            },
        }
    }
}

/// A fresh run: classical bytes and histogram at zero.
pub open spec fn started<M, A, V>(st: Machine<M, A, V>) -> Machine<M, A, V> {
    Machine {
        classical: Seq::new(st.classical.len(), |i: int| 0u8),
        histogram: Seq::new(st.histogram.len(), |i: int| 0u32),
        ..st
    }
}

/// A program executed once from zeroed classical bytes and histogram. Without an
/// explicit repetition one sample is drawn at the end.
pub open spec fn executed<A: Copy, B: SimBackend<A>>(
    prog: ProgramView<A>,
    fuel: nat,
    st: Machine<B::Model, A, B::Value>,
) -> Result<Machine<B::Model, A, B::Value>, Fault> {
    match run::<A, B>(prog, fuel, 0, prog.len as int, unbound(), started(st)) {
        Err(e) => Err(e),
        Ok(s) => if prog.has_explicit_shot {
            Ok(s)
        } else {
            tallied::<A, B>(s)
        },
    }
}

/// A program executed `shots` times from zeroed classical bytes and histogram,
/// each time from the all-zero state and followed by a sample.
pub open spec fn executed_shots<A: Copy, B: SimBackend<A>>(
    prog: ProgramView<A>,
    fuel: nat,
    shots: nat,
    st: Machine<B::Model, A, B::Value>,
) -> Result<Machine<B::Model, A, B::Value>, Fault> {
    repeated::<A, B>(prog, fuel, shots, 0, prog.len as int, unbound(), started(st))
}

} // verus!
