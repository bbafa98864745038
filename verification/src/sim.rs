//! The program executor, generic over the quantum backend.
pub use crate::backend::{Basis, Gate, Results, SimBackend};
pub use crate::fused_exec::{
    run_fused_program, run_fused_program_shots, try_run_fused_program,
    try_run_fused_program_shots,
};
pub use crate::machine::Fault;

use crate::backend::{lemma_rows_push, ResultsView};
use crate::ir::{extent, IrOp, Program, ProgramView, Sub, MAX_CONSTS, MAX_ESTIMATE_TERMS, MAX_OPS, MAX_SUBS};
use crate::machine::{
    acted, bound, computed, executed, executed_shots, gate_of, gated, grounded, is_gate,
    lemma_unbound_mask, place, renamed, renamed_mask, renamed_op, repeated, run, started, tallied, terms_admitted, unbound, Machine,
};
use crate::rng::Lcg64;
use crate::stabilizer::{StabilizerBackend, Tableau, STAB_MAX_QUBITS};
use vstd::prelude::*;

verus! {

/// Operand bindings of the current call: entry `k` is the qubit bound to operand
/// `k`. All entries are empty outside a subprogram.
pub type Remap = [Option<u8>; 3];

/// Budget of steps of a run; no run that ends on a real machine exceeds it.
pub const FUEL: u64 = 0xFFFF_FFFF_FFFF_FFFF;

/// The actual qubit behind operand `q`.
pub fn translate_q(q: u8, remap: &Remap) -> (r: u8)
    ensures
        r == renamed(remap@, q),
{
    if (q as usize) < 3 {
        match remap[q as usize] {
            Some(v) => v,
            None => q,
        }
    } else {
        q
    }
}

/// The place of a qubit in a control mask.
fn place_of(q: u8) -> (p: u32)
    ensures
        p == place(q),
        p < 32,
{
    if q < 31 {
        q as u32
    } else {
        31
    }
}

/// The control mask with every operand replaced by the actual qubit.
fn translate_mask(mask: u32, remap: &Remap) -> (r: u32)
    ensures
        r == renamed_mask(remap@, mask),
{
    let (a, b, c): (u32, u32, u32) = (
        place_of(translate_q(0, remap)),
        place_of(translate_q(1, remap)),
        place_of(translate_q(2, remap)),
    );
    let x: u32 = if (mask >> 0u32) & 1 == 1 {
        1u32 << a
    } else {
        0
    };
    let y: u32 = if (mask >> 1u32) & 1 == 1 {
        1u32 << b
    } else {
        0
    };
    let z: u32 = if (mask >> 2u32) & 1 == 1 {
        1u32 << c
    } else {
        0
    };
    (mask & !7u32) | x | y | z
}

/// The op with every qubit operand, control masks among them, replaced by the actual
/// qubit.
pub fn translate_op(op: IrOp, remap: &Remap) -> (r: IrOp)
    ensures
        r == renamed_op(op, remap@),
{
    match op {
        IrOp::H(q) => IrOp::H(translate_q(q, remap)),
        IrOp::X(q) => IrOp::X(translate_q(q, remap)),
        IrOp::CNOT(c, t) => IrOp::CNOT(translate_q(c, remap), translate_q(t, remap)),
        IrOp::Toff(a, b, t) => IrOp::Toff(
            translate_q(a, remap),
            translate_q(b, remap),
            translate_q(t, remap),
        ),
        IrOp::RZ(q, k) => IrOp::RZ(translate_q(q, remap), k),
        IrOp::RX(q, k) => IrOp::RX(translate_q(q, remap), k),
        IrOp::RY(q, k) => IrOp::RY(translate_q(q, remap), k),
        IrOp::Phase(q, k) => IrOp::Phase(translate_q(q, remap), k),
        IrOp::S(q) => IrOp::S(translate_q(q, remap)),
        IrOp::T(q) => IrOp::T(translate_q(q, remap)),
        IrOp::SX(q) => IrOp::SX(translate_q(q, remap)),
        IrOp::SWAP(a, b) => IrOp::SWAP(translate_q(a, remap), translate_q(b, remap)),
        IrOp::ISWAP(a, b) => IrOp::ISWAP(translate_q(a, remap), translate_q(b, remap)),
        IrOp::CZ(a, b) => IrOp::CZ(translate_q(a, remap), translate_q(b, remap)),
        IrOp::CPHASE(a, b, k) => IrOp::CPHASE(translate_q(a, remap), translate_q(b, remap), k),
        IrOp::CSWAP(a, b, c) => IrOp::CSWAP(
            translate_q(a, remap),
            translate_q(b, remap),
            translate_q(c, remap),
        ),
        IrOp::MCX(mask, t) => IrOp::MCX(translate_mask(mask, remap), translate_q(t, remap)),
        IrOp::Reset(q) => IrOp::Reset(translate_q(q, remap)),
        IrOp::Measure(q, c) => IrOp::Measure(translate_q(q, remap), c),
        IrOp::MeasureX(q, c) => IrOp::MeasureX(translate_q(q, remap), c),
        IrOp::MeasureY(q, c) => IrOp::MeasureY(translate_q(q, remap), c),
        IrOp::Call(id, a0, a1, a2) => IrOp::Call(
            id,
            translate_q(a0, remap),
            translate_q(a1, remap),
            translate_q(a2, remap),
        ),
        other => other,
    }
}

/// Whether some operand is bound, that is, whether a subprogram is executing.
pub fn remap_active(remap: &Remap) -> (r: bool)
    ensures
        r <==> exists|k: int| 0 <= k < 3 && (#[trigger] remap@[k]) is Some,
{
    let r: bool = remap[0].is_some() || remap[1].is_some() || remap[2].is_some();
    assert(r ==> remap@[0] is Some || remap@[1] is Some || remap@[2] is Some);
    r
}

/// Without bindings every op stays as it is.
pub proof fn law_unbound_operands_stay(op: IrOp, remap: Seq<Option<u8>>)
    requires
        remap.len() == 3,
        forall|k: int| 0 <= k < 3 ==> (#[trigger] remap[k]) is None,
    ensures
        renamed_op(op, remap) == op,
{
    assert(remap[0] is None && remap[1] is None && remap[2] is None);
    if let IrOp::MCX(mask, _) = op {
        lemma_unbound_mask(mask);
    }
}

/// Calls compose: inside a call made from a subprogram, operand `k` is what the
/// caller's own bindings make of argument `k`.
pub proof fn law_nested_calls_compose(
    outer: Seq<Option<u8>>,
    id: u16,
    args: (u8, u8, u8),
    nparams: u8,
    k: u8,
)
    requires
        outer.len() == 3,
        k < nparams <= 3,
    ensures
        renamed_op(IrOp::Call(id, args.0, args.1, args.2), outer) matches IrOp::Call(_, b0, b1, b2)
            && renamed(bound(nparams, b0, b1, b2), k) == renamed(
            outer,
            if k == 0 {
                args.0
            } else if k == 1 {
                args.1
            } else {
                args.2
            },
        ),
{
}

/// The state of a run as the machine sees it.
pub open spec fn machine<A: Copy, B: SimBackend<A>>(
    b: B,
    results: ResultsView<A, B::Value>,
    classical: Seq<u8>,
    histogram: Seq<u32>,
    seed: u64,
) -> Machine<B::Model, A, B::Value> {
    Machine { model: b.model(), seed, classical, histogram, results }
}

/// What gate a unitary op is, or `None` where the op is no gate or its constant
/// does not exist.
pub(crate) fn resolve<A: Copy>(prog: &Program<A>, op: IrOp) -> (g: Option<Gate<A>>)
    ensures
        g == gate_of(op, prog@.consts),
{
    match op {
        IrOp::H(q) => Some(Gate::H(q)),
        IrOp::X(q) => Some(Gate::X(q)),
        IrOp::CNOT(c, t) => Some(Gate::CNOT(c, t)),
        IrOp::Toff(a, b, t) => Some(Gate::Toff(a, b, t)),
        IrOp::RZ(q, k) => if (k as usize) < MAX_CONSTS {
            Some(Gate::RZ(q, prog.consts[k as usize]))
        } else {
            None
        },
        IrOp::RX(q, k) => if (k as usize) < MAX_CONSTS {
            Some(Gate::RX(q, prog.consts[k as usize]))
        } else {
            None
        },
        IrOp::RY(q, k) => if (k as usize) < MAX_CONSTS {
            Some(Gate::RY(q, prog.consts[k as usize]))
        } else {
            None
        },
        IrOp::Phase(q, k) => if (k as usize) < MAX_CONSTS {
            Some(Gate::Phase(q, prog.consts[k as usize]))
        } else {
            None
        },
        IrOp::S(q) => Some(Gate::S(q)),
        IrOp::T(q) => Some(Gate::T(q)),
        IrOp::SX(q) => Some(Gate::SX(q)),
        IrOp::SWAP(a, b) => Some(Gate::SWAP(a, b)),
        IrOp::ISWAP(a, b) => Some(Gate::ISWAP(a, b)),
        IrOp::CZ(a, b) => Some(Gate::CZ(a, b)),
        IrOp::CPHASE(a, b, k) => if (k as usize) < MAX_CONSTS {
            Some(Gate::CPHASE(a, b, prog.consts[k as usize]))
        } else {
            None
        },
        IrOp::CSWAP(c, b, t) => Some(Gate::CSWAP(c, b, t)),
        IrOp::MCX(mask, t) => Some(Gate::MCX(mask, t)),
        _ => None,
    }
}

/// Whether the op is a unitary gate.
pub(crate) fn gate_op(op: IrOp) -> (r: bool)
    ensures
        r == is_gate(op),
{
    match op {
        IrOp::H(_) | IrOp::X(_) | IrOp::CNOT(_, _) | IrOp::Toff(_, _, _) | IrOp::RZ(_, _) => true,
        IrOp::RX(_, _) | IrOp::RY(_, _) | IrOp::Phase(_, _) | IrOp::S(_) | IrOp::T(_) => true,
        IrOp::SX(_) | IrOp::SWAP(_, _) | IrOp::ISWAP(_, _) | IrOp::CZ(_, _) => true,
        IrOp::CPHASE(_, _, _) | IrOp::CSWAP(_, _, _) | IrOp::MCX(_, _) => true,
        _ => false,
    }
}

/// Applies a gate and the noise that follows it.
fn apply_gate<A: Copy, B: SimBackend<A>>(backend: &mut B, gate: Gate<A>, rng: &mut Lcg64)
    requires
        old(backend).wf(),
        B::takes_gate(old(backend).model(), gate),
    ensures
        final(backend).wf(),
        (final(backend).model(), final(rng).0) == gated::<A, B>(
            old(backend).model(),
            gate,
            old(rng).0,
        ),
{
    backend.apply(gate);
    match gate {
        Gate::H(q) | Gate::X(q) | Gate::S(q) | Gate::T(q) | Gate::SX(q) => {
            backend.noise_after_single(q, rng);
        },
        Gate::RZ(q, _) | Gate::RX(q, _) | Gate::RY(q, _) | Gate::Phase(q, _) => {
            backend.noise_after_single(q, rng);
        },
        Gate::CNOT(a, b) | Gate::SWAP(a, b) | Gate::ISWAP(a, b) | Gate::CZ(a, b) => {
            backend.noise_after_pair(a, b, rng);
        },
        Gate::CPHASE(a, b, _) => {
            backend.noise_after_pair(a, b, rng);
        },
        Gate::Toff(a, b, c) | Gate::CSWAP(a, b, c) => {
            backend.noise_after_triple(a, b, c, rng);
        },
        Gate::MCX(_, t) => {
            backend.noise_after_single(t, rng);
        },
    }
}

/// Performs a classical op.
fn compute(op: IrOp, classical: &mut [u8]) -> (r: Result<(), Fault>)
    ensures
        match computed(op, old(classical)@) {
            Some(c) => r is Ok && final(classical)@ == c,
            None => r == Err::<(), Fault>(Fault::Classical),
        },
{
    let n: usize = classical.len();
    match op {
        IrOp::SetVal(a, v) => {
            if (a as usize) < n {
                classical[a as usize] = v;
                return Ok(());
            }
        },
        IrOp::Not(a) => {
            if (a as usize) < n {
                classical[a as usize] = classical[a as usize] ^ 1;
                return Ok(());
            }
        },
        IrOp::And(a, b) => {
            if (a as usize) < n && (b as usize) < n {
                classical[a as usize] = classical[a as usize] & classical[b as usize];
                return Ok(());
            }
        },
        IrOp::Or(a, b) => {
            if (a as usize) < n && (b as usize) < n {
                classical[a as usize] = classical[a as usize] | classical[b as usize];
                return Ok(());
            }
        },
        IrOp::Xor(a, b) => {
            if (a as usize) < n && (b as usize) < n {
                classical[a as usize] = classical[a as usize] ^ classical[b as usize];
                return Ok(());
            }
        },
        IrOp::Add(a, b) => {
            if (a as usize) < n && (b as usize) < n {
                classical[a as usize] = classical[a as usize].wrapping_add(classical[b as usize]);
                return Ok(());
            }
        },
        IrOp::Sub(a, b) => {
            if (a as usize) < n && (b as usize) < n {
                classical[a as usize] = classical[a as usize].wrapping_sub(classical[b as usize]);
                return Ok(());
            }
        },
        _ => {},
    }
    Err(Fault::Classical)
}

/// Measures into classical byte `c`.
fn record<A: Copy, B: SimBackend<A>>(
    basis: Basis,
    q: u8,
    c: u8,
    backend: &mut B,
    classical: &mut [u8],
    rng: &mut Lcg64,
) -> (r: Result<(), Fault>)
    requires
        old(backend).wf(),
    ensures
        final(backend).wf(),
        if !B::takes_qubit(old(backend).model(), q) {
            r == Err::<(), Fault>(Fault::Rejected)
        } else if c >= old(classical)@.len() {
            r == Err::<(), Fault>(Fault::Classical)
        } else {
            let m = B::measured(old(backend).model(), basis, q, old(rng).0);
            &&& r is Ok
            &&& final(backend).model() == m.0
            &&& final(rng).0 == m.1
            &&& final(classical)@ == old(classical)@.update(c as int, m.2)
        },
{
    if !backend.accepts_qubit(q) {
        return Err(Fault::Rejected);
    }
    if c as usize >= classical.len() {
        return Err(Fault::Classical);
    }
    let o: u8 = backend.measure_in(basis, q, rng);
    classical[c as usize] = o;
    Ok(())
}

/// The (coefficient, expectation value) terms of a weighted Pauli sum.
fn estimate<A: Copy, B: SimBackend<A>>(prog: &Program<A>, off: usize, len: usize, backend: &B) -> (r:
    Result<Vec<(A, B::Value)>, Fault>)
    requires
        backend.wf(),
    ensures
        if len > 0 && off + len > MAX_ESTIMATE_TERMS {
            r == Err::<Vec<(A, B::Value)>, Fault>(Fault::Pool)
        } else if !terms_admitted::<A, B>(
            backend.model(),
            prog@.estimate_terms,
            off as int,
            len as int,
        ) {
            r == Err::<Vec<(A, B::Value)>, Fault>(Fault::Rejected)
        } else {
            r matches Ok(v) && v@ == Seq::new(
                len as nat,
                |k: int|
                    (
                        prog@.estimate_terms[off + k].0,
                        B::expectation(backend.model(), prog@.estimate_terms[off + k].1),
                    ),
            )
        },
{
    if len > 0 && (off > MAX_ESTIMATE_TERMS || len > MAX_ESTIMATE_TERMS - off) {
        return Err(Fault::Pool);
    }
    let mut v: Vec<(A, B::Value)> = Vec::new();
    let mut k: usize = 0;
    while k < len
        invariant
            k <= len,
            len > 0 ==> off + len <= MAX_ESTIMATE_TERMS,
            backend.wf(),
            v@.len() == k,
            forall|j: int|
                off <= j < off + k ==> B::takes_pauli(
                    backend.model(),
                    (#[trigger] prog@.estimate_terms[j]).1,
                ),
            forall|j: int|
                0 <= j < k ==> #[trigger] v@[j] == (
                    prog@.estimate_terms[off + j].0,
                    B::expectation(backend.model(), prog@.estimate_terms[off + j].1),
                ),
        decreases len - k,
    {
        let (coef, pauli) = prog.estimate_terms[off + k];
        assert(prog@.estimate_terms[off + k] == (coef, pauli));
        if !backend.accepts_pauli(pauli) {
            assert(!terms_admitted::<A, B>(
                backend.model(),
                prog@.estimate_terms,
                off as int,
                len as int,
            ));
            return Err(Fault::Rejected);
        }
        v.push((coef, backend.expect_value(pauli)));
        k += 1;
    }
    assert(v@ =~= Seq::new(
        len as nat,
        |k: int|
            (
                prog@.estimate_terms[off + k].0,
                B::expectation(backend.model(), prog@.estimate_terms[off + k].1),
            ),
    ));
    Ok(v)
}

/// Performs an op that is neither a branch, a repetition nor a call.
pub(crate) fn act<A: Copy, B: SimBackend<A>>(
    prog: &Program<A>,
    op: IrOp,
    backend: &mut B,
    results: &mut Results<A, B::Value>,
    classical: &mut [u8],
    histogram: &[u32],
    rng: &mut Lcg64,
) -> (r: Result<(), Fault>)
    requires
        old(backend).wf(),
    ensures
        final(backend).wf(),
        match acted::<A, B>(
            prog@,
            op,
            machine::<A, B>(
                *old(backend),
                old(results)@,
                old(classical)@,
                histogram@,
                old(rng).0,
            ),
        ) {
            Ok(st) => r is Ok && machine::<A, B>(
                *final(backend),
                final(results)@,
                final(classical)@,
                histogram@,
                final(rng).0,
            ) == st,
            Err(e) => r == Err::<(), Fault>(e),
        },
{
    if gate_op(op) {
        match resolve(prog, op) {
            None => {
                return Err(Fault::Pool);
            },
            Some(g) => {
                if !backend.accepts_gate(g) {
                    return Err(Fault::Rejected);
                }
                apply_gate(backend, g, rng);
                return Ok(());
            },
        }
    }
    match op {
        IrOp::Measure(q, c) => record::<A, B>(Basis::Z, q, c, backend, classical, rng),
        IrOp::MeasureX(q, c) => record::<A, B>(Basis::X, q, c, backend, classical, rng),
        IrOp::MeasureY(q, c) => record::<A, B>(Basis::Y, q, c, backend, classical, rng),
        IrOp::Reset(q) => {
            if !backend.accepts_qubit(q) {
                return Err(Fault::Rejected);
            }
            backend.reset_qubit(q, rng);
            Ok(())
        },
        IrOp::Expect(pauli) => {
            if !backend.accepts_pauli(pauli) {
                return Err(Fault::Rejected);
            }
            results.expectations.push(backend.expect_value(pauli));
            Ok(())
        },
        IrOp::Estimate(off, len) => {
            match estimate::<A, B>(prog, off as usize, len as usize, backend) {
                Err(e) => Err(e),
                Ok(v) => {
                    proof {
                        lemma_rows_push(results.estimates@, v);
                    }
                    results.estimates.push(v);
                    Ok(())
                },
            }
        },
        IrOp::SaveState => {
            if !backend.accepts_capture() {
                return Err(Fault::Rejected);
            }
            backend.save_state(results);
            Ok(())
        },
        IrOp::SaveAmps => {
            if !backend.accepts_capture() {
                return Err(Fault::Rejected);
            }
            backend.save_amplitudes(results);
            Ok(())
        },
        IrOp::SaveProbs => {
            if !backend.accepts_capture() {
                return Err(Fault::Rejected);
            }
            backend.save_probabilities(results);
            Ok(())
        },
        IrOp::Print => Ok(()),
        _ => compute(op, classical),
    }
}

/// Draws one sample and counts it.
pub(crate) fn tally<A: Copy, B: SimBackend<A>>(
    backend: &mut B,
    results: &Results<A, B::Value>,
    classical: &[u8],
    histogram: &mut [u32],
    rng: &mut Lcg64,
) -> (r: Result<(), Fault>)
    requires
        old(backend).wf(),
    ensures
        final(backend).wf(),
        match tallied::<A, B>(
            machine::<A, B>(
                *old(backend),
                results@,
                classical@,
                old(histogram)@,
                old(rng).0,
            ),
        ) {
            Ok(st) => r is Ok && machine::<A, B>(
                *final(backend),
                results@,
                classical@,
                final(histogram)@,
                final(rng).0,
            ) == st,
            Err(e) => r == Err::<(), Fault>(e),
        },
{
    let s: usize = backend.sample(rng);
    if s >= histogram.len() || histogram[s] == u32::MAX {
        return Err(Fault::Histogram);
    }
    histogram[s] = histogram[s] + 1;
    Ok(())
}

/// The bindings of a call.
pub(crate) fn bind(nparams: u8, a0: u8, a1: u8, a2: u8) -> (m: Remap)
    ensures
        m@ == bound(nparams, a0, a1, a2),
{
    let m: Remap = [
        if nparams > 0 {
            Some(a0)
        } else {
            None
        },
        if nparams > 1 {
            Some(a1)
        } else {
            None
        },
        if nparams > 2 {
            Some(a2)
        } else {
            None
        },
    ];
    assert(m@ =~= bound(nparams, a0, a1, a2));
    m
}

/// Executes the ops `offset..end`.
fn exec_ops<A: Copy, B: SimBackend<A>>(
    prog: &Program<A>,
    offset: usize,
    end: usize,
    backend: &mut B,
    results: &mut Results<A, B::Value>,
    classical: &mut [u8],
    histogram: &mut [u32],
    rng: &mut Lcg64,
    remap: &Remap,
    fuel: u64,
) -> (r: Result<(), Fault>)
    requires
        old(backend).wf(),
    ensures
        final(backend).wf(),
        match run::<A, B>(
            prog@,
            fuel as nat,
            offset as int,
            end as int,
            remap@,
            machine::<A, B>(
                *old(backend),
                old(results)@,
                old(classical)@,
                old(histogram)@,
                old(rng).0,
            ),
        ) {
            Ok(st) => r is Ok && machine::<A, B>(
                *final(backend),
                final(results)@,
                final(classical)@,
                final(histogram)@,
                final(rng).0,
            ) == st,
            Err(e) => r == Err::<(), Fault>(e),
        },
    decreases fuel,
{
    let ghost goal = run::<A, B>(
        prog@,
        fuel as nat,
        offset as int,
        end as int,
        remap@,
        machine::<A, B>(*backend, results@, classical@, histogram@, rng.0),
    );
    let mut i: usize = offset;
    let mut f: u64 = fuel;
    while i < end
        invariant
            backend.wf(),
            f <= fuel,
            goal == run::<A, B>(
                prog@,
                fuel as nat,
                offset as int,
                end as int,
                remap@,
                machine::<A, B>(
                    *old(backend),
                    old(results)@,
                    old(classical)@,
                    old(histogram)@,
                    old(rng).0,
                ),
            ),
            goal == run::<A, B>(
                prog@,
                f as nat,
                i as int,
                end as int,
                remap@,
                machine::<A, B>(*backend, results@, classical@, histogram@, rng.0),
            ),
        decreases f,
    {
        if f == 0 {
            return Err(Fault::OutOfFuel);
        }
        if i >= MAX_OPS {
            return Err(Fault::Range);
        }
        let raw: IrOp = prog.ops[i];
        let op: IrOp = if remap_active(remap) {
            translate_op(raw, remap)
        } else {
            proof {
                law_unbound_operands_stay(raw, remap@);
            }
            raw
        };
        assert(op == renamed_op(prog@.ops[i as int], remap@));
        f = f - 1;
        match op {
            IrOp::IfEq(c, v, off, len) => {
                let stop: usize = off as usize + len as usize;
                if c as usize >= classical.len() {
                    return Err(Fault::Classical);
                }
                if classical[c as usize] == v {
                    match exec_ops(
                        prog,
                        off as usize,
                        stop,
                        backend,
                        results,
                        classical,
                        histogram,
                        rng,
                        remap,
                        f,
                    ) {
                        Ok(_) => {},
                        Err(e) => {
                            return Err(e);
                        },
                    }
                }
                i = stop;
            },
            IrOp::IfNe(c, v, off, len) => {
                let stop: usize = off as usize + len as usize;
                if c as usize >= classical.len() {
                    return Err(Fault::Classical);
                }
                if classical[c as usize] != v {
                    match exec_ops(
                        prog,
                        off as usize,
                        stop,
                        backend,
                        results,
                        classical,
                        histogram,
                        rng,
                        remap,
                        f,
                    ) {
                        Ok(_) => {},
                        Err(e) => {
                            return Err(e);
                        },
                    }
                }
                i = stop;
            },
            IrOp::Shot(count, off, len) => {
                let bare: bool = len == 0;
                let lo: usize = if bare {
                    0
                } else {
                    off as usize
                };
                let hi: usize = if bare {
                    i
                } else {
                    off as usize + len as usize
                };
                match exec_shots(
                    prog,
                    count,
                    lo,
                    hi,
                    backend,
                    results,
                    classical,
                    histogram,
                    rng,
                    remap,
                    f,
                ) {
                    Ok(_) => {},
                    Err(e) => {
                        return Err(e);
                    },
                }
                i = if bare {
                    i + 1
                } else {
                    hi
                };
            },
            IrOp::Call(id, a0, a1, a2) => {
                if id as usize >= MAX_SUBS {
                    return Err(Fault::Pool);
                }
                let sub: Sub = prog.subs[id as usize];
                if sub.nparams > 3 {
                    return Err(Fault::Pool);
                }
                let inner: Remap = bind(sub.nparams, a0, a1, a2);
                match exec_ops(
                    prog,
                    sub.off as usize,
                    sub.off as usize + sub.len as usize,
                    backend,
                    results,
                    classical,
                    histogram,
                    rng,
                    &inner,
                    f,
                ) {
                    Ok(_) => {},
                    Err(e) => {
                        return Err(e);
                    },
                }
                i = i + 1;
            },
            _ => {
                match act(prog, op, backend, results, classical, histogram, rng) {
                    Ok(_) => {},
                    Err(e) => {
                        return Err(e);
                    },
                }
                i = i + 1;
            },
        }
    }
    Ok(())
}

/// Executes the ops `lo..hi` `count` times, each time from the all-zero state and
/// followed by a sample.
fn exec_shots<A: Copy, B: SimBackend<A>>(
    prog: &Program<A>,
    count: u32,
    lo: usize,
    hi: usize,
    backend: &mut B,
    results: &mut Results<A, B::Value>,
    classical: &mut [u8],
    histogram: &mut [u32],
    rng: &mut Lcg64,
    remap: &Remap,
    fuel: u64,
) -> (r: Result<(), Fault>)
    requires
        old(backend).wf(),
    ensures
        final(backend).wf(),
        match repeated::<A, B>(
            prog@,
            fuel as nat,
            count as nat,
            lo as int,
            hi as int,
            remap@,
            machine::<A, B>(
                *old(backend),
                old(results)@,
                old(classical)@,
                old(histogram)@,
                old(rng).0,
            ),
        ) {
            Ok(st) => r is Ok && machine::<A, B>(
                *final(backend),
                final(results)@,
                final(classical)@,
                final(histogram)@,
                final(rng).0,
            ) == st,
            Err(e) => r == Err::<(), Fault>(e),
        },
    decreases fuel,
{
    let ghost goal = repeated::<A, B>(
        prog@,
        fuel as nat,
        count as nat,
        lo as int,
        hi as int,
        remap@,
        machine::<A, B>(*backend, results@, classical@, histogram@, rng.0),
    );
    let mut left: u32 = count;
    let mut f: u64 = fuel;
    while left > 0
        invariant
            backend.wf(),
            f <= fuel,
            goal == repeated::<A, B>(
                prog@,
                fuel as nat,
                count as nat,
                lo as int,
                hi as int,
                remap@,
                machine::<A, B>(
                    *old(backend),
                    old(results)@,
                    old(classical)@,
                    old(histogram)@,
                    old(rng).0,
                ),
            ),
            goal == repeated::<A, B>(
                prog@,
                f as nat,
                left as nat,
                lo as int,
                hi as int,
                remap@,
                machine::<A, B>(*backend, results@, classical@, histogram@, rng.0),
            ),
        decreases left,
    {
        if f == 0 {
            return Err(Fault::OutOfFuel);
        }
        f = f - 1;
        let ghost st = machine::<A, B>(*backend, results@, classical@, histogram@, rng.0);
        backend.reset();
        assert(machine::<A, B>(*backend, results@, classical@, histogram@, rng.0) =~= grounded::<
            A,
            B,
        >(st));
        match exec_ops(
            prog,
            lo,
            hi,
            backend,
            results,
            classical,
            histogram,
            rng,
            remap,
            f,
        ) {
            Ok(_) => {},
            Err(e) => {
                return Err(e);
            },
        }
        match tally::<A, B>(backend, results, classical, histogram, rng) {
            Ok(_) => {},
            Err(e) => {
                return Err(e);
            },
        }
        left = left - 1;
    }
    Ok(())
}

/// Executes the ops `start..end` of the main region.
pub(crate) fn exec_region<A: Copy, B: SimBackend<A>>(
    prog: &Program<A>,
    start: usize,
    end: usize,
    backend: &mut B,
    results: &mut Results<A, B::Value>,
    classical: &mut [u8],
    histogram: &mut [u32],
    rng: &mut Lcg64,
) -> (r: Result<(), Fault>)
    requires
        old(backend).wf(),
    ensures
        final(backend).wf(),
        match run::<A, B>(
            prog@,
            FUEL as nat,
            start as int,
            end as int,
            unbound(),
            machine::<A, B>(
                *old(backend),
                old(results)@,
                old(classical)@,
                old(histogram)@,
                old(rng).0,
            ),
        ) {
            Ok(st) => r is Ok && machine::<A, B>(
                *final(backend),
                final(results)@,
                final(classical)@,
                final(histogram)@,
                final(rng).0,
            ) == st,
            Err(e) => r == Err::<(), Fault>(e),
        },
{
    let free: Remap = bind(0, 0, 0, 0);
    assert(free@ =~= unbound());
    exec_ops(prog, start, end, backend, results, classical, histogram, rng, &free, FUEL)
}

/// Sets every classical byte to zero.
pub(crate) fn clear_bytes(classical: &mut [u8])
    ensures
        final(classical)@ == Seq::new(old(classical)@.len(), |i: int| 0u8),
{
    let n: usize = classical.len();
    let mut i: usize = 0;
    while i < n
        invariant
            classical@.len() == n == old(classical)@.len(),
            i <= n,
            forall|k: int| 0 <= k < i ==> classical@[k] == 0u8,
        decreases n - i,
    {
        classical[i] = 0;
        i += 1;
    }
    assert(classical@ =~= Seq::new(old(classical)@.len(), |i: int| 0u8));
}

/// Sets every histogram bin to zero.
pub(crate) fn clear_bins(histogram: &mut [u32])
    ensures
        final(histogram)@ == Seq::new(old(histogram)@.len(), |i: int| 0u32),
{
    let n: usize = histogram.len();
    let mut i: usize = 0;
    while i < n
        invariant
            histogram@.len() == n == old(histogram)@.len(),
            i <= n,
            forall|k: int| 0 <= k < i ==> histogram@[k] == 0u32,
        decreases n - i,
    {
        histogram[i] = 0;
        i += 1;
    }
    assert(histogram@ =~= Seq::new(old(histogram)@.len(), |i: int| 0u32));
}

/// Executes a program once on `backend`, with classical bytes and histogram set
/// to zero first. Without an explicit `SHOT` one sample is drawn at the end.
/// Reports why the run could not go on, if it could not.
pub fn try_run_program<A: Copy, B: SimBackend<A>>(
    prog: &Program<A>,
    backend: &mut B,
    results: &mut Results<A, B::Value>,
    classical: &mut [u8],
    histogram: &mut [u32],
    rng: &mut Lcg64,
) -> (r: Result<(), Fault>)
    requires
        old(backend).wf(),
    ensures
        final(backend).wf(),
        match executed::<A, B>(
            prog@,
            FUEL as nat,
            machine::<A, B>(
                *old(backend),
                old(results)@,
                old(classical)@,
                old(histogram)@,
                old(rng).0,
            ),
        ) {
            Ok(st) => r is Ok && machine::<A, B>(
                *final(backend),
                final(results)@,
                final(classical)@,
                final(histogram)@,
                final(rng).0,
            ) == st,
            Err(e) => r == Err::<(), Fault>(e),
        },
{
    let ghost st = machine::<A, B>(*backend, results@, classical@, histogram@, rng.0);
    clear_bytes(classical);
    clear_bins(histogram);
    assert(machine::<A, B>(*backend, results@, classical@, histogram@, rng.0) =~= started(st));
    let free: Remap = bind(0, 0, 0, 0);
    assert(free@ =~= unbound());
    match exec_ops(prog, 0, prog.len, backend, results, classical, histogram, rng, &free, FUEL) {
        Ok(_) => {},
        Err(e) => {
            return Err(e);
        },
    }
    if prog.has_explicit_shot {
        Ok(())
    } else {
        tally::<A, B>(backend, results, classical, histogram, rng)
    }
}

/// Executes a program `shots` times on `backend`, each time from the all-zero
/// state and followed by a sample, with classical bytes and histogram set to
/// zero first. Reports why the run could not go on, if it could not.
pub fn try_run_program_shots<A: Copy, B: SimBackend<A>>(
    prog: &Program<A>,
    shots: u32,
    backend: &mut B,
    results: &mut Results<A, B::Value>,
    classical: &mut [u8],
    histogram: &mut [u32],
    rng: &mut Lcg64,
) -> (r: Result<(), Fault>)
    requires
        old(backend).wf(),
    ensures
        final(backend).wf(),
        match executed_shots::<A, B>(
            prog@,
            FUEL as nat,
            shots as nat,
            machine::<A, B>(
                *old(backend),
                old(results)@,
                old(classical)@,
                old(histogram)@,
                old(rng).0,
            ),
        ) {
            Ok(st) => r is Ok && machine::<A, B>(
                *final(backend),
                final(results)@,
                final(classical)@,
                final(histogram)@,
                final(rng).0,
            ) == st,
            Err(e) => r == Err::<(), Fault>(e),
        },
{
    let ghost st = machine::<A, B>(*backend, results@, classical@, histogram@, rng.0);
    clear_bytes(classical);
    clear_bins(histogram);
    assert(machine::<A, B>(*backend, results@, classical@, histogram@, rng.0) =~= started(st));
    let free: Remap = bind(0, 0, 0, 0);
    assert(free@ =~= unbound());
    exec_shots(
        prog,
        shots,
        0,
        prog.len,
        backend,
        results,
        classical,
        histogram,
        rng,
        &free,
        FUEL,
    )
}

/// Executes a program once on `backend`, with classical bytes and histogram set
/// to zero first. Without an explicit `SHOT` one sample is drawn at the end.
pub fn run_program<A: Copy, B: SimBackend<A>>(
    prog: &Program<A>,
    backend: &mut B,
    results: &mut Results<A, B::Value>,
    classical: &mut [u8],
    histogram: &mut [u32],
    rng: &mut Lcg64,
)
    requires
        old(backend).wf(),
        executed::<A, B>(
            prog@,
            FUEL as nat,
            machine::<A, B>(
                *old(backend),
                old(results)@,
                old(classical)@,
                old(histogram)@,
                old(rng).0,
            ),
        ) is Ok,
    ensures
        final(backend).wf(),
        Ok::<_, Fault>(
            machine::<A, B>(
                *final(backend),
                final(results)@,
                final(classical)@,
                final(histogram)@,
                final(rng).0,
            ),
        ) == executed::<A, B>(
            prog@,
            FUEL as nat,
            machine::<A, B>(
                *old(backend),
                old(results)@,
                old(classical)@,
                old(histogram)@,
                old(rng).0,
            ),
        ),
{
    let _ = try_run_program(prog, backend, results, classical, histogram, rng);
}

/// Executes a program `shots` times on `backend`, each time from the all-zero
/// state and followed by a sample, with classical bytes and histogram set to
/// zero first. Classical bytes persist from one iteration to the next.
pub fn run_program_shots<A: Copy, B: SimBackend<A>>(
    prog: &Program<A>,
    shots: u32,
    backend: &mut B,
    results: &mut Results<A, B::Value>,
    classical: &mut [u8],
    histogram: &mut [u32],
    rng: &mut Lcg64,
)
    requires
        old(backend).wf(),
        executed_shots::<A, B>(
            prog@,
            FUEL as nat,
            shots as nat,
            machine::<A, B>(
                *old(backend),
                old(results)@,
                old(classical)@,
                old(histogram)@,
                old(rng).0,
            ),
        ) is Ok,
    ensures
        final(backend).wf(),
        Ok::<_, Fault>(
            machine::<A, B>(
                *final(backend),
                final(results)@,
                final(classical)@,
                final(histogram)@,
                final(rng).0,
            ),
        ) == executed_shots::<A, B>(
            prog@,
            FUEL as nat,
            shots as nat,
            machine::<A, B>(
                *old(backend),
                old(results)@,
                old(classical)@,
                old(histogram)@,
                old(rng).0,
            ),
        ),
{
    let _ = try_run_program_shots(prog, shots, backend, results, classical, histogram, rng);
}

/// The state in which a run on the tableau engine starts.
pub open spec fn tableau_start<A>(
    num_qubits: u8,
    results: ResultsView<A, i8>,
    classical: Seq<u8>,
    histogram: Seq<u32>,
    seed: u64,
) -> Machine<Tableau, A, i8> {
    Machine { model: Tableau::ground(num_qubits as nat), seed, classical, histogram, results }
}

/// A run on the tableau engine: a program executed once, or `shots` times.
pub open spec fn tableau_run<A: Copy>(
    prog: ProgramView<A>,
    shots: Option<u32>,
    st: Machine<Tableau, A, i8>,
) -> Result<Machine<Tableau, A, i8>, Fault> {
    match shots {
        Some(n) => executed_shots::<A, StabilizerBackend>(prog, FUEL as nat, n as nat, st),
        None => executed::<A, StabilizerBackend>(prog, FUEL as nat, st),
    }
}

/// Runs a program on a fresh tableau engine, once or `shots` times. Reports why
/// the run could not go on, if it could not.
pub fn run_stabilizer_generic<A: Copy>(
    prog: &Program<A>,
    shots: Option<u32>,
    results: &mut Results<A, i8>,
    classical: &mut [u8],
    histogram: &mut [u32],
    rng: &mut Lcg64,
) -> (r: Result<(), Fault>)
    requires
        prog.num_qubits <= STAB_MAX_QUBITS,
    ensures
        match tableau_run(
            prog@,
            shots,
            tableau_start(
                prog.num_qubits,
                old(results)@,
                old(classical)@,
                old(histogram)@,
                old(rng).0,
            ),
        ) {
            Ok(st) => r is Ok && final(results)@ == st.results && final(classical)@ == st.classical
                && final(histogram)@ == st.histogram && final(rng).0 == st.seed,
            Err(e) => r == Err::<(), Fault>(e),
        },
{
    let mut backend: StabilizerBackend = StabilizerBackend::new(prog.num_qubits);
    match shots {
        Some(n) => try_run_program_shots(
            prog,
            n,
            &mut backend,
            results,
            classical,
            histogram,
            rng,
        ),
        None => try_run_program(prog, &mut backend, results, classical, histogram, rng),
    }
}

/// Runs a program once on a fresh tableau engine.
pub fn run_stabilizer_program<A: Copy>(
    prog: &Program<A>,
    results: &mut Results<A, i8>,
    classical: &mut [u8],
    histogram: &mut [u32],
    rng: &mut Lcg64,
)
    requires
        prog.num_qubits <= STAB_MAX_QUBITS,
        tableau_run(
            prog@,
            None,
            tableau_start(
                prog.num_qubits,
                old(results)@,
                old(classical)@,
                old(histogram)@,
                old(rng).0,
            ),
        ) is Ok,
    ensures
        tableau_run(
            prog@,
            None,
            tableau_start(
                prog.num_qubits,
                old(results)@,
                old(classical)@,
                old(histogram)@,
                old(rng).0,
            ),
        ) matches Ok(st) && final(results)@ == st.results && final(classical)@ == st.classical
            && final(histogram)@ == st.histogram && final(rng).0 == st.seed,
{
    let _ = run_stabilizer_generic(prog, None, results, classical, histogram, rng);
}

/// Runs a program `shots` times on a fresh tableau engine.
pub fn run_stabilizer_program_shots<A: Copy>(
    prog: &Program<A>,
    shots: u32,
    results: &mut Results<A, i8>,
    classical: &mut [u8],
    histogram: &mut [u32],
    rng: &mut Lcg64,
)
    requires
        prog.num_qubits <= STAB_MAX_QUBITS,
        tableau_run(
            prog@,
            Some(shots),
            tableau_start(
                prog.num_qubits,
                old(results)@,
                old(classical)@,
                old(histogram)@,
                old(rng).0,
            ),
        ) is Ok,
    ensures
        tableau_run(
            prog@,
            Some(shots),
            tableau_start(
                prog.num_qubits,
                old(results)@,
                old(classical)@,
                old(histogram)@,
                old(rng).0,
            ),
        ) matches Ok(st) && final(results)@ == st.results && final(classical)@ == st.classical
            && final(histogram)@ == st.histogram && final(rng).0 == st.seed,
{
    let _ = run_stabilizer_generic(prog, Some(shots), results, classical, histogram, rng);
}

/// Ops the exact Clifford path excludes: gates outside its set and captures of the
/// state vector.
pub open spec fn non_clifford(op: IrOp) -> bool {
    match op {
        IrOp::RZ(_, _) | IrOp::RX(_, _) | IrOp::RY(_, _) | IrOp::Phase(_, _) => true,
        IrOp::T(_) | IrOp::SX(_) | IrOp::Toff(_, _, _) | IrOp::MCX(_, _) => true,
        IrOp::CPHASE(_, _, _) | IrOp::ISWAP(_, _) | IrOp::CSWAP(_, _, _) => true,
        IrOp::SaveState | IrOp::SaveAmps | IrOp::SaveProbs => true,
        _ => false,
    }
}

/// Ops the matrix-product engine excludes.
pub open spec fn mps_excluded(op: IrOp) -> bool {
    match op {
        IrOp::Toff(_, _, _) | IrOp::CSWAP(_, _, _) | IrOp::MCX(_, _) => true,
        IrOp::SaveState | IrOp::SaveAmps | IrOp::SaveProbs => true,
        _ => false,
    }
}

/// Whether the program, its main region and all subprogram bodies, runs exactly
/// on the tableau engine.
pub fn is_clifford_program<A>(prog: &Program<A>) -> (r: bool)
    requires
        extent(prog@) <= MAX_OPS,
    ensures
        r <==> forall|i: int| 0 <= i < extent(prog@) ==> !non_clifford(#[trigger] prog@.ops[i]),
{
    let n: usize = prog.extent();
    let mut i: usize = 0;
    while i < n
        invariant
            n == extent(prog@) <= MAX_OPS,
            forall|k: int| 0 <= k < i ==> !non_clifford(#[trigger] prog@.ops[k]),
        decreases n - i,
    {
        assert(prog.ops@[i as int] == prog@.ops[i as int]);
        match prog.ops[i] {
            IrOp::RZ(_, _) | IrOp::RX(_, _) | IrOp::RY(_, _) | IrOp::Phase(_, _) => {
                return false;
            },
            IrOp::T(_) | IrOp::SX(_) | IrOp::Toff(_, _, _) | IrOp::MCX(_, _) => {
                return false;
            },
            IrOp::CPHASE(_, _, _) | IrOp::ISWAP(_, _) | IrOp::CSWAP(_, _, _) => {
                return false;
            },
            IrOp::SaveState | IrOp::SaveAmps | IrOp::SaveProbs => {
                return false;
            },
            _ => {},
        }
        i += 1;
    }
    true
}

/// Whether the matrix-product engine can run the program: no three-qubit gates
/// and no captures of the state vector.
pub fn is_mps_suitable<A>(prog: &Program<A>) -> (r: bool)
    requires
        extent(prog@) <= MAX_OPS,
    ensures
        r <==> forall|i: int| 0 <= i < extent(prog@) ==> !mps_excluded(#[trigger] prog@.ops[i]),
{
    let n: usize = prog.extent();
    let mut i: usize = 0;
    while i < n
        invariant
            n == extent(prog@) <= MAX_OPS,
            forall|k: int| 0 <= k < i ==> !mps_excluded(#[trigger] prog@.ops[k]),
        decreases n - i,
    {
        assert(prog.ops@[i as int] == prog@.ops[i as int]);
        match prog.ops[i] {
            IrOp::Toff(_, _, _) | IrOp::CSWAP(_, _, _) | IrOp::MCX(_, _) => {
                return false;
            },
            IrOp::SaveState | IrOp::SaveAmps | IrOp::SaveProbs => {
                return false;
            },
            _ => {},
        }
        i += 1;
    }
    true
}

/// Whether the main region calls a subprogram.
pub fn program_has_calls<A>(prog: &Program<A>) -> (r: bool)
    requires
        prog.len <= MAX_OPS,
    ensures
        r <==> exists|i: int| 0 <= i < prog.len && (#[trigger] prog@.ops[i]) is Call,
{
    let mut i: usize = 0;
    while i < prog.len
        invariant
            prog.len <= MAX_OPS,
            forall|k: int| 0 <= k < i ==> !((#[trigger] prog@.ops[k]) is Call),
        decreases prog.len - i,
    {
        assert(prog.ops@[i as int] == prog@.ops[i as int]);
        match prog.ops[i] {
            IrOp::Call(_, _, _, _) => {
                return true;
            },
            _ => {},
        }
        i += 1;
    }
    false
}

} // verus!
