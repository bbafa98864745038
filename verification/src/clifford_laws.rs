//! Programs that pass the Clifford test run on the tableau engine.
use crate::backend::SimBackend;
use crate::binding::{gate_qubits, qubits_of};
use crate::ir::{extent, IrOp, ProgramView, Sub, MAX_CLASSICAL, MAX_QUBITS};
use crate::machine::{
    acted, bound, executed, executed_shots, gate_of, grounded, is_gate, renamed, renamed_op,
    repeated, run, started, tallied, unbound, Fault, Machine,
};
use crate::safety::{in_bounds, law_runs_stay_in_bounds, law_structured_programs_end, structured};
use crate::sim::{mps_excluded, non_clifford, FUEL};
use crate::pauli::Clifford;
use crate::stabilizer::{StabilizerBackend, Tableau};
use crate::tableau::{
    law_gates_keep_symplectic, law_ground_is_symplectic, law_measurement_keeps_symplectic,
    law_reset_clears, law_rotated_measurements, law_sampling_keeps_symplectic,
};
use crate::wellformed::{body_of, op_ok};
use vstd::arithmetic::power2::{lemma_pow2_unfold, pow2};
use vstd::prelude::*;

verus! {

/// Whether every op of a program belongs to the Clifford set.
pub open spec fn clifford<A>(p: ProgramView<A>) -> bool {
    forall|i: int| 0 <= i < extent(p) ==> !non_clifford(#[trigger] p.ops[i])
}

/// Whether every bound operand is one of `nq` qubits.
spec fn binds_inside(remap: Seq<Option<u8>>, nq: u8) -> bool {
    &&& remap.len() == 3
    &&& forall|k: int| 0 <= k < 3 ==> (#[trigger] remap[k] matches Some(q) ==> q < nq)
}

proof fn lemma_renamed_inside(remap: Seq<Option<u8>>, nq: u8, q: u8)
    requires
        binds_inside(remap, nq),
        q < nq,
    ensures
        renamed(remap, q) < nq,
{
    if q < 3 {
        assert(remap[q as int] matches Some(v) ==> v < nq);
    }
}

/// Whether the tableau is a sound one of `nq` qubits.
#[verifier::opaque]
pub open spec fn sound(t: Tableau, nq: u8) -> bool {
    t.symplectic() && t.n == nq
}

spec fn welcome<A>(r: Result<Machine<Tableau, A, i8>, Fault>, nq: u8) -> bool {
    match r {
        Ok(s) => sound(s.model, nq),
        Err(e) => e != Fault::Rejected,
    }
}

proof fn lemma_one_qubit_sound(t: Tableau, nq: u8, q: u8, seed: u64)
    requires
        sound(t, nq),
        q < nq,
    ensures
        sound(t.conjugated(Clifford::H(q)), nq),
        sound(t.conjugated(Clifford::X(q)), nq),
        sound(t.conjugated(Clifford::S(q)), nq),
        sound(t.measured(q, seed).0, nq),
        sound(t.measured_x(q, seed).0, nq),
        sound(t.measured_y(q, seed).0, nq),
        sound(t.cleared(q, seed).0, nq),
{
    reveal(sound);
    law_gates_keep_symplectic(t, Clifford::H(q));
    law_gates_keep_symplectic(t, Clifford::X(q));
    law_gates_keep_symplectic(t, Clifford::S(q));
    law_measurement_keeps_symplectic(t, q, seed);
    law_rotated_measurements(t, q, seed);
    law_reset_clears(t, q, seed, seed);
}

proof fn lemma_two_qubits_sound(t: Tableau, nq: u8, a: u8, b: u8)
    requires
        sound(t, nq),
        a < nq,
        b < nq,
    ensures
        sound(t.conjugated(Clifford::Cnot(a, b)), nq),
        sound(t.conjugated(Clifford::Swap(a, b)), nq),
        sound(t.conjugated(Clifford::Cz(a, b)), nq),
{
    reveal(sound);
    law_gates_keep_symplectic(t, Clifford::Cnot(a, b));
    law_gates_keep_symplectic(t, Clifford::Swap(a, b));
    law_gates_keep_symplectic(t, Clifford::Cz(a, b));
}

proof fn lemma_sampled_sound(t: Tableau, nq: u8, seed: u64)
    requires
        sound(t, nq),
    ensures
        sound(t.sampled(t.n, seed).0, nq),
{
    reveal(sound);
    law_sampling_keeps_symplectic(t, t.n, seed);
}

proof fn lemma_acted_welcome<A: Copy>(
    p: ProgramView<A>,
    i: int,
    remap: Seq<Option<u8>>,
    st: Machine<Tableau, A, i8>,
)
    requires
        in_bounds(p),
        clifford(p),
        p.num_qubits <= MAX_QUBITS,
        sound(st.model, p.num_qubits),
        binds_inside(remap, p.num_qubits),
        0 <= i < p.sub_len,
        body_of(p.ops[i]) is None,
        !(p.ops[i] is Shot),
        !(p.ops[i] is Call),
    ensures
        welcome(acted::<A, StabilizerBackend>(p, renamed_op(p.ops[i], remap), st), p.num_qubits),
{
    assert(op_ok(
        p.ops[i],
        p.num_qubits,
        p.num_consts as nat,
        p.num_estimate_terms as nat,
        p.subs.take(p.num_subs as int).map_values(|s: Sub| s.nparams),
    ));
    assert(!non_clifford(p.ops[i]));
    match p.ops[i] {
        IrOp::H(q) | IrOp::X(q) | IrOp::S(q) | IrOp::Reset(q) => {
            lemma_renamed_inside(remap, p.num_qubits, q);
            lemma_one_qubit_sound(st.model, p.num_qubits, renamed(remap, q), st.seed);
        },
        IrOp::Measure(q, _) | IrOp::MeasureX(q, _) | IrOp::MeasureY(q, _) => {
            lemma_renamed_inside(remap, p.num_qubits, q);
            lemma_one_qubit_sound(st.model, p.num_qubits, renamed(remap, q), st.seed);
        },
        IrOp::CNOT(a, b) | IrOp::SWAP(a, b) | IrOp::CZ(a, b) => {
            lemma_renamed_inside(remap, p.num_qubits, a);
            lemma_renamed_inside(remap, p.num_qubits, b);
            lemma_two_qubits_sound(
                st.model,
                p.num_qubits,
                renamed(remap, a),
                renamed(remap, b),
            );
        },
        _ => {},
    }
}

proof fn lemma_run_welcome<A: Copy>(
    p: ProgramView<A>,
    fuel: nat,
    i: int,
    end: int,
    remap: Seq<Option<u8>>,
    st: Machine<Tableau, A, i8>,
)
    requires
        in_bounds(p),
        clifford(p),
        p.num_qubits <= MAX_QUBITS,
        sound(st.model, p.num_qubits),
        binds_inside(remap, p.num_qubits),
        0 <= i,
        end <= p.sub_len,
    ensures
        welcome(run::<A, StabilizerBackend>(p, fuel, i, end, remap, st), p.num_qubits),
    decreases fuel,
{
    if i < end && fuel > 0 {
        let f = (fuel - 1) as nat;
        let raw = p.ops[i];
        let op = renamed_op(raw, remap);
        assert(p.ops.take(p.sub_len as int)[i] == raw);
        assert(op_ok(
            raw,
            p.num_qubits,
            p.num_consts as nat,
            p.num_estimate_terms as nat,
            p.subs.take(p.num_subs as int).map_values(|s: Sub| s.nparams),
        ));
        match op {
            IrOp::IfEq(_, _, off, len) | IrOp::IfNe(_, _, off, len) => {
                assert(body_of(raw) == Some((off as int, off + len)));
                lemma_run_welcome(p, f, off as int, off + len, remap, st);
                lemma_run_welcome(p, f, off + len, end, remap, st);
                if let Ok(s) = run::<A, StabilizerBackend>(
                    p,
                    f,
                    off as int,
                    off + len,
                    remap,
                    st,
                ) {
                    lemma_run_welcome(p, f, off + len, end, remap, s);
                }
            },
            IrOp::Shot(count, off, len) => {
                let (lo, hi, next) = if len == 0 {
                    (0int, i, i + 1)
                } else {
                    (off as int, off + len, off + len)
                };
                lemma_repeated_welcome(p, f, count as nat, lo, hi, remap, st);
                if let Ok(s) = repeated::<A, StabilizerBackend>(
                    p,
                    f,
                    count as nat,
                    lo,
                    hi,
                    remap,
                    st,
                ) {
                    lemma_run_welcome(p, f, next, end, remap, s);
                }
            },
            IrOp::Call(id, a0, a1, a2) => {
                let sub = p.subs[id as int];
                let inner = bound(sub.nparams, a0, a1, a2);
                assert(p.subs[id as int].off + p.subs[id as int].len <= p.sub_len);
                match raw {
                    IrOp::Call(_, b0, b1, b2) => {
                        let params = p.subs.take(p.num_subs as int).map_values(
                            |s: Sub| s.nparams,
                        );
                        assert(params[id as int] == sub.nparams);
                        lemma_renamed_inside(remap, p.num_qubits, b0);
                        if sub.nparams > 1 {
                            lemma_renamed_inside(remap, p.num_qubits, b1);
                        }
                        if sub.nparams > 2 {
                            lemma_renamed_inside(remap, p.num_qubits, b2);
                        }
                    },
                    _ => {},
                }
                lemma_run_welcome(p, f, sub.off as int, sub.off + sub.len, inner, st);
                if let Ok(s) = run::<A, StabilizerBackend>(
                    p,
                    f,
                    sub.off as int,
                    sub.off + sub.len,
                    inner,
                    st,
                ) {
                    lemma_run_welcome(p, f, i + 1, end, remap, s);
                }
            },
            _ => {
                lemma_acted_welcome(p, i, remap, st);
                if let Ok(s) = acted::<A, StabilizerBackend>(p, op, st) {
                    lemma_run_welcome(p, f, i + 1, end, remap, s);
                }
            },
        }
    }
}

proof fn lemma_repeated_welcome<A: Copy>(
    p: ProgramView<A>,
    fuel: nat,
    count: nat,
    lo: int,
    hi: int,
    remap: Seq<Option<u8>>,
    st: Machine<Tableau, A, i8>,
)
    requires
        in_bounds(p),
        clifford(p),
        p.num_qubits <= MAX_QUBITS,
        sound(st.model, p.num_qubits),
        binds_inside(remap, p.num_qubits),
        0 <= lo,
        hi <= p.sub_len,
    ensures
        welcome(repeated::<A, StabilizerBackend>(p, fuel, count, lo, hi, remap, st), p.num_qubits),
    decreases fuel,
{
    if count > 0 && fuel > 0 {
        let f = (fuel - 1) as nat;
        let g = grounded::<A, StabilizerBackend>(st);
        assert(sound(g.model, p.num_qubits)) by {
            reveal(sound);
            law_ground_is_symplectic(st.model.n);
        }
        lemma_run_welcome(p, f, lo, hi, remap, g);
        if let Ok(s) = run::<A, StabilizerBackend>(p, f, lo, hi, remap, g) {
            lemma_sampled_sound(s.model, p.num_qubits, s.seed);
            if let Ok(t) = tallied::<A, StabilizerBackend>(s) {
                lemma_repeated_welcome(p, f, (count - 1) as nat, lo, hi, remap, t);
            }
        }
    }
}

/// A structured program inside its pools that passes the Clifford test runs to its
/// end on the tableau engine, given all classical bytes, unless the histogram
/// cannot take a sample. The tableau keeps its invariant.
pub proof fn law_clifford_programs_run<A: Copy>(
    p: ProgramView<A>,
    shots: u32,
    st: Machine<Tableau, A, i8>,
)
    requires
        in_bounds(p),
        structured(p),
        clifford(p),
        p.num_qubits <= MAX_QUBITS,
        sound(st.model, p.num_qubits),
        st.classical.len() >= MAX_CLASSICAL,
    ensures
        match executed::<A, StabilizerBackend>(p, FUEL as nat, st) {
            Ok(s) => sound(s.model, p.num_qubits),
            Err(e) => e == Fault::Histogram,
        },
        match executed_shots::<A, StabilizerBackend>(p, FUEL as nat, shots as nat, st) {
            Ok(s) => sound(s.model, p.num_qubits),
            Err(e) => e == Fault::Histogram,
        },
{
    law_runs_stay_in_bounds::<A, StabilizerBackend>(p, FUEL as nat, shots as nat, st);
    law_structured_programs_end::<A, StabilizerBackend>(p, shots, st);
    let s = started(st);
    assert(binds_inside(unbound(), p.num_qubits));
    lemma_run_welcome(p, FUEL as nat, 0, p.len as int, unbound(), s);
    lemma_repeated_welcome(p, FUEL as nat, shots as nat, 0, p.len as int, unbound(), s);
    if let Ok(r) = run::<A, StabilizerBackend>(p, FUEL as nat, 0, p.len as int, unbound(), s) {
        lemma_sampled_sound(r.model, p.num_qubits, r.seed);
    }
}

/// A sample of `k` qubits is below `2^k`: it fits a histogram of that size.
pub proof fn law_samples_fit(t: Tableau, k: nat, seed: u64)
    ensures
        t.sampled(k, seed).2 < pow2(k),
    decreases k,
{
    if k == 0 {
        vstd::arithmetic::power2::lemma2_to64();
    } else {
        law_samples_fit(t, (k - 1) as nat, seed);
        lemma_pow2_unfold(k);
    }
}

/// The gates that pass the Clifford test are those that the tableau engine performs, but for
/// ISWAP, which is left to other engines. Measurements, resets, classical computation,
/// control flow and expectation values pass; captures of the state vector do not.
pub proof fn law_clifford_test_admits_what_the_engine_performs<A: Copy>(
    op: IrOp,
    consts: Seq<A>,
    t: Tableau,
)
    requires
        gate_of(op, consts) matches Some(g) ==> forall|k: int|
            0 <= k < gate_qubits(g).len() ==> #[trigger] gate_qubits(g)[k] < 64,
        is_gate(op) ==> gate_of(op, consts) is Some,
    ensures
        is_gate(op) ==> (!non_clifford(op) <==> <StabilizerBackend as SimBackend<A>>::takes_gate(
            t,
            gate_of(op, consts)->Some_0,
        ) && !(op is ISWAP)),
        !is_gate(op) ==> (non_clifford(op) <==> op is SaveState || op is SaveAmps || op
            is SaveProbs),
{
    if let Some(g) = gate_of(op, consts) {
        let n = gate_qubits(g).len() as int;
        assert(gate_qubits(g)[0] < 64 && gate_qubits(g)[n - 1] < 64);
    }
}

/// The matrix-product engine is kept from gates on more than two qubits and from captures of
/// the state vector, and from nothing else.
pub proof fn law_mps_test_admits_pairs(op: IrOp)
    ensures
        mps_excluded(op) <==> is_gate(op) && (qubits_of(op).len() > 2 || op is MCX) || op
            is SaveState || op is SaveAmps || op is SaveProbs,
{
}

} // verus!
