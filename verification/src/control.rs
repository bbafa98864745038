//! How a run goes through a program: steps, branches, calls, repetitions and records.
use crate::backend::{Basis, ResultsView, SimBackend};
use crate::binding::{gate_qubits, law_noise_follows_the_qubits, noisy_on, stands_for};
use crate::effects::{
    apart, eigenpart, gate_effect, law_engine_gates_act_on_amplitudes,
    law_engine_measures_in_the_basis, law_engine_starts_at_zero,
};
use crate::ir::{IrOp, ProgramView};
use crate::machine::{
    acted, bound, executed, executed_shots, gate_of, grounded, is_gate, renamed_op, repeated, run,
    started, tallied, Fault, Machine,
};
use crate::meaning::describes;
use crate::safety::{contained, law_one_sample_per_execution, total, without_shots};
use crate::sim::{tableau_run, tableau_start, FUEL};
use crate::stabilizer::{StabilizerBackend, Tableau};
use crate::vectors::Psi;
use vstd::prelude::*;

verus! {

/// One run after another: the second starts where the first ended well.
pub open spec fn then_run<A: Copy, B: SimBackend<A>>(
    first: Result<Machine<B::Model, A, B::Value>, Fault>,
    p: ProgramView<A>,
    fuel: nat,
    i: int,
    end: int,
    bindings: Seq<Option<u8>>,
) -> Result<Machine<B::Model, A, B::Value>, Fault> {
    match first {
        Ok(s) => run::<A, B>(p, fuel, i, end, bindings, s),
        Err(e) => Err(e),
    }
}

/// A branch on a byte executes its body exactly if the byte has the value, or for the
/// opposite comparison exactly if it has another, and goes on behind the body.
pub proof fn law_branches_look_at_the_byte<A: Copy, B: SimBackend<A>>(
    p: ProgramView<A>,
    fuel: nat,
    i: int,
    end: int,
    bindings: Seq<Option<u8>>,
    st: Machine<B::Model, A, B::Value>,
    c: u8,
    v: u8,
    off: u16,
    len: u16,
)
    requires
        0 <= i < end,
        i < p.ops.len(),
        fuel > 0,
        c < st.classical.len(),
        p.ops[i] == IrOp::IfEq(c, v, off, len) || p.ops[i] == IrOp::IfNe(c, v, off, len),
    ensures
        ({
            let f = (fuel - 1) as nat;
            let equal = st.classical[c as int] == v;
            let entered = if p.ops[i] is IfEq {
                equal
            } else {
                !equal
            };
            run::<A, B>(p, fuel, i, end, bindings, st) == if entered {
                then_run::<A, B>(
                    run::<A, B>(p, f, off as int, off + len, bindings, st),
                    p,
                    f,
                    off + len,
                    end,
                    bindings,
                )
            } else {
                run::<A, B>(p, f, off + len, end, bindings, st)
            }
        }),
{
}

/// A call executes the body of its subprogram with each parameter standing for the actual
/// qubit behind its argument, and goes on behind the call with the bindings of the caller.
pub proof fn law_calls_run_the_body<A: Copy, B: SimBackend<A>>(
    p: ProgramView<A>,
    fuel: nat,
    i: int,
    end: int,
    bindings: Seq<Option<u8>>,
    st: Machine<B::Model, A, B::Value>,
    id: u16,
    args: Seq<u8>,
    actual: Seq<u8>,
)
    requires
        0 <= i < end,
        i < p.ops.len(),
        fuel > 0,
        id < p.subs.len(),
        p.subs[id as int].nparams <= 3,
        bindings.len() == 3,
        args.len() == 3,
        actual.len() == 3,
        p.ops[i] == IrOp::Call(id, args[0], args[1], args[2]),
        forall|k: int| 0 <= k < 3 ==> #[trigger] stands_for(bindings, args[k], actual[k]),
    ensures
        ({
            let f = (fuel - 1) as nat;
            let sub = p.subs[id as int];
            let inner = Seq::new(
                3,
                |k: int|
                    if k < sub.nparams {
                        Some(actual[k])
                    } else {
                        None
                    },
            );
            run::<A, B>(p, fuel, i, end, bindings, st) == then_run::<A, B>(
                run::<A, B>(p, f, sub.off as int, sub.off + sub.len, inner, st),
                p,
                f,
                i + 1,
                end,
                bindings,
            )
        }),
{
    let sub = p.subs[id as int];
    let inner = Seq::new(
        3,
        |k: int|
            if k < sub.nparams {
                Some(actual[k])
            } else {
                None
            },
    );
    assert(stands_for(bindings, args[0], actual[0]));
    assert(stands_for(bindings, args[1], actual[1]));
    assert(stands_for(bindings, args[2], actual[2]));
    assert(bound(sub.nparams, actual[0], actual[1], actual[2]) =~= inner);
}

/// A repetition with a body repeats that body and goes on behind it; one without a body
/// repeats everything before it.
pub proof fn law_repetitions_run_the_body<A: Copy, B: SimBackend<A>>(
    p: ProgramView<A>,
    fuel: nat,
    i: int,
    end: int,
    bindings: Seq<Option<u8>>,
    st: Machine<B::Model, A, B::Value>,
    count: u32,
    off: u16,
    len: u16,
)
    requires
        0 <= i < end,
        i < p.ops.len(),
        fuel > 0,
        p.ops[i] == IrOp::Shot(count, off, len),
    ensures
        ({
            let f = (fuel - 1) as nat;
            run::<A, B>(p, fuel, i, end, bindings, st) == if len == 0 {
                then_run::<A, B>(
                    repeated::<A, B>(p, f, count as nat, 0, i, bindings, st),
                    p,
                    f,
                    i + 1,
                    end,
                    bindings,
                )
            } else {
                then_run::<A, B>(
                    repeated::<A, B>(p, f, count as nat, off as int, off + len, bindings, st),
                    p,
                    f,
                    off + len,
                    end,
                    bindings,
                )
            }
        }),
{
}

/// Any other op acts once, with its operands bound, and the run goes on with the next op.
pub proof fn law_steps_follow_each_other<A: Copy, B: SimBackend<A>>(
    p: ProgramView<A>,
    fuel: nat,
    i: int,
    end: int,
    bindings: Seq<Option<u8>>,
    st: Machine<B::Model, A, B::Value>,
)
    requires
        0 <= i < end,
        i < p.ops.len(),
        fuel > 0,
        !(p.ops[i] is IfEq || p.ops[i] is IfNe || p.ops[i] is Shot || p.ops[i] is Call),
    ensures
        run::<A, B>(p, fuel, i, end, bindings, st) == then_run::<A, B>(
            acted::<A, B>(p, renamed_op(p.ops[i], bindings), st),
            p,
            (fuel - 1) as nat,
            i + 1,
            end,
            bindings,
        ),
{
}

/// A run over no ops changes nothing.
pub proof fn law_empty_runs_change_nothing<A: Copy, B: SimBackend<A>>(
    p: ProgramView<A>,
    fuel: nat,
    i: int,
    bindings: Seq<Option<u8>>,
    st: Machine<B::Model, A, B::Value>,
)
    ensures
        run::<A, B>(p, fuel, i, i, bindings, st) == Ok::<Machine<B::Model, A, B::Value>, Fault>(st),
        repeated::<A, B>(p, fuel, 0, i, i, bindings, st) == Ok::<
            Machine<B::Model, A, B::Value>,
            Fault,
        >(st),
{
}

/// Whether a sample of `before` was counted in `after`: the bin of the sampled basis state
/// holds one more, and nothing else but state and generator changed.
pub open spec fn counted<A: Copy, B: SimBackend<A>>(
    before: Machine<B::Model, A, B::Value>,
    after: Machine<B::Model, A, B::Value>,
) -> bool {
    let (model, seed, bin) = B::sampled(before.model, before.seed);
    &&& after.model == model
    &&& after.seed == seed
    &&& after.classical == before.classical
    &&& after.results == before.results
    &&& after.histogram.len() == before.histogram.len()
    &&& bin < before.histogram.len()
    &&& forall|k: int|
        0 <= k < before.histogram.len() ==> #[trigger] after.histogram[k] == before.histogram[k]
            + if k == bin {
            1int
        } else {
            0
        }
}

/// Each iteration of a repetition starts from the all-zero state, with the classical bytes,
/// the results and the counts of the iterations before, executes the body, and counts one
/// sample of the state it ends in.
pub proof fn law_iterations_start_afresh<A: Copy, B: SimBackend<A>>(
    p: ProgramView<A>,
    fuel: nat,
    count: nat,
    lo: int,
    hi: int,
    bindings: Seq<Option<u8>>,
    st: Machine<B::Model, A, B::Value>,
)
    requires
        count > 0,
        fuel > 0,
        repeated::<A, B>(p, fuel, count, lo, hi, bindings, st) is Ok,
    ensures
        ({
            let f = (fuel - 1) as nat;
            let start = Machine { model: B::ground(st.model), ..st };
            run::<A, B>(p, f, lo, hi, bindings, start) matches Ok(s) && exists|t: Machine<
                B::Model,
                A,
                B::Value,
            >|
                counted::<A, B>(s, t) && #[trigger] repeated::<A, B>(
                    p,
                    f,
                    (count - 1) as nat,
                    lo,
                    hi,
                    bindings,
                    t,
                ) == repeated::<A, B>(p, fuel, count, lo, hi, bindings, st)
        }),
{
    let f = (fuel - 1) as nat;
    let start = Machine { model: B::ground(st.model), ..st };
    assert(start == grounded::<A, B>(st));
    let s = run::<A, B>(p, f, lo, hi, bindings, start)->Ok_0;
    let t = tallied::<A, B>(s)->Ok_0;
    assert(counted::<A, B>(s, t));
    assert(repeated::<A, B>(p, f, (count - 1) as nat, lo, hi, bindings, t) == repeated::<A, B>(
        p,
        fuel,
        count,
        lo,
        hi,
        bindings,
        st,
    ));
}

/// What the quantum state was before a repetition does not matter.
pub proof fn law_repetitions_forget_the_state<A: Copy, B: SimBackend<A>>(
    p: ProgramView<A>,
    fuel: nat,
    count: nat,
    lo: int,
    hi: int,
    bindings: Seq<Option<u8>>,
    st: Machine<B::Model, A, B::Value>,
    other: B::Model,
)
    requires
        count > 0,
        B::ground(other) == B::ground(st.model),
    ensures
        repeated::<A, B>(p, fuel, count, lo, hi, bindings, st) == repeated::<A, B>(
            p,
            fuel,
            count,
            lo,
            hi,
            bindings,
            Machine { model: other, ..st },
        ),
{
}

/// A sample fails to be counted only where its bin does not exist or is full.
pub proof fn law_samples_are_counted<A: Copy, B: SimBackend<A>>(
    st: Machine<B::Model, A, B::Value>,
)
    ensures
        match tallied::<A, B>(st) {
            Ok(t) => counted::<A, B>(st, t),
            Err(e) => {
                let bin = B::sampled(st.model, st.seed).2;
                e == Fault::Histogram && (bin >= st.histogram.len() || st.histogram[bin as int]
                    == 0xFFFF_FFFF)
            },
        },
{
}

/// The machine with all classical bytes and all counts at zero.
pub open spec fn zeroed<M, A, V>(st: Machine<M, A, V>, z: Machine<M, A, V>) -> bool {
    &&& z.model == st.model
    &&& z.seed == st.seed
    &&& z.results == st.results
    &&& z.classical.len() == st.classical.len()
    &&& z.histogram.len() == st.histogram.len()
    &&& forall|k: int| 0 <= k < z.classical.len() ==> #[trigger] z.classical[k] == 0
    &&& forall|k: int| 0 <= k < z.histogram.len() ==> #[trigger] z.histogram[k] == 0
}

/// Executing a program once runs its main region from zeroed bytes and counts, without
/// bindings, and, unless the program samples by itself, counts one sample at the end.
/// Executing it a number of times repeats its main region.
pub proof fn law_executions_run_the_main_region<A: Copy, B: SimBackend<A>>(
    p: ProgramView<A>,
    fuel: nat,
    shots: nat,
    st: Machine<B::Model, A, B::Value>,
    z: Machine<B::Model, A, B::Value>,
)
    requires
        zeroed(st, z),
    ensures
        ({
            let free = seq![None::<u8>, None, None];
            let ran = run::<A, B>(p, fuel, 0, p.len as int, free, z);
            &&& ran is Err ==> executed::<A, B>(p, fuel, st) == ran
            &&& ran matches Ok(s) ==> if p.has_explicit_shot {
                executed::<A, B>(p, fuel, st) == ran
            } else {
                executed::<A, B>(p, fuel, st) matches Ok(t) ==> counted::<A, B>(s, t)
            }
            &&& executed_shots::<A, B>(p, fuel, shots, st) == repeated::<A, B>(
                p,
                fuel,
                shots,
                0,
                p.len as int,
                free,
                z,
            )
        }),
{
    assert(started(st).classical =~= z.classical);
    assert(started(st).histogram =~= z.histogram);
    assert(started(st) == z);
}

/// The basis in which an op measures.
pub open spec fn basis_of(op: IrOp) -> Option<Basis> {
    match op {
        IrOp::Measure(_, _) => Some(Basis::Z),
        IrOp::MeasureX(_, _) => Some(Basis::X),
        IrOp::MeasureY(_, _) => Some(Basis::Y),
        _ => None,
    }
}

/// A measuring op measures its qubit in its basis and puts the outcome into its byte;
/// other bytes, the counts and the results stay.
pub proof fn law_outcomes_go_to_their_byte<A: Copy, B: SimBackend<A>>(
    p: ProgramView<A>,
    op: IrOp,
    st: Machine<B::Model, A, B::Value>,
    q: u8,
    c: u8,
)
    requires
        op == IrOp::Measure(q, c) || op == IrOp::MeasureX(q, c) || op == IrOp::MeasureY(q, c),
    ensures
        match acted::<A, B>(p, op, st) {
            Ok(s) => {
                let m = B::measured(st.model, basis_of(op)->Some_0, q, st.seed);
                &&& c < st.classical.len() == s.classical.len()
                &&& s.model == m.0
                &&& s.seed == m.1
                &&& s.classical[c as int] == m.2
                &&& forall|k: int|
                    0 <= k < st.classical.len() && k != c ==> #[trigger] s.classical[k]
                        == st.classical[k]
                &&& s.histogram == st.histogram
                &&& s.results == st.results
            },
            Err(e) => e == Fault::Rejected && !B::takes_qubit(st.model, q) || e == Fault::Classical
                && c >= st.classical.len(),
        },
{
}

/// Resetting clears the qubit of the op and nothing else.
pub proof fn law_resets_clear_their_qubit<A: Copy, B: SimBackend<A>>(
    p: ProgramView<A>,
    q: u8,
    st: Machine<B::Model, A, B::Value>,
)
    requires
        B::takes_qubit(st.model, q),
    ensures
        acted::<A, B>(p, IrOp::Reset(q), st) matches Ok(s) && (s.model, s.seed) == B::cleared(
            st.model,
            q,
            st.seed,
        ) && s.classical == st.classical && s.histogram == st.histogram && s.results == st.results,
{
}

/// Observing adds one value to its own list and changes nothing else: `EXPECT` the
/// expectation value of its product, `ESTIMATE` the coefficients of its terms with the
/// values that `EXPECT` would give for their products, and each way of saving what it
/// saves.
pub proof fn law_observations_are_recorded<A: Copy, B: SimBackend<A>>(
    p: ProgramView<A>,
    op: IrOp,
    st: Machine<B::Model, A, B::Value>,
)
    requires
        op is Expect || op is Estimate || op is SaveState || op is SaveAmps || op is SaveProbs || op
            is Print,
    ensures
        acted::<A, B>(p, op, st) matches Ok(s) ==> {
            let (r, o) = (s.results, st.results);
            &&& s.model == st.model
            &&& s.seed == st.seed
            &&& s.classical == st.classical
            &&& s.histogram == st.histogram
            &&& r.expectations == match op {
                IrOp::Expect(code) => o.expectations.push(B::expectation(st.model, code)),
                _ => o.expectations,
            }
            &&& if let IrOp::Estimate(off, len) = op {
                &&& r.estimates.len() == o.estimates.len() + 1
                &&& r.estimates.drop_last() == o.estimates
                &&& r.estimates.last().len() == len
                &&& forall|k: int|
                    0 <= k < len ==> {
                        let (weight, code) = p.estimate_terms[off + k];
                        (#[trigger] r.estimates.last()[k]).0 == weight && (acted::<A, B>(
                            p,
                            IrOp::Expect(code),
                            st,
                        ) matches Ok(e) && r.estimates.last()[k].1
                            == e.results.expectations.last())
                    }
            } else {
                r.estimates == o.estimates
            }
            &&& r.saved_states == if op is SaveState {
                o.saved_states.push(B::state_of(st.model))
            } else {
                o.saved_states
            }
            &&& r.saved_amplitudes == if op is SaveAmps {
                o.saved_amplitudes.push(B::amplitudes_of(st.model))
            } else {
                o.saved_amplitudes
            }
            &&& r.saved_probs == if op is SaveProbs {
                o.saved_probs.push(B::probabilities_of(st.model))
            } else {
                o.saved_probs
            }
        },
{
    if let Ok(s) = acted::<A, B>(p, op, st) {
        if let IrOp::Estimate(off, len) = op {
            assert(s.results.estimates.drop_last() =~= st.results.estimates);
        }
    }
}

/// On the tableau engine an op that is a gate acts on the amplitudes as that gate does, a
/// measuring op leaves the part of the vector that belongs to the outcome in its byte, and
/// the byte is the sign of the basis letter.
pub proof fn law_engine_ops_act_on_amplitudes<A: Copy>(
    p: ProgramView<A>,
    op: IrOp,
    st: Machine<Tableau, A, i8>,
    psi: Psi,
)
    requires
        st.model.symplectic(),
        describes(st.model, psi),
    ensures
        acted::<A, StabilizerBackend>(p, op, st) matches Ok(s) ==> {
            &&& is_gate(op) ==> (gate_of(op, p.consts) matches Some(g) && (apart(g)
                ==> describes(s.model, gate_effect(g, psi))))
            &&& op matches IrOp::Measure(q, c) ==> q < st.model.n ==> describes(
                s.model,
                eigenpart(3, q, s.classical[c as int], psi),
            )
            &&& op matches IrOp::MeasureX(q, c) ==> q < st.model.n ==> describes(
                s.model,
                eigenpart(1, q, s.classical[c as int], psi),
            )
            &&& op matches IrOp::MeasureY(q, c) ==> q < st.model.n ==> describes(
                s.model,
                eigenpart(2, q, s.classical[c as int], psi),
            )
        },
{
    if let Ok(s) = acted::<A, StabilizerBackend>(p, op, st) {
        if is_gate(op) {
            let g = gate_of(op, p.consts)->Some_0;
            if apart(g) {
                law_engine_gates_act_on_amplitudes::<A>(st.model, g, psi);
            }
        }
        match op {
            IrOp::Measure(q, _) => if q < st.model.n {
                law_engine_measures_in_the_basis::<A>(st.model, Basis::Z, q, st.seed, psi);
            },
            IrOp::MeasureX(q, _) => if q < st.model.n {
                law_engine_measures_in_the_basis::<A>(st.model, Basis::X, q, st.seed, psi);
            },
            IrOp::MeasureY(q, _) => if q < st.model.n {
                law_engine_measures_in_the_basis::<A>(st.model, Basis::Y, q, st.seed, psi);
            },
            _ => {},
        }
    }
}

/// A run on the tableau engine starts in the all-zero state of the qubits of the program, and
/// counts one sample per execution if the program has no repetition of its own.
pub proof fn law_engine_runs_start_at_zero<A: Copy>(
    p: ProgramView<A>,
    shots: Option<u32>,
    results: ResultsView<A, i8>,
    classical: Seq<u8>,
    histogram: Seq<u32>,
    seed: u64,
)
    requires
        p.num_qubits <= 28,
    ensures
        ({
            let st = tableau_start(p.num_qubits, results, classical, histogram, seed);
            &&& st.model.n == p.num_qubits
            &&& describes(
                st.model,
                |i: u64|
                    if i == 0 {
                        (1int, 0int)
                    } else {
                        (0int, 0int)
                    },
            )
            &&& st.results == results
            &&& st.classical == classical
            &&& st.histogram == histogram
            &&& st.seed == seed
            &&& contained(p) && without_shots(p) && !p.has_explicit_shot ==> (tableau_run(
                p,
                shots,
                st,
            ) matches Ok(s) ==> total(s.histogram) == match shots {
                Some(n) => n as nat,
                None => 1,
            })
        }),
{
    let st = tableau_start(p.num_qubits, results, classical, histogram, seed);
    law_engine_starts_at_zero::<A>(st.model);
    if contained(p) && without_shots(p) && !p.has_explicit_shot {
        let n = match shots {
            Some(n) => n as nat,
            None => 1,
        };
        law_one_sample_per_execution::<A, StabilizerBackend>(p, FUEL as nat, n, st);
    }
}

/// A gate changes the state and the generator only: the backend performs it, and then every
/// qubit of it is exposed to noise. It fails exactly where its angle does not exist or the
/// backend does not perform it.
pub proof fn law_gates_are_performed<A: Copy, B: SimBackend<A>>(
    p: ProgramView<A>,
    op: IrOp,
    st: Machine<B::Model, A, B::Value>,
)
    requires
        is_gate(op),
    ensures
        match gate_of(op, p.consts) {
            None => acted::<A, B>(p, op, st) == Err::<Machine<B::Model, A, B::Value>, Fault>(
                Fault::Pool,
            ),
            Some(g) => if B::takes_gate(st.model, g) {
                acted::<A, B>(p, op, st) matches Ok(s) && (s.model, s.seed) == noisy_on::<A, B>(
                    B::evolved(st.model, g),
                    gate_qubits(g),
                    st.seed,
                ) && s.classical == st.classical && s.histogram == st.histogram && s.results
                    == st.results
            } else {
                acted::<A, B>(p, op, st) == Err::<Machine<B::Model, A, B::Value>, Fault>(
                    Fault::Rejected,
                )
            },
        },
{
    if let Some(g) = gate_of(op, p.consts) {
        law_noise_follows_the_qubits::<A, B>(st.model, g, st.seed);
    }
}

/// An observation fails exactly where the backend does not take its products, or cannot
/// capture its state, or where its terms do not exist. Printing never fails.
pub proof fn law_observations_are_taken<A: Copy, B: SimBackend<A>>(
    p: ProgramView<A>,
    st: Machine<B::Model, A, B::Value>,
    code: u64,
    off: u16,
    len: u16,
)
    ensures
        acted::<A, B>(p, IrOp::Print, st) == Ok::<Machine<B::Model, A, B::Value>, Fault>(st),
        acted::<A, B>(p, IrOp::Expect(code), st) is Ok <==> B::takes_pauli(st.model, code),
        acted::<A, B>(p, IrOp::SaveState, st) is Ok <==> B::takes_capture(st.model),
        acted::<A, B>(p, IrOp::SaveAmps, st) is Ok <==> B::takes_capture(st.model),
        acted::<A, B>(p, IrOp::SaveProbs, st) is Ok <==> B::takes_capture(st.model),
        len > 0 ==> (acted::<A, B>(p, IrOp::Estimate(off, len), st) is Ok <==> off + len
            <= p.estimate_terms.len() && forall|k: int|
            off <= k < off + len ==> B::takes_pauli(st.model, (#[trigger] p.estimate_terms[k]).1)),
{
}

/// A branch on a byte that does not exist, a call of a subprogram that does not exist, and
/// running past the last op are faults of the program; without budget no op is executed.
pub proof fn law_faults_of_control<A: Copy, B: SimBackend<A>>(
    p: ProgramView<A>,
    fuel: nat,
    i: int,
    end: int,
    bindings: Seq<Option<u8>>,
    st: Machine<B::Model, A, B::Value>,
)
    requires
        0 <= i < end,
    ensures
        fuel == 0 ==> run::<A, B>(p, fuel, i, end, bindings, st) == Err::<
            Machine<B::Model, A, B::Value>,
            Fault,
        >(Fault::OutOfFuel),
        fuel > 0 && i >= p.ops.len() ==> run::<A, B>(p, fuel, i, end, bindings, st) == Err::<
            Machine<B::Model, A, B::Value>,
            Fault,
        >(Fault::Range),
        fuel > 0 && i < p.ops.len() ==> match p.ops[i] {
            IrOp::IfEq(c, _, _, _) | IrOp::IfNe(c, _, _, _) => c >= st.classical.len() ==> run::<
                A,
                B,
            >(p, fuel, i, end, bindings, st) == Err::<Machine<B::Model, A, B::Value>, Fault>(
                Fault::Classical,
            ),
            IrOp::Call(id, _, _, _) => id >= p.subs.len() ==> run::<A, B>(
                p,
                fuel,
                i,
                end,
                bindings,
                st,
            ) == Err::<Machine<B::Model, A, B::Value>, Fault>(Fault::Pool),
            _ => true,
        },
{
}

} // verus!
