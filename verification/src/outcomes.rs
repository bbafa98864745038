//! What a run records besides numbers depends on the measurement outcomes only,
//! whatever the backend.
use crate::backend::{ResultsView, SimBackend};
use crate::ir::{IrOp, ProgramView};
use crate::machine::{
    acted, bound, computed, executed, executed_shots, gate_of, grounded, is_gate, renamed_op,
    repeated, run, started, taken, tallied, unbound, Fault, Machine,
};
use vstd::prelude::*;

verus! {

/// How many results of each sort were captured.
pub struct Counts {
    pub expectations: nat,
    pub estimates: nat,
    pub states: nat,
    pub amplitudes: nat,
    pub probs: nat,
}

/// The number of results captured.
pub open spec fn counts_of<A, V>(r: ResultsView<A, V>) -> Counts {
    Counts {
        expectations: r.expectations.len(),
        estimates: r.estimates.len(),
        states: r.saved_states.len(),
        amplitudes: r.saved_amplitudes.len(),
        probs: r.saved_probs.len(),
    }
}

/// A run without its quantum part: the classical bytes, the number of results, and the
/// measurement outcomes still to come.
pub struct Ledger {
    pub classical: Seq<u8>,
    pub counts: Counts,
    pub tape: Seq<u8>,
}

/// What a machine shows of itself, with the outcomes still to come.
pub open spec fn ledger<M, A, V>(st: Machine<M, A, V>, tape: Seq<u8>) -> Ledger {
    Ledger { classical: st.classical, counts: counts_of(st.results), tape }
}

/// Whether the op measures a qubit into a classical byte, and into which.
pub open spec fn measured_byte(op: IrOp) -> Option<u8> {
    match op {
        IrOp::Measure(_, c) | IrOp::MeasureX(_, c) | IrOp::MeasureY(_, c) => Some(c),
        _ => None,
    }
}

/// Whether a run was stopped by its backend or its histogram, not by the program.
pub open spec fn interrupted<M, A, V>(r: Result<Machine<M, A, V>, Fault>) -> bool {
    r matches Err(e) && (e == Fault::Rejected || e == Fault::Histogram)
}

/// The effect of an op that is neither a branch, a repetition nor a call on a ledger: a
/// measurement takes the next outcome. `None` if the op refers to what does not exist.
#[verifier::opaque]
pub open spec fn replayed_act<A>(p: ProgramView<A>, op: IrOp, l: Ledger) -> Option<Ledger> {
    if is_gate(op) {
        if gate_of(op, p.consts) is None {
            None
        } else {
            Some(l)
        }
    } else if let Some(c) = measured_byte(op) {
        if l.tape.len() == 0 || c >= l.classical.len() {
            None
        } else {
            Some(
                Ledger {
                    classical: l.classical.update(c as int, l.tape[0]),
                    tape: l.tape.drop_first(),
                    ..l
                },
            )
        }
    } else {
        match op {
            IrOp::Reset(_) | IrOp::Print => Some(l),
            IrOp::Expect(_) => Some(
                Ledger {
                    counts: Counts { expectations: l.counts.expectations + 1, ..l.counts },
                    ..l
                },
            ),
            IrOp::Estimate(off, len) => if len > 0 && off + len > p.estimate_terms.len() {
                None
            } else {
                Some(
                    Ledger { counts: Counts { estimates: l.counts.estimates + 1, ..l.counts }, ..l },
                )
            },
            IrOp::SaveState => Some(
                Ledger { counts: Counts { states: l.counts.states + 1, ..l.counts }, ..l },
            ),
            IrOp::SaveAmps => Some(
                Ledger { counts: Counts { amplitudes: l.counts.amplitudes + 1, ..l.counts }, ..l },
            ),
            IrOp::SaveProbs => Some(
                Ledger { counts: Counts { probs: l.counts.probs + 1, ..l.counts }, ..l },
            ),
            _ => match computed(op, l.classical) {
                Some(c) => Some(Ledger { classical: c, ..l }),
                None => None,
            },
        }
    }
}

/// The ops `i..end` executed on a ledger. `None` if the program fails by itself.
pub open spec fn replayed<A>(
    p: ProgramView<A>,
    fuel: nat,
    i: int,
    end: int,
    remap: Seq<Option<u8>>,
    l: Ledger,
) -> Option<Ledger>
    decreases fuel,
{
    if i >= end {
        Some(l)
    } else if fuel == 0 || i >= p.ops.len() {
        None
    } else {
        let f = (fuel - 1) as nat;
        let op = renamed_op(p.ops[i], remap);
        match op {
            IrOp::IfEq(c, _, off, len) | IrOp::IfNe(c, _, off, len) => if c >= l.classical.len() {
                None
            } else if taken(op, l.classical) {
                match replayed(p, f, off as int, off + len, remap, l) {
                    Some(m) => replayed(p, f, off + len, end, remap, m),
                    None => None,
                }
            } else {
                replayed(p, f, off + len, end, remap, l)
            },
            IrOp::Shot(count, off, len) => {
                let (lo, hi, next) = if len == 0 {
                    (0, i, i + 1)
                } else {
                    (off as int, off + len, off + len)
                };
                match replayed_shots(p, f, count as nat, lo, hi, remap, l) {
                    Some(m) => replayed(p, f, next, end, remap, m),
                    None => None,
                }
            },
            IrOp::Call(id, a0, a1, a2) => if id >= p.subs.len() || p.subs[id as int].nparams > 3 {
                None
            } else {
                let sub = p.subs[id as int];
                match replayed(
                    p,
                    f,
                    sub.off as int,
                    sub.off + sub.len,
                    bound(sub.nparams, a0, a1, a2),
                    l,
                ) {
                    Some(m) => replayed(p, f, i + 1, end, remap, m),
                    None => None,
                }
            },
            _ => match replayed_act(p, op, l) {
                Some(m) => replayed(p, f, i + 1, end, remap, m),
                None => None,
            },
        }
    }
}

/// The ops `lo..hi` executed `count` times on a ledger.
pub open spec fn replayed_shots<A>(
    p: ProgramView<A>,
    fuel: nat,
    count: nat,
    lo: int,
    hi: int,
    remap: Seq<Option<u8>>,
    l: Ledger,
) -> Option<Ledger>
    decreases fuel,
{
    if count == 0 {
        Some(l)
    } else if fuel == 0 {
        None
    } else {
        let f = (fuel - 1) as nat;
        match replayed(p, f, lo, hi, remap, l) {
            Some(m) => replayed_shots(p, f, (count - 1) as nat, lo, hi, remap, m),
            None => None,
        }
    }
}

/// The outcome that an op records, if it records one.
#[verifier::opaque]
pub open spec fn outcome_of<A: Copy, B: SimBackend<A>>(
    op: IrOp,
    before: Machine<B::Model, A, B::Value>,
    after: Machine<B::Model, A, B::Value>,
) -> Seq<u8> {
    match measured_byte(op) {
        Some(c) => seq![after.classical[c as int]],
        None => Seq::empty(),
    }
}

/// The measurement outcomes of a run, in order, as far as it gets.
pub open spec fn outcomes<A: Copy, B: SimBackend<A>>(
    p: ProgramView<A>,
    fuel: nat,
    i: int,
    end: int,
    remap: Seq<Option<u8>>,
    st: Machine<B::Model, A, B::Value>,
) -> Seq<u8>
    decreases fuel,
{
    if i >= end || fuel == 0 || i >= p.ops.len() {
        Seq::empty()
    } else {
        let f = (fuel - 1) as nat;
        let op = renamed_op(p.ops[i], remap);
        match op {
            IrOp::IfEq(_, _, off, len) | IrOp::IfNe(_, _, off, len) => if taken(
                op,
                st.classical,
            ) {
                let first = outcomes::<A, B>(p, f, off as int, off + len, remap, st);
                match run::<A, B>(p, f, off as int, off + len, remap, st) {
                    Ok(s) => first + outcomes::<A, B>(p, f, off + len, end, remap, s),
                    Err(_) => first,
                }
            } else {
                outcomes::<A, B>(p, f, off + len, end, remap, st)
            },
            IrOp::Shot(count, off, len) => {
                let (lo, hi, next) = if len == 0 {
                    (0, i, i + 1)
                } else {
                    (off as int, off + len, off + len)
                };
                let first = outcomes_of_shots::<A, B>(p, f, count as nat, lo, hi, remap, st);
                match repeated::<A, B>(p, f, count as nat, lo, hi, remap, st) {
                    Ok(s) => first + outcomes::<A, B>(p, f, next, end, remap, s),
                    Err(_) => first,
                }
            },
            IrOp::Call(id, a0, a1, a2) => {
                let sub = p.subs[id as int];
                let (lo, hi) = (sub.off as int, sub.off + sub.len);
                let inner = bound(sub.nparams, a0, a1, a2);
                let first = outcomes::<A, B>(p, f, lo, hi, inner, st);
                match run::<A, B>(p, f, lo, hi, inner, st) {
                    Ok(s) => first + outcomes::<A, B>(p, f, i + 1, end, remap, s),
                    Err(_) => first,
                }
            },
            _ => match acted::<A, B>(p, op, st) {
                Ok(s) => outcome_of::<A, B>(op, st, s) + outcomes::<A, B>(
                    p,
                    f,
                    i + 1,
                    end,
                    remap,
                    s,
                ),
                Err(_) => Seq::empty(),
            },
        }
    }
}

/// The measurement outcomes of a repetition, in order.
pub open spec fn outcomes_of_shots<A: Copy, B: SimBackend<A>>(
    p: ProgramView<A>,
    fuel: nat,
    count: nat,
    lo: int,
    hi: int,
    remap: Seq<Option<u8>>,
    st: Machine<B::Model, A, B::Value>,
) -> Seq<u8>
    decreases fuel,
{
    if count == 0 || fuel == 0 {
        Seq::empty()
    } else {
        let f = (fuel - 1) as nat;
        let g = grounded::<A, B>(st);
        let first = outcomes::<A, B>(p, f, lo, hi, remap, g);
        match run::<A, B>(p, f, lo, hi, remap, g) {
            Ok(s) => match tallied::<A, B>(s) {
                Ok(t) => first + outcomes_of_shots::<A, B>(
                    p,
                    f,
                    (count - 1) as nat,
                    lo,
                    hi,
                    remap,
                    t,
                ),
                Err(_) => first,
            },
            Err(_) => first,
        }
    }
}

proof fn lemma_act_replays<A: Copy, B: SimBackend<A>>(
    p: ProgramView<A>,
    op: IrOp,
    st: Machine<B::Model, A, B::Value>,
    z: Seq<u8>,
)
    requires
        !interrupted(acted::<A, B>(p, op, st)),
    ensures
        match acted::<A, B>(p, op, st) {
            Ok(s) => replayed_act(p, op, ledger(st, outcome_of::<A, B>(op, st, s) + z)) == Some(
                ledger(s, z),
            ),
            Err(_) => replayed_act(p, op, ledger(st, z)) is None,
        },
{
    reveal(replayed_act);
    reveal(outcome_of);
    if let Ok(s) = acted::<A, B>(p, op, st) {
        let tape = outcome_of::<A, B>(op, st, s) + z;
        if let Some(c) = measured_byte(op) {
            assert(tape.drop_first() =~= z);
            assert(st.classical.update(c as int, tape[0]) =~= s.classical);
        } else {
            assert(tape =~= z);
        }
    }
}

/// Whether a replay ends as the run does.
spec fn follows<M, A, V>(
    replay: Option<Ledger>,
    r: Result<Machine<M, A, V>, Fault>,
    z: Seq<u8>,
) -> bool {
    match r {
        Ok(s) => replay == Some(ledger(s, z)),
        Err(_) => replay is None,
    }
}

#[verifier::spinoff_prover]
proof fn lemma_branch_replays<A: Copy, B: SimBackend<A>>(
    p: ProgramView<A>,
    fuel: nat,
    i: int,
    end: int,
    remap: Seq<Option<u8>>,
    st: Machine<B::Model, A, B::Value>,
    z: Seq<u8>,
)
    requires
        i < end,
        fuel > 0,
        i < p.ops.len(),
        renamed_op(p.ops[i], remap) is IfEq || renamed_op(p.ops[i], remap) is IfNe,
        !interrupted(run::<A, B>(p, fuel, i, end, remap, st)),
    ensures
        follows(
            replayed(
                p,
                fuel,
                i,
                end,
                remap,
                ledger(st, outcomes::<A, B>(p, fuel, i, end, remap, st) + z),
            ),
            run::<A, B>(p, fuel, i, end, remap, st),
            z,
        ),
    decreases fuel, 0int,
{
    let all = outcomes::<A, B>(p, fuel, i, end, remap, st);
    let f = (fuel - 1) as nat;
    let op = renamed_op(p.ops[i], remap);
    let (c, lo, hi) = match op {
        IrOp::IfEq(c, _, off, len) | IrOp::IfNe(c, _, off, len) => (c, off as int, off + len),
        _ => (0, 0, 0),
    };
    if c >= st.classical.len() {
    } else if taken(op, st.classical) {
        let first = outcomes::<A, B>(p, f, lo, hi, remap, st);
        match run::<A, B>(p, f, lo, hi, remap, st) {
            Ok(s) => {
                let rest = outcomes::<A, B>(p, f, hi, end, remap, s);
                assert(all + z =~= first + (rest + z));
                lemma_run_replays::<A, B>(p, f, lo, hi, remap, st, rest + z);
                lemma_run_replays::<A, B>(p, f, hi, end, remap, s, z);
            },
            Err(_) => lemma_run_replays::<A, B>(p, f, lo, hi, remap, st, z),
        }
    } else {
        lemma_run_replays::<A, B>(p, f, hi, end, remap, st, z);
    }
}

#[verifier::spinoff_prover]
proof fn lemma_shot_replays<A: Copy, B: SimBackend<A>>(
    p: ProgramView<A>,
    fuel: nat,
    i: int,
    end: int,
    remap: Seq<Option<u8>>,
    st: Machine<B::Model, A, B::Value>,
    z: Seq<u8>,
)
    requires
        i < end,
        fuel > 0,
        i < p.ops.len(),
        renamed_op(p.ops[i], remap) is Shot,
        !interrupted(run::<A, B>(p, fuel, i, end, remap, st)),
    ensures
        follows(
            replayed(
                p,
                fuel,
                i,
                end,
                remap,
                ledger(st, outcomes::<A, B>(p, fuel, i, end, remap, st) + z),
            ),
            run::<A, B>(p, fuel, i, end, remap, st),
            z,
        ),
    decreases fuel, 0int,
{
    let all = outcomes::<A, B>(p, fuel, i, end, remap, st);
    let f = (fuel - 1) as nat;
    let op = renamed_op(p.ops[i], remap);
    if let IrOp::Shot(count, off, len) = op {
        let (lo, hi, next) = if len == 0 {
            (0, i, i + 1)
        } else {
            (off as int, off + len, off + len)
        };
        let n = count as nat;
        let first = outcomes_of_shots::<A, B>(p, f, n, lo, hi, remap, st);
        match repeated::<A, B>(p, f, n, lo, hi, remap, st) {
            Ok(s) => {
                let rest = outcomes::<A, B>(p, f, next, end, remap, s);
                assert(all + z =~= first + (rest + z));
                lemma_shots_replay::<A, B>(p, f, n, lo, hi, remap, st, rest + z);
                lemma_run_replays::<A, B>(p, f, next, end, remap, s, z);
            },
            Err(_) => lemma_shots_replay::<A, B>(p, f, n, lo, hi, remap, st, z),
        }
    }
}

#[verifier::spinoff_prover]
proof fn lemma_call_replays<A: Copy, B: SimBackend<A>>(
    p: ProgramView<A>,
    fuel: nat,
    i: int,
    end: int,
    remap: Seq<Option<u8>>,
    st: Machine<B::Model, A, B::Value>,
    z: Seq<u8>,
)
    requires
        i < end,
        fuel > 0,
        i < p.ops.len(),
        renamed_op(p.ops[i], remap) is Call,
        !interrupted(run::<A, B>(p, fuel, i, end, remap, st)),
    ensures
        follows(
            replayed(
                p,
                fuel,
                i,
                end,
                remap,
                ledger(st, outcomes::<A, B>(p, fuel, i, end, remap, st) + z),
            ),
            run::<A, B>(p, fuel, i, end, remap, st),
            z,
        ),
    decreases fuel, 0int,
{
    let all = outcomes::<A, B>(p, fuel, i, end, remap, st);
    let f = (fuel - 1) as nat;
    let op = renamed_op(p.ops[i], remap);
    if let IrOp::Call(id, a0, a1, a2) = op {
        if id < p.subs.len() && p.subs[id as int].nparams <= 3 {
            let sub = p.subs[id as int];
            let (lo, hi) = (sub.off as int, sub.off + sub.len);
            let inner = bound(sub.nparams, a0, a1, a2);
            let first = outcomes::<A, B>(p, f, lo, hi, inner, st);
            match run::<A, B>(p, f, lo, hi, inner, st) {
                Ok(s) => {
                    let rest = outcomes::<A, B>(p, f, i + 1, end, remap, s);
                    assert(all + z =~= first + (rest + z));
                    lemma_run_replays::<A, B>(p, f, lo, hi, inner, st, rest + z);
                    lemma_run_replays::<A, B>(p, f, i + 1, end, remap, s, z);
                },
                Err(_) => lemma_run_replays::<A, B>(p, f, lo, hi, inner, st, z),
            }
        }
    }
}

#[verifier::spinoff_prover]
proof fn lemma_act_step_replays<A: Copy, B: SimBackend<A>>(
    p: ProgramView<A>,
    fuel: nat,
    i: int,
    end: int,
    remap: Seq<Option<u8>>,
    st: Machine<B::Model, A, B::Value>,
    z: Seq<u8>,
)
    requires
        i < end,
        fuel > 0,
        i < p.ops.len(),
        !(renamed_op(p.ops[i], remap) is IfEq),
        !(renamed_op(p.ops[i], remap) is IfNe),
        !(renamed_op(p.ops[i], remap) is Shot),
        !(renamed_op(p.ops[i], remap) is Call),
        !interrupted(run::<A, B>(p, fuel, i, end, remap, st)),
    ensures
        follows(
            replayed(
                p,
                fuel,
                i,
                end,
                remap,
                ledger(st, outcomes::<A, B>(p, fuel, i, end, remap, st) + z),
            ),
            run::<A, B>(p, fuel, i, end, remap, st),
            z,
        ),
    decreases fuel, 0int,
{
    let all = outcomes::<A, B>(p, fuel, i, end, remap, st);
    let f = (fuel - 1) as nat;
    let op = renamed_op(p.ops[i], remap);
    match acted::<A, B>(p, op, st) {
        Ok(s) => {
            let first = outcome_of::<A, B>(op, st, s);
            let rest = outcomes::<A, B>(p, f, i + 1, end, remap, s);
            assert(all + z =~= first + (rest + z));
            lemma_act_replays::<A, B>(p, op, st, rest + z);
            lemma_run_replays::<A, B>(p, f, i + 1, end, remap, s, z);
        },
        Err(_) => {
            assert(all + z =~= z);
            lemma_act_replays::<A, B>(p, op, st, z);
        },
    }
}

#[verifier::spinoff_prover]
proof fn lemma_run_replays<A: Copy, B: SimBackend<A>>(
    p: ProgramView<A>,
    fuel: nat,
    i: int,
    end: int,
    remap: Seq<Option<u8>>,
    st: Machine<B::Model, A, B::Value>,
    z: Seq<u8>,
)
    requires
        !interrupted(run::<A, B>(p, fuel, i, end, remap, st)),
    ensures
        follows(
            replayed(
                p,
                fuel,
                i,
                end,
                remap,
                ledger(st, outcomes::<A, B>(p, fuel, i, end, remap, st) + z),
            ),
            run::<A, B>(p, fuel, i, end, remap, st),
            z,
        ),
    decreases fuel, 1int,
{
    if i >= end {
        assert(outcomes::<A, B>(p, fuel, i, end, remap, st) + z =~= z);
    } else if fuel > 0 && i < p.ops.len() {
        let op = renamed_op(p.ops[i], remap);
        if op is IfEq || op is IfNe {
            lemma_branch_replays::<A, B>(p, fuel, i, end, remap, st, z);
        } else if op is Shot {
            lemma_shot_replays::<A, B>(p, fuel, i, end, remap, st, z);
        } else if op is Call {
            lemma_call_replays::<A, B>(p, fuel, i, end, remap, st, z);
        } else {
            lemma_act_step_replays::<A, B>(p, fuel, i, end, remap, st, z);
        }
    }
}

proof fn lemma_shots_replay<A: Copy, B: SimBackend<A>>(
    p: ProgramView<A>,
    fuel: nat,
    count: nat,
    lo: int,
    hi: int,
    remap: Seq<Option<u8>>,
    st: Machine<B::Model, A, B::Value>,
    z: Seq<u8>,
)
    requires
        !interrupted(repeated::<A, B>(p, fuel, count, lo, hi, remap, st)),
    ensures
        follows(
            replayed_shots(
                p,
                fuel,
                count,
                lo,
                hi,
                remap,
                ledger(st, outcomes_of_shots::<A, B>(p, fuel, count, lo, hi, remap, st) + z),
            ),
            repeated::<A, B>(p, fuel, count, lo, hi, remap, st),
            z,
        ),
    decreases fuel, 0int,
{
    let all = outcomes_of_shots::<A, B>(p, fuel, count, lo, hi, remap, st);
    if count == 0 {
        assert(all + z =~= z);
    } else if fuel > 0 {
        let f = (fuel - 1) as nat;
        let g = grounded::<A, B>(st);
        let first = outcomes::<A, B>(p, f, lo, hi, remap, g);
        match run::<A, B>(p, f, lo, hi, remap, g) {
            Ok(s) => {
                let t = tallied::<A, B>(s)->Ok_0;
                let rest = outcomes_of_shots::<A, B>(p, f, (count - 1) as nat, lo, hi, remap, t);
                assert(all + z =~= first + (rest + z));
                lemma_run_replays::<A, B>(p, f, lo, hi, remap, g, rest + z);
                lemma_shots_replay::<A, B>(p, f, (count - 1) as nat, lo, hi, remap, t, z);
            },
            Err(_) => lemma_run_replays::<A, B>(p, f, lo, hi, remap, g, z),
        }
    }
}

/// Two backends that execute the same ops from the same classical bytes, with the same
/// operands bound and the same measurement outcomes, end with the same classical bytes
/// and with as many results of each sort: classical computation, branches and captures
/// do not depend on the backend. If one of them ends well, so does the other, unless it
/// rejects an op or its histogram lacks room.
pub proof fn law_equal_outcomes_give_equal_steps<A: Copy, B: SimBackend<A>, C: SimBackend<A>>(
    p: ProgramView<A>,
    fuel: nat,
    i: int,
    end: int,
    remap: Seq<Option<u8>>,
    b: Machine<B::Model, A, B::Value>,
    c: Machine<C::Model, A, C::Value>,
)
    requires
        b.classical == c.classical,
        counts_of(b.results) == counts_of(c.results),
        run::<A, B>(p, fuel, i, end, remap, b) is Ok,
        !interrupted(run::<A, C>(p, fuel, i, end, remap, c)),
        outcomes::<A, B>(p, fuel, i, end, remap, b) == outcomes::<A, C>(
            p,
            fuel,
            i,
            end,
            remap,
            c,
        ),
    ensures
        run::<A, C>(p, fuel, i, end, remap, c) is Ok,
        run::<A, B>(p, fuel, i, end, remap, b)->Ok_0.classical == run::<A, C>(
            p,
            fuel,
            i,
            end,
            remap,
            c,
        )->Ok_0.classical,
        counts_of(run::<A, B>(p, fuel, i, end, remap, b)->Ok_0.results) == counts_of(
            run::<A, C>(p, fuel, i, end, remap, c)->Ok_0.results,
        ),
{
    let z = Seq::<u8>::empty();
    lemma_run_replays::<A, B>(p, fuel, i, end, remap, b, z);
    lemma_run_replays::<A, C>(p, fuel, i, end, remap, c, z);
}

/// Two backends on which a program meets the same measurement outcomes end with the
/// same classical bytes and with as many results of each sort. If one of them ends well,
/// so does the other, unless it rejects an op or its histogram lacks room.
pub proof fn law_equal_outcomes_give_equal_records<A: Copy, B: SimBackend<A>, C: SimBackend<A>>(
    p: ProgramView<A>,
    fuel: nat,
    b: Machine<B::Model, A, B::Value>,
    c: Machine<C::Model, A, C::Value>,
)
    requires
        b.classical.len() == c.classical.len(),
        counts_of(b.results) == counts_of(c.results),
        executed::<A, B>(p, fuel, b) is Ok,
        !interrupted(executed::<A, C>(p, fuel, c)),
        outcomes::<A, B>(p, fuel, 0, p.len as int, unbound(), started(b)) == outcomes::<A, C>(
            p,
            fuel,
            0,
            p.len as int,
            unbound(),
            started(c),
        ),
    ensures
        executed::<A, C>(p, fuel, c) is Ok,
        executed::<A, B>(p, fuel, b)->Ok_0.classical == executed::<A, C>(
            p,
            fuel,
            c,
        )->Ok_0.classical,
        counts_of(executed::<A, B>(p, fuel, b)->Ok_0.results) == counts_of(
            executed::<A, C>(p, fuel, c)->Ok_0.results,
        ),
{
    let n = p.len as int;
    assert(started(b).classical =~= started(c).classical);
    law_equal_outcomes_give_equal_steps::<A, B, C>(
        p,
        fuel,
        0,
        n,
        unbound(),
        started(b),
        started(c),
    );
}

/// The same for a program executed a number of times.
pub proof fn law_equal_outcomes_give_equal_records_in_shots<
    A: Copy,
    B: SimBackend<A>,
    C: SimBackend<A>,
>(
    p: ProgramView<A>,
    fuel: nat,
    shots: nat,
    b: Machine<B::Model, A, B::Value>,
    c: Machine<C::Model, A, C::Value>,
)
    requires
        b.classical.len() == c.classical.len(),
        counts_of(b.results) == counts_of(c.results),
        executed_shots::<A, B>(p, fuel, shots, b) is Ok,
        !interrupted(executed_shots::<A, C>(p, fuel, shots, c)),
        outcomes_of_shots::<A, B>(p, fuel, shots, 0, p.len as int, unbound(), started(b))
            == outcomes_of_shots::<A, C>(
            p,
            fuel,
            shots,
            0,
            p.len as int,
            unbound(),
            started(c),
        ),
    ensures
        executed_shots::<A, C>(p, fuel, shots, c) is Ok,
        executed_shots::<A, B>(p, fuel, shots, b)->Ok_0.classical == executed_shots::<A, C>(
            p,
            fuel,
            shots,
            c,
        )->Ok_0.classical,
        counts_of(executed_shots::<A, B>(p, fuel, shots, b)->Ok_0.results) == counts_of(
            executed_shots::<A, C>(p, fuel, shots, c)->Ok_0.results,
        ),
{
    let z = Seq::<u8>::empty();
    lemma_shots_replay::<A, B>(p, fuel, shots, 0, p.len as int, unbound(), started(b), z);
    lemma_shots_replay::<A, C>(p, fuel, shots, 0, p.len as int, unbound(), started(c), z);
    assert(started(b).classical =~= started(c).classical);
}

} // verus!
