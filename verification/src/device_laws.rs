//! Sampling from one state gives what repeated execution gives.
use crate::backend::{Gate, SimBackend};
use crate::device::{
    batchable, disturbs, drawn, executed_batch, executed_device, last_shot, pure, record_of,
    records, region_of, shot_count, shot_region, MegaView,
};
use crate::grammar::Lowered;
use crate::ir::{IrOp, Program, ProgramView, Sub};
use crate::lexer::Literal;
use crate::machine::{
    acted, bound, executed, executed_shots, gate_of, grounded, is_gate, renamed_op, repeated, run,
    started, tallied, unbound, Fault, Machine,
};
use crate::parser::spells;
use crate::safety::{lemma_tally_counts, total};
use crate::wellformed::{body_of, has_shot, nested, op_ok, well_formed};
use vstd::prelude::*;

verus! {

/// A backend without noise that keeps its state when sampled and whose all-zero
/// state depends on its size only.
pub open spec fn steady<A: Copy, B: SimBackend<A>>() -> bool {
    &&& forall|m: B::Model, q: u8, seed: u64| #[trigger] B::noisy(m, q, seed) == (m, seed)
    &&& forall|m: B::Model, seed: u64| (#[trigger] B::sampled(m, seed)).0 == m
    &&& forall|m: B::Model, g: Gate<A>| B::ground(#[trigger] B::evolved(m, g)) == B::ground(m)
    &&& forall|m: B::Model| B::ground(#[trigger] B::ground(m)) == B::ground(m)
}

/// A program whose calls go to its subprograms, which stand behind the main region,
/// and whose repetitions stand in front of their bodies.
pub open spec fn laid_out<A>(p: ProgramView<A>) -> bool {
    &&& p.len <= p.sub_len <= p.ops.len()
    &&& p.num_subs <= p.subs.len()
    &&& forall|i: int|
        0 <= i < p.sub_len ==> (#[trigger] p.ops[i] matches IrOp::Call(id, _, _, _) ==> id
            < p.num_subs)
    &&& forall|k: int|
        0 <= k < p.num_subs ==> p.len <= (#[trigger] p.subs[k]).off && p.subs[k].off
            + p.subs[k].len <= p.sub_len
    &&& forall|i: int|
        0 <= i < p.len ==> (#[trigger] p.ops[i] matches IrOp::Shot(_, off, len) ==> len > 0
            ==> off == i + 1 && off + len <= p.len)
}

/// Whether no repetition stands in `ops[lo..hi]`.
pub open spec fn shotless(ops: Seq<IrOp>, lo: int, hi: int) -> bool {
    forall|j: int| lo <= j < hi ==> !(#[trigger] ops[j] is Shot)
}

/// Two machines with the same quantum state and as many classical bytes.
spec fn alike<M, A, V>(a: Machine<M, A, V>, b: Machine<M, A, V>) -> bool {
    a.model == b.model && a.classical.len() == b.classical.len()
}

/// A machine that has drawn and counted nothing since `a`.
spec fn undrawn<A: Copy, B: SimBackend<A>>(
    a: Machine<B::Model, A, B::Value>,
    b: Machine<B::Model, A, B::Value>,
) -> bool {
    &&& b.seed == a.seed
    &&& b.histogram == a.histogram
    &&& b.classical.len() == a.classical.len()
    &&& B::ground(b.model) == B::ground(a.model)
}

proof fn lemma_quiet_step<A: Copy, B: SimBackend<A>>(
    p: ProgramView<A>,
    op: IrOp,
    s1: Machine<B::Model, A, B::Value>,
    s2: Machine<B::Model, A, B::Value>,
)
    requires
        steady::<A, B>(),
        !disturbs(op),
        !(op is Shot),
        !(op is Call),
        alike(s1, s2),
        acted::<A, B>(p, op, s1) is Ok,
    ensures
        acted::<A, B>(p, op, s2) is Ok,
        alike(acted::<A, B>(p, op, s1)->Ok_0, acted::<A, B>(p, op, s2)->Ok_0),
        undrawn::<A, B>(s1, acted::<A, B>(p, op, s1)->Ok_0),
        undrawn::<A, B>(s2, acted::<A, B>(p, op, s2)->Ok_0),
{
}

/// A run without measurements, branches and repetitions depends on the quantum
/// state only and draws nothing.
proof fn lemma_quiet_run<A: Copy, B: SimBackend<A>>(
    p: ProgramView<A>,
    f1: nat,
    f2: nat,
    i: int,
    end: int,
    remap: Seq<Option<u8>>,
    s1: Machine<B::Model, A, B::Value>,
    s2: Machine<B::Model, A, B::Value>,
)
    requires
        steady::<A, B>(),
        laid_out(p),
        pure(p),
        shotless(p.ops, p.len as int, p.sub_len as int),
        0 <= i,
        end <= p.sub_len,
        shotless(p.ops, i, end),
        f1 <= f2,
        alike(s1, s2),
        run::<A, B>(p, f1, i, end, remap, s1) is Ok,
    ensures
        run::<A, B>(p, f2, i, end, remap, s2) is Ok,
        alike(
            run::<A, B>(p, f1, i, end, remap, s1)->Ok_0,
            run::<A, B>(p, f2, i, end, remap, s2)->Ok_0,
        ),
        undrawn::<A, B>(s1, run::<A, B>(p, f1, i, end, remap, s1)->Ok_0),
        undrawn::<A, B>(s2, run::<A, B>(p, f2, i, end, remap, s2)->Ok_0),
    decreases f1,
{
    if i < end {
        let g1 = (f1 - 1) as nat;
        let g2 = (f2 - 1) as nat;
        let raw = p.ops[i];
        let op = renamed_op(raw, remap);
        assert(!disturbs(raw) && !(raw is Shot));
        assert(!disturbs(op) && !(op is Shot));
        match op {
            IrOp::Call(id, a0, a1, a2) => {
                assert(raw is Call);
                let sub = p.subs[id as int];
                let (lo, hi) = (sub.off as int, sub.off + sub.len);
                let inner = bound(sub.nparams, a0, a1, a2);
                lemma_quiet_run::<A, B>(p, g1, g2, lo, hi, inner, s1, s2);
                let t1 = run::<A, B>(p, g1, lo, hi, inner, s1)->Ok_0;
                let t2 = run::<A, B>(p, g2, lo, hi, inner, s2)->Ok_0;
                lemma_quiet_run::<A, B>(p, g1, g2, i + 1, end, remap, t1, t2);
            },
            _ => {
                lemma_quiet_step::<A, B>(p, op, s1, s2);
                let t1 = acted::<A, B>(p, op, s1)->Ok_0;
                let t2 = acted::<A, B>(p, op, s2)->Ok_0;
                lemma_quiet_run::<A, B>(p, g1, g2, i + 1, end, remap, t1, t2);
            },
        }
    }
}

/// Repeating a quiet region draws what sampling its final state draws.
proof fn lemma_repeats_draw<A: Copy, B: SimBackend<A>>(
    p: ProgramView<A>,
    f: nat,
    count: nat,
    lo: int,
    hi: int,
    s: Machine<B::Model, A, B::Value>,
    fr: nat,
    g: Machine<B::Model, A, B::Value>,
    d: Machine<B::Model, A, B::Value>,
)
    requires
        steady::<A, B>(),
        laid_out(p),
        pure(p),
        shotless(p.ops, p.len as int, p.sub_len as int),
        0 <= lo,
        hi <= p.sub_len,
        shotless(p.ops, lo, hi),
        repeated::<A, B>(p, f, count, lo, hi, unbound(), s) is Ok,
        f <= fr,
        g.model == B::ground(s.model),
        g.classical.len() == s.classical.len(),
        run::<A, B>(p, fr, lo, hi, unbound(), g) is Ok,
        d.model == run::<A, B>(p, fr, lo, hi, unbound(), g)->Ok_0.model,
        d.seed == s.seed,
        d.histogram == s.histogram,
    ensures
        drawn::<A, B>(count, d) is Ok,
        drawn::<A, B>(count, d)->Ok_0.seed == repeated::<A, B>(
            p,
            f,
            count,
            lo,
            hi,
            unbound(),
            s,
        )->Ok_0.seed,
        drawn::<A, B>(count, d)->Ok_0.histogram == repeated::<A, B>(
            p,
            f,
            count,
            lo,
            hi,
            unbound(),
            s,
        )->Ok_0.histogram,
    decreases count,
{
    if count > 0 {
        let h = (f - 1) as nat;
        let start = grounded::<A, B>(s);
        lemma_quiet_run::<A, B>(p, h, fr, lo, hi, unbound(), start, g);
        let s1 = run::<A, B>(p, h, lo, hi, unbound(), start)->Ok_0;
        let t1 = tallied::<A, B>(s1)->Ok_0;
        let d1 = tallied::<A, B>(d)->Ok_0;
        lemma_repeats_draw::<A, B>(p, h, (count - 1) as nat, lo, hi, t1, fr, g, d1);
    }
}

/// Where the only repetition of a program stands.
proof fn lemma_lone_shot(ops: Seq<IrOp>, n: nat) -> (pos: int)
    requires
        shot_count(ops, n) <= 1,
    ensures
        shot_count(ops, n) == 0 ==> shotless(ops, 0, n as int),
        shot_count(ops, n) == 1 ==> {
            &&& 0 <= pos < n
            &&& ops[pos] is Shot
            &&& last_shot(ops, n) == shot_region(pos, ops[pos])
            &&& shotless(ops, 0, pos)
            &&& shotless(ops, pos + 1, n as int)
        },
    decreases n,
{
    if n == 0 {
        0
    } else {
        let pos = lemma_lone_shot(ops, (n - 1) as nat);
        if ops[n - 1] is Shot {
            n - 1
        } else {
            pos
        }
    }
}

/// A run over the only repetition draws what the repetition draws.
proof fn lemma_only_shot_draws<A: Copy, B: SimBackend<A>>(
    p: ProgramView<A>,
    f: nat,
    i: int,
    pos: int,
    lo: int,
    hi: int,
    s: Machine<B::Model, A, B::Value>,
) -> (r: (nat, Machine<B::Model, A, B::Value>))
    requires
        steady::<A, B>(),
        laid_out(p),
        pure(p),
        shotless(p.ops, p.len as int, p.sub_len as int),
        0 <= i <= pos < p.len,
        p.ops[pos] is Shot,
        shotless(p.ops, 0, pos),
        shotless(p.ops, pos + 1, p.len as int),
        p.ops[pos] matches IrOp::Shot(_, off, len) && (lo, hi) == if len == 0 {
            (0, pos)
        } else {
            (off as int, off + len)
        },
        run::<A, B>(p, f, i, p.len as int, unbound(), s) is Ok,
    ensures
        r.0 < f,
        undrawn::<A, B>(s, r.1),
        p.ops[pos] matches IrOp::Shot(count, _, _) && repeated::<A, B>(
            p,
            r.0,
            count as nat,
            lo,
            hi,
            unbound(),
            r.1,
        ) matches Ok(t) && t.seed == run::<A, B>(
            p,
            f,
            i,
            p.len as int,
            unbound(),
            s,
        )->Ok_0.seed && t.histogram == run::<A, B>(
            p,
            f,
            i,
            p.len as int,
            unbound(),
            s,
        )->Ok_0.histogram,
    decreases f,
{
    let g = (f - 1) as nat;
    let end = p.len as int;
    let raw = p.ops[i];
    let op = renamed_op(raw, unbound());
    if i == pos {
        match raw {
            IrOp::Shot(count, off, len) => {
                assert(op == raw);
                let t = repeated::<A, B>(p, g, count as nat, lo, hi, unbound(), s)->Ok_0;
                let next = if len == 0 {
                    i + 1
                } else {
                    hi
                };
                lemma_quiet_run::<A, B>(p, g, g, next, end, unbound(), t, t);
            },
            _ => {},
        }
        (g, s)
    } else {
        assert(!disturbs(raw) && !(raw is Shot));
        assert(!disturbs(op) && !(op is Shot));
        match op {
            IrOp::Call(id, a0, a1, a2) => {
                assert(raw is Call);
                let sub = p.subs[id as int];
                let (b, e) = (sub.off as int, sub.off + sub.len);
                let inner = bound(sub.nparams, a0, a1, a2);
                lemma_quiet_run::<A, B>(p, g, g, b, e, inner, s, s);
                let t = run::<A, B>(p, g, b, e, inner, s)->Ok_0;
                lemma_only_shot_draws::<A, B>(p, g, i + 1, pos, lo, hi, t)
            },
            _ => {
                lemma_quiet_step::<A, B>(p, op, s, s);
                let t = acted::<A, B>(p, op, s)->Ok_0;
                lemma_only_shot_draws::<A, B>(p, g, i + 1, pos, lo, hi, t)
            },
        }
    }
}

proof fn lemma_body_follows(ops: Seq<IrOp>, lo: int, hi: int, i: int)
    requires
        nested(ops, lo, hi),
        lo <= i < hi,
    ensures
        body_of(ops[i]) matches Some((b, e)) ==> b == i + 1 && e <= hi,
    decreases hi - lo,
{
    if i > lo {
        match body_of(ops[lo]) {
            Some((b, e)) => {
                if i < e {
                    lemma_body_follows(ops, b, e, i);
                } else {
                    lemma_body_follows(ops, e, hi, i);
                }
            },
            None => {
                lemma_body_follows(ops, lo + 1, hi, i);
            },
        }
    }
}

proof fn lemma_shot_counted(ops: Seq<IrOp>, n: nat)
    ensures
        shot_count(ops, n) > 0 <==> exists|i: int| 0 <= i < n && #[trigger] ops[i] is Shot,
    decreases n,
{
    if n > 0 {
        lemma_shot_counted(ops, (n - 1) as nat);
        if ops[n - 1] is Shot {
            assert(0 <= n - 1 < n && ops[n - 1] is Shot);
        }
    }
}

/// Accepted programs are laid out this way, and the flag of a batchable one says
/// whether a repetition stands in its main region.
pub proof fn law_well_formed_programs_are_laid_out(prog: Program<Literal>, l: Lowered)
    requires
        well_formed(l),
        spells(prog, l),
    ensures
        laid_out(prog@),
        batchable(prog@) ==> (prog@.has_explicit_shot <==> shot_count(prog@.ops, prog@.len as nat)
            > 0),
{
    let p = prog@;
    let params = l.subs.map_values(|s: Sub| s.nparams);
    assert forall|i: int| 0 <= i < p.sub_len implies #[trigger] p.ops[i] == l.ops[i] && op_ok(
        l.ops[i],
        l.num_qubits,
        l.consts.len(),
        l.terms.len(),
        params,
    ) by {
        assert(l.ops[i] == p.ops[i]);
    }
    assert forall|k: int| 0 <= k < p.num_subs implies p.len <= (#[trigger] p.subs[k]).off
        && p.subs[k].off + p.subs[k].len <= p.sub_len by {
        assert(l.subs[k] == p.subs[k]);
    }
    assert forall|i: int| 0 <= i < p.len implies (#[trigger] p.ops[i] matches IrOp::Shot(
        _,
        off,
        len,
    ) ==> len > 0 ==> off == i + 1 && off + len <= p.len) by {
        lemma_body_follows(l.ops, 0, l.len as int, i);
    }
    lemma_shot_counted(p.ops, p.len as nat);
    if batchable(p) && has_shot(l.ops) {
        let i = choose|i: int| 0 <= i < l.ops.len() && #[trigger] l.ops[i] is Shot;
        assert(p.ops[i] is Shot);
    }
    if shot_count(p.ops, p.len as nat) > 0 {
        let i = choose|i: int| 0 <= i < p.len && #[trigger] p.ops[i] is Shot;
        assert(l.ops[i] is Shot);
    }
}

/// The state that repeated or single execution of a program leads to.
pub open spec fn executed_plainly<A: Copy, B: SimBackend<A>>(
    p: ProgramView<A>,
    fuel: nat,
    shots: Option<u32>,
    st: Machine<B::Model, A, B::Value>,
) -> Result<Machine<B::Model, A, B::Value>, Fault> {
    if shots is Some && !p.has_explicit_shot {
        executed_shots::<A, B>(p, fuel, shots->0 as nat, st)
    } else {
        executed::<A, B>(p, fuel, grounded::<A, B>(st))
    }
}

/// Running the region of a batchable program once and drawing all samples from the
/// state it leads to gives the histogram of the general execution and leaves the
/// generator in the same state, on a steady backend, if any sample is asked for.
pub proof fn law_batch_agrees<A: Copy, B: SimBackend<A>>(
    p: ProgramView<A>,
    fuel: nat,
    shots: Option<u32>,
    st: Machine<B::Model, A, B::Value>,
)
    requires
        steady::<A, B>(),
        laid_out(p),
        batchable(p),
        p.has_explicit_shot <==> shot_count(p.ops, p.len as nat) > 0,
        region_of(p, shots) matches Some(r) ==> r.samples > 0,
        executed_plainly::<A, B>(p, fuel, shots, st) is Ok,
    ensures
        region_of(p, shots) is Some,
        executed_batch::<A, B>(p, fuel, region_of(p, shots)->0, st) matches Ok(b) && b.histogram
            == executed_plainly::<A, B>(p, fuel, shots, st)->Ok_0.histogram && b.seed
            == executed_plainly::<A, B>(p, fuel, shots, st)->Ok_0.seed,
{
    let n = p.len as int;
    assert(shotless(p.ops, n, p.sub_len as int));
    let pos = lemma_lone_shot(p.ops, p.len as nat);
    let whole = started(st);
    let start = grounded::<A, B>(whole);
    if p.has_explicit_shot {
        let from = started(grounded::<A, B>(st));
        assert(from == start);
        match p.ops[pos] {
            IrOp::Shot(count, off, len) => {
                let (lo, hi) = if len == 0 {
                    (0, pos)
                } else {
                    (off as int, off + len)
                };
                let (f, s) = lemma_only_shot_draws::<A, B>(p, fuel, 0, pos, lo, hi, from);
                let first = grounded::<A, B>(s);
                lemma_quiet_run::<A, B>(
                    p,
                    (f - 1) as nat,
                    fuel,
                    lo,
                    hi,
                    unbound(),
                    first,
                    start,
                );
                let d = run::<A, B>(p, fuel, lo, hi, unbound(), start)->Ok_0;
                lemma_repeats_draw::<A, B>(p, f, count as nat, lo, hi, s, fuel, start, d);
            },
            _ => {},
        }
    } else if shots is Some {
        let count = shots->0 as nat;
        lemma_quiet_run::<A, B>(p, (fuel - 1) as nat, fuel, 0, n, unbound(), start, start);
        let d = run::<A, B>(p, fuel, 0, n, unbound(), start)->Ok_0;
        lemma_repeats_draw::<A, B>(p, fuel, count, 0, n, whole, fuel, start, d);
    } else {
        assert(started(grounded::<A, B>(st)) == start);
        let d = run::<A, B>(p, fuel, 0, n, unbound(), start)->Ok_0;
        assert(drawn::<A, B>(0, tallied::<A, B>(d)->Ok_0) == tallied::<A, B>(d));
        assert(drawn::<A, B>(1, d) == tallied::<A, B>(d));
    }
}

/// Running a program the way an accelerator does gives the histogram of the general
/// execution and leaves the generator in the same state, on a steady backend, if any sample
/// is asked for.
pub proof fn law_device_agrees<A: Copy, B: SimBackend<A>>(
    p: ProgramView<A>,
    fuel: nat,
    shots: Option<u32>,
    st: Machine<B::Model, A, B::Value>,
)
    requires
        steady::<A, B>(),
        laid_out(p),
        p.has_explicit_shot <==> shot_count(p.ops, p.len as nat) > 0,
        region_of(p, shots) matches Some(r) ==> r.samples > 0,
        executed_plainly::<A, B>(p, fuel, shots, st) is Ok,
    ensures
        executed_device::<A, B>(p, fuel, shots, st) matches Ok(d) && d.histogram
            == executed_plainly::<A, B>(p, fuel, shots, st)->Ok_0.histogram && d.seed
            == executed_plainly::<A, B>(p, fuel, shots, st)->Ok_0.seed,
{
    if batchable(p) {
        law_batch_agrees::<A, B>(p, fuel, shots, st);
    }
}

/// Drawing samples adds as many to the histogram and leaves classical bytes and results as
/// they are; drawing some and then more is drawing all of them.
pub proof fn law_draws_add_up<A: Copy, B: SimBackend<A>>(
    n: nat,
    m: nat,
    st: Machine<B::Model, A, B::Value>,
)
    ensures
        drawn::<A, B>(n, st) matches Ok(s) ==> {
            &&& total(s.histogram) == total(st.histogram) + n
            &&& s.classical == st.classical
            &&& s.results == st.results
        },
        drawn::<A, B>(n + m, st) == match drawn::<A, B>(n, st) {
            Ok(s) => drawn::<A, B>(m, s),
            Err(e) => Err(e),
        },
    decreases n,
{
    if n > 0 {
        lemma_tally_counts::<A, B>(st);
        if let Ok(s) = tallied::<A, B>(st) {
            law_draws_add_up::<A, B>((n - 1) as nat, m, s);
        }
    }
}

/// What the whole-circuit kernel performs for a record: word 0 numbers the gates,
/// the words behind it are the qubits, or for `MCX` the mask and the target, and rotations
/// are about half of their angle.
pub open spec fn performed<A>(r: MegaView<A>) -> Option<Gate<A>> {
    let (a, b, c) = (r.words[1] as u8, r.words[2] as u8, r.words[3] as u8);
    match r.turn {
        None => match r.words[0] {
            0 => Some(Gate::H(a)),
            1 => Some(Gate::X(a)),
            2 => Some(Gate::CNOT(a, b)),
            3 => Some(Gate::Toff(a, b, c)),
            8 => Some(Gate::S(a)),
            9 => Some(Gate::T(a)),
            10 => Some(Gate::SX(a)),
            11 => Some(Gate::SWAP(a, b)),
            12 => Some(Gate::ISWAP(a, b)),
            13 => Some(Gate::CZ(a, b)),
            15 => Some(Gate::CSWAP(a, b, c)),
            16 => Some(Gate::MCX(r.words[1], b)),
            _ => None,
        },
        Some(t) => match (r.words[0], t.half) {
            (4, true) => Some(Gate::RZ(a, t.angle)),
            (5, true) => Some(Gate::RX(a, t.angle)),
            (6, true) => Some(Gate::RY(a, t.angle)),
            (7, false) => Some(Gate::Phase(a, t.angle)),
            (14, false) => Some(Gate::CPHASE(a, b, t.angle)),
            _ => None,
        },
    }
}

/// Every gate has a record, and what the kernel performs for it is what the
/// executor hands to a backend. Other ops have none.
pub proof fn law_records_perform_their_gate<A>(op: IrOp, consts: Seq<A>)
    ensures
        match record_of(op, consts) {
            Some(r) => is_gate(op) && r.words.len() == 8 && performed(r) == gate_of(op, consts)
                && performed(r) is Some,
            None => gate_of(op, consts) is None,
        },
{
}

/// Records stand in the order of their ops: the records of a region are those of its first
/// part followed by those of the rest, and a single op has its record, `PRINT` none.
pub proof fn law_records_follow_the_ops<A>(
    ops: Seq<IrOp>,
    consts: Seq<A>,
    start: int,
    mid: int,
    end: int,
)
    requires
        start <= mid <= end,
    ensures
        records(ops, consts, start, end) == match (
            records(ops, consts, start, mid),
            records(ops, consts, mid, end),
        ) {
            (Some(a), Some(b)) => Some(a + b),
            _ => None,
        },
        records(ops, consts, start, start) == Some(Seq::<MegaView<A>>::empty()),
        ops[start] is Print ==> records(ops, consts, start, start + 1) == Some(
            Seq::<MegaView<A>>::empty(),
        ),
        !(ops[start] is Print) ==> records(ops, consts, start, start + 1) == match record_of(
            ops[start],
            consts,
        ) {
            Some(r) => Some(seq![r]),
            None => None,
        },
    decreases end - mid,
{
    reveal_with_fuel(records, 2);
    if record_of(ops[start], consts) is Some {
        let r = record_of(ops[start], consts)->Some_0;
        assert(Seq::<MegaView<A>>::empty().push(r) =~= seq![r]);
    }
    if mid < end {
        law_records_follow_the_ops(ops, consts, start, mid, end - 1);
        if let (Some(a), Some(b)) = (
            records(ops, consts, start, mid),
            records(ops, consts, mid, end - 1),
        ) {
            if let Some(r) = record_of(ops[end - 1], consts) {
                assert((a + b).push(r) =~= a + b.push(r));
            }
        }
    } else if let Some(a) = records(ops, consts, start, mid) {
        assert(a + Seq::empty() =~= a);
    }
}

/// The ops that depend on chance or on a classical byte: those that measure, reset or branch.
/// All others are pure.
pub proof fn law_disturbing_ops(op: IrOp)
    ensures
        disturbs(op) <==> op is Measure || op is MeasureX || op is MeasureY || op is Reset || op
            is IfEq || op is IfNe,
{
}

/// Counting repetitions tells whether there are none, one or several.
pub proof fn law_repetitions_are_counted(ops: Seq<IrOp>, n: nat)
    ensures
        shot_count(ops, n) == 0 <==> forall|i: int| 0 <= i < n ==> !(#[trigger] ops[i] is Shot),
        shot_count(ops, n) <= 1 <==> forall|i: int, j: int|
            0 <= i < j < n ==> !(#[trigger] ops[i] is Shot && #[trigger] ops[j] is Shot),
    decreases n,
{
    if n > 0 {
        let m = (n - 1) as nat;
        law_repetitions_are_counted(ops, m);
        if !(forall|i: int| 0 <= i < m ==> !(#[trigger] ops[i] is Shot)) {
            let i = choose|i: int| 0 <= i < m && #[trigger] ops[i] is Shot;
            assert(0 <= i < n - 1 && ops[i] is Shot && (ops[n - 1] is Shot ==> !(!(ops[i] is Shot
                && ops[n - 1] is Shot))));
        }
        if !(forall|i: int, j: int|
            0 <= i < j < m ==> !(#[trigger] ops[i] is Shot && #[trigger] ops[j] is Shot)) {
            let (i, j) = choose|i: int, j: int|
                0 <= i < j < m && #[trigger] ops[i] is Shot && #[trigger] ops[j] is Shot;
            assert(0 <= i < j < n && ops[i] is Shot && ops[j] is Shot);
        }
    }
}

/// A program can be sampled from one state exactly if it is pure, repeats at most once, and
/// not in a subprogram; the region to run is then the whole program, or the body of its
/// repetition, or everything before it.
pub proof fn law_one_state_serves<A>(p: ProgramView<A>, shots: Option<u32>)
    requires
        p.len <= p.sub_len,
        p.has_explicit_shot <==> shot_count(p.ops, p.len as nat) > 0,
    ensures
        batchable(p) <==> {
            &&& forall|i: int|
                0 <= i < p.sub_len ==> !(disturbs(#[trigger] p.ops[i]))
            &&& forall|i: int|
                p.len <= i < p.sub_len ==> !(#[trigger] p.ops[i] is Shot)
            &&& forall|i: int, j: int|
                0 <= i < j < p.len ==> !(#[trigger] p.ops[i] is Shot && #[trigger] p.ops[j] is Shot)
        },
        !p.has_explicit_shot ==> (region_of(p, shots) matches Some(r) && r.start == 0 && r.end
            == p.len && r.samples == match shots {
            Some(n) => n,
            None => 1,
        }),
        batchable(p) ==> forall|i: int|
            0 <= i < p.len ==> (#[trigger] p.ops[i] matches IrOp::Shot(count, off, len) ==> (region_of(
                p,
                shots,
            ) matches Some(r) && r.samples == count && (if len == 0 {
                r.start == 0 && r.end == i
            } else {
                r.start == off && r.end == off + len
            }))),
{
    law_repetitions_are_counted(p.ops, p.len as nat);
    assert(crate::ir::extent(p) == p.sub_len);
    if batchable(p) {
        assert forall|i: int| 0 <= i < p.len implies (#[trigger] p.ops[i] matches IrOp::Shot(
            count,
            off,
            len,
        ) ==> (region_of(p, shots) matches Some(r) && r.samples == count && (if len == 0 {
            r.start == 0 && r.end == i
        } else {
            r.start == off && r.end == off + len
        }))) by {
            if p.ops[i] is Shot {
                lemma_last_shot(p.ops, p.len as nat, i);
            }
        }
    }
}

proof fn lemma_last_shot(ops: Seq<IrOp>, n: nat, i: int)
    requires
        0 <= i < n,
        ops[i] is Shot,
        forall|j: int, k: int|
            0 <= j < k < n ==> !(#[trigger] ops[j] is Shot && #[trigger] ops[k] is Shot),
    ensures
        last_shot(ops, n) == shot_region(i, ops[i]),
    decreases n,
{
    if i < n - 1 {
        assert(!(ops[i] is Shot && ops[n - 1] is Shot));
        lemma_last_shot(ops, (n - 1) as nat, i);
    }
}

} // verus!
