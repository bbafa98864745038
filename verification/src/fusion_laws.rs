//! What gate fusion keeps.
use crate::backend::{Gate, SimBackend};
use crate::binding::qubits_of;
use crate::fused_machine::{
    blocked, executed_fused, executed_fused_shots, has_calls, repeated_fused, resolved, run_fused,
};
use crate::fusion::{
    flushed, forward, fuse, fusible, joined, merged, no_block, repointed, Fused, Pending,
};
use crate::ir::{IrOp, ProgramView};
use crate::machine::{
    acted, executed, executed_shots, gate_of, gated, grounded, is_gate, renamed_op, repeated, run,
    started, taken, tallied, unbound, Fault, Machine,
};
use crate::safety::{bare_shots_on_top, no_bare_shot};
use crate::sim::law_unbound_operands_stay;
use crate::stabilizer::{StabilizerBackend, Tableau};
use crate::tableau_backend::{evolved_all, tableau_gate};
use crate::wellformed::{body_of, lemma_nested_join, nested};
use vstd::prelude::*;

verus! {

/// Properly nested programs can be fused.
pub proof fn law_nested_programs_fuse(ops: Seq<IrOp>, lo: int, hi: int)
    requires
        nested(ops, lo, hi),
    ensures
        forward(ops, lo, hi),
    decreases hi - lo,
{
    if lo < hi {
        match body_of(ops[lo]) {
            Some((b, e)) => {
                law_nested_programs_fuse(ops, b, e);
                law_nested_programs_fuse(ops, e, hi);
            },
            None => law_nested_programs_fuse(ops, lo + 1, hi),
        }
    }
}

/// One entry for a block under construction, none without.
pub open spec fn occupied(b: Pending) -> int {
    if b.q0 is Some {
        1
    } else {
        0
    }
}

/// Fusion never makes a program longer: the fused list has at most one entry per
/// op, and one for the block it started with.
pub proof fn law_fusion_never_grows(ops: Seq<IrOp>, i: int, hi: int, b: Pending, base: int)
    requires
        i <= hi,
        forward(ops, i, hi),
        b.q0 is None ==> b.q1 is None,
    ensures
        fuse(ops, i, hi, b, base).len() <= hi - i + occupied(b),
    decreases hi - i,
{
    if i < hi {
        let op = ops[i];
        match fusible(op) {
            Some((q, p)) => {
                let m = merged(b, op, q, p);
                law_fusion_never_grows(ops, i + 1, hi, m.1, base + m.0.len());
            },
            None => {
                let pre = flushed(b);
                match body_of(op) {
                    Some((s, e)) => {
                        let at = base + pre.len() + 1;
                        let inner = fuse(ops, s, e, no_block(), at);
                        law_fusion_never_grows(ops, s, e, no_block(), at);
                        law_fusion_never_grows(ops, e, hi, no_block(), at + inner.len());
                    },
                    None => law_fusion_never_grows(
                        ops,
                        i + 1,
                        hi,
                        no_block(),
                        base + pre.len() + 1,
                    ),
                }
            },
        }
    }
}

/// Whether a gate acts on qubit `q`, and on `p` if it is there, only.
pub open spec fn acts_on(op: IrOp, q: u8, p: Option<u8>) -> bool {
    match fusible(op) {
        Some((a, c)) => (a == q || p == Some(a)) && (c matches Some(d) ==> d == q || p == Some(d)),
        None => false,
    }
}

/// Whether every gate of a block acts on the qubits of the block, and no gate that
/// a block could take stands outside one.
pub open spec fn entry_ok(f: Fused) -> bool {
    match f {
        Fused::U1(q, g) => forall|k: int| 0 <= k < g.len() ==> acts_on(#[trigger] g[k], q, None),
        Fused::U2(q, p, g) => q != p && forall|k: int|
            0 <= k < g.len() ==> acts_on(#[trigger] g[k], q, Some(p)),
        Fused::Original(op) => fusible(op) is None,
    }
}

/// The same of a block under construction.
pub open spec fn pending_ok(b: Pending) -> bool {
    match b.q0 {
        None => b.q1 is None && b.gates.len() == 0,
        Some(q) => b.gates.len() > 0 && b.q1 != Some(q) && forall|k: int|
            0 <= k < b.gates.len() ==> acts_on(#[trigger] b.gates[k], q, b.q1),
    }
}

proof fn lemma_merged_ok(b: Pending, op: IrOp)
    requires
        pending_ok(b),
        fusible(op) is Some,
    ensures
        fusible(op) matches Some((q, p)) ==> pending_ok(merged(b, op, q, p).1),
{
    let (q, p) = fusible(op)->0;
    let m = merged(b, op, q, p).1;
    if let Some((q0, q1)) = joined(b, q, p) {
        assert forall|k: int| 0 <= k < m.gates.len() implies acts_on(
            #[trigger] m.gates[k],
            q0,
            q1,
        ) by {
            if k < b.gates.len() {
                assert(acts_on(b.gates[k], b.q0->0, b.q1));
            }
        }
    }
}

/// Whether all entries of a list are in order.
pub open spec fn entries_ok(l: Seq<Fused>) -> bool {
    forall|k: int| 0 <= k < l.len() ==> entry_ok(#[trigger] l[k])
}

/// Every block holds only gates on its own one or two qubits, and every gate that a
/// block can take is in one.
pub proof fn law_blocks_hold_their_gates(ops: Seq<IrOp>, i: int, hi: int, b: Pending, base: int)
    requires
        i <= hi,
        forward(ops, i, hi),
        pending_ok(b),
    ensures
        entries_ok(fuse(ops, i, hi, b, base)),
    decreases hi - i,
{
    let pre = flushed(b);
    assert(entries_ok(pre));
    if i < hi {
        let op = ops[i];
        match fusible(op) {
            Some((q, p)) => {
                let m = merged(b, op, q, p);
                lemma_merged_ok(b, op);
                law_blocks_hold_their_gates(ops, i + 1, hi, m.1, base + m.0.len());
                assert(entries_ok(m.0));
            },
            None => {
                match body_of(op) {
                    Some((s, e)) => {
                        let at = base + pre.len() + 1;
                        let inner = fuse(ops, s, e, no_block(), at);
                        law_blocks_hold_their_gates(ops, s, e, no_block(), at);
                        law_blocks_hold_their_gates(ops, e, hi, no_block(), at + inner.len());
                        let x = Fused::Original(repointed(op, at, inner.len() as int));
                        assert(entry_ok(x));
                        assert(entries_ok(pre + seq![x]));
                        assert(entries_ok(pre + seq![x] + inner));
                    },
                    None => {
                        law_blocks_hold_their_gates(
                            ops,
                            i + 1,
                            hi,
                            no_block(),
                            base + pre.len() + 1,
                        );
                        let x = Fused::Original(repointed(op, 0, 0));
                        assert(entry_ok(x));
                        assert(entries_ok(pre + seq![x]));
                    },
                }
            },
        }
    }
}

/// The op without its body range.
pub open spec fn unranged(op: IrOp) -> IrOp {
    repointed(op, 0, 0)
}

/// The ops of a fused list in order, without body ranges.
pub open spec fn flattened(l: Seq<Fused>) -> Seq<IrOp>
    decreases l.len(),
{
    if l.len() == 0 {
        Seq::empty()
    } else {
        flattened(l.drop_last()) + match l.last() {
            Fused::U1(_, g) => g,
            Fused::U2(_, _, g) => g,
            Fused::Original(op) => seq![unranged(op)],
        }
    }
}

proof fn lemma_flattened_append(a: Seq<Fused>, b: Seq<Fused>)
    ensures
        flattened(a + b) == flattened(a) + flattened(b),
    decreases b.len(),
{
    if b.len() == 0 {
        assert(a + b =~= a);
        assert(flattened(a) + flattened(b) =~= flattened(a));
    } else {
        assert((a + b).drop_last() =~= a + b.drop_last());
        assert((a + b).last() == b.last());
        lemma_flattened_append(a, b.drop_last());
        assert(flattened(a + b) =~= flattened(a) + flattened(b));
    }
}

/// The ops `lo..hi` without body ranges.
pub open spec fn plain_ops(ops: Seq<IrOp>, lo: int, hi: int) -> Seq<IrOp> {
    ops.subrange(lo, hi).map_values(|op: IrOp| unranged(op))
}

proof fn lemma_plain_ops(ops: Seq<IrOp>, lo: int, mid: int, hi: int)
    requires
        0 <= lo <= mid <= hi <= ops.len(),
    ensures
        plain_ops(ops, lo, hi) == plain_ops(ops, lo, mid) + plain_ops(ops, mid, hi),
        lo < hi ==> plain_ops(ops, lo, hi) == seq![unranged(ops[lo])] + plain_ops(ops, lo + 1, hi),
{
    assert(plain_ops(ops, lo, hi) =~= plain_ops(ops, lo, mid) + plain_ops(ops, mid, hi));
    if lo < hi {
        assert(plain_ops(ops, lo, hi) =~= seq![unranged(ops[lo])] + plain_ops(ops, lo + 1, hi));
    }
}

proof fn lemma_flattened_flush(b: Pending)
    requires
        pending_ok(b),
    ensures
        flattened(flushed(b)) == b.gates,
{
    if b.q0 is Some {
        let l = flushed(b);
        reveal_with_fuel(flattened, 2);
        assert(l.drop_last() =~= Seq::<Fused>::empty());
        assert(flattened(l) =~= b.gates);
    } else {
        assert(flattened(flushed(b)) =~= b.gates);
    }
}

proof fn lemma_flattened_one(op: IrOp)
    ensures
        flattened(seq![Fused::Original(op)]) == seq![unranged(op)],
{
    let l = seq![Fused::Original(op)];
    reveal_with_fuel(flattened, 2);
    assert(l.drop_last() =~= Seq::<Fused>::empty());
    assert(flattened(l) =~= seq![unranged(op)]);
}

/// Fusion keeps every op of a properly nested program, in order; only body ranges
/// are changed.
pub proof fn law_fusion_keeps_the_ops(ops: Seq<IrOp>, i: int, hi: int, b: Pending, base: int)
    requires
        0 <= i <= hi <= ops.len(),
        nested(ops, i, hi),
        pending_ok(b),
    ensures
        flattened(fuse(ops, i, hi, b, base)) == b.gates + plain_ops(ops, i, hi),
    decreases hi - i,
{
    let pre = flushed(b);
    lemma_flattened_flush(b);
    if i >= hi {
        assert(b.gates + plain_ops(ops, i, hi) =~= b.gates);
    } else {
        let op = ops[i];
        lemma_plain_ops(ops, i, i, hi);
        match fusible(op) {
            Some((q, p)) => {
                let m = merged(b, op, q, p);
                lemma_merged_ok(b, op);
                let rest = fuse(ops, i + 1, hi, m.1, base + m.0.len());
                law_fusion_keeps_the_ops(ops, i + 1, hi, m.1, base + m.0.len());
                lemma_flattened_append(m.0, rest);
                assert(flattened(m.0 + rest) =~= b.gates + plain_ops(ops, i, hi));
            },
            None => {
                match body_of(op) {
                    Some((s, e)) => {
                        let at = base + pre.len() + 1;
                        let inner = fuse(ops, s, e, no_block(), at);
                        let rest = fuse(ops, e, hi, no_block(), at + inner.len());
                        let x = Fused::Original(repointed(op, at, inner.len() as int));
                        law_fusion_keeps_the_ops(ops, s, e, no_block(), at);
                        law_fusion_keeps_the_ops(ops, e, hi, no_block(), at + inner.len());
                        lemma_plain_ops(ops, s, e, hi);
                        lemma_flattened_append(pre, seq![x]);
                        lemma_flattened_append(pre + seq![x], inner);
                        lemma_flattened_append(pre + seq![x] + inner, rest);
                        lemma_flattened_one(repointed(op, at, inner.len() as int));
                        assert(unranged(repointed(op, at, inner.len() as int)) == unranged(op));
                        assert(flattened(pre + seq![x] + inner + rest) =~= b.gates + plain_ops(
                            ops,
                            i,
                            hi,
                        ));
                    },
                    None => {
                        let x = Fused::Original(repointed(op, 0, 0));
                        let rest = fuse(ops, i + 1, hi, no_block(), base + pre.len() + 1);
                        law_fusion_keeps_the_ops(
                            ops,
                            i + 1,
                            hi,
                            no_block(),
                            base + pre.len() + 1,
                        );
                        lemma_flattened_append(pre, seq![x]);
                        lemma_flattened_append(pre + seq![x], rest);
                        lemma_flattened_one(repointed(op, 0, 0));
                        assert(unranged(repointed(op, 0, 0)) == unranged(op));
                        assert(flattened(pre + seq![x] + rest) =~= b.gates + plain_ops(
                            ops,
                            i,
                            hi,
                        ));
                    },
                }
            },
        }
    }
}

/// The state after a run of gates.
pub open spec fn evolved_seq<A: Copy, B: SimBackend<A>>(m: B::Model, gs: Seq<Gate<A>>) -> B::Model
    decreases gs.len(),
{
    if gs.len() == 0 {
        m
    } else {
        B::evolved(evolved_seq::<A, B>(m, gs.drop_last()), gs.last())
    }
}

/// Whether a backend takes each gate of a run in turn.
pub open spec fn takes_each<A: Copy, B: SimBackend<A>>(m: B::Model, gs: Seq<Gate<A>>) -> bool
    decreases gs.len(),
{
    gs.len() == 0 || (takes_each::<A, B>(m, gs.drop_last()) && B::takes_gate(
        evolved_seq::<A, B>(m, gs.drop_last()),
        gs.last(),
    ))
}

/// A backend without noise whose blocks do exactly what their gates do one by one.
pub open spec fn exact<A: Copy, B: SimBackend<A>>() -> bool {
    &&& forall|m: B::Model, q: u8, seed: u64| #[trigger] B::noisy(m, q, seed) == (m, seed)
    &&& forall|m: B::Model, q: u8, p: Option<u8>, gs: Seq<Gate<A>>|
        takes_each::<A, B>(m, gs) ==> #[trigger] B::takes_block(m, q, p, gs) && B::blended(
            m,
            q,
            p,
            gs,
        ) == evolved_seq::<A, B>(m, gs)
}

/// The state after the gates of a block were performed one by one.
spec fn performed<A: Copy, B: SimBackend<A>>(
    prog: ProgramView<A>,
    ops: Seq<IrOp>,
    st: Machine<B::Model, A, B::Value>,
) -> Result<Machine<B::Model, A, B::Value>, Fault>
    decreases ops.len(),
{
    if ops.len() == 0 {
        Ok(st)
    } else {
        match performed::<A, B>(prog, ops.drop_last(), st) {
            Ok(s) => acted::<A, B>(prog, ops.last(), s),
            Err(e) => Err(e),
        }
    }
}

proof fn lemma_performed<A: Copy, B: SimBackend<A>>(
    prog: ProgramView<A>,
    ops: Seq<IrOp>,
    st: Machine<B::Model, A, B::Value>,
)
    requires
        exact::<A, B>(),
        performed::<A, B>(prog, ops, st) is Ok,
        forall|k: int| 0 <= k < ops.len() ==> fusible(#[trigger] ops[k]) is Some,
    ensures
        resolved(ops, prog.consts) is Some,
        resolved(ops, prog.consts)->0.len() == ops.len(),
        takes_each::<A, B>(st.model, resolved(ops, prog.consts)->0),
        performed::<A, B>(prog, ops, st)->Ok_0 == (Machine {
            model: evolved_seq::<A, B>(st.model, resolved(ops, prog.consts)->0),
            ..st
        }),
    decreases ops.len(),
{
    if ops.len() > 0 {
        let front = ops.drop_last();
        lemma_performed::<A, B>(prog, front, st);
        let gs = resolved(front, prog.consts)->0;
        let s = performed::<A, B>(prog, front, st)->Ok_0;
        let op = ops.last();
        assert(fusible(ops[ops.len() - 1]) is Some);
        assert(is_gate(op));
        let g = gate_of(op, prog.consts)->0;
        assert forall|k: int| 0 <= k < ops.len() implies gate_of(
            #[trigger] ops[k],
            prog.consts,
        ) is Some by {
            if k < front.len() {
                assert(gate_of(front[k], prog.consts) is Some);
            }
        }
        let all = resolved(ops, prog.consts)->0;
        assert(all.drop_last() =~= gs);
        assert(all.last() == g);
        let n = gated::<A, B>(s.model, g, s.seed);
        assert(n == (B::evolved(s.model, g), s.seed));
        assert(Machine { model: n.0, seed: n.1, ..s } == (Machine {
            model: evolved_seq::<A, B>(st.model, all),
            ..st
        }));
    } else {
        assert(resolved(ops, prog.consts)->0 =~= Seq::<Gate<A>>::empty());
    }
}

/// A block does what its gates do one by one.
proof fn lemma_block_performs<A: Copy, B: SimBackend<A>>(
    prog: ProgramView<A>,
    q: u8,
    p: Option<u8>,
    ops: Seq<IrOp>,
    st: Machine<B::Model, A, B::Value>,
)
    requires
        exact::<A, B>(),
        performed::<A, B>(prog, ops, st) is Ok,
        forall|k: int| 0 <= k < ops.len() ==> fusible(#[trigger] ops[k]) is Some,
    ensures
        blocked::<A, B>(prog, q, p, ops, st) == performed::<A, B>(prog, ops, st),
{
    lemma_performed::<A, B>(prog, ops, st);
    let gs = resolved(ops, prog.consts)->0;
    assert(B::takes_block(st.model, q, p, gs));
}

/// More budget keeps a fused run that ended well.
proof fn lemma_fused_budget<A: Copy, B: SimBackend<A>>(
    prog: ProgramView<A>,
    list: Seq<Fused>,
    small: nat,
    large: nat,
    i: int,
    end: int,
    remap: Seq<Option<u8>>,
    st: Machine<B::Model, A, B::Value>,
)
    requires
        small <= large,
        run_fused::<A, B>(prog, list, small, i, end, remap, st) is Ok,
    ensures
        run_fused::<A, B>(prog, list, large, i, end, remap, st) == run_fused::<A, B>(
            prog,
            list,
            small,
            i,
            end,
            remap,
            st,
        ),
    decreases small,
{
    if i < end {
        let f = (small - 1) as nat;
        let g = (large - 1) as nat;
        match list[i] {
            Fused::U1(q, ops) => {
                let s = blocked::<A, B>(prog, q, None, ops, st)->Ok_0;
                lemma_fused_budget::<A, B>(prog, list, f, g, i + 1, end, remap, s);
            },
            Fused::U2(q, p, ops) => {
                let s = blocked::<A, B>(prog, q, Some(p), ops, st)->Ok_0;
                lemma_fused_budget::<A, B>(prog, list, f, g, i + 1, end, remap, s);
            },
            Fused::Original(raw) => {
                let op = renamed_op(raw, remap);
                match op {
                    IrOp::IfEq(c, _, off, len) | IrOp::IfNe(c, _, off, len) => {
                        if taken(op, st.classical) {
                            lemma_fused_budget::<A, B>(
                                prog,
                                list,
                                f,
                                g,
                                off as int,
                                off + len,
                                remap,
                                st,
                            );
                            let s = run_fused::<A, B>(
                                prog,
                                list,
                                f,
                                off as int,
                                off + len,
                                remap,
                                st,
                            )->Ok_0;
                            lemma_fused_budget::<A, B>(
                                prog,
                                list,
                                f,
                                g,
                                off + len,
                                end,
                                remap,
                                s,
                            );
                        } else {
                            lemma_fused_budget::<A, B>(
                                prog,
                                list,
                                f,
                                g,
                                off + len,
                                end,
                                remap,
                                st,
                            );
                        }
                    },
                    IrOp::Shot(count, off, len) => {
                        let (lo, hi, next) = if len == 0 {
                            (0int, i, i + 1)
                        } else {
                            (off as int, off + len, off + len)
                        };
                        lemma_fused_repeats_budget::<A, B>(
                            prog,
                            list,
                            f,
                            g,
                            count as nat,
                            lo,
                            hi,
                            remap,
                            st,
                        );
                        let s = repeated_fused::<A, B>(
                            prog,
                            list,
                            f,
                            count as nat,
                            lo,
                            hi,
                            remap,
                            st,
                        )->Ok_0;
                        lemma_fused_budget::<A, B>(prog, list, f, g, next, end, remap, s);
                    },
                    IrOp::Call(id, a0, a1, a2) => {
                        let sub = prog.subs[id as int];
                        let inner = crate::machine::bound(sub.nparams, a0, a1, a2);
                        lemma_fused_budget::<A, B>(
                            prog,
                            list,
                            f,
                            g,
                            sub.off as int,
                            sub.off + sub.len,
                            inner,
                            st,
                        );
                        let s = run_fused::<A, B>(
                            prog,
                            list,
                            f,
                            sub.off as int,
                            sub.off + sub.len,
                            inner,
                            st,
                        )->Ok_0;
                        lemma_fused_budget::<A, B>(prog, list, f, g, i + 1, end, remap, s);
                    },
                    _ => {
                        let s = acted::<A, B>(prog, op, st)->Ok_0;
                        lemma_fused_budget::<A, B>(prog, list, f, g, i + 1, end, remap, s);
                    },
                }
            },
        }
    }
}

proof fn lemma_fused_repeats_budget<A: Copy, B: SimBackend<A>>(
    prog: ProgramView<A>,
    list: Seq<Fused>,
    small: nat,
    large: nat,
    count: nat,
    lo: int,
    hi: int,
    remap: Seq<Option<u8>>,
    st: Machine<B::Model, A, B::Value>,
)
    requires
        small <= large,
        repeated_fused::<A, B>(prog, list, small, count, lo, hi, remap, st) is Ok,
    ensures
        repeated_fused::<A, B>(prog, list, large, count, lo, hi, remap, st) == repeated_fused::<
            A,
            B,
        >(prog, list, small, count, lo, hi, remap, st),
    decreases small,
{
    if count > 0 {
        let f = (small - 1) as nat;
        let g = (large - 1) as nat;
        let s0 = grounded::<A, B>(st);
        lemma_fused_budget::<A, B>(prog, list, f, g, lo, hi, remap, s0);
        let s = run_fused::<A, B>(prog, list, f, lo, hi, remap, s0)->Ok_0;
        let t = tallied::<A, B>(s)->Ok_0;
        lemma_fused_repeats_budget::<A, B>(
            prog,
            list,
            f,
            g,
            (count - 1) as nat,
            lo,
            hi,
            remap,
            t,
        );
    }
}

/// What fusing `ops[i..mid]` has put out, and the block then under construction.
spec fn progress(ops: Seq<IrOp>, i: int, mid: int, b: Pending, base: int) -> (Seq<Fused>, Pending)
    decreases mid - i,
{
    if i >= mid {
        (Seq::empty(), b)
    } else {
        let op = ops[i];
        match fusible(op) {
            Some((q, p)) => {
                let m = merged(b, op, q, p);
                let rest = progress(ops, i + 1, mid, m.1, base + m.0.len());
                (m.0 + rest.0, rest.1)
            },
            None => match body_of(op) {
                Some((s, e)) => if i < s <= e <= mid {
                    let pre = flushed(b);
                    let at = base + pre.len() + 1;
                    let inner = fuse(ops, s, e, no_block(), at);
                    let rest = progress(ops, e, mid, no_block(), at + inner.len());
                    (
                        pre + seq![Fused::Original(repointed(op, at, inner.len() as int))] + inner
                            + rest.0,
                        rest.1,
                    )
                } else {
                    (Seq::empty(), b)
                },
                None => {
                    let pre = flushed(b);
                    let rest = progress(ops, i + 1, mid, no_block(), base + pre.len() + 1);
                    (pre + seq![Fused::Original(repointed(op, 0, 0))] + rest.0, rest.1)
                },
            },
        }
    }
}

proof fn lemma_progress_flush(ops: Seq<IrOp>, i: int, mid: int, b: Pending, base: int)
    requires
        nested(ops, i, mid),
    ensures
        ({
            let r = progress(ops, i, mid, b, base);
            fuse(ops, i, mid, b, base) == r.0 + flushed(r.1)
        }),
    decreases mid - i,
{
    let r = progress(ops, i, mid, b, base);
    if i >= mid {
        assert(r.0 + flushed(r.1) =~= flushed(b));
    } else {
        let op = ops[i];
        match fusible(op) {
            Some((q, p)) => {
                let m = merged(b, op, q, p);
                lemma_progress_flush(ops, i + 1, mid, m.1, base + m.0.len());
            },
            None => match body_of(op) {
                Some((s, e)) => {
                    let pre = flushed(b);
                    let at = base + pre.len() + 1;
                    let inner = fuse(ops, s, e, no_block(), at);
                    lemma_progress_flush(ops, e, mid, no_block(), at + inner.len());
                },
                None => {
                    lemma_progress_flush(
                        ops,
                        i + 1,
                        mid,
                        no_block(),
                        base + flushed(b).len() + 1,
                    );
                },
            },
        }
        assert(fuse(ops, i, mid, b, base) =~= r.0 + flushed(r.1));
    }
}

proof fn lemma_progress_join(ops: Seq<IrOp>, i: int, mid: int, k: int, b: Pending, base: int)
    requires
        nested(ops, i, mid),
        mid <= k,
    ensures
        ({
            let p1 = progress(ops, i, mid, b, base);
            let p2 = progress(ops, mid, k, p1.1, base + p1.0.len());
            progress(ops, i, k, b, base) == (p1.0 + p2.0, p2.1)
        }),
    decreases mid - i,
{
    let p1 = progress(ops, i, mid, b, base);
    let p2 = progress(ops, mid, k, p1.1, base + p1.0.len());
    if i >= mid {
        assert(p1.0 + p2.0 =~= p2.0);
    } else {
        let op = ops[i];
        match fusible(op) {
            Some((q, p)) => {
                let m = merged(b, op, q, p);
                lemma_progress_join(ops, i + 1, mid, k, m.1, base + m.0.len());
            },
            None => match body_of(op) {
                Some((s, e)) => {
                    let pre = flushed(b);
                    let at = base + pre.len() + 1;
                    let inner = fuse(ops, s, e, no_block(), at);
                    lemma_progress_join(ops, e, mid, k, no_block(), at + inner.len());
                },
                None => {
                    lemma_progress_join(
                        ops,
                        i + 1,
                        mid,
                        k,
                        no_block(),
                        base + flushed(b).len() + 1,
                    );
                },
            },
        }
        assert(progress(ops, i, k, b, base).0 =~= p1.0 + p2.0);
    }
}

/// What the agreement proof knows: the program, its fused list, and that the list
/// from `base` on is the fused list of `ops[i..hi]`. At the top of the main region
/// the list before `base` is what fusing the ops before `i` has put out.
spec fn aligned<A>(
    prog: ProgramView<A>,
    list: Seq<Fused>,
    i: int,
    hi: int,
    b: Pending,
    base: int,
    top: bool,
) -> bool {
    let ops = prog.ops;
    let here = fuse(ops, i, hi, b, base);
    &&& 0 <= i <= hi <= prog.len <= ops.len()
    &&& hi <= 16384
    &&& nested(ops, i, hi)
    &&& pending_ok(b)
    &&& forall|k: int| 0 <= k < prog.len ==> !((#[trigger] ops[k]) is Call)
    &&& 0 <= base
    &&& base + here.len() <= list.len() <= 16384
    &&& list.subrange(base, base + here.len()) == here
    &&& top ==> {
        &&& nested(ops, 0, i)
        &&& bare_shots_on_top(ops, 0, i)
        &&& bare_shots_on_top(ops, i, hi)
        &&& (list.subrange(0, base), b) == progress(ops, 0, i, no_block(), 0)
    }
    &&& !top ==> no_bare_shot(ops, i, hi)
}

proof fn lemma_list_at(list: Seq<Fused>, base: int, a: Seq<Fused>, b: Seq<Fused>)
    requires
        0 <= base,
        base + a.len() + b.len() <= list.len(),
        list.subrange(base, base + (a + b).len()) == a + b,
    ensures
        list.subrange(base, base + a.len()) == a,
        list.subrange(base + a.len(), base + a.len() + b.len()) == b,
        forall|k: int| 0 <= k < a.len() ==> list[base + k] == #[trigger] a[k],
{
    let w = list.subrange(base, base + (a + b).len());
    assert forall|k: int| 0 <= k < a.len() implies list[base + k] == #[trigger] a[k] by {
        assert(w[k] == (a + b)[k]);
    }
    assert forall|k: int| 0 <= k < b.len() implies list[base + a.len() + k] == #[trigger] b[k] by {
        assert(w[a.len() + k] == (a + b)[a.len() + k]);
    }
    assert(list.subrange(base, base + a.len()) =~= a);
    assert(list.subrange(base + a.len(), base + a.len() + b.len()) =~= b);
}

proof fn lemma_top_step<A>(
    prog: ProgramView<A>,
    list: Seq<Fused>,
    i: int,
    hi: int,
    b: Pending,
    base: int,
    next: int,
    out: Seq<Fused>,
    b2: Pending,
)
    requires
        aligned(prog, list, i, hi, b, base, true),
        i < hi,
        i < next <= hi,
        nested(prog.ops, i, next),
        bare_shots_on_top(prog.ops, i, next),
        progress(prog.ops, i, next, b, base) == (out, b2),
        list.subrange(base, base + out.len()) == out,
        base + out.len() <= list.len(),
    ensures
        nested(prog.ops, 0, next),
        bare_shots_on_top(prog.ops, 0, next),
        (list.subrange(0, base + out.len()), b2) == progress(prog.ops, 0, next, no_block(), 0),
{
    lemma_nested_join(prog.ops, 0, i, next);
    crate::safety::lemma_top_join(prog.ops, 0, i, next);
    lemma_progress_join(prog.ops, 0, i, next, no_block(), 0);
    assert(list.subrange(0, base).len() == base);
    assert(list.subrange(0, base + out.len()) =~= list.subrange(0, base) + out);
}

/// A finished block, where there is one, takes one step and leaves the state that
/// its gates leave.
proof fn lemma_flush_step<A: Copy, B: SimBackend<A>>(
    prog: ProgramView<A>,
    list: Seq<Fused>,
    k: nat,
    base: int,
    end: int,
    b: Pending,
    st: Machine<B::Model, A, B::Value>,
)
    requires
        exact::<A, B>(),
        pending_ok(b),
        performed::<A, B>(prog, b.gates, st) is Ok,
        0 <= base,
        b.q0 is Some ==> base < end && base < list.len() && list[base] == flushed(b)[0],
    ensures
        run_fused::<A, B>(prog, list, (k + occupied(b)) as nat, base, end, unbound(), st)
            == run_fused::<A, B>(
            prog,
            list,
            k,
            base + occupied(b),
            end,
            unbound(),
            performed::<A, B>(prog, b.gates, st)->Ok_0,
        ),
        flushed(b).len() == occupied(b),
{
    if b.q0 is Some {
        assert forall|k: int| 0 <= k < b.gates.len() implies fusible(#[trigger] b.gates[k]) is Some by {
            assert(acts_on(b.gates[k], b.q0->0, b.q1));
        }
        lemma_block_performs::<A, B>(prog, b.q0->0, b.q1, b.gates, st);
    } else {
        assert(b.gates =~= Seq::<IrOp>::empty());
    }
}

/// Alignment after a gate that a block takes.
proof fn lemma_aligned_gate<A>(
    prog: ProgramView<A>,
    list: Seq<Fused>,
    i: int,
    hi: int,
    b: Pending,
    base: int,
    top: bool,
)
    requires
        aligned(prog, list, i, hi, b, base, top),
        i < hi,
        fusible(prog.ops[i]) is Some,
    ensures
        fusible(prog.ops[i]) matches Some((q, p)) ==> {
            let m = merged(b, prog.ops[i], q, p);
            let rest = fuse(prog.ops, i + 1, hi, m.1, base + m.0.len());
            &&& aligned(prog, list, i + 1, hi, m.1, base + m.0.len(), top)
            &&& fuse(prog.ops, i, hi, b, base) == m.0 + rest
            &&& m.0.len() > 0 ==> list[base] == m.0[0]
        },
{
    let ops = prog.ops;
    let op = ops[i];
    let (q, p) = fusible(op)->0;
    let m = merged(b, op, q, p);
    lemma_merged_ok(b, op);
    let base2 = base + m.0.len();
    let rest = fuse(ops, i + 1, hi, m.1, base2);
    assert(body_of(op) is None);
    lemma_list_at(list, base, m.0, rest);
    if top {
        assert(progress(ops, i + 1, i + 1, m.1, base2) == (Seq::<Fused>::empty(), m.1));
        assert(m.0 + Seq::<Fused>::empty() =~= m.0);
        assert(progress(ops, i, i + 1, b, base) == (m.0, m.1));
        assert(nested(ops, i + 1, i + 1));
        assert(nested(ops, i, i + 1));
        assert(bare_shots_on_top(ops, i + 1, i + 1));
        assert(bare_shots_on_top(ops, i, i + 1));
        lemma_top_step(prog, list, i, hi, b, base, i + 1, m.0, m.1);
    }
}

/// Alignment after an op without a body that no block takes.
proof fn lemma_aligned_plain<A>(
    prog: ProgramView<A>,
    list: Seq<Fused>,
    i: int,
    hi: int,
    b: Pending,
    base: int,
    top: bool,
)
    requires
        aligned(prog, list, i, hi, b, base, top),
        i < hi,
        fusible(prog.ops[i]) is None,
        body_of(prog.ops[i]) is None,
    ensures
        ({
            let pre = flushed(b);
            let at = base + pre.len() + 1;
            let rest = fuse(prog.ops, i + 1, hi, no_block(), at);
            &&& aligned(prog, list, i + 1, hi, no_block(), at, top)
            &&& fuse(prog.ops, i, hi, b, base).len() == pre.len() + 1 + rest.len()
            &&& pre.len() > 0 ==> list[base] == pre[0]
            &&& list[base + pre.len()] == Fused::Original(repointed(prog.ops[i], 0, 0))
            &&& list.subrange(base, base + pre.len()) == pre
        }),
{
    let ops = prog.ops;
    let op = ops[i];
    let pre = flushed(b);
    let at = base + pre.len() + 1;
    let x = Fused::Original(repointed(op, 0, 0));
    let rest = fuse(ops, i + 1, hi, no_block(), at);
    let lead = pre + seq![x];
    assert(fuse(ops, i, hi, b, base) == lead + rest);
    lemma_list_at(list, base, lead, rest);
    lemma_list_at(list, base, pre, seq![x]);
    assert(list[base + pre.len()] == lead[pre.len() as int]);
    if pre.len() > 0 {
        assert(list[base + 0] == lead[0]);
    }
    if top {
        assert(progress(ops, i + 1, i + 1, no_block(), at) == (
            Seq::<Fused>::empty(),
            no_block(),
        ));
        assert(lead + Seq::<Fused>::empty() =~= lead);
        assert(progress(ops, i, i + 1, b, base) == (lead, no_block()));
        assert(nested(ops, i + 1, i + 1));
        assert(nested(ops, i, i + 1));
        assert(bare_shots_on_top(ops, i + 1, i + 1));
        assert(bare_shots_on_top(ops, i, i + 1));
        lemma_top_step(prog, list, i, hi, b, base, i + 1, lead, no_block());
    }
}

/// Alignment in and after the body of an op.
proof fn lemma_aligned_body<A>(
    prog: ProgramView<A>,
    list: Seq<Fused>,
    i: int,
    hi: int,
    b: Pending,
    base: int,
    top: bool,
    s: int,
    e: int,
)
    requires
        aligned(prog, list, i, hi, b, base, top),
        i < hi,
        fusible(prog.ops[i]) is None,
        body_of(prog.ops[i]) == Some((s, e)),
    ensures
        ({
            let pre = flushed(b);
            let at = base + pre.len() + 1;
            let inner = fuse(prog.ops, s, e, no_block(), at);
            let rest = fuse(prog.ops, e, hi, no_block(), at + inner.len());
            &&& s == i + 1
            &&& s <= e <= hi
            &&& aligned(prog, list, s, e, no_block(), at, false)
            &&& aligned(prog, list, e, hi, no_block(), at + inner.len(), top)
            &&& fuse(prog.ops, i, hi, b, base).len() == pre.len() + 1 + inner.len() + rest.len()
            &&& pre.len() > 0 ==> list[base] == pre[0]
            &&& list[base + pre.len()] == Fused::Original(
                repointed(prog.ops[i], at, inner.len() as int),
            )
            &&& inner.len() <= e - s
            &&& s < e ==> inner.len() > 0
        }),
{
    let ops = prog.ops;
    let op = ops[i];
    let pre = flushed(b);
    let at = base + pre.len() + 1;
    let inner = fuse(ops, s, e, no_block(), at);
    let x = Fused::Original(repointed(op, at, inner.len() as int));
    let rest = fuse(ops, e, hi, no_block(), at + inner.len());
    let lead = pre + seq![x];
    assert(fuse(ops, i, hi, b, base) == lead + inner + rest);
    lemma_list_at(list, base, lead + inner, rest);
    lemma_list_at(list, base, lead, inner);
    assert(list[base + pre.len()] == lead[pre.len() as int]);
    if pre.len() > 0 {
        assert(list[base + 0] == lead[0]);
    }
    law_fusion_never_grows_nested(ops, s, e, at);
    if top {
        lemma_inner_no_bare(ops, i, hi, s, e);
        assert(progress(ops, e, e, no_block(), at + inner.len()) == (
            Seq::<Fused>::empty(),
            no_block(),
        ));
        assert(lead + inner + Seq::<Fused>::empty() =~= lead + inner);
        assert(progress(ops, i, e, b, base) == (lead + inner, no_block()));
        assert(nested(ops, e, e));
        assert(nested(ops, i, e));
        assert(bare_shots_on_top(ops, e, e));
        assert(bare_shots_on_top(ops, i, e));
        lemma_top_step(prog, list, i, hi, b, base, e, lead + inner, no_block());
    }
}

/// From a place where list and program are aligned, a run of the program that ends
/// well is a run of the list that ends the same.
proof fn lemma_agrees<A: Copy, B: SimBackend<A>>(
    prog: ProgramView<A>,
    list: Seq<Fused>,
    fuel: nat,
    i: int,
    hi: int,
    b: Pending,
    base: int,
    top: bool,
    st: Machine<B::Model, A, B::Value>,
)
    requires
        exact::<A, B>(),
        aligned(prog, list, i, hi, b, base, top),
        performed::<A, B>(prog, b.gates, st) is Ok,
        run::<A, B>(
            prog,
            fuel,
            i,
            hi,
            unbound(),
            performed::<A, B>(prog, b.gates, st)->Ok_0,
        ) is Ok,
    ensures
        run_fused::<A, B>(
            prog,
            list,
            (fuel + occupied(b)) as nat,
            base,
            base + fuse(prog.ops, i, hi, b, base).len(),
            unbound(),
            st,
        ) == run::<A, B>(
            prog,
            fuel,
            i,
            hi,
            unbound(),
            performed::<A, B>(prog, b.gates, st)->Ok_0,
        ),
    decreases fuel, 2int,
{
    let ops = prog.ops;
    let here = fuse(ops, i, hi, b, base);
    let end = base + here.len();
    let st1 = performed::<A, B>(prog, b.gates, st)->Ok_0;
    if i >= hi {
        if b.q0 is Some {
            assert(list[base] == list.subrange(base, end)[0]);
        }
        lemma_flush_step::<A, B>(prog, list, fuel, base, end, b, st);
    } else {
        let op = ops[i];
        match fusible(op) {
            Some((q, p)) => lemma_gate_agrees::<A, B>(prog, list, fuel, i, hi, b, base, top, st),
            None => match body_of(op) {
                Some((s, e)) => {
                    let f = (fuel - 1) as nat;
                    let pre = flushed(b);
                    let at = base + pre.len() + 1;
                    let n = fuse(ops, s, e, no_block(), at).len() as int;
                    lemma_aligned_body(prog, list, i, hi, b, base, top, s, e);
                    lemma_flush_step::<A, B>(prog, list, fuel, base, end, b, st);
                    lemma_body_agrees::<A, B>(
                        prog,
                        list,
                        f,
                        i,
                        hi,
                        s,
                        e,
                        at,
                        n,
                        end,
                        top,
                        st1,
                    );
                },
                None => {
                    lemma_aligned_plain(prog, list, i, hi, b, base, top);
                    lemma_flush_step::<A, B>(prog, list, fuel, base, end, b, st);
                    lemma_plain_agrees::<A, B>(prog, list, fuel, i, hi, b, base, top, st1);
                },
            },
        }
    }
}

/// The agreement at a gate that a block takes.
proof fn lemma_gate_agrees<A: Copy, B: SimBackend<A>>(
    prog: ProgramView<A>,
    list: Seq<Fused>,
    fuel: nat,
    i: int,
    hi: int,
    b: Pending,
    base: int,
    top: bool,
    st: Machine<B::Model, A, B::Value>,
)
    requires
        exact::<A, B>(),
        aligned(prog, list, i, hi, b, base, top),
        i < hi,
        fusible(prog.ops[i]) is Some,
        performed::<A, B>(prog, b.gates, st) is Ok,
        run::<A, B>(
            prog,
            fuel,
            i,
            hi,
            unbound(),
            performed::<A, B>(prog, b.gates, st)->Ok_0,
        ) is Ok,
    ensures
        run_fused::<A, B>(
            prog,
            list,
            (fuel + occupied(b)) as nat,
            base,
            base + fuse(prog.ops, i, hi, b, base).len(),
            unbound(),
            st,
        ) == run::<A, B>(
            prog,
            fuel,
            i,
            hi,
            unbound(),
            performed::<A, B>(prog, b.gates, st)->Ok_0,
        ),
    decreases fuel, 1int,
{
    let ops = prog.ops;
    let end = base + fuse(ops, i, hi, b, base).len();
    let st1 = performed::<A, B>(prog, b.gates, st)->Ok_0;
    let f = (fuel - 1) as nat;
    let op = ops[i];
    law_unbound_operands_stay(op, unbound());
    let (q, p) = fusible(op)->0;
    let m = merged(b, op, q, p);
    let base2 = base + m.0.len();
    lemma_aligned_gate(prog, list, i, hi, b, base, top);
    let s2 = acted::<A, B>(prog, op, st1)->Ok_0;
    assert(run::<A, B>(prog, fuel, i, hi, unbound(), st1) == run::<A, B>(
        prog,
        f,
        i + 1,
        hi,
        unbound(),
        s2,
    ));
    if joined(b, q, p) is Some {
        assert(m.1.gates.drop_last() =~= b.gates);
        assert(performed::<A, B>(prog, m.1.gates, st) == Ok::<
            Machine<B::Model, A, B::Value>,
            Fault,
        >(s2));
        lemma_agrees::<A, B>(prog, list, f, i + 1, hi, m.1, base2, top, st);
        lemma_fused_budget::<A, B>(
            prog,
            list,
            fuel,
            (fuel + occupied(b)) as nat,
            base,
            end,
            unbound(),
            st,
        );
    } else {
        assert(m.1.gates.drop_last() =~= Seq::<IrOp>::empty());
        assert(performed::<A, B>(prog, Seq::<IrOp>::empty(), st1) == Ok::<
            Machine<B::Model, A, B::Value>,
            Fault,
        >(st1));
        assert(performed::<A, B>(prog, m.1.gates, st1) == Ok::<
            Machine<B::Model, A, B::Value>,
            Fault,
        >(s2));
        lemma_agrees::<A, B>(prog, list, f, i + 1, hi, m.1, base2, top, st1);
        lemma_flush_step::<A, B>(prog, list, fuel, base, end, b, st);
    }
}

/// The agreement at an op without a body that no block takes, after the block
/// before it.
proof fn lemma_plain_agrees<A: Copy, B: SimBackend<A>>(
    prog: ProgramView<A>,
    list: Seq<Fused>,
    fuel: nat,
    i: int,
    hi: int,
    b: Pending,
    base: int,
    top: bool,
    st: Machine<B::Model, A, B::Value>,
)
    requires
        exact::<A, B>(),
        aligned(prog, list, i, hi, b, base, top),
        i < hi,
        fusible(prog.ops[i]) is None,
        body_of(prog.ops[i]) is None,
        run::<A, B>(prog, fuel, i, hi, unbound(), st) is Ok,
    ensures
        run_fused::<A, B>(
            prog,
            list,
            fuel,
            base + flushed(b).len(),
            base + fuse(prog.ops, i, hi, b, base).len(),
            unbound(),
            st,
        ) == run::<A, B>(prog, fuel, i, hi, unbound(), st),
    decreases fuel, 1int,
{
    let ops = prog.ops;
    let op = ops[i];
    let pre = flushed(b);
    let ph = base + pre.len();
    let at = ph + 1;
    let f = (fuel - 1) as nat;
    lemma_aligned_plain(prog, list, i, hi, b, base, top);
    law_unbound_operands_stay(op, unbound());
    law_unbound_operands_stay(repointed(op, 0, 0), unbound());
    if let IrOp::Shot(count, _, len) = op {
        assert(top);
        lemma_progress_flush(ops, 0, i, no_block(), 0);
        assert(list.subrange(0, ph) =~= list.subrange(0, base) + list.subrange(base, ph));
        assert(fuse(ops, 0, i, no_block(), 0) == list.subrange(0, ph));
        assert(list.subrange(0, 0) =~= Seq::<Fused>::empty());
        assert(nested(ops, 0, 0));
        assert(bare_shots_on_top(ops, 0, 0));
        assert(aligned(prog, list, 0, i, no_block(), 0, true));
        lemma_prefix_repeats::<A, B>(prog, list, f, count as nat, i, ph, st);
        let s2 = repeated::<A, B>(prog, f, count as nat, 0, i, unbound(), st)->Ok_0;
        assert(performed::<A, B>(prog, no_block().gates, s2) == Ok::<
            Machine<B::Model, A, B::Value>,
            Fault,
        >(s2));
        lemma_agrees::<A, B>(prog, list, f, i + 1, hi, no_block(), at, top, s2);
    } else {
        assert(!(op is Call));
        let s2 = acted::<A, B>(prog, op, st)->Ok_0;
        assert(repointed(op, 0, 0) == op);
        assert(performed::<A, B>(prog, no_block().gates, s2) == Ok::<
            Machine<B::Model, A, B::Value>,
            Fault,
        >(s2));
        lemma_agrees::<A, B>(prog, list, f, i + 1, hi, no_block(), at, top, s2);
    }
}

proof fn law_fusion_never_grows_nested(ops: Seq<IrOp>, s: int, e: int, at: int)
    requires
        nested(ops, s, e),
        s <= e,
    ensures
        fuse(ops, s, e, no_block(), at).len() <= e - s,
        s < e ==> fuse(ops, s, e, no_block(), at).len() > 0,
{
    law_nested_programs_fuse(ops, s, e);
    law_fusion_never_grows(ops, s, e, no_block(), at);
    lemma_fused_not_empty(ops, s, e, no_block(), at);
}

proof fn lemma_fused_not_empty(ops: Seq<IrOp>, i: int, hi: int, b: Pending, base: int)
    requires
        nested(ops, i, hi),
        pending_ok(b),
    ensures
        i < hi || b.q0 is Some ==> fuse(ops, i, hi, b, base).len() > 0,
    decreases hi - i,
{
    if i < hi {
        if let Some((q, p)) = fusible(ops[i]) {
            let m = merged(b, ops[i], q, p);
            lemma_merged_ok(b, ops[i]);
            lemma_fused_not_empty(ops, i + 1, hi, m.1, base + m.0.len());
        }
    }
}

proof fn lemma_inner_no_bare(ops: Seq<IrOp>, i: int, hi: int, s: int, e: int)
    requires
        i < hi,
        bare_shots_on_top(ops, i, hi),
        body_of(ops[i]) == Some((s, e)),
    ensures
        no_bare_shot(ops, s, e),
        bare_shots_on_top(ops, e, hi),
{
}

/// The agreement at an op with a body.
proof fn lemma_body_agrees<A: Copy, B: SimBackend<A>>(
    prog: ProgramView<A>,
    list: Seq<Fused>,
    f: nat,
    i: int,
    hi: int,
    s: int,
    e: int,
    at: int,
    n: int,
    end: int,
    top: bool,
    st: Machine<B::Model, A, B::Value>,
)
    requires
        exact::<A, B>(),
        i < hi,
        0 <= i < prog.ops.len(),
        body_of(prog.ops[i]) == Some((s, e)),
        s <= e,
        fusible(prog.ops[i]) is None,
        aligned(prog, list, s, e, no_block(), at, false),
        n == fuse(prog.ops, s, e, no_block(), at).len(),
        n <= e - s,
        s < e ==> n > 0,
        aligned(prog, list, e, hi, no_block(), at + n, top),
        end == at + n + fuse(prog.ops, e, hi, no_block(), at + n).len(),
        at > 0,
        list[at - 1] == Fused::Original(repointed(prog.ops[i], at, n)),
        run::<A, B>(prog, (f + 1) as nat, i, hi, unbound(), st) is Ok,
    ensures
        run_fused::<A, B>(prog, list, (f + 1) as nat, at - 1, end, unbound(), st) == run::<A, B>(
            prog,
            (f + 1) as nat,
            i,
            hi,
            unbound(),
            st,
        ),
    decreases f, 3int,
{
    let op = prog.ops[i];
    let op2 = repointed(op, at, n);
    law_unbound_operands_stay(op, unbound());
    law_unbound_operands_stay(op2, unbound());
    assert(performed::<A, B>(prog, no_block().gates, st) == Ok::<
        Machine<B::Model, A, B::Value>,
        Fault,
    >(st));
    match op {
        IrOp::IfEq(c, v, off, len) | IrOp::IfNe(c, v, off, len) => {
            if taken(op, st.classical) {
                lemma_agrees::<A, B>(prog, list, f, s, e, no_block(), at, false, st);
                let s2 = run::<A, B>(prog, f, s, e, unbound(), st)->Ok_0;
                lemma_agrees::<A, B>(prog, list, f, e, hi, no_block(), at + n, top, s2);
            } else {
                lemma_agrees::<A, B>(prog, list, f, e, hi, no_block(), at + n, top, st);
            }
        },
        IrOp::Shot(count, off, len) => {
            lemma_inner_repeats::<A, B>(prog, list, f, count as nat, s, e, at, st);
            let s2 = repeated::<A, B>(prog, f, count as nat, s, e, unbound(), st)->Ok_0;
            lemma_agrees::<A, B>(prog, list, f, e, hi, no_block(), at + n, top, s2);
        },
        _ => {},
    }
}

proof fn lemma_inner_repeats<A: Copy, B: SimBackend<A>>(
    prog: ProgramView<A>,
    list: Seq<Fused>,
    fuel: nat,
    count: nat,
    s: int,
    e: int,
    at: int,
    st: Machine<B::Model, A, B::Value>,
)
    requires
        exact::<A, B>(),
        aligned(prog, list, s, e, no_block(), at, false),
        repeated::<A, B>(prog, fuel, count, s, e, unbound(), st) is Ok,
    ensures
        repeated_fused::<A, B>(
            prog,
            list,
            fuel,
            count,
            at,
            at + fuse(prog.ops, s, e, no_block(), at).len(),
            unbound(),
            st,
        ) == repeated::<A, B>(prog, fuel, count, s, e, unbound(), st),
    decreases fuel, 0int,
{
    if count > 0 {
        let f = (fuel - 1) as nat;
        let g = grounded::<A, B>(st);
        lemma_agrees::<A, B>(prog, list, f, s, e, no_block(), at, false, g);
        let r = run::<A, B>(prog, f, s, e, unbound(), g)->Ok_0;
        let t = tallied::<A, B>(r)->Ok_0;
        lemma_inner_repeats::<A, B>(prog, list, f, (count - 1) as nat, s, e, at, t);
    }
}

proof fn lemma_prefix_repeats<A: Copy, B: SimBackend<A>>(
    prog: ProgramView<A>,
    list: Seq<Fused>,
    fuel: nat,
    count: nat,
    i: int,
    ph: int,
    st: Machine<B::Model, A, B::Value>,
)
    requires
        exact::<A, B>(),
        0 <= ph,
        aligned(prog, list, 0, i, no_block(), 0, true),
        ph == fuse(prog.ops, 0, i, no_block(), 0).len(),
        repeated::<A, B>(prog, fuel, count, 0, i, unbound(), st) is Ok,
    ensures
        repeated_fused::<A, B>(prog, list, fuel, count, 0, ph, unbound(), st) == repeated::<A, B>(
            prog,
            fuel,
            count,
            0,
            i,
            unbound(),
            st,
        ),
    decreases fuel, 0int,
{
    if count > 0 {
        let f = (fuel - 1) as nat;
        let g = grounded::<A, B>(st);
        lemma_agrees::<A, B>(prog, list, f, 0, i, no_block(), 0, true, g);
        let r = run::<A, B>(prog, f, 0, i, unbound(), g)->Ok_0;
        let t = tallied::<A, B>(r)->Ok_0;
        lemma_prefix_repeats::<A, B>(prog, list, f, (count - 1) as nat, i, ph, t);
    }
}

/// On an exact backend, executing the fused list of a program gives what executing
/// the program gives: for every properly nested program whose repetitions without a
/// body stand outside all bodies, whenever the unfused run ends well.
pub proof fn law_fused_execution_agrees<A: Copy, B: SimBackend<A>>(
    prog: ProgramView<A>,
    fuel: nat,
    shots: nat,
    st: Machine<B::Model, A, B::Value>,
)
    requires
        exact::<A, B>(),
        prog.len <= 16384,
        prog.len <= prog.ops.len(),
        nested(prog.ops, 0, prog.len as int),
        bare_shots_on_top(prog.ops, 0, prog.len as int),
    ensures
        ({
            let list = fuse(prog.ops, 0, prog.len as int, no_block(), 0);
            &&& executed::<A, B>(prog, fuel, st) is Ok ==> executed_fused::<A, B>(
                prog,
                list,
                fuel,
                st,
            ) == executed::<A, B>(prog, fuel, st)
            &&& executed_shots::<A, B>(prog, fuel, shots, st) is Ok ==> executed_fused_shots::<
                A,
                B,
            >(prog, list, fuel, shots, st) == executed_shots::<A, B>(prog, fuel, shots, st)
        }),
{
    let n = prog.len as int;
    let list = fuse(prog.ops, 0, n, no_block(), 0);
    if !has_calls(prog) {
        law_fusion_never_grows_nested(prog.ops, 0, n, 0);
        assert(list.subrange(0, list.len() as int) =~= list);
        assert(list.subrange(0, 0) =~= Seq::<Fused>::empty());
        assert(aligned(prog, list, 0, n, no_block(), 0, true));
        let s0 = started(st);
        assert(performed::<A, B>(prog, no_block().gates, s0) == Ok::<
            Machine<B::Model, A, B::Value>,
            Fault,
        >(s0));
        if executed::<A, B>(prog, fuel, st) is Ok {
            lemma_agrees::<A, B>(prog, list, fuel, 0, n, no_block(), 0, true, s0);
        }
        if executed_shots::<A, B>(prog, fuel, shots, st) is Ok {
            lemma_prefix_repeats::<A, B>(
                prog,
                list,
                fuel,
                shots,
                n,
                list.len() as int,
                s0,
            );
        }
    }
}

proof fn lemma_tableau_run<A: Copy>(m: Tableau, gs: Seq<Gate<A>>)
    ensures
        evolved_seq::<A, StabilizerBackend>(m, gs) == evolved_all(m, gs),
        takes_each::<A, StabilizerBackend>(m, gs) ==> forall|i: int|
            0 <= i < gs.len() ==> tableau_gate(#[trigger] gs[i]),
    decreases gs.len(),
{
    if gs.len() > 0 {
        lemma_tableau_run(m, gs.drop_last());
        if takes_each::<A, StabilizerBackend>(m, gs) {
            assert forall|i: int| 0 <= i < gs.len() implies tableau_gate(#[trigger] gs[i]) by {
                if i < gs.len() - 1 {
                    assert(tableau_gate(gs.drop_last()[i]));
                }
            }
        }
    }
}

/// The tableau engine is exact, so fused and unfused runs agree on it.
pub proof fn law_tableau_is_exact<A: Copy>()
    ensures
        exact::<A, StabilizerBackend>(),
{
    assert forall|m: Tableau, q: u8, p: Option<u8>, gs: Seq<Gate<A>>|
        takes_each::<A, StabilizerBackend>(m, gs) implies #[trigger] <StabilizerBackend as SimBackend<
        A,
    >>::takes_block(m, q, p, gs) && <StabilizerBackend as SimBackend<A>>::blended(m, q, p, gs)
        == evolved_seq::<A, StabilizerBackend>(m, gs) by {
        lemma_tableau_run(m, gs);
    }
}

/// A block can take the gates on one or two qubits, and no other op; it is told their qubits
/// in order, and a gate that names one qubit twice as one on that qubit.
pub proof fn law_gates_on_two_qubits_are_fusible(op: IrOp)
    ensures
        match fusible(op) {
            Some((q, p)) => {
                let qs = qubits_of(op);
                &&& is_gate(op)
                &&& !(op is MCX)
                &&& 1 <= qs.len() <= 2
                &&& q == qs[0]
                &&& p == if qs.len() == 2 && qs[1] != qs[0] {
                    Some(qs[1])
                } else {
                    None
                }
            },
            None => !is_gate(op) || op is MCX || qubits_of(op).len() > 2,
        },
{
}

/// Whether a block, or a gate on `q` and maybe `p`, acts on qubit `u`.
pub open spec fn touches(b: Pending, q: u8, p: Option<u8>, u: u8) -> bool {
    b.q0 == Some(u) || b.q1 == Some(u) || q == u || p == Some(u)
}

/// A gate joins a block whenever one pair of qubits holds both, and the block then acts on
/// exactly the qubits of both; else it finishes the block and starts the next.
pub proof fn law_gates_join_while_two_qubits_suffice(
    b: Pending,
    q: u8,
    p: Option<u8>,
    x: u8,
    y: u8,
)
    requires
        b.q0 is None ==> b.q1 is None,
        b.q0 is Some ==> b.q1 != b.q0,
        p != Some(q),
    ensures
        match joined(b, q, p) {
            Some((q0, q1)) => forall|u: u8| #[trigger]
                touches(b, q, p, u) <==> u == q0 || q1 == Some(u),
            None => exists|u: u8| #[trigger] touches(b, q, p, u) && u != x && u != y,
        },
{
    if joined(b, q, p) is None {
        assert(touches(b, q, p, b.q0->0));
        assert(touches(b, q, p, q));
        if b.q1 is Some {
            assert(touches(b, q, p, b.q1->0));
        }
        if p is Some {
            assert(touches(b, q, p, p->0));
        }
    }
}

} // verus!
