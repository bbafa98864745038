//! Accepted programs run without leaving their bounds, and structured ones end.
use crate::backend::SimBackend;
use crate::grammar::Lowered;
use crate::ir::{extent, IrOp, Program, ProgramView, Sub, MAX_CLASSICAL};
use crate::lexer::Literal;
use crate::machine::{
    acted, bound, executed, executed_shots, grounded, renamed_op, repeated, run, started, taken,
    tallied, unbound, Fault, Machine,
};
use crate::parser::spells;
use crate::sim::FUEL;
use crate::wellformed::{bodies_inside, body_of, lemma_nested_join, nested, op_ok, well_formed};
use vstd::prelude::*;

verus! {

/// A program whose indices all stay inside its pools.
pub open spec fn in_bounds<A>(p: ProgramView<A>) -> bool {
    &&& p.len <= p.sub_len <= p.ops.len()
    &&& p.num_consts <= p.consts.len()
    &&& p.num_estimate_terms <= p.estimate_terms.len()
    &&& p.num_subs <= p.subs.len()
    &&& forall|i: int|
        0 <= i < p.sub_len ==> op_ok(
            #[trigger] p.ops[i],
            p.num_qubits,
            p.num_consts as nat,
            p.num_estimate_terms as nat,
            p.subs.take(p.num_subs as int).map_values(|s: Sub| s.nparams),
        )
    &&& bodies_inside(p.ops.take(p.sub_len as int))
    &&& forall|k: int|
        0 <= k < p.num_subs ==> (#[trigger] p.subs[k]).off + p.subs[k].len <= p.sub_len
            && p.subs[k].nparams <= 3
}

/// Well-formed programs, and so all accepted ones, stay inside their pools.
pub proof fn law_well_formed_programs_are_in_bounds(prog: Program<Literal>, l: Lowered)
    requires
        well_formed(l),
        spells(prog, l),
    ensures
        in_bounds(prog@),
{
    let p = prog@;
    assert(p.subs.take(p.num_subs as int) =~= l.subs);
    assert(p.ops.take(p.sub_len as int) =~= l.ops);
    assert forall|i: int| 0 <= i < p.sub_len implies op_ok(
        #[trigger] p.ops[i],
        p.num_qubits,
        p.num_consts as nat,
        p.num_estimate_terms as nat,
        p.subs.take(p.num_subs as int).map_values(|s: Sub| s.nparams),
    ) by {
        assert(l.ops[i] == p.ops[i]);
    }
    assert forall|k: int| 0 <= k < p.num_subs implies (#[trigger] p.subs[k]).off + p.subs[k].len
        <= p.sub_len && p.subs[k].nparams <= 3 by {
        assert(l.subs[k] == p.subs[k]);
    }
}

/// A fault that comes from outside the program: the backend, the histogram or the
/// budget.
pub open spec fn outside_fault(e: Fault) -> bool {
    e == Fault::Rejected || e == Fault::Histogram || e == Fault::OutOfFuel
}

/// Whether a step keeps enough classical bytes and breaks no bound.
spec fn bounded<M, A, V>(r: Result<Machine<M, A, V>, Fault>) -> bool {
    match r {
        Ok(s) => s.classical.len() >= MAX_CLASSICAL,
        Err(e) => outside_fault(e),
    }
}

proof fn lemma_acted_bounded<A: Copy, B: SimBackend<A>>(
    p: ProgramView<A>,
    i: int,
    remap: Seq<Option<u8>>,
    st: Machine<B::Model, A, B::Value>,
)
    requires
        in_bounds(p),
        0 <= i < p.sub_len,
        st.classical.len() >= MAX_CLASSICAL,
        body_of(p.ops[i]) is None,
        !(p.ops[i] is Shot),
        !(p.ops[i] is Call),
    ensures
        bounded(acted::<A, B>(p, renamed_op(p.ops[i], remap), st)),
{
    assert(op_ok(
        p.ops[i],
        p.num_qubits,
        p.num_consts as nat,
        p.num_estimate_terms as nat,
        p.subs.take(p.num_subs as int).map_values(|s: Sub| s.nparams),
    ));
}

proof fn lemma_run_bounded<A: Copy, B: SimBackend<A>>(
    p: ProgramView<A>,
    fuel: nat,
    i: int,
    end: int,
    remap: Seq<Option<u8>>,
    st: Machine<B::Model, A, B::Value>,
)
    requires
        in_bounds(p),
        0 <= i,
        end <= p.sub_len,
        st.classical.len() >= MAX_CLASSICAL,
    ensures
        bounded(run::<A, B>(p, fuel, i, end, remap, st)),
    decreases fuel,
{
    if i < end && fuel > 0 {
        let f = (fuel - 1) as nat;
        let raw = p.ops[i];
        let op = renamed_op(raw, remap);
        assert(p.ops.take(p.sub_len as int)[i] == raw);
        assert(op_ok(
            raw,
            p.num_qubits,
            p.num_consts as nat,
            p.num_estimate_terms as nat,
            p.subs.take(p.num_subs as int).map_values(|s: Sub| s.nparams),
        ));
        match op {
            IrOp::IfEq(c, _, off, len) | IrOp::IfNe(c, _, off, len) => {
                assert(body_of(raw) == Some((off as int, off + len)));
                if taken(op, st.classical) {
                    lemma_run_bounded::<A, B>(p, f, off as int, off + len, remap, st);
                    if let Ok(s) = run::<A, B>(p, f, off as int, off + len, remap, st) {
                        lemma_run_bounded::<A, B>(p, f, off + len, end, remap, s);
                    }
                } else {
                    lemma_run_bounded::<A, B>(p, f, off + len, end, remap, st);
                }
            },
            IrOp::Shot(count, off, len) => {
                let (lo, hi, next) = if len == 0 {
                    (0int, i, i + 1)
                } else {
                    (off as int, off + len, off + len)
                };
                lemma_repeated_bounded::<A, B>(p, f, count as nat, lo, hi, remap, st);
                if let Ok(s) = repeated::<A, B>(p, f, count as nat, lo, hi, remap, st) {
                    lemma_run_bounded::<A, B>(p, f, next, end, remap, s);
                }
            },
            IrOp::Call(id, a0, a1, a2) => {
                let sub = p.subs[id as int];
                let inner = bound(sub.nparams, a0, a1, a2);
                assert(p.subs[id as int].off + p.subs[id as int].len <= p.sub_len);
                lemma_run_bounded::<A, B>(p, f, sub.off as int, sub.off + sub.len, inner, st);
                if let Ok(s) = run::<A, B>(p, f, sub.off as int, sub.off + sub.len, inner, st) {
                    lemma_run_bounded::<A, B>(p, f, i + 1, end, remap, s);
                }
            },
            _ => {
                lemma_acted_bounded::<A, B>(p, i, remap, st);
                if let Ok(s) = acted::<A, B>(p, op, st) {
                    lemma_run_bounded::<A, B>(p, f, i + 1, end, remap, s);
                }
            },
        }
    }
}

proof fn lemma_repeated_bounded<A: Copy, B: SimBackend<A>>(
    p: ProgramView<A>,
    fuel: nat,
    count: nat,
    lo: int,
    hi: int,
    remap: Seq<Option<u8>>,
    st: Machine<B::Model, A, B::Value>,
)
    requires
        in_bounds(p),
        0 <= lo,
        hi <= p.sub_len,
        st.classical.len() >= MAX_CLASSICAL,
    ensures
        bounded(repeated::<A, B>(p, fuel, count, lo, hi, remap, st)),
    decreases fuel,
{
    if count > 0 && fuel > 0 {
        let f = (fuel - 1) as nat;
        let g = grounded::<A, B>(st);
        lemma_run_bounded::<A, B>(p, f, lo, hi, remap, g);
        if let Ok(s) = run::<A, B>(p, f, lo, hi, remap, g) {
            if let Ok(t) = tallied::<A, B>(s) {
                lemma_repeated_bounded::<A, B>(p, f, (count - 1) as nat, lo, hi, remap, t);
            }
        }
    }
}

/// A program that stays inside its pools never fails on an index of its own, given
/// all classical bytes: a run ends well, or the backend, the histogram or the
/// budget stops it.
pub proof fn law_runs_stay_in_bounds<A: Copy, B: SimBackend<A>>(
    p: ProgramView<A>,
    fuel: nat,
    shots: nat,
    st: Machine<B::Model, A, B::Value>,
)
    requires
        in_bounds(p),
        st.classical.len() >= MAX_CLASSICAL,
    ensures
        executed::<A, B>(p, fuel, st) matches Err(e) ==> outside_fault(e),
        executed_shots::<A, B>(p, fuel, shots, st) matches Err(e) ==> outside_fault(e),
{
    let s = started(st);
    lemma_run_bounded::<A, B>(p, fuel, 0, p.len as int, unbound(), s);
    lemma_repeated_bounded::<A, B>(p, fuel, shots, 0, p.len as int, unbound(), s);
}

/// Whether no repetition without a body stands in `ops[lo..hi]`.
pub open spec fn no_bare_shot(ops: Seq<IrOp>, lo: int, hi: int) -> bool {
    forall|j: int| lo <= j < hi ==> !(#[trigger] ops[j] matches IrOp::Shot(_, _, len) && len == 0)
}

/// Whether calls in `ops[lo..hi]` go to the first `r` subprograms only.
pub open spec fn calls_below(ops: Seq<IrOp>, lo: int, hi: int, r: int) -> bool {
    forall|j: int| lo <= j < hi ==> (#[trigger] ops[j] matches IrOp::Call(id, _, _, _) ==> id < r)
}

/// Whether repetitions without a body stand outside all bodies of `ops[lo..hi]`.
pub open spec fn bare_shots_on_top(ops: Seq<IrOp>, lo: int, hi: int) -> bool
    decreases hi - lo,
{
    if lo >= hi {
        true
    } else {
        match body_of(ops[lo]) {
            Some((b, e)) => lo < e <= hi && no_bare_shot(ops, b, e) && bare_shots_on_top(
                ops,
                e,
                hi,
            ),
            None => bare_shots_on_top(ops, lo + 1, hi),
        }
    }
}

/// A structured program: bodies are properly nested, repetitions without a body
/// stand at the top of the main region only, and a subprogram calls only
/// subprograms defined before it.
pub open spec fn structured<A>(p: ProgramView<A>) -> bool {
    &&& p.len <= p.sub_len <= 16384
    &&& p.sub_len <= p.ops.len()
    &&& p.num_subs <= 128
    &&& nested(p.ops, 0, p.len as int)
    &&& bare_shots_on_top(p.ops, 0, p.len as int)
    &&& calls_below(p.ops, 0, p.len as int, p.num_subs as int)
    &&& forall|k: int|
        0 <= k < p.num_subs ==> {
            let s = #[trigger] p.subs[k];
            let (lo, hi) = (s.off as int, s.off + s.len);
            &&& hi <= p.sub_len
            &&& nested(p.ops, lo, hi)
            &&& no_bare_shot(p.ops, lo, hi)
            &&& calls_below(p.ops, lo, hi, k)
        }
}

/// Steps that suffice for `n` ops whose calls go to the first `r` subprograms.
spec fn cost(n: int, r: int) -> int {
    n * 0x1_0000_0001 + r * 0x4001_0000_4001
}

proof fn lemma_inner_ends<A: Copy, B: SimBackend<A>>(
    p: ProgramView<A>,
    fuel: nat,
    i: int,
    end: int,
    r: int,
    remap: Seq<Option<u8>>,
    st: Machine<B::Model, A, B::Value>,
)
    requires
        structured(p),
        0 <= r <= p.num_subs,
        0 <= i <= end <= p.sub_len,
        nested(p.ops, i, end),
        no_bare_shot(p.ops, i, end),
        calls_below(p.ops, i, end, r),
        fuel >= cost(end - i, r),
    ensures
        run::<A, B>(p, fuel, i, end, remap, st) != Err::<Machine<B::Model, A, B::Value>, Fault>(
            Fault::OutOfFuel,
        ),
    decreases fuel,
{
    if i < end {
        let f = (fuel - 1) as nat;
        let raw = p.ops[i];
        let op = renamed_op(raw, remap);
        match op {
            IrOp::IfEq(c, _, off, len) | IrOp::IfNe(c, _, off, len) => {
                assert(body_of(raw) == Some((off as int, off + len)));
                lemma_inner_ends::<A, B>(p, f, off as int, off + len, r, remap, st);
                lemma_inner_ends::<A, B>(p, f, off + len, end, r, remap, st);
                if let Ok(s) = run::<A, B>(p, f, off as int, off + len, remap, st) {
                    lemma_inner_ends::<A, B>(p, f, off + len, end, r, remap, s);
                }
            },
            IrOp::Shot(count, off, len) => {
                assert(body_of(raw) == Some((off as int, off + len)));
                lemma_inner_repeats_end::<A, B>(
                    p,
                    f,
                    count as nat,
                    off as int,
                    off + len,
                    r,
                    remap,
                    st,
                );
                if let Ok(s) = repeated::<A, B>(
                    p,
                    f,
                    count as nat,
                    off as int,
                    off + len,
                    remap,
                    st,
                ) {
                    lemma_inner_ends::<A, B>(p, f, off + len, end, r, remap, s);
                }
            },
            IrOp::Call(id, a0, a1, a2) => {
                assert(id < r);
                let sub = p.subs[id as int];
                let inner = bound(sub.nparams, a0, a1, a2);
                lemma_inner_ends::<A, B>(
                    p,
                    f,
                    sub.off as int,
                    sub.off + sub.len,
                    id as int,
                    inner,
                    st,
                );
                if let Ok(s) = run::<A, B>(p, f, sub.off as int, sub.off + sub.len, inner, st) {
                    lemma_inner_ends::<A, B>(p, f, i + 1, end, r, remap, s);
                }
            },
            _ => {
                if let Ok(s) = acted::<A, B>(p, op, st) {
                    lemma_inner_ends::<A, B>(p, f, i + 1, end, r, remap, s);
                }
            },
        }
    }
}

proof fn lemma_inner_repeats_end<A: Copy, B: SimBackend<A>>(
    p: ProgramView<A>,
    fuel: nat,
    count: nat,
    lo: int,
    hi: int,
    r: int,
    remap: Seq<Option<u8>>,
    st: Machine<B::Model, A, B::Value>,
)
    requires
        structured(p),
        0 <= r <= p.num_subs,
        0 <= lo <= hi <= p.sub_len,
        nested(p.ops, lo, hi),
        no_bare_shot(p.ops, lo, hi),
        calls_below(p.ops, lo, hi, r),
        fuel >= count + cost(hi - lo, r),
    ensures
        repeated::<A, B>(p, fuel, count, lo, hi, remap, st) != Err::<
            Machine<B::Model, A, B::Value>,
            Fault,
        >(Fault::OutOfFuel),
    decreases fuel,
{
    if count > 0 {
        let f = (fuel - 1) as nat;
        let g = grounded::<A, B>(st);
        lemma_inner_ends::<A, B>(p, f, lo, hi, r, remap, g);
        if let Ok(s) = run::<A, B>(p, f, lo, hi, remap, g) {
            if let Ok(t) = tallied::<A, B>(s) {
                lemma_inner_repeats_end::<A, B>(p, f, (count - 1) as nat, lo, hi, r, remap, t);
            }
        }
    }
}

/// Two ranges with repetitions without a body outside all bodies, side by side, are
/// one.
pub proof fn lemma_top_join(ops: Seq<IrOp>, lo: int, mid: int, hi: int)
    requires
        lo <= mid <= hi,
        nested(ops, lo, mid),
        bare_shots_on_top(ops, lo, mid),
        bare_shots_on_top(ops, mid, hi),
    ensures
        bare_shots_on_top(ops, lo, hi),
    decreases mid - lo,
{
    if lo < mid {
        match body_of(ops[lo]) {
            Some((b, e)) => lemma_top_join(ops, e, mid, hi),
            None => lemma_top_join(ops, lo + 1, mid, hi),
        }
    }
}

/// Steps that suffice for the main region from `i` to `end`.
spec fn top_cost(i: int, end: int, r: int) -> int {
    cost(end - i, r) + (end * end) * 0x1_0000_0001
}

proof fn lemma_square_grows(i: int, end: int)
    requires
        0 <= i < end,
    ensures
        end * end >= i * i + 2 * i + 1,
{
    assert(end * end >= i * i + 2 * i + 1) by (nonlinear_arith)
        requires
            0 <= i < end,
    ;
}

proof fn lemma_top_ends<A: Copy, B: SimBackend<A>>(
    p: ProgramView<A>,
    fuel: nat,
    i: int,
    end: int,
    remap: Seq<Option<u8>>,
    st: Machine<B::Model, A, B::Value>,
)
    requires
        structured(p),
        0 <= i <= end <= p.len,
        nested(p.ops, 0, i),
        bare_shots_on_top(p.ops, 0, i),
        nested(p.ops, i, end),
        bare_shots_on_top(p.ops, i, end),
        fuel >= top_cost(i, end, p.num_subs as int),
    ensures
        run::<A, B>(p, fuel, i, end, remap, st) != Err::<Machine<B::Model, A, B::Value>, Fault>(
            Fault::OutOfFuel,
        ),
    decreases fuel,
{
    if i < end {
        let r = p.num_subs as int;
        let f = (fuel - 1) as nat;
        let raw = p.ops[i];
        let op = renamed_op(raw, remap);
        lemma_square_grows(i, end);
        let next = match body_of(raw) {
            Some((b, e)) => e,
            None => i + 1,
        };
        assert(nested(p.ops, i, next)) by {
            assert(nested(p.ops, next, next));
        }
        assert(bare_shots_on_top(p.ops, i, next)) by {
            assert(bare_shots_on_top(p.ops, next, next));
        }
        lemma_nested_join(p.ops, 0, i, next);
        lemma_top_join(p.ops, 0, i, next);
        assert((end - i) * 0x1_0000_0001 >= 0x1_0000_0001);
        match op {
            IrOp::IfEq(c, _, off, len) | IrOp::IfNe(c, _, off, len) => {
                assert(body_of(raw) == Some((off as int, off + len)));
                lemma_inner_ends::<A, B>(p, f, off as int, off + len, r, remap, st);
                lemma_top_ends::<A, B>(p, f, off + len, end, remap, st);
                if let Ok(s) = run::<A, B>(p, f, off as int, off + len, remap, st) {
                    lemma_top_ends::<A, B>(p, f, off + len, end, remap, s);
                }
            },
            IrOp::Shot(count, off, len) => {
                if len == 0 {
                    lemma_top_repeats_end::<A, B>(p, f, count as nat, i, remap, st);
                    if let Ok(s) = repeated::<A, B>(p, f, count as nat, 0, i, remap, st) {
                        lemma_top_ends::<A, B>(p, f, i + 1, end, remap, s);
                    }
                } else {
                    assert(body_of(raw) == Some((off as int, off + len)));
                    lemma_inner_repeats_end::<A, B>(
                        p,
                        f,
                        count as nat,
                        off as int,
                        off + len,
                        r,
                        remap,
                        st,
                    );
                    if let Ok(s) = repeated::<A, B>(
                        p,
                        f,
                        count as nat,
                        off as int,
                        off + len,
                        remap,
                        st,
                    ) {
                        lemma_top_ends::<A, B>(p, f, off + len, end, remap, s);
                    }
                }
            },
            IrOp::Call(id, a0, a1, a2) => {
                assert(id < r);
                let sub = p.subs[id as int];
                let inner = bound(sub.nparams, a0, a1, a2);
                lemma_inner_ends::<A, B>(
                    p,
                    f,
                    sub.off as int,
                    sub.off + sub.len,
                    id as int,
                    inner,
                    st,
                );
                if let Ok(s) = run::<A, B>(p, f, sub.off as int, sub.off + sub.len, inner, st) {
                    lemma_top_ends::<A, B>(p, f, i + 1, end, remap, s);
                }
            },
            _ => {
                if let Ok(s) = acted::<A, B>(p, op, st) {
                    lemma_top_ends::<A, B>(p, f, i + 1, end, remap, s);
                }
            },
        }
    }
}

proof fn lemma_top_repeats_end<A: Copy, B: SimBackend<A>>(
    p: ProgramView<A>,
    fuel: nat,
    count: nat,
    end: int,
    remap: Seq<Option<u8>>,
    st: Machine<B::Model, A, B::Value>,
)
    requires
        structured(p),
        0 <= end <= p.len,
        nested(p.ops, 0, end),
        bare_shots_on_top(p.ops, 0, end),
        fuel >= count + top_cost(0, end, p.num_subs as int),
    ensures
        repeated::<A, B>(p, fuel, count, 0, end, remap, st) != Err::<
            Machine<B::Model, A, B::Value>,
            Fault,
        >(Fault::OutOfFuel),
    decreases fuel,
{
    if count > 0 {
        let f = (fuel - 1) as nat;
        let g = grounded::<A, B>(st);
        assert(end * end >= 0) by (nonlinear_arith);
        lemma_top_ends::<A, B>(p, f, 0, end, remap, g);
        if let Ok(s) = run::<A, B>(p, f, 0, end, remap, g) {
            if let Ok(t) = tallied::<A, B>(s) {
                lemma_top_repeats_end::<A, B>(p, f, (count - 1) as nat, end, remap, t);
            }
        }
    }
}

/// A structured program ends: a run of it never exhausts its budget, however the
/// backend behaves.
pub proof fn law_structured_programs_end<A: Copy, B: SimBackend<A>>(
    p: ProgramView<A>,
    shots: u32,
    st: Machine<B::Model, A, B::Value>,
)
    requires
        structured(p),
    ensures
        executed::<A, B>(p, FUEL as nat, st) != Err::<Machine<B::Model, A, B::Value>, Fault>(
            Fault::OutOfFuel,
        ),
        executed_shots::<A, B>(p, FUEL as nat, shots as nat, st) != Err::<
            Machine<B::Model, A, B::Value>,
            Fault,
        >(Fault::OutOfFuel),
{
    let n = p.len as int;
    assert(n * n <= 16384 * 16384) by (nonlinear_arith)
        requires
            0 <= n <= 16384,
    ;
    lemma_top_ends::<A, B>(p, FUEL as nat, 0, n, unbound(), started(st));
    lemma_top_repeats_end::<A, B>(p, FUEL as nat, shots as nat, n, unbound(), started(st));
}

/// A larger budget does not change the outcome of a run that ends within a
/// smaller one.
pub proof fn law_budget_does_not_matter<A: Copy, B: SimBackend<A>>(
    p: ProgramView<A>,
    small: nat,
    large: nat,
    i: int,
    end: int,
    remap: Seq<Option<u8>>,
    st: Machine<B::Model, A, B::Value>,
)
    requires
        small <= large,
        run::<A, B>(p, small, i, end, remap, st) != Err::<Machine<B::Model, A, B::Value>, Fault>(
            Fault::OutOfFuel,
        ),
    ensures
        run::<A, B>(p, large, i, end, remap, st) == run::<A, B>(p, small, i, end, remap, st),
    decreases small,
{
    if i < end && i < p.ops.len() && small > 0 {
        let f = (small - 1) as nat;
        let g = (large - 1) as nat;
        let op = renamed_op(p.ops[i], remap);
        match op {
            IrOp::IfEq(c, _, off, len) | IrOp::IfNe(c, _, off, len) => {
                if c < st.classical.len() {
                    if taken(op, st.classical) {
                        law_budget_does_not_matter::<A, B>(
                            p,
                            f,
                            g,
                            off as int,
                            off + len,
                            remap,
                            st,
                        );
                        if let Ok(s) = run::<A, B>(p, f, off as int, off + len, remap, st) {
                            law_budget_does_not_matter::<A, B>(p, f, g, off + len, end, remap, s);
                        }
                    } else {
                        law_budget_does_not_matter::<A, B>(p, f, g, off + len, end, remap, st);
                    }
                }
            },
            IrOp::Shot(count, off, len) => {
                let (lo, hi, next) = if len == 0 {
                    (0int, i, i + 1)
                } else {
                    (off as int, off + len, off + len)
                };
                lemma_repeats_budget::<A, B>(p, f, g, count as nat, lo, hi, remap, st);
                if let Ok(s) = repeated::<A, B>(p, f, count as nat, lo, hi, remap, st) {
                    law_budget_does_not_matter::<A, B>(p, f, g, next, end, remap, s);
                }
            },
            IrOp::Call(id, a0, a1, a2) => {
                if id < p.subs.len() && p.subs[id as int].nparams <= 3 {
                    let sub = p.subs[id as int];
                    let inner = bound(sub.nparams, a0, a1, a2);
                    law_budget_does_not_matter::<A, B>(
                        p,
                        f,
                        g,
                        sub.off as int,
                        sub.off + sub.len,
                        inner,
                        st,
                    );
                    if let Ok(s) = run::<A, B>(
                        p,
                        f,
                        sub.off as int,
                        sub.off + sub.len,
                        inner,
                        st,
                    ) {
                        law_budget_does_not_matter::<A, B>(p, f, g, i + 1, end, remap, s);
                    }
                }
            },
            _ => {
                if let Ok(s) = acted::<A, B>(p, op, st) {
                    law_budget_does_not_matter::<A, B>(p, f, g, i + 1, end, remap, s);
                }
            },
        }
    }
}

proof fn lemma_repeats_budget<A: Copy, B: SimBackend<A>>(
    p: ProgramView<A>,
    small: nat,
    large: nat,
    count: nat,
    lo: int,
    hi: int,
    remap: Seq<Option<u8>>,
    st: Machine<B::Model, A, B::Value>,
)
    requires
        small <= large,
        repeated::<A, B>(p, small, count, lo, hi, remap, st) != Err::<
            Machine<B::Model, A, B::Value>,
            Fault,
        >(Fault::OutOfFuel),
    ensures
        repeated::<A, B>(p, large, count, lo, hi, remap, st) == repeated::<A, B>(
            p,
            small,
            count,
            lo,
            hi,
            remap,
            st,
        ),
    decreases small,
{
    if count > 0 && small > 0 {
        let f = (small - 1) as nat;
        let g = (large - 1) as nat;
        let s0 = grounded::<A, B>(st);
        law_budget_does_not_matter::<A, B>(p, f, g, lo, hi, remap, s0);
        if let Ok(s) = run::<A, B>(p, f, lo, hi, remap, s0) {
            if let Ok(t) = tallied::<A, B>(s) {
                lemma_repeats_budget::<A, B>(p, f, g, (count - 1) as nat, lo, hi, remap, t);
            }
        }
    }
}

/// The sum of all histogram bins.
pub open spec fn total(h: Seq<u32>) -> nat
    decreases h.len(),
{
    if h.len() == 0 {
        0
    } else {
        total(h.drop_last()) + h.last() as nat
    }
}

proof fn lemma_total_update(h: Seq<u32>, i: int, v: u32)
    requires
        0 <= i < h.len(),
    ensures
        total(h.update(i, v)) == total(h) - h[i] + v,
    decreases h.len(),
{
    if i == h.len() - 1 {
        assert(h.update(i, v).drop_last() =~= h.drop_last());
    } else {
        assert(h.update(i, v).drop_last() =~= h.drop_last().update(i, v));
        lemma_total_update(h.drop_last(), i, v);
    }
}

proof fn lemma_total_zero(n: nat)
    ensures
        total(Seq::new(n, |i: int| 0u32)) == 0,
    decreases n,
{
    if n > 0 {
        let h = Seq::new(n, |i: int| 0u32);
        assert(h.drop_last() =~= Seq::new((n - 1) as nat, |i: int| 0u32));
        lemma_total_zero((n - 1) as nat);
    }
}

/// A program whose ops, bodies and called subprograms lie within its main region and
/// its subprogram region.
pub open spec fn contained<A>(p: ProgramView<A>) -> bool {
    &&& extent(p) <= p.ops.len()
    &&& forall|i: int|
        0 <= i < extent(p) ==> (body_of(#[trigger] p.ops[i]) matches Some((_, e)) ==> e <= extent(
            p,
        ))
    &&& forall|i: int|
        0 <= i < extent(p) ==> (#[trigger] p.ops[i] matches IrOp::Call(id, _, _, _) ==> id
            < p.subs.len() ==> p.subs[id as int].off + p.subs[id as int].len <= extent(p))
}

/// Programs that stay inside their pools, and so all accepted ones, are contained.
pub proof fn law_programs_in_bounds_are_contained<A>(p: ProgramView<A>)
    requires
        in_bounds(p),
    ensures
        contained(p),
{
    assert forall|i: int| 0 <= i < extent(p) implies (body_of(#[trigger] p.ops[i]) matches Some(
        (_, e),
    ) ==> e <= extent(p)) by {
        assert(p.ops.take(p.sub_len as int)[i] == p.ops[i]);
    }
    assert forall|i: int| 0 <= i < extent(p) implies (#[trigger] p.ops[i] matches IrOp::Call(
        id,
        _,
        _,
        _,
    ) ==> id < p.subs.len() ==> p.subs[id as int].off + p.subs[id as int].len <= extent(p)) by {
        assert(op_ok(
            p.ops[i],
            p.num_qubits,
            p.num_consts as nat,
            p.num_estimate_terms as nat,
            p.subs.take(p.num_subs as int).map_values(|s: Sub| s.nparams),
        ));
        if let IrOp::Call(id, _, _, _) = p.ops[i] {
            assert(p.subs[id as int].off + p.subs[id as int].len <= p.sub_len);
        }
    }
}

/// Whether no repetition stands in a program.
pub open spec fn without_shots<A>(p: ProgramView<A>) -> bool {
    forall|j: int| 0 <= j < extent(p) ==> !((#[trigger] p.ops[j]) is Shot)
}

proof fn lemma_run_keeps_histogram<A: Copy, B: SimBackend<A>>(
    p: ProgramView<A>,
    fuel: nat,
    i: int,
    end: int,
    remap: Seq<Option<u8>>,
    st: Machine<B::Model, A, B::Value>,
)
    requires
        contained(p),
        without_shots(p),
        0 <= i,
        end <= extent(p),
    ensures
        run::<A, B>(p, fuel, i, end, remap, st) matches Ok(s) ==> s.histogram == st.histogram,
    decreases fuel,
{
    if i < end && fuel > 0 && i < p.ops.len() {
        let f = (fuel - 1) as nat;
        let op = renamed_op(p.ops[i], remap);
        match op {
            IrOp::IfEq(c, _, off, len) | IrOp::IfNe(c, _, off, len) => {
                assert(body_of(p.ops[i]) == Some((off as int, off + len)));
                lemma_run_keeps_histogram::<A, B>(p, f, off as int, off + len, remap, st);
                lemma_run_keeps_histogram::<A, B>(p, f, off + len, end, remap, st);
                if let Ok(s) = run::<A, B>(p, f, off as int, off + len, remap, st) {
                    lemma_run_keeps_histogram::<A, B>(p, f, off + len, end, remap, s);
                }
            },
            IrOp::Shot(count, off, len) => {
                assert(p.ops[i] is Shot);
            },
            IrOp::Call(id, a0, a1, a2) => {
                assert(p.ops[i] is Call);
                if id < p.subs.len() {
                    let sub = p.subs[id as int];
                    let (lo, hi) = (sub.off as int, sub.off + sub.len);
                    let inner = bound(sub.nparams, a0, a1, a2);
                    lemma_run_keeps_histogram::<A, B>(p, f, lo, hi, inner, st);
                    if let Ok(s) = run::<A, B>(p, f, lo, hi, inner, st) {
                        lemma_run_keeps_histogram::<A, B>(p, f, i + 1, end, remap, s);
                    }
                }
            },
            _ => {
                if let Ok(s) = acted::<A, B>(p, op, st) {
                    lemma_run_keeps_histogram::<A, B>(p, f, i + 1, end, remap, s);
                }
            },
        }
    }
}

proof fn lemma_repeated_counts<A: Copy, B: SimBackend<A>>(
    p: ProgramView<A>,
    fuel: nat,
    count: nat,
    lo: int,
    hi: int,
    remap: Seq<Option<u8>>,
    st: Machine<B::Model, A, B::Value>,
)
    requires
        contained(p),
        without_shots(p),
        0 <= lo,
        hi <= extent(p),
    ensures
        repeated::<A, B>(p, fuel, count, lo, hi, remap, st) matches Ok(s) ==> total(s.histogram)
            == total(st.histogram) + count,
    decreases fuel,
{
    if count > 0 && fuel > 0 {
        let f = (fuel - 1) as nat;
        let s0 = grounded::<A, B>(st);
        lemma_run_keeps_histogram::<A, B>(p, f, lo, hi, remap, s0);
        if let Ok(s) = run::<A, B>(p, f, lo, hi, remap, s0) {
            lemma_tally_counts::<A, B>(s);
            if let Ok(t) = tallied::<A, B>(s) {
                lemma_repeated_counts::<A, B>(p, f, (count - 1) as nat, lo, hi, remap, t);
            }
        }
    }
}

/// Counting a sample adds one to the histogram.
pub proof fn lemma_tally_counts<A: Copy, B: SimBackend<A>>(st: Machine<B::Model, A, B::Value>)
    ensures
        tallied::<A, B>(st) matches Ok(t) ==> total(t.histogram) == total(st.histogram) + 1,
{
    let s = B::sampled(st.model, st.seed);
    if s.2 < st.histogram.len() && st.histogram[s.2 as int] != u32::MAX {
        lemma_total_update(
            st.histogram,
            s.2 as int,
            (st.histogram[s.2 as int] + 1) as u32,
        );
    }
}

/// A program without repetitions of its own counts one sample per execution: one
/// when executed once, `shots` when executed `shots` times.
pub proof fn law_one_sample_per_execution<A: Copy, B: SimBackend<A>>(
    p: ProgramView<A>,
    fuel: nat,
    shots: nat,
    st: Machine<B::Model, A, B::Value>,
)
    requires
        contained(p),
        without_shots(p),
        !p.has_explicit_shot,
    ensures
        executed::<A, B>(p, fuel, st) matches Ok(s) ==> total(s.histogram) == 1,
        executed_shots::<A, B>(p, fuel, shots, st) matches Ok(s) ==> total(s.histogram) == shots,
{
    let s0 = started(st);
    lemma_total_zero(st.histogram.len());
    lemma_run_keeps_histogram::<A, B>(p, fuel, 0, p.len as int, unbound(), s0);
    lemma_repeated_counts::<A, B>(p, fuel, shots, 0, p.len as int, unbound(), s0);
    if let Ok(s) = run::<A, B>(p, fuel, 0, p.len as int, unbound(), s0) {
        lemma_tally_counts::<A, B>(s);
    }
}

/// Runs are reproducible: what the classical bytes and the histogram held before a run
/// does not matter, only how many there are.
pub proof fn law_prior_contents_do_not_matter<A: Copy, B: SimBackend<A>>(
    p: ProgramView<A>,
    fuel: nat,
    shots: nat,
    a: Machine<B::Model, A, B::Value>,
    b: Machine<B::Model, A, B::Value>,
)
    requires
        a.model == b.model,
        a.seed == b.seed,
        a.results == b.results,
        a.classical.len() == b.classical.len(),
        a.histogram.len() == b.histogram.len(),
    ensures
        executed::<A, B>(p, fuel, a) == executed::<A, B>(p, fuel, b),
        executed_shots::<A, B>(p, fuel, shots, a) == executed_shots::<A, B>(p, fuel, shots, b),
{
    assert(started(a) == started(b));
}

} // verus!
