//! The meaning of a fused list.
use crate::backend::{Gate, SimBackend};
use crate::fusion::{fusible, Fused};
use crate::ir::{IrOp, ProgramView};
use crate::machine::{
    acted, bound, executed, executed_shots, gate_of, grounded, renamed_op, started, taken, tallied,
    unbound, Fault, Machine,
};
use vstd::prelude::*;

verus! {

/// The gates of a block with their angles, if every constant exists.
pub open spec fn resolved<A>(ops: Seq<IrOp>, consts: Seq<A>) -> Option<Seq<Gate<A>>> {
    if forall|k: int| 0 <= k < ops.len() ==> gate_of(#[trigger] ops[k], consts) is Some {
        Some(Seq::new(ops.len(), |k: int| gate_of(ops[k], consts)->0))
    } else {
        None
    }
}

/// The effect of a block.
pub open spec fn blocked<A: Copy, B: SimBackend<A>>(
    prog: ProgramView<A>,
    q: u8,
    p: Option<u8>,
    ops: Seq<IrOp>,
    st: Machine<B::Model, A, B::Value>,
) -> Result<Machine<B::Model, A, B::Value>, Fault> {
    match resolved(ops, prog.consts) {
        None => Err(Fault::Pool),
        Some(gs) => if !B::takes_block(st.model, q, p, gs) {
            Err(Fault::Rejected)
        } else {
            Ok(Machine { model: B::blended(st.model, q, p, gs), ..st })
        },
    }
}

/// The entries `i..end` of a fused list executed in order. Blocks replace gates, so
/// a gate that a block could have taken is refused outside one.
pub open spec fn run_fused<A: Copy, B: SimBackend<A>>(
    prog: ProgramView<A>,
    list: Seq<Fused>,
    fuel: nat,
    i: int,
    end: int,
    remap: Seq<Option<u8>>,
    st: Machine<B::Model, A, B::Value>,
) -> Result<Machine<B::Model, A, B::Value>, Fault>
    decreases fuel,
{
    if i >= end {
        Ok(st)
    } else if fuel == 0 {
        Err(Fault::OutOfFuel)
    } else if i >= list.len() {
        Err(Fault::Range)
    } else {
        let f = (fuel - 1) as nat;
        match list[i] {
            Fused::U1(q, ops) => match blocked::<A, B>(prog, q, None, ops, st) {
                Ok(s) => run_fused::<A, B>(prog, list, f, i + 1, end, remap, s),
                Err(e) => Err(e),
            },
            Fused::U2(q, p, ops) => match blocked::<A, B>(prog, q, Some(p), ops, st) {
                Ok(s) => run_fused::<A, B>(prog, list, f, i + 1, end, remap, s),
                Err(e) => Err(e),
            },
            Fused::Original(raw) => {
                let op = renamed_op(raw, remap);
                match op {
                    IrOp::IfEq(c, _, off, len) | IrOp::IfNe(c, _, off, len) => if c
                        >= st.classical.len() {
                        Err(Fault::Classical)
                    } else if taken(op, st.classical) {
                        match run_fused::<A, B>(prog, list, f, off as int, off + len, remap, st) {
                            Ok(s) => run_fused::<A, B>(prog, list, f, off + len, end, remap, s),
                            Err(e) => Err(e),
                        }
                    } else {
                        run_fused::<A, B>(prog, list, f, off + len, end, remap, st)
                    },
                    IrOp::Shot(count, off, len) => {
                        let (lo, hi, next) = if len == 0 {
                            (0int, i, i + 1)
                        } else {
                            (off as int, off + len, off + len)
                        };
                        match repeated_fused::<A, B>(
                            prog,
                            list,
                            f,
                            count as nat,
                            lo,
                            hi,
                            remap,
                            st,
                        ) {
                            Ok(s) => run_fused::<A, B>(prog, list, f, next, end, remap, s),
                            Err(e) => Err(e),
                        }
                    },
                    IrOp::Call(id, a0, a1, a2) => if id >= prog.subs.len()
                        || prog.subs[id as int].nparams > 3 {
                        Err(Fault::Pool)
                    } else {
                        let sub = prog.subs[id as int];
                        match run_fused::<A, B>(
                            prog,
                            list,
                            f,
                            sub.off as int,
                            sub.off + sub.len,
                            bound(sub.nparams, a0, a1, a2),
                            st,
                        ) {
                            Ok(s) => run_fused::<A, B>(prog, list, f, i + 1, end, remap, s),
                            Err(e) => Err(e),
                        }
                    },
                    _ => if fusible(op) is Some {
                        Err(Fault::Rejected)
                    } else {
                        match acted::<A, B>(prog, op, st) {
                            Ok(s) => run_fused::<A, B>(prog, list, f, i + 1, end, remap, s),
                            Err(e) => Err(e),
                        }
                    },
                }
            },
        }
    }
}

/// The entries `lo..hi` executed `count` times, each time from the all-zero state
/// and followed by a sample.
pub open spec fn repeated_fused<A: Copy, B: SimBackend<A>>(
    prog: ProgramView<A>,
    list: Seq<Fused>,
    fuel: nat,
    count: nat,
    lo: int,
    hi: int,
    remap: Seq<Option<u8>>,
    st: Machine<B::Model, A, B::Value>,
) -> Result<Machine<B::Model, A, B::Value>, Fault>
    decreases fuel,
{
    if count == 0 {
        Ok(st)
    } else if fuel == 0 {
        Err(Fault::OutOfFuel)
    } else {
        let f = (fuel - 1) as nat;
        match run_fused::<A, B>(prog, list, f, lo, hi, remap, grounded::<A, B>(st)) {
            Err(e) => Err(e),
            Ok(s) => match tallied::<A, B>(s) {
                Err(e) => Err(e),
                Ok(t) => repeated_fused::<A, B>(
                    prog,
                    list,
                    f,
                    (count - 1) as nat,
                    lo,
                    hi,
                    remap,
                    t,
                ),
            },
        }
    }
}

/// Whether the main region calls a subprogram.
pub open spec fn has_calls<A>(prog: ProgramView<A>) -> bool {
    exists|i: int| 0 <= i < prog.len && (#[trigger] prog.ops[i]) is Call
}

/// A program executed once through its fused list; one with calls is executed
/// unfused.
pub open spec fn executed_fused<A: Copy, B: SimBackend<A>>(
    prog: ProgramView<A>,
    list: Seq<Fused>,
    fuel: nat,
    st: Machine<B::Model, A, B::Value>,
) -> Result<Machine<B::Model, A, B::Value>, Fault> {
    if has_calls(prog) {
        executed::<A, B>(prog, fuel, st)
    } else {
        match run_fused::<A, B>(prog, list, fuel, 0, list.len() as int, unbound(), started(st)) {
            Err(e) => Err(e),
            Ok(s) => if prog.has_explicit_shot {
                Ok(s)
            } else {
                tallied::<A, B>(s)
            },
        }
    }
}

/// A program executed `shots` times through its fused list; one with calls is
/// executed unfused.
pub open spec fn executed_fused_shots<A: Copy, B: SimBackend<A>>(
    prog: ProgramView<A>,
    list: Seq<Fused>,
    fuel: nat,
    shots: nat,
    st: Machine<B::Model, A, B::Value>,
) -> Result<Machine<B::Model, A, B::Value>, Fault> {
    if has_calls(prog) {
        executed_shots::<A, B>(prog, fuel, shots, st)
    } else {
        repeated_fused::<A, B>(
            prog,
            list,
            fuel,
            shots,
            0,
            list.len() as int,
            unbound(),
            started(st),
        )
    }
}

} // verus!
