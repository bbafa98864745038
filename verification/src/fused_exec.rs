//! The executor of fused lists.
use crate::backend::{Gate, Results, SimBackend};
use crate::fused_machine::{
    blocked, executed_fused, executed_fused_shots, repeated_fused, resolved, run_fused,
};
use crate::fusion::{fusible_qubits, seen, FusedOp};
use crate::ir::{IrOp, Program, Sub, MAX_OPS, MAX_SUBS};
use crate::machine::{gate_of, grounded, started, unbound, Fault};
use crate::rng::Lcg64;
use crate::sim::{
    act, bind, clear_bins, clear_bytes, law_unbound_operands_stay, machine, program_has_calls,
    remap_active, resolve, tally, translate_op, try_run_program, try_run_program_shots, Remap, FUEL,
};
use vstd::prelude::*;

verus! {

/// The gates of a block with their angles, or `None` where a constant does not
/// exist.
fn resolve_all<A: Copy>(prog: &Program<A>, ops: &Vec<IrOp>) -> (r: Option<Vec<Gate<A>>>)
    ensures
        match resolved(ops@, prog@.consts) {
            Some(gs) => r is Some && r->0@ == gs,
            None => r is None,
        },
{
    let mut gs: Vec<Gate<A>> = Vec::new();
    let mut i: usize = 0;
    while i < ops.len()
        invariant
            i <= ops@.len(),
            gs@.len() == i,
            forall|k: int|
                0 <= k < i ==> gate_of(#[trigger] ops@[k], prog@.consts) == Some(gs@[k]),
        decreases ops@.len() - i,
    {
        match resolve(prog, ops[i]) {
            Some(g) => {
                gs.push(g);
            },
            None => {
                assert(gate_of(ops@[i as int], prog@.consts) is None);
                return None;
            },
        }
        i += 1;
    }
    assert(gs@ =~= Seq::new(ops@.len(), |k: int| gate_of(ops@[k], prog@.consts)->0));
    Some(gs)
}

/// Applies a block.
fn exec_block<A: Copy, B: SimBackend<A>>(
    prog: &Program<A>,
    q: u8,
    p: Option<u8>,
    ops: &Vec<IrOp>,
    backend: &mut B,
    results: &Results<A, B::Value>,
    classical: &[u8],
    histogram: &[u32],
    rng: &Lcg64,
) -> (r: Result<(), Fault>)
    requires
        old(backend).wf(),
    ensures
        final(backend).wf(),
        match blocked::<A, B>(
            prog@,
            q,
            p,
            ops@,
            machine::<A, B>(*old(backend), results@, classical@, histogram@, rng.0),
        ) {
            Ok(st) => r is Ok && machine::<A, B>(
                *final(backend),
                results@,
                classical@,
                histogram@,
                rng.0,
            ) == st,
            Err(e) => r == Err::<(), Fault>(e),
        },
{
    match resolve_all(prog, ops) {
        None => Err(Fault::Pool),
        Some(gs) => {
            if !backend.accepts_block(q, p, &gs) {
                return Err(Fault::Rejected);
            }
            backend.apply_block(q, p, &gs);
            Ok(())
        },
    }
}

/// Executes the entries `offset..end` of a fused list.
fn exec_fused_ops<A: Copy, B: SimBackend<A>>(
    prog: &Program<A>,
    fused: &Vec<FusedOp>,
    offset: usize,
    end: usize,
    backend: &mut B,
    results: &mut Results<A, B::Value>,
    classical: &mut [u8],
    histogram: &mut [u32],
    rng: &mut Lcg64,
    remap: &Remap,
    fuel: u64,
) -> (r: Result<(), Fault>)
    requires
        old(backend).wf(),
    ensures
        final(backend).wf(),
        match run_fused::<A, B>(
            prog@,
            seen(fused@),
            fuel as nat,
            offset as int,
            end as int,
            remap@,
            machine::<A, B>(
                *old(backend),
                old(results)@,
                old(classical)@,
                old(histogram)@,
                old(rng).0,
            ),
        ) {
            Ok(st) => r is Ok && machine::<A, B>(
                *final(backend),
                final(results)@,
                final(classical)@,
                final(histogram)@,
                final(rng).0,
            ) == st,
            Err(e) => r == Err::<(), Fault>(e),
        },
    decreases fuel,
{
    let ghost list = seen(fused@);
    let ghost goal = run_fused::<A, B>(
        prog@,
        list,
        fuel as nat,
        offset as int,
        end as int,
        remap@,
        machine::<A, B>(*backend, results@, classical@, histogram@, rng.0),
    );
    let mut i: usize = offset;
    let mut f: u64 = fuel;
    while i < end
        invariant
            backend.wf(),
            f <= fuel,
            list == seen(fused@),
            goal == run_fused::<A, B>(
                prog@,
                list,
                fuel as nat,
                offset as int,
                end as int,
                remap@,
                machine::<A, B>(
                    *old(backend),
                    old(results)@,
                    old(classical)@,
                    old(histogram)@,
                    old(rng).0,
                ),
            ),
            goal == run_fused::<A, B>(
                prog@,
                list,
                f as nat,
                i as int,
                end as int,
                remap@,
                machine::<A, B>(*backend, results@, classical@, histogram@, rng.0),
            ),
        decreases f,
    {
        if f == 0 {
            return Err(Fault::OutOfFuel);
        }
        if i >= fused.len() {
            return Err(Fault::Range);
        }
        f = f - 1;
        assert(list[i as int] == fused@[i as int]@);
        let raw: IrOp = match &fused[i] {
            FusedOp::U1(q, ops) => {
                match exec_block(
                    prog,
                    *q,
                    None,
                    ops,
                    backend,
                    results,
                    classical,
                    histogram,
                    rng,
                ) {
                    Ok(_) => {},
                    Err(e) => {
                        return Err(e);
                    },
                }
                i = i + 1;
                continue ;
            },
            FusedOp::U2(q, p, ops) => {
                match exec_block(
                    prog,
                    *q,
                    Some(*p),
                    ops,
                    backend,
                    results,
                    classical,
                    histogram,
                    rng,
                ) {
                    Ok(_) => {},
                    Err(e) => {
                        return Err(e);
                    },
                }
                i = i + 1;
                continue ;
            },
            FusedOp::Original(op) => *op,
        };
        let op: IrOp = if remap_active(remap) {
            translate_op(raw, remap)
        } else {
            proof {
                law_unbound_operands_stay(raw, remap@);
            }
            raw
        };
        match op {
            IrOp::IfEq(c, v, off, len) => {
                let stop: usize = off as usize + len as usize;
                if c as usize >= classical.len() {
                    return Err(Fault::Classical);
                }
                if classical[c as usize] == v {
                    match exec_fused_ops(
                        prog,
                        fused,
                        off as usize,
                        stop,
                        backend,
                        results,
                        classical,
                        histogram,
                        rng,
                        remap,
                        f,
                    ) {
                        Ok(_) => {},
                        Err(e) => {
                            return Err(e);
                        },
                    }
                }
                i = stop;
            },
            IrOp::IfNe(c, v, off, len) => {
                let stop: usize = off as usize + len as usize;
                if c as usize >= classical.len() {
                    return Err(Fault::Classical);
                }
                if classical[c as usize] != v {
                    match exec_fused_ops(
                        prog,
                        fused,
                        off as usize,
                        stop,
                        backend,
                        results,
                        classical,
                        histogram,
                        rng,
                        remap,
                        f,
                    ) {
                        Ok(_) => {},
                        Err(e) => {
                            return Err(e);
                        },
                    }
                }
                i = stop;
            },
            IrOp::Shot(count, off, len) => {
                let bare: bool = len == 0;
                let lo: usize = if bare {
                    0
                } else {
                    off as usize
                };
                let hi: usize = if bare {
                    i
                } else {
                    off as usize + len as usize
                };
                match exec_fused_shots(
                    prog,
                    fused,
                    count,
                    lo,
                    hi,
                    backend,
                    results,
                    classical,
                    histogram,
                    rng,
                    remap,
                    f,
                ) {
                    Ok(_) => {},
                    Err(e) => {
                        return Err(e);
                    },
                }
                i = if bare {
                    i + 1
                } else {
                    hi
                };
            },
            IrOp::Call(id, a0, a1, a2) => {
                if id as usize >= MAX_SUBS {
                    return Err(Fault::Pool);
                }
                let sub: Sub = prog.subs[id as usize];
                if sub.nparams > 3 {
                    return Err(Fault::Pool);
                }
                let inner: Remap = bind(sub.nparams, a0, a1, a2);
                match exec_fused_ops(
                    prog,
                    fused,
                    sub.off as usize,
                    sub.off as usize + sub.len as usize,
                    backend,
                    results,
                    classical,
                    histogram,
                    rng,
                    &inner,
                    f,
                ) {
                    Ok(_) => {},
                    Err(e) => {
                        return Err(e);
                    },
                }
                i = i + 1;
            },
            _ => {
                if fusible_qubits(op).is_some() {
                    return Err(Fault::Rejected);
                }
                match act(prog, op, backend, results, classical, histogram, rng) {
                    Ok(_) => {},
                    Err(e) => {
                        return Err(e);
                    },
                }
                i = i + 1;
            },
        }
    }
    Ok(())
}

/// Executes the entries `lo..hi` `count` times, each time from the all-zero state
/// and followed by a sample.
fn exec_fused_shots<A: Copy, B: SimBackend<A>>(
    prog: &Program<A>,
    fused: &Vec<FusedOp>,
    count: u32,
    lo: usize,
    hi: usize,
    backend: &mut B,
    results: &mut Results<A, B::Value>,
    classical: &mut [u8],
    histogram: &mut [u32],
    rng: &mut Lcg64,
    remap: &Remap,
    fuel: u64,
) -> (r: Result<(), Fault>)
    requires
        old(backend).wf(),
    ensures
        final(backend).wf(),
        match repeated_fused::<A, B>(
            prog@,
            seen(fused@),
            fuel as nat,
            count as nat,
            lo as int,
            hi as int,
            remap@,
            machine::<A, B>(
                *old(backend),
                old(results)@,
                old(classical)@,
                old(histogram)@,
                old(rng).0,
            ),
        ) {
            Ok(st) => r is Ok && machine::<A, B>(
                *final(backend),
                final(results)@,
                final(classical)@,
                final(histogram)@,
                final(rng).0,
            ) == st,
            Err(e) => r == Err::<(), Fault>(e),
        },
    decreases fuel,
{
    let ghost goal = repeated_fused::<A, B>(
        prog@,
        seen(fused@),
        fuel as nat,
        count as nat,
        lo as int,
        hi as int,
        remap@,
        machine::<A, B>(*backend, results@, classical@, histogram@, rng.0),
    );
    let mut left: u32 = count;
    let mut f: u64 = fuel;
    while left > 0
        invariant
            backend.wf(),
            f <= fuel,
            goal == repeated_fused::<A, B>(
                prog@,
                seen(fused@),
                fuel as nat,
                count as nat,
                lo as int,
                hi as int,
                remap@,
                machine::<A, B>(
                    *old(backend),
                    old(results)@,
                    old(classical)@,
                    old(histogram)@,
                    old(rng).0,
                ),
            ),
            goal == repeated_fused::<A, B>(
                prog@,
                seen(fused@),
                f as nat,
                left as nat,
                lo as int,
                hi as int,
                remap@,
                machine::<A, B>(*backend, results@, classical@, histogram@, rng.0),
            ),
        decreases left,
    {
        if f == 0 {
            return Err(Fault::OutOfFuel);
        }
        f = f - 1;
        let ghost st = machine::<A, B>(*backend, results@, classical@, histogram@, rng.0);
        backend.reset();
        assert(machine::<A, B>(*backend, results@, classical@, histogram@, rng.0) =~= grounded::<
            A,
            B,
        >(st));
        match exec_fused_ops(
            prog,
            fused,
            lo,
            hi,
            backend,
            results,
            classical,
            histogram,
            rng,
            remap,
            f,
        ) {
            Ok(_) => {},
            Err(e) => {
                return Err(e);
            },
        }
        match tally::<A, B>(backend, results, classical, histogram, rng) {
            Ok(_) => {},
            Err(e) => {
                return Err(e);
            },
        }
        left = left - 1;
    }
    Ok(())
}

/// Executes a program once through its fused list, with classical bytes and
/// histogram set to zero first; a program with calls is executed unfused. Reports
/// why the run could not go on, if it could not.
pub fn try_run_fused_program<A: Copy, B: SimBackend<A>>(
    prog: &Program<A>,
    fused: &Vec<FusedOp>,
    backend: &mut B,
    results: &mut Results<A, B::Value>,
    classical: &mut [u8],
    histogram: &mut [u32],
    rng: &mut Lcg64,
) -> (r: Result<(), Fault>)
    requires
        old(backend).wf(),
        prog.len <= MAX_OPS,
    ensures
        final(backend).wf(),
        match executed_fused::<A, B>(
            prog@,
            seen(fused@),
            FUEL as nat,
            machine::<A, B>(
                *old(backend),
                old(results)@,
                old(classical)@,
                old(histogram)@,
                old(rng).0,
            ),
        ) {
            Ok(st) => r is Ok && machine::<A, B>(
                *final(backend),
                final(results)@,
                final(classical)@,
                final(histogram)@,
                final(rng).0,
            ) == st,
            Err(e) => r == Err::<(), Fault>(e),
        },
{
    if program_has_calls(prog) {
        return try_run_program(prog, backend, results, classical, histogram, rng);
    }
    let ghost st = machine::<A, B>(*backend, results@, classical@, histogram@, rng.0);
    clear_bytes(classical);
    clear_bins(histogram);
    assert(machine::<A, B>(*backend, results@, classical@, histogram@, rng.0) =~= started(st));
    let free: Remap = bind(0, 0, 0, 0);
    assert(free@ =~= unbound());
    match exec_fused_ops(
        prog,
        fused,
        0,
        fused.len(),
        backend,
        results,
        classical,
        histogram,
        rng,
        &free,
        FUEL,
    ) {
        Ok(_) => {},
        Err(e) => {
            return Err(e);
        },
    }
    if prog.has_explicit_shot {
        Ok(())
    } else {
        tally::<A, B>(backend, results, classical, histogram, rng)
    }
}

/// Executes a program `shots` times through its fused list, each time from the
/// all-zero state and followed by a sample, with classical bytes and histogram set
/// to zero first; a program with calls is executed unfused. Reports why the run
/// could not go on, if it could not.
pub fn try_run_fused_program_shots<A: Copy, B: SimBackend<A>>(
    prog: &Program<A>,
    fused: &Vec<FusedOp>,
    shots: u32,
    backend: &mut B,
    results: &mut Results<A, B::Value>,
    classical: &mut [u8],
    histogram: &mut [u32],
    rng: &mut Lcg64,
) -> (r: Result<(), Fault>)
    requires
        old(backend).wf(),
        prog.len <= MAX_OPS,
    ensures
        final(backend).wf(),
        match executed_fused_shots::<A, B>(
            prog@,
            seen(fused@),
            FUEL as nat,
            shots as nat,
            machine::<A, B>(
                *old(backend),
                old(results)@,
                old(classical)@,
                old(histogram)@,
                old(rng).0,
            ),
        ) {
            Ok(st) => r is Ok && machine::<A, B>(
                *final(backend),
                final(results)@,
                final(classical)@,
                final(histogram)@,
                final(rng).0,
            ) == st,
            Err(e) => r == Err::<(), Fault>(e),
        },
{
    if program_has_calls(prog) {
        return try_run_program_shots(prog, shots, backend, results, classical, histogram, rng);
    }
    let ghost st = machine::<A, B>(*backend, results@, classical@, histogram@, rng.0);
    clear_bytes(classical);
    clear_bins(histogram);
    assert(machine::<A, B>(*backend, results@, classical@, histogram@, rng.0) =~= started(st));
    let free: Remap = bind(0, 0, 0, 0);
    assert(free@ =~= unbound());
    exec_fused_shots(
        prog,
        fused,
        shots,
        0,
        fused.len(),
        backend,
        results,
        classical,
        histogram,
        rng,
        &free,
        FUEL,
    )
}

/// Executes a program once through its fused list, with classical bytes and
/// histogram set to zero first; a program with calls is executed unfused.
pub fn run_fused_program<A: Copy, B: SimBackend<A>>(
    prog: &Program<A>,
    fused: &Vec<FusedOp>,
    backend: &mut B,
    results: &mut Results<A, B::Value>,
    classical: &mut [u8],
    histogram: &mut [u32],
    rng: &mut Lcg64,
)
    requires
        old(backend).wf(),
        prog.len <= MAX_OPS,
        executed_fused::<A, B>(
            prog@,
            seen(fused@),
            FUEL as nat,
            machine::<A, B>(
                *old(backend),
                old(results)@,
                old(classical)@,
                old(histogram)@,
                old(rng).0,
            ),
        ) is Ok,
    ensures
        final(backend).wf(),
        Ok::<_, Fault>(
            machine::<A, B>(
                *final(backend),
                final(results)@,
                final(classical)@,
                final(histogram)@,
                final(rng).0,
            ),
        ) == executed_fused::<A, B>(
            prog@,
            seen(fused@),
            FUEL as nat,
            machine::<A, B>(
                *old(backend),
                old(results)@,
                old(classical)@,
                old(histogram)@,
                old(rng).0,
            ),
        ),
{
    let _ = try_run_fused_program(prog, fused, backend, results, classical, histogram, rng);
}

/// Executes a program `shots` times through its fused list, each time from the
/// all-zero state and followed by a sample, with classical bytes and histogram set
/// to zero first; a program with calls is executed unfused.
pub fn run_fused_program_shots<A: Copy, B: SimBackend<A>>(
    prog: &Program<A>,
    fused: &Vec<FusedOp>,
    shots: u32,
    backend: &mut B,
    results: &mut Results<A, B::Value>,
    classical: &mut [u8],
    histogram: &mut [u32],
    rng: &mut Lcg64,
)
    requires
        old(backend).wf(),
        prog.len <= MAX_OPS,
        executed_fused_shots::<A, B>(
            prog@,
            seen(fused@),
            FUEL as nat,
            shots as nat,
            machine::<A, B>(
                *old(backend),
                old(results)@,
                old(classical)@,
                old(histogram)@,
                old(rng).0,
            ),
        ) is Ok,
    ensures
        final(backend).wf(),
        Ok::<_, Fault>(
            machine::<A, B>(
                *final(backend),
                final(results)@,
                final(classical)@,
                final(histogram)@,
                final(rng).0,
            ),
        ) == executed_fused_shots::<A, B>(
            prog@,
            seen(fused@),
            FUEL as nat,
            shots as nat,
            machine::<A, B>(
                *old(backend),
                old(results)@,
                old(classical)@,
                old(histogram)@,
                old(rng).0,
            ),
        ),
{
    let _ = try_run_fused_program_shots(
        prog,
        fused,
        shots,
        backend,
        results,
        classical,
        histogram,
        rng,
    );
}

} // verus!
