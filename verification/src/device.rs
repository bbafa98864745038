//! Planning for an accelerator: which programs can be sampled from one state,
//! which region of a program leads to that state, and how its gates are encoded.
use crate::backend::{Results, SimBackend};
use crate::ir::{extent, IrOp, Program, ProgramView, MAX_CONSTS, MAX_OPS};
use crate::machine::{
    executed, executed_shots, grounded, run, started, tallied, unbound, Fault, Machine,
};
use crate::rng::Lcg64;
use crate::sim::{
    clear_bins, clear_bytes, exec_region, machine, tally, try_run_program, try_run_program_shots,
    FUEL,
};
use vstd::prelude::*;

verus! {

/// Ops that draw from the generator or branch on a classical byte.
pub open spec fn disturbs(op: IrOp) -> bool {
    match op {
        IrOp::Measure(_, _) | IrOp::MeasureX(_, _) | IrOp::MeasureY(_, _) | IrOp::Reset(_) => true,
        IrOp::IfEq(_, _, _, _) | IrOp::IfNe(_, _, _, _) => true,
        _ => false,
    }
}

/// A program without measurements, resets and branches.
pub open spec fn pure<A>(p: ProgramView<A>) -> bool {
    forall|i: int| 0 <= i < extent(p) ==> !disturbs(#[trigger] p.ops[i])
}

/// The number of repetitions among the first `n` ops.
pub open spec fn shot_count(ops: Seq<IrOp>, n: nat) -> nat
    decreases n,
{
    if n == 0 {
        0
    } else {
        shot_count(ops, (n - 1) as nat) + if ops[n - 1] is Shot {
            1nat
        } else {
            0nat
        }
    }
}

/// A pure program with at most one repetition, which stands in the main region.
pub open spec fn batchable<A>(p: ProgramView<A>) -> bool {
    &&& pure(p)
    &&& p.has_explicit_shot ==> shot_count(p.ops, p.len as nat) <= 1
    &&& forall|i: int| p.len <= i < p.sub_len ==> !(#[trigger] p.ops[i] is Shot)
}

/// Whether the program contains no measurement, reset or branch, so that its final
/// state does not depend on chance.
pub fn is_pure_unitary<A>(prog: &Program<A>) -> (r: bool)
    requires
        prog.len <= MAX_OPS,
        prog.sub_len <= MAX_OPS,
    ensures
        r == pure(prog@),
{
    let n: usize = prog.extent();
    let mut i: usize = 0;
    while i < n
        invariant
            n <= MAX_OPS,
            n == extent(prog@),
            forall|k: int| 0 <= k < i ==> !disturbs(#[trigger] prog@.ops[k]),
        decreases n - i,
    {
        assert(prog.ops@[i as int] == prog@.ops[i as int]);
        match prog.ops[i] {
            IrOp::Measure(_, _) | IrOp::MeasureX(_, _) | IrOp::MeasureY(_, _) | IrOp::Reset(_) => {
                return false;
            },
            IrOp::IfEq(_, _, _, _) | IrOp::IfNe(_, _, _, _) => {
                return false;
            },
            _ => {},
        }
        i += 1;
    }
    true
}

/// Whether one run of the right region leads to the state that every sample of the
/// program is drawn from. Several repetitions start over from different regions,
/// which one state cannot reproduce.
pub fn is_batchable<A>(prog: &Program<A>) -> (r: bool)
    requires
        prog.len <= MAX_OPS,
        prog.sub_len <= MAX_OPS,
    ensures
        r == batchable(prog@),
{
    if !is_pure_unitary(prog) {
        return false;
    }
    let mut i: usize = prog.len;
    while i < prog.sub_len
        invariant
            prog.len <= i,
            prog.sub_len <= MAX_OPS,
            forall|k: int| prog.len <= k < i ==> !(#[trigger] prog@.ops[k] is Shot),
        decreases prog.sub_len - i,
    {
        assert(prog.ops@[i as int] == prog@.ops[i as int]);
        if let IrOp::Shot(_, _, _) = prog.ops[i] {
            return false;
        }
        i += 1;
    }
    if !prog.has_explicit_shot {
        return true;
    }
    let mut shots: usize = 0;
    let mut j: usize = 0;
    while j < prog.len
        invariant
            j <= prog.len <= MAX_OPS,
            shots <= j,
            shots == shot_count(prog@.ops, j as nat),
        decreases prog.len - j,
    {
        assert(prog.ops@[j as int] == prog@.ops[j as int]);
        if let IrOp::Shot(_, _, _) = prog.ops[j] {
            shots += 1;
        }
        j += 1;
    }
    shots <= 1
}

/// The ops `start..end`, run once, and the number of samples to draw after them.
#[derive(Clone, Copy, Debug, PartialEq, Eq, Structural)]
pub struct Region {
    pub start: usize,
    pub end: usize,
    pub samples: u32,
}

/// The region of a lone repetition at `i`: its body, or everything before it.
pub open spec fn shot_region(i: int, op: IrOp) -> Option<Region> {
    match op {
        IrOp::Shot(count, off, len) => if len == 0 {
            Some(Region { start: 0, end: i as usize, samples: count })
        } else {
            Some(Region { start: off as usize, end: (off + len) as usize, samples: count })
        },
        _ => None,
    }
}

/// The last repetition among the first `n` ops.
pub open spec fn last_shot(ops: Seq<IrOp>, n: nat) -> Option<Region>
    decreases n,
{
    if n == 0 {
        None
    } else if ops[n - 1] is Shot {
        shot_region(n - 1, ops[n - 1])
    } else {
        last_shot(ops, (n - 1) as nat)
    }
}

/// The region that leads to the state all samples are drawn from: without an
/// explicit repetition the whole program; with one repetition its own region, as a
/// repetition starts from the all-zero state; with several there is none.
pub open spec fn region_of<A>(p: ProgramView<A>, shots: Option<u32>) -> Option<Region> {
    let whole = Region {
        start: 0,
        end: p.len,
        samples: match shots {
            Some(n) => n,
            None => 1,
        },
    };
    if !p.has_explicit_shot || shot_count(p.ops, p.len as nat) == 0 {
        Some(whole)
    } else if shot_count(p.ops, p.len as nat) == 1 {
        last_shot(p.ops, p.len as nat)
    } else {
        None
    }
}

/// The region to run before all samples are drawn, if one region will do.
pub fn batch_region<A>(prog: &Program<A>, shots: Option<u32>) -> (r: Option<Region>)
    requires
        prog.len <= MAX_OPS,
    ensures
        r == region_of(prog@, shots),
{
    let whole: Region = Region {
        start: 0,
        end: prog.len,
        samples: match shots {
            Some(n) => n,
            None => 1,
        },
    };
    if !prog.has_explicit_shot {
        return Some(whole);
    }
    let mut single: Option<Region> = None;
    let mut i: usize = 0;
    while i < prog.len
        invariant
            prog.has_explicit_shot,
            i <= prog.len <= MAX_OPS,
            shot_count(prog@.ops, i as nat) <= 1,
            single is Some <==> shot_count(prog@.ops, i as nat) == 1,
            single == last_shot(prog@.ops, i as nat),
        decreases prog.len - i,
    {
        assert(prog.ops@[i as int] == prog@.ops[i as int]);
        if let IrOp::Shot(count, off, len) = prog.ops[i] {
            if single.is_some() {
                proof {
                    assert(shot_count(prog@.ops, (i + 1) as nat) == 2);
                    lemma_shot_count_grows(prog@.ops, (i + 1) as nat, prog.len as nat);
                }
                return None;
            }
            single = if len == 0 {
                Some(Region { start: 0, end: i, samples: count })
            } else {
                Some(
                    Region {
                        start: off as usize,
                        end: off as usize + len as usize,
                        samples: count,
                    },
                )
            };
        }
        i += 1;
    }
    match single {
        Some(r) => Some(r),
        None => Some(whole),
    }
}

proof fn lemma_shot_count_grows(ops: Seq<IrOp>, m: nat, n: nat)
    requires
        m <= n,
    ensures
        shot_count(ops, m) <= shot_count(ops, n),
    decreases n,
{
    if m < n {
        lemma_shot_count_grows(ops, m, (n - 1) as nat);
    }
}

/// The state after `n` samples were drawn and counted.
pub open spec fn drawn<A: Copy, B: SimBackend<A>>(
    n: nat,
    st: Machine<B::Model, A, B::Value>,
) -> Result<Machine<B::Model, A, B::Value>, Fault>
    decreases n,
{
    if n == 0 {
        Ok(st)
    } else {
        match tallied::<A, B>(st) {
            Err(e) => Err(e),
            Ok(s) => drawn::<A, B>((n - 1) as nat, s),
        }
    }
}

/// A region run once from the all-zero state, all samples drawn after it.
pub open spec fn executed_batch<A: Copy, B: SimBackend<A>>(
    p: ProgramView<A>,
    fuel: nat,
    region: Region,
    st: Machine<B::Model, A, B::Value>,
) -> Result<Machine<B::Model, A, B::Value>, Fault> {
    match run::<A, B>(
        p,
        fuel,
        region.start as int,
        region.end as int,
        unbound(),
        grounded::<A, B>(started(st)),
    ) {
        Err(e) => Err(e),
        Ok(s) => drawn::<A, B>(region.samples as nat, s),
    }
}

/// Runs a region once from the all-zero state, with classical bytes and histogram
/// set to zero first, and draws all samples after it.
pub fn try_run_batch<A: Copy, B: SimBackend<A>>(
    prog: &Program<A>,
    region: Region,
    backend: &mut B,
    results: &mut Results<A, B::Value>,
    classical: &mut [u8],
    histogram: &mut [u32],
    rng: &mut Lcg64,
) -> (r: Result<(), Fault>)
    requires
        old(backend).wf(),
    ensures
        final(backend).wf(),
        match executed_batch::<A, B>(
            prog@,
            FUEL as nat,
            region,
            machine::<A, B>(
                *old(backend),
                old(results)@,
                old(classical)@,
                old(histogram)@,
                old(rng).0,
            ),
        ) {
            Ok(st) => r is Ok && machine::<A, B>(
                *final(backend),
                final(results)@,
                final(classical)@,
                final(histogram)@,
                final(rng).0,
            ) == st,
            Err(e) => r == Err::<(), Fault>(e),
        },
{
    let ghost st = machine::<A, B>(*backend, results@, classical@, histogram@, rng.0);
    clear_bytes(classical);
    clear_bins(histogram);
    backend.reset();
    assert(machine::<A, B>(*backend, results@, classical@, histogram@, rng.0) =~= grounded::<A, B>(
        started(st),
    ));
    match exec_region(
        prog,
        region.start,
        region.end,
        backend,
        results,
        classical,
        histogram,
        rng,
    ) {
        Ok(_) => {},
        Err(e) => {
            return Err(e);
        },
    }
    try_draw::<A, B>(region.samples, backend, results, classical, histogram, rng)
}

/// Draws a number of samples from the state of a backend and counts them.
pub fn try_draw<A: Copy, B: SimBackend<A>>(
    samples: u32,
    backend: &mut B,
    results: &Results<A, B::Value>,
    classical: &[u8],
    histogram: &mut [u32],
    rng: &mut Lcg64,
) -> (r: Result<(), Fault>)
    requires
        old(backend).wf(),
    ensures
        final(backend).wf(),
        match drawn::<A, B>(
            samples as nat,
            machine::<A, B>(
                *old(backend),
                results@,
                classical@,
                old(histogram)@,
                old(rng).0,
            ),
        ) {
            Ok(st) => r is Ok && machine::<A, B>(
                *final(backend),
                results@,
                classical@,
                final(histogram)@,
                final(rng).0,
            ) == st,
            Err(e) => r == Err::<(), Fault>(e),
        },
{
    let ghost goal = drawn::<A, B>(
        samples as nat,
        machine::<A, B>(*backend, results@, classical@, histogram@, rng.0),
    );
    let mut left: u32 = samples;
    while left > 0
        invariant
            backend.wf(),
            goal == drawn::<A, B>(
                samples as nat,
                machine::<A, B>(
                    *old(backend),
                    results@,
                    classical@,
                    old(histogram)@,
                    old(rng).0,
                ),
            ),
            goal == drawn::<A, B>(
                left as nat,
                machine::<A, B>(*backend, results@, classical@, histogram@, rng.0),
            ),
        decreases left,
    {
        match tally::<A, B>(backend, results, classical, histogram, rng) {
            Ok(_) => {},
            Err(e) => {
                return Err(e);
            },
        }
        left = left - 1;
    }
    Ok(())
}

/// A program run the way an accelerator runs it: in one batch where that will do,
/// else `shots` times, else once from the all-zero state.
pub open spec fn executed_device<A: Copy, B: SimBackend<A>>(
    p: ProgramView<A>,
    fuel: nat,
    shots: Option<u32>,
    st: Machine<B::Model, A, B::Value>,
) -> Result<Machine<B::Model, A, B::Value>, Fault> {
    if batchable(p) && region_of(p, shots) is Some {
        executed_batch::<A, B>(p, fuel, region_of(p, shots)->0, st)
    } else if shots is Some && !p.has_explicit_shot {
        executed_shots::<A, B>(p, fuel, shots->0 as nat, st)
    } else {
        executed::<A, B>(p, fuel, grounded::<A, B>(st))
    }
}

/// Runs a program the way an accelerator runs it, with classical bytes and
/// histogram set to zero first: in one batch where that will do, else `shots`
/// times where the program has no repetition of its own, else once.
pub fn try_run_device<A: Copy, B: SimBackend<A>>(
    prog: &Program<A>,
    shots: Option<u32>,
    backend: &mut B,
    results: &mut Results<A, B::Value>,
    classical: &mut [u8],
    histogram: &mut [u32],
    rng: &mut Lcg64,
) -> (r: Result<(), Fault>)
    requires
        old(backend).wf(),
        prog.len <= MAX_OPS,
        prog.sub_len <= MAX_OPS,
    ensures
        final(backend).wf(),
        match executed_device::<A, B>(
            prog@,
            FUEL as nat,
            shots,
            machine::<A, B>(
                *old(backend),
                old(results)@,
                old(classical)@,
                old(histogram)@,
                old(rng).0,
            ),
        ) {
            Ok(st) => r is Ok && machine::<A, B>(
                *final(backend),
                final(results)@,
                final(classical)@,
                final(histogram)@,
                final(rng).0,
            ) == st,
            Err(e) => r == Err::<(), Fault>(e),
        },
{
    if is_batchable(prog) {
        if let Some(region) = batch_region(prog, shots) {
            return try_run_batch(prog, region, backend, results, classical, histogram, rng);
        }
    }
    if let Some(n) = shots {
        if !prog.has_explicit_shot {
            return try_run_program_shots(
                prog,
                n,
                backend,
                results,
                classical,
                histogram,
                rng,
            );
        }
    }
    let ghost st = machine::<A, B>(*backend, results@, classical@, histogram@, rng.0);
    backend.reset();
    assert(machine::<A, B>(*backend, results@, classical@, histogram@, rng.0) =~= grounded::<A, B>(
        st,
    ));
    try_run_program(prog, backend, results, classical, histogram, rng)
}

/// Amplitudes that fit the shared memory of one block.
pub const MEGA_MAX_AMPS: usize = 8192;

/// An angle that a record needs the cosine and sine of: of the constant, or of
/// half of it.
#[derive(Clone, Copy, Debug)]
pub struct Turn<A> {
    pub angle: A,
    pub half: bool,
}

/// One op encoded for the whole-circuit kernel: word 0 is the operation, words 1
/// to 3 are operands. Where `turn` is present, words 4 and 5 are for its cosine
/// and sine.
#[derive(Clone, Copy, Debug)]
pub struct MegaOp<A> {
    pub words: [u32; 8],
    pub turn: Option<Turn<A>>,
}

/// The content of a record.
pub struct MegaView<A> {
    pub words: Seq<u32>,
    pub turn: Option<Turn<A>>,
}

impl<A> View for MegaOp<A> {
    type V = MegaView<A>;

    open spec fn view(&self) -> MegaView<A> {
        MegaView { words: self.words@, turn: self.turn }
    }
}

/// A record without an angle.
pub open spec fn fixed<A>(op: u32, a: u32, b: u32, c: u32) -> Option<MegaView<A>> {
    Some(MegaView { words: seq![op, a, b, c, 0, 0, 0, 0], turn: None })
}

/// A record with an angle from the constant pool.
pub open spec fn turned<A>(op: u32, a: u32, b: u32, consts: Seq<A>, k: u16, half: bool) -> Option<
    MegaView<A>,
> {
    if k < consts.len() {
        Some(
            MegaView {
                words: seq![op, a, b, 0, 0, 0, 0, 0],
                turn: Some(Turn { angle: consts[k as int], half }),
            },
        )
    } else {
        None
    }
}

/// The record of an op, for the ops the kernel knows.
pub open spec fn record_of<A>(op: IrOp, consts: Seq<A>) -> Option<MegaView<A>> {
    match op {
        IrOp::H(q) => fixed(0, q as u32, 0, 0),
        IrOp::X(q) => fixed(1, q as u32, 0, 0),
        IrOp::CNOT(c, t) => fixed(2, c as u32, t as u32, 0),
        IrOp::Toff(a, b, t) => fixed(3, a as u32, b as u32, t as u32),
        IrOp::RZ(q, k) => turned(4, q as u32, 0, consts, k, true),
        IrOp::RX(q, k) => turned(5, q as u32, 0, consts, k, true),
        IrOp::RY(q, k) => turned(6, q as u32, 0, consts, k, true),
        IrOp::Phase(q, k) => turned(7, q as u32, 0, consts, k, false),
        IrOp::S(q) => fixed(8, q as u32, 0, 0),
        IrOp::T(q) => fixed(9, q as u32, 0, 0),
        IrOp::SX(q) => fixed(10, q as u32, 0, 0),
        IrOp::SWAP(a, b) => fixed(11, a as u32, b as u32, 0),
        IrOp::ISWAP(a, b) => fixed(12, a as u32, b as u32, 0),
        IrOp::CZ(a, b) => fixed(13, a as u32, b as u32, 0),
        IrOp::CPHASE(a, b, k) => turned(14, a as u32, b as u32, consts, k, false),
        IrOp::CSWAP(a, b, c) => fixed(15, a as u32, b as u32, c as u32),
        IrOp::MCX(mask, t) => fixed(16, mask, t as u32, 0),
        _ => None,
    }
}

/// The records of the ops `start..end` in order, `PRINT` left out, or `None` where
/// the kernel does not know an op.
pub open spec fn records<A>(ops: Seq<IrOp>, consts: Seq<A>, start: int, end: int) -> Option<
    Seq<MegaView<A>>,
>
    decreases end - start,
{
    if start >= end {
        Some(Seq::empty())
    } else {
        match records(ops, consts, start, end - 1) {
            None => None,
            Some(s) => if ops[end - 1] is Print {
                Some(s)
            } else {
                match record_of(ops[end - 1], consts) {
                    Some(r) => Some(s.push(r)),
                    None => None,
                }
            },
        }
    }
}

/// The contents of a list of records.
pub open spec fn record_views<A>(v: Seq<MegaOp<A>>) -> Seq<MegaView<A>> {
    v.map_values(|m: MegaOp<A>| m@)
}

fn fixed_record<A>(op: u32, a: u32, b: u32, c: u32) -> (r: Option<MegaOp<A>>)
    ensures
        r is Some,
        Some(r->0@) == fixed::<A>(op, a, b, c),
{
    let words: [u32; 8] = [op, a, b, c, 0, 0, 0, 0];
    assert(words@ =~= seq![op, a, b, c, 0, 0, 0, 0]);
    Some(MegaOp { words, turn: None })
}

fn turned_record<A: Copy>(
    op: u32,
    a: u32,
    b: u32,
    consts: &[A; MAX_CONSTS],
    k: u16,
    half: bool,
) -> (r: Option<MegaOp<A>>)
    ensures
        match r {
            Some(m) => Some(m@) == turned(op, a, b, consts@, k, half),
            None => turned(op, a, b, consts@, k, half) is None,
        },
{
    if (k as usize) < MAX_CONSTS {
        let words: [u32; 8] = [op, a, b, 0, 0, 0, 0, 0];
        assert(words@ =~= seq![op, a, b, 0, 0, 0, 0, 0]);
        Some(MegaOp { words, turn: Some(Turn { angle: consts[k as usize], half }) })
    } else {
        None
    }
}

fn encode<A: Copy>(op: IrOp, consts: &[A; MAX_CONSTS]) -> (r: Option<MegaOp<A>>)
    ensures
        match r {
            Some(m) => Some(m@) == record_of(op, consts@),
            None => record_of(op, consts@) is None,
        },
{
    match op {
        IrOp::H(q) => fixed_record(0, q as u32, 0, 0),
        IrOp::X(q) => fixed_record(1, q as u32, 0, 0),
        IrOp::CNOT(c, t) => fixed_record(2, c as u32, t as u32, 0),
        IrOp::Toff(a, b, t) => fixed_record(3, a as u32, b as u32, t as u32),
        IrOp::RZ(q, k) => turned_record(4, q as u32, 0, consts, k, true),
        IrOp::RX(q, k) => turned_record(5, q as u32, 0, consts, k, true),
        IrOp::RY(q, k) => turned_record(6, q as u32, 0, consts, k, true),
        IrOp::Phase(q, k) => turned_record(7, q as u32, 0, consts, k, false),
        IrOp::S(q) => fixed_record(8, q as u32, 0, 0),
        IrOp::T(q) => fixed_record(9, q as u32, 0, 0),
        IrOp::SX(q) => fixed_record(10, q as u32, 0, 0),
        IrOp::SWAP(a, b) => fixed_record(11, a as u32, b as u32, 0),
        IrOp::ISWAP(a, b) => fixed_record(12, a as u32, b as u32, 0),
        IrOp::CZ(a, b) => fixed_record(13, a as u32, b as u32, 0),
        IrOp::CPHASE(a, b, k) => turned_record(14, a as u32, b as u32, consts, k, false),
        IrOp::CSWAP(a, b, c) => fixed_record(15, a as u32, b as u32, c as u32),
        IrOp::MCX(mask, t) => fixed_record(16, mask, t as u32, 0),
        _ => None,
    }
}

/// Encodes the ops `start..end` for the whole-circuit kernel. `PRINT` does not act
/// on the state and is left out. Returns `None` where the kernel does not know an
/// op, or where a constant does not exist.
pub fn build_mega_ops<A: Copy>(prog: &Program<A>, start: usize, end: usize) -> (r: Option<
    Vec<MegaOp<A>>,
>)
    requires
        end <= MAX_OPS,
    ensures
        match r {
            Some(v) => Some(record_views(v@)) == records(
                prog@.ops,
                prog@.consts,
                start as int,
                end as int,
            ),
            None => records(prog@.ops, prog@.consts, start as int, end as int) is None,
        },
{
    let mut out: Vec<MegaOp<A>> = Vec::new();
    let mut i: usize = start;
    assert(record_views(out@) =~= Seq::empty());
    while i < end
        invariant
            end <= MAX_OPS,
            start <= i,
            start <= end ==> i <= end,
            start > end ==> i == start,
            Some(record_views(out@)) == records(
                prog@.ops,
                prog@.consts,
                start as int,
                i as int,
            ),
        decreases end - i,
    {
        let op: IrOp = prog.ops[i];
        assert(op == prog@.ops[i as int]);
        assert(prog.consts@ == prog@.consts);
        match op {
            IrOp::Print => {},
            _ => {
                match encode(op, &prog.consts) {
                    Some(m) => {
                        let ghost before = record_views(out@);
                        out.push(m);
                        assert(record_views(out@) =~= before.push(m@));
                    },
                    None => {
                        proof {
                            lemma_records_stay_unknown(
                                prog@.ops,
                                prog@.consts,
                                start as int,
                                i + 1,
                                end as int,
                            );
                        }
                        return None;
                    },
                }
            },
        }
        i += 1;
    }
    Some(out)
}

proof fn lemma_records_stay_unknown<A>(
    ops: Seq<IrOp>,
    consts: Seq<A>,
    start: int,
    mid: int,
    end: int,
)
    requires
        start < mid <= end,
        records(ops, consts, start, mid) is None,
    ensures
        records(ops, consts, start, end) is None,
    decreases end - mid,
{
    if mid < end {
        lemma_records_stay_unknown(ops, consts, start, mid, end - 1);
    }
}

/// Whether the numbers do not decrease.
pub open spec fn ascending(s: Seq<u64>) -> bool {
    forall|i: int, j: int| 0 <= i <= j < s.len() ==> #[trigger] s[i] <= #[trigger] s[j]
}

/// Draws from a distribution given by its cumulative sums, `cum[0]` being the empty
/// sum: the first outcome whose sum exceeds `r`, or the last outcome. The numbers
/// are weights on any one scale that orders like the integers; the bits of
/// non-negative floating-point numbers are such.
pub fn sample_from_cum(cum: &[u64], r: u64) -> (out: usize)
    requires
        cum@.len() >= 2,
    ensures
        out < cum@.len() - 1,
        ascending(cum@) ==> {
            &&& forall|k: int| 0 <= k < out ==> #[trigger] cum@[k + 1] <= r
            &&& r < cum@[out + 1] || out == cum@.len() - 2
        },
{
    let n: usize = cum.len() - 1;
    let mut lo: usize = 0;
    let mut hi: usize = n;
    while lo < hi
        invariant
            n == cum@.len() - 1,
            n >= 1,
            lo <= hi <= n,
            ascending(cum@) ==> forall|k: int| 0 <= k < lo ==> #[trigger] cum@[k + 1] <= r,
            hi < n ==> r < cum@[hi + 1],
        decreases hi - lo,
    {
        let mid: usize = lo + (hi - lo) / 2;
        if r < cum[mid + 1] {
            hi = mid;
        } else {
            proof {
                if ascending(cum@) {
                    assert forall|k: int| 0 <= k < mid + 1 implies #[trigger] cum@[k + 1] <= r by {
                        assert(cum@[k + 1] <= cum@[mid + 1]);
                    }
                }
            }
            lo = mid + 1;
        }
    }
    if lo < n {
        lo
    } else {
        n - 1
    }
}

/// Blocks of `block` threads that cover `n` amplitudes, at least one.
pub fn grid_size(n: u32, block: u32) -> (r: u32)
    requires
        block > 0,
    ensures
        r >= 1,
        r * block >= n,
        r > 1 ==> (r - 1) * block < n,
{
    let q: u32 = n / block;
    let whole: bool = n % block == 0;
    assert(n == q * block + n % block && 0 <= n % block < block) by {
        vstd::arithmetic::div_mod::lemma_fundamental_div_mod(n as int, block as int);
        assert(q * block == block * q) by (nonlinear_arith);
    }
    assert((q + 1) * block == q * block + block) by (nonlinear_arith);
    assert(q >= 1 ==> (q - 1) * block == q * block - block) by (nonlinear_arith);
    assert(q <= n) by (nonlinear_arith)
        requires
            n == q * block + n % block,
            block >= 1,
            n % block >= 0,
    ;
    if whole {
        if q == 0 {
            assert(1 * block >= 0);
            1
        } else {
            q
        }
    } else {
        assert(q < n) by (nonlinear_arith)
            requires
                n == q * block + n % block,
                block >= 1,
                n % block > 0,
        ;
        q + 1
    }
}

} // verus!
