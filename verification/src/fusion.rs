//! Gate fusion: straight-line runs of gates on one qubit, or on one pair of
//! qubits, become single blocks.
//!
//! Control flow is kept: bodies are fused on their own and their ranges are
//! pointed at the fused list. Ops that no block can take pass through unchanged.
use crate::ir::{IrOp, Program, MAX_OPS};
use crate::wellformed::body_of;
use vstd::prelude::*;

verus! {

/// One entry of the fused list. A block holds its gates in order.
#[derive(Clone, Debug)]
pub enum FusedOp {
    /// A run of gates on one qubit.
    U1(u8, Vec<IrOp>),
    /// A run of gates on a pair of qubits.
    U2(u8, u8, Vec<IrOp>),
    /// An op outside every block.
    Original(IrOp),
}

/// The mathematical content of a [`FusedOp`].
pub enum Fused {
    U1(u8, Seq<IrOp>),
    U2(u8, u8, Seq<IrOp>),
    Original(IrOp),
}

impl View for FusedOp {
    type V = Fused;

    open spec fn view(&self) -> Fused {
        match self {
            FusedOp::U1(q, g) => Fused::U1(*q, g@),
            FusedOp::U2(a, b, g) => Fused::U2(*a, *b, g@),
            FusedOp::Original(op) => Fused::Original(*op),
        }
    }
}

/// A fused list as the machine sees it.
pub open spec fn seen(v: Seq<FusedOp>) -> Seq<Fused> {
    Seq::new(v.len(), |i: int| v[i]@)
}

/// The qubits of a gate that a block can take: one qubit, or a pair. A pair gate on
/// one and the same qubit acts on that qubit alone.
pub open spec fn fusible(op: IrOp) -> Option<(u8, Option<u8>)> {
    match op {
        IrOp::H(q) | IrOp::X(q) | IrOp::S(q) | IrOp::T(q) | IrOp::SX(q) => Some((q, None)),
        IrOp::RZ(q, _) | IrOp::RX(q, _) | IrOp::RY(q, _) | IrOp::Phase(q, _) => Some((q, None)),
        IrOp::CNOT(a, b) | IrOp::SWAP(a, b) | IrOp::ISWAP(a, b) | IrOp::CZ(a, b) => Some(
            (
                a,
                if a == b {
                    None
                } else {
                    Some(b)
                },
            ),
        ),
        IrOp::CPHASE(a, b, _) => Some(
            (
                a,
                if a == b {
                    None
                } else {
                    Some(b)
                },
            ),
        ),
        _ => None,
    }
}

/// A block under construction: its qubits and its gates so far.
#[verifier::ext_equal]
pub struct Pending {
    pub q0: Option<u8>,
    pub q1: Option<u8>,
    pub gates: Seq<IrOp>,
}

/// No block.
pub open spec fn no_block() -> Pending {
    Pending { q0: None, q1: None, gates: Seq::empty() }
}

/// The finished block, if there is one.
pub open spec fn flushed(b: Pending) -> Seq<Fused> {
    match (b.q0, b.q1) {
        (Some(a), Some(c)) => seq![Fused::U2(a, c, b.gates)],
        (Some(a), None) => seq![Fused::U1(a, b.gates)],
        _ => Seq::empty(),
    }
}

/// Whether a gate on these qubits joins the block, and the qubits of the block
/// then. A single qubit joins a block of one qubit, which may become a pair, and a
/// pair that holds it. A pair joins the same pair in either order, and a block of
/// one of its qubits.
pub open spec fn joined(b: Pending, q: u8, p: Option<u8>) -> Option<(u8, Option<u8>)> {
    match (b.q0, b.q1, p) {
        (None, None, _) => Some((q, p)),
        (Some(x), None, None) => Some(
            (
                x,
                if x == q {
                    None
                } else {
                    Some(q)
                },
            ),
        ),
        (Some(x), Some(y), None) => if x == q || y == q {
            Some((x, Some(y)))
        } else {
            None
        },
        (Some(x), None, Some(r)) => if x == q || x == r {
            Some((q, Some(r)))
        } else {
            None
        },
        (Some(x), Some(y), Some(r)) => if (x == q && y == r) || (x == r && y == q) {
            Some((x, Some(y)))
        } else {
            None
        },
        _ => None,
    }
}

/// What a gate finishes, and the block after it.
pub open spec fn merged(b: Pending, op: IrOp, q: u8, p: Option<u8>) -> (Seq<Fused>, Pending) {
    match joined(b, q, p) {
        Some((q0, q1)) => (
            Seq::empty(),
            Pending { q0: Some(q0), q1, gates: b.gates.push(op) },
        ),
        None => (flushed(b), Pending { q0: Some(q), q1: p, gates: seq![op] }),
    }
}

/// The op with its body at `off`, `len` entries long.
pub open spec fn repointed(op: IrOp, off: int, len: int) -> IrOp {
    match op {
        IrOp::IfEq(c, v, _, _) => IrOp::IfEq(c, v, off as u16, len as u16),
        IrOp::IfNe(c, v, _, _) => IrOp::IfNe(c, v, off as u16, len as u16),
        IrOp::Shot(n, _, _) => IrOp::Shot(n, off as u16, len as u16),
        _ => op,
    }
}

/// Whether every body of `ops[lo..hi]` stands behind its op and inside the range,
/// and so on inside the bodies.
pub open spec fn forward(ops: Seq<IrOp>, lo: int, hi: int) -> bool
    decreases hi - lo,
{
    if lo >= hi {
        true
    } else {
        match body_of(ops[lo]) {
            Some((b, e)) => lo < b <= e <= hi && forward(ops, b, e) && forward(ops, e, hi),
            None => forward(ops, lo + 1, hi),
        }
    }
}

/// The fused list of `ops[i..hi]`, with block `b` under construction, to be placed
/// at index `base`.
pub open spec fn fuse(ops: Seq<IrOp>, i: int, hi: int, b: Pending, base: int) -> Seq<Fused>
    decreases hi - i,
{
    if i >= hi {
        flushed(b)
    } else {
        let op = ops[i];
        match fusible(op) {
            Some((q, p)) => {
                let m = merged(b, op, q, p);
                m.0 + fuse(ops, i + 1, hi, m.1, base + m.0.len())
            },
            None => match body_of(op) {
                Some((s, e)) => if i < s <= e <= hi {
                    let pre = flushed(b);
                    let at = base + pre.len() + 1;
                    let inner = fuse(ops, s, e, no_block(), at);
                    pre + seq![Fused::Original(repointed(op, at, inner.len() as int))] + inner
                        + fuse(ops, e, hi, no_block(), at + inner.len())
                } else {
                    flushed(b)
                },
                None => {
                    let pre = flushed(b);
                    pre + seq![Fused::Original(repointed(op, 0, 0))] + fuse(
                        ops,
                        i + 1,
                        hi,
                        no_block(),
                        base + pre.len() + 1,
                    )
                },
            },
        }
    }
}

/// A block under construction.
struct Block {
    q0: Option<u8>,
    q1: Option<u8>,
    gates: Vec<IrOp>,
}

impl View for Block {
    type V = Pending;

    closed spec fn view(&self) -> Pending {
        Pending { q0: self.q0, q1: self.q1, gates: self.gates@ }
    }
}

impl Block {
    /// No block.
    fn new() -> (b: Self)
        ensures
            b@ == no_block(),
    {
        let b = Block { q0: None, q1: None, gates: Vec::new() };
        assert(b@ =~= no_block());
        b
    }

    /// Appends the finished block, if there is one, and starts anew.
    fn flush(&mut self, out: &mut Vec<FusedOp>)
        ensures
            final(self)@ == no_block(),
            seen(final(out)@) == seen(old(out)@) + flushed(old(self)@),
    {
        let ghost before = out@;
        let mut gates: Vec<IrOp> = Vec::new();
        std::mem::swap(&mut gates, &mut self.gates);
        if let Some(q0) = self.q0 {
            if let Some(q1) = self.q1 {
                out.push(FusedOp::U2(q0, q1, gates));
            } else {
                out.push(FusedOp::U1(q0, gates));
            }
        }
        self.q0 = None;
        self.q1 = None;
        assert(self@ =~= no_block());
        assert(seen(out@) =~= seen(before) + flushed(old(self)@));
    }

    /// Takes a gate into the block, or finishes the block and starts another.
    fn merge(&mut self, op: IrOp, q: u8, p: Option<u8>, out: &mut Vec<FusedOp>)
        ensures
            final(self)@ == merged(old(self)@, op, q, p).1,
            seen(final(out)@) == seen(old(out)@) + merged(old(self)@, op, q, p).0,
    {
        let join: Option<(u8, Option<u8>)> = match (self.q0, self.q1, p) {
            (None, None, _) => Some((q, p)),
            (Some(x), None, None) => Some(
                (
                    x,
                    if x == q {
                        None
                    } else {
                        Some(q)
                    },
                ),
            ),
            (Some(x), Some(y), None) => if x == q || y == q {
                Some((x, Some(y)))
            } else {
                None
            },
            (Some(x), None, Some(r)) => if x == q || x == r {
                Some((q, Some(r)))
            } else {
                None
            },
            (Some(x), Some(y), Some(r)) => if (x == q && y == r) || (x == r && y == q) {
                Some((x, Some(y)))
            } else {
                None
            },
            _ => None,
        };
        assert(join == joined(self@, q, p));
        match join {
            Some((q0, q1)) => {
                self.q0 = Some(q0);
                self.q1 = q1;
                self.gates.push(op);
                assert(self@ =~= merged(old(self)@, op, q, p).1);
                assert(seen(out@) =~= seen(old(out)@) + Seq::<Fused>::empty());
            },
            None => {
                self.flush(out);
                self.q0 = Some(q);
                self.q1 = p;
                self.gates.push(op);
                assert(self@ =~= merged(old(self)@, op, q, p).1);
            },
        }
    }
}

/// The qubits of a gate that a block can take.
pub(crate) fn fusible_qubits(op: IrOp) -> (r: Option<(u8, Option<u8>)>)
    ensures
        r == fusible(op),
{
    match op {
        IrOp::H(q) | IrOp::X(q) | IrOp::S(q) | IrOp::T(q) | IrOp::SX(q) => Some((q, None)),
        IrOp::RZ(q, _) | IrOp::RX(q, _) | IrOp::RY(q, _) | IrOp::Phase(q, _) => Some((q, None)),
        IrOp::CNOT(a, b) | IrOp::SWAP(a, b) | IrOp::ISWAP(a, b) | IrOp::CZ(a, b) => Some(
            (
                a,
                if a == b {
                    None
                } else {
                    Some(b)
                },
            ),
        ),
        IrOp::CPHASE(a, b, _) => Some(
            (
                a,
                if a == b {
                    None
                } else {
                    Some(b)
                },
            ),
        ),
        _ => None,
    }
}

proof fn lemma_patched(
    raw: Seq<FusedOp>,
    ph: int,
    op: IrOp,
    patched: IrOp,
    mid: Seq<Fused>,
    inner: Seq<Fused>,
)
    requires
        ph == mid.len(),
        seen(raw) == mid.push(Fused::Original(op)) + inner,
    ensures
        seen(raw.update(ph, FusedOp::Original(patched))) == mid + seq![Fused::Original(patched)]
            + inner,
{
    let new = raw.update(ph, FusedOp::Original(patched));
    let want = mid + seq![Fused::Original(patched)] + inner;
    assert(seen(raw).len() == raw.len());
    assert(new.len() == want.len());
    assert forall|k: int| 0 <= k < new.len() implies seen(new)[k] == want[k] by {
        if k != ph {
            assert(seen(raw)[k] == raw[k]@);
            assert(seen(new)[k] == raw[k]@);
        }
    }
    assert(seen(new) =~= want);
}

/// Appends the fused list of `ops[offset..end]` to `out`.
#[verifier::rlimit(40)]
fn fuse_range<A>(prog: &Program<A>, offset: usize, end: usize, out: &mut Vec<FusedOp>)
    requires
        end <= MAX_OPS,
        forward(prog@.ops, offset as int, end as int),
    ensures
        seen(final(out)@) == seen(old(out)@) + fuse(
            prog@.ops,
            offset as int,
            end as int,
            no_block(),
            old(out)@.len() as int,
        ),
    decreases end - offset,
{
    let ghost ops = prog@.ops;
    let ghost before = seen(out@);
    let ghost goal = fuse(ops, offset as int, end as int, no_block(), out@.len() as int);
    let mut i: usize = offset;
    let mut block: Block = Block::new();
    assert(before + goal =~= seen(out@) + goal);
    while i < end
        invariant
            end <= MAX_OPS,
            offset <= i,
            ops == prog@.ops,
            forward(ops, i as int, end as int),
            before == seen(old(out)@),
            goal == fuse(ops, offset as int, end as int, no_block(), old(out)@.len() as int),
            before + goal == seen(out@) + fuse(
                ops,
                i as int,
                end as int,
                block@,
                out@.len() as int,
            ),
        decreases end - i,
    {
        let op: IrOp = prog.ops[i];
        assert(ops[i as int] == op);
        let ghost rest = fuse(ops, i as int, end as int, block@, out@.len() as int);
        let ghost sofar = seen(out@);
        let ghost pend = block@;
        match fusible_qubits(op) {
            Some((q, p)) => {
                block.merge(op, q, p, out);
                proof {
                    let m = merged(pend, op, q, p);
                    let tail = fuse(ops, i + 1, end as int, m.1, (sofar.len() + m.0.len()) as int);
                    assert(sofar + (m.0 + tail) =~= (sofar + m.0) + tail);
                    assert(seen(out@).len() == out@.len());
                }
                i = i + 1;
            },
            None => {
                block.flush(out);
                let ghost pre = flushed(pend);
                let ghost mid = seen(out@);
                assert(mid == sofar + pre);
                assert(mid.len() == out@.len());
                let ph: usize = out.len();
                let range: Option<(usize, usize)> = match op {
                    IrOp::IfEq(_, _, off, len) | IrOp::IfNe(_, _, off, len) => Some(
                        (off as usize, off as usize + len as usize),
                    ),
                    IrOp::Shot(_, off, len) => if len > 0 {
                        Some((off as usize, off as usize + len as usize))
                    } else {
                        None
                    },
                    _ => None,
                };
                match range {
                    Some((s, e)) => {
                        assert(body_of(op) == Some((s as int, e as int)));
                        out.push(FusedOp::Original(op));
                        let ghost held = seen(out@);
                        assert(held =~= mid.push(Fused::Original(op)));
                        assert(held.len() == out@.len());
                        fuse_range(prog, s, e, out);
                        let ghost at = ph + 1;
                        let ghost inner = fuse(ops, s as int, e as int, no_block(), at);
                        let ghost grown = seen(out@);
                        assert(grown == held + inner);
                        assert(grown.len() == out@.len());
                        let len: usize = out.len() - ph - 1;
                        let off16: u16 = #[verifier::truncate] ((ph + 1) as u16);
                        let len16: u16 = #[verifier::truncate] (len as u16);
                        let patched: IrOp = match op {
                            IrOp::IfEq(c, v, _, _) => IrOp::IfEq(c, v, off16, len16),
                            IrOp::IfNe(c, v, _, _) => IrOp::IfNe(c, v, off16, len16),
                            IrOp::Shot(n, _, _) => IrOp::Shot(n, off16, len16),
                            other => other,
                        };
                        let ghost raw = out@;
                        out.set(ph, FusedOp::Original(patched));
                        proof {
                            let x = Fused::Original(repointed(op, at, inner.len() as int));
                            assert(Fused::Original(patched) == x);
                            lemma_patched(raw, ph as int, op, patched, mid, inner);
                            let tail = fuse(
                                ops,
                                e as int,
                                end as int,
                                no_block(),
                                at + inner.len(),
                            );
                            assert(rest == pre + seq![x] + inner + tail);
                            assert(sofar + rest =~= seen(out@) + tail);
                        }
                        i = e;
                    },
                    None => {
                        assert(body_of(op) is None);
                        let kept: IrOp = match op {
                            IrOp::Shot(n, _, _) => IrOp::Shot(n, 0, 0),
                            other => other,
                        };
                        out.push(FusedOp::Original(kept));
                        proof {
                            let x = Fused::Original(repointed(op, 0, 0));
                            assert(seen(out@) =~= mid + seq![x]);
                            let tail = fuse(
                                ops,
                                i + 1,
                                end as int,
                                no_block(),
                                (sofar.len() + pre.len() + 1) as int,
                            );
                            assert(rest == pre + seq![x] + tail);
                            assert(sofar + rest =~= seen(out@) + tail);
                        }
                        i = i + 1;
                    },
                }
            },
        }
    }
    block.flush(out);
}

fn forward_range<A>(prog: &Program<A>, offset: usize, end: usize) -> (r: bool)
    requires
        end <= MAX_OPS,
    ensures
        r == forward(prog@.ops, offset as int, end as int),
    decreases end - offset,
{
    let mut i: usize = offset;
    while i < end
        invariant
            end <= MAX_OPS,
            offset <= i,
            offset <= end ==> i <= end,
            offset > end ==> i == offset,
            forward(prog@.ops, offset as int, end as int) == forward(
                prog@.ops,
                i as int,
                end as int,
            ),
        decreases end - i,
    {
        assert(prog.ops@[i as int] == prog@.ops[i as int]);
        let (b, e): (usize, usize) = match prog.ops[i] {
            IrOp::IfEq(_, _, off, len) | IrOp::IfNe(_, _, off, len) => (
                off as usize,
                off as usize + len as usize,
            ),
            IrOp::Shot(_, off, len) => if len > 0 {
                (off as usize, off as usize + len as usize)
            } else {
                (i + 1, i + 1)
            },
            _ => (i + 1, i + 1),
        };
        if b <= i || e > end {
            return false;
        }
        if !forward_range(prog, b, e) {
            return false;
        }
        i = e;
    }
    true
}

/// Whether the main region of a program can be fused: every body stands behind its op
/// and inside the range that its op stands in.
pub fn can_fuse<A>(prog: &Program<A>) -> (r: bool)
    requires
        prog.len <= MAX_OPS,
    ensures
        r == forward(prog@.ops, 0, prog.len as int),
{
    forward_range(prog, 0, prog.len)
}

/// The fused list of a program's main region.
pub fn fuse_program<A>(prog: &Program<A>) -> (out: Vec<FusedOp>)
    requires
        prog.len <= MAX_OPS,
        forward(prog@.ops, 0, prog.len as int),
    ensures
        seen(out@) == fuse(prog@.ops, 0, prog.len as int, no_block(), 0),
{
    let mut out: Vec<FusedOp> = Vec::new();
    fuse_range(prog, 0, prog.len, &mut out);
    assert(seen(Seq::<FusedOp>::empty()) =~= Seq::<Fused>::empty());
    assert(seen(out@) =~= fuse(prog@.ops, 0, prog.len as int, no_block(), 0));
    out
}

} // verus!
