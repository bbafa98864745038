//! The flat bytecode that connects the front end with the backends.
use vstd::prelude::*;

verus! {

/// Capacity of the op array (main region and subprogram bodies together).
pub const MAX_OPS: usize = 16384;

/// Largest number of qubits a program may declare.
pub const MAX_QUBITS: u8 = 28;

/// Number of classical bytes a program may address.
pub const MAX_CLASSICAL: u8 = 64;

/// Capacity of the constant pool for gate angles.
pub const MAX_CONSTS: usize = 1024;

/// Capacity of the subprogram table.
pub const MAX_SUBS: usize = 128;

/// Capacity of the weighted-Pauli term pool.
pub const MAX_ESTIMATE_TERMS: usize = 256;

/// Version of the op encoding.
pub const IR_VERSION: u8 = 2;

/// Marks an unused argument slot of a call.
pub const NO_ARG: u8 = 0xFF;

/// One op of the flat program. Qubits and classical bytes are indices; `k` is
/// an index into the constant pool; bodies are `(offset, length)` ranges of the
/// op array.
#[derive(Clone, Copy, Debug, PartialEq, Eq, Structural)]
pub enum IrOp {
    /// Hadamard.
    H(u8),
    /// Pauli X.
    X(u8),
    /// Controlled X: control, target.
    CNOT(u8, u8),
    /// Toffoli: two controls, target.
    Toff(u8, u8, u8),
    /// Z-basis measurement of a qubit into a classical byte.
    Measure(u8, u8),
    /// Run the body if the byte equals the value.
    IfEq(u8, u8, u16, u16),
    /// Run the body if the byte differs from the value.
    IfNe(u8, u8, u16, u16),
    /// Run the body `count` times, each time from the ground state and followed
    /// by one sample. With length 0 the body is everything before this op.
    Shot(u32, u16, u16),
    /// Print the accumulated histogram.
    Print,
    /// Rotation about Z: qubit, constant index.
    RZ(u8, u16),
    /// Rotation about X.
    RX(u8, u16),
    /// Rotation about Y.
    RY(u8, u16),
    /// Phase on the one state.
    Phase(u8, u16),
    /// S = diag(1, i).
    S(u8),
    /// T = diag(1, e^{i pi/4}).
    T(u8),
    /// Square root of X.
    SX(u8),
    /// Swap two qubits.
    SWAP(u8, u8),
    /// Swap two qubits with a factor i on the exchanged terms.
    ISWAP(u8, u8),
    /// Controlled Z.
    CZ(u8, u8),
    /// Controlled phase: two qubits, constant index.
    CPHASE(u8, u8, u16),
    /// Controlled swap: control, then the two swapped qubits.
    CSWAP(u8, u8, u8),
    /// Flip the target when every bit of the mask is set.
    MCX(u32, u8),
    /// Collapse a qubit to zero without recording the outcome.
    Reset(u8),
    /// X-basis measurement.
    MeasureX(u8, u8),
    /// Y-basis measurement.
    MeasureY(u8, u8),
    /// Set a classical byte.
    SetVal(u8, u8),
    /// Flip the low bit of a classical byte.
    Not(u8),
    /// First byte `&=` second byte.
    And(u8, u8),
    /// First byte `|=` second byte.
    Or(u8, u8),
    /// First byte `^=` second byte.
    Xor(u8, u8),
    /// First byte `+=` second byte, modulo 256.
    Add(u8, u8),
    /// First byte `-=` second byte, modulo 256.
    Sub(u8, u8),
    /// Expectation value of a Pauli product, two bits per qubit: I=0, X=1, Y=2,
    /// Z=3, qubit q at bits 2q and 2q+1.
    Expect(u64),
    /// Record the state vector.
    SaveState,
    /// Record the amplitudes.
    SaveAmps,
    /// Record the basis probabilities.
    SaveProbs,
    /// Call a subprogram: table index and up to three argument qubits.
    Call(u16, u8, u8, u8),
    /// Weighted Pauli sum over a range of the term pool: offset, length.
    Estimate(u16, u16),
}

/// A subprogram: its body is `ops[off..off + len]`, and qubit operands below
/// `nparams` in the body stand for the arguments of the call.
#[derive(Clone, Copy, Debug, PartialEq, Eq, Structural)]
pub struct Sub {
    pub off: u16,
    pub len: u16,
    pub nparams: u8,
}

/// A lowered program. `A` is the type of gate angles and coefficients.
#[derive(Clone, Debug)]
pub struct Program<A> {
    pub version: u8,
    pub ops: [IrOp; MAX_OPS],
    /// Length of the main region `ops[0..len]`.
    pub len: usize,
    pub num_qubits: u8,
    pub num_classical: u8,
    pub has_explicit_shot: bool,
    pub consts: [A; MAX_CONSTS],
    pub num_consts: usize,
    pub subs: [Sub; MAX_SUBS],
    pub num_subs: usize,
    /// Coefficient and Pauli code of each `ESTIMATE` term.
    pub estimate_terms: [(A, u64); MAX_ESTIMATE_TERMS],
    pub num_estimate_terms: usize,
    /// End of the subprogram region `ops[len..sub_len]`.
    pub sub_len: usize,
}

/// The mathematical content of a [`Program`].
#[verifier::ext_equal]
pub struct ProgramView<A> {
    pub version: u8,
    pub ops: Seq<IrOp>,
    pub len: usize,
    pub num_qubits: u8,
    pub num_classical: u8,
    pub has_explicit_shot: bool,
    pub consts: Seq<A>,
    pub num_consts: usize,
    pub subs: Seq<Sub>,
    pub num_subs: usize,
    pub estimate_terms: Seq<(A, u64)>,
    pub num_estimate_terms: usize,
    pub sub_len: usize,
}

/// The end of all ops of a program: the main region and the subprograms.
pub open spec fn extent<A>(p: ProgramView<A>) -> int {
    if p.sub_len > p.len {
        p.sub_len as int
    } else {
        p.len as int
    }
}

impl<A> View for Program<A> {
    type V = ProgramView<A>;

    open spec fn view(&self) -> ProgramView<A> {
        ProgramView {
            version: self.version,
            ops: self.ops@,
            len: self.len,
            num_qubits: self.num_qubits,
            num_classical: self.num_classical,
            has_explicit_shot: self.has_explicit_shot,
            consts: self.consts@,
            num_consts: self.num_consts,
            subs: self.subs@,
            num_subs: self.num_subs,
            estimate_terms: self.estimate_terms@,
            num_estimate_terms: self.num_estimate_terms,
            sub_len: self.sub_len,
        }
    }
}

impl<A> Program<A> {
    /// Empties the program. The pools keep their contents, out of use.
    pub fn reset(&mut self)
        ensures
            final(self)@ == (ProgramView {
                len: 0,
                num_qubits: 0,
                num_classical: 0,
                has_explicit_shot: false,
                num_consts: 0,
                num_subs: 0,
                num_estimate_terms: 0,
                sub_len: 0,
                ..old(self)@
            }),
    {
        self.len = 0;
        self.num_qubits = 0;
        self.num_classical = 0;
        self.has_explicit_shot = false;
        self.num_consts = 0;
        self.num_subs = 0;
        self.num_estimate_terms = 0;
        self.sub_len = 0;
    }

    /// The end of all ops: those of the main region and those of the subprograms.
    pub fn extent(&self) -> (n: usize)
        ensures
            n == extent(self@),
    {
        if self.sub_len > self.len {
            self.sub_len
        } else {
            self.len
        }
    }

    /// Appends an op to the main region; refused when the array is full. The
    /// subprogram region never starts before the end of the main region.
    pub fn emit(&mut self, op: IrOp) -> (ok: bool)
        ensures
            ok == (old(self).len < MAX_OPS),
            ok ==> final(self)@ == (ProgramView {
                ops: old(self)@.ops.update(old(self).len as int, op),
                len: (old(self).len + 1) as usize,
                sub_len: if old(self).sub_len > old(self).len {
                    old(self).sub_len
                } else {
                    (old(self).len + 1) as usize
                },
                ..old(self)@
            }),
            !ok ==> final(self)@ == old(self)@,
    {
        if self.len >= MAX_OPS {
            return false;
        }
        self.ops[self.len] = op;
        self.len += 1;
        if self.sub_len < self.len {
            self.sub_len = self.len;
        }
        true
    }

    /// Appends an op to the subprogram region, behind all other ops; refused when the
    /// array is full.
    pub fn emit_sub(&mut self, op: IrOp) -> (ok: bool)
        ensures
            ok == (extent(old(self)@) < MAX_OPS),
            ok ==> final(self)@ == (ProgramView {
                ops: old(self)@.ops.update(extent(old(self)@), op),
                sub_len: (extent(old(self)@) + 1) as usize,
                ..old(self)@
            }),
            !ok ==> final(self)@ == old(self)@,
    {
        let at: usize = self.extent();
        if at >= MAX_OPS {
            return false;
        }
        self.ops[at] = op;
        self.sub_len = at + 1;
        true
    }

    /// Records the subprogram whose body is the last `len` ops of the
    /// subprogram region and returns its table index; refused when the table is
    /// full.
    pub fn add_sub(&mut self, len: usize, nparams: u8) -> (id: Option<u16>)
        requires
            len <= old(self).sub_len <= MAX_OPS,
        ensures
            id == if old(self).num_subs < MAX_SUBS {
                Some(old(self).num_subs as u16)
            } else {
                None
            },
            id is Some ==> final(self)@ == (ProgramView {
                subs: old(self)@.subs.update(
                    old(self).num_subs as int,
                    (Sub { off: (old(self).sub_len - len) as u16, len: len as u16, nparams }),
                ),
                num_subs: (old(self).num_subs + 1) as usize,
                ..old(self)@
            }),
            id is None ==> final(self)@ == old(self)@,
    {
        if self.num_subs >= MAX_SUBS {
            return None;
        }
        let id: u16 = self.num_subs as u16;
        self.subs[self.num_subs] = Sub { off: (self.sub_len - len) as u16, len: len as u16, nparams };
        self.num_subs += 1;
        Some(id)
    }
}

impl<A: Copy> Program<A> {
    /// Appends a coefficient and a Pauli code to the term pool; refused when the
    /// pool is full.
    pub fn push_estimate_term(&mut self, coef: A, pauli: u64) -> (ok: bool)
        ensures
            ok == (old(self).num_estimate_terms < MAX_ESTIMATE_TERMS),
            ok ==> final(self)@ == (ProgramView {
                estimate_terms: old(self)@.estimate_terms.update(
                    old(self).num_estimate_terms as int,
                    (coef, pauli),
                ),
                num_estimate_terms: (old(self).num_estimate_terms + 1) as usize,
                ..old(self)@
            }),
            !ok ==> final(self)@ == old(self)@,
    {
        if self.num_estimate_terms >= MAX_ESTIMATE_TERMS {
            return false;
        }
        self.estimate_terms[self.num_estimate_terms] = (coef, pauli);
        self.num_estimate_terms += 1;
        true
    }

    /// Appends a constant to the pool and returns its index; refused when the
    /// pool is full.
    pub fn emit_const(&mut self, v: A) -> (k: Option<u16>)
        ensures
            k == if old(self).num_consts < MAX_CONSTS {
                Some(old(self).num_consts as u16)
            } else {
                None
            },
            k is Some ==> final(self)@ == (ProgramView {
                consts: old(self)@.consts.update(old(self).num_consts as int, v),
                num_consts: (old(self).num_consts + 1) as usize,
                ..old(self)@
            }),
            k is None ==> final(self)@ == old(self)@,
    {
        if self.num_consts >= MAX_CONSTS {
            return None;
        }
        self.consts[self.num_consts] = v;
        let idx: u16 = self.num_consts as u16;
        self.num_consts += 1;
        Some(idx)
    }
}

impl<A: Copy + Default> Program<A> {
    /// An empty program.
    pub fn new() -> (p: Self)
        ensures
            p.version == IR_VERSION,
            p.ops@ == Seq::new(MAX_OPS as nat, |i: int| IrOp::H(0)),
            p.len == 0,
            p.num_qubits == 0,
            p.num_classical == 0,
            !p.has_explicit_shot,
            p.num_consts == 0,
            p.subs@ == Seq::new(MAX_SUBS as nat, |i: int| Sub { off: 0, len: 0, nparams: 0 }),
            p.num_subs == 0,
            p.num_estimate_terms == 0,
            p.sub_len == 0,
    {
        let zero: A = A::default();
        Program {
            version: IR_VERSION,
            ops: [IrOp::H(0); MAX_OPS],
            len: 0,
            num_qubits: 0,
            num_classical: 0,
            has_explicit_shot: false,
            consts: [zero; MAX_CONSTS],
            num_consts: 0,
            subs: [Sub { off: 0, len: 0, nparams: 0 }; MAX_SUBS],
            num_subs: 0,
            estimate_terms: [(zero, 0); MAX_ESTIMATE_TERMS],
            num_estimate_terms: 0,
            sub_len: 0,
        }
    }
}

/// Whether two programs are the same up to the numbers in their pools, which `f`
/// takes from one to the other.
pub open spec fn same_but_numbers<A, B, F: Fn(A) -> B>(
    a: ProgramView<A>,
    b: ProgramView<B>,
    f: F,
) -> bool {
    &&& b.version == a.version
    &&& b.ops == a.ops
    &&& b.len == a.len
    &&& b.num_qubits == a.num_qubits
    &&& b.num_classical == a.num_classical
    &&& b.has_explicit_shot == a.has_explicit_shot
    &&& b.num_consts == a.num_consts
    &&& b.subs == a.subs
    &&& b.num_subs == a.num_subs
    &&& b.num_estimate_terms == a.num_estimate_terms
    &&& b.sub_len == a.sub_len
    &&& forall|i: int|
        0 <= i < a.num_consts ==> f.ensures((a.consts[i],), #[trigger] b.consts[i])
    &&& forall|i: int|
        0 <= i < a.num_estimate_terms ==> {
            &&& f.ensures((a.estimate_terms[i].0,), (#[trigger] b.estimate_terms[i]).0)
            &&& b.estimate_terms[i].1 == a.estimate_terms[i].1
        }
}

impl<A: Copy> Program<A> {
    /// The same program with other numbers for its angles and coefficients.
    pub fn with_numbers<B: Copy + Default, F: Fn(A) -> B>(&self, f: F) -> (p: Program<B>)
        requires
            self.num_consts <= MAX_CONSTS,
            self.num_estimate_terms <= MAX_ESTIMATE_TERMS,
            forall|a: A| #[trigger] f.requires((a,)),
        ensures
            same_but_numbers(self@, p@, f),
    {
        let zero: B = B::default();
        let mut consts: [B; MAX_CONSTS] = [zero; MAX_CONSTS];
        let mut i: usize = 0;
        while i < self.num_consts
            invariant
                i <= self.num_consts <= MAX_CONSTS,
                forall|a: A| #[trigger] f.requires((a,)),
                forall|k: int| 0 <= k < i ==> f.ensures((self.consts@[k],), #[trigger] consts@[k]),
            decreases self.num_consts - i,
        {
            consts[i] = f(self.consts[i]);
            i += 1;
        }
        let mut terms: [(B, u64); MAX_ESTIMATE_TERMS] = [(zero, 0); MAX_ESTIMATE_TERMS];
        let mut j: usize = 0;
        while j < self.num_estimate_terms
            invariant
                j <= self.num_estimate_terms <= MAX_ESTIMATE_TERMS,
                forall|a: A| #[trigger] f.requires((a,)),
                forall|k: int|
                    0 <= k < j ==> {
                        &&& f.ensures((self.estimate_terms@[k].0,), (#[trigger] terms@[k]).0)
                        &&& terms@[k].1 == self.estimate_terms@[k].1
                    },
            decreases self.num_estimate_terms - j,
        {
            let (c, pauli): (A, u64) = self.estimate_terms[j];
            terms[j] = (f(c), pauli);
            j += 1;
        }
        Program {
            version: self.version,
            ops: self.ops,
            len: self.len,
            num_qubits: self.num_qubits,
            num_classical: self.num_classical,
            has_explicit_shot: self.has_explicit_shot,
            consts,
            num_consts: self.num_consts,
            subs: self.subs,
            num_subs: self.num_subs,
            estimate_terms: terms,
            num_estimate_terms: self.num_estimate_terms,
            sub_len: self.sub_len,
        }
    }
}

/// The extent of a program is the least that holds its main region and its subprograms.
pub proof fn law_extent_holds_all_ops<A>(p: ProgramView<A>)
    ensures
        extent(p) >= p.len,
        extent(p) >= p.sub_len,
        extent(p) == p.len || extent(p) == p.sub_len,
{
}

} // verus!
