//! The choice of an engine for a run, and the pieces of its report.
use crate::safety::total;
use vstd::prelude::*;
use vstd::string::StringExecFns;

verus! {

/// How precise the accelerator has to be.
#[derive(Clone, Copy, Debug, PartialEq, Eq, Structural)]
pub enum Precision {
    /// Single precision will do.
    F32,
    /// Single precision will do where its estimated error is within the tolerance.
    Auto,
    /// Double precision, which the accelerator does not have.
    F64,
}

/// What was asked for, and what is known of the program.
#[derive(Clone, Copy, Debug, PartialEq, Eq, Structural)]
pub struct Request {
    pub gpu: bool,
    pub fuse: bool,
    pub stabilizer: bool,
    /// The bond dimension, where the matrix-product engine is asked for.
    pub mps: Option<usize>,
    pub precision: Precision,
    /// Whether any noise is switched on.
    pub noise: bool,
    /// Whether the estimated single-precision error exceeds the tolerance.
    pub over_tolerance: bool,
    /// Whether the program runs on the tableau engine.
    pub clifford: bool,
    /// Whether the program runs on the matrix-product engine.
    pub mps_suitable: bool,
}

/// Why something that was asked for is not done.
#[derive(Clone, Copy, Debug, PartialEq, Eq, Structural)]
pub enum Notice {
    PrecisionForcesCpu,
    ToleranceForcesCpu,
    NoiseForcesCpu,
    NoiseForcesUnfused,
    MpsForcesCpu,
    MpsIgnoresFuse,
    MpsOverStabilizer,
    StabilizerForcesCpu,
    StabilizerForcesUnfused,
    NotClifford,
    MpsUnsuitable,
}

/// Why the request cannot be met.
#[derive(Clone, Copy, Debug, PartialEq, Eq, Structural)]
pub enum Refusal {
    MpsWithNoise,
    BondTooSmall,
    StabilizerWithNoise,
}

/// What runs the program.
#[derive(Clone, Copy, Debug, PartialEq, Eq, Structural)]
pub enum Engine {
    Gpu,
    /// The matrix-product engine with this bond dimension.
    Mps(usize),
    Stabilizer,
    /// The state vector with gates fused.
    Fused,
    Statevector,
}

/// Whether the accelerator is precise enough.
pub open spec fn precise_enough(r: Request) -> bool {
    match r.precision {
        Precision::F32 => true,
        Precision::Auto => !r.over_tolerance,
        Precision::F64 => false,
    }
}

/// Whether the tableau engine is asked for and not displaced.
pub open spec fn wants_tableau(r: Request) -> bool {
    r.stabilizer && r.mps is None
}

/// The engine for a request. The matrix-product engine goes before the tableau
/// engine, this before the accelerator, and this before fusion; noise leaves only
/// the plain state vector.
pub open spec fn chosen(r: Request) -> Result<Engine, Refusal> {
    match r.mps {
        Some(d) => if r.noise {
            Err(Refusal::MpsWithNoise)
        } else if d < 1 {
            Err(Refusal::BondTooSmall)
        } else if r.mps_suitable {
            Ok(Engine::Mps(d))
        } else {
            Ok(Engine::Statevector)
        },
        None => if r.stabilizer {
            if r.noise {
                Err(Refusal::StabilizerWithNoise)
            } else if r.clifford {
                Ok(Engine::Stabilizer)
            } else {
                Ok(Engine::Statevector)
            }
        } else if r.gpu && precise_enough(r) && !r.noise {
            Ok(Engine::Gpu)
        } else if r.fuse && !r.noise {
            Ok(Engine::Fused)
        } else {
            Ok(Engine::Statevector)
        },
    }
}

/// Whether a notice is given.
pub open spec fn given(r: Request, n: Notice) -> bool {
    let gpu = r.gpu && precise_enough(r);
    match n {
        Notice::PrecisionForcesCpu => r.gpu && r.precision is F64,
        Notice::ToleranceForcesCpu => r.gpu && r.precision is Auto && r.over_tolerance,
        Notice::NoiseForcesCpu => gpu && r.noise,
        Notice::NoiseForcesUnfused => r.fuse && r.noise,
        Notice::MpsForcesCpu => r.mps is Some && gpu && !r.noise,
        Notice::MpsIgnoresFuse => r.mps is Some && r.fuse && !r.noise,
        Notice::MpsOverStabilizer => r.mps is Some && r.stabilizer,
        Notice::StabilizerForcesCpu => wants_tableau(r) && gpu && !r.noise,
        Notice::StabilizerForcesUnfused => wants_tableau(r) && r.fuse && !r.noise,
        Notice::NotClifford => wants_tableau(r) && !r.noise && !r.clifford,
        Notice::MpsUnsuitable => r.mps is Some && chosen(r) == Ok::<Engine, Refusal>(
            Engine::Statevector,
        ),
    }
}

/// All notices, in the order they are given in.
pub open spec fn notices() -> Seq<Notice> {
    seq![
        Notice::PrecisionForcesCpu,
        Notice::ToleranceForcesCpu,
        Notice::NoiseForcesCpu,
        Notice::NoiseForcesUnfused,
        Notice::MpsForcesCpu,
        Notice::MpsIgnoresFuse,
        Notice::MpsOverStabilizer,
        Notice::StabilizerForcesCpu,
        Notice::StabilizerForcesUnfused,
        Notice::NotClifford,
        Notice::MpsUnsuitable,
    ]
}

/// The notices among the first `n` that are given.
pub open spec fn given_among(r: Request, n: nat) -> Seq<Notice>
    decreases n,
{
    if n == 0 {
        Seq::empty()
    } else if given(r, notices()[n - 1]) {
        given_among(r, (n - 1) as nat).push(notices()[n - 1])
    } else {
        given_among(r, (n - 1) as nat)
    }
}

/// The engine for a request, or why there is none, with the notices to give first.
pub fn select_engine(r: Request) -> (out: (Vec<Notice>, Result<Engine, Refusal>))
    ensures
        out.0@ == given_among(r, notices().len()),
        out.1 == chosen(r),
{
    let mut said: Vec<Notice> = Vec::new();
    let mut gpu: bool = r.gpu;
    let mut fuse: bool = r.fuse;
    let mut stabilizer: bool = r.stabilizer;
    proof {
        reveal_with_fuel(given_among, 12);
    }
    match r.precision {
        Precision::F64 => {
            if gpu {
                said.push(Notice::PrecisionForcesCpu);
                gpu = false;
            }
        },
        Precision::Auto => {
            if gpu && r.over_tolerance {
                said.push(Notice::ToleranceForcesCpu);
                gpu = false;
            }
        },
        Precision::F32 => {},
    }
    assert(said@ =~= given_among(r, 2));
    if r.noise {
        if gpu {
            said.push(Notice::NoiseForcesCpu);
            gpu = false;
        }
        if fuse {
            said.push(Notice::NoiseForcesUnfused);
            fuse = false;
        }
    }
    assert(said@ =~= given_among(r, 4));
    if let Some(dmax) = r.mps {
        if gpu {
            said.push(Notice::MpsForcesCpu);
            gpu = false;
        }
        if fuse {
            said.push(Notice::MpsIgnoresFuse);
            fuse = false;
        }
        if stabilizer {
            said.push(Notice::MpsOverStabilizer);
            stabilizer = false;
        }
        assert(said@ =~= given_among(r, 7));
        if r.noise {
            assert(said@ =~= given_among(r, 11));
            return (said, Err(Refusal::MpsWithNoise));
        }
        if dmax < 1 {
            assert(said@ =~= given_among(r, 11));
            return (said, Err(Refusal::BondTooSmall));
        }
    }
    assert(said@ =~= given_among(r, 7));
    if stabilizer {
        if gpu {
            said.push(Notice::StabilizerForcesCpu);
            gpu = false;
        }
        if fuse {
            said.push(Notice::StabilizerForcesUnfused);
            fuse = false;
        }
        assert(said@ =~= given_among(r, 9));
        if r.noise {
            assert(said@ =~= given_among(r, 11));
            return (said, Err(Refusal::StabilizerWithNoise));
        }
        if !r.clifford {
            said.push(Notice::NotClifford);
            stabilizer = false;
        }
    }
    assert(said@ =~= given_among(r, 10));
    let engine: Engine = if gpu {
        Engine::Gpu
    } else if let Some(dmax) = r.mps {
        if r.mps_suitable {
            Engine::Mps(dmax)
        } else {
            said.push(Notice::MpsUnsuitable);
            Engine::Statevector
        }
    } else if stabilizer {
        Engine::Stabilizer
    } else if fuse {
        Engine::Fused
    } else {
        Engine::Statevector
    };
    assert(said@ =~= given_among(r, 11));
    (said, Ok(engine))
}

/// A chosen engine fits: the tableau engine gets Clifford programs only, the
/// matrix-product engine programs without three-qubit gates and a bond dimension
/// of at least one, and noise is simulated by the plain state vector only.
pub proof fn law_chosen_engine_fits(r: Request)
    ensures
        chosen(r) == Ok::<Engine, Refusal>(Engine::Stabilizer) ==> r.clifford,
        chosen(r) matches Ok(Engine::Mps(d)) ==> r.mps_suitable && d >= 1,
        chosen(r) == Ok::<Engine, Refusal>(Engine::Gpu) ==> precise_enough(r),
        r.noise ==> (chosen(r) is Err || chosen(r) == Ok::<Engine, Refusal>(Engine::Statevector)),
{
}

/// A request that asks for nothing special is never refused, and nothing is said.
pub proof fn law_plain_requests_pass(r: Request)
    requires
        !r.gpu,
        !r.fuse,
        !r.stabilizer,
        r.mps is None,
    ensures
        chosen(r) == Ok::<Engine, Refusal>(Engine::Statevector),
        given_among(r, notices().len()) == Seq::<Notice>::empty(),
{
    reveal_with_fuel(given_among, 12);
}

/// How often a program is executed: as often as asked for, unless it repeats itself.
pub fn repetitions(shots: Option<u32>, explicit: bool) -> (r: Option<u32>)
    ensures
        r == if explicit {
            None
        } else {
            shots
        },
{
    if explicit {
        None
    } else {
        shots
    }
}

/// The number of samples in a histogram.
pub fn total_shots(histogram: &[u32]) -> (t: u64)
    requires
        histogram@.len() <= 0x1_0000_0000,
    ensures
        t == total(histogram@),
{
    let mut t: u64 = 0;
    let mut i: usize = 0;
    assert(histogram@.take(0) =~= Seq::empty());
    while i < histogram.len()
        invariant
            i <= histogram@.len() <= 0x1_0000_0000,
            t == total(histogram@.take(i as int)),
            t <= i * 0xFFFF_FFFF,
        decreases histogram@.len() - i,
    {
        proof {
            let next = histogram@.take(i + 1);
            assert(next.drop_last() =~= histogram@.take(i as int));
            assert(next.last() == histogram@[i as int]);
        }
        t = t + histogram[i] as u64;
        i += 1;
    }
    assert(histogram@.take(i as int) =~= histogram@);
    t
}

/// The digit of a qubit in a basis state.
pub open spec fn digit(i: u64, q: int) -> char {
    if (i >> (q as u64)) & 1 == 1 {
        '1'
    } else {
        '0'
    }
}

/// A basis state as binary digits, the highest qubit first.
pub fn basis_label(i: u64, num_qubits: u8) -> (s: String)
    requires
        num_qubits <= 64,
    ensures
        s@ == label(i, num_qubits),
{
    let mut s = String::new();
    let mut q: u8 = num_qubits;
    proof {
        reveal_strlit("0");
        reveal_strlit("1");
    }
    assert(s@ =~= Seq::new(0, |k: int| digit(i, num_qubits - 1 - k)));
    while q > 0
        invariant
            q <= num_qubits <= 64,
            "0"@ == seq!['0'],
            "1"@ == seq!['1'],
            s@ == Seq::new((num_qubits - q) as nat, |k: int| digit(i, num_qubits - 1 - k)),
        decreases q,
    {
        q = q - 1;
        let ghost before = s@;
        if (i >> (q as u64)) & 1 == 1 {
            s.append("1");
        } else {
            s.append("0");
        }
        assert(s@ =~= before.push(digit(i, q as int)));
        assert(s@ =~= Seq::new((num_qubits - q) as nat, |k: int| digit(i, num_qubits - 1 - k)));
    }
    s
}

/// The label of a basis state.
pub open spec fn label(i: u64, n: u8) -> Seq<char> {
    Seq::new(n as nat, |k: int| digit(i, n - 1 - k))
}

/// The bins among the first `k` that hold samples, in order, each with its label and
/// its count.
pub open spec fn filled(h: Seq<u32>, n: u8, k: nat) -> Seq<(Seq<char>, u32)>
    decreases k,
{
    if k == 0 {
        Seq::empty()
    } else if h[k - 1] > 0 {
        filled(h, n, (k - 1) as nat).push((label((k - 1) as u64, n), h[k - 1]))
    } else {
        filled(h, n, (k - 1) as nat)
    }
}

/// The contents of a list of labelled counts.
pub open spec fn shown(v: Seq<(String, u32)>) -> Seq<(Seq<char>, u32)> {
    v.map_values(|x: (String, u32)| (x.0@, x.1))
}

/// The bins that hold samples, in order, each with the label of its basis state.
pub fn counts(histogram: &[u32], num_qubits: u8) -> (r: Vec<(String, u32)>)
    requires
        num_qubits <= 64,
    ensures
        shown(r@) == filled(histogram@, num_qubits, histogram@.len()),
{
    let mut r: Vec<(String, u32)> = Vec::new();
    let mut i: usize = 0;
    assert(shown(r@) =~= Seq::empty());
    while i < histogram.len()
        invariant
            i <= histogram@.len(),
            num_qubits <= 64,
            shown(r@) == filled(histogram@, num_qubits, i as nat),
        decreases histogram@.len() - i,
    {
        if histogram[i] > 0 {
            let ghost before = r@;
            let s = basis_label(i as u64, num_qubits);
            r.push((s, histogram[i]));
            assert(shown(r@) =~= shown(before).push((s@, histogram@[i as int])));
        }
        i += 1;
    }
    r
}

} // verus!
