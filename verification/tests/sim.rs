use plasma::amplitudes::{pauli_masks, State};
use plasma::device::{batch_region, is_batchable, try_draw, try_run_batch, try_run_device};
use plasma::diag::Diag;
use plasma::fusion::fuse_program;
use plasma::ir::{IrOp, Program};
use plasma::lexer::{tokenise, LexResult, Literal};
use plasma::parser::parse;
use plasma::pauli::parity;
use plasma::rng::Lcg64;
use plasma::sim::{
    is_clifford_program, is_mps_suitable, program_has_calls, run_fused_program,
    run_fused_program_shots, run_program, run_program_shots, run_stabilizer_program,
    run_stabilizer_program_shots, translate_op, try_run_program, Basis, Fault, Gate, Results,
    SimBackend,
};

const INV_SQRT_2: f64 = 0.7071067811865475;
const PI: f64 = 3.141592653589793;
const HALF_PI: f64 = 1.5707963267948966;

type A = (f64, f64);

/// Rates of the noise channels.
#[derive(Clone, Copy, Default)]
struct Noise {
    depolarizing: f64,
    readout: f64,
    amp_damping: f64,
    phase_damping: f64,
}

/// What a gate is: its name, its qubits and the bits of its angle.
type Key = (u8, u8, u8, u64);

/// A block of gates and its matrix.
type Block = (u8, Option<u8>, Vec<Key>, Vec<A>);

/// A state vector of f64 amplitudes.
struct Sv {
    state: State<f64>,
    noise: Noise,
    /// The last block applied.
    last: Option<Block>,
}

fn draw(rng: &mut Lcg64) -> f64 {
    rng.next_bits() as f64 * (1.0 / (1u64 << 53) as f64)
}

fn times(x: A, y: A) -> A {
    (x.0 * y.0 - x.1 * y.1, x.0 * y.1 + x.1 * y.0)
}

fn plus(x: A, y: A) -> A {
    (x.0 + y.0, x.1 + y.1)
}

impl Sv {
    fn new(n: u8) -> Sv {
        Sv { state: State::new(1 << n, 0.0, 1.0), noise: Noise::default(), last: None }
    }

    fn with_noise(n: u8, noise: Noise) -> Sv {
        Sv { state: State::new(1 << n, 0.0, 1.0), noise, last: None }
    }

    fn re(&self, i: usize) -> f64 {
        self.state.re[i]
    }

    fn im(&self, i: usize) -> f64 {
        self.state.im[i]
    }

    /// Applies the matrix [[a, b], [c, d]] to qubit `q`.
    fn u(&mut self, q: u8, m: [A; 4]) {
        self.state.for_each_pair(q, |x, y| {
            (plus(times(m[0], x), times(m[1], y)), plus(times(m[2], x), times(m[3], y)))
        });
    }

    /// Multiplies the amplitudes with the bits of `a` and `b` set.
    fn turn(&mut self, a: u8, b: u8, w: A) {
        self.state.for_each_both(a, b, |x| times(w, x));
    }

    fn apply_h(&mut self, q: u8) {
        self.state.for_each_pair(q, |x, y| {
            (
                (INV_SQRT_2 * (x.0 + y.0), INV_SQRT_2 * (x.1 + y.1)),
                (INV_SQRT_2 * (x.0 - y.0), INV_SQRT_2 * (x.1 - y.1)),
            )
        });
    }

    fn apply_rz(&mut self, q: u8, th: f64) {
        let (s, c) = (th * 0.5).sin_cos();
        self.u(q, [(c, -s), (0.0, 0.0), (0.0, 0.0), (c, s)]);
    }

    fn apply_rx(&mut self, q: u8, th: f64) {
        let (s, c) = (th * 0.5).sin_cos();
        self.u(q, [(c, 0.0), (0.0, -s), (0.0, -s), (c, 0.0)]);
    }

    fn apply_ry(&mut self, q: u8, th: f64) {
        let (s, c) = (th * 0.5).sin_cos();
        self.u(q, [(c, 0.0), (-s, 0.0), (s, 0.0), (c, 0.0)]);
    }

    fn apply_phase(&mut self, q: u8, th: f64) {
        let (s, c) = th.sin_cos();
        self.turn(q, q, (c, s));
    }

    fn apply_s(&mut self, q: u8) {
        self.turn(q, q, (0.0, 1.0));
    }

    fn apply_t(&mut self, q: u8) {
        self.turn(q, q, (INV_SQRT_2, INV_SQRT_2));
    }

    fn apply_sx(&mut self, q: u8) {
        self.u(q, [(0.5, 0.5), (0.5, -0.5), (0.5, -0.5), (0.5, 0.5)]);
    }

    fn apply_iswap(&mut self, a: u8, b: u8) {
        self.state.for_each_exchange(a, b, |x, y| ((-y.1, y.0), (-x.1, x.0)));
    }

    fn apply_cz(&mut self, a: u8, b: u8) {
        self.turn(a, b, (-1.0, 0.0));
    }

    fn apply_cphase(&mut self, a: u8, b: u8, th: f64) {
        let (s, c) = th.sin_cos();
        self.turn(a, b, (c, s));
    }

    fn probability(&self, q: u8) -> f64 {
        let mut p = 0.0;
        for i in 0..self.state.re.len() {
            if (i >> q) & 1 == 1 {
                p += self.re(i) * self.re(i) + self.im(i) * self.im(i);
            }
        }
        p
    }

    fn measure(&mut self, q: u8, rng: &mut Lcg64) -> u8 {
        let ideal = self.probability(q);
        let r = self.noise.readout;
        let p = ideal * (1.0 - r) + (1.0 - ideal) * r;
        let outcome = draw(rng) < p;
        self.state.discard(q, outcome, 0.0);
        let mut kept = 0.0;
        for i in 0..self.state.re.len() {
            kept += self.re(i) * self.re(i) + self.im(i) * self.im(i);
        }
        if kept > 0.0 {
            let norm = kept.sqrt();
            self.state.for_each_pair(q, |x, y| {
                ((x.0 / norm, x.1 / norm), (y.0 / norm, y.1 / norm))
            });
        }
        outcome as u8
    }

    fn measure_x(&mut self, q: u8, rng: &mut Lcg64) -> u8 {
        self.measure_in(Basis::X, q, rng)
    }

    fn measure_y(&mut self, q: u8, rng: &mut Lcg64) -> u8 {
        self.measure_in(Basis::Y, q, rng)
    }

    fn damp(&mut self, q: u8, rate: f64, rng: &mut Lcg64) {
        let pj = rate * self.probability(q);
        if pj <= 0.0 {
            return;
        }
        if draw(rng) < pj {
            let w = (rate / pj).sqrt();
            self.state.for_each_pair(q, |_x, y| ((y.0 * w, y.1 * w), (0.0, 0.0)));
        } else {
            let (k, norm) = ((1.0 - rate).sqrt(), (1.0 - pj).sqrt());
            self.state.for_each_pair(q, |x, y| {
                ((x.0 / norm, x.1 / norm), (y.0 * k / norm, y.1 * k / norm))
            });
        }
    }
}

impl SimBackend<f64> for Sv {
    type Model = (State<f64>, Noise);
    type Value = f64;

    fn accepts_gate(&self, _g: Gate<f64>) -> bool {
        true
    }
    fn accepts_block(&self, _q: u8, _p: Option<u8>, _gs: &Vec<Gate<f64>>) -> bool {
        true
    }
    fn accepts_qubit(&self, _q: u8) -> bool {
        true
    }
    fn accepts_pauli(&self, _pauli: u64) -> bool {
        true
    }
    fn accepts_capture(&self) -> bool {
        true
    }
    fn reset(&mut self) {
        self.state.reset(0.0, 1.0);
    }
    fn apply(&mut self, g: Gate<f64>) {
        match g {
            Gate::H(q) => self.apply_h(q),
            Gate::X(q) => self.state.apply_x(q),
            Gate::CNOT(c, t) => self.state.apply_cnot(c, t),
            Gate::Toff(a, b, t) => self.state.apply_toff(a, b, t),
            Gate::RZ(q, th) => self.apply_rz(q, th),
            Gate::RX(q, th) => self.apply_rx(q, th),
            Gate::RY(q, th) => self.apply_ry(q, th),
            Gate::Phase(q, th) => self.apply_phase(q, th),
            Gate::S(q) => self.apply_s(q),
            Gate::T(q) => self.apply_t(q),
            Gate::SX(q) => self.apply_sx(q),
            Gate::SWAP(a, b) => self.state.apply_swap(a, b),
            Gate::ISWAP(a, b) => self.apply_iswap(a, b),
            Gate::CZ(a, b) => self.apply_cz(a, b),
            Gate::CPHASE(a, b, th) => self.apply_cphase(a, b, th),
            Gate::CSWAP(c, a, b) => self.state.apply_cswap(c, a, b),
            Gate::MCX(mask, t) => self.state.apply_mcx(mask, t),
        }
    }
    fn apply_block(&mut self, q: u8, p: Option<u8>, gs: &Vec<Gate<f64>>) {
        let known = match &self.last {
            Some((a, b, keys, _)) => {
                *a == q && *b == p && keys.len() == gs.len()
                    && keys.iter().zip(gs.iter()).all(|(k, g)| *k == key(*g))
            }
            None => false,
        };
        if !known {
            let keys = gs.iter().map(|g| key(*g)).collect();
            self.last = Some((q, p, keys, matrix(q, p, gs)));
        }
        let m = match &self.last {
            Some((_, _, _, m)) => m.clone(),
            None => unreachable!(),
        };
        match p {
            None => self.u(q, [m[0], m[1], m[2], m[3]]),
            Some(p) => self.state.for_each_quad(q, p, |a, b, c, d| {
                let row = |r: usize| {
                    plus(
                        plus(times(m[4 * r], a), times(m[4 * r + 1], b)),
                        plus(times(m[4 * r + 2], c), times(m[4 * r + 3], d)),
                    )
                };
                (row(0), row(1), row(2), row(3))
            }),
        }
    }
    fn measure_in(&mut self, basis: Basis, q: u8, rng: &mut Lcg64) -> u8 {
        match basis {
            Basis::X => {
                self.apply_h(q);
                let o = self.measure(q, rng);
                self.apply_h(q);
                o
            }
            Basis::Y => {
                self.turn(q, q, (0.0, -1.0));
                self.apply_h(q);
                let o = self.measure(q, rng);
                self.apply_h(q);
                self.apply_s(q);
                o
            }
            Basis::Z => self.measure(q, rng),
        }
    }
    fn reset_qubit(&mut self, q: u8, rng: &mut Lcg64) {
        if self.measure(q, rng) == 1 {
            self.state.apply_x(q);
        }
    }
    fn sample(&mut self, rng: &mut Lcg64) -> usize {
        let r = draw(rng);
        let mut cum = 0.0;
        for i in 0..self.state.re.len() {
            cum += self.re(i) * self.re(i) + self.im(i) * self.im(i);
            if r < cum {
                return i;
            }
        }
        self.state.re.len() - 1
    }
    fn expect_value(&self, pauli: u64) -> f64 {
        let m = pauli_masks(pauli);
        let phase = [(1.0, 0.0), (0.0, -1.0), (-1.0, 0.0), (0.0, 1.0)][(m.y_letters & 3) as usize];
        let mut e = 0.0;
        for i in 0..self.state.re.len() {
            let j = i ^ m.flip as usize;
            let odd = parity(i as u64 & m.z) != parity(i as u64 & m.y);
            let c = if odd { (-phase.0, -phase.1) } else { phase };
            let conj = (self.re(i), -self.im(i));
            e += times(c, times(conj, (self.re(j), self.im(j)))).0;
        }
        e
    }
    fn save_state(&mut self, results: &mut Results<f64, f64>) {
        results.saved_states.push(self.state.interleaved());
    }
    fn save_amplitudes(&mut self, results: &mut Results<f64, f64>) {
        results.saved_amplitudes.push(self.state.indexed());
    }
    fn save_probabilities(&mut self, results: &mut Results<f64, f64>) {
        let n = self.state.re.len();
        let v = (0..n).map(|i| self.re(i) * self.re(i) + self.im(i) * self.im(i)).collect();
        results.saved_probs.push(v);
    }
    fn noise_after_single(&mut self, q: u8, rng: &mut Lcg64) {
        let n = self.noise;
        if n.depolarizing > 0.0 && draw(rng) < n.depolarizing {
            match (draw(rng) * 3.0) as u64 {
                0 => self.state.apply_x(q),
                1 => {
                    self.turn(q, q, (-1.0, 0.0));
                    self.state.apply_x(q);
                }
                _ => self.turn(q, q, (-1.0, 0.0)),
            }
        }
        if n.amp_damping > 0.0 {
            self.damp(q, n.amp_damping, rng);
        }
        if n.phase_damping > 0.0 && draw(rng) < n.phase_damping {
            self.turn(q, q, (-1.0, 0.0));
        }
    }
    fn noise_after_pair(&mut self, a: u8, b: u8, rng: &mut Lcg64) {
        self.noise_after_single(a, rng);
        self.noise_after_single(b, rng);
    }
    fn noise_after_triple(&mut self, a: u8, b: u8, c: u8, rng: &mut Lcg64) {
        self.noise_after_single(a, rng);
        self.noise_after_single(b, rng);
        self.noise_after_single(c, rng);
    }
}

fn key(g: Gate<f64>) -> Key {
    match g {
        Gate::H(x) => (0, x, 0, 0),
        Gate::X(x) => (1, x, 0, 0),
        Gate::S(x) => (2, x, 0, 0),
        Gate::T(x) => (3, x, 0, 0),
        Gate::SX(x) => (4, x, 0, 0),
        Gate::RZ(x, th) => (5, x, 0, th.to_bits()),
        Gate::RX(x, th) => (6, x, 0, th.to_bits()),
        Gate::RY(x, th) => (7, x, 0, th.to_bits()),
        Gate::Phase(x, th) => (8, x, 0, th.to_bits()),
        Gate::CNOT(a, b) => (9, a, b, 0),
        Gate::SWAP(a, b) => (10, a, b, 0),
        Gate::ISWAP(a, b) => (11, a, b, 0),
        Gate::CZ(a, b) => (12, a, b, 0),
        Gate::CPHASE(a, b, th) => (13, a, b, th.to_bits()),
        _ => panic!("not part of a block"),
    }
}

/// The matrix of a block, row by row: its columns are what the gates make of the
/// basis states of a small register.
fn matrix(q: u8, p: Option<u8>, gs: &Vec<Gate<f64>>) -> Vec<A> {
    let at = |x: u8| if x == q { 0 } else { 1 };
    let small = |g: Gate<f64>| match g {
        Gate::H(x) => Gate::H(at(x)),
        Gate::X(x) => Gate::X(at(x)),
        Gate::S(x) => Gate::S(at(x)),
        Gate::T(x) => Gate::T(at(x)),
        Gate::SX(x) => Gate::SX(at(x)),
        Gate::RZ(x, th) => Gate::RZ(at(x), th),
        Gate::RX(x, th) => Gate::RX(at(x), th),
        Gate::RY(x, th) => Gate::RY(at(x), th),
        Gate::Phase(x, th) => Gate::Phase(at(x), th),
        Gate::CNOT(a, b) => Gate::CNOT(at(a), at(b)),
        Gate::SWAP(a, b) => Gate::SWAP(at(a), at(b)),
        Gate::ISWAP(a, b) => Gate::ISWAP(at(a), at(b)),
        Gate::CZ(a, b) => Gate::CZ(at(a), at(b)),
        Gate::CPHASE(a, b, th) => Gate::CPHASE(at(a), at(b), th),
        _ => panic!("not part of a block"),
    };
    let n: u8 = if p.is_some() { 2 } else { 1 };
    let size = 1usize << n;
    let mut m = vec![(0.0, 0.0); size * size];
    for col in 0..size {
        let mut sv = Sv::new(n);
        for b in 0..n {
            if (col >> b) & 1 == 1 {
                sv.state.apply_x(b);
            }
        }
        for g in gs.iter() {
            sv.apply(small(*g));
        }
        for row in 0..size {
            m[row * size + col] = (sv.re(row), sv.im(row));
        }
    }
    m
}

/// The value of a literal of `src`.
fn value(l: Literal, src: &[u8]) -> f64 {
    let mut frac = 0.0f64;
    let mut scale = 0.1f64;
    for k in 0..l.frac_len {
        frac += (src[l.frac_start + k] - b'0') as f64 * scale;
        scale *= 0.1;
    }
    let v = l.whole as f64 + frac;
    if l.negative {
        -v
    } else {
        v
    }
}

fn parse_test(src: &[u8]) -> Box<Program<f64>> {
    let mut lex = Box::new(LexResult::new());
    tokenise(src, &mut lex);
    let mut prog: Box<Program<Literal>> = Box::new(Program::new());
    let mut diag = Diag::new();
    assert!(parse(&lex, &mut prog, &mut diag), "{}", diag.message());
    Box::new(prog.with_numbers(|l| value(l, src)))
}

/// Everything a run on `Sv` leaves behind.
struct Run {
    sv: Sv,
    results: Results<f64, f64>,
    classical: [u8; 64],
    histogram: Vec<u32>,
    rng: Lcg64,
}

fn ready(n: u8, seed: u64) -> Run {
    Run {
        sv: Sv::new(n),
        results: Results::default(),
        classical: [0; 64],
        histogram: vec![0; 1 << n],
        rng: Lcg64::new(seed),
    }
}

fn run_sv(prog: &Program<f64>, seed: u64) -> Run {
    let mut r = ready(prog.num_qubits, seed);
    run_program(
        prog,
        &mut r.sv,
        &mut r.results,
        &mut r.classical,
        &mut r.histogram,
        &mut r.rng,
    );
    r
}

fn sum(h: &[u32]) -> u64 {
    h.iter().map(|&x| x as u64).sum()
}

fn distance(a: &[u32], b: &[u32]) -> f64 {
    let (s, t) = (sum(a) as f64, sum(b) as f64);
    a.iter().zip(b.iter()).map(|(x, y)| (*x as f64 / s - *y as f64 / t).abs()).sum::<f64>() / 2.0
}

fn approx_eq(a: f64, b: f64) -> bool {
    (a - b).abs() < 1e-10
}

#[test]
fn test_h_gate() {
    let mut sim = Sv::new(1);
    sim.apply_h(0);
    assert!(approx_eq(sim.state.re[0], INV_SQRT_2));
    assert!(approx_eq(sim.state.re[1], INV_SQRT_2));
    assert!(approx_eq(sim.state.im[0], 0.0));
    assert!(approx_eq(sim.state.im[1], 0.0));
}

#[test]
fn test_x_gate() {
    let mut sim = Sv::new(1);
    sim.state.apply_x(0);
    assert!(approx_eq(sim.state.re[0], 0.0));
    assert!(approx_eq(sim.state.re[1], 1.0));
}

#[test]
fn test_h_then_x() {
    let mut sim = Sv::new(1);
    sim.apply_h(0);
    sim.state.apply_x(0);
    // X(H|0>) = (|1> + |0>)/√2
    assert!(approx_eq(sim.state.re[0], INV_SQRT_2));
    assert!(approx_eq(sim.state.re[1], INV_SQRT_2));
}

#[test]
fn test_cnot_bell_state() {
    let mut sim = Sv::new(2);
    sim.apply_h(0);
    sim.state.apply_cnot(0, 1);
    // Should be (|00> + |11>)/√2
    assert!(approx_eq(sim.state.re[0], INV_SQRT_2));
    assert!(approx_eq(sim.state.re[3], INV_SQRT_2));
    assert!(approx_eq(sim.state.re[1], 0.0));
    assert!(approx_eq(sim.state.re[2], 0.0));
}

#[test]
fn sim_test_toffoli() {
    let mut sim = Sv::new(3);
    // Set |110> (qubits 0 and 1 = 1, qubit 2 = 0)
    sim.state.apply_x(0);
    sim.state.apply_x(1);
    // |110> → index 3 (binary 011 on qubits 2,1,0 = 110 = 3)
    assert!(approx_eq(sim.state.re[3], 1.0));
    sim.state.apply_toff(0, 1, 2);
    // |110> → |111>
    assert!(approx_eq(sim.state.re[7], 1.0));
    assert!(approx_eq(sim.state.re[3], 0.0));
}

#[test]
fn test_measurement_conserves_probability() {
    let mut sim = Sv::new(1);
    sim.apply_h(0);
    let p0 = sim.probability(0);
    assert!(approx_eq(p0, 0.5));
}

#[test]
fn test_sample_distribution() {
    let mut sim = Sv::new(1);
    sim.apply_h(0);
    let mut rng = Lcg64::new(42);
    let mut counts = [0u32; 2];
    for _ in 0..10_000 {
        let sample = sim.sample(&mut rng);
        counts[sample] += 1;
    }
    // ~5000 each, within 5% tolerance
    assert!((counts[0] as f64 / 10000.0 - 0.5).abs() < 0.05);
    assert!((counts[1] as f64 / 10000.0 - 0.5).abs() < 0.05);
}

#[test]
fn test_full_program_execution() {
    let mut classical = [0u8; 10];
    let mut histogram = vec![0u32; 4];
    let mut rng = Lcg64::new(42);

    let mut prog: Program<f64> = Program::new();
    prog.num_qubits = 2;
    prog.num_classical = 2;
    prog.emit(IrOp::H(0));
    prog.emit(IrOp::CNOT(0, 1));
    // No SHOT → single execution + sample

    run_program(
        &prog,
        &mut Sv::new(prog.num_qubits),
        &mut Results::default(),
        &mut classical,
        &mut histogram,
        &mut rng,
    );

    // With 2 qubit state, only |00> + |11>, so histogram[0] and histogram[3]
    let total: u32 = histogram.iter().sum();
    assert_eq!(total, 1); // single shot
    assert!(histogram[0] == 1 || histogram[3] == 1);
}

#[test]
fn sim_test_shot_with_body() {
    let mut classical = [0u8; 10];
    let mut histogram = vec![0u32; 2];
    let mut rng = Lcg64::new(42);

    let mut prog: Program<f64> = Program::new();
    prog.num_qubits = 1;
    prog.num_classical = 1;
    prog.has_explicit_shot = true;
    prog.emit(IrOp::Shot(100, 1, 1));
    prog.emit(IrOp::H(0));

    run_program(
        &prog,
        &mut Sv::new(prog.num_qubits),
        &mut Results::default(),
        &mut classical,
        &mut histogram,
        &mut rng,
    );

    let total: u32 = histogram.iter().sum();
    assert_eq!(total, 100);
    // ~50/50 split within tolerance
    assert!((histogram[0] as f64 / 100.0 - 0.5).abs() < 0.15);
    assert!((histogram[1] as f64 / 100.0 - 0.5).abs() < 0.15);
}

#[test]
fn test_run_program_shots() {
    let mut classical = [0u8; 10];
    let mut histogram = vec![0u32; 2];
    let mut rng = Lcg64::new(7);

    let mut prog: Program<f64> = Program::new();
    prog.num_qubits = 1;
    prog.num_classical = 1;
    prog.emit(IrOp::H(0));

    run_program_shots(
        &prog,
        5000,
        &mut Sv::new(prog.num_qubits),
        &mut Results::default(),
        &mut classical,
        &mut histogram,
        &mut rng,
    );

    let total: u32 = histogram.iter().sum();
    assert_eq!(total, 5000);
    assert!((histogram[0] as f64 / 5000.0 - 0.5).abs() < 0.05);
    assert!((histogram[1] as f64 / 5000.0 - 0.5).abs() < 0.05);
}

#[test]
fn test_rz_pi() {
    let mut sim = Sv::new(1);
    sim.apply_rz(0, PI);
    // RZ(π)|0> = e^{-iπ/2}|0> = -i|0>
    assert!(approx_eq(sim.re(0), 0.0), "re0 = {}", sim.state.re[0]);
    assert!(approx_eq(sim.im(0), -1.0), "im0 = {}", sim.state.im[0]);
    let mut sim2 = Sv::new(1);
    sim2.state.apply_x(0);
    sim2.apply_rz(0, PI);
    // RZ(π)|1> = e^{iπ/2}|1> = i|1>
    assert!(approx_eq(sim2.re(1), 0.0));
    assert!(approx_eq(sim2.im(1), 1.0));
}

#[test]
fn test_rx_pi() {
    let mut sim = Sv::new(1);
    sim.apply_rx(0, PI);
    // RX(π)|0> = -i|1>
    assert!(approx_eq(sim.re(0), 0.0));
    assert!(approx_eq(sim.im(0), 0.0));
    assert!(approx_eq(sim.re(1), 0.0));
    assert!(approx_eq(sim.im(1), -1.0));
}

#[test]
fn test_ry_pi() {
    let mut sim = Sv::new(1);
    sim.apply_ry(0, PI);
    // RY(π)|0> = |1>
    assert!(approx_eq(sim.re(1), 1.0));
    assert!(approx_eq(sim.im(1), 0.0));
}

#[test]
fn test_phase_pi_over_2() {
    let mut sim = Sv::new(1);
    sim.state.apply_x(0);
    sim.apply_phase(0, HALF_PI);
    // |1> -> e^{iπ/2}|1> = i|1>
    assert!(approx_eq(sim.re(1), 0.0));
    assert!(approx_eq(sim.im(1), 1.0));
}

#[test]
fn test_s_gate() {
    let mut sim = Sv::new(1);
    sim.state.apply_x(0);
    sim.apply_s(0);
    assert!(approx_eq(sim.re(1), 0.0));
    assert!(approx_eq(sim.im(1), 1.0));
}

#[test]
fn test_t_gate() {
    let mut sim = Sv::new(1);
    sim.state.apply_x(0);
    sim.apply_t(0);
    // T|1> = e^{iπ/4}|1> = (√2/2)(1+i)
    assert!(approx_eq(sim.re(1), INV_SQRT_2));
    assert!(approx_eq(sim.im(1), INV_SQRT_2));
}

#[test]
fn test_sx_twice_is_x() {
    let mut sim = Sv::new(1);
    sim.apply_sx(0);
    sim.apply_sx(0);
    // SX2 = X: |0> -> |1>
    assert!(approx_eq(sim.re(0), 0.0));
    assert!(approx_eq(sim.re(1), 1.0));
    assert!(approx_eq(sim.im(0), 0.0));
}

#[test]
fn test_swap_gate() {
    let mut sim = Sv::new(2);
    sim.state.apply_x(0); // |01> (index 1, qubit 0 set)
    sim.state.apply_swap(0, 1);
    // |10> (index 2, qubit 1 set)
    assert!(approx_eq(sim.re(2), 1.0));
    assert!(approx_eq(sim.re(1), 0.0));
}

#[test]
fn test_iswap_gate() {
    let mut sim = Sv::new(2);
    sim.state.apply_x(0); // |01>
    sim.apply_iswap(0, 1);
    // iSWAP|01> = i|10>
    assert!(approx_eq(sim.re(2), 0.0));
    assert!(approx_eq(sim.im(2), 1.0));
}

#[test]
fn test_cz_gate() {
    let mut sim = Sv::new(2);
    sim.state.apply_x(0);
    sim.state.apply_x(1);
    sim.apply_cz(0, 1);
    // |11> -> -|11>
    assert!(approx_eq(sim.re(3), -1.0));
}

#[test]
fn test_cphase_gate() {
    let mut sim = Sv::new(2);
    sim.state.apply_x(0);
    sim.state.apply_x(1);
    sim.apply_cphase(0, 1, HALF_PI);
    // |11> -> i|11>
    assert!(approx_eq(sim.re(3), 0.0));
    assert!(approx_eq(sim.im(3), 1.0));
}

#[test]
fn test_cswap_gate() {
    let mut sim = Sv::new(3);
    sim.state.apply_x(2); // qubit 2 = control, qubit 0 set
    sim.state.apply_x(0);
    // |1 0 1> (ctl=1, b=0, c=1)
    sim.state.apply_cswap(2, 0, 1);
    // |1 1 0>
    assert!(approx_eq(sim.re(6), 1.0)); // index 6 = binary 110
    assert!(approx_eq(sim.re(5), 0.0)); // index 5 = binary 101
}

#[test]
fn test_mcx_gate() {
    let mut sim = Sv::new(3);
    sim.state.apply_x(0);
    sim.state.apply_x(1);
    // |011> index 3; MCX with mask 0b011 target 2
    sim.state.apply_mcx(0b011, 2);
    // |111> index 7
    assert!(approx_eq(sim.re(7), 1.0));
    assert!(approx_eq(sim.re(3), 0.0));
}

#[test]
fn test_reset_qubit() {
    let mut sim = Sv::new(1);
    sim.state.apply_x(0); // |1>
    let mut rng = Lcg64::new(1);
    sim.reset_qubit(0, &mut rng);
    // Reset always collapses to |0>.
    assert!(approx_eq(sim.re(0), 1.0));
    assert!(approx_eq(sim.re(1), 0.0));
}

#[test]
fn test_measure_x_plus_state() {
    let mut sim = Sv::new(1);
    sim.apply_h(0); // |+>
    let mut rng = Lcg64::new(1);
    let out = sim.measure_x(0, &mut rng);
    // |+> measured in X basis is always 0.
    assert_eq!(out, 0);
}

#[test]
fn test_measure_y_plus_y_state() {
    let mut sim = Sv::new(1);
    sim.apply_s(0); // |0> -> |0>
    sim.apply_h(0); // |+>
    sim.apply_s(0); // |+Y>
    let mut rng = Lcg64::new(1);
    let out = sim.measure_y(0, &mut rng);
    // |+Y> measured in Y basis is always 0.
    assert_eq!(out, 0);
}

#[test]
fn test_classical_ops_program() {
    let mut classical = [0u8; 8];
    let mut histogram = vec![0u32; 2];
    let mut rng = Lcg64::new(42);

    let mut prog: Program<f64> = Program::new();
    prog.num_qubits = 1;
    prog.num_classical = 8;
    prog.emit(IrOp::SetVal(0, 5));
    prog.emit(IrOp::SetVal(1, 3));
    prog.emit(IrOp::And(0, 1)); // 5 & 3 = 1
    prog.emit(IrOp::Not(0)); // 1 -> 0
    prog.emit(IrOp::Xor(0, 1)); // 0 ^ 3 = 3
    prog.emit(IrOp::Add(0, 1)); // 3 + 3 = 6
    prog.emit(IrOp::Sub(0, 1)); // 6 - 3 = 3
    prog.emit(IrOp::SetVal(4, 4));
    prog.emit(IrOp::Or(0, 4)); // 3 | 4 = 7

    // Pure classical: no SHOT means a single execution + one sample.
    run_program(
        &prog,
        &mut Sv::new(prog.num_qubits),
        &mut Results::default(),
        &mut classical,
        &mut histogram,
        &mut rng,
    );

    assert_eq!(classical[0], 7);
    assert_eq!(classical[1], 3);
}

#[test]
fn test_fused_matches_unfused_state() {
    let mut prog: Program<f64> = Program::new();
    prog.num_qubits = 3;
    prog.num_classical = 3;
    // A gate-dense circuit with rotations, entanglement, and SWAP family.
    prog.emit(IrOp::H(0));
    prog.emit(IrOp::CNOT(0, 1));
    prog.emit(IrOp::RZ(1, 0));
    prog.emit(IrOp::CNOT(0, 1));
    prog.emit(IrOp::H(1));
    prog.emit(IrOp::RY(2, 1));
    prog.emit(IrOp::SWAP(1, 2));
    prog.emit(IrOp::X(0));
    prog.emit(IrOp::CZ(0, 2));
    prog.emit(IrOp::T(2));
    prog.emit(IrOp::CNOT(1, 2));
    prog.emit(IrOp::SX(0));
    // const pool for RZ/RY
    prog.num_consts = 2;
    prog.consts[0] = 0.5;
    prog.consts[1] = 1.3;

    let a = run_sv(&prog, 1).sv;

    let fused = fuse_program(&prog);
    let mut b = Sv::new(prog.num_qubits);
    let mut classical = [0u8; 64];
    let mut histogram = vec![0u32; 1 << prog.num_qubits];
    let mut rng = Lcg64::new(1);
    run_fused_program(
        &prog,
        &fused,
        &mut b,
        &mut Results::default(),
        &mut classical,
        &mut histogram,
        &mut rng,
    );

    // Amplitudes must agree to high fidelity despite the reordered math.
    let n = a.state.re.len();
    let mut worst = 0.0f64;
    for i in 0..n {
        let de = (a.state.re[i] - b.state.re[i]).abs()
            + (a.state.im[i] - b.state.im[i]).abs();
        if de > worst {
            worst = de;
        }
    }
    assert!(worst < 1e-9, "worst amplitude diff {worst:.3e}");
}

#[test]
fn test_fused_shot_histogram_agrees() {
    let mut prog: Program<f64> = Program::new();
    prog.num_qubits = 2;
    prog.num_classical = 2;
    prog.emit(IrOp::H(0));
    prog.emit(IrOp::CNOT(0, 1));
    prog.emit(IrOp::RZ(1, 0));
    prog.emit(IrOp::H(1));
    prog.emit(IrOp::Shot(5000, 0, 0));
    prog.has_explicit_shot = true;
    prog.num_consts = 1;
    prog.consts[0] = 0.7;

    let fused = fuse_program(&prog);
    assert!(fused.len() <= 2); // one U2 block + the Shot

    let mut h1 = vec![0u32; 4];
    let mut h2 = vec![0u32; 4];
    let mut c1 = [0u8; 64];
    let mut c2 = [0u8; 64];
    let mut r1 = Lcg64::new(9);
    let mut r2 = Lcg64::new(9);

    run_program_shots(
        &prog,
        5000,
        &mut Sv::new(prog.num_qubits),
        &mut Results::default(),
        &mut c1,
        &mut h1,
        &mut r1,
    );
    run_fused_program_shots(
        &prog,
        &fused,
        5000,
        &mut Sv::new(prog.num_qubits),
        &mut Results::default(),
        &mut c2,
        &mut h2,
        &mut r2,
    );

    // Fused and unfused histograms must agree to sampling tolerance.
    let mut worst = 0i64;
    for i in 0..4 {
        let d = (h1[i] as i64 - h2[i] as i64).abs();
        if d > worst {
            worst = d;
        }
    }
    assert!(worst <= 15, "worst bin diff {worst} (of 5000)");
}

#[test]
fn test_expect_basis_states() {
    // |0>: Z0=1, X0=0, Y0=0. |1>: Z0=-1.
    let mut sim = Sv::new(1);
    assert!((sim.expect_value(3) - 1.0).abs() < 1e-12); // Z0
    assert!(sim.expect_value(1).abs() < 1e-12); // X0
    assert!(sim.expect_value(2).abs() < 1e-12); // Y0
    sim.state.apply_x(0);
    assert!((sim.expect_value(3) + 1.0).abs() < 1e-12); // Z0 = -1
}

#[test]
fn test_expect_bell_state() {
    // Bell (|00>+|11>)/sqrt2: <Z0>=0, <Z1>=0, <Z0Z1>=1, <X0X1>=1, <Y0Y1>=-1.
    let mut sim = Sv::new(2);
    sim.apply_h(0);
    sim.state.apply_cnot(0, 1);
    assert!(sim.expect_value(3).abs() < 1e-12); // Z0
    assert!(sim.expect_value(12).abs() < 1e-12); // Z1
    assert!((sim.expect_value(15) - 1.0).abs() < 1e-12); // Z0Z1
    assert!((sim.expect_value(5) - 1.0).abs() < 1e-12); // X0X1
    assert!((sim.expect_value(10) + 1.0).abs() < 1e-12); // Y0Y1 = -1
}

#[test]
fn test_expect_plus_state() {
    // |+>: <X0>=1, <Z0>=0, <Y0>=0.
    let mut sim = Sv::new(1);
    sim.apply_h(0);
    assert!((sim.expect_value(1) - 1.0).abs() < 1e-12); // X0
    assert!(sim.expect_value(3).abs() < 1e-12); // Z0
    assert!(sim.expect_value(2).abs() < 1e-12); // Y0
}

#[test]
fn test_save_ops() {
    let mut classical = [0u8; 64];
    let mut histogram = vec![0u32; 4];
    let mut rng = Lcg64::new(1);
    let mut results = Results::default();

    let mut prog: Program<f64> = Program::new();
    prog.num_qubits = 2;
    prog.num_classical = 2;
    prog.emit(IrOp::H(0));
    prog.emit(IrOp::SaveState);
    prog.emit(IrOp::CNOT(0, 1));
    prog.emit(IrOp::SaveProbs);
    prog.emit(IrOp::SaveAmps);

    run_program(
        &prog,
        &mut Sv::new(prog.num_qubits),
        &mut results,
        &mut classical,
        &mut histogram,
        &mut rng,
    );

    // State saved after H 0: |00>+|10> / sqrt2.
    assert_eq!(results.saved_states.len(), 1);
    let st = &results.saved_states[0];
    assert!((st[0] - 1.0 / 2.0f64.sqrt()).abs() < 1e-12); // |00> re
    assert!((st[2] - 1.0 / 2.0f64.sqrt()).abs() < 1e-12); // |10> re
    // Probabilities saved after Bell: 0.5 at 0 and 3.
    assert_eq!(results.saved_probs.len(), 1);
    let pr = &results.saved_probs[0];
    assert!((pr[0] - 0.5).abs() < 1e-12);
    assert!((pr[3] - 0.5).abs() < 1e-12);
    // Amplitudes saved after Bell.
    assert_eq!(results.saved_amplitudes.len(), 1);
    assert!((results.saved_amplitudes[0][0].1 - 1.0 / 2.0f64.sqrt()).abs() < 1e-12);
}

#[test]
fn test_subroutine_two_calls() {
    // Parse sub5: bell 1 2 then bell 0 1; the second must equal a fresh
    // bell 0 1 on the post-first-call state.
    let src = b"QUBITS 3\nGATE bell 2\nH 0\nCNOT 0 1\nENDGATE\nbell 1 2\nSAVE_STATEVECTOR\nbell 0 1\nSAVE_STATEVECTOR\nPRINT\n";
    let prog = parse_test(src);
    let mut results = Results::default();
    let mut classical = [0u8; 64];
    let mut hist = vec![0u32; 8];
    let mut rng = Lcg64::new(1);
    run_program(
        &prog,
        &mut Sv::new(prog.num_qubits),
        &mut results,
        &mut classical,
        &mut hist,
        &mut rng,
    );
    assert_eq!(results.saved_states.len(), 2);
    // state 0 = (|000>+|110>)/sqrt2
    let s0 = &results.saved_states[0];
    assert!((s0[0] - 1.0 / 2.0f64.sqrt()).abs() < 1e-9, "s0[0]={}", s0[0]);
    assert!((s0[12] - 1.0 / 2.0f64.sqrt()).abs() < 1e-9, "s0[6]={}", s0[12]);
    // state 1 = (|000>+|011>+|101>+|110>)/2 = indices 0,3,5,6 each +0.5
    let s1 = &results.saved_states[1];
    assert!(
        (s1[0]-0.5).abs() < 1e-9 && (s1[6]-0.5).abs() < 1e-9
        && (s1[10]-0.5).abs() < 1e-9 && (s1[12]-0.5).abs() < 1e-9,
        "state1 = [0]={} [3]={} [5]={} [6]={}",
        s1[0], s1[6], s1[10], s1[12]
    );
}

#[test]
fn test_fused_fallback_with_calls() {
    // Programs with CALLs must not go through the fused stream (sub
    // bodies are not in the fused array); run_fused_program must fall
    // back to run_program and still sample the explicit SHOT.
    let src = b"QUBITS 2\nGATE h2 2\nH 0\nCNOT 0 1\nENDGATE\nh2 0 1\nh2 0 1\nSHOT 1000\nPRINT\n";
    let prog = parse_test(src);
    assert!(program_has_calls(&prog), "program_has_calls must be true");
    let fused = fuse_program(&prog);
    let mut results = Results::default();
    let mut classical = [0u8; 64];
    let mut hist = vec![0u32; 4];
    let mut rng = Lcg64::new(1);
    run_fused_program(
        &prog,
        &fused,
        &mut Sv::new(prog.num_qubits),
        &mut results,
        &mut classical,
        &mut hist,
        &mut rng,
    );
    let total: u32 = hist.iter().sum();
    assert_eq!(total, 1000, "fused-with-calls fallback must sample the explicit SHOT (got {total})");
}

#[test]
fn test_fused_cli_scenario() {
    // Exact CLI scenario: fused program with explicit SHOT and calls.
    let src = b"QUBITS 3\nGATE bell 2\nH 0\nCNOT 0 1\nENDGATE\nbell 1 2\nbell 0 1\nEXPECT Z0Z1Z2\nSHOT 5000\nPRINT\n";
    let prog = parse_test(src);
    let fused = fuse_program(&prog);
    let mut results = Results::default();
    let mut classical = [0u8; 64];
    let mut hist = vec![0u32; 8];
    let mut rng = Lcg64::new(3);
    run_fused_program(
        &prog,
        &fused,
        &mut Sv::new(prog.num_qubits),
        &mut results,
        &mut classical,
        &mut hist,
        &mut rng,
    );
    let total: u32 = hist.iter().sum();
    assert_eq!(total, 5000, "CLI fused scenario must sample the explicit SHOT (got {total})");
}

#[test]
fn test_noise_readout_distribution() {
    // Measuring |0> with readout rate 0.5 must report ~50/50, and the
    // run must be deterministic for a fixed seed.
    let prog = parse_test(b"QUBITS 1\nMEASURE 0\nSHOT 20000\nPRINT\n");
    let noise = Noise { readout: 0.5, ..Noise::default() };
    let mut results = Results::default();
    let mut classical = [0u8; 64];
    let mut hist = vec![0u32; 2];
    let mut rng = Lcg64::new(1);
    run_program(
        &prog,
        &mut Sv::with_noise(prog.num_qubits, noise),
        &mut results,
        &mut classical,
        &mut hist,
        &mut rng,
    );
    let ones = hist[1];
    assert!((0.45 * 20000.0) < ones as f64 && (ones as f64) < (0.55 * 20000.0),
            "readout flip fraction {ones} not ~50%");
}

#[test]
fn test_noise_deterministic() {
    let prog = parse_test(b"QUBITS 2\nH 0\nCNOT 0 1\nRY 1 1.3\nSHOT 8000\nPRINT\n");
    let noise = Noise { depolarizing: 0.2, amp_damping: 0.1, phase_damping: 0.1, ..Noise::default() };
    let run = |seed: u64| {
        let mut results = Results::default();
        let mut classical = [0u8; 64];
        let mut hist = vec![0u32; 4];
        let mut rng = Lcg64::new(seed);
        run_program(
        &prog,
        &mut Sv::with_noise(prog.num_qubits, noise),
        &mut results,
        &mut classical,
        &mut hist,
        &mut rng,
    );
        hist
    };
    assert_eq!(run(7), run(7), "noisy runs must be bit-reproducible per seed");
    let mut r1 = run(1);
    let mut r2 = run(2);
    r1.sort(); r2.sort();
    assert_ne!(r1, r2, "different seeds should give different trajectories");
}

#[test]
fn test_noise_preserves_norm() {
    let prog = parse_test(b"QUBITS 3\nH 0\nCNOT 0 1\nRY 1 2.2\nCNOT 1 2\nH 2\nSAVE_STATEVECTOR\nPRINT\n");
    let noise = Noise { depolarizing: 0.3, amp_damping: 0.2, phase_damping: 0.15, ..Noise::default() };
    let mut results = Results::default();
    let mut classical = [0u8; 64];
    let mut hist = vec![0u32; 8];
    let mut rng = Lcg64::new(5);
    run_program(
        &prog,
        &mut Sv::with_noise(prog.num_qubits, noise),
        &mut results,
        &mut classical,
        &mut hist,
        &mut rng,
    );
    let sv = &results.saved_states[0];
    let mut norm = 0.0;
    for k in 0..8 {
        norm += sv[2 * k] * sv[2 * k] + sv[2 * k + 1] * sv[2 * k + 1];
    }
    assert!((norm - 1.0).abs() < 1e-9, "noisy state not normalized: {norm}");
}

#[test]
fn test_estimate_weighted_sum() {
    // Bell state: Z0Z1 = X0X1 = 1, Y0Y1 = -1.
    let prog = parse_test(b"QUBITS 2\nH 0\nCNOT 0 1\nESTIMATE 0.5 Z0Z1 0.3 X0X1 -0.2 Y0Y1\nPRINT\n");
    let mut results = Results::default();
    let mut classical = [0u8; 64];
    let mut hist = vec![0u32; 4];
    let mut rng = Lcg64::new(1);
    run_program(
        &prog,
        &mut Sv::new(prog.num_qubits),
        &mut results,
        &mut classical,
        &mut hist,
        &mut rng,
    );
    assert_eq!(results.estimates.len(), 1);
    let h: f64 = results.estimates[0].iter().map(|(c, v)| c * v).sum();
    assert!((h - 1.0).abs() < 1e-9, "estimate = {h}, expected 1.0");
}

#[test]
fn test_stabilizer_matches_statevector() {
    // Randomized Clifford circuits WITHOUT measurement: EXPECT values are
    // deterministic (+/-1 or 0) and must match the statevector exactly;
    // shot histograms must be statistically identical.
    let mut gen: u64 = 0x9E3779B97F4A7C15;
    let mut rand = |m: u64| {
        gen ^= gen << 13;
        gen ^= gen >> 7;
        gen ^= gen << 17;
        gen % m
    };
    for trial in 0..60 {
        let n = 2 + (rand(4) as u8); // 2..5 qubits
        let mut src = format!("QUBITS {n}\n");
        let gates = 6 + rand(14);
        for _ in 0..gates {
            match rand(6) {
                0 => src.push_str(&format!("H {}\n", rand(n as u64))),
                1 => src.push_str(&format!("S {}\n", rand(n as u64))),
                2 => src.push_str(&format!("X {}\n", rand(n as u64))),
                3 => {
                    let c = rand(n as u64);
                    let mut t = rand(n as u64);
                    while t == c {
                        t = rand(n as u64);
                    }
                    src.push_str(&format!("CNOT {c} {t}\n"));
                }
                4 => {
                    let a = rand(n as u64);
                    let mut b = rand(n as u64);
                    while b == a {
                        b = rand(n as u64);
                    }
                    src.push_str(&format!("SWAP {a} {b}\n"));
                }
                _ => {
                    let a = rand(n as u64);
                    let mut b = rand(n as u64);
                    while b == a {
                        b = rand(n as u64);
                    }
                    src.push_str(&format!("CZ {a} {b}\n"));
                }
            }
        }
        // random single-qubit Pauli observables
        for _ in 0..2 {
            let q = rand(n as u64);
            let p = ["Z", "X", "Y"][rand(3) as usize];
            src.push_str(&format!("EXPECT {p}{q}\n"));
        }
        src.push_str("SHOT 4000\nPRINT\n");
        let prog = parse_test(src.as_bytes());
        assert!(is_clifford_program(&prog), "trial {trial} should be Clifford");
        let mut sv_hist = vec![0u32; 1 << n];
        let mut st_hist = vec![0u32; 1 << n];
        let mut sv_res = Results::default();
        let mut st_res = Results::default();
        let mut sv_class = [0u8; 64];
        let mut st_class = [0u8; 64];
        let mut r1 = Lcg64::new(trial);
        let mut r2 = Lcg64::new(trial);
        run_program(
        &prog,
        &mut Sv::new(prog.num_qubits),
        &mut sv_res,
        &mut sv_class,
        &mut sv_hist,
        &mut r1,
    );
        run_stabilizer_program(&prog, &mut st_res, &mut st_class, &mut st_hist, &mut r2);
        assert_eq!(sv_res.expectations.len(), st_res.expectations.len(),
                   "trial {trial}: EXPECT length mismatch");
        for (a, b) in sv_res.expectations.iter().zip(st_res.expectations.iter()) {
            let b = *b as f64;
            assert!((a - b).abs() < 1e-9, "trial {trial}: EXPECT sv={a} st={b}\nprogram:\n{src}");
        }
        let s1: u64 = sv_hist.iter().map(|&x| x as u64).sum();
        let s2: u64 = st_hist.iter().map(|&x| x as u64).sum();
        assert_eq!(s1, s2, "trial {trial}: shot totals differ");
        let tvd: f64 = sv_hist.iter().zip(st_hist.iter()).map(|(a, b)| {
            ((*a as f64 / s1 as f64) - (*b as f64 / s2 as f64)).abs()
        }).sum::<f64>() / 2.0;
        assert!(tvd < 0.05, "trial {trial}: histogram TVD {tvd}\nprogram:\n{src}");
    }
}

#[test]
fn test_stabilizer_deterministic() {
    let src = b"QUBITS 3\nH 0\nCNOT 0 1\nCNOT 1 2\nS 0\nX 2\nMEASURE 0\nSHOT 8000\nPRINT\n";
    let prog = parse_test(src);
    let mut r1 = vec![0u32; 8];
    let mut r2 = vec![0u32; 8];
    let mut a = Results::default();
    let mut b = Results::default();
    let mut ca = [0u8; 64];
    let mut cb = [0u8; 64];
    run_stabilizer_program(&prog, &mut a, &mut ca, &mut r1, &mut Lcg64::new(9));
    run_stabilizer_program(&prog, &mut b, &mut cb, &mut r2, &mut Lcg64::new(9));
    assert_eq!(r1, r2);
}

#[test]
fn test_clifford_detection() {
    let ok = parse_test(b"QUBITS 2\nH 0\nCNOT 0 1\nS 1\nSWAP 0 1\nEXPECT Z0Z1\nPRINT\n");
    assert!(is_clifford_program(&ok));
    let bad = parse_test(b"QUBITS 2\nH 0\nRY 0 1.3\nPRINT\n");
    assert!(!is_clifford_program(&bad));
    let toff = parse_test(b"QUBITS 3\nH 0\nTOFF 0 1 2\nPRINT\n");
    assert!(!is_clifford_program(&toff));
    let save = parse_test(b"QUBITS 2\nH 0\nSAVE_STATEVECTOR\nPRINT\n");
    assert!(!is_clifford_program(&save));
}

#[test]
fn test_stabilizer_measure_basics() {
    // Measurement histograms must be statistically identical to the
    // statevector reference (the RNG is consumed in different orders, so
    // individual outcomes differ but the distribution is the same).
    let cases: &[&[u8]] = &[
        b"QUBITS 2\nH 0\nCNOT 0 1\nMEASURE 0\nSHOT 6000\nPRINT\n",
        b"QUBITS 2\nH 0\nCNOT 0 1\nX 1\nMEASURE 0\nSHOT 6000\nPRINT\n",
        b"QUBITS 2\nH 0\nCNOT 0 1\nS 1\nMEASURE 0\nSHOT 6000\nPRINT\n",
        b"QUBITS 3\nH 0\nCNOT 0 1\nCNOT 1 2\nX 2\nS 0\nMEASURE 0\nSHOT 6000\nPRINT\n",
        b"QUBITS 3\nH 2\nMEASURE 1\nSHOT 6000\nPRINT\n",
    ];
    for (k, src) in cases.iter().enumerate() {
        let prog = parse_test(src);
        let mut sv_h = vec![0u32; 1 << prog.num_qubits];
        let mut st_h = vec![0u32; 1 << prog.num_qubits];
        let mut sv = Results::default();
        let mut st = Results::default();
        let mut sc = [0u8; 64];
        let mut tc = [0u8; 64];
        run_program(
        &prog,
        &mut Sv::new(prog.num_qubits),
        &mut sv,
        &mut sc,
        &mut sv_h,
        &mut Lcg64::new(1),
    );
        run_stabilizer_program(&prog, &mut st, &mut tc, &mut st_h, &mut Lcg64::new(1));
        let s1: u64 = sv_h.iter().map(|&x| x as u64).sum();
        let s2: u64 = st_h.iter().map(|&x| x as u64).sum();
        assert_eq!(s1, s2, "case {k}: shot totals differ");
        let tvd: f64 = sv_h.iter().zip(st_h.iter()).map(|(a, b)| {
            ((*a as f64 / s1 as f64) - (*b as f64 / s2 as f64)).abs()
        }).sum::<f64>() / 2.0;
        assert!(tvd < 0.08, "case {k}: histogram TVD {tvd}");
    }
}

#[test]
fn test_expect_in_program() {
    let mut classical = [0u8; 64];
    let mut histogram = vec![0u32; 4];
    let mut rng = Lcg64::new(1);
    let mut results = Results::default();

    let mut prog: Program<f64> = Program::new();
    prog.num_qubits = 2;
    prog.num_classical = 2;
    prog.emit(IrOp::H(0));
    prog.emit(IrOp::CNOT(0, 1));
    prog.emit(IrOp::Expect(15)); // Z0Z1
    prog.emit(IrOp::Expect(5)); // X0X1
    prog.emit(IrOp::Expect(10)); // Y0Y1

    run_program(
        &prog,
        &mut Sv::new(prog.num_qubits),
        &mut results,
        &mut classical,
        &mut histogram,
        &mut rng,
    );
    assert_eq!(results.expectations.len(), 3);
    assert!((results.expectations[0] - 1.0).abs() < 1e-12);
    assert!((results.expectations[1] - 1.0).abs() < 1e-12);
    assert!((results.expectations[2] + 1.0).abs() < 1e-12);
}

// Faults

fn attempt(prog: &Program<f64>, bytes: usize, bins: usize) -> Result<(), Fault> {
    let mut classical = vec![0u8; bytes];
    let mut histogram = vec![0u32; bins];
    try_run_program(
        prog,
        &mut Sv::new(2),
        &mut Results::default(),
        &mut classical,
        &mut histogram,
        &mut Lcg64::new(1),
    )
}

fn one_op(op: IrOp) -> Box<Program<f64>> {
    let mut prog: Box<Program<f64>> = Box::new(Program::new());
    prog.num_qubits = 2;
    prog.emit(op);
    prog
}

#[test]
fn faults_of_a_run() {
    assert_eq!(attempt(&one_op(IrOp::H(0)), 64, 4), Ok(()));
    assert_eq!(attempt(&one_op(IrOp::SetVal(3, 1)), 3, 4), Err(Fault::Classical));
    assert_eq!(attempt(&one_op(IrOp::Measure(0, 9)), 9, 4), Err(Fault::Classical));
    assert_eq!(attempt(&one_op(IrOp::IfEq(9, 0, 1, 0)), 9, 4), Err(Fault::Classical));
    assert_eq!(attempt(&one_op(IrOp::RZ(0, 1024)), 64, 4), Err(Fault::Pool));
    assert_eq!(attempt(&one_op(IrOp::Call(128, 0, 0, 0)), 64, 4), Err(Fault::Pool));
    assert_eq!(attempt(&one_op(IrOp::Estimate(256, 1)), 64, 4), Err(Fault::Pool));
    assert_eq!(attempt(&one_op(IrOp::IfEq(0, 0, 16384, 1)), 64, 4), Err(Fault::Range));
    assert_eq!(attempt(&one_op(IrOp::H(0)), 64, 0), Err(Fault::Histogram));
}

#[test]
fn classical_bytes_wrap() {
    let mut prog: Program<f64> = Program::new();
    prog.num_qubits = 1;
    prog.emit(IrOp::SetVal(0, 200));
    prog.emit(IrOp::SetVal(1, 100));
    prog.emit(IrOp::Add(0, 1));
    prog.emit(IrOp::Sub(1, 0));
    prog.emit(IrOp::SetVal(2, 6));
    prog.emit(IrOp::Not(2));
    let r = run_sv(&prog, 1);
    assert_eq!(r.classical[0], 44);
    assert_eq!(r.classical[1], 56);
    assert_eq!(r.classical[2], 7);
    assert_eq!(sum(&r.histogram), 1);
}

#[test]
fn branches_compare_whole_bytes() {
    let prog = parse_test(
        b"QUBITS 2\nSET c0 5\nIF c0 == 5 THEN\nX 0\nENDIF\nIF c0 != 5 THEN\nX 1\nENDIF\n",
    );
    assert_eq!(run_sv(&prog, 1).histogram, vec![0, 1, 0, 0]);
    let prog = parse_test(
        b"QUBITS 2\nSET c0 4\nIF c0 == 5 THEN\nX 0\nENDIF\nIF c0 != 5 THEN\nX 1\nENDIF\n",
    );
    assert_eq!(run_sv(&prog, 1).histogram, vec![0, 0, 1, 0]);
}

#[test]
fn classical_bytes_persist_between_repetitions() {
    let prog = parse_test(b"QUBITS 1\nSHOT 3\nADD c0 c1\nSET c1 1\nENDSHOT\n");
    let r = run_sv(&prog, 1);
    assert_eq!(r.classical[0], 2);
    assert_eq!(r.histogram, vec![3, 0]);
}

#[test]
fn a_bare_repetition_starts_over() {
    let prog = parse_test(b"QUBITS 1\nX 0\nSHOT 7\nENDSHOT\nX 0\n");
    let r = run_sv(&prog, 1);
    assert_eq!(r.histogram, vec![0, 7]);
    assert!(approx_eq(r.sv.re(0), 1.0));
}

// Calls

#[test]
fn operands_are_bound_by_calls() {
    let free = [None, None, None];
    let bound = [Some(5u8), Some(2), None];
    assert_eq!(translate_op(IrOp::CNOT(0, 1), &free), IrOp::CNOT(0, 1));
    assert_eq!(translate_op(IrOp::CNOT(0, 1), &bound), IrOp::CNOT(5, 2));
    assert_eq!(translate_op(IrOp::Toff(2, 1, 7), &bound), IrOp::Toff(2, 2, 7));
    assert_eq!(translate_op(IrOp::Measure(1, 0), &bound), IrOp::Measure(2, 0));
    assert_eq!(translate_op(IrOp::SetVal(0, 1), &bound), IrOp::SetVal(0, 1));
    // Controls are operands too.
    let all = [Some(3u8), Some(4), Some(5)];
    assert_eq!(translate_op(IrOp::MCX(0b011, 2), &all), IrOp::MCX(0b11000, 5));
    assert_eq!(translate_op(IrOp::MCX(0b1011, 2), &bound), IrOp::MCX(0b101100, 2));
    assert_eq!(translate_op(IrOp::MCX(0b1011, 2), &free), IrOp::MCX(0b1011, 2));
}

#[test]
fn controls_are_bound_by_calls() {
    let prog = parse_test(
        b"QUBITS 5\nGATE g 3\nMCX 3 2\nENDGATE\nX 3\nX 4\ng 3 4 0\n",
    );
    assert_eq!(run_sv(&prog, 1).histogram[0b11001], 1);
}

#[test]
fn nested_calls_bind_through() {
    let prog = parse_test(
        b"QUBITS 4\nGATE flip 1\nX 0\nENDGATE\nGATE two 2\nflip 1\nENDGATE\ntwo 0 3\n",
    );
    assert_eq!(run_sv(&prog, 1).histogram[8], 1);
}

// Agreement of engines

#[test]
fn engines_for_programs() {
    let prog = parse_test(b"QUBITS 2\nH 0\nCNOT 0 1\nEXPECT Z0Z1\n");
    assert!(is_clifford_program(&prog));
    assert!(is_mps_suitable(&prog));
    assert!(!program_has_calls(&prog));
    let mut emitted: Program<f64> = Program::new();
    emitted.num_qubits = 3;
    emitted.emit(IrOp::H(0));
    assert!(is_clifford_program(&emitted));
    emitted.emit(IrOp::T(0));
    assert!(!is_clifford_program(&emitted));
    assert!(is_mps_suitable(&emitted));
    emitted.emit(IrOp::Toff(0, 1, 2));
    assert!(!is_mps_suitable(&emitted));
    let prog = parse_test(b"QUBITS 3\nTOFF 0 1 2\n");
    assert!(!is_mps_suitable(&prog));
    let prog = parse_test(b"QUBITS 3\nSAVE_PROBABILITIES\n");
    assert!(!is_mps_suitable(&prog));
}

#[test]
fn stabilizer_shots() {
    let prog = parse_test(b"QUBITS 2\nH 0\nCNOT 0 1\n");
    let mut results: Results<f64, i8> = Results::default();
    let mut histogram = vec![0u32; 4];
    run_stabilizer_program_shots(
        &prog,
        1000,
        &mut results,
        &mut [0u8; 64],
        &mut histogram,
        &mut Lcg64::new(4),
    );
    assert_eq!(histogram[0] + histogram[3], 1000);
    assert!(histogram[0] > 400 && histogram[3] > 400);
}

#[test]
fn fused_and_plain_runs_agree_on_branches() {
    let prog = parse_test(
        b"QUBITS 3\nH 0\nRY 1 0.7\nCNOT 0 1\nMEASURE 1 -> c0\nIF c0 == 1 THEN\nH 2\nX 2\nENDIF\nSHOT 50\nH 0\nT 0\nH 0\nENDSHOT\n",
    );
    let plain = run_sv(&prog, 11);
    let fused = fuse_program(&prog);
    assert!(fused.len() < prog.len);
    let mut r = ready(3, 11);
    run_fused_program(
        &prog,
        &fused,
        &mut r.sv,
        &mut r.results,
        &mut r.classical,
        &mut r.histogram,
        &mut r.rng,
    );
    assert_eq!(plain.histogram, r.histogram);
    assert_eq!(plain.classical, r.classical);
    assert_eq!(plain.rng.0, r.rng.0);
    assert_eq!(distance(&plain.histogram, &r.histogram), 0.0);
}

// Batches

fn device(prog: &Program<f64>, shots: Option<u32>, seed: u64) -> Run {
    let mut r = ready(prog.num_qubits, seed);
    let done = try_run_device(
        prog,
        shots,
        &mut r.sv,
        &mut r.results,
        &mut r.classical,
        &mut r.histogram,
        &mut r.rng,
    );
    assert_eq!(done, Ok(()));
    r
}

#[test]
fn batches_draw_what_repetitions_draw() {
    let sources: [&[u8]; 3] = [
        b"QUBITS 2\nH 0\nRY 1 0.7\nSHOT 300\nENDSHOT\nX 0\n",
        b"QUBITS 2\nX 1\nSHOT 300\nH 0\nCNOT 0 1\nENDSHOT\nH 1\n",
        b"QUBITS 2\nGATE g 2\nH 0\nCNOT 0 1\nENDGATE\ng 1 0\n",
    ];
    for src in sources.iter() {
        let prog = parse_test(src);
        assert!(is_batchable(&prog));
        let plain = run_sv(&prog, 8);
        let batch = device(&prog, None, 8);
        assert_eq!(plain.histogram, batch.histogram);
        assert_eq!(plain.rng.0, batch.rng.0);
    }
    let prog = parse_test(sources[2]);
    let mut plain = ready(2, 8);
    run_program_shots(
        &prog,
        500,
        &mut plain.sv,
        &mut plain.results,
        &mut plain.classical,
        &mut plain.histogram,
        &mut plain.rng,
    );
    let batch = device(&prog, Some(500), 8);
    assert_eq!(plain.histogram, batch.histogram);
    assert_eq!(plain.rng.0, batch.rng.0);
}

#[test]
fn measured_programs_are_repeated() {
    let prog = parse_test(b"QUBITS 1\nH 0\nMEASURE 0\n");
    assert!(!is_batchable(&prog));
    let r = device(&prog, Some(200), 5);
    assert_eq!(sum(&r.histogram), 200);
    let prog = parse_test(b"QUBITS 1\nH 0\nMEASURE 0\nSHOT 9\n");
    assert_eq!(sum(&device(&prog, Some(200), 5).histogram), 9);
}

#[test]
fn draws_are_counted_and_checked() {
    let mut r = ready(1, 1);
    r.sv.state.apply_x(0);
    let done = try_draw(9, &mut r.sv, &r.results, &r.classical, &mut r.histogram, &mut r.rng);
    assert_eq!(done, Ok(()));
    assert_eq!(r.histogram, vec![0, 9]);
    let mut full = vec![0, u32::MAX];
    let done = try_draw(1, &mut r.sv, &r.results, &r.classical, &mut full, &mut r.rng);
    assert_eq!(done, Err(Fault::Histogram));
    let done = try_draw(1, &mut r.sv, &r.results, &r.classical, &mut full[..1], &mut r.rng);
    assert_eq!(done, Err(Fault::Histogram));
}

#[test]
fn prior_contents_do_not_matter() {
    let prog = parse_test(b"QUBITS 2\nH 0\nMEASURE 0\nADD c0 c1\nRY 1 0.7\n");
    let fresh = run_sv(&prog, 6);
    let mut used = ready(2, 6);
    used.classical = [9; 64];
    used.histogram = vec![5; 4];
    run_program(
        &prog,
        &mut used.sv,
        &mut used.results,
        &mut used.classical,
        &mut used.histogram,
        &mut used.rng,
    );
    assert_eq!(fresh.classical, used.classical);
    assert_eq!(fresh.histogram, used.histogram);
    assert_eq!(fresh.rng.0, used.rng.0);
    assert_eq!(sum(&used.histogram), 1);
}

#[test]
fn engines_keep_the_same_records() {
    let prog = parse_test(
        b"QUBITS 2\nX 0\nMEASURE 0 -> c3\nIF c3 == 1 THEN\nEXPECT Z0\nSET c1 7\nENDIF\nESTIMATE 2 Z0 1 Z1\n",
    );
    let sv = run_sv(&prog, 2);
    let mut results: Results<f64, i8> = Results::default();
    let mut classical = [0u8; 64];
    let mut histogram = vec![0u32; 4];
    run_stabilizer_program(
        &prog,
        &mut results,
        &mut classical,
        &mut histogram,
        &mut Lcg64::new(5),
    );
    assert_eq!(sv.classical, classical);
    assert_eq!((classical[1], classical[3]), (7, 1));
    assert_eq!(sv.results.expectations.len(), results.expectations.len());
    assert_eq!(sv.results.estimates.len(), results.estimates.len());
    assert_eq!(results.estimates[0], vec![(2.0, -1), (1.0, 1)]);
}

#[test]
fn a_batch_runs_its_region_only() {
    let prog = parse_test(b"QUBITS 1\nX 0\nSHOT 20\nX 0\nX 0\nENDSHOT\nX 0\n");
    let region = batch_region(&prog, Some(3)).unwrap();
    assert_eq!((region.start, region.end, region.samples), (2, 4, 20));
    let mut r = ready(1, 1);
    let done = try_run_batch(
        &prog,
        region,
        &mut r.sv,
        &mut r.results,
        &mut r.classical,
        &mut r.histogram,
        &mut r.rng,
    );
    assert_eq!(done, Ok(()));
    assert_eq!(r.histogram, vec![20, 0]);
}
