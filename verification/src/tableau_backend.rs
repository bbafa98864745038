//! The tableau engine as a backend of the executor.
use crate::backend::{Basis, Gate, Results, SimBackend};
use crate::pauli::Clifford;
use crate::rng::Lcg64;
use crate::stabilizer::{spelled, StabilizerBackend, Tableau};
use vstd::prelude::*;

verus! {

/// The gates the tableau engine performs.
pub open spec fn tableau_gate<A>(g: Gate<A>) -> bool {
    match g {
        Gate::H(q) | Gate::X(q) | Gate::S(q) => q < 64,
        Gate::CNOT(a, b) | Gate::SWAP(a, b) | Gate::ISWAP(a, b) | Gate::CZ(a, b) => a < 64 && b
            < 64,
        _ => false,
    }
}

/// The tableau after a Clifford gate. `ISWAP` is a swap, then a controlled Z, then
/// S on both qubits; on one and the same qubit it does nothing.
pub open spec fn evolved_tableau<A>(t: Tableau, g: Gate<A>) -> Tableau {
    match g {
        Gate::H(q) => t.conjugated(Clifford::H(q)),
        Gate::X(q) => t.conjugated(Clifford::X(q)),
        Gate::S(q) => t.conjugated(Clifford::S(q)),
        Gate::CNOT(a, b) => t.conjugated(Clifford::Cnot(a, b)),
        Gate::SWAP(a, b) => t.conjugated(Clifford::Swap(a, b)),
        Gate::CZ(a, b) => t.conjugated(Clifford::Cz(a, b)),
        Gate::ISWAP(a, b) => if a == b {
            t
        } else {
            t.conjugated(Clifford::Swap(a, b)).conjugated(Clifford::Cz(a, b)).conjugated(
                Clifford::S(a),
            ).conjugated(Clifford::S(b))
        },
        _ => t,
    }
}

/// The tableau after a run of gates.
pub open spec fn evolved_all<A>(t: Tableau, gs: Seq<Gate<A>>) -> Tableau
    decreases gs.len(),
{
    if gs.len() == 0 {
        t
    } else {
        evolved_tableau(evolved_all(t, gs.drop_last()), gs.last())
    }
}

impl<A: Copy> SimBackend<A> for StabilizerBackend {
    type Model = Tableau;

    type Value = i8;

    open spec fn model(&self) -> Tableau {
        self@
    }

    open spec fn wf(&self) -> bool {
        self.valid()
    }

    open spec fn takes_gate(m: Tableau, g: Gate<A>) -> bool {
        tableau_gate(g)
    }

    open spec fn takes_qubit(m: Tableau, q: u8) -> bool {
        q < 64
    }

    open spec fn takes_pauli(m: Tableau, pauli: u64) -> bool {
        true
    }

    open spec fn takes_capture(m: Tableau) -> bool {
        false
    }

    open spec fn ground(m: Tableau) -> Tableau {
        Tableau::ground(m.n)
    }

    open spec fn evolved(m: Tableau, g: Gate<A>) -> Tableau {
        evolved_tableau(m, g)
    }

    open spec fn takes_block(m: Tableau, q: u8, p: Option<u8>, gs: Seq<Gate<A>>) -> bool {
        forall|i: int| 0 <= i < gs.len() ==> tableau_gate(#[trigger] gs[i])
    }

    open spec fn blended(m: Tableau, q: u8, p: Option<u8>, gs: Seq<Gate<A>>) -> Tableau {
        evolved_all(m, gs)
    }

    open spec fn noisy(m: Tableau, q: u8, seed: u64) -> (Tableau, u64) {
        (m, seed)
    }

    open spec fn measured(m: Tableau, basis: Basis, q: u8, seed: u64) -> (Tableau, u64, u8) {
        match basis {
            Basis::X => m.measured_x(q, seed),
            Basis::Y => m.measured_y(q, seed),
            Basis::Z => m.measured(q, seed),
        }
    }

    open spec fn cleared(m: Tableau, q: u8, seed: u64) -> (Tableau, u64) {
        (m.cleared(q, seed).0, m.cleared(q, seed).1)
    }

    open spec fn sampled(m: Tableau, seed: u64) -> (Tableau, u64, usize) {
        let s = m.sampled(m.n, seed);
        (s.0, s.1, s.2 as usize)
    }

    open spec fn expectation(m: Tableau, pauli: u64) -> i8 {
        m.expectation(spelled(pauli, 32))
    }

    open spec fn state_of(m: Tableau) -> Seq<i8> {
        Seq::empty()
    }

    open spec fn amplitudes_of(m: Tableau) -> Seq<(usize, i8, i8)> {
        Seq::empty()
    }

    open spec fn probabilities_of(m: Tableau) -> Seq<i8> {
        Seq::empty()
    }

    fn accepts_gate(&self, g: Gate<A>) -> (r: bool) {
        match g {
            Gate::H(q) | Gate::X(q) | Gate::S(q) => q < 64,
            Gate::CNOT(a, b) | Gate::SWAP(a, b) | Gate::ISWAP(a, b) | Gate::CZ(a, b) => a < 64 && b
                < 64,
            _ => false,
        }
    }

    fn accepts_block(&self, _q: u8, _p: Option<u8>, gs: &Vec<Gate<A>>) -> (r: bool) {
        let mut i: usize = 0;
        while i < gs.len()
            invariant
                i <= gs@.len(),
                self.valid(),
                forall|k: int| 0 <= k < i ==> tableau_gate(#[trigger] gs@[k]),
            decreases gs@.len() - i,
        {
            if !SimBackend::<A>::accepts_gate(self, gs[i]) {
                return false;
            }
            i += 1;
        }
        true
    }

    fn accepts_qubit(&self, q: u8) -> (r: bool) {
        q < 64
    }

    fn accepts_pauli(&self, _pauli: u64) -> (r: bool) {
        true
    }

    fn accepts_capture(&self) -> (r: bool) {
        false
    }

    fn reset(&mut self) {
        StabilizerBackend::reset(self);
    }

    fn apply(&mut self, g: Gate<A>) {
        match g {
            Gate::H(q) => self.apply_h(q),
            Gate::X(q) => self.apply_x(q),
            Gate::S(q) => self.apply_s(q),
            Gate::CNOT(c, t) => self.apply_cnot(c, t),
            Gate::SWAP(a, b) => self.apply_swap(a, b),
            Gate::CZ(a, b) => self.apply_cz(a, b),
            Gate::ISWAP(a, b) => {
                if a != b {
                    self.apply_swap(a, b);
                    self.apply_cz(a, b);
                    self.apply_s(a);
                    self.apply_s(b);
                }
            },
            _ => {},
        }
    }

    fn apply_block(&mut self, _q: u8, _p: Option<u8>, gs: &Vec<Gate<A>>) {
        let mut i: usize = 0;
        assert(gs@.take(0) =~= Seq::<Gate<A>>::empty());
        while i < gs.len()
            invariant
                i <= gs@.len(),
                self.valid(),
                forall|k: int| 0 <= k < gs@.len() ==> tableau_gate(#[trigger] gs@[k]),
                self@ == evolved_all(old(self)@, gs@.take(i as int)),
            decreases gs@.len() - i,
        {
            assert(gs@.take(i + 1).drop_last() =~= gs@.take(i as int));
            SimBackend::<A>::apply(self, gs[i]);
            i += 1;
        }
        assert(gs@.take(gs@.len() as int) =~= gs@);
    }

    fn reset_qubit(&mut self, q: u8, rng: &mut Lcg64) {
        let _ = self.measure_and_reset(q, rng);
    }

    fn measure_in(&mut self, basis: Basis, q: u8, rng: &mut Lcg64) -> (o: u8) {
        match basis {
            Basis::X => self.measure_x(q, rng),
            Basis::Y => self.measure_y(q, rng),
            Basis::Z => self.measure(q, rng),
        }
    }

    fn sample(&mut self, rng: &mut Lcg64) -> (out: usize) {
        StabilizerBackend::sample(self, rng)
    }

    fn expect_value(&self, pauli: u64) -> (v: i8) {
        StabilizerBackend::expect_value(self, pauli)
    }

    fn save_state(&mut self, _results: &mut Results<A, i8>) {
    }

    fn save_amplitudes(&mut self, _results: &mut Results<A, i8>) {
    }

    fn save_probabilities(&mut self, _results: &mut Results<A, i8>) {
    }

    fn noise_after_single(&mut self, _q: u8, _rng: &mut Lcg64) {
    }

    fn noise_after_pair(&mut self, _a: u8, _b: u8, _rng: &mut Lcg64) {
    }

    fn noise_after_triple(&mut self, _a: u8, _b: u8, _c: u8, _rng: &mut Lcg64) {
    }
}

} // verus!
