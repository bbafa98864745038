//! The interface between the executor and a quantum backend.
use crate::rng::Lcg64;
use vstd::pervasive::arbitrary;
use vstd::prelude::*;

verus! {

/// A unitary gate with its angle looked up.
#[derive(Clone, Copy, Debug)]
pub enum Gate<A> {
    H(u8),
    X(u8),
    CNOT(u8, u8),
    Toff(u8, u8, u8),
    RZ(u8, A),
    RX(u8, A),
    RY(u8, A),
    Phase(u8, A),
    S(u8),
    T(u8),
    SX(u8),
    SWAP(u8, u8),
    ISWAP(u8, u8),
    CZ(u8, u8),
    CPHASE(u8, u8, A),
    CSWAP(u8, u8, u8),
    MCX(u32, u8),
}

/// A measurement basis.
#[derive(Clone, Copy, Debug, PartialEq, Eq, Structural)]
pub enum Basis {
    X,
    Y,
    Z,
}

/// Observable results captured during a run, each list in program order. `A` is
/// the type of coefficients, `V` the type of numbers a backend reports.
#[derive(Clone, Debug)]
pub struct Results<A, V> {
    /// One value per `EXPECT`.
    pub expectations: Vec<V>,
    /// One list of (coefficient, expectation value) terms per `ESTIMATE`; the
    /// estimate is the sum of their products.
    pub estimates: Vec<Vec<(A, V)>>,
    /// One state vector per `SAVE_STATEVECTOR`.
    pub saved_states: Vec<Vec<V>>,
    /// One list of (index, real part, imaginary part) per `SAVE_AMPLITUDES`.
    pub saved_amplitudes: Vec<Vec<(usize, V, V)>>,
    /// One list of basis probabilities per `SAVE_PROBABILITIES`.
    pub saved_probs: Vec<Vec<V>>,
}

/// The mathematical content of [`Results`].
#[verifier::ext_equal]
pub struct ResultsView<A, V> {
    pub expectations: Seq<V>,
    pub estimates: Seq<Seq<(A, V)>>,
    pub saved_states: Seq<Seq<V>>,
    pub saved_amplitudes: Seq<Seq<(usize, V, V)>>,
    pub saved_probs: Seq<Seq<V>>,
}

/// The rows of a list of lists.
pub open spec fn rows<T>(v: Seq<Vec<T>>) -> Seq<Seq<T>> {
    Seq::new(v.len(), |i: int| v[i]@)
}

/// A row appended to a list of lists.
pub proof fn lemma_rows_push<T>(v: Seq<Vec<T>>, row: Vec<T>)
    ensures
        rows(v.push(row)) == rows(v).push(row@),
{
    assert(rows(v.push(row)) =~= rows(v).push(row@));
}

impl<A, V> View for Results<A, V> {
    type V = ResultsView<A, V>;

    open spec fn view(&self) -> ResultsView<A, V> {
        ResultsView {
            expectations: self.expectations@,
            estimates: rows(self.estimates@),
            saved_states: rows(self.saved_states@),
            saved_amplitudes: rows(self.saved_amplitudes@),
            saved_probs: rows(self.saved_probs@),
        }
    }
}

/// Results with nothing captured.
pub open spec fn no_results<A, V>() -> ResultsView<A, V> {
    ResultsView {
        expectations: Seq::empty(),
        estimates: Seq::empty(),
        saved_states: Seq::empty(),
        saved_amplitudes: Seq::empty(),
        saved_probs: Seq::empty(),
    }
}

impl<A, V> Default for Results<A, V> {
    fn default() -> (r: Self)
        ensures
            r@ == no_results::<A, V>(),
    {
        let r = Results {
            expectations: Vec::new(),
            estimates: Vec::new(),
            saved_states: Vec::new(),
            saved_amplitudes: Vec::new(),
            saved_probs: Vec::new(),
        };
        assert(r@ =~= no_results::<A, V>());
        r
    }
}

/// A quantum backend. Each operation is described by a function on `Model`, the
/// mathematical state of the backend, and on the state of the random number
/// generator: a backend is deterministic. The `takes_` functions say what a
/// backend works on in a given state.
pub trait SimBackend<A: Copy>: Sized {
    /// What the backend's state means.
    type Model;

    /// The numbers the backend reports.
    type Value;

    /// The current state.
    closed spec fn model(&self) -> Self::Model {
        arbitrary()
    }

    /// Whether the representation is sound.
    closed spec fn wf(&self) -> bool {
        arbitrary()
    }

    /// Whether the backend applies a gate.
    closed spec fn takes_gate(m: Self::Model, g: Gate<A>) -> bool {
        arbitrary()
    }

    /// Whether the backend measures and resets a qubit.
    closed spec fn takes_qubit(m: Self::Model, q: u8) -> bool {
        arbitrary()
    }

    /// Whether the backend evaluates a Pauli product.
    closed spec fn takes_pauli(m: Self::Model, pauli: u64) -> bool {
        arbitrary()
    }

    /// Whether the backend captures its state vector.
    closed spec fn takes_capture(m: Self::Model) -> bool {
        arbitrary()
    }

    /// The all-zero state of the same size.
    closed spec fn ground(m: Self::Model) -> Self::Model {
        arbitrary()
    }

    /// The state after a gate.
    closed spec fn evolved(m: Self::Model, g: Gate<A>) -> Self::Model {
        arbitrary()
    }

    /// Whether the backend applies a run of gates on one qubit or one pair of
    /// qubits as a block.
    closed spec fn takes_block(m: Self::Model, q: u8, p: Option<u8>, gs: Seq<Gate<A>>) -> bool {
        arbitrary()
    }

    /// The state after such a block.
    closed spec fn blended(
        m: Self::Model,
        q: u8,
        p: Option<u8>,
        gs: Seq<Gate<A>>,
    ) -> Self::Model {
        arbitrary()
    }

    /// State and generator after the noise that follows a gate on one qubit.
    closed spec fn noisy(m: Self::Model, q: u8, seed: u64) -> (Self::Model, u64) {
        arbitrary()
    }

    /// State, generator and outcome after a measurement.
    closed spec fn measured(m: Self::Model, basis: Basis, q: u8, seed: u64) -> (
        Self::Model,
        u64,
        u8,
    ) {
        arbitrary()
    }

    /// State and generator after a qubit was reset to zero.
    closed spec fn cleared(m: Self::Model, q: u8, seed: u64) -> (Self::Model, u64) {
        arbitrary()
    }

    /// State, generator and basis index after drawing a sample.
    closed spec fn sampled(m: Self::Model, seed: u64) -> (Self::Model, u64, usize) {
        arbitrary()
    }

    /// The expectation value of a Pauli product.
    closed spec fn expectation(m: Self::Model, pauli: u64) -> Self::Value {
        arbitrary()
    }

    /// The state vector, real and imaginary parts interleaved.
    closed spec fn state_of(m: Self::Model) -> Seq<Self::Value> {
        arbitrary()
    }

    /// The amplitudes as (index, real part, imaginary part).
    closed spec fn amplitudes_of(m: Self::Model) -> Seq<(usize, Self::Value, Self::Value)> {
        arbitrary()
    }

    /// The basis probabilities.
    closed spec fn probabilities_of(m: Self::Model) -> Seq<Self::Value> {
        arbitrary()
    }

    /// Whether the backend applies a gate.
    fn accepts_gate(&self, g: Gate<A>) -> (r: bool)
        requires
            self.wf(),
        ensures
            r == Self::takes_gate(self.model(), g),
    ;

    /// Whether the backend applies a run of gates on one qubit, or on the pair with
    /// `p`, as a block.
    fn accepts_block(&self, q: u8, p: Option<u8>, gs: &Vec<Gate<A>>) -> (r: bool)
        requires
            self.wf(),
        ensures
            r == Self::takes_block(self.model(), q, p, gs@),
    ;

    /// Whether the backend measures and resets a qubit.
    fn accepts_qubit(&self, q: u8) -> (r: bool)
        requires
            self.wf(),
        ensures
            r == Self::takes_qubit(self.model(), q),
    ;

    /// Whether the backend evaluates a Pauli product.
    fn accepts_pauli(&self, pauli: u64) -> (r: bool)
        requires
            self.wf(),
        ensures
            r == Self::takes_pauli(self.model(), pauli),
    ;

    /// Whether the backend captures its state vector.
    fn accepts_capture(&self) -> (r: bool)
        requires
            self.wf(),
        ensures
            r == Self::takes_capture(self.model()),
    ;

    /// Back to the all-zero state.
    fn reset(&mut self)
        requires
            old(self).wf(),
        ensures
            final(self).wf(),
            final(self).model() == Self::ground(old(self).model()),
    ;

    /// Applies a gate.
    fn apply(&mut self, g: Gate<A>)
        requires
            old(self).wf(),
            Self::takes_gate(old(self).model(), g),
        ensures
            final(self).wf(),
            final(self).model() == Self::evolved(old(self).model(), g),
    ;

    /// Applies a run of gates as a block, without noise.
    fn apply_block(&mut self, q: u8, p: Option<u8>, gs: &Vec<Gate<A>>)
        requires
            old(self).wf(),
            Self::takes_block(old(self).model(), q, p, gs@),
        ensures
            final(self).wf(),
            final(self).model() == Self::blended(old(self).model(), q, p, gs@),
    ;

    /// Collapses a qubit to zero.
    fn reset_qubit(&mut self, q: u8, rng: &mut Lcg64)
        requires
            old(self).wf(),
            Self::takes_qubit(old(self).model(), q),
        ensures
            final(self).wf(),
            (final(self).model(), final(rng).0) == Self::cleared(
                old(self).model(),
                q,
                old(rng).0,
            ),
    ;

    /// Measures a qubit.
    fn measure_in(&mut self, basis: Basis, q: u8, rng: &mut Lcg64) -> (o: u8)
        requires
            old(self).wf(),
            Self::takes_qubit(old(self).model(), q),
        ensures
            final(self).wf(),
            (final(self).model(), final(rng).0, o) == Self::measured(
                old(self).model(),
                basis,
                q,
                old(rng).0,
            ),
    ;

    /// Draws a basis state.
    fn sample(&mut self, rng: &mut Lcg64) -> (out: usize)
        requires
            old(self).wf(),
        ensures
            final(self).wf(),
            (final(self).model(), final(rng).0, out) == Self::sampled(
                old(self).model(),
                old(rng).0,
            ),
    ;

    /// The expectation value of a Pauli product.
    fn expect_value(&self, pauli: u64) -> (v: Self::Value)
        requires
            self.wf(),
            Self::takes_pauli(self.model(), pauli),
        ensures
            v == Self::expectation(self.model(), pauli),
    ;

    /// Captures the state vector.
    fn save_state(&mut self, results: &mut Results<A, Self::Value>)
        requires
            old(self).wf(),
            Self::takes_capture(old(self).model()),
        ensures
            final(self).wf(),
            final(self).model() == old(self).model(),
            final(results)@ == (ResultsView {
                saved_states: old(results)@.saved_states.push(Self::state_of(old(self).model())),
                ..old(results)@
            }),
    ;

    /// Captures the amplitudes.
    fn save_amplitudes(&mut self, results: &mut Results<A, Self::Value>)
        requires
            old(self).wf(),
            Self::takes_capture(old(self).model()),
        ensures
            final(self).wf(),
            final(self).model() == old(self).model(),
            final(results)@ == (ResultsView {
                saved_amplitudes: old(results)@.saved_amplitudes.push(
                    Self::amplitudes_of(old(self).model()),
                ),
                ..old(results)@
            }),
    ;

    /// Captures the basis probabilities.
    fn save_probabilities(&mut self, results: &mut Results<A, Self::Value>)
        requires
            old(self).wf(),
            Self::takes_capture(old(self).model()),
        ensures
            final(self).wf(),
            final(self).model() == old(self).model(),
            final(results)@ == (ResultsView {
                saved_probs: old(results)@.saved_probs.push(
                    Self::probabilities_of(old(self).model()),
                ),
                ..old(results)@
            }),
    ;

    /// The noise that follows a gate on one qubit.
    fn noise_after_single(&mut self, q: u8, rng: &mut Lcg64)
        requires
            old(self).wf(),
        ensures
            final(self).wf(),
            (final(self).model(), final(rng).0) == Self::noisy(old(self).model(), q, old(rng).0),
    ;

    /// The noise that follows a gate on two qubits: first `a`, then `b`.
    fn noise_after_pair(&mut self, a: u8, b: u8, rng: &mut Lcg64)
        requires
            old(self).wf(),
        ensures
            final(self).wf(),
            ({
                let n = Self::noisy(old(self).model(), a, old(rng).0);
                (final(self).model(), final(rng).0) == Self::noisy(n.0, b, n.1)
            }),
    ;

    /// The noise that follows a gate on three qubits, in order.
    fn noise_after_triple(&mut self, a: u8, b: u8, c: u8, rng: &mut Lcg64)
        requires
            old(self).wf(),
        ensures
            final(self).wf(),
            ({
                let n = Self::noisy(old(self).model(), a, old(rng).0);
                let m = Self::noisy(n.0, b, n.1);
                (final(self).model(), final(rng).0) == Self::noisy(m.0, c, m.1)
            }),
    ;
}

} // verus!
