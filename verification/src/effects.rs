//! What the tableau engine does as a backend, told on the amplitudes of a state vector.
use crate::backend::{Basis, Gate, SimBackend};
use crate::clifford_laws::law_samples_fit;
use crate::meaning::{
    agree, all_zero, collapsed, describes, fixes, inner, law_expectation_is_exact,
    law_gates_follow_the_vector, law_ground_describes_all_zero, law_measurement_collapses,
    law_reset_follows_the_vector, law_samples_are_possible, law_spelled_products_are_observables,
    law_x_measurement_collapses, law_y_measurement_collapses, lemma_agreeing, lemma_both_parts,
    lemma_sampled, multiple, restricted, supported, turned_back,
};
use crate::pauli::{
    bit, identity, lemma_identity_product, lemma_mask_algebra, lemma_odd_bit, odd, phase_sum,
    swapped, with_bit, Clifford, Pauli,
};
use crate::rng::{lcg_next, lcg_value};
use crate::stabilizer::{letter, spelled, StabilizerBackend, Tableau};
use crate::tableau::{
    law_gates_keep_symplectic, law_measurement_keeps_symplectic, law_measurement_repeats,
    law_reset_clears, law_rotated_measurements, lemma_pivot,
};
use crate::vectors::{
    acts, law_action_is_multiplicative, law_gates_keep_nonzero, nonzero, sign, transformed, turned,
    Psi,
};
use vstd::arithmetic::power2::{lemma2_to64, lemma_pow2_strictly_increases, pow2};
use vstd::prelude::*;

verus! {

/// The basis state with qubit `q` flipped.
pub open spec fn flipped(i: u64, q: u8) -> u64 {
    i ^ (1u64 << (q as u64))
}

/// The value of qubit `q` in a basis state.
pub open spec fn on(i: u64, q: u8) -> bool {
    (i >> (q as u64)) & 1 == 1
}

/// The vector after a gate, amplitude by amplitude; after H it is longer by the square
/// root of two.
pub open spec fn gate_effect<A>(g: Gate<A>, psi: Psi) -> Psi {
    |i: u64|
        {
            let (re, im) = psi(i);
            match g {
                Gate::X(q) => psi(flipped(i, q)),
                Gate::H(q) => {
                    let (re2, im2) = psi(flipped(i, q));
                    if on(i, q) {
                        (re2 - re, im2 - im)
                    } else {
                        (re + re2, im + im2)
                    }
                },
                Gate::S(q) => if on(i, q) {
                    (-im, re)
                } else {
                    (re, im)
                },
                Gate::CNOT(c, t) => if on(i, c) {
                    psi(flipped(i, t))
                } else {
                    (re, im)
                },
                Gate::CZ(a, b) => if on(i, a) && on(i, b) {
                    (-re, -im)
                } else {
                    (re, im)
                },
                Gate::SWAP(a, b) => if on(i, a) != on(i, b) {
                    psi(flipped(flipped(i, a), b))
                } else {
                    (re, im)
                },
                Gate::ISWAP(a, b) => if on(i, a) != on(i, b) {
                    let (re2, im2) = psi(flipped(flipped(i, a), b));
                    (-im2, re2)
                } else {
                    (re, im)
                },
                _ => (re, im),
            }
        }
}

/// Whether a gate on two qubits names two different ones.
pub open spec fn apart<A>(g: Gate<A>) -> bool {
    match g {
        Gate::CNOT(a, b) | Gate::CZ(a, b) | Gate::SWAP(a, b) | Gate::ISWAP(a, b) => a != b,
        _ => true,
    }
}

proof fn lemma_pair_bits(i: u64, a: u64, b: u64)
    by (bit_vector)
    requires
        a < 64,
        b < 64,
    ensures
        bit(i, a) ==> with_bit(i, a, true) == i && with_bit(i, a, false) == i ^ (1u64 << a),
        !bit(i, a) ==> with_bit(i, a, false) == i && with_bit(i, a, true) == i ^ (1u64 << a),
        bit(i ^ (1u64 << a), b) == (bit(i, b) != (a == b)),
        bit(i, a) != bit(i, b) ==> swapped(i, a, b) == (i ^ (1u64 << a)) ^ (1u64 << b),
        bit(i, a) == bit(i, b) ==> swapped(i, a, b) == i,
        with_bit(i ^ (1u64 << a), a, true) == with_bit(i, a, true),
        with_bit(i ^ (1u64 << a), a, false) == with_bit(i, a, false),
{
}

/// The tableau engine performs each of its gates: if its tableau describes a vector, it
/// describes the vector after it.
pub proof fn law_engine_gates_act_on_amplitudes<A: Copy>(t: Tableau, g: Gate<A>, psi: Psi)
    requires
        t.sized(),
        describes(t, psi),
        <StabilizerBackend as SimBackend<A>>::takes_gate(t, g),
        apart(g),
    ensures
        describes(<StabilizerBackend as SimBackend<A>>::evolved(t, g), gate_effect(g, psi)),
{
    let phi = gate_effect(g, psi);
    match g {
        Gate::X(q) => {
            law_gates_follow_the_vector(t, Clifford::X(q), psi);
            assert(phi =~= transformed(Clifford::X(q), psi));
        },
        Gate::H(q) => {
            let c = Clifford::H(q);
            law_gates_follow_the_vector(t, c, psi);
            let f = transformed(c, psi);
            assert forall|i: u64| #[trigger] f(i) == phi(i) by {
                lemma_pair_bits(i, q as u64, q as u64);
                reveal(turned);
            }
            assert(f =~= phi);
        },
        Gate::S(q) => {
            let c = Clifford::S(q);
            law_gates_follow_the_vector(t, c, psi);
            let f = transformed(c, psi);
            assert forall|i: u64| #[trigger] f(i) == phi(i) by {
                reveal(turned);
            }
            assert(f =~= phi);
        },
        Gate::CNOT(a, b) => {
            let c = Clifford::Cnot(a, b);
            law_gates_follow_the_vector(t, c, psi);
            let f = transformed(c, psi);
            assert forall|i: u64| #[trigger] f(i) == phi(i) by {
                lemma_mask_algebra(i, 0, 0);
            }
            assert(f =~= phi);
        },
        Gate::CZ(a, b) => {
            let c = Clifford::Cz(a, b);
            law_gates_follow_the_vector(t, c, psi);
            let f = transformed(c, psi);
            assert forall|i: u64| #[trigger] f(i) == phi(i) by {
                reveal(turned);
            }
            assert(f =~= phi);
        },
        Gate::SWAP(a, b) => {
            let c = Clifford::Swap(a, b);
            law_gates_follow_the_vector(t, c, psi);
            let f = transformed(c, psi);
            assert forall|i: u64| #[trigger] f(i) == phi(i) by {
                lemma_pair_bits(i, a as u64, b as u64);
            }
            assert(f =~= phi);
        },
        Gate::ISWAP(a, b) => {
            let (w, z, sa, sb) = (
                Clifford::Swap(a, b),
                Clifford::Cz(a, b),
                Clifford::S(a),
                Clifford::S(b),
            );
            let (p1, t1) = (transformed(w, psi), t.conjugated(w));
            let (p2, t2) = (transformed(z, p1), t1.conjugated(z));
            let (p3, t3) = (transformed(sa, p2), t2.conjugated(sa));
            let f = transformed(sb, p3);
            law_gates_follow_the_vector(t, w, psi);
            law_gates_follow_the_vector(t1, z, p1);
            law_gates_follow_the_vector(t2, sa, p2);
            law_gates_follow_the_vector(t3, sb, p3);
            assert forall|i: u64| #[trigger] f(i) == phi(i) by {
                lemma_pair_bits(i, a as u64, b as u64);
                reveal(turned);
            }
            assert(f =~= phi);
        },
        _ => {},
    }
}

/// Back to the start, the engine holds the all-zero state of as many qubits.
pub proof fn law_engine_starts_at_zero<A: Copy>(t: Tableau)
    requires
        t.sized(),
    ensures
        ({
            let g = <StabilizerBackend as SimBackend<A>>::ground(t);
            g.n == t.n && describes(
                g,
                |i: u64|
                    if i == 0 {
                        (1int, 0int)
                    } else {
                        (0int, 0int)
                    },
            )
        }),
{
    law_ground_describes_all_zero(t.n);
    let z: Psi = |i: u64|
        if i == 0 {
            (1int, 0int)
        } else {
            (0int, 0int)
        };
    assert(z =~= all_zero());
}

/// A Pauli letter applied to qubit `q` of a vector: 0 is I, 1 is X, 2 is Y, 3 is Z.
pub open spec fn letter_effect(l: u64, q: u8, psi: Psi) -> Psi {
    |i: u64|
        {
            let (re, im) = psi(i);
            let (re2, im2) = psi(flipped(i, q));
            if l == 1 {
                (re2, im2)
            } else if l == 2 {
                if on(i, q) {
                    (-im2, re2)
                } else {
                    (im2, -re2)
                }
            } else if l == 3 {
                if on(i, q) {
                    (-re, -im)
                } else {
                    (re, im)
                }
            } else {
                (re, im)
            }
        }
}

/// The letter for qubit `q` in a Pauli code.
pub open spec fn letter_at(code: u64, q: u8) -> u64 {
    (code >> ((2 * q) as u64)) & 3
}

/// The letters of a Pauli code for the first `k` qubits applied to a vector.
pub open spec fn product_effect(code: u64, k: nat, psi: Psi) -> Psi
    decreases k,
{
    if k == 0 {
        psi
    } else {
        let q = (k - 1) as u8;
        product_effect(code, (k - 1) as nat, letter_effect(letter_at(code, q), q, psi))
    }
}

proof fn lemma_letter_acts(l: u64, q: u8, psi: Psi)
    requires
        q < 32,
    ensures
        acts(letter(l, q as u64), psi) =~= letter_effect(l, q, psi),
{
    let p = letter(l, q as u64);
    let (f, e) = (acts(p, psi), letter_effect(l, q, psi));
    assert forall|i: u64| #[trigger] f(i) == e(i) by {
        lemma_mask_algebra(i, 0, 0);
        lemma_mask_algebra(i ^ p.x, 0, 0);
        lemma_mask_algebra(p.z, 0, 0);
        lemma_odd_bit(i ^ p.x, q as u64);
        lemma_pair_bits(i, q as u64, q as u64);
        assert(odd(0) == false);
        reveal(turned);
    }
    assert(f =~= e);
}

proof fn lemma_product_acts(code: u64, k: nat, psi: Psi)
    requires
        k <= 32,
    ensures
        acts(spelled(code, k), psi) =~= product_effect(code, k, psi),
    decreases k,
{
    if k == 0 {
        let f = acts(identity(), psi);
        assert forall|i: u64| #[trigger] f(i) == psi(i) by {
            lemma_mask_algebra(i, 0, 0);
            assert(odd(0) == false);
            reveal(turned);
        }
        assert(f =~= psi);
    } else {
        let q = (k - 1) as u8;
        let l = letter_at(code, q);
        lemma_letter_acts(l, q, psi);
        lemma_product_acts(code, (k - 1) as nat, letter_effect(l, q, psi));
        law_action_is_multiplicative(
            spelled(code, (k - 1) as nat),
            letter(l, q as u64),
            psi,
        );
    }
}

/// The engine's expectation value of a Pauli product on its qubits is that of the vector:
/// the inner product of the vector with the product applied to it, letter by letter, is
/// that value times the square of the norm.
pub proof fn law_engine_expectation_is_exact<A: Copy>(t: Tableau, code: u64, psi: Psi)
    requires
        t.symplectic(),
        describes(t, psi),
        forall|q: u8| t.n <= q < 32 ==> #[trigger] letter_at(code, q) == 0,
    ensures
        inner(psi, product_effect(code, 32, psi), t.n) == multiple(
            <StabilizerBackend as SimBackend<A>>::expectation(t, code) as int,
            inner(psi, psi, t.n),
        ),
{
    assert forall|q: u64| t.n <= q < 32 implies #[trigger] letter(
        (code >> (2 * q) as u64) & 3,
        q,
    ) == identity() by {
        assert(letter_at(code, q as u8) == 0);
    }
    law_spelled_products_are_observables(code, 32, t.n);
    law_expectation_is_exact(t, spelled(code, 32), psi);
    lemma_product_acts(code, 32, psi);
}

/// The letter that a measurement basis stands for.
pub open spec fn basis_letter(basis: Basis) -> u64 {
    match basis {
        Basis::X => 1,
        Basis::Y => 2,
        Basis::Z => 3,
    }
}

/// The part of a vector on which the letter on qubit `q` has the value of outcome `o`: the
/// vector plus or minus the letter applied to it, twice its projection.
pub open spec fn eigenpart(l: u64, q: u8, o: u8, psi: Psi) -> Psi {
    |i: u64|
        {
            let (re, im) = psi(i);
            let (re2, im2) = letter_effect(l, q, psi)(i);
            if o == 0 {
                (re + re2, im + im2)
            } else {
                (re - re2, im - im2)
            }
        }
}

proof fn lemma_eigenparts(q: u8, o: u8, psi: Psi)
    requires
        q < 64,
        o <= 1,
    ensures
        ({
            let (h, s) = (Clifford::H(q), Clifford::S(q));
            &&& eigenpart(3, q, o, psi) =~= doubled(collapsed(psi, q, o))
            &&& eigenpart(1, q, o, psi) =~= transformed(
                h,
                collapsed(transformed(h, psi), q, o),
            )
            &&& eigenpart(2, q, o, psi) =~= transformed(
                s,
                transformed(h, collapsed(transformed(h, turned_back(psi, q)), q, o)),
            )
        }),
{
    let (h, s) = (Clifford::H(q), Clifford::S(q));
    assert(eigenpart(3, q, o, psi) =~= doubled(collapsed(psi, q, o)));
    let x = transformed(h, collapsed(transformed(h, psi), q, o));
    let ex = eigenpart(1, q, o, psi);
    assert forall|i: u64| #[trigger] x(i) == ex(i) by {
        let j = flipped(i, q);
        lemma_pair_bits(i, q as u64, q as u64);
        lemma_pair_bits(j, q as u64, q as u64);
        lemma_mask_algebra(i, 1u64 << (q as u64), 0);
        reveal(turned);
    }
    assert(x =~= ex);
    let y = transformed(s, transformed(h, collapsed(transformed(h, turned_back(psi, q)), q, o)));
    let ey = eigenpart(2, q, o, psi);
    assert forall|i: u64| #[trigger] y(i) == ey(i) by {
        let j = flipped(i, q);
        lemma_pair_bits(i, q as u64, q as u64);
        lemma_pair_bits(j, q as u64, q as u64);
        lemma_mask_algebra(i, 1u64 << (q as u64), 0);
        reveal(turned);
    }
    assert(y =~= ey);
}

proof fn lemma_gate_keeps_zero(g: Clifford, psi: Psi)
    requires
        g is H || g is S,
        g.below(64),
    ensures
        nonzero(transformed(g, psi)) == nonzero(psi),
{
    if nonzero(psi) {
        law_gates_keep_nonzero(g, psi);
    } else {
        let f = transformed(g, psi);
        assert forall|i: u64| #[trigger] f(i) == (0int, 0int) by {
            match g {
                Clifford::H(q) => {
                    assert(psi(with_bit(i, q as u64, false)) == (0int, 0int));
                    assert(psi(with_bit(i, q as u64, true)) == (0int, 0int));
                },
                _ => {
                    assert(psi(i) == (0int, 0int));
                },
            }
            reveal(turned);
        }
    }
}

/// The vector at twice its length.
spec fn doubled(c: Psi) -> Psi {
    |i: u64|
        {
            let (re, im) = c(i);
            (2 * re, 2 * im)
        }
}

proof fn lemma_turned_double(k: int, a: (int, int))
    ensures
        turned(k, (2 * a.0, 2 * a.1)) == (2 * turned(k, a).0, 2 * turned(k, a).1),
{
    reveal(turned);
}

proof fn lemma_doubled_fixed(p: Pauli, c: Psi)
    requires
        fixes(p, c),
    ensures
        fixes(p, doubled(c)),
{
    reveal(fixes);
    let d = doubled(c);
    let (f, e) = (acts(p, c), acts(p, d));
    assert forall|i: u64| #[trigger] e(i) == d(i) by {
        assert(f(i) == c(i));
        lemma_turned_double(p.r + sign(odd((i ^ p.x) & p.z)), c(i ^ p.x));
    }
    assert(e =~= d);
}

proof fn lemma_doubled(t: Tableau, c: Psi)
    requires
        describes(t, c),
    ensures
        describes(t, doubled(c)),
{
    let i = choose|i: u64| #[trigger] c(i) != (0int, 0int);
    assert(doubled(c)(i) != (0int, 0int));
    assert forall|k: int| t.n <= k < 2 * t.n implies fixes(#[trigger] t.rows[k], doubled(c)) by {
        lemma_doubled_fixed(t.rows[k], c);
    }
}

/// How a measurement of a part of a vector comes to its outcome: by a draw if both parts
/// have amplitudes.
spec fn drawn_fairly(other: bool, seed: u64, m: (Tableau, u64, u8)) -> bool {
    if other {
        &&& m.1 == lcg_next(seed)
        &&& (m.2 == 1) == (lcg_value(m.1) < 0x10_0000_0000_0000)
    } else {
        m.1 == seed
    }
}

proof fn lemma_z_measured(t: Tableau, q: u8, seed: u64, psi: Psi)
    requires
        t.symplectic(),
        q < t.n,
        describes(t, psi),
    ensures
        ({
            let m = t.measured(q, seed);
            &&& m.2 <= 1
            &&& drawn_fairly(nonzero(collapsed(psi, q, (1 - m.2) as u8)), seed, m)
        }),
{
    let m = t.measured(q, seed);
    law_measurement_repeats(t, q, seed, seed);
    law_measurement_collapses(t, q, seed, psi);
    let c = collapsed(psi, q, (1 - m.2) as u8);
    lemma_pivot(t, q);
    match t.pivot(q) {
        None => {
            assert forall|i: u64| #[trigger] c(i) == (0int, 0int) by {
                assert(collapsed(psi, q, m.2)(i) == psi(i));
            }
        },
        Some(i) => {
            assert(fixes(t.rows[i], psi));
            lemma_both_parts(t.rows[i], psi, q, (1 - m.2) as u8);
        },
    }
}

proof fn lemma_one_letter(l: u64, q: u8, k: nat)
    requires
        q < 32,
        l < 4,
        k <= 32,
    ensures
        spelled(l << ((2 * q) as u64), k) == if q < k {
            letter(l, q as u64)
        } else {
            identity()
        },
    decreases k,
{
    if k > 0 {
        let j = (k - 1) as u64;
        lemma_one_letter(l, q, (k - 1) as nat);
        let (a, b) = ((2 * q) as u64, (2 * j) as u64);
        assert(((l << a) >> b) & 3 == if a == b {
            l
        } else {
            0
        }) by (bit_vector)
            requires
                l < 4,
                a < 64,
                b < 64,
                a % 2 == 0,
                b % 2 == 0,
        ;
        let p = letter(l, q as u64);
        lemma_identity_product(p);
        lemma_identity_product(identity());
        assert(p.times(identity()) == p) by {
            reveal(phase_sum);
            lemma_mask_algebra(p.x, 0, 0);
            lemma_mask_algebra(p.z, 0, 0);
            assert(odd(0) == false);
        }
    }
}

/// Measuring a qubit of the engine in a basis leaves the part of the vector on which the
/// letter of that basis has the value of the outcome, with that value as its expectation
/// value. Where the other part has no amplitudes the outcome is certain and nothing is
/// drawn; else the outcome is 1 if the next draw lies in the lower half.
pub proof fn law_engine_measures_in_the_basis<A: Copy>(
    t: Tableau,
    basis: Basis,
    q: u8,
    seed: u64,
    psi: Psi,
)
    requires
        t.symplectic(),
        q < t.n,
        describes(t, psi),
    ensures
        ({
            let m = <StabilizerBackend as SimBackend<A>>::measured(t, basis, q, seed);
            let l = basis_letter(basis);
            &&& m.2 <= 1
            &&& m.0.symplectic()
            &&& m.0.n == t.n
            &&& describes(m.0, eigenpart(l, q, m.2, psi))
            &&& <StabilizerBackend as SimBackend<A>>::expectation(m.0, l << ((2 * q) as u64)) == 1
                - 2 * m.2
            &&& nonzero(eigenpart(l, q, (1 - m.2) as u8, psi)) ==> m.1 == lcg_next(seed) && (m.2
                == 1 <==> lcg_value(m.1) < 0x10_0000_0000_0000)
            &&& !nonzero(eigenpart(l, q, (1 - m.2) as u8, psi)) ==> m.1 == seed
        }),
{
    let m = <StabilizerBackend as SimBackend<A>>::measured(t, basis, q, seed);
    let l = basis_letter(basis);
    let (h, s) = (Clifford::H(q), Clifford::S(q));
    lemma_one_letter(l, q, 32);
    law_rotated_measurements(t, q, seed);
    law_measurement_repeats(t, q, seed, seed);
    law_measurement_keeps_symplectic(t, q, seed);
    match basis {
        Basis::X => {
            let u = t.conjugated(h);
            let there = transformed(h, psi);
            law_gates_keep_symplectic(t, h);
            law_gates_follow_the_vector(t, h, psi);
            lemma_z_measured(u, q, seed, there);
            law_x_measurement_collapses(t, q, seed, psi);
            lemma_eigenparts(q, m.2, psi);
            lemma_eigenparts(q, (1 - m.2) as u8, psi);
            lemma_gate_keeps_zero(h, collapsed(there, q, (1 - m.2) as u8));
        },
        Basis::Y => {
            let a = t.conjugated(s);
            let b = a.conjugated(s);
            let c = b.conjugated(s);
            let pa = transformed(s, psi);
            let pb = transformed(s, pa);
            let pc = turned_back(psi, q);
            let there = transformed(h, pc);
            law_gates_keep_symplectic(t, s);
            law_gates_keep_symplectic(a, s);
            law_gates_keep_symplectic(b, s);
            law_gates_keep_symplectic(c, h);
            law_gates_follow_the_vector(t, s, psi);
            law_gates_follow_the_vector(a, s, pa);
            law_gates_follow_the_vector(b, s, pb);
            law_gates_follow_the_vector(c, h, pc);
            lemma_z_measured(c.conjugated(h), q, seed, there);
            law_y_measurement_collapses(t, q, seed, psi);
            lemma_eigenparts(q, m.2, psi);
            lemma_eigenparts(q, (1 - m.2) as u8, psi);
            let part = collapsed(there, q, (1 - m.2) as u8);
            lemma_gate_keeps_zero(h, part);
            lemma_gate_keeps_zero(s, transformed(h, part));
        },
        Basis::Z => {
            lemma_z_measured(t, q, seed, psi);
            law_measurement_collapses(t, q, seed, psi);
            lemma_eigenparts(q, m.2, psi);
            lemma_eigenparts(q, (1 - m.2) as u8, psi);
            lemma_doubled(m.0, collapsed(psi, q, m.2));
            let (c, d) = (
                collapsed(psi, q, (1 - m.2) as u8),
                eigenpart(3, q, (1 - m.2) as u8, psi),
            );
            if nonzero(c) {
                let i = choose|i: u64| #[trigger] c(i) != (0int, 0int);
                assert(d(i) != (0int, 0int));
            }
            if nonzero(d) {
                let i = choose|i: u64| #[trigger] d(i) != (0int, 0int);
                assert(c(i) != (0int, 0int));
            }
        },
    }
}

/// Resetting a qubit of the engine leaves it at zero, in the part of the vector that a
/// measurement with some outcome `o` would leave, and no other amplitude changes.
pub proof fn law_engine_resets_to_zero<A: Copy>(t: Tableau, q: u8, seed: u64, psi: Psi)
    requires
        t.symplectic(),
        q < t.n,
        describes(t, psi),
    ensures
        ({
            let m = <StabilizerBackend as SimBackend<A>>::cleared(t, q, seed);
            let z = <StabilizerBackend as SimBackend<A>>::measured(t, Basis::Z, q, seed);
            &&& m.0.symplectic()
            &&& m.0.n == t.n
            &&& m.1 == z.1
            &&& describes(
                m.0,
                |i: u64|
                    if on(i, q) {
                        (0int, 0int)
                    } else if z.2 == 0 {
                        psi(i)
                    } else {
                        psi(flipped(i, q))
                    },
            )
        }),
{
    let m = t.cleared(q, seed);
    let z = t.measured(q, seed);
    law_reset_clears(t, q, seed, seed);
    law_reset_follows_the_vector(t, q, seed, psi);
    law_measurement_repeats(t, q, seed, seed);
    let f: Psi = |i: u64|
        if on(i, q) {
            (0int, 0int)
        } else if z.2 == 0 {
            psi(i)
        } else {
            psi(flipped(i, q))
        };
    let c = collapsed(psi, q, m.2);
    let e = if m.2 == 1 {
        transformed(Clifford::X(q), c)
    } else {
        c
    };
    assert forall|i: u64| #[trigger] e(i) == f(i) by {
        lemma_pair_bits(i, q as u64, q as u64);
    }
    assert(e =~= f);
}

/// The vector with the amplitude of one basis state only.
pub open spec fn only(psi: Psi, o: u64) -> Psi {
    |i: u64|
        if i == o {
            psi(i)
        } else {
            (0int, 0int)
        }
}

proof fn lemma_restricted_to_one(psi: Psi, out: u64, n: nat)
    requires
        n < 64,
        supported(psi, n),
        out < (1u64 << (n as u64)),
    ensures
        restricted(psi, out, n) =~= only(psi, out),
{
    let (r, f) = (restricted(psi, out, n), only(psi, out));
    assert forall|i: u64| #[trigger] r(i) == f(i) by {
        if psi(i) != (0int, 0int) && agree(i, out, n) {
            lemma_agreeing(i, out, n);
        }
        if i == out {
            assert(agree(i, out, n));
        }
    }
    assert(r =~= f);
}

/// A sample of the engine is a basis state that has an amplitude, and it leaves the engine
/// in that basis state.
pub proof fn law_engine_samples_collapse<A: Copy>(t: Tableau, seed: u64, psi: Psi)
    requires
        t.symplectic(),
        describes(t, psi),
        supported(psi, t.n),
    ensures
        ({
            let m = <StabilizerBackend as SimBackend<A>>::sampled(t, seed);
            &&& m.0.symplectic()
            &&& m.0.n == t.n
            &&& psi(m.2 as u64) != (0int, 0int)
            &&& describes(m.0, only(psi, m.2 as u64))
        }),
{
    let m = t.sampled(t.n, seed);
    lemma_sampled(t, t.n, seed, psi);
    law_samples_are_possible(t, seed, psi);
    law_samples_fit(t, t.n, seed);
    lemma2_to64();
    if t.n < 28 {
        lemma_pow2_strictly_increases(t.n, 28);
    }
    assert(pow2(28) == 0x1000_0000);
    lemma_restricted_to_one(psi, m.2 as u64, t.n);
}

/// The Z gate of the tableau changes the sign of the amplitudes where the qubit is one.
pub proof fn law_z_changes_signs(t: Tableau, q: u8, psi: Psi)
    requires
        t.sized(),
        q < 64,
        describes(t, psi),
    ensures
        describes(
            t.conjugated(Clifford::Z(q)),
            |i: u64|
                if on(i, q) {
                    (-psi(i).0, -psi(i).1)
                } else {
                    psi(i)
                },
        ),
{
    let c = Clifford::Z(q);
    law_gates_follow_the_vector(t, c, psi);
    let f = transformed(c, psi);
    let e: Psi = |i: u64|
        if on(i, q) {
            (-psi(i).0, -psi(i).1)
        } else {
            psi(i)
        };
    assert forall|i: u64| #[trigger] f(i) == e(i) by {
        reveal(turned);
    }
    assert(f =~= e);
}

} // verus!
