//! What a stabilizer tableau says of a state vector: its gates, expectation values
//! and measurements are those of the vector.
use crate::pauli::{
    b2i, bit, identity, lemma_bits, lemma_hermitian_product, lemma_identity_product,
    lemma_mask_algebra, lemma_odd_bit, lemma_no_bits, lemma_single, mask, odd, swapped, with_bit, z_on, Clifford, Pauli,
};
use crate::stabilizer::{letter, spelled, Tableau, STAB_MAX_QUBITS};
use crate::tableau::{
    law_commuting_operator_has_sign, law_expectation_is_definite, law_gates_keep_symplectic,
    law_measurement_keeps_symplectic, law_measurement_repeats, lemma_pivot, lemma_zero_within,
};
use crate::vectors::{
    acts, law_action_is_multiplicative, law_conjugation_is_what_gates_do, law_gates_keep_nonzero,
    lemma_anticommuting_actions, lemma_phase_scales, lemma_scaled, lemma_turned,
    lemma_turned_zero, lemma_xor_assoc, nonzero, plus, scaled, sign, transformed, turned, Psi,
};
use vstd::arithmetic::power2::{lemma2_to64, lemma_pow2_unfold, pow2};
use vstd::prelude::*;

verus! {

/// Whether the operator leaves the vector as it is.
#[verifier::opaque]
pub open spec fn fixes(p: Pauli, psi: Psi) -> bool {
    acts(p, psi) =~= psi
}

/// Whether every stabilizer of the tableau fixes the vector.
pub open spec fn describes(t: Tableau, psi: Psi) -> bool {
    &&& nonzero(psi)
    &&& forall|k: int| t.n <= k < 2 * t.n ==> fixes(#[trigger] t.rows[k], psi)
}

/// The vector of the all-zero state.
pub open spec fn all_zero() -> Psi {
    |i: u64|
        if i == 0 {
            (1int, 0int)
        } else {
            (0int, 0int)
        }
}

/// The initial tableau describes the all-zero state.
pub proof fn law_ground_describes_all_zero(n: nat)
    requires
        n <= STAB_MAX_QUBITS,
    ensures
        describes(Tableau::ground(n), all_zero()),
{
    let t = Tableau::ground(n);
    let psi = all_zero();
    reveal(fixes);
    assert(psi(0) != (0int, 0int));
    assert forall|k: int| n <= k < 2 * n implies fixes(#[trigger] t.rows[k], psi) by {
        let p = t.rows[k];
        let f = acts(p, psi);
        assert forall|i: u64| #[trigger] f(i) == psi(i) by {
            assert(p == z_on((k - n) as u8));
            lemma_mask_algebra(i, 0, 0);
            lemma_mask_algebra(p.z, 0, 0);
            lemma_turned_zero(p.r + sign(odd((i ^ p.x) & p.z)), psi(i));
            assert(odd(0) == false);
            reveal(turned);
        }
        assert(f =~= psi);
    }
}

/// The tableau after a gate describes the vector after it.
pub proof fn law_gates_follow_the_vector(t: Tableau, g: Clifford, psi: Psi)
    requires
        describes(t, psi),
        t.sized(),
        g.below(64),
    ensures
        describes(t.conjugated(g), transformed(g, psi)),
{
    reveal(fixes);
    law_gates_keep_nonzero(g, psi);
    let u = t.conjugated(g);
    let phi = transformed(g, psi);
    assert forall|k: int| u.n <= k < 2 * u.n implies fixes(#[trigger] u.rows[k], phi) by {
        let p = t.rows[k];
        assert(u.rows[k] == p.conjugated(g));
        law_conjugation_is_what_gates_do(p, g, psi);
        assert(fixes(p, psi));
        assert(acts(u.rows[k], phi) == transformed(g, acts(p, psi)));
    }
}

proof fn lemma_identity_acts(psi: Psi)
    ensures
        fixes(identity(), psi),
{
    reveal(fixes);
    let f = acts(identity(), psi);
    assert forall|i: u64| #[trigger] f(i) == psi(i) by {
        lemma_mask_algebra(i, 0, 0);
        assert(odd(0) == false);
        reveal(turned);
    }
    assert(f =~= psi);
}

proof fn lemma_product_fixes(p: Pauli, s: Pauli, psi: Psi)
    requires
        fixes(p, psi),
        fixes(s, psi),
    ensures
        fixes(p.times(s), psi),
{
    reveal(fixes);
    law_action_is_multiplicative(p, s, psi);
    assert(acts(s, psi) == psi);
}

proof fn lemma_decoded_fixes(t: Tableau, p: Pauli, k: nat, psi: Psi)
    requires
        forall|j: int| t.n <= j < 2 * t.n ==> fixes(#[trigger] t.rows[j], psi),
        k <= t.n,
    ensures
        fixes(t.decoded(p, k), psi),
    decreases k,
{
    if k == 0 {
        lemma_identity_acts(psi);
    } else {
        lemma_decoded_fixes(t, p, (k - 1) as nat, psi);
        lemma_product_fixes(t.decoded(p, (k - 1) as nat), t.rows[t.n + k - 1], psi);
    }
}

/// An operator that is a product of stabilizers up to a sign acts as that sign.
pub proof fn law_group_sign_is_the_eigenvalue(t: Tableau, p: Pauli, psi: Psi)
    requires
        describes(t, psi),
    ensures
        t.group_sign(p) matches Some(v) ==> acts(p, psi) =~= scaled(sign(v == -1), psi),
{
    let d = t.decoded(p, t.n);
    lemma_decoded_fixes(t, p, t.n, psi);
    reveal(fixes);
    if let Some(v) = t.group_sign(p) {
        lemma_phase_scales(p, d, psi);
        assert(fixes(d, psi));
        assert(acts(d, psi) == psi);
        lemma_scaled(p.r - d.r, sign(v == -1), psi);
    }
}

/// The complex conjugate of one amplitude times another.
pub open spec fn overlap(a: (int, int), b: (int, int)) -> (int, int) {
    (a.0 * b.0 + a.1 * b.1, a.0 * b.1 - a.1 * b.0)
}

/// The sum over the basis states of `n` qubits.
pub open spec fn total(f: Psi, n: nat) -> (int, int)
    decreases n,
{
    if n == 0 {
        f(0)
    } else {
        let m = 1u64 << ((n - 1) as u64);
        plus(total(f, (n - 1) as nat), total(|i: u64| f(i ^ m), (n - 1) as nat))
    }
}

/// The inner product of two vectors of `n` qubits.
pub open spec fn inner(a: Psi, b: Psi, n: nat) -> (int, int) {
    total(|i: u64| overlap(a(i), b(i)), n)
}

proof fn lemma_split_mask(x: u64, n: u64)
    by (bit_vector)
    requires
        0 < n < 64,
        x >> n == 0,
    ensures
        (x ^ mask(bit(x, (n - 1) as u64), (n - 1) as u64)) >> ((n - 1) as u64) == 0,
{
}

/// A sum over all basis states does not change when their bits are flipped.
proof fn lemma_total_flipped(f: Psi, x: u64, n: nat)
    requires
        n < 64,
        x >> (n as u64) == 0,
    ensures
        total(|i: u64| f(i ^ x), n) == total(f, n),
    decreases n,
{
    let g: Psi = |i: u64| f(i ^ x);
    if n == 0 {
        vstd::bits::lemma_u64_shr_is_div(x, 0);
        lemma2_to64();
        lemma_mask_algebra(0, 0, 0);
    } else {
        let k = (n - 1) as nat;
        let m = 1u64 << (k as u64);
        let b = bit(x, k as u64);
        let y = x ^ mask(b, k as u64);
        lemma_split_mask(x, n as u64);
        let h: Psi = |i: u64| f(i ^ m);
        let gm: Psi = |i: u64| g(i ^ m);
        let fy: Psi = |i: u64| f(i ^ y);
        let hy: Psi = |i: u64| h(i ^ y);
        lemma_total_flipped(f, y, k);
        lemma_total_flipped(h, y, k);
        lemma_mask_algebra(x, m, 0);
        if b {
            assert forall|i: u64| #[trigger] g(i) == hy(i) by {
                lemma_xor_assoc(i, y, m);
                lemma_mask_algebra(x, m, 0);
            }
            assert forall|i: u64| #[trigger] gm(i) == fy(i) by {
                lemma_xor_assoc(i, m, x);
                lemma_mask_algebra(m, x, 0);
            }
            assert(g =~= hy);
            assert(gm =~= fy);
        } else {
            assert forall|i: u64| #[trigger] g(i) == fy(i) by {}
            assert forall|i: u64| #[trigger] gm(i) == hy(i) by {
                lemma_xor_assoc(i, m, x);
                lemma_xor_assoc(i, x, m);
                lemma_mask_algebra(m, x, 0);
            }
            assert(g =~= fy);
            assert(gm =~= hy);
        }
    }
}

proof fn lemma_total_scaled(f: Psi, k: int, n: nat)
    ensures
        total(scaled(k, f), n) == turned(k, total(f, n)),
    decreases n,
{
    if n > 0 {
        let m = 1u64 << ((n - 1) as u64);
        let h: Psi = |i: u64| f(i ^ m);
        let s = scaled(k, f);
        let sh: Psi = |i: u64| s(i ^ m);
        assert(sh =~= scaled(k, h));
        lemma_total_scaled(f, k, (n - 1) as nat);
        lemma_total_scaled(h, k, (n - 1) as nat);
        lemma_turned(k, 0, total(f, (n - 1) as nat), total(h, (n - 1) as nat));
    }
}

proof fn lemma_overlap_turned(k: int, a: (int, int), b: (int, int))
    ensures
        overlap(turned(k, a), turned(k, b)) == overlap(a, b),
        overlap(a, turned(k, b)) == turned(k, overlap(a, b)),
{
    reveal(turned);
    lemma_opposite(a.0, b.0);
    lemma_opposite(a.0, b.1);
    lemma_opposite(a.1, b.0);
    lemma_opposite(a.1, b.1);
}

proof fn lemma_opposite(x: int, y: int)
    ensures
        (-x) * y == -(x * y),
        x * (-y) == -(x * y),
        (-x) * (-y) == x * y,
{
    assert((-x) * y == -(x * y) && x * (-y) == -(x * y) && (-x) * (-y) == x * y)
        by (nonlinear_arith);
}

/// An amplitude times a whole number.
pub open spec fn multiple(v: int, a: (int, int)) -> (int, int) {
    (v * a.0, v * a.1)
}

proof fn lemma_multiple(a: (int, int))
    ensures
        multiple(0, a) == (0int, 0int),
        multiple(1, a) == turned(0, a),
        multiple(-1, a) == turned(2, a),
        a == turned(2, a) ==> a == (0int, 0int),
{
    reveal(turned);
}

/// Operators keep inner products.
pub proof fn law_operators_keep_inner_products(p: Pauli, a: Psi, b: Psi, n: nat)
    requires
        n < 64,
        p.within(n),
    ensures
        inner(acts(p, a), acts(p, b), n) == inner(a, b, n),
{
    let f: Psi = |i: u64| overlap(a(i), b(i));
    let fx: Psi = |i: u64| f(i ^ p.x);
    let g: Psi = |i: u64| overlap(acts(p, a)(i), acts(p, b)(i));
    assert forall|i: u64| #[trigger] g(i) == fx(i) by {
        lemma_overlap_turned(
            p.r + sign(odd((i ^ p.x) & p.z)),
            a(i ^ p.x),
            b(i ^ p.x),
        );
    }
    assert(g =~= fx);
    lemma_total_flipped(f, p.x, n);
}

proof fn lemma_inner_scaled(a: Psi, b: Psi, k: int, n: nat)
    ensures
        inner(a, scaled(k, b), n) == turned(k, inner(a, b, n)),
{
    let f: Psi = |i: u64| overlap(a(i), b(i));
    let g: Psi = |i: u64| overlap(a(i), scaled(k, b)(i));
    assert forall|i: u64| #[trigger] g(i) == scaled(k, f)(i) by {
        lemma_overlap_turned(k, a(i), b(i));
    }
    assert(g =~= scaled(k, f));
    lemma_total_scaled(f, k, n);
}

/// An operator that anticommutes with one that fixes the vector takes it to an
/// orthogonal vector.
proof fn lemma_disturbed(p: Pauli, g: Pauli, psi: Psi, n: nat)
    requires
        n < 64,
        fixes(g, psi),
        p.anti(g),
        g.within(n),
    ensures
        inner(psi, acts(p, psi), n) == (0int, 0int),
{
    reveal(fixes);
    let e = inner(psi, acts(p, psi), n);
    let there = acts(g, acts(p, psi));
    lemma_anticommuting_actions(p, g, psi);
    assert(acts(g, psi) == psi);
    assert(acts(p, psi) == scaled(2, there));
    law_operators_keep_inner_products(g, psi, acts(p, psi), n);
    lemma_inner_scaled(psi, there, 2, n);
    assert(inner(psi, there, n) == e);
    assert(e == turned(2, e));
    lemma_multiple(e);
}

/// The expectation value that the tableau gives for a Hermitian operator on its
/// qubits is that of the vector: the inner product of the vector with the operator
/// applied to it is the expectation value times the square of its norm.
pub proof fn law_expectation_is_exact(t: Tableau, p: Pauli, psi: Psi)
    requires
        t.symplectic(),
        describes(t, psi),
        p.within(t.n),
        p.hermitian(),
    ensures
        inner(psi, acts(p, psi), t.n) == multiple(
            t.expectation(p) as int,
            inner(psi, psi, t.n),
        ),
{
    law_expectation_is_definite(t, p);
    let norm = inner(psi, psi, t.n);
    lemma_multiple(norm);
    if t.disturbs(p) {
        let k = choose|k: int| t.n <= k < 2 * t.n && p.anti(#[trigger] t.rows[k]);
        lemma_disturbed(p, t.rows[k], psi, t.n);
    } else {
        law_commuting_operator_has_sign(t, p);
        law_group_sign_is_the_eigenvalue(t, p, psi);
        lemma_inner_scaled(psi, psi, sign(t.expectation(p) == -1), t.n);
    }
}

/// The part of a vector in which qubit `q` has the value `o`.
pub open spec fn collapsed(psi: Psi, q: u8, o: u8) -> Psi {
    |i: u64|
        if bit(i, q as u64) == (o == 1) {
            psi(i)
        } else {
            (0int, 0int)
        }
}

/// An operator that does not flip the qubit and fixes a vector fixes its part.
proof fn lemma_part_fixed(p: Pauli, psi: Psi, q: u8, o: u8)
    requires
        q < 64,
        fixes(p, psi),
        !bit(p.x, q as u64),
    ensures
        fixes(p, collapsed(psi, q, o)),
{
    reveal(fixes);
    let c = collapsed(psi, q, o);
    let f = acts(p, c);
    assert forall|i: u64| #[trigger] f(i) == c(i) by {
        lemma_bits(i, p.x, q as u64, q as u64, false);
        assert(acts(p, psi)(i) == psi(i));
        lemma_turned_zero(p.r + sign(odd((i ^ p.x) & p.z)), (0int, 0int));
    }
    assert(f =~= c);
}

/// Z with the sign of the outcome fixes the part with that outcome.
proof fn lemma_outcome_fixed(psi: Psi, q: u8, o: u8)
    requires
        q < 64,
        o <= 1,
    ensures
        fixes(Pauli { x: 0, z: 1u64 << (q as u64), r: (2 * o) as u8 }, collapsed(psi, q, o)),
{
    reveal(fixes);
    let p = Pauli { x: 0, z: 1u64 << (q as u64), r: (2 * o) as u8 };
    let c = collapsed(psi, q, o);
    let f = acts(p, c);
    assert forall|i: u64| #[trigger] f(i) == c(i) by {
        lemma_mask_algebra(i, 0, 0);
        lemma_odd_bit(i, q as u64);
        lemma_turned_zero(p.r + sign(odd((i ^ p.x) & p.z)), (0int, 0int));
        reveal(turned);
    }
    assert(f =~= c);
}

/// A vector fixed by an operator that flips the qubit has parts with both values.
pub proof fn lemma_both_parts(p: Pauli, psi: Psi, q: u8, o: u8)
    requires
        q < 64,
        fixes(p, psi),
        bit(p.x, q as u64),
        nonzero(psi),
    ensures
        nonzero(collapsed(psi, q, o)),
{
    reveal(fixes);
    let c = collapsed(psi, q, o);
    let i = choose|i: u64| #[trigger] psi(i) != (0int, 0int);
    lemma_bits(i, p.x, q as u64, q as u64, false);
    let j = i ^ p.x;
    assert(acts(p, psi)(i) == psi(i));
    lemma_turned_zero(p.r + sign(odd(j & p.z)), psi(j));
    if bit(i, q as u64) == (o == 1) {
        assert(c(i) == psi(i));
    } else {
        assert(c(j) == psi(j));
    }
}

/// A vector on which Z acts as a sign has no part with the other value.
proof fn lemma_certain(psi: Psi, q: u8, o: u8)
    requires
        q < 64,
        o <= 1,
        acts(z_on(q), psi) =~= scaled(sign(o == 1), psi),
    ensures
        collapsed(psi, q, o) =~= psi,
{
    let c = collapsed(psi, q, o);
    assert forall|i: u64| #[trigger] c(i) == psi(i) by {
        lemma_mask_algebra(i, 0, 0);
        lemma_odd_bit(i, q as u64);
        assert(acts(z_on(q), psi)(i) == scaled(sign(o == 1), psi)(i));
        reveal(turned);
    }
    assert(c =~= psi);
}

/// A measurement of the tableau describes the collapsed vector: the part in which
/// the qubit has the measured value. That part is never zero, and it is the whole
/// vector where the outcome does not depend on chance.
pub proof fn law_measurement_collapses(t: Tableau, q: u8, seed: u64, psi: Psi)
    requires
        t.symplectic(),
        q < t.n,
        describes(t, psi),
    ensures
        describes(t.measured(q, seed).0, collapsed(psi, q, t.measured(q, seed).2)),
        t.pivot(q) is None ==> collapsed(psi, q, t.measured(q, seed).2) =~= psi,
{
    lemma_pivot(t, q);
    let m = t.measured(q, seed);
    let c = collapsed(psi, q, m.2);
    match t.pivot(q) {
        None => {
            lemma_single(q, q, t.n);
            law_commuting_operator_has_sign(t, z_on(q));
            law_group_sign_is_the_eigenvalue(t, z_on(q), psi);
            lemma_certain(psi, q, m.2);
        },
        Some(i) => {
            let pivot = t.rows[i];
            assert(fixes(pivot, psi));
            lemma_both_parts(pivot, psi, q, m.2);
            let u = m.0;
            assert forall|k: int| u.n <= k < 2 * u.n implies fixes(#[trigger] u.rows[k], c) by {
                let row = t.rows[k];
                assert(fixes(row, psi));
                if k == i {
                    lemma_outcome_fixed(psi, q, m.2);
                } else if bit(row.x, q as u64) {
                    lemma_product_fixes(row, pivot, psi);
                    lemma_bits(row.x, pivot.x, q as u64, q as u64, false);
                    lemma_part_fixed(row.times(pivot), psi, q, m.2);
                } else {
                    lemma_part_fixed(row, psi, q, m.2);
                }
            }
        },
    }
}

proof fn lemma_total_sum(f: Psi, g: Psi, n: nat)
    ensures
        total(|i: u64| plus(f(i), g(i)), n) == plus(total(f, n), total(g, n)),
    decreases n,
{
    let h: Psi = |i: u64| plus(f(i), g(i));
    if n > 0 {
        let m = 1u64 << ((n - 1) as u64);
        let (fm, gm, hm): (Psi, Psi, Psi) = (
            |i: u64| f(i ^ m),
            |i: u64| g(i ^ m),
            |i: u64| h(i ^ m),
        );
        let sum: Psi = |i: u64| plus(fm(i), gm(i));
        assert(hm =~= sum);
        lemma_total_sum(f, g, (n - 1) as nat);
        lemma_total_sum(fm, gm, (n - 1) as nat);
    }
}

/// The square of the norm of the part with value 1, twice, is that of the vector less
/// the inner product with Z applied.
proof fn lemma_part_norm(psi: Psi, q: u8, n: nat)
    requires
        q < 64,
    ensures
        ({
            let c = collapsed(psi, q, 1);
            plus(inner(c, c, n), inner(c, c, n)) == plus(
                inner(psi, psi, n),
                turned(2, inner(psi, acts(z_on(q), psi), n)),
            )
        }),
{
    let c = collapsed(psi, q, 1);
    let z = acts(z_on(q), psi);
    let cc: Psi = |i: u64| overlap(c(i), c(i));
    let pp: Psi = |i: u64| overlap(psi(i), psi(i));
    let pz: Psi = |i: u64| overlap(psi(i), z(i));
    let left: Psi = |i: u64| plus(cc(i), cc(i));
    let minus = scaled(2, pz);
    let right: Psi = |i: u64| plus(pp(i), minus(i));
    assert forall|i: u64| #[trigger] left(i) == right(i) by {
        lemma_mask_algebra(i, 0, 0);
        lemma_odd_bit(i, q as u64);
        let a = psi(i);
        let e = sign(bit(i, q as u64));
        assert(z(i) == turned(e, a));
        lemma_overlap_turned(e, a, a);
        lemma_turned(2, e, overlap(a, a), a);
        reveal(turned);
        assert(overlap((0int, 0int), (0int, 0int)) == (0int, 0int));
    }
    assert(left =~= right);
    lemma_total_sum(cc, cc, n);
    lemma_total_sum(pp, minus, n);
    lemma_total_scaled(pz, 2, n);
}

/// The probability that the tableau gives for a measurement is that of the vector:
/// twice the squared norm of the part with value 1 is twice the probability times
/// the squared norm of the vector.
pub proof fn law_probability_is_exact(t: Tableau, q: u8, psi: Psi)
    requires
        t.symplectic(),
        q < t.n,
        describes(t, psi),
    ensures
        t.one_halves(q) == 1 - t.expectation(z_on(q)),
        ({
            let c = collapsed(psi, q, 1);
            plus(inner(c, c, t.n), inner(c, c, t.n)) == multiple(
                t.one_halves(q) as int,
                inner(psi, psi, t.n),
            )
        }),
{
    lemma_single(q, q, t.n);
    lemma_pivot(t, q);
    law_expectation_is_definite(t, z_on(q));
    law_expectation_is_exact(t, z_on(q), psi);
    lemma_part_norm(psi, q, t.n);
    if t.pivot(q) is None {
        law_commuting_operator_has_sign(t, z_on(q));
    }
    let norm = inner(psi, psi, t.n);
    lemma_multiple(norm);
    lemma_turned(2, 2, norm, norm);
    lemma_turned(2, 0, norm, norm);
    reveal(turned);
    assert(multiple(2, norm) == plus(norm, norm));
}

/// A letter on qubit `q` is Hermitian and acts on that qubit only.
proof fn lemma_letter(code: u64, q: u64)
    requires
        q < 32,
    ensures
        letter(code, q).hermitian(),
        letter(code, q).within((q + 1) as nat),
{
    let one = 1u64 << q;
    let k = (q + 1) as u64;
    assert(q < 32 && k == q + 1 && one == 1u64 << q ==> one >> k == 0 && 0u64 >> k == 0)
        by (bit_vector);
    lemma_mask_algebra(one, 0, 0);
    lemma_mask_algebra(0, 0, 0);
    lemma_odd_bit(0, q);
    assert(odd(0) == false);
}

/// The product that a Pauli code spells is an observable: it is Hermitian, and it acts
/// on the first `n` qubits only if all other letters are I.
pub proof fn law_spelled_products_are_observables(code: u64, k: nat, n: nat)
    requires
        k <= 32,
        n < 64,
        forall|q: u64| n <= q < k ==> #[trigger] letter((code >> (2 * q) as u64) & 3, q)
            == identity(),
    ensures
        spelled(code, k).hermitian(),
        spelled(code, k).within(k),
        spelled(code, k).within(n),
    decreases k,
{
    if k == 0 {
        lemma_identity_product(identity());
        lemma_zero_within(0);
        lemma_zero_within(n);
    } else {
        let q = (k - 1) as u64;
        law_spelled_products_are_observables(code, (k - 1) as nat, n);
        let s = spelled(code, (k - 1) as nat);
        let l = letter((code >> (2 * q) as u64) & 3, q);
        lemma_letter((code >> (2 * q) as u64) & 3, q);
        lemma_higher_bits(s.x, s.z, l.x, l.z, q, n as u64);
        assert(!s.anti(l)) by {
            lemma_mask_algebra(s.x, l.z, 0);
            lemma_mask_algebra(s.z, l.x, 0);
            assert(odd(0) == false);
        }
        lemma_hermitian_product(s, l);
        if q >= n {
            assert(l == identity());
            lemma_mask_algebra(s.x, 0, 0);
            lemma_mask_algebra(s.z, 0, 0);
        }
    }
}

proof fn lemma_higher_bits(sx: u64, sz: u64, lx: u64, lz: u64, q: u64, n: u64)
    requires
        q < 32,
        n < 64,
        sx >> q == 0,
        sz >> q == 0,
        lx == 0 || lx == 1u64 << q,
        lz == 0 || lz == 1u64 << q,
    ensures
        sx & lz == 0,
        sz & lx == 0,
        (sx ^ lx) >> ((q + 1) as u64) == 0,
        (sz ^ lz) >> ((q + 1) as u64) == 0,
        q < n && sx >> n == 0 ==> (sx ^ lx) >> n == 0,
        q < n && sz >> n == 0 ==> (sz ^ lz) >> n == 0,
{
    let k = (q + 1) as u64;
    assert(sx & lz == 0 && sz & lx == 0 && (sx ^ lx) >> k == 0 && (sz ^ lz) >> k == 0 && (q < n
        && sx >> n == 0 ==> (sx ^ lx) >> n == 0) && (q < n && sz >> n == 0 ==> (sz ^ lz) >> n
        == 0)) by (bit_vector)
        requires
            q < 32,
            n < 64,
            k == q + 1,
            sx >> q == 0,
            sz >> q == 0,
            lx == 0 || lx == 1u64 << q,
            lz == 0 || lz == 1u64 << q,
    ;
}

/// A measurement in the X basis describes the vector turned by H, collapsed, and
/// turned back.
pub proof fn law_x_measurement_collapses(t: Tableau, q: u8, seed: u64, psi: Psi)
    requires
        t.symplectic(),
        q < t.n,
        describes(t, psi),
    ensures
        ({
            let h = Clifford::H(q);
            let m = t.measured_x(q, seed);
            describes(m.0, transformed(h, collapsed(transformed(h, psi), q, m.2)))
        }),
{
    let h = Clifford::H(q);
    let u = t.conjugated(h);
    law_gates_keep_symplectic(t, h);
    law_gates_follow_the_vector(t, h, psi);
    law_measurement_collapses(u, q, seed, transformed(h, psi));
    law_measurement_keeps_symplectic(u, q, seed);
    let m = u.measured(q, seed);
    law_gates_follow_the_vector(m.0, h, collapsed(transformed(h, psi), q, m.2));
}

/// The vector after the inverse of S, which is S applied three times.
pub open spec fn turned_back(psi: Psi, q: u8) -> Psi {
    let s = Clifford::S(q);
    transformed(s, transformed(s, transformed(s, psi)))
}

/// S after its inverse leaves a vector as it is.
pub proof fn law_turning_back_undoes_s(psi: Psi, q: u8)
    ensures
        transformed(Clifford::S(q), turned_back(psi, q)) =~= psi,
{
    let f = transformed(Clifford::S(q), turned_back(psi, q));
    assert forall|i: u64| #[trigger] f(i) == psi(i) by {
        reveal(turned);
    }
    assert(f =~= psi);
}

/// A measurement in the Y basis describes the vector turned by the inverse of S and
/// by H, collapsed, and turned back by H and S.
pub proof fn law_y_measurement_collapses(t: Tableau, q: u8, seed: u64, psi: Psi)
    requires
        t.symplectic(),
        q < t.n,
        describes(t, psi),
    ensures
        ({
            let (h, s) = (Clifford::H(q), Clifford::S(q));
            let m = t.measured_y(q, seed);
            let there = transformed(h, turned_back(psi, q));
            describes(m.0, transformed(s, transformed(h, collapsed(there, q, m.2))))
        }),
{
    let (h, s) = (Clifford::H(q), Clifford::S(q));
    let a = t.conjugated(s);
    let b = a.conjugated(s);
    let c = b.conjugated(s);
    let pa = transformed(s, psi);
    let pb = transformed(s, pa);
    law_gates_keep_symplectic(t, s);
    law_gates_keep_symplectic(a, s);
    law_gates_keep_symplectic(b, s);
    law_gates_keep_symplectic(c, h);
    law_gates_follow_the_vector(t, s, psi);
    law_gates_follow_the_vector(a, s, pa);
    law_gates_follow_the_vector(b, s, pb);
    law_gates_follow_the_vector(c, h, turned_back(psi, q));
    let there = transformed(h, turned_back(psi, q));
    let u = c.conjugated(h);
    law_measurement_collapses(u, q, seed, there);
    law_measurement_keeps_symplectic(u, q, seed);
    let m = u.measured(q, seed);
    let part = collapsed(there, q, m.2);
    law_gates_follow_the_vector(m.0, h, part);
    law_gates_keep_symplectic(m.0, h);
    law_gates_follow_the_vector(m.0.conjugated(h), s, transformed(h, part));
}

/// The gates that stand for ISWAP exchange two qubits and multiply by `i` where they
/// differ.
pub proof fn law_iswap_exchanges_with_phase(psi: Psi, a: u8, b: u8)
    requires
        a != b,
        a < 64,
        b < 64,
    ensures
        transformed(
            Clifford::S(b),
            transformed(
                Clifford::S(a),
                transformed(Clifford::Cz(a, b), transformed(Clifford::Swap(a, b), psi)),
            ),
        ) =~= (|i: u64|
            turned(
                b2i(bit(i, a as u64) != bit(i, b as u64)),
                psi(swapped(i, a as u64, b as u64)),
            )),
{
    let l = transformed(
        Clifford::S(b),
        transformed(
            Clifford::S(a),
            transformed(Clifford::Cz(a, b), transformed(Clifford::Swap(a, b), psi)),
        ),
    );
    let r: Psi = |i: u64|
        turned(
            b2i(bit(i, a as u64) != bit(i, b as u64)),
            psi(swapped(i, a as u64, b as u64)),
        );
    assert forall|i: u64| #[trigger] l(i) == r(i) by {
        reveal(turned);
    }
    assert(l =~= r);
}

/// A reset describes the collapsed vector, flipped if the qubit had the value 1.
pub proof fn law_reset_follows_the_vector(t: Tableau, q: u8, seed: u64, psi: Psi)
    requires
        t.symplectic(),
        q < t.n,
        describes(t, psi),
    ensures
        ({
            let m = t.cleared(q, seed);
            let c = collapsed(psi, q, m.2);
            describes(
                m.0,
                if m.2 == 1 {
                    transformed(Clifford::X(q), c)
                } else {
                    c
                },
            )
        }),
{
    law_measurement_collapses(t, q, seed, psi);
    law_measurement_keeps_symplectic(t, q, seed);
    let m = t.measured(q, seed);
    if m.2 == 1 {
        law_gates_follow_the_vector(m.0, Clifford::X(q), collapsed(psi, q, m.2));
    }
}

/// Whether only basis states of the first `n` qubits have amplitudes.
pub open spec fn supported(psi: Psi, n: nat) -> bool {
    forall|i: u64| #[trigger] psi(i) != (0int, 0int) ==> i >> (n as u64) == 0
}

proof fn lemma_high_bits(i: u64, a: u64, b: u64, n: u64, c: bool)
    by (bit_vector)
    requires
        a < n,
        b < n,
        n < 64,
    ensures
        (with_bit(i, a, c) >> n == 0) == (i >> n == 0),
        ((i ^ mask(c, a)) >> n == 0) == (i >> n == 0),
        (swapped(i, a, b) >> n == 0) == (i >> n == 0),
{
}

/// Gates on the first `n` qubits keep a vector there.
pub proof fn law_gates_keep_support(g: Clifford, psi: Psi, n: nat)
    requires
        n < 64,
        g.below(n),
        supported(psi, n),
    ensures
        supported(transformed(g, psi), n),
{
    let f = transformed(g, psi);
    let k = n as u64;
    assert forall|i: u64| #[trigger] f(i) != (0int, 0int) implies i >> k == 0 by {
        match g {
            Clifford::H(q) => {
                let b = q as u64;
                lemma_high_bits(i, b, b, k, false);
                lemma_high_bits(i, b, b, k, true);
                let (i0, i1) = (with_bit(i, b, false), with_bit(i, b, true));
                lemma_turned_zero(sign(bit(i, b)), psi(i1));
                assert(psi(i0) != (0int, 0int) || psi(i1) != (0int, 0int));
            },
            Clifford::S(q) => {
                lemma_turned_zero(b2i(bit(i, q as u64)), psi(i));
            },
            Clifford::X(q) => {
                lemma_high_bits(i, q as u64, q as u64, k, true);
                assert(psi(i ^ mask(true, q as u64)) != (0int, 0int));
            },
            Clifford::Z(q) => {
                lemma_turned_zero(sign(bit(i, q as u64)), psi(i));
            },
            Clifford::Cnot(a, b) => {
                let c = a != b && bit(i, a as u64);
                lemma_high_bits(i, b as u64, b as u64, k, c);
                assert(psi(i ^ mask(c, b as u64)) != (0int, 0int));
            },
            Clifford::Cz(a, b) => {
                lemma_turned_zero(sign(bit(i, a as u64) && bit(i, b as u64)), psi(i));
            },
            Clifford::Swap(a, b) => {
                lemma_high_bits(i, a as u64, b as u64, k, false);
                assert(psi(swapped(i, a as u64, b as u64)) != (0int, 0int));
            },
        }
    }
}

/// Whether two basis states agree in the first `k` bits.
pub open spec fn agree(i: u64, j: u64, k: nat) -> bool {
    forall|q: u64| q < k ==> (#[trigger] bit(i, q) == bit(j, q))
}

/// The part of a vector whose basis states agree with `out` in the first `k` bits.
pub open spec fn restricted(psi: Psi, out: u64, k: nat) -> Psi {
    |i: u64|
        if agree(i, out, k) {
            psi(i)
        } else {
            (0int, 0int)
        }
}

proof fn lemma_next_bit(out: u64, k: u64, q: u64)
    requires
        k < 63,
        q <= k,
        out < (1u64 << k),
    ensures
        out + (1u64 << k) < (1u64 << ((k + 1) as u64)),
        (1u64 << ((k + 1) as u64)) == 2 * (1u64 << k),
        bit((out + (1u64 << k)) as u64, q) == (q == k || bit(out, q)),
        !bit(out, k),
{
    let m = (k + 1) as u64;
    let b = 1u64 << k;
    assert(k < 63 && q <= k && out < (1u64 << k) && m == k + 1 && b == 1u64 << k ==> out + b < (1u64
        << m) && (1u64 << m) == 2 * b && (bit((out + b) as u64, q) == (q == k || bit(out, q)))
        && !bit(out, k)) by (bit_vector);
}

proof fn lemma_restricted(psi: Psi, out: u64, k: nat, o: u8)
    requires
        k < 63,
        o <= 1,
        out < (1u64 << (k as u64)),
    ensures
        ({
            let next = (out + if o == 1 {
                (1u64 << (k as u64)) as int
            } else {
                0
            }) as u64;
            collapsed(restricted(psi, out, k), k as u8, o) =~= restricted(
                psi,
                next,
                (k + 1) as nat,
            )
        }),
{
    let b = k as u64;
    let next = (out + if o == 1 {
        (1u64 << b) as int
    } else {
        0
    }) as u64;
    let (l, r) = (
        collapsed(restricted(psi, out, k), k as u8, o),
        restricted(psi, next, (k + 1) as nat),
    );
    assert forall|q: u64| q <= b implies #[trigger] bit(next, q) == if q == b {
        o == 1
    } else {
        bit(out, q)
    } by {
        lemma_next_bit(out, b, q);
    }
    assert forall|i: u64| #[trigger] l(i) == r(i) by {
        if agree(i, next, (k + 1) as nat) {
            assert(bit(i, b) == bit(next, b));
            assert forall|q: u64| q < k implies (#[trigger] bit(i, q) == bit(out, q)) by {
                assert(bit(i, q) == bit(next, q));
            }
        } else if agree(i, out, k) && bit(i, b) == (o == 1) {
            assert forall|q: u64| q < k + 1 implies (#[trigger] bit(i, q) == bit(next, q)) by {
                assert(bit(next, q) == if q == b {
                    o == 1
                } else {
                    bit(out, q)
                });
                if q < b {
                    assert(bit(i, q) == bit(out, q));
                }
            }
        }
    }
    assert(l =~= r);
}

/// After the first `k` qubits were measured, the tableau describes the part of the
/// vector that agrees with the outcomes.
pub proof fn lemma_sampled(t: Tableau, k: nat, seed: u64, psi: Psi)
    requires
        t.symplectic(),
        k <= t.n,
        describes(t, psi),
    ensures
        ({
            let s = t.sampled(k, seed);
            &&& s.0.symplectic()
            &&& s.0.n == t.n
            &&& s.2 < (1u64 << (k as u64))
            &&& pow2(k) == (1u64 << (k as u64))
            &&& describes(s.0, restricted(psi, s.2 as u64, k))
        }),
    decreases k,
{
    assert(1u64 << 0u64 == 1 && pow2(0) == 1) by {
        lemma2_to64();
        vstd::bits::lemma_u64_shl_is_mul(1, 0);
    }
    if k == 0 {
        assert(restricted(psi, 0, 0) =~= psi);
    } else {
        let j = (k - 1) as nat;
        lemma_sampled(t, j, seed, psi);
        let s = t.sampled(j, seed);
        let out = s.2 as u64;
        let phi = restricted(psi, out, j);
        law_measurement_collapses(s.0, j as u8, s.1, phi);
        law_measurement_keeps_symplectic(s.0, j as u8, s.1);
        law_measurement_repeats(s.0, j as u8, s.1, 0);
        let m = s.0.measured(j as u8, s.1);
        lemma_restricted(psi, out, j, m.2);
        lemma_next_bit(out, j as u64, 0);
        lemma_pow2_unfold(k);
    }
}

/// A basis state of `n` qubits that agrees with another on all of them is the same.
pub proof fn lemma_agreeing(i: u64, out: u64, n: nat)
    requires
        n < 64,
        i >> (n as u64) == 0,
        out < (1u64 << (n as u64)),
        agree(i, out, n),
    ensures
        i == out,
{
    let k = n as u64;
    let d = i ^ out;
    assert forall|q: u64| q < 64 implies !bit(d, q) by {
        lemma_bits(i, out, q, q, false);
        if q < k {
            assert(bit(i, q) == bit(out, q));
        } else {
            assert(i >> k == 0 && out < (1u64 << k) && k < 64 && k <= q && q < 64 ==> !bit(i, q)
                && !bit(out, q)) by (bit_vector);
        }
    }
    lemma_no_bits(d);
    lemma_mask_algebra(i, out, 0);
    lemma_mask_algebra(out, 0, 0);
}

/// A sampled basis state has an amplitude: sampling never gives what the vector
/// excludes.
pub proof fn law_samples_are_possible(t: Tableau, seed: u64, psi: Psi)
    requires
        t.symplectic(),
        describes(t, psi),
        supported(psi, t.n),
    ensures
        psi(t.sampled(t.n, seed).2 as u64) != (0int, 0int),
{
    let out = t.sampled(t.n, seed).2 as u64;
    lemma_sampled(t, t.n, seed, psi);
    let phi = restricted(psi, out, t.n);
    let i = choose|i: u64| #[trigger] phi(i) != (0int, 0int);
    assert(agree(i, out, t.n));
    assert(psi(i) != (0int, 0int));
    lemma_agreeing(i, out, t.n);
}

} // verus!
