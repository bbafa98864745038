//! What gates and measurements keep of a stabilizer tableau.
use crate::pauli::{
    bit, identity, law_conjugation_is_multiplicative, law_conjugation_keeps_commutation,
    law_conjugation_keeps_hermitian, law_gates_undo_themselves, lemma_anti_product, lemma_anti_single, lemma_anti_symmetric,
    lemma_basis_changes, lemma_cancel, lemma_commutes_with_all, lemma_conjugation_is_faithful,
    lemma_hermitian_product, lemma_hermitian_square, lemma_identity_product, lemma_masks_restored,
    lemma_single, lemma_within, phase_sum, x_on, z_on, Clifford, Pauli,
};
use crate::stabilizer::Tableau;
use vstd::arithmetic::power2::{lemma_pow2_pos, pow2};
use vstd::prelude::*;

verus! {

impl Tableau {
    /// Whether `p` commutes with every row.
    pub open spec fn commuting(self, p: Pauli) -> bool {
        forall|k: int| 0 <= k < self.rows.len() ==> !p.anti(#[trigger] self.rows[k])
    }

    /// The invariant of a tableau: the rows are Hermitian operators on its
    /// qubits, each row anticommutes with its partner and with no other row, and
    /// only operators without masks commute with all of them.
    pub open spec fn symplectic(self) -> bool {
        &&& self.sized()
        &&& forall|i: int|
            0 <= i < 2 * self.n ==> (#[trigger] self.rows[i]).within(self.n)
                && self.rows[i].hermitian()
        &&& forall|i: int, j: int|
            0 <= i < 2 * self.n && 0 <= j < 2 * self.n ==> (#[trigger] self.rows[i]).anti(
                #[trigger] self.rows[j],
            ) == (i == j + self.n || j == i + self.n)
        &&& forall|p: Pauli|
            p.within(self.n) && #[trigger] self.commuting(p) ==> p.x == 0 && p.z == 0
    }
}

/// Every gate of the tableau engine but `S` undoes itself on a tableau with reduced
/// phases; `S` applied twice is `Z`.
pub proof fn law_tableau_gates_undo_themselves(t: Tableau, g: Clifford)
    requires
        g.below(64),
        t.reduced(),
    ensures
        t.conjugated(g).conjugated(g) == (match g {
            Clifford::S(q) => t.conjugated(Clifford::Z(q)),
            _ => t,
        }),
{
    let there = t.conjugated(g).conjugated(g);
    let back = match g {
        Clifford::S(q) => t.conjugated(Clifford::Z(q)),
        _ => t,
    };
    assert forall|k: int| 0 <= k < t.rows.len() implies there.rows[k] == back.rows[k] by {
        law_gates_undo_themselves(t.rows[k], g);
    }
    assert(there.rows =~= back.rows);
}

/// The all-zero state satisfies the tableau invariant.
pub proof fn law_ground_is_symplectic(n: nat)
    requires
        n <= crate::stabilizer::STAB_MAX_QUBITS,
    ensures
        Tableau::ground(n).symplectic(),
{
    let t = Tableau::ground(n);
    assert forall|i: int| 0 <= i < 2 * n implies (#[trigger] t.rows[i]).within(n)
        && t.rows[i].hermitian() by {
        let a = (if i < n {
            i
        } else {
            i - n
        }) as u8;
        lemma_single(a, a, n);
    }
    assert forall|i: int, j: int| 0 <= i < 2 * n && 0 <= j < 2 * n implies (
    #[trigger] t.rows[i]).anti(#[trigger] t.rows[j]) == (i == j + n || j == i + n) by {
        let a = (if i < n {
            i
        } else {
            i - n
        }) as u8;
        let b = (if j < n {
            j
        } else {
            j - n
        }) as u8;
        lemma_single(a, b, n);
    }
    assert forall|p: Pauli| p.within(n) && #[trigger] t.commuting(p) implies p.x == 0 && p.z
        == 0 by {
        assert forall|q: u8| q < n implies !#[trigger] p.anti(z_on(q)) && !p.anti(x_on(q)) by {
            assert(t.rows[q as int] == x_on(q));
            assert(t.rows[n + q] == z_on(q));
        }
        lemma_commutes_with_all(p, n);
    }
}

/// Gates keep the tableau invariant.
pub proof fn law_gates_keep_symplectic(t: Tableau, g: Clifford)
    requires
        t.symplectic(),
        g.below(t.n),
    ensures
        t.conjugated(g).symplectic(),
{
    let u = t.conjugated(g);
    let n = t.n;
    assert forall|i: int| 0 <= i < 2 * n implies (#[trigger] u.rows[i]).within(n)
        && u.rows[i].hermitian() by {
        lemma_within(t.rows[i], t.rows[i], g, n);
        law_conjugation_keeps_hermitian(t.rows[i], g);
    }
    assert forall|i: int, j: int| 0 <= i < 2 * n && 0 <= j < 2 * n implies (
    #[trigger] u.rows[i]).anti(#[trigger] u.rows[j]) == (i == j + n || j == i + n) by {
        law_conjugation_keeps_commutation(t.rows[i], t.rows[j], g);
    }
    assert forall|p: Pauli| p.within(n) && #[trigger] u.commuting(p) implies p.x == 0 && p.z
        == 0 by {
        let v = p.conjugated(g);
        lemma_within(p, p, g, n);
        lemma_masks_restored(p, g);
        assert forall|k: int| 0 <= k < t.rows.len() implies !v.anti(#[trigger] t.rows[k]) by {
            law_conjugation_keeps_commutation(v, t.rows[k], g);
            assert(!p.anti(u.rows[k]));
        }
        assert(t.commuting(v));
        lemma_conjugation_is_faithful(v, identity(), g);
    }
}

proof fn lemma_projected_row(t: Tableau, q: u8, i: int, o: u8, j: int)
    requires
        t.symplectic(),
        q < t.n,
        t.n <= i < 2 * t.n,
        bit(t.rows[i].x, q as u64),
        o <= 1,
        0 <= j < 2 * t.n,
    ensures
        t.projected(q, i, o).rows[j].within(t.n),
        t.projected(q, i, o).rows[j].hermitian(),
        t.projected(q, i, o).rows[j].anti(z_on(q)) == (j == i - t.n),
{
    let n = t.n;
    let u = t.projected(q, i, o);
    let piv = t.rows[i];
    lemma_single(q, q, n);
    lemma_anti_single(t.rows[j], q);
    lemma_anti_single(piv, q);
    lemma_anti_single(u.rows[j], q);
    if j == i {
        lemma_identity_product(z_on(q));
        lemma_hermitian_square(z_on(q));
        reveal(phase_sum);
    } else if j == i - n {
    } else if bit(t.rows[j].x, q as u64) {
        assert(!t.rows[j].anti(piv));
        lemma_within(t.rows[j], piv, Clifford::X(q), n);
        lemma_hermitian_product(t.rows[j], piv);
        lemma_anti_product(t.rows[j], piv, z_on(q));
    }
}

proof fn lemma_projected_pair(t: Tableau, q: u8, i: int, o: u8, j: int, k: int)
    requires
        t.symplectic(),
        q < t.n,
        t.n <= i < 2 * t.n,
        bit(t.rows[i].x, q as u64),
        o <= 1,
        0 <= j < 2 * t.n,
        0 <= k < 2 * t.n,
    ensures
        t.projected(q, i, o).rows[j].anti(t.projected(q, i, o).rows[k]) == (j == k + t.n || k == j
            + t.n),
{
    let n = t.n;
    let u = t.projected(q, i, o);
    let piv = t.rows[i];
    lemma_projected_row(t, q, i, o, j);
    lemma_projected_row(t, q, i, o, k);
    lemma_anti_symmetric(u.rows[j], u.rows[k]);
    lemma_anti_symmetric(u.rows[j], u.rows[j]);
    if j == k {
    } else if j == i || k == i {
    } else {
        lemma_anti_product(t.rows[j], piv, u.rows[k]);
        lemma_anti_product(t.rows[k], piv, t.rows[j]);
        lemma_anti_product(t.rows[k], piv, piv);
        lemma_anti_symmetric(piv, piv);
        assert(piv.anti(t.rows[k]) == (k == i - n));
        assert(t.rows[j].anti(piv) == (j == i - n));
    }
}

/// A measurement keeps the tableau invariant.
pub proof fn law_measurement_keeps_symplectic(t: Tableau, q: u8, seed: u64)
    requires
        t.symplectic(),
        q < t.n,
    ensures
        t.measured(q, seed).0.symplectic(),
{
    lemma_pivot(t, q);
    if let Some(i) = t.pivot(q) {
        let o = t.measured(q, seed).2;
        lemma_projected_symplectic(t, q, i, o);
    }
}

proof fn lemma_projected_symplectic(t: Tableau, q: u8, i: int, o: u8)
    requires
        t.symplectic(),
        q < t.n,
        t.n <= i < 2 * t.n,
        bit(t.rows[i].x, q as u64),
        o <= 1,
    ensures
        t.projected(q, i, o).symplectic(),
{
    let n = t.n;
    let u = t.projected(q, i, o);
    let piv = t.rows[i];
    assert forall|j: int| 0 <= j < 2 * n implies (#[trigger] u.rows[j]).within(n)
        && u.rows[j].hermitian() by {
        lemma_projected_row(t, q, i, o, j);
    }
    assert forall|j: int, k: int| 0 <= j < 2 * n && 0 <= k < 2 * n implies (
    #[trigger] u.rows[j]).anti(#[trigger] u.rows[k]) == (j == k + n || k == j + n) by {
        lemma_projected_pair(t, q, i, o, j, k);
    }
    assert forall|p: Pauli| p.within(n) && #[trigger] u.commuting(p) implies p.x == 0 && p.z
        == 0 by {
        assert(!p.anti(u.rows[i]));
        assert(!p.anti(u.rows[i - n]));
        lemma_anti_single(p, q);
        lemma_anti_single(piv, q);
        let w = if p.anti(t.rows[i - n]) {
            p.times(piv)
        } else {
            p
        };
        lemma_within(p, piv, Clifford::X(q), n);
        assert forall|k: int| 0 <= k < t.rows.len() implies !w.anti(#[trigger] t.rows[k]) by {
            lemma_anti_product(p, piv, t.rows[k]);
            lemma_anti_product(t.rows[k], piv, p);
            lemma_anti_symmetric(p, t.rows[k]);
            lemma_anti_symmetric(p, piv);
            assert(piv.anti(t.rows[k]) == (k == i - n));
            if k != i && k != i - n {
                assert(!p.anti(u.rows[k]));
                lemma_anti_symmetric(p, u.rows[k]);
            }
        }
        assert(t.commuting(w));
        if p.anti(t.rows[i - n]) {
            lemma_cancel(p, piv);
            assert(p.anti(z_on(q)) == piv.anti(z_on(q)));
        }
    }
}

/// What the pivot search finds.
pub proof fn lemma_pivot(t: Tableau, q: u8)
    requires
        t.sized(),
        q < 64,
    ensures
        t.pivot(q) matches Some(i) ==> t.n <= i < 2 * t.n && bit(t.rows[i].x, q as u64),
        t.pivot(q) is None <==> !t.disturbs(z_on(q)),
{
    lemma_pivot_from(t, q, t.n as int);
    if t.pivot(q) is None {
        assert forall|k: int| t.n <= k < 2 * t.n implies !z_on(q).anti(#[trigger] t.rows[k]) by {
            lemma_anti_single(t.rows[k], q);
            lemma_anti_symmetric(t.rows[k], z_on(q));
        }
    } else {
        let i = t.pivot(q)->0;
        lemma_anti_single(t.rows[i], q);
        lemma_anti_symmetric(t.rows[i], z_on(q));
        assert(z_on(q).anti(t.rows[i]));
    }
}

proof fn lemma_pivot_from(t: Tableau, q: u8, from: int)
    requires
        t.sized(),
        t.n <= from <= 2 * t.n,
    ensures
        t.pivot_from(q, from) matches Some(i) ==> from <= i < 2 * t.n && bit(
            t.rows[i].x,
            q as u64,
        ),
        t.pivot_from(q, from) is None ==> forall|k: int|
            from <= k < 2 * t.n ==> !bit(#[trigger] t.rows[k].x, q as u64),
    decreases 2 * t.n - from,
{
    if from < 2 * t.n && !bit(t.rows[from].x, q as u64) {
        lemma_pivot_from(t, q, from + 1);
    }
}

pub proof fn lemma_decoded(t: Tableau, p: Pauli, k: nat)
    requires
        t.symplectic(),
        k <= t.n,
    ensures
        t.decoded(p, k).within(t.n),
        t.decoded(p, k).hermitian(),
        forall|j: int|
            0 <= j < t.n ==> t.decoded(p, k).anti(#[trigger] t.rows[j]) == (j < k && p.anti(
                t.rows[j],
            )),
        forall|j: int| t.n <= j < 2 * t.n ==> !t.decoded(p, k).anti(#[trigger] t.rows[j]),
    decreases k,
{
    let n = t.n;
    if k == 0 {
        lemma_single(0, 0, 1);
        assert(identity().within(n)) by {
            lemma_zero_within(n);
        }
        lemma_identity_product(identity());
        assert forall|j: int| 0 <= j < 2 * n implies !identity().anti(#[trigger] t.rows[j]) by {
            lemma_identity_product(t.rows[j]);
        }
    } else {
        lemma_decoded(t, p, (k - 1) as nat);
        let a = t.decoded(p, (k - 1) as nat);
        let s = t.rows[n + k - 1];
        if p.anti(t.rows[k - 1]) {
            assert(!a.anti(s));
            lemma_within(a, s, Clifford::X(0), n);
            lemma_hermitian_product(a, s);
            assert forall|j: int| 0 <= j < 2 * n implies a.times(s).anti(#[trigger] t.rows[j]) == (a.anti(
                t.rows[j],
            ) != (j == k - 1)) by {
                lemma_anti_product(a, s, t.rows[j]);
            }
        }
    }
}

/// The identity acts on no qubit.
pub proof fn lemma_zero_within(n: nat)
    ensures
        identity().within(n),
{
    if n < 64 {
        let k = n as u64;
        vstd::bits::lemma_u64_shr_is_div(0, k);
        lemma_pow2_pos(n);
        vstd::arithmetic::div_mod::lemma_div_of0(pow2(n) as int);
    }
}

/// A Hermitian operator on the qubits of the state that commutes with every
/// stabilizer is, up to sign, a product of stabilizers.
pub proof fn law_commuting_operator_has_sign(t: Tableau, p: Pauli)
    requires
        t.symplectic(),
        p.within(t.n),
        p.hermitian(),
        !t.disturbs(p),
    ensures
        t.decoded(p, t.n).same_masks(p),
        t.group_sign(p) is Some,
{
    let d = t.decoded(p, t.n);
    lemma_decoded(t, p, t.n);
    let w = p.times(d);
    lemma_within(p, d, Clifford::X(0), t.n);
    assert forall|k: int| 0 <= k < t.rows.len() implies !w.anti(#[trigger] t.rows[k]) by {
        lemma_anti_product(p, d, t.rows[k]);
        if k >= t.n {
            assert(!p.anti(t.rows[k]));
        }
    }
    assert(t.commuting(w));
    lemma_cancel(p, d);
}

/// The expectation value of a Hermitian operator on the qubits of the state is
/// zero exactly when some stabilizer anticommutes with it, and one or minus one
/// otherwise.
pub proof fn law_expectation_is_definite(t: Tableau, p: Pauli)
    requires
        t.symplectic(),
        p.within(t.n),
        p.hermitian(),
    ensures
        t.disturbs(p) ==> t.expectation(p) == 0,
        !t.disturbs(p) ==> t.expectation(p) == 1 || t.expectation(p) == -1,
{
    if !t.disturbs(p) {
        law_commuting_operator_has_sign(t, p);
    }
}

proof fn lemma_single_stabilizer(t: Tableau, q: u8, i: int, k: nat)
    requires
        t.symplectic(),
        q < t.n,
        t.n <= i < 2 * t.n,
        t.rows[i].same_masks(z_on(q)),
        k <= t.n,
    ensures
        t.decoded(z_on(q), k) == if k <= i - t.n {
            identity()
        } else {
            t.rows[i]
        },
    decreases k,
{
    if k > 0 {
        lemma_single_stabilizer(t, q, i, (k - 1) as nat);
        lemma_anti_symmetric(t.rows[k - 1], z_on(q));
        assert(z_on(q).anti(t.rows[k - 1]) == t.rows[i].anti(t.rows[k - 1]));
        lemma_identity_product(t.rows[i]);
    }
}

/// A measured qubit has a definite value: measuring it again gives the same
/// outcome, changes nothing and draws nothing, and the expectation value of Z is
/// one for outcome 0 and minus one for outcome 1.
pub proof fn law_measurement_repeats(t: Tableau, q: u8, seed: u64, later: u64)
    requires
        t.symplectic(),
        q < t.n,
    ensures
        ({
            let m = t.measured(q, seed);
            &&& m.2 <= 1
            &&& m.0.measured(q, later) == (m.0, later, m.2)
            &&& m.0.expectation(z_on(q)) == 1 - 2 * m.2
        }),
{
    lemma_pivot(t, q);
    lemma_single(q, q, t.n);
    let m = t.measured(q, seed);
    match t.pivot(q) {
        None => {
            law_commuting_operator_has_sign(t, z_on(q));
        },
        Some(i) => {
            let u = m.0;
            lemma_projected_symplectic(t, q, i, m.2);
            assert(u.rows[i].same_masks(z_on(q)));
            lemma_single_stabilizer(u, q, i, u.n);
            lemma_pivot(u, q);
            if u.disturbs(z_on(q)) {
                let k = choose|k: int| u.n <= k < 2 * u.n && z_on(q).anti(#[trigger] u.rows[k]);
                assert(u.rows[i].anti(u.rows[k]) == z_on(q).anti(u.rows[k]));
                assert(false);
            }
        },
    }
}

proof fn lemma_decoded_conjugated(t: Tableau, p: Pauli, g: Clifford, k: nat)
    requires
        t.sized(),
        g.below(64),
        k <= t.n,
    ensures
        t.conjugated(g).decoded(p.conjugated(g), k) == t.decoded(p, k).conjugated(g),
    decreases k,
{
    if k == 0 {
        lemma_conjugation_is_faithful(p, p, g);
    } else {
        lemma_decoded_conjugated(t, p, g, (k - 1) as nat);
        law_conjugation_keeps_commutation(p, t.rows[k - 1], g);
        law_conjugation_is_multiplicative(
            t.decoded(p, (k - 1) as nat),
            t.rows[t.n + k - 1],
            g,
        );
    }
}

/// Applying a gate to the state and to the observable leaves the expectation
/// value as it is.
pub proof fn law_expectation_follows_gates(t: Tableau, p: Pauli, g: Clifford)
    requires
        t.sized(),
        g.below(64),
    ensures
        t.conjugated(g).group_sign(p.conjugated(g)) == t.group_sign(p),
        t.conjugated(g).disturbs(p.conjugated(g)) == t.disturbs(p),
        t.conjugated(g).expectation(p.conjugated(g)) == t.expectation(p),
{
    let u = t.conjugated(g);
    lemma_decoded_conjugated(t, p, g, t.n);
    lemma_conjugation_is_faithful(t.decoded(p, t.n), p, g);
    assert forall|k: int| t.n <= k < 2 * t.n implies p.conjugated(g).anti(#[trigger] u.rows[k])
        == p.anti(t.rows[k]) by {
        law_conjugation_keeps_commutation(p, t.rows[k], g);
    }
    if t.disturbs(p) {
        let k = choose|k: int| t.n <= k < 2 * t.n && p.anti(#[trigger] t.rows[k]);
        assert(p.conjugated(g).anti(u.rows[k]));
    }
    if u.disturbs(p.conjugated(g)) {
        let k = choose|k: int|
            u.n <= k < 2 * u.n && p.conjugated(g).anti(#[trigger] u.rows[k]);
        assert(p.anti(t.rows[k]));
    }
}

/// Y on qubit `q`: `i X Z`.
pub open spec fn y_on(q: u8) -> Pauli {
    Pauli { x: 1u64 << (q as u64), z: 1u64 << (q as u64), r: 1 }
}

/// After an X-basis measurement the expectation value of X is one for outcome 0
/// and minus one for outcome 1; likewise for Y. Both keep the tableau invariant.
pub proof fn law_rotated_measurements(t: Tableau, q: u8, seed: u64)
    requires
        t.symplectic(),
        q < t.n,
    ensures
        t.measured_x(q, seed).0.symplectic(),
        t.measured_x(q, seed).0.expectation(x_on(q)) == 1 - 2 * t.measured_x(q, seed).2,
        t.measured_y(q, seed).0.symplectic(),
        t.measured_y(q, seed).0.expectation(y_on(q)) == 1 - 2 * t.measured_y(q, seed).2,
{
    let (h, s) = (Clifford::H(q), Clifford::S(q));
    lemma_basis_changes(q);
    let a = t.conjugated(h);
    law_gates_keep_symplectic(t, h);
    law_measurement_repeats(a, q, seed, seed);
    law_measurement_keeps_symplectic(a, q, seed);
    law_gates_keep_symplectic(a.measured(q, seed).0, h);
    law_expectation_follows_gates(a.measured(q, seed).0, z_on(q), h);
    law_gates_keep_symplectic(t, s);
    law_gates_keep_symplectic(t.conjugated(s), s);
    law_gates_keep_symplectic(t.conjugated(s).conjugated(s), s);
    let b = t.conjugated_sdg(q).conjugated(h);
    law_gates_keep_symplectic(t.conjugated_sdg(q), h);
    law_measurement_repeats(b, q, seed, seed);
    law_measurement_keeps_symplectic(b, q, seed);
    let c = b.measured(q, seed).0;
    law_gates_keep_symplectic(c, h);
    law_gates_keep_symplectic(c.conjugated(h), s);
    law_expectation_follows_gates(c, z_on(q), h);
    law_expectation_follows_gates(c.conjugated(h), x_on(q), s);
}

/// A reset leaves the qubit in state zero: measuring it gives 0 without a draw.
/// The reset keeps the tableau invariant.
pub proof fn law_reset_clears(t: Tableau, q: u8, seed: u64, later: u64)
    requires
        t.symplectic(),
        q < t.n,
    ensures
        t.cleared(q, seed).0.symplectic(),
        t.cleared(q, seed).0.measured(q, later) == (t.cleared(q, seed).0, later, 0u8),
{
    let m = t.measured(q, seed);
    law_measurement_keeps_symplectic(t, q, seed);
    law_measurement_repeats(t, q, seed, later);
    if m.2 == 1 {
        let u = m.0.conjugated(Clifford::X(q));
        let neg = Pauli { x: 0, z: 1u64 << (q as u64), r: 2 };
        law_gates_keep_symplectic(m.0, Clifford::X(q));
        lemma_basis_changes(q);
        lemma_pivot(m.0, q);
        lemma_pivot(u, q);
        law_expectation_follows_gates(m.0, z_on(q), Clifford::X(q));
        assert(u.disturbs(neg) == u.disturbs(z_on(q))) by {
            assert forall|k: int| u.n <= k < 2 * u.n implies neg.anti(#[trigger] u.rows[k])
                == z_on(q).anti(u.rows[k]) by {}
            if u.disturbs(neg) {
                let k = choose|k: int| u.n <= k < 2 * u.n && neg.anti(#[trigger] u.rows[k]);
                assert(z_on(q).anti(u.rows[k]));
            }
            if u.disturbs(z_on(q)) {
                let k = choose|k: int| u.n <= k < 2 * u.n && z_on(q).anti(#[trigger] u.rows[k]);
                assert(neg.anti(u.rows[k]));
            }
        }
        lemma_decoded_masks(u, neg, z_on(q), u.n);
        lemma_single(q, q, t.n);
        law_commuting_operator_has_sign(u, z_on(q));
    }
}

proof fn lemma_decoded_masks(t: Tableau, p: Pauli, s: Pauli, k: nat)
    requires
        p.same_masks(s),
    ensures
        t.decoded(p, k) == t.decoded(s, k),
    decreases k,
{
    if k > 0 {
        lemma_decoded_masks(t, p, s, (k - 1) as nat);
    }
}

/// Drawing a basis state keeps the tableau invariant.
pub proof fn law_sampling_keeps_symplectic(t: Tableau, k: nat, seed: u64)
    requires
        t.symplectic(),
        k <= t.n,
    ensures
        t.sampled(k, seed).0.symplectic(),
        t.sampled(k, seed).0.n == t.n,
    decreases k,
{
    if k > 0 {
        law_sampling_keeps_symplectic(t, (k - 1) as nat, seed);
        let s = t.sampled((k - 1) as nat, seed);
        law_measurement_keeps_symplectic(s.0, (k - 1) as u8, s.1);
    }
}

} // verus!
