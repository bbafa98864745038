//! What a sample leaves behind: every qubit has the sampled value.
use crate::clifford_laws::law_samples_fit;
use crate::pauli::{
    identity, lemma_anti_product, lemma_hermitian_square, lemma_identity_product,
    lemma_mask_algebra, lemma_odd_xor, lemma_single, phase_sum, z_on, Pauli,
};
use crate::stabilizer::Tableau;
use crate::tableau::{
    law_commuting_operator_has_sign, law_measurement_keeps_symplectic, law_measurement_repeats,
    law_sampling_keeps_symplectic, lemma_decoded, lemma_pivot,
};
use crate::vectors::lemma_xor_assoc;
use vstd::arithmetic::div_mod::{
    lemma_fundamental_div_mod_converse, lemma_hoist_over_denominator, lemma_mod_breakdown,
    lemma_small_mod,
};
use vstd::arithmetic::power2::{lemma2_to64, lemma_pow2_adds, lemma_pow2_pos, lemma_pow2_unfold, pow2};
use vstd::prelude::*;

verus! {

proof fn lemma_times_assoc(p: Pauli, s: Pauli, t: Pauli)
    ensures
        p.times(s).times(t) == p.times(s.times(t)),
{
    reveal(phase_sum);
    lemma_xor_assoc(p.x, s.x, t.x);
    lemma_xor_assoc(p.z, s.z, t.z);
    lemma_mask_algebra(p.z, s.z, t.x);
    lemma_odd_xor(p.z & t.x, s.z & t.x);
    lemma_mask_algebra(s.x, t.x, p.z);
    lemma_odd_xor(p.z & s.x, p.z & t.x);
}

proof fn lemma_times_commute(p: Pauli, s: Pauli)
    requires
        !p.anti(s),
    ensures
        p.times(s) == s.times(p),
{
    reveal(phase_sum);
    lemma_mask_algebra(p.x, s.x, 0);
    lemma_mask_algebra(p.z, s.z, 0);
    lemma_mask_algebra(p.x, s.z, 0);
    lemma_mask_algebra(s.x, p.z, 0);
}

/// Decoding depends on the masks only.
proof fn lemma_decoded_by_masks(t: Tableau, p: Pauli, s: Pauli, k: nat)
    requires
        p.same_masks(s),
    ensures
        t.decoded(p, k) == t.decoded(s, k),
    decreases k,
{
    if k > 0 {
        lemma_decoded_by_masks(t, p, s, (k - 1) as nat);
    }
}

/// Decoding a product gives the product of what is decoded.
proof fn lemma_decoded_product(t: Tableau, p: Pauli, s: Pauli, k: nat)
    requires
        t.symplectic(),
        k <= t.n,
    ensures
        t.decoded(p.times(s), k) == t.decoded(p, k).times(t.decoded(s, k)),
    decreases k,
{
    if k == 0 {
        lemma_identity_product(identity());
    } else {
        let j = (k - 1) as nat;
        lemma_decoded_product(t, p, s, j);
        lemma_decoded(t, p, j);
        lemma_decoded(t, s, j);
        let (a, b) = (t.decoded(p, j), t.decoded(s, j));
        let row = t.rows[(t.n + j) as int];
        lemma_anti_product(p, s, t.rows[j as int]);
        assert(!a.anti(row) && !b.anti(row));
        lemma_times_commute(b, row);
        let (pa, sa) = (p.anti(t.rows[j as int]), s.anti(t.rows[j as int]));
        if pa && sa {
            // (a row)(b row) = a (row (row b)) = a b
            lemma_times_assoc(a, row, b.times(row));
            lemma_times_assoc(row, row, b);
            lemma_hermitian_square(row);
            lemma_identity_product(b);
        } else if pa {
            lemma_times_assoc(a, b, row);
            lemma_times_assoc(a, row, b);
        } else if sa {
            lemma_times_assoc(a, b, row);
        }
    }
}

/// Whether an operator is, with its sign, a product of stabilizers.
spec fn in_group(t: Tableau, p: Pauli) -> bool {
    t.decoded(p, t.n) == p
}

proof fn lemma_product_in_group(t: Tableau, p: Pauli, s: Pauli)
    requires
        t.symplectic(),
        in_group(t, p),
        in_group(t, s),
    ensures
        in_group(t, p.times(s)),
{
    lemma_decoded_product(t, p, s, t.n);
}

proof fn lemma_identity_decoded(t: Tableau, k: nat)
    requires
        t.symplectic(),
        k <= t.n,
    ensures
        t.decoded(identity(), k) == identity(),
    decreases k,
{
    if k > 0 {
        lemma_identity_decoded(t, (k - 1) as nat);
        lemma_identity_product(t.rows[k - 1]);
    }
}

proof fn lemma_stabilizer_decoded(t: Tableau, i: int, k: nat)
    requires
        t.symplectic(),
        t.n <= i < 2 * t.n,
        k <= t.n,
    ensures
        t.decoded(t.rows[i], k) == if k <= i - t.n {
            identity()
        } else {
            t.rows[i]
        },
    decreases k,
{
    if k > 0 {
        lemma_stabilizer_decoded(t, i, (k - 1) as nat);
        assert(t.rows[i].anti(t.rows[k - 1]) == (i == k - 1 + t.n));
        lemma_identity_product(t.rows[i]);
    }
}

/// A factor of what is decoded after a measurement was a product of stabilizers before.
proof fn lemma_decoded_stays_in_group(t: Tableau, p: u8, i: int, o: u8, q: u8, k: nat)
    requires
        t.symplectic(),
        p < t.n,
        q < t.n,
        t.n <= i < 2 * t.n,
        !t.disturbs(z_on(q)),
        k <= t.n,
    ensures
        in_group(t, t.projected(p, i, o).decoded(z_on(q), k)),
    decreases k,
{
    let u = t.projected(p, i, o);
    let n = t.n;
    if k == 0 {
        lemma_identity_decoded(t, n);
    } else {
        lemma_decoded_stays_in_group(t, p, i, o, q, (k - 1) as nat);
        let j = k - 1;
        if j == i - n {
            assert(u.rows[j] == t.rows[i]);
            assert(!z_on(q).anti(t.rows[i]));
        } else {
            let row = t.rows[n + j];
            lemma_stabilizer_decoded(t, n + j, n);
            lemma_stabilizer_decoded(t, i, n);
            lemma_product_in_group(t, row, t.rows[i]);
            assert(u.rows[n + j] == row || u.rows[n + j] == row.times(t.rows[i]));
            lemma_product_in_group(t, u.decoded(z_on(q), (k - 1) as nat), u.rows[n + j]);
        }
    }
}

/// Whether a qubit has a value: measuring it gives `o`, changes nothing and draws
/// nothing.
pub open spec fn has_value(t: Tableau, q: u8, o: u8) -> bool {
    t.pivot(q) is None && t.fixed_outcome(q) == o
}

/// Measuring one qubit leaves the value of another as it is.
pub proof fn law_measurements_keep_values(t: Tableau, p: u8, q: u8, o: u8, seed: u64)
    requires
        t.symplectic(),
        p < t.n,
        q < t.n,
        has_value(t, q, o),
    ensures
        has_value(t.measured(p, seed).0, q, o),
{
    let m = t.measured(p, seed);
    lemma_pivot(t, p);
    lemma_pivot(t, q);
    law_measurement_keeps_symplectic(t, p, seed);
    if let Some(i) = t.pivot(p) {
        let u = m.0;
        let z = z_on(q);
        lemma_single(q, p, t.n);
        lemma_single(q, q, t.n);
        assert forall|k: int| u.n <= k < 2 * u.n implies !z.anti(#[trigger] u.rows[k]) by {
            assert(!z.anti(t.rows[k]) && !z.anti(t.rows[i]));
            lemma_anti_product(t.rows[k], t.rows[i], z);
            if k == i {
                assert(u.rows[k].same_masks(z_on(p)));
                assert(!z.anti(z_on(p)));
            }
        }
        assert(!u.disturbs(z));
        lemma_pivot(u, q);
        law_commuting_operator_has_sign(u, z);
        lemma_decoded_stays_in_group(t, p, i, m.2, q, t.n);
        lemma_decoded_by_masks(t, u.decoded(z, u.n), z, t.n);
        assert(u.decoded(z, u.n) == t.decoded(z, t.n));
    }
}

/// A measured qubit has the value that was measured.
pub proof fn law_measured_qubit_has_value(t: Tableau, q: u8, seed: u64)
    requires
        t.symplectic(),
        q < t.n,
    ensures
        has_value(t.measured(q, seed).0, q, t.measured(q, seed).2),
        t.measured(q, seed).2 <= 1,
{
    let m = t.measured(q, seed);
    law_measurement_repeats(t, q, seed, seed);
    law_measurement_keeps_symplectic(t, q, seed);
    lemma_pivot(m.0, q);
    assert(m.0.expectation(z_on(q)) != 0);
    assert(!m.0.disturbs(z_on(q)));
    assert(m.0.measured(q, seed) == (m.0, seed, m.0.fixed_outcome(q)));
}

/// The value of qubit `q` in a basis index.
pub open spec fn value_in(index: nat, q: nat) -> u8 {
    ((index / pow2(q)) % 2) as u8
}

proof fn lemma_values(low: nat, k: nat, o: u8, q: nat)
    requires
        low < pow2(k),
        q <= k,
        o <= 1,
    ensures
        value_in(
            low + if o == 1 {
                pow2(k)
            } else {
                0
            },
            q,
        ) == if q == k {
            o
        } else {
            value_in(low, q)
        },
{
    lemma_pow2_pos(q);
    let d = pow2(q) as int;
    if o == 1 {
        lemma_pow2_adds(q, (k - q) as nat);
        let c = pow2((k - q) as nat) as int;
        assert(pow2(k) == c * d) by (nonlinear_arith)
            requires
                pow2(k) == d * c,
        ;
        lemma_hoist_over_denominator(low as int, c, d as nat);
        if q < k {
            lemma_pow2_unfold((k - q) as nat);
        } else {
            lemma2_to64();
            lemma_fundamental_div_mod_converse(low as int, d, 0, low as int);
        }
    } else if q == k {
        lemma_fundamental_div_mod_converse(low as int, d, 0, low as int);
    }
}

/// After a sample of the first `k` qubits each of them has the value that stands in the
/// index.
pub proof fn law_sampled_qubits_have_values(t: Tableau, k: nat, seed: u64, q: u8)
    requires
        t.symplectic(),
        q < k <= t.n,
    ensures
        has_value(t.sampled(k, seed).0, q, value_in(t.sampled(k, seed).2, q as nat)),
    decreases k,
{
    let j = (k - 1) as nat;
    let s = t.sampled(j, seed);
    law_sampling_keeps_symplectic(t, j, seed);
    law_samples_fit(t, j, seed);
    let m = s.0.measured(j as u8, s.1);
    law_measured_qubit_has_value(s.0, j as u8, s.1);
    lemma_values(s.2, j, m.2, q as nat);
    if q < j {
        law_sampled_qubits_have_values(t, j, seed, q);
        law_measurements_keep_values(s.0, j as u8, q, value_in(s.2, q as nat), s.1);
    }
}

proof fn lemma_resampled(u: Tableau, k: nat, later: u64, index: nat)
    requires
        k <= u.n <= 28,
        forall|q: u8| q < k ==> #[trigger] has_value(u, q, value_in(index, q as nat)),
    ensures
        u.sampled(k, later) == (u, later, (index % pow2(k)) as nat),
    decreases k,
{
    lemma2_to64();
    if k > 0 {
        let j = (k - 1) as nat;
        lemma_resampled(u, j, later, index);
        assert(has_value(u, j as u8, value_in(index, j)));
        lemma_pow2_pos(j);
        lemma_pow2_unfold(k);
        lemma_mod_breakdown(index as int, pow2(j) as int, 2);
        let v = (index / pow2(j)) % 2;
        assert(pow2(j) as int * v == if v == 1 {
            pow2(j) as int
        } else {
            0
        }) by (nonlinear_arith)
            requires
                v == 0 || v == 1,
        ;
        assert(pow2(k) == pow2(j) * 2);
    }
}

/// A second sample gives the same index, changes nothing and draws nothing.
pub proof fn law_samples_repeat(t: Tableau, seed: u64, later: u64)
    requires
        t.symplectic(),
    ensures
        ({
            let s = t.sampled(t.n, seed);
            s.0.sampled(s.0.n, later) == (s.0, later, s.2)
        }),
{
    let s = t.sampled(t.n, seed);
    law_sampling_keeps_symplectic(t, t.n, seed);
    law_samples_fit(t, t.n, seed);
    assert forall|q: u8| q < t.n implies #[trigger] has_value(s.0, q, value_in(s.2, q as nat)) by {
        law_sampled_qubits_have_values(t, t.n, seed, q);
    }
    lemma_resampled(s.0, t.n, later, s.2);
    lemma_small_mod(s.2, pow2(t.n));
}

} // verus!
