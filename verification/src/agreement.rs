//! The moves of amplitudes in a state vector are the gates that the tableau engine
//! conjugates by.
use crate::amplitudes::{
    law_controlled_exchange, law_controlled_flip, lemma_bit, lemma_flip_back, lemma_flip_inside,
    moved, register,
};
use crate::pauli::{bit, lemma_mask_algebra, swapped, Clifford};
use crate::vectors::{transformed, Psi};
use vstd::prelude::*;

verus! {

/// The vector with the given amplitudes, and none outside.
pub open spec fn vector_of(s: Seq<(int, int)>) -> Psi {
    |i: u64|
        if i < s.len() {
            s[i as int]
        } else {
            (0int, 0int)
        }
}

proof fn lemma_masked_bits(i: u64, p: u64, q: u64)
    by (bit_vector)
    requires
        p < 64,
        q < 64,
    ensures
        (i & (1u64 << p) == (1u64 << p)) == bit(i, p),
        (i & (1u64 << p) == 0) == !bit(i, p),
        p != q ==> (1u64 << p) & (1u64 << q) == 0,
        0u64 & ((1u64 << p) | (1u64 << q)) == 0,
        i & 0 == 0,
        0u64 | (1u64 << p) == (1u64 << p),
        swapped(i, p, q) == if bit(i, p) != bit(i, q) {
            i ^ ((1u64 << p) ^ (1u64 << q))
        } else {
            i
        },
{
}

proof fn lemma_inside_both_ways(i: u64, f: u64, k: u8)
    requires
        k < 64,
        f < (1u64 << (k as u64)),
    ensures
        (i ^ f) < (1u64 << (k as u64)) <==> i < (1u64 << (k as u64)),
{
    lemma_flip_back(i, f);
    if i < (1u64 << (k as u64)) {
        lemma_flip_inside(i, f, k as u64);
    }
    if (i ^ f) < (1u64 << (k as u64)) {
        lemma_flip_inside(i ^ f, f, k as u64);
    }
}

/// Flipping a qubit moves amplitudes as X does.
pub proof fn law_flips_are_x(s: Seq<(int, int)>, k: u8, q: u8)
    requires
        register(s.len(), k),
        q < k,
    ensures
        ({
            let b = crate::amplitudes::bit(q);
            vector_of(moved(s, 0, b, b)) =~= transformed(Clifford::X(q), vector_of(s))
        }),
{
    let b = crate::amplitudes::bit(q);
    lemma_bit(q, k);
    lemma_masked_bits(b, q as u64, q as u64);
    law_controlled_flip(s, k, 0, q);
    lemma_mask_algebra(b, 0, 0);
    let (l, r) = (vector_of(moved(s, 0, b, b)), transformed(Clifford::X(q), vector_of(s)));
    assert forall|i: u64| #[trigger] l(i) == r(i) by {
        lemma_masked_bits(i, q as u64, q as u64);
        lemma_inside_both_ways(i, b, k);
    }
    assert(l =~= r);
}

/// A flip under one control moves amplitudes as CNOT does, also where the
/// control is the target.
pub proof fn law_controlled_flips_are_cnot(s: Seq<(int, int)>, k: u8, c: u8, t: u8)
    requires
        register(s.len(), k),
        c < k,
        t < k,
    ensures
        ({
            let (on, b) = (crate::amplitudes::bit(c), crate::amplitudes::bit(t));
            vector_of(moved(s, on, b, b)) =~= transformed(Clifford::Cnot(c, t), vector_of(s))
        }),
{
    let (on, b) = (crate::amplitudes::bit(c), crate::amplitudes::bit(t));
    lemma_bit(c, k);
    lemma_bit(t, k);
    lemma_masked_bits(on, c as u64, t as u64);
    lemma_mask_algebra(on, b, 0);
    law_controlled_flip(s, k, on, t);
    let (l, r) = (
        vector_of(moved(s, on, b, b)),
        transformed(Clifford::Cnot(c, t), vector_of(s)),
    );
    assert forall|i: u64| #[trigger] l(i) == r(i) by {
        lemma_masked_bits(i, c as u64, t as u64);
        lemma_inside_both_ways(i, b, k);
        lemma_mask_algebra(i, 0, 0);
    }
    assert(l =~= r);
}

/// An exchange of two qubits moves amplitudes as SWAP does.
pub proof fn law_exchanges_are_swap(s: Seq<(int, int)>, k: u8, p: u8, q: u8)
    requires
        register(s.len(), k),
        p < k,
        q < k,
    ensures
        ({
            let (a, b) = (crate::amplitudes::bit(p), crate::amplitudes::bit(q));
            vector_of(moved(s, 0 | a, b, a ^ b)) =~= transformed(
                Clifford::Swap(p, q),
                vector_of(s),
            )
        }),
{
    let (a, b) = (crate::amplitudes::bit(p), crate::amplitudes::bit(q));
    lemma_bit(p, k);
    lemma_bit(q, k);
    lemma_masked_bits(a, p as u64, q as u64);
    lemma_flip_inside(a, b, k as u64);
    law_controlled_exchange(s, k, 0, p, q);
    let (l, r) = (
        vector_of(moved(s, 0 | a, b, a ^ b)),
        transformed(Clifford::Swap(p, q), vector_of(s)),
    );
    assert forall|i: u64| #[trigger] l(i) == r(i) by {
        lemma_masked_bits(i, p as u64, q as u64);
        lemma_masked_bits(i, q as u64, p as u64);
        lemma_inside_both_ways(i, a ^ b, k);
    }
    assert(l =~= r);
}

} // verus!
