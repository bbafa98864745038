//! What Pauli operators and Clifford gates do to state vectors. Amplitudes are
//! Gaussian integers: vectors are not normalised, and a Hadamard gate stands here
//! without its factor of one over the square root of two.
use crate::pauli::{
    b2i, bit, lemma_bits, lemma_mask_algebra, lemma_odd_bit, lemma_odd_xor, lemma_swap_masks, mask, odd,
    phase_sum, swapped, with_bit, Clifford, Pauli,
};
use vstd::prelude::*;

verus! {

/// A state vector: the amplitude, as real and imaginary part, of each basis state.
pub type Psi = spec_fn(u64) -> (int, int);

/// The sum of two amplitudes.
pub open spec fn plus(a: (int, int), b: (int, int)) -> (int, int) {
    (a.0 + b.0, a.1 + b.1)
}

/// An amplitude times `i^k`.
#[verifier::opaque]
pub open spec fn turned(k: int, a: (int, int)) -> (int, int) {
    if k % 4 == 0 {
        a
    } else if k % 4 == 1 {
        (-a.1, a.0)
    } else if k % 4 == 2 {
        (-a.0, -a.1)
    } else {
        (a.1, -a.0)
    }
}

/// `-1` for true, `1` for false, as a power of `i`.
pub open spec fn sign(b: bool) -> int {
    2 * b2i(b)
}

/// The operator applied to a vector: `Z` factors give signs, `X` factors flip bits.
pub open spec fn acts(p: Pauli, psi: Psi) -> Psi {
    |i: u64| turned(p.r + sign(odd((i ^ p.x) & p.z)), psi(i ^ p.x))
}

/// A gate applied to a vector.
pub open spec fn transformed(g: Clifford, psi: Psi) -> Psi {
    match g {
        Clifford::H(q) => |i: u64|
            plus(
                psi(with_bit(i, q as u64, false)),
                turned(sign(bit(i, q as u64)), psi(with_bit(i, q as u64, true))),
            ),
        Clifford::S(q) => |i: u64| turned(b2i(bit(i, q as u64)), psi(i)),
        Clifford::X(q) => |i: u64| psi(i ^ (1u64 << (q as u64))),
        Clifford::Z(q) => |i: u64| turned(sign(bit(i, q as u64)), psi(i)),
        Clifford::Cnot(c, t) => |i: u64| psi(i ^ mask(c != t && bit(i, c as u64), t as u64)),
        Clifford::Cz(a, b) => |i: u64|
            turned(sign(bit(i, a as u64) && bit(i, b as u64)), psi(i)),
        Clifford::Swap(a, b) => |i: u64| psi(swapped(i, a as u64, b as u64)),
    }
}

pub proof fn lemma_turned(j: int, k: int, a: (int, int), b: (int, int))
    ensures
        turned(j, turned(k, a)) == turned(j + k, a),
        turned(j, plus(a, b)) == plus(turned(j, a), turned(j, b)),
        plus(a, b) == plus(b, a),
        (j - k) % 4 == 0 ==> turned(j, a) == turned(k, a),
{
    reveal(turned);
}

/// The parity of a masked vector after bit `t` was flipped, if `b`.
proof fn lemma_flipped_parity(v: u64, z: u64, t: u64, b: bool)
    requires
        t < 64,
    ensures
        odd((v ^ mask(b, t)) & z) == (odd(v & z) != (b && bit(z, t))),
        odd(v & (z ^ mask(b, t))) == (odd(v & z) != (b && bit(v, t))),
{
    let m = mask(b, t);
    lemma_mask_algebra(v, m, z);
    lemma_odd_xor(v & z, m & z);
    lemma_mask_algebra(z, m, v);
    lemma_mask_algebra(v, z, 0);
    lemma_odd_xor(v & z, v & m);
    lemma_odd_bit(z, t);
    lemma_odd_bit(v, t);
    lemma_mask_algebra(z, m, 0);
    lemma_mask_algebra(v, m, 0);
    lemma_mask_algebra(z, v, 0);
    assert(odd(0u64) == false);
}

proof fn lemma_conjugation_s(p: Pauli, q: u8, psi: Psi)
    requires
        q < 64,
    ensures
        transformed(Clifford::S(q), acts(p, psi)) =~= acts(
            p.conjugated(Clifford::S(q)),
            transformed(Clifford::S(q), psi),
        ),
{
    reveal(phase_sum);
    let g = Clifford::S(q);
    let c = p.conjugated(g);
    let k = q as u64;
    let (l, r) = (transformed(g, acts(p, psi)), acts(c, transformed(g, psi)));
    assert forall|i: u64| #[trigger] l(i) == r(i) by {
        let j = i ^ p.x;
        lemma_bits(i, p.x, k, k, false);
        lemma_flipped_parity(j, p.z, k, bit(p.x, k));
        let a = psi(j);
        lemma_turned(b2i(bit(i, k)), p.r + sign(odd(j & p.z)), a, a);
        lemma_turned(c.r + sign(odd(j & c.z)), b2i(bit(j, k)), a, a);
        lemma_turned(
            b2i(bit(i, k)) + p.r + sign(odd(j & p.z)),
            c.r + sign(odd(j & c.z)) + b2i(bit(j, k)),
            a,
            a,
        );
    }
    assert(l =~= r);
}

proof fn lemma_conjugation_x(p: Pauli, q: u8, psi: Psi)
    requires
        q < 64,
    ensures
        transformed(Clifford::X(q), acts(p, psi)) =~= acts(
            p.conjugated(Clifford::X(q)),
            transformed(Clifford::X(q), psi),
        ),
{
    reveal(phase_sum);
    let g = Clifford::X(q);
    let c = p.conjugated(g);
    let k = q as u64;
    let (l, r) = (transformed(g, acts(p, psi)), acts(c, transformed(g, psi)));
    assert forall|i: u64| #[trigger] l(i) == r(i) by {
        let j = i ^ p.x;
        lemma_bits(i, p.x, k, k, true);
        lemma_flipped_parity(j, p.z, k, true);
        let a = psi(j ^ mask(true, k));
        lemma_turned(
            p.r + sign(odd((j ^ mask(true, k)) & p.z)),
            c.r + sign(odd(j & c.z)),
            a,
            a,
        );
    }
    assert(l =~= r);
}

proof fn lemma_conjugation_z(p: Pauli, q: u8, psi: Psi)
    requires
        q < 64,
    ensures
        transformed(Clifford::Z(q), acts(p, psi)) =~= acts(
            p.conjugated(Clifford::Z(q)),
            transformed(Clifford::Z(q), psi),
        ),
{
    reveal(phase_sum);
    let g = Clifford::Z(q);
    let c = p.conjugated(g);
    let k = q as u64;
    let (l, r) = (transformed(g, acts(p, psi)), acts(c, transformed(g, psi)));
    assert forall|i: u64| #[trigger] l(i) == r(i) by {
        let j = i ^ p.x;
        lemma_bits(i, p.x, k, k, false);
        let a = psi(j);
        let s = sign(odd(j & p.z));
        lemma_turned(sign(bit(i, k)), p.r + s, a, a);
        lemma_turned(c.r + s, sign(bit(j, k)), a, a);
        lemma_turned(sign(bit(i, k)) + p.r + s, c.r + s + sign(bit(j, k)), a, a);
    }
    assert(l =~= r);
}

proof fn lemma_conjugation_cnot(p: Pauli, a: u8, b: u8, psi: Psi)
    requires
        a < 64,
        b < 64,
    ensures
        transformed(Clifford::Cnot(a, b), acts(p, psi)) =~= acts(
            p.conjugated(Clifford::Cnot(a, b)),
            transformed(Clifford::Cnot(a, b), psi),
        ),
{
    reveal(phase_sum);
    let g = Clifford::Cnot(a, b);
    let n = p.conjugated(g);
    let (c, t) = (a as u64, b as u64);
    let (l, r) = (transformed(g, acts(p, psi)), acts(n, transformed(g, psi)));
    assert forall|i: u64| #[trigger] l(i) == r(i) by {
        if a == b {
            lemma_mask_algebra(i, 0, 0);
            lemma_mask_algebra(i ^ p.x, 0, 0);
            let v = psi(i ^ p.x);
            let s = sign(odd((i ^ p.x) & p.z));
            lemma_turned(p.r + s, n.r + s, v, v);
        } else {
            let ic = bit(i, c);
            let xc = bit(p.x, c);
            let zt = bit(p.z, t);
            let w = i ^ n.x;
            lemma_bits(i, p.x, c, t, ic);
            lemma_bits(i, p.x, c, t, xc);
            lemma_bits(p.x, 0, c, t, xc);
            lemma_bits(i, n.x, c, t, false);
            // Both sides read the amplitude of one and the same basis state.
            let from = (i ^ mask(ic, t)) ^ p.x;
            assert(bit(n.x, c) == xc);
            assert(from == w ^ mask(bit(w, c), t));
            // Signs.
            lemma_flipped_parity(i ^ p.x, p.z, t, ic);
            lemma_mask_algebra(i, p.x, mask(xc, t));
            assert(w == (i ^ p.x) ^ mask(xc, t)) by {
                lemma_bits(p.x, i, c, t, xc);
                lemma_mask_algebra(p.x, i, 0);
                lemma_mask_algebra(p.x ^ mask(xc, t), i, 0);
            }
            lemma_flipped_parity(i ^ p.x, p.z, t, xc);
            lemma_flipped_parity(w, p.z, c, zt);
            let v = psi(from);
            lemma_turned(
                p.r + sign(odd(from & p.z)),
                n.r + sign(odd(w & n.z)),
                v,
                v,
            );
        }
    }
    assert(l =~= r);
}

proof fn lemma_conjugation_cz(p: Pauli, a: u8, b: u8, psi: Psi)
    requires
        a < 64,
        b < 64,
    ensures
        transformed(Clifford::Cz(a, b), acts(p, psi)) =~= acts(
            p.conjugated(Clifford::Cz(a, b)),
            transformed(Clifford::Cz(a, b), psi),
        ),
{
    reveal(phase_sum);
    let g = Clifford::Cz(a, b);
    let c = p.conjugated(g);
    let (u, v) = (a as u64, b as u64);
    let (l, r) = (transformed(g, acts(p, psi)), acts(c, transformed(g, psi)));
    assert forall|i: u64| #[trigger] l(i) == r(i) by {
        let j = i ^ p.x;
        lemma_bits(i, p.x, u, u, false);
        lemma_bits(i, p.x, v, v, false);
        let y = psi(j);
        let (before, after) = (bit(i, u) && bit(i, v), bit(j, u) && bit(j, v));
        if a != b {
            lemma_flipped_parity(j, p.z, v, bit(p.x, u));
            lemma_flipped_parity(j, p.z ^ mask(bit(p.x, u), v), u, bit(p.x, v));
        }
        let (s, t) = (sign(odd(j & p.z)), sign(odd(j & c.z)));
        lemma_turned(sign(before), p.r + s, y, y);
        lemma_turned(c.r + t, sign(after), y, y);
        lemma_turned(sign(before) + p.r + s, c.r + t + sign(after), y, y);
    }
    assert(l =~= r);
}

proof fn lemma_conjugation_swap(p: Pauli, a: u8, b: u8, psi: Psi)
    requires
        a < 64,
        b < 64,
    ensures
        transformed(Clifford::Swap(a, b), acts(p, psi)) =~= acts(
            p.conjugated(Clifford::Swap(a, b)),
            transformed(Clifford::Swap(a, b), psi),
        ),
{
    reveal(phase_sum);
    let g = Clifford::Swap(a, b);
    let c = p.conjugated(g);
    let (u, v) = (a as u64, b as u64);
    let (l, r) = (transformed(g, acts(p, psi)), acts(c, transformed(g, psi)));
    assert forall|i: u64| #[trigger] l(i) == r(i) by {
        let j = swapped(i, u, v);
        lemma_swapped_twice(i, p.x, u, v);
        // The exchanged index of the right side is the index of the left side.
        assert(swapped(i ^ c.x, u, v) == j ^ p.x);
        lemma_swap_masks(j ^ p.x, p.z, u, v);
        lemma_exchanged_parity((j ^ p.x) & p.z, u, v);
        let y = psi(j ^ p.x);
        lemma_turned(
            p.r + sign(odd((j ^ p.x) & p.z)),
            c.r + sign(odd((i ^ c.x) & c.z)),
            y,
            y,
        );
    }
    assert(l =~= r);
}

proof fn lemma_swapped_back(i: u64, u: u64, v: u64)
    by (bit_vector)
    requires
        u < 64,
        v < 64,
    ensures
        swapped(swapped(i, u, v), u, v) == i,
{
}

proof fn lemma_swapped_twice(i: u64, x: u64, u: u64, v: u64)
    requires
        u < 64,
        v < 64,
    ensures
        swapped(i ^ swapped(x, u, v), u, v) == swapped(i, u, v) ^ x,
        swapped(swapped(i, u, v) ^ x, u, v) == i ^ swapped(x, u, v),
        swapped(swapped(i, u, v), u, v) == i,
{
    lemma_swapped_back(i, u, v);
    lemma_swapped_back(x, u, v);
    lemma_swap_masks(i, swapped(x, u, v), u, v);
    lemma_swap_masks(swapped(i, u, v), x, u, v);
}

/// Exchanging two bits keeps the parity.
proof fn lemma_exchanged_parity(w: u64, j: u64, k: u64)
    requires
        j < 64,
        k < 64,
    ensures
        odd(
            w ^ (mask(bit(w, j) != bit(w, k), j) ^ mask(bit(w, j) != bit(w, k), k)),
        ) == odd(w),
{
    let d = bit(w, j) != bit(w, k);
    lemma_odd_xor(mask(d, j), mask(d, k));
    lemma_odd_xor(w, mask(d, j) ^ mask(d, k));
    lemma_odd_bit(w, j);
    lemma_odd_bit(w, k);
}

/// The two terms of a Hadamard gate, taken together.
proof fn lemma_h_sum(
    r: int,
    c: int,
    s: bool,
    xq: bool,
    zq: bool,
    iq: bool,
    a0: (int, int),
    a1: (int, int),
)
    requires
        c == (r + sign(xq && zq)) % 4,
    ensures
        ({
            let e = c + sign(s != (xq && (iq != zq)));
            let right = plus(turned(e, a0), turned(e + sign(iq != zq), a1));
            if xq {
                plus(turned(r + sign(s != zq), a1), turned(sign(iq) + (r + sign(s)), a0)) == right
            } else {
                plus(turned(r + sign(s), a0), turned(sign(iq) + (r + sign(s != zq)), a1)) == right
            }
        }),
{
    let e = c + sign(s != (xq && (iq != zq)));
    if xq {
        lemma_turned(r + sign(s != zq), e + sign(iq != zq), a1, a1);
        lemma_turned(sign(iq) + (r + sign(s)), e, a0, a0);
    } else {
        lemma_turned(r + sign(s), e, a0, a0);
        lemma_turned(sign(iq) + (r + sign(s != zq)), e + sign(iq != zq), a1, a1);
    }
}

proof fn lemma_conjugation_h(p: Pauli, q: u8, psi: Psi)
    requires
        q < 64,
    ensures
        transformed(Clifford::H(q), acts(p, psi)) =~= acts(
            p.conjugated(Clifford::H(q)),
            transformed(Clifford::H(q), psi),
        ),
{
    reveal(phase_sum);
    let g = Clifford::H(q);
    let c = p.conjugated(g);
    let k = q as u64;
    let (l, r) = (transformed(g, acts(p, psi)), acts(c, transformed(g, psi)));
    let (xq, zq) = (bit(p.x, k), bit(p.z, k));
    assert forall|i: u64| #[trigger] l(i) == r(i) by {
        let iq = bit(i, k);
        lemma_h_bits(i, p.x, p.z, k);
        let (i0, i1) = (with_bit(i, k, false), with_bit(i, k, true));
        let w = i ^ c.x;
        let (j0, j1) = (with_bit(w, k, false), with_bit(w, k, true));
        let s = odd(j0 & p.z);
        // The parities of the masked indices, all from that of `j0`.
        lemma_flipped_parity(j0, p.z, k, true);
        lemma_flipped_parity(j0, c.z, k, bit(w, k));
        lemma_flipped_parity(j0, p.z, k, zq != xq);
        let (a0, a1) = (psi(j0), psi(j1));
        let (e0, e1) = if xq {
            (p.r + sign(s != zq), p.r + sign(s))
        } else {
            (p.r + sign(s), p.r + sign(s != zq))
        };
        let (b0, b1) = if xq {
            (a1, a0)
        } else {
            (a0, a1)
        };
        assert(acts(p, psi)(i0) == turned(e0, b0));
        assert(acts(p, psi)(i1) == turned(e1, b1));
        lemma_turned(sign(iq), e1, b1, b1);
        let t = odd(w & c.z);
        assert(t == (s != (xq && (iq != zq))));
        let e = c.r + sign(t);
        lemma_turned(e, sign(bit(w, k)), a1, a1);
        lemma_turned(e, 0, a0, turned(sign(bit(w, k)), a1));
        assert(l(i) == plus(turned(e0, b0), turned(sign(iq) + e1, b1)));
        assert(r(i) == plus(turned(e, a0), turned(e + sign(bit(w, k)), a1)));
        lemma_h_sum(p.r as int, c.r as int, s, xq, zq, iq, a0, a1);
    }
    assert(l =~= r);
}

proof fn lemma_h_bits(i: u64, x: u64, z: u64, k: u64)
    by (bit_vector)
    requires
        k < 64,
    ensures
        ({
            let cx = with_bit(x, k, bit(z, k));
            let cz = with_bit(z, k, bit(x, k));
            let w = i ^ cx;
            let j0 = with_bit(w, k, false);
            let j1 = with_bit(w, k, true);
            &&& bit(w, k) == (bit(i, k) != bit(z, k))
            &&& !bit(j0, k)
            &&& j1 == j0 ^ mask(true, k)
            &&& w == j0 ^ mask(bit(w, k), k)
            &&& bit(cz, k) == bit(x, k)
            &&& cz == z ^ mask(bit(z, k) != bit(x, k), k)
            &&& with_bit(i, k, false) ^ x == if bit(x, k) {
                j1
            } else {
                j0
            }
            &&& with_bit(i, k, true) ^ x == if bit(x, k) {
                j0
            } else {
                j1
            }
        }),
{
}

/// A gate takes `P` applied to a vector to `G P G^-1` applied to what it makes of the
/// vector: the conjugation rules are what the gates do.
pub proof fn law_conjugation_is_what_gates_do(p: Pauli, g: Clifford, psi: Psi)
    requires
        g.below(64),
    ensures
        transformed(g, acts(p, psi)) =~= acts(p.conjugated(g), transformed(g, psi)),
{
    match g {
        Clifford::H(q) => lemma_conjugation_h(p, q, psi),
        Clifford::S(q) => lemma_conjugation_s(p, q, psi),
        Clifford::X(q) => lemma_conjugation_x(p, q, psi),
        Clifford::Z(q) => lemma_conjugation_z(p, q, psi),
        Clifford::Cnot(a, b) => lemma_conjugation_cnot(p, a, b, psi),
        Clifford::Cz(a, b) => lemma_conjugation_cz(p, a, b, psi),
        Clifford::Swap(a, b) => lemma_conjugation_swap(p, a, b, psi),
    }
}

/// The product of two operators applied to a vector is one applied after the other.
pub proof fn law_action_is_multiplicative(p: Pauli, s: Pauli, psi: Psi)
    ensures
        acts(p.times(s), psi) =~= acts(p, acts(s, psi)),
{
    reveal(phase_sum);
    let t = p.times(s);
    let (l, r) = (acts(t, psi), acts(p, acts(s, psi)));
    assert forall|i: u64| #[trigger] l(i) == r(i) by {
        let j = (i ^ p.x) ^ s.x;
        lemma_xor_assoc(i, p.x, s.x);
        assert(i ^ t.x == j);
        let (a, b) = (odd((i ^ p.x) & p.z), odd(j & s.z));
        // The parity under the product of the Z parts.
        lemma_mask_algebra(p.z, s.z, j);
        lemma_odd_xor(j & p.z, j & s.z);
        lemma_mask_algebra(i ^ p.x, s.x, p.z);
        lemma_odd_xor((i ^ p.x) & p.z, s.x & p.z);
        lemma_mask_algebra(s.x, p.z, 0);
        let v = psi(j);
        lemma_turned(p.r + sign(a), s.r + sign(b), v, v);
        lemma_turned(t.r + sign(odd(j & t.z)), p.r + sign(a) + (s.r + sign(b)), v, v);
    }
    assert(l =~= r);
}

pub proof fn lemma_xor_assoc(a: u64, b: u64, c: u64)
    by (bit_vector)
    ensures
        (a ^ b) ^ c == a ^ (b ^ c),
{
}

/// A vector times `i^k`.
pub open spec fn scaled(k: int, psi: Psi) -> Psi {
    |i: u64| turned(k, psi(i))
}

/// Operators that differ by a phase act alike up to that phase.
pub proof fn lemma_phase_scales(p: Pauli, s: Pauli, psi: Psi)
    requires
        p.same_masks(s),
    ensures
        acts(p, psi) =~= scaled(p.r - s.r, acts(s, psi)),
{
    let (l, r) = (acts(p, psi), scaled(p.r - s.r, acts(s, psi)));
    assert forall|i: u64| #[trigger] l(i) == r(i) by {
        let e = sign(odd((i ^ p.x) & p.z));
        let v = psi(i ^ p.x);
        lemma_turned(p.r - s.r, s.r + e, v, v);
    }
    assert(l =~= r);
}

/// Vectors scaled by powers of `i` that are equal modulo four are equal.
pub proof fn lemma_scaled(j: int, k: int, psi: Psi)
    ensures
        (j - k) % 4 == 0 ==> scaled(j, psi) =~= scaled(k, psi),
        k % 4 == 0 ==> scaled(k, psi) =~= psi,
        scaled(j, scaled(k, psi)) =~= scaled(j + k, psi),
{
    assert forall|i: u64| (j - k) % 4 == 0 implies #[trigger] scaled(j, psi)(i) == scaled(k, psi)(
        i,
    ) by {
        lemma_turned(j, k, psi(i), psi(i));
    }
    assert forall|i: u64| k % 4 == 0 implies #[trigger] scaled(k, psi)(i) == psi(i) by {
        reveal(turned);
    }
    assert forall|i: u64| #[trigger] scaled(j, scaled(k, psi))(i) == scaled(j + k, psi)(i) by {
        lemma_turned(j, k, psi(i), psi(i));
    }
    if (j - k) % 4 == 0 {
        assert(scaled(j, psi) =~= scaled(k, psi));
    }
    if k % 4 == 0 {
        assert(scaled(k, psi) =~= psi);
    }
    assert(scaled(j, scaled(k, psi)) =~= scaled(j + k, psi));
}

/// Anticommuting operators applied in the other order give the opposite vector.
pub proof fn lemma_anticommuting_actions(p: Pauli, s: Pauli, psi: Psi)
    ensures
        acts(p, acts(s, psi)) =~= scaled(sign(p.anti(s)), acts(s, acts(p, psi))),
{
    reveal(phase_sum);
    law_action_is_multiplicative(p, s, psi);
    law_action_is_multiplicative(s, p, psi);
    let (a, b) = (p.times(s), s.times(p));
    lemma_mask_algebra(p.x, s.x, 0);
    lemma_mask_algebra(p.z, s.z, 0);
    lemma_mask_algebra(p.z, s.x, 0);
    lemma_mask_algebra(s.z, p.x, 0);
    lemma_phase_scales(a, b, psi);
    lemma_scaled(a.r - b.r, sign(p.anti(s)), acts(b, psi));
}

/// Whether some amplitude is not zero.
pub open spec fn nonzero(psi: Psi) -> bool {
    exists|i: u64| #[trigger] psi(i) != (0int, 0int)
}

pub proof fn lemma_turned_zero(k: int, a: (int, int))
    ensures
        turned(k, a) == (0int, 0int) <==> a == (0int, 0int),
{
    reveal(turned);
}

/// Gates take no vector to zero.
pub proof fn law_gates_keep_nonzero(g: Clifford, psi: Psi)
    requires
        g.below(64),
        nonzero(psi),
    ensures
        nonzero(transformed(g, psi)),
{
    let i = choose|i: u64| #[trigger] psi(i) != (0int, 0int);
    let f = transformed(g, psi);
    match g {
        Clifford::H(q) => {
            let k = q as u64;
            lemma_h_pair(i, k);
            let (i0, i1) = (with_bit(i, k, false), with_bit(i, k, true));
            reveal(turned);
            assert(f(i0) == plus(psi(i0), psi(i1)));
            assert(f(i1) == plus(psi(i0), (-psi(i1).0, -psi(i1).1)));
            if f(i0) == (0int, 0int) && f(i1) == (0int, 0int) {
                assert(psi(i0) == (0int, 0int));
                assert(psi(i1) == (0int, 0int));
                assert(false);
            }
        },
        Clifford::S(q) => {
            lemma_turned_zero(b2i(bit(i, q as u64)), psi(i));
            assert(f(i) != (0int, 0int));
        },
        Clifford::X(q) => {
            lemma_bits(i, 0, q as u64, q as u64, true);
            assert(f(i ^ mask(true, q as u64)) == psi(i));
        },
        Clifford::Z(q) => {
            lemma_turned_zero(sign(bit(i, q as u64)), psi(i));
            assert(f(i) != (0int, 0int));
        },
        Clifford::Cnot(a, b) => {
            let (c, t) = (a as u64, b as u64);
            let m = a != b && bit(i, c);
            lemma_bits(i, 0, c, t, m);
            let j = i ^ mask(m, t);
            assert((a != b && bit(j, c)) == m);
            assert(f(j) == psi(i));
        },
        Clifford::Cz(a, b) => {
            lemma_turned_zero(sign(bit(i, a as u64) && bit(i, b as u64)), psi(i));
            assert(f(i) != (0int, 0int));
        },
        Clifford::Swap(a, b) => {
            let (u, v) = (a as u64, b as u64);
            lemma_swapped_back(i, u, v);
            let j = swapped(i, u, v);
            assert(f(j) == psi(i));
        },
    }
}

proof fn lemma_h_pair(i: u64, k: u64)
    by (bit_vector)
    requires
        k < 64,
    ensures
        ({
            let i0 = with_bit(i, k, false);
            let i1 = with_bit(i, k, true);
            &&& i == i0 || i == i1
            &&& !bit(i0, k)
            &&& bit(i1, k)
            &&& with_bit(i0, k, false) == i0
            &&& with_bit(i0, k, true) == i1
            &&& with_bit(i1, k, false) == i0
            &&& with_bit(i1, k, true) == i1
        }),
{
}

} // verus!
