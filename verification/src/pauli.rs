//! Pauli operators on bit masks and their conjugation by Clifford gates.
use vstd::prelude::*;

verus! {

/// Whether bit `q` of `v` is set.
pub open spec fn bit(v: u64, q: u64) -> bool {
    (v >> q) & 1 == 1
}

/// The mask with bit `q` set if `b`, else the empty mask.
pub open spec fn mask(b: bool, q: u64) -> u64 {
    if b {
        1u64 << q
    } else {
        0
    }
}

/// `v` with bit `q` set to `b`.
pub open spec fn with_bit(v: u64, q: u64, b: bool) -> u64 {
    (v & !(1u64 << q)) | mask(b, q)
}

/// A shifted mask is smaller; if its lowest bit was not the only one, it is not zero.
pub proof fn lemma_halved(v: u64)
    by (bit_vector)
    requires
        v != 0,
    ensures
        (v >> 1) < v,
        v & 1 != 1 ==> (v >> 1) != 0,
        v & 1 == 1 ==> bit(v, 0),
{
}

/// Whether `v` has an odd number of set bits.
pub open spec fn odd(v: u64) -> bool
    decreases v,
{
    if v == 0 {
        false
    } else {
        proof {
            lemma_halved(v);
        }
        (v & 1 == 1) != odd(v >> 1)
    }
}

/// All bits of `v` combined by exclusive or, in the lowest bit.
pub open spec fn folded(v: u64) -> u64 {
    let a = v ^ (v >> 32);
    let b = a ^ (a >> 16);
    let c = b ^ (b >> 8);
    let d = c ^ (c >> 4);
    let e = d ^ (d >> 2);
    (e ^ (e >> 1)) & 1
}

proof fn lemma_folded(v: u64)
    ensures
        odd(v) == (folded(v) == 1),
    decreases v,
{
    assert(folded(v) == (v & 1) ^ folded(v >> 1) && (v & 1 == 1 || v & 1 == 0) && (folded(v) == 0
        || folded(v) == 1) && folded(0) == 0 && (folded(v >> 1) == 0 || folded(v >> 1) == 1) && (v
        != 0 ==> (v >> 1) < v) && 0u64 ^ 0u64 == 0 && 0u64 ^ 1u64 == 1 && 1u64 ^ 0u64 == 1 && 1u64
        ^ 1u64 == 0) by (bit_vector);
    if v != 0 {
        lemma_folded(v >> 1);
    }
}

/// The bits of masks combined by exclusive or.
pub proof fn lemma_bits(i: u64, x: u64, q: u64, t: u64, b: bool)
    by (bit_vector)
    requires
        q < 64,
        t < 64,
    ensures
        bit(i ^ x, q) == (bit(i, q) != bit(x, q)),
        bit(1u64 << t, q) == (q == t),
        bit(i ^ mask(b, t), q) == (bit(i, q) != (b && q == t)),
        i ^ mask(bit(i, q), t) ^ x == (i ^ (x ^ mask(bit(x, q), t))) ^ mask(
            bit(i, q) != bit(x, q),
            t,
        ),
        i ^ mask(b, t) ^ x == (i ^ x) ^ mask(b, t),
        (i ^ mask(b, t)) ^ mask(b, t) == i,
{
}

/// Parity is additive.
pub proof fn lemma_odd_xor(a: u64, b: u64)
    ensures
        odd(a ^ b) == (odd(a) != odd(b)),
{
    lemma_folded(a);
    lemma_folded(b);
    lemma_folded(a ^ b);
    assert(folded(a ^ b) == folded(a) ^ folded(b) && (folded(a) == 0 || folded(a) == 1) && (folded(
        b,
    ) == 0 || folded(b) == 1) && 0u64 ^ 0u64 == 0 && 0u64 ^ 1u64 == 1 && 1u64 ^ 0u64 == 1 && 1u64
        ^ 1u64 == 0) by (bit_vector);
}

/// The parity of one masked bit is that bit.
pub proof fn lemma_odd_bit(v: u64, q: u64)
    requires
        q < 64,
    ensures
        odd(v & (1u64 << q)) == bit(v, q),
        odd(1u64 << q),
{
    lemma_folded(v & (1u64 << q));
    lemma_folded(1u64 << q);
    assert((folded(v & (1u64 << q)) == 1) == bit(v, q) && folded(1u64 << q) == 1) by (bit_vector)
        requires
            q < 64,
    ;
}

/// A mask without set bits is zero.
pub proof fn lemma_no_bits(v: u64)
    requires
        forall|q: u64| q < 64 ==> !bit(v, q),
    ensures
        v == 0,
{
    if v != 0 {
        let k = lowest_bit(v);
        lemma_lowest_bit(v);
        assert(bit(v, k));
    }
}

spec fn lowest_bit(v: u64) -> u64
    decreases v,
{
    if v == 0 || v & 1 == 1 {
        0
    } else {
        proof {
            lemma_halved(v);
        }
        (1 + lowest_bit(v >> 1)) as u64
    }
}

proof fn lemma_lowest_bit(v: u64)
    requires
        v != 0,
    ensures
        lowest_bit(v) < 64,
        bit(v, lowest_bit(v)),
    decreases v,
{
    lemma_halved(v);
    if v & 1 != 1 {
        lemma_lowest_bit(v >> 1);
        let k = lowest_bit(v >> 1);
        assert(bit(v >> 1, k) && k < 64 ==> k < 63 && bit(v, (k + 1) as u64)) by (bit_vector);
    }
}

/// The number of set bits of `v` is odd.
pub fn parity(v: u64) -> (r: bool)
    ensures
        r == odd(v),
{
    proof {
        lemma_folded(v);
    }
    let a: u64 = v ^ (v >> 32);
    let b: u64 = a ^ (a >> 16);
    let c: u64 = b ^ (b >> 8);
    let d: u64 = c ^ (c >> 4);
    let e: u64 = d ^ (d >> 2);
    ((e ^ (e >> 1)) & 1) == 1
}

/// The operator `i^r X^x Z^z`, with bit `q` of the masks for qubit `q`.
#[derive(Clone, Copy, Debug, PartialEq, Eq, Structural)]
pub struct Pauli {
    pub x: u64,
    pub z: u64,
    pub r: u8,
}

/// A Clifford gate of the tableau engine.
#[derive(Clone, Copy, Debug, PartialEq, Eq, Structural)]
pub enum Clifford {
    H(u8),
    S(u8),
    X(u8),
    Z(u8),
    Cnot(u8, u8),
    Cz(u8, u8),
    Swap(u8, u8),
}

/// Phase exponents add modulo 4.
#[verifier::opaque]
pub open spec fn phase_sum(r: u8, d: int) -> u8 {
    ((r + d) % 4) as u8
}

/// 1 for true, 0 for false.
pub open spec fn b2i(b: bool) -> int {
    if b {
        1
    } else {
        0
    }
}

impl Pauli {
    /// The operator product `self * other`: moving `Z^z` past `X^x` costs a sign
    /// for each qubit on which both act.
    pub open spec fn times(self, other: Pauli) -> Pauli {
        Pauli {
            x: self.x ^ other.x,
            z: self.z ^ other.z,
            r: phase_sum(self.r, other.r + 2 * b2i(odd(self.z & other.x))),
        }
    }

    /// Whether the two operators anticommute.
    pub open spec fn anti(self, other: Pauli) -> bool {
        odd(self.x & other.z) != odd(self.z & other.x)
    }

    /// Whether the operator is its own adjoint: `i^r X^x Z^z` is Hermitian when
    /// `r` has the parity of the number of qubits that carry both factors.
    pub open spec fn hermitian(self) -> bool {
        self.r < 4 && (self.r % 2 == 1) == odd(self.x & self.z)
    }

    /// Whether the operator acts on the qubits below `n` only.
    pub open spec fn within(self, n: nat) -> bool {
        n < 64 ==> self.x >> (n as u64) == 0 && self.z >> (n as u64) == 0
    }

    /// The same masks, whatever the phase.
    pub open spec fn same_masks(self, other: Pauli) -> bool {
        self.x == other.x && self.z == other.z
    }

    /// The operator `G P G^-1` for a Clifford gate `G`. A pair gate on one and
    /// the same qubit acts as on the amplitudes: `Cnot` and `Swap` do nothing and
    /// `Cz` is `Z`.
    pub open spec fn conjugated(self, g: Clifford) -> Pauli {
        match g {
            Clifford::H(q) => Pauli {
                x: with_bit(self.x, q as u64, bit(self.z, q as u64)),
                z: with_bit(self.z, q as u64, bit(self.x, q as u64)),
                r: phase_sum(self.r, 2 * b2i(bit(self.x, q as u64) && bit(self.z, q as u64))),
            },
            Clifford::S(q) => Pauli {
                x: self.x,
                z: self.z ^ mask(bit(self.x, q as u64), q as u64),
                r: phase_sum(self.r, b2i(bit(self.x, q as u64))),
            },
            Clifford::X(q) => Pauli {
                x: self.x,
                z: self.z,
                r: phase_sum(self.r, 2 * b2i(bit(self.z, q as u64))),
            },
            Clifford::Z(q) => Pauli {
                x: self.x,
                z: self.z,
                r: phase_sum(self.r, 2 * b2i(bit(self.x, q as u64))),
            },
            Clifford::Cnot(c, t) => if c == t {
                Pauli { r: phase_sum(self.r, 0), ..self }
            } else {
                Pauli {
                    x: self.x ^ mask(bit(self.x, c as u64), t as u64),
                    z: self.z ^ mask(bit(self.z, t as u64), c as u64),
                    r: phase_sum(self.r, 0),
                }
            },
            Clifford::Cz(a, b) => if a == b {
                self.conjugated_z(a)
            } else {
                Pauli {
                    x: self.x,
                    z: self.z ^ mask(bit(self.x, a as u64), b as u64) ^ mask(
                        bit(self.x, b as u64),
                        a as u64,
                    ),
                    r: phase_sum(self.r, 2 * b2i(bit(self.x, a as u64) && bit(self.x, b as u64))),
                }
            },
            Clifford::Swap(a, b) => Pauli {
                x: with_bit(
                    with_bit(self.x, a as u64, bit(self.x, b as u64)),
                    b as u64,
                    bit(self.x, a as u64),
                ),
                z: with_bit(
                    with_bit(self.z, a as u64, bit(self.z, b as u64)),
                    b as u64,
                    bit(self.z, a as u64),
                ),
                r: phase_sum(self.r, 0),
            },
        }
    }

    /// `Z_q P Z_q`.
    pub open spec fn conjugated_z(self, q: u8) -> Pauli {
        Pauli { x: self.x, z: self.z, r: phase_sum(self.r, 2 * b2i(bit(self.x, q as u64))) }
    }

    /// The operator `G P G^-1`.
    pub fn conjugate(self, g: Clifford) -> (p: Pauli)
        requires
            g.below(64),
        ensures
            p == self.conjugated(g),
    {
        match g {
            Clifford::H(q) => {
                let xq: bool = (self.x >> q) & 1 == 1;
                let zq: bool = (self.z >> q) & 1 == 1;
                let one: u64 = 1u64 << q;
                Pauli {
                    x: (self.x & !one) | (if zq { one } else { 0 }),
                    z: (self.z & !one) | (if xq { one } else { 0 }),
                    r: self.turned(if xq && zq { 2 } else { 0 }),
                }
            },
            Clifford::S(q) => {
                let xq: bool = (self.x >> q) & 1 == 1;
                Pauli {
                    x: self.x,
                    z: self.z ^ (if xq { 1u64 << q } else { 0 }),
                    r: self.turned(if xq { 1 } else { 0 }),
                }
            },
            Clifford::X(q) => {
                let zq: bool = (self.z >> q) & 1 == 1;
                Pauli { x: self.x, z: self.z, r: self.turned(if zq { 2 } else { 0 }) }
            },
            Clifford::Z(q) => {
                let xq: bool = (self.x >> q) & 1 == 1;
                Pauli { x: self.x, z: self.z, r: self.turned(if xq { 2 } else { 0 }) }
            },
            Clifford::Cnot(c, t) => {
                if c == t {
                    Pauli { x: self.x, z: self.z, r: self.turned(0) }
                } else {
                    let xc: bool = (self.x >> c) & 1 == 1;
                    let zt: bool = (self.z >> t) & 1 == 1;
                    Pauli {
                        x: self.x ^ (if xc { 1u64 << t } else { 0 }),
                        z: self.z ^ (if zt { 1u64 << c } else { 0 }),
                        r: self.turned(0),
                    }
                }
            },
            Clifford::Cz(a, b) => {
                let xa: bool = (self.x >> a) & 1 == 1;
                let xb: bool = (self.x >> b) & 1 == 1;
                if a == b {
                    Pauli { x: self.x, z: self.z, r: self.turned(if xa { 2 } else { 0 }) }
                } else {
                    Pauli {
                        x: self.x,
                        z: self.z ^ (if xa { 1u64 << b } else { 0 }) ^ (if xb { 1u64 << a } else { 0 }),
                        r: self.turned(if xa && xb { 2 } else { 0 }),
                    }
                }
            },
            Clifford::Swap(a, b) => {
                let one: u64 = 1u64 << a;
                let two: u64 = 1u64 << b;
                let xa: bool = (self.x >> a) & 1 == 1;
                let xb: bool = (self.x >> b) & 1 == 1;
                let za: bool = (self.z >> a) & 1 == 1;
                let zb: bool = (self.z >> b) & 1 == 1;
                let x: u64 = (self.x & !one) | (if xb { one } else { 0 });
                let z: u64 = (self.z & !one) | (if zb { one } else { 0 });
                Pauli {
                    x: (x & !two) | (if xa { two } else { 0 }),
                    z: (z & !two) | (if za { two } else { 0 }),
                    r: self.turned(0),
                }
            },
        }
    }

    /// The phase exponent advanced by `d`.
    fn turned(self, d: u8) -> (r: u8)
        requires
            d < 4,
        ensures
            r == phase_sum(self.r, d as int),
    {
        reveal(phase_sum);
        (((self.r % 4) + d) % 4) as u8
    }

    /// The operator product `self * other`.
    pub fn multiply(self, other: Pauli) -> (p: Pauli)
        ensures
            p == self.times(other),
    {
        reveal(phase_sum);
        let sign: u32 = if parity(self.z & other.x) {
            2
        } else {
            0
        };
        Pauli {
            x: self.x ^ other.x,
            z: self.z ^ other.z,
            r: ((self.r as u32 + other.r as u32 + sign) % 4) as u8,
        }
    }

    /// Whether the two operators anticommute.
    pub fn anticommutes(self, other: Pauli) -> (r: bool)
        ensures
            r == self.anti(other),
    {
        parity(self.x & other.z) != parity(self.z & other.x)
    }
}

impl Clifford {
    /// Whether every qubit of this gate is below `n`.
    pub open spec fn below(self, n: nat) -> bool {
        match self {
            Clifford::H(q) => q < n,
            Clifford::S(q) => q < n,
            Clifford::X(q) => q < n,
            Clifford::Z(q) => q < n,
            Clifford::Cnot(a, b) => a < n && b < n,
            Clifford::Cz(a, b) => a < n && b < n,
            Clifford::Swap(a, b) => a < n && b < n,
        }
    }
}

/// Two ways to collect the phase of a product agree when the extra turns agree
/// modulo 4.
proof fn lemma_phase(p: u8, s: u8, a: int, b: int, m2: int, m1: int, d: int)
    requires
        (a + b + m2 - m1 - d) % 4 == 0,
    ensures
        phase_sum(phase_sum(p, s + m1), d) == phase_sum(phase_sum(p, a), phase_sum(s, b) + m2),
{
    reveal(phase_sum);
}

proof fn lemma_product_h(p: Pauli, s: Pauli, q: u8)
    requires
        Clifford::H(q).below(64),
    ensures
        p.times(s).conjugated(Clifford::H(q)) == p.conjugated(Clifford::H(q)).times(
            s.conjugated(Clifford::H(q)),
        ),
{
    let (px, pz, sx, sz) = (p.x, p.z, s.x, s.z);
    let k = q as u64;
    let w = (px & sz) ^ (pz & sx);
    assert(with_bit(pz, k, bit(px, k)) & with_bit(sx, k, bit(sz, k)) == (pz & sx) ^ (((
    px & sz) ^ (pz & sx)) & (1u64 << k)) && with_bit(px ^ sx, k, bit(pz ^ sz, k))
        == with_bit(px, k, bit(pz, k)) ^ with_bit(sx, k, bit(sz, k)) && with_bit(
        pz ^ sz,
        k,
        bit(px ^ sx, k),
    ) == with_bit(pz, k, bit(px, k)) ^ with_bit(sz, k, bit(sx, k)) && bit(px ^ sx, k)
        == (bit(px, k) != bit(sx, k)) && bit(pz ^ sz, k) == (bit(pz, k) != bit(sz, k))
        && bit((px & sz) ^ (pz & sx), k) == ((bit(px, k) && bit(sz, k)) != (bit(pz, k)
        && bit(sx, k)))) by (bit_vector)
        requires
            k < 64,
    ;
    lemma_odd_xor(pz & sx, w & (1u64 << k));
    lemma_odd_bit(w, k);
    lemma_phase(
        p.r,
        s.r,
        2 * b2i(bit(px, q as u64) && bit(pz, q as u64)),
        2 * b2i(bit(sx, q as u64) && bit(sz, q as u64)),
        2 * b2i(odd(p.conjugated(Clifford::H(q)).z & s.conjugated(Clifford::H(q)).x)),
        2 * b2i(odd(pz & sx)),
        2 * b2i(bit(px ^ sx, q as u64) && bit(pz ^ sz, q as u64)),
    );
}

proof fn lemma_product_s(p: Pauli, s: Pauli, q: u8)
    requires
        Clifford::S(q).below(64),
    ensures
        p.times(s).conjugated(Clifford::S(q)) == p.conjugated(Clifford::S(q)).times(
            s.conjugated(Clifford::S(q)),
        ),
{
    let (px, pz, sx, sz) = (p.x, p.z, s.x, s.z);
    let k = q as u64;
    assert((pz ^ mask(bit(px, k), k)) & sx == (pz & sx) ^ ((px & sx) & (1u64 << k))
        && (pz ^ sz) ^ mask(bit(px ^ sx, k), k) == (pz ^ mask(bit(px, k), k)) ^ (sz
        ^ mask(bit(sx, k), k)) && bit(px ^ sx, k) == (bit(px, k) != bit(sx, k)) && bit(
        px & sx,
        k,
    ) == (bit(px, k) && bit(sx, k))) by (bit_vector)
        requires
            k < 64,
    ;
    lemma_odd_xor(pz & sx, (px & sx) & (1u64 << k));
    lemma_odd_bit(px & sx, k);
    lemma_phase(
        p.r,
        s.r,
        b2i(bit(px, q as u64)),
        b2i(bit(sx, q as u64)),
        2 * b2i(odd(p.conjugated(Clifford::S(q)).z & sx)),
        2 * b2i(odd(pz & sx)),
        b2i(bit(px ^ sx, q as u64)),
    );
}

proof fn lemma_product_x(p: Pauli, s: Pauli, q: u8)
    requires
        Clifford::X(q).below(64),
    ensures
        p.times(s).conjugated(Clifford::X(q)) == p.conjugated(Clifford::X(q)).times(
            s.conjugated(Clifford::X(q)),
        ),
{
    let (px, pz, sx, sz) = (p.x, p.z, s.x, s.z);
    let k = q as u64;
    lemma_bits(pz, sz, k, k, false);
    lemma_phase(
        p.r,
        s.r,
        2 * b2i(bit(pz, k)),
        2 * b2i(bit(sz, k)),
        2 * b2i(odd(pz & sx)),
        2 * b2i(odd(pz & sx)),
        2 * b2i(bit(pz ^ sz, k)),
    );
}

proof fn lemma_product_z(p: Pauli, s: Pauli, q: u8)
    requires
        Clifford::Z(q).below(64),
    ensures
        p.times(s).conjugated(Clifford::Z(q)) == p.conjugated(Clifford::Z(q)).times(
            s.conjugated(Clifford::Z(q)),
        ),
{
    let (px, pz, sx, sz) = (p.x, p.z, s.x, s.z);
    let k = q as u64;
    lemma_bits(px, sx, k, k, false);
    lemma_phase(
        p.r,
        s.r,
        2 * b2i(bit(px, k)),
        2 * b2i(bit(sx, k)),
        2 * b2i(odd(pz & sx)),
        2 * b2i(odd(pz & sx)),
        2 * b2i(bit(px ^ sx, k)),
    );
}

proof fn lemma_product_cnot(p: Pauli, s: Pauli, c: u8, t: u8)
    requires
        Clifford::Cnot(c, t).below(64),
    ensures
        p.times(s).conjugated(Clifford::Cnot(c, t)) == p.conjugated(Clifford::Cnot(c, t)).times(
            s.conjugated(Clifford::Cnot(c, t)),
        ),
{
    let (px, pz, sx, sz) = (p.x, p.z, s.x, s.z);
    if c != t {
        let a = c as u64;
        let b = t as u64;
        let w = pz & sx;
        let d = mask(bit(pz, b) && bit(sx, a), a) ^ mask(bit(pz, b) && bit(sx, a), b);
        assert((pz ^ mask(bit(pz, b), a)) & (sx ^ mask(bit(sx, a), b)) == (pz & sx)
            ^ (mask(bit(pz, b) && bit(sx, a), a) ^ mask(bit(pz, b) && bit(sx, a), b))
            && (px ^ sx) ^ mask(bit(px ^ sx, a), b) == (px ^ mask(bit(px, a), b)) ^ (
        sx ^ mask(bit(sx, a), b)) && (pz ^ sz) ^ mask(bit(pz ^ sz, b), a) == (pz
            ^ mask(bit(pz, b), a)) ^ (sz ^ mask(bit(sz, b), a)) && 0u64 ^ 0u64 == 0)
            by (bit_vector)
            requires
                a < 64,
                b < 64,
                a != b,
        ;
        lemma_odd_xor(w, d);
        lemma_odd_xor(
            mask(bit(pz, b) && bit(sx, a), a),
            mask(bit(pz, b) && bit(sx, a), b),
        );
        lemma_odd_bit(0, a);
        lemma_odd_bit(0, b);
    }
    lemma_phase(
        p.r,
        s.r,
        0,
        0,
        2 * b2i(odd(p.conjugated(Clifford::Cnot(c, t)).z & s.conjugated(Clifford::Cnot(c, t)).x)),
        2 * b2i(odd(pz & sx)),
        0,
    );
}

proof fn lemma_product_cz(p: Pauli, s: Pauli, a: u8, b: u8)
    requires
        Clifford::Cz(a, b).below(64),
    ensures
        p.times(s).conjugated(Clifford::Cz(a, b)) == p.conjugated(Clifford::Cz(a, b)).times(
            s.conjugated(Clifford::Cz(a, b)),
        ),
{
    let (px, pz, sx, sz) = (p.x, p.z, s.x, s.z);
    let j = a as u64;
    let k = b as u64;
    if a == b {
        lemma_bits(px, sx, j, j, false);
    } else {
        let d = mask(bit(px, j) && bit(sx, k), k) ^ mask(bit(px, k) && bit(sx, j), j);
        assert((pz ^ mask(bit(px, j), k) ^ mask(bit(px, k), j)) & sx == (pz & sx) ^ (
        mask(bit(px, j) && bit(sx, k), k) ^ mask(bit(px, k) && bit(sx, j), j)) && (pz
            ^ sz) ^ mask(bit(px ^ sx, j), k) ^ mask(bit(px ^ sx, k), j) == (pz ^ mask(
            bit(px, j),
            k,
        ) ^ mask(bit(px, k), j)) ^ (sz ^ mask(bit(sx, j), k) ^ mask(bit(sx, k), j))
            && bit(px ^ sx, j) == (bit(px, j) != bit(sx, j)) && bit(px ^ sx, k) == (bit(
            px,
            k,
        ) != bit(sx, k)) && 0u64 ^ 0u64 == 0) by (bit_vector)
            requires
                j < 64,
                k < 64,
                j != k,
        ;
        lemma_odd_xor(pz & sx, d);
        lemma_odd_xor(
            mask(bit(px, j) && bit(sx, k), k),
            mask(bit(px, k) && bit(sx, j), j),
        );
        lemma_odd_bit(0, j);
        lemma_odd_bit(0, k);
    }
    lemma_phase(
        p.r,
        s.r,
        2 * b2i(bit(px, j) && bit(px, k)),
        2 * b2i(bit(sx, j) && bit(sx, k)),
        2 * b2i(odd(p.conjugated(Clifford::Cz(a, b)).z & sx)),
        2 * b2i(odd(pz & sx)),
        2 * b2i(bit(px ^ sx, j) && bit(px ^ sx, k)),
    );
}

proof fn lemma_product_swap(p: Pauli, s: Pauli, a: u8, b: u8)
    requires
        Clifford::Swap(a, b).below(64),
    ensures
        p.times(s).conjugated(Clifford::Swap(a, b)) == p.conjugated(Clifford::Swap(a, b)).times(
            s.conjugated(Clifford::Swap(a, b)),
        ),
{
    let (px, pz, sx, sz) = (p.x, p.z, s.x, s.z);
    let j = a as u64;
    let k = b as u64;
    let w = pz & sx;
    let d = mask(bit(w, j) != bit(w, k), j) ^ mask(bit(w, j) != bit(w, k), k);
    lemma_swap_masks(pz, sx, j, k);
    lemma_swap_masks(px, sx, j, k);
    lemma_swap_masks(pz, sz, j, k);
    lemma_odd_xor(w, d);
    lemma_odd_xor(mask(bit(w, j) != bit(w, k), j), mask(bit(w, j) != bit(w, k), k));
    lemma_odd_bit(0, j);
    lemma_odd_bit(0, k);
    if j == k {
        assert(d == 0) by {
            assert((1u64 << j) ^ (1u64 << j) == 0 && 0u64 ^ 0u64 == 0) by (bit_vector);
        }
    }
    lemma_phase(
        p.r,
        s.r,
        0,
        0,
        2 * b2i(odd(swapped(pz, j, k) & swapped(sx, j, k))),
        2 * b2i(odd(pz & sx)),
        0,
    );
}

/// Conjugation by a Clifford gate respects products: `G(PQ)G^-1 = (GPG^-1)(GQG^-1)`.
pub proof fn law_conjugation_is_multiplicative(p: Pauli, s: Pauli, g: Clifford)
    requires
        g.below(64),
    ensures
        p.times(s).conjugated(g) == p.conjugated(g).times(s.conjugated(g)),
{
    match g {
        Clifford::H(q) => lemma_product_h(p, s, q),
        Clifford::S(q) => lemma_product_s(p, s, q),
        Clifford::X(q) => lemma_product_x(p, s, q),
        Clifford::Z(q) => lemma_product_z(p, s, q),
        Clifford::Cnot(c, t) => lemma_product_cnot(p, s, c, t),
        Clifford::Cz(a, b) => lemma_product_cz(p, s, a, b),
        Clifford::Swap(a, b) => lemma_product_swap(p, s, a, b),
    }
}

/// `v` with bits `j` and `k` exchanged.
pub open spec fn swapped(v: u64, j: u64, k: u64) -> u64 {
    with_bit(with_bit(v, j, bit(v, k)), k, bit(v, j))
}

pub proof fn lemma_swap_masks(u: u64, v: u64, j: u64, k: u64)
    by (bit_vector)
    requires
        j < 64,
        k < 64,
    ensures
        swapped(u, j, k) & swapped(v, j, k) == (u & v) ^ (mask(bit(u & v, j) != bit(u & v, k), j) ^ mask(
            bit(u & v, j) != bit(u & v, k),
            k,
        )),
        swapped(u ^ v, j, k) == swapped(u, j, k) ^ swapped(v, j, k),
{
}

impl Pauli {
    /// The extra quarter turns that conjugation by `g` adds to the phase; they
    /// depend on the masks alone.
    pub open spec fn turn(self, g: Clifford) -> int {
        match g {
            Clifford::H(q) => 2 * b2i(bit(self.x, q as u64) && bit(self.z, q as u64)),
            Clifford::S(q) => b2i(bit(self.x, q as u64)),
            Clifford::X(q) => 2 * b2i(bit(self.z, q as u64)),
            Clifford::Z(q) => 2 * b2i(bit(self.x, q as u64)),
            Clifford::Cnot(c, t) => 0,
            Clifford::Cz(a, b) => 2 * b2i(bit(self.x, a as u64) && bit(self.x, b as u64)),
            Clifford::Swap(a, b) => 0,
        }
    }
}

/// The identity operator.
pub open spec fn identity() -> Pauli {
    Pauli { x: 0, z: 0, r: 0 }
}

/// Z on qubit `q`.
pub open spec fn z_on(q: u8) -> Pauli {
    Pauli { x: 0, z: 1u64 << (q as u64), r: 0 }
}

/// X on qubit `q`.
pub open spec fn x_on(q: u8) -> Pauli {
    Pauli { x: 1u64 << (q as u64), z: 0, r: 0 }
}

/// Basic facts on exclusive or and conjunction.
pub proof fn lemma_mask_algebra(a: u64, b: u64, c: u64)
    by (bit_vector)
    ensures
        a ^ b == b ^ a,
        a ^ a == 0,
        a ^ 0 == a,
        0 ^ a == a,
        a & b == b & a,
        a & 0 == 0,
        0 & a == 0,
        a & a == a,
        (a ^ b) & c == (a & c) ^ (b & c),
        c & (a ^ b) == (c & a) ^ (c & b),
        (a ^ b) ^ b == a,
        a ^ (a ^ b) == b,
{
}

/// Commutation is symmetric, and every operator commutes with itself.
pub proof fn lemma_anti_symmetric(p: Pauli, s: Pauli)
    ensures
        p.anti(s) == s.anti(p),
        !p.anti(p),
{
    lemma_mask_algebra(p.x, s.z, 0);
    lemma_mask_algebra(p.z, s.x, 0);
    lemma_mask_algebra(p.x, p.z, 0);
}

/// Commutation relations add up under products.
pub proof fn lemma_anti_product(p: Pauli, s: Pauli, t: Pauli)
    ensures
        p.times(s).anti(t) == (p.anti(t) != s.anti(t)),
        t.anti(p.times(s)) == (t.anti(p) != t.anti(s)),
{
    lemma_mask_algebra(p.x, s.x, t.z);
    lemma_mask_algebra(p.z, s.z, t.x);
    lemma_odd_xor(p.x & t.z, s.x & t.z);
    lemma_odd_xor(p.z & t.x, s.z & t.x);
    lemma_anti_symmetric(p.times(s), t);
    lemma_anti_symmetric(p, t);
    lemma_anti_symmetric(s, t);
}

/// An operator anticommutes with Z (X) on a qubit when its own X (Z) mask has
/// that qubit.
pub proof fn lemma_anti_single(p: Pauli, q: u8)
    requires
        q < 64,
    ensures
        p.anti(z_on(q)) == bit(p.x, q as u64),
        p.anti(x_on(q)) == bit(p.z, q as u64),
{
    lemma_mask_algebra(p.x, 0, 0);
    lemma_mask_algebra(p.z, 0, 0);
    lemma_odd_bit(p.x, q as u64);
    lemma_odd_bit(p.z, q as u64);
}

proof fn lemma_turn(p: Pauli, s: Pauli, g: Clifford)
    ensures
        p.conjugated(g).r == phase_sum(p.r, p.turn(g)),
        p.same_masks(s) ==> p.turn(g) == s.turn(g) && p.conjugated(g).same_masks(s.conjugated(g)),
{
}

proof fn lemma_phase_difference(p: u8, s: u8, p2: u8, s2: u8, d: int, a: bool, b: bool, a2: bool, b2: bool)
    requires
        phase_sum(phase_sum(p, s + 2 * b2i(a)), d) == phase_sum(p2, s2 + 2 * b2i(a2)),
        phase_sum(phase_sum(s, p + 2 * b2i(b)), d) == phase_sum(s2, p2 + 2 * b2i(b2)),
    ensures
        (a == b) == (a2 == b2),
{
    reveal(phase_sum);
}

/// Conjugation keeps commutation relations.
pub proof fn law_conjugation_keeps_commutation(p: Pauli, s: Pauli, g: Clifford)
    requires
        g.below(64),
    ensures
        p.conjugated(g).anti(s.conjugated(g)) == p.anti(s),
{
    law_conjugation_is_multiplicative(p, s, g);
    law_conjugation_is_multiplicative(s, p, g);
    lemma_mask_algebra(p.x, s.x, 0);
    lemma_mask_algebra(p.z, s.z, 0);
    lemma_turn(p.times(s), s.times(p), g);
    lemma_turn(s.times(p), p.times(s), g);
    let (c, e) = (p.conjugated(g), s.conjugated(g));
    lemma_phase_difference(
        p.r,
        s.r,
        c.r,
        e.r,
        p.times(s).turn(g),
        odd(p.z & s.x),
        odd(s.z & p.x),
        odd(c.z & e.x),
        odd(e.z & c.x),
    );
    lemma_mask_algebra(s.z, p.x, 0);
    lemma_mask_algebra(e.z, c.x, 0);
}

/// An operator with a phase below 4 is Hermitian exactly when its square is the
/// identity.
pub proof fn lemma_hermitian_square(p: Pauli)
    ensures
        p.hermitian() == (p.r < 4 && p.times(p) == identity()),
{
    reveal(phase_sum);
    lemma_mask_algebra(p.x, p.z, 0);
    lemma_mask_algebra(p.z, p.x, 0);
}

proof fn lemma_conjugated_identity(g: Clifford)
    requires
        g.below(64),
    ensures
        identity().conjugated(g) == identity(),
{
    reveal(phase_sum);
    assert(forall|q: u64| #![trigger bit(0, q)] q < 64 ==> !bit(0, q) && with_bit(0, q, false) == 0)
        by (bit_vector);
    lemma_mask_algebra(0, 0, 0);
    match g {
        Clifford::H(q) => {
            assert(!bit(0, q as u64));
        },
        Clifford::S(q) => {
            assert(!bit(0, q as u64));
        },
        Clifford::X(q) => {
            assert(!bit(0, q as u64));
        },
        Clifford::Z(q) => {
            assert(!bit(0, q as u64));
        },
        Clifford::Cnot(a, b) => {
            assert(!bit(0, a as u64) && !bit(0, b as u64));
        },
        Clifford::Cz(a, b) => {
            assert(!bit(0, a as u64) && !bit(0, b as u64));
        },
        Clifford::Swap(a, b) => {
            assert(!bit(0, a as u64) && !bit(0, b as u64));
        },
    }
}

/// Conjugation keeps Hermitian operators Hermitian.
pub proof fn law_conjugation_keeps_hermitian(p: Pauli, g: Clifford)
    requires
        g.below(64),
        p.hermitian(),
    ensures
        p.conjugated(g).hermitian(),
{
    lemma_hermitian_square(p);
    law_conjugation_is_multiplicative(p, p, g);
    lemma_conjugated_identity(g);
    lemma_hermitian_square(p.conjugated(g));
    lemma_turn(p, p, g);
    reveal(phase_sum);
}

/// The product of two commuting Hermitian operators is Hermitian.
pub proof fn lemma_hermitian_product(p: Pauli, s: Pauli)
    requires
        p.hermitian(),
        s.hermitian(),
        !p.anti(s),
    ensures
        p.times(s).hermitian(),
{
    reveal(phase_sum);
    lemma_mask_algebra(p.x, s.x, p.z ^ s.z);
    lemma_mask_algebra(p.z, s.z, p.x);
    lemma_mask_algebra(p.z, s.z, s.x);
    lemma_mask_algebra(s.x, p.z, 0);
    lemma_odd_xor(p.x & (p.z ^ s.z), s.x & (p.z ^ s.z));
    lemma_odd_xor(p.x & p.z, p.x & s.z);
    lemma_odd_xor(s.x & p.z, s.x & s.z);
}

proof fn lemma_mask_involution(x: u64, z: u64, a: u64, b: u64)
    by (bit_vector)
    requires
        a < 64,
        b < 64,
    ensures
        with_bit(with_bit(x, a, bit(z, a)), a, bit(with_bit(z, a, bit(x, a)), a)) == x,
        with_bit(with_bit(z, a, bit(x, a)), a, bit(with_bit(x, a, bit(z, a)), a)) == z,
        bit(with_bit(x, a, bit(z, a)), a) == bit(z, a),
        bit(with_bit(z, a, bit(x, a)), a) == bit(x, a),
        (z ^ mask(bit(x, a), a)) ^ mask(bit(x, a), a) == z,
        a != b ==> bit(x ^ mask(bit(x, a), b), a) == bit(x, a),
        a != b ==> bit(x ^ mask(bit(x, b), a), b) == bit(x, b),
        (x ^ mask(bit(x, a), b)) ^ mask(bit(x, a), b) == x,
        (x ^ mask(bit(x, b), a)) ^ mask(bit(x, b), a) == x,
        (z ^ mask(bit(x, a), b) ^ mask(bit(x, b), a)) ^ mask(bit(x, a), b) ^ mask(bit(x, b), a) == z,
        swapped(swapped(x, a, b), a, b) == x,
{
}

proof fn lemma_phase_small(r: u8, a: int, b: int)
    ensures
        phase_sum(phase_sum(r, a), b) == phase_sum(r, a + b),
        r < 4 && a % 4 == 0 ==> phase_sum(r, a) == r,
{
    reveal(phase_sum);
}

/// Every gate of the tableau engine but `S` undoes itself; `S` applied twice is `Z`.
pub proof fn law_gates_undo_themselves(p: Pauli, g: Clifford)
    requires
        g.below(64),
        p.r < 4,
    ensures
        p.conjugated(g).conjugated(g) == (match g {
            Clifford::S(q) => p.conjugated(Clifford::Z(q)),
            _ => p,
        }),
{
    lemma_phase_small(p.r, p.turn(g), p.conjugated(g).turn(g));
    lemma_phase_small(p.r, p.turn(g) + p.conjugated(g).turn(g), 0);
    lemma_turn(p, p, g);
    lemma_turn(p.conjugated(g), p, g);
    match g {
        Clifford::H(q) => lemma_mask_involution(p.x, p.z, q as u64, q as u64),
        Clifford::S(q) => lemma_mask_involution(p.x, p.z, q as u64, q as u64),
        Clifford::X(q) => {},
        Clifford::Z(q) => {},
        Clifford::Cnot(a, b) => {
            lemma_mask_involution(p.x, p.z, a as u64, b as u64);
            lemma_mask_involution(p.z, p.x, a as u64, b as u64);
        },
        Clifford::Cz(a, b) => lemma_mask_involution(p.x, p.z, a as u64, b as u64),
        Clifford::Swap(a, b) => {
            lemma_mask_involution(p.x, p.z, a as u64, b as u64);
            lemma_mask_involution(p.z, p.x, a as u64, b as u64);
        },
    }
}

/// Conjugating twice restores the masks.
pub proof fn lemma_masks_restored(p: Pauli, g: Clifford)
    requires
        g.below(64),
    ensures
        p.conjugated(g).conjugated(g).same_masks(p),
{
    let c = Pauli { r: 0, ..p };
    law_gates_undo_themselves(c, g);
    lemma_turn(p, c, g);
    lemma_turn(p.conjugated(g), c.conjugated(g), g);
}

proof fn lemma_mask_range(x: u64, z: u64, a: u64, b: u64, n: u64)
    by (bit_vector)
    requires
        a < n,
        b < n,
        n < 64,
        x >> n == 0,
        z >> n == 0,
    ensures
        with_bit(x, a, bit(z, a)) >> n == 0,
        (x ^ mask(bit(x, a), b)) >> n == 0,
        (x ^ mask(bit(x, b), a)) >> n == 0,
        (z ^ mask(bit(x, a), b)) >> n == 0,
        (z ^ mask(bit(x, a), b) ^ mask(bit(x, b), a)) >> n == 0,
        swapped(x, a, b) >> n == 0,
        (x ^ z) >> n == 0,
        (1u64 << a) >> n == 0,
        0u64 >> n == 0,
{
}

/// Gates and products stay on the qubits they act on.
pub proof fn lemma_within(p: Pauli, s: Pauli, g: Clifford, n: nat)
    requires
        n < 64,
        p.within(n),
        s.within(n),
    ensures
        g.below(n) ==> p.conjugated(g).within(n),
        p.times(s).within(n),
{
    let k = n as u64;
    if g.below(n) {
        match g {
            Clifford::H(q) => {
                lemma_mask_range(p.x, p.z, q as u64, q as u64, k);
                lemma_mask_range(p.z, p.x, q as u64, q as u64, k);
            },
            Clifford::S(q) => lemma_mask_range(p.x, p.z, q as u64, q as u64, k),
            Clifford::X(q) => {},
            Clifford::Z(q) => {},
            Clifford::Cnot(a, b) => {
                lemma_mask_range(p.x, p.z, a as u64, b as u64, k);
                lemma_mask_range(p.z, p.x, a as u64, b as u64, k);
            },
            Clifford::Cz(a, b) => lemma_mask_range(p.x, p.z, a as u64, b as u64, k),
            Clifford::Swap(a, b) => {
                lemma_mask_range(p.x, p.z, a as u64, b as u64, k);
                lemma_mask_range(p.z, p.x, a as u64, b as u64, k);
            },
        }
    }
    let (px, pz, sx, sz) = (p.x, p.z, s.x, s.z);
    assert((px ^ sx) >> k == 0 && (pz ^ sz) >> k == 0) by (bit_vector)
        requires
            px >> k == 0,
            pz >> k == 0,
            sx >> k == 0,
            sz >> k == 0,
    ;
}

/// An operator on the qubits below `n` that commutes with every single X and Z
/// there has empty masks.
pub proof fn lemma_commutes_with_all(p: Pauli, n: nat)
    requires
        n < 64,
        p.within(n),
        forall|q: u8| q < n ==> !#[trigger] p.anti(z_on(q)) && !p.anti(x_on(q)),
    ensures
        p.x == 0,
        p.z == 0,
{
    let (x, z, k) = (p.x, p.z, n as u64);
    assert forall|q: u64| q < 64 implies !bit(x, q) && !bit(z, q) by {
        if q < n {
            let w = q as u8;
            assert(!p.anti(z_on(w)));
            lemma_anti_single(p, w);
        } else {
            assert(!bit(x, q) && !bit(z, q)) by (bit_vector)
                requires
                    q < 64,
                    k <= q,
                    x >> k == 0,
                    z >> k == 0,
            ;
        }
    }
    lemma_no_bits(x);
    lemma_no_bits(z);
}

/// Single X and Z operators: their range, and how they meet each other.
pub proof fn lemma_single(a: u8, b: u8, n: nat)
    requires
        a < n < 64,
        b < 64,
    ensures
        x_on(a).within(n),
        z_on(a).within(n),
        x_on(a).hermitian(),
        z_on(a).hermitian(),
        bit(1u64 << (a as u64), b as u64) == (a == b),
        !bit(0, b as u64),
        x_on(a).anti(z_on(b)) == (a == b),
        z_on(a).anti(x_on(b)) == (a == b),
        !x_on(a).anti(x_on(b)),
        !z_on(a).anti(z_on(b)),
{
    let (j, k, m) = (a as u64, b as u64, n as u64);
    assert((1u64 << j) >> m == 0 && 0u64 >> m == 0 && bit(1u64 << j, k) == (j == k) && !bit(0, k))
        by (bit_vector)
        requires
            j < m,
            m < 64,
            k < 64,
    ;
    lemma_mask_algebra(1u64 << j, 0, 0);
    lemma_anti_single(x_on(a), b);
    lemma_anti_single(z_on(a), b);
}

/// Operators whose product has empty masks have the same masks.
pub proof fn lemma_cancel(p: Pauli, s: Pauli)
    requires
        p.times(s).x == 0,
        p.times(s).z == 0,
    ensures
        p.same_masks(s),
{
    lemma_mask_algebra(p.x, s.x, 0);
    lemma_mask_algebra(p.z, s.z, 0);
    lemma_mask_algebra(s.x, s.z, 0);
    lemma_mask_algebra(s.z, s.x, 0);
}

/// The identity is neutral for products of operators with a reduced phase.
pub proof fn lemma_identity_product(p: Pauli)
    requires
        p.r < 4,
    ensures
        identity().times(p) == p,
        !identity().anti(p),
        !p.anti(identity()),
        identity().hermitian(),
{
    reveal(phase_sum);
    lemma_mask_algebra(0, 0, 0);
    lemma_mask_algebra(p.x, 0, 0);
    lemma_mask_algebra(p.z, 0, 0);
}

/// Products have reduced phases.
pub proof fn lemma_product_reduced(p: Pauli, s: Pauli)
    ensures
        p.times(s).r < 4,
{
    reveal(phase_sum);
}

proof fn lemma_equal_shift(a: u8, b: u8, d: int)
    ensures
        (phase_sum(a, d) - phase_sum(b, d)) % 4 == (a - b) % 4,
        phase_sum(a, d) < 4,
{
    reveal(phase_sum);
}

/// Conjugation acts on the identity trivially, and on masks injectively; it keeps
/// the phase difference of operators with equal masks.
pub proof fn lemma_conjugation_is_faithful(p: Pauli, s: Pauli, g: Clifford)
    requires
        g.below(64),
    ensures
        identity().conjugated(g) == identity(),
        p.conjugated(g).same_masks(s.conjugated(g)) == p.same_masks(s),
        p.same_masks(s) ==> (p.conjugated(g).r - s.conjugated(g).r) % 4 == (p.r - s.r) % 4,
        p.conjugated(g).r < 4,
{
    lemma_conjugated_identity(g);
    lemma_turn(p, s, g);
    lemma_turn(s, p, g);
    lemma_turn(p.conjugated(g), s.conjugated(g), g);
    lemma_masks_restored(p, g);
    lemma_masks_restored(s, g);
    lemma_equal_shift(p.r, s.r, p.turn(g));
}

/// H turns Z into X, S turns X into Y, and X turns Z into its negative.
pub proof fn lemma_basis_changes(q: u8)
    requires
        q < 64,
    ensures
        z_on(q).conjugated(Clifford::H(q)) == x_on(q),
        x_on(q).conjugated(Clifford::S(q)) == (Pauli {
            x: 1u64 << (q as u64),
            z: 1u64 << (q as u64),
            r: 1,
        }),
        z_on(q).conjugated(Clifford::X(q)) == (Pauli { x: 0, z: 1u64 << (q as u64), r: 2 }),
{
    reveal(phase_sum);
    let k = q as u64;
    assert(bit(1u64 << k, k) && !bit(0, k) && with_bit(0, k, true) == 1u64 << k && with_bit(
        1u64 << k,
        k,
        false,
    ) == 0 && 0 ^ mask(true, k) == 1u64 << k) by (bit_vector)
        requires
            k < 64,
    ;
}

} // verus!
