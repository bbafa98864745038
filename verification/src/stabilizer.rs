//! Exact simulation of Clifford circuits on a stabilizer tableau.
//!
//! The tableau of an `n`-qubit state has `2n` rows: rows `0..n` are the
//! destabilizers, rows `n..2n` the stabilizers, each a Pauli operator
//! `i^r X^x Z^z`. Gates conjugate every row; a measurement replaces one
//! stabilizer. The only random input is the seeded generator, drawn in a fixed
//! order, so a run is reproducible bit for bit.
use crate::pauli::{Clifford, Pauli};
use crate::rng::{HALF_DRAW, Lcg64};
use vstd::arithmetic::power2::pow2;
use vstd::prelude::*;

verus! {

/// Largest number of qubits the tableau supports.
pub const STAB_MAX_QUBITS: u8 = 28;

/// Rows of the largest tableau.
pub const TABLEAU_ROWS: usize = 56;

/// The tableau engine.
#[derive(Clone, Debug)]
pub struct StabilizerBackend {
    n: usize,
    rows: [Pauli; TABLEAU_ROWS],
}

/// The mathematical content of a [`StabilizerBackend`].
#[verifier::ext_equal]
pub struct Tableau {
    pub n: nat,
    pub rows: Seq<Pauli>,
}

/// The operator of one Pauli letter on qubit `q`: 0 is I, 1 is X, 2 is Y and 3 is Z,
/// with `Y = i X Z`.
pub open spec fn letter(code: u64, q: u64) -> Pauli {
    let one = 1u64 << q;
    if code == 1 {
        Pauli { x: one, z: 0, r: 0 }
    } else if code == 2 {
        Pauli { x: one, z: one, r: 1 }
    } else if code == 3 {
        Pauli { x: 0, z: one, r: 0 }
    } else {
        crate::pauli::identity()
    }
}

/// The Pauli product that the two-bit letters of `code` spell on the first `k`
/// qubits.
pub open spec fn spelled(code: u64, k: nat) -> Pauli
    decreases k,
{
    if k == 0 {
        crate::pauli::identity()
    } else {
        let q = (k - 1) as u64;
        spelled(code, (k - 1) as nat).times(letter((code >> (2 * q) as u64) & 3, q))
    }
}

impl Tableau {
    /// Two rows per qubit, and no more qubits than supported.
    pub open spec fn sized(self) -> bool {
        self.n <= STAB_MAX_QUBITS && self.rows.len() == 2 * self.n
    }

    /// Whether the phases of all rows are reduced modulo 4.
    pub open spec fn reduced(self) -> bool {
        forall|k: int| 0 <= k < self.rows.len() ==> (#[trigger] self.rows[k]).r < 4
    }

    /// The tableau of the all-zero state: destabilizer `k` is X on qubit `k`,
    /// stabilizer `k` is Z on qubit `k`.
    pub open spec fn ground(n: nat) -> Tableau {
        Tableau {
            n,
            rows: Seq::new(
                2 * n,
                |i: int|
                    if i < n {
                        crate::pauli::x_on(i as u8)
                    } else {
                        crate::pauli::z_on((i - n) as u8)
                    },
            ),
        }
    }

    /// Every row conjugated by a gate.
    pub open spec fn conjugated(self, g: Clifford) -> Tableau {
        Tableau { n: self.n, rows: self.rows.map_values(|p: Pauli| p.conjugated(g)) }
    }

    /// Whether some stabilizer anticommutes with `p`.
    pub open spec fn disturbs(self, p: Pauli) -> bool {
        exists|k: int| self.n <= k < 2 * self.n && p.anti(#[trigger] self.rows[k])
    }

    /// The product, in order, of the stabilizers among the first `k` whose
    /// destabilizer anticommutes with `p`.
    pub open spec fn decoded(self, p: Pauli, k: nat) -> Pauli
        decreases k,
    {
        if k == 0 {
            crate::pauli::identity()
        } else {
            let a = self.decoded(p, (k - 1) as nat);
            if p.anti(self.rows[k - 1]) {
                a.times(self.rows[self.n + k - 1])
            } else {
                a
            }
        }
    }

    /// The sign with which `p` is a product of stabilizers, if it is one.
    pub open spec fn group_sign(self, p: Pauli) -> Option<i8> {
        let d = self.decoded(p, self.n);
        if !d.same_masks(p) {
            None
        } else if (d.r - p.r) % 4 == 0 {
            Some(1)
        } else if (d.r - p.r) % 4 == 2 {
            Some((-1) as i8)
        } else {
            None
        }
    }

    /// The expectation value of `p`: zero when a stabilizer anticommutes with
    /// it, else its sign in the stabilizer group.
    pub open spec fn expectation(self, p: Pauli) -> i8 {
        if self.disturbs(p) {
            0
        } else {
            match self.group_sign(p) {
                Some(v) => v,
                None => 0,
            }
        }
    }

    /// The first stabilizer row at or after `from` with an X part on qubit `q`.
    pub open spec fn pivot_from(self, q: u8, from: int) -> Option<int>
        decreases 2 * self.n - from,
    {
        if from >= 2 * self.n {
            None
        } else if crate::pauli::bit(self.rows[from].x, q as u64) {
            Some(from)
        } else {
            self.pivot_from(q, from + 1)
        }
    }

    /// The first stabilizer row with an X part on qubit `q`.
    pub open spec fn pivot(self, q: u8) -> Option<int> {
        self.pivot_from(q, self.n as int)
    }

    /// The tableau after qubit `q` was found in state `outcome` with pivot row
    /// `i`: the pivot is multiplied into every other row with an X part on `q`,
    /// becomes the destabilizer, and `+Z` or `-Z` on `q` takes its place.
    pub open spec fn projected(self, q: u8, i: int, outcome: u8) -> Tableau {
        Tableau {
            n: self.n,
            rows: Seq::new(
                self.rows.len(),
                |j: int|
                    if j == i {
                        Pauli { x: 0, z: 1u64 << (q as u64), r: (2 * outcome) as u8 }
                    } else if j == i - self.n {
                        self.rows[i]
                    } else if crate::pauli::bit(self.rows[j].x, q as u64) {
                        self.rows[j].times(self.rows[i])
                    } else {
                        self.rows[j]
                    },
            ),
        }
    }

    /// The outcome of measuring qubit `q` when it does not depend on chance.
    pub open spec fn fixed_outcome(self, q: u8) -> u8 {
        if self.group_sign(crate::pauli::z_on(q)) == Some((-1) as i8) {
            1
        } else {
            0
        }
    }

    /// Twice the probability that measuring qubit `q` gives 1: one where the
    /// outcome depends on chance, else zero or two.
    pub open spec fn one_halves(self, q: u8) -> u8 {
        match self.pivot(q) {
            Some(_) => 1,
            None => match self.group_sign(crate::pauli::z_on(q)) {
                Some(v) => if v > 0 {
                    0
                } else {
                    2
                },
                None => 1,
            },
        }
    }

    /// Tableau, generator state and outcome after measuring qubit `q` in the Z
    /// basis.
    pub open spec fn measured(self, q: u8, seed: u64) -> (Tableau, u64, u8) {
        match self.pivot(q) {
            None => (self, seed, self.fixed_outcome(q)),
            Some(i) => {
                let next = crate::rng::lcg_next(seed);
                let outcome: u8 = if crate::rng::lcg_value(next) < HALF_DRAW {
                    1
                } else {
                    0
                };
                (self.projected(q, i, outcome), next, outcome)
            },
        }
    }

    /// The same in the X basis: rotated by H before and after.
    pub open spec fn measured_x(self, q: u8, seed: u64) -> (Tableau, u64, u8) {
        let m = self.conjugated(Clifford::H(q)).measured(q, seed);
        (m.0.conjugated(Clifford::H(q)), m.1, m.2)
    }

    /// Every row conjugated by the inverse of S, which is S applied three times.
    pub open spec fn conjugated_sdg(self, q: u8) -> Tableau {
        self.conjugated(Clifford::S(q)).conjugated(Clifford::S(q)).conjugated(Clifford::S(q))
    }

    /// The same in the Y basis: rotated by the inverse of S and by H before, by H
    /// and S after.
    pub open spec fn measured_y(self, q: u8, seed: u64) -> (Tableau, u64, u8) {
        let m = self.conjugated_sdg(q).conjugated(Clifford::H(q)).measured(q, seed);
        (m.0.conjugated(Clifford::H(q)).conjugated(Clifford::S(q)), m.1, m.2)
    }

    /// Measured, then turned back to zero by X if the outcome was 1.
    pub open spec fn cleared(self, q: u8, seed: u64) -> (Tableau, u64, u8) {
        let m = self.measured(q, seed);
        (
            if m.2 == 1 {
                m.0.conjugated(Clifford::X(q))
            } else {
                m.0
            },
            m.1,
            m.2,
        )
    }

    /// Tableau, generator state and basis index after measuring the first `k`
    /// qubits in order; bit `q` of the index is the outcome of qubit `q`.
    pub open spec fn sampled(self, k: nat, seed: u64) -> (Tableau, u64, nat)
        decreases k,
    {
        if k == 0 {
            (self, seed, 0)
        } else {
            let s = self.sampled((k - 1) as nat, seed);
            let m = s.0.measured((k - 1) as u8, s.1);
            (
                m.0,
                m.1,
                s.2 + if m.2 == 1 {
                    pow2((k - 1) as nat)
                } else {
                    0
                },
            )
        }
    }
}

proof fn lemma_pivot_from(t: Tableau, q: u8, from: int, to: int)
    requires
        0 <= from <= to,
        forall|j: int| from <= j < to ==> !crate::pauli::bit(#[trigger] t.rows[j].x, q as u64),
        to < 2 * t.n ==> crate::pauli::bit(t.rows[to].x, q as u64),
        to <= 2 * t.n,
    ensures
        t.pivot_from(q, from) == if to < 2 * t.n {
            Some(to)
        } else {
            None
        },
    decreases to - from,
{
    if from < to {
        assert(!crate::pauli::bit(t.rows[from].x, q as u64));
        lemma_pivot_from(t, q, from + 1, to);
    }
}

impl View for StabilizerBackend {
    type V = Tableau;

    closed spec fn view(&self) -> Tableau {
        Tableau { n: self.n as nat, rows: self.rows@.subrange(0, 2 * self.n as int) }
    }
}

impl StabilizerBackend {
    /// Whether the tableau has a supported size and reduced phases.
    pub open spec fn valid(&self) -> bool {
        self@.sized() && self@.reduced()
    }

    /// The all-zero state of `num_qubits` qubits.
    pub fn new(num_qubits: u8) -> (sb: Self)
        requires
            num_qubits <= STAB_MAX_QUBITS,
        ensures
            sb.valid(),
            sb@ == Tableau::ground(num_qubits as nat),
    {
        let n: usize = num_qubits as usize;
        let mut sb = StabilizerBackend { n, rows: [Pauli { x: 0, z: 0, r: 0 }; TABLEAU_ROWS] };
        let mut k: usize = 0;
        while k < n
            invariant
                k <= n == num_qubits <= STAB_MAX_QUBITS,
                sb.n == n,
                forall|i: int| 0 <= i < k ==> #[trigger] sb.rows@[i] == crate::pauli::x_on(i as u8),
                forall|i: int|
                    n <= i < n + k ==> #[trigger] sb.rows@[i] == crate::pauli::z_on((i - n) as u8),
            decreases n - k,
        {
            let one: u64 = 1u64 << k;
            sb.rows[k] = Pauli { x: one, z: 0, r: 0 };
            sb.rows[n + k] = Pauli { x: 0, z: one, r: 0 };
            k += 1;
        }
        assert(sb@.rows =~= Tableau::ground(num_qubits as nat).rows);
        sb
    }

    /// Back to the all-zero state.
    pub fn reset(&mut self)
        requires
            old(self).valid(),
        ensures
            final(self).valid(),
            final(self)@ == Tableau::ground(old(self)@.n),
    {
        *self = Self::new(self.n as u8);
    }

    /// Number of basis states.
    pub fn dim(&self) -> (d: usize)
        requires
            self.valid(),
        ensures
            d == pow2(self@.n),
    {
        proof {
            let n = self.n as nat;
            vstd::arithmetic::power2::lemma2_to64();
            vstd::arithmetic::power2::lemma2_to64_rest();
            vstd::arithmetic::power2::lemma_pow2_strictly_increases(n, 29);
            vstd::bits::lemma_usize_shl_is_mul(1, self.n);
        }
        1usize << self.n
    }

    /// Conjugates every row by a gate.
    fn conjugate(&mut self, g: Clifford)
        requires
            old(self).valid(),
            g.below(64),
        ensures
            final(self).valid(),
            final(self)@ == old(self)@.conjugated(g),
    {
        let m: usize = 2 * self.n;
        let mut i: usize = 0;
        while i < m
            invariant
                self.n == old(self).n,
                m == 2 * self.n <= TABLEAU_ROWS,
                i <= m,
                g.below(64),
                forall|k: int| 0 <= k < i ==> self.rows@[k] == old(self).rows@[k].conjugated(g),
                forall|k: int| i <= k < m ==> self.rows@[k] == old(self).rows@[k],
            decreases m - i,
        {
            self.rows[i] = self.rows[i].conjugate(g);
            i += 1;
        }
        assert(self@.rows =~= old(self)@.conjugated(g).rows);
        assert forall|k: int| 0 <= k < self@.rows.len() implies (#[trigger] self@.rows[k]).r < 4 by {
            let p = old(self)@.rows[k];
            crate::pauli::lemma_conjugation_is_faithful(p, p, g);
        }
    }

    /// Hadamard.
    pub fn apply_h(&mut self, q: u8)
        requires
            old(self).valid(),
            q < 64,
        ensures
            final(self).valid(),
            final(self)@ == old(self)@.conjugated(Clifford::H(q)),
    {
        self.conjugate(Clifford::H(q));
    }

    /// S = diag(1, i).
    pub fn apply_s(&mut self, q: u8)
        requires
            old(self).valid(),
            q < 64,
        ensures
            final(self).valid(),
            final(self)@ == old(self)@.conjugated(Clifford::S(q)),
    {
        self.conjugate(Clifford::S(q));
    }

    /// Pauli X.
    pub fn apply_x(&mut self, q: u8)
        requires
            old(self).valid(),
            q < 64,
        ensures
            final(self).valid(),
            final(self)@ == old(self)@.conjugated(Clifford::X(q)),
    {
        self.conjugate(Clifford::X(q));
    }

    /// Pauli Z.
    pub fn apply_z(&mut self, q: u8)
        requires
            old(self).valid(),
            q < 64,
        ensures
            final(self).valid(),
            final(self)@ == old(self)@.conjugated(Clifford::Z(q)),
    {
        self.conjugate(Clifford::Z(q));
    }

    /// Controlled X.
    pub fn apply_cnot(&mut self, c: u8, t: u8)
        requires
            old(self).valid(),
            c < 64,
            t < 64,
        ensures
            final(self).valid(),
            final(self)@ == old(self)@.conjugated(Clifford::Cnot(c, t)),
    {
        self.conjugate(Clifford::Cnot(c, t));
    }

    /// Controlled Z.
    pub fn apply_cz(&mut self, a: u8, b: u8)
        requires
            old(self).valid(),
            a < 64,
            b < 64,
        ensures
            final(self).valid(),
            final(self)@ == old(self)@.conjugated(Clifford::Cz(a, b)),
    {
        self.conjugate(Clifford::Cz(a, b));
    }

    /// Exchanges two qubits.
    pub fn apply_swap(&mut self, a: u8, b: u8)
        requires
            old(self).valid(),
            a < 64,
            b < 64,
        ensures
            final(self).valid(),
            final(self)@ == old(self)@.conjugated(Clifford::Swap(a, b)),
    {
        self.conjugate(Clifford::Swap(a, b));
    }

    /// Multiplies `row` into row `h` from the right.
    fn rowsum_into(&mut self, h: usize, row: Pauli)
        requires
            old(self).valid(),
            h < old(self)@.rows.len(),
        ensures
            final(self).valid(),
            final(self)@ == (Tableau {
                rows: old(self)@.rows.update(h as int, old(self)@.rows[h as int].times(row)),
                ..old(self)@
            }),
    {
        proof {
            crate::pauli::lemma_product_reduced(self.rows@[h as int], row);
        }
        self.rows[h] = self.rows[h].multiply(row);
        assert(self@.rows =~= old(self)@.rows.update(h as int, old(self)@.rows[h as int].times(row)));
    }

    /// The sign with which `p` is a product of stabilizers, if it is one.
    fn group_value(&self, p: Pauli) -> (v: Option<i8>)
        requires
            self.valid(),
        ensures
            v == self@.group_sign(p),
    {
        let n: usize = self.n;
        let mut acc = Pauli { x: 0, z: 0, r: 0 };
        let mut k: usize = 0;
        while k < n
            invariant
                k <= n == self.n,
                self.valid(),
                acc == self@.decoded(p, k as nat),
            decreases n - k,
        {
            assert(self@.rows[k as int] == self.rows@[k as int]);
            assert(self@.rows[n + k] == self.rows@[n + k]);
            if p.anticommutes(self.rows[k]) {
                acc = acc.multiply(self.rows[n + k]);
            }
            k += 1;
        }
        if acc.x != p.x || acc.z != p.z {
            return None;
        }
        let d: u8 = ((acc.r % 4) + 4 - (p.r % 4)) % 4;
        assert((acc.r - p.r) % 4 == d as int);
        if d == 0 {
            Some(1)
        } else if d == 2 {
            Some(-1)
        } else {
            None
        }
    }

    /// The first stabilizer row with an X part on qubit `q`.
    fn find_pivot(&self, q: u8) -> (i: Option<usize>)
        requires
            self.valid(),
            q < 64,
        ensures
            i is Some <==> self@.pivot(q) is Some,
            i matches Some(k) ==> self@.pivot(q) == Some(k as int) && self@.n <= k < 2 * self@.n
                && crate::pauli::bit(self@.rows[k as int].x, q as u64),
    {
        let m: usize = 2 * self.n;
        let mut k: usize = self.n;
        while k < m
            invariant
                self.valid(),
                m == 2 * self.n,
                self.n <= k <= m,
                q < 64,
                forall|j: int|
                    self.n <= j < k ==> !crate::pauli::bit(#[trigger] self@.rows[j].x, q as u64),
            decreases m - k,
        {
            assert(self@.rows[k as int] == self.rows@[k as int]);
            if (self.rows[k].x >> q) & 1 == 1 {
                proof {
                    lemma_pivot_from(self@, q, self.n as int, k as int);
                }
                return Some(k);
            }
            k += 1;
        }
        proof {
            lemma_pivot_from(self@, q, self.n as int, m as int);
        }
        None
    }

    /// Twice the probability that measuring qubit `q` in the Z basis gives 1.
    pub fn probability(&self, q: u8) -> (halves: u8)
        requires
            self.valid(),
            q < 64,
        ensures
            halves == self@.one_halves(q),
    {
        if self.find_pivot(q).is_some() {
            return 1;
        }
        match self.group_value(Pauli { x: 0, z: 1u64 << q, r: 0 }) {
            Some(v) => if v > 0 {
                0
            } else {
                2
            },
            None => 1,
        }
    }

    /// Measures qubit `q` in the Z basis. One number is drawn from `rng`, unless
    /// the outcome is fixed by the state.
    pub fn measure(&mut self, q: u8, rng: &mut Lcg64) -> (o: u8)
        requires
            old(self).valid(),
            q < 64,
        ensures
            final(self).valid(),
            (final(self)@, final(rng).0, o) == old(self)@.measured(q, old(rng).0),
    {
        match self.find_pivot(q) {
            None => {
                match self.group_value(Pauli { x: 0, z: 1u64 << q, r: 0 }) {
                    Some(v) => if v > 0 {
                        0
                    } else {
                        1
                    },
                    None => 0,
                }
            },
            Some(i) => {
                let outcome: u8 = if rng.next_bits() < HALF_DRAW {
                    1
                } else {
                    0
                };
                let n: usize = self.n;
                let m: usize = 2 * n;
                assert(self@.rows[i as int] == self.rows@[i as int]);
                let pivot: Pauli = self.rows[i];
                let mut j: usize = 0;
                while j < m
                    invariant
                        self.valid(),
                        self@.n == old(self)@.n,
                        old(self).valid(),
                        n == self.n,
                        m == 2 * n,
                        j <= m,
                        i < m,
                        q < 64,
                        pivot == old(self)@.rows[i as int],
                        forall|k: int|
                            0 <= k < m && (k >= j || k == i) ==> self@.rows[k] == old(self)@.rows[k],
                        forall|k: int|
                            0 <= k < j && k != i ==> #[trigger] self@.rows[k] == if crate::pauli::bit(
                                old(self)@.rows[k].x,
                                q as u64,
                            ) {
                                old(self)@.rows[k].times(pivot)
                            } else {
                                old(self)@.rows[k]
                            },
                    decreases m - j,
                {
                    assert(self@.rows[j as int] == self.rows@[j as int]);
                    if j != i && (self.rows[j].x >> q) & 1 == 1 {
                        self.rowsum_into(j, pivot);
                    }
                    j += 1;
                }
                let ghost mid = self@;
                let ghost before = self.rows@;
                self.rows[i] = Pauli { x: 0, z: 1u64 << q, r: 2 * outcome };
                self.rows[i - n] = pivot;
                assert(self@.rows =~= old(self)@.projected(q, i as int, outcome).rows) by {
                    assert forall|k: int| 0 <= k < m implies self@.rows[k] == old(self)@.projected(
                        q,
                        i as int,
                        outcome,
                    ).rows[k] by {
                        assert(self@.rows[k] == self.rows@[k]);
                        assert(mid.rows[k] == before[k]);
                    }
                }
                assert forall|k: int| 0 <= k < self@.rows.len() implies (
                #[trigger] self@.rows[k]).r < 4 by {
                    assert(self@.rows[k] == self.rows@[k]);
                    assert(mid.rows[k] == before[k]);
                    assert(old(self)@.rows[i as int].r < 4);
                }
                outcome
            },
        }
    }

    /// Measures in the X basis.
    pub fn measure_x(&mut self, q: u8, rng: &mut Lcg64) -> (o: u8)
        requires
            old(self).valid(),
            q < 64,
        ensures
            final(self).valid(),
            (final(self)@, final(rng).0, o) == old(self)@.measured_x(q, old(rng).0),
    {
        self.apply_h(q);
        let o: u8 = self.measure(q, rng);
        self.apply_h(q);
        o
    }

    /// Measures in the Y basis.
    pub fn measure_y(&mut self, q: u8, rng: &mut Lcg64) -> (o: u8)
        requires
            old(self).valid(),
            q < 64,
        ensures
            final(self).valid(),
            (final(self)@, final(rng).0, o) == old(self)@.measured_y(q, old(rng).0),
    {
        self.apply_s(q);
        self.apply_s(q);
        self.apply_s(q);
        self.apply_h(q);
        let o: u8 = self.measure(q, rng);
        self.apply_h(q);
        self.apply_s(q);
        o
    }

    /// Measures qubit `q` and turns it back to zero.
    pub fn measure_and_reset(&mut self, q: u8, rng: &mut Lcg64) -> (o: u8)
        requires
            old(self).valid(),
            q < 64,
        ensures
            final(self).valid(),
            (final(self)@, final(rng).0, o) == old(self)@.cleared(q, old(rng).0),
    {
        let o: u8 = self.measure(q, rng);
        if o == 1 {
            self.apply_x(q);
        }
        o
    }

    /// Draws a basis state by measuring every qubit in order.
    pub fn sample(&mut self, rng: &mut Lcg64) -> (out: usize)
        requires
            old(self).valid(),
        ensures
            final(self).valid(),
            (final(self)@, final(rng).0, out as nat) == old(self)@.sampled(
                old(self)@.n,
                old(rng).0,
            ),
            out < pow2(old(self)@.n),
    {
        let n: usize = self.n;
        let mut out: usize = 0;
        let mut q: u8 = 0;
        proof {
            vstd::arithmetic::power2::lemma2_to64();
        }
        while (q as usize) < n
            invariant
                self.valid(),
                n == self.n,
                self@.n == old(self)@.n,
                q <= n <= STAB_MAX_QUBITS,
                (self@, rng.0, out as nat) == old(self)@.sampled(q as nat, old(rng).0),
                out < pow2(q as nat),
            decreases n - q,
        {
            proof {
                vstd::arithmetic::power2::lemma2_to64();
                vstd::arithmetic::power2::lemma2_to64_rest();
                if q < 28 {
                    vstd::arithmetic::power2::lemma_pow2_strictly_increases(q as nat, 28);
                }
                vstd::arithmetic::power2::lemma_pow2_unfold((q + 1) as nat);
                vstd::bits::lemma_usize_shl_is_mul(1, q as usize);
            }
            if self.measure(q, rng) == 1 {
                out = out + (1usize << (q as usize));
            }
            q += 1;
        }
        out
    }

    /// The expectation value of a Pauli product, two bits per qubit.
    pub fn expect_value(&self, pauli: u64) -> (v: i8)
        requires
            self.valid(),
        ensures
            v == self@.expectation(spelled(pauli, 32)),
    {
        let mut p = Pauli { x: 0, z: 0, r: 0 };
        let mut q: u64 = 0;
        while q < 32
            invariant
                q <= 32,
                p == spelled(pauli, q as nat),
            decreases 32 - q,
        {
            let code: u64 = (pauli >> (2 * q)) & 3;
            let one: u64 = 1u64 << q;
            let l = if code == 1 {
                Pauli { x: one, z: 0, r: 0 }
            } else if code == 2 {
                Pauli { x: one, z: one, r: 1 }
            } else if code == 3 {
                Pauli { x: 0, z: one, r: 0 }
            } else {
                Pauli { x: 0, z: 0, r: 0 }
            };
            p = p.multiply(l);
            q += 1;
        }
        let m: usize = 2 * self.n;
        let mut i: usize = self.n;
        while i < m
            invariant
                self.valid(),
                m == 2 * self.n,
                self.n <= i <= m,
                p == spelled(pauli, 32),
                forall|k: int| self.n <= k < i ==> !p.anti(#[trigger] self@.rows[k]),
            decreases m - i,
        {
            assert(self@.rows[i as int] == self.rows@[i as int]);
            if p.anticommutes(self.rows[i]) {
                return 0;
            }
            i += 1;
        }
        match self.group_value(p) {
            Some(v) => v,
            None => 0,
        }
    }

    /// Nothing is left to do after a measurement: the tableau already holds the
    /// state it left behind.
    pub fn collapse(&mut self, _q: u8, _outcome: u8)
        ensures
            final(self)@ == old(self)@,
    {
    }

    /// The total probability of a stabilizer state.
    pub fn norm(&self) -> (one: u8)
        ensures
            one == 1,
    {
        1
    }

    /// The rows as (x mask, z mask, phase exponent).
    pub fn dump_tableau(&self) -> (rows: Vec<(u64, u64, u8)>)
        requires
            self.valid(),
        ensures
            rows@ == self@.rows.map_values(|p: Pauli| (p.x, p.z, p.r)),
    {
        let m: usize = 2 * self.n;
        let mut rows: Vec<(u64, u64, u8)> = Vec::new();
        let mut i: usize = 0;
        while i < m
            invariant
                self.valid(),
                m == 2 * self.n,
                i <= m,
                rows@ == self@.rows.take(i as int).map_values(|p: Pauli| (p.x, p.z, p.r)),
            decreases m - i,
        {
            let p: Pauli = self.rows[i];
            assert(self@.rows[i as int] == p);
            assert(self@.rows.take(i + 1) =~= self@.rows.take(i as int).push(p));
            rows.push((p.x, p.z, p.r));
            i += 1;
        }
        assert(self@.rows.take(m as int) =~= self@.rows);
        rows
    }
}

} // verus!
