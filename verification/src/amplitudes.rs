//! State vectors: how gates move amplitudes and which amplitudes they combine. The
//! numbers themselves, and the arithmetic on them, belong to the caller.
use crate::pauli::lemma_mask_algebra;
use vstd::prelude::*;

verus! {

/// The all-zero basis state.
pub const GROUND_STATE: usize = 0;

/// The bit of a qubit in a basis index.
pub open spec fn bit(q: u8) -> u64 {
    1u64 << (q as u64)
}

/// Whether basis index `i` has all bits of `on` and none of `off`.
pub open spec fn selected(i: u64, on: u64, off: u64) -> bool {
    i & on == on && i & off == 0
}

/// The amplitudes of a register: entry `i` of `re` and `im` is the amplitude of
/// basis state `i`, whose bit `q` is the value of qubit `q`.
#[derive(Clone, Debug)]
pub struct State<T> {
    pub re: Vec<T>,
    pub im: Vec<T>,
}

impl<T> View for State<T> {
    type V = Seq<(T, T)>;

    open spec fn view(&self) -> Seq<(T, T)> {
        Seq::new(self.re@.len(), |i: int| (self.re@[i], self.im@[i]))
    }
}

/// A register of `q` qubits has `2^q` amplitudes.
pub open spec fn register(len: nat, q: u8) -> bool {
    q < 64 && len == bit(q)
}

/// The amplitudes after each selected one changed places with the one whose index
/// differs in the bits of `flip`.
pub open spec fn moved<A>(s: Seq<A>, on: u64, off: u64, flip: u64) -> Seq<A> {
    Seq::new(
        s.len(),
        |i: int|
            if selected(i as u64, on, off) || selected(i as u64 ^ flip, on, off) {
                s[(i as u64 ^ flip) as int]
            } else {
                s[i]
            },
    )
}

/// Whether selected amplitudes and their partners are disjoint and inside.
pub open spec fn paired(len: nat, on: u64, off: u64, flip: u64) -> bool {
    forall|i: u64| #[trigger]
        selected(i, on, off) && i < len ==> (i ^ flip) < len && !selected(i ^ flip, on, off)
}

pub proof fn lemma_flip_back(x: u64, f: u64)
    ensures
        (x ^ f) ^ f == x,
{
    lemma_mask_algebra(x, f, 0);
}

pub proof fn lemma_flip_inside(x: u64, f: u64, k: u64)
    requires
        k < 64,
        x < (1u64 << k),
        f < (1u64 << k),
    ensures
        (x ^ f) < (1u64 << k),
{
    assert(k < 64 && x < (1u64 << k) && f < (1u64 << k) ==> (x ^ f) < (1u64 << k)) by (bit_vector);
}

pub proof fn lemma_bit(q: u8, k: u8)
    requires
        q < k < 64,
    ensures
        0 < bit(q) < bit(k),
{
    let (a, b) = (q as u64, k as u64);
    assert(a < b < 64 ==> 0 < (1u64 << a) && (1u64 << a) < (1u64 << b)) by (bit_vector);
}

/// A flip of one bit, under controls, pairs amplitudes.
proof fn lemma_flip_pairs(len: nat, k: u8, on: u64, q: u8)
    requires
        register(len, k),
        q < k,
    ensures
        paired(len, on, bit(q), bit(q)),
{
    lemma_bit(q, k);
    let b = bit(q);
    assert forall|i: u64| #[trigger] selected(i, on, b) && i < len implies (i ^ b) < len
        && !selected(i ^ b, on, b) by {
        lemma_flip_inside(i, b, k as u64);
        assert(i & b == 0 && b != 0 ==> (i ^ b) & b != 0) by (bit_vector);
    }
}

/// An exchange of two bits, under controls, pairs amplitudes.
proof fn lemma_exchange_pairs(len: nat, k: u8, on: u64, p: u8, q: u8)
    requires
        register(len, k),
        p < k,
        q < k,
    ensures
        paired(len, on | bit(p), bit(q), bit(p) ^ bit(q)),
{
    lemma_bit(p, k);
    lemma_bit(q, k);
    let (a, b) = (bit(p), bit(q));
    let (u, v) = (p as u64, q as u64);
    lemma_flip_inside(a, b, k as u64);
    assert forall|i: u64| #[trigger] selected(i, on | a, b) && i < len implies (i ^ (a ^ b)) < len
        && !selected(i ^ (a ^ b), on | a, b) by {
        lemma_flip_inside(i, a ^ b, k as u64);
        assert(u < 64 && v < 64 && a == (1u64 << u) && b == (1u64 << v) && i & (on | a) == (on | a)
            && i & b == 0 ==> (i ^ (a ^ b)) & (on | a) != (on | a)) by (bit_vector);
    }
}

/// A controlled flip in direct form: where no control is the target, each amplitude
/// whose index has all control bits comes from the index with the target bit
/// flipped, and the others stay; where the target is a control, all stay.
pub proof fn law_controlled_flip<A>(s: Seq<A>, k: u8, on: u64, q: u8)
    requires
        register(s.len(), k),
        q < k,
    ensures
        on & bit(q) == 0 ==> moved(s, on, bit(q), bit(q)) == Seq::new(
            s.len(),
            |i: int|
                if i as u64 & on == on {
                    s[(i as u64 ^ bit(q)) as int]
                } else {
                    s[i]
                },
        ),
        on & bit(q) != 0 ==> moved(s, on, bit(q), bit(q)) == s,
{
    lemma_bit(q, k);
    let b = bit(q);
    let v = q as u64;
    let m = moved(s, on, b, b);
    if on & b == 0 {
        let d = Seq::new(
            s.len(),
            |i: int|
                if i as u64 & on == on {
                    s[(i as u64 ^ b) as int]
                } else {
                    s[i]
                },
        );
        assert forall|i: int| 0 <= i < s.len() implies m[i] == d[i] by {
            let x = i as u64;
            assert(v < 64 && b == (1u64 << v) && on & b == 0 ==> ((x & on == on && x & b == 0 || (x
                ^ b) & on == on && (x ^ b) & b == 0) == (x & on == on))) by (bit_vector);
        }
        assert(m =~= d);
    } else {
        assert forall|i: int| 0 <= i < s.len() implies m[i] == s[i] by {
            let x = i as u64;
            assert(v < 64 && b == (1u64 << v) && on & b != 0 ==> !(x & on == on && x & b == 0) && !((
            x ^ b) & on == on && (x ^ b) & b == 0)) by (bit_vector);
        }
        assert(m =~= s);
    }
}

/// A controlled exchange in direct form: where the two qubits differ and neither is
/// a control, each amplitude whose index has all control bits and different values
/// in the two bits comes from the index with both flipped, and the others stay;
/// exchanging a qubit with itself changes nothing.
pub proof fn law_controlled_exchange<A>(s: Seq<A>, k: u8, on: u64, p: u8, q: u8)
    requires
        register(s.len(), k),
        p < k,
        q < k,
    ensures
        p != q && on & (bit(p) | bit(q)) == 0 ==> moved(
            s,
            on | bit(p),
            bit(q),
            bit(p) ^ bit(q),
        ) == Seq::new(
            s.len(),
            |i: int|
                if i as u64 & on == on && (i as u64 & bit(p) == 0) != (i as u64 & bit(q) == 0) {
                    s[(i as u64 ^ (bit(p) ^ bit(q))) as int]
                } else {
                    s[i]
                },
        ),
        p == q ==> moved(s, on | bit(p), bit(q), bit(p) ^ bit(q)) == s,
{
    lemma_bit(p, k);
    lemma_bit(q, k);
    let (a, b) = (bit(p), bit(q));
    let (u, v) = (p as u64, q as u64);
    let m = moved(s, on | a, b, a ^ b);
    if p == q {
        assert forall|i: int| 0 <= i < s.len() implies m[i] == s[i] by {
            let x = i as u64;
            assert(u < 64 && a == (1u64 << u) ==> a ^ a == 0 && x ^ 0 == x && !(x & (on | a) == (on
                | a) && x & a == 0)) by (bit_vector);
        }
        assert(m =~= s);
    } else if on & (a | b) == 0 {
        let d = Seq::new(
            s.len(),
            |i: int|
                if i as u64 & on == on && (i as u64 & a == 0) != (i as u64 & b == 0) {
                    s[(i as u64 ^ (a ^ b)) as int]
                } else {
                    s[i]
                },
        );
        assert forall|i: int| 0 <= i < s.len() implies m[i] == d[i] by {
            let x = i as u64;
            let y = x ^ (a ^ b);
            assert(u != v && u < 64 && v < 64 && a == (1u64 << u) && b == (1u64 << v) && on & (a | b)
                == 0 && y == x ^ (a ^ b) ==> ((x & (on | a) == (on | a) && x & b == 0 || y & (on
                | a) == (on | a) && y & b == 0) == (x & on == on && (x & a == 0) != (x & b == 0))))
                by (bit_vector);
        }
        assert(m =~= d);
    }
}

/// Moving amplitudes twice puts them back.
pub proof fn law_moves_undo_themselves<A>(s: Seq<A>, k: u8, on: u64, off: u64, flip: u64)
    requires
        register(s.len(), k),
        flip < s.len(),
        paired(s.len(), on, off, flip),
    ensures
        moved(moved(s, on, off, flip), on, off, flip) == s,
{
    let m = moved(s, on, off, flip);
    let mm = moved(m, on, off, flip);
    assert forall|i: int| 0 <= i < s.len() implies mm[i] == s[i] by {
        let x = i as u64;
        let y = x ^ flip;
        lemma_flip_back(x, flip);
        lemma_flip_inside(x, flip, k as u64);
        assert(m[y as int] == if selected(y, on, off) || selected(x, on, off) {
            s[i]
        } else {
            s[y as int]
        });
    }
    assert(mm =~= s);
}

/// The letter of a Pauli code at qubit `q`: 0 is I, 1 is X, 2 is Y, 3 is Z.
pub open spec fn letter_at(pauli: u64, q: u64) -> u64 {
    (pauli >> ((2 * q) as u64)) & 3
}

/// Whether bit `q` of a mask is set.
pub open spec fn marked(mask: u64, q: u64) -> bool {
    (mask >> q) & 1 == 1
}

/// The number of Y letters at the first `n` qubits.
pub open spec fn y_count(pauli: u64, n: nat) -> nat
    decreases n,
{
    if n == 0 {
        0
    } else {
        y_count(pauli, (n - 1) as nat) + if letter_at(pauli, (n - 1) as u64) == 2 {
            1nat
        } else {
            0nat
        }
    }
}

/// A Pauli product as the bits it flips, the bits it takes the sign from, and the
/// bits with a Y. It takes basis state `i` to `i ^ flip`, with a sign for each bit
/// of `i` in `z` and in `y`, times `(-i)^y_letters`.
#[derive(Clone, Copy, Debug, PartialEq, Eq, Structural)]
pub struct PauliMasks {
    pub flip: u64,
    pub z: u64,
    pub y: u64,
    pub y_letters: u32,
}

proof fn lemma_mark(m: u64, q: u64, k: u64)
    requires
        q < 32,
        m < (1u64 << q),
        k < 32,
    ensures
        m < (1u64 << ((q + 1) as u64)),
        (m | (1u64 << q)) < (1u64 << ((q + 1) as u64)),
        !marked(m, q),
        marked(m | (1u64 << q), k) <==> (k == q || marked(m, k)),
{
    let r = (q + 1) as u64;
    assert(q < 32 && r == q + 1 && k < 32 && m < (1u64 << q) ==> m < (1u64 << r) && (m | (1u64
        << q)) < (1u64 << r) && (m >> q) & 1 != 1 && (((m | (1u64 << q)) >> k) & 1 == 1) == (k == q
        || (m >> k) & 1 == 1)) by (bit_vector);
}

/// Splits a Pauli code into masks.
pub fn pauli_masks(pauli: u64) -> (r: PauliMasks)
    ensures
        r.flip < 0x1_0000_0000,
        r.z < 0x1_0000_0000,
        r.y < 0x1_0000_0000,
        forall|q: u64|
            q < 32 ==> {
                &&& #[trigger] marked(r.flip, q) <==> letter_at(pauli, q) == 1 || letter_at(
                    pauli,
                    q,
                ) == 2
            },
        forall|q: u64| q < 32 ==> (#[trigger] marked(r.z, q) <==> letter_at(pauli, q) == 3),
        forall|q: u64| q < 32 ==> (#[trigger] marked(r.y, q) <==> letter_at(pauli, q) == 2),
        r.y_letters == y_count(pauli, 32),
{
    let mut flip: u64 = 0;
    let mut z: u64 = 0;
    let mut y: u64 = 0;
    let mut y_letters: u32 = 0;
    let mut q: u64 = 0;
    assert(1u64 << 0u64 == 1 && 1u64 << 32u64 == 0x1_0000_0000) by (bit_vector);
    while q < 32
        invariant
            q <= 32,
            1u64 << 32u64 == 0x1_0000_0000,
            flip < (1u64 << q),
            z < (1u64 << q),
            y < (1u64 << q),
            y_letters <= q,
            y_letters == y_count(pauli, q as nat),
            forall|k: u64|
                k < q ==> (#[trigger] marked(flip, k) <==> letter_at(pauli, k) == 1 || letter_at(
                    pauli,
                    k,
                ) == 2),
            forall|k: u64| k < q ==> (#[trigger] marked(z, k) <==> letter_at(pauli, k) == 3),
            forall|k: u64| k < q ==> (#[trigger] marked(y, k) <==> letter_at(pauli, k) == 2),
        decreases 32 - q,
    {
        let l: u64 = (pauli >> (2 * q)) & 3;
        let b: u64 = 1u64 << q;
        proof {
            lemma_mark(flip, q, q);
            lemma_mark(z, q, q);
            lemma_mark(y, q, q);
            assert forall|k: u64| k < q implies (#[trigger] marked(flip | b, k) == marked(flip, k))
                by {
                lemma_mark(flip, q, k);
            }
            assert forall|k: u64| k < q implies (#[trigger] marked(z | b, k) == marked(z, k)) by {
                lemma_mark(z, q, k);
            }
            assert forall|k: u64| k < q implies (#[trigger] marked(y | b, k) == marked(y, k)) by {
                lemma_mark(y, q, k);
            }
        }
        if l == 1 {
            flip = flip | b;
        } else if l == 2 {
            flip = flip | b;
            y = y | b;
            y_letters = y_letters + 1;
        } else if l == 3 {
            z = z | b;
        }
        q += 1;
    }
    PauliMasks { flip, z, y, y_letters }
}

/// Whether qubit `q` is one of a register with `len` amplitudes.
pub open spec fn spans(len: nat, q: u8) -> bool {
    exists|k: u8| #[trigger] register(len, k) && q < k
}

/// Whether `t` comes from `s` by combining each selected amplitude with its partner
/// through `f`; the others stay.
pub open spec fn combined<A, F: Fn(A, A) -> (A, A)>(
    s: Seq<A>,
    t: Seq<A>,
    on: u64,
    off: u64,
    flip: u64,
    f: F,
) -> bool {
    &&& t.len() == s.len()
    &&& forall|i: u64|
        #![trigger selected(i, on, off)]
        i < s.len() && selected(i, on, off) ==> f.ensures(
            (s[i as int], s[(i ^ flip) as int]),
            (t[i as int], t[(i ^ flip) as int]),
        )
    &&& forall|i: u64|
        #![trigger t[i as int]]
        i < s.len() && !selected(i, on, off) && !selected(i ^ flip, on, off) ==> t[i as int]
            == s[i as int]
}

/// Whether `t` comes from `s` by changing each amplitude whose index has all bits of
/// `on` through `f`; the others stay.
pub open spec fn changed<A, F: Fn(A) -> A>(s: Seq<A>, t: Seq<A>, on: u64, f: F) -> bool {
    &&& t.len() == s.len()
    &&& forall|i: u64|
        #![trigger t[i as int]]
        i < s.len() ==> if i & on == on {
            f.ensures((s[i as int],), t[i as int])
        } else {
            t[i as int] == s[i as int]
        }
}

/// Whether `t` comes from `s` by combining through `f` the four amplitudes whose
/// indices differ in the bits `b0` and `b1` only, in the order of the values of
/// these bits, `b0` lowest.
pub open spec fn quartered<A, F: Fn(A, A, A, A) -> (A, A, A, A)>(
    s: Seq<A>,
    t: Seq<A>,
    b0: u64,
    b1: u64,
    f: F,
) -> bool {
    &&& t.len() == s.len()
    &&& forall|i: u64|
        #![trigger selected(i, 0, b0 | b1)]
        i < s.len() && selected(i, 0, b0 | b1) ==> f.ensures(
            (
                s[i as int],
                s[(i | b0) as int],
                s[(i | b1) as int],
                s[(i | b0 | b1) as int],
            ),
            (
                t[i as int],
                t[(i | b0) as int],
                t[(i | b1) as int],
                t[(i | b0 | b1) as int],
            ),
        )
}

/// The four indices around `x` lie inside, differ, and belong to `x`.
proof fn lemma_quad(x: u64, b0: u64, b1: u64, u: u64, v: u64, k: u64)
    requires
        u != v,
        u < k < 64,
        v < k,
        b0 == 1u64 << u,
        b1 == 1u64 << v,
        x < (1u64 << k),
        x & (b0 | b1) == 0,
    ensures
        (x | b0) < (1u64 << k),
        (x | b1) < (1u64 << k),
        (x | b0 | b1) < (1u64 << k),
        x != x | b0,
        x != x | b1,
        x != x | b0 | b1,
        x | b0 != x | b1,
        x | b0 != x | b0 | b1,
        x | b1 != x | b0 | b1,
        x & !(b0 | b1) == x,
        (x | b0) & !(b0 | b1) == x,
        (x | b1) & !(b0 | b1) == x,
        (x | b0 | b1) & !(b0 | b1) == x,
{
    assert(u != v && u < k && k < 64 && v < k && b0 == 1u64 << u && b1 == 1u64 << v && x < (1u64
        << k) && x & (b0 | b1) == 0 ==> (x | b0) < (1u64 << k) && (x | b1) < (1u64 << k) && (x | b0
        | b1) < (1u64 << k) && x != (x | b0) && x != (x | b1) && x != (x | b0 | b1) && (x | b0) != (
    x | b1) && (x | b0) != (x | b0 | b1) && (x | b1) != (x | b0 | b1) && x & !(b0 | b1) == x && (x
        | b0) & !(b0 | b1) == x && (x | b1) & !(b0 | b1) == x && (x | b0 | b1) & !(b0 | b1) == x)
        by (bit_vector);
}

fn bit_of(q: u8) -> (b: u64)
    requires
        q < 64,
    ensures
        b == bit(q),
{
    1u64 << (q as u64)
}

impl<T: Copy> State<T> {
    /// Whether every amplitude has both parts.
    pub open spec fn wf(&self) -> bool {
        self.re@.len() == self.im@.len()
    }

    /// `n` amplitudes in the all-zero basis state.
    pub fn new(n: usize, zero: T, one: T) -> (s: Self)
        requires
            n >= 1,
        ensures
            s.wf(),
            s@ == Seq::new(
                n as nat,
                |i: int|
                    if i == 0 {
                        (one, zero)
                    } else {
                        (zero, zero)
                    },
            ),
    {
        let mut re: Vec<T> = Vec::new();
        let mut im: Vec<T> = Vec::new();
        let mut i: usize = 0;
        while i < n
            invariant
                i <= n,
                re@.len() == i,
                im@.len() == i,
                forall|k: int| 0 <= k < i ==> re@[k] == zero && im@[k] == zero,
            decreases n - i,
        {
            re.push(zero);
            im.push(zero);
            i += 1;
        }
        re.set(GROUND_STATE, one);
        let s = State { re, im };
        assert(s@ =~= Seq::new(
            n as nat,
            |i: int|
                if i == 0 {
                    (one, zero)
                } else {
                    (zero, zero)
                },
        ));
        s
    }

    /// Back to the all-zero basis state.
    pub fn reset(&mut self, zero: T, one: T)
        requires
            old(self).wf(),
            old(self)@.len() >= 1,
        ensures
            final(self).wf(),
            final(self)@ == Seq::new(
                old(self)@.len(),
                |i: int|
                    if i == 0 {
                        (one, zero)
                    } else {
                        (zero, zero)
                    },
            ),
    {
        let n: usize = self.re.len();
        let mut i: usize = 0;
        while i < n
            invariant
                i <= n,
                self.re@.len() == n,
                self.im@.len() == n,
                n == old(self)@.len(),
                forall|k: int| 0 <= k < i ==> self.re@[k] == zero && self.im@[k] == zero,
            decreases n - i,
        {
            self.re.set(i, zero);
            self.im.set(i, zero);
            i += 1;
        }
        self.re.set(GROUND_STATE, one);
        assert(self@ =~= Seq::new(
            n as nat,
            |i: int|
                if i == 0 {
                    (one, zero)
                } else {
                    (zero, zero)
                },
        ));
    }

    fn at(&self, i: usize) -> (a: (T, T))
        requires
            self.wf(),
            i < self@.len(),
        ensures
            a == self@[i as int],
    {
        (self.re[i], self.im[i])
    }

    fn put(&mut self, i: usize, a: (T, T))
        requires
            old(self).wf(),
            i < old(self)@.len(),
        ensures
            final(self).wf(),
            final(self)@ == old(self)@.update(i as int, a),
    {
        self.re.set(i, a.0);
        self.im.set(i, a.1);
        assert(self@ =~= old(self)@.update(i as int, a));
    }

    fn transform<F: Fn((T, T), (T, T)) -> ((T, T), (T, T))>(
        &mut self,
        on: u64,
        off: u64,
        flip: u64,
        f: F,
    )
        requires
            old(self).wf(),
            paired(old(self)@.len(), on, off, flip),
            forall|a: (T, T), b: (T, T)| #[trigger] f.requires((a, b)),
        ensures
            final(self).wf(),
            combined(old(self)@, final(self)@, on, off, flip, f),
    {
        let n: usize = self.re.len();
        let ghost s = self@;
        let mut i: usize = 0;
        while i < n
            invariant
                i <= n,
                n == s.len(),
                self.wf(),
                self@.len() == n,
                s == old(self)@,
                paired(n as nat, on, off, flip),
                forall|a: (T, T), b: (T, T)| #[trigger] f.requires((a, b)),
                forall|k: u64|
                    #![trigger selected(k, on, off)]
                    k < i && selected(k, on, off) ==> f.ensures(
                        (s[k as int], s[(k ^ flip) as int]),
                        (self@[k as int], self@[(k ^ flip) as int]),
                    ),
                forall|k: u64|
                    #![trigger self@[k as int]]
                    k < n && !(selected(k, on, off) && k < i) && !(selected(k ^ flip, on, off) && (k
                        ^ flip) < i) ==> self@[k as int] == s[k as int],
            decreases n - i,
        {
            let x: u64 = i as u64;
            if x & on == on && x & off == 0 {
                assert(selected(x, on, off));
                let ghost before = self@;
                let j: usize = (x ^ flip) as usize;
                proof {
                    lemma_flip_back(x, flip);
                    assert(self@[x as int] == s[x as int]);
                    assert(self@[(x ^ flip) as int] == s[(x ^ flip) as int]);
                }
                let (a, b) = f(self.at(i), self.at(j));
                self.put(i, a);
                self.put(j, b);
                proof {
                    assert(x != x ^ flip);
                    assert forall|k: u64|
                        #![trigger selected(k, on, off)]
                        k < i + 1 && selected(k, on, off) implies f.ensures(
                        (s[k as int], s[(k ^ flip) as int]),
                        (self@[k as int], self@[(k ^ flip) as int]),
                    ) by {
                        if k != x {
                            lemma_flip_back(k, flip);
                            assert(k ^ flip != x);
                            assert(k ^ flip != x ^ flip);
                        }
                    }
                    assert forall|k: u64|
                        #![trigger self@[k as int]]
                        k < n && !(selected(k, on, off) && k < i + 1) && !(selected(
                            k ^ flip,
                            on,
                            off,
                        ) && (k ^ flip) < i + 1) implies self@[k as int] == s[k as int] by {
                        lemma_flip_back(k, flip);
                        assert(k != x);
                        assert(k != x ^ flip);
                        assert(self@[k as int] == before[k as int]);
                    }
                }
            }
            i += 1;
        }
    }

    fn exchange(&mut self, on: u64, off: u64, flip: u64)
        requires
            old(self).wf(),
            exists|k: u8| #[trigger] register(old(self)@.len(), k) && flip < old(self)@.len(),
            paired(old(self)@.len(), on, off, flip),
        ensures
            final(self).wf(),
            final(self)@ == moved(old(self)@, on, off, flip),
    {
        let f = |a: (T, T), b: (T, T)| -> (r: ((T, T), (T, T)))
            ensures
                r == (b, a),
            { (b, a) };
        self.transform(on, off, flip, f);
        proof {
            let (s, t) = (old(self)@, self@);
            let k = choose|k: u8| #[trigger] register(s.len(), k) && flip < s.len();
            let m = moved(s, on, off, flip);
            assert forall|i: int| 0 <= i < s.len() implies t[i] == m[i] by {
                let x = i as u64;
                lemma_flip_back(x, flip);
                lemma_flip_inside(x, flip, k as u64);
                if selected(x, on, off) {
                } else if selected(x ^ flip, on, off) {
                    assert(t[((x ^ flip) ^ flip) as int] == s[(x ^ flip) as int]);
                } else {
                    assert(t[x as int] == s[x as int]);
                }
            }
            assert(t =~= m);
        }
    }

    /// X: exchanges the amplitudes whose indices differ in the target bit.
    pub fn apply_x(&mut self, target: u8)
        requires
            old(self).wf(),
            spans(old(self)@.len(), target),
        ensures
            final(self).wf(),
            final(self)@ == moved(old(self)@, 0, bit(target), bit(target)),
    {
        self.controlled_flip(0, target);
    }

    /// Flips the target where all bits of `on` are set.
    fn controlled_flip(&mut self, on: u64, target: u8)
        requires
            old(self).wf(),
            spans(old(self)@.len(), target),
        ensures
            final(self).wf(),
            final(self)@ == moved(old(self)@, on, bit(target), bit(target)),
    {
        let b: u64 = bit_of(target);
        proof {
            let k = choose|k: u8| #[trigger] register(self@.len(), k) && target < k;
            lemma_bit(target, k);
            lemma_flip_pairs(self@.len(), k, on, target);
        }
        self.exchange(on, b, b);
    }

    /// CNOT: flips the target where the control is set.
    pub fn apply_cnot(&mut self, control: u8, target: u8)
        requires
            old(self).wf(),
            spans(old(self)@.len(), control),
            spans(old(self)@.len(), target),
        ensures
            final(self).wf(),
            final(self)@ == moved(old(self)@, bit(control), bit(target), bit(target)),
    {
        self.controlled_flip(bit_of(control), target);
    }

    /// Toffoli: flips the target where both controls are set.
    pub fn apply_toff(&mut self, c1: u8, c2: u8, target: u8)
        requires
            old(self).wf(),
            spans(old(self)@.len(), c1),
            spans(old(self)@.len(), c2),
            spans(old(self)@.len(), target),
        ensures
            final(self).wf(),
            final(self)@ == moved(old(self)@, bit(c1) | bit(c2), bit(target), bit(target)),
    {
        self.controlled_flip(bit_of(c1) | bit_of(c2), target);
    }

    /// MCX: flips the target where every bit of the control mask is set.
    pub fn apply_mcx(&mut self, mask: u32, target: u8)
        requires
            old(self).wf(),
            spans(old(self)@.len(), target),
        ensures
            final(self).wf(),
            final(self)@ == moved(old(self)@, mask as u64, bit(target), bit(target)),
    {
        self.controlled_flip(mask as u64, target);
    }

    /// SWAP: exchanges the amplitudes whose indices have the bits of `a` and `b`
    /// exchanged.
    pub fn apply_swap(&mut self, a: u8, b: u8)
        requires
            old(self).wf(),
            spans(old(self)@.len(), a),
            spans(old(self)@.len(), b),
        ensures
            final(self).wf(),
            final(self)@ == moved(old(self)@, 0 | bit(a), bit(b), bit(a) ^ bit(b)),
    {
        self.controlled_swap(0, a, b);
    }

    /// CSWAP: exchanges `b` and `c` where the control is set.
    pub fn apply_cswap(&mut self, ctl: u8, b: u8, c: u8)
        requires
            old(self).wf(),
            spans(old(self)@.len(), ctl),
            spans(old(self)@.len(), b),
            spans(old(self)@.len(), c),
        ensures
            final(self).wf(),
            final(self)@ == moved(old(self)@, bit(ctl) | bit(b), bit(c), bit(b) ^ bit(c)),
    {
        self.controlled_swap(bit_of(ctl), b, c);
    }

    fn controlled_swap(&mut self, on: u64, a: u8, b: u8)
        requires
            old(self).wf(),
            spans(old(self)@.len(), a),
            spans(old(self)@.len(), b),
        ensures
            final(self).wf(),
            final(self)@ == moved(old(self)@, on | bit(a), bit(b), bit(a) ^ bit(b)),
    {
        let (x, y): (u64, u64) = (bit_of(a), bit_of(b));
        proof {
            lemma_same_register(self@.len(), a, b);
            let k = choose|k: u8| #[trigger] register(self@.len(), k) && a < k && b < k;
            lemma_bit(a, k);
            lemma_bit(b, k);
            lemma_flip_inside(x, y, k as u64);
            lemma_exchange_pairs(self@.len(), k, on, a, b);
        }
        self.exchange(on | x, y, x ^ y);
    }

    /// Visits every pair of amplitudes whose indices differ in the target bit, the
    /// one with the bit clear first, and replaces both.
    pub fn for_each_pair<F: Fn((T, T), (T, T)) -> ((T, T), (T, T))>(&mut self, target: u8, f: F)
        requires
            old(self).wf(),
            spans(old(self)@.len(), target),
            forall|a: (T, T), b: (T, T)| #[trigger] f.requires((a, b)),
        ensures
            final(self).wf(),
            combined(old(self)@, final(self)@, 0, bit(target), bit(target), f),
    {
        let b: u64 = bit_of(target);
        proof {
            let k = choose|k: u8| #[trigger] register(self@.len(), k) && target < k;
            lemma_flip_pairs(self@.len(), k, 0, target);
        }
        self.transform(0, b, b, f);
    }

    /// Visits every pair of amplitudes whose indices have the bits of `a` and `b`
    /// exchanged, the one with the bit of `a` set first, and replaces both.
    pub fn for_each_exchange<F: Fn((T, T), (T, T)) -> ((T, T), (T, T))>(
        &mut self,
        a: u8,
        b: u8,
        f: F,
    )
        requires
            old(self).wf(),
            spans(old(self)@.len(), a),
            spans(old(self)@.len(), b),
            forall|x: (T, T), y: (T, T)| #[trigger] f.requires((x, y)),
        ensures
            final(self).wf(),
            combined(old(self)@, final(self)@, 0 | bit(a), bit(b), bit(a) ^ bit(b), f),
    {
        let (x, y): (u64, u64) = (bit_of(a), bit_of(b));
        proof {
            lemma_same_register(self@.len(), a, b);
            let k = choose|k: u8| #[trigger] register(self@.len(), k) && a < k && b < k;
            lemma_exchange_pairs(self@.len(), k, 0, a, b);
        }
        self.transform(0 | x, y, x ^ y, f);
    }

    /// Replaces every amplitude whose index has the bits of both `a` and `b`.
    pub fn for_each_both<F: Fn((T, T)) -> (T, T)>(&mut self, a: u8, b: u8, f: F)
        requires
            old(self).wf(),
            spans(old(self)@.len(), a),
            spans(old(self)@.len(), b),
            forall|x: (T, T)| #[trigger] f.requires((x,)),
        ensures
            final(self).wf(),
            changed(old(self)@, final(self)@, bit(a) | bit(b), f),
    {
        let on: u64 = bit_of(a) | bit_of(b);
        let n: usize = self.re.len();
        let ghost s = self@;
        let mut i: usize = 0;
        while i < n
            invariant
                i <= n,
                n == s.len(),
                self.wf(),
                self@.len() == n,
                on == bit(a) | bit(b),
                s == old(self)@,
                forall|x: (T, T)| #[trigger] f.requires((x,)),
                forall|k: u64|
                    #![trigger self@[k as int]]
                    k < n ==> if k & on == on && k < i {
                        f.ensures((s[k as int],), self@[k as int])
                    } else {
                        self@[k as int] == s[k as int]
                    },
            decreases n - i,
        {
            let x: u64 = i as u64;
            if x & on == on {
                let ghost before = self@;
                let a: (T, T) = self.at(i);
                assert(before[x as int] == s[x as int]);
                let b: (T, T) = f(a);
                self.put(i, b);
                proof {
                    assert forall|k: u64| #![trigger self@[k as int]] k < n implies if k & on == on
                        && k < i + 1 {
                        f.ensures((s[k as int],), self@[k as int])
                    } else {
                        self@[k as int] == s[k as int]
                    } by {
                        if k != x {
                            assert(self@[k as int] == before[k as int]);
                        }
                    }
                }
            }
            i += 1;
        }
    }

    /// Visits every four amplitudes whose indices differ in the bits of `q0` and `q1`
    /// only, in the order of the values of these bits with `q0` lowest, and replaces
    /// them.
    pub fn for_each_quad<
        F: Fn((T, T), (T, T), (T, T), (T, T)) -> ((T, T), (T, T), (T, T), (T, T)),
    >(&mut self, q0: u8, q1: u8, f: F)
        requires
            old(self).wf(),
            q0 != q1,
            spans(old(self)@.len(), q0),
            spans(old(self)@.len(), q1),
            forall|a: (T, T), b: (T, T), c: (T, T), d: (T, T)| #[trigger]
                f.requires((a, b, c, d)),
        ensures
            final(self).wf(),
            quartered(old(self)@, final(self)@, bit(q0), bit(q1), f),
    {
        let (b0, b1): (u64, u64) = (bit_of(q0), bit_of(q1));
        let n: usize = self.re.len();
        let ghost s = self@;
        let ghost k = 0u8;
        proof {
            lemma_same_register(self@.len(), q0, q1);
            k = choose|k: u8| #[trigger] register(self@.len(), k) && q0 < k && q1 < k;
        }
        let mut i: usize = 0;
        while i < n
            invariant
                i <= n,
                n == s.len(),
                self.wf(),
                self@.len() == n,
                s == old(self)@,
                q0 != q1,
                register(n as nat, k),
                q0 < k,
                q1 < k,
                b0 == bit(q0),
                b1 == bit(q1),
                forall|a: (T, T), b: (T, T), c: (T, T), d: (T, T)| #[trigger]
                    f.requires((a, b, c, d)),
                forall|w: u64|
                    #![trigger selected(w, 0, b0 | b1)]
                    w < i && selected(w, 0, b0 | b1) ==> f.ensures(
                        (
                            s[w as int],
                            s[(w | b0) as int],
                            s[(w | b1) as int],
                            s[(w | b0 | b1) as int],
                        ),
                        (
                            self@[w as int],
                            self@[(w | b0) as int],
                            self@[(w | b1) as int],
                            self@[(w | b0 | b1) as int],
                        ),
                    ),
                forall|w: u64|
                    #![trigger self@[w as int]]
                    w < n && (w & !(b0 | b1)) >= i ==> self@[w as int] == s[w as int],
            decreases n - i,
        {
            let x: u64 = i as u64;
            if x & (b0 | b1) == 0 {
                proof {
                    lemma_quad(x, b0, b1, q0 as u64, q1 as u64, k as u64);
                }
                let ghost before = self@;
                let (i0, i1, i2, i3): (usize, usize, usize, usize) = (
                    i,
                    (x | b0) as usize,
                    (x | b1) as usize,
                    (x | b0 | b1) as usize,
                );
                assert(before[x as int] == s[x as int]);
                assert(before[(x | b0) as int] == s[(x | b0) as int]);
                assert(before[(x | b1) as int] == s[(x | b1) as int]);
                assert(before[(x | b0 | b1) as int] == s[(x | b0 | b1) as int]);
                let (r0, r1, r2, r3) = f(self.at(i0), self.at(i1), self.at(i2), self.at(i3));
                self.put(i0, r0);
                self.put(i1, r1);
                self.put(i2, r2);
                self.put(i3, r3);
                proof {
                    assert forall|w: u64| #![trigger self@[w as int]] w < n && (w & !(b0 | b1))
                        != x implies self@[w as int] == before[w as int] by {}
                    assert(selected(x, 0, b0 | b1) ==> x & 0 == 0);
                    assert forall|w: u64|
                        #![trigger selected(w, 0, b0 | b1)]
                        w < i + 1 && selected(w, 0, b0 | b1) implies f.ensures(
                        (
                            s[w as int],
                            s[(w | b0) as int],
                            s[(w | b1) as int],
                            s[(w | b0 | b1) as int],
                        ),
                        (
                            self@[w as int],
                            self@[(w | b0) as int],
                            self@[(w | b1) as int],
                            self@[(w | b0 | b1) as int],
                        ),
                    ) by {
                        if w != x {
                            lemma_quad(w, b0, b1, q0 as u64, q1 as u64, k as u64);
                            assert(self@[w as int] == before[w as int]);
                            assert(self@[(w | b0) as int] == before[(w | b0) as int]);
                            assert(self@[(w | b1) as int] == before[(w | b1) as int]);
                            assert(self@[(w | b0 | b1) as int] == before[(w | b0 | b1) as int]);
                        }
                    }
                }
            }
            i += 1;
        }
    }

    /// Sets every amplitude to zero whose index has another value than `outcome` in
    /// the qubit's bit.
    pub fn discard(&mut self, qubit: u8, outcome: bool, zero: T)
        requires
            old(self).wf(),
            spans(old(self)@.len(), qubit),
        ensures
            final(self).wf(),
            final(self)@ == Seq::new(
                old(self)@.len(),
                |i: int|
                    if (i as u64 & bit(qubit) != 0) == outcome {
                        old(self)@[i]
                    } else {
                        (zero, zero)
                    },
            ),
    {
        let b: u64 = bit_of(qubit);
        let n: usize = self.re.len();
        let ghost s = self@;
        let mut i: usize = 0;
        while i < n
            invariant
                i <= n,
                n == s.len(),
                self.wf(),
                self@.len() == n,
                b == bit(qubit),
                s == old(self)@,
                forall|k: int|
                    0 <= k < n ==> #[trigger] self@[k] == if k >= i || (k as u64 & b != 0)
                        == outcome {
                        s[k]
                    } else {
                        (zero, zero)
                    },
            decreases n - i,
        {
            if ((i as u64) & b != 0) != outcome {
                self.put(i, (zero, zero));
            }
            i += 1;
        }
        assert(self@ =~= Seq::new(
            s.len(),
            |i: int|
                if (i as u64 & bit(qubit) != 0) == outcome {
                    s[i]
                } else {
                    (zero, zero)
                },
        ));
    }

    /// Real and imaginary parts interleaved.
    pub fn interleaved(&self) -> (v: Vec<T>)
        requires
            self.wf(),
        ensures
            v@.len() == 2 * self@.len(),
            forall|i: int|
                0 <= i < self@.len() ==> (v@[2 * i], v@[2 * i + 1]) == #[trigger] self@[i],
    {
        let n: usize = self.re.len();
        let mut v: Vec<T> = Vec::new();
        let mut i: usize = 0;
        while i < n
            invariant
                i <= n,
                n == self@.len(),
                self.wf(),
                v@.len() == 2 * i,
                forall|k: int|
                    0 <= k < i ==> (v@[2 * k], v@[2 * k + 1]) == #[trigger] self@[k],
            decreases n - i,
        {
            v.push(self.re[i]);
            v.push(self.im[i]);
            i += 1;
        }
        v
    }

    /// The amplitudes with their indices.
    pub fn indexed(&self) -> (v: Vec<(usize, T, T)>)
        requires
            self.wf(),
        ensures
            v@ == Seq::new(self@.len(), |i: int| (i as usize, self@[i].0, self@[i].1)),
    {
        let n: usize = self.re.len();
        let mut v: Vec<(usize, T, T)> = Vec::new();
        let mut i: usize = 0;
        while i < n
            invariant
                i <= n,
                n == self@.len(),
                self.wf(),
                v@.len() == i,
                forall|k: int|
                    0 <= k < i ==> #[trigger] v@[k] == (k as usize, self@[k].0, self@[k].1),
            decreases n - i,
        {
            v.push((i, self.re[i], self.im[i]));
            i += 1;
        }
        assert(v@ =~= Seq::new(self@.len(), |i: int| (i as usize, self@[i].0, self@[i].1)));
        v
    }
}

proof fn lemma_same_register(len: nat, a: u8, b: u8)
    requires
        spans(len, a),
        spans(len, b),
    ensures
        exists|k: u8| #[trigger] register(len, k) && a < k && b < k,
{
    let j = choose|k: u8| #[trigger] register(len, k) && a < k;
    let k = choose|k: u8| #[trigger] register(len, k) && b < k;
    if j < k {
        lemma_bit(j, k);
    } else if k < j {
        lemma_bit(k, j);
    }
}

} // verus!
