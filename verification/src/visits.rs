//! Which amplitudes the moves over a state vector visit, and in which order.
use crate::amplitudes::{bit, changed, combined, letter_at, quartered, selected, y_count};
use vstd::prelude::*;

verus! {

/// The value of qubit `q` in a basis index.
pub open spec fn value(i: u64, q: u8) -> bool {
    (i >> (q as u64)) & 1 == 1
}

/// The basis index with qubit `q` set.
pub open spec fn with_one(i: u64, q: u8) -> u64 {
    i | (1u64 << (q as u64))
}

proof fn lemma_visited(i: u64, u: u64, v: u64)
    by (bit_vector)
    requires
        u < 64,
        v < 64,
    ensures
        ((i >> u) & 1 == 1) == (i & (1u64 << u) == (1u64 << u)),
        ((i >> u) & 1 == 1) == (i & (1u64 << u) != 0),
        i & 0 == 0,
        0 | (1u64 << u) == (1u64 << u),
        (i >> u) & 1 != 1 ==> i ^ (1u64 << u) == i | (1u64 << u),
        ((i >> u) & 1 == 1 && (i >> v) & 1 == 1) == (i & ((1u64 << u) | (1u64 << v)) == ((1u64 << u)
            | (1u64 << v))),
        ((i >> u) & 1 != 1 && (i >> v) & 1 != 1) == (i & ((1u64 << u) | (1u64 << v)) == 0),
        u != v && (i >> u) & 1 == 1 && (i >> v) & 1 != 1 ==> (i ^ ((1u64 << u) ^ (1u64 << v))) == (
        i ^ (1u64 << u)) | (1u64 << v),
        u != v ==> (((i ^ ((1u64 << u) ^ (1u64 << v))) >> u) & 1 == 1) == ((i >> u) & 1 != 1),
        u != v ==> (((i ^ ((1u64 << u) ^ (1u64 << v))) >> v) & 1 == 1) == ((i >> v) & 1 != 1),
        (((i ^ (1u64 << u)) >> u) & 1 == 1) == ((i >> u) & 1 != 1),
{
}

/// Visiting the pairs of a qubit takes each amplitude where the qubit is zero together with
/// the one where it is one, in this order, and replaces both in this order.
pub proof fn law_pairs_are_visited_zero_first<A, F: Fn(A, A) -> (A, A)>(
    s: Seq<A>,
    t: Seq<A>,
    q: u8,
    f: F,
    i: u64,
)
    requires
        q < 64,
        combined(s, t, 0, bit(q), bit(q), f),
        i < s.len(),
        !value(i, q),
    ensures
        t.len() == s.len(),
        f.ensures(
            (s[i as int], s[with_one(i, q) as int]),
            (t[i as int], t[with_one(i, q) as int]),
        ),
{
    lemma_visited(i, q as u64, q as u64);
    assert(selected(i, 0, bit(q)));
}

/// Visiting the exchanged pairs of two qubits takes each amplitude where `a` is one and `b`
/// is zero together with the one where they are the other way round, in this order; the
/// amplitudes where both have the same value stay.
pub proof fn law_exchanges_are_visited_first_qubit_set_first<A, F: Fn(A, A) -> (A, A)>(
    s: Seq<A>,
    t: Seq<A>,
    a: u8,
    b: u8,
    f: F,
    i: u64,
)
    requires
        a < 64,
        b < 64,
        a != b,
        combined(s, t, 0 | bit(a), bit(b), bit(a) ^ bit(b), f),
        i < s.len(),
    ensures
        t.len() == s.len(),
        value(i, a) && !value(i, b) ==> ({
            let j = with_one(i ^ (1u64 << (a as u64)), b);
            f.ensures((s[i as int], s[j as int]), (t[i as int], t[j as int]))
        }),
        value(i, a) == value(i, b) ==> t[i as int] == s[i as int],
{
    let (u, v) = (a as u64, b as u64);
    lemma_visited(i, u, v);
    lemma_visited(i, v, u);
    let j = i ^ (bit(a) ^ bit(b));
    lemma_visited(j, u, v);
    lemma_visited(j, v, u);
    if value(i, a) && !value(i, b) {
        assert(selected(i, 0 | bit(a), bit(b)));
    }
    if value(i, a) == value(i, b) {
        assert(!selected(i, 0 | bit(a), bit(b)));
        assert(!selected(j, 0 | bit(a), bit(b)));
        assert(t[i as int] == s[i as int]);
    }
}

/// Visiting where two qubits are one changes exactly the amplitudes where both are.
pub proof fn law_only_both_set_are_changed<A, F: Fn(A) -> A>(
    s: Seq<A>,
    t: Seq<A>,
    a: u8,
    b: u8,
    f: F,
    i: u64,
)
    requires
        a < 64,
        b < 64,
        changed(s, t, bit(a) | bit(b), f),
        i < s.len(),
    ensures
        t.len() == s.len(),
        value(i, a) && value(i, b) ==> f.ensures((s[i as int],), t[i as int]),
        !(value(i, a) && value(i, b)) ==> t[i as int] == s[i as int],
{
    lemma_visited(i, a as u64, b as u64);
    assert(t[i as int] == t[i as int]);
}

/// Visiting the quadruples of two qubits takes the amplitudes in the order 00, 01, 10, 11 of
/// the values of the second and the first qubit, and replaces them in this order.
pub proof fn law_quadruples_are_visited_in_order<A, F: Fn(A, A, A, A) -> (A, A, A, A)>(
    s: Seq<A>,
    t: Seq<A>,
    q0: u8,
    q1: u8,
    f: F,
    i: u64,
)
    requires
        q0 < 64,
        q1 < 64,
        quartered(s, t, bit(q0), bit(q1), f),
        i < s.len(),
        !value(i, q0),
        !value(i, q1),
    ensures
        t.len() == s.len(),
        ({
            let (i01, i10) = (with_one(i, q0), with_one(i, q1));
            let i11 = with_one(with_one(i, q0), q1);
            f.ensures(
                (s[i as int], s[i01 as int], s[i10 as int], s[i11 as int]),
                (t[i as int], t[i01 as int], t[i10 as int], t[i11 as int]),
            )
        }),
{
    lemma_visited(i, q0 as u64, q1 as u64);
    assert(selected(i, 0, bit(q0) | bit(q1)));
}

/// The Y letters of a Pauli product are counted one by one: a product without a Y has none,
/// and one that has a Y where another has none, and is otherwise alike, has one more.
pub proof fn law_y_letters_are_counted(a: u64, b: u64, n: nat, j: nat)
    requires
        j < n <= 32,
        (a >> ((2 * j) as u64)) & 3 == 2,
        (b >> ((2 * j) as u64)) & 3 != 2,
        forall|q: u64|
            q < n && q != j ==> ((#[trigger] letter_at(a, q)) == 2 <==> letter_at(b, q) == 2),
    ensures
        y_count(a, n) == y_count(b, n) + 1,
        (forall|q: u64| q < n ==> #[trigger] letter_at(b, q) != 2) ==> y_count(b, n) == 0,
    decreases n,
{
    let q = (n - 1) as u64;
    if j < n - 1 {
        law_y_letters_are_counted(a, b, (n - 1) as nat, j);
        assert(letter_at(a, q) == 2 <==> letter_at(b, q) == 2);
    } else {
        lemma_same_count(a, b, (n - 1) as nat);
    }
    if forall|q: u64| q < n ==> #[trigger] letter_at(b, q) != 2 {
        lemma_no_y(b, n);
    }
}

proof fn lemma_same_count(a: u64, b: u64, n: nat)
    requires
        n <= 32,
        forall|q: u64| q < n ==> ((#[trigger] letter_at(a, q)) == 2 <==> letter_at(b, q) == 2),
    ensures
        y_count(a, n) == y_count(b, n),
    decreases n,
{
    if n > 0 {
        lemma_same_count(a, b, (n - 1) as nat);
        assert(letter_at(a, (n - 1) as u64) == 2 <==> letter_at(b, (n - 1) as u64) == 2);
    }
}

proof fn lemma_no_y(b: u64, n: nat)
    requires
        n <= 32,
        forall|q: u64| q < n ==> #[trigger] letter_at(b, q) != 2,
    ensures
        y_count(b, n) == 0,
    decreases n,
{
    if n > 0 {
        lemma_no_y(b, (n - 1) as nat);
        assert(letter_at(b, (n - 1) as u64) != 2);
    }
}

} // verus!
