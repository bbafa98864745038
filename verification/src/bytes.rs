//! What classical computation does to the bytes of a run, told bit by bit and number by
//! number.
use crate::backend::SimBackend;
use crate::ir::{IrOp, ProgramView};
use crate::machine::{acted, Fault, Machine};
use vstd::prelude::*;

verus! {

/// Bit `k` of a byte.
pub open spec fn bit_of(v: u8, k: u8) -> bool {
    (v >> k) & 1 == 1
}

proof fn lemma_byte_bits(a: u8, b: u8, k: u8)
    by (bit_vector)
    requires
        k < 8,
    ensures
        bit_of(a & b, k) == (bit_of(a, k) && bit_of(b, k)),
        bit_of(a | b, k) == (bit_of(a, k) || bit_of(b, k)),
        bit_of(a ^ b, k) == (bit_of(a, k) != bit_of(b, k)),
        bit_of(a ^ 1, k) == (bit_of(a, k) != (k == 0)),
        a ^ a == 0,
        (a ^ b) ^ b == a,
        (a ^ 1) ^ 1 == a,
        a & a == a,
        a | a == a,
        a <= 1 ==> a ^ 1 == 1 - a,
{
}

/// The classical bytes that an op names, in order.
pub open spec fn bytes_of(op: IrOp) -> Seq<u8> {
    match op {
        IrOp::SetVal(a, _) | IrOp::Not(a) => seq![a],
        IrOp::And(a, b) | IrOp::Or(a, b) | IrOp::Xor(a, b) | IrOp::Add(a, b) | IrOp::Sub(a, b) => seq![
            a,
            b,
        ],
        _ => Seq::empty(),
    }
}

/// Whether byte `new` is what the op makes of byte `x`, with `y` the other byte.
pub open spec fn makes(op: IrOp, x: u8, y: u8, new: u8) -> bool {
    match op {
        IrOp::SetVal(_, v) => new == v,
        IrOp::Not(_) => forall|k: u8|
            k < 8 ==> (#[trigger] bit_of(new, k) <==> bit_of(x, k) != (k == 0)),
        IrOp::And(_, _) => forall|k: u8|
            k < 8 ==> (#[trigger] bit_of(new, k) <==> bit_of(x, k) && bit_of(y, k)),
        IrOp::Or(_, _) => forall|k: u8|
            k < 8 ==> (#[trigger] bit_of(new, k) <==> bit_of(x, k) || bit_of(y, k)),
        IrOp::Xor(_, _) => forall|k: u8|
            k < 8 ==> (#[trigger] bit_of(new, k) <==> bit_of(x, k) != bit_of(y, k)),
        IrOp::Add(_, _) => new == x + y || new == x + y - 256,
        IrOp::Sub(_, _) => x == new + y || x == new + y - 256,
        _ => false,
    }
}

/// A classical op changes its first byte and nothing else: `SET` puts the value there,
/// `NOT` flips the lowest bit, `AND`, `OR` and `XOR` combine it bit by bit with the second
/// byte, `ADD` and `SUB` count on or back by the second byte, around the range of a byte.
/// It fails exactly where a byte that it names does not exist.
pub proof fn law_classical_ops_change_one_byte<A: Copy, B: SimBackend<A>>(
    p: ProgramView<A>,
    op: IrOp,
    st: Machine<B::Model, A, B::Value>,
)
    requires
        bytes_of(op).len() > 0,
    ensures
        match acted::<A, B>(p, op, st) {
            Ok(s) => {
                let a = bytes_of(op)[0] as int;
                let x = st.classical[a];
                let y = st.classical[bytes_of(op).last() as int];
                &&& forall|k: int|
                    0 <= k < bytes_of(op).len() ==> #[trigger] bytes_of(op)[k] < st.classical.len()
                &&& s == (Machine { classical: s.classical, ..st })
                &&& s.classical.len() == st.classical.len()
                &&& forall|j: int|
                    0 <= j < st.classical.len() && j != a ==> #[trigger] s.classical[j]
                        == st.classical[j]
                &&& makes(op, x, y, s.classical[a])
            },
            Err(e) => e == Fault::Classical && exists|k: int|
                0 <= k < bytes_of(op).len() && #[trigger] bytes_of(op)[k] >= st.classical.len(),
        },
{
    let (a, b) = (bytes_of(op)[0], bytes_of(op).last());
    match acted::<A, B>(p, op, st) {
        Ok(s) => {
            let (x, y) = (st.classical[a as int], st.classical[b as int]);
            let new = s.classical[a as int];
            assert forall|k: u8| k < 8 implies (op is Not ==> (#[trigger] bit_of(new, k) <==> bit_of(
                x,
                k,
            ) != (k == 0))) && (op is And ==> (bit_of(new, k) <==> bit_of(x, k) && bit_of(y, k)))
                && (op is Or ==> (bit_of(new, k) <==> bit_of(x, k) || bit_of(y, k))) && (op
                is Xor ==> (bit_of(new, k) <==> bit_of(x, k) != bit_of(y, k))) by {
                lemma_byte_bits(x, y, k);
            }
        },
        Err(_) => {
            assert(bytes_of(op)[0] >= st.classical.len() || bytes_of(op)[bytes_of(op).len() - 1]
                >= st.classical.len());
        },
    }
}

/// `XOR` with another byte undoes itself.
pub proof fn law_xor_undoes_itself<A: Copy, B: SimBackend<A>>(
    p: ProgramView<A>,
    a: u8,
    b: u8,
    st: Machine<B::Model, A, B::Value>,
)
    requires
        a < st.classical.len(),
        b < st.classical.len(),
        a != b,
    ensures
        acted::<A, B>(p, IrOp::Xor(a, b), st) matches Ok(s) && acted::<A, B>(p, IrOp::Xor(a, b), s) == Ok::<
            Machine<B::Model, A, B::Value>,
            Fault,
        >(st),
{
    let (x, y) = (st.classical[a as int], st.classical[b as int]);
    lemma_byte_bits(x, y, 0);
    let s = acted::<A, B>(p, IrOp::Xor(a, b), st)->Ok_0;
    let r = acted::<A, B>(p, IrOp::Xor(a, b), s)->Ok_0;
    assert(r.classical =~= st.classical);
    assert(r =~= st);
}

/// `SUB` undoes `ADD` of another byte.
pub proof fn law_sub_undoes_add<A: Copy, B: SimBackend<A>>(
    p: ProgramView<A>,
    a: u8,
    b: u8,
    st: Machine<B::Model, A, B::Value>,
)
    requires
        a < st.classical.len(),
        b < st.classical.len(),
        a != b,
    ensures
        acted::<A, B>(p, IrOp::Add(a, b), st) matches Ok(s) && acted::<A, B>(p, IrOp::Sub(a, b), s) == Ok::<
            Machine<B::Model, A, B::Value>,
            Fault,
        >(st),
{
    let (x, y) = (st.classical[a as int], st.classical[b as int]);
    lemma_byte_bits(x, y, 0);
    let s = acted::<A, B>(p, IrOp::Add(a, b), st)->Ok_0;
    let r = acted::<A, B>(p, IrOp::Sub(a, b), s)->Ok_0;
    assert(r.classical =~= st.classical);
    assert(r =~= st);
}

/// `ADD` undoes `SUB` of another byte.
pub proof fn law_add_undoes_sub<A: Copy, B: SimBackend<A>>(
    p: ProgramView<A>,
    a: u8,
    b: u8,
    st: Machine<B::Model, A, B::Value>,
)
    requires
        a < st.classical.len(),
        b < st.classical.len(),
        a != b,
    ensures
        acted::<A, B>(p, IrOp::Sub(a, b), st) matches Ok(s) && acted::<A, B>(p, IrOp::Add(a, b), s) == Ok::<
            Machine<B::Model, A, B::Value>,
            Fault,
        >(st),
{
    let (x, y) = (st.classical[a as int], st.classical[b as int]);
    lemma_byte_bits(x, y, 0);
    let s = acted::<A, B>(p, IrOp::Sub(a, b), st)->Ok_0;
    let r = acted::<A, B>(p, IrOp::Add(a, b), s)->Ok_0;
    assert(r.classical =~= st.classical);
    assert(r =~= st);
}

/// `NOT` undoes itself, and it exchanges zero and one.
pub proof fn law_not_undoes_itself<A: Copy, B: SimBackend<A>>(
    p: ProgramView<A>,
    a: u8,
    st: Machine<B::Model, A, B::Value>,
)
    requires
        a < st.classical.len(),
    ensures
        acted::<A, B>(p, IrOp::Not(a), st) matches Ok(s) && acted::<A, B>(p, IrOp::Not(a), s)
            == Ok::<Machine<B::Model, A, B::Value>, Fault>(st) && (st.classical[a as int] <= 1
            ==> s.classical[a as int] == 1 - st.classical[a as int]),
{
    lemma_byte_bits(st.classical[a as int], 0, 0);
    let s = acted::<A, B>(p, IrOp::Not(a), st)->Ok_0;
    let r = acted::<A, B>(p, IrOp::Not(a), s)->Ok_0;
    assert(r.classical =~= st.classical);
    assert(r =~= st);
}

/// A byte combined with itself is zero under `XOR` and `SUB`, and stays under `AND` and
/// `OR`.
pub proof fn law_bytes_combined_with_themselves<A: Copy, B: SimBackend<A>>(
    p: ProgramView<A>,
    a: u8,
    st: Machine<B::Model, A, B::Value>,
)
    requires
        a < st.classical.len(),
    ensures
        acted::<A, B>(p, IrOp::Xor(a, a), st) matches Ok(s) && s.classical[a as int] == 0,
        acted::<A, B>(p, IrOp::Sub(a, a), st) matches Ok(s) && s.classical[a as int] == 0,
        acted::<A, B>(p, IrOp::And(a, a), st) matches Ok(s) && s.classical == st.classical,
        acted::<A, B>(p, IrOp::Or(a, a), st) matches Ok(s) && s.classical == st.classical,
{
    lemma_byte_bits(st.classical[a as int], 0, 0);
    assert(acted::<A, B>(p, IrOp::And(a, a), st)->Ok_0.classical =~= st.classical);
    assert(acted::<A, B>(p, IrOp::Or(a, a), st)->Ok_0.classical =~= st.classical);
}

} // verus!
