//! How the operands of an op reach the backend: bound by calls, looked up in the pools,
//! and touched by noise.
use crate::backend::{Gate, SimBackend};
use crate::ir::IrOp;
use crate::lexer::Token;
use crate::machine::{
    bound, controls, gate_of, gated, is_gate, law_bound_controls_move, place, renamed, renamed_op,
};
use crate::spelling::word_of;
use crate::words::letters;
use vstd::prelude::*;

verus! {

/// The qubit operands of an op, in order; the controls of `MCX` stand in its mask.
pub open spec fn qubits_of(op: IrOp) -> Seq<u8> {
    match op {
        IrOp::H(q) | IrOp::X(q) | IrOp::S(q) | IrOp::T(q) | IrOp::SX(q) | IrOp::Reset(q) => seq![q],
        IrOp::RZ(q, _) | IrOp::RX(q, _) | IrOp::RY(q, _) | IrOp::Phase(q, _) => seq![q],
        IrOp::Measure(q, _) | IrOp::MeasureX(q, _) | IrOp::MeasureY(q, _) => seq![q],
        IrOp::MCX(_, q) => seq![q],
        IrOp::CNOT(a, b) | IrOp::SWAP(a, b) | IrOp::ISWAP(a, b) | IrOp::CZ(a, b) => seq![a, b],
        IrOp::CPHASE(a, b, _) => seq![a, b],
        IrOp::Toff(a, b, c) | IrOp::CSWAP(a, b, c) | IrOp::Call(_, a, b, c) => seq![a, b, c],
        _ => Seq::empty(),
    }
}

/// The control mask of an op.
pub open spec fn mask_of(op: IrOp) -> u32 {
    match op {
        IrOp::MCX(mask, _) => mask,
        _ => 0,
    }
}

/// Whether a mask has the bit of qubit `q`.
pub open spec fn in_mask(mask: u32, q: u8) -> bool {
    (mask >> (q as u32)) & 1 == 1
}

/// An op without its qubits: its kind and all its other operands.
pub open spec fn without_qubits(op: IrOp) -> IrOp {
    match op {
        IrOp::H(_) => IrOp::H(0),
        IrOp::X(_) => IrOp::X(0),
        IrOp::S(_) => IrOp::S(0),
        IrOp::T(_) => IrOp::T(0),
        IrOp::SX(_) => IrOp::SX(0),
        IrOp::Reset(_) => IrOp::Reset(0),
        IrOp::RZ(_, k) => IrOp::RZ(0, k),
        IrOp::RX(_, k) => IrOp::RX(0, k),
        IrOp::RY(_, k) => IrOp::RY(0, k),
        IrOp::Phase(_, k) => IrOp::Phase(0, k),
        IrOp::Measure(_, c) => IrOp::Measure(0, c),
        IrOp::MeasureX(_, c) => IrOp::MeasureX(0, c),
        IrOp::MeasureY(_, c) => IrOp::MeasureY(0, c),
        IrOp::MCX(_, _) => IrOp::MCX(0, 0),
        IrOp::CNOT(_, _) => IrOp::CNOT(0, 0),
        IrOp::SWAP(_, _) => IrOp::SWAP(0, 0),
        IrOp::ISWAP(_, _) => IrOp::ISWAP(0, 0),
        IrOp::CZ(_, _) => IrOp::CZ(0, 0),
        IrOp::CPHASE(_, _, k) => IrOp::CPHASE(0, 0, k),
        IrOp::Toff(_, _, _) => IrOp::Toff(0, 0, 0),
        IrOp::CSWAP(_, _, _) => IrOp::CSWAP(0, 0, 0),
        IrOp::Call(id, _, _, _) => IrOp::Call(id, 0, 0, 0),
        _ => op,
    }
}

/// Whether `actual` is the qubit that operand `q` stands for: what it is bound to, or the
/// operand itself where nothing is bound to it.
pub open spec fn stands_for(bindings: Seq<Option<u8>>, q: u8, actual: u8) -> bool {
    if q < bindings.len() {
        match bindings[q as int] {
            Some(v) => actual == v,
            None => actual == q,
        }
    } else {
        actual == q
    }
}

/// A call binds every operand: position by position, the qubits of a bound op are those
/// that its operands stand for, its control mask names the qubits that its controls stand
/// for, and its kind and other operands are unchanged.
pub proof fn law_every_operand_is_bound(op: IrOp, bindings: Seq<Option<u8>>)
    requires
        bindings.len() == 3,
    ensures
        ({
            let r = renamed_op(op, bindings);
            &&& without_qubits(r) == without_qubits(op)
            &&& qubits_of(r).len() == qubits_of(op).len()
            &&& forall|k: int|
                0 <= k < qubits_of(op).len() ==> stands_for(
                    bindings,
                    qubits_of(op)[k],
                    #[trigger] qubits_of(r)[k],
                )
            &&& forall|q: u8|
                q < 31 ==> (#[trigger] in_mask(mask_of(r), q) <==> exists|p: u8|
                    p < 31 && in_mask(mask_of(op), p) && #[trigger] stands_for(bindings, p, q))
        }),
{
    let r = renamed_op(op, bindings);
    assert forall|q: u8| q < 31 implies (#[trigger] in_mask(mask_of(r), q) <==> exists|p: u8|
        p < 31 && in_mask(mask_of(op), p) && #[trigger] stands_for(bindings, p, q)) by {
        if let IrOp::MCX(mask, _) = op {
            law_bound_controls_move(bindings, mask, q);
            if in_mask(mask_of(r), q) {
                if q >= 3 && controls(mask, q) {
                    assert(stands_for(bindings, q, q));
                } else if controls(mask, 0) && place(renamed(bindings, 0)) == q {
                    assert(stands_for(bindings, 0, q));
                } else if controls(mask, 1) && place(renamed(bindings, 1)) == q {
                    assert(stands_for(bindings, 1, q));
                } else {
                    assert(stands_for(bindings, 2, q));
                }
            }
            if exists|p: u8| p < 31 && in_mask(mask, p) && #[trigger] stands_for(bindings, p, q) {
                let p = choose|p: u8|
                    p < 31 && in_mask(mask, p) && #[trigger] stands_for(bindings, p, q);
                assert(place(renamed(bindings, p)) == q);
                assert(p == 0 || p == 1 || p == 2 || p >= 3);
            }
        } else {
            lemma_empty_mask(q);
            assert forall|p: u8| p < 31 implies !in_mask(0, p) by {
                lemma_empty_mask(p);
            }
        }
    }
}

proof fn lemma_empty_mask(q: u8)
    requires
        q < 31,
    ensures
        !in_mask(0, q),
{
    let k = q as u32;
    vstd::bits::lemma_u32_shr_is_div(0, k);
    vstd::arithmetic::power2::lemma_pow2_pos(k as nat);
    vstd::arithmetic::div_mod::lemma_div_of0(vstd::arithmetic::power2::pow2(k as nat) as int);
    vstd::bits::lemma_u32_low_bits_mask_is_mod(0, 1);
    vstd::bits::lemma_low_bits_mask_values();
    vstd::arithmetic::power2::lemma2_to64();
}

/// Inside a call, operand `k` of the body stands for argument `k` as long as there are
/// so many parameters; other operands stand for themselves.
pub proof fn law_arguments_bind_in_order(nparams: u8, args: Seq<u8>, q: u8, actual: u8)
    requires
        args.len() == 3,
        nparams <= 3,
    ensures
        bound(nparams, args[0], args[1], args[2]).len() == 3,
        stands_for(bound(nparams, args[0], args[1], args[2]), q, actual) <==> actual == if q
            < nparams {
            args[q as int]
        } else {
            q
        },
{
    let b = bound(nparams, args[0], args[1], args[2]);
    assert(q < 3 ==> q == 0 || q == 1 || q == 2);
}

/// The word for a gate.
pub open spec fn gate_word<A>(g: Gate<A>) -> Seq<u8> {
    match g {
        Gate::H(_) => letters(Token::H),
        Gate::X(_) => letters(Token::X),
        Gate::CNOT(_, _) => letters(Token::Cnot),
        Gate::Toff(_, _, _) => letters(Token::Toff),
        Gate::RZ(_, _) => letters(Token::Rz),
        Gate::RX(_, _) => letters(Token::Rx),
        Gate::RY(_, _) => letters(Token::Ry),
        Gate::Phase(_, _) => letters(Token::Phase),
        Gate::S(_) => letters(Token::S),
        Gate::T(_) => letters(Token::T),
        Gate::SX(_) => letters(Token::Sx),
        Gate::SWAP(_, _) => letters(Token::Swap),
        Gate::ISWAP(_, _) => letters(Token::Iswap),
        Gate::CZ(_, _) => letters(Token::Cz),
        Gate::CPHASE(_, _, _) => letters(Token::Cphase),
        Gate::CSWAP(_, _, _) => letters(Token::Cswap),
        Gate::MCX(_, _) => letters(Token::Mcx),
    }
}

/// The qubits of a gate, in order; the controls of `MCX` stand in its mask.
pub open spec fn gate_qubits<A>(g: Gate<A>) -> Seq<u8> {
    match g {
        Gate::H(q) | Gate::X(q) | Gate::S(q) | Gate::T(q) | Gate::SX(q) | Gate::MCX(_, q) => seq![
            q,
        ],
        Gate::RZ(q, _) | Gate::RX(q, _) | Gate::RY(q, _) | Gate::Phase(q, _) => seq![q],
        Gate::CNOT(a, b) | Gate::SWAP(a, b) | Gate::ISWAP(a, b) | Gate::CZ(a, b) => seq![a, b],
        Gate::CPHASE(a, b, _) => seq![a, b],
        Gate::Toff(a, b, c) | Gate::CSWAP(a, b, c) => seq![a, b, c],
    }
}

/// The angle of a gate.
pub open spec fn gate_angle<A>(g: Gate<A>) -> Option<A> {
    match g {
        Gate::RZ(_, a) | Gate::RX(_, a) | Gate::RY(_, a) | Gate::Phase(_, a) => Some(a),
        Gate::CPHASE(_, _, a) => Some(a),
        _ => None,
    }
}

/// Where an op has its angle.
pub open spec fn angle_of(op: IrOp) -> Option<u16> {
    match op {
        IrOp::RZ(_, k) | IrOp::RX(_, k) | IrOp::RY(_, k) | IrOp::Phase(_, k) => Some(k),
        IrOp::CPHASE(_, _, k) => Some(k),
        _ => None,
    }
}

/// The backend is handed what the op names: the one with the same word, the same
/// qubits in the same order, the same control mask, and the angle that the constant pool
/// holds. Only an angle outside the pool has no gate.
pub proof fn law_ops_are_performed_as_named<A>(op: IrOp, consts: Seq<A>)
    requires
        is_gate(op),
    ensures
        match gate_of(op, consts) {
            Some(g) => {
                &&& gate_word(g) == word_of(op)
                &&& gate_qubits(g) == qubits_of(op)
                &&& (g matches Gate::MCX(mask, _) ==> mask == mask_of(op))
                &&& match angle_of(op) {
                    Some(k) => k < consts.len() && gate_angle(g) == Some(consts[k as int]),
                    None => gate_angle(g) is None,
                }
            },
            None => angle_of(op) matches Some(k) && k >= consts.len(),
        },
{
}

/// The gates are the ops that act on qubits without measuring, clearing or calling.
pub proof fn law_gates_are_the_unitary_ops(op: IrOp)
    ensures
        is_gate(op) <==> qubits_of(op).len() > 0 && !(op is Measure || op is MeasureX || op
            is MeasureY || op is Reset || op is Call),
{
}

/// Noise on a list of qubits, one after another.
pub open spec fn noisy_on<A: Copy, B: SimBackend<A>>(m: B::Model, qs: Seq<u8>, seed: u64) -> (
    B::Model,
    u64,
)
    decreases qs.len(),
{
    if qs.len() == 0 {
        (m, seed)
    } else {
        let n = B::noisy(m, qs[0], seed);
        noisy_on::<A, B>(n.0, qs.drop_first(), n.1)
    }
}

/// After a gate every qubit of it is exposed to noise once, in order.
pub proof fn law_noise_follows_the_qubits<A: Copy, B: SimBackend<A>>(
    m: B::Model,
    g: Gate<A>,
    seed: u64,
)
    ensures
        gated::<A, B>(m, g, seed) == noisy_on::<A, B>(B::evolved(m, g), gate_qubits(g), seed),
{
    let qs = gate_qubits(g);
    reveal_with_fuel(noisy_on, 4);
    if qs.len() == 1 {
        assert(qs.drop_first() =~= Seq::empty());
    } else if qs.len() == 2 {
        assert(qs.drop_first() =~= seq![qs[1]]);
        assert(seq![qs[1]].drop_first() =~= Seq::empty());
    } else {
        assert(qs.drop_first() =~= seq![qs[1], qs[2]]);
        assert(seq![qs[1], qs[2]].drop_first() =~= seq![qs[2]]);
        assert(seq![qs[2]].drop_first() =~= Seq::empty());
    }
}

} // verus!
