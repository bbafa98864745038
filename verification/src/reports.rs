//! What a report says: labels read as binary numbers, counts add up, and a request is
//! either met or answered.
use crate::engine::{
    chosen, digit, filled, given, given_among, label, notices, Engine, Notice, Refusal, Request,
};
use crate::safety::total;
use vstd::arithmetic::div_mod::{lemma_div_denominator, lemma_fundamental_div_mod};
use vstd::arithmetic::power2::{lemma2_to64, lemma_pow2_pos, lemma_pow2_unfold, pow2};
use vstd::prelude::*;

verus! {

/// The number that binary digits denote, the highest first.
pub open spec fn binary(s: Seq<char>) -> nat
    decreases s.len(),
{
    if s.len() == 0 {
        0
    } else {
        2 * binary(s.drop_last()) + if s.last() == '1' {
            1nat
        } else {
            0
        }
    }
}

proof fn lemma_digit(i: u64, q: nat)
    requires
        q < 64,
    ensures
        digit(i, q as int) == if (i as nat / pow2(q)) % 2 == 1 {
            '1'
        } else {
            '0'
        },
{
    let k = q as u64;
    vstd::bits::lemma_u64_shr_is_div(i, k);
    vstd::bits::lemma_u64_low_bits_mask_is_mod(i >> k, 1);
    vstd::bits::lemma_low_bits_mask_values();
    lemma2_to64();
}

proof fn lemma_label_prefix(i: u64, n: u8, k: nat)
    requires
        n <= 64,
        k <= n,
        i < pow2(n as nat),
    ensures
        binary(label(i, n).take(k as int)) == i as nat / pow2((n - k) as nat),
    decreases k,
{
    let s = label(i, n).take(k as int);
    if k == 0 {
        vstd::arithmetic::div_mod::lemma_basic_div(i as int, pow2(n as nat) as int);
    } else {
        let q = (n - k) as nat;
        lemma_label_prefix(i, n, (k - 1) as nat);
        assert(s.drop_last() =~= label(i, n).take(k - 1));
        assert(s.last() == digit(i, q as int));
        lemma_digit(i, q);
        lemma_pow2_unfold(q + 1);
        lemma_pow2_pos(q);
        let d = i as int / pow2(q) as int;
        lemma_div_denominator(i as int, pow2(q) as int, 2);
        assert(pow2(q) as int * 2 == pow2(q + 1) as int);
        lemma_fundamental_div_mod(d, 2);
    }
}

/// A label has one digit per qubit and is the basis state in binary.
pub proof fn law_labels_read_as_binary(i: u64, n: u8)
    requires
        n <= 64,
        i < pow2(n as nat),
    ensures
        label(i, n).len() == n,
        forall|k: int| 0 <= k < n ==> (#[trigger] label(i, n)[k] == '0' || label(i, n)[k] == '1'),
        binary(label(i, n)) == i,
{
    lemma_label_prefix(i, n, n as nat);
    assert(label(i, n).take(n as int) =~= label(i, n));
    lemma2_to64();
    vstd::arithmetic::div_mod::lemma_div_basics(i as int);
}

/// The bins that a list of labelled counts shows.
pub open spec fn shows(h: Seq<u32>, n: u8, bins: Seq<int>, list: Seq<(Seq<char>, u32)>) -> bool {
    &&& list.len() == bins.len()
    &&& forall|j: int|
        0 <= j < bins.len() ==> {
            let b = #[trigger] bins[j];
            &&& 0 <= b < h.len()
            &&& h[b] > 0
            &&& list[j].1 == h[b]
            &&& list[j].0 == label(b as u64, n)
        }
    &&& forall|i: int, j: int| 0 <= i < j < bins.len() ==> #[trigger] bins[i] < #[trigger] bins[j]
}

/// The sum of the counts of a list.
pub open spec fn sum(list: Seq<(Seq<char>, u32)>) -> nat
    decreases list.len(),
{
    if list.len() == 0 {
        0
    } else {
        sum(list.drop_last()) + list.last().1 as nat
    }
}

proof fn lemma_filled(h: Seq<u32>, n: u8, k: nat) -> (bins: Seq<int>)
    requires
        k <= h.len(),
    ensures
        shows(h, n, bins, filled(h, n, k)),
        forall|b: int| 0 <= b < k && h[b] > 0 ==> #[trigger] bins.contains(b),
        forall|j: int| 0 <= j < bins.len() ==> #[trigger] bins[j] < k,
        sum(filled(h, n, k)) == total(h.take(k as int)),
    decreases k,
{
    if k == 0 {
        Seq::empty()
    } else {
        let before = lemma_filled(h, n, (k - 1) as nat);
        let t = h.take(k as int);
        assert(t.drop_last() =~= h.take(k - 1));
        let list = filled(h, n, (k - 1) as nat);
        if h[k - 1] > 0 {
            let more = list.push((label((k - 1) as u64, n), h[k - 1]));
            assert(more.drop_last() =~= list);
            let bins = before.push(k - 1);
            assert forall|b: int| 0 <= b < k && h[b] > 0 implies #[trigger] bins.contains(b) by {
                if b == k - 1 {
                    assert(bins[before.len() as int] == b);
                } else {
                    assert(before.contains(b));
                    let j = choose|j: int| 0 <= j < before.len() && before[j] == b;
                    assert(bins[j] == b);
                }
            }
            bins
        } else {
            assert forall|b: int| 0 <= b < k && h[b] > 0 implies #[trigger] before.contains(b) by {
                assert(b < k - 1);
            }
            before
        }
    }
}

/// The listed counts are exactly the bins that hold samples, in ascending order, each once
/// with its own label and count, and they add up to the number of samples.
pub proof fn law_counts_show_every_sample(h: Seq<u32>, n: u8)
    ensures
        sum(filled(h, n, h.len())) == total(h),
        exists|bins: Seq<int>|
            #[trigger] shows(h, n, bins, filled(h, n, h.len())) && forall|b: int|
                0 <= b < h.len() && h[b] > 0 ==> #[trigger] bins.contains(b),
{
    let bins = lemma_filled(h, n, h.len());
    assert(h.take(h.len() as int) =~= h);
    assert(shows(h, n, bins, filled(h, n, h.len())));
}

/// The engine that was asked for is chosen where nothing stands against it: the
/// matrix-product engine before all others, then the tableau engine, then the accelerator,
/// then fusion.
pub proof fn law_requests_are_met(r: Request)
    requires
        !r.noise,
    ensures
        r.mps matches Some(d) ==> d >= 1 ==> r.mps_suitable ==> chosen(r) == Ok::<Engine, Refusal>(
            Engine::Mps(d),
        ),
        r.mps is None && r.stabilizer && r.clifford ==> chosen(r) == Ok::<Engine, Refusal>(
            Engine::Stabilizer,
        ),
        r.mps is None && !r.stabilizer && r.gpu && (r.precision is F32 || r.precision is Auto
            && !r.over_tolerance) ==> chosen(r) == Ok::<Engine, Refusal>(Engine::Gpu),
        r.mps is None && !r.stabilizer && !r.gpu && r.fuse ==> chosen(r) == Ok::<Engine, Refusal>(
            Engine::Fused,
        ),
        r.mps is None && !r.stabilizer && r.gpu && (r.precision is F64 || r.precision is Auto
            && r.over_tolerance) ==> chosen(r) == Ok::<Engine, Refusal>(
            if r.fuse {
                Engine::Fused
            } else {
                Engine::Statevector
            },
        ),
{
}

/// An engine is chosen only if it was asked for; the plain state vector needs no asking.
pub proof fn law_engines_are_asked_for(r: Request)
    ensures
        chosen(r) matches Ok(e) ==> match e {
            Engine::Gpu => r.gpu,
            Engine::Mps(d) => r.mps == Some(d),
            Engine::Stabilizer => r.stabilizer,
            Engine::Fused => r.fuse,
            Engine::Statevector => true,
        },
{
}

/// A request is refused exactly where noise meets an engine that cannot simulate it, or the
/// bond dimension is zero.
pub proof fn law_refusals(r: Request)
    ensures
        chosen(r) matches Err(e) ==> match e {
            Refusal::MpsWithNoise => r.mps is Some && r.noise,
            Refusal::BondTooSmall => r.mps == Some(0usize) && !r.noise,
            Refusal::StabilizerWithNoise => r.mps is None && r.stabilizer && r.noise,
        },
        chosen(r) is Ok ==> !(r.noise && (r.mps is Some || r.stabilizer)) && r.mps != Some(0usize),
{
}

/// Whether a request is answered with a notice.
pub open spec fn answered(r: Request, n: Notice) -> bool {
    given_among(r, notices().len()).contains(n)
}

proof fn lemma_among(r: Request, k: nat, n: Notice)
    requires
        k <= notices().len(),
    ensures
        given_among(r, k).contains(n) <==> given(r, n) && exists|j: int|
            0 <= j < k && #[trigger] notices()[j] == n,
    decreases k,
{
    if k > 0 {
        lemma_among(r, (k - 1) as nat, n);
        let (a, b) = (given_among(r, (k - 1) as nat), given_among(r, k));
        let last = notices()[k - 1];
        if given(r, last) {
            assert(b == a.push(last));
            if a.contains(n) {
                let j = choose|j: int| 0 <= j < a.len() && a[j] == n;
                assert(b[j] == n);
            }
            if n == last {
                assert(b[a.len() as int] == n);
            }
            if b.contains(n) {
                let j = choose|j: int| 0 <= j < b.len() && b[j] == n;
                if j < a.len() {
                    assert(a[j] == n);
                } else {
                    assert(n == last);
                }
            }
        }
        if exists|j: int| 0 <= j < k && #[trigger] notices()[j] == n {
            let j = choose|j: int| 0 <= j < k && #[trigger] notices()[j] == n;
            if j < k - 1 {
                assert(exists|j: int| 0 <= j < k - 1 && #[trigger] notices()[j] == n);
            }
        }
        if exists|j: int| 0 <= j < k - 1 && #[trigger] notices()[j] == n {
            assert(exists|j: int| 0 <= j < k && #[trigger] notices()[j] == n);
        }
    }
}

proof fn lemma_answered(r: Request, n: Notice)
    ensures
        answered(r, n) == given(r, n),
{
    lemma_among(r, notices().len(), n);
    let k = match n {
        Notice::PrecisionForcesCpu => 0int,
        Notice::ToleranceForcesCpu => 1,
        Notice::NoiseForcesCpu => 2,
        Notice::NoiseForcesUnfused => 3,
        Notice::MpsForcesCpu => 4,
        Notice::MpsIgnoresFuse => 5,
        Notice::MpsOverStabilizer => 6,
        Notice::StabilizerForcesCpu => 7,
        Notice::StabilizerForcesUnfused => 8,
        Notice::NotClifford => 9,
        Notice::MpsUnsuitable => 10,
    };
    assert(notices()[k] == n);
}

/// Nothing that was asked for is dropped silently: where an engine is chosen and a wish is
/// not met, a notice says so, and notices on the accelerator are given only where it was
/// asked for and not chosen; likewise for the other wishes.
pub proof fn law_no_wish_is_dropped_silently(r: Request)
    requires
        chosen(r) is Ok,
    ensures
        ({
            let e = chosen(r)->Ok_0;
            &&& (r.gpu && e != Engine::Gpu) <==> answered(r, Notice::PrecisionForcesCpu) || answered(
                r,
                Notice::ToleranceForcesCpu,
            ) || answered(r, Notice::NoiseForcesCpu) || answered(r, Notice::MpsForcesCpu)
                || answered(r, Notice::StabilizerForcesCpu)
            &&& (r.fuse && e != Engine::Fused && e != Engine::Gpu) <==> answered(
                r,
                Notice::NoiseForcesUnfused,
            ) || answered(r, Notice::MpsIgnoresFuse) || answered(r, Notice::StabilizerForcesUnfused)
            &&& (r.stabilizer && e != Engine::Stabilizer) <==> answered(r, Notice::NotClifford)
                || answered(r, Notice::MpsOverStabilizer)
            &&& (r.mps is Some && !(e is Mps)) <==> answered(r, Notice::MpsUnsuitable)
        }),
{
    lemma_answered(r, Notice::PrecisionForcesCpu);
    lemma_answered(r, Notice::ToleranceForcesCpu);
    lemma_answered(r, Notice::NoiseForcesCpu);
    lemma_answered(r, Notice::NoiseForcesUnfused);
    lemma_answered(r, Notice::MpsForcesCpu);
    lemma_answered(r, Notice::MpsIgnoresFuse);
    lemma_answered(r, Notice::MpsOverStabilizer);
    lemma_answered(r, Notice::StabilizerForcesCpu);
    lemma_answered(r, Notice::StabilizerForcesUnfused);
    lemma_answered(r, Notice::NotClifford);
    lemma_answered(r, Notice::MpsUnsuitable);
}

/// The place of a notice in the order in which notices are given: first those on precision,
/// then those on noise, then those on the matrix-product and the tableau engine.
pub open spec fn rank(n: Notice) -> int {
    match n {
        Notice::PrecisionForcesCpu => 0,
        Notice::ToleranceForcesCpu => 1,
        Notice::NoiseForcesCpu => 2,
        Notice::NoiseForcesUnfused => 3,
        Notice::MpsForcesCpu => 4,
        Notice::MpsIgnoresFuse => 5,
        Notice::MpsOverStabilizer => 6,
        Notice::StabilizerForcesCpu => 7,
        Notice::StabilizerForcesUnfused => 8,
        Notice::NotClifford => 9,
        Notice::MpsUnsuitable => 10,
    }
}

/// Notices are given in order, each at most once.
pub proof fn law_notices_are_given_in_order(r: Request, k: nat)
    requires
        k <= notices().len(),
    ensures
        notices().len() == 11,
        forall|i: int, j: int|
            0 <= i < j < given_among(r, k).len() ==> rank(#[trigger] given_among(r, k)[i]) < rank(
                #[trigger] given_among(r, k)[j],
            ),
        forall|i: int|
            0 <= i < given_among(r, k).len() ==> rank(#[trigger] given_among(r, k)[i]) < k,
    decreases k,
{
    if k > 0 {
        law_notices_are_given_in_order(r, (k - 1) as nat);
        assert(rank(notices()[k - 1]) == k - 1);
        let (a, b) = (given_among(r, (k - 1) as nat), given_among(r, k));
        assert forall|i: int| 0 <= i < b.len() implies rank(#[trigger] b[i]) < k && (i < a.len()
            ==> b[i] == a[i]) by {
            if i < a.len() {
                assert(rank(a[i]) < k - 1);
            }
        }
        assert forall|i: int, j: int| 0 <= i < j < b.len() implies rank(#[trigger] b[i]) < rank(
            #[trigger] b[j],
        ) by {
            assert(b[i] == a[i]);
            assert(rank(a[i]) < k - 1);
            if j < a.len() {
                assert(b[j] == a[j]);
            }
        }
    }
}

/// A notice is given only for its own reason, whether the request is met or refused, and no
/// wish is answered twice.
pub proof fn law_notices_have_their_reason(r: Request)
    ensures
        answered(r, Notice::PrecisionForcesCpu) ==> r.gpu && r.precision is F64,
        answered(r, Notice::ToleranceForcesCpu) ==> r.gpu && r.precision is Auto
            && r.over_tolerance,
        answered(r, Notice::NoiseForcesCpu) ==> r.gpu && r.noise && !(r.precision is F64) && !(
        r.precision is Auto && r.over_tolerance),
        answered(r, Notice::NoiseForcesUnfused) <==> r.fuse && r.noise,
        answered(r, Notice::MpsForcesCpu) ==> r.gpu && r.mps is Some && !r.noise && !(r.precision
            is F64) && !(r.precision is Auto && r.over_tolerance),
        answered(r, Notice::MpsIgnoresFuse) <==> r.fuse && r.mps is Some && !r.noise,
        answered(r, Notice::MpsOverStabilizer) <==> r.stabilizer && r.mps is Some,
        answered(r, Notice::StabilizerForcesCpu) ==> r.gpu && r.stabilizer && r.mps is None
            && !r.noise && !(r.precision is F64) && !(r.precision is Auto && r.over_tolerance),
        answered(r, Notice::StabilizerForcesUnfused) <==> r.fuse && r.stabilizer && r.mps is None
            && !r.noise,
        answered(r, Notice::NotClifford) <==> r.stabilizer && r.mps is None && !r.noise
            && !r.clifford,
        answered(r, Notice::MpsUnsuitable) ==> r.mps is Some && !r.mps_suitable,
{
    lemma_answered(r, Notice::PrecisionForcesCpu);
    lemma_answered(r, Notice::ToleranceForcesCpu);
    lemma_answered(r, Notice::NoiseForcesCpu);
    lemma_answered(r, Notice::NoiseForcesUnfused);
    lemma_answered(r, Notice::MpsForcesCpu);
    lemma_answered(r, Notice::MpsIgnoresFuse);
    lemma_answered(r, Notice::MpsOverStabilizer);
    lemma_answered(r, Notice::StabilizerForcesCpu);
    lemma_answered(r, Notice::StabilizerForcesUnfused);
    lemma_answered(r, Notice::NotClifford);
    lemma_answered(r, Notice::MpsUnsuitable);
}

} // verus!
