//! The seeded random number generator behind every measurement and sample.
use vstd::arithmetic::power2::pow2;
use vstd::prelude::*;

verus! {

/// Multiplier of the generator.
pub const LCG_MUL: u64 = 6364136223846793005;

/// Increment of the generator.
pub const LCG_INC: u64 = 1442695040888963407;

/// 2^53: the number of values a draw can take.
pub const DRAW_RANGE: u64 = 0x20_0000_0000_0000;

/// 2^52: draws below it lie in the lower half of the unit interval.
pub const HALF_DRAW: u64 = 0x10_0000_0000_0000;

/// 64-bit linear congruential generator (MMIX variant).
#[derive(Clone, Copy, Debug)]
pub struct Lcg64(pub u64);

/// The state after one draw from state `s`.
pub open spec fn lcg_next(s: u64) -> u64 {
    ((s * LCG_MUL + LCG_INC) % 0x1_0000_0000_0000_0000) as u64
}

/// The value drawn when the state becomes `s`: its upper 53 bits.
pub open spec fn lcg_value(s: u64) -> u64 {
    s / 2048
}

impl Lcg64 {
    /// A generator whose state is `seed`.
    pub fn new(seed: u64) -> (r: Self)
        ensures
            r.0 == seed,
    {
        Self(seed)
    }

    /// Advances the generator and returns a value below 2^53; divided by 2^53
    /// it is a uniform number in [0, 1).
    pub fn next_bits(&mut self) -> (v: u64)
        ensures
            final(self).0 == lcg_next(old(self).0),
            v == lcg_value(final(self).0),
            v < DRAW_RANGE,
    {
        self.0 = self.0.wrapping_mul(LCG_MUL).wrapping_add(LCG_INC);
        proof {
            let s = old(self).0;
            let p: int = s * LCG_MUL;
            let m: int = 0x1_0000_0000_0000_0000;
            assert(self.0 == ((p % m) + LCG_INC) % m);
            vstd::arithmetic::div_mod::lemma_add_mod_noop(p, LCG_INC as int, m);
            vstd::arithmetic::div_mod::lemma_small_mod(LCG_INC as nat, m as nat);
        }
        let s: u64 = self.0;
        proof {
            vstd::bits::lemma_u64_shr_is_div(s, 11);
            vstd::arithmetic::power2::lemma2_to64();
        }
        s >> 11
    }
}

/// The state after `n` draws from state `s`.
pub open spec fn lcg_after(n: nat, s: u64) -> u64
    decreases n,
{
    if n == 0 {
        s
    } else {
        lcg_next(lcg_after((n - 1) as nat, s))
    }
}

/// The `n`th power of the multiplier.
spec fn power(n: nat) -> int
    decreases n,
{
    if n == 0 {
        1
    } else {
        power((n - 1) as nat) * (LCG_MUL as int)
    }
}

/// The sum of the first `n` powers of the multiplier.
spec fn powers(n: nat) -> int
    decreases n,
{
    if n == 0 {
        0
    } else {
        powers((n - 1) as nat) * (LCG_MUL as int) + 1
    }
}

/// Whether 2^k divides `x`.
spec fn twos(k: nat, x: int) -> bool
    decreases k,
{
    k == 0 || (x % 2 == 0 && twos((k - 1) as nat, x / 2))
}

proof fn lemma_twos_mod(k: nat, x: int)
    requires
        x >= 0,
    ensures
        twos(k, x) == (x % (pow2(k) as int) == 0),
    decreases k,
{
    vstd::arithmetic::power2::lemma2_to64();
    if k > 0 {
        lemma_twos_mod((k - 1) as nat, x / 2);
        vstd::arithmetic::power2::lemma_pow2_unfold(k);
        vstd::arithmetic::power2::lemma_pow2_pos((k - 1) as nat);
        let m = pow2((k - 1) as nat) as int;
        vstd::arithmetic::div_mod::lemma_mod_breakdown(x, 2, m);
        assert(2 * m == pow2(k));
        assert(x % (2 * m) == 2 * ((x / 2) % m) + x % 2);
    } else {
        assert(x % 1 == 0);
    }
}

proof fn lemma_twos_odd(k: nat, u: int, w: int)
    requires
        u % 2 == 1,
    ensures
        twos(k, u * w) == twos(k, w),
    decreases k,
{
    if k > 0 {
        let (i, j) = (u / 2, w / 2);
        assert(u * w == 2 * (i * w) + w) by (nonlinear_arith)
            requires
                u == 2 * i + 1,
        ;
        if w % 2 == 0 {
            assert(u * w == 2 * (u * j)) by (nonlinear_arith)
                requires
                    w == 2 * j,
            ;
            assert((u * w) / 2 == u * j);
            lemma_twos_odd((k - 1) as nat, u, j);
        }
    }
}

proof fn lemma_power_identity(n: nat)
    ensures
        power(n) == (LCG_MUL - 1) * powers(n) + 1,
    decreases n,
{
    if n > 0 {
        lemma_power_identity((n - 1) as nat);
        let (p, g, a) = (power((n - 1) as nat), powers((n - 1) as nat), LCG_MUL as int);
        assert(p * a == (a - 1) * (g * a + 1) + 1) by (nonlinear_arith)
            requires
                p == (a - 1) * g + 1,
        ;
    }
}

proof fn lemma_power_mod(n: nat)
    ensures
        power(n) % 4 == 1,
    decreases n,
{
    if n > 0 {
        lemma_power_mod((n - 1) as nat);
        let (p, a) = (power((n - 1) as nat), LCG_MUL as int);
        let (i, j) = (p / 4, a / 4);
        let k = 4 * (i * j) + i + j;
        assert(p * a == 4 * k + 1) by (nonlinear_arith)
            requires
                p == 4 * i + 1,
                a == 4 * j + 1,
                k == 4 * (i * j) + i + j,
        ;
    }
}

proof fn lemma_powers_parity(n: nat)
    ensures
        powers(n) % 2 == (n % 2) as int,
        powers(n) >= 0,
    decreases n,
{
    if n > 0 {
        lemma_powers_parity((n - 1) as nat);
        let (g, a) = (powers((n - 1) as nat), LCG_MUL as int);
        let h = a / 2;
        let k = g * h;
        assert(g * a == 2 * k + g) by (nonlinear_arith)
            requires
                a == 2 * h + 1,
                k == g * h,
        ;
        assert(g * a >= 0) by (nonlinear_arith)
            requires
                g >= 0,
                a >= 0,
        ;
    }
}

proof fn lemma_power(n: nat)
    ensures
        power(n) == (LCG_MUL - 1) * powers(n) + 1,
        power(n) % 4 == 1,
        powers(n) % 2 == (n % 2) as int,
        powers(n) >= 0,
{
    lemma_power_identity(n);
    lemma_power_mod(n);
    lemma_powers_parity(n);
}

proof fn lemma_powers_sum(m: nat, k: nat)
    ensures
        powers(m + k) == powers(m) * power(k) + powers(k),
    decreases k,
{
    if k > 0 {
        lemma_powers_sum(m, (k - 1) as nat);
        let (gm, p, g, a) = (
            powers(m),
            power((k - 1) as nat),
            powers((k - 1) as nat),
            LCG_MUL as int,
        );
        assert((gm * p + g) * a + 1 == gm * (p * a) + (g * a + 1)) by (nonlinear_arith);
    }
}

proof fn lemma_powers_twos(k: nat, n: nat)
    ensures
        twos(k, powers(n)) == twos(k, n as int),
    decreases k,
{
    if k > 0 {
        lemma_power(n);
        if n % 2 == 0 {
            let m = (n / 2) as nat;
            lemma_powers_sum(m, m);
            lemma_power(m);
            let (g, p) = (powers(m), power(m));
            let h = (p + 1) / 2;
            assert(h % 2 == 1);
            assert(g * p + g == 2 * (h * g)) by (nonlinear_arith)
                requires
                    p + 1 == 2 * h,
            ;
            assert(powers(n) / 2 == h * g);
            lemma_twos_odd((k - 1) as nat, h, g);
            lemma_powers_twos((k - 1) as nat, m);
        }
    }
}

proof fn lemma_lcg_after(n: nat, s: u64)
    ensures
        lcg_after(n, s) == (power(n) * s + LCG_INC * powers(n)) % 0x1_0000_0000_0000_0000,
    decreases n,
{
    let m: int = 0x1_0000_0000_0000_0000;
    let (a, c, x) = (LCG_MUL as int, LCG_INC as int, s as int);
    if n == 0 {
        assert(1 * x + c * 0 == x);
    } else {
        lemma_lcg_after((n - 1) as nat, s);
        let (p, g) = (power((n - 1) as nat), powers((n - 1) as nat));
        let t = p * x + c * g;
        vstd::arithmetic::div_mod::lemma_mul_mod_noop_left(t, a, m);
        vstd::arithmetic::div_mod::lemma_add_mod_noop((t % m) * a, c, m);
        vstd::arithmetic::div_mod::lemma_add_mod_noop(t * a, c, m);
        assert(t * a + c == (p * a) * x + c * (g * a + 1)) by (nonlinear_arith)
            requires
                t == p * x + c * g,
        ;
    }
}

/// The generator has period 2^64: from every state, the state comes back after `n`
/// draws exactly when 2^64 divides `n`.
pub proof fn law_period(n: nat, s: u64)
    ensures
        lcg_after(n, s) == s <==> n % 0x1_0000_0000_0000_0000 == 0,
{
    let m: int = 0x1_0000_0000_0000_0000;
    let (a, c, x) = (LCG_MUL as int, LCG_INC as int, s as int);
    let (p, g) = (power(n), powers(n));
    lemma_lcg_after(n, s);
    lemma_power(n);
    lemma_powers_twos(64, n);
    vstd::arithmetic::power2::lemma2_to64();
    lemma_twos_mod(64, n as int);
    let y = p * x + c * g;
    let u = (a - 1) * x + c;
    assert(y - x == u * g) by (nonlinear_arith)
        requires
            p == (a - 1) * g + 1,
            y == p * x + c * g,
            u == (a - 1) * x + c,
    ;
    let h = (a - 1) / 2;
    assert(u == 2 * (h * x) + c) by (nonlinear_arith)
        requires
            a - 1 == 2 * h,
            u == (a - 1) * x + c,
    ;
    lemma_twos_odd(64, u, g);
    assert(u * g >= 0) by (nonlinear_arith)
        requires
            u == 2 * (h * x) + c,
            h >= 0,
            x >= 0,
            c >= 0,
            g >= 0,
    ;
    lemma_twos_mod(64, y - x);
    assert((y % m == x) == ((y - x) % m == 0)) by {
        let (q, r) = (y / m, y % m);
        assert(y == q * m + r);
        if r == x {
            assert((y - x) % m == 0);
        } else {
            assert((y - x) % m == (r - x) % m) by {
                vstd::arithmetic::div_mod::lemma_mod_multiples_vanish(q, r - x, m);
            }
        }
    }
}

} // verus!
