//! Deterministic pseudo-random generator: xoshiro256** seeded by splitmix64.
use vstd::arithmetic::div_mod::{lemma_mul_mod_noop_left, lemma_mul_mod_noop_right};
use vstd::arithmetic::div_mod::{lemma_add_mod_noop, lemma_div_denominator, lemma_fundamental_div_mod};
use vstd::arithmetic::mul::lemma_mul_is_associative;
use vstd::arithmetic::power2::{lemma_pow2_unfold, pow2};
use vstd::prelude::*;

verus! {

/// The splitmix64 increment (the odd golden-ratio constant).
pub const GOLDEN_GAMMA: u64 = 0x9E3779B97F4A7C15;

/// Output mixing of splitmix64 applied to the advanced counter `z`.
pub open spec fn splitmix_mix(z: u64) -> u64 {
    let z1 = vstd::wrapping::u64_specs::wrapping_mul(z ^ (z >> 30), 0xBF58476D1CE4E5B9);
    let z2 = vstd::wrapping::u64_specs::wrapping_mul(z1 ^ (z1 >> 27), 0x94D049BB133111EB);
    z2 ^ (z2 >> 31)
}

fn splitmix64(x: &mut u64) -> (r: u64)
    ensures
        *final(x) == vstd::wrapping::u64_specs::wrapping_add(*old(x), GOLDEN_GAMMA),
        r == splitmix_mix(*final(x)),
{
    *x = x.wrapping_add(GOLDEN_GAMMA);
    let mut z = *x;
    z = (z ^ (z >> 30)).wrapping_mul(0xBF58476D1CE4E5B9);
    z = (z ^ (z >> 27)).wrapping_mul(0x94D049BB133111EB);
    z ^ (z >> 31)
}

/// Left rotation of a 64-bit word by `r` places, `0 < r < 64`.
pub open spec fn rotl(x: u64, r: u64) -> u64
    recommends
        0 < r < 64,
{
    (x << r) | (x >> ((64 - r) as u64))
}

fn rotate_left(x: u64, r: u64) -> (y: u64)
    requires
        0 < r < 64,
    ensures
        y == rotl(x, r),
{
    (x << r) | (x >> (64 - r))
}

/// The four 64-bit words of a generator state.
pub type XoState = (u64, u64, u64, u64);

/// The xoshiro256** output ("starstar" scrambler) of state `s`.
pub open spec fn xoshiro_output(s: XoState) -> u64 {
    vstd::wrapping::u64_specs::wrapping_mul(
        rotl(vstd::wrapping::u64_specs::wrapping_mul(s.1, 5), 7),
        9,
    )
}

/// The xoshiro256 linear state transition.
pub open spec fn xoshiro_step(s: XoState) -> XoState {
    let a2 = s.2 ^ s.0;
    let a3 = s.3 ^ s.1;
    let a1 = s.1 ^ a2;
    let a0 = s.0 ^ a3;
    (a0, a1, a2 ^ (s.1 << 17u64), rotl(a3, 45))
}

/// The state after `t` transitions from `s`.
pub open spec fn nth_state(s: XoState, t: nat) -> XoState
    decreases t,
{
    if t == 0 {
        s
    } else {
        nth_state(xoshiro_step(s), (t - 1) as nat)
    }
}

/// Law: `a` transitions followed by `b` transitions are `a + b` transitions.
pub proof fn lemma_nth_state_add(s: XoState, a: nat, b: nat)
    ensures
        nth_state(s, a + b) == nth_state(nth_state(s, a), b),
    decreases a,
{
    if a > 0 {
        lemma_nth_state_add(xoshiro_step(s), (a - 1) as nat, b);
        assert((a - 1) as nat + b == (a + b - 1) as nat);
    }
}

/// The counter value after `i` splitmix64 steps from `seed`.
pub open spec fn splitmix_counter(seed: u64, i: nat) -> u64
    decreases i,
{
    if i == 0 {
        seed
    } else {
        vstd::wrapping::u64_specs::wrapping_add(splitmix_counter(seed, (i - 1) as nat), GOLDEN_GAMMA)
    }
}

/// The state obtained by seeding with `seed`: four consecutive splitmix64 outputs.
pub open spec fn seeded_state(seed: u64) -> XoState {
    (
        splitmix_mix(splitmix_counter(seed, 1)),
        splitmix_mix(splitmix_counter(seed, 2)),
        splitmix_mix(splitmix_counter(seed, 3)),
        splitmix_mix(splitmix_counter(seed, 4)),
    )
}

/// 2^64, the modulus of 64-bit wrapping arithmetic.
pub open spec fn two_pow_64() -> int {
    0x1_0000_0000_0000_0000
}

proof fn lemma_splitmix_counter_closed_form(seed: u64, i: nat)
    ensures
        splitmix_counter(seed, i) as int == (seed as int + i * GOLDEN_GAMMA as int) % two_pow_64(),
    decreases i,
{
    if i > 0 {
        lemma_splitmix_counter_closed_form(seed, (i - 1) as nat);
        let prev = seed as int + (i - 1) * GOLDEN_GAMMA as int;
        lemma_add_mod_noop(prev, GOLDEN_GAMMA as int, two_pow_64());
        assert(prev + GOLDEN_GAMMA as int == seed as int + i * GOLDEN_GAMMA as int) by (nonlinear_arith)
            requires
                prev == seed as int + (i - 1) * GOLDEN_GAMMA as int,
        ;
    }
}

proof fn lemma_splitmix_counter_shift(seed: u64, i: nat)
    ensures
        splitmix_counter(vstd::wrapping::u64_specs::wrapping_add(seed, GOLDEN_GAMMA), i)
            == splitmix_counter(seed, i + 1),
    decreases i,
{
    reveal_with_fuel(splitmix_counter, 2);
    if i > 0 {
        lemma_splitmix_counter_shift(seed, (i - 1) as nat);
    }
}

/// Law (seeding): for every seed, word `w` (w = 0..3) of the seeded state
/// is the splitmix64 mix of `seed + (w + 1) * GOLDEN_GAMMA` modulo 2^64, in
/// that order; and seeding with `seed + GOLDEN_GAMMA` gives the state of
/// `seed` shifted by one word.
pub proof fn lemma_seeded_state_words(seed: u64)
    ensures
        seeded_state(seed).0 == splitmix_mix(((seed as int + GOLDEN_GAMMA as int) % two_pow_64()) as u64),
        seeded_state(seed).1 == splitmix_mix(((seed as int + 2 * GOLDEN_GAMMA as int) % two_pow_64()) as u64),
        seeded_state(seed).2 == splitmix_mix(((seed as int + 3 * GOLDEN_GAMMA as int) % two_pow_64()) as u64),
        seeded_state(seed).3 == splitmix_mix(((seed as int + 4 * GOLDEN_GAMMA as int) % two_pow_64()) as u64),
        seeded_state(vstd::wrapping::u64_specs::wrapping_add(seed, GOLDEN_GAMMA)).0 == seeded_state(seed).1,
        seeded_state(vstd::wrapping::u64_specs::wrapping_add(seed, GOLDEN_GAMMA)).1 == seeded_state(seed).2,
        seeded_state(vstd::wrapping::u64_specs::wrapping_add(seed, GOLDEN_GAMMA)).2 == seeded_state(seed).3,
{
    lemma_splitmix_counter_closed_form(seed, 1);
    lemma_splitmix_counter_closed_form(seed, 2);
    lemma_splitmix_counter_closed_form(seed, 3);
    lemma_splitmix_counter_closed_form(seed, 4);
    lemma_splitmix_counter_shift(seed, 1);
    lemma_splitmix_counter_shift(seed, 2);
    lemma_splitmix_counter_shift(seed, 3);
}

/// 2^53: one more than the largest significand of a 64-bit float.
pub open spec fn two_pow_53() -> nat {
    0x20_0000_0000_0000
}

/// Number of low bits a whole number `x` loses when held with 53
/// significant bits: the least `s` with `x / 2^s < 2^53`.
pub open spec fn sig_shift(x: nat) -> nat
    decreases x,
{
    if x < two_pow_53() {
        0
    } else {
        1 + sig_shift(x / 2)
    }
}

/// The whole number nearest to `x` that has at most 53 significant bits,
/// ties to the even significand: the value of `x as f64` for whole `x`.
pub open spec fn round_to_f64(x: nat) -> nat {
    let s = sig_shift(x);
    if s == 0 {
        x
    } else {
        let p = pow2(s);
        let q = x / p;
        let r = x % p;
        let half = p / 2;
        if r > half || (r == half && q % 2 == 1) {
            ((q + 1) * p) as nat
        } else {
            (q * p) as nat
        }
    }
}

proof fn lemma_sig_shift_bounds(x: nat)
    ensures
        x / pow2(sig_shift(x)) < two_pow_53(),
        sig_shift(x) > 0 ==> x / pow2(sig_shift(x)) >= two_pow_53() / 2,
    decreases x,
{
    if x < two_pow_53() {
        assert(pow2(0) == 1) by {
            vstd::arithmetic::power2::lemma2_to64();
        }
    } else {
        let y = x / 2;
        let t = sig_shift(y);
        lemma_sig_shift_bounds(y);
        lemma_pow2_unfold(t + 1);
        vstd::arithmetic::power2::lemma_pow2_pos(t);
        lemma_div_denominator(x as int, 2, pow2(t) as int);
        assert(x / pow2(t + 1) == y / pow2(t));
        if t == 0 {
            assert(pow2(0) == 1) by {
                vstd::arithmetic::power2::lemma2_to64();
            }
        }
    }
}

/// Law (rounding error): rounding a whole number to 53 significant bits
/// moves it by at most x / 2^53 either way.
pub proof fn lemma_round_to_f64_error(x: nat)
    ensures
        two_pow_53() * round_to_f64(x) <= two_pow_53() * x + x,
        two_pow_53() * x <= two_pow_53() * round_to_f64(x) + x,
{
    let s = sig_shift(x);
    if s > 0 {
        lemma_sig_shift_bounds(x);
        let p = pow2(s);
        vstd::arithmetic::power2::lemma_pow2_pos(s);
        lemma_pow2_unfold(s);
        let q = x / p;
        let r = x % p;
        let half = p / 2;
        lemma_fundamental_div_mod(x as int, p as int);
        assert(half * 2 == p);
        assert(0x10_0000_0000_0000 * p <= q * p) by (nonlinear_arith)
            requires
                q >= 0x10_0000_0000_0000,
                p > 0,
        ;
        assert(x == q * p + r);
        if r > half || (r == half && q % 2 == 1) {
            assert(round_to_f64(x) == (q + 1) * p);
            assert((q + 1) * p == q * p + p) by (nonlinear_arith);
        } else {
            assert(round_to_f64(x) == q * p);
        }
    }
}

/// Law (`below` scales the draw): for `0 < m < 2^53`, with `k` the top 53
/// bits of the draw, `below(m)` is the integer part of `k * m / 2^53` up to
/// the rounding of the floating-point product: it is below `m`,
/// `below(m) * 2^53 <= k * m + 2^53` and `k * m < (below(m) + 2) * 2^53`.
pub proof fn lemma_below_scales_draw(draw: u64, m: nat)
    requires
        0 < m < two_pow_53(),
        m <= usize::MAX,
    ensures
        below_value(draw, m) < m,
        below_value(draw, m) * two_pow_53() <= (draw / 2048) as nat * m + two_pow_53(),
        (draw / 2048) as nat * m < (below_value(draw, m) + 2) * two_pow_53(),
{
    let k = (draw / 2048) as nat;
    assert(round_to_f64(m) == m);
    let x = k * m;
    assert(k < two_pow_53());
    assert(x <= (two_pow_53() - 1) * m) by (nonlinear_arith)
        requires
            x == k * m,
            k <= two_pow_53() - 1,
    ;
    lemma_round_to_f64_error(x);
    let rx = round_to_f64(x);
    assert(rx < x + m) by (nonlinear_arith)
        requires
            two_pow_53() * rx <= two_pow_53() * x + x,
            x <= (two_pow_53() - 1) * m,
            m > 0,
    ;
    let scaled = rx / two_pow_53();
    assert(scaled < m);
    assert(k * round_to_f64(m) == x);
    assert(scaled <= usize::MAX);
    vstd::arithmetic::div_mod::lemma_small_mod(scaled, m);
    assert(below_value(draw, m) == scaled);
    assert(x < rx + m) by (nonlinear_arith)
        requires
            two_pow_53() * x <= two_pow_53() * rx + x,
            x <= (two_pow_53() - 1) * m,
            m > 0,
    ;
}

proof fn lemma_round_to_f64_at_most_two_pow_64(x: nat)
    requires
        x <= 0x1_0000_0000_0000_0000,
    ensures
        round_to_f64(x) <= 0x1_0000_0000_0000_0000,
{
    let s = sig_shift(x);
    if s > 0 {
        lemma_sig_shift_bounds(x);
        let p = pow2(s);
        vstd::arithmetic::power2::lemma_pow2_pos(s);
        let q = x / p;
        let r = x % p;
        lemma_fundamental_div_mod(x as int, p as int);
        assert(p <= 0x1000) by (nonlinear_arith)
            requires
                q >= 0x10_0000_0000_0000,
                x == q * p + r,
                r >= 0,
                x <= 0x1_0000_0000_0000_0000,
                p > 0,
        ;
        assert(s <= 12) by {
            if s > 12 {
                vstd::arithmetic::power2::lemma_pow2_strictly_increases(12, s);
                vstd::arithmetic::power2::lemma2_to64();
            }
        }
        let e = (64 - s) as nat;
        vstd::arithmetic::power2::lemma_pow2_adds(s, e);
        vstd::arithmetic::power2::lemma2_to64_rest();
        assert(s + e == 64);
        let c = pow2(e);
        assert(p * c == 0x1_0000_0000_0000_0000);
        assert(c * p == p * c) by (nonlinear_arith);
        assert(q * p <= x);
        if r == 0 && q * p == 0x1_0000_0000_0000_0000 {
            lemma_pow2_unfold(s);
            vstd::arithmetic::power2::lemma_pow2_pos((s - 1) as nat);
            assert(p / 2 > 0);
            assert(round_to_f64(x) == q * p);
        } else {
            assert((q + 1) * p <= 0x1_0000_0000_0000_0000) by (nonlinear_arith)
                requires
                    q * p + r <= c * p,
                    c * p == 0x1_0000_0000_0000_0000,
                    p > 0,
                    r >= 0,
                    !(r == 0 && q * p == 0x1_0000_0000_0000_0000),
            ;
            assert((q + 1) * p == q * p + p) by (nonlinear_arith);
        }
    }
}

/// Law (`below` scales the draw, every range): for every `0 < m` that fits
/// in `usize`, with `k` the top 53 bits of the draw and `r = below(m)`, the
/// integer part of `k * m / 2^53` (up to the rounding of the floating-point
/// product and of `m`) is `r`, or is `r + m` when the rounding reached `m`:
/// `r' * 2^53 < k * m + 3m` and `k * m < (r' + 1) * 2^53 + 3m` for
/// `r' == r` or `r' == r + m`.
pub proof fn lemma_below_near_scaled_draw(draw: u64, m: nat)
    requires
        0 < m <= usize::MAX,
    ensures
        ({
            let k = (draw / 2048) as nat;
            let r = below_value(draw, m);
            ||| (r * two_pow_53() < k * m + 3 * m && k * m < (r + 1) * two_pow_53() + 3 * m)
            ||| ((r + m) * two_pow_53() < k * m + 3 * m && k * m < (r + m + 1) * two_pow_53() + 3 * m)
        }),
{
    let k = (draw / 2048) as nat;
    let big = two_pow_53();
    assert(k < big);
    lemma_round_to_f64_error(m);
    let mm = round_to_f64(m);
    assert(mm < 2 * m) by (nonlinear_arith)
        requires
            big * mm <= big * m + m,
            m > 0,
            big == 0x20_0000_0000_0000,
    ;
    assert(m < 2 * mm) by (nonlinear_arith)
        requires
            big * m <= big * mm + m,
            m > 0,
            big == 0x20_0000_0000_0000,
    ;
    let x = k * mm;
    let km = k * m;
    // |x - km| < m
    assert(big * x <= big * km + km && big * km <= big * x + km) by (nonlinear_arith)
        requires
            big * mm <= big * m + m,
            big * m <= big * mm + m,
            x == k * mm,
            km == k * m,
    ;
    assert(x < km + m && km < x + m) by (nonlinear_arith)
        requires
            big * x <= big * km + km,
            big * km <= big * x + km,
            km == k * m,
            k < big,
            m > 0,
    ;
    lemma_round_to_f64_error(x);
    let rx = round_to_f64(x);
    assert(rx < x + mm && x < rx + mm) by (nonlinear_arith)
        requires
            big * rx <= big * x + x,
            big * x <= big * rx + x,
            x == k * mm,
            k < big,
            m > 0,
            mm > 0,
    ;
    assert(x + mm <= big * mm) by (nonlinear_arith)
        requires
            x == k * mm,
            k < big,
    ;
    let scaled = rx / big;
    assert(scaled < mm);
    assert(scaled <= usize::MAX) by {
        if m >= big {
            assert(usize::MAX == 0xffff_ffff_ffff_ffff);
            lemma_round_to_f64_at_most_two_pow_64(m);
        } else {
            assert(mm == m);
        }
    }
    let r = below_value(draw, m);
    assert(r == scaled % m);
    if scaled < m {
        vstd::arithmetic::div_mod::lemma_small_mod(scaled, m);
    } else {
        vstd::arithmetic::div_mod::lemma_mod_add_multiples_vanish(scaled - m, m as int);
        vstd::arithmetic::div_mod::lemma_small_mod((scaled - m) as nat, m);
    }
}

/// Value of `below(m)` for the raw 64-bit draw `draw`: the top 53 bits of the
/// draw make the float `k / 2^53` in [0, 1); the product with `m as f64` is
/// rounded to a float, truncated (saturating) to a whole number, and reduced
/// modulo `m`.
pub open spec fn below_value(draw: u64, m: nat) -> nat {
    let k = (draw / 2048) as nat;
    let scaled = round_to_f64(k * round_to_f64(m)) / two_pow_53();
    let truncated = if scaled > usize::MAX {
        usize::MAX as nat
    } else {
        scaled
    };
    truncated % m
}

/// Rounds a whole number to 53 significant bits, ties to even.
fn round_to_f64_u128(x: u128) -> (y: u128)
    requires
        x < 0x100_0000_0000_0000_0000_0000_0000_0000,
    ensures
        y == round_to_f64(x as nat),
        y <= 2 * x,
{
    let big: u128 = 0x20_0000_0000_0000;
    let mut p: u128 = 1;
    let ghost mut s: nat = 0;
    proof {
        assert(pow2(0) == 1) by {
            vstd::arithmetic::power2::lemma2_to64();
        }
    }
    while x / p >= big
        invariant
            0 < p,
            p == pow2(s),
            p == 1 || p * 0x10_0000_0000_0000 <= x,
            sig_shift(x as nat) == s + sig_shift((x / p) as nat),
            x < 0x100_0000_0000_0000_0000_0000_0000_0000,
            big == two_pow_53(),
        decreases x / p,
    {
        proof {
            lemma_fundamental_div_mod(x as int, p as int);
            assert(p * (x / p) <= x) by (nonlinear_arith)
                requires
                    0 < p,
                    x == p * (x / p) + x % p,
                    x % p >= 0,
            ;
            assert(p * 0x20_0000_0000_0000 <= p * (x / p)) by (nonlinear_arith)
                requires
                    0 < p,
                    x / p >= 0x20_0000_0000_0000,
            ;
            lemma_div_denominator(x as int, p as int, 2);
            lemma_pow2_unfold(s + 1);
            assert(x / p / 2 < x / p);
        }
        p = p * 2;
        proof {
            s = s + 1;
        }
    }
    if p == 1 {
        return x;
    }
    let q = x / p;
    let r = x % p;
    let half = p / 2;
    proof {
        assert(q < 0x20_0000_0000_0000);
        lemma_fundamental_div_mod(x as int, p as int);
        assert(q * p <= x) by (nonlinear_arith)
            requires
                0 < p,
                q == x / p,
                x == p * (x / p) + x % p,
                x % p >= 0,
        ;
        assert((q + 1) * p <= 0x20_0000_0000_0000 * p) by (nonlinear_arith)
            requires
                q < 0x20_0000_0000_0000,
                0 < p,
        ;
    }
    proof {
        assert(0x20_0000_0000_0000 * p <= 2 * x);
    }
    if r > half || (r == half && q % 2 == 1) {
        (q + 1) * p
    } else {
        q * p
    }
}

/// A xoshiro256** generator.
pub struct Rng {
    s: [u64; 4],
}

impl View for Rng {
    type V = XoState;

    closed spec fn view(&self) -> XoState {
        (self.s[0], self.s[1], self.s[2], self.s[3])
    }
}

impl Rng {
    /// Seeds the generator with four splitmix64 outputs of `seed`.
    pub fn new(seed: u64) -> (r: Self)
        ensures
            r@ == seeded_state(seed),
            r@.0 == splitmix_mix(((seed as int + GOLDEN_GAMMA as int) % two_pow_64()) as u64),
            r@.1 == splitmix_mix(((seed as int + 2 * GOLDEN_GAMMA as int) % two_pow_64()) as u64),
            r@.2 == splitmix_mix(((seed as int + 3 * GOLDEN_GAMMA as int) % two_pow_64()) as u64),
            r@.3 == splitmix_mix(((seed as int + 4 * GOLDEN_GAMMA as int) % two_pow_64()) as u64),
            state_nonzero(r@),
    {
        let mut x = seed;
        let a = splitmix64(&mut x);
        let b = splitmix64(&mut x);
        let c = splitmix64(&mut x);
        let d = splitmix64(&mut x);
        proof {
            reveal_with_fuel(splitmix_counter, 5);
            lemma_seeded_state_nonzero(seed);
            lemma_seeded_state_words(seed);
        }
        Rng { s: [a, b, c, d] }
    }

    /// Returns the next 64-bit output and advances the state.
    pub fn next_u64(&mut self) -> (r: u64)
        ensures
            r == xoshiro_output(old(self)@),
            final(self)@ == xoshiro_step(old(self)@),
            state_nonzero(old(self)@) ==> state_nonzero(final(self)@),
    {
        proof {
            if state_nonzero(self@) {
                lemma_step_preserves_nonzero(self@);
            }
        }
        let s0 = self.s[0];
        let s1 = self.s[1];
        let s2 = self.s[2];
        let s3 = self.s[3];
        let result = rotate_left(s1.wrapping_mul(5), 7).wrapping_mul(9);
        let t = s1 << 17u64;
        let a2 = s2 ^ s0;
        let a3 = s3 ^ s1;
        let a1 = s1 ^ a2;
        let a0 = s0 ^ a3;
        self.s = [a0, a1, a2 ^ t, rotate_left(a3, 45)];
        result
    }

    /// Uniform integer in [0, m): one draw scaled by `m` in 64-bit floating
    /// point, computed exactly in integers.
    pub fn below(&mut self, m: usize) -> (r: usize)
        requires
            m > 0,
        ensures
            final(self)@ == xoshiro_step(old(self)@),
            r == below_value(xoshiro_output(old(self)@), m as nat),
            r < m,
            m < two_pow_53() ==> r * two_pow_53() <= (xoshiro_output(old(self)@) / 2048) as nat * m
                + two_pow_53() && (xoshiro_output(old(self)@) / 2048) as nat * m < (r + 2) * two_pow_53(),
            ({
                let k = (xoshiro_output(old(self)@) / 2048) as nat;
                ||| (r * two_pow_53() < k * m + 3 * m && k * m < (r + 1) * two_pow_53() + 3 * m)
                ||| ((r + m) * two_pow_53() < k * m + 3 * m && k * m < (r + m + 1) * two_pow_53() + 3 * m)
            }),
    {
        let draw = self.next_u64();
        proof {
            if m < two_pow_53() {
                lemma_below_scales_draw(draw, m as nat);
            }
            lemma_below_near_scaled_draw(draw, m as nat);
            assert(draw >> 11u64 == draw / 2048) by (bit_vector);
        }
        let k: u128 = (draw >> 11u64) as u128;
        let mf = round_to_f64_u128(m as u128);
        proof {
            assert(k * mf <= 0x20_0000_0000_0000 * 0x2_0000_0000_0000_0000) by (nonlinear_arith)
                requires
                    k < 0x20_0000_0000_0000,
                    mf <= 0x2_0000_0000_0000_0000,
            ;
        }
        let product = k * mf;
        let rounded = round_to_f64_u128(product);
        let scaled = rounded / 0x20_0000_0000_0000;
        let truncated: usize = if scaled > usize::MAX as u128 {
            usize::MAX
        } else {
            scaled as usize
        };
        truncated % m
    }
}


/// A state is usable when not all four words are zero (the all-zero state
/// is the one fixed point of the transition).
pub open spec fn state_nonzero(s: XoState) -> bool {
    !(s.0 == 0 && s.1 == 0 && s.2 == 0 && s.3 == 0)
}

/// Multiplication by `c` modulo 2^64 is undone by multiplication by `ci`
/// when `c * ci` is 1 modulo 2^64.
proof fn lemma_wrapping_mul_cancel(a: u64, c: u64, ci: u64)
    requires
        (c as int * ci as int) % 0x1_0000_0000_0000_0000 == 1,
    ensures
        vstd::wrapping::u64_specs::wrapping_mul(
            vstd::wrapping::u64_specs::wrapping_mul(a, c),
            ci,
        ) == a,
{
    let m: int = 0x1_0000_0000_0000_0000;
    let ac = a as int * c as int;
    lemma_mul_mod_noop_left(ac, ci as int, m);
    lemma_mul_is_associative(a as int, c as int, ci as int);
    lemma_mul_mod_noop_right(a as int, c as int * ci as int, m);
}

/// Law: the splitmix64 output mixing is injective (distinct counters give
/// distinct outputs).
pub proof fn lemma_splitmix_mix_injective(a: u64, b: u64)
    requires
        splitmix_mix(a) == splitmix_mix(b),
    ensures
        a == b,
{
    let c1: u64 = 0xBF58476D1CE4E5B9;
    let c2: u64 = 0x94D049BB133111EB;
    let a1 = vstd::wrapping::u64_specs::wrapping_mul(a ^ (a >> 30), c1);
    let b1 = vstd::wrapping::u64_specs::wrapping_mul(b ^ (b >> 30), c1);
    let a2 = vstd::wrapping::u64_specs::wrapping_mul(a1 ^ (a1 >> 27), c2);
    let b2 = vstd::wrapping::u64_specs::wrapping_mul(b1 ^ (b1 >> 27), c2);
    assert(a2 ^ (a2 >> 31) == b2 ^ (b2 >> 31) ==> a2 == b2) by (bit_vector);
    assert((c2 as int * 0x319642b2d24d8ec3int) % 0x1_0000_0000_0000_0000 == 1);
    lemma_wrapping_mul_cancel(a1 ^ (a1 >> 27), c2, 0x319642b2d24d8ec3);
    lemma_wrapping_mul_cancel(b1 ^ (b1 >> 27), c2, 0x319642b2d24d8ec3);
    assert(a1 ^ (a1 >> 27) == b1 ^ (b1 >> 27) ==> a1 == b1) by (bit_vector);
    assert((c1 as int * 0x96de1b173f119089int) % 0x1_0000_0000_0000_0000 == 1);
    lemma_wrapping_mul_cancel(a ^ (a >> 30), c1, 0x96de1b173f119089);
    lemma_wrapping_mul_cancel(b ^ (b >> 30), c1, 0x96de1b173f119089);
    assert(a ^ (a >> 30) == b ^ (b >> 30) ==> a == b) by (bit_vector);
}

/// Law: seeding never produces the all-zero state, whatever the seed.
pub proof fn lemma_seeded_state_nonzero(seed: u64)
    ensures
        state_nonzero(seeded_state(seed)),
{
    reveal_with_fuel(splitmix_counter, 3);
    let x1 = splitmix_counter(seed, 1);
    let x2 = splitmix_counter(seed, 2);
    assert(x1 != x2);
    if splitmix_mix(x1) == 0 && splitmix_mix(x2) == 0 {
        lemma_splitmix_mix_injective(x1, x2);
    }
}

/// Law: the output depends on the second state word alone, and distinct
/// second words give distinct outputs.
pub proof fn lemma_output_injective_in_second_word(s: XoState, t: XoState)
    ensures
        xoshiro_output(s) == xoshiro_output(t) <==> s.1 == t.1,
{
    if xoshiro_output(s) == xoshiro_output(t) {
        let a = vstd::wrapping::u64_specs::wrapping_mul(s.1, 5);
        let b = vstd::wrapping::u64_specs::wrapping_mul(t.1, 5);
        assert((9int * 0x8e38e38e38e38e39int) % 0x1_0000_0000_0000_0000 == 1);
        lemma_wrapping_mul_cancel(rotl(a, 7), 9, 0x8e38e38e38e38e39);
        lemma_wrapping_mul_cancel(rotl(b, 7), 9, 0x8e38e38e38e38e39);
        assert(((a << 7u64) | (a >> 57u64)) == ((b << 7u64) | (b >> 57u64)) ==> a == b) by (bit_vector);
        assert((5int * 0xcccccccccccccccdint) % 0x1_0000_0000_0000_0000 == 1);
        lemma_wrapping_mul_cancel(s.1, 5, 0xcccccccccccccccd);
        lemma_wrapping_mul_cancel(t.1, 5, 0xcccccccccccccccd);
    }
}

/// Law: the transition is linear over bits: the step of the word-wise xor
/// of two states is the xor of their steps.
pub proof fn lemma_step_linear(s: XoState, t: XoState)
    ensures
        xoshiro_step((s.0 ^ t.0, s.1 ^ t.1, s.2 ^ t.2, s.3 ^ t.3)) == ({
            let (a, b) = (xoshiro_step(s), xoshiro_step(t));
            (a.0 ^ b.0, a.1 ^ b.1, a.2 ^ b.2, a.3 ^ b.3)
        }),
{
    let (s0, s1, s2, s3) = s;
    let (t0, t1, t2, t3) = t;
    assert(((s1 ^ t1) << 17u64) == (s1 << 17u64) ^ (t1 << 17u64)) by (bit_vector);
    let a = s3 ^ s1;
    let b = t3 ^ t1;
    assert((((a ^ b) << 45u64) | ((a ^ b) >> 19u64)) == (((a << 45u64) | (a >> 19u64)) ^ ((b << 45u64) | (b
        >> 19u64)))) by (bit_vector);
    assert((s3 ^ t3) ^ (s1 ^ t1) == (s3 ^ s1) ^ (t3 ^ t1)) by (bit_vector);
    assert((s2 ^ t2) ^ (s0 ^ t0) == (s2 ^ s0) ^ (t2 ^ t0)) by (bit_vector);
    assert((s1 ^ t1) ^ ((s2 ^ t2) ^ (s0 ^ t0)) == (s1 ^ (s2 ^ s0)) ^ (t1 ^ (t2 ^ t0))) by (bit_vector);
    assert((s0 ^ t0) ^ ((s3 ^ t3) ^ (s1 ^ t1)) == (s0 ^ (s3 ^ s1)) ^ (t0 ^ (t3 ^ t1))) by (bit_vector);
    assert(((s2 ^ t2) ^ (s0 ^ t0)) ^ ((s1 << 17u64) ^ (t1 << 17u64)) == ((s2 ^ s0) ^ (s1 << 17u64)) ^ ((t2
        ^ t0) ^ (t1 << 17u64))) by (bit_vector);
}

/// Law: the transition maps every usable state to a usable state.
pub proof fn lemma_step_preserves_nonzero(s: XoState)
    requires
        state_nonzero(s),
    ensures
        state_nonzero(xoshiro_step(s)),
{
    let (s0, s1, s2, s3) = s;
    assert((s0 ^ (s3 ^ s1) == 0 && s1 ^ (s2 ^ s0) == 0 && (s2 ^ s0) ^ (s1 << 17u64) == 0
        && (((s3 ^ s1) << 45u64) | ((s3 ^ s1) >> 19u64)) == 0) ==> (s0 == 0 && s1 == 0 && s2 == 0
        && s3 == 0)) by (bit_vector);
}

} // verus!
