use vstd::prelude::*;
use vstd::arithmetic::power::*;
use vstd::arithmetic::power2::*;
use vstd::arithmetic::div_mod::*;
use crate::arith::{mul_mod, pow_mod, inv_mod, inv_mod2, inv_total_spec};
use crate::primes::{next_prime, next_prime_spec, lemma_next_prime_from_range};

verus! {

/// Largest offset the extractor accepts: keeps every intermediate value of
/// the summation within the 32-bit working width.
pub const MAX_OFFSET: i32 = 1_000_000;

/// Number of series terms summed for a block at offset `n`: a rational upper
/// estimate of `(n + 20) * ln(10) / ln(13.5)`, so that truncation of the
/// series cannot affect the requested nine digits.
pub open spec fn term_count_spec(n: int) -> int {
    ((n + 20) * 8849) / 10000
}

/// Number of series terms required for convergence at offset `n`.
pub fn term_count(n: i32) -> (nl: i32)
    requires
        1 <= n <= MAX_OFFSET,
    ensures
        nl == term_count_spec(n as int),
        18 <= nl <= 885_000,
{
    (((n as i64 + 20) * 8849) / 10000) as i32
}

/// A term factor with every power of the prime base divided out, after one
/// unconditional division: the factor is only ever divided when the counter
/// says the base divides it.
pub open spec fn strip_divs(t: int, a: int) -> int
    decreases t,
{
    if 2 <= a && 1 <= t && t % a == 0 {
        proof {
            lemma_div_is_strictly_smaller(t, a);
            lemma_div_pos_is_pos(t, a);
        }
        strip_divs(t / a, a)
    } else {
        t
    }
}

/// How many times `strip_divs` divides `t` by `a`.
pub open spec fn strip_count(t: int, a: int) -> int
    decreases t,
{
    if 2 <= a && 1 <= t && t % a == 0 {
        proof {
            lemma_div_is_strictly_smaller(t, a);
            lemma_div_pos_is_pos(t, a);
        }
        1 + strip_count(t / a, a)
    } else {
        0
    }
}

/// Division counts are never negative.
pub proof fn lemma_strip_count_nonneg(t: int, a: int)
    ensures
        0 <= strip_count(t, a),
    decreases (if t < 1 { 0int } else { t }),
{
    if 2 <= a && 1 <= t && t % a == 0 {
        lemma_div_is_strictly_smaller(t, a);
        lemma_div_pos_is_pos(t, a);
        lemma_strip_count_nonneg(t / a, a);
    }
}

/// The stripped factor stays in `[1, t]` and at most 31 divisions happen.
pub proof fn lemma_strip_props(t: int, a: int)
    requires
        1 <= t <= 30_000_000,
        2 <= a,
    ensures
        1 <= strip_divs(t, a) <= t,
        0 <= strip_count(t, a) <= 31,
        pow(2, strip_count(t, a) as nat) <= t,
    decreases t,
{
    lemma_strip_count_nonneg(t, a);
    if t % a == 0 {
        // t is a positive multiple of a, so t >= a and t / a >= 1
        if t < a {
            lemma_small_mod(t as nat, a as nat);
        }
        lemma_div_non_zero(t, a);
        lemma_div_is_strictly_smaller(t, a);
        lemma_strip_props(t / a, a);
        let c = strip_count(t / a, a);
        assert(strip_count(t, a) == 1 + c);
        assert(strip_divs(t, a) == strip_divs(t / a, a));
        assert(pow(2, (c + 1) as nat) == 2 * pow(2, c as nat)) by {
            lemma_pow1(2);
            lemma_pow_adds(2, 1nat, c as nat);
        }
        // 2 * (t / a) <= 2 * (t / 2) <= t
        lemma_div_is_ordered_by_denominator(t, 2, a);
        lemma_fundamental_div_mod(t, 2);
        lemma_mod_bound(t, 2);
        assert(2 * (t / a) <= 2 * (t / 2)) by (nonlinear_arith)
            requires
                t / a <= t / 2,
        ;
        assert(pow(2, strip_count(t, a) as nat) <= t);
        if strip_count(t, a) > 31 {
            assert(pow(2, 32nat) <= pow(2, strip_count(t, a) as nat)) by {
                lemma_pow_increases(2, 32nat, strip_count(t, a) as nat);
            }
            assert(pow(2, 32nat) == pow2(32)) by {
                lemma_pow2(32);
            }
            lemma2_to64();
            assert(false);
        }
    } else {
        lemma_pow0(2);
    }
}

/// One counter-driven stripping step of the term summation: advance the
/// divisibility counter by `kqinc` and, when it wraps to zero, divide all
/// powers of the base `a` out of the factor `t`, moving the exponent tally
/// `v` by `vinc` per division.
pub open spec fn divn_spec(t: int, a: int, v: int, kq: int, vinc: int, kqinc: int) -> (int, int, int) {
    let knew = kq + kqinc;
    if knew >= a {
        let kr = knew % a;
        if kr == 0 {
            (strip_divs(t, a), v + vinc * strip_count(t, a), kr)
        } else {
            (t, v, kr)
        }
    } else {
        (t, v, knew)
    }
}

/// Executable form of `divn_spec`. The caller guarantees, through the counter
/// congruence, that a wrap to zero only happens when `a` divides `t`.
fn divn(t: i32, a: i32, v: i32, kq: i32, vinc: i32, kqinc: i32) -> (res: (i32, i32, i32))
    requires
        2 <= a <= 30_000_000,
        1 <= t <= 30_000_000,
        vinc == 1 || vinc == -1,
        2 <= kqinc <= 9,
        -3 <= kq < a,
        -200_000_000 <= v <= 200_000_000,
        (kq + kqinc >= a && (kq + kqinc) % (a as int) == 0) ==> (t as int) % (a as int) == 0,
    ensures
        (res.0 as int, res.1 as int, res.2 as int) == divn_spec(
            t as int, a as int, v as int, kq as int, vinc as int, kqinc as int),
        1 <= res.0 <= t,
        v - 31 <= res.1 <= v + 31,
        -3 <= res.2 < a,
{
    let mut kqn: i32 = kq + kqinc;
    let mut tt: i32 = t;
    let mut vv: i32 = v;
    if kqn >= a {
        let ghost knew = kq as int + kqinc as int;
        while kqn >= a
            invariant
                0 <= kqn,
                (kqn as int) % (a as int) == knew % (a as int),
                2 <= a,
            decreases kqn,
        {
            proof {
                lemma_mod_sub_multiples_vanish(kqn as int, a as int);
            }
            kqn = kqn - a;
        }
        proof {
            lemma_small_mod(kqn as nat, a as nat);
        }
        if kqn == 0 {
            proof {
                lemma_strip_props(t as int, a as int);
                if t < a {
                    lemma_small_mod(t as nat, a as nat);
                }
                lemma_div_non_zero(t as int, a as int);
                lemma_strip_count_nonneg((t as int) / (a as int), a as int);
            }
            tt = tt / a;
            vv = vv + vinc;
            while tt % a == 0
                invariant
                    2 <= a <= 30_000_000,
                    1 <= tt <= t <= 30_000_000,
                    strip_divs(tt as int, a as int) == strip_divs(t as int, a as int),
                    0 <= strip_count(t as int, a as int) - strip_count(tt as int, a as int) <= 31,
                    0 <= strip_count(tt as int, a as int),
                    0 <= strip_count(t as int, a as int) <= 31,
                    vv == v + vinc * (strip_count(t as int, a as int) - strip_count(tt as int, a as int)),
                    v - 31 <= vv <= v + 31,
                    vinc == 1 || vinc == -1,
                    -200_000_000 <= v <= 200_000_000,
                decreases tt,
            {
                proof {
                    lemma_strip_props(tt as int, a as int);
                    if tt < a {
                        lemma_small_mod(tt as nat, a as nat);
                    }
                    lemma_div_non_zero(tt as int, a as int);
                    lemma_div_is_strictly_smaller(tt as int, a as int);
                    lemma_strip_count_nonneg((tt as int) / (a as int), a as int);
                }
                let ghost tt0 = tt as int;
                let ghost diff0 = strip_count(t as int, a as int) - strip_count(tt0, a as int);
                tt = tt / a;
                vv = vv + vinc;
                proof {
                    assert(strip_count(tt0, a as int) == 1 + strip_count(tt as int, a as int));
                    assert(vinc as int * (diff0 + 1) == vinc as int * diff0 + vinc as int)
                        by (nonlinear_arith);
                    assert(vinc as int * (diff0 + 1) <= diff0 + 1 && -(diff0 + 1) <= vinc as int * (
                    diff0 + 1)) by (nonlinear_arith)
                        requires
                            vinc as int == 1 || vinc as int == -1,
                            0 <= diff0,
                    ;
                }
            }
            proof {
                lemma_strip_props(t as int, a as int);
            }
        }
    }
    (tt, vv, kqn)
}

/// The running state of the term summation for one prime channel: numerator
/// and denominator products modulo the channel modulus, the exponent tally,
/// the four divisibility counters and the channel partial sum.
pub ghost struct TermState {
    pub num: int,
    pub den: int,
    pub v: int,
    pub kq1: int,
    pub kq2: int,
    pub kq3: int,
    pub kq4: int,
    pub s: int,
}

/// State before the first term: base 2 starts from numerator 1 and tally
/// `-n`; every other base absorbs the offset's power of two into the seed.
pub open spec fn init_state(n: int, a: int, av: int) -> TermState {
    TermState {
        num: if a == 2 { 1 } else { pow(2, n as nat) % av },
        den: 1,
        v: if a == 2 { -n } else { 0 },
        kq1: 0,
        kq2: -1,
        kq3: -3,
        kq4: -2,
        s: 0,
    }
}

/// The partial term, multiplied by `a` another `e` times, modulo `av`.
pub open spec fn scale_spec(t: int, a: int, e: int, av: int) -> int
    decreases e,
{
    if e <= 0 {
        t
    } else {
        (scale_spec(t, a, e - 1, av) * a) % av
    }
}

/// One term of the channel summation: strip the prime base out of the four
/// progression factors, fold them into the numerator and denominator, and
/// when the exponent tally is positive add the completed term, scaled back
/// to the full channel modulus and weighted by `25k - 3`, into the sum.
pub open spec fn term_step(st: TermState, k: int, a: int, av: int, vmax: int) -> TermState {
    let r1 = divn_spec(2 * k, a, st.v, st.kq1, -1, 2);
    let num1 = (st.num * r1.0) % av;
    let r2 = divn_spec(2 * k - 1, a, r1.1, st.kq2, -1, 2);
    let num2 = (num1 * r2.0) % av;
    let r3 = divn_spec(3 * (3 * k - 1), a, r2.1, st.kq3, 1, 9);
    let den1 = (st.den * r3.0) % av;
    let r4 = divn_spec(3 * k - 2, a, r3.1, st.kq4, 1, 3);
    let t4 = if a != 2 { 2 * r4.0 } else { r4.0 };
    let v4 = if a != 2 { r4.1 } else { r4.1 + 1 };
    let den2 = (den1 * t4) % av;
    if v4 > 0 {
        let ti = (inv_total_spec(den2, av) * num2) % av;
        let ts = (scale_spec(ti, a, vmax - v4, av) * (25 * k - 3)) % av;
        let s1 = if st.s + ts >= av { st.s + ts - av } else { st.s + ts };
        TermState { num: num2, den: den2, v: v4, kq1: r1.2, kq2: r2.2, kq3: r3.2, kq4: r4.2, s: s1 }
    } else {
        TermState { num: num2, den: den2, v: v4, kq1: r1.2, kq2: r2.2, kq3: r3.2, kq4: r4.2, s: st.s }
    }
}

/// The channel state after the first `k` terms.
pub open spec fn terms_state(k: int, n: int, a: int, av: int, vmax: int) -> TermState
    decreases k,
{
    if k <= 0 {
        init_state(n, a, av)
    } else {
        term_step(terms_state(k - 1, n, a, av, vmax), k, a, av, vmax)
    }
}

/// What one prime channel contributes to the global fixed-point accumulator:
/// the channel sum, closed by the normalization factor `5^(n-1)`, as a
/// 64-bit binary fraction of the channel modulus.
pub open spec fn chan_value(n: int, nl: int, a: int, av: int, vmax: int) -> int {
    let st = terms_state(nl, n, a, av, vmax);
    let s2 = (st.s * (pow(5, (n - 1) as nat) % av)) % av;
    (s2 * 0x1_0000_0000_0000_0000) / av
}

/// The largest exponent `e` with `a^e <= lim`.
pub open spec fn vmax_of(a: int, lim: int) -> int {
    choose|e: int| 0 <= e && #[trigger] pow(a, e as nat) <= lim && lim < pow(a, (e + 1) as nat)
}

/// Any witness of the defining property of `vmax_of` equals it.
pub proof fn lemma_vmax_of_unique(a: int, lim: int, e: int)
    requires
        2 <= a,
        0 <= e,
        pow(a, e as nat) <= lim,
        lim < pow(a, (e + 1) as nat),
    ensures
        vmax_of(a, lim) == e,
{
    assert(0 <= e && pow(a, e as nat) <= lim && lim < pow(a, (e + 1) as nat));
    let w = vmax_of(a, lim);
    assert(0 <= w && pow(a, w as nat) <= lim && lim < pow(a, (w + 1) as nat));
    if w < e {
        lemma_pow_increases(a as nat, (w + 1) as nat, e as nat);
    } else if w > e {
        lemma_pow_increases(a as nat, (e + 1) as nat, w as nat);
    }
}

/// A power of an odd base is odd.
pub proof fn lemma_pow_odd(a: int, e: nat)
    requires
        1 <= a,
        a % 2 == 1,
    ensures
        pow(a, e) % 2 == 1,
    decreases e,
{
    if e == 0 {
        lemma_pow0(a);
    } else {
        lemma_pow_odd(a, (e - 1) as nat);
        lemma_pow1(a);
        lemma_pow_adds(a, 1nat, (e - 1) as nat);
        assert(pow(a, e) == a * pow(a, (e - 1) as nat));
        lemma_mul_mod_noop(a, pow(a, (e - 1) as nat), 2);
    }
}

/// The term summation for one prime channel, against the modulus
/// `av == a^vmax`: runs `nl` terms and returns the closed channel sum as a
/// 64-bit binary fraction of `av`.
#[verifier::rlimit(80)]
fn channel_terms(n: i32, nl: i32, a: i32, av: i32, vmax: i32) -> (cv: u64)
    requires
        1 <= n <= MAX_OFFSET,
        18 <= nl <= 885_000,
        2 <= a <= 2_655_000,
        2 <= av < 0x4000_0000,
        av as int == pow(a as int, vmax as nat),
        1 <= vmax <= 31,
        a == 2 || (a % 2 == 1 && av % 2 == 1 && 3 <= a && 3 <= av),
    ensures
        cv as int == chan_value(n as int, nl as int, a as int, av as int, vmax as int),
{
    let mut s: i32 = 0;
    let mut den: i32 = 1;
    let mut kq1: i32 = 0;
    let mut kq2: i32 = -1;
    let mut kq3: i32 = -3;
    let mut kq4: i32 = -2;
    let mut num: i32;
    let mut v: i32;
    if a == 2 {
        num = 1;
        v = 0 - n;
    } else {
        num = pow_mod(2, n, av);
        v = 0;
    }
    let mut k: i32 = 1;
    while k <= nl
        invariant
            1 <= n <= 1_000_000,
            18 <= nl <= 885_000,
            2 <= a <= 2_655_000,
            2 <= av < 0x4000_0000,
            av as int == pow(a as int, vmax as nat),
            1 <= vmax <= 31,
            a == 2 || (a % 2 == 1 && av % 2 == 1 && 3 <= a && 3 <= av),
            1 <= k <= nl + 1,
            ({
                let st = terms_state(k as int - 1, n as int, a as int, av as int, vmax as int);
                num == st.num && den == st.den && v == st.v && kq1 == st.kq1 && kq2 == st.kq2
                    && kq3 == st.kq3 && kq4 == st.kq4 && s == st.s
            }),
            0 <= num < av,
            0 <= den < av,
            0 <= s < av,
            -3 <= kq1 < a,
            -3 <= kq2 < a,
            -3 <= kq3 < a,
            -3 <= kq4 < a,
            (kq1 as int) % (a as int) == (2 * (k - 1)) % (a as int),
            (kq2 as int) % (a as int) == (2 * (k - 1) - 1) % (a as int),
            (kq3 as int) % (a as int) == (9 * (k - 1) - 3) % (a as int),
            (kq4 as int) % (a as int) == (3 * (k - 1) - 2) % (a as int),
            -(n as int) - 126 * (k as int - 1) <= v as int <= 126 * (k as int - 1),
        decreases nl + 1 - k,
    {
        let ghost ki = k as int;
        let ghost ai = a as int;
        let ghost avi = av as int;
        let ghost st0 = terms_state(ki - 1, n as int, ai, avi, vmax as int);
        let ghost stn = terms_state(ki, n as int, ai, avi, vmax as int);
        proof {
            assert(stn == term_step(st0, ki, ai, avi, vmax as int));
        }
        let mut t: i32 = 2 * k;
        proof {
            lemma_add_mod_noop(kq1 as int, 2, ai);
            lemma_add_mod_noop(2 * (ki - 1), 2, ai);
            assert((kq1 + 2) % ai == (2 * ki) % ai);
        }
        let r1 = divn(t, a, v, kq1, -1, 2);
        t = r1.0;
        v = r1.1;
        kq1 = r1.2;
        num = mul_mod(num, t, av);
        proof {
            lemma_mod_twice((st0.kq1 + 2) as int, ai);
        }
        t = 2 * k - 1;
        proof {
            lemma_add_mod_noop(kq2 as int, 2, ai);
            lemma_add_mod_noop(2 * (ki - 1) - 1, 2, ai);
            assert((kq2 + 2) % ai == (2 * ki - 1) % ai);
        }
        let r2 = divn(t, a, v, kq2, -1, 2);
        t = r2.0;
        v = r2.1;
        kq2 = r2.2;
        num = mul_mod(num, t, av);
        proof {
            lemma_mod_twice((st0.kq2 + 2) as int, ai);
        }
        t = 3 * (3 * k - 1);
        proof {
            lemma_add_mod_noop(kq3 as int, 9, ai);
            lemma_add_mod_noop(9 * (ki - 1) - 3, 9, ai);
            assert((kq3 + 9) % ai == (9 * ki - 3) % ai);
        }
        let r3 = divn(t, a, v, kq3, 1, 9);
        t = r3.0;
        v = r3.1;
        kq3 = r3.2;
        den = mul_mod(den, t, av);
        proof {
            lemma_mod_twice((st0.kq3 + 9) as int, ai);
        }
        t = 3 * k - 2;
        proof {
            lemma_add_mod_noop(kq4 as int, 3, ai);
            lemma_add_mod_noop(3 * (ki - 1) - 2, 3, ai);
            assert((kq4 + 3) % ai == (3 * ki - 2) % ai);
        }
        let r4 = divn(t, a, v, kq4, 1, 3);
        t = r4.0;
        v = r4.1;
        kq4 = r4.2;
        if a != 2 {
            t = 2 * t;
        } else {
            v = v + 1;
        }
        den = mul_mod(den, t, av);
        proof {
            lemma_mod_twice((st0.kq4 + 3) as int, ai);
            assert(den == stn.den);
            assert(num == stn.num);
            assert(v == stn.v);
        }
        if v > 0 {
            let ti: i32 = if den == 0 {
                proof {
                    lemma_inverse_of_zero(avi);
                }
                0
            } else if a != 2 {
                inv_mod2(den, av)
            } else {
                inv_mod(den, av)
            };
            let mut tt = mul_mod(ti, num, av);
            let ghost base = tt as int;
            let mut j: i32 = v;
            while j < vmax
                invariant
                    v <= j,
                    j <= vmax || j == v,
                    1 <= vmax <= 31,
                    2 <= a <= 2_655_000,
                    2 <= av < 0x4000_0000,
                    0 <= tt < av,
                    tt as int == scale_spec(base, a as int, j as int - v as int, av as int),
                    -300_000_000 <= v,
                decreases vmax - j,
            {
                tt = mul_mod(tt, a, av);
                j = j + 1;
            }
            proof {
                assert(tt as int == scale_spec(base, ai, vmax as int - v as int, avi));
            }
            let w: i32 = 25 * k - 3;
            tt = mul_mod(tt, w, av);
            s = s + tt;
            if s >= av {
                s = s - av;
            }
            proof {
                assert(s == stn.s);
            }
        }
        proof {
            assert(kq1 == stn.kq1 && kq2 == stn.kq2 && kq3 == stn.kq3 && kq4 == stn.kq4);
            assert(s == stn.s);
        }
        k = k + 1;
    }
    let t5 = pow_mod(5, n - 1, av);
    s = mul_mod(s, t5, av);
    let cv128: u128 = ((s as u128) * 0x1_0000_0000_0000_0000u128) / (av as u128);
    proof {
        assert((s as int) * 0x1_0000_0000_0000_0000 < (av as int) * 0x1_0000_0000_0000_0000)
            by (nonlinear_arith)
            requires
                0 <= s < av,
        ;
        assert((s as int) * 0x1_0000_0000_0000_0000 / (av as int) < 0x1_0000_0000_0000_0000) by {
            lemma_multiply_divide_lt((s as int) * 0x1_0000_0000_0000_0000, av as int,
                0x1_0000_0000_0000_0000);
        }
        lemma_div_pos_is_pos((s as int) * 0x1_0000_0000_0000_0000, av as int);
    }
    cv128 as u64
}

/// What one prime base contributes to the global accumulator: the channel
/// modulus is the largest power of `a` within `3 * nl`, raised further for
/// base 2 to absorb the offset's own power of two; base 2 contributes
/// nothing when that correction empties the exponent.
pub open spec fn channel_spec(n: int, nl: int, a: int) -> int {
    let v0 = vmax_of(a, 3 * nl);
    if a == 2 {
        let vm = v0 + nl - n;
        if vm <= 0 {
            0
        } else {
            chan_value(n, nl, a, pow(2, vm as nat), vm)
        }
    } else {
        chan_value(n, nl, a, pow(a, v0 as nat), v0)
    }
}

/// Executable form of `channel_spec` for one prime base.
fn channel_value(n: i32, nl: i32, a: i32) -> (cv: u64)
    requires
        1 <= n <= MAX_OFFSET,
        nl == term_count_spec(n as int),
        18 <= nl <= 885_000,
        2 <= a,
        a as int <= 3 * nl,
        a == 2 || a % 2 == 1,
    ensures
        cv as int == channel_spec(n as int, nl as int, a as int),
{
    let lim: i32 = 3 * nl;
    let ghost ai = a as int;
    let mut vm: i32 = 0;
    let mut p: i32 = 1;
    proof {
        lemma_pow0(ai);
        lemma2_to64();
    }
    while p <= lim / a
        invariant
            2 <= a <= lim <= 2_655_000,
            1 <= p <= lim,
            0 <= vm <= 21,
            p as int == pow(a as int, vm as nat),
            pow2(vm as nat) <= p as int,
        decreases lim - p,
    {
        proof {
            lemma_fundamental_div_mod(lim as int, a as int);
            lemma_mod_bound(lim as int, a as int);
            vstd::arithmetic::mul::lemma_mul_inequality(p as int, (lim as int) / (a as int),
                a as int);
            assert(p * a <= lim);
            assert(p * a >= 2 * p && 2 * p >= p + 1) by (nonlinear_arith)
                requires
                    1 <= p,
                    2 <= a,
            ;
            lemma_pow1(a as int);
            lemma_pow_adds(a as int, vm as nat, 1nat);
            lemma_pow2_adds(vm as nat, 1nat);
            lemma2_to64();
            assert(pow2((vm + 1) as nat) == pow2(vm as nat) * 2);
            if vm + 1 > 21 {
                lemma_pow2_strictly_increases(22, (vm + 2) as nat);
                assert(pow2(22) == 4194304);
                assert(pow2((vm + 1) as nat) > 2_655_000 || vm + 1 == 22);
                assert(pow2(22) > 2_655_000);
            }
        }
        p = p * a;
        vm = vm + 1;
    }
    proof {
        lemma_fundamental_div_mod(lim as int, ai);
        lemma_mod_bound(lim as int, ai);
        vstd::arithmetic::mul::lemma_mul_inequality((lim as int) / ai + 1, p as int, ai);
        vstd::arithmetic::mul::lemma_mul_is_distributive_add_other_way(ai, (lim as int) / ai, 1);
        assert(ai * ((lim as int) / ai) == ((lim as int) / ai) * ai) by (nonlinear_arith);
        assert(1 * ai == ai);
        assert(((lim as int) / ai + 1) * ai == ((lim as int) / ai) * ai + ai);
        assert(lim < ((lim as int) / ai + 1) * ai);
        assert(lim < p * a);
        lemma_pow1(ai);
        lemma_pow_adds(ai, vm as nat, 1nat);
        assert(lim < pow(ai, (vm + 1) as nat));
        lemma_vmax_of_unique(ai, lim as int, vm as int);
    }
    if a == 2 {
        let vm2: i32 = vm + (nl - n);
        if vm2 <= 0 {
            return 0;
        }
        proof {
            lemma_fundamental_div_mod((n as int + 20) * 8849, 10000);
            lemma_mod_bound((n as int + 20) * 8849, 10000);
            if n >= 154 {
                assert(nl < n);
            } else {
                assert(10000 * (nl as int) <= 1530877);
                assert(nl <= 153);
                if vm > 8 {
                    lemma_pow2_strictly_increases(9, vm as nat);
                    lemma2_to64();
                    assert(false);
                }
                assert(nl as int - n as int <= 17);
            }
            assert(vm2 <= 25);
        }
        let mut av2: i32 = 1;
        let mut i: i32 = 0;
        proof {
            lemma_pow0(2);
        }
        while i < vm2
            invariant
                0 <= i <= vm2 <= 25,
                av2 as int == pow(2, i as nat),
                1 <= av2 <= 33_554_432,
            decreases vm2 - i,
        {
            proof {
                lemma_pow1(2);
                lemma_pow_adds(2, i as nat, 1nat);
                lemma_pow_increases(2nat, (i + 1) as nat, 25nat);
                lemma_pow2(25);
                lemma2_to64();
            }
            av2 = av2 * 2;
            i = i + 1;
        }
        proof {
            lemma_pow_increases(2nat, 1nat, vm2 as nat);
            lemma_pow1(2);
        }
        channel_terms(n, nl, a, av2, vm2)
    } else {
        proof {
            if vm == 0 {
                assert(false);
            }
            lemma_pow_odd(ai, vm as nat);
            lemma_pow1(ai);
            lemma_pow_increases(a as nat, 1nat, vm as nat);
        }
        channel_terms(n, nl, a, p, vm)
    }
}

/// Zero has no multiplicative inverse, so the total inverse maps it to zero.
proof fn lemma_inverse_of_zero(av: int)
    requires
        2 <= av,
    ensures
        inv_total_spec(0, av) == 0,
{
    assert forall|r: int| 0 <= r < av implies #[trigger] ((0 * r) % av) != 1 by {
        assert(0 * r == 0);
        lemma_small_mod(0nat, av as nat);
    }
    assert(!crate::arith::invertible_mod(0, av));
}

/// The whole fixed-point accumulator: the contributions of every prime base
/// from `a` up to `3 * nl`, added modulo one (that is, modulo `2^64` in
/// 64-bit binary-fraction arithmetic).
pub open spec fn chain_total(a: int, n: int, nl: int) -> int
    decreases (if a <= 3 * nl { 3 * nl + 1 - a } else { 0int }),
    when 2 <= a
    via chain_total_dec
{
    if a > 3 * nl {
        0
    } else {
        (channel_spec(n, nl, a) + chain_total(next_prime_spec(a), n, nl))
            % 0x1_0000_0000_0000_0000
    }
}

#[via_fn]
proof fn chain_total_dec(a: int, n: int, nl: int) {
    if 2 <= a && a <= 3 * nl {
        lemma_next_prime_from_range(a + 1, 2 * a);
        assert(a < next_prime_spec(a));
        assert(2 <= next_prime_spec(a));
    }
}

/// The accumulator never leaves `[0, 2^64)`.
pub proof fn lemma_chain_total_range(a: int, n: int, nl: int)
    requires
        2 <= a,
    ensures
        0 <= chain_total(a, n, nl) < 0x1_0000_0000_0000_0000,
{
    if a > 3 * nl {
    } else {
        lemma_mod_bound(
            channel_spec(n, nl, a) + chain_total(next_prime_spec(a), n, nl),
            0x1_0000_0000_0000_0000,
        );
    }
}

/// The nine decimal digits of pi starting at offset `n`: the fractional
/// accumulator over all prime channels, scaled by `10^9` and truncated.
pub open spec fn block_spec(n: int) -> int {
    (chain_total(2, n, term_count_spec(n)) * 1_000_000_000) / 0x1_0000_0000_0000_0000
}

/// Addition modulo one in 64-bit binary-fraction arithmetic: exactly the
/// "keep only the fractional part" step of the accumulation.
fn wrap_add(x: u64, y: u64) -> (r: u64)
    ensures
        r as int == (x as int + y as int) % 0x1_0000_0000_0000_0000,
{
    if x <= u64::MAX - y {
        proof {
            lemma_small_mod((x + y) as nat, 0x1_0000_0000_0000_0000nat);
        }
        x + y
    } else {
        let r = x - (u64::MAX - y) - 1;
        proof {
            lemma_mod_sub_multiples_vanish(x as int + y as int, 0x1_0000_0000_0000_0000);
            lemma_small_mod(r as nat, 0x1_0000_0000_0000_0000nat);
        }
        r
    }
}

/// Nine decimal digits of pi beginning at offset `n` (1-based, counted after
/// the decimal point), as an integer below `10^9`; the caller left-pads it
/// with zeros to nine places. Pure and deterministic: the result is a
/// function of `n` alone.
pub fn extract_digit_block(n: i32) -> (r: u64)
    requires
        1 <= n <= MAX_OFFSET,
    ensures
        r as int == block_spec(n as int),
        r < 1_000_000_000,
{
    let nl = term_count(n);
    let lim: i32 = 3 * nl;
    let mut acc: u64 = 0;
    let mut a: i32 = 2;
    proof {
        lemma_chain_total_range(2, n as int, nl as int);
        lemma_small_mod(chain_total(2, n as int, nl as int) as nat, 0x1_0000_0000_0000_0000nat);
    }
    while a <= lim
        invariant
            1 <= n <= 1_000_000,
            nl == term_count_spec(n as int),
            18 <= nl <= 885_000,
            lim == 3 * nl,
            2 <= a,
            a as int <= 2 * (3 * nl) + 1,
            a == 2 || a % 2 == 1,
            (acc as int + chain_total(a as int, n as int, nl as int)) % 0x1_0000_0000_0000_0000
                == chain_total(2, n as int, nl as int),
        decreases (if a as int <= lim as int { lim as int + 1 - a as int } else { 0int }),
    {
        let ghost m: int = 0x1_0000_0000_0000_0000;
        let ghost acc0 = acc as int;
        let ghost ai = a as int;
        let ghost ni = n as int;
        let ghost nli = nl as int;
        let cv = channel_value(n, nl, a);
        acc = wrap_add(acc, cv);
        let a_next = next_prime(a);
        proof {
            let an = next_prime_spec(ai);
            lemma_chain_total_range(an, ni, nli);
            lemma_small_mod(chain_total(an, ni, nli) as nat, m as nat);
            assert(chain_total(ai, ni, nli) == (channel_spec(ni, nli, ai) + chain_total(an, ni,
            nli)) % m);
            lemma_add_mod_noop(acc0 + cv as int, chain_total(an, ni, nli), m);
            lemma_add_mod_noop_right(acc0, cv as int + chain_total(an, ni, nli), m);
            assert((acc as int + chain_total(an, ni, nli)) % m == chain_total(2, ni, nli));
        }
        a = a_next;
    }
    proof {
        assert(chain_total(a as int, n as int, nl as int) == 0);
        lemma_small_mod(acc as nat, 0x1_0000_0000_0000_0000nat);
        assert(acc as int == chain_total(2, n as int, nl as int));
        assert((acc as int) * 1_000_000_000 < 0x1_0000_0000_0000_0000 * 1_000_000_000)
            by (nonlinear_arith)
            requires
                0 <= (acc as int) && (acc as int) < 0x1_0000_0000_0000_0000,
        ;
        lemma_multiply_divide_lt((acc as int) * 1_000_000_000, 0x1_0000_0000_0000_0000,
            1_000_000_000);
        lemma_div_pos_is_pos((acc as int) * 1_000_000_000, 0x1_0000_0000_0000_0000);
    }
    (((acc as u128) * 1_000_000_000u128) / 0x1_0000_0000_0000_0000u128) as u64
}

} // verus!
