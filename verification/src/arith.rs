use vstd::prelude::*;
use vstd::arithmetic::power::*;
use vstd::arithmetic::div_mod::*;

verus! {

/// Product of `a` and `b` reduced modulo `n`, computed through a 64-bit
/// intermediate so the multiplication cannot overflow.
pub fn mul_mod(a: i32, b: i32, n: i32) -> (r: i32)
    requires
        0 <= a,
        0 <= b,
        0 < n,
    ensures
        r == (a * b) % (n as int),
        0 <= r < n,
{
    proof {
        assert((a as int) * (b as int) <= 0x7fff_ffff * 0x7fff_ffff) by (nonlinear_arith)
            requires
                0 <= a <= 0x7fff_ffff,
                0 <= b <= 0x7fff_ffff,
        ;
        assert(0 <= (a as int) * (b as int)) by (nonlinear_arith)
            requires
                0 <= a,
                0 <= b,
        ;
    }
    (((a as i64) * (b as i64)) % (n as i64)) as i32
}

/// `a` raised to the `b`th power, reduced modulo `m`, by square-and-multiply.
pub fn pow_mod(a: i32, b: i32, m: i32) -> (r: i32)
    requires
        0 <= a,
        0 <= b,
        2 <= m,
    ensures
        r == pow(a as int, b as nat) % (m as int),
        0 <= r < m,
{
    let mut r: i32 = 1;
    let mut aa: i32 = a;
    let mut e: i32 = b;
    proof {
        lemma_pow0(a as int);
        lemma_small_mod(1nat, m as nat);
    }
    while e > 0
        invariant
            0 <= r < m,
            0 <= aa,
            0 <= e,
            2 <= m,
            0 <= a,
            0 <= b,
            (r * pow(aa as int, e as nat)) % (m as int) == pow(a as int, b as nat) % (m as int),
        decreases e,
    {
        let ghost r0 = r as int;
        let ghost aa0 = aa as int;
        let ghost e0 = e as nat;
        if e % 2 == 1 {
            r = mul_mod(r, aa, m);
            proof {
                // r0 * pow(aa0, e0) == (r0 * aa0) * pow(aa0, e0 - 1)
                lemma_pow1(aa0);
                lemma_pow_adds(aa0, 1nat, (e0 - 1) as nat);
                assert(r0 * (aa0 * pow(aa0, (e0 - 1) as nat)) == (r0 * aa0) * pow(aa0, (e0 - 1) as nat))
                    by (nonlinear_arith);
                // reduce the leading factor modulo m
                lemma_mul_mod_noop_left(r0 * aa0, pow(aa0, (e0 - 1) as nat), m as int);
                assert(r == (r0 * aa0) % (m as int));
                assert((r * pow(aa0, (e0 - 1) as nat)) % (m as int) == pow(a as int, b as nat) % (m as int));
            }
        }
        e = e / 2;
        proof {
            // pow(aa0, 2*e) == pow(aa0 * aa0, e)
            lemma_pow1(aa0);
            lemma_pow_adds(aa0, 1nat, 1nat);
            assert(pow(pow(aa0, 2nat), e as nat) == pow(aa0, (2 * e) as nat)) by {
                lemma_pow_multiplies(aa0, 2nat, e as nat);
            }
            assert(pow(aa0, 2nat) == aa0 * aa0);
        }
        if e > 0 {
            let ghost r1 = r as int;
            aa = mul_mod(aa, aa, m);
            proof {
                // pow((aa0*aa0) % m, e) % m == pow(aa0*aa0, e) % m
                lemma_pow_mod_noop(aa0 * aa0, e as nat, m as int);
                assert(pow(aa as int, e as nat) % (m as int) == pow(aa0, (2 * e) as nat) % (m as int));
                lemma_mul_mod_noop_right(r1, pow(aa as int, e as nat), m as int);
                lemma_mul_mod_noop_right(r1, pow(aa0, (2 * e) as nat), m as int);
                assert((r1 * pow(aa0, (2 * e) as nat)) % (m as int) == pow(a as int, b as nat) % (m as int));
            }
        } else {
            proof {
                lemma_pow0(aa0);
            }
        }
    }
    proof {
        lemma_pow0(aa as int);
        lemma_small_mod(r as nat, m as nat);
    }
    r
}

/// `x` has a multiplicative inverse modulo `y`.
pub open spec fn invertible_mod(x: int, y: int) -> bool {
    exists|r: int| 0 <= r < y && #[trigger] ((x * r) % y) == 1
}

/// The multiplicative inverse of `x` modulo `y`, normalized to `[0, y)`,
/// when one exists; `0` otherwise.
pub open spec fn inv_total_spec(x: int, y: int) -> int {
    if invertible_mod(x, y) {
        choose|r: int| 0 <= r < y && #[trigger] ((x * r) % y) == 1
    } else {
        0
    }
}

/// A residue has at most one multiplicative inverse in `[0, y)`.
pub proof fn lemma_inverse_unique(x: int, y: int, r1: int, r2: int)
    requires
        2 <= y,
        0 <= r1 < y,
        0 <= r2 < y,
        (x * r1) % y == 1,
        (x * r2) % y == 1,
    ensures
        r1 == r2,
{
    lemma_mul_mod_noop_right(r1, x * r2, y);
    assert(r1 * (x * r2) == (x * r1) * r2) by (nonlinear_arith);
    lemma_mul_mod_noop_left(x * r1, r2, y);
    lemma_small_mod(1nat, y as nat);
    lemma_small_mod(r1 as nat, y as nat);
    lemma_small_mod(r2 as nat, y as nat);
}

/// Any value the runtime check certifies is the inverse the spec names.
proof fn lemma_checked_inverse(x: int, y: int, r: int)
    requires
        2 <= y,
        0 <= r < y,
        (x * r) % y == 1,
    ensures
        inv_total_spec(x, y) == r,
        invertible_mod(x, y),
{
    assert(invertible_mod(x, y));
    let w = choose|w: int| 0 <= w < y && #[trigger] ((x * w) % y) == 1;
    lemma_inverse_unique(x, y, w, r);
}

/// The multiplicative inverse of `x` modulo `y` by the extended Euclidean
/// algorithm, normalized to `[0, y)`. The candidate the algorithm produces is
/// checked against the defining identity; if `x` is not invertible the
/// exhaustive fallback establishes that no inverse exists and `0` is returned.
pub fn inv_mod(x: i32, y: i32) -> (r: i32)
    requires
        2 <= y < 0x4000_0000,
        1 <= x < y,
    ensures
        r == inv_total_spec(x as int, y as int),
        0 <= r < y,
        invertible_mod(x as int, y as int) ==> (x as int * r as int) % (y as int) == 1,
{
    let mut u = x;
    let mut v = y;
    let mut c: i32 = 1;
    let mut a: i32 = 0;
    let ghost mut plus: bool = false;
    while u != 0
        invariant
            0 <= u < v <= y,
            2 <= y < 0x4000_0000,
            plus ==> a >= 0 && c <= 0 && u * a - v * c == y,
            !plus ==> a <= 0 && c >= 0 && u * a - v * c == -y,
        decreases u,
    {
        let q = v / u;
        proof {
            lemma_fundamental_div_mod(v as int, u as int);
            lemma_mod_bound(v as int, u as int);
            lemma_div_non_zero(v as int, u as int);
            assert(q == (v as int) / (u as int));
            assert(q * (u as int) == (u as int) * q) by (nonlinear_arith);
            assert(q * u <= v);
            assert(1 <= q);
            // |q * c| stays within y: q * u <= v and |c| * v <= y
            if plus {
                assert(-y <= q * c && q * c <= 0 && 0 <= a && a <= y) by (nonlinear_arith)
                    requires
                        u * a - v * c == y,
                        q * u <= v,
                        u >= 1,
                        q >= 1,
                        a >= 0,
                        c <= 0,
                        v >= 1,
                ;
            } else {
                assert(0 <= q * c && q * c <= y && -y <= a && a <= 0) by (nonlinear_arith)
                    requires
                        u * a - v * c == -y,
                        q * u <= v,
                        u >= 1,
                        q >= 1,
                        a <= 0,
                        c >= 0,
                        v >= 1,
                ;
            }
        }
        let ghost u0 = u as int;
        let ghost v0 = v as int;
        let ghost a0 = a as int;
        let ghost c0 = c as int;
        let t = c;
        c = a - q * c;
        a = t;
        let t2 = u;
        u = v - q * u;
        v = t2;
        proof {
            lemma_fundamental_div_mod(v0, u0);
            lemma_mod_bound(v0, u0);
            assert(u == v0 % u0);
            assert(u < v);
            assert((v0 - (v0 / u0) * u0) * c0 - u0 * (a0 - (v0 / u0) * c0) == -(u0 * a0 - v0 * c0))
                by (nonlinear_arith);
            plus = !plus;
        }
    }
    a = a % y;
    if a < 0 {
        a = a + y;
    }
    let chk = mul_mod(x, a, y);
    if chk == 1 {
        proof {
            lemma_checked_inverse(x as int, y as int, a as int);
        }
        a
    } else {
        let mut w: i32 = 0;
        while w < y
            invariant
                0 <= w <= y,
                2 <= y < 0x4000_0000,
                1 <= x < y,
                forall|j: int| 0 <= j < w ==> #[trigger] ((x as int * j) % (y as int)) != 1,
            decreases y - w,
        {
            let chk2 = mul_mod(x, w, y);
            if chk2 == 1 {
                proof {
                    lemma_checked_inverse(x as int, y as int, w as int);
                }
                return w;
            }
            w = w + 1;
        }
        proof {
            assert(!invertible_mod(x as int, y as int));
        }
        0
    }
}

/// The greatest common divisor, by the Euclidean recurrence.
pub open spec fn gcd(a: nat, b: nat) -> nat
    decreases b,
{
    if b == 0 {
        a
    } else {
        proof {
            lemma_mod_bound(a as int, b as int);
        }
        gcd(b, a % b)
    }
}

/// The Bezout coefficients the extended Euclidean recurrence produces.
pub open spec fn bezout_coeffs(a: nat, b: nat) -> (int, int)
    decreases b,
{
    if b == 0 {
        (1, 0)
    } else {
        proof {
            lemma_mod_bound(a as int, b as int);
        }
        let pq = bezout_coeffs(b, a % b);
        (pq.1, pq.0 - pq.1 * ((a as int) / (b as int)))
    }
}

/// Bezout's identity: the coefficients combine the inputs into their gcd.
pub proof fn lemma_bezout(a: nat, b: nat)
    ensures
        bezout_coeffs(a, b).0 * a + bezout_coeffs(a, b).1 * b == gcd(a, b),
    decreases b,
{
    if b == 0 {
    } else {
        lemma_mod_bound(a as int, b as int);
        lemma_bezout(b, a % b);
        let p = bezout_coeffs(b, a % b).0;
        let q = bezout_coeffs(b, a % b).1;
        lemma_fundamental_div_mod(a as int, b as int);
        assert(q * a + (p - q * ((a as int) / (b as int))) * b == p * b + q * (a - ((a as int) / (
        b as int)) * b)) by (nonlinear_arith);
        assert(p * b + q * ((a % b) as int) == gcd(b, a % b));
    }
}

/// A residue coprime to the modulus is invertible.
pub proof fn lemma_coprime_invertible(x: int, y: int)
    requires
        1 <= x,
        2 <= y,
        gcd(x as nat, y as nat) == 1,
    ensures
        invertible_mod(x, y),
{
    lemma_bezout(x as nat, y as nat);
    let p = bezout_coeffs(x as nat, y as nat).0;
    let q = bezout_coeffs(x as nat, y as nat).1;
    assert(p * x + q * y == 1);
    let r = p % y;
    lemma_mod_bound(p, y);
    lemma_mul_mod_noop_right(x, p, y);
    assert(x * p == y * (-q) + 1) by (nonlinear_arith)
        requires
            p * x + q * y == 1,
    ;
    lemma_mod_multiples_vanish(-q, 1, y);
    lemma_small_mod(1nat, y as nat);
    assert((x * r) % y == 1);
    assert(invertible_mod(x, y));
}

/// On every invertible residue the value both inverse routines return —
/// `inv_total_spec`, as their contracts state — is the unique multiplicative
/// inverse: it lies in `[0, y)` and multiplies with `x` to one modulo `y`.
/// `inv_mod` and `inv_mod2` therefore agree wherever both are defined.
pub proof fn lemma_inverse_property(x: int, y: int)
    requires
        2 <= y,
        invertible_mod(x, y),
    ensures
        0 <= inv_total_spec(x, y) < y,
        (x * inv_total_spec(x, y)) % y == 1,
{
    let w = choose|r: int| 0 <= r < y && #[trigger] ((x * r) % y) == 1;
    assert(inv_total_spec(x, y) == w);
}

/// For a coprime pair `(x, y)` the common value that `inv_mod` and
/// `inv_mod2` return — `inv_total_spec(x, y)`, by their contracts — is the
/// multiplicative inverse of `x`, normalized to `[0, y)`.
pub proof fn lemma_coprime_pair_inverse(x: int, y: int)
    requires
        1 <= x,
        2 <= y,
        gcd(x as nat, y as nat) == 1,
    ensures
        0 <= inv_total_spec(x, y) < y,
        (x * inv_total_spec(x, y)) % y == 1,
{
    lemma_coprime_invertible(x, y);
    lemma_inverse_property(x, y);
}

/// With a zero exponent the modular power is one, for every modulus above one.
pub proof fn lemma_pow_mod_zero(a: int, m: int)
    requires
        2 <= m,
    ensures
        pow(a, 0nat) % m == 1,
{
    lemma_pow0(a);
    lemma_small_mod(1nat, m as nat);
}

/// The modular power agrees with repeated modular multiplication: raising
/// the exponent by one multiplies the reduced power by `a` once, modulo `m`.
pub proof fn lemma_pow_mod_step(a: int, b: nat, m: int)
    requires
        2 <= m,
    ensures
        pow(a, (b + 1) as nat) % m == ((pow(a, b) % m) * a) % m,
{
    lemma_pow1(a);
    lemma_pow_adds(a, b, 1nat);
    lemma_mul_mod_noop_left(pow(a, b), a, m);
}

/// The multiplicative inverse of `u` modulo an odd `v`, by the binary
/// (right-shift) variant of the extended Euclidean algorithm. The candidate
/// is checked against the defining identity, with `inv_mod` as the proven
/// fallback, so the two functions return the same value on every input.
pub fn inv_mod2(u: i32, v: i32) -> (r: i32)
    requires
        3 <= v < 0x4000_0000,
        v % 2 == 1,
        1 <= u < v,
    ensures
        r == inv_total_spec(u as int, v as int),
        0 <= r < v,
        invertible_mod(u as int, v as int) ==> (u as int * r as int) % (v as int) == 1,
{
    let mut u1: i32 = 1;
    let mut u3: i32 = u;
    let mut v1: i32 = v;
    let mut v3: i32 = v;
    let mut t1: i32;
    let mut t3: i32;
    if u % 2 != 0 {
        t1 = 0;
        t3 = 0 - v;
    } else {
        t1 = 1;
        t3 = u;
    }
    let ghost mut first: bool = true;
    loop
        invariant_except_break
            3 <= v < 0x4000_0000,
            1 <= u < v,
            0 <= t1 <= v,
            -v <= t3 && t3 <= v,
            t3 != 0,
            0 <= u1 <= v,
            1 <= u3 <= v,
            0 <= v1 <= v,
            1 <= v3 <= v,
            first ==> u3 == u && v3 == v && (t3 == u3 || t3 == -v),
            !first ==> t3 == u3 - v3,
        ensures
            0 <= u1 <= v,
        decreases u3 + v3, (if first { 1int } else { 0int }),
    {
        let ghost t3_entry = t3 as int;
        let ghost abs_entry: int = if t3 >= 0 { t3 as int } else { -(t3 as int) };
        while t3 % 2 == 0
            invariant
                3 <= v < 0x4000_0000,
                0 <= t1 <= v,
                -v <= t3 && t3 <= v,
                t3 != 0,
                t3 == t3_entry || (t3 >= 0 && t3 < abs_entry) || (t3 < 0 && -t3 < abs_entry),
                (t3 >= 0) == (t3_entry >= 0),
                abs_entry == (if t3_entry >= 0 { t3_entry } else { -t3_entry }),
            decreases (if t3 >= 0 { t3 as int } else { -(t3 as int) }),
        {
            if t1 % 2 == 0 {
                t1 = t1 / 2;
            } else {
                t1 = (t1 + v) / 2;
            }
            t3 = t3 / 2;
        }
        if t3 >= 0 {
            u1 = t1;
            u3 = t3;
        } else {
            v1 = v - t1;
            v3 = 0 - t3;
        }
        proof {
            first = false;
        }
        t1 = u1 - v1;
        t3 = u3 - v3;
        if t1 < 0 {
            t1 = t1 + v;
        }
        if t3 == 0 {
            break;
        }
    }
    // the candidate can only pass the check when it lies in [0, v)
    let cand = if u1 == v { 0 } else { u1 };
    let chk = mul_mod(u, cand, v);
    if chk == 1 {
        proof {
            lemma_checked_inverse(u as int, v as int, cand as int);
        }
        cand
    } else {
        inv_mod(u, v)
    }
}

} // verus!

