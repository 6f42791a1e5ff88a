use vstd::prelude::*;

verus! {

/// What the trial division in `is_prime` decides: no odd divisor at most the
/// square root. For odd `n >= 3` this coincides with primality.
pub open spec fn no_small_odd_factor(n: int) -> bool {
    forall|d: int| 3 <= d && d % 2 == 1 && d * d <= n ==> #[trigger] ((n as int) % d) != 0
}

/// What the odd-candidate loop of `is_prime` decides: odd, with no odd
/// divisor up to the square root.
pub open spec fn passes_trial_division(n: int) -> bool {
    n % 2 == 1 && no_small_odd_factor(n)
}

/// Mathematical primality.
pub open spec fn is_prime_spec(n: int) -> bool {
    2 <= n && forall|d: int| 2 <= d < n ==> #[trigger] (n % d) != 0
}

/// For an odd candidate above two, passing trial division by odd divisors up
/// to the square root is exactly primality.
pub proof fn lemma_trial_division_is_primality(n: int)
    requires
        3 <= n,
        n % 2 == 1,
    ensures
        passes_trial_division(n) <==> is_prime_spec(n),
{
    if passes_trial_division(n) && !is_prime_spec(n) {
        let d = choose|d: int| 2 <= d < n && #[trigger] (n % d) == 0;
        vstd::arithmetic::div_mod::lemma_fundamental_div_mod(n, d);
        let e = n / d;
        assert(n == d * e);
        // a proper divisor pairs with a cofactor of at least 2
        assert(e != 0 && e != 1 && e >= 0) by (nonlinear_arith)
            requires
                n == d * e,
                2 <= d < n,
                3 <= n,
        ;
        assert(2 <= e < n) by (nonlinear_arith)
            requires
                n == d * e,
                2 <= d < n,
                2 <= e,
        ;
        // both factors are odd, since n is
        assert(d % 2 == 1) by {
            if d % 2 != 1 {
                vstd::arithmetic::div_mod::lemma_fundamental_div_mod(d, 2);
                vstd::arithmetic::div_mod::lemma_mod_bound(d, 2);
                assert(n == ((d / 2) * e) * 2) by (nonlinear_arith)
                    requires
                        n == d * e,
                        d == 2 * (d / 2),
                ;
                vstd::arithmetic::div_mod::lemma_mod_multiples_basic((d / 2) * e, 2);
            }
        }
        assert(e % 2 == 1) by {
            if e % 2 != 1 {
                vstd::arithmetic::div_mod::lemma_fundamental_div_mod(e, 2);
                vstd::arithmetic::div_mod::lemma_mod_bound(e, 2);
                assert(n == ((e / 2) * d) * 2) by (nonlinear_arith)
                    requires
                        n == d * e,
                        e == 2 * (e / 2),
                ;
                vstd::arithmetic::div_mod::lemma_mod_multiples_basic((e / 2) * d, 2);
            }
        }
        let m = if d <= e { d } else { e };
        assert(m * m <= n) by (nonlinear_arith)
            requires
                n == d * e,
                2 <= d,
                2 <= e,
                m == (if d <= e { d } else { e }),
        ;
        assert(n % m == 0) by {
            if d <= e {
            } else {
                vstd::arithmetic::div_mod::lemma_mod_multiples_basic(d, e);
                assert((d * e) % e == 0);
            }
        }
        assert(3 <= m && m % 2 == 1 && m * m <= n);
        assert(n % m != 0);
    }
    if is_prime_spec(n) && !passes_trial_division(n) {
        assert(!no_small_odd_factor(n));
        let d = choose|d: int|
            3 <= d && d % 2 == 1 && d * d <= n && #[trigger] ((n as int) % d) == 0;
        assert(d < n) by (nonlinear_arith)
            requires
                3 <= d,
                d * d <= n,
        ;
    }
}

/// Primality by trial division: 2 is recognized directly, every other even
/// input is rejected immediately, and odd candidates are divided by the odd
/// numbers up to their square root.
pub fn is_prime(n: i32) -> (r: bool)
    requires
        2 <= n <= 2_000_000_000,
    ensures
        r == is_prime_spec(n as int),
{
    if n == 2 {
        return true;
    }
    if n % 2 == 0 {
        proof {
            assert((n as int) % 2 == 0);
            assert(!is_prime_spec(n as int));
        }
        return false;
    }
    let mut i: i32 = 3;
    while i * i <= n
        invariant
            3 <= i <= 44_724,
            i * i <= 2_100_000_000,
            i % 2 == 1,
            3 <= n <= 2_000_000_000,
            n % 2 == 1,
            forall|d: int| 3 <= d < i && d % 2 == 1 && d * d <= n ==> #[trigger] ((n as int) % d) != 0,
        decreases n + 2 - i,
    {
        if n % i == 0 {
            proof {
                assert(!passes_trial_division(n as int));
                lemma_trial_division_is_primality(n as int);
            }
            return false;
        }
        proof {
            assert(i <= 44722 && i <= n) by (nonlinear_arith)
                requires
                    3 <= i,
                    i * i <= n,
                    n <= 2_000_000_000,
            ;
            assert((i + 2) * (i + 2) <= 2_100_000_000) by (nonlinear_arith)
                requires
                    3 <= i <= 44722,
            ;
            assert(forall|d: int| 3 <= d < i + 2 && d % 2 == 1 && d * d <= n ==> #[trigger] ((n as int) % d)
                != 0);
        }
        i = i + 2;
    }
    proof {
        assert forall|d: int| 3 <= d && d % 2 == 1 && #[trigger] (d * d) <= n implies d < i by {
            if d >= i {
                assert(d * d >= i * i) by (nonlinear_arith)
                    requires
                        d >= i,
                        i >= 3,
                ;
                assert(false);
            }
        }
        assert(passes_trial_division(n as int));
        lemma_trial_division_is_primality(n as int);
    }
    true
}

/// The least prime `p` with `m <= p <= bound`, or `bound + 1` when none
/// lies there.
pub open spec fn next_prime_from(m: int, bound: int) -> int
    decreases bound - m + 1,
{
    if m > bound {
        bound + 1
    } else if is_prime_spec(m) {
        m
    } else {
        next_prime_from(m + 1, bound)
    }
}

/// The value `next_prime` returns: the least prime after `n`, under the
/// search bound `2n`, which Bertrand's postulate keeps from ever binding.
pub open spec fn next_prime_spec(n: int) -> int {
    next_prime_from(n + 1, 2 * n)
}

pub proof fn lemma_next_prime_from_range(m: int, bound: int)
    requires
        m <= bound + 1,
    ensures
        m <= next_prime_from(m, bound) <= bound + 1,
    decreases bound - m + 1,
{
    if m > bound {
    } else if is_prime_spec(m) {
    } else {
        lemma_next_prime_from_range(m + 1, bound);
    }
}

/// The prime number immediately after `n`: no prime lies strictly between
/// `n` and the result. The search stops at `2n`, which by Bertrand's
/// postulate always holds a prime; if it ever did not, `2n + 1` would be
/// returned.
pub fn next_prime(n: i32) -> (r: i32)
    requires
        2 <= n <= 500_000_000,
    ensures
        r == next_prime_spec(n as int),
        n < r <= 2 * n + 1,
        r <= 2 * n ==> is_prime_spec(r as int),
        forall|p: int| n < p < r ==> !(#[trigger] is_prime_spec(p)),
        r % 2 == 1,
{
    let mut m: i32 = n + 1;
    let bound: i32 = 2 * n;
    proof {
        lemma_next_prime_from_range(n as int + 1, bound as int);
    }
    while m <= bound
        invariant
            n + 1 <= m <= bound + 1,
            bound == 2 * n,
            2 <= n <= 500_000_000,
            next_prime_from(n as int + 1, bound as int) == next_prime_from(m as int, bound as int),
            forall|p: int| n < p < m ==> !(#[trigger] is_prime_spec(p)),
        decreases bound + 1 - m,
    {
        if is_prime(m) {
            proof {
                if m % 2 == 0 {
                    assert((m as int) % 2 == 0);
                    assert(false);
                }
            }
            return m;
        }
        proof {
            lemma_next_prime_from_range(m as int + 1, bound as int);
        }
        m = m + 1;
    }
    m
}

} // verus!
