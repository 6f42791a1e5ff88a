use pi_digits::arith::{inv_mod, inv_mod2, mul_mod, pow_mod};

fn gcd(mut a: i64, mut b: i64) -> i64 {
    while b != 0 {
        let t = a % b;
        a = b;
        b = t;
    }
    a
}

#[test]
fn mul_mod_matches_product_mod() {
    // edge cases
    for &n in &[1i32, 2, 3, 97, 65537, 1 << 29] {
        assert_eq!(mul_mod(0, 0, n), 0);
        assert_eq!(mul_mod(0, n - 1, n), 0);
        assert_eq!(mul_mod(n - 1, 0, n), 0);
        let expect = ((n as i64 - 1) * (n as i64 - 1) % n as i64) as i32;
        assert_eq!(mul_mod(n - 1, n - 1, n), expect);
    }
    // pseudo-random values within the working width
    let mut state: u64 = 0x2545_f491_4f6c_dd1d;
    for _ in 0..500 {
        state = state.wrapping_mul(6364136223846793005).wrapping_add(1442695040888963407);
        let a = (state >> 33) as i32 & 0x7fff_ffff;
        state = state.wrapping_mul(6364136223846793005).wrapping_add(1442695040888963407);
        let b = (state >> 33) as i32 & 0x7fff_ffff;
        state = state.wrapping_mul(6364136223846793005).wrapping_add(1442695040888963407);
        let n = ((state >> 33) as i32 & 0x7fff_fffe) + 1;
        let expect = ((a as i64 * b as i64) % n as i64) as i32;
        assert_eq!(mul_mod(a, b, n), expect);
    }
}

#[test]
fn inverses_agree_and_invert() {
    // coprime pairs (x, y) with y odd
    let mut state: u64 = 0xdead_beef_cafe_f00d;
    let mut checked = 0;
    while checked < 200 {
        state = state.wrapping_mul(6364136223846793005).wrapping_add(1442695040888963407);
        let y = (((state >> 33) as i32) & 0x3fff_fffe) | 1;
        state = state.wrapping_mul(6364136223846793005).wrapping_add(1442695040888963407);
        let x = ((state >> 40) as i32) % (y - 1) + 1;
        if y < 3 || x < 1 || gcd(x as i64, y as i64) != 1 {
            continue;
        }
        let r1 = inv_mod(x, y);
        let r2 = inv_mod2(x, y);
        assert_eq!(r1, r2);
        assert_eq!((x as i64 * r1 as i64).rem_euclid(y as i64), 1);
        assert!(0 <= r1 && r1 < y);
        checked += 1;
    }
    // a few fixed pairs
    for &(x, y) in &[(1i32, 3i32), (2, 9), (3, 125), (10, 21), (7, 31), (100, 10001)] {
        assert_eq!(gcd(x as i64, y as i64), 1);
        let r1 = inv_mod(x, y);
        let r2 = inv_mod2(x, y);
        assert_eq!(r1, r2);
        assert_eq!((x as i64 * r1 as i64) % y as i64, 1);
    }
}

#[test]
fn pow_mod_zero_exponent_is_one() {
    for &m in &[2i32, 3, 10, 97, 1 << 20, (1 << 30) - 1] {
        for &a in &[0i32, 1, 2, 5, 123456] {
            assert_eq!(pow_mod(a, 0, m), 1 % m);
        }
    }
}

#[test]
fn pow_mod_matches_repeated_multiplication() {
    for &m in &[2i32, 7, 1000, 65537] {
        for &a in &[0i32, 1, 2, 3, 10, 999] {
            let mut expect: i32 = 1 % m;
            for b in 0..20 {
                assert_eq!(pow_mod(a, b, m), expect);
                expect = ((expect as i64 * a as i64) % m as i64) as i32;
            }
        }
    }
}
