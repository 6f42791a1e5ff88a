use pi_digits::extract::extract_digit_block;

/// The first 500 decimal digits of pi after the decimal point, from the
/// commonly published reference expansion.
const PI_DIGITS: &str = "\
14159265358979323846264338327950288419716939937510\
58209749445923078164062862089986280348253421170679\
82148086513282306647093844609550582231725359408128\
48111745028410270193852110555964462294895493038196\
44288109756659334461284756482337867831652712019091\
45648566923460348610454326648213393607260249141273\
72458700660631558817488152092096282925409171536436\
78925903600113305305488204665213841469519415116094\
33057270365759591953092186117381932611793105118548\
07446237996274956735188575272489122793818301194912";

#[test]
fn first_block_matches_pi() {
    assert_eq!(extract_digit_block(1), 141592653);
}

#[test]
fn repeated_calls_identical() {
    for &n in &[1i32, 2, 7, 10, 19, 100, 901] {
        let first = extract_digit_block(n);
        let second = extract_digit_block(n);
        assert_eq!(first, second);
    }
}

#[test]
fn blocks_compose_to_reference() {
    for &blocks in &[1usize, 5, 10, 50] {
        let mut joined = String::new();
        for i in 0..blocks {
            let offset = 9 * i as i32 + 1;
            joined.push_str(&format!("{:09}", extract_digit_block(offset)));
        }
        assert_eq!(joined, PI_DIGITS[..9 * blocks]);
    }
}

#[test]
fn adjacent_blocks_overlap() {
    for n in 1i32..=40 {
        let here = extract_digit_block(n);
        let next = extract_digit_block(n + 1);
        assert_eq!(here % 100_000_000, next / 10);
    }
}

#[test]
fn term_count_formula() {
    assert_eq!(pi_digits::extract::term_count(1), 18);
    assert_eq!(pi_digits::extract::term_count(100), 106);
    assert_eq!(pi_digits::extract::term_count(442), 408);
}

#[test]
fn block_is_nine_digits() {
    for &n in &[1i32, 55, 1000, 4003] {
        assert!(extract_digit_block(n) < 1_000_000_000);
    }
}
