use pi_digits::extract::extract_digit_block;
use rayon::iter::{IntoParallelIterator, ParallelIterator};

#[test]
fn parallel_and_sequential_blocks_agree() {
    let blocks = 24i32;
    let sequential: Vec<String> =
        (0..blocks).map(|i| format!("{:09}", extract_digit_block(9 * i + 1))).collect();
    let parallel: Vec<String> =
        (0..blocks).into_par_iter().map(|i| format!("{:09}", extract_digit_block(9 * i + 1))).collect();
    assert_eq!(sequential.join(""), parallel.join(""));
}
