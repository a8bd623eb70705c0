// End-to-end scenarios for the public entry points.

use simd_sort::platform::avx512::{avx512_sort_i64, avx512_sort_u64};
use simd_sort::platform::portable::portable_simd_sort_i64;
use simd_sort::platform::{compress_store_i64, sort_i64};
use simd_sort::partition_avx512;
use simd_sort::platform::portable::Simd8;

#[test]
fn test_sort_empty() {
    let mut array: Vec<i64> = vec![];
    sort_i64(&mut array);
    assert_eq!(array, Vec::<i64>::new());
}

#[test]
fn test_sort_single() {
    let mut array: Vec<i64> = vec![42];
    sort_i64(&mut array);
    assert_eq!(array, vec![42]);
}

#[test]
fn test_sort_8_reversed() {
    let mut array: Vec<i64> = vec![8, 7, 6, 5, 4, 3, 2, 1];
    sort_i64(&mut array);
    assert_eq!(array, vec![1, 2, 3, 4, 5, 6, 7, 8]);
}

#[test]
fn test_sort_17_reversed() {
    let mut array: Vec<i64> = (1..=17).rev().collect();
    sort_i64(&mut array);
    let expected: Vec<i64> = (1..=17).collect();
    assert_eq!(array, expected);
}

#[test]
fn test_sort_256_reversed() {
    let mut array: Vec<i64> = (1..=256).rev().collect();
    sort_i64(&mut array);
    let expected: Vec<i64> = (1..=256).collect();
    assert_eq!(array, expected);
}

#[test]
fn test_sort_u64() {
    let mut array: Vec<u64> = vec![u64::MAX, 0, 3, 2, 1, 500, 4, 10, 9, 8, 7, 6, 5];
    avx512_sort_u64(&mut array);
    assert_eq!(
        array,
        vec![0, 1, 2, 3, 4, 5, 6, 7, 8, 9, 10, 500, u64::MAX]
    );
}

#[test]
fn test_sort_duplicates_and_extremes() {
    let mut array: Vec<i64> = vec![5, i64::MIN, 5, i64::MAX, -1, 5, 0, i64::MIN, i64::MAX, 5];
    sort_i64(&mut array);
    assert_eq!(
        array,
        vec![i64::MIN, i64::MIN, -1, 0, 5, 5, 5, 5, i64::MAX, i64::MAX]
    );
}

// A small linear congruential generator, so the large test is seeded and
// repeatable without any randomness source.
fn lcg_next(state: &mut u64) -> i64 {
    *state = state
        .wrapping_mul(6364136223846793005)
        .wrapping_add(1442695040888963407);
    (*state >> 16) as i64 - (1 << 46)
}

#[test]
fn test_sort_large_seeded() {
    let n = 1 << 20;
    let mut state: u64 = 0x123456789abcdef;
    let mut array: Vec<i64> = Vec::with_capacity(n);
    for _ in 0..n {
        array.push(lcg_next(&mut state));
    }
    let mut expected = array.clone();
    expected.sort_unstable();
    sort_i64(&mut array);
    assert_eq!(array, expected);
}

#[test]
fn test_backends_agree() {
    let mut state: u64 = 42;
    let mut a: Vec<i64> = Vec::new();
    for _ in 0..5000 {
        a.push(lcg_next(&mut state) % 1000);
    }
    let mut b = a.clone();
    let mut c = a.clone();
    avx512_sort_i64(&mut a);
    portable_simd_sort_i64(&mut b);
    sort_i64(&mut c);
    assert_eq!(a, b);
    assert_eq!(a, c);
}

#[test]
fn test_compress_store_entry() {
    let input: Vec<i64> = vec![1, 2, 3, 4, 5, 6, 7, 8];
    let mut output: Vec<i64> = vec![0; 8];
    compress_store_i64(&input, &mut output, 0b10100110);
    assert_eq!(output, vec![2, 3, 6, 8, 0, 0, 0, 0]);
}

#[test]
fn test_partition_splits_around_pivot() {
    let mut data: Vec<i64> = (0..40).map(|i| (37 * i + 11) % 100).collect();
    let orig = data.clone();
    let mut smallest = i64::MAX;
    let mut biggest = i64::MIN;
    let n = data.len();
    let l = partition_avx512::<i64, Simd8<i64>>(&mut data, 0, n, 50, &mut smallest, &mut biggest);
    assert!(data[..l].iter().all(|&x| x < 50));
    assert!(data[l..].iter().all(|&x| x >= 50));
    assert_eq!(l, orig.iter().filter(|&&x| x < 50).count());
    let mut a = data.clone();
    let mut b = orig.clone();
    a.sort_unstable();
    b.sort_unstable();
    assert_eq!(a, b);
    assert_eq!(smallest, *orig.iter().min().unwrap());
    assert_eq!(biggest, *orig.iter().max().unwrap());
}
