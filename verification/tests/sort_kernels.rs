// The base-case kernels: every length up to each kernel's width, reversed.

use simd_sort::bit_64::{sort_128, sort_16, sort_32, sort_64, sort_8};
use simd_sort::platform::avx512::avx512_sort_i64;
use simd_sort::platform::portable::Simd8;

#[test]
fn test_sort_8() {
    let result: Vec<i64> = (0i64..8).into_iter().collect();
    for i in 0..8 {
        let mut array = Vec::with_capacity(i);
        array.extend_from_slice(&result[..i]);
        array.reverse();
        let n = array.len();
        sort_8::<i64, Simd8<i64>>(&mut array, 0, n);
        assert_eq!(&array, &result[..i]);
    }
}

#[test]
fn test_sort_16() {
    let result: Vec<i64> = (0i64..16).into_iter().collect();
    for i in 0..16 {
        let mut array = Vec::with_capacity(i);
        array.extend_from_slice(&result[..i]);
        array.reverse();
        let n = array.len();
        sort_16::<i64, Simd8<i64>>(&mut array, 0, n);
        assert_eq!(&array, &result[..i]);
    }
}

#[test]
fn test_sort_32() {
    let result: Vec<i64> = (0i64..32).into_iter().collect();
    for i in 0..32 {
        let mut array = Vec::with_capacity(i);
        array.extend_from_slice(&result[..i]);
        array.reverse();
        let n = array.len();
        sort_32::<i64, Simd8<i64>>(&mut array, 0, n);
        assert_eq!(&array, &result[..i]);
    }
}

#[test]
fn test_sort_64() {
    let result: Vec<i64> = (0i64..64).into_iter().collect();
    for i in 0..64 {
        let mut array = Vec::with_capacity(i);
        array.extend_from_slice(&result[..i]);
        array.reverse();
        let n = array.len();
        sort_64::<i64, Simd8<i64>>(&mut array, 0, n);
        assert_eq!(&array, &result[..i]);
        println!("succeeded {}", i);
    }
}

#[test]
fn test_sort_128() {
    let result: Vec<i64> = (0i64..128).into_iter().collect();
    for i in 0..128 {
        let mut array = Vec::with_capacity(i);
        array.extend_from_slice(&result[..i]);
        array.reverse();
        let n = array.len();
        sort_128::<i64, Simd8<i64>>(&mut array, 0, n);
        assert_eq!(&array, &result[..i]);
        println!("succeeded {}", i);
    }
}

#[test]
fn test_sort_e2e() {
    let start = 0;
    let end = 1024;
    let result: Vec<i64> = (0..end).into_iter().collect();
    for i in start as usize..end as usize {
        let mut array = Vec::with_capacity(i);
        array.extend_from_slice(&result[..i]);
        array.reverse();
        avx512_sort_i64(&mut array);
        assert_eq!(&array, &result[..i]);
        println!("succeeded {}", i);
    }
}

#[test]
fn test_sort_middle_range() {
    // The kernels sort a range in place and leave the rest alone.
    let mut array: Vec<i64> = vec![9, 8, 5, 4, 3, 2, 1, 0, -1, 7];
    sort_8::<i64, Simd8<i64>>(&mut array, 2, 9);
    assert_eq!(array, vec![9, 8, -1, 0, 1, 2, 3, 4, 5, 7]);
}
