// Capability tests for the two-half 256-bit back-end model, and agreement
// between the back-ends.

use simd_sort::bit_64::Bit64Simd;
use simd_sort::platform::avx2::{avx2_sort_i64, Avx2I64x2};
use simd_sort::platform::wasm::{wasm128_sort_i64, Wasmi64x8};
use simd_sort::SimdCompare;

fn from_array(data: [i64; 8]) -> Avx2I64x2 {
    let v: Vec<i64> = data.to_vec();
    <Avx2I64x2 as SimdCompare<i64>>::loadu(&v, 0)
}

fn into_array(x: Avx2I64x2) -> [i64; 8] {
    let mut out = [0i64; 8];
    for i in 0..8 {
        out[i] = <Avx2I64x2 as SimdCompare<i64>>::get_value_at_idx(x, i);
    }
    out
}

#[test]
fn bit_64_test_min_max() {
    let first = from_array([1, 20, 3, 40, 5, 60, 70, 80]);
    let second = from_array([10, 2, 30, 4, 50, 6, 7, 8]);
    assert_eq!(
        into_array(<Avx2I64x2 as SimdCompare<i64>>::min(first, second)),
        [1, 2, 3, 4, 5, 6, 7, 8]
    );
    assert_eq!(
        into_array(<Avx2I64x2 as SimdCompare<i64>>::max(first, second)),
        [10, 20, 30, 40, 50, 60, 70, 80]
    );
}

#[test]
fn bit_64_test_loadu_storeu() {
    let mut input_slice: Vec<i64> = vec![1, 2, 3, 4, 5, 6, 7, 8, 9, 10];
    let first = <Avx2I64x2 as SimdCompare<i64>>::loadu(&input_slice, 0);
    assert_eq!(into_array(first), [1, 2, 3, 4, 5, 6, 7, 8]);
    <Avx2I64x2 as SimdCompare<i64>>::storeu(first, &mut input_slice, 2);
    assert_eq!(input_slice, vec![1i64, 2, 1, 2, 3, 4, 5, 6, 7, 8]);
}

#[test]
fn bit_64_test_get_at_index() {
    let first = from_array([1, 2, 3, 4, 5, 6, 7, 8]);
    for i in 1..9 {
        assert_eq!(
            i as i64,
            <Avx2I64x2 as SimdCompare<i64>>::get_value_at_idx(first, i - 1)
        );
    }
}

#[test]
fn bit_64_test_ge() {
    let first = from_array([1, 20, 3, 40, 5, 60, 7, 80]);
    let second = from_array([10, 2, 30, 40, 50, 6, 70, 80]);
    let result_mask = <Avx2I64x2 as SimdCompare<i64>>::ge(first, second);
    assert_eq!(result_mask, 0b10101010);
}

#[test]
fn bit_64_test_gather() {
    let input_slice: Vec<i64> = vec![1, 2, 3, 4, 5, 6, 7, 8, 9, 10];
    let first =
        <Avx2I64x2 as SimdCompare<i64>>::gather_from_idx([1, 1, 2, 2, 9, 9, 5, 6], &input_slice);
    assert_eq!(into_array(first), [2, 2, 3, 3, 10, 10, 6, 7]);
}

#[test]
fn bit_64_test_not() {
    let first: u8 = 5;
    assert_eq!(<Avx2I64x2 as SimdCompare<i64>>::not_mask(first), !first);
}

#[test]
fn bit_64_test_reduce_min_max() {
    let first = from_array([5, 6, 3, 4, 1, 2, 9, 8]);
    assert_eq!(<Avx2I64x2 as SimdCompare<i64>>::reducemin(first), 1);
    assert_eq!(<Avx2I64x2 as SimdCompare<i64>>::reducemax(first), 9);
}

fn generate_mask_answer(bitmask: usize, values: &[i64]) -> [i64; 8] {
    let mut new_values = [0; 8];
    let mut count = 0;
    for i in 0..8 {
        if bitmask & (1 << i) != 0 {
            new_values[count] = values[i];
            count += 1;
        }
    }
    new_values
}

#[test]
fn bit_64_test_compress_store_u() {
    let input_slice: Vec<i64> = vec![1, 2, 3, 4, 5, 6, 7, 8, 9, 10];
    let first = <Avx2I64x2 as SimdCompare<i64>>::loadu(&input_slice, 0);
    for i in 0..255usize {
        let new_values = generate_mask_answer(i, &input_slice);
        let mask = i as u8;
        let mut new_array = input_slice.clone();
        <Avx2I64x2 as SimdCompare<i64>>::mask_compressstoreu(&mut new_array, 2, mask, first);
        for j in 0..i.count_ones() as usize {
            assert_eq!(new_array[2 + j], new_values[j]);
        }
        for j in i.count_ones() as usize..8 {
            assert_eq!(new_array[2 + j], input_slice[2 + j]);
        }
    }
}

#[test]
fn bit_64_test_shuffle1_1_1_1() {
    let first = from_array([1, 2, 3, 4, 5, 6, 7, 8]);
    assert_eq!(
        into_array(<Avx2I64x2 as Bit64Simd<i64>>::shuffle1_1_1_1(first)),
        [2, 1, 4, 3, 6, 5, 8, 7]
    );
}

#[test]
fn bit_64_test_count_ones() {
    for i in 0u8..8 {
        assert_eq!(
            <Avx2I64x2 as SimdCompare<i64>>::ones_count(i),
            i.count_ones() as usize
        );
    }
}

#[test]
fn bit_64_test_swizzle2_0xaa() {
    let first = from_array([1, 2, 3, 4, 5, 6, 7, 8]);
    let second = from_array([10, 20, 30, 40, 50, 60, 70, 80]);
    assert_eq!(
        into_array(<Avx2I64x2 as Bit64Simd<i64>>::swizzle2_0xaa(first, second)),
        [1, 20, 3, 40, 5, 60, 7, 80]
    );
}

#[test]
fn bit_64_test_swizzle2_0xcc() {
    let first = from_array([1, 2, 3, 4, 5, 6, 7, 8]);
    let second = from_array([10, 20, 30, 40, 50, 60, 70, 80]);
    assert_eq!(
        into_array(<Avx2I64x2 as Bit64Simd<i64>>::swizzle2_0xcc(first, second)),
        [1, 2, 30, 40, 5, 6, 70, 80]
    );
}

#[test]
fn bit_64_test_swizzle2_0xf0() {
    let first = from_array([1, 2, 3, 4, 5, 6, 7, 8]);
    let second = from_array([10, 20, 30, 40, 50, 60, 70, 80]);
    assert_eq!(
        into_array(<Avx2I64x2 as Bit64Simd<i64>>::swizzle2_0xf0(first, second)),
        [1, 2, 3, 4, 50, 60, 70, 80]
    );
}

#[test]
fn bit_64_test_networks() {
    let first = from_array([0, 1, 2, 3, 4, 5, 6, 7]);
    assert_eq!(
        into_array(<Avx2I64x2 as Bit64Simd<i64>>::network64bit1(first)),
        [3, 2, 1, 0, 7, 6, 5, 4]
    );
    assert_eq!(
        into_array(<Avx2I64x2 as Bit64Simd<i64>>::network64bit2(first)),
        [7, 6, 5, 4, 3, 2, 1, 0]
    );
    assert_eq!(
        into_array(<Avx2I64x2 as Bit64Simd<i64>>::network64bit3(first)),
        [2, 3, 0, 1, 6, 7, 4, 5]
    );
    assert_eq!(
        into_array(<Avx2I64x2 as Bit64Simd<i64>>::network64bit4(first)),
        [4, 5, 6, 7, 0, 1, 2, 3]
    );
}

#[test]
fn test_wasm_mask_loadu() {
    let v: Vec<i64> = vec![7, 9];
    let x = <Wasmi64x8 as SimdCompare<i64>>::mask_loadu(&v, 0, 2);
    let mut out = [0i64; 8];
    for i in 0..8 {
        out[i] = <Wasmi64x8 as SimdCompare<i64>>::get_value_at_idx(x, i);
    }
    assert_eq!(
        out,
        [7, 9, i64::MAX, i64::MAX, i64::MAX, i64::MAX, i64::MAX, i64::MAX]
    );
}

#[test]
fn test_layout_backends_agree() {
    let mut state: u64 = 7;
    let mut a: Vec<i64> = Vec::new();
    for _ in 0..3000 {
        state = state
            .wrapping_mul(6364136223846793005)
            .wrapping_add(1442695040888963407);
        a.push((state >> 20) as i64 - (1 << 42));
    }
    let mut b = a.clone();
    let mut expected = a.clone();
    expected.sort_unstable();
    avx2_sort_i64(&mut a);
    wasm128_sort_i64(&mut b);
    assert_eq!(a, expected);
    assert_eq!(b, expected);
}
