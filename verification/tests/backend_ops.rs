// Capability tests for the eight-lane back-end operations.

use simd_sort::platform::portable::Simd8;
use simd_sort::{SimdCompare, SimdSortable};
use simd_sort::bit_64::Bit64Simd;

fn from_array(data: [i64; 8]) -> Simd8<i64> {
    let v: Vec<i64> = data.to_vec();
    <Simd8<i64> as SimdCompare<i64>>::loadu(&v, 0)
}

fn into_array(x: Simd8<i64>) -> [i64; 8] {
    [
        <Simd8<i64> as SimdCompare<i64>>::get_value_at_idx(x, 0),
        <Simd8<i64> as SimdCompare<i64>>::get_value_at_idx(x, 1),
        <Simd8<i64> as SimdCompare<i64>>::get_value_at_idx(x, 2),
        <Simd8<i64> as SimdCompare<i64>>::get_value_at_idx(x, 3),
        <Simd8<i64> as SimdCompare<i64>>::get_value_at_idx(x, 4),
        <Simd8<i64> as SimdCompare<i64>>::get_value_at_idx(x, 5),
        <Simd8<i64> as SimdCompare<i64>>::get_value_at_idx(x, 6),
        <Simd8<i64> as SimdCompare<i64>>::get_value_at_idx(x, 7),
    ]
}

#[test]
fn test_min_max() {
    let first = from_array([1, 20, 3, 40, 5, 60, 70, 80]);
    let second = from_array([10, 2, 30, 4, 50, 6, 7, 8]);
    assert_eq!(
        into_array(<Simd8<i64> as SimdCompare<i64>>::min(first, second)),
        [1, 2, 3, 4, 5, 6, 7, 8]
    );
    assert_eq!(
        into_array(<Simd8<i64> as SimdCompare<i64>>::max(first, second)),
        [10, 20, 30, 40, 50, 60, 70, 80]
    );
}

#[test]
fn test_loadu_storeu() {
    let mut input_slice: Vec<i64> = vec![1, 2, 3, 4, 5, 6, 7, 8, 9, 10];
    let first = <Simd8<i64> as SimdCompare<i64>>::loadu(&input_slice, 0);
    assert_eq!(into_array(first), [1, 2, 3, 4, 5, 6, 7, 8]);
    <Simd8<i64> as SimdCompare<i64>>::storeu(first, &mut input_slice, 2);
    assert_eq!(input_slice, vec![1i64, 2, 1, 2, 3, 4, 5, 6, 7, 8]);
}

#[test]
fn test_mask_loadu_mask_storeu() {
    let mut input_slice: Vec<i64> = vec![1, 2, 3, 4, 5, 6, 7, 8, 9, 10];
    let first = <Simd8<i64> as SimdCompare<i64>>::mask_loadu(&input_slice, 0, 2);
    assert_eq!(
        into_array(first),
        [
            1,
            2,
            i64::MAX,
            i64::MAX,
            i64::MAX,
            i64::MAX,
            i64::MAX,
            i64::MAX
        ]
    );
    <Simd8<i64> as SimdCompare<i64>>::mask_storeu(first, &mut input_slice, 2, 2);
    assert_eq!(input_slice, vec![1i64, 2, 1, 2, 5, 6, 7, 8, 9, 10]);
}

#[test]
fn test_get_at_index() {
    let first = from_array([1, 2, 3, 4, 5, 6, 7, 8]);
    for i in 1..9 {
        assert_eq!(
            i as i64,
            <Simd8<i64> as SimdCompare<i64>>::get_value_at_idx(first, i - 1)
        );
    }
}

#[test]
fn test_ge() {
    let first = from_array([1, 20, 3, 40, 5, 60, 7, 80]);
    let second = from_array([10, 2, 30, 40, 50, 6, 70, 80]);
    let result_mask = <Simd8<i64> as SimdCompare<i64>>::ge(first, second);
    assert_eq!(result_mask, 0b10101010);
}

#[test]
fn test_gather() {
    let input_slice: Vec<i64> = vec![1, 2, 3, 4, 5, 6, 7, 8, 9, 10];
    let first =
        <Simd8<i64> as SimdCompare<i64>>::gather_from_idx([1, 1, 2, 2, 9, 9, 5, 6], &input_slice);
    assert_eq!(into_array(first), [2, 2, 3, 3, 10, 10, 6, 7]);
}

#[test]
fn test_not() {
    let first: u8 = 10;
    assert_eq!(<Simd8<i64> as SimdCompare<i64>>::not_mask(first), !first);
}

#[test]
fn test_reduce_min_max() {
    let first = from_array([5, 6, 3, 4, 1, 2, 9, 8]);
    assert_eq!(<Simd8<i64> as SimdCompare<i64>>::reducemin(first), 1);
    assert_eq!(<Simd8<i64> as SimdCompare<i64>>::reducemax(first), 9);
}

fn generate_mask_answer(bitmask: usize, values: &[i64]) -> [i64; 8] {
    let mut new_values = [0; 8];
    let mut count = 0;
    for i in 0..8 {
        if bitmask & (1 << i) != 0 {
            new_values[count] = values[i];
            count += 1;
        }
    }
    new_values
}

#[test]
fn test_compress_store_u() {
    let input_slice: Vec<i64> = vec![1, 2, 3, 4, 5, 6, 7, 8, 9, 10];
    let first = <Simd8<i64> as SimdCompare<i64>>::loadu(&input_slice, 0);
    for i in 0..255usize {
        let new_values = generate_mask_answer(i, &input_slice);
        let mask = i as u8;
        let mut new_array = input_slice.clone();
        <Simd8<i64> as SimdCompare<i64>>::mask_compressstoreu(&mut new_array, 2, mask, first);
        for j in 0..i.count_ones() as usize {
            assert_eq!(new_array[2 + j], new_values[j]);
        }
        for j in i.count_ones() as usize..8 {
            assert_eq!(new_array[2 + j], input_slice[2 + j]);
        }
    }
}

#[test]
fn test_shuffle1_1_1_1() {
    let first = from_array([1, 2, 3, 4, 5, 6, 7, 8]);
    assert_eq!(
        into_array(<Simd8<i64> as Bit64Simd<i64>>::shuffle1_1_1_1(first)),
        [2, 1, 4, 3, 6, 5, 8, 7]
    );
}

#[test]
fn test_count_ones() {
    for i in 0u8..8 {
        assert_eq!(
            <Simd8<i64> as SimdCompare<i64>>::ones_count(i),
            i.count_ones() as usize
        );
    }
}

#[test]
fn test_swizzle2_0xaa() {
    let first = from_array([1, 2, 3, 4, 5, 6, 7, 8]);
    let second = from_array([10, 20, 30, 40, 50, 60, 70, 80]);
    assert_eq!(
        into_array(<Simd8<i64> as Bit64Simd<i64>>::swizzle2_0xaa(first, second)),
        [1, 20, 3, 40, 5, 60, 7, 80]
    );
}

#[test]
fn test_swizzle2_0xcc() {
    let first = from_array([1, 2, 3, 4, 5, 6, 7, 8]);
    let second = from_array([10, 20, 30, 40, 50, 60, 70, 80]);
    assert_eq!(
        into_array(<Simd8<i64> as Bit64Simd<i64>>::swizzle2_0xcc(first, second)),
        [1, 2, 30, 40, 5, 6, 70, 80]
    );
}

#[test]
fn test_swizzle2_0xf0() {
    let first = from_array([1, 2, 3, 4, 5, 6, 7, 8]);
    let second = from_array([10, 20, 30, 40, 50, 60, 70, 80]);
    assert_eq!(
        into_array(<Simd8<i64> as Bit64Simd<i64>>::swizzle2_0xf0(first, second)),
        [1, 2, 3, 4, 50, 60, 70, 80]
    );
}

#[test]
fn test_network64bit1() {
    let first = from_array([1, 2, 3, 4, 5, 6, 7, 8]);
    assert_eq!(
        into_array(<Simd8<i64> as Bit64Simd<i64>>::network64bit1(first)),
        [4, 3, 2, 1, 8, 7, 6, 5]
    );
}

#[test]
fn test_network64bit2() {
    let first = from_array([1, 2, 3, 4, 5, 6, 7, 8]);
    assert_eq!(
        into_array(<Simd8<i64> as Bit64Simd<i64>>::network64bit2(first)),
        [8, 7, 6, 5, 4, 3, 2, 1]
    );
}

#[test]
fn test_network64bit3() {
    let first = from_array([1, 2, 3, 4, 5, 6, 7, 8]);
    assert_eq!(
        into_array(<Simd8<i64> as Bit64Simd<i64>>::network64bit3(first)),
        [3, 4, 1, 2, 7, 8, 5, 6]
    );
}

#[test]
fn test_network64bit4() {
    let first = from_array([1, 2, 3, 4, 5, 6, 7, 8]);
    assert_eq!(
        into_array(<Simd8<i64> as Bit64Simd<i64>>::network64bit4(first)),
        [5, 6, 7, 8, 1, 2, 3, 4]
    );
}

#[test]
fn test_elem_ops() {
    assert!(3i64.elem_lt(5));
    assert!(!(5i64).elem_lt(3));
    assert!(7i64.elem_eq(7));
    assert_eq!(<i64 as SimdSortable>::max_value(), i64::MAX);
    assert_eq!(<u64 as SimdSortable>::min_value(), 0);
}

#[test]
fn test_count_ones_all_patterns() {
    for i in 0u16..256 {
        let m = i as u8;
        assert_eq!(
            <Simd8<i64> as SimdCompare<i64>>::ones_count(m),
            m.count_ones() as usize
        );
    }
}

#[test]
fn test_compress_store_full_mask() {
    let input_slice: Vec<i64> = vec![1, 2, 3, 4, 5, 6, 7, 8];
    let first = <Simd8<i64> as SimdCompare<i64>>::loadu(&input_slice, 0);
    let mut out: Vec<i64> = vec![0; 10];
    <Simd8<i64> as SimdCompare<i64>>::mask_compressstoreu(&mut out, 2, 255, first);
    assert_eq!(out, vec![0, 0, 1, 2, 3, 4, 5, 6, 7, 8]);
}
