//! The per-back-end entry points and the top-level dispatch.

pub mod avx2;
pub mod avx512;
pub mod portable;
pub mod wasm;

use vstd::prelude::*;

verus! {

use crate::masks::{popcnt8, compress_from};
use crate::platform::portable::Simd8;
use crate::SimdCompare;

/// Sort a sequence of signed 64-bit integers in place, ascending.
pub fn sort_i64(data: &mut Vec<i64>)
    ensures
        final(data).len() == old(data).len(),
        crate::bitonic::ascending(crate::bitonic::keys_of(final(data)@)),
        final(data)@.to_multiset() == old(data)@.to_multiset(),
{
    avx512::avx512_sort_i64(data);
}

/// Compress-store the first eight elements of `input`: the lanes `mask`
/// selects are written, packed, to the front of `output`.
pub fn compress_store_i64(input: &Vec<i64>, output: &mut Vec<i64>, mask: u8)
    requires
        input.len() >= 8,
        popcnt8(mask) <= old(output).len(),
    ensures
        final(output).len() == old(output).len(),
        final(output)@.subrange(0, popcnt8(mask)) == compress_from(
            input@.subrange(0, 8),
            mask,
            0,
        ),
        forall|j: int|
            popcnt8(mask) <= j < final(output).len() ==> final(output)[j] == old(output)[j],
{
    proof {
        crate::masks::lemma_popcnt_from_bounds(mask, 0);
    }
    let v = <Simd8<i64> as SimdCompare<i64>>::loadu(input, 0);
    <Simd8<i64> as SimdCompare<i64>>::mask_compressstoreu(output, 0, mask, v);
}

} // verus!
