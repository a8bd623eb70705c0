//! Entry points in the style of the 512-bit back-end: one flat eight-lane
//! register per logical vector, as a 512-bit register holds its lanes.

use vstd::prelude::*;

verus! {

use crate::platform::portable::Simd8;

/// Sort a sequence of signed 64-bit integers in place, ascending.
pub fn avx512_sort_i64(data: &mut Vec<i64>)
    ensures
        final(data).len() == old(data).len(),
        crate::bitonic::ascending(crate::bitonic::keys_of(final(data)@)),
        final(data)@.to_multiset() == old(data)@.to_multiset(),
{
    let n = data.len();
    let budget = crate::bit_64::floor_log2(n);
    crate::bit_64::qsort_64bit_::<i64, Simd8<i64>>(data, 0, n, budget);
    proof {
        assert(data@.subrange(0, n as int) =~= data@);
        assert(old(data)@.subrange(0, n as int) =~= old(data)@);
    }
}

/// Sort a sequence of unsigned 64-bit integers in place, ascending.
pub fn avx512_sort_u64(data: &mut Vec<u64>)
    ensures
        final(data).len() == old(data).len(),
        crate::bitonic::ascending(crate::bitonic::keys_of(final(data)@)),
        final(data)@.to_multiset() == old(data)@.to_multiset(),
{
    let n = data.len();
    let budget = crate::bit_64::floor_log2(n);
    crate::bit_64::qsort_64bit_::<u64, Simd8<u64>>(data, 0, n, budget);
    proof {
        assert(data@.subrange(0, n as int) =~= data@);
        assert(old(data)@.subrange(0, n as int) =~= old(data)@);
    }
}

} // verus!
