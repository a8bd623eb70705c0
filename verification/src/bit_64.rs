//! The bitonic network kernels over 64-bit lanes: the fixed swizzle and
//! blend capability, the eight-lane sorting network, and the merging
//! networks for 2, 4, 8 and 16 vectors.

use vstd::prelude::*;

verus! {

use crate::{SimdCompare, SimdSortable};

/// Marker for the 64-bit element types the kernels handle.
pub trait Bit64Element: SimdSortable {
}

impl Bit64Element for u64 {
}

impl Bit64Element for i64 {
}

/// The fixed permutations and blends that the 64-bit bitonic networks use.
///
/// In each `swizzle2` blend, bit `i` of the named constant selects lane `i`
/// of `b` when set, of `a` when clear.
pub trait Bit64Simd<T: Bit64Element>: SimdCompare<T> {
    /// Blend by 0b10101010.
    fn swizzle2_0xaa(a: Self, b: Self) -> (r: Self)
        ensures
            r.lanes().len() == 8,
            forall|i: int|
                0 <= i < 8 ==> #[trigger] r.lanes()[i] == (if i % 2 == 1 {
                    b.lanes()[i]
                } else {
                    a.lanes()[i]
                }),
    ;

    /// Blend by 0b11001100.
    fn swizzle2_0xcc(a: Self, b: Self) -> (r: Self)
        ensures
            r.lanes().len() == 8,
            forall|i: int|
                0 <= i < 8 ==> #[trigger] r.lanes()[i] == (if i % 4 >= 2 {
                    b.lanes()[i]
                } else {
                    a.lanes()[i]
                }),
    ;

    /// Blend by 0b11110000.
    fn swizzle2_0xf0(a: Self, b: Self) -> (r: Self)
        ensures
            r.lanes().len() == 8,
            forall|i: int|
                0 <= i < 8 ==> #[trigger] r.lanes()[i] == (if i >= 4 {
                    b.lanes()[i]
                } else {
                    a.lanes()[i]
                }),
    ;

    /// Swap adjacent lanes: lane order [1, 0, 3, 2, 5, 4, 7, 6].
    fn shuffle1_1_1_1(a: Self) -> (r: Self)
        ensures
            r.lanes().len() == 8,
            forall|i: int|
                0 <= i < 8 ==> #[trigger] r.lanes()[i] == a.lanes()[if i % 2 == 0 {
                    i + 1
                } else {
                    i - 1
                }],
    ;

    /// Reverse each four-lane half: lane order [3, 2, 1, 0, 7, 6, 5, 4].
    fn network64bit1(a: Self) -> (r: Self)
        ensures
            r.lanes().len() == 8,
            forall|i: int|
                0 <= i < 8 ==> #[trigger] r.lanes()[i] == a.lanes()[if i < 4 {
                    3 - i
                } else {
                    11 - i
                }],
    ;

    /// Full reverse: lane order [7, 6, 5, 4, 3, 2, 1, 0].
    fn network64bit2(a: Self) -> (r: Self)
        ensures
            r.lanes().len() == 8,
            forall|i: int| 0 <= i < 8 ==> #[trigger] r.lanes()[i] == a.lanes()[7 - i],
    ;

    /// Swap adjacent lane pairs: lane order [2, 3, 0, 1, 6, 7, 4, 5].
    fn network64bit3(a: Self) -> (r: Self)
        ensures
            r.lanes().len() == 8,
            forall|i: int|
                0 <= i < 8 ==> #[trigger] r.lanes()[i] == a.lanes()[if i % 4 < 2 {
                    i + 2
                } else {
                    i - 2
                }],
    ;

    /// Swap the four-lane halves: lane order [4, 5, 6, 7, 0, 1, 2, 3].
    fn network64bit4(a: Self) -> (r: Self)
        ensures
            r.lanes().len() == 8,
            forall|i: int|
                0 <= i < 8 ==> #[trigger] r.lanes()[i] == a.lanes()[if i < 4 {
                    i + 4
                } else {
                    i - 4
                }],
    ;
}


/// One network pass: compare-exchange adjacent lanes.
#[verifier::rlimit(100)]
fn pass_adjacent<T: Bit64Element, U: Bit64Simd<T>>(v: U) -> (r: U)
    ensures
        r.lanes().len() == 8,
        (r.lanes()[0] == v.lanes()[0] && r.lanes()[1] == v.lanes()[1]) || (r.lanes()[0]
            == v.lanes()[1] && r.lanes()[1] == v.lanes()[0]),
        r.lanes()[0].key() == vstd::math::min(v.lanes()[0].key(), v.lanes()[1].key()),
        r.lanes()[1].key() == vstd::math::max(v.lanes()[0].key(), v.lanes()[1].key()),
        (r.lanes()[2] == v.lanes()[2] && r.lanes()[3] == v.lanes()[3]) || (r.lanes()[2]
            == v.lanes()[3] && r.lanes()[3] == v.lanes()[2]),
        r.lanes()[2].key() == vstd::math::min(v.lanes()[2].key(), v.lanes()[3].key()),
        r.lanes()[3].key() == vstd::math::max(v.lanes()[2].key(), v.lanes()[3].key()),
        (r.lanes()[4] == v.lanes()[4] && r.lanes()[5] == v.lanes()[5]) || (r.lanes()[4]
            == v.lanes()[5] && r.lanes()[5] == v.lanes()[4]),
        r.lanes()[4].key() == vstd::math::min(v.lanes()[4].key(), v.lanes()[5].key()),
        r.lanes()[5].key() == vstd::math::max(v.lanes()[4].key(), v.lanes()[5].key()),
        (r.lanes()[6] == v.lanes()[6] && r.lanes()[7] == v.lanes()[7]) || (r.lanes()[6]
            == v.lanes()[7] && r.lanes()[7] == v.lanes()[6]),
        r.lanes()[6].key() == vstd::math::min(v.lanes()[6].key(), v.lanes()[7].key()),
        r.lanes()[7].key() == vstd::math::max(v.lanes()[6].key(), v.lanes()[7].key()),
        r.lanes().to_multiset() == v.lanes().to_multiset(),
{
    proof {
        v.lanes_len();
    }
    let r = crate::cmp_merge(v, U::shuffle1_1_1_1(v), crate::BlendPattern::Aa);
    proof {
        crate::lemma_comparator(v.lanes()[0], v.lanes()[1], r.lanes()[0], r.lanes()[1]);
        crate::lemma_comparator(v.lanes()[2], v.lanes()[3], r.lanes()[2], r.lanes()[3]);
        crate::lemma_comparator(v.lanes()[4], v.lanes()[5], r.lanes()[4], r.lanes()[5]);
        crate::lemma_comparator(v.lanes()[6], v.lanes()[7], r.lanes()[6], r.lanes()[7]);
        assert forall|x: T| crate::bitonic::occ8(r.lanes(), x) == crate::bitonic::occ8(
            v.lanes(),
            x,
        ) by {}
        crate::bitonic::lemma_multiset_eq8(r.lanes(), v.lanes());
    }
    r
}

/// One network pass: compare-exchange lane i with lane 3 - i in each quad.
#[verifier::rlimit(100)]
fn pass_quad_reverse<T: Bit64Element, U: Bit64Simd<T>>(v: U) -> (r: U)
    ensures
        r.lanes().len() == 8,
        (r.lanes()[0] == v.lanes()[0] && r.lanes()[3] == v.lanes()[3]) || (r.lanes()[0]
            == v.lanes()[3] && r.lanes()[3] == v.lanes()[0]),
        r.lanes()[0].key() == vstd::math::min(v.lanes()[0].key(), v.lanes()[3].key()),
        r.lanes()[3].key() == vstd::math::max(v.lanes()[0].key(), v.lanes()[3].key()),
        (r.lanes()[1] == v.lanes()[1] && r.lanes()[2] == v.lanes()[2]) || (r.lanes()[1]
            == v.lanes()[2] && r.lanes()[2] == v.lanes()[1]),
        r.lanes()[1].key() == vstd::math::min(v.lanes()[1].key(), v.lanes()[2].key()),
        r.lanes()[2].key() == vstd::math::max(v.lanes()[1].key(), v.lanes()[2].key()),
        (r.lanes()[4] == v.lanes()[4] && r.lanes()[7] == v.lanes()[7]) || (r.lanes()[4]
            == v.lanes()[7] && r.lanes()[7] == v.lanes()[4]),
        r.lanes()[4].key() == vstd::math::min(v.lanes()[4].key(), v.lanes()[7].key()),
        r.lanes()[7].key() == vstd::math::max(v.lanes()[4].key(), v.lanes()[7].key()),
        (r.lanes()[5] == v.lanes()[5] && r.lanes()[6] == v.lanes()[6]) || (r.lanes()[5]
            == v.lanes()[6] && r.lanes()[6] == v.lanes()[5]),
        r.lanes()[5].key() == vstd::math::min(v.lanes()[5].key(), v.lanes()[6].key()),
        r.lanes()[6].key() == vstd::math::max(v.lanes()[5].key(), v.lanes()[6].key()),
        r.lanes().to_multiset() == v.lanes().to_multiset(),
{
    proof {
        v.lanes_len();
    }
    let r = crate::cmp_merge(v, U::network64bit1(v), crate::BlendPattern::Cc);
    proof {
        crate::lemma_comparator(v.lanes()[0], v.lanes()[3], r.lanes()[0], r.lanes()[3]);
        crate::lemma_comparator(v.lanes()[1], v.lanes()[2], r.lanes()[1], r.lanes()[2]);
        crate::lemma_comparator(v.lanes()[4], v.lanes()[7], r.lanes()[4], r.lanes()[7]);
        crate::lemma_comparator(v.lanes()[5], v.lanes()[6], r.lanes()[5], r.lanes()[6]);
        assert forall|x: T| crate::bitonic::occ8(r.lanes(), x) == crate::bitonic::occ8(
            v.lanes(),
            x,
        ) by {}
        crate::bitonic::lemma_multiset_eq8(r.lanes(), v.lanes());
    }
    r
}

/// One network pass: compare-exchange lane i with lane i + 2 in each quad.
#[verifier::rlimit(100)]
fn pass_pair_swap<T: Bit64Element, U: Bit64Simd<T>>(v: U) -> (r: U)
    ensures
        r.lanes().len() == 8,
        (r.lanes()[0] == v.lanes()[0] && r.lanes()[2] == v.lanes()[2]) || (r.lanes()[0]
            == v.lanes()[2] && r.lanes()[2] == v.lanes()[0]),
        r.lanes()[0].key() == vstd::math::min(v.lanes()[0].key(), v.lanes()[2].key()),
        r.lanes()[2].key() == vstd::math::max(v.lanes()[0].key(), v.lanes()[2].key()),
        (r.lanes()[1] == v.lanes()[1] && r.lanes()[3] == v.lanes()[3]) || (r.lanes()[1]
            == v.lanes()[3] && r.lanes()[3] == v.lanes()[1]),
        r.lanes()[1].key() == vstd::math::min(v.lanes()[1].key(), v.lanes()[3].key()),
        r.lanes()[3].key() == vstd::math::max(v.lanes()[1].key(), v.lanes()[3].key()),
        (r.lanes()[4] == v.lanes()[4] && r.lanes()[6] == v.lanes()[6]) || (r.lanes()[4]
            == v.lanes()[6] && r.lanes()[6] == v.lanes()[4]),
        r.lanes()[4].key() == vstd::math::min(v.lanes()[4].key(), v.lanes()[6].key()),
        r.lanes()[6].key() == vstd::math::max(v.lanes()[4].key(), v.lanes()[6].key()),
        (r.lanes()[5] == v.lanes()[5] && r.lanes()[7] == v.lanes()[7]) || (r.lanes()[5]
            == v.lanes()[7] && r.lanes()[7] == v.lanes()[5]),
        r.lanes()[5].key() == vstd::math::min(v.lanes()[5].key(), v.lanes()[7].key()),
        r.lanes()[7].key() == vstd::math::max(v.lanes()[5].key(), v.lanes()[7].key()),
        r.lanes().to_multiset() == v.lanes().to_multiset(),
{
    proof {
        v.lanes_len();
    }
    let r = crate::cmp_merge(v, U::network64bit3(v), crate::BlendPattern::Cc);
    proof {
        crate::lemma_comparator(v.lanes()[0], v.lanes()[2], r.lanes()[0], r.lanes()[2]);
        crate::lemma_comparator(v.lanes()[1], v.lanes()[3], r.lanes()[1], r.lanes()[3]);
        crate::lemma_comparator(v.lanes()[4], v.lanes()[6], r.lanes()[4], r.lanes()[6]);
        crate::lemma_comparator(v.lanes()[5], v.lanes()[7], r.lanes()[5], r.lanes()[7]);
        assert forall|x: T| crate::bitonic::occ8(r.lanes(), x) == crate::bitonic::occ8(
            v.lanes(),
            x,
        ) by {}
        crate::bitonic::lemma_multiset_eq8(r.lanes(), v.lanes());
    }
    r
}

/// One network pass: compare-exchange lane i with lane 7 - i.
#[verifier::rlimit(100)]
fn pass_full_reverse<T: Bit64Element, U: Bit64Simd<T>>(v: U) -> (r: U)
    ensures
        r.lanes().len() == 8,
        (r.lanes()[0] == v.lanes()[0] && r.lanes()[7] == v.lanes()[7]) || (r.lanes()[0]
            == v.lanes()[7] && r.lanes()[7] == v.lanes()[0]),
        r.lanes()[0].key() == vstd::math::min(v.lanes()[0].key(), v.lanes()[7].key()),
        r.lanes()[7].key() == vstd::math::max(v.lanes()[0].key(), v.lanes()[7].key()),
        (r.lanes()[1] == v.lanes()[1] && r.lanes()[6] == v.lanes()[6]) || (r.lanes()[1]
            == v.lanes()[6] && r.lanes()[6] == v.lanes()[1]),
        r.lanes()[1].key() == vstd::math::min(v.lanes()[1].key(), v.lanes()[6].key()),
        r.lanes()[6].key() == vstd::math::max(v.lanes()[1].key(), v.lanes()[6].key()),
        (r.lanes()[2] == v.lanes()[2] && r.lanes()[5] == v.lanes()[5]) || (r.lanes()[2]
            == v.lanes()[5] && r.lanes()[5] == v.lanes()[2]),
        r.lanes()[2].key() == vstd::math::min(v.lanes()[2].key(), v.lanes()[5].key()),
        r.lanes()[5].key() == vstd::math::max(v.lanes()[2].key(), v.lanes()[5].key()),
        (r.lanes()[3] == v.lanes()[3] && r.lanes()[4] == v.lanes()[4]) || (r.lanes()[3]
            == v.lanes()[4] && r.lanes()[4] == v.lanes()[3]),
        r.lanes()[3].key() == vstd::math::min(v.lanes()[3].key(), v.lanes()[4].key()),
        r.lanes()[4].key() == vstd::math::max(v.lanes()[3].key(), v.lanes()[4].key()),
        r.lanes().to_multiset() == v.lanes().to_multiset(),
{
    proof {
        v.lanes_len();
    }
    let r = crate::cmp_merge(v, U::network64bit2(v), crate::BlendPattern::F0);
    proof {
        crate::lemma_comparator(v.lanes()[0], v.lanes()[7], r.lanes()[0], r.lanes()[7]);
        crate::lemma_comparator(v.lanes()[1], v.lanes()[6], r.lanes()[1], r.lanes()[6]);
        crate::lemma_comparator(v.lanes()[2], v.lanes()[5], r.lanes()[2], r.lanes()[5]);
        crate::lemma_comparator(v.lanes()[3], v.lanes()[4], r.lanes()[3], r.lanes()[4]);
        assert forall|x: T| crate::bitonic::occ8(r.lanes(), x) == crate::bitonic::occ8(
            v.lanes(),
            x,
        ) by {}
        crate::bitonic::lemma_multiset_eq8(r.lanes(), v.lanes());
    }
    r
}

/// One network pass: compare-exchange lane i with lane i + 4.
#[verifier::rlimit(100)]
fn pass_half_swap<T: Bit64Element, U: Bit64Simd<T>>(v: U) -> (r: U)
    ensures
        r.lanes().len() == 8,
        (r.lanes()[0] == v.lanes()[0] && r.lanes()[4] == v.lanes()[4]) || (r.lanes()[0]
            == v.lanes()[4] && r.lanes()[4] == v.lanes()[0]),
        r.lanes()[0].key() == vstd::math::min(v.lanes()[0].key(), v.lanes()[4].key()),
        r.lanes()[4].key() == vstd::math::max(v.lanes()[0].key(), v.lanes()[4].key()),
        (r.lanes()[1] == v.lanes()[1] && r.lanes()[5] == v.lanes()[5]) || (r.lanes()[1]
            == v.lanes()[5] && r.lanes()[5] == v.lanes()[1]),
        r.lanes()[1].key() == vstd::math::min(v.lanes()[1].key(), v.lanes()[5].key()),
        r.lanes()[5].key() == vstd::math::max(v.lanes()[1].key(), v.lanes()[5].key()),
        (r.lanes()[2] == v.lanes()[2] && r.lanes()[6] == v.lanes()[6]) || (r.lanes()[2]
            == v.lanes()[6] && r.lanes()[6] == v.lanes()[2]),
        r.lanes()[2].key() == vstd::math::min(v.lanes()[2].key(), v.lanes()[6].key()),
        r.lanes()[6].key() == vstd::math::max(v.lanes()[2].key(), v.lanes()[6].key()),
        (r.lanes()[3] == v.lanes()[3] && r.lanes()[7] == v.lanes()[7]) || (r.lanes()[3]
            == v.lanes()[7] && r.lanes()[7] == v.lanes()[3]),
        r.lanes()[3].key() == vstd::math::min(v.lanes()[3].key(), v.lanes()[7].key()),
        r.lanes()[7].key() == vstd::math::max(v.lanes()[3].key(), v.lanes()[7].key()),
        r.lanes().to_multiset() == v.lanes().to_multiset(),
{
    proof {
        v.lanes_len();
    }
    let r = crate::cmp_merge(v, U::network64bit4(v), crate::BlendPattern::F0);
    proof {
        crate::lemma_comparator(v.lanes()[0], v.lanes()[4], r.lanes()[0], r.lanes()[4]);
        crate::lemma_comparator(v.lanes()[1], v.lanes()[5], r.lanes()[1], r.lanes()[5]);
        crate::lemma_comparator(v.lanes()[2], v.lanes()[6], r.lanes()[2], r.lanes()[6]);
        crate::lemma_comparator(v.lanes()[3], v.lanes()[7], r.lanes()[3], r.lanes()[7]);
        assert forall|x: T| crate::bitonic::occ8(r.lanes(), x) == crate::bitonic::occ8(
            v.lanes(),
            x,
        ) by {}
        crate::bitonic::lemma_multiset_eq8(r.lanes(), v.lanes());
    }
    r
}

/// The last two half-cleaner passes: once the two four-lane quads are each
/// bitonic and every lane of the first is at most every lane of the second,
/// they leave the whole vector sorted.
#[verifier::rlimit(100)]
fn clean_quads_64bit<T: Bit64Element, U: Bit64Simd<T>>(v: U) -> (r: U)
    requires
        v.lanes().len() == 8,
        crate::bitonic::bitonic(crate::bitonic::keys_of(v.lanes()).subrange(0, 4)),
        crate::bitonic::bitonic(crate::bitonic::keys_of(v.lanes()).subrange(4, 8)),
        forall|i: int, j: int|
            0 <= i < 4 <= j < 8 ==> (#[trigger] v.lanes()[i]).key() <= (
            #[trigger] v.lanes()[j]).key(),
    ensures
        r.lanes().len() == 8,
        crate::bitonic::ascending(crate::bitonic::keys_of(r.lanes())),
        r.lanes().to_multiset() == v.lanes().to_multiset(),
{
    let z5 = pass_pair_swap(v);
    let z6 = pass_adjacent(z5);
    proof {
        let kv = crate::bitonic::keys_of(v.lanes());
        let h1 = kv.subrange(0, 4);
        let h2 = kv.subrange(4, 8);
        crate::bitonic::lemma_half_cleaner(h1, 2);
        crate::bitonic::lemma_half_cleaner(h2, 2);
        let lo1 = crate::bitonic::clean_lo(h1, 2);
        let hi1 = crate::bitonic::clean_hi(h1, 2);
        let lo2 = crate::bitonic::clean_lo(h2, 2);
        let hi2 = crate::bitonic::clean_hi(h2, 2);
        assert(z5.lanes()[0].key() == lo1[0] && z5.lanes()[1].key() == lo1[1]);
        assert(z5.lanes()[2].key() == hi1[0] && z5.lanes()[3].key() == hi1[1]);
        assert(z5.lanes()[4].key() == lo2[0] && z5.lanes()[5].key() == lo2[1]);
        assert(z5.lanes()[6].key() == hi2[0] && z5.lanes()[7].key() == hi2[1]);
        assert(lo1[0] <= hi1[0] && lo1[0] <= hi1[1] && lo1[1] <= hi1[0] && lo1[1] <= hi1[1]);
        assert(lo2[0] <= hi2[0] && lo2[0] <= hi2[1] && lo2[1] <= hi2[0] && lo2[1] <= hi2[1]);
        assert(z6.lanes()[0].key() <= z6.lanes()[1].key());
        assert(z6.lanes()[1].key() <= z6.lanes()[2].key());
        assert(z6.lanes()[2].key() <= z6.lanes()[3].key());
        assert(z6.lanes()[3].key() <= z6.lanes()[4].key());
        assert(z6.lanes()[4].key() <= z6.lanes()[5].key());
        assert(z6.lanes()[5].key() <= z6.lanes()[6].key());
        assert(z6.lanes()[6].key() <= z6.lanes()[7].key());
        let ks = crate::bitonic::keys_of(z6.lanes());
        assert(forall|i: int| 0 <= i < ks.len() - 1 ==> #[trigger] ks[i] <= ks[i + 1]);
        crate::bitonic::lemma_adjacent_ascending(ks);
    }
    z6
}

/// Half-clean a register whose lanes form a bitonic sequence: the result is
/// sorted ascending and a permutation of the input.
#[verifier::rlimit(100)]
pub fn bitonic_merge_zmm_64bit<T: Bit64Element, U: Bit64Simd<T>>(zmm: U) -> (r: U)
    requires
        crate::bitonic::bitonic(crate::bitonic::keys_of(zmm.lanes())),
    ensures
        r.lanes().len() == 8,
        crate::bitonic::ascending(crate::bitonic::keys_of(r.lanes())),
        r.lanes().to_multiset() == zmm.lanes().to_multiset(),
{
    proof {
        zmm.lanes_len();
    }
    let z4 = pass_half_swap(zmm);
    proof {
        let k = crate::bitonic::keys_of(zmm.lanes());
        crate::bitonic::lemma_half_cleaner(k, 4);
        let lo = crate::bitonic::clean_lo(k, 4);
        let hi = crate::bitonic::clean_hi(k, 4);
        assert(z4.lanes()[0].key() == lo[0] && z4.lanes()[1].key() == lo[1] && z4.lanes()[2].key()
            == lo[2] && z4.lanes()[3].key() == lo[3]);
        assert(z4.lanes()[4].key() == hi[0] && z4.lanes()[5].key() == hi[1] && z4.lanes()[6].key()
            == hi[2] && z4.lanes()[7].key() == hi[3]);
        let k4 = crate::bitonic::keys_of(z4.lanes());
        assert(k4.subrange(0, 4) =~= lo);
        assert(k4.subrange(4, 8) =~= hi);
    }
    let r = clean_quads_64bit(z4);
    r
}

/// The first three passes of the eight-lane network: they sort each
/// four-lane quad ascending.
#[verifier::rlimit(100)]
fn sort_quads_64bit<T: Bit64Element, U: Bit64Simd<T>>(zmm: U) -> (r: U)
    ensures
        r.lanes().len() == 8,
        r.lanes()[0].key() <= r.lanes()[1].key(),
        r.lanes()[1].key() <= r.lanes()[2].key(),
        r.lanes()[2].key() <= r.lanes()[3].key(),
        r.lanes()[4].key() <= r.lanes()[5].key(),
        r.lanes()[5].key() <= r.lanes()[6].key(),
        r.lanes()[6].key() <= r.lanes()[7].key(),
        r.lanes().to_multiset() == zmm.lanes().to_multiset(),
{
    proof {
        zmm.lanes_len();
    }
    let z1 = pass_adjacent(zmm);
    let z2 = pass_quad_reverse(z1);
    let z3 = pass_adjacent(z2);
    z3
}

/// Sort the eight lanes ascending with the six-pass bitonic network.
#[verifier::rlimit(100)]
pub fn sort_zmm_64bit<T: Bit64Element, U: Bit64Simd<T>>(zmm: U) -> (r: U)
    ensures
        r.lanes().len() == 8,
        crate::bitonic::ascending(crate::bitonic::keys_of(r.lanes())),
        r.lanes().to_multiset() == zmm.lanes().to_multiset(),
{
    let z3 = sort_quads_64bit(zmm);
    let z4 = pass_full_reverse(z3);
    proof {
        // The fourth pass pairs lane i with lane 7 - i: it half-cleans the
        // bitonic sequence made of the first quad followed by the reversed
        // second quad, leaving the maxima quad reversed in the upper lanes.
        let k3 = crate::bitonic::keys_of(z3.lanes());
        let w = k3.subrange(0, 4) + k3.subrange(4, 8).reverse();
        assert(w.len() == 8);
        assert(forall|i: int| 0 <= i < 4 ==> w[i] == (#[trigger] z3.lanes()[i]).key());
        assert(forall|i: int| 4 <= i < 8 ==> w[i] == (#[trigger] z3.lanes()[11 - i]).key());
        assert(forall|i: int, j: int| 0 <= i <= j < 4 ==> w[i] <= w[j]);
        assert(forall|i: int, j: int| 4 <= i <= j < 8 ==> w[i] >= w[j]);
        crate::bitonic::lemma_asc_desc_valley_free(w, 4);
        crate::bitonic::lemma_valley_free_bitonic(w);
        crate::bitonic::lemma_half_cleaner(w, 4);
        let lo = crate::bitonic::clean_lo(w, 4);
        let hi = crate::bitonic::clean_hi(w, 4);
        assert(z4.lanes()[0].key() == lo[0] && z4.lanes()[1].key() == lo[1] && z4.lanes()[2].key()
            == lo[2] && z4.lanes()[3].key() == lo[3]);
        assert(z4.lanes()[4].key() == hi[3] && z4.lanes()[5].key() == hi[2] && z4.lanes()[6].key()
            == hi[1] && z4.lanes()[7].key() == hi[0]);
        let k4 = crate::bitonic::keys_of(z4.lanes());
        assert(k4.subrange(0, 4) =~= lo);
        assert(k4.subrange(4, 8) =~= hi.reverse());
        crate::bitonic::lemma_reverse_bitonic(hi);
    }
    let r = clean_quads_64bit(z4);
    r
}


/// Clean and sort a bitonic sequence spread over two registers: lane-wise
/// minima and maxima, then a half-clean of each register.
#[verifier::rlimit(100)]
fn clean_pair_64bit<T: Bit64Element, U: Bit64Simd<T>>(a: U, b: U) -> (r: (U, U))
    requires
        a.lanes().len() == 8,
        b.lanes().len() == 8,
        crate::bitonic::bitonic(crate::bitonic::keys_of(a.lanes() + b.lanes())),
    ensures
        r.0.lanes().len() == 8,
        r.1.lanes().len() == 8,
        crate::bitonic::ascending(crate::bitonic::keys_of(r.0.lanes() + r.1.lanes())),
        (r.0.lanes() + r.1.lanes()).to_multiset() == (a.lanes() + b.lanes()).to_multiset(),
{
    let lov = U::min(a, b);
    let hiv = U::max(a, b);
    proof {
        crate::lemma_coex_pair(a.lanes()[0], b.lanes()[0], lov.lanes()[0], hiv.lanes()[0]);
        crate::lemma_coex_pair(a.lanes()[1], b.lanes()[1], lov.lanes()[1], hiv.lanes()[1]);
        crate::lemma_coex_pair(a.lanes()[2], b.lanes()[2], lov.lanes()[2], hiv.lanes()[2]);
        crate::lemma_coex_pair(a.lanes()[3], b.lanes()[3], lov.lanes()[3], hiv.lanes()[3]);
        crate::lemma_coex_pair(a.lanes()[4], b.lanes()[4], lov.lanes()[4], hiv.lanes()[4]);
        crate::lemma_coex_pair(a.lanes()[5], b.lanes()[5], lov.lanes()[5], hiv.lanes()[5]);
        crate::lemma_coex_pair(a.lanes()[6], b.lanes()[6], lov.lanes()[6], hiv.lanes()[6]);
        crate::lemma_coex_pair(a.lanes()[7], b.lanes()[7], lov.lanes()[7], hiv.lanes()[7]);
        let w = crate::bitonic::keys_of(a.lanes() + b.lanes());
        crate::bitonic::lemma_half_cleaner(w, 8);
        assert(crate::bitonic::keys_of(lov.lanes()) =~= crate::bitonic::clean_lo(w, 8));
        assert(crate::bitonic::keys_of(hiv.lanes()) =~= crate::bitonic::clean_hi(w, 8));
    }
    let r0 = bitonic_merge_zmm_64bit(lov);
    let r1 = bitonic_merge_zmm_64bit(hiv);
    proof {
        let w = crate::bitonic::keys_of(a.lanes() + b.lanes());
        assert forall|i: int, j: int|
            0 <= i < 8 && 0 <= j < 8 implies (#[trigger] lov.lanes()[i]).key() <= (
        #[trigger] hiv.lanes()[j]).key() by {
            assert(crate::bitonic::clean_lo(w, 8)[i] <= crate::bitonic::clean_hi(w, 8)[j]);
        }
        crate::bitonic::lemma_key_dom_perm(lov.lanes(), hiv.lanes(), r0.lanes(), r1.lanes());
        assert forall|i: int, j: int|
            0 <= i < 8 && 0 <= j < 8 implies #[trigger] crate::bitonic::keys_of(r0.lanes())[i]
            <= #[trigger] crate::bitonic::keys_of(r1.lanes())[j] by {
            assert(crate::bitonic::keys_of(r0.lanes())[i] == r0.lanes()[i].key());
            assert(crate::bitonic::keys_of(r1.lanes())[j] == r1.lanes()[j].key());
        }
        crate::bitonic::lemma_concat_ascending(
            crate::bitonic::keys_of(r0.lanes()),
            crate::bitonic::keys_of(r1.lanes()),
        );
        crate::bitonic::lemma_keys_concat(r0.lanes(), r1.lanes());
        crate::bitonic::lemma_exchange_pair_multiset(
            a.lanes(),
            b.lanes(),
            lov.lanes(),
            hiv.lanes(),
        );
        vstd::seq_lib::lemma_multiset_commutative(a.lanes(), b.lanes());
        vstd::seq_lib::lemma_multiset_commutative(r0.lanes(), r1.lanes());
    }
    (r0, r1)
}

/// Merge two sorted registers: afterwards their sixteen lanes, read in
/// order, are sorted ascending and a permutation of what they held.
#[verifier::rlimit(100)]
pub fn bitonic_merge_two_zmm_64bit<T: Bit64Element, U: Bit64Simd<T>>(zmm1: &mut U, zmm2: &mut U)
    requires
        crate::bitonic::ascending(crate::bitonic::keys_of(old(zmm1).lanes())),
        crate::bitonic::ascending(crate::bitonic::keys_of(old(zmm2).lanes())),
    ensures
        final(zmm1).lanes().len() == 8,
        final(zmm2).lanes().len() == 8,
        crate::bitonic::ascending(
            crate::bitonic::keys_of(final(zmm1).lanes() + final(zmm2).lanes()),
        ),
        (final(zmm1).lanes() + final(zmm2).lanes()).to_multiset() == (old(zmm1).lanes() + old(
            zmm2,
        ).lanes()).to_multiset(),
{
    proof {
        (*zmm1).lanes_len();
        (*zmm2).lanes_len();
    }
    let ghost o1 = (*zmm1).lanes();
    let ghost o2 = (*zmm2).lanes();
    *zmm2 = U::network64bit2(*zmm2);
    proof {
        assert((*zmm2).lanes() =~= o2.reverse());
        let w = crate::bitonic::keys_of(o1 + o2.reverse());
        let k1 = crate::bitonic::keys_of(o1);
        let k2 = crate::bitonic::keys_of(o2);
        assert forall|i: int, j: int| 0 <= i <= j < 8 implies w[i] <= w[j] by {
            assert(w[i] == k1[i] && w[j] == k1[j]);
        }
        assert forall|i: int, j: int| 8 <= i <= j < 16 implies w[i] >= w[j] by {
            assert(w[i] == k2[15 - i] && w[j] == k2[15 - j]);
        }
        crate::bitonic::lemma_asc_desc_valley_free(w, 8);
        crate::bitonic::lemma_valley_free_bitonic(w);
    }
    let (r1, r2) = clean_pair_64bit(*zmm1, *zmm2);
    *zmm1 = r1;
    *zmm2 = r2;
    proof {
        o2.lemma_reverse_to_multiset();
        vstd::seq_lib::lemma_multiset_commutative(o1, o2);
        vstd::seq_lib::lemma_multiset_commutative(o1, o2.reverse());
    }
}


/// Merge two sorted 16-lane runs held in four registers: `zmm[0], zmm[1]`
/// sorted in lane order, and `zmm[2], zmm[3]` likewise.  Afterwards all 32
/// lanes, read in register order, are sorted ascending.
#[verifier::rlimit(100)]
pub fn bitonic_merge_four_zmm_64bit<T: Bit64Element, U: Bit64Simd<T>>(zmm: [U; 4]) -> (r: [U; 4])
    requires
        crate::bitonic::ascending(crate::bitonic::keys_of(zmm[0].lanes() + zmm[1].lanes())),
        crate::bitonic::ascending(crate::bitonic::keys_of(zmm[2].lanes() + zmm[3].lanes())),
    ensures
        forall|i: int| 0 <= i < 4 ==> (#[trigger] r[i].lanes()).len() == 8,
        crate::bitonic::ascending(
            crate::bitonic::keys_of(
                r[0].lanes() + r[1].lanes() + r[2].lanes() + r[3].lanes(),
            ),
        ),
        (r[0].lanes() + r[1].lanes() + r[2].lanes() + r[3].lanes()).to_multiset() == (
        zmm[0].lanes() + zmm[1].lanes() + zmm[2].lanes() + zmm[3].lanes()).to_multiset(),
{
    proof {
        zmm[0].lanes_len();
        zmm[1].lanes_len();
        zmm[2].lanes_len();
        zmm[3].lanes_len();
    }
    let z2r = U::network64bit2(zmm[2]);
    let z3r = U::network64bit2(zmm[3]);
    let t1 = U::min(zmm[0], z3r);
    let t2 = U::min(zmm[1], z2r);
    let m1 = U::max(zmm[0], z3r);
    let m2 = U::max(zmm[1], z2r);
    let t3 = U::network64bit2(m2);
    let t4 = U::network64bit2(m1);
    proof {
        lemma_top_clean_four(
            zmm[0].lanes(),
            zmm[1].lanes(),
            zmm[2].lanes(),
            zmm[3].lanes(),
            z2r.lanes(),
            z3r.lanes(),
            t1.lanes(),
            t2.lanes(),
            m1.lanes(),
            m2.lanes(),
            t3.lanes(),
            t4.lanes(),
        );
    }
    let (r0, r1) = clean_pair_64bit(t1, t2);
    let (r2, r3) = clean_pair_64bit(t3, t4);
    proof {
        let lo = t1.lanes() + t2.lanes();
        let hi = t3.lanes() + t4.lanes();
        let fa = r0.lanes() + r1.lanes();
        let fb = r2.lanes() + r3.lanes();
        crate::bitonic::lemma_key_dom_perm(lo, hi, fa, fb);
        assert forall|i: int, j: int|
            0 <= i < fa.len() && 0 <= j < fb.len() implies #[trigger] crate::bitonic::keys_of(
            fa,
        )[i] <= #[trigger] crate::bitonic::keys_of(fb)[j] by {
            assert(crate::bitonic::keys_of(fa)[i] == fa[i].key());
            assert(crate::bitonic::keys_of(fb)[j] == fb[j].key());
        }
        crate::bitonic::lemma_concat_ascending(
            crate::bitonic::keys_of(fa),
            crate::bitonic::keys_of(fb),
        );
        crate::bitonic::lemma_keys_concat(fa, fb);
        assert(fa + fb =~= r0.lanes() + r1.lanes() + r2.lanes() + r3.lanes());
        // Multiset accounting: the top layer exchanged lanes pair-wise and
        // reversed registers; the cleaned pairs are permutations.
        vstd::seq_lib::lemma_multiset_commutative(fa, fb);
        vstd::seq_lib::lemma_multiset_commutative(lo, hi);
        assert((r0.lanes() + r1.lanes() + r2.lanes() + r3.lanes()).to_multiset() == (zmm[0].lanes()
            + zmm[1].lanes() + zmm[2].lanes() + zmm[3].lanes()).to_multiset()) by {
            assert((fa + fb).to_multiset() == (lo + hi).to_multiset());
            assert((lo + hi).to_multiset() == (zmm[0].lanes() + zmm[1].lanes() + zmm[2].lanes()
                + zmm[3].lanes()).to_multiset()) by {
                lemma_top_clean_four_multiset(
                    zmm[0].lanes(),
                    zmm[1].lanes(),
                    zmm[2].lanes(),
                    zmm[3].lanes(),
                    z2r.lanes(),
                    z3r.lanes(),
                    t1.lanes(),
                    t2.lanes(),
                    m1.lanes(),
                    m2.lanes(),
                    t3.lanes(),
                    t4.lanes(),
                );
            }
        }
    }
    let r = [r0, r1, r2, r3];
    r
}

/// The top compare layer of the four-register merge: the minima registers
/// hold a bitonic half, the reversed maxima registers the other, and every
/// minimum is at most every maximum.
#[verifier::rlimit(100)]
proof fn lemma_top_clean_four<T: Bit64Element>(
    z0: Seq<T>,
    z1: Seq<T>,
    z2: Seq<T>,
    z3: Seq<T>,
    z2r: Seq<T>,
    z3r: Seq<T>,
    t1: Seq<T>,
    t2: Seq<T>,
    m1: Seq<T>,
    m2: Seq<T>,
    t3: Seq<T>,
    t4: Seq<T>,
)
    requires
        z0.len() == 8 && z1.len() == 8 && z2.len() == 8 && z3.len() == 8,
        t1.len() == 8 && t2.len() == 8 && m1.len() == 8 && m2.len() == 8,
        t3.len() == 8 && t4.len() == 8,
        z2r.len() == 8 && z3r.len() == 8,
        crate::bitonic::ascending(crate::bitonic::keys_of(z0 + z1)),
        crate::bitonic::ascending(crate::bitonic::keys_of(z2 + z3)),
        forall|i: int| 0 <= i < 8 ==> #[trigger] z2r[i] == z2[7 - i],
        forall|i: int| 0 <= i < 8 ==> #[trigger] z3r[i] == z3[7 - i],
        forall|i: int|
            0 <= i < 8 ==> #[trigger] t1[i] == (if z0[i].key() <= z3r[i].key() {
                z0[i]
            } else {
                z3r[i]
            }),
        forall|i: int|
            0 <= i < 8 ==> #[trigger] m1[i] == (if z0[i].key() <= z3r[i].key() {
                z3r[i]
            } else {
                z0[i]
            }),
        forall|i: int|
            0 <= i < 8 ==> #[trigger] t2[i] == (if z1[i].key() <= z2r[i].key() {
                z1[i]
            } else {
                z2r[i]
            }),
        forall|i: int|
            0 <= i < 8 ==> #[trigger] m2[i] == (if z1[i].key() <= z2r[i].key() {
                z2r[i]
            } else {
                z1[i]
            }),
        forall|i: int| 0 <= i < 8 ==> #[trigger] t3[i] == m2[7 - i],
        forall|i: int| 0 <= i < 8 ==> #[trigger] t4[i] == m1[7 - i],
    ensures
        crate::bitonic::bitonic(crate::bitonic::keys_of(t1 + t2)),
        crate::bitonic::bitonic(crate::bitonic::keys_of(t3 + t4)),
        forall|i: int, j: int|
            0 <= i < 16 && 0 <= j < 16 ==> (#[trigger] (t1 + t2)[i]).key() <= (
            #[trigger] (t3 + t4)[j]).key(),
{
    let w = crate::bitonic::keys_of(z0 + z1 + z3r + z2r);
    let ka = crate::bitonic::keys_of(z0 + z1);
    let kb = crate::bitonic::keys_of(z2 + z3);
    assert(w.len() == 32);
    assert forall|i: int, j: int| 0 <= i <= j < 16 implies w[i] <= w[j] by {
        assert(w[i] == ka[i] && w[j] == ka[j]);
    }
    assert forall|i: int, j: int| 16 <= i <= j < 32 implies w[i] >= w[j] by {
        assert(w[i] == kb[31 - i] && w[j] == kb[31 - j]);
    }
    crate::bitonic::lemma_asc_desc_valley_free(w, 16);
    crate::bitonic::lemma_valley_free_bitonic(w);
    crate::bitonic::lemma_half_cleaner(w, 16);
    let lo = crate::bitonic::clean_lo(w, 16);
    let hi = crate::bitonic::clean_hi(w, 16);
    assert forall|i: int| 0 <= i < 16 implies #[trigger] crate::bitonic::keys_of(t1 + t2)[i]
        == lo[i] by {
        if i < 8 {
            crate::lemma_coex_pair(z0[i], z3r[i], t1[i], m1[i]);
            assert(w[i] == z0[i].key() && w[i + 16] == z3r[i].key());
        } else {
            crate::lemma_coex_pair(z1[i - 8], z2r[i - 8], t2[i - 8], m2[i - 8]);
            assert(w[i] == z1[i - 8].key() && w[i + 16] == z2r[i - 8].key());
        }
    }
    assert forall|i: int| 0 <= i < 16 implies #[trigger] crate::bitonic::keys_of(t3 + t4)[i]
        == hi[15 - i] by {
        if i < 8 {
            crate::lemma_coex_pair(z1[7 - i], z2r[7 - i], t2[7 - i], m2[7 - i]);
            assert((t3 + t4)[i] == m2[7 - i]);
            assert(w[(15 - i) as int] == z1[7 - i].key() && w[15 - i + 16] == z2r[7 - i].key());
        } else {
            crate::lemma_coex_pair(z0[15 - i], z3r[15 - i], t1[15 - i], m1[15 - i]);
            assert((t3 + t4)[i] == m1[15 - i]);
            assert(w[(15 - i) as int] == z0[15 - i].key() && w[15 - i + 16] == z3r[15 - i].key());
        }
    }
    assert(crate::bitonic::keys_of(t1 + t2) =~= lo);
    assert(crate::bitonic::keys_of(t3 + t4) =~= hi.reverse());
    crate::bitonic::lemma_reverse_bitonic(hi);
    assert forall|i: int, j: int| 0 <= i < 16 && 0 <= j < 16 implies ((t1 + t2)[i]).key() <= ((t3
        + t4)[j]).key() by {
        assert(crate::bitonic::keys_of(t1 + t2)[i] == ((t1 + t2)[i]).key());
        assert(crate::bitonic::keys_of(t3 + t4)[j] == ((t3 + t4)[j]).key());
        assert(lo[i] <= hi[(15 - j) as int]);
    }
}

/// The top compare layer of the four-register merge keeps the multiset.
#[verifier::rlimit(100)]
proof fn lemma_top_clean_four_multiset<T: Bit64Element>(
    z0: Seq<T>,
    z1: Seq<T>,
    z2: Seq<T>,
    z3: Seq<T>,
    z2r: Seq<T>,
    z3r: Seq<T>,
    t1: Seq<T>,
    t2: Seq<T>,
    m1: Seq<T>,
    m2: Seq<T>,
    t3: Seq<T>,
    t4: Seq<T>,
)
    requires
        z0.len() == 8 && z1.len() == 8 && z2.len() == 8 && z3.len() == 8,
        t1.len() == 8 && t2.len() == 8 && m1.len() == 8 && m2.len() == 8,
        t3.len() == 8 && t4.len() == 8,
        z2r.len() == 8 && z3r.len() == 8,
        forall|i: int| 0 <= i < 8 ==> #[trigger] z2r[i] == z2[7 - i],
        forall|i: int| 0 <= i < 8 ==> #[trigger] z3r[i] == z3[7 - i],
        forall|i: int|
            0 <= i < 8 ==> #[trigger] t1[i] == (if z0[i].key() <= z3r[i].key() {
                z0[i]
            } else {
                z3r[i]
            }),
        forall|i: int|
            0 <= i < 8 ==> #[trigger] m1[i] == (if z0[i].key() <= z3r[i].key() {
                z3r[i]
            } else {
                z0[i]
            }),
        forall|i: int|
            0 <= i < 8 ==> #[trigger] t2[i] == (if z1[i].key() <= z2r[i].key() {
                z1[i]
            } else {
                z2r[i]
            }),
        forall|i: int|
            0 <= i < 8 ==> #[trigger] m2[i] == (if z1[i].key() <= z2r[i].key() {
                z2r[i]
            } else {
                z1[i]
            }),
        forall|i: int| 0 <= i < 8 ==> #[trigger] t3[i] == m2[7 - i],
        forall|i: int| 0 <= i < 8 ==> #[trigger] t4[i] == m1[7 - i],
    ensures
        (t1 + t2 + (t3 + t4)).to_multiset() == (z0 + z1 + z2 + z3).to_multiset(),
{
    assert(z2r =~= z2.reverse());
    assert(z3r =~= z3.reverse());
    assert(t3 =~= m2.reverse());
    assert(t4 =~= m1.reverse());
    z2.lemma_reverse_to_multiset();
    z3.lemma_reverse_to_multiset();
    m1.lemma_reverse_to_multiset();
    m2.lemma_reverse_to_multiset();
    crate::bitonic::lemma_exchange_pair_multiset(z0, z3r, t1, m1);
    crate::bitonic::lemma_exchange_pair_multiset(z1, z2r, t2, m2);
    vstd::seq_lib::lemma_multiset_commutative(t1, t2);
    vstd::seq_lib::lemma_multiset_commutative(t3, t4);
    vstd::seq_lib::lemma_multiset_commutative(t1 + t2, t3 + t4);
    vstd::seq_lib::lemma_multiset_commutative(z0, z1);
    vstd::seq_lib::lemma_multiset_commutative(z0 + z1, z2);
    vstd::seq_lib::lemma_multiset_commutative(z0 + z1 + z2, z3);
    assert forall|x: T|
        (t1 + t2 + (t3 + t4)).to_multiset().count(x) == (z0 + z1 + z2
            + z3).to_multiset().count(x) by {
        assert(t1.to_multiset().add(m1.to_multiset()).count(x) == z0.to_multiset().add(
            z3r.to_multiset(),
        ).count(x));
        assert(t2.to_multiset().add(m2.to_multiset()).count(x) == z1.to_multiset().add(
            z2r.to_multiset(),
        ).count(x));
        assert(t3.to_multiset().count(x) == m2.to_multiset().count(x));
        assert(t4.to_multiset().count(x) == m1.to_multiset().count(x));
        assert(z2r.to_multiset().count(x) == z2.to_multiset().count(x));
        assert(z3r.to_multiset().count(x) == z3.to_multiset().count(x));
    }
    assert((t1 + t2 + (t3 + t4)).to_multiset() =~= (z0 + z1 + z2 + z3).to_multiset());
}


/// Clean and sort a bitonic sequence spread over four registers: one
/// compare-exchange layer at distance two registers, then a cleaned pair on
/// each half.
#[verifier::rlimit(100)]
fn clean_four_64bit<T: Bit64Element, U: Bit64Simd<T>>(va: U, vb: U, vc: U, vd: U) -> (r: (
    U,
    U,
    U,
    U,
))
    requires
        va.lanes().len() == 8,
        vb.lanes().len() == 8,
        vc.lanes().len() == 8,
        vd.lanes().len() == 8,
        crate::bitonic::bitonic(
            crate::bitonic::keys_of(va.lanes() + vb.lanes() + vc.lanes() + vd.lanes()),
        ),
    ensures
        r.0.lanes().len() == 8,
        r.1.lanes().len() == 8,
        r.2.lanes().len() == 8,
        r.3.lanes().len() == 8,
        crate::bitonic::ascending(
            crate::bitonic::keys_of(r.0.lanes() + r.1.lanes() + r.2.lanes() + r.3.lanes()),
        ),
        (r.0.lanes() + r.1.lanes() + r.2.lanes() + r.3.lanes()).to_multiset() == (va.lanes()
            + vb.lanes() + vc.lanes() + vd.lanes()).to_multiset(),
{
    let mut t1 = va;
    let mut t3 = vc;
    crate::coex(&mut t1, &mut t3);
    let mut t2 = vb;
    let mut t4 = vd;
    crate::coex(&mut t2, &mut t4);
    proof {
        crate::lemma_coex_pair(va.lanes()[0], vc.lanes()[0], t1.lanes()[0], t3.lanes()[0]);
        crate::lemma_coex_pair(va.lanes()[1], vc.lanes()[1], t1.lanes()[1], t3.lanes()[1]);
        crate::lemma_coex_pair(va.lanes()[2], vc.lanes()[2], t1.lanes()[2], t3.lanes()[2]);
        crate::lemma_coex_pair(va.lanes()[3], vc.lanes()[3], t1.lanes()[3], t3.lanes()[3]);
        crate::lemma_coex_pair(va.lanes()[4], vc.lanes()[4], t1.lanes()[4], t3.lanes()[4]);
        crate::lemma_coex_pair(va.lanes()[5], vc.lanes()[5], t1.lanes()[5], t3.lanes()[5]);
        crate::lemma_coex_pair(va.lanes()[6], vc.lanes()[6], t1.lanes()[6], t3.lanes()[6]);
        crate::lemma_coex_pair(va.lanes()[7], vc.lanes()[7], t1.lanes()[7], t3.lanes()[7]);
        crate::lemma_coex_pair(vb.lanes()[0], vd.lanes()[0], t2.lanes()[0], t4.lanes()[0]);
        crate::lemma_coex_pair(vb.lanes()[1], vd.lanes()[1], t2.lanes()[1], t4.lanes()[1]);
        crate::lemma_coex_pair(vb.lanes()[2], vd.lanes()[2], t2.lanes()[2], t4.lanes()[2]);
        crate::lemma_coex_pair(vb.lanes()[3], vd.lanes()[3], t2.lanes()[3], t4.lanes()[3]);
        crate::lemma_coex_pair(vb.lanes()[4], vd.lanes()[4], t2.lanes()[4], t4.lanes()[4]);
        crate::lemma_coex_pair(vb.lanes()[5], vd.lanes()[5], t2.lanes()[5], t4.lanes()[5]);
        crate::lemma_coex_pair(vb.lanes()[6], vd.lanes()[6], t2.lanes()[6], t4.lanes()[6]);
        crate::lemma_coex_pair(vb.lanes()[7], vd.lanes()[7], t2.lanes()[7], t4.lanes()[7]);
        let w = crate::bitonic::keys_of(va.lanes() + vb.lanes() + vc.lanes() + vd.lanes());
        crate::bitonic::lemma_half_cleaner(w, 16);
        assert(crate::bitonic::keys_of(t1.lanes() + t2.lanes()) =~= crate::bitonic::clean_lo(
            w,
            16,
        ));
        assert(crate::bitonic::keys_of(t3.lanes() + t4.lanes()) =~= crate::bitonic::clean_hi(
            w,
            16,
        ));
        crate::bitonic::lemma_exchange_pair_multiset(
            va.lanes(),
            vc.lanes(),
            t1.lanes(),
            t3.lanes(),
        );
        crate::bitonic::lemma_exchange_pair_multiset(
            vb.lanes(),
            vd.lanes(),
            t2.lanes(),
            t4.lanes(),
        );
    }
    let (r0, r1) = clean_pair_64bit(t1, t2);
    let (r2, r3) = clean_pair_64bit(t3, t4);
    proof {
        let w = crate::bitonic::keys_of(va.lanes() + vb.lanes() + vc.lanes() + vd.lanes());
        let lo = t1.lanes() + t2.lanes();
        let hi = t3.lanes() + t4.lanes();
        let fa = r0.lanes() + r1.lanes();
        let fb = r2.lanes() + r3.lanes();
        assert forall|i: int, j: int|
            0 <= i < 16 && 0 <= j < 16 implies (#[trigger] lo[i]).key() <= (
        #[trigger] hi[j]).key() by {
            assert(crate::bitonic::keys_of(lo)[i] == lo[i].key());
            assert(crate::bitonic::keys_of(hi)[j] == hi[j].key());
            assert(crate::bitonic::clean_lo(w, 16)[i] <= crate::bitonic::clean_hi(w, 16)[j]);
        }
        crate::bitonic::lemma_key_dom_perm(lo, hi, fa, fb);
        assert forall|i: int, j: int|
            0 <= i < fa.len() && 0 <= j < fb.len() implies #[trigger] crate::bitonic::keys_of(
            fa,
        )[i] <= #[trigger] crate::bitonic::keys_of(fb)[j] by {
            assert(crate::bitonic::keys_of(fa)[i] == fa[i].key());
            assert(crate::bitonic::keys_of(fb)[j] == fb[j].key());
        }
        crate::bitonic::lemma_concat_ascending(
            crate::bitonic::keys_of(fa),
            crate::bitonic::keys_of(fb),
        );
        crate::bitonic::lemma_keys_concat(fa, fb);
        assert(fa + fb =~= r0.lanes() + r1.lanes() + r2.lanes() + r3.lanes());
        vstd::seq_lib::lemma_multiset_commutative(fa, fb);
        vstd::seq_lib::lemma_multiset_commutative(lo, hi);
        assert forall|x: T|
            (r0.lanes() + r1.lanes() + r2.lanes() + r3.lanes()).to_multiset().count(x) == (
            va.lanes() + vb.lanes() + vc.lanes() + vd.lanes()).to_multiset().count(x) by {
            broadcast use vstd::seq_lib::lemma_multiset_commutative;

            assert(t1.lanes().to_multiset().add(t3.lanes().to_multiset()).count(x)
                == va.lanes().to_multiset().add(vc.lanes().to_multiset()).count(x));
            assert(t2.lanes().to_multiset().add(t4.lanes().to_multiset()).count(x)
                == vb.lanes().to_multiset().add(vd.lanes().to_multiset()).count(x));
        }
        assert((r0.lanes() + r1.lanes() + r2.lanes() + r3.lanes()).to_multiset() =~= (va.lanes()
            + vb.lanes() + vc.lanes() + vd.lanes()).to_multiset());
    }
    (r0, r1, r2, r3)
}


/// Clean and sort a bitonic sequence spread over 8 registers: one
/// compare-exchange layer at distance 4 registers, then the 4-register
/// cleaner on each half.
#[verifier::rlimit(100)]
fn clean_eight_64bit<T: Bit64Element, U: Bit64Simd<T>>(v0: U, v1: U, v2: U, v3: U, v4: U, v5: U, v6: U, v7: U) -> (r: (U, U, U, U, U, U, U, U))
    requires
        v0.lanes().len() == 8,
        v1.lanes().len() == 8,
        v2.lanes().len() == 8,
        v3.lanes().len() == 8,
        v4.lanes().len() == 8,
        v5.lanes().len() == 8,
        v6.lanes().len() == 8,
        v7.lanes().len() == 8,
        crate::bitonic::bitonic(crate::bitonic::keys_of(v0.lanes() + v1.lanes() + v2.lanes() + v3.lanes() + v4.lanes() + v5.lanes() + v6.lanes() + v7.lanes())),
    ensures
        r.0.lanes().len() == 8,
        r.1.lanes().len() == 8,
        r.2.lanes().len() == 8,
        r.3.lanes().len() == 8,
        r.4.lanes().len() == 8,
        r.5.lanes().len() == 8,
        r.6.lanes().len() == 8,
        r.7.lanes().len() == 8,
        crate::bitonic::ascending(crate::bitonic::keys_of(r.0.lanes() + r.1.lanes() + r.2.lanes() + r.3.lanes() + r.4.lanes() + r.5.lanes() + r.6.lanes() + r.7.lanes())),
        (r.0.lanes() + r.1.lanes() + r.2.lanes() + r.3.lanes() + r.4.lanes() + r.5.lanes() + r.6.lanes() + r.7.lanes()).to_multiset() == (v0.lanes() + v1.lanes() + v2.lanes() + v3.lanes() + v4.lanes() + v5.lanes() + v6.lanes() + v7.lanes()).to_multiset(),
{
    let mut t0 = v0;
    let mut t4 = v4;
    crate::coex(&mut t0, &mut t4);
    let mut t1 = v1;
    let mut t5 = v5;
    crate::coex(&mut t1, &mut t5);
    let mut t2 = v2;
    let mut t6 = v6;
    crate::coex(&mut t2, &mut t6);
    let mut t3 = v3;
    let mut t7 = v7;
    crate::coex(&mut t3, &mut t7);
    proof {
        crate::lemma_coex_pair(v0.lanes()[0], v4.lanes()[0], t0.lanes()[0], t4.lanes()[0]);
        crate::lemma_coex_pair(v0.lanes()[1], v4.lanes()[1], t0.lanes()[1], t4.lanes()[1]);
        crate::lemma_coex_pair(v0.lanes()[2], v4.lanes()[2], t0.lanes()[2], t4.lanes()[2]);
        crate::lemma_coex_pair(v0.lanes()[3], v4.lanes()[3], t0.lanes()[3], t4.lanes()[3]);
        crate::lemma_coex_pair(v0.lanes()[4], v4.lanes()[4], t0.lanes()[4], t4.lanes()[4]);
        crate::lemma_coex_pair(v0.lanes()[5], v4.lanes()[5], t0.lanes()[5], t4.lanes()[5]);
        crate::lemma_coex_pair(v0.lanes()[6], v4.lanes()[6], t0.lanes()[6], t4.lanes()[6]);
        crate::lemma_coex_pair(v0.lanes()[7], v4.lanes()[7], t0.lanes()[7], t4.lanes()[7]);
        crate::lemma_coex_pair(v1.lanes()[0], v5.lanes()[0], t1.lanes()[0], t5.lanes()[0]);
        crate::lemma_coex_pair(v1.lanes()[1], v5.lanes()[1], t1.lanes()[1], t5.lanes()[1]);
        crate::lemma_coex_pair(v1.lanes()[2], v5.lanes()[2], t1.lanes()[2], t5.lanes()[2]);
        crate::lemma_coex_pair(v1.lanes()[3], v5.lanes()[3], t1.lanes()[3], t5.lanes()[3]);
        crate::lemma_coex_pair(v1.lanes()[4], v5.lanes()[4], t1.lanes()[4], t5.lanes()[4]);
        crate::lemma_coex_pair(v1.lanes()[5], v5.lanes()[5], t1.lanes()[5], t5.lanes()[5]);
        crate::lemma_coex_pair(v1.lanes()[6], v5.lanes()[6], t1.lanes()[6], t5.lanes()[6]);
        crate::lemma_coex_pair(v1.lanes()[7], v5.lanes()[7], t1.lanes()[7], t5.lanes()[7]);
        crate::lemma_coex_pair(v2.lanes()[0], v6.lanes()[0], t2.lanes()[0], t6.lanes()[0]);
        crate::lemma_coex_pair(v2.lanes()[1], v6.lanes()[1], t2.lanes()[1], t6.lanes()[1]);
        crate::lemma_coex_pair(v2.lanes()[2], v6.lanes()[2], t2.lanes()[2], t6.lanes()[2]);
        crate::lemma_coex_pair(v2.lanes()[3], v6.lanes()[3], t2.lanes()[3], t6.lanes()[3]);
        crate::lemma_coex_pair(v2.lanes()[4], v6.lanes()[4], t2.lanes()[4], t6.lanes()[4]);
        crate::lemma_coex_pair(v2.lanes()[5], v6.lanes()[5], t2.lanes()[5], t6.lanes()[5]);
        crate::lemma_coex_pair(v2.lanes()[6], v6.lanes()[6], t2.lanes()[6], t6.lanes()[6]);
        crate::lemma_coex_pair(v2.lanes()[7], v6.lanes()[7], t2.lanes()[7], t6.lanes()[7]);
        crate::lemma_coex_pair(v3.lanes()[0], v7.lanes()[0], t3.lanes()[0], t7.lanes()[0]);
        crate::lemma_coex_pair(v3.lanes()[1], v7.lanes()[1], t3.lanes()[1], t7.lanes()[1]);
        crate::lemma_coex_pair(v3.lanes()[2], v7.lanes()[2], t3.lanes()[2], t7.lanes()[2]);
        crate::lemma_coex_pair(v3.lanes()[3], v7.lanes()[3], t3.lanes()[3], t7.lanes()[3]);
        crate::lemma_coex_pair(v3.lanes()[4], v7.lanes()[4], t3.lanes()[4], t7.lanes()[4]);
        crate::lemma_coex_pair(v3.lanes()[5], v7.lanes()[5], t3.lanes()[5], t7.lanes()[5]);
        crate::lemma_coex_pair(v3.lanes()[6], v7.lanes()[6], t3.lanes()[6], t7.lanes()[6]);
        crate::lemma_coex_pair(v3.lanes()[7], v7.lanes()[7], t3.lanes()[7], t7.lanes()[7]);
        let w = crate::bitonic::keys_of(v0.lanes() + v1.lanes() + v2.lanes() + v3.lanes() + v4.lanes() + v5.lanes() + v6.lanes() + v7.lanes());
        crate::bitonic::lemma_half_cleaner(w, 32);
        assert(crate::bitonic::keys_of(t0.lanes() + t1.lanes() + t2.lanes() + t3.lanes()) =~= crate::bitonic::clean_lo(w, 32));
        assert(crate::bitonic::keys_of(t4.lanes() + t5.lanes() + t6.lanes() + t7.lanes()) =~= crate::bitonic::clean_hi(w, 32));
        crate::bitonic::lemma_exchange_pair_multiset(
            v0.lanes(),
            v4.lanes(),
            t0.lanes(),
            t4.lanes(),
        );
        crate::bitonic::lemma_exchange_pair_multiset(
            v1.lanes(),
            v5.lanes(),
            t1.lanes(),
            t5.lanes(),
        );
        crate::bitonic::lemma_exchange_pair_multiset(
            v2.lanes(),
            v6.lanes(),
            t2.lanes(),
            t6.lanes(),
        );
        crate::bitonic::lemma_exchange_pair_multiset(
            v3.lanes(),
            v7.lanes(),
            t3.lanes(),
            t7.lanes(),
        );
    }
    let (r0, r1, r2, r3) = clean_four_64bit(t0, t1, t2, t3);
    let (r4, r5, r6, r7) = clean_four_64bit(t4, t5, t6, t7);
    proof {
        let w = crate::bitonic::keys_of(v0.lanes() + v1.lanes() + v2.lanes() + v3.lanes() + v4.lanes() + v5.lanes() + v6.lanes() + v7.lanes());
        let lo = t0.lanes() + t1.lanes() + t2.lanes() + t3.lanes();
        let hi = t4.lanes() + t5.lanes() + t6.lanes() + t7.lanes();
        let fa = r0.lanes() + r1.lanes() + r2.lanes() + r3.lanes();
        let fb = r4.lanes() + r5.lanes() + r6.lanes() + r7.lanes();
        assert forall|i: int, j: int|
            0 <= i < 32 && 0 <= j < 32 implies (#[trigger] lo[i]).key() <= (
        #[trigger] hi[j]).key() by {
            assert(crate::bitonic::keys_of(lo)[i] == lo[i].key());
            assert(crate::bitonic::keys_of(hi)[j] == hi[j].key());
            assert(crate::bitonic::clean_lo(w, 32)[i] <= crate::bitonic::clean_hi(w, 32)[j]);
        }
        crate::bitonic::lemma_key_dom_perm(lo, hi, fa, fb);
        assert forall|i: int, j: int|
            0 <= i < fa.len() && 0 <= j < fb.len() implies #[trigger] crate::bitonic::keys_of(
            fa,
        )[i] <= #[trigger] crate::bitonic::keys_of(fb)[j] by {
            assert(crate::bitonic::keys_of(fa)[i] == fa[i].key());
            assert(crate::bitonic::keys_of(fb)[j] == fb[j].key());
        }
        crate::bitonic::lemma_concat_ascending(
            crate::bitonic::keys_of(fa),
            crate::bitonic::keys_of(fb),
        );
        crate::bitonic::lemma_keys_concat(fa, fb);
        assert(fa + fb =~= r0.lanes() + r1.lanes() + r2.lanes() + r3.lanes() + r4.lanes() + r5.lanes() + r6.lanes() + r7.lanes());
        vstd::seq_lib::lemma_multiset_commutative(fa, fb);
        vstd::seq_lib::lemma_multiset_commutative(lo, hi);
        assert forall|x: T|
            (r0.lanes() + r1.lanes() + r2.lanes() + r3.lanes() + r4.lanes() + r5.lanes() + r6.lanes() + r7.lanes()).to_multiset().count(x) == (
            v0.lanes() + v1.lanes() + v2.lanes() + v3.lanes() + v4.lanes() + v5.lanes() + v6.lanes() + v7.lanes()).to_multiset().count(x) by {
            broadcast use vstd::seq_lib::lemma_multiset_commutative;

            assert(t0.lanes().to_multiset().add(t4.lanes().to_multiset()).count(x)
                == v0.lanes().to_multiset().add(v4.lanes().to_multiset()).count(x));
            assert(t1.lanes().to_multiset().add(t5.lanes().to_multiset()).count(x)
                == v1.lanes().to_multiset().add(v5.lanes().to_multiset()).count(x));
            assert(t2.lanes().to_multiset().add(t6.lanes().to_multiset()).count(x)
                == v2.lanes().to_multiset().add(v6.lanes().to_multiset()).count(x));
            assert(t3.lanes().to_multiset().add(t7.lanes().to_multiset()).count(x)
                == v3.lanes().to_multiset().add(v7.lanes().to_multiset()).count(x));
        }
        assert((r0.lanes() + r1.lanes() + r2.lanes() + r3.lanes() + r4.lanes() + r5.lanes() + r6.lanes() + r7.lanes()).to_multiset() =~= (v0.lanes() + v1.lanes() + v2.lanes() + v3.lanes() + v4.lanes() + v5.lanes() + v6.lanes() + v7.lanes()).to_multiset());
    }
    (r0, r1, r2, r3, r4, r5, r6, r7)
}


/// Merge two sorted 32-lane runs held in 8 registers: the first 4 and the
/// last 4 each sorted in lane order.  Afterwards all 64 lanes, read in
/// register order, are sorted ascending.
#[verifier::rlimit(100)]
pub fn bitonic_merge_eight_zmm_64bit<T: Bit64Element, U: Bit64Simd<T>>(zmm: [U; 8]) -> (r: [U; 8])
    requires
        crate::bitonic::ascending(crate::bitonic::keys_of(zmm[0].lanes() + zmm[1].lanes() + zmm[2].lanes() + zmm[3].lanes())),
        crate::bitonic::ascending(crate::bitonic::keys_of(zmm[4].lanes() + zmm[5].lanes() + zmm[6].lanes() + zmm[7].lanes())),
    ensures
        forall|i: int| 0 <= i < 8 ==> (#[trigger] r[i].lanes()).len() == 8,
        crate::bitonic::ascending(crate::bitonic::keys_of(r[0].lanes() + r[1].lanes() + r[2].lanes() + r[3].lanes() + r[4].lanes() + r[5].lanes() + r[6].lanes() + r[7].lanes())),
        (r[0].lanes() + r[1].lanes() + r[2].lanes() + r[3].lanes() + r[4].lanes() + r[5].lanes() + r[6].lanes() + r[7].lanes()).to_multiset() == (zmm[0].lanes() + zmm[1].lanes() + zmm[2].lanes() + zmm[3].lanes() + zmm[4].lanes() + zmm[5].lanes() + zmm[6].lanes() + zmm[7].lanes()).to_multiset(),
{
    proof {
        zmm[0].lanes_len();
        zmm[1].lanes_len();
        zmm[2].lanes_len();
        zmm[3].lanes_len();
        zmm[4].lanes_len();
        zmm[5].lanes_len();
        zmm[6].lanes_len();
        zmm[7].lanes_len();
    }
    let zr7 = U::network64bit2(zmm[7]);
    let zr6 = U::network64bit2(zmm[6]);
    let zr5 = U::network64bit2(zmm[5]);
    let zr4 = U::network64bit2(zmm[4]);
    let t0 = U::min(zmm[0], zr7);
    let t1 = U::min(zmm[1], zr6);
    let t2 = U::min(zmm[2], zr5);
    let t3 = U::min(zmm[3], zr4);
    let m0 = U::max(zmm[0], zr7);
    let m1 = U::max(zmm[1], zr6);
    let m2 = U::max(zmm[2], zr5);
    let m3 = U::max(zmm[3], zr4);
    let t4 = U::network64bit2(m3);
    let t5 = U::network64bit2(m2);
    let t6 = U::network64bit2(m1);
    let t7 = U::network64bit2(m0);
    proof {
        crate::lemma_coex_pair(zmm[0].lanes()[0], zr7.lanes()[0], t0.lanes()[0], m0.lanes()[0]);
        crate::lemma_coex_pair(zmm[0].lanes()[1], zr7.lanes()[1], t0.lanes()[1], m0.lanes()[1]);
        crate::lemma_coex_pair(zmm[0].lanes()[2], zr7.lanes()[2], t0.lanes()[2], m0.lanes()[2]);
        crate::lemma_coex_pair(zmm[0].lanes()[3], zr7.lanes()[3], t0.lanes()[3], m0.lanes()[3]);
        crate::lemma_coex_pair(zmm[0].lanes()[4], zr7.lanes()[4], t0.lanes()[4], m0.lanes()[4]);
        crate::lemma_coex_pair(zmm[0].lanes()[5], zr7.lanes()[5], t0.lanes()[5], m0.lanes()[5]);
        crate::lemma_coex_pair(zmm[0].lanes()[6], zr7.lanes()[6], t0.lanes()[6], m0.lanes()[6]);
        crate::lemma_coex_pair(zmm[0].lanes()[7], zr7.lanes()[7], t0.lanes()[7], m0.lanes()[7]);
        crate::lemma_coex_pair(zmm[1].lanes()[0], zr6.lanes()[0], t1.lanes()[0], m1.lanes()[0]);
        crate::lemma_coex_pair(zmm[1].lanes()[1], zr6.lanes()[1], t1.lanes()[1], m1.lanes()[1]);
        crate::lemma_coex_pair(zmm[1].lanes()[2], zr6.lanes()[2], t1.lanes()[2], m1.lanes()[2]);
        crate::lemma_coex_pair(zmm[1].lanes()[3], zr6.lanes()[3], t1.lanes()[3], m1.lanes()[3]);
        crate::lemma_coex_pair(zmm[1].lanes()[4], zr6.lanes()[4], t1.lanes()[4], m1.lanes()[4]);
        crate::lemma_coex_pair(zmm[1].lanes()[5], zr6.lanes()[5], t1.lanes()[5], m1.lanes()[5]);
        crate::lemma_coex_pair(zmm[1].lanes()[6], zr6.lanes()[6], t1.lanes()[6], m1.lanes()[6]);
        crate::lemma_coex_pair(zmm[1].lanes()[7], zr6.lanes()[7], t1.lanes()[7], m1.lanes()[7]);
        crate::lemma_coex_pair(zmm[2].lanes()[0], zr5.lanes()[0], t2.lanes()[0], m2.lanes()[0]);
        crate::lemma_coex_pair(zmm[2].lanes()[1], zr5.lanes()[1], t2.lanes()[1], m2.lanes()[1]);
        crate::lemma_coex_pair(zmm[2].lanes()[2], zr5.lanes()[2], t2.lanes()[2], m2.lanes()[2]);
        crate::lemma_coex_pair(zmm[2].lanes()[3], zr5.lanes()[3], t2.lanes()[3], m2.lanes()[3]);
        crate::lemma_coex_pair(zmm[2].lanes()[4], zr5.lanes()[4], t2.lanes()[4], m2.lanes()[4]);
        crate::lemma_coex_pair(zmm[2].lanes()[5], zr5.lanes()[5], t2.lanes()[5], m2.lanes()[5]);
        crate::lemma_coex_pair(zmm[2].lanes()[6], zr5.lanes()[6], t2.lanes()[6], m2.lanes()[6]);
        crate::lemma_coex_pair(zmm[2].lanes()[7], zr5.lanes()[7], t2.lanes()[7], m2.lanes()[7]);
        crate::lemma_coex_pair(zmm[3].lanes()[0], zr4.lanes()[0], t3.lanes()[0], m3.lanes()[0]);
        crate::lemma_coex_pair(zmm[3].lanes()[1], zr4.lanes()[1], t3.lanes()[1], m3.lanes()[1]);
        crate::lemma_coex_pair(zmm[3].lanes()[2], zr4.lanes()[2], t3.lanes()[2], m3.lanes()[2]);
        crate::lemma_coex_pair(zmm[3].lanes()[3], zr4.lanes()[3], t3.lanes()[3], m3.lanes()[3]);
        crate::lemma_coex_pair(zmm[3].lanes()[4], zr4.lanes()[4], t3.lanes()[4], m3.lanes()[4]);
        crate::lemma_coex_pair(zmm[3].lanes()[5], zr4.lanes()[5], t3.lanes()[5], m3.lanes()[5]);
        crate::lemma_coex_pair(zmm[3].lanes()[6], zr4.lanes()[6], t3.lanes()[6], m3.lanes()[6]);
        crate::lemma_coex_pair(zmm[3].lanes()[7], zr4.lanes()[7], t3.lanes()[7], m3.lanes()[7]);
        let ka = crate::bitonic::keys_of(zmm[0].lanes() + zmm[1].lanes() + zmm[2].lanes() + zmm[3].lanes());
        let kb = crate::bitonic::keys_of(zmm[4].lanes() + zmm[5].lanes() + zmm[6].lanes() + zmm[7].lanes());
        crate::bitonic::lemma_top_merge(ka, kb, 32);
        let w = ka + kb.reverse();
        assert forall|i: int| 0 <= i < 32 implies #[trigger] crate::bitonic::keys_of(
            t0.lanes() + t1.lanes() + t2.lanes() + t3.lanes(),
        )[i] == crate::bitonic::clean_lo(w, 32)[i] by {
            if i < 8 {
                assert(((t0.lanes() + t1.lanes() + t2.lanes() + t3.lanes()))[i] == t0.lanes()[i - 0]);
                assert(w[i] == zmm[0].lanes()[i - 0].key());
                assert(w[i + 32] == kb.reverse()[i]);
                assert(kb.reverse()[i] == kb[32 - 1 - i]);
                assert(kb[32 - 1 - i] == zmm[7].lanes()[8 - 1 - i].key());
                assert(zr7.lanes()[i - 0] == zmm[7].lanes()[8 - 1 - i]);
            }
            else if i < 16 {
                assert(((t0.lanes() + t1.lanes() + t2.lanes() + t3.lanes()))[i] == t1.lanes()[i - 8]);
                assert(w[i] == zmm[1].lanes()[i - 8].key());
                assert(w[i + 32] == kb.reverse()[i]);
                assert(kb.reverse()[i] == kb[32 - 1 - i]);
                assert(kb[32 - 1 - i] == zmm[6].lanes()[16 - 1 - i].key());
                assert(zr6.lanes()[i - 8] == zmm[6].lanes()[16 - 1 - i]);
            }
            else if i < 24 {
                assert(((t0.lanes() + t1.lanes() + t2.lanes() + t3.lanes()))[i] == t2.lanes()[i - 16]);
                assert(w[i] == zmm[2].lanes()[i - 16].key());
                assert(w[i + 32] == kb.reverse()[i]);
                assert(kb.reverse()[i] == kb[32 - 1 - i]);
                assert(kb[32 - 1 - i] == zmm[5].lanes()[24 - 1 - i].key());
                assert(zr5.lanes()[i - 16] == zmm[5].lanes()[24 - 1 - i]);
            }
            else if i < 32 {
                assert(((t0.lanes() + t1.lanes() + t2.lanes() + t3.lanes()))[i] == t3.lanes()[i - 24]);
                assert(w[i] == zmm[3].lanes()[i - 24].key());
                assert(w[i + 32] == kb.reverse()[i]);
                assert(kb.reverse()[i] == kb[32 - 1 - i]);
                assert(kb[32 - 1 - i] == zmm[4].lanes()[32 - 1 - i].key());
                assert(zr4.lanes()[i - 24] == zmm[4].lanes()[32 - 1 - i]);
            }
        }
        assert forall|i: int| 0 <= i < 32 implies #[trigger] crate::bitonic::keys_of(
            t4.lanes() + t5.lanes() + t6.lanes() + t7.lanes(),
        )[i] == crate::bitonic::clean_hi(w, 32)[32 - 1 - i] by {
            if i < 8 {
                assert(((t4.lanes() + t5.lanes() + t6.lanes() + t7.lanes()))[i] == t4.lanes()[i - 0]);
                assert(t4.lanes()[i - 0] == m3.lanes()[8 - 1 - i]);
                assert(w[32 - 1 - i] == zmm[3].lanes()[8 - 1 - i].key());
                assert(w[2 * 32 - 1 - i] == kb.reverse()[32 - 1 - i]);
                assert(kb.reverse()[32 - 1 - i] == kb[i]);
                assert(kb[i] == zmm[4].lanes()[i - 0].key());
                assert(zr4.lanes()[8 - 1 - i] == zmm[4].lanes()[i - 0]);
            }
            else if i < 16 {
                assert(((t4.lanes() + t5.lanes() + t6.lanes() + t7.lanes()))[i] == t5.lanes()[i - 8]);
                assert(t5.lanes()[i - 8] == m2.lanes()[16 - 1 - i]);
                assert(w[32 - 1 - i] == zmm[2].lanes()[16 - 1 - i].key());
                assert(w[2 * 32 - 1 - i] == kb.reverse()[32 - 1 - i]);
                assert(kb.reverse()[32 - 1 - i] == kb[i]);
                assert(kb[i] == zmm[5].lanes()[i - 8].key());
                assert(zr5.lanes()[16 - 1 - i] == zmm[5].lanes()[i - 8]);
            }
            else if i < 24 {
                assert(((t4.lanes() + t5.lanes() + t6.lanes() + t7.lanes()))[i] == t6.lanes()[i - 16]);
                assert(t6.lanes()[i - 16] == m1.lanes()[24 - 1 - i]);
                assert(w[32 - 1 - i] == zmm[1].lanes()[24 - 1 - i].key());
                assert(w[2 * 32 - 1 - i] == kb.reverse()[32 - 1 - i]);
                assert(kb.reverse()[32 - 1 - i] == kb[i]);
                assert(kb[i] == zmm[6].lanes()[i - 16].key());
                assert(zr6.lanes()[24 - 1 - i] == zmm[6].lanes()[i - 16]);
            }
            else if i < 32 {
                assert(((t4.lanes() + t5.lanes() + t6.lanes() + t7.lanes()))[i] == t7.lanes()[i - 24]);
                assert(t7.lanes()[i - 24] == m0.lanes()[32 - 1 - i]);
                assert(w[32 - 1 - i] == zmm[0].lanes()[32 - 1 - i].key());
                assert(w[2 * 32 - 1 - i] == kb.reverse()[32 - 1 - i]);
                assert(kb.reverse()[32 - 1 - i] == kb[i]);
                assert(kb[i] == zmm[7].lanes()[i - 24].key());
                assert(zr7.lanes()[32 - 1 - i] == zmm[7].lanes()[i - 24]);
            }
        }
        assert(crate::bitonic::keys_of(t0.lanes() + t1.lanes() + t2.lanes() + t3.lanes()) =~= crate::bitonic::clean_lo(w, 32));
        assert(crate::bitonic::keys_of(t4.lanes() + t5.lanes() + t6.lanes() + t7.lanes()) =~= crate::bitonic::clean_hi(w, 32).reverse());
    }
    let (r0, r1, r2, r3) = clean_four_64bit(t0, t1, t2, t3);
    let (r4, r5, r6, r7) = clean_four_64bit(t4, t5, t6, t7);
    proof {
        let ka = crate::bitonic::keys_of(zmm[0].lanes() + zmm[1].lanes() + zmm[2].lanes() + zmm[3].lanes());
        let kb = crate::bitonic::keys_of(zmm[4].lanes() + zmm[5].lanes() + zmm[6].lanes() + zmm[7].lanes());
        let w = ka + kb.reverse();
        let lo = t0.lanes() + t1.lanes() + t2.lanes() + t3.lanes();
        let hi = t4.lanes() + t5.lanes() + t6.lanes() + t7.lanes();
        let fa = r0.lanes() + r1.lanes() + r2.lanes() + r3.lanes();
        let fb = r4.lanes() + r5.lanes() + r6.lanes() + r7.lanes();
        assert forall|i: int, j: int|
            0 <= i < 32 && 0 <= j < 32 implies (#[trigger] lo[i]).key() <= (
        #[trigger] hi[j]).key() by {
            assert(crate::bitonic::keys_of(lo)[i] == lo[i].key());
            assert(crate::bitonic::keys_of(hi)[j] == hi[j].key());
            assert(crate::bitonic::clean_lo(w, 32)[i] <= crate::bitonic::clean_hi(w, 32)[32 - 1
                - j]);
        }
        crate::bitonic::lemma_key_dom_perm(lo, hi, fa, fb);
        assert forall|i: int, j: int|
            0 <= i < fa.len() && 0 <= j < fb.len() implies #[trigger] crate::bitonic::keys_of(
            fa,
        )[i] <= #[trigger] crate::bitonic::keys_of(fb)[j] by {
            assert(crate::bitonic::keys_of(fa)[i] == fa[i].key());
            assert(crate::bitonic::keys_of(fb)[j] == fb[j].key());
        }
        crate::bitonic::lemma_concat_ascending(
            crate::bitonic::keys_of(fa),
            crate::bitonic::keys_of(fb),
        );
        crate::bitonic::lemma_keys_concat(fa, fb);
        assert(fa + fb =~= r0.lanes() + r1.lanes() + r2.lanes() + r3.lanes() + r4.lanes() + r5.lanes() + r6.lanes() + r7.lanes());
        vstd::seq_lib::lemma_multiset_commutative(fa, fb);
        vstd::seq_lib::lemma_multiset_commutative(lo, hi);
        assert(zr7.lanes() =~= zmm[7].lanes().reverse());
        zmm[7].lanes().lemma_reverse_to_multiset();
        assert(t4.lanes() =~= m3.lanes().reverse());
        m3.lanes().lemma_reverse_to_multiset();
        crate::bitonic::lemma_exchange_pair_multiset(
            zmm[0].lanes(),
            zr7.lanes(),
            t0.lanes(),
            m0.lanes(),
        );
        assert(zr6.lanes() =~= zmm[6].lanes().reverse());
        zmm[6].lanes().lemma_reverse_to_multiset();
        assert(t5.lanes() =~= m2.lanes().reverse());
        m2.lanes().lemma_reverse_to_multiset();
        crate::bitonic::lemma_exchange_pair_multiset(
            zmm[1].lanes(),
            zr6.lanes(),
            t1.lanes(),
            m1.lanes(),
        );
        assert(zr5.lanes() =~= zmm[5].lanes().reverse());
        zmm[5].lanes().lemma_reverse_to_multiset();
        assert(t6.lanes() =~= m1.lanes().reverse());
        m1.lanes().lemma_reverse_to_multiset();
        crate::bitonic::lemma_exchange_pair_multiset(
            zmm[2].lanes(),
            zr5.lanes(),
            t2.lanes(),
            m2.lanes(),
        );
        assert(zr4.lanes() =~= zmm[4].lanes().reverse());
        zmm[4].lanes().lemma_reverse_to_multiset();
        assert(t7.lanes() =~= m0.lanes().reverse());
        m0.lanes().lemma_reverse_to_multiset();
        crate::bitonic::lemma_exchange_pair_multiset(
            zmm[3].lanes(),
            zr4.lanes(),
            t3.lanes(),
            m3.lanes(),
        );
        assert forall|x: T|
            (r0.lanes() + r1.lanes() + r2.lanes() + r3.lanes() + r4.lanes() + r5.lanes() + r6.lanes() + r7.lanes()).to_multiset().count(x) == (zmm[0].lanes() + zmm[1].lanes() + zmm[2].lanes() + zmm[3].lanes() + zmm[4].lanes() + zmm[5].lanes() + zmm[6].lanes() + zmm[7].lanes()).to_multiset().count(x) by {
            broadcast use vstd::seq_lib::lemma_multiset_commutative;

            assert(t0.lanes().to_multiset().add(m0.lanes().to_multiset()).count(x)
                == zmm[0].lanes().to_multiset().add(zr7.lanes().to_multiset()).count(x));
            assert(t4.lanes().to_multiset().count(x) == m3.lanes().to_multiset().count(x));
            assert(zr7.lanes().to_multiset().count(x) == zmm[7].lanes().to_multiset().count(x));
            assert(t1.lanes().to_multiset().add(m1.lanes().to_multiset()).count(x)
                == zmm[1].lanes().to_multiset().add(zr6.lanes().to_multiset()).count(x));
            assert(t5.lanes().to_multiset().count(x) == m2.lanes().to_multiset().count(x));
            assert(zr6.lanes().to_multiset().count(x) == zmm[6].lanes().to_multiset().count(x));
            assert(t2.lanes().to_multiset().add(m2.lanes().to_multiset()).count(x)
                == zmm[2].lanes().to_multiset().add(zr5.lanes().to_multiset()).count(x));
            assert(t6.lanes().to_multiset().count(x) == m1.lanes().to_multiset().count(x));
            assert(zr5.lanes().to_multiset().count(x) == zmm[5].lanes().to_multiset().count(x));
            assert(t3.lanes().to_multiset().add(m3.lanes().to_multiset()).count(x)
                == zmm[3].lanes().to_multiset().add(zr4.lanes().to_multiset()).count(x));
            assert(t7.lanes().to_multiset().count(x) == m0.lanes().to_multiset().count(x));
            assert(zr4.lanes().to_multiset().count(x) == zmm[4].lanes().to_multiset().count(x));
        }
        assert((r0.lanes() + r1.lanes() + r2.lanes() + r3.lanes() + r4.lanes() + r5.lanes() + r6.lanes() + r7.lanes()).to_multiset() =~= (zmm[0].lanes() + zmm[1].lanes() + zmm[2].lanes() + zmm[3].lanes() + zmm[4].lanes() + zmm[5].lanes() + zmm[6].lanes() + zmm[7].lanes()).to_multiset());
    }
    let r = [r0, r1, r2, r3, r4, r5, r6, r7];
    r
}


/// Merge two sorted 64-lane runs held in 16 registers: the first 8 and the
/// last 8 each sorted in lane order.  Afterwards all 128 lanes, read in
/// register order, are sorted ascending.
#[verifier::rlimit(100)]
pub fn bitonic_merge_sixteen_zmm_64bit<T: Bit64Element, U: Bit64Simd<T>>(zmm: [U; 16]) -> (r: [U; 16])
    requires
        crate::bitonic::ascending(crate::bitonic::keys_of(zmm[0].lanes() + zmm[1].lanes() + zmm[2].lanes() + zmm[3].lanes() + zmm[4].lanes() + zmm[5].lanes() + zmm[6].lanes() + zmm[7].lanes())),
        crate::bitonic::ascending(crate::bitonic::keys_of(zmm[8].lanes() + zmm[9].lanes() + zmm[10].lanes() + zmm[11].lanes() + zmm[12].lanes() + zmm[13].lanes() + zmm[14].lanes() + zmm[15].lanes())),
    ensures
        forall|i: int| 0 <= i < 16 ==> (#[trigger] r[i].lanes()).len() == 8,
        crate::bitonic::ascending(crate::bitonic::keys_of(r[0].lanes() + r[1].lanes() + r[2].lanes() + r[3].lanes() + r[4].lanes() + r[5].lanes() + r[6].lanes() + r[7].lanes() + r[8].lanes() + r[9].lanes() + r[10].lanes() + r[11].lanes() + r[12].lanes() + r[13].lanes() + r[14].lanes() + r[15].lanes())),
        (r[0].lanes() + r[1].lanes() + r[2].lanes() + r[3].lanes() + r[4].lanes() + r[5].lanes() + r[6].lanes() + r[7].lanes() + r[8].lanes() + r[9].lanes() + r[10].lanes() + r[11].lanes() + r[12].lanes() + r[13].lanes() + r[14].lanes() + r[15].lanes()).to_multiset() == (zmm[0].lanes() + zmm[1].lanes() + zmm[2].lanes() + zmm[3].lanes() + zmm[4].lanes() + zmm[5].lanes() + zmm[6].lanes() + zmm[7].lanes() + zmm[8].lanes() + zmm[9].lanes() + zmm[10].lanes() + zmm[11].lanes() + zmm[12].lanes() + zmm[13].lanes() + zmm[14].lanes() + zmm[15].lanes()).to_multiset(),
{
    proof {
        zmm[0].lanes_len();
        zmm[1].lanes_len();
        zmm[2].lanes_len();
        zmm[3].lanes_len();
        zmm[4].lanes_len();
        zmm[5].lanes_len();
        zmm[6].lanes_len();
        zmm[7].lanes_len();
        zmm[8].lanes_len();
        zmm[9].lanes_len();
        zmm[10].lanes_len();
        zmm[11].lanes_len();
        zmm[12].lanes_len();
        zmm[13].lanes_len();
        zmm[14].lanes_len();
        zmm[15].lanes_len();
    }
    let zr15 = U::network64bit2(zmm[15]);
    let zr14 = U::network64bit2(zmm[14]);
    let zr13 = U::network64bit2(zmm[13]);
    let zr12 = U::network64bit2(zmm[12]);
    let zr11 = U::network64bit2(zmm[11]);
    let zr10 = U::network64bit2(zmm[10]);
    let zr9 = U::network64bit2(zmm[9]);
    let zr8 = U::network64bit2(zmm[8]);
    let t0 = U::min(zmm[0], zr15);
    let t1 = U::min(zmm[1], zr14);
    let t2 = U::min(zmm[2], zr13);
    let t3 = U::min(zmm[3], zr12);
    let t4 = U::min(zmm[4], zr11);
    let t5 = U::min(zmm[5], zr10);
    let t6 = U::min(zmm[6], zr9);
    let t7 = U::min(zmm[7], zr8);
    let m0 = U::max(zmm[0], zr15);
    let m1 = U::max(zmm[1], zr14);
    let m2 = U::max(zmm[2], zr13);
    let m3 = U::max(zmm[3], zr12);
    let m4 = U::max(zmm[4], zr11);
    let m5 = U::max(zmm[5], zr10);
    let m6 = U::max(zmm[6], zr9);
    let m7 = U::max(zmm[7], zr8);
    let t8 = U::network64bit2(m7);
    let t9 = U::network64bit2(m6);
    let t10 = U::network64bit2(m5);
    let t11 = U::network64bit2(m4);
    let t12 = U::network64bit2(m3);
    let t13 = U::network64bit2(m2);
    let t14 = U::network64bit2(m1);
    let t15 = U::network64bit2(m0);
    proof {
        crate::lemma_coex_pair(zmm[0].lanes()[0], zr15.lanes()[0], t0.lanes()[0], m0.lanes()[0]);
        crate::lemma_coex_pair(zmm[0].lanes()[1], zr15.lanes()[1], t0.lanes()[1], m0.lanes()[1]);
        crate::lemma_coex_pair(zmm[0].lanes()[2], zr15.lanes()[2], t0.lanes()[2], m0.lanes()[2]);
        crate::lemma_coex_pair(zmm[0].lanes()[3], zr15.lanes()[3], t0.lanes()[3], m0.lanes()[3]);
        crate::lemma_coex_pair(zmm[0].lanes()[4], zr15.lanes()[4], t0.lanes()[4], m0.lanes()[4]);
        crate::lemma_coex_pair(zmm[0].lanes()[5], zr15.lanes()[5], t0.lanes()[5], m0.lanes()[5]);
        crate::lemma_coex_pair(zmm[0].lanes()[6], zr15.lanes()[6], t0.lanes()[6], m0.lanes()[6]);
        crate::lemma_coex_pair(zmm[0].lanes()[7], zr15.lanes()[7], t0.lanes()[7], m0.lanes()[7]);
        crate::lemma_coex_pair(zmm[1].lanes()[0], zr14.lanes()[0], t1.lanes()[0], m1.lanes()[0]);
        crate::lemma_coex_pair(zmm[1].lanes()[1], zr14.lanes()[1], t1.lanes()[1], m1.lanes()[1]);
        crate::lemma_coex_pair(zmm[1].lanes()[2], zr14.lanes()[2], t1.lanes()[2], m1.lanes()[2]);
        crate::lemma_coex_pair(zmm[1].lanes()[3], zr14.lanes()[3], t1.lanes()[3], m1.lanes()[3]);
        crate::lemma_coex_pair(zmm[1].lanes()[4], zr14.lanes()[4], t1.lanes()[4], m1.lanes()[4]);
        crate::lemma_coex_pair(zmm[1].lanes()[5], zr14.lanes()[5], t1.lanes()[5], m1.lanes()[5]);
        crate::lemma_coex_pair(zmm[1].lanes()[6], zr14.lanes()[6], t1.lanes()[6], m1.lanes()[6]);
        crate::lemma_coex_pair(zmm[1].lanes()[7], zr14.lanes()[7], t1.lanes()[7], m1.lanes()[7]);
        crate::lemma_coex_pair(zmm[2].lanes()[0], zr13.lanes()[0], t2.lanes()[0], m2.lanes()[0]);
        crate::lemma_coex_pair(zmm[2].lanes()[1], zr13.lanes()[1], t2.lanes()[1], m2.lanes()[1]);
        crate::lemma_coex_pair(zmm[2].lanes()[2], zr13.lanes()[2], t2.lanes()[2], m2.lanes()[2]);
        crate::lemma_coex_pair(zmm[2].lanes()[3], zr13.lanes()[3], t2.lanes()[3], m2.lanes()[3]);
        crate::lemma_coex_pair(zmm[2].lanes()[4], zr13.lanes()[4], t2.lanes()[4], m2.lanes()[4]);
        crate::lemma_coex_pair(zmm[2].lanes()[5], zr13.lanes()[5], t2.lanes()[5], m2.lanes()[5]);
        crate::lemma_coex_pair(zmm[2].lanes()[6], zr13.lanes()[6], t2.lanes()[6], m2.lanes()[6]);
        crate::lemma_coex_pair(zmm[2].lanes()[7], zr13.lanes()[7], t2.lanes()[7], m2.lanes()[7]);
        crate::lemma_coex_pair(zmm[3].lanes()[0], zr12.lanes()[0], t3.lanes()[0], m3.lanes()[0]);
        crate::lemma_coex_pair(zmm[3].lanes()[1], zr12.lanes()[1], t3.lanes()[1], m3.lanes()[1]);
        crate::lemma_coex_pair(zmm[3].lanes()[2], zr12.lanes()[2], t3.lanes()[2], m3.lanes()[2]);
        crate::lemma_coex_pair(zmm[3].lanes()[3], zr12.lanes()[3], t3.lanes()[3], m3.lanes()[3]);
        crate::lemma_coex_pair(zmm[3].lanes()[4], zr12.lanes()[4], t3.lanes()[4], m3.lanes()[4]);
        crate::lemma_coex_pair(zmm[3].lanes()[5], zr12.lanes()[5], t3.lanes()[5], m3.lanes()[5]);
        crate::lemma_coex_pair(zmm[3].lanes()[6], zr12.lanes()[6], t3.lanes()[6], m3.lanes()[6]);
        crate::lemma_coex_pair(zmm[3].lanes()[7], zr12.lanes()[7], t3.lanes()[7], m3.lanes()[7]);
        crate::lemma_coex_pair(zmm[4].lanes()[0], zr11.lanes()[0], t4.lanes()[0], m4.lanes()[0]);
        crate::lemma_coex_pair(zmm[4].lanes()[1], zr11.lanes()[1], t4.lanes()[1], m4.lanes()[1]);
        crate::lemma_coex_pair(zmm[4].lanes()[2], zr11.lanes()[2], t4.lanes()[2], m4.lanes()[2]);
        crate::lemma_coex_pair(zmm[4].lanes()[3], zr11.lanes()[3], t4.lanes()[3], m4.lanes()[3]);
        crate::lemma_coex_pair(zmm[4].lanes()[4], zr11.lanes()[4], t4.lanes()[4], m4.lanes()[4]);
        crate::lemma_coex_pair(zmm[4].lanes()[5], zr11.lanes()[5], t4.lanes()[5], m4.lanes()[5]);
        crate::lemma_coex_pair(zmm[4].lanes()[6], zr11.lanes()[6], t4.lanes()[6], m4.lanes()[6]);
        crate::lemma_coex_pair(zmm[4].lanes()[7], zr11.lanes()[7], t4.lanes()[7], m4.lanes()[7]);
        crate::lemma_coex_pair(zmm[5].lanes()[0], zr10.lanes()[0], t5.lanes()[0], m5.lanes()[0]);
        crate::lemma_coex_pair(zmm[5].lanes()[1], zr10.lanes()[1], t5.lanes()[1], m5.lanes()[1]);
        crate::lemma_coex_pair(zmm[5].lanes()[2], zr10.lanes()[2], t5.lanes()[2], m5.lanes()[2]);
        crate::lemma_coex_pair(zmm[5].lanes()[3], zr10.lanes()[3], t5.lanes()[3], m5.lanes()[3]);
        crate::lemma_coex_pair(zmm[5].lanes()[4], zr10.lanes()[4], t5.lanes()[4], m5.lanes()[4]);
        crate::lemma_coex_pair(zmm[5].lanes()[5], zr10.lanes()[5], t5.lanes()[5], m5.lanes()[5]);
        crate::lemma_coex_pair(zmm[5].lanes()[6], zr10.lanes()[6], t5.lanes()[6], m5.lanes()[6]);
        crate::lemma_coex_pair(zmm[5].lanes()[7], zr10.lanes()[7], t5.lanes()[7], m5.lanes()[7]);
        crate::lemma_coex_pair(zmm[6].lanes()[0], zr9.lanes()[0], t6.lanes()[0], m6.lanes()[0]);
        crate::lemma_coex_pair(zmm[6].lanes()[1], zr9.lanes()[1], t6.lanes()[1], m6.lanes()[1]);
        crate::lemma_coex_pair(zmm[6].lanes()[2], zr9.lanes()[2], t6.lanes()[2], m6.lanes()[2]);
        crate::lemma_coex_pair(zmm[6].lanes()[3], zr9.lanes()[3], t6.lanes()[3], m6.lanes()[3]);
        crate::lemma_coex_pair(zmm[6].lanes()[4], zr9.lanes()[4], t6.lanes()[4], m6.lanes()[4]);
        crate::lemma_coex_pair(zmm[6].lanes()[5], zr9.lanes()[5], t6.lanes()[5], m6.lanes()[5]);
        crate::lemma_coex_pair(zmm[6].lanes()[6], zr9.lanes()[6], t6.lanes()[6], m6.lanes()[6]);
        crate::lemma_coex_pair(zmm[6].lanes()[7], zr9.lanes()[7], t6.lanes()[7], m6.lanes()[7]);
        crate::lemma_coex_pair(zmm[7].lanes()[0], zr8.lanes()[0], t7.lanes()[0], m7.lanes()[0]);
        crate::lemma_coex_pair(zmm[7].lanes()[1], zr8.lanes()[1], t7.lanes()[1], m7.lanes()[1]);
        crate::lemma_coex_pair(zmm[7].lanes()[2], zr8.lanes()[2], t7.lanes()[2], m7.lanes()[2]);
        crate::lemma_coex_pair(zmm[7].lanes()[3], zr8.lanes()[3], t7.lanes()[3], m7.lanes()[3]);
        crate::lemma_coex_pair(zmm[7].lanes()[4], zr8.lanes()[4], t7.lanes()[4], m7.lanes()[4]);
        crate::lemma_coex_pair(zmm[7].lanes()[5], zr8.lanes()[5], t7.lanes()[5], m7.lanes()[5]);
        crate::lemma_coex_pair(zmm[7].lanes()[6], zr8.lanes()[6], t7.lanes()[6], m7.lanes()[6]);
        crate::lemma_coex_pair(zmm[7].lanes()[7], zr8.lanes()[7], t7.lanes()[7], m7.lanes()[7]);
        let ka = crate::bitonic::keys_of(zmm[0].lanes() + zmm[1].lanes() + zmm[2].lanes() + zmm[3].lanes() + zmm[4].lanes() + zmm[5].lanes() + zmm[6].lanes() + zmm[7].lanes());
        let kb = crate::bitonic::keys_of(zmm[8].lanes() + zmm[9].lanes() + zmm[10].lanes() + zmm[11].lanes() + zmm[12].lanes() + zmm[13].lanes() + zmm[14].lanes() + zmm[15].lanes());
        crate::bitonic::lemma_top_merge(ka, kb, 64);
        let w = ka + kb.reverse();
        assert forall|i: int| 0 <= i < 64 implies #[trigger] crate::bitonic::keys_of(
            t0.lanes() + t1.lanes() + t2.lanes() + t3.lanes() + t4.lanes() + t5.lanes() + t6.lanes() + t7.lanes(),
        )[i] == crate::bitonic::clean_lo(w, 64)[i] by {
            if i < 8 {
                assert(((t0.lanes() + t1.lanes() + t2.lanes() + t3.lanes() + t4.lanes() + t5.lanes() + t6.lanes() + t7.lanes()))[i] == t0.lanes()[i - 0]);
                assert(w[i] == zmm[0].lanes()[i - 0].key());
                assert(w[i + 64] == kb.reverse()[i]);
                assert(kb.reverse()[i] == kb[64 - 1 - i]);
                assert(kb[64 - 1 - i] == zmm[15].lanes()[8 - 1 - i].key());
                assert(zr15.lanes()[i - 0] == zmm[15].lanes()[8 - 1 - i]);
            }
            else if i < 16 {
                assert(((t0.lanes() + t1.lanes() + t2.lanes() + t3.lanes() + t4.lanes() + t5.lanes() + t6.lanes() + t7.lanes()))[i] == t1.lanes()[i - 8]);
                assert(w[i] == zmm[1].lanes()[i - 8].key());
                assert(w[i + 64] == kb.reverse()[i]);
                assert(kb.reverse()[i] == kb[64 - 1 - i]);
                assert(kb[64 - 1 - i] == zmm[14].lanes()[16 - 1 - i].key());
                assert(zr14.lanes()[i - 8] == zmm[14].lanes()[16 - 1 - i]);
            }
            else if i < 24 {
                assert(((t0.lanes() + t1.lanes() + t2.lanes() + t3.lanes() + t4.lanes() + t5.lanes() + t6.lanes() + t7.lanes()))[i] == t2.lanes()[i - 16]);
                assert(w[i] == zmm[2].lanes()[i - 16].key());
                assert(w[i + 64] == kb.reverse()[i]);
                assert(kb.reverse()[i] == kb[64 - 1 - i]);
                assert(kb[64 - 1 - i] == zmm[13].lanes()[24 - 1 - i].key());
                assert(zr13.lanes()[i - 16] == zmm[13].lanes()[24 - 1 - i]);
            }
            else if i < 32 {
                assert(((t0.lanes() + t1.lanes() + t2.lanes() + t3.lanes() + t4.lanes() + t5.lanes() + t6.lanes() + t7.lanes()))[i] == t3.lanes()[i - 24]);
                assert(w[i] == zmm[3].lanes()[i - 24].key());
                assert(w[i + 64] == kb.reverse()[i]);
                assert(kb.reverse()[i] == kb[64 - 1 - i]);
                assert(kb[64 - 1 - i] == zmm[12].lanes()[32 - 1 - i].key());
                assert(zr12.lanes()[i - 24] == zmm[12].lanes()[32 - 1 - i]);
            }
            else if i < 40 {
                assert(((t0.lanes() + t1.lanes() + t2.lanes() + t3.lanes() + t4.lanes() + t5.lanes() + t6.lanes() + t7.lanes()))[i] == t4.lanes()[i - 32]);
                assert(w[i] == zmm[4].lanes()[i - 32].key());
                assert(w[i + 64] == kb.reverse()[i]);
                assert(kb.reverse()[i] == kb[64 - 1 - i]);
                assert(kb[64 - 1 - i] == zmm[11].lanes()[40 - 1 - i].key());
                assert(zr11.lanes()[i - 32] == zmm[11].lanes()[40 - 1 - i]);
            }
            else if i < 48 {
                assert(((t0.lanes() + t1.lanes() + t2.lanes() + t3.lanes() + t4.lanes() + t5.lanes() + t6.lanes() + t7.lanes()))[i] == t5.lanes()[i - 40]);
                assert(w[i] == zmm[5].lanes()[i - 40].key());
                assert(w[i + 64] == kb.reverse()[i]);
                assert(kb.reverse()[i] == kb[64 - 1 - i]);
                assert(kb[64 - 1 - i] == zmm[10].lanes()[48 - 1 - i].key());
                assert(zr10.lanes()[i - 40] == zmm[10].lanes()[48 - 1 - i]);
            }
            else if i < 56 {
                assert(((t0.lanes() + t1.lanes() + t2.lanes() + t3.lanes() + t4.lanes() + t5.lanes() + t6.lanes() + t7.lanes()))[i] == t6.lanes()[i - 48]);
                assert(w[i] == zmm[6].lanes()[i - 48].key());
                assert(w[i + 64] == kb.reverse()[i]);
                assert(kb.reverse()[i] == kb[64 - 1 - i]);
                assert(kb[64 - 1 - i] == zmm[9].lanes()[56 - 1 - i].key());
                assert(zr9.lanes()[i - 48] == zmm[9].lanes()[56 - 1 - i]);
            }
            else if i < 64 {
                assert(((t0.lanes() + t1.lanes() + t2.lanes() + t3.lanes() + t4.lanes() + t5.lanes() + t6.lanes() + t7.lanes()))[i] == t7.lanes()[i - 56]);
                assert(w[i] == zmm[7].lanes()[i - 56].key());
                assert(w[i + 64] == kb.reverse()[i]);
                assert(kb.reverse()[i] == kb[64 - 1 - i]);
                assert(kb[64 - 1 - i] == zmm[8].lanes()[64 - 1 - i].key());
                assert(zr8.lanes()[i - 56] == zmm[8].lanes()[64 - 1 - i]);
            }
        }
        assert forall|i: int| 0 <= i < 64 implies #[trigger] crate::bitonic::keys_of(
            t8.lanes() + t9.lanes() + t10.lanes() + t11.lanes() + t12.lanes() + t13.lanes() + t14.lanes() + t15.lanes(),
        )[i] == crate::bitonic::clean_hi(w, 64)[64 - 1 - i] by {
            if i < 8 {
                assert(((t8.lanes() + t9.lanes() + t10.lanes() + t11.lanes() + t12.lanes() + t13.lanes() + t14.lanes() + t15.lanes()))[i] == t8.lanes()[i - 0]);
                assert(t8.lanes()[i - 0] == m7.lanes()[8 - 1 - i]);
                assert(w[64 - 1 - i] == zmm[7].lanes()[8 - 1 - i].key());
                assert(w[2 * 64 - 1 - i] == kb.reverse()[64 - 1 - i]);
                assert(kb.reverse()[64 - 1 - i] == kb[i]);
                assert(kb[i] == zmm[8].lanes()[i - 0].key());
                assert(zr8.lanes()[8 - 1 - i] == zmm[8].lanes()[i - 0]);
            }
            else if i < 16 {
                assert(((t8.lanes() + t9.lanes() + t10.lanes() + t11.lanes() + t12.lanes() + t13.lanes() + t14.lanes() + t15.lanes()))[i] == t9.lanes()[i - 8]);
                assert(t9.lanes()[i - 8] == m6.lanes()[16 - 1 - i]);
                assert(w[64 - 1 - i] == zmm[6].lanes()[16 - 1 - i].key());
                assert(w[2 * 64 - 1 - i] == kb.reverse()[64 - 1 - i]);
                assert(kb.reverse()[64 - 1 - i] == kb[i]);
                assert(kb[i] == zmm[9].lanes()[i - 8].key());
                assert(zr9.lanes()[16 - 1 - i] == zmm[9].lanes()[i - 8]);
            }
            else if i < 24 {
                assert(((t8.lanes() + t9.lanes() + t10.lanes() + t11.lanes() + t12.lanes() + t13.lanes() + t14.lanes() + t15.lanes()))[i] == t10.lanes()[i - 16]);
                assert(t10.lanes()[i - 16] == m5.lanes()[24 - 1 - i]);
                assert(w[64 - 1 - i] == zmm[5].lanes()[24 - 1 - i].key());
                assert(w[2 * 64 - 1 - i] == kb.reverse()[64 - 1 - i]);
                assert(kb.reverse()[64 - 1 - i] == kb[i]);
                assert(kb[i] == zmm[10].lanes()[i - 16].key());
                assert(zr10.lanes()[24 - 1 - i] == zmm[10].lanes()[i - 16]);
            }
            else if i < 32 {
                assert(((t8.lanes() + t9.lanes() + t10.lanes() + t11.lanes() + t12.lanes() + t13.lanes() + t14.lanes() + t15.lanes()))[i] == t11.lanes()[i - 24]);
                assert(t11.lanes()[i - 24] == m4.lanes()[32 - 1 - i]);
                assert(w[64 - 1 - i] == zmm[4].lanes()[32 - 1 - i].key());
                assert(w[2 * 64 - 1 - i] == kb.reverse()[64 - 1 - i]);
                assert(kb.reverse()[64 - 1 - i] == kb[i]);
                assert(kb[i] == zmm[11].lanes()[i - 24].key());
                assert(zr11.lanes()[32 - 1 - i] == zmm[11].lanes()[i - 24]);
            }
            else if i < 40 {
                assert(((t8.lanes() + t9.lanes() + t10.lanes() + t11.lanes() + t12.lanes() + t13.lanes() + t14.lanes() + t15.lanes()))[i] == t12.lanes()[i - 32]);
                assert(t12.lanes()[i - 32] == m3.lanes()[40 - 1 - i]);
                assert(w[64 - 1 - i] == zmm[3].lanes()[40 - 1 - i].key());
                assert(w[2 * 64 - 1 - i] == kb.reverse()[64 - 1 - i]);
                assert(kb.reverse()[64 - 1 - i] == kb[i]);
                assert(kb[i] == zmm[12].lanes()[i - 32].key());
                assert(zr12.lanes()[40 - 1 - i] == zmm[12].lanes()[i - 32]);
            }
            else if i < 48 {
                assert(((t8.lanes() + t9.lanes() + t10.lanes() + t11.lanes() + t12.lanes() + t13.lanes() + t14.lanes() + t15.lanes()))[i] == t13.lanes()[i - 40]);
                assert(t13.lanes()[i - 40] == m2.lanes()[48 - 1 - i]);
                assert(w[64 - 1 - i] == zmm[2].lanes()[48 - 1 - i].key());
                assert(w[2 * 64 - 1 - i] == kb.reverse()[64 - 1 - i]);
                assert(kb.reverse()[64 - 1 - i] == kb[i]);
                assert(kb[i] == zmm[13].lanes()[i - 40].key());
                assert(zr13.lanes()[48 - 1 - i] == zmm[13].lanes()[i - 40]);
            }
            else if i < 56 {
                assert(((t8.lanes() + t9.lanes() + t10.lanes() + t11.lanes() + t12.lanes() + t13.lanes() + t14.lanes() + t15.lanes()))[i] == t14.lanes()[i - 48]);
                assert(t14.lanes()[i - 48] == m1.lanes()[56 - 1 - i]);
                assert(w[64 - 1 - i] == zmm[1].lanes()[56 - 1 - i].key());
                assert(w[2 * 64 - 1 - i] == kb.reverse()[64 - 1 - i]);
                assert(kb.reverse()[64 - 1 - i] == kb[i]);
                assert(kb[i] == zmm[14].lanes()[i - 48].key());
                assert(zr14.lanes()[56 - 1 - i] == zmm[14].lanes()[i - 48]);
            }
            else if i < 64 {
                assert(((t8.lanes() + t9.lanes() + t10.lanes() + t11.lanes() + t12.lanes() + t13.lanes() + t14.lanes() + t15.lanes()))[i] == t15.lanes()[i - 56]);
                assert(t15.lanes()[i - 56] == m0.lanes()[64 - 1 - i]);
                assert(w[64 - 1 - i] == zmm[0].lanes()[64 - 1 - i].key());
                assert(w[2 * 64 - 1 - i] == kb.reverse()[64 - 1 - i]);
                assert(kb.reverse()[64 - 1 - i] == kb[i]);
                assert(kb[i] == zmm[15].lanes()[i - 56].key());
                assert(zr15.lanes()[64 - 1 - i] == zmm[15].lanes()[i - 56]);
            }
        }
        assert(crate::bitonic::keys_of(t0.lanes() + t1.lanes() + t2.lanes() + t3.lanes() + t4.lanes() + t5.lanes() + t6.lanes() + t7.lanes()) =~= crate::bitonic::clean_lo(w, 64));
        assert(crate::bitonic::keys_of(t8.lanes() + t9.lanes() + t10.lanes() + t11.lanes() + t12.lanes() + t13.lanes() + t14.lanes() + t15.lanes()) =~= crate::bitonic::clean_hi(w, 64).reverse());
    }
    let (r0, r1, r2, r3, r4, r5, r6, r7) = clean_eight_64bit(t0, t1, t2, t3, t4, t5, t6, t7);
    let (r8, r9, r10, r11, r12, r13, r14, r15) = clean_eight_64bit(t8, t9, t10, t11, t12, t13, t14, t15);
    proof {
        let ka = crate::bitonic::keys_of(zmm[0].lanes() + zmm[1].lanes() + zmm[2].lanes() + zmm[3].lanes() + zmm[4].lanes() + zmm[5].lanes() + zmm[6].lanes() + zmm[7].lanes());
        let kb = crate::bitonic::keys_of(zmm[8].lanes() + zmm[9].lanes() + zmm[10].lanes() + zmm[11].lanes() + zmm[12].lanes() + zmm[13].lanes() + zmm[14].lanes() + zmm[15].lanes());
        let w = ka + kb.reverse();
        let lo = t0.lanes() + t1.lanes() + t2.lanes() + t3.lanes() + t4.lanes() + t5.lanes() + t6.lanes() + t7.lanes();
        let hi = t8.lanes() + t9.lanes() + t10.lanes() + t11.lanes() + t12.lanes() + t13.lanes() + t14.lanes() + t15.lanes();
        let fa = r0.lanes() + r1.lanes() + r2.lanes() + r3.lanes() + r4.lanes() + r5.lanes() + r6.lanes() + r7.lanes();
        let fb = r8.lanes() + r9.lanes() + r10.lanes() + r11.lanes() + r12.lanes() + r13.lanes() + r14.lanes() + r15.lanes();
        assert forall|i: int, j: int|
            0 <= i < 64 && 0 <= j < 64 implies (#[trigger] lo[i]).key() <= (
        #[trigger] hi[j]).key() by {
            assert(crate::bitonic::keys_of(lo)[i] == lo[i].key());
            assert(crate::bitonic::keys_of(hi)[j] == hi[j].key());
            assert(crate::bitonic::clean_lo(w, 64)[i] <= crate::bitonic::clean_hi(w, 64)[64 - 1
                - j]);
        }
        crate::bitonic::lemma_key_dom_perm(lo, hi, fa, fb);
        assert forall|i: int, j: int|
            0 <= i < fa.len() && 0 <= j < fb.len() implies #[trigger] crate::bitonic::keys_of(
            fa,
        )[i] <= #[trigger] crate::bitonic::keys_of(fb)[j] by {
            assert(crate::bitonic::keys_of(fa)[i] == fa[i].key());
            assert(crate::bitonic::keys_of(fb)[j] == fb[j].key());
        }
        crate::bitonic::lemma_concat_ascending(
            crate::bitonic::keys_of(fa),
            crate::bitonic::keys_of(fb),
        );
        crate::bitonic::lemma_keys_concat(fa, fb);
        assert(fa + fb =~= r0.lanes() + r1.lanes() + r2.lanes() + r3.lanes() + r4.lanes() + r5.lanes() + r6.lanes() + r7.lanes() + r8.lanes() + r9.lanes() + r10.lanes() + r11.lanes() + r12.lanes() + r13.lanes() + r14.lanes() + r15.lanes());
        vstd::seq_lib::lemma_multiset_commutative(fa, fb);
        vstd::seq_lib::lemma_multiset_commutative(lo, hi);
        assert(zr15.lanes() =~= zmm[15].lanes().reverse());
        zmm[15].lanes().lemma_reverse_to_multiset();
        assert(t8.lanes() =~= m7.lanes().reverse());
        m7.lanes().lemma_reverse_to_multiset();
        crate::bitonic::lemma_exchange_pair_multiset(
            zmm[0].lanes(),
            zr15.lanes(),
            t0.lanes(),
            m0.lanes(),
        );
        assert(zr14.lanes() =~= zmm[14].lanes().reverse());
        zmm[14].lanes().lemma_reverse_to_multiset();
        assert(t9.lanes() =~= m6.lanes().reverse());
        m6.lanes().lemma_reverse_to_multiset();
        crate::bitonic::lemma_exchange_pair_multiset(
            zmm[1].lanes(),
            zr14.lanes(),
            t1.lanes(),
            m1.lanes(),
        );
        assert(zr13.lanes() =~= zmm[13].lanes().reverse());
        zmm[13].lanes().lemma_reverse_to_multiset();
        assert(t10.lanes() =~= m5.lanes().reverse());
        m5.lanes().lemma_reverse_to_multiset();
        crate::bitonic::lemma_exchange_pair_multiset(
            zmm[2].lanes(),
            zr13.lanes(),
            t2.lanes(),
            m2.lanes(),
        );
        assert(zr12.lanes() =~= zmm[12].lanes().reverse());
        zmm[12].lanes().lemma_reverse_to_multiset();
        assert(t11.lanes() =~= m4.lanes().reverse());
        m4.lanes().lemma_reverse_to_multiset();
        crate::bitonic::lemma_exchange_pair_multiset(
            zmm[3].lanes(),
            zr12.lanes(),
            t3.lanes(),
            m3.lanes(),
        );
        assert(zr11.lanes() =~= zmm[11].lanes().reverse());
        zmm[11].lanes().lemma_reverse_to_multiset();
        assert(t12.lanes() =~= m3.lanes().reverse());
        m3.lanes().lemma_reverse_to_multiset();
        crate::bitonic::lemma_exchange_pair_multiset(
            zmm[4].lanes(),
            zr11.lanes(),
            t4.lanes(),
            m4.lanes(),
        );
        assert(zr10.lanes() =~= zmm[10].lanes().reverse());
        zmm[10].lanes().lemma_reverse_to_multiset();
        assert(t13.lanes() =~= m2.lanes().reverse());
        m2.lanes().lemma_reverse_to_multiset();
        crate::bitonic::lemma_exchange_pair_multiset(
            zmm[5].lanes(),
            zr10.lanes(),
            t5.lanes(),
            m5.lanes(),
        );
        assert(zr9.lanes() =~= zmm[9].lanes().reverse());
        zmm[9].lanes().lemma_reverse_to_multiset();
        assert(t14.lanes() =~= m1.lanes().reverse());
        m1.lanes().lemma_reverse_to_multiset();
        crate::bitonic::lemma_exchange_pair_multiset(
            zmm[6].lanes(),
            zr9.lanes(),
            t6.lanes(),
            m6.lanes(),
        );
        assert(zr8.lanes() =~= zmm[8].lanes().reverse());
        zmm[8].lanes().lemma_reverse_to_multiset();
        assert(t15.lanes() =~= m0.lanes().reverse());
        m0.lanes().lemma_reverse_to_multiset();
        crate::bitonic::lemma_exchange_pair_multiset(
            zmm[7].lanes(),
            zr8.lanes(),
            t7.lanes(),
            m7.lanes(),
        );
        assert forall|x: T|
            (r0.lanes() + r1.lanes() + r2.lanes() + r3.lanes() + r4.lanes() + r5.lanes() + r6.lanes() + r7.lanes() + r8.lanes() + r9.lanes() + r10.lanes() + r11.lanes() + r12.lanes() + r13.lanes() + r14.lanes() + r15.lanes()).to_multiset().count(x) == (zmm[0].lanes() + zmm[1].lanes() + zmm[2].lanes() + zmm[3].lanes() + zmm[4].lanes() + zmm[5].lanes() + zmm[6].lanes() + zmm[7].lanes() + zmm[8].lanes() + zmm[9].lanes() + zmm[10].lanes() + zmm[11].lanes() + zmm[12].lanes() + zmm[13].lanes() + zmm[14].lanes() + zmm[15].lanes()).to_multiset().count(x) by {
            broadcast use vstd::seq_lib::lemma_multiset_commutative;

            assert(t0.lanes().to_multiset().add(m0.lanes().to_multiset()).count(x)
                == zmm[0].lanes().to_multiset().add(zr15.lanes().to_multiset()).count(x));
            assert(t8.lanes().to_multiset().count(x) == m7.lanes().to_multiset().count(x));
            assert(zr15.lanes().to_multiset().count(x) == zmm[15].lanes().to_multiset().count(x));
            assert(t1.lanes().to_multiset().add(m1.lanes().to_multiset()).count(x)
                == zmm[1].lanes().to_multiset().add(zr14.lanes().to_multiset()).count(x));
            assert(t9.lanes().to_multiset().count(x) == m6.lanes().to_multiset().count(x));
            assert(zr14.lanes().to_multiset().count(x) == zmm[14].lanes().to_multiset().count(x));
            assert(t2.lanes().to_multiset().add(m2.lanes().to_multiset()).count(x)
                == zmm[2].lanes().to_multiset().add(zr13.lanes().to_multiset()).count(x));
            assert(t10.lanes().to_multiset().count(x) == m5.lanes().to_multiset().count(x));
            assert(zr13.lanes().to_multiset().count(x) == zmm[13].lanes().to_multiset().count(x));
            assert(t3.lanes().to_multiset().add(m3.lanes().to_multiset()).count(x)
                == zmm[3].lanes().to_multiset().add(zr12.lanes().to_multiset()).count(x));
            assert(t11.lanes().to_multiset().count(x) == m4.lanes().to_multiset().count(x));
            assert(zr12.lanes().to_multiset().count(x) == zmm[12].lanes().to_multiset().count(x));
            assert(t4.lanes().to_multiset().add(m4.lanes().to_multiset()).count(x)
                == zmm[4].lanes().to_multiset().add(zr11.lanes().to_multiset()).count(x));
            assert(t12.lanes().to_multiset().count(x) == m3.lanes().to_multiset().count(x));
            assert(zr11.lanes().to_multiset().count(x) == zmm[11].lanes().to_multiset().count(x));
            assert(t5.lanes().to_multiset().add(m5.lanes().to_multiset()).count(x)
                == zmm[5].lanes().to_multiset().add(zr10.lanes().to_multiset()).count(x));
            assert(t13.lanes().to_multiset().count(x) == m2.lanes().to_multiset().count(x));
            assert(zr10.lanes().to_multiset().count(x) == zmm[10].lanes().to_multiset().count(x));
            assert(t6.lanes().to_multiset().add(m6.lanes().to_multiset()).count(x)
                == zmm[6].lanes().to_multiset().add(zr9.lanes().to_multiset()).count(x));
            assert(t14.lanes().to_multiset().count(x) == m1.lanes().to_multiset().count(x));
            assert(zr9.lanes().to_multiset().count(x) == zmm[9].lanes().to_multiset().count(x));
            assert(t7.lanes().to_multiset().add(m7.lanes().to_multiset()).count(x)
                == zmm[7].lanes().to_multiset().add(zr8.lanes().to_multiset()).count(x));
            assert(t15.lanes().to_multiset().count(x) == m0.lanes().to_multiset().count(x));
            assert(zr8.lanes().to_multiset().count(x) == zmm[8].lanes().to_multiset().count(x));
        }
        assert((r0.lanes() + r1.lanes() + r2.lanes() + r3.lanes() + r4.lanes() + r5.lanes() + r6.lanes() + r7.lanes() + r8.lanes() + r9.lanes() + r10.lanes() + r11.lanes() + r12.lanes() + r13.lanes() + r14.lanes() + r15.lanes()).to_multiset() =~= (zmm[0].lanes() + zmm[1].lanes() + zmm[2].lanes() + zmm[3].lanes() + zmm[4].lanes() + zmm[5].lanes() + zmm[6].lanes() + zmm[7].lanes() + zmm[8].lanes() + zmm[9].lanes() + zmm[10].lanes() + zmm[11].lanes() + zmm[12].lanes() + zmm[13].lanes() + zmm[14].lanes() + zmm[15].lanes()).to_multiset());
    }
    let r = [r0, r1, r2, r3, r4, r5, r6, r7, r8, r9, r10, r11, r12, r13, r14, r15];
    r
}


/// Sort up to eight elements in place: one masked load, the eight-lane
/// network, one masked store.
#[verifier::rlimit(100)]
pub fn sort_8<T: Bit64Element, U: Bit64Simd<T>>(data: &mut Vec<T>, lo: usize, hi: usize)
    requires
        lo <= hi <= old(data).len(),
        hi - lo <= 8,
    ensures
        crate::bitonic::sorts_range(old(data)@, final(data)@, lo as int, hi as int),
{
    let k = hi - lo;
    let ghost orig = data@.subrange(lo as int, hi as int);
    let v = U::mask_loadu(data, lo, k);
    let r = sort_zmm_64bit(v);
    proof {
        assert(v.lanes() =~= orig + crate::bitonic::pad_max::<T>(8 - k));
        crate::bitonic::lemma_sentinel_strip(r.lanes(), orig, 8 - k);
    }
    U::mask_storeu(r, data, lo, k);
    proof {
        assert(data@.subrange(lo as int, hi as int) =~= r.lanes().subrange(0, k as int));
    }
}

/// Sort up to sixteen elements in place: two chunks sorted by the eight-lane
/// network and merged.
#[verifier::rlimit(100)]
pub fn sort_16<T: Bit64Element, U: Bit64Simd<T>>(data: &mut Vec<T>, lo: usize, hi: usize)
    requires
        lo <= hi <= old(data).len(),
        hi - lo <= 16,
    ensures
        crate::bitonic::sorts_range(old(data)@, final(data)@, lo as int, hi as int),
{
    let k = hi - lo;
    if k <= 8 {
        sort_8::<T, U>(data, lo, hi);
        return ;
    }
    let ghost orig = data@.subrange(lo as int, hi as int);
    let l1 = U::loadu(data, lo);
    let l2 = U::mask_loadu(data, lo + 8, k - 8);
    let mut z1 = sort_zmm_64bit(l1);
    let mut z2 = sort_zmm_64bit(l2);
    let ghost s1 = z1.lanes();
    let ghost s2 = z2.lanes();
    bitonic_merge_two_zmm_64bit(&mut z1, &mut z2);
    proof {
        assert(l1.lanes() + l2.lanes() =~= orig + crate::bitonic::pad_max::<T>(16 - k));
        vstd::seq_lib::lemma_multiset_commutative(l1.lanes(), l2.lanes());
        vstd::seq_lib::lemma_multiset_commutative(z1.lanes(), z2.lanes());
        vstd::seq_lib::lemma_multiset_commutative(s1, s2);
        assert((z1.lanes() + z2.lanes()).to_multiset() == (orig + crate::bitonic::pad_max::<T>(
            16 - k,
        )).to_multiset()) by {
            assert((z1.lanes() + z2.lanes()).to_multiset() == (s1 + s2).to_multiset());
            assert((s1 + s2).to_multiset() =~= (l1.lanes() + l2.lanes()).to_multiset());
        }
        crate::bitonic::lemma_sentinel_strip(z1.lanes() + z2.lanes(), orig, 16 - k);
    }
    U::storeu(z1, data, lo);
    U::mask_storeu(z2, data, lo + 8, k - 8);
    proof {
        assert(data@.subrange(lo as int, hi as int) =~= (z1.lanes() + z2.lanes()).subrange(
            0,
            k as int,
        ));
    }
}


/// Sort up to 32 elements in place: eight-lane chunks sorted by the network
/// and merged pairwise, missing chunks standing in as sentinel vectors.
#[verifier::rlimit(100)]
#[verifier::spinoff_prover]
pub fn sort_32<T: Bit64Element, U: Bit64Simd<T>>(data: &mut Vec<T>, lo: usize, hi: usize)
    requires
        lo <= hi <= old(data).len(),
        hi - lo <= 32,
    ensures
        crate::bitonic::sorts_range(old(data)@, final(data)@, lo as int, hi as int),
{
    let k = hi - lo;
    if k <= 16 {
        sort_16::<T, U>(data, lo, hi);
        return ;
    }
    let ghost orig = data@.subrange(lo as int, hi as int);
    let sentinel = T::max_value();
    let l0 = U::loadu(data, lo + 0);
    let l1 = U::loadu(data, lo + 8);
    let c2: usize = if k >= 24 {
        8
    } else if k > 16 {
        k - 16
    } else {
        0
    };
    let l2 = if c2 == 8 {
        U::loadu(data, lo + 16)
    } else if c2 > 0 {
        U::mask_loadu(data, lo + 16, c2)
    } else {
        U::set(sentinel)
    };
    let c3: usize = if k >= 32 {
        8
    } else if k > 24 {
        k - 24
    } else {
        0
    };
    let l3 = if c3 == 8 {
        U::loadu(data, lo + 24)
    } else if c3 > 0 {
        U::mask_loadu(data, lo + 24, c3)
    } else {
        U::set(sentinel)
    };

    let mut z0 = sort_zmm_64bit(l0);
    let mut z1 = sort_zmm_64bit(l1);
    let mut z2 = sort_zmm_64bit(l2);
    let mut z3 = sort_zmm_64bit(l3);
    proof {
        let lc = l0.lanes() + l1.lanes() + l2.lanes() + l3.lanes();
        assert forall|i: int| 0 <= i < 32 implies #[trigger] lc[i] == (orig
            + crate::bitonic::pad_max::<T>(32 - k))[i] by {
            if i < 8 {
                assert(lc[i] == l0.lanes()[i - 0]);
            }
            else if i < 16 {
                assert(lc[i] == l1.lanes()[i - 8]);
            }
            else if i < 24 {
                assert(lc[i] == l2.lanes()[i - 16]);
            }
            else if i < 32 {
                assert(lc[i] == l3.lanes()[i - 24]);
            }
        }
        assert(lc =~= orig + crate::bitonic::pad_max::<T>(32 - k));
    }
    let ghost s0 = z0.lanes();
    let ghost s1 = z1.lanes();
    let ghost s2 = z2.lanes();
    let ghost s3 = z3.lanes();
    bitonic_merge_two_zmm_64bit(&mut z0, &mut z1);
    bitonic_merge_two_zmm_64bit(&mut z2, &mut z3);
    let q0 = bitonic_merge_four_zmm_64bit([z0, z1, z2, z3]);
    proof {
        let lc = l0.lanes() + l1.lanes() + l2.lanes() + l3.lanes();
        let fc = q0[0].lanes() + q0[1].lanes() + q0[2].lanes() + q0[3].lanes();
        assert forall|x: T| fc.to_multiset().count(x) == lc.to_multiset().count(x) by {
            broadcast use vstd::seq_lib::lemma_multiset_commutative;

            assert((z0.lanes() + z1.lanes()).to_multiset().count(x) == (s0
                + s1).to_multiset().count(x));
            assert(s0.to_multiset().count(x) == l0.lanes().to_multiset().count(x));
            assert(s1.to_multiset().count(x) == l1.lanes().to_multiset().count(x));
            assert((z2.lanes() + z3.lanes()).to_multiset().count(x) == (s2
                + s3).to_multiset().count(x));
            assert(s2.to_multiset().count(x) == l2.lanes().to_multiset().count(x));
            assert(s3.to_multiset().count(x) == l3.lanes().to_multiset().count(x));
            assert((q0[0].lanes() + q0[1].lanes() + q0[2].lanes() + q0[3].lanes()).to_multiset().count(x)
                == (z0.lanes() + z1.lanes() + z2.lanes() + z3.lanes()).to_multiset().count(x));
        }
        assert(fc.to_multiset() =~= lc.to_multiset());
        crate::bitonic::lemma_sentinel_strip(fc, orig, 32 - k);
    }
    U::storeu(q0[0], data, lo + 0);
    U::storeu(q0[1], data, lo + 8);
    if c2 == 8 {
        U::storeu(q0[2], data, lo + 16);
    } else if c2 > 0 {
        U::mask_storeu(q0[2], data, lo + 16, c2);
    }
    if c3 == 8 {
        U::storeu(q0[3], data, lo + 24);
    } else if c3 > 0 {
        U::mask_storeu(q0[3], data, lo + 24, c3);
    }
    proof {
        let fc = q0[0].lanes() + q0[1].lanes() + q0[2].lanes() + q0[3].lanes();
        assert forall|i: int| 0 <= i < k implies data@[lo + i] == #[trigger] fc[i] by {
            if i < 8 {
                assert(data@[lo + i] == q0[0].lanes()[i - 0]);
                assert(fc[i] == q0[0].lanes()[i - 0]);
            }
            else if i < 16 {
                assert(data@[lo + i] == q0[1].lanes()[i - 8]);
                assert(fc[i] == q0[1].lanes()[i - 8]);
            }
            else if i < 24 {
                assert(data@[lo + i] == q0[2].lanes()[i - 16]);
                assert(fc[i] == q0[2].lanes()[i - 16]);
            }
            else if i < 32 {
                assert(data@[lo + i] == q0[3].lanes()[i - 24]);
                assert(fc[i] == q0[3].lanes()[i - 24]);
            }
        }
        assert(data@.subrange(lo as int, hi as int) =~= fc.subrange(0, k as int));
    }
}


/// Sort up to 64 elements in place: eight-lane chunks sorted by the network
/// and merged pairwise, missing chunks standing in as sentinel vectors.
#[verifier::rlimit(100)]
#[verifier::spinoff_prover]
pub fn sort_64<T: Bit64Element, U: Bit64Simd<T>>(data: &mut Vec<T>, lo: usize, hi: usize)
    requires
        lo <= hi <= old(data).len(),
        hi - lo <= 64,
    ensures
        crate::bitonic::sorts_range(old(data)@, final(data)@, lo as int, hi as int),
{
    let k = hi - lo;
    if k <= 32 {
        sort_32::<T, U>(data, lo, hi);
        return ;
    }
    let ghost orig = data@.subrange(lo as int, hi as int);
    let sentinel = T::max_value();
    let l0 = U::loadu(data, lo + 0);
    let l1 = U::loadu(data, lo + 8);
    let l2 = U::loadu(data, lo + 16);
    let l3 = U::loadu(data, lo + 24);
    let c4: usize = if k >= 40 {
        8
    } else if k > 32 {
        k - 32
    } else {
        0
    };
    let l4 = if c4 == 8 {
        U::loadu(data, lo + 32)
    } else if c4 > 0 {
        U::mask_loadu(data, lo + 32, c4)
    } else {
        U::set(sentinel)
    };
    let c5: usize = if k >= 48 {
        8
    } else if k > 40 {
        k - 40
    } else {
        0
    };
    let l5 = if c5 == 8 {
        U::loadu(data, lo + 40)
    } else if c5 > 0 {
        U::mask_loadu(data, lo + 40, c5)
    } else {
        U::set(sentinel)
    };
    let c6: usize = if k >= 56 {
        8
    } else if k > 48 {
        k - 48
    } else {
        0
    };
    let l6 = if c6 == 8 {
        U::loadu(data, lo + 48)
    } else if c6 > 0 {
        U::mask_loadu(data, lo + 48, c6)
    } else {
        U::set(sentinel)
    };
    let c7: usize = if k >= 64 {
        8
    } else if k > 56 {
        k - 56
    } else {
        0
    };
    let l7 = if c7 == 8 {
        U::loadu(data, lo + 56)
    } else if c7 > 0 {
        U::mask_loadu(data, lo + 56, c7)
    } else {
        U::set(sentinel)
    };

    let mut z0 = sort_zmm_64bit(l0);
    let mut z1 = sort_zmm_64bit(l1);
    let mut z2 = sort_zmm_64bit(l2);
    let mut z3 = sort_zmm_64bit(l3);
    let mut z4 = sort_zmm_64bit(l4);
    let mut z5 = sort_zmm_64bit(l5);
    let mut z6 = sort_zmm_64bit(l6);
    let mut z7 = sort_zmm_64bit(l7);
    proof {
        let lc = l0.lanes() + l1.lanes() + l2.lanes() + l3.lanes() + l4.lanes() + l5.lanes() + l6.lanes() + l7.lanes();
        assert forall|i: int| 0 <= i < 64 implies #[trigger] lc[i] == (orig
            + crate::bitonic::pad_max::<T>(64 - k))[i] by {
            if i < 8 {
                assert(lc[i] == l0.lanes()[i - 0]);
            }
            else if i < 16 {
                assert(lc[i] == l1.lanes()[i - 8]);
            }
            else if i < 24 {
                assert(lc[i] == l2.lanes()[i - 16]);
            }
            else if i < 32 {
                assert(lc[i] == l3.lanes()[i - 24]);
            }
            else if i < 40 {
                assert(lc[i] == l4.lanes()[i - 32]);
            }
            else if i < 48 {
                assert(lc[i] == l5.lanes()[i - 40]);
            }
            else if i < 56 {
                assert(lc[i] == l6.lanes()[i - 48]);
            }
            else if i < 64 {
                assert(lc[i] == l7.lanes()[i - 56]);
            }
        }
        assert(lc =~= orig + crate::bitonic::pad_max::<T>(64 - k));
    }
    let ghost s0 = z0.lanes();
    let ghost s1 = z1.lanes();
    let ghost s2 = z2.lanes();
    let ghost s3 = z3.lanes();
    let ghost s4 = z4.lanes();
    let ghost s5 = z5.lanes();
    let ghost s6 = z6.lanes();
    let ghost s7 = z7.lanes();
    bitonic_merge_two_zmm_64bit(&mut z0, &mut z1);
    bitonic_merge_two_zmm_64bit(&mut z2, &mut z3);
    bitonic_merge_two_zmm_64bit(&mut z4, &mut z5);
    bitonic_merge_two_zmm_64bit(&mut z6, &mut z7);
    let q0 = bitonic_merge_four_zmm_64bit([z0, z1, z2, z3]);
    let q4 = bitonic_merge_four_zmm_64bit([z4, z5, z6, z7]);
    let e0 = bitonic_merge_eight_zmm_64bit([q0[0], q0[1], q0[2], q0[3], q4[0], q4[1], q4[2], q4[3]]);
    proof {
        let lc = l0.lanes() + l1.lanes() + l2.lanes() + l3.lanes() + l4.lanes() + l5.lanes() + l6.lanes() + l7.lanes();
        let fc = e0[0].lanes() + e0[1].lanes() + e0[2].lanes() + e0[3].lanes() + e0[4].lanes() + e0[5].lanes() + e0[6].lanes() + e0[7].lanes();
        assert forall|x: T| fc.to_multiset().count(x) == lc.to_multiset().count(x) by {
            broadcast use vstd::seq_lib::lemma_multiset_commutative;

            assert((z0.lanes() + z1.lanes()).to_multiset().count(x) == (s0
                + s1).to_multiset().count(x));
            assert(s0.to_multiset().count(x) == l0.lanes().to_multiset().count(x));
            assert(s1.to_multiset().count(x) == l1.lanes().to_multiset().count(x));
            assert((z2.lanes() + z3.lanes()).to_multiset().count(x) == (s2
                + s3).to_multiset().count(x));
            assert(s2.to_multiset().count(x) == l2.lanes().to_multiset().count(x));
            assert(s3.to_multiset().count(x) == l3.lanes().to_multiset().count(x));
            assert((z4.lanes() + z5.lanes()).to_multiset().count(x) == (s4
                + s5).to_multiset().count(x));
            assert(s4.to_multiset().count(x) == l4.lanes().to_multiset().count(x));
            assert(s5.to_multiset().count(x) == l5.lanes().to_multiset().count(x));
            assert((z6.lanes() + z7.lanes()).to_multiset().count(x) == (s6
                + s7).to_multiset().count(x));
            assert(s6.to_multiset().count(x) == l6.lanes().to_multiset().count(x));
            assert(s7.to_multiset().count(x) == l7.lanes().to_multiset().count(x));
            assert((q0[0].lanes() + q0[1].lanes() + q0[2].lanes() + q0[3].lanes()).to_multiset().count(x)
                == (z0.lanes() + z1.lanes() + z2.lanes() + z3.lanes()).to_multiset().count(x));
            assert((q4[0].lanes() + q4[1].lanes() + q4[2].lanes() + q4[3].lanes()).to_multiset().count(x)
                == (z4.lanes() + z5.lanes() + z6.lanes() + z7.lanes()).to_multiset().count(x));
            assert((e0[0].lanes() + e0[1].lanes() + e0[2].lanes() + e0[3].lanes() + e0[4].lanes() + e0[5].lanes() + e0[6].lanes() + e0[7].lanes()).to_multiset().count(x)
                == (q0[0].lanes() + q0[1].lanes() + q0[2].lanes() + q0[3].lanes() + q4[0].lanes() + q4[1].lanes() + q4[2].lanes() + q4[3].lanes()).to_multiset().count(x));
        }
        assert(fc.to_multiset() =~= lc.to_multiset());
        crate::bitonic::lemma_sentinel_strip(fc, orig, 64 - k);
    }
    U::storeu(e0[0], data, lo + 0);
    U::storeu(e0[1], data, lo + 8);
    U::storeu(e0[2], data, lo + 16);
    U::storeu(e0[3], data, lo + 24);
    if c4 == 8 {
        U::storeu(e0[4], data, lo + 32);
    } else if c4 > 0 {
        U::mask_storeu(e0[4], data, lo + 32, c4);
    }
    if c5 == 8 {
        U::storeu(e0[5], data, lo + 40);
    } else if c5 > 0 {
        U::mask_storeu(e0[5], data, lo + 40, c5);
    }
    if c6 == 8 {
        U::storeu(e0[6], data, lo + 48);
    } else if c6 > 0 {
        U::mask_storeu(e0[6], data, lo + 48, c6);
    }
    if c7 == 8 {
        U::storeu(e0[7], data, lo + 56);
    } else if c7 > 0 {
        U::mask_storeu(e0[7], data, lo + 56, c7);
    }
    proof {
        let fc = e0[0].lanes() + e0[1].lanes() + e0[2].lanes() + e0[3].lanes() + e0[4].lanes() + e0[5].lanes() + e0[6].lanes() + e0[7].lanes();
        assert forall|i: int| 0 <= i < k implies data@[lo + i] == #[trigger] fc[i] by {
            if i < 8 {
                assert(data@[lo + i] == e0[0].lanes()[i - 0]);
                assert(fc[i] == e0[0].lanes()[i - 0]);
            }
            else if i < 16 {
                assert(data@[lo + i] == e0[1].lanes()[i - 8]);
                assert(fc[i] == e0[1].lanes()[i - 8]);
            }
            else if i < 24 {
                assert(data@[lo + i] == e0[2].lanes()[i - 16]);
                assert(fc[i] == e0[2].lanes()[i - 16]);
            }
            else if i < 32 {
                assert(data@[lo + i] == e0[3].lanes()[i - 24]);
                assert(fc[i] == e0[3].lanes()[i - 24]);
            }
            else if i < 40 {
                assert(data@[lo + i] == e0[4].lanes()[i - 32]);
                assert(fc[i] == e0[4].lanes()[i - 32]);
            }
            else if i < 48 {
                assert(data@[lo + i] == e0[5].lanes()[i - 40]);
                assert(fc[i] == e0[5].lanes()[i - 40]);
            }
            else if i < 56 {
                assert(data@[lo + i] == e0[6].lanes()[i - 48]);
                assert(fc[i] == e0[6].lanes()[i - 48]);
            }
            else if i < 64 {
                assert(data@[lo + i] == e0[7].lanes()[i - 56]);
                assert(fc[i] == e0[7].lanes()[i - 56]);
            }
        }
        assert(data@.subrange(lo as int, hi as int) =~= fc.subrange(0, k as int));
    }
}



/// Load up to 64 elements at `off` (padding with sentinels), sort each
/// eight-lane chunk with the network, and merge to one ascending 64-lane
/// run held in eight registers.
#[verifier::rlimit(100)]
#[verifier::spinoff_prover]
fn sort_block_64<T: Bit64Element, U: Bit64Simd<T>>(data: &Vec<T>, off: usize, avail: usize) -> (e:
    [U; 8])
    requires
        avail <= 64,
        off + avail <= data.len(),
    ensures
        forall|i: int| 0 <= i < 8 ==> (#[trigger] e[i].lanes()).len() == 8,
        crate::bitonic::ascending(
            crate::bitonic::keys_of(
                e[0].lanes() + e[1].lanes() + e[2].lanes() + e[3].lanes() + e[4].lanes()
                    + e[5].lanes() + e[6].lanes() + e[7].lanes(),
            ),
        ),
        (e[0].lanes() + e[1].lanes() + e[2].lanes() + e[3].lanes() + e[4].lanes() + e[5].lanes()
            + e[6].lanes() + e[7].lanes()).to_multiset() == (data@.subrange(
            off as int,
            off + avail,
        ) + crate::bitonic::pad_max::<T>(64 - avail)).to_multiset(),
{
    let ghost orig = data@.subrange(off as int, off + avail);
    let sentinel = T::max_value();
    let c0: usize = if avail >= 8 {
        8
    } else if avail > 0 {
        avail - 0
    } else {
        0
    };
    let l0 = if c0 == 8 {
        U::loadu(data, off + 0)
    } else if c0 > 0 {
        U::mask_loadu(data, off + 0, c0)
    } else {
        U::set(sentinel)
    };
    let c1: usize = if avail >= 16 {
        8
    } else if avail > 8 {
        avail - 8
    } else {
        0
    };
    let l1 = if c1 == 8 {
        U::loadu(data, off + 8)
    } else if c1 > 0 {
        U::mask_loadu(data, off + 8, c1)
    } else {
        U::set(sentinel)
    };
    let c2: usize = if avail >= 24 {
        8
    } else if avail > 16 {
        avail - 16
    } else {
        0
    };
    let l2 = if c2 == 8 {
        U::loadu(data, off + 16)
    } else if c2 > 0 {
        U::mask_loadu(data, off + 16, c2)
    } else {
        U::set(sentinel)
    };
    let c3: usize = if avail >= 32 {
        8
    } else if avail > 24 {
        avail - 24
    } else {
        0
    };
    let l3 = if c3 == 8 {
        U::loadu(data, off + 24)
    } else if c3 > 0 {
        U::mask_loadu(data, off + 24, c3)
    } else {
        U::set(sentinel)
    };
    let c4: usize = if avail >= 40 {
        8
    } else if avail > 32 {
        avail - 32
    } else {
        0
    };
    let l4 = if c4 == 8 {
        U::loadu(data, off + 32)
    } else if c4 > 0 {
        U::mask_loadu(data, off + 32, c4)
    } else {
        U::set(sentinel)
    };
    let c5: usize = if avail >= 48 {
        8
    } else if avail > 40 {
        avail - 40
    } else {
        0
    };
    let l5 = if c5 == 8 {
        U::loadu(data, off + 40)
    } else if c5 > 0 {
        U::mask_loadu(data, off + 40, c5)
    } else {
        U::set(sentinel)
    };
    let c6: usize = if avail >= 56 {
        8
    } else if avail > 48 {
        avail - 48
    } else {
        0
    };
    let l6 = if c6 == 8 {
        U::loadu(data, off + 48)
    } else if c6 > 0 {
        U::mask_loadu(data, off + 48, c6)
    } else {
        U::set(sentinel)
    };
    let c7: usize = if avail >= 64 {
        8
    } else if avail > 56 {
        avail - 56
    } else {
        0
    };
    let l7 = if c7 == 8 {
        U::loadu(data, off + 56)
    } else if c7 > 0 {
        U::mask_loadu(data, off + 56, c7)
    } else {
        U::set(sentinel)
    };

    let mut z0 = sort_zmm_64bit(l0);
    let mut z1 = sort_zmm_64bit(l1);
    let mut z2 = sort_zmm_64bit(l2);
    let mut z3 = sort_zmm_64bit(l3);
    let mut z4 = sort_zmm_64bit(l4);
    let mut z5 = sort_zmm_64bit(l5);
    let mut z6 = sort_zmm_64bit(l6);
    let mut z7 = sort_zmm_64bit(l7);
    proof {
        let lc = l0.lanes() + l1.lanes() + l2.lanes() + l3.lanes() + l4.lanes() + l5.lanes() + l6.lanes() + l7.lanes();
        assert forall|i: int| 0 <= i < 64 implies #[trigger] lc[i] == (orig
            + crate::bitonic::pad_max::<T>(64 - avail))[i] by {
            if i < 8 {
                assert(lc[i] == l0.lanes()[i - 0]);
            }
            else if i < 16 {
                assert(lc[i] == l1.lanes()[i - 8]);
            }
            else if i < 24 {
                assert(lc[i] == l2.lanes()[i - 16]);
            }
            else if i < 32 {
                assert(lc[i] == l3.lanes()[i - 24]);
            }
            else if i < 40 {
                assert(lc[i] == l4.lanes()[i - 32]);
            }
            else if i < 48 {
                assert(lc[i] == l5.lanes()[i - 40]);
            }
            else if i < 56 {
                assert(lc[i] == l6.lanes()[i - 48]);
            }
            else if i < 64 {
                assert(lc[i] == l7.lanes()[i - 56]);
            }
        }
        assert(lc =~= orig + crate::bitonic::pad_max::<T>(64 - avail));
    }
    let ghost s0 = z0.lanes();
    let ghost s1 = z1.lanes();
    let ghost s2 = z2.lanes();
    let ghost s3 = z3.lanes();
    let ghost s4 = z4.lanes();
    let ghost s5 = z5.lanes();
    let ghost s6 = z6.lanes();
    let ghost s7 = z7.lanes();
    bitonic_merge_two_zmm_64bit(&mut z0, &mut z1);
    bitonic_merge_two_zmm_64bit(&mut z2, &mut z3);
    bitonic_merge_two_zmm_64bit(&mut z4, &mut z5);
    bitonic_merge_two_zmm_64bit(&mut z6, &mut z7);
    let q0 = bitonic_merge_four_zmm_64bit([z0, z1, z2, z3]);
    let q4 = bitonic_merge_four_zmm_64bit([z4, z5, z6, z7]);
    let e = bitonic_merge_eight_zmm_64bit([q0[0], q0[1], q0[2], q0[3], q4[0], q4[1], q4[2], q4[3]]);
    proof {
        let lc = l0.lanes() + l1.lanes() + l2.lanes() + l3.lanes() + l4.lanes() + l5.lanes() + l6.lanes() + l7.lanes();
        assert((z0.lanes() + z1.lanes()).to_multiset() == (l0.lanes()
            + l1.lanes()).to_multiset()) by {
            vstd::seq_lib::lemma_multiset_commutative(s0, s1);
            vstd::seq_lib::lemma_multiset_commutative(l0.lanes(), l1.lanes());
            vstd::seq_lib::lemma_multiset_commutative(z0.lanes(), z1.lanes());
        }
        assert((z2.lanes() + z3.lanes()).to_multiset() == (l2.lanes()
            + l3.lanes()).to_multiset()) by {
            vstd::seq_lib::lemma_multiset_commutative(s2, s3);
            vstd::seq_lib::lemma_multiset_commutative(l2.lanes(), l3.lanes());
            vstd::seq_lib::lemma_multiset_commutative(z2.lanes(), z3.lanes());
        }
        assert((z4.lanes() + z5.lanes()).to_multiset() == (l4.lanes()
            + l5.lanes()).to_multiset()) by {
            vstd::seq_lib::lemma_multiset_commutative(s4, s5);
            vstd::seq_lib::lemma_multiset_commutative(l4.lanes(), l5.lanes());
            vstd::seq_lib::lemma_multiset_commutative(z4.lanes(), z5.lanes());
        }
        assert((z6.lanes() + z7.lanes()).to_multiset() == (l6.lanes()
            + l7.lanes()).to_multiset()) by {
            vstd::seq_lib::lemma_multiset_commutative(s6, s7);
            vstd::seq_lib::lemma_multiset_commutative(l6.lanes(), l7.lanes());
            vstd::seq_lib::lemma_multiset_commutative(z6.lanes(), z7.lanes());
        }
        assert((q0[0].lanes() + q0[1].lanes() + q0[2].lanes() + q0[3].lanes()).to_multiset() == (l0.lanes() + l1.lanes() + l2.lanes() + l3.lanes()).to_multiset()) by {
            assert((z0.lanes() + z1.lanes() + z2.lanes() + z3.lanes()) =~= (z0.lanes() + z1.lanes()) + (z2.lanes() + z3.lanes()));
            vstd::seq_lib::lemma_multiset_commutative(
                z0.lanes() + z1.lanes(),
                z2.lanes() + z3.lanes(),
            );
            assert((l0.lanes() + l1.lanes() + l2.lanes() + l3.lanes()) =~= (l0.lanes() + l1.lanes()) + (l2.lanes() + l3.lanes()));
            vstd::seq_lib::lemma_multiset_commutative(
                l0.lanes() + l1.lanes(),
                l2.lanes() + l3.lanes(),
            );
        }
        assert((q4[0].lanes() + q4[1].lanes() + q4[2].lanes() + q4[3].lanes()).to_multiset() == (l4.lanes() + l5.lanes() + l6.lanes() + l7.lanes()).to_multiset()) by {
            assert((z4.lanes() + z5.lanes() + z6.lanes() + z7.lanes()) =~= (z4.lanes() + z5.lanes()) + (z6.lanes() + z7.lanes()));
            vstd::seq_lib::lemma_multiset_commutative(
                z4.lanes() + z5.lanes(),
                z6.lanes() + z7.lanes(),
            );
            assert((l4.lanes() + l5.lanes() + l6.lanes() + l7.lanes()) =~= (l4.lanes() + l5.lanes()) + (l6.lanes() + l7.lanes()));
            vstd::seq_lib::lemma_multiset_commutative(
                l4.lanes() + l5.lanes(),
                l6.lanes() + l7.lanes(),
            );
        }
        assert((e[0].lanes() + e[1].lanes() + e[2].lanes() + e[3].lanes() + e[4].lanes() + e[5].lanes() + e[6].lanes() + e[7].lanes()).to_multiset() == lc.to_multiset()) by {
            assert((q0[0].lanes() + q0[1].lanes() + q0[2].lanes() + q0[3].lanes() + q4[0].lanes() + q4[1].lanes() + q4[2].lanes() + q4[3].lanes()) =~= (q0[0].lanes() + q0[1].lanes() + q0[2].lanes() + q0[3].lanes()) + (q4[0].lanes() + q4[1].lanes() + q4[2].lanes() + q4[3].lanes()));
            vstd::seq_lib::lemma_multiset_commutative(q0[0].lanes() + q0[1].lanes() + q0[2].lanes() + q0[3].lanes(), q4[0].lanes() + q4[1].lanes() + q4[2].lanes() + q4[3].lanes());
            assert(lc =~= (l0.lanes() + l1.lanes() + l2.lanes() + l3.lanes()) + (l4.lanes() + l5.lanes() + l6.lanes() + l7.lanes()));
            vstd::seq_lib::lemma_multiset_commutative(l0.lanes() + l1.lanes() + l2.lanes() + l3.lanes(), l4.lanes() + l5.lanes() + l6.lanes() + l7.lanes());
        }
    }
    e
}

/// Sort up to 128 elements in place: two 64-lane blocks, each chunk-sorted
/// and merged, then the sixteen-register merge, with sentinel lanes past the
/// end of the range.
#[verifier::rlimit(100)]
#[verifier::spinoff_prover]
pub fn sort_128<T: Bit64Element, U: Bit64Simd<T>>(data: &mut Vec<T>, lo: usize, hi: usize)
    requires
        lo <= hi <= old(data).len(),
        hi - lo <= 128,
    ensures
        crate::bitonic::sorts_range(old(data)@, final(data)@, lo as int, hi as int),
{
    let k = hi - lo;
    if k <= 64 {
        sort_64::<T, U>(data, lo, hi);
        return ;
    }
    let ghost orig = data@.subrange(lo as int, hi as int);
    let e0 = sort_block_64::<T, U>(data, lo, 64);
    let e8 = sort_block_64::<T, U>(data, lo + 64, k - 64);
    let f0 = bitonic_merge_sixteen_zmm_64bit(
        [
            e0[0],
            e0[1],
            e0[2],
            e0[3],
            e0[4],
            e0[5],
            e0[6],
            e0[7],
            e8[0],
            e8[1],
            e8[2],
            e8[3],
            e8[4],
            e8[5],
            e8[6],
            e8[7],
        ],
    );
    proof {
        let fc = f0[0].lanes() + f0[1].lanes() + f0[2].lanes() + f0[3].lanes() + f0[4].lanes() + f0[5].lanes() + f0[6].lanes() + f0[7].lanes() + f0[8].lanes() + f0[9].lanes() + f0[10].lanes() + f0[11].lanes() + f0[12].lanes() + f0[13].lanes() + f0[14].lanes() + f0[15].lanes();
        assert(fc.to_multiset() == (orig + crate::bitonic::pad_max::<T>(128 - k)).to_multiset())
            by {
            assert((e0[0].lanes() + e0[1].lanes() + e0[2].lanes() + e0[3].lanes() + e0[4].lanes() + e0[5].lanes() + e0[6].lanes() + e0[7].lanes() + e8[0].lanes() + e8[1].lanes() + e8[2].lanes() + e8[3].lanes() + e8[4].lanes() + e8[5].lanes() + e8[6].lanes() + e8[7].lanes()) =~= (e0[0].lanes() + e0[1].lanes() + e0[2].lanes() + e0[3].lanes() + e0[4].lanes() + e0[5].lanes() + e0[6].lanes() + e0[7].lanes()) + (e8[0].lanes() + e8[1].lanes() + e8[2].lanes() + e8[3].lanes() + e8[4].lanes() + e8[5].lanes() + e8[6].lanes() + e8[7].lanes()));
            vstd::seq_lib::lemma_multiset_commutative(e0[0].lanes() + e0[1].lanes() + e0[2].lanes() + e0[3].lanes() + e0[4].lanes() + e0[5].lanes() + e0[6].lanes() + e0[7].lanes(), e8[0].lanes() + e8[1].lanes() + e8[2].lanes() + e8[3].lanes() + e8[4].lanes() + e8[5].lanes() + e8[6].lanes() + e8[7].lanes());
            let b1 = data@.subrange(lo as int, lo + 64);
            let b2 = data@.subrange(lo + 64, hi as int);
            assert(b1 + crate::bitonic::pad_max::<T>(0) =~= b1);
            vstd::seq_lib::lemma_multiset_commutative(b1, b2 + crate::bitonic::pad_max::<T>(128 - k));
            vstd::seq_lib::lemma_multiset_commutative(orig, crate::bitonic::pad_max::<T>(128 - k));
            vstd::seq_lib::lemma_multiset_commutative(b2, crate::bitonic::pad_max::<T>(128 - k));
            assert(orig =~= b1 + b2);
            vstd::seq_lib::lemma_multiset_commutative(b1, b2);
        }
        crate::bitonic::lemma_sentinel_strip(fc, orig, 128 - k);
    }
    U::storeu(f0[0], data, lo + 0);
    U::storeu(f0[1], data, lo + 8);
    U::storeu(f0[2], data, lo + 16);
    U::storeu(f0[3], data, lo + 24);
    U::storeu(f0[4], data, lo + 32);
    U::storeu(f0[5], data, lo + 40);
    U::storeu(f0[6], data, lo + 48);
    U::storeu(f0[7], data, lo + 56);
    let c8: usize = if k >= 72 {
        8
    } else if k > 64 {
        k - 64
    } else {
        0
    };
    if c8 == 8 {
        U::storeu(f0[8], data, lo + 64);
    } else if c8 > 0 {
        U::mask_storeu(f0[8], data, lo + 64, c8);
    }
    let c9: usize = if k >= 80 {
        8
    } else if k > 72 {
        k - 72
    } else {
        0
    };
    if c9 == 8 {
        U::storeu(f0[9], data, lo + 72);
    } else if c9 > 0 {
        U::mask_storeu(f0[9], data, lo + 72, c9);
    }
    let c10: usize = if k >= 88 {
        8
    } else if k > 80 {
        k - 80
    } else {
        0
    };
    if c10 == 8 {
        U::storeu(f0[10], data, lo + 80);
    } else if c10 > 0 {
        U::mask_storeu(f0[10], data, lo + 80, c10);
    }
    let c11: usize = if k >= 96 {
        8
    } else if k > 88 {
        k - 88
    } else {
        0
    };
    if c11 == 8 {
        U::storeu(f0[11], data, lo + 88);
    } else if c11 > 0 {
        U::mask_storeu(f0[11], data, lo + 88, c11);
    }
    let c12: usize = if k >= 104 {
        8
    } else if k > 96 {
        k - 96
    } else {
        0
    };
    if c12 == 8 {
        U::storeu(f0[12], data, lo + 96);
    } else if c12 > 0 {
        U::mask_storeu(f0[12], data, lo + 96, c12);
    }
    let c13: usize = if k >= 112 {
        8
    } else if k > 104 {
        k - 104
    } else {
        0
    };
    if c13 == 8 {
        U::storeu(f0[13], data, lo + 104);
    } else if c13 > 0 {
        U::mask_storeu(f0[13], data, lo + 104, c13);
    }
    let c14: usize = if k >= 120 {
        8
    } else if k > 112 {
        k - 112
    } else {
        0
    };
    if c14 == 8 {
        U::storeu(f0[14], data, lo + 112);
    } else if c14 > 0 {
        U::mask_storeu(f0[14], data, lo + 112, c14);
    }
    let c15: usize = if k >= 128 {
        8
    } else if k > 120 {
        k - 120
    } else {
        0
    };
    if c15 == 8 {
        U::storeu(f0[15], data, lo + 120);
    } else if c15 > 0 {
        U::mask_storeu(f0[15], data, lo + 120, c15);
    }
    proof {
        let fc = f0[0].lanes() + f0[1].lanes() + f0[2].lanes() + f0[3].lanes() + f0[4].lanes() + f0[5].lanes() + f0[6].lanes() + f0[7].lanes() + f0[8].lanes() + f0[9].lanes() + f0[10].lanes() + f0[11].lanes() + f0[12].lanes() + f0[13].lanes() + f0[14].lanes() + f0[15].lanes();
        assert forall|i: int| 0 <= i < k implies data@[lo + i] == #[trigger] fc[i] by {
            if i < 8 {
                assert(data@[lo + i] == f0[0].lanes()[i - 0]);
                assert(fc[i] == f0[0].lanes()[i - 0]);
            }
            else if i < 16 {
                assert(data@[lo + i] == f0[1].lanes()[i - 8]);
                assert(fc[i] == f0[1].lanes()[i - 8]);
            }
            else if i < 24 {
                assert(data@[lo + i] == f0[2].lanes()[i - 16]);
                assert(fc[i] == f0[2].lanes()[i - 16]);
            }
            else if i < 32 {
                assert(data@[lo + i] == f0[3].lanes()[i - 24]);
                assert(fc[i] == f0[3].lanes()[i - 24]);
            }
            else if i < 40 {
                assert(data@[lo + i] == f0[4].lanes()[i - 32]);
                assert(fc[i] == f0[4].lanes()[i - 32]);
            }
            else if i < 48 {
                assert(data@[lo + i] == f0[5].lanes()[i - 40]);
                assert(fc[i] == f0[5].lanes()[i - 40]);
            }
            else if i < 56 {
                assert(data@[lo + i] == f0[6].lanes()[i - 48]);
                assert(fc[i] == f0[6].lanes()[i - 48]);
            }
            else if i < 64 {
                assert(data@[lo + i] == f0[7].lanes()[i - 56]);
                assert(fc[i] == f0[7].lanes()[i - 56]);
            }
            else if i < 72 {
                assert(data@[lo + i] == f0[8].lanes()[i - 64]);
                assert(fc[i] == f0[8].lanes()[i - 64]);
            }
            else if i < 80 {
                assert(data@[lo + i] == f0[9].lanes()[i - 72]);
                assert(fc[i] == f0[9].lanes()[i - 72]);
            }
            else if i < 88 {
                assert(data@[lo + i] == f0[10].lanes()[i - 80]);
                assert(fc[i] == f0[10].lanes()[i - 80]);
            }
            else if i < 96 {
                assert(data@[lo + i] == f0[11].lanes()[i - 88]);
                assert(fc[i] == f0[11].lanes()[i - 88]);
            }
            else if i < 104 {
                assert(data@[lo + i] == f0[12].lanes()[i - 96]);
                assert(fc[i] == f0[12].lanes()[i - 96]);
            }
            else if i < 112 {
                assert(data@[lo + i] == f0[13].lanes()[i - 104]);
                assert(fc[i] == f0[13].lanes()[i - 104]);
            }
            else if i < 120 {
                assert(data@[lo + i] == f0[14].lanes()[i - 112]);
                assert(fc[i] == f0[14].lanes()[i - 112]);
            }
            else if i < 128 {
                assert(data@[lo + i] == f0[15].lanes()[i - 120]);
                assert(fc[i] == f0[15].lanes()[i - 120]);
            }
        }
        assert(data@.subrange(lo as int, hi as int) =~= fc.subrange(0, k as int));
    }
}


/// The scalar fallback: a straightforward comparison sort, used when the
/// recursion budget runs out.
#[verifier::rlimit(100)]
pub fn scalar_sort_64bit<T: Bit64Element>(data: &mut Vec<T>, lo: usize, hi: usize)
    requires
        lo <= hi <= old(data).len(),
    ensures
        crate::bitonic::sorts_range(old(data)@, final(data)@, lo as int, hi as int),
{
    let mut i = lo;
    while i < hi
        invariant
            lo <= i <= hi <= data.len(),
            data.len() == old(data).len(),
            forall|j: int| 0 <= j < data.len() && !(lo <= j < hi) ==> data[j] == old(data)[j],
            data@.subrange(lo as int, hi as int).to_multiset() == old(data)@.subrange(
                lo as int,
                hi as int,
            ).to_multiset(),
            forall|a: int, b: int|
                lo <= a <= b < i ==> (#[trigger] data@[a]).key() <= (#[trigger] data@[b]).key(),
            forall|a: int, b: int|
                lo <= a < i <= b < hi ==> (#[trigger] data@[a]).key() <= (
                #[trigger] data@[b]).key(),
        decreases hi - i,
    {
        let mut m = i;
        let mut j = i + 1;
        while j < hi
            invariant
                lo <= i <= m < j <= hi <= data.len(),
                forall|b: int| i <= b < j ==> (#[trigger] data@[m as int]).key() <= data@[b].key(),
            decreases hi - j,
        {
            if data[j].elem_lt(data[m]) {
                m = j;
            }
            j = j + 1;
        }
        let ghost pre = data@;
        let x = data[i];
        let y = data[m];
        data.set(i, y);
        data.set(m, x);
        proof {
            assert(data@.subrange(lo as int, hi as int) =~= pre.subrange(lo as int, hi as int)
                .update(i - lo, pre[m as int]).update(m - lo, pre[i as int]));
            crate::bitonic::lemma_swap_multiset(
                pre.subrange(lo as int, hi as int),
                i - lo,
                m - lo,
            );
        }
        i = i + 1;
    }
    proof {
        assert forall|a: int, b: int|
            0 <= a <= b < (hi - lo) as int implies #[trigger] crate::bitonic::keys_of(
            data@.subrange(lo as int, hi as int),
        )[a] <= #[trigger] crate::bitonic::keys_of(data@.subrange(lo as int, hi as int))[b] by {
            assert(data@[lo + a].key() <= data@[lo + b].key());
        }
    }
}

/// The floor of the base-two logarithm, used as the recursion budget.
pub fn floor_log2(n: usize) -> (r: i64)
    ensures
        0 <= r <= 64,
        n >= 1 ==> vstd::arithmetic::power2::pow2(r as nat) <= n < vstd::arithmetic::power2::pow2(
            (r + 1) as nat,
        ),
{
    proof {
        vstd::arithmetic::power2::lemma2_to64();
        assert(vstd::arithmetic::power2::pow2(0) == 1);
        assert(n as int / 1int == n as int);
        assert(n < vstd::arithmetic::power2::pow2(64));
    }
    let mut v = n;
    let mut r: i64 = 0;
    while v > 1
        invariant
            0 <= r <= 64,
            v == n as int / vstd::arithmetic::power2::pow2(r as nat) as int,
            n >= 1 ==> vstd::arithmetic::power2::pow2(r as nat) <= n,
            n < vstd::arithmetic::power2::pow2(64),
        decreases v,
    {
        proof {
            let p = vstd::arithmetic::power2::pow2(r as nat) as int;
            vstd::arithmetic::power2::lemma_pow2_pos(r as nat);
            vstd::arithmetic::power2::lemma_pow2_unfold((r + 1) as nat);
            vstd::arithmetic::div_mod::lemma_div_denominator(n as int, p, 2);
            vstd::arithmetic::div_mod::lemma_fundamental_div_mod(n as int, p);
            vstd::arithmetic::div_mod::lemma_mod_bound(n as int, p);
            vstd::arithmetic::mul::lemma_mul_inequality(2, v as int, p);
            // The quotient can reach 2 only while the exponent is below 64.
            if r >= 64 {
                vstd::arithmetic::power2::lemma_pow2_strictly_increases(64, r as nat);
                vstd::arithmetic::div_mod::lemma_basic_div(n as int, p);
            }
        }
        v = v / 2;
        r = r + 1;
    }
    proof {
        if n >= 1 {
            let p = vstd::arithmetic::power2::pow2(r as nat) as int;
            vstd::arithmetic::power2::lemma_pow2_pos(r as nat);
            vstd::arithmetic::power2::lemma_pow2_unfold((r + 1) as nat);
            vstd::arithmetic::div_mod::lemma_fundamental_div_mod(n as int, p);
            vstd::arithmetic::div_mod::lemma_mod_bound(n as int, p);
            assert(v >= 1) by {
                vstd::arithmetic::div_mod::lemma_div_non_zero(n as int, p);
            }
            assert(v == 1);
            assert(n as int == p * 1 + n as int % p);
            assert((n as int) < p + p);
            assert(vstd::arithmetic::power2::pow2((r + 1) as nat) == 2 * vstd::arithmetic::power2::pow2(r as nat));
        }
    }
    r
}

/// The eight pivot samples of `[lo, hi)`: the elements at the evenly spaced
/// indices `lo + (hi - lo) / 8 * i` for `i` from one to eight, the last
/// clamped into the range.
pub open spec fn pivot_samples<T: SimdSortable>(data: Seq<T>, lo: int, hi: int) -> Seq<T> {
    let size = (hi - lo) / 8;
    seq![
        data[lo + size],
        data[lo + 2 * size],
        data[lo + 3 * size],
        data[lo + 4 * size],
        data[lo + 5 * size],
        data[lo + 6 * size],
        data[lo + 7 * size],
        data[
            if lo + 8 * size < hi {
                lo + 8 * size
            } else {
                hi - 1
            }
        ],
    ]
}

/// Median-of-eight pivot selection: sample eight evenly spaced elements of
/// `[lo, hi)`, sort them with the network, and take the middle lane.  The
/// pivot is the fifth-smallest sample: lane four of the one ascending
/// arrangement of the sample values (unique by
/// [`crate::bitonic::lemma_sorted_permutation_unique`]), and in particular an
/// element of the range.
#[verifier::rlimit(100)]
pub fn get_pivot_64bit<T: Bit64Element, U: Bit64Simd<T>>(data: &Vec<T>, lo: usize, hi: usize) -> (p:
    T)
    requires
        lo < hi <= data.len(),
        hi - lo >= 8,
    ensures
        exists|j: int| lo <= j < hi && p == data@[j],
        exists|s: Seq<T>|
            {
                &&& s.len() == 8
                &&& crate::bitonic::ascending(crate::bitonic::keys_of(s))
                &&& s.to_multiset() == pivot_samples(data@, lo as int, hi as int).to_multiset()
                &&& p == s[4]
            },
{
    let size = (hi - lo) / 8;
    let i8m = lo + 8 * size;
    let i8 = if i8m < hi {
        i8m
    } else {
        hi - 1
    };
    let rand_index: [usize; 8] = [
        lo + size,
        lo + 2 * size,
        lo + 3 * size,
        lo + 4 * size,
        lo + 5 * size,
        lo + 6 * size,
        lo + 7 * size,
        i8,
    ];
    let rand_vec = U::gather_from_idx(rand_index, data);
    let sorted = sort_zmm_64bit(rand_vec);
    let p = U::get_value_at_idx(sorted, 4);
    proof {
        let samples = pivot_samples(data@, lo as int, hi as int);
        assert(rand_vec.lanes() =~= samples);
        let s = sorted.lanes();
        assert(s.len() == 8 && crate::bitonic::ascending(crate::bitonic::keys_of(s))
            && s.to_multiset() == samples.to_multiset() && p == s[4]);
        let size_g = (hi - lo) as int / 8;
        vstd::arithmetic::div_mod::lemma_fundamental_div_mod((hi - lo) as int, 8);
        vstd::arithmetic::div_mod::lemma_mod_bound((hi - lo) as int, 8);
        assert(1 <= size_g && 8 * size_g <= hi - lo);
        let in_range = |x: T| exists|j: int| lo <= j < hi && x == data@[j];
        assert forall|i: int| 0 <= i < samples.len() implies in_range(#[trigger] samples[i]) by {
            if i == 0 {
                assert(lo <= lo + size_g < hi && samples[i] == data@[lo + size_g]);
            } else if i == 1 {
                assert(lo <= lo + 2 * size_g < hi && samples[i] == data@[lo + 2 * size_g]);
            } else if i == 2 {
                assert(lo <= lo + 3 * size_g < hi && samples[i] == data@[lo + 3 * size_g]);
            } else if i == 3 {
                assert(lo <= lo + 4 * size_g < hi && samples[i] == data@[lo + 4 * size_g]);
            } else if i == 4 {
                assert(lo <= lo + 5 * size_g < hi && samples[i] == data@[lo + 5 * size_g]);
            } else if i == 5 {
                assert(lo <= lo + 6 * size_g < hi && samples[i] == data@[lo + 6 * size_g]);
            } else if i == 6 {
                assert(lo <= lo + 7 * size_g < hi && samples[i] == data@[lo + 7 * size_g]);
            } else {
                let w = if lo + 8 * size_g < hi {
                    lo + 8 * size_g
                } else {
                    hi - 1
                };
                assert(lo <= w < hi && samples[i] == data@[w]);
            }
        }
        crate::bitonic::lemma_perm_pred(samples, s, in_range);
        assert(in_range(p));
    }
    p
}

/// The recursive quicksort driver: scalar sort once the budget is gone, the
/// bitonic base case on ranges of at most 128 elements, otherwise partition
/// around a median-of-eight pivot and recurse on whichever sides can still
/// shrink.
#[verifier::rlimit(100)]
#[verifier::spinoff_prover]
pub fn qsort_64bit_<T: Bit64Element, U: Bit64Simd<T>>(
    data: &mut Vec<T>,
    lo: usize,
    hi: usize,
    max_iters: i64,
)
    requires
        lo <= hi <= old(data).len(),
    ensures
        crate::bitonic::sorts_range(old(data)@, final(data)@, lo as int, hi as int),
    decreases
            (if max_iters <= 0 {
                0int
            } else {
                max_iters as int
            }),
{
    if max_iters <= 0 {
        scalar_sort_64bit(data, lo, hi);
        return ;
    }
    if hi - lo <= 128 {
        sort_128::<T, U>(data, lo, hi);
        return ;
    }
    let pivot = get_pivot_64bit::<T, U>(data, lo, hi);
    let mut smallest = T::max_value();
    let mut biggest = T::min_value();
    let l = crate::partition_avx512::<T, U>(data, lo, hi, pivot, &mut smallest, &mut biggest);
    let ghost dmid = data@;
    let skip_left = pivot.elem_eq(smallest);
    if !skip_left {
        qsort_64bit_::<T, U>(data, lo, l, max_iters - 1);
    }
    let ghost dleft = data@;
    let skip_right = pivot.elem_eq(biggest);
    if !skip_right {
        qsort_64bit_::<T, U>(data, l, hi, max_iters - 1);
    }
    proof {
        let li = l as int;
        let loi = lo as int;
        let hii = hi as int;
        // The left recursion left [l, hi) alone; the right recursion left
        // [lo, l) alone.
        assert(dleft.subrange(li, hii) =~= dmid.subrange(li, hii));
        assert(data@.subrange(loi, li) =~= dleft.subrange(loi, li));
        // Where a side was skipped, it was already sorted: an empty left
        // side, or a right side of all-equal keys.
        if skip_left {
            if loi < li {
                assert(dmid[loi].key() < pivot.key());
                assert(smallest.key() <= dmid[loi].key());
                assert(false);
            }
            assert(li == loi);
            assert(dleft =~= dmid);
        }
        if skip_right {
            assert forall|j: int| li <= j < hii implies (#[trigger] dleft[j]).key()
                == pivot.key() by {
                assert(dmid[j].key() >= pivot.key());
                assert(dmid[j].key() <= biggest.key());
                assert(dleft[j] == dmid[j]);
            }
            assert(data@ =~= dleft);
        }
        // Each side is sorted and remains bounded by the pivot.
        crate::bitonic::lemma_perm_pred(
            dmid.subrange(loi, li),
            data@.subrange(loi, li),
            |x: T| x.key() < pivot.key(),
        );
        crate::bitonic::lemma_perm_pred(
            dmid.subrange(li, hii),
            data@.subrange(li, hii),
            |x: T| x.key() >= pivot.key(),
        );
        let k1 = crate::bitonic::keys_of(data@.subrange(loi, li));
        let k2 = crate::bitonic::keys_of(data@.subrange(li, hii));
        assert forall|a: int, b: int|
            0 <= a < k1.len() && 0 <= b < k2.len() implies #[trigger] k1[a] <= #[trigger] k2[b] by {
            assert(k1[a] == data@.subrange(loi, li)[a].key());
            assert(k2[b] == data@.subrange(li, hii)[b].key());
        }
        assert(crate::bitonic::ascending(k1)) by {
            if skip_left {
                assert(k1.len() == 0);
            } else {
                assert(k1 =~= crate::bitonic::keys_of(dleft.subrange(loi, li)));
            }
        }
        assert(crate::bitonic::ascending(k2)) by {
            if skip_right {
                assert forall|a: int, b: int| 0 <= a <= b < k2.len() implies k2[a] <= k2[b] by {
                    assert(data@.subrange(li, hii)[a] == dleft[li + a]);
                    assert(data@.subrange(li, hii)[b] == dleft[li + b]);
                }
            }
        }
        crate::bitonic::lemma_concat_ascending(k1, k2);
        crate::bitonic::lemma_keys_concat(data@.subrange(loi, li), data@.subrange(li, hii));
        assert(data@.subrange(loi, li) + data@.subrange(li, hii) =~= data@.subrange(loi, hii));
        // The range is a permutation: compose the three multiset equalities.
        vstd::seq_lib::lemma_multiset_commutative(
            data@.subrange(loi, li),
            data@.subrange(li, hii),
        );
        vstd::seq_lib::lemma_multiset_commutative(
            dmid.subrange(loi, li),
            dmid.subrange(li, hii),
        );
        assert(dmid.subrange(loi, li) + dmid.subrange(li, hii) =~= dmid.subrange(loi, hii));
        assert(data@.subrange(loi, hii).to_multiset() == dmid.subrange(loi, hii).to_multiset());
    }
}


/// The base-case kernels sort a range exactly as any correct reference sort
/// would: their output on the range is the one ascending arrangement of the
/// values that were there.
pub proof fn lemma_base_case_reference<T: Bit64Element>(
    pre: Seq<T>,
    post: Seq<T>,
    reference: Seq<T>,
    lo: int,
    hi: int,
)
    requires
        0 <= lo <= hi <= pre.len(),
        crate::bitonic::sorts_range(pre, post, lo, hi),
        crate::bitonic::ascending(crate::bitonic::keys_of(reference)),
        reference.to_multiset() == pre.subrange(lo, hi).to_multiset(),
    ensures
        post.subrange(lo, hi) == reference,
{
    crate::bitonic::lemma_sorted_permutation_unique(post.subrange(lo, hi), reference);
}

} // verus!
