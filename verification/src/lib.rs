//! An in-place, unstable comparison sort for dense sequences of 64-bit
//! integers, built from a bitonic sorting network over logical 8-lane SIMD
//! vectors and a vectorised compress-store quicksort partitioner.
//!
//! The lane-level operations are described by the [`SimdCompare`] and
//! [`bit_64::Bit64Simd`] capability traits; each back-end model implements
//! them with a verified contract, and the network kernels and the quicksort
//! driver are proved once, generically, against those contracts.

pub mod bit_64;
pub mod bitonic;
pub mod masks;
pub mod platform;

use vstd::prelude::*;

verus! {

use crate::masks::{bit8, popcnt8, compress_from};

/// An element type that the sort kernels can order: its mathematical value is
/// an integer key, the order on keys is the sort order, and the type has a
/// greatest value (the sentinel that pads partial vector loads) and a least
/// value.
pub trait SimdSortable: Sized + Copy {
    /// The mathematical value that ordering compares.
    spec fn key(self) -> int;

    /// The greatest value of the type (the padding sentinel).
    spec fn spec_max_value() -> Self;

    /// The least value of the type.
    spec fn spec_min_value() -> Self;

    /// Two values with the same key are the same value.
    proof fn key_injective(a: Self, b: Self)
        requires
            a.key() == b.key(),
        ensures
            a == b,
    ;

    /// Every value's key is at most the sentinel's key.
    proof fn max_value_greatest(a: Self)
        ensures
            a.key() <= Self::spec_max_value().key(),
    ;

    /// Every value's key is at least the least value's key.
    proof fn min_value_least(a: Self)
        ensures
            Self::spec_min_value().key() <= a.key(),
    ;

    fn max_value() -> (r: Self)
        ensures
            r == Self::spec_max_value(),
    ;

    fn min_value() -> (r: Self)
        ensures
            r == Self::spec_min_value(),
    ;

    fn elem_lt(self, other: Self) -> (r: bool)
        ensures
            r <==> self.key() < other.key(),
    ;

    fn elem_eq(self, other: Self) -> (r: bool)
        ensures
            r <==> self.key() == other.key(),
    ;
}

impl SimdSortable for i64 {
    open spec fn key(self) -> int {
        self as int
    }

    open spec fn spec_max_value() -> Self {
        i64::MAX
    }

    open spec fn spec_min_value() -> Self {
        i64::MIN
    }

    proof fn key_injective(a: Self, b: Self) {
    }

    proof fn max_value_greatest(a: Self) {
    }

    proof fn min_value_least(a: Self) {
    }

    fn max_value() -> (r: Self) {
        i64::MAX
    }

    fn min_value() -> (r: Self) {
        i64::MIN
    }

    fn elem_lt(self, other: Self) -> (r: bool) {
        self < other
    }

    fn elem_eq(self, other: Self) -> (r: bool) {
        self == other
    }
}

impl SimdSortable for u64 {
    open spec fn key(self) -> int {
        self as int
    }

    open spec fn spec_max_value() -> Self {
        u64::MAX
    }

    open spec fn spec_min_value() -> Self {
        0u64
    }

    proof fn key_injective(a: Self, b: Self) {
    }

    proof fn max_value_greatest(a: Self) {
    }

    proof fn min_value_least(a: Self) {
    }

    fn max_value() -> (r: Self) {
        u64::MAX
    }

    fn min_value() -> (r: Self) {
        0u64
    }

    fn elem_lt(self, other: Self) -> (r: bool) {
        self < other
    }

    fn elem_eq(self, other: Self) -> (r: bool) {
        self == other
    }
}

/// The capability set of one 8-lane SIMD back-end for element type `T`.
///
/// A value of the implementing type stands for a logical vector of exactly
/// eight lanes of `T` (`lanes()`), however the lanes are physically laid out.
/// Masks are eight lane booleans carried as the low bits of a `u8`.
pub trait SimdCompare<T: SimdSortable>: Sized + Copy {
    /// The eight lanes, in lane order.
    spec fn lanes(self) -> Seq<T>;

    /// Every vector this back-end builds has exactly eight lanes.
    proof fn lanes_len(self)
        ensures
            self.lanes().len() == 8,
    ;

    /// Lane-wise minimum; on equal keys the lane of `a` is kept.
    fn min(a: Self, b: Self) -> (r: Self)
        ensures
            r.lanes().len() == 8,
            forall|i: int|
                0 <= i < 8 ==> #[trigger] r.lanes()[i] == (if a.lanes()[i].key()
                    <= b.lanes()[i].key() {
                    a.lanes()[i]
                } else {
                    b.lanes()[i]
                }),
    ;

    /// Lane-wise maximum; on equal keys the lane of `b` is kept.
    fn max(a: Self, b: Self) -> (r: Self)
        ensures
            r.lanes().len() == 8,
            forall|i: int|
                0 <= i < 8 ==> #[trigger] r.lanes()[i] == (if a.lanes()[i].key()
                    <= b.lanes()[i].key() {
                    b.lanes()[i]
                } else {
                    a.lanes()[i]
                }),
    ;

    /// Read eight contiguous elements starting at `offset`.
    fn loadu(data: &Vec<T>, offset: usize) -> (r: Self)
        requires
            offset + 8 <= data.len(),
        ensures
            r.lanes() == data@.subrange(offset as int, offset as int + 8),
    ;

    /// Write the eight lanes to `data[offset..offset + 8]`.
    fn storeu(input: Self, data: &mut Vec<T>, offset: usize)
        requires
            offset + 8 <= old(data).len(),
        ensures
            final(data).len() == old(data).len(),
            forall|j: int|
                0 <= j < final(data).len() && !(offset <= j < offset + 8) ==> final(data)[j] == old(
                    data,
                )[j],
            forall|i: int| 0 <= i < 8 ==> final(data)[offset + i] == #[trigger] input.lanes()[i],
    ;

    /// Read `k` elements into lanes `[0, k)` and fill the remaining lanes
    /// with the sentinel, reading nothing past `offset + k`.
    fn mask_loadu(data: &Vec<T>, offset: usize, k: usize) -> (r: Self)
        requires
            k <= 8,
            offset + k <= data.len(),
        ensures
            r.lanes().len() == 8,
            forall|i: int| 0 <= i < k ==> #[trigger] r.lanes()[i] == data[offset + i],
            forall|i: int| k <= i < 8 ==> #[trigger] r.lanes()[i] == T::spec_max_value(),
    ;

    /// Write exactly the first `k` lanes to `data[offset..offset + k]`.
    fn mask_storeu(input: Self, data: &mut Vec<T>, offset: usize, k: usize)
        requires
            k <= 8,
            offset + k <= old(data).len(),
        ensures
            final(data).len() == old(data).len(),
            forall|j: int|
                0 <= j < final(data).len() && !(offset <= j < offset + k) ==> final(data)[j] == old(
                    data,
                )[j],
            forall|i: int| 0 <= i < k ==> final(data)[offset + i] == #[trigger] input.lanes()[i],
    ;

    /// Gather `data[idx[i]]` into lane `i`.
    fn gather_from_idx(idx: [usize; 8], data: &Vec<T>) -> (r: Self)
        requires
            forall|i: int| 0 <= i < 8 ==> idx[i] < data.len(),
        ensures
            r.lanes().len() == 8,
            forall|i: int| 0 <= i < 8 ==> #[trigger] r.lanes()[i] == data[idx[i] as int],
    ;

    /// Read lane `idx`.
    fn get_value_at_idx(input: Self, idx: usize) -> (r: T)
        requires
            idx < 8,
        ensures
            r == input.lanes()[idx as int],
    ;

    /// Broadcast `value` into all lanes.
    fn set(value: T) -> (r: Self)
        ensures
            r.lanes().len() == 8,
            forall|i: int| 0 <= i < 8 ==> #[trigger] r.lanes()[i] == value,
    ;

    /// Mask with bit `i` set iff lane `i` of `a` is at least lane `i` of `b`.
    fn ge(a: Self, b: Self) -> (m: u8)
        ensures
            forall|i: int|
                0 <= i < 8 ==> (#[trigger] bit8(m, i) <==> a.lanes()[i].key()
                    >= b.lanes()[i].key()),
    ;

    /// The number of set lanes of a mask.
    fn ones_count(mask: u8) -> (r: usize)
        ensures
            r == popcnt8(mask),
    ;

    /// The lane-wise complement of a mask.
    fn not_mask(mask: u8) -> (r: u8)
        ensures
            forall|i: int| 0 <= i < 8 ==> (#[trigger] bit8(r, i) <==> !bit8(mask, i)),
    ;

    /// The least lane value.
    fn reducemin(x: Self) -> (r: T)
        ensures
            exists|i: int| 0 <= i < 8 && r == x.lanes()[i],
            forall|i: int| 0 <= i < 8 ==> r.key() <= (#[trigger] x.lanes()[i]).key(),
    ;

    /// The greatest lane value.
    fn reducemax(x: Self) -> (r: T)
        ensures
            exists|i: int| 0 <= i < 8 && r == x.lanes()[i],
            forall|i: int| 0 <= i < 8 ==> r.key() >= (#[trigger] x.lanes()[i]).key(),
    ;

    /// Write the lanes selected by `mask`, in ascending lane order, to
    /// `popcnt8(mask)` consecutive positions starting at `offset`.
    fn mask_compressstoreu(data: &mut Vec<T>, offset: usize, mask: u8, vals: Self)
        requires
            offset + popcnt8(mask) <= old(data).len(),
        ensures
            final(data).len() == old(data).len(),
            forall|j: int|
                0 <= j < final(data).len() && !(offset <= j < offset + popcnt8(mask))
                    ==> final(data)[j] == old(data)[j],
            final(data)@.subrange(offset as int, offset as int + popcnt8(mask)) == compress_from(
                vals.lanes(),
                mask,
                0,
            ),
    ;
}


/// Which lanes a compare-merge hands the maxima to; the others receive the
/// minima.  The three patterns are the blend constants 0xAA, 0xCC and 0xF0
/// of the bitonic networks.
pub enum BlendPattern {
    Aa,
    Cc,
    F0,
}

/// Whether lane `i` receives the maximum under `p`.
pub open spec fn blend_bit(p: BlendPattern, i: int) -> bool {
    match p {
        BlendPattern::Aa => i % 2 == 1,
        BlendPattern::Cc => i % 4 >= 2,
        BlendPattern::F0 => i >= 4,
    }
}

/// Compare and exchange two registers, swapping minima into `a` and maxima
/// into `b`.
pub fn coex<T: SimdSortable, U: SimdCompare<T>>(a: &mut U, b: &mut U)
    ensures
        final(a).lanes().len() == 8,
        final(b).lanes().len() == 8,
        forall|i: int|
            0 <= i < 8 ==> #[trigger] final(a).lanes()[i] == (if old(a).lanes()[i].key() <= old(
                b,
            ).lanes()[i].key() {
                old(a).lanes()[i]
            } else {
                old(b).lanes()[i]
            }),
        forall|i: int|
            0 <= i < 8 ==> #[trigger] final(b).lanes()[i] == (if old(a).lanes()[i].key() <= old(
                b,
            ).lanes()[i].key() {
                old(b).lanes()[i]
            } else {
                old(a).lanes()[i]
            }),
{
    let temp = *a;
    *a = U::min(temp, *b);
    *b = U::max(temp, *b);
}

/// One compare-merge pass: lane-wise minima and maxima of the two inputs,
/// blended so that the lanes `p` selects receive the maxima.
pub fn cmp_merge<T: crate::bit_64::Bit64Element, U: crate::bit_64::Bit64Simd<T>>(
    in1: U,
    in2: U,
    p: BlendPattern,
) -> (r: U)
    ensures
        r.lanes().len() == 8,
        forall|i: int|
            0 <= i < 8 ==> #[trigger] r.lanes()[i] == (if blend_bit(p, i) == (in2.lanes()[i].key()
                <= in1.lanes()[i].key()) {
                in1.lanes()[i]
            } else {
                in2.lanes()[i]
            }),
{
    let min_values = U::min(in2, in1);
    let max_values = U::max(in2, in1);
    match p {
        BlendPattern::Aa => U::swizzle2_0xaa(min_values, max_values),
        BlendPattern::Cc => U::swizzle2_0xcc(min_values, max_values),
        BlendPattern::F0 => U::swizzle2_0xf0(min_values, max_values),
    }
}


/// One comparator of the network: `lo` and `hi` exchange `x` and `y`, the
/// smaller key first.  The tie-breaking matches a compare-merge pass, whose
/// minima keep the shuffled operand on equal keys.
pub proof fn lemma_comparator<T: SimdSortable>(x: T, y: T, lo: T, hi: T)
    requires
        lo == (if y.key() <= x.key() {
            y
        } else {
            x
        }),
        hi == (if x.key() <= y.key() {
            y
        } else {
            x
        }),
    ensures
        (lo == x && hi == y) || (lo == y && hi == x),
        lo.key() == vstd::math::min(x.key(), y.key()),
        hi.key() == vstd::math::max(x.key(), y.key()),
        lo.key() <= hi.key(),
{
    if x.key() == y.key() {
        T::key_injective(x, y);
    }
}


/// A direct compare-exchange of two values: an exact swap, keyed on one
/// comparison.  The tie-breaking matches a direct lane-wise minimum and
/// maximum of the same operand pair.
pub proof fn lemma_coex_pair<T: SimdSortable>(x: T, y: T, lo: T, hi: T)
    requires
        lo == (if x.key() <= y.key() {
            x
        } else {
            y
        }),
        hi == (if x.key() <= y.key() {
            y
        } else {
            x
        }),
    ensures
        (lo == x && hi == y) || (lo == y && hi == x),
        lo.key() == vstd::math::min(x.key(), y.key()),
        hi.key() == vstd::math::max(x.key(), y.key()),
        lo.key() <= hi.key(),
{
}

/// The lanes with key below `pk`, in ascending lane order, from lane `i` on.
pub open spec fn below_pivot_lanes<T: SimdSortable>(lanes: Seq<T>, pk: int, i: int) -> Seq<T>
    decreases 8 - i,
{
    if i < 0 || i >= 8 {
        Seq::empty()
    } else if lanes[i].key() < pk {
        seq![lanes[i]] + below_pivot_lanes(lanes, pk, i + 1)
    } else {
        below_pivot_lanes(lanes, pk, i + 1)
    }
}

/// The lanes with key at least `pk`, in ascending lane order, from lane `i`
/// on.
pub open spec fn at_least_pivot_lanes<T: SimdSortable>(lanes: Seq<T>, pk: int, i: int) -> Seq<T>
    decreases 8 - i,
{
    if i < 0 || i >= 8 {
        Seq::empty()
    } else if lanes[i].key() >= pk {
        seq![lanes[i]] + at_least_pivot_lanes(lanes, pk, i + 1)
    } else {
        at_least_pivot_lanes(lanes, pk, i + 1)
    }
}

/// A compression by a mask whose bits mark the lanes below the pivot packs
/// exactly those lanes, in lane order.
proof fn lemma_compress_is_below<T: SimdSortable>(lanes: Seq<T>, m: u8, pk: int, i: int)
    requires
        forall|l: int| 0 <= l < 8 ==> (#[trigger] bit8(m, l) <==> lanes[l].key() < pk),
    ensures
        compress_from(lanes, m, i) == below_pivot_lanes(lanes, pk, i),
    decreases 8 - i,
{
    if 0 <= i < 8 {
        lemma_compress_is_below(lanes, m, pk, i + 1);
    }
}

/// A compression by a mask whose bits mark the lanes at least the pivot
/// packs exactly those lanes, in lane order.
proof fn lemma_compress_is_at_least<T: SimdSortable>(lanes: Seq<T>, m: u8, pk: int, i: int)
    requires
        forall|l: int| 0 <= l < 8 ==> (#[trigger] bit8(m, l) <==> lanes[l].key() >= pk),
    ensures
        compress_from(lanes, m, i) == at_least_pivot_lanes(lanes, pk, i),
    decreases 8 - i,
{
    if 0 <= i < 8 {
        lemma_compress_is_at_least(lanes, m, pk, i + 1);
    }
}

/// Partition one register around the pivot register: the lanes below the
/// pivot are compress-stored at `left`, the others end flush against
/// `right`, and the running minima and maxima absorb the register.  Returns
/// how many lanes were at least the pivot.
#[verifier::rlimit(100)]
pub fn partition_vec<T: crate::bit_64::Bit64Element, U: crate::bit_64::Bit64Simd<T>>(
    data: &mut Vec<T>,
    left: usize,
    right: usize,
    curr_vec: U,
    pivot_vec: U,
    smallest_vec: &mut U,
    biggest_vec: &mut U,
) -> (amount_ge: usize)
    requires
        curr_vec.lanes().len() == 8,
        pivot_vec.lanes().len() == 8,
        forall|i: int| 0 <= i < 8 ==> #[trigger] pivot_vec.lanes()[i] == pivot_vec.lanes()[0],
        left + 8 <= right,
        right <= old(data).len(),
    ensures
        amount_ge <= 8,
        final(data).len() == old(data).len(),
        forall|j: int|
            0 <= j < final(data).len() && !(left <= j < left + (8 - amount_ge)) && !(right
                - amount_ge <= j < right) ==> final(data)[j] == old(data)[j],
        forall|j: int|
            left <= j < left + (8 - amount_ge) ==> (#[trigger] final(data)[j]).key()
                < pivot_vec.lanes()[0].key(),
        forall|j: int|
            right - amount_ge <= j < right ==> (#[trigger] final(data)[j]).key()
                >= pivot_vec.lanes()[0].key(),
        final(data)@.subrange(left as int, left + (8 - amount_ge)) == below_pivot_lanes(
            curr_vec.lanes(),
            pivot_vec.lanes()[0].key(),
            0,
        ),
        final(data)@.subrange(right - amount_ge, right as int) == at_least_pivot_lanes(
            curr_vec.lanes(),
            pivot_vec.lanes()[0].key(),
            0,
        ),
        final(data)@.subrange(left as int, left + (8 - amount_ge)).to_multiset().add(
            final(data)@.subrange(right - amount_ge, right as int).to_multiset(),
        ) == curr_vec.lanes().to_multiset(),
        final(smallest_vec).lanes().len() == 8,
        final(biggest_vec).lanes().len() == 8,
        forall|i: int|
            0 <= i < 8 ==> #[trigger] final(smallest_vec).lanes()[i] == (if curr_vec.lanes()[i].key()
                <= old(smallest_vec).lanes()[i].key() {
                curr_vec.lanes()[i]
            } else {
                old(smallest_vec).lanes()[i]
            }),
        forall|i: int|
            0 <= i < 8 ==> #[trigger] final(biggest_vec).lanes()[i] == (if curr_vec.lanes()[i].key()
                <= old(biggest_vec).lanes()[i].key() {
                old(biggest_vec).lanes()[i]
            } else {
                curr_vec.lanes()[i]
            }),
{
    let ghost pk = pivot_vec.lanes()[0].key();
    let gt_mask = U::ge(curr_vec, pivot_vec);
    let amount_ge_pivot = U::ones_count(gt_mask);
    let not_mask = U::not_mask(gt_mask);
    proof {
        crate::masks::lemma_popcnt_from_bounds(gt_mask, 0);
        crate::masks::lemma_popcnt_from_bounds(not_mask, 0);
        crate::masks::lemma_popcnt_complement(gt_mask, not_mask, 0);
        crate::masks::lemma_compress_from_len(curr_vec.lanes(), gt_mask, 0);
        crate::masks::lemma_compress_from_len(curr_vec.lanes(), not_mask, 0);
    }
    U::mask_compressstoreu(data, left, not_mask, curr_vec);
    let ghost mid = data@;
    U::mask_compressstoreu(data, right - amount_ge_pivot, gt_mask, curr_vec);
    proof {
        let k = amount_ge_pivot as int;
        assert(data@.subrange(left as int, left + (8 - k)) =~= mid.subrange(
            left as int,
            left + (8 - k),
        ));
        assert(data@.subrange(left as int, left + (8 - k)) == compress_from(
            curr_vec.lanes(),
            not_mask,
            0,
        ));
        assert(data@.subrange(right - k, right as int) == compress_from(
            curr_vec.lanes(),
            gt_mask,
            0,
        ));
        assert forall|l: int| 0 <= l < 8 implies (#[trigger] bit8(not_mask, l)
            <==> curr_vec.lanes()[l].key() < pk) by {
            assert(pivot_vec.lanes()[l] == pivot_vec.lanes()[0]);
        }
        assert forall|l: int| 0 <= l < 8 implies (#[trigger] bit8(gt_mask, l)
            <==> curr_vec.lanes()[l].key() >= pk) by {
            assert(pivot_vec.lanes()[l] == pivot_vec.lanes()[0]);
        }
        lemma_compress_is_below(curr_vec.lanes(), not_mask, pk, 0);
        lemma_compress_is_at_least(curr_vec.lanes(), gt_mask, pk, 0);
        crate::masks::lemma_compress_members(
            curr_vec.lanes(),
            not_mask,
            0,
            |x: T| x.key() < pk,
        );
        crate::masks::lemma_compress_members(
            curr_vec.lanes(),
            gt_mask,
            0,
            |x: T| x.key() >= pk,
        );
        crate::masks::lemma_compress_split(curr_vec.lanes(), gt_mask, not_mask, 0);
        assert(curr_vec.lanes().subrange(0, 8) =~= curr_vec.lanes());
        assert forall|j: int| left <= j < left + (8 - k) implies (#[trigger] data@[j]).key()
            < pk by {
            assert(data@[j] == data@.subrange(left as int, left + (8 - k))[j - left]);
        }
        assert forall|j: int| right - k <= j < right implies (#[trigger] data@[j]).key() >= pk by {
            assert(data@[j] == data@.subrange(right - k, right as int)[j - (right - k)]);
        }
    }
    let new_small = U::min(curr_vec, *smallest_vec);
    let new_big = U::max(curr_vec, *biggest_vec);
    *smallest_vec = new_small;
    *biggest_vec = new_big;
    amount_ge_pivot
}


/// The scalar alignment pre-pass of the partition: shorten the range from
/// both ends until its length is a multiple of eight, moving elements at
/// least the pivot to the back, and fold every element it examines into the
/// running minimum and maximum.
#[verifier::rlimit(100)]
fn partition_prepass<T: crate::bit_64::Bit64Element>(
    data: &mut Vec<T>,
    lo: usize,
    hi: usize,
    pivot: T,
    smallest: &mut T,
    biggest: &mut T,
) -> (lr: (usize, usize))
    requires
        lo <= hi <= old(data).len(),
    ensures
        lo <= lr.0 <= lr.1 <= hi,
        (lr.1 - lr.0) % 8 == 0,
        final(data).len() == old(data).len(),
        forall|j: int|
            0 <= j < final(data).len() && !(lo <= j < hi) ==> final(data)[j] == old(data)[j],
        final(data)@.subrange(lo as int, hi as int).to_multiset() == old(data)@.subrange(
            lo as int,
            hi as int,
        ).to_multiset(),
        forall|j: int| lo <= j < lr.0 ==> (#[trigger] final(data)[j]).key() < pivot.key(),
        forall|j: int| lr.1 <= j < hi ==> (#[trigger] final(data)[j]).key() >= pivot.key(),
        forall|j: int|
            (lo <= j < lr.0 || lr.1 <= j < hi) ==> final(smallest).key() <= (
            #[trigger] final(data)[j]).key() && (#[trigger] final(data)[j]).key()
                <= final(biggest).key(),
        final(smallest).key() <= old(smallest).key(),
        final(biggest).key() >= old(biggest).key(),
        *final(smallest) == *old(smallest) || exists|j: int|
            #![auto]
            lo <= j < hi && final(data)@[j] == *final(smallest),
        *final(biggest) == *old(biggest) || exists|j: int|
            #![auto]
            lo <= j < hi && final(data)@[j] == *final(biggest),
{
    let mut left = lo;
    let mut right = hi;
    let mut i = (right - left) % 8;
    while i > 0
        invariant
            lo <= left <= right <= hi <= data.len(),
            data.len() == old(data).len(),
            i <= right - left,
            (right - left - i) % 8 == 0,
            forall|j: int| 0 <= j < data.len() && !(lo <= j < hi) ==> data[j] == old(data)[j],
            data@.subrange(lo as int, hi as int).to_multiset() == old(data)@.subrange(
                lo as int,
                hi as int,
            ).to_multiset(),
            forall|j: int| lo <= j < left ==> (#[trigger] data[j]).key() < pivot.key(),
            forall|j: int| right <= j < hi ==> (#[trigger] data[j]).key() >= pivot.key(),
            forall|j: int|
                (lo <= j < left || right <= j < hi) ==> smallest.key() <= (
                #[trigger] data[j]).key() && (#[trigger] data[j]).key() <= biggest.key(),
            smallest.key() <= old(smallest).key(),
            biggest.key() >= old(biggest).key(),
            *smallest == *old(smallest) || exists|j: int|
                #![auto]
                lo <= j < hi && data@[j] == *smallest,
            *biggest == *old(biggest) || exists|j: int|
                #![auto]
                lo <= j < hi && data@[j] == *biggest,
        decreases i,
    {
        let ghost s_pre = *smallest;
        let ghost b_pre = *biggest;
        let x = data[left];
        if x.elem_lt(*smallest) {
            *smallest = x;
        }
        if (*biggest).elem_lt(x) {
            *biggest = x;
        }
        let ghost pre = data@;
        if !x.elem_lt(pivot) {
            right = right - 1;
            let y = data[right];
            data.set(left, y);
            data.set(right, x);
            proof {
                let a = left as int;
                let b = right as int;
                assert(data@.subrange(lo as int, hi as int) =~= pre.subrange(
                    lo as int,
                    hi as int,
                ).update(a - lo, pre[b]).update(b - lo, pre[a]));
                crate::bitonic::lemma_swap_multiset(
                    pre.subrange(lo as int, hi as int),
                    a - lo,
                    b - lo,
                );
                // The running minimum is still attained: the examined value
                // moved to the back, and any older witness at most swapped
                // places.
                if *smallest != s_pre {
                    assert(data@[b] == *smallest);
                } else if s_pre != *old(smallest) {
                    let j0 = choose|j: int| #![auto] lo <= j < hi && pre[j] == s_pre;
                    if j0 == a {
                        assert(data@[b] == *smallest);
                    } else if j0 == b {
                        assert(data@[a] == *smallest);
                    } else {
                        assert(data@[j0] == *smallest);
                    }
                }
                if *biggest != b_pre {
                    assert(data@[b] == *biggest);
                } else if b_pre != *old(biggest) {
                    let j0 = choose|j: int| #![auto] lo <= j < hi && pre[j] == b_pre;
                    if j0 == a {
                        assert(data@[b] == *biggest);
                    } else if j0 == b {
                        assert(data@[a] == *biggest);
                    } else {
                        assert(data@[j0] == *biggest);
                    }
                }
            }
        } else {
            proof {
                if *smallest != s_pre {
                    assert(data@[left as int] == *smallest);
                }
                if *biggest != b_pre {
                    assert(data@[left as int] == *biggest);
                }
            }
            left = left + 1;
        }
        i = i - 1;
    }
    (left, right)
}



/// An element of a slice of `s` is in the slice's multiset.
proof fn lemma_slice_member<T>(s: Seq<T>, lo: int, hi: int, j: int)
    requires
        0 <= lo <= j < hi <= s.len(),
    ensures
        s.subrange(lo, hi).to_multiset().count(s[j]) > 0,
{
    broadcast use vstd::seq_lib::group_to_multiset_ensures;

    assert(s.subrange(lo, hi)[j - lo] == s[j]);
    assert(s.subrange(lo, hi).contains(s[j]));
}

/// One partition step at the region level: split the register `v` around
/// the pivot into the two store fronts, extending the classified regions,
/// their coverage by the running minima and maxima, and the multiset
/// account, in which `rest` stands for the values still outstanding.
#[verifier::rlimit(100)]
#[verifier::spinoff_prover]
fn partition_vec_step<T: crate::bit_64::Bit64Element, U: crate::bit_64::Bit64Simd<T>>(
    data: &mut Vec<T>,
    pivot: T,
    pivot_vec: U,
    v: U,
    min_vec: &mut U,
    max_vec: &mut U,
    l_store: usize,
    r_store: usize,
    Ghost(l0): Ghost<int>,
    Ghost(r0): Ghost<int>,
    Ghost(d0): Ghost<Seq<T>>,
    Ghost(rest): Ghost<vstd::multiset::Multiset<T>>,
) -> (k: usize)
    requires
        pivot_vec.lanes().len() == 8,
        forall|i: int| 0 <= i < 8 ==> #[trigger] pivot_vec.lanes()[i] == pivot,
        v.lanes().len() == 8,
        old(min_vec).lanes().len() == 8,
        old(max_vec).lanes().len() == 8,
        0 <= l0 <= l_store as int,
        l_store + 8 <= r_store + 8,
        r_store + 8 <= r0,
        r0 <= old(data).len(),
        d0.len() == old(data).len(),
        forall|j: int| l0 <= j < l_store as int ==> (#[trigger] old(data)@[j]).key() < pivot.key(),
        forall|j: int| r_store + 8 <= j < r0 ==> (#[trigger] old(data)@[j]).key() >= pivot.key(),
        forall|j: int|
            (l0 <= j < l_store as int || r_store + 8 <= j < r0) ==> crate::bitonic::covered_below(
                old(min_vec).lanes(),
                #[trigger] old(data)@[j],
            ) && crate::bitonic::covered_above(old(max_vec).lanes(), old(data)@[j]),
        old(data)@.subrange(l0, l_store as int).to_multiset().add(
            old(data)@.subrange(r_store + 8, r0).to_multiset(),
        ).add(v.lanes().to_multiset()).add(rest) == d0.subrange(l0, r0).to_multiset(),
    ensures
        k <= 8,
        final(data).len() == old(data).len(),
        forall|j: int|
            0 <= j < final(data).len() && !(l_store <= j < l_store + (8 - k)) && !(r_store + 8 - k
                <= j < r_store + 8) ==> final(data)[j] == old(data)[j],
        forall|j: int|
            l0 <= j < l_store + (8 - k) ==> (#[trigger] final(data)@[j]).key() < pivot.key(),
        forall|j: int| r_store + 8 - k <= j < r0 ==> (#[trigger] final(data)@[j]).key() >= pivot.key(),
        forall|j: int|
            (l0 <= j < l_store + (8 - k) || r_store + 8 - k <= j < r0)
                ==> crate::bitonic::covered_below(
                final(min_vec).lanes(),
                #[trigger] final(data)@[j],
            ) && crate::bitonic::covered_above(final(max_vec).lanes(), final(data)@[j]),
        final(min_vec).lanes().len() == 8,
        final(max_vec).lanes().len() == 8,
        forall|i: int|
            #![trigger final(min_vec).lanes()[i]]
            0 <= i < 8 ==> final(min_vec).lanes()[i].key() <= old(min_vec).lanes()[i].key(),
        forall|i: int|
            #![trigger final(max_vec).lanes()[i]]
            0 <= i < 8 ==> final(max_vec).lanes()[i].key() >= old(max_vec).lanes()[i].key(),
        forall|i: int|
            #![trigger final(min_vec).lanes()[i]]
            0 <= i < 8 ==> final(min_vec).lanes()[i] == old(min_vec).lanes()[i]
                || final(min_vec).lanes()[i] == v.lanes()[i],
        forall|i: int|
            #![trigger final(max_vec).lanes()[i]]
            0 <= i < 8 ==> final(max_vec).lanes()[i] == old(max_vec).lanes()[i]
                || final(max_vec).lanes()[i] == v.lanes()[i],
        final(data)@.subrange(l0, l_store + (8 - k)).to_multiset().add(
            final(data)@.subrange(r_store + 8 - k, r0).to_multiset(),
        ).add(rest) == d0.subrange(l0, r0).to_multiset(),
{
    let ghost data_pre = data@;
    let ghost mn_pre = min_vec.lanes();
    let ghost mx_pre = max_vec.lanes();
    let k = partition_vec(data, l_store, r_store + 8, v, pivot_vec, min_vec, max_vec);
    proof {
        broadcast use vstd::seq_lib::group_to_multiset_ensures;

        let ki = k as int;
        let lsi = l_store as int;
        let rsi = r_store as int;
        let p1 = data@.subrange(lsi, lsi + (8 - ki));
        let p2 = data@.subrange(rsi + 8 - ki, rsi + 8);
        assert(pivot_vec.lanes()[0] == pivot);
        assert forall|j: int| l0 <= j < lsi + (8 - ki) implies (#[trigger] data@[j]).key()
            < pivot.key() by {
            if j < lsi {
                assert(data@[j] == data_pre[j]);
            } else {
                assert(data@[j].key() < pivot_vec.lanes()[0].key());
            }
        }
        assert forall|j: int| rsi + 8 - ki <= j < r0 implies (#[trigger] data@[j]).key()
            >= pivot.key() by {
            if j >= rsi + 8 {
                assert(data@[j] == data_pre[j]);
            } else {
                assert(data@[j].key() >= pivot_vec.lanes()[0].key());
            }
        }
        crate::bitonic::lemma_coverage_pieces(
            v.lanes(),
            min_vec.lanes(),
            max_vec.lanes(),
            p1,
            p2,
        );
        assert forall|j: int|
            (l0 <= j < lsi + (8 - ki) || rsi + 8 - ki <= j < r0) implies crate::bitonic::covered_below(
            min_vec.lanes(),
            #[trigger] data@[j],
        ) && crate::bitonic::covered_above(max_vec.lanes(), data@[j]) by {
            if l0 <= j < lsi || rsi + 8 <= j < r0 {
                assert(data@[j] == data_pre[j]);
                crate::bitonic::lemma_coverage_shrink(mn_pre, min_vec.lanes(), data@[j]);
                crate::bitonic::lemma_coverage_grow(mx_pre, max_vec.lanes(), data@[j]);
            } else if lsi <= j < lsi + (8 - ki) {
                assert(data@[j] == p1[j - lsi]);
            } else {
                assert(data@[j] == p2[j - (rsi + 8 - ki)]);
            }
        }
        assert(data@.subrange(l0, lsi) =~= data_pre.subrange(l0, lsi));
        assert(data@.subrange(l0, lsi + (8 - ki)) =~= data_pre.subrange(l0, lsi) + p1);
        assert(data@.subrange(rsi + 8, r0) =~= data_pre.subrange(rsi + 8, r0));
        assert(data@.subrange(rsi + 8 - ki, r0) =~= p2 + data_pre.subrange(rsi + 8, r0));
        vstd::seq_lib::lemma_multiset_commutative(data_pre.subrange(l0, lsi), p1);
        vstd::seq_lib::lemma_multiset_commutative(p2, data_pre.subrange(rsi + 8, r0));
        assert(data@.subrange(l0, lsi + (8 - ki)).to_multiset().add(
            data@.subrange(rsi + 8 - ki, r0).to_multiset(),
        ).add(rest) =~= d0.subrange(l0, r0).to_multiset());
    }
    k
}

/// Partition `[lo, hi)` of `data` around `pivot`: afterwards the elements
/// below the pivot fill `[lo, l)` and the others `[l, hi)`, the range holds
/// the same values, and `smallest` and `biggest` become the running minimum
/// and maximum: they bound every element of the range, never pass the values
/// they held, and each is either unchanged or attained by an element of the
/// range -- together, the minimum (maximum) of the old value and the range.
#[verifier::rlimit(100)]
#[verifier::spinoff_prover]
pub fn partition_avx512<T: crate::bit_64::Bit64Element, U: crate::bit_64::Bit64Simd<T>>(
    data: &mut Vec<T>,
    lo: usize,
    hi: usize,
    pivot: T,
    smallest: &mut T,
    biggest: &mut T,
) -> (l: usize)
    requires
        lo <= hi <= old(data).len(),
    ensures
        lo <= l <= hi,
        final(data).len() == old(data).len(),
        forall|j: int|
            0 <= j < final(data).len() && !(lo <= j < hi) ==> final(data)[j] == old(data)[j],
        final(data)@.subrange(lo as int, hi as int).to_multiset() == old(data)@.subrange(
            lo as int,
            hi as int,
        ).to_multiset(),
        forall|j: int| lo <= j < l ==> (#[trigger] final(data)@[j]).key() < pivot.key(),
        forall|j: int| l <= j < hi ==> (#[trigger] final(data)@[j]).key() >= pivot.key(),
        forall|j: int|
            lo <= j < hi ==> final(smallest).key() <= (#[trigger] final(data)@[j]).key()
                && final(data)@[j].key() <= final(biggest).key(),
        final(smallest).key() <= old(smallest).key(),
        final(biggest).key() >= old(biggest).key(),
        *final(smallest) == *old(smallest) || exists|j: int|
            #![auto]
            lo <= j < hi && final(data)@[j] == *final(smallest),
        *final(biggest) == *old(biggest) || exists|j: int|
            #![auto]
            lo <= j < hi && final(data)@[j] == *final(biggest),
{
    let lr = partition_prepass(data, lo, hi, pivot, smallest, biggest);
    let l0 = lr.0;
    let r0 = lr.1;
    if l0 == r0 {
        return l0;
    }
    let ghost d0 = data@;
    let ghost spre = *smallest;
    let ghost bpre = *biggest;
    let pivot_vec = U::set(pivot);
    let mut min_vec = U::set(*smallest);
    let mut max_vec = U::set(*biggest);
    let ghost pk = pivot.key();
    let ghost empty_rest = vstd::multiset::Multiset::<T>::empty();
    if r0 - l0 == 8 {
        let v = U::loadu(data, l0);
        proof {
            broadcast use vstd::seq_lib::group_to_multiset_ensures;

            assert(v.lanes() =~= d0.subrange(l0 as int, r0 as int));
            assert(data@.subrange(l0 as int, l0 as int) =~= Seq::<T>::empty());
            assert(data@.subrange(r0 as int, r0 as int) =~= Seq::<T>::empty());
            assert(Seq::<T>::empty().to_multiset().len() == 0);
            assert(Seq::<T>::empty().to_multiset() =~= empty_rest);
            assert(data@.subrange(l0 as int, l0 as int).to_multiset().add(
                data@.subrange(r0 as int, r0 as int).to_multiset(),
            ).add(v.lanes().to_multiset()).add(empty_rest) =~= d0.subrange(
                l0 as int,
                r0 as int,
            ).to_multiset());
        }
        let k = partition_vec_step(
            data,
            pivot,
            pivot_vec,
            v,
            &mut min_vec,
            &mut max_vec,
            l0,
            r0 - 8,
            Ghost(l0 as int),
            Ghost(r0 as int),
            Ghost(d0),
            Ghost(empty_rest),
        );
        let sm = U::reducemin(min_vec);
        let bg = U::reducemax(max_vec);
        *smallest = sm;
        *biggest = bg;
        proof {
            let li = l0 + (8 - k as int);
            let dm = d0.subrange(lo as int, hi as int);
            assert forall|i: int| 0 <= i < 8 implies #[trigger] min_vec.lanes()[i] == spre
                || dm.to_multiset().count(min_vec.lanes()[i]) > 0 by {
                if min_vec.lanes()[i] != spre {
                    assert(min_vec.lanes()[i] == v.lanes()[i]);
                    assert(v.lanes()[i] == d0[l0 + i]);
                    lemma_slice_member(d0, lo as int, hi as int, l0 + i);
                }
            }
            assert forall|i: int| 0 <= i < 8 implies #[trigger] max_vec.lanes()[i] == bpre
                || dm.to_multiset().count(max_vec.lanes()[i]) > 0 by {
                if max_vec.lanes()[i] != bpre {
                    assert(max_vec.lanes()[i] == v.lanes()[i]);
                    assert(v.lanes()[i] == d0[l0 + i]);
                    lemma_slice_member(d0, lo as int, hi as int, l0 + i);
                }
            }
            assert(sm == *old(smallest) || dm.to_multiset().count(sm) > 0) by {
                let wi = choose|i: int| 0 <= i < 8 && sm == min_vec.lanes()[i];
                if sm == spre && sm != *old(smallest) {
                    let j0 = choose|j: int| #![auto] lo <= j < hi && d0[j] == spre;
                    lemma_slice_member(d0, lo as int, hi as int, j0);
                }
            }
            assert(bg == *old(biggest) || dm.to_multiset().count(bg) > 0) by {
                let wi = choose|i: int| 0 <= i < 8 && bg == max_vec.lanes()[i];
                if bg == bpre && bg != *old(biggest) {
                    let j0 = choose|j: int| #![auto] lo <= j < hi && d0[j] == bpre;
                    lemma_slice_member(d0, lo as int, hi as int, j0);
                }
            }
            finish_partition_proof::<T>(
                d0,
                data@,
                lo as int,
                hi as int,
                l0 as int,
                r0 as int,
                li,
                pk,
                min_vec.lanes(),
                max_vec.lanes(),
                sm,
                bg,
                spre,
                bpre,
                *old(smallest),
                *old(biggest),
                empty_rest,
            );
        }
        return l0 + (8 - k);
    }
    let vec_left = U::loadu(data, l0);
    let vec_right = U::loadu(data, r0 - 8);
    let mut l_store = l0;
    let mut r_store = r0 - 8;
    let mut left = l0 + 8;
    let mut right = r0 - 8;
    proof {
        broadcast use vstd::seq_lib::group_to_multiset_ensures;

        assert(vec_left.lanes() =~= d0.subrange(l0 as int, l0 + 8));
        assert(vec_right.lanes() =~= d0.subrange(r0 - 8, r0 as int));
        assert(data@.subrange(l0 as int, l0 as int) =~= Seq::<T>::empty());
        assert(data@.subrange(r0 as int, r0 as int) =~= Seq::<T>::empty());
        assert(Seq::<T>::empty().to_multiset().len() == 0);
        assert(Seq::<T>::empty().to_multiset() =~= empty_rest);
        assert(d0.subrange(l0 as int, r0 as int) =~= vec_left.lanes() + d0.subrange(
            l0 + 8,
            r0 - 8,
        ) + vec_right.lanes());
        vstd::seq_lib::lemma_multiset_commutative(vec_left.lanes(), d0.subrange(l0 + 8, r0 - 8));
        vstd::seq_lib::lemma_multiset_commutative(
            vec_left.lanes() + d0.subrange(l0 + 8, r0 - 8),
            vec_right.lanes(),
        );
        assert(data@.subrange(l0 as int, l0 as int).to_multiset().add(
            data@.subrange(r0 as int, r0 as int).to_multiset(),
        ).add(
            d0.subrange(l0 + 8, r0 - 8).to_multiset().add(vec_left.lanes().to_multiset()).add(
                vec_right.lanes().to_multiset(),
            ),
        ) =~= d0.subrange(l0 as int, r0 as int).to_multiset());
    }
    while right - left != 0
        invariant
            lo <= l0 <= l_store,
            l_store <= left,
            left <= right,
            right <= r_store + 8,
            r_store + 8 <= r0,
            r0 <= hi <= data.len(),
            data.len() == old(data).len(),
            d0.len() == data.len(),
            (left - l_store) + (r_store + 8 - right) == 16,
            (right - left) % 8 == 0,
            pivot_vec.lanes().len() == 8,
            forall|i: int| 0 <= i < 8 ==> #[trigger] pivot_vec.lanes()[i] == pivot,
            min_vec.lanes().len() == 8,
            max_vec.lanes().len() == 8,
            vec_left.lanes().len() == 8,
            vec_right.lanes().len() == 8,
            forall|i: int|
                #![trigger min_vec.lanes()[i]]
                0 <= i < 8 ==> min_vec.lanes()[i].key() <= spre.key(),
            forall|i: int|
                #![trigger max_vec.lanes()[i]]
                0 <= i < 8 ==> max_vec.lanes()[i].key() >= bpre.key(),
            forall|i: int|
                #![trigger min_vec.lanes()[i]]
                0 <= i < 8 ==> min_vec.lanes()[i] == spre || d0.subrange(
                    lo as int,
                    hi as int,
                ).to_multiset().count(min_vec.lanes()[i]) > 0,
            forall|i: int|
                #![trigger max_vec.lanes()[i]]
                0 <= i < 8 ==> max_vec.lanes()[i] == bpre || d0.subrange(
                    lo as int,
                    hi as int,
                ).to_multiset().count(max_vec.lanes()[i]) > 0,
            forall|j: int|
                0 <= j < data.len() && !(l0 <= j < r0) ==> #[trigger] data@[j] == d0[j],
            data@.subrange(left as int, right as int) == d0.subrange(left as int, right as int),
            forall|j: int| l0 <= j < l_store ==> (#[trigger] data@[j]).key() < pivot.key(),
            forall|j: int|
                r_store + 8 <= j < r0 ==> (#[trigger] data@[j]).key() >= pivot.key(),
            forall|j: int|
                (l0 <= j < l_store || r_store + 8 <= j < r0) ==> crate::bitonic::covered_below(
                    min_vec.lanes(),
                    #[trigger] data@[j],
                ) && crate::bitonic::covered_above(max_vec.lanes(), data@[j]),
            data@.subrange(l0 as int, l_store as int).to_multiset().add(
                data@.subrange(r_store + 8, r0 as int).to_multiset(),
            ).add(
                d0.subrange(left as int, right as int).to_multiset().add(
                    vec_left.lanes().to_multiset(),
                ).add(vec_right.lanes().to_multiset()),
            ) == d0.subrange(l0 as int, r0 as int).to_multiset(),
        decreases right - left,
    {
        let ghost data_pre = data@;
        let ghost left_pre = left as int;
        let ghost right_pre = right as int;
        let curr_vec;
        let ghost loadpos: int;
        let ghost from_right: bool;
        if (r_store + 8) - right < left - l_store {
            right = right - 8;
            curr_vec = U::loadu(data, right);
            proof {
                loadpos = right as int;
                from_right = true;
            }
        } else {
            curr_vec = U::loadu(data, left);
            proof {
                loadpos = left as int;
                from_right = false;
            }
            left = left + 8;
        }
        let ghost rest = d0.subrange(left as int, right as int).to_multiset().add(
            vec_left.lanes().to_multiset(),
        ).add(vec_right.lanes().to_multiset());
        proof {
            assert forall|i: int| 0 <= i < 8 implies #[trigger] curr_vec.lanes()[i] == d0[loadpos
                + i] by {
                assert(data_pre.subrange(left_pre, right_pre)[loadpos + i - left_pre]
                    == d0.subrange(left_pre, right_pre)[loadpos + i - left_pre]);
            }
            assert(curr_vec.lanes() =~= d0.subrange(loadpos, loadpos + 8));
            if from_right {
                assert(d0.subrange(left_pre, right_pre) =~= d0.subrange(left_pre, right as int)
                    + curr_vec.lanes());
                vstd::seq_lib::lemma_multiset_commutative(
                    d0.subrange(left_pre, right as int),
                    curr_vec.lanes(),
                );
            } else {
                assert(d0.subrange(left_pre, right_pre) =~= curr_vec.lanes() + d0.subrange(
                    left as int,
                    right_pre,
                ));
                vstd::seq_lib::lemma_multiset_commutative(
                    curr_vec.lanes(),
                    d0.subrange(left as int, right_pre),
                );
            }
            assert(data@.subrange(l0 as int, l_store as int).to_multiset().add(
                data@.subrange(r_store + 8, r0 as int).to_multiset(),
            ).add(curr_vec.lanes().to_multiset()).add(rest) =~= d0.subrange(
                l0 as int,
                r0 as int,
            ).to_multiset());
        }
        let ghost mn_pre = min_vec.lanes();
        let ghost mx_pre = max_vec.lanes();
        let k = partition_vec_step(
            data,
            pivot,
            pivot_vec,
            curr_vec,
            &mut min_vec,
            &mut max_vec,
            l_store,
            r_store,
            Ghost(l0 as int),
            Ghost(r0 as int),
            Ghost(d0),
            Ghost(rest),
        );
        proof {
            assert forall|i: int| 0 <= i < 8 implies #[trigger] min_vec.lanes()[i] == spre
                || d0.subrange(lo as int, hi as int).to_multiset().count(min_vec.lanes()[i])
                > 0 by {
                if min_vec.lanes()[i] != mn_pre[i] {
                    assert(min_vec.lanes()[i] == curr_vec.lanes()[i]);
                    assert(curr_vec.lanes()[i] == d0[loadpos + i]);
                    lemma_slice_member(d0, lo as int, hi as int, loadpos + i);
                }
            }
            assert forall|i: int| 0 <= i < 8 implies #[trigger] max_vec.lanes()[i] == bpre
                || d0.subrange(lo as int, hi as int).to_multiset().count(max_vec.lanes()[i])
                > 0 by {
                if max_vec.lanes()[i] != mx_pre[i] {
                    assert(max_vec.lanes()[i] == curr_vec.lanes()[i]);
                    assert(curr_vec.lanes()[i] == d0[loadpos + i]);
                    lemma_slice_member(d0, lo as int, hi as int, loadpos + i);
                }
            }
            assert(l_store + (8 - k as int) <= left as int);
            assert(right as int <= r_store + 8 - k as int);
            assert forall|x: int| left <= x < right implies #[trigger] data@[x] == d0[x] by {
                assert(data@[x] == data_pre[x]);
                assert(data_pre.subrange(left_pre, right_pre)[x - left_pre] == d0.subrange(
                    left_pre,
                    right_pre,
                )[x - left_pre]);
            }
            assert(data@.subrange(left as int, right as int) =~= d0.subrange(
                left as int,
                right as int,
            ));
        }
        r_store = r_store - k;
        l_store = l_store + (8 - k);
    }
    let ghost rest1 = vec_right.lanes().to_multiset();
    proof {
        assert(d0.subrange(left as int, right as int) =~= Seq::<T>::empty());
        assert(Seq::<T>::empty().to_multiset().len() == 0) by {
            broadcast use vstd::seq_lib::group_to_multiset_ensures;

        }
        assert(Seq::<T>::empty().to_multiset() =~= empty_rest);
        assert(data@.subrange(l0 as int, l_store as int).to_multiset().add(
            data@.subrange(r_store + 8, r0 as int).to_multiset(),
        ).add(vec_left.lanes().to_multiset()).add(rest1) =~= d0.subrange(
            l0 as int,
            r0 as int,
        ).to_multiset());
    }
    let ghost mn_f1 = min_vec.lanes();
    let ghost mx_f1 = max_vec.lanes();
    let k1 = partition_vec_step(
        data,
        pivot,
        pivot_vec,
        vec_left,
        &mut min_vec,
        &mut max_vec,
        l_store,
        r_store,
        Ghost(l0 as int),
        Ghost(r0 as int),
        Ghost(d0),
        Ghost(rest1),
    );
    l_store = l_store + (8 - k1);
    r_store = r_store - k1;
    proof {
        assert forall|i: int| 0 <= i < 8 implies #[trigger] min_vec.lanes()[i] == spre
            || d0.subrange(lo as int, hi as int).to_multiset().count(min_vec.lanes()[i]) > 0 by {
            if min_vec.lanes()[i] != mn_f1[i] {
                assert(min_vec.lanes()[i] == vec_left.lanes()[i]);
                assert(vec_left.lanes()[i] == d0.subrange(l0 as int, l0 + 8)[i]);
                lemma_slice_member(d0, lo as int, hi as int, l0 + i);
            }
        }
        assert forall|i: int| 0 <= i < 8 implies #[trigger] max_vec.lanes()[i] == bpre
            || d0.subrange(lo as int, hi as int).to_multiset().count(max_vec.lanes()[i]) > 0 by {
            if max_vec.lanes()[i] != mx_f1[i] {
                assert(max_vec.lanes()[i] == vec_left.lanes()[i]);
                assert(vec_left.lanes()[i] == d0.subrange(l0 as int, l0 + 8)[i]);
                lemma_slice_member(d0, lo as int, hi as int, l0 + i);
            }
        }
        assert(data@.subrange(l0 as int, l_store as int).to_multiset().add(
            data@.subrange(r_store + 8, r0 as int).to_multiset(),
        ).add(vec_right.lanes().to_multiset()).add(empty_rest) =~= d0.subrange(
            l0 as int,
            r0 as int,
        ).to_multiset());
        assert(l_store + 8 == r_store + 8);
    }
    let ghost mn_f2 = min_vec.lanes();
    let ghost mx_f2 = max_vec.lanes();
    let k2 = partition_vec_step(
        data,
        pivot,
        pivot_vec,
        vec_right,
        &mut min_vec,
        &mut max_vec,
        l_store,
        r_store,
        Ghost(l0 as int),
        Ghost(r0 as int),
        Ghost(d0),
        Ghost(empty_rest),
    );
    l_store = l_store + (8 - k2);
    let sm = U::reducemin(min_vec);
    let bg = U::reducemax(max_vec);
    *smallest = sm;
    *biggest = bg;
    proof {
        assert forall|i: int| 0 <= i < 8 implies #[trigger] min_vec.lanes()[i] == spre
            || d0.subrange(lo as int, hi as int).to_multiset().count(min_vec.lanes()[i]) > 0 by {
            if min_vec.lanes()[i] != mn_f2[i] {
                assert(min_vec.lanes()[i] == vec_right.lanes()[i]);
                assert(vec_right.lanes()[i] == d0.subrange(r0 - 8, r0 as int)[i]);
                lemma_slice_member(d0, lo as int, hi as int, r0 - 8 + i);
            }
        }
        assert forall|i: int| 0 <= i < 8 implies #[trigger] max_vec.lanes()[i] == bpre
            || d0.subrange(lo as int, hi as int).to_multiset().count(max_vec.lanes()[i]) > 0 by {
            if max_vec.lanes()[i] != mx_f2[i] {
                assert(max_vec.lanes()[i] == vec_right.lanes()[i]);
                assert(vec_right.lanes()[i] == d0.subrange(r0 - 8, r0 as int)[i]);
                lemma_slice_member(d0, lo as int, hi as int, r0 - 8 + i);
            }
        }
        assert(sm == *old(smallest) || d0.subrange(lo as int, hi as int).to_multiset().count(sm)
            > 0) by {
            let wi = choose|i: int| 0 <= i < 8 && sm == min_vec.lanes()[i];
            if sm == spre && sm != *old(smallest) {
                let j0 = choose|j: int| #![auto] lo <= j < hi && d0[j] == spre;
                lemma_slice_member(d0, lo as int, hi as int, j0);
            }
        }
        assert(bg == *old(biggest) || d0.subrange(lo as int, hi as int).to_multiset().count(bg)
            > 0) by {
            let wi = choose|i: int| 0 <= i < 8 && bg == max_vec.lanes()[i];
            if bg == bpre && bg != *old(biggest) {
                let j0 = choose|j: int| #![auto] lo <= j < hi && d0[j] == bpre;
                lemma_slice_member(d0, lo as int, hi as int, j0);
            }
        }
        finish_partition_proof::<T>(
            d0,
            data@,
            lo as int,
            hi as int,
            l0 as int,
            r0 as int,
            l_store as int,
            pk,
            min_vec.lanes(),
            max_vec.lanes(),
            sm,
            bg,
            spre,
            bpre,
            *old(smallest),
            *old(biggest),
            empty_rest,
        );
    }
    l_store
}

/// Assemble the partition postconditions once the classified regions meet:
/// the range is a permutation and the reduced extrema bound it.
#[verifier::rlimit(100)]
proof fn finish_partition_proof<T: crate::bit_64::Bit64Element>(
    d0: Seq<T>,
    dnow: Seq<T>,
    lo: int,
    hi: int,
    l0: int,
    r0: int,
    l: int,
    pk: int,
    mn: Seq<T>,
    mx: Seq<T>,
    sm: T,
    bg: T,
    spre: T,
    bpre: T,
    sm0: T,
    bg0: T,
    empty_rest: vstd::multiset::Multiset<T>,
)
    requires
        d0.len() == dnow.len(),
        0 <= lo <= l0 <= l <= r0 <= hi <= d0.len(),
        empty_rest == vstd::multiset::Multiset::<T>::empty(),
        dnow.subrange(l0, l).to_multiset().add(dnow.subrange(l, r0).to_multiset()).add(empty_rest)
            == d0.subrange(l0, r0).to_multiset(),
        forall|j: int| 0 <= j < dnow.len() && !(l0 <= j < r0) ==> #[trigger] dnow[j] == d0[j],
        forall|j: int| lo <= j < l0 ==> (#[trigger] d0[j]).key() < pk,
        forall|j: int| r0 <= j < hi ==> (#[trigger] d0[j]).key() >= pk,
        forall|j: int|
            (lo <= j < l0 || r0 <= j < hi) ==> spre.key() <= (#[trigger] d0[j]).key() && d0[j].key()
                <= bpre.key(),
        forall|j: int|
            (l0 <= j < l || l <= j < r0) ==> crate::bitonic::covered_below(
                mn,
                #[trigger] dnow[j],
            ) && crate::bitonic::covered_above(mx, dnow[j]),
        mn.len() == 8,
        mx.len() == 8,
        forall|i: int| #![trigger mn[i]] 0 <= i < 8 ==> sm.key() <= mn[i].key(),
        forall|i: int| #![trigger mx[i]] 0 <= i < 8 ==> bg.key() >= mx[i].key(),
        forall|i: int| #![trigger mn[i]] 0 <= i < 8 ==> mn[i].key() <= spre.key(),
        forall|i: int| #![trigger mx[i]] 0 <= i < 8 ==> mx[i].key() >= bpre.key(),
        spre.key() <= sm0.key(),
        bpre.key() >= bg0.key(),
        sm == sm0 || d0.subrange(lo, hi).to_multiset().count(sm) > 0,
        bg == bg0 || d0.subrange(lo, hi).to_multiset().count(bg) > 0,
    ensures
        dnow.subrange(lo, hi).to_multiset() == d0.subrange(lo, hi).to_multiset(),
        forall|j: int|
            lo <= j < hi ==> sm.key() <= (#[trigger] dnow[j]).key() && dnow[j].key() <= bg.key(),
        sm.key() <= sm0.key(),
        bg.key() >= bg0.key(),
        sm == sm0 || exists|j: int| #![auto] lo <= j < hi && dnow[j] == sm,
        bg == bg0 || exists|j: int| #![auto] lo <= j < hi && dnow[j] == bg,
{
    broadcast use vstd::seq_lib::group_to_multiset_ensures;

    assert(dnow.subrange(l0, l) + dnow.subrange(l, r0) =~= dnow.subrange(l0, r0));
    vstd::seq_lib::lemma_multiset_commutative(dnow.subrange(l0, l), dnow.subrange(l, r0));
    assert(dnow.subrange(l0, r0).to_multiset() =~= d0.subrange(l0, r0).to_multiset());
    crate::bitonic::lemma_frame_multiset(d0, dnow, lo, l0, r0, hi);
    assert forall|j: int| lo <= j < hi implies sm.key() <= (#[trigger] dnow[j]).key()
        && dnow[j].key() <= bg.key() by {
        if l0 <= j < r0 {
            let w1 = choose|i: int| #![trigger mn[i]] 0 <= i < 8 && mn[i].key() <= dnow[j].key();
            let w2 = choose|i: int| #![trigger mx[i]] 0 <= i < 8 && mx[i].key() >= dnow[j].key();
            assert(sm.key() <= mn[w1].key());
            assert(bg.key() >= mx[w2].key());
        } else {
            assert(dnow[j] == d0[j]);
            assert(spre.key() <= dnow[j].key() && dnow[j].key() <= bpre.key());
            assert(sm.key() <= mn[0].key());
            assert(mn[0].key() <= spre.key());
            assert(bg.key() >= mx[0].key());
            assert(mx[0].key() >= bpre.key());
        }
    }
    assert(sm.key() <= mn[0].key() && mn[0].key() <= spre.key());
    assert(bg.key() >= mx[0].key() && mx[0].key() >= bpre.key());
    if sm != sm0 {
        assert(dnow.subrange(lo, hi).to_multiset().count(sm) > 0);
        assert(dnow.subrange(lo, hi).contains(sm));
        let j0 = choose|j: int| 0 <= j < dnow.subrange(lo, hi).len() && dnow.subrange(lo, hi)[j]
            == sm;
        assert(lo <= lo + j0 < hi && dnow[lo + j0] == sm);
    }
    if bg != bg0 {
        assert(dnow.subrange(lo, hi).to_multiset().count(bg) > 0);
        assert(dnow.subrange(lo, hi).contains(bg));
        let j0 = choose|j: int| 0 <= j < dnow.subrange(lo, hi).len() && dnow.subrange(lo, hi)[j]
            == bg;
        assert(lo <= lo + j0 < hi && dnow[lo + j0] == bg);
    }
}

} // verus!
