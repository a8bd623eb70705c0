//! The portable reference back-end: one flat eight-lane vector per logical
//! register, generic over the 64-bit element type.

use vstd::prelude::*;

verus! {

use crate::{SimdCompare, SimdSortable};
use crate::masks::{bit8, popcnt8, popcnt_from, compress_from};

/// A logical 8-lane vector held as a plain array of lanes.
pub struct Simd8<T: SimdSortable> {
    lanes: [T; 8],
}

impl<T: SimdSortable> Clone for Simd8<T> {
    fn clone(&self) -> (r: Self)
        ensures
            r == *self,
    {
        Simd8 { lanes: self.lanes }
    }
}

impl<T: SimdSortable> Copy for Simd8<T> {

}

/// The smaller of two elements; on equal keys, the first.
pub fn min_lane<T: SimdSortable>(a: T, b: T) -> (r: T)
    ensures
        r == (if a.key() <= b.key() {
            a
        } else {
            b
        }),
{
    if b.elem_lt(a) {
        b
    } else {
        a
    }
}

/// The larger of two elements; on equal keys, the second.
pub fn max_lane<T: SimdSortable>(a: T, b: T) -> (r: T)
    ensures
        r == (if a.key() <= b.key() {
            b
        } else {
            a
        }),
{
    if b.elem_lt(a) {
        a
    } else {
        b
    }
}

impl<T: SimdSortable> SimdCompare<T> for Simd8<T> {
    closed spec fn lanes(self) -> Seq<T> {
        self.lanes@
    }

    proof fn lanes_len(self) {
    }

    fn min(a: Self, b: Self) -> (r: Self) {
        let l = [
            min_lane(a.lanes[0], b.lanes[0]),
            min_lane(a.lanes[1], b.lanes[1]),
            min_lane(a.lanes[2], b.lanes[2]),
            min_lane(a.lanes[3], b.lanes[3]),
            min_lane(a.lanes[4], b.lanes[4]),
            min_lane(a.lanes[5], b.lanes[5]),
            min_lane(a.lanes[6], b.lanes[6]),
            min_lane(a.lanes[7], b.lanes[7]),
        ];
        Simd8 { lanes: l }
    }

    fn max(a: Self, b: Self) -> (r: Self) {
        let l = [
            max_lane(a.lanes[0], b.lanes[0]),
            max_lane(a.lanes[1], b.lanes[1]),
            max_lane(a.lanes[2], b.lanes[2]),
            max_lane(a.lanes[3], b.lanes[3]),
            max_lane(a.lanes[4], b.lanes[4]),
            max_lane(a.lanes[5], b.lanes[5]),
            max_lane(a.lanes[6], b.lanes[6]),
            max_lane(a.lanes[7], b.lanes[7]),
        ];
        Simd8 { lanes: l }
    }

    fn loadu(data: &Vec<T>, offset: usize) -> (r: Self) {
        let l = [
            data[offset],
            data[offset + 1],
            data[offset + 2],
            data[offset + 3],
            data[offset + 4],
            data[offset + 5],
            data[offset + 6],
            data[offset + 7],
        ];
        let r = Simd8 { lanes: l };
        proof {
            assert(r.lanes() =~= data@.subrange(offset as int, offset as int + 8));
        }
        r
    }

    fn storeu(input: Self, data: &mut Vec<T>, offset: usize) {
        data.set(offset, input.lanes[0]);
        data.set(offset + 1, input.lanes[1]);
        data.set(offset + 2, input.lanes[2]);
        data.set(offset + 3, input.lanes[3]);
        data.set(offset + 4, input.lanes[4]);
        data.set(offset + 5, input.lanes[5]);
        data.set(offset + 6, input.lanes[6]);
        data.set(offset + 7, input.lanes[7]);
    }

    fn mask_loadu(data: &Vec<T>, offset: usize, k: usize) -> (r: Self) {
        let sentinel = T::max_value();
        let l = [
            if 0 < k {
                data[offset]
            } else {
                sentinel
            },
            if 1 < k {
                data[offset + 1]
            } else {
                sentinel
            },
            if 2 < k {
                data[offset + 2]
            } else {
                sentinel
            },
            if 3 < k {
                data[offset + 3]
            } else {
                sentinel
            },
            if 4 < k {
                data[offset + 4]
            } else {
                sentinel
            },
            if 5 < k {
                data[offset + 5]
            } else {
                sentinel
            },
            if 6 < k {
                data[offset + 6]
            } else {
                sentinel
            },
            if 7 < k {
                data[offset + 7]
            } else {
                sentinel
            },
        ];
        Simd8 { lanes: l }
    }

    fn mask_storeu(input: Self, data: &mut Vec<T>, offset: usize, k: usize) {
        let mut i: usize = 0;
        while i < k
            invariant
                k <= 8,
                offset + k <= data.len(),
                i <= k,
                data.len() == old(data).len(),
                input.lanes().len() == 8,
                forall|j: int|
                    0 <= j < data.len() && !(offset <= j < offset + i) ==> data[j] == old(data)[j],
                forall|j: int| 0 <= j < i ==> data[offset + j] == #[trigger] input.lanes()[j],
            decreases k - i,
        {
            data.set(offset + i, input.lanes[i]);
            i = i + 1;
        }
    }

    fn gather_from_idx(idx: [usize; 8], data: &Vec<T>) -> (r: Self) {
        let l = [
            data[idx[0]],
            data[idx[1]],
            data[idx[2]],
            data[idx[3]],
            data[idx[4]],
            data[idx[5]],
            data[idx[6]],
            data[idx[7]],
        ];
        Simd8 { lanes: l }
    }

    fn get_value_at_idx(input: Self, idx: usize) -> (r: T) {
        input.lanes[idx]
    }

    fn set(value: T) -> (r: Self) {
        Simd8 { lanes: [value, value, value, value, value, value, value, value] }
    }

    fn ge(a: Self, b: Self) -> (m: u8) {
        let u0: u8 = if !a.lanes[0].elem_lt(b.lanes[0]) {
            1
        } else {
            0
        };
        let u1: u8 = if !a.lanes[1].elem_lt(b.lanes[1]) {
            1
        } else {
            0
        };
        let u2: u8 = if !a.lanes[2].elem_lt(b.lanes[2]) {
            1
        } else {
            0
        };
        let u3: u8 = if !a.lanes[3].elem_lt(b.lanes[3]) {
            1
        } else {
            0
        };
        let u4: u8 = if !a.lanes[4].elem_lt(b.lanes[4]) {
            1
        } else {
            0
        };
        let u5: u8 = if !a.lanes[5].elem_lt(b.lanes[5]) {
            1
        } else {
            0
        };
        let u6: u8 = if !a.lanes[6].elem_lt(b.lanes[6]) {
            1
        } else {
            0
        };
        let u7: u8 = if !a.lanes[7].elem_lt(b.lanes[7]) {
            1
        } else {
            0
        };
        let m: u8 = u0 | (u1 << 1u8) | (u2 << 2u8) | (u3 << 3u8) | (u4 << 4u8) | (u5 << 5u8) | (u6
            << 6u8) | (u7 << 7u8);
        proof {
            crate::masks::lemma_mask_from_bits(m, u0, u1, u2, u3, u4, u5, u6, u7);
        }
        m
    }

    fn ones_count(mask: u8) -> (r: usize) {
        proof {
            crate::masks::lemma_popcnt8_as_sum(mask);
        }
        let c: u8 = (mask & 1u8) + ((mask >> 1u8) & 1u8) + ((mask >> 2u8) & 1u8) + ((mask >> 3u8)
            & 1u8) + ((mask >> 4u8) & 1u8) + ((mask >> 5u8) & 1u8) + ((mask >> 6u8) & 1u8) + ((mask
            >> 7u8) & 1u8);
        c as usize
    }

    fn not_mask(mask: u8) -> (r: u8) {
        let r = !mask;
        proof {
            crate::masks::lemma_not_mask(mask, r);
        }
        r
    }

    fn reducemin(x: Self) -> (r: T) {
        let m1 = min_lane(x.lanes[0], x.lanes[1]);
        let m2 = min_lane(x.lanes[2], x.lanes[3]);
        let m3 = min_lane(x.lanes[4], x.lanes[5]);
        let m4 = min_lane(x.lanes[6], x.lanes[7]);
        let r = min_lane(min_lane(m1, m2), min_lane(m3, m4));
        proof {
            assert(r == x.lanes()[0] || r == x.lanes()[1] || r == x.lanes()[2] || r == x.lanes()[3]
                || r == x.lanes()[4] || r == x.lanes()[5] || r == x.lanes()[6] || r
                == x.lanes()[7]);
        }
        r
    }

    fn reducemax(x: Self) -> (r: T) {
        let m1 = max_lane(x.lanes[0], x.lanes[1]);
        let m2 = max_lane(x.lanes[2], x.lanes[3]);
        let m3 = max_lane(x.lanes[4], x.lanes[5]);
        let m4 = max_lane(x.lanes[6], x.lanes[7]);
        let r = max_lane(max_lane(m1, m2), max_lane(m3, m4));
        proof {
            assert(r == x.lanes()[0] || r == x.lanes()[1] || r == x.lanes()[2] || r == x.lanes()[3]
                || r == x.lanes()[4] || r == x.lanes()[5] || r == x.lanes()[6] || r
                == x.lanes()[7]);
        }
        r
    }

    fn mask_compressstoreu(data: &mut Vec<T>, offset: usize, mask: u8, vals: Self) {
        proof {
            crate::masks::lemma_popcnt_from_bounds(mask, 0);
        }
        let mut i: usize = 0;
        let mut cnt: usize = 0;
        while i < 8
            invariant
                i <= 8,
                offset + popcnt8(mask) <= data.len(),
                data.len() == old(data).len(),
                vals.lanes().len() == 8,
                cnt + popcnt_from(mask, i as int) == popcnt8(mask),
                0 <= popcnt_from(mask, i as int),
                compress_from(vals.lanes(), mask, 0) =~= data@.subrange(
                    offset as int,
                    offset + cnt,
                ) + compress_from(vals.lanes(), mask, i as int),
                forall|j: int|
                    0 <= j < data.len() && !(offset <= j < offset + cnt) ==> data[j] == old(
                        data,
                    )[j],
            decreases 8 - i,
        {
            proof {
                crate::masks::lemma_popcnt_from_bounds(mask, i + 1);
            }
            let sh: u8 = i as u8;
            let b: u8 = (mask >> sh) & 1u8;
            let ghost pre = data@;
            let ghost precnt = cnt as int;
            if b == 1 {
                assert(bit8(mask, i as int));
                data.set(offset + cnt, vals.lanes[i]);
                cnt = cnt + 1;
                proof {
                    assert(data@.subrange(offset as int, offset + cnt) =~= pre.subrange(
                        offset as int,
                        offset + precnt,
                    ) + seq![vals.lanes()[i as int]]);
                    assert(compress_from(vals.lanes(), mask, i as int) == seq![
                        vals.lanes()[i as int],
                    ] + compress_from(vals.lanes(), mask, i + 1));
                    assert(compress_from(vals.lanes(), mask, 0) =~= data@.subrange(
                        offset as int,
                        offset + cnt,
                    ) + compress_from(vals.lanes(), mask, i + 1));
                }
            } else {
                assert(!bit8(mask, i as int));
            }
            i = i + 1;
        }
        proof {
            assert(compress_from(vals.lanes(), mask, 8) =~= Seq::<T>::empty());
            assert(data@.subrange(offset as int, offset + cnt) + Seq::<T>::empty() =~= data@
                .subrange(offset as int, offset + cnt));
            assert(data@.subrange(offset as int, offset as int + popcnt8(mask)) == compress_from(
                vals.lanes(),
                mask,
                0,
            ));
        }
    }
}


impl<T: crate::bit_64::Bit64Element> crate::bit_64::Bit64Simd<T> for Simd8<T> {
    fn swizzle2_0xaa(a: Self, b: Self) -> (r: Self) {
        Simd8 {
            lanes: [
                a.lanes[0],
                b.lanes[1],
                a.lanes[2],
                b.lanes[3],
                a.lanes[4],
                b.lanes[5],
                a.lanes[6],
                b.lanes[7],
            ],
        }
    }

    fn swizzle2_0xcc(a: Self, b: Self) -> (r: Self) {
        Simd8 {
            lanes: [
                a.lanes[0],
                a.lanes[1],
                b.lanes[2],
                b.lanes[3],
                a.lanes[4],
                a.lanes[5],
                b.lanes[6],
                b.lanes[7],
            ],
        }
    }

    fn swizzle2_0xf0(a: Self, b: Self) -> (r: Self) {
        Simd8 {
            lanes: [
                a.lanes[0],
                a.lanes[1],
                a.lanes[2],
                a.lanes[3],
                b.lanes[4],
                b.lanes[5],
                b.lanes[6],
                b.lanes[7],
            ],
        }
    }

    fn shuffle1_1_1_1(a: Self) -> (r: Self) {
        Simd8 {
            lanes: [
                a.lanes[1],
                a.lanes[0],
                a.lanes[3],
                a.lanes[2],
                a.lanes[5],
                a.lanes[4],
                a.lanes[7],
                a.lanes[6],
            ],
        }
    }

    fn network64bit1(a: Self) -> (r: Self) {
        Simd8 {
            lanes: [
                a.lanes[3],
                a.lanes[2],
                a.lanes[1],
                a.lanes[0],
                a.lanes[7],
                a.lanes[6],
                a.lanes[5],
                a.lanes[4],
            ],
        }
    }

    fn network64bit2(a: Self) -> (r: Self) {
        Simd8 {
            lanes: [
                a.lanes[7],
                a.lanes[6],
                a.lanes[5],
                a.lanes[4],
                a.lanes[3],
                a.lanes[2],
                a.lanes[1],
                a.lanes[0],
            ],
        }
    }

    fn network64bit3(a: Self) -> (r: Self) {
        Simd8 {
            lanes: [
                a.lanes[2],
                a.lanes[3],
                a.lanes[0],
                a.lanes[1],
                a.lanes[6],
                a.lanes[7],
                a.lanes[4],
                a.lanes[5],
            ],
        }
    }

    fn network64bit4(a: Self) -> (r: Self) {
        Simd8 {
            lanes: [
                a.lanes[4],
                a.lanes[5],
                a.lanes[6],
                a.lanes[7],
                a.lanes[0],
                a.lanes[1],
                a.lanes[2],
                a.lanes[3],
            ],
        }
    }
}


/// Sort a sequence of signed 64-bit integers in place, ascending, with the
/// portable eight-lane back-end.
pub fn portable_simd_sort_i64(data: &mut Vec<i64>)
    ensures
        final(data).len() == old(data).len(),
        crate::bitonic::ascending(crate::bitonic::keys_of(final(data)@)),
        final(data)@.to_multiset() == old(data)@.to_multiset(),
{
    let n = data.len();
    let budget = crate::bit_64::floor_log2(n);
    crate::bit_64::qsort_64bit_::<i64, Simd8<i64>>(data, 0, n, budget);
    proof {
        assert(data@.subrange(0, n as int) =~= data@);
        assert(old(data)@.subrange(0, n as int) =~= old(data)@);
    }
}

} // verus!
