//! The 256-bit back-end model: a logical eight-lane vector held as two
//! four-lane halves, the way a pair of 256-bit registers holds it.

use vstd::prelude::*;

verus! {

use crate::SimdCompare;
use crate::masks::{bit8, popcnt8, popcnt_from, compress_from};
use crate::platform::portable::{min_lane, max_lane};

/// A logical 8-lane vector of `i64` held as two four-lane halves.
pub struct Avx2I64x2 {
    values: [[i64; 4]; 2],
}

impl Clone for Avx2I64x2 {
    fn clone(&self) -> (r: Self)
        ensures
            r == *self,
    {
        Avx2I64x2 { values: self.values }
    }
}

impl Copy for Avx2I64x2 {

}

/// Lane-wise minimum of one four-lane half.
pub fn min_x4(a: [i64; 4], b: [i64; 4]) -> (r: [i64; 4])
    ensures
        forall|i: int|
            0 <= i < 4 ==> #[trigger] r[i] == (if a[i] <= b[i] {
                a[i]
            } else {
                b[i]
            }),
{
    [
        min_lane(a[0], b[0]),
        min_lane(a[1], b[1]),
        min_lane(a[2], b[2]),
        min_lane(a[3], b[3]),
    ]
}

/// Lane-wise maximum of one four-lane half.
pub fn max_x4(a: [i64; 4], b: [i64; 4]) -> (r: [i64; 4])
    ensures
        forall|i: int|
            0 <= i < 4 ==> #[trigger] r[i] == (if a[i] <= b[i] {
                b[i]
            } else {
                a[i]
            }),
{
    [
        max_lane(a[0], b[0]),
        max_lane(a[1], b[1]),
        max_lane(a[2], b[2]),
        max_lane(a[3], b[3]),
    ]
}

impl SimdCompare<i64> for Avx2I64x2 {
    closed spec fn lanes(self) -> Seq<i64> {
        seq![
            self.values[0][0],
            self.values[0][1],
            self.values[0][2],
            self.values[0][3],
            self.values[1][0],
            self.values[1][1],
            self.values[1][2],
            self.values[1][3],
        ]
    }

    proof fn lanes_len(self) {
    }

    fn min(a: Self, b: Self) -> (r: Self) {
        Avx2I64x2 {
            values: [min_x4(a.values[0], b.values[0]), min_x4(a.values[1], b.values[1])],
        }
    }

    fn max(a: Self, b: Self) -> (r: Self) {
        Avx2I64x2 {
            values: [max_x4(a.values[0], b.values[0]), max_x4(a.values[1], b.values[1])],
        }
    }

    fn loadu(data: &Vec<i64>, offset: usize) -> (r: Self) {
        let r = Avx2I64x2 {
            values: [
                [data[offset], data[offset + 1], data[offset + 2], data[offset + 3]],
                [data[offset + 4], data[offset + 5], data[offset + 6], data[offset + 7]],
            ],
        };
        proof {
            assert(r.lanes() =~= data@.subrange(offset as int, offset as int + 8));
        }
        r
    }

    fn storeu(input: Self, data: &mut Vec<i64>, offset: usize) {
        data.set(offset, input.values[0][0]);
        data.set(offset + 1, input.values[0][1]);
        data.set(offset + 2, input.values[0][2]);
        data.set(offset + 3, input.values[0][3]);
        data.set(offset + 4, input.values[1][0]);
        data.set(offset + 5, input.values[1][1]);
        data.set(offset + 6, input.values[1][2]);
        data.set(offset + 7, input.values[1][3]);
    }

    fn mask_loadu(data: &Vec<i64>, offset: usize, k: usize) -> (r: Self) {
        let s = i64::MAX;
        let l0 = if 0 < k {
            data[offset]
        } else {
            s
        };
        let l1 = if 1 < k {
            data[offset + 1]
        } else {
            s
        };
        let l2 = if 2 < k {
            data[offset + 2]
        } else {
            s
        };
        let l3 = if 3 < k {
            data[offset + 3]
        } else {
            s
        };
        let l4 = if 4 < k {
            data[offset + 4]
        } else {
            s
        };
        let l5 = if 5 < k {
            data[offset + 5]
        } else {
            s
        };
        let l6 = if 6 < k {
            data[offset + 6]
        } else {
            s
        };
        let l7 = if 7 < k {
            data[offset + 7]
        } else {
            s
        };
        Avx2I64x2 { values: [[l0, l1, l2, l3], [l4, l5, l6, l7]] }
    }

    fn mask_storeu(input: Self, data: &mut Vec<i64>, offset: usize, k: usize) {
        let mut i: usize = 0;
        while i < k
            invariant
                k <= 8,
                offset + k <= data.len(),
                i <= k,
                data.len() == old(data).len(),
                forall|j: int|
                    0 <= j < data.len() && !(offset <= j < offset + i) ==> data[j] == old(data)[j],
                forall|j: int| 0 <= j < i ==> data[offset + j] == #[trigger] input.lanes()[j],
            decreases k - i,
        {
            let v = Self::get_value_at_idx(input, i);
            data.set(offset + i, v);
            i = i + 1;
        }
    }

    fn gather_from_idx(idx: [usize; 8], data: &Vec<i64>) -> (r: Self) {
        Avx2I64x2 {
            values: [
                [data[idx[0]], data[idx[1]], data[idx[2]], data[idx[3]]],
                [data[idx[4]], data[idx[5]], data[idx[6]], data[idx[7]]],
            ],
        }
    }

    fn get_value_at_idx(input: Self, idx: usize) -> (r: i64) {
        let q = idx / 4;
        let rem = idx % 4;
        input.values[q][rem]
    }

    fn set(value: i64) -> (r: Self) {
        Avx2I64x2 {
            values: [[value, value, value, value], [value, value, value, value]],
        }
    }

    fn ge(a: Self, b: Self) -> (m: u8) {
        let u0: u8 = if a.values[0][0] >= b.values[0][0] {
            1
        } else {
            0
        };
        let u1: u8 = if a.values[0][1] >= b.values[0][1] {
            1
        } else {
            0
        };
        let u2: u8 = if a.values[0][2] >= b.values[0][2] {
            1
        } else {
            0
        };
        let u3: u8 = if a.values[0][3] >= b.values[0][3] {
            1
        } else {
            0
        };
        let u4: u8 = if a.values[1][0] >= b.values[1][0] {
            1
        } else {
            0
        };
        let u5: u8 = if a.values[1][1] >= b.values[1][1] {
            1
        } else {
            0
        };
        let u6: u8 = if a.values[1][2] >= b.values[1][2] {
            1
        } else {
            0
        };
        let u7: u8 = if a.values[1][3] >= b.values[1][3] {
            1
        } else {
            0
        };
        let m: u8 = u0 | (u1 << 1u8) | (u2 << 2u8) | (u3 << 3u8) | (u4 << 4u8) | (u5 << 5u8) | (u6
            << 6u8) | (u7 << 7u8);
        proof {
            crate::masks::lemma_mask_from_bits(m, u0, u1, u2, u3, u4, u5, u6, u7);
        }
        m
    }

    fn ones_count(mask: u8) -> (r: usize) {
        proof {
            crate::masks::lemma_popcnt8_as_sum(mask);
        }
        let c: u8 = (mask & 1u8) + ((mask >> 1u8) & 1u8) + ((mask >> 2u8) & 1u8) + ((mask >> 3u8)
            & 1u8) + ((mask >> 4u8) & 1u8) + ((mask >> 5u8) & 1u8) + ((mask >> 6u8) & 1u8) + ((mask
            >> 7u8) & 1u8);
        c as usize
    }

    fn not_mask(mask: u8) -> (r: u8) {
        let r = !mask;
        proof {
            crate::masks::lemma_not_mask(mask, r);
        }
        r
    }

    fn reducemin(x: Self) -> (r: i64) {
        let m = min_x4(x.values[0], x.values[1]);
        let r = min_lane(min_lane(m[0], m[1]), min_lane(m[2], m[3]));
        proof {
            assert(r == x.lanes()[0] || r == x.lanes()[1] || r == x.lanes()[2] || r == x.lanes()[3]
                || r == x.lanes()[4] || r == x.lanes()[5] || r == x.lanes()[6] || r
                == x.lanes()[7]);
        }
        r
    }

    fn reducemax(x: Self) -> (r: i64) {
        let m = max_x4(x.values[0], x.values[1]);
        let r = max_lane(max_lane(m[0], m[1]), max_lane(m[2], m[3]));
        proof {
            assert(r == x.lanes()[0] || r == x.lanes()[1] || r == x.lanes()[2] || r == x.lanes()[3]
                || r == x.lanes()[4] || r == x.lanes()[5] || r == x.lanes()[6] || r
                == x.lanes()[7]);
        }
        r
    }

    fn mask_compressstoreu(data: &mut Vec<i64>, offset: usize, mask: u8, vals: Self) {
        proof {
            crate::masks::lemma_popcnt_from_bounds(mask, 0);
        }
        let mut i: usize = 0;
        let mut cnt: usize = 0;
        while i < 8
            invariant
                i <= 8,
                offset + popcnt8(mask) <= data.len(),
                data.len() == old(data).len(),
                vals.lanes().len() == 8,
                cnt + popcnt_from(mask, i as int) == popcnt8(mask),
                0 <= popcnt_from(mask, i as int),
                compress_from(vals.lanes(), mask, 0) =~= data@.subrange(
                    offset as int,
                    offset + cnt,
                ) + compress_from(vals.lanes(), mask, i as int),
                forall|j: int|
                    0 <= j < data.len() && !(offset <= j < offset + cnt) ==> data[j] == old(
                        data,
                    )[j],
            decreases 8 - i,
        {
            proof {
                crate::masks::lemma_popcnt_from_bounds(mask, i + 1);
            }
            let sh: u8 = i as u8;
            let b: u8 = (mask >> sh) & 1u8;
            let ghost pre = data@;
            let ghost precnt = cnt as int;
            if b == 1 {
                assert(bit8(mask, i as int));
                let v = Self::get_value_at_idx(vals, i);
                data.set(offset + cnt, v);
                cnt = cnt + 1;
                proof {
                    assert(data@.subrange(offset as int, offset + cnt) =~= pre.subrange(
                        offset as int,
                        offset + precnt,
                    ) + seq![vals.lanes()[i as int]]);
                    assert(compress_from(vals.lanes(), mask, i as int) == seq![
                        vals.lanes()[i as int],
                    ] + compress_from(vals.lanes(), mask, i + 1));
                    assert(compress_from(vals.lanes(), mask, 0) =~= data@.subrange(
                        offset as int,
                        offset + cnt,
                    ) + compress_from(vals.lanes(), mask, i + 1));
                }
            } else {
                assert(!bit8(mask, i as int));
            }
            i = i + 1;
        }
        proof {
            assert(compress_from(vals.lanes(), mask, 8) =~= Seq::<i64>::empty());
            assert(data@.subrange(offset as int, offset + cnt) + Seq::<i64>::empty() =~= data@
                .subrange(offset as int, offset + cnt));
            assert(data@.subrange(offset as int, offset as int + popcnt8(mask)) == compress_from(
                vals.lanes(),
                mask,
                0,
            ));
        }
    }
}

impl crate::bit_64::Bit64Simd<i64> for Avx2I64x2 {
    fn swizzle2_0xaa(a: Self, b: Self) -> (r: Self) {
        Avx2I64x2 {
            values: [
                [a.values[0][0], b.values[0][1], a.values[0][2], b.values[0][3]],
                [a.values[1][0], b.values[1][1], a.values[1][2], b.values[1][3]],
            ],
        }
    }

    fn swizzle2_0xcc(a: Self, b: Self) -> (r: Self) {
        Avx2I64x2 {
            values: [
                [a.values[0][0], a.values[0][1], b.values[0][2], b.values[0][3]],
                [a.values[1][0], a.values[1][1], b.values[1][2], b.values[1][3]],
            ],
        }
    }

    fn swizzle2_0xf0(a: Self, b: Self) -> (r: Self) {
        Avx2I64x2 { values: [a.values[0], b.values[1]] }
    }

    fn shuffle1_1_1_1(a: Self) -> (r: Self) {
        Avx2I64x2 {
            values: [
                [a.values[0][1], a.values[0][0], a.values[0][3], a.values[0][2]],
                [a.values[1][1], a.values[1][0], a.values[1][3], a.values[1][2]],
            ],
        }
    }

    fn network64bit1(a: Self) -> (r: Self) {
        Avx2I64x2 {
            values: [
                [a.values[0][3], a.values[0][2], a.values[0][1], a.values[0][0]],
                [a.values[1][3], a.values[1][2], a.values[1][1], a.values[1][0]],
            ],
        }
    }

    fn network64bit2(a: Self) -> (r: Self) {
        Avx2I64x2 {
            values: [
                [a.values[1][3], a.values[1][2], a.values[1][1], a.values[1][0]],
                [a.values[0][3], a.values[0][2], a.values[0][1], a.values[0][0]],
            ],
        }
    }

    fn network64bit3(a: Self) -> (r: Self) {
        Avx2I64x2 {
            values: [
                [a.values[0][2], a.values[0][3], a.values[0][0], a.values[0][1]],
                [a.values[1][2], a.values[1][3], a.values[1][0], a.values[1][1]],
            ],
        }
    }

    fn network64bit4(a: Self) -> (r: Self) {
        Avx2I64x2 { values: [a.values[1], a.values[0]] }
    }
}

/// Sort a sequence of signed 64-bit integers in place, ascending, with the
/// two-half 256-bit back-end model.
pub fn avx2_sort_i64(data: &mut Vec<i64>)
    ensures
        final(data).len() == old(data).len(),
        crate::bitonic::ascending(crate::bitonic::keys_of(final(data)@)),
        final(data)@.to_multiset() == old(data)@.to_multiset(),
{
    let n = data.len();
    let budget = crate::bit_64::floor_log2(n);
    crate::bit_64::qsort_64bit_::<i64, Avx2I64x2>(data, 0, n, budget);
    proof {
        assert(data@.subrange(0, n as int) =~= data@);
        assert(old(data)@.subrange(0, n as int) =~= old(data)@);
    }
}

} // verus!
