//! The 128-bit back-end model: a logical eight-lane vector held as four
//! two-lane pairs, the way four 128-bit registers hold it.

use vstd::prelude::*;

verus! {

use crate::SimdCompare;
use crate::masks::{bit8, popcnt8, popcnt_from, compress_from};
use crate::platform::portable::{min_lane, max_lane};

/// A logical 8-lane vector of `i64` held as four two-lane pairs.
pub struct Wasmi64x8 {
    values: [[i64; 2]; 4],
}

impl Clone for Wasmi64x8 {
    fn clone(&self) -> (r: Self)
        ensures
            r == *self,
    {
        Wasmi64x8 { values: self.values }
    }
}

impl Copy for Wasmi64x8 {

}

/// Lane-wise minimum of one two-lane pair.
pub fn min_x2(a: [i64; 2], b: [i64; 2]) -> (r: [i64; 2])
    ensures
        r[0] == (if a[0] <= b[0] {
            a[0]
        } else {
            b[0]
        }),
        r[1] == (if a[1] <= b[1] {
            a[1]
        } else {
            b[1]
        }),
{
    [min_lane(a[0], b[0]), min_lane(a[1], b[1])]
}

/// Lane-wise maximum of one two-lane pair.
pub fn max_x2(a: [i64; 2], b: [i64; 2]) -> (r: [i64; 2])
    ensures
        r[0] == (if a[0] <= b[0] {
            b[0]
        } else {
            a[0]
        }),
        r[1] == (if a[1] <= b[1] {
            b[1]
        } else {
            a[1]
        }),
{
    [max_lane(a[0], b[0]), max_lane(a[1], b[1])]
}

impl SimdCompare<i64> for Wasmi64x8 {
    closed spec fn lanes(self) -> Seq<i64> {
        seq![
            self.values[0][0],
            self.values[0][1],
            self.values[1][0],
            self.values[1][1],
            self.values[2][0],
            self.values[2][1],
            self.values[3][0],
            self.values[3][1],
        ]
    }

    proof fn lanes_len(self) {
    }

    fn min(a: Self, b: Self) -> (r: Self) {
        Wasmi64x8 {
            values: [
                min_x2(a.values[0], b.values[0]),
                min_x2(a.values[1], b.values[1]),
                min_x2(a.values[2], b.values[2]),
                min_x2(a.values[3], b.values[3]),
            ],
        }
    }

    fn max(a: Self, b: Self) -> (r: Self) {
        Wasmi64x8 {
            values: [
                max_x2(a.values[0], b.values[0]),
                max_x2(a.values[1], b.values[1]),
                max_x2(a.values[2], b.values[2]),
                max_x2(a.values[3], b.values[3]),
            ],
        }
    }

    fn loadu(data: &Vec<i64>, offset: usize) -> (r: Self) {
        let r = Wasmi64x8 {
            values: [
                [data[offset], data[offset + 1]],
                [data[offset + 2], data[offset + 3]],
                [data[offset + 4], data[offset + 5]],
                [data[offset + 6], data[offset + 7]],
            ],
        };
        proof {
            assert(r.lanes() =~= data@.subrange(offset as int, offset as int + 8));
        }
        r
    }

    fn storeu(input: Self, data: &mut Vec<i64>, offset: usize) {
        data.set(offset, input.values[0][0]);
        data.set(offset + 1, input.values[0][1]);
        data.set(offset + 2, input.values[1][0]);
        data.set(offset + 3, input.values[1][1]);
        data.set(offset + 4, input.values[2][0]);
        data.set(offset + 5, input.values[2][1]);
        data.set(offset + 6, input.values[3][0]);
        data.set(offset + 7, input.values[3][1]);
    }

    fn mask_loadu(data: &Vec<i64>, offset: usize, k: usize) -> (r: Self) {
        let s = i64::MAX;
        let l0 = if 0 < k {
            data[offset]
        } else {
            s
        };
        let l1 = if 1 < k {
            data[offset + 1]
        } else {
            s
        };
        let l2 = if 2 < k {
            data[offset + 2]
        } else {
            s
        };
        let l3 = if 3 < k {
            data[offset + 3]
        } else {
            s
        };
        let l4 = if 4 < k {
            data[offset + 4]
        } else {
            s
        };
        let l5 = if 5 < k {
            data[offset + 5]
        } else {
            s
        };
        let l6 = if 6 < k {
            data[offset + 6]
        } else {
            s
        };
        let l7 = if 7 < k {
            data[offset + 7]
        } else {
            s
        };
        Wasmi64x8 { values: [[l0, l1], [l2, l3], [l4, l5], [l6, l7]] }
    }

    fn mask_storeu(input: Self, data: &mut Vec<i64>, offset: usize, k: usize) {
        let mut i: usize = 0;
        while i < k
            invariant
                k <= 8,
                offset + k <= data.len(),
                i <= k,
                data.len() == old(data).len(),
                forall|j: int|
                    0 <= j < data.len() && !(offset <= j < offset + i) ==> data[j] == old(data)[j],
                forall|j: int| 0 <= j < i ==> data[offset + j] == #[trigger] input.lanes()[j],
            decreases k - i,
        {
            let v = Self::get_value_at_idx(input, i);
            data.set(offset + i, v);
            i = i + 1;
        }
    }

    fn gather_from_idx(idx: [usize; 8], data: &Vec<i64>) -> (r: Self) {
        let r = Wasmi64x8 {
            values: [
                [data[idx[0]], data[idx[1]]],
                [data[idx[2]], data[idx[3]]],
                [data[idx[4]], data[idx[5]]],
                [data[idx[6]], data[idx[7]]],
            ],
        };
        r
    }

    fn get_value_at_idx(input: Self, idx: usize) -> (r: i64) {
        let q = idx / 2;
        let rem = idx % 2;
        input.values[q][rem]
    }

    fn set(value: i64) -> (r: Self) {
        Wasmi64x8 {
            values: [[value, value], [value, value], [value, value], [value, value]],
        }
    }

    fn ge(a: Self, b: Self) -> (m: u8) {
        let u0: u8 = if a.values[0][0] >= b.values[0][0] {
            1
        } else {
            0
        };
        let u1: u8 = if a.values[0][1] >= b.values[0][1] {
            1
        } else {
            0
        };
        let u2: u8 = if a.values[1][0] >= b.values[1][0] {
            1
        } else {
            0
        };
        let u3: u8 = if a.values[1][1] >= b.values[1][1] {
            1
        } else {
            0
        };
        let u4: u8 = if a.values[2][0] >= b.values[2][0] {
            1
        } else {
            0
        };
        let u5: u8 = if a.values[2][1] >= b.values[2][1] {
            1
        } else {
            0
        };
        let u6: u8 = if a.values[3][0] >= b.values[3][0] {
            1
        } else {
            0
        };
        let u7: u8 = if a.values[3][1] >= b.values[3][1] {
            1
        } else {
            0
        };
        let m: u8 = u0 | (u1 << 1u8) | (u2 << 2u8) | (u3 << 3u8) | (u4 << 4u8) | (u5 << 5u8) | (u6
            << 6u8) | (u7 << 7u8);
        proof {
            crate::masks::lemma_mask_from_bits(m, u0, u1, u2, u3, u4, u5, u6, u7);
        }
        m
    }

    fn ones_count(mask: u8) -> (r: usize) {
        proof {
            crate::masks::lemma_popcnt8_as_sum(mask);
        }
        let c: u8 = (mask & 1u8) + ((mask >> 1u8) & 1u8) + ((mask >> 2u8) & 1u8) + ((mask >> 3u8)
            & 1u8) + ((mask >> 4u8) & 1u8) + ((mask >> 5u8) & 1u8) + ((mask >> 6u8) & 1u8) + ((mask
            >> 7u8) & 1u8);
        c as usize
    }

    fn not_mask(mask: u8) -> (r: u8) {
        let r = !mask;
        proof {
            crate::masks::lemma_not_mask(mask, r);
        }
        r
    }

    fn reducemin(x: Self) -> (r: i64) {
        let m1 = min_x2(x.values[0], x.values[1]);
        let m2 = min_x2(x.values[2], x.values[3]);
        let m3 = min_x2(m1, m2);
        let r = min_lane(m3[0], m3[1]);
        proof {
            assert(r == x.lanes()[0] || r == x.lanes()[1] || r == x.lanes()[2] || r == x.lanes()[3]
                || r == x.lanes()[4] || r == x.lanes()[5] || r == x.lanes()[6] || r
                == x.lanes()[7]);
        }
        r
    }

    fn reducemax(x: Self) -> (r: i64) {
        let m1 = max_x2(x.values[0], x.values[1]);
        let m2 = max_x2(x.values[2], x.values[3]);
        let m3 = max_x2(m1, m2);
        let r = max_lane(m3[0], m3[1]);
        proof {
            assert(r == x.lanes()[0] || r == x.lanes()[1] || r == x.lanes()[2] || r == x.lanes()[3]
                || r == x.lanes()[4] || r == x.lanes()[5] || r == x.lanes()[6] || r
                == x.lanes()[7]);
        }
        r
    }

    fn mask_compressstoreu(data: &mut Vec<i64>, offset: usize, mask: u8, vals: Self) {
        proof {
            crate::masks::lemma_popcnt_from_bounds(mask, 0);
        }
        let mut i: usize = 0;
        let mut cnt: usize = 0;
        while i < 8
            invariant
                i <= 8,
                offset + popcnt8(mask) <= data.len(),
                data.len() == old(data).len(),
                vals.lanes().len() == 8,
                cnt + popcnt_from(mask, i as int) == popcnt8(mask),
                0 <= popcnt_from(mask, i as int),
                compress_from(vals.lanes(), mask, 0) =~= data@.subrange(
                    offset as int,
                    offset + cnt,
                ) + compress_from(vals.lanes(), mask, i as int),
                forall|j: int|
                    0 <= j < data.len() && !(offset <= j < offset + cnt) ==> data[j] == old(
                        data,
                    )[j],
            decreases 8 - i,
        {
            proof {
                crate::masks::lemma_popcnt_from_bounds(mask, i + 1);
            }
            let sh: u8 = i as u8;
            let b: u8 = (mask >> sh) & 1u8;
            let ghost pre = data@;
            let ghost precnt = cnt as int;
            if b == 1 {
                assert(bit8(mask, i as int));
                let v = Self::get_value_at_idx(vals, i);
                data.set(offset + cnt, v);
                cnt = cnt + 1;
                proof {
                    assert(data@.subrange(offset as int, offset + cnt) =~= pre.subrange(
                        offset as int,
                        offset + precnt,
                    ) + seq![vals.lanes()[i as int]]);
                    assert(compress_from(vals.lanes(), mask, i as int) == seq![
                        vals.lanes()[i as int],
                    ] + compress_from(vals.lanes(), mask, i + 1));
                    assert(compress_from(vals.lanes(), mask, 0) =~= data@.subrange(
                        offset as int,
                        offset + cnt,
                    ) + compress_from(vals.lanes(), mask, i + 1));
                }
            } else {
                assert(!bit8(mask, i as int));
            }
            i = i + 1;
        }
        proof {
            assert(compress_from(vals.lanes(), mask, 8) =~= Seq::<i64>::empty());
            assert(data@.subrange(offset as int, offset + cnt) + Seq::<i64>::empty() =~= data@
                .subrange(offset as int, offset + cnt));
            assert(data@.subrange(offset as int, offset as int + popcnt8(mask)) == compress_from(
                vals.lanes(),
                mask,
                0,
            ));
        }
    }
}

impl crate::bit_64::Bit64Simd<i64> for Wasmi64x8 {
    fn swizzle2_0xaa(a: Self, b: Self) -> (r: Self) {
        Wasmi64x8 {
            values: [
                [a.values[0][0], b.values[0][1]],
                [a.values[1][0], b.values[1][1]],
                [a.values[2][0], b.values[2][1]],
                [a.values[3][0], b.values[3][1]],
            ],
        }
    }

    fn swizzle2_0xcc(a: Self, b: Self) -> (r: Self) {
        Wasmi64x8 { values: [a.values[0], b.values[1], a.values[2], b.values[3]] }
    }

    fn swizzle2_0xf0(a: Self, b: Self) -> (r: Self) {
        Wasmi64x8 { values: [a.values[0], a.values[1], b.values[2], b.values[3]] }
    }

    fn shuffle1_1_1_1(a: Self) -> (r: Self) {
        Wasmi64x8 {
            values: [
                [a.values[0][1], a.values[0][0]],
                [a.values[1][1], a.values[1][0]],
                [a.values[2][1], a.values[2][0]],
                [a.values[3][1], a.values[3][0]],
            ],
        }
    }

    fn network64bit1(a: Self) -> (r: Self) {
        Wasmi64x8 {
            values: [
                [a.values[1][1], a.values[1][0]],
                [a.values[0][1], a.values[0][0]],
                [a.values[3][1], a.values[3][0]],
                [a.values[2][1], a.values[2][0]],
            ],
        }
    }

    fn network64bit2(a: Self) -> (r: Self) {
        Wasmi64x8 {
            values: [
                [a.values[3][1], a.values[3][0]],
                [a.values[2][1], a.values[2][0]],
                [a.values[1][1], a.values[1][0]],
                [a.values[0][1], a.values[0][0]],
            ],
        }
    }

    fn network64bit3(a: Self) -> (r: Self) {
        Wasmi64x8 { values: [a.values[1], a.values[0], a.values[3], a.values[2]] }
    }

    fn network64bit4(a: Self) -> (r: Self) {
        Wasmi64x8 { values: [a.values[2], a.values[3], a.values[0], a.values[1]] }
    }
}

/// Sort a sequence of signed 64-bit integers in place, ascending, with the
/// four-pair 128-bit back-end model.
pub fn wasm128_sort_i64(data: &mut Vec<i64>)
    ensures
        final(data).len() == old(data).len(),
        crate::bitonic::ascending(crate::bitonic::keys_of(final(data)@)),
        final(data)@.to_multiset() == old(data)@.to_multiset(),
{
    let n = data.len();
    let budget = crate::bit_64::floor_log2(n);
    crate::bit_64::qsort_64bit_::<i64, Wasmi64x8>(data, 0, n, budget);
    proof {
        assert(data@.subrange(0, n as int) =~= data@);
        assert(old(data)@.subrange(0, n as int) =~= old(data)@);
    }
}

} // verus!
