//! Lane masks: eight lane booleans carried in the low bits of a `u8`, and
//! the specification of compress-store (the lanes a mask selects, packed in
//! ascending lane order).

use vstd::prelude::*;

verus! {

use vstd::multiset::Multiset;

/// Bit `i` of mask `m`.
pub open spec fn bit8(m: u8, i: int) -> bool {
    (m >> (i as u8)) & 1u8 == 1u8
}

/// The number of set bits of `m` among bits `[i, 8)`.
pub open spec fn popcnt_from(m: u8, i: int) -> int
    decreases 8 - i,
{
    if i < 0 || i >= 8 {
        0
    } else {
        (if bit8(m, i) {
            1int
        } else {
            0int
        }) + popcnt_from(m, i + 1)
    }
}

/// The number of set bits of `m` (bits 0 through 7).
pub open spec fn popcnt8(m: u8) -> int {
    popcnt_from(m, 0)
}

/// The values among lanes `[i, 8)` whose mask bit is set, in lane order.
pub open spec fn compress_from<T>(lanes: Seq<T>, m: u8, i: int) -> Seq<T>
    decreases 8 - i,
{
    if i < 0 || i >= 8 {
        Seq::empty()
    } else if bit8(m, i) {
        seq![lanes[i]] + compress_from(lanes, m, i + 1)
    } else {
        compress_from(lanes, m, i + 1)
    }
}

pub proof fn lemma_popcnt_from_bounds(m: u8, i: int)
    ensures
        0 <= popcnt_from(m, i) <= 8,
        0 <= i <= 8 ==> popcnt_from(m, i) <= 8 - i,
    decreases 8 - i,
{
    if i < 0 || i >= 8 {
    } else {
        lemma_popcnt_from_bounds(m, i + 1);
    }
}

pub proof fn lemma_compress_from_len<T>(lanes: Seq<T>, m: u8, i: int)
    ensures
        compress_from(lanes, m, i).len() == popcnt_from(m, i),
    decreases 8 - i,
{
    if 0 <= i < 8 {
        lemma_compress_from_len(lanes, m, i + 1);
    }
}

/// Every value that the compression keeps is one of the selected lanes, and
/// every selected lane is kept exactly once: the multiset of the compressed
/// lanes of `m` together with those of its complement is the multiset of all
/// eight lanes.
pub proof fn lemma_compress_split<T>(lanes: Seq<T>, m: u8, mn: u8, i: int)
    requires
        forall|j: int| 0 <= j < 8 ==> (#[trigger] bit8(mn, j) <==> !bit8(m, j)),
        lanes.len() == 8,
        0 <= i <= 8,
    ensures
        compress_from(lanes, m, i).to_multiset().add(compress_from(lanes, mn, i).to_multiset())
            =~= lanes.subrange(i, 8).to_multiset(),
    decreases 8 - i,
{
    broadcast use vstd::seq_lib::group_to_multiset_ensures;

    if i >= 8 {
        assert(lanes.subrange(8, 8) =~= Seq::<T>::empty());
    } else {
        lemma_compress_split(lanes, m, mn, i + 1);
        assert(lanes.subrange(i, 8) =~= seq![lanes[i]] + lanes.subrange(i + 1, 8));
        vstd::seq_lib::lemma_multiset_commutative(seq![lanes[i]], lanes.subrange(i + 1, 8));
        assert(seq![lanes[i]].to_multiset() =~= Multiset::empty().insert(lanes[i]));
        if bit8(m, i) {
            assert(compress_from(lanes, m, i) == seq![lanes[i]] + compress_from(lanes, m, i + 1));
            vstd::seq_lib::lemma_multiset_commutative(seq![lanes[i]], compress_from(lanes, m, i + 1));
        } else {
            assert(bit8(mn, i));
            assert(compress_from(lanes, mn, i) == seq![lanes[i]] + compress_from(lanes, mn, i + 1));
            vstd::seq_lib::lemma_multiset_commutative(seq![lanes[i]], compress_from(lanes, mn, i + 1));
        }
    }
}

/// Whatever holds of every selected lane holds of every kept value.
pub proof fn lemma_compress_members<T>(lanes: Seq<T>, m: u8, i: int, p: spec_fn(T) -> bool)
    requires
        lanes.len() == 8,
        forall|l: int| 0 <= l < 8 && bit8(m, l) ==> p(#[trigger] lanes[l]),
    ensures
        forall|j: int|
            0 <= j < compress_from(lanes, m, i).len() ==> p(
                #[trigger] compress_from(lanes, m, i)[j],
            ),
    decreases 8 - i,
{
    if !(0 <= i < 8) {
        assert(compress_from(lanes, m, i) =~= Seq::<T>::empty());
    } else {
        lemma_compress_members(lanes, m, i + 1, p);
        let c = compress_from(lanes, m, i);
        let rest = compress_from(lanes, m, i + 1);
        assert forall|j: int| 0 <= j < c.len() implies p(#[trigger] c[j]) by {
            if bit8(m, i) && j == 0 {
                assert(c[0] == lanes[i]);
            } else {
                let jj = if bit8(m, i) {
                    j - 1
                } else {
                    j
                };
                assert(c[j] == rest[jj]);
                assert(0 <= jj < rest.len());
            }
        }
    }
}


/// Assembling a mask from eight 0/1 bit values places each at its bit.
pub proof fn lemma_mask_from_bits(m: u8, u0: u8, u1: u8, u2: u8, u3: u8, u4: u8, u5: u8, u6: u8, u7: u8)
    requires
        u0 <= 1 && u1 <= 1 && u2 <= 1 && u3 <= 1 && u4 <= 1 && u5 <= 1 && u6 <= 1 && u7 <= 1,
        m == u0 | (u1 << 1u8) | (u2 << 2u8) | (u3 << 3u8) | (u4 << 4u8) | (u5 << 5u8) | (u6
            << 6u8) | (u7 << 7u8),
    ensures
        bit8(m, 0) <==> u0 == 1,
        bit8(m, 1) <==> u1 == 1,
        bit8(m, 2) <==> u2 == 1,
        bit8(m, 3) <==> u3 == 1,
        bit8(m, 4) <==> u4 == 1,
        bit8(m, 5) <==> u5 == 1,
        bit8(m, 6) <==> u6 == 1,
        bit8(m, 7) <==> u7 == 1,
{
    assert((m >> 0u8) & 1u8 == u0 && (m >> 1u8) & 1u8 == u1 && (m >> 2u8) & 1u8 == u2 && (m
        >> 3u8) & 1u8 == u3 && (m >> 4u8) & 1u8 == u4 && (m >> 5u8) & 1u8 == u5 && (m >> 6u8)
        & 1u8 == u6 && (m >> 7u8) & 1u8 == u7) by (bit_vector)
        requires
            u0 <= 1 && u1 <= 1 && u2 <= 1 && u3 <= 1 && u4 <= 1 && u5 <= 1 && u6 <= 1 && u7 <= 1,
            m == u0 | (u1 << 1u8) | (u2 << 2u8) | (u3 << 3u8) | (u4 << 4u8) | (u5 << 5u8) | (u6
                << 6u8) | (u7 << 7u8),
    ;
}

/// The bit-by-bit sum of the eight bits of `m` is its population count.
pub proof fn lemma_popcnt8_as_sum(m: u8)
    ensures
        popcnt8(m) == ((m & 1u8) + ((m >> 1u8) & 1u8) + ((m >> 2u8) & 1u8) + ((m >> 3u8) & 1u8) + (
        (m >> 4u8) & 1u8) + ((m >> 5u8) & 1u8) + ((m >> 6u8) & 1u8) + ((m >> 7u8) & 1u8)) as int,
        (m & 1u8) + ((m >> 1u8) & 1u8) + ((m >> 2u8) & 1u8) + ((m >> 3u8) & 1u8) + ((m >> 4u8)
            & 1u8) + ((m >> 5u8) & 1u8) + ((m >> 6u8) & 1u8) + ((m >> 7u8) & 1u8) <= 8,
        m & 1u8 <= 1,
        (m >> 1u8) & 1u8 <= 1,
        (m >> 2u8) & 1u8 <= 1,
        (m >> 3u8) & 1u8 <= 1,
        (m >> 4u8) & 1u8 <= 1,
        (m >> 5u8) & 1u8 <= 1,
        (m >> 6u8) & 1u8 <= 1,
        (m >> 7u8) & 1u8 <= 1,
{
    assert((m >> 0u8) & 1u8 <= 1 && (m >> 1u8) & 1u8 <= 1 && (m >> 2u8) & 1u8 <= 1 && (m >> 3u8)
        & 1u8 <= 1 && (m >> 4u8) & 1u8 <= 1 && (m >> 5u8) & 1u8 <= 1 && (m >> 6u8) & 1u8 <= 1 && (m
        >> 7u8) & 1u8 <= 1 && (m & 1u8) == (m >> 0u8) & 1u8) by (bit_vector);
    assert(popcnt_from(m, 8) == 0);
    assert(popcnt_from(m, 7) == (if bit8(m, 7) { 1int } else { 0int }));
    assert(popcnt_from(m, 6) == (if bit8(m, 6) { 1int } else { 0int }) + popcnt_from(m, 7));
    assert(popcnt_from(m, 5) == (if bit8(m, 5) { 1int } else { 0int }) + popcnt_from(m, 6));
    assert(popcnt_from(m, 4) == (if bit8(m, 4) { 1int } else { 0int }) + popcnt_from(m, 5));
    assert(popcnt_from(m, 3) == (if bit8(m, 3) { 1int } else { 0int }) + popcnt_from(m, 4));
    assert(popcnt_from(m, 2) == (if bit8(m, 2) { 1int } else { 0int }) + popcnt_from(m, 3));
    assert(popcnt_from(m, 1) == (if bit8(m, 1) { 1int } else { 0int }) + popcnt_from(m, 2));
    assert(popcnt_from(m, 0) == (if bit8(m, 0) { 1int } else { 0int }) + popcnt_from(m, 1));
}

/// Complementing a mask flips each of its lane bits.
pub proof fn lemma_not_mask(m: u8, r: u8)
    requires
        r == !m,
    ensures
        forall|i: int| 0 <= i < 8 ==> (#[trigger] bit8(r, i) <==> !bit8(m, i)),
{
    assert forall|i: int| 0 <= i < 8 implies (#[trigger] bit8(r, i) <==> !bit8(m, i)) by {
        let j = i as u8;
        assert(j < 8 && ((r >> j) & 1u8 == 1u8 <==> !((m >> j) & 1u8 == 1u8))) by (bit_vector)
            requires
                r == !m,
                j < 8,
        ;
    }
}


/// A mask and its complement have eight set bits between them.
pub proof fn lemma_popcnt_complement(m: u8, mn: u8, i: int)
    requires
        forall|j: int| 0 <= j < 8 ==> (#[trigger] bit8(mn, j) <==> !bit8(m, j)),
        0 <= i <= 8,
    ensures
        popcnt_from(m, i) + popcnt_from(mn, i) == 8 - i,
    decreases 8 - i,
{
    if i < 8 {
        lemma_popcnt_complement(m, mn, i + 1);
    }
}

} // verus!
