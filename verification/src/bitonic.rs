//! The theory of bitonic sequences that the network kernels rest on.
//!
//! A sequence is *valley-free* when no element lies strictly below both some
//! earlier and some later element; the valley-free sequences are exactly the
//! ascending-then-descending ones.  A sequence is *bitonic* when some
//! rotation of it is valley-free.  The half-cleaner lemma says: splitting a
//! bitonic sequence of length `2n` into lane-wise minima and maxima at
//! distance `n` yields two bitonic halves, every element of the minima half
//! at most every element of the maxima half.  The merge kernels apply it
//! once per compare-exchange stage.

use vstd::prelude::*;

verus! {

use crate::SimdSortable;

/// The integer keys of a sequence of elements.
pub open spec fn keys_of<T: SimdSortable>(s: Seq<T>) -> Seq<int> {
    s.map_values(|x: T| x.key())
}

/// Weakly ascending.
pub open spec fn ascending(s: Seq<int>) -> bool {
    forall|i: int, j: int| 0 <= i <= j < s.len() ==> s[i] <= s[j]
}

/// No element lies strictly below both an earlier and a later element;
/// equivalently, the sequence ascends, then descends.
pub open spec fn valley_free(s: Seq<int>) -> bool {
    forall|i: int, j: int, k: int| #![trigger s[i], s[j], s[k]]
        0 <= i < j < k < s.len() ==> s[j] >= vstd::math::min(s[i], s[k])
}

/// No element lies strictly above both an earlier and a later element;
/// equivalently, the sequence descends, then ascends.
pub open spec fn peak_free(s: Seq<int>) -> bool {
    forall|i: int, j: int, k: int| #![trigger s[i], s[j], s[k]]
        0 <= i < j < k < s.len() ==> s[j] <= vstd::math::max(s[i], s[k])
}

/// `s` rotated left by `k`.
pub open spec fn rotate(s: Seq<int>, k: int) -> Seq<int> {
    s.subrange(k, s.len() as int) + s.subrange(0, k)
}

/// Some rotation is valley-free.
pub open spec fn bitonic(s: Seq<int>) -> bool {
    exists|k: int| 0 <= k <= s.len() && valley_free(#[trigger] rotate(s, k))
}

/// The lane-wise minima of `s[i]` and `s[i + n]`.
pub open spec fn clean_lo(s: Seq<int>, n: int) -> Seq<int> {
    Seq::new(n as nat, |i: int| vstd::math::min(s[i], s[i + n]))
}

/// The lane-wise maxima of `s[i]` and `s[i + n]`.
pub open spec fn clean_hi(s: Seq<int>, n: int) -> Seq<int> {
    Seq::new(n as nat, |i: int| vstd::math::max(s[i], s[i + n]))
}

pub proof fn lemma_rotate_index(s: Seq<int>, k: int)
    requires
        0 <= k <= s.len(),
    ensures
        rotate(s, k).len() == s.len(),
        forall|i: int|
            0 <= i < s.len() ==> #[trigger] rotate(s, k)[i] == s[if i + k < s.len() {
                i + k
            } else {
                i + k - s.len()
            }],
{
}

/// Rotating twice is rotating by the wrapped sum.
pub proof fn lemma_rotate_rotate(s: Seq<int>, a: int, b: int)
    requires
        0 <= a <= s.len(),
        0 <= b <= s.len(),
    ensures
        rotate(rotate(s, a), b) == rotate(
            s,
            if a + b <= s.len() {
                a + b
            } else {
                a + b - s.len()
            },
        ),
{
    let c = if a + b <= s.len() {
        a + b
    } else {
        a + b - s.len()
    };
    lemma_rotate_index(s, a);
    lemma_rotate_index(rotate(s, a), b);
    lemma_rotate_index(s, c);
    assert(rotate(rotate(s, a), b) =~= rotate(s, c));
}

/// A rotation of a bitonic sequence is bitonic, and conversely.
pub proof fn lemma_rotate_bitonic(s: Seq<int>, a: int)
    requires
        0 <= a <= s.len(),
        bitonic(rotate(s, a)),
    ensures
        bitonic(s),
{
    let b = choose|b: int| 0 <= b <= s.len() && valley_free(#[trigger] rotate(rotate(s, a), b));
    lemma_rotate_rotate(s, a, b);
}


/// Wrap an index in `[0, 2*len)` into `[0, len)`.
pub open spec fn wrap(x: int, len: int) -> int {
    if x < len {
        x
    } else {
        x - len
    }
}

/// An index of a greatest element.
pub proof fn lemma_argmax(s: Seq<int>) -> (p: int)
    requires
        s.len() > 0,
    ensures
        0 <= p < s.len(),
        forall|l: int| 0 <= l < s.len() ==> s[l] <= s[p],
    decreases s.len(),
{
    if s.len() == 1 {
        0
    } else {
        let q = lemma_argmax(s.drop_last());
        assert(forall|l: int| 0 <= l < s.len() - 1 ==> s[l] == s.drop_last()[l]);
        if s.last() >= s[q] {
            s.len() - 1
        } else {
            q
        }
    }
}

/// An index of a least element.
pub proof fn lemma_argmin(s: Seq<int>) -> (p: int)
    requires
        s.len() > 0,
    ensures
        0 <= p < s.len(),
        forall|l: int| 0 <= l < s.len() ==> s[p] <= s[l],
    decreases s.len(),
{
    if s.len() == 1 {
        0
    } else {
        let q = lemma_argmin(s.drop_last());
        assert(forall|l: int| 0 <= l < s.len() - 1 ==> s[l] == s.drop_last()[l]);
        if s.last() <= s[q] {
            s.len() - 1
        } else {
            q
        }
    }
}

/// A valley-free sequence ascends up to any greatest element and descends
/// after it.
pub proof fn lemma_valley_free_shape(s: Seq<int>, p: int)
    requires
        valley_free(s),
        0 <= p < s.len(),
        forall|l: int| 0 <= l < s.len() ==> s[l] <= s[p],
    ensures
        forall|i: int, j: int| 0 <= i <= j <= p ==> s[i] <= s[j],
        forall|i: int, j: int| p <= i <= j < s.len() ==> s[i] >= s[j],
{
    assert forall|i: int, j: int| 0 <= i <= j <= p implies s[i] <= s[j] by {
        if i < j < p {
            assert(s[j] >= vstd::math::min(s[i], s[p]));
        }
    }
    assert forall|i: int, j: int| p <= i <= j < s.len() implies s[i] >= s[j] by {
        if p < i < j {
            assert(s[i] >= vstd::math::min(s[p], s[j]));
        }
    }
}

/// A peak-free sequence descends down to any least element and ascends
/// after it.
pub proof fn lemma_peak_free_shape(s: Seq<int>, p: int)
    requires
        peak_free(s),
        0 <= p < s.len(),
        forall|l: int| 0 <= l < s.len() ==> s[p] <= s[l],
    ensures
        forall|i: int, j: int| 0 <= i <= j <= p ==> s[i] >= s[j],
        forall|i: int, j: int| p <= i <= j < s.len() ==> s[i] <= s[j],
{
    assert forall|i: int, j: int| 0 <= i <= j <= p implies s[i] >= s[j] by {
        if i < j < p {
            assert(s[j] <= vstd::math::max(s[i], s[p]));
        }
    }
    assert forall|i: int, j: int| p <= i <= j < s.len() implies s[i] <= s[j] by {
        if p < i < j {
            assert(s[i] <= vstd::math::max(s[p], s[j]));
        }
    }
}

/// A descending run followed by an ascending run is peak-free.
pub proof fn lemma_desc_asc_peak_free(s: Seq<int>, v: int)
    requires
        0 <= v <= s.len(),
        forall|i: int, j: int| 0 <= i <= j < v ==> s[i] >= s[j],
        forall|i: int, j: int| v <= i <= j < s.len() ==> s[i] <= s[j],
    ensures
        peak_free(s),
{
    assert forall|i: int, j: int, k: int| #![trigger s[i], s[j], s[k]]
        0 <= i < j < k < s.len() implies s[j] <= vstd::math::max(s[i], s[k]) by {
        if j < v {
            assert(s[i] >= s[j]);
        } else {
            assert(s[j] <= s[k]);
        }
    }
}

/// An ascending run followed by a descending run is valley-free.
pub proof fn lemma_asc_desc_valley_free(s: Seq<int>, v: int)
    requires
        0 <= v <= s.len(),
        forall|i: int, j: int| 0 <= i <= j < v ==> s[i] <= s[j],
        forall|i: int, j: int| v <= i <= j < s.len() ==> s[i] >= s[j],
    ensures
        valley_free(s),
{
    assert forall|i: int, j: int, k: int| #![trigger s[i], s[j], s[k]]
        0 <= i < j < k < s.len() implies s[j] >= vstd::math::min(s[i], s[k]) by {
        if j < v {
            assert(s[i] <= s[j]);
        } else {
            assert(s[j] >= s[k]);
        }
    }
}

/// Rotating a valley-free sequence to start at a greatest element makes it
/// peak-free.
pub proof fn lemma_rotate_to_peak(s: Seq<int>, p: int)
    requires
        valley_free(s),
        0 <= p < s.len(),
        forall|l: int| 0 <= l < s.len() ==> s[l] <= s[p],
    ensures
        peak_free(rotate(s, p)),
{
    let len = s.len() as int;
    let r = rotate(s, p);
    lemma_rotate_index(s, p);
    lemma_valley_free_shape(s, p);
    assert forall|i: int, j: int| 0 <= i <= j < len - p implies r[i] >= r[j] by {
        assert(r[i] == s[i + p] && r[j] == s[j + p]);
    }
    assert forall|i: int, j: int| len - p <= i <= j < len implies r[i] <= r[j] by {
        assert(r[i] == s[i + p - len] && r[j] == s[j + p - len]);
        assert(s[i + p - len] <= s[j + p - len]);
    }
    lemma_desc_asc_peak_free(r, len - p);
}

/// A peak-free sequence is bitonic: rotating it to start at a least element
/// makes it valley-free.
pub proof fn lemma_peak_free_bitonic(s: Seq<int>)
    requires
        peak_free(s),
    ensures
        bitonic(s),
{
    if s.len() == 0 {
        assert(valley_free(rotate(s, 0)));
    } else {
        let len = s.len() as int;
        let p = lemma_argmin(s);
        let r = rotate(s, p);
        lemma_rotate_index(s, p);
        lemma_peak_free_shape(s, p);
        assert forall|i: int, j: int| 0 <= i <= j < len - p implies r[i] <= r[j] by {
            assert(r[i] == s[i + p] && r[j] == s[j + p]);
        }
        assert forall|i: int, j: int| len - p <= i <= j < len implies r[i] >= r[j] by {
            assert(r[i] == s[i + p - len] && r[j] == s[j + p - len]);
            assert(s[i + p - len] >= s[j + p - len]);
        }
        lemma_asc_desc_valley_free(r, len - p);
    }
}

/// A valley-free sequence is bitonic.
pub proof fn lemma_valley_free_bitonic(s: Seq<int>)
    requires
        valley_free(s),
    ensures
        bitonic(s),
{
    assert(rotate(s, 0) =~= s);
}


/// The lane-wise minima of a valley-free sequence are valley-free.
pub proof fn lemma_clean_lo_valley_free(s: Seq<int>, n: int)
    requires
        n >= 1,
        s.len() == 2 * n,
        valley_free(s),
    ensures
        valley_free(clean_lo(s, n)),
{
    let m = clean_lo(s, n);
    assert forall|i: int, j: int, k: int| #![trigger m[i], m[j], m[k]]
        0 <= i < j < k < n implies m[j] >= vstd::math::min(m[i], m[k]) by {
        assert(s[j] >= vstd::math::min(s[i], s[k]));
        assert(s[j + n] >= vstd::math::min(s[i], s[k + n]));
        assert(m[i] <= s[i] && m[k] <= s[k] && m[k] <= s[k + n]);
        assert(m[j] == vstd::math::min(s[j], s[j + n]));
    }
}

/// The lane-wise maxima of a peak-free sequence are peak-free.
pub proof fn lemma_clean_hi_peak_free(s: Seq<int>, n: int)
    requires
        n >= 1,
        s.len() == 2 * n,
        peak_free(s),
    ensures
        peak_free(clean_hi(s, n)),
{
    let m = clean_hi(s, n);
    assert forall|i: int, j: int, k: int| #![trigger m[i], m[j], m[k]]
        0 <= i < j < k < n implies m[j] <= vstd::math::max(m[i], m[k]) by {
        assert(s[j] <= vstd::math::max(s[i], s[k]));
        assert(s[j + n] <= vstd::math::max(s[i], s[k + n]));
        assert(m[i] >= s[i] && m[k] >= s[k] && m[k] >= s[k + n]);
        assert(m[j] == vstd::math::max(s[j], s[j + n]));
    }
}

/// After cleaning a valley-free sequence, every lane-wise minimum is at most
/// every lane-wise maximum.
pub proof fn lemma_clean_dominated(s: Seq<int>, n: int)
    requires
        n >= 1,
        s.len() == 2 * n,
        valley_free(s),
    ensures
        forall|i: int, j: int|
            0 <= i < n && 0 <= j < n ==> #[trigger] clean_lo(s, n)[i] <= #[trigger] clean_hi(
                s,
                n,
            )[j],
{
    let lo = clean_lo(s, n);
    let hi = clean_hi(s, n);
    assert forall|i: int, j: int| 0 <= i < n && 0 <= j < n implies #[trigger] lo[i]
        <= #[trigger] hi[j] by {
        if i == j {
        } else if i < j {
            assert(s[j] >= vstd::math::min(s[i], s[i + n]));
        } else {
            assert(s[j + n] >= vstd::math::min(s[i], s[i + n]));
        }
    }
}

/// Cleaning commutes with rotation: the pairs `{i, i + n}` are carried onto
/// pairs, so the minima and maxima of a rotated sequence are the rotated
/// minima and maxima.
pub proof fn lemma_clean_rotate(s: Seq<int>, n: int, k: int)
    requires
        n >= 1,
        s.len() == 2 * n,
        0 <= k < 2 * n,
    ensures
        clean_lo(rotate(s, k), n) == rotate(clean_lo(s, n), wrap(k, n)),
        clean_hi(rotate(s, k), n) == rotate(clean_hi(s, n), wrap(k, n)),
{
    let r = rotate(s, k);
    let km = wrap(k, n);
    lemma_rotate_index(s, k);
    lemma_rotate_index(clean_lo(s, n), km);
    lemma_rotate_index(clean_hi(s, n), km);
    assert forall|x: int| 0 <= x < n implies clean_lo(r, n)[x] == rotate(clean_lo(s, n), km)[x]
        && clean_hi(r, n)[x] == rotate(clean_hi(s, n), km)[x] by {
        let a = wrap(x + k, 2 * n);
        let b = wrap(x + n + k, 2 * n);
        let y = wrap(x + km, n);
        assert(r[x] == s[a] && r[x + n] == s[b]);
        assert(rotate(clean_lo(s, n), km)[x] == clean_lo(s, n)[y]);
        assert(rotate(clean_hi(s, n), km)[x] == clean_hi(s, n)[y]);
        assert(clean_lo(s, n)[y] == vstd::math::min(s[y], s[y + n]));
        assert(clean_hi(s, n)[y] == vstd::math::max(s[y], s[y + n]));
        assert((a == y && b == y + n) || (a == y + n && b == y));
        assert(clean_lo(r, n)[x] == vstd::math::min(s[a], s[b]));
        assert(clean_hi(r, n)[x] == vstd::math::max(s[a], s[b]));
        assert(vstd::math::min(s[a], s[b]) == vstd::math::min(s[y], s[y + n]));
        assert(vstd::math::max(s[a], s[b]) == vstd::math::max(s[y], s[y + n]));
    }
    assert(clean_lo(r, n) =~= rotate(clean_lo(s, n), km));
    assert(clean_hi(r, n) =~= rotate(clean_hi(s, n), km));
}

/// The reverse of a valley-free sequence is valley-free.
pub proof fn lemma_reverse_valley_free(s: Seq<int>)
    requires
        valley_free(s),
    ensures
        valley_free(s.reverse()),
{
    let r = s.reverse();
    let len = s.len() as int;
    assert forall|i: int, j: int, k: int| #![trigger r[i], r[j], r[k]]
        0 <= i < j < k < len implies r[j] >= vstd::math::min(r[i], r[k]) by {
        assert(r[i] == s[len - 1 - i] && r[j] == s[len - 1 - j] && r[k] == s[len - 1 - k]);
        assert(s[len - 1 - j] >= vstd::math::min(s[len - 1 - k], s[len - 1 - i]));
    }
}

/// Reversal commutes with rotation, up to changing the rotation amount.
pub proof fn lemma_reverse_rotate(s: Seq<int>, k: int)
    requires
        0 <= k <= s.len(),
    ensures
        rotate(s, k).reverse() == rotate(s.reverse(), s.len() - k),
{
    let len = s.len() as int;
    lemma_rotate_index(s, k);
    lemma_rotate_index(s.reverse(), len - k);
    assert forall|x: int| 0 <= x < len implies rotate(s, k).reverse()[x] == rotate(
        s.reverse(),
        len - k,
    )[x] by {
        assert(rotate(s, k).reverse()[x] == rotate(s, k)[len - 1 - x]);
        assert(rotate(s, k)[len - 1 - x] == s[wrap(len - 1 - x + k, len)]);
        assert(rotate(s.reverse(), len - k)[x] == s.reverse()[wrap(x + len - k, len)]);
        assert(s.reverse()[wrap(x + len - k, len)] == s[len - 1 - wrap(x + len - k, len)]);
        assert(wrap(len - 1 - x + k, len) == len - 1 - wrap(x + len - k, len));
    }
    assert(rotate(s, k).reverse() =~= rotate(s.reverse(), len - k));
}

/// The reverse of a bitonic sequence is bitonic.
pub proof fn lemma_reverse_bitonic(s: Seq<int>)
    requires
        bitonic(s),
    ensures
        bitonic(s.reverse()),
{
    let len = s.len() as int;
    let k = choose|k: int| 0 <= k <= len && valley_free(#[trigger] rotate(s, k));
    lemma_reverse_valley_free(rotate(s, k));
    lemma_reverse_rotate(s, k);
    assert(valley_free(rotate(s.reverse(), len - k)));
}

/// The half-cleaner theorem: cleaning a bitonic sequence of length `2 * n`
/// yields a bitonic minima half and a bitonic maxima half, every element of
/// the former at most every element of the latter.
pub proof fn lemma_half_cleaner(s: Seq<int>, n: int)
    requires
        n >= 1,
        s.len() == 2 * n,
        bitonic(s),
    ensures
        bitonic(clean_lo(s, n)),
        bitonic(clean_hi(s, n)),
        forall|i: int, j: int|
            0 <= i < n && 0 <= j < n ==> #[trigger] clean_lo(s, n)[i] <= #[trigger] clean_hi(
                s,
                n,
            )[j],
{
    let len = 2 * n;
    let k0 = choose|k: int| 0 <= k <= len && valley_free(#[trigger] rotate(s, k));
    let k = if k0 == len {
        0
    } else {
        k0
    };
    if k0 == len {
        assert(rotate(s, len) =~= rotate(s, 0));
    }
    let u = rotate(s, k);
    assert(valley_free(u));
    lemma_rotate_index(s, k);

    // The minima half: cleaning a valley-free sequence is valley-free, and
    // rotating back preserves bitonicity.
    lemma_clean_lo_valley_free(u, n);
    lemma_valley_free_bitonic(clean_lo(u, n));
    lemma_clean_rotate(s, n, k);
    lemma_rotate_bitonic(clean_lo(s, n), wrap(k, n));

    // The maxima half: rotate further, to a greatest element, where the
    // sequence is peak-free; its maxima are then peak-free, so bitonic.
    let p = lemma_argmax(u);
    lemma_rotate_to_peak(u, p);
    let w = rotate(u, p);
    lemma_rotate_rotate(s, k, p);
    let kp = if k + p <= len {
        k + p
    } else {
        k + p - len
    };
    assert(w == rotate(s, kp));
    if kp == len {
        assert(rotate(s, len) =~= rotate(s, 0));
        assert(peak_free(rotate(s, 0)));
        lemma_clean_hi_peak_free(rotate(s, 0), n);
        lemma_peak_free_bitonic(clean_hi(rotate(s, 0), n));
        lemma_clean_rotate(s, n, 0);
        assert(rotate(clean_hi(s, n), 0) =~= clean_hi(s, n));
        lemma_rotate_bitonic(clean_hi(s, n), 0);
    } else {
        lemma_clean_hi_peak_free(w, n);
        lemma_peak_free_bitonic(clean_hi(w, n));
        lemma_clean_rotate(s, n, kp);
        lemma_rotate_bitonic(clean_hi(s, n), wrap(kp, n));
    }

    // Domination: every minimum is at most every maximum; rotation carries
    // the bound back to the unrotated halves.
    lemma_clean_dominated(u, n);
    let km = wrap(k, n);
    lemma_rotate_index(clean_lo(s, n), km);
    lemma_rotate_index(clean_hi(s, n), km);
    assert forall|i: int, j: int| 0 <= i < n && 0 <= j < n implies #[trigger] clean_lo(s, n)[i]
        <= #[trigger] clean_hi(s, n)[j] by {
        let xi = if i >= km {
            i - km
        } else {
            i - km + n
        };
        let xj = if j >= km {
            j - km
        } else {
            j - km + n
        };
        assert(rotate(clean_lo(s, n), km)[xi] == clean_lo(s, n)[wrap(xi + km, n)]);
        assert(rotate(clean_hi(s, n), km)[xj] == clean_hi(s, n)[wrap(xj + km, n)]);
        assert(wrap(xi + km, n) == i && wrap(xj + km, n) == j);
        assert(clean_lo(u, n)[xi] <= clean_hi(u, n)[xj]);
    }
}


/// How many of the eight entries of `s` equal `x`.
pub open spec fn occ8<T>(s: Seq<T>, x: T) -> int {
    (if s[0] == x {
        1int
    } else {
        0int
    }) + (if s[1] == x {
        1int
    } else {
        0int
    }) + (if s[2] == x {
        1int
    } else {
        0int
    }) + (if s[3] == x {
        1int
    } else {
        0int
    }) + (if s[4] == x {
        1int
    } else {
        0int
    }) + (if s[5] == x {
        1int
    } else {
        0int
    }) + (if s[6] == x {
        1int
    } else {
        0int
    }) + (if s[7] == x {
        1int
    } else {
        0int
    })
}

/// Two eight-entry sequences with the same counts carry the same multiset.
#[verifier::rlimit(100)]
#[verifier::spinoff_prover]
pub proof fn lemma_multiset_eq8<T>(a: Seq<T>, b: Seq<T>)
    requires
        a.len() == 8,
        b.len() == 8,
        forall|x: T| occ8(a, x) == occ8(b, x),
    ensures
        a.to_multiset() == b.to_multiset(),
{
    broadcast use vstd::seq_lib::group_to_multiset_ensures;

    let ea = Seq::empty().push(a[0]).push(a[1]).push(a[2]).push(a[3]).push(a[4]).push(a[5]).push(
        a[6],
    ).push(a[7]);
    let eb = Seq::empty().push(b[0]).push(b[1]).push(b[2]).push(b[3]).push(b[4]).push(b[5]).push(
        b[6],
    ).push(b[7]);
    assert(a =~= ea);
    assert(b =~= eb);
    assert forall|x: T| a.to_multiset().count(x) == b.to_multiset().count(x) by {
        assert(Seq::<T>::empty().to_multiset().count(x) == 0) by {
            assert(Seq::<T>::empty().to_multiset() =~= vstd::multiset::Multiset::empty());
        }
        assert(ea.to_multiset().count(x) == occ8(a, x));
        assert(eb.to_multiset().count(x) == occ8(b, x));
    }
    assert(a.to_multiset() =~= b.to_multiset());
}

/// Adjacent order extends to the whole sequence.
pub proof fn lemma_adjacent_ascending(s: Seq<int>)
    requires
        forall|i: int| 0 <= i < s.len() - 1 ==> #[trigger] s[i] <= s[i + 1],
    ensures
        ascending(s),
{
    assert forall|i: int, j: int| 0 <= i <= j < s.len() implies s[i] <= s[j] by {
        lemma_chain_le(s, i, j);
    }
}

proof fn lemma_chain_le(s: Seq<int>, i: int, j: int)
    requires
        forall|l: int| 0 <= l < s.len() - 1 ==> #[trigger] s[l] <= s[l + 1],
        0 <= i <= j < s.len(),
    ensures
        s[i] <= s[j],
    decreases j - i,
{
    if i < j {
        lemma_chain_le(s, i, j - 1);
        assert(s[j - 1] <= s[j]);
    }
}


/// The multiset count of a value in an eight-entry sequence is its count
/// among the entries.
#[verifier::rlimit(100)]
pub proof fn lemma_occ8_count<T>(s: Seq<T>, x: T)
    requires
        s.len() == 8,
    ensures
        s.to_multiset().count(x) == occ8(s, x),
{
    broadcast use vstd::seq_lib::group_to_multiset_ensures;

    let e = Seq::empty().push(s[0]).push(s[1]).push(s[2]).push(s[3]).push(s[4]).push(s[5]).push(
        s[6],
    ).push(s[7]);
    assert(s =~= e);
    assert(Seq::<T>::empty().to_multiset().count(x) == 0) by {
        assert(Seq::<T>::empty().to_multiset() =~= vstd::multiset::Multiset::empty());
    }
    assert(e.to_multiset().count(x) == occ8(s, x));
}

/// Two pairs of eight-lane sequences that exchange lane-wise carry the same
/// combined multiset.
#[verifier::rlimit(100)]
pub proof fn lemma_exchange_pair_multiset<T>(a: Seq<T>, b: Seq<T>, a2: Seq<T>, b2: Seq<T>)
    requires
        a.len() == 8,
        b.len() == 8,
        a2.len() == 8,
        b2.len() == 8,
        forall|i: int|
            0 <= i < 8 ==> ((#[trigger] a2[i] == a[i] && #[trigger] b2[i] == b[i]) || (a2[i] == b[i]
                && b2[i] == a[i])),
    ensures
        a2.to_multiset().add(b2.to_multiset()) == a.to_multiset().add(b.to_multiset()),
{
    assert forall|x: T|
        a2.to_multiset().add(b2.to_multiset()).count(x) == a.to_multiset().add(
            b.to_multiset(),
        ).count(x) by {
        lemma_occ8_count(a, x);
        lemma_occ8_count(b, x);
        lemma_occ8_count(a2, x);
        lemma_occ8_count(b2, x);
        assert forall|i: int| 0 <= i < 8 implies (if #[trigger] a2[i] == x {
            1int
        } else {
            0int
        }) + (if b2[i] == x {
            1int
        } else {
            0int
        }) == (if a[i] == x {
            1int
        } else {
            0int
        }) + (if b[i] == x {
            1int
        } else {
            0int
        }) by {}
        assert(occ8(a2, x) + occ8(b2, x) == occ8(a, x) + occ8(b, x));
    }
    assert(a2.to_multiset().add(b2.to_multiset()) =~= a.to_multiset().add(b.to_multiset()));
}

/// Keys distribute over concatenation.
pub proof fn lemma_keys_concat<T: SimdSortable>(a: Seq<T>, b: Seq<T>)
    ensures
        keys_of(a + b) == keys_of(a) + keys_of(b),
{
    assert(keys_of(a + b) =~= keys_of(a) + keys_of(b));
}

/// Two ascending runs, the first bounded by the second, concatenate to an
/// ascending run.
pub proof fn lemma_concat_ascending(k1: Seq<int>, k2: Seq<int>)
    requires
        ascending(k1),
        ascending(k2),
        forall|i: int, j: int|
            0 <= i < k1.len() && 0 <= j < k2.len() ==> #[trigger] k1[i] <= #[trigger] k2[j],
    ensures
        ascending(k1 + k2),
{
    let c = k1 + k2;
    assert forall|i: int, j: int| 0 <= i <= j < c.len() implies c[i] <= c[j] by {
        if j < k1.len() {
            assert(c[i] == k1[i] && c[j] == k1[j]);
        } else if i >= k1.len() {
            assert(c[i] == k2[i - k1.len()] && c[j] == k2[j - k1.len()]);
        } else {
            assert(c[i] == k1[i] && c[j] == k2[j - k1.len()]);
        }
    }
}

/// A permutation of a key-dominated pair of sequences is key-dominated.
pub proof fn lemma_key_dom_perm<T: SimdSortable>(a: Seq<T>, b: Seq<T>, a2: Seq<T>, b2: Seq<T>)
    requires
        a.to_multiset() == a2.to_multiset(),
        b.to_multiset() == b2.to_multiset(),
        forall|i: int, j: int|
            0 <= i < a.len() && 0 <= j < b.len() ==> (#[trigger] a[i]).key() <= (
            #[trigger] b[j]).key(),
    ensures
        forall|i: int, j: int|
            0 <= i < a2.len() && 0 <= j < b2.len() ==> (#[trigger] a2[i]).key() <= (
            #[trigger] b2[j]).key(),
{
    broadcast use vstd::seq_lib::group_to_multiset_ensures;

    assert forall|i: int, j: int|
        0 <= i < a2.len() && 0 <= j < b2.len() implies (#[trigger] a2[i]).key() <= (
    #[trigger] b2[j]).key() by {
        assert(a2.to_multiset().count(a2[i]) > 0);
        assert(a.contains(a2[i]));
        assert(b2.to_multiset().count(b2[j]) > 0);
        assert(b.contains(b2[j]));
        let l1 = choose|l: int| 0 <= l < a.len() && a[l] == a2[i];
        let l2 = choose|l: int| 0 <= l < b.len() && b[l] == b2[j];
        assert(a[l1].key() <= b[l2].key());
    }
}


/// The first compare layer of every merge: two ascending runs of length
/// `n`, the second reversed, form a bitonic sequence; its cleaned minima
/// half is bitonic, its cleaned maxima half is bitonic once reversed back,
/// and every minimum is at most every maximum.
pub proof fn lemma_top_merge(ka: Seq<int>, kb: Seq<int>, n: int)
    requires
        n >= 1,
        ka.len() == n,
        kb.len() == n,
        ascending(ka),
        ascending(kb),
    ensures
        bitonic(clean_lo(ka + kb.reverse(), n)),
        bitonic(clean_hi(ka + kb.reverse(), n).reverse()),
        forall|i: int, j: int|
            0 <= i < n && 0 <= j < n ==> #[trigger] clean_lo(ka + kb.reverse(), n)[i]
                <= #[trigger] clean_hi(ka + kb.reverse(), n)[j],
{
    let w = ka + kb.reverse();
    assert forall|i: int, j: int| 0 <= i <= j < n implies w[i] <= w[j] by {
        assert(w[i] == ka[i] && w[j] == ka[j]);
    }
    assert forall|i: int, j: int| n <= i <= j < 2 * n implies w[i] >= w[j] by {
        assert(w[i] == kb[2 * n - 1 - i] && w[j] == kb[2 * n - 1 - j]);
    }
    lemma_asc_desc_valley_free(w, n);
    lemma_valley_free_bitonic(w);
    lemma_half_cleaner(w, n);
    lemma_reverse_bitonic(clean_hi(w, n));
}


/// `p` copies of the padding sentinel.
pub open spec fn pad_max<T: SimdSortable>(p: int) -> Seq<T> {
    Seq::new(p as nat, |i: int| T::spec_max_value())
}

/// Stripping sentinels: a sorted sequence that carries the values of `orig`
/// plus `p` padding sentinels holds exactly the values of `orig` in its
/// prefix, in sorted order.
pub proof fn lemma_sentinel_strip<T: SimdSortable>(s: Seq<T>, orig: Seq<T>, p: int)
    requires
        p >= 0,
        s.len() == orig.len() + p,
        ascending(keys_of(s)),
        s.to_multiset() == (orig + pad_max::<T>(p)).to_multiset(),
    ensures
        s.subrange(0, orig.len() as int).to_multiset() == orig.to_multiset(),
        ascending(keys_of(s.subrange(0, orig.len() as int))),
    decreases p,
{
    broadcast use vstd::seq_lib::group_to_multiset_ensures;

    let n = orig.len() as int;
    let ks = keys_of(s);
    assert forall|i: int, j: int|
        0 <= i <= j < n implies #[trigger] keys_of(s.subrange(0, n))[i] <= #[trigger] keys_of(
        s.subrange(0, n),
    )[j] by {
        assert(keys_of(s.subrange(0, n))[i] == ks[i] && keys_of(s.subrange(0, n))[j] == ks[j]);
    }
    if p == 0 {
        assert(orig + pad_max::<T>(0) =~= orig);
        assert(s.subrange(0, n) =~= s);
    } else {
        let m = T::spec_max_value();
        let e = orig + pad_max::<T>(p);
        assert(e[e.len() - 1] == m);
        assert(e.contains(m));
        assert(s.to_multiset().count(m) > 0);
        assert(s.contains(m));
        let l = choose|l: int| 0 <= l < s.len() && s[l] == m;
        assert(ks[l] <= ks[s.len() - 1]);
        T::max_value_greatest(s[s.len() - 1]);
        T::key_injective(s[s.len() - 1], m);
        assert(s.last() == m);
        let t = s.drop_last();
        assert(s =~= t.push(m));
        assert(t.to_multiset() =~= s.to_multiset().remove(m));
        let e2 = orig + pad_max::<T>(p - 1);
        assert(e =~= e2.push(m));
        assert(e2.to_multiset() =~= e.to_multiset().remove(m));
        assert forall|i: int, j: int|
            0 <= i <= j < t.len() implies #[trigger] keys_of(t)[i] <= #[trigger] keys_of(t)[j] by {
            assert(keys_of(t)[i] == ks[i] && keys_of(t)[j] == ks[j]);
        }
        lemma_sentinel_strip(t, orig, p - 1);
        assert(t.subrange(0, n) =~= s.subrange(0, n));
    }
}


/// What a sorting kernel does to `[lo, hi)` of a sequence: everything else
/// untouched, the range ascending by key, its values a permutation of what
/// was there.
pub open spec fn sorts_range<T: SimdSortable>(pre: Seq<T>, post: Seq<T>, lo: int, hi: int) -> bool {
    &&& post.len() == pre.len()
    &&& forall|j: int| 0 <= j < post.len() && !(lo <= j < hi) ==> post[j] == pre[j]
    &&& ascending(keys_of(post.subrange(lo, hi)))
    &&& post.subrange(lo, hi).to_multiset() == pre.subrange(lo, hi).to_multiset()
}


/// Swapping two entries keeps the multiset.
pub proof fn lemma_swap_multiset<T>(s: Seq<T>, a: int, b: int)
    requires
        0 <= a < s.len(),
        0 <= b < s.len(),
    ensures
        s.update(a, s[b]).update(b, s[a]).to_multiset() == s.to_multiset(),
{
    broadcast use vstd::seq_lib::group_to_multiset_ensures;
    broadcast use vstd::seq_lib::to_multiset_update;

    if a == b {
        assert(s.update(a, s[b]).update(b, s[a]) =~= s);
    } else {
        let s1 = s.update(a, s[b]);
        assert(s1[b] == s[b]);
        assert(s1.update(b, s[a]).to_multiset() == s1.to_multiset().insert(s[a]).remove(s[b]));
        assert(s1.to_multiset() == s.to_multiset().insert(s[b]).remove(s[a]));
        assert(s.to_multiset().contains(s[a]));
        assert(s1.update(b, s[a]).to_multiset() =~= s.to_multiset());
    }
}


/// Two equal-length sequences that agree outside `[a, b)` and carry the same
/// multiset on `[a, b)` carry the same multiset on any enclosing range.
pub proof fn lemma_frame_multiset<T>(s: Seq<T>, t: Seq<T>, lo: int, a: int, b: int, hi: int)
    requires
        s.len() == t.len(),
        0 <= lo <= a <= b <= hi <= s.len(),
        forall|j: int| lo <= j < a ==> s[j] == t[j],
        forall|j: int| b <= j < hi ==> s[j] == t[j],
        s.subrange(a, b).to_multiset() == t.subrange(a, b).to_multiset(),
    ensures
        s.subrange(lo, hi).to_multiset() == t.subrange(lo, hi).to_multiset(),
{
    assert(s.subrange(lo, hi) =~= s.subrange(lo, a) + s.subrange(a, b) + s.subrange(b, hi));
    assert(t.subrange(lo, hi) =~= t.subrange(lo, a) + t.subrange(a, b) + t.subrange(b, hi));
    assert(s.subrange(lo, a) =~= t.subrange(lo, a));
    assert(s.subrange(b, hi) =~= t.subrange(b, hi));
    vstd::seq_lib::lemma_multiset_commutative(s.subrange(lo, a), s.subrange(a, b));
    vstd::seq_lib::lemma_multiset_commutative(s.subrange(lo, a) + s.subrange(a, b), s.subrange(b, hi));
    vstd::seq_lib::lemma_multiset_commutative(t.subrange(lo, a), t.subrange(a, b));
    vstd::seq_lib::lemma_multiset_commutative(t.subrange(lo, a) + t.subrange(a, b), t.subrange(b, hi));
    assert(s.subrange(lo, hi).to_multiset() =~= t.subrange(lo, hi).to_multiset());
}

/// Some running-minimum lane is at most `x`.
pub open spec fn covered_below<T: SimdSortable>(mn: Seq<T>, x: T) -> bool {
    exists|i: int| #![trigger mn[i]] 0 <= i < 8 && mn[i].key() <= x.key()
}

/// Some running-maximum lane is at least `x`.
pub open spec fn covered_above<T: SimdSortable>(mx: Seq<T>, x: T) -> bool {
    exists|i: int| #![trigger mx[i]] 0 <= i < 8 && mx[i].key() >= x.key()
}

/// The two pieces a register was split into are covered, key-wise, by the
/// running minima below and the running maxima above.
pub proof fn lemma_coverage_pieces<T: SimdSortable>(
    curr: Seq<T>,
    mn: Seq<T>,
    mx: Seq<T>,
    p1: Seq<T>,
    p2: Seq<T>,
)
    requires
        curr.len() == 8,
        mn.len() == 8,
        mx.len() == 8,
        p1.to_multiset().add(p2.to_multiset()) == curr.to_multiset(),
        forall|i: int|
            #![trigger mn[i]]
            #![trigger mx[i]]
            0 <= i < 8 ==> mn[i].key() <= curr[i].key() && curr[i].key() <= mx[i].key(),
    ensures
        forall|j: int|
            0 <= j < p1.len() ==> covered_below(mn, #[trigger] p1[j]) && covered_above(mx, p1[j]),
        forall|j: int|
            0 <= j < p2.len() ==> covered_below(mn, #[trigger] p2[j]) && covered_above(mx, p2[j]),
{
    broadcast use vstd::seq_lib::group_to_multiset_ensures;

    assert forall|j: int| 0 <= j < p1.len() implies covered_below(mn, #[trigger] p1[j])
        && covered_above(mx, p1[j]) by {
        assert(p1.to_multiset().count(p1[j]) > 0);
        assert(curr.to_multiset().count(p1[j]) > 0);
        assert(curr.contains(p1[j]));
        let l = choose|l: int| 0 <= l < 8 && curr[l] == p1[j];
        assert(mn[l].key() <= p1[j].key());
        assert(mx[l].key() >= p1[j].key());
    }
    assert forall|j: int| 0 <= j < p2.len() implies covered_below(mn, #[trigger] p2[j])
        && covered_above(mx, p2[j]) by {
        assert(p2.to_multiset().count(p2[j]) > 0);
        assert(curr.to_multiset().count(p2[j]) > 0);
        assert(curr.contains(p2[j]));
        let l = choose|l: int| 0 <= l < 8 && curr[l] == p2[j];
        assert(mn[l].key() <= p2[j].key());
        assert(mx[l].key() >= p2[j].key());
    }
}


/// Coverage below survives pointwise shrinking of the minima.
pub proof fn lemma_coverage_shrink<T: SimdSortable>(mn0: Seq<T>, mn1: Seq<T>, x: T)
    requires
        mn0.len() == 8,
        mn1.len() == 8,
        forall|i: int| #![trigger mn1[i]] 0 <= i < 8 ==> mn1[i].key() <= mn0[i].key(),
        covered_below(mn0, x),
    ensures
        covered_below(mn1, x),
{
    let i = choose|i: int| #![trigger mn0[i]] 0 <= i < 8 && mn0[i].key() <= x.key();
    assert(mn1[i].key() <= x.key());
}

/// Coverage above survives pointwise growing of the maxima.
pub proof fn lemma_coverage_grow<T: SimdSortable>(mx0: Seq<T>, mx1: Seq<T>, x: T)
    requires
        mx0.len() == 8,
        mx1.len() == 8,
        forall|i: int| #![trigger mx1[i]] 0 <= i < 8 ==> mx1[i].key() >= mx0[i].key(),
        covered_above(mx0, x),
    ensures
        covered_above(mx1, x),
{
    let i = choose|i: int| #![trigger mx0[i]] 0 <= i < 8 && mx0[i].key() >= x.key();
    assert(mx1[i].key() >= x.key());
}


/// A permutation keeps any per-element property.
pub proof fn lemma_perm_pred<T>(a: Seq<T>, b: Seq<T>, p: spec_fn(T) -> bool)
    requires
        a.to_multiset() == b.to_multiset(),
        forall|i: int| 0 <= i < a.len() ==> p(#[trigger] a[i]),
    ensures
        forall|i: int| 0 <= i < b.len() ==> p(#[trigger] b[i]),
{
    broadcast use vstd::seq_lib::group_to_multiset_ensures;

    assert forall|i: int| 0 <= i < b.len() implies p(#[trigger] b[i]) by {
        assert(b.to_multiset().count(b[i]) > 0);
        assert(a.contains(b[i]));
        let l = choose|l: int| 0 <= l < a.len() && a[l] == b[i];
        assert(p(a[l]));
    }
}


/// A sorted permutation is unique: any two key-ascending sequences holding
/// the same values are the same sequence.  This is why every back-end, and
/// any correct reference sort, returns the same output on the same input.
pub proof fn lemma_sorted_permutation_unique<T: SimdSortable>(a: Seq<T>, b: Seq<T>)
    requires
        ascending(keys_of(a)),
        ascending(keys_of(b)),
        a.to_multiset() == b.to_multiset(),
    ensures
        a == b,
{
    let leq = |x: T, y: T| x.key() <= y.key();
    assert(vstd::relations::sorted_by(a, leq)) by {
        assert forall|i: int, j: int| 0 <= i < j < a.len() implies #[trigger] leq(a[i], a[j]) by {
            assert(keys_of(a)[i] <= keys_of(a)[j]);
        }
    }
    assert(vstd::relations::sorted_by(b, leq)) by {
        assert forall|i: int, j: int| 0 <= i < j < b.len() implies #[trigger] leq(b[i], b[j]) by {
            assert(keys_of(b)[i] <= keys_of(b)[j]);
        }
    }
    assert(vstd::relations::total_ordering(leq)) by {
        assert forall|x: T, y: T| #[trigger] leq(x, y) && #[trigger] leq(y, x) implies x == y by {
            T::key_injective(x, y);
        }
        assert(forall|x: T| #[trigger] leq(x, x));
        assert(forall|x: T, y: T| #[trigger] leq(x, y) || #[trigger] leq(y, x));
    }
    vstd::seq_lib::lemma_sorted_unique(a, b, leq);
    assert(a =~= b);
}


/// Any two back-ends agree: both return the ascending permutation of the
/// input, and that is unique.
pub proof fn lemma_backends_agree<T: SimdSortable>(input: Seq<T>, out1: Seq<T>, out2: Seq<T>)
    requires
        ascending(keys_of(out1)),
        ascending(keys_of(out2)),
        out1.to_multiset() == input.to_multiset(),
        out2.to_multiset() == input.to_multiset(),
    ensures
        out1 == out2,
{
    lemma_sorted_permutation_unique(out1, out2);
}

} // verus!
