//! Facts about single bits of a 64-bit word, proved once with the
//! bit-vector solver and used everywhere else through `has_bit`.

use vstd::prelude::*;

verus! {

/// Whether bit `i` of `x` is set.  False for every `i` outside `0..64`.
pub open spec fn has_bit(x: u64, i: int) -> bool {
    0 <= i < 64 && (x >> (i as u64)) & 1 == 1
}

/// The word with only bit `i` set.
pub open spec fn single(i: int) -> u64 {
    1u64 << (i as u64)
}

/// The set of bit positions that are set in `x`.
pub open spec fn bit_set(x: u64) -> Set<int> {
    Set::new(|i: int| has_bit(x, i))
}

/// A bit of a union is a bit of one of its parts.
pub proof fn lemma_bits_or(a: u64, b: u64)
    ensures
        forall|i: int| #[trigger] has_bit(a | b, i) == (has_bit(a, i) || has_bit(b, i)),
{
    assert forall|i: int| #[trigger] has_bit(a | b, i) == (has_bit(a, i) || has_bit(b, i)) by {
        let k = i as u64;
        assert(((a | b) >> k) & 1 == 1 <==> ((a >> k) & 1 == 1 || (b >> k) & 1 == 1))
            by (bit_vector);
    }
}

/// A bit of an intersection is a bit of both of its parts.
pub proof fn lemma_bits_and(a: u64, b: u64)
    ensures
        forall|i: int| #[trigger] has_bit(a & b, i) == (has_bit(a, i) && has_bit(b, i)),
{
    assert forall|i: int| #[trigger] has_bit(a & b, i) == (has_bit(a, i) && has_bit(b, i)) by {
        let k = i as u64;
        assert(((a & b) >> k) & 1 == 1 <==> ((a >> k) & 1 == 1 && (b >> k) & 1 == 1))
            by (bit_vector);
    }
}

/// A bit of a symmetric difference is a bit of exactly one of its parts.
pub proof fn lemma_bits_xor(a: u64, b: u64)
    ensures
        forall|i: int| #[trigger] has_bit(a ^ b, i) == (has_bit(a, i) != has_bit(b, i)),
{
    assert forall|i: int| #[trigger] has_bit(a ^ b, i) == (has_bit(a, i) != has_bit(b, i)) by {
        let k = i as u64;
        assert(((a ^ b) >> k) & 1 == 1 <==> (((a >> k) & 1 == 1) != ((b >> k) & 1 == 1)))
            by (bit_vector);
    }
}

/// A bit of a complement is a bit that the word lacks.
pub proof fn lemma_bits_not(a: u64)
    ensures
        forall|i: int| 0 <= i < 64 ==> #[trigger] has_bit(!a, i) == !has_bit(a, i),
{
    assert forall|i: int| 0 <= i < 64 implies #[trigger] has_bit(!a, i) == !has_bit(a, i) by {
        let k = i as u64;
        assert(((!a) >> k) & 1 == 1 <==> !((a >> k) & 1 == 1)) by (bit_vector)
            requires
                k < 64,
        ;
    }
}

/// The word with only bit `j` set has that bit and no other.
pub proof fn lemma_bits_single(j: int)
    requires
        0 <= j < 64,
    ensures
        forall|i: int| #[trigger] has_bit(single(j), i) == (i == j),
        single(j) != 0,
{
    let m = j as u64;
    assert forall|i: int| #[trigger] has_bit(single(j), i) == (i == j) by {
        let k = i as u64;
        if 0 <= i < 64 {
            assert(((1u64 << m) >> k) & 1 == 1 <==> k == m) by (bit_vector)
                requires
                    k < 64,
                    m < 64,
            ;
        }
    }
    assert((1u64 << m) != 0) by (bit_vector)
        requires
            m < 64,
    ;
}

/// Zero has no bit set.
pub proof fn lemma_bits_zero()
    ensures
        forall|i: int| !#[trigger] has_bit(0, i),
{
    assert forall|i: int| !#[trigger] has_bit(0, i) by {
        let k = i as u64;
        assert((0u64 >> k) & 1 != 1) by (bit_vector);
    }
}

/// A nonzero word below `2^hi` has a set bit below `hi`.
proof fn lemma_some_bit(a: u64, hi: u64) -> (i: int)
    requires
        a != 0,
        hi <= 64,
        hi < 64 ==> a >> hi == 0,
    ensures
        0 <= i < hi,
        has_bit(a, i),
    decreases hi,
{
    assert(hi != 0) by (bit_vector)
        requires
            a != 0,
            hi < 64 ==> a >> hi == 0,
    ;
    let top = (hi - 1) as u64;
    if has_bit(a, top as int) {
        top as int
    } else {
        assert(top < 64 ==> a >> top == 0) by (bit_vector)
            requires
                top < 64,
                hi == top + 1,
                hi < 64 ==> a >> hi == 0,
                (a >> top) & 1 != 1,
        ;
        lemma_some_bit(a, top)
    }
}

/// A word is zero exactly when none of its bits is set.
pub proof fn lemma_no_bits(a: u64)
    ensures
        a == 0 <==> (forall|i: int| !has_bit(a, i)),
{
    lemma_bits_zero();
    if a != 0 {
        let i = lemma_some_bit(a, 64);
        assert(has_bit(a, i));
    }
}

/// A word whose bits from `k` up are all clear lies below `2^k`.
pub proof fn lemma_below_single(x: u64, k: int)
    requires
        0 <= k < 64,
        forall|j: int| k <= j < 64 ==> !has_bit(x, j),
    ensures
        x < single(k),
{
    let s = k as u64;
    let y = x >> s;
    if y != 0 {
        let i = lemma_some_bit(y, 64);
        let t = i as u64;
        assert(t + s < 64 && (x >> ((t + s) as u64)) & 1 == 1) by (bit_vector)
            requires
                s < 64,
                t < 64,
                ((x >> s) >> t) & 1 == 1,
        ;
        assert(has_bit(x, i + k));
    }
    assert(x < (1u64 << s)) by (bit_vector)
        requires
            s < 64,
            x >> s == 0,
    ;
}

/// Two words with the same bits are equal.
pub proof fn lemma_bits_ext(a: u64, b: u64)
    requires
        forall|i: int| 0 <= i < 64 ==> has_bit(a, i) == has_bit(b, i),
    ensures
        a == b,
{
    lemma_bits_xor(a, b);
    assert forall|i: int| !has_bit(a ^ b, i) by {}
    lemma_no_bits(a ^ b);
    assert(a == b) by (bit_vector)
        requires
            a ^ b == 0,
    ;
}

/// Two words with the same set of bit positions are equal.
pub proof fn lemma_bit_set_ext(a: u64, b: u64)
    requires
        bit_set(a) == bit_set(b),
    ensures
        a == b,
{
    assert forall|i: int| 0 <= i < 64 implies has_bit(a, i) == has_bit(b, i) by {
        assert(bit_set(a).contains(i) == has_bit(a, i));
        assert(bit_set(b).contains(i) == has_bit(b, i));
    }
    lemma_bits_ext(a, b);
}

/// The number of bits that are set in `x`.
pub open spec fn popcount(x: u64) -> nat
    decreases x,
{
    if x == 0 {
        0
    } else {
        (x % 2) as nat + popcount(x / 2)
    }
}

/// `u64::count_ones` returns the number of ones in the binary representation
/// of its argument, as its documentation says.
pub assume_specification[ u64::count_ones ](x: u64) -> (r: u32)
    ensures
        r == popcount(x),
;

/// No word has more than 64 bits set.
pub proof fn lemma_popcount_bound(x: u64)
    ensures
        popcount(x) <= 64,
{
    lemma_popcount_below(x, 64);
}

/// A word below `2^width` has at most `width` bits set.
proof fn lemma_popcount_below(x: u64, width: nat)
    requires
        width <= 64,
        width < 64 ==> x >> (width as u64) == 0,
    ensures
        popcount(x) <= width,
    decreases x,
{
    if x != 0 {
        let w = width as u64;
        let y = x / 2;
        assert(w >= 1 && (w - 1 < 64 ==> y >> ((w - 1) as u64) == 0)) by (bit_vector)
            requires
                x != 0,
                w <= 64,
                w < 64 ==> x >> w == 0,
                y == x / 2,
        ;
        lemma_popcount_below(y, (width - 1) as nat);
    }
}

/// A word that is not zero has a bit set.
pub proof fn lemma_popcount_nonzero(x: u64)
    requires
        x != 0,
    ensures
        popcount(x) >= 1,
    decreases x,
{
    if x % 2 == 0 {
        lemma_popcount_nonzero(x / 2);
    }
}

/// A union has at most as many bits as its parts together.
pub proof fn lemma_popcount_or(a: u64, b: u64)
    ensures
        popcount(a | b) <= popcount(a) + popcount(b),
    decreases a + b,
{
    assert((a | b) / 2 == (a / 2) | (b / 2)) by (bit_vector);
    assert((a | b) % 2 <= a % 2 + b % 2) by (bit_vector);
    assert(a | b == 0 <==> a == 0 && b == 0) by (bit_vector);
    if a | b != 0 {
        lemma_popcount_or(a / 2, b / 2);
    }
}

/// A word with one bit set has one bit set.
pub proof fn lemma_popcount_single(i: int)
    requires
        0 <= i < 64,
    ensures
        popcount(single(i)) == 1,
    decreases i,
{
    let k = i as u64;
    if i == 0 {
        assert(1u64 << 0u64 == 1) by (bit_vector);
        assert(popcount(1) == 1 + popcount(0));
    } else {
        let m = (i - 1) as u64;
        assert((1u64 << k) % 2 == 0 && (1u64 << k) / 2 == 1u64 << m && (1u64 << k) != 0)
            by (bit_vector)
            requires
                1 <= k < 64,
                m == k - 1,
        ;
        lemma_popcount_single(i - 1);
    }
}

/// Taking a set bit out of a word leaves one bit fewer.
pub proof fn lemma_popcount_without(x: u64, i: int)
    requires
        has_bit(x, i),
    ensures
        popcount(x) == popcount(x ^ single(i)) + 1,
        x ^ single(i) < x,
    decreases i,
{
    let k = i as u64;
    let y = x ^ single(i);
    assert(y < x) by (bit_vector)
        requires
            k < 64,
            (x >> k) & 1 == 1,
            y == x ^ (1u64 << k),
    ;
    if i == 0 {
        assert(x % 2 == 1 && y % 2 == 0 && y / 2 == x / 2) by (bit_vector)
            requires
                k == 0,
                (x >> k) & 1 == 1,
                y == x ^ (1u64 << k),
        ;
    } else {
        let m = (i - 1) as u64;
        assert(x != 0 && y % 2 == x % 2 && y / 2 == (x / 2) ^ (1u64 << m) && ((x / 2) >> m) & 1
            == 1) by (bit_vector)
            requires
                1 <= k < 64,
                m == k - 1,
                (x >> k) & 1 == 1,
                y == x ^ (1u64 << k),
        ;
        lemma_popcount_without(x / 2, i - 1);
    }
}

/// The bits that are set in a word are as many as `popcount` says.
pub proof fn lemma_popcount_is_len(x: u64)
    ensures
        bit_set(x).finite(),
        bit_set(x).len() == popcount(x),
    decreases x,
{
    if x == 0 {
        lemma_bits_zero();
        assert(bit_set(x) =~= Set::<int>::empty());
    } else {
        let i = lemma_some_bit(x, 64);
        let y = x ^ single(i);
        lemma_popcount_without(x, i);
        lemma_popcount_is_len(y);
        lemma_bits_xor(x, single(i));
        lemma_bits_single(i);
        assert(bit_set(x) =~= bit_set(y).insert(i));
    }
}

} // verus!
