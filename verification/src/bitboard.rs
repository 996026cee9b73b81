//! Sets of squares packed into one 64-bit word, bit `i` for square `i`.

use core::ops::{BitAnd, BitOr, BitXor, Not};
use vstd::prelude::*;
use vstd::std_specs::bits::{axiom_u64_leading_zeros, u64_leading_zeros};
use vstd::std_specs::ops::{BitAndSpecImpl, BitOrSpecImpl, BitXorSpecImpl, NotSpecImpl};
use crate::bits::{
    bit_set, has_bit, lemma_bits_and, lemma_bits_not, lemma_bits_or, lemma_bits_xor, lemma_no_bits,
    lemma_popcount_bound, lemma_popcount_is_len, lemma_popcount_without, popcount,
};
use crate::square::Square;

verus! {

/// A set of squares.  The word is public for convenience; contracts speak of
/// the set, which is the view.
#[derive(Clone, Copy, Debug, Default, PartialEq, Eq, Structural)]
pub struct Bitboard(pub u64);

impl View for Bitboard {
    type V = Set<int>;

    /// The indices of the squares in the set.
    open spec fn view(&self) -> Set<int> {
        bit_set(self.0)
    }
}

impl BitAndSpecImpl for Bitboard {
    open spec fn obeys_bitand_spec() -> bool {
        true
    }

    open spec fn bitand_req(self, rhs: Bitboard) -> bool {
        true
    }

    open spec fn bitand_spec(self, rhs: Bitboard) -> Bitboard {
        Bitboard(self.0 & rhs.0)
    }
}

impl BitAnd for Bitboard {
    type Output = Bitboard;

    /// The squares that are in both sets.
    fn bitand(self, rhs: Bitboard) -> (r: Bitboard)
        ensures
            r@ == self@.intersect(rhs@),
    {
        proof {
            lemma_bits_and(self.0, rhs.0);
        }
        let r = Bitboard(self.0 & rhs.0);
        assert(r@ =~= self@.intersect(rhs@));
        r
    }
}

impl BitOrSpecImpl for Bitboard {
    open spec fn obeys_bitor_spec() -> bool {
        true
    }

    open spec fn bitor_req(self, rhs: Bitboard) -> bool {
        true
    }

    open spec fn bitor_spec(self, rhs: Bitboard) -> Bitboard {
        Bitboard(self.0 | rhs.0)
    }
}

impl BitOr for Bitboard {
    type Output = Bitboard;

    /// The squares that are in one of the sets.
    fn bitor(self, rhs: Bitboard) -> (r: Bitboard)
        ensures
            r@ == self@.union(rhs@),
    {
        proof {
            lemma_bits_or(self.0, rhs.0);
        }
        let r = Bitboard(self.0 | rhs.0);
        assert(r@ =~= self@.union(rhs@));
        r
    }
}

impl BitXorSpecImpl for Bitboard {
    open spec fn obeys_bitxor_spec() -> bool {
        true
    }

    open spec fn bitxor_req(self, rhs: Bitboard) -> bool {
        true
    }

    open spec fn bitxor_spec(self, rhs: Bitboard) -> Bitboard {
        Bitboard(self.0 ^ rhs.0)
    }
}

impl BitXor for Bitboard {
    type Output = Bitboard;

    /// The squares that are in exactly one of the sets.
    fn bitxor(self, rhs: Bitboard) -> (r: Bitboard)
        ensures
            r@ == self@.difference(rhs@).union(rhs@.difference(self@)),
    {
        proof {
            lemma_bits_xor(self.0, rhs.0);
        }
        let r = Bitboard(self.0 ^ rhs.0);
        assert(r@ =~= self@.difference(rhs@).union(rhs@.difference(self@)));
        r
    }
}

impl NotSpecImpl for Bitboard {
    open spec fn obeys_not_spec() -> bool {
        true
    }

    open spec fn not_req(self) -> bool {
        true
    }

    open spec fn not_spec(self) -> Bitboard {
        Bitboard(!self.0)
    }
}

impl Not for Bitboard {
    type Output = Bitboard;

    /// The squares that are not in the set.
    fn not(self) -> (r: Bitboard)
        ensures
            r@ == Bitboard::full().difference(self@),
    {
        proof {
            lemma_bits_not(self.0);
        }
        let r = Bitboard(!self.0);
        assert(r@ =~= Bitboard::full().difference(self@));
        r
    }
}

impl Bitboard {
    /// The indices of all 64 squares.
    pub open spec fn full() -> Set<int> {
        Set::new(|i: int| 0 <= i < 64)
    }

    /// The set whose squares are the bits of `bitmask`.
    pub fn new(bitmask: u64) -> (b: Bitboard)
        ensures
            b.0 == bitmask,
    {
        Bitboard(bitmask)
    }

    /// Whether the set holds no square.
    pub fn is_empty(&self) -> (r: bool)
        ensures
            r == (self.0 == 0),
            r == (self@ == Set::<int>::empty()),
    {
        proof {
            lemma_no_bits(self.0);
            if self.0 == 0 {
                assert(self@ =~= Set::<int>::empty());
            } else {
                let i = choose|i: int| has_bit(self.0, i);
                assert(self@.contains(i));
            }
        }
        self.0 == 0
    }

    /// Whether the set holds a square.
    pub fn is_nonempty(&self) -> (r: bool)
        ensures
            r == (self.0 != 0),
            r == (self@ != Set::<int>::empty()),
    {
        !self.is_empty()
    }

    /// How many squares the set holds.
    pub fn num_occupied_squares(&self) -> (n: u32)
        ensures
            n == self@.len(),
            n == popcount(self.0),
            n <= 64,
    {
        proof {
            lemma_popcount_bound(self.0);
            lemma_popcount_is_len(self.0);
        }
        self.0.count_ones()
    }

    /// Whether the set holds `square`.
    pub fn is_occupied(&self, square: Square) -> (r: bool)
        ensures
            r == self@.contains(square.index()),
    {
        let one = square.to_bitboard();
        let common = *self & one;
        let r = common.is_nonempty();
        proof {
            if self@.contains(square.index()) {
                assert(common@.contains(square.index()));
            } else {
                assert(common@ =~= Set::<int>::empty());
            }
        }
        r
    }

    /// The square with the highest index in a set that is not empty.
    pub fn top_square(&self) -> (sq: Square)
        requires
            self.0 != 0,
        ensures
            self@.contains(sq.index()),
            forall|j: int| self@.contains(j) ==> j <= sq.index(),
    {
        let zeros = self.0.leading_zeros();
        proof {
            axiom_u64_leading_zeros(self.0);
            let x = self.0;
            let lz = u64_leading_zeros(x) as u64;
            let k = (63 - lz) as u64;
            assert((x >> k) & 1 == 1) by (bit_vector)
                requires
                    (x >> k) & 1 != 0,
            ;
            assert forall|j: int| self@.contains(j) implies j <= k by {
                if j > k {
                    assert((x >> (j as u64)) & 1 == 0);
                }
            }
        }
        Square::new(63 - zeros as u8)
    }

    /// The squares of the set, to be taken one by one from the highest down.
    pub fn squares(self) -> (it: SquaresIter)
        ensures
            it.rest() == self,
    {
        SquaresIter { bitboard: self }
    }
}

/// What is left of a set of squares while they are taken from it one by one,
/// highest index first.
pub struct SquaresIter {
    bitboard: Bitboard,
}

/// Whether the squares of `list` come in strictly descending order of index.
pub open spec fn descending(list: Seq<Square>) -> bool {
    forall|i: int, j: int| 0 <= i < j < list.len() ==> list[i].index() > list[j].index()
}

/// The indices of the squares of `list`.
pub open spec fn indices(list: Seq<Square>) -> Set<int> {
    Set::new(|k: int| exists|i: int| 0 <= i < list.len() && #[trigger] list[i].index() == k)
}

impl SquaresIter {
    /// The squares that have not been taken yet.
    pub closed spec fn rest(self) -> Bitboard {
        self.bitboard
    }

    /// The squares of `bitboard`, none of them taken yet.
    pub fn new(bitboard: Bitboard) -> (it: SquaresIter)
        ensures
            it.rest() == bitboard,
    {
        SquaresIter { bitboard: bitboard }
    }

    /// Takes the highest square that is left, if one is left.
    pub fn next(&mut self) -> (r: Option<Square>)
        ensures
            old(self).rest().0 == 0 ==> r is None && final(self).rest() == old(self).rest(),
            old(self).rest().0 != 0 ==> {
                &&& r matches Some(sq)
                &&& old(self).rest()@.contains(sq.index())
                &&& forall|j: int| old(self).rest()@.contains(j) ==> j <= sq.index()
                &&& final(self).rest()@ == old(self).rest()@.remove(sq.index())
                &&& final(self).rest().0 < old(self).rest().0
            },
    {
        if self.bitboard.is_empty() {
            None
        } else {
            let top_one_square = self.bitboard.top_square();
            let without_top = self.bitboard ^ top_one_square.to_bitboard();
            proof {
                lemma_popcount_without(self.bitboard.0, top_one_square.index());
                assert(without_top@ =~= self.bitboard@.remove(top_one_square.index()));
            }
            self.bitboard = without_top;
            Some(top_one_square)
        }
    }

    /// Takes all the squares that are left, highest first.
    pub fn collect(self) -> (list: Vec<Square>)
        ensures
            descending(list@),
            indices(list@) == self.rest()@,
    {
        let mut it = self;
        let mut list: Vec<Square> = Vec::new();
        loop
            invariant_except_break
                descending(list@),
                forall|i: int, j: int|
                    0 <= i < list.len() && #[trigger] it.rest()@.contains(j) ==> j
                        < #[trigger] list[i].index(),
                indices(list@).union(it.rest()@) == self.rest()@,
                indices(list@).disjoint(it.rest()@),
            ensures
                descending(list@),
                indices(list@) == self.rest()@,
            decreases it.rest().0,
        {
            let ghost before = it;
            let ghost listed = list@;
            match it.next() {
                Some(sq) => {
                    list.push(sq);
                    proof {
                        assert(list@[listed.len() as int].index() == sq.index());
                        assert forall|k: int| #[trigger]
                            indices(list@).contains(k) == (indices(listed).contains(k) || k
                                == sq.index()) by {
                            if indices(list@).contains(k) {
                                let i = choose|i: int|
                                    0 <= i < list@.len() && #[trigger] list@[i].index() == k;
                                if i < listed.len() {
                                    assert(listed[i].index() == k);
                                }
                            }
                            if indices(listed).contains(k) {
                                let i = choose|i: int|
                                    0 <= i < listed.len() && #[trigger] listed[i].index() == k;
                                assert(list@[i].index() == k);
                            }
                        }
                        assert(indices(list@).union(it.rest()@) =~= indices(listed).union(
                            before.rest()@,
                        ));
                    }
                },
                None => {
                    proof {
                        lemma_no_bits(it.rest().0);
                        assert(it.rest()@ =~= Set::<int>::empty());
                        assert(indices(list@) =~= indices(list@).union(it.rest()@));
                    }
                    break ;
                },
            }
        }
        list
    }
}

} // verus!
