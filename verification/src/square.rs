//! Board squares: a linear index from a1 = 0 to h8 = 63, rank by rank.

use core::ops::{Add, Sub};
use vstd::pervasive::unreached;
use vstd::prelude::*;
use vstd::std_specs::ops::{AddSpecImpl, SubSpecImpl};
use vstd::string::StrSliceExecFns;
use crate::bitboard::Bitboard;
use crate::bits::{lemma_bits_single, single};

verus! {

/// One of the 64 squares of the board.
#[derive(Copy, Clone, Debug, Default, Eq, PartialEq, Structural)]
pub struct Square(u8);

impl Square {
    /// Every square lies on the board.
    #[verifier::type_invariant]
    pub closed spec fn on_board(self) -> bool {
        self.0 < 64
    }

    /// The linear index of the square, `file + 8 * rank`.
    pub closed spec fn index(self) -> int {
        self.0 as int
    }

    /// The file of the square, 0 for the a-file up to 7 for the h-file.
    pub open spec fn spec_file(self) -> int {
        self.index() % 8
    }

    /// The rank of the square, 0 for the first rank up to 7 for the eighth.
    pub open spec fn spec_rank(self) -> int {
        self.index() / 8
    }

    /// The square with the given index.
    pub closed spec fn spec_new(i: int) -> Square {
        Square(i as u8)
    }

    /// The square at the given file and rank.
    pub open spec fn spec_from_coords(file: int, rank: int) -> Square {
        Square::spec_new(file + 8 * rank)
    }

    /// The file that a letter of algebraic notation names.
    pub open spec fn file_of_letter(c: char) -> int {
        c as int - 'a' as int
    }

    /// The rank that a digit of algebraic notation names.
    pub open spec fn rank_of_digit(c: char) -> int {
        c as int - '1' as int
    }

    /// Whether `san` starts with a file letter and a rank digit.
    pub open spec fn is_san(san: Seq<char>) -> bool {
        &&& san.len() >= 2
        &&& 'a' <= san[0] <= 'h'
        &&& '1' <= san[1] <= '8'
    }

    /// The square with the given index.
    pub fn new(square_index: u8) -> (sq: Square)
        requires
            square_index < 64,
        ensures
            sq == Square::spec_new(square_index as int),
            sq.index() == square_index,
            sq.on_board(),
    {
        Square(square_index)
    }

    /// Makes a square from a (file, rank) pair. To represent "a8", pass (0, 7).
    pub fn from_coords(file: u8, rank: u8) -> (sq: Square)
        requires
            file < 8,
            rank < 8,
        ensures
            sq == Square::spec_from_coords(file as int, rank as int),
            sq.index() == file + 8 * rank,
            sq.on_board(),
    {
        Square(file + rank * 8)
    }

    /// Makes a square from the first two characters of its algebraic name
    /// (e.g. "a8").
    pub fn from_san(san: &str) -> (sq: Square)
        requires
            Square::is_san(san@),
        ensures
            sq == Square::spec_from_coords(
                Square::file_of_letter(san@[0]),
                Square::rank_of_digit(san@[1]),
            ),
            sq.on_board(),
    {
        let file: u8 = match san.get_char(0) {
            'a' => 0,
            'b' => 1,
            'c' => 2,
            'd' => 3,
            'e' => 4,
            'f' => 5,
            'g' => 6,
            'h' => 7,
            _ => unreached(),
        };
        let rank: u8 = match san.get_char(1) {
            '1' => 0,
            '2' => 1,
            '3' => 2,
            '4' => 3,
            '5' => 4,
            '6' => 5,
            '7' => 6,
            '8' => 7,
            _ => unreached(),
        };
        Square::from_coords(file, rank)
    }

    /// The linear index of the square.
    pub fn to_index(self) -> (i: u8)
        ensures
            i == self.index(),
            i < 64,
            self.on_board(),
    {
        proof {
            use_type_invariant(&self);
        }
        self.0
    }

    /// The board that holds this square and no other.
    pub fn to_bitboard(self) -> (b: Bitboard)
        ensures
            b.0 == single(self.index()),
            b@ == set![self.index()],
            0 <= self.index() < 64,
    {
        proof {
            use_type_invariant(&self);
            lemma_bits_single(self.0 as int);
        }
        let b = Bitboard(1u64 << self.0);
        assert(b@ =~= set![self.index()]);
        b
    }

    /// The rank of the square, 0 for the first rank up to 7 for the eighth.
    pub fn rank(self) -> (r: u8)
        ensures
            r == self.spec_rank(),
            r < 8,
    {
        proof {
            use_type_invariant(&self);
        }
        self.0 / 8
    }

    /// The file of the square, 0 for the a-file up to 7 for the h-file.
    pub fn file(self) -> (f: u8)
        ensures
            f == self.spec_file(),
            f < 8,
    {
        proof {
            use_type_invariant(&self);
        }
        self.0 % 8
    }

    /// A square on the board is known by its index alone.
    pub proof fn lemma_index_determines(a: Square, b: Square)
        requires
            a.index() == b.index(),
        ensures
            a == b,
    {
    }

    /// The index of a square on the board lies in `0..64`.
    pub proof fn lemma_index_range(self)
        requires
            self.on_board(),
        ensures
            0 <= self.index() < 64,
    {
    }

    /// The square with an index in `0..64` lies on the board and has that
    /// index.
    pub proof fn lemma_spec_new(i: int)
        requires
            0 <= i < 64,
        ensures
            Square::spec_new(i).index() == i,
            Square::spec_new(i).on_board(),
    {
    }

    /// A square whose index lies in `0..64` is on the board.
    pub proof fn lemma_new_of_index_range(self)
        requires
            0 <= self.index() < 64,
        ensures
            self.on_board(),
    {
    }

    /// Taking a square apart into file and rank and putting it together again
    /// gives the same square.
    pub proof fn lemma_coords_round_trip(self)
        requires
            self.on_board(),
        ensures
            Square::spec_from_coords(self.spec_file(), self.spec_rank()) == self,
    {
    }
}

impl AddSpecImpl<u8> for Square {
    open spec fn obeys_add_spec() -> bool {
        true
    }

    /// The sum must stay on the board.
    open spec fn add_req(self, rhs: u8) -> bool {
        self.index() + rhs < 64
    }

    open spec fn add_spec(self, rhs: u8) -> Square {
        Square::spec_new(self.index() + rhs)
    }
}

impl Add<u8> for Square {
    type Output = Square;

    /// The square `rhs` indices further on.
    fn add(self, rhs: u8) -> (sq: Square)
        ensures
            sq.index() == self.index() + rhs,
            sq.on_board(),
    {
        Square(self.0 + rhs)
    }
}

impl SubSpecImpl<u8> for Square {
    open spec fn obeys_sub_spec() -> bool {
        true
    }

    /// The difference must stay on the board.
    open spec fn sub_req(self, rhs: u8) -> bool {
        self.index() - rhs >= 0
    }

    open spec fn sub_spec(self, rhs: u8) -> Square {
        Square::spec_new(self.index() - rhs)
    }
}

impl Sub<u8> for Square {
    type Output = Square;

    /// The square `rhs` indices back.
    fn sub(self, rhs: u8) -> (sq: Square)
        ensures
            sq.index() == self.index() - rhs,
            sq.on_board(),
    {
        proof {
            use_type_invariant(&self);
        }
        Square(self.0 - rhs)
    }
}

} // verus!
