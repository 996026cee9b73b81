//! The game state: which piece stands where, whose turn it is, and what is
//! needed to apply a move and take it back.

use vstd::prelude::*;
use crate::bitboard::Bitboard;
use crate::bits::{
    has_bit, lemma_bits_and, lemma_bits_ext, lemma_bits_or, lemma_bits_single, lemma_bits_xor,
    lemma_bits_zero, lemma_no_bits,
};
use crate::motion::{CastlingType, Move};
use crate::square::Square;

verus! {

/// The two sides.
#[derive(Clone, Copy, Debug, Eq, PartialEq, Structural)]
pub enum Color {
    White,
    Black,
}

impl Default for Color {
    /// White, the side that moves first.
    fn default() -> (c: Color)
        ensures
            c == Color::White,
    {
        Color::White
    }
}

impl Color {
    /// The other side.
    pub open spec fn spec_opponent(self) -> Color {
        match self {
            Color::White => Color::Black,
            Color::Black => Color::White,
        }
    }

    /// The other side.
    #[verifier::when_used_as_spec(spec_opponent)]
    pub fn opponent(self) -> (c: Color)
        ensures
            c == self.spec_opponent(),
    {
        match self {
            Color::White => Color::Black,
            Color::Black => Color::White,
        }
    }
}

/// The six kinds of piece.
#[derive(Clone, Copy, Debug, Eq, PartialEq, Structural)]
pub enum PieceKind {
    Pawn,
    Knight,
    Bishop,
    Rook,
    Queen,
    King,
}

/// A piece: its side and its kind.
#[derive(Clone, Copy, Debug, Eq, PartialEq, Structural)]
pub struct Piece {
    pub color: Color,
    pub kind: PieceKind,
}

impl Piece {
    /// The piece of a side and a kind.
    pub fn new(color: Color, kind: PieceKind) -> (p: Piece)
        ensures
            p == (Piece { color, kind }),
    {
        Piece { color: color, kind: kind }
    }
}

/// The pieces of one side, one board per kind, and the board of all of them.
#[derive(Clone, Copy, Debug, PartialEq, Eq)]
pub struct Army {
    pub pawns: Bitboard,
    pub knights: Bitboard,
    pub bishops: Bitboard,
    pub rooks: Bitboard,
    pub queens: Bitboard,
    pub king: Bitboard,
    pub all: Bitboard,
}

impl Default for Army {
    /// An army without pieces.
    fn default() -> (army: Army)
        ensures
            army == Army::none(),
            army.wf(),
            forall|i: int| army.kind_on(i) is None,
    {
        proof {
            lemma_bits_zero();
            assert(0u64 | 0 | 0 | 0 | 0 | 0 == 0) by (bit_vector);
        }
        Army {
            pawns: Bitboard(0),
            knights: Bitboard(0),
            bishops: Bitboard(0),
            rooks: Bitboard(0),
            queens: Bitboard(0),
            king: Bitboard(0),
            all: Bitboard(0),
        }
    }
}

impl Army {
    /// The army without pieces: seven empty boards.
    pub open spec fn none() -> Army {
        Army {
            pawns: Bitboard(0),
            knights: Bitboard(0),
            bishops: Bitboard(0),
            rooks: Bitboard(0),
            queens: Bitboard(0),
            king: Bitboard(0),
            all: Bitboard(0),
        }
    }

    /// The board of the pieces of one kind.
    pub open spec fn board(self, kind: PieceKind) -> Bitboard {
        match kind {
            PieceKind::Pawn => self.pawns,
            PieceKind::Knight => self.knights,
            PieceKind::Bishop => self.bishops,
            PieceKind::Rook => self.rooks,
            PieceKind::Queen => self.queens,
            PieceKind::King => self.king,
        }
    }

    /// This army with the board of one kind replaced.
    pub open spec fn with_board(self, kind: PieceKind, b: Bitboard) -> Army {
        match kind {
            PieceKind::Pawn => Army { pawns: b, ..self },
            PieceKind::Knight => Army { knights: b, ..self },
            PieceKind::Bishop => Army { bishops: b, ..self },
            PieceKind::Rook => Army { rooks: b, ..self },
            PieceKind::Queen => Army { queens: b, ..self },
            PieceKind::King => Army { king: b, ..self },
        }
    }

    /// The kind of the piece that this army has on square `i`, if it has one
    /// there.
    pub open spec fn kind_on(self, i: int) -> Option<PieceKind> {
        if has_bit(self.pawns.0, i) {
            Some(PieceKind::Pawn)
        } else if has_bit(self.knights.0, i) {
            Some(PieceKind::Knight)
        } else if has_bit(self.bishops.0, i) {
            Some(PieceKind::Bishop)
        } else if has_bit(self.rooks.0, i) {
            Some(PieceKind::Rook)
        } else if has_bit(self.queens.0, i) {
            Some(PieceKind::Queen)
        } else if has_bit(self.king.0, i) {
            Some(PieceKind::King)
        } else {
            None
        }
    }

    /// The union of the six boards.
    pub open spec fn union(self) -> u64 {
        self.pawns.0 | self.knights.0 | self.bishops.0 | self.rooks.0 | self.queens.0 | self.king.0
    }

    /// At most one of the six boards holds square `i`.
    pub open spec fn single_on(self, i: int) -> bool {
        &&& has_bit(self.knights.0, i) ==> self.kind_on(i) == Some(PieceKind::Knight)
        &&& has_bit(self.bishops.0, i) ==> self.kind_on(i) == Some(PieceKind::Bishop)
        &&& has_bit(self.rooks.0, i) ==> self.kind_on(i) == Some(PieceKind::Rook)
        &&& has_bit(self.queens.0, i) ==> self.kind_on(i) == Some(PieceKind::Queen)
        &&& has_bit(self.king.0, i) ==> self.kind_on(i) == Some(PieceKind::King)
    }

    /// No square holds two pieces.
    pub open spec fn disjoint(self) -> bool {
        forall|i: int|
            #![trigger has_bit(self.pawns.0, i)]
            #![trigger has_bit(self.knights.0, i)]
            #![trigger has_bit(self.bishops.0, i)]
            #![trigger has_bit(self.rooks.0, i)]
            #![trigger has_bit(self.queens.0, i)]
            #![trigger has_bit(self.king.0, i)]
            self.single_on(i)
    }

    /// The six boards are disjoint and `all` is their union.
    pub open spec fn wf(self) -> bool {
        &&& self.disjoint()
        &&& self.all.0 == self.union()
    }

    /// A square is in the union exactly when some piece stands on it.
    pub proof fn lemma_union_bits(self)
        ensures
            forall|i: int| #[trigger] has_bit(self.union(), i) == (self.kind_on(i) is Some),
    {
        let a = self.pawns.0 | self.knights.0;
        let b = a | self.bishops.0;
        let c = b | self.rooks.0;
        let d = c | self.queens.0;
        lemma_bits_or(self.pawns.0, self.knights.0);
        lemma_bits_or(a, self.bishops.0);
        lemma_bits_or(b, self.rooks.0);
        lemma_bits_or(c, self.queens.0);
        lemma_bits_or(d, self.king.0);
    }

    /// The board of the pieces of one kind, to be changed in place.  What
    /// is written to it is not checked against the other boards, and `all`
    /// stays as it is.
    pub fn get_bitboard_mut(&mut self, kind: PieceKind) -> (b: &mut Bitboard)
        ensures
            *b == old(self).board(kind),
            *final(self) == old(self).with_board(kind, *final(b)),
    {
        match kind {
            PieceKind::Pawn => &mut self.pawns,
            PieceKind::Knight => &mut self.knights,
            PieceKind::Bishop => &mut self.bishops,
            PieceKind::Rook => &mut self.rooks,
            PieceKind::Queen => &mut self.queens,
            PieceKind::King => &mut self.king,
        }
    }

    /// Recomputes `all` from the six boards.
    pub fn update_union(&mut self)
        ensures
            *final(self) == (Army { all: Bitboard(old(self).union()), ..*old(self) }),
            old(self).disjoint() ==> final(self).wf(),
    {
        self.all = self.pawns | self.knights | self.bishops | self.rooks | self.queens | self.king;
    }

    /// Takes the piece of the given kind off a square on which it stands.
    pub(crate) fn lift(&mut self, kind: PieceKind, square: Square)
        requires
            old(self).wf(),
            old(self).kind_on(square.index()) == Some(kind),
        ensures
            final(self).wf(),
            forall|i: int|
                #[trigger] final(self).kind_on(i) == if i == square.index() {
                    None
                } else {
                    old(self).kind_on(i)
                },
    {
        let bit = square.to_bitboard();
        proof {
            lemma_bits_single(square.index());
            lemma_bits_xor(self.board(kind).0, bit.0);
            lemma_bits_xor(self.all.0, bit.0);
            self.lemma_union_bits();
        }
        match kind {
            PieceKind::Pawn => {
                self.pawns = self.pawns ^ bit;
            },
            PieceKind::Knight => {
                self.knights = self.knights ^ bit;
            },
            PieceKind::Bishop => {
                self.bishops = self.bishops ^ bit;
            },
            PieceKind::Rook => {
                self.rooks = self.rooks ^ bit;
            },
            PieceKind::Queen => {
                self.queens = self.queens ^ bit;
            },
            PieceKind::King => {
                self.king = self.king ^ bit;
            },
        }
        self.all = self.all ^ bit;
        proof {
            self.lemma_union_bits();
            lemma_bits_ext(self.all.0, self.union());
        }
    }

    /// Puts a piece of the given kind on a square that is empty.
    pub(crate) fn put(&mut self, kind: PieceKind, square: Square)
        requires
            old(self).wf(),
            old(self).kind_on(square.index()) is None,
        ensures
            final(self).wf(),
            forall|i: int|
                #[trigger] final(self).kind_on(i) == if i == square.index() {
                    Some(kind)
                } else {
                    old(self).kind_on(i)
                },
    {
        let bit = square.to_bitboard();
        proof {
            lemma_bits_single(square.index());
            lemma_bits_or(self.board(kind).0, bit.0);
            lemma_bits_or(self.all.0, bit.0);
            self.lemma_union_bits();
        }
        match kind {
            PieceKind::Pawn => {
                self.pawns = self.pawns | bit;
            },
            PieceKind::Knight => {
                self.knights = self.knights | bit;
            },
            PieceKind::Bishop => {
                self.bishops = self.bishops | bit;
            },
            PieceKind::Rook => {
                self.rooks = self.rooks | bit;
            },
            PieceKind::Queen => {
                self.queens = self.queens | bit;
            },
            PieceKind::King => {
                self.king = self.king | bit;
            },
        }
        self.all = self.all | bit;
        proof {
            self.lemma_union_bits();
            lemma_bits_ext(self.all.0, self.union());
        }
    }
}

/// What is needed to take back one move: the clock and the en passant
/// target as they were, the kind of the piece that was captured, and the
/// castling rights of the mover that the move took away.
#[derive(Clone, Copy, Debug, PartialEq, Eq)]
pub struct UndoContext {
    pub halfmove_clock: u64,
    pub captured: Option<PieceKind>,
    pub en_passant: Option<Square>,
    pub reset_oo: bool,
    pub reset_ooo: bool,
}

/// The game state: an army for each side, the board of all pieces, and what
/// the boards do not show.
#[derive(Clone, Debug, PartialEq, Eq)]
pub struct Position {
    pub white: Army,
    pub black: Army,
    pub all: Bitboard,
    pub side_to_play: Color,
    pub white_can_oo: bool,
    pub white_can_ooo: bool,
    pub black_can_oo: bool,
    pub black_can_ooo: bool,
    pub en_passant: Option<Square>,
    pub halfmove_clock: u64,
    pub fullmove_number: u64,
}

/// A position as the rules of the game see it: the board square by square,
/// and the state that the board does not show.
pub struct PositionView {
    pub board: Seq<Option<Piece>>,
    pub side_to_play: Color,
    pub white_can_oo: bool,
    pub white_can_ooo: bool,
    pub black_can_oo: bool,
    pub black_can_ooo: bool,
    pub en_passant: Option<Square>,
    pub halfmove_clock: u64,
    pub fullmove_number: u64,
}

/// The corner on which the rook of a side stands before it castles to a wing.
pub open spec fn rook_home(side: Color, wing: CastlingType) -> int {
    match (side, wing) {
        (Color::White, CastlingType::Kingside) => 7,
        (Color::White, CastlingType::Queenside) => 0,
        (Color::Black, CastlingType::Kingside) => 63,
        (Color::Black, CastlingType::Queenside) => 56,
    }
}

/// The square on which the rook of a side stands after castling to a wing.
pub open spec fn rook_dest(side: Color, wing: CastlingType) -> int {
    match (side, wing) {
        (Color::White, CastlingType::Kingside) => 5,
        (Color::White, CastlingType::Queenside) => 3,
        (Color::Black, CastlingType::Kingside) => 61,
        (Color::Black, CastlingType::Queenside) => 59,
    }
}

/// The rank from which the pawns of a side start.
pub open spec fn pawn_home_rank(side: Color) -> int {
    match side {
        Color::White => 1,
        Color::Black => 6,
    }
}

/// The rank that a pawn of a side reaches with a double step.
pub open spec fn pawn_jump_rank(side: Color) -> int {
    match side {
        Color::White => 3,
        Color::Black => 4,
    }
}

impl PositionView {
    /// The board has 64 squares and the en passant target lies on it.
    pub open spec fn wf(self) -> bool {
        &&& self.board.len() == 64
        &&& self.en_passant matches Some(s) ==> s.on_board()
    }

    /// Whether a side still has the right to castle to a wing.
    pub open spec fn can_castle(self, side: Color, wing: CastlingType) -> bool {
        match (side, wing) {
            (Color::White, CastlingType::Kingside) => self.white_can_oo,
            (Color::White, CastlingType::Queenside) => self.white_can_ooo,
            (Color::Black, CastlingType::Kingside) => self.black_can_oo,
            (Color::Black, CastlingType::Queenside) => self.black_can_ooo,
        }
    }

    /// Whether the move takes a pawn of the side to play from its home rank
    /// two ranks ahead.
    pub open spec fn is_double_push(self, m: Move) -> bool {
        &&& self.board[m.from.index()] matches Some(p)
        &&& p.kind == PieceKind::Pawn
        &&& m.from.spec_rank() == pawn_home_rank(self.side_to_play)
        &&& m.to.spec_rank() == pawn_jump_rank(self.side_to_play)
    }

    /// The square that a pawn of the side to play passes over when it leaves
    /// `m.from` with a double step.
    pub open spec fn passed_square(self, m: Move) -> Square {
        match self.side_to_play {
            Color::White => Square::spec_new(m.from.index() + 8),
            Color::Black => Square::spec_new(m.from.index() - 8),
        }
    }

    /// Whether the rook of the side to play can make its part of castling to
    /// a wing: it stands on its corner, and the square it goes to is empty
    /// and is not the one the king goes to.
    pub open spec fn rook_can_castle(self, m: Move, wing: CastlingType) -> bool {
        let side = self.side_to_play;
        &&& self.board[rook_home(side, wing)] == Some(Piece { color: side, kind: PieceKind::Rook })
        &&& self.board[rook_dest(side, wing)] is None
        &&& rook_dest(side, wing) != m.to.index()
    }

    /// Whether the move can be made in this position: a piece of the side to
    /// play stands on `from`, `to` is another square and holds none of its
    /// own pieces, only a pawn promotes, only a king castles and its rook is
    /// ready, and the counters have room.
    pub open spec fn applicable(self, m: Move) -> bool {
        let from = m.from.index();
        let to = m.to.index();
        &&& m.from.on_board()
        &&& m.to.on_board()
        &&& from != to
        &&& self.board[from] matches Some(p)
        &&& p.color == self.side_to_play
        &&& (self.board[to] matches Some(q) ==> q.color != self.side_to_play)
        &&& (m.promote_to is Some ==> p.kind == PieceKind::Pawn)
        &&& (m.castling matches Some(wing) ==> p.kind == PieceKind::King && self.rook_can_castle(
            m,
            wing,
        ))
        &&& (p.kind != PieceKind::Pawn && self.board[to] is None ==> self.halfmove_clock
            < u64::MAX)
        &&& (self.side_to_play == Color::Black ==> self.fullmove_number < u64::MAX)
    }

    /// The piece that stands on `m.to` once the move is made.
    pub open spec fn placed(self, m: Move) -> Piece {
        Piece {
            color: self.side_to_play,
            kind: match m.promote_to {
                Some(kind) => kind,
                None => self.board[m.from.index()]->0.kind,
            },
        }
    }

    /// The board once the move is made: `from` is empty, `to` holds the mover
    /// or what it promotes to, and a castling rook has gone from its corner
    /// to the other side of the king.
    pub open spec fn board_after(self, m: Move) -> Seq<Option<Piece>> {
        let side = self.side_to_play;
        let moved = self.board.update(m.from.index(), None).update(
            m.to.index(),
            Some(self.placed(m)),
        );
        match m.castling {
            Some(wing) => moved.update(rook_home(side, wing), None).update(
                rook_dest(side, wing),
                Some(Piece { color: side, kind: PieceKind::Rook }),
            ),
            None => moved,
        }
    }

    /// Whether the move takes from the side to play its right to castle to a
    /// wing, held or not: any move of the king does, and the move of a rook
    /// from the corner of that wing.
    pub open spec fn forfeits(self, m: Move, wing: CastlingType) -> bool {
        let p = self.board[m.from.index()]->0;
        ||| p.kind == PieceKind::King
        ||| p.kind == PieceKind::Rook && m.from.index() == rook_home(self.side_to_play, wing)
    }

    /// Whether a side has the right to castle to a wing once the move is
    /// made.
    pub open spec fn can_castle_after(self, m: Move, side: Color, wing: CastlingType) -> bool {
        self.can_castle(side, wing) && !(side == self.side_to_play && self.forfeits(m, wing))
    }

    /// The position once the move is made.
    pub open spec fn after(self, m: Move) -> PositionView {
        let p = self.board[m.from.index()]->0;
        PositionView {
            board: self.board_after(m),
            side_to_play: self.side_to_play.spec_opponent(),
            white_can_oo: self.can_castle_after(m, Color::White, CastlingType::Kingside),
            white_can_ooo: self.can_castle_after(m, Color::White, CastlingType::Queenside),
            black_can_oo: self.can_castle_after(m, Color::Black, CastlingType::Kingside),
            black_can_ooo: self.can_castle_after(m, Color::Black, CastlingType::Queenside),
            en_passant: if self.is_double_push(m) {
                Some(self.passed_square(m))
            } else {
                None
            },
            halfmove_clock: if p.kind == PieceKind::Pawn || self.board[m.to.index()] is Some {
                0
            } else {
                (self.halfmove_clock + 1) as u64
            },
            fullmove_number: if self.side_to_play == Color::Black {
                (self.fullmove_number + 1) as u64
            } else {
                self.fullmove_number
            },
        }
    }

    /// What making the move records for taking it back.
    pub open spec fn undo_context(self, m: Move) -> UndoContext {
        let side = self.side_to_play;
        UndoContext {
            halfmove_clock: self.halfmove_clock,
            captured: match self.board[m.to.index()] {
                Some(q) => Some(q.kind),
                None => None,
            },
            en_passant: self.en_passant,
            reset_oo: self.can_castle(side, CastlingType::Kingside) && self.forfeits(
                m,
                CastlingType::Kingside,
            ),
            reset_ooo: self.can_castle(side, CastlingType::Queenside) && self.forfeits(
                m,
                CastlingType::Queenside,
            ),
        }
    }

    /// Whether the move can be taken back from this position with the given
    /// record: the side that is not to play has on `to` the piece that moved
    /// (of the kind it promoted to, if it did), `from` is empty, a castling
    /// rook stands where castling put it with its corner free, and the move
    /// number can go down.
    pub open spec fn undoable(self, m: Move, undo: UndoContext) -> bool {
        let side = self.side_to_play.spec_opponent();
        let from = m.from.index();
        let to = m.to.index();
        &&& m.from.on_board()
        &&& m.to.on_board()
        &&& from != to
        &&& self.board[to] matches Some(p)
        &&& p.color == side
        &&& (m.promote_to matches Some(kind) ==> p.kind == kind)
        &&& self.board[from] is None
        &&& (m.castling matches Some(wing) ==> {
            &&& self.board[rook_dest(side, wing)] == Some(
                Piece { color: side, kind: PieceKind::Rook },
            )
            &&& self.board[rook_home(side, wing)] is None
            &&& rook_home(side, wing) != from
            &&& rook_dest(side, wing) != to
        })
        &&& (undo.en_passant matches Some(s) ==> s.on_board())
        &&& (side == Color::Black ==> self.fullmove_number > 0)
    }

    /// Whether a side has the right to castle to a wing once the move is
    /// taken back.
    pub open spec fn can_castle_before(self, undo: UndoContext, side: Color, wing: CastlingType)
        -> bool {
        self.can_castle(side, wing) || (side == self.side_to_play.spec_opponent() && match wing {
            CastlingType::Kingside => undo.reset_oo,
            CastlingType::Queenside => undo.reset_ooo,
        })
    }

    /// The board once the move is taken back: the mover (a pawn, if it
    /// promoted) is on `from` again, `to` holds what was captured, and a
    /// castling rook is back on its corner.
    pub open spec fn board_before(self, m: Move, undo: UndoContext) -> Seq<Option<Piece>> {
        let side = self.side_to_play.spec_opponent();
        let origin = Piece {
            color: side,
            kind: if m.promote_to is Some {
                PieceKind::Pawn
            } else {
                self.board[m.to.index()]->0.kind
            },
        };
        let back = self.board.update(
            m.to.index(),
            match undo.captured {
                Some(kind) => Some(Piece { color: self.side_to_play, kind }),
                None => None,
            },
        ).update(m.from.index(), Some(origin));
        match m.castling {
            Some(wing) => back.update(rook_dest(side, wing), None).update(
                rook_home(side, wing),
                Some(Piece { color: side, kind: PieceKind::Rook }),
            ),
            None => back,
        }
    }

    /// The position once the move is taken back.
    pub open spec fn before(self, m: Move, undo: UndoContext) -> PositionView {
        let side = self.side_to_play.spec_opponent();
        PositionView {
            board: self.board_before(m, undo),
            side_to_play: side,
            white_can_oo: self.can_castle_before(undo, Color::White, CastlingType::Kingside),
            white_can_ooo: self.can_castle_before(undo, Color::White, CastlingType::Queenside),
            black_can_oo: self.can_castle_before(undo, Color::Black, CastlingType::Kingside),
            black_can_ooo: self.can_castle_before(undo, Color::Black, CastlingType::Queenside),
            en_passant: undo.en_passant,
            halfmove_clock: undo.halfmove_clock,
            fullmove_number: if side == Color::Black {
                (self.fullmove_number - 1) as u64
            } else {
                self.fullmove_number
            },
        }
    }
}

impl Default for Position {
    /// The empty board with White to play, no castling rights, no en passant
    /// target and both counters at zero.
    fn default() -> (p: Position)
        ensures
            p == Position::blank(),
            p.wf(),
            forall|i: int| p.piece_on(i) is None,
    {
        proof {
            lemma_bits_zero();
            assert(0u64 | 0 == 0) by (bit_vector);
        }
        Position {
            white: Army::default(),
            black: Army::default(),
            all: Bitboard(0),
            side_to_play: Color::White,
            white_can_oo: false,
            white_can_ooo: false,
            black_can_oo: false,
            black_can_ooo: false,
            en_passant: None,
            halfmove_clock: 0,
            fullmove_number: 0,
        }
    }
}

impl View for Position {
    type V = PositionView;

    open spec fn view(&self) -> PositionView {
        PositionView {
            board: Seq::new(64, |i: int| self.piece_on(i)),
            side_to_play: self.side_to_play,
            white_can_oo: self.white_can_oo,
            white_can_ooo: self.white_can_ooo,
            black_can_oo: self.black_can_oo,
            black_can_ooo: self.black_can_ooo,
            en_passant: self.en_passant,
            halfmove_clock: self.halfmove_clock,
            fullmove_number: self.fullmove_number,
        }
    }
}

impl Position {
    /// The empty board with White to play, no castling rights, no en passant
    /// target and both counters at zero.
    pub open spec fn blank() -> Position {
        Position {
            white: Army::none(),
            black: Army::none(),
            all: Bitboard(0),
            side_to_play: Color::White,
            white_can_oo: false,
            white_can_ooo: false,
            black_can_oo: false,
            black_can_ooo: false,
            en_passant: None,
            halfmove_clock: 0,
            fullmove_number: 0,
        }
    }

    /// The army of one side.
    pub open spec fn army(self, color: Color) -> Army {
        match color {
            Color::White => self.white,
            Color::Black => self.black,
        }
    }

    /// This position with the army of one side replaced.
    pub open spec fn with_army(self, color: Color, army: Army) -> Position {
        match color {
            Color::White => Position { white: army, ..self },
            Color::Black => Position { black: army, ..self },
        }
    }

    /// The piece on square `i`, if there is one.
    pub open spec fn piece_on(self, i: int) -> Option<Piece> {
        match self.white.kind_on(i) {
            Some(kind) => Some(Piece { color: Color::White, kind }),
            None => match self.black.kind_on(i) {
                Some(kind) => Some(Piece { color: Color::Black, kind }),
                None => None,
            },
        }
    }

    /// No square holds a piece of each side.
    pub open spec fn armies_apart(self) -> bool {
        forall|i: int|
            #![trigger self.white.kind_on(i)]
            #![trigger self.black.kind_on(i)]
            !(self.white.kind_on(i) is Some && self.black.kind_on(i) is Some)
    }

    /// Every occupied square belongs to one board of one army, the union
    /// boards are the unions of their parts, and the en passant target lies
    /// on the board.
    pub open spec fn wf(self) -> bool {
        &&& self.white.wf()
        &&& self.black.wf()
        &&& self.armies_apart()
        &&& self.all.0 == self.white.all.0 | self.black.all.0
        &&& self.en_passant matches Some(s) ==> s.on_board()
    }

    /// Whether the state that the board does not show is the same in both.
    pub open spec fn same_state(self, other: Position) -> bool {
        &&& self.side_to_play == other.side_to_play
        &&& self.white_can_oo == other.white_can_oo
        &&& self.white_can_ooo == other.white_can_ooo
        &&& self.black_can_oo == other.black_can_oo
        &&& self.black_can_ooo == other.black_can_ooo
        &&& self.en_passant == other.en_passant
        &&& self.halfmove_clock == other.halfmove_clock
        &&& self.fullmove_number == other.fullmove_number
    }

    /// The piece on a square, if there is one.
    pub fn piece_at(&self, square: Square) -> (r: Option<Piece>)
        ensures
            r == self.piece_on(square.index()),
            r == self@.board[square.index()],
    {
        proof {
            use_type_invariant(&square);
            square.lemma_index_range();
        }
        if self.white.pawns.is_occupied(square) {
            Some(Piece::new(Color::White, PieceKind::Pawn))
        } else if self.white.knights.is_occupied(square) {
            Some(Piece::new(Color::White, PieceKind::Knight))
        } else if self.white.bishops.is_occupied(square) {
            Some(Piece::new(Color::White, PieceKind::Bishop))
        } else if self.white.rooks.is_occupied(square) {
            Some(Piece::new(Color::White, PieceKind::Rook))
        } else if self.white.queens.is_occupied(square) {
            Some(Piece::new(Color::White, PieceKind::Queen))
        } else if self.white.king.is_occupied(square) {
            Some(Piece::new(Color::White, PieceKind::King))
        } else if self.black.pawns.is_occupied(square) {
            Some(Piece::new(Color::Black, PieceKind::Pawn))
        } else if self.black.knights.is_occupied(square) {
            Some(Piece::new(Color::Black, PieceKind::Knight))
        } else if self.black.bishops.is_occupied(square) {
            Some(Piece::new(Color::Black, PieceKind::Bishop))
        } else if self.black.rooks.is_occupied(square) {
            Some(Piece::new(Color::Black, PieceKind::Rook))
        } else if self.black.queens.is_occupied(square) {
            Some(Piece::new(Color::Black, PieceKind::Queen))
        } else if self.black.king.is_occupied(square) {
            Some(Piece::new(Color::Black, PieceKind::King))
        } else {
            None
        }
    }

    /// The army of one side, to be changed in place.  What is written to it
    /// is not checked against the rest of the position.
    pub fn get_army_mut(&mut self, color: Color) -> (army: &mut Army)
        ensures
            *army == old(self).army(color),
            *final(self) == old(self).with_army(color, *final(army)),
    {
        match color {
            Color::White => &mut self.white,
            Color::Black => &mut self.black,
        }
    }

    /// The board of the pieces of one side and kind, to be changed in place.
    /// What is written to it is not checked against the rest of the
    /// position.
    pub fn get_bitboard_mut(&mut self, piece: Piece) -> (b: &mut Bitboard)
        ensures
            *b == old(self).army(piece.color).board(piece.kind),
            *final(self) == old(self).with_army(
                piece.color,
                old(self).army(piece.color).with_board(piece.kind, *final(b)),
            ),
    {
        self.get_army_mut(piece.color).get_bitboard_mut(piece.kind)
    }

    /// Recomputes the three union boards from the twelve piece boards.
    pub fn update_special_bitboards(&mut self)
        ensures
            final(self).white == (Army { all: Bitboard(old(self).white.union()), ..old(self).white }),
            final(self).black == (Army { all: Bitboard(old(self).black.union()), ..old(self).black }),
            final(self).all.0 == old(self).white.union() | old(self).black.union(),
            final(self).same_state(*old(self)),
            forall|i: int| final(self).piece_on(i) == old(self).piece_on(i),
    {
        self.white.update_union();
        self.black.update_union();
        self.all = self.white.all | self.black.all;
    }
}

/// The corner on which the rook of a side stands before it castles to a wing.
pub fn rook_home_square(side: Color, wing: CastlingType) -> (sq: Square)
    ensures
        sq.index() == rook_home(side, wing),
{
    match (side, wing) {
        (Color::White, CastlingType::Kingside) => Square::new(7),
        (Color::White, CastlingType::Queenside) => Square::new(0),
        (Color::Black, CastlingType::Kingside) => Square::new(63),
        (Color::Black, CastlingType::Queenside) => Square::new(56),
    }
}

/// The square on which the rook of a side stands after castling to a wing.
pub fn rook_dest_square(side: Color, wing: CastlingType) -> (sq: Square)
    ensures
        sq.index() == rook_dest(side, wing),
{
    match (side, wing) {
        (Color::White, CastlingType::Kingside) => Square::new(5),
        (Color::White, CastlingType::Queenside) => Square::new(3),
        (Color::Black, CastlingType::Kingside) => Square::new(61),
        (Color::Black, CastlingType::Queenside) => Square::new(59),
    }
}

impl Position {
    /// Takes a piece off the square on which it stands.
    pub(crate) fn lift(&mut self, piece: Piece, square: Square)
        requires
            old(self).wf(),
            old(self).piece_on(square.index()) == Some(piece),
        ensures
            final(self).wf(),
            final(self).same_state(*old(self)),
            forall|i: int|
                #[trigger] final(self).piece_on(i) == if i == square.index() {
                    None
                } else {
                    old(self).piece_on(i)
                },
    {
        let bit = square.to_bitboard();
        proof {
            lemma_bits_single(square.index());
            lemma_bits_xor(self.all.0, bit.0);
            lemma_bits_or(self.white.all.0, self.black.all.0);
            self.white.lemma_union_bits();
            self.black.lemma_union_bits();
        }
        match piece.color {
            Color::White => {
                self.white.lift(piece.kind, square);
            },
            Color::Black => {
                self.black.lift(piece.kind, square);
            },
        }
        self.all = self.all ^ bit;
        proof {
            self.white.lemma_union_bits();
            self.black.lemma_union_bits();
            lemma_bits_or(self.white.all.0, self.black.all.0);
            lemma_bits_ext(self.all.0, self.white.all.0 | self.black.all.0);
        }
    }

    /// Puts a piece on a square that is empty.
    pub(crate) fn put(&mut self, piece: Piece, square: Square)
        requires
            old(self).wf(),
            old(self).piece_on(square.index()) is None,
        ensures
            final(self).wf(),
            final(self).same_state(*old(self)),
            forall|i: int|
                #[trigger] final(self).piece_on(i) == if i == square.index() {
                    Some(piece)
                } else {
                    old(self).piece_on(i)
                },
    {
        let bit = square.to_bitboard();
        proof {
            lemma_bits_single(square.index());
            lemma_bits_or(self.all.0, bit.0);
            lemma_bits_or(self.white.all.0, self.black.all.0);
            self.white.lemma_union_bits();
            self.black.lemma_union_bits();
        }
        match piece.color {
            Color::White => {
                self.white.put(piece.kind, square);
            },
            Color::Black => {
                self.black.put(piece.kind, square);
            },
        }
        self.all = self.all | bit;
        proof {
            self.white.lemma_union_bits();
            self.black.lemma_union_bits();
            lemma_bits_or(self.white.all.0, self.black.all.0);
            lemma_bits_ext(self.all.0, self.white.all.0 | self.black.all.0);
        }
    }

    /// Takes from a side its right to castle to a wing and says whether it
    /// held the right.
    fn revoke(&mut self, side: Color, wing: CastlingType) -> (held: bool)
        ensures
            held == old(self)@.can_castle(side, wing),
            final(self).white_can_oo == (old(self).white_can_oo && !(side == Color::White && wing
                == CastlingType::Kingside)),
            final(self).white_can_ooo == (old(self).white_can_ooo && !(side == Color::White && wing
                == CastlingType::Queenside)),
            final(self).black_can_oo == (old(self).black_can_oo && !(side == Color::Black && wing
                == CastlingType::Kingside)),
            final(self).black_can_ooo == (old(self).black_can_ooo && !(side == Color::Black && wing
                == CastlingType::Queenside)),
            final(self).white == old(self).white,
            final(self).black == old(self).black,
            final(self).all == old(self).all,
            final(self).side_to_play == old(self).side_to_play,
            final(self).en_passant == old(self).en_passant,
            final(self).halfmove_clock == old(self).halfmove_clock,
            final(self).fullmove_number == old(self).fullmove_number,
    {
        match (side, wing) {
            (Color::White, CastlingType::Kingside) => {
                let held = self.white_can_oo;
                self.white_can_oo = false;
                held
            },
            (Color::White, CastlingType::Queenside) => {
                let held = self.white_can_ooo;
                self.white_can_ooo = false;
                held
            },
            (Color::Black, CastlingType::Kingside) => {
                let held = self.black_can_oo;
                self.black_can_oo = false;
                held
            },
            (Color::Black, CastlingType::Queenside) => {
                let held = self.black_can_ooo;
                self.black_can_ooo = false;
                held
            },
        }
    }

    /// Gives a side the right to castle to a wing.
    fn grant(&mut self, side: Color, wing: CastlingType)
        ensures
            final(self).white_can_oo == (old(self).white_can_oo || (side == Color::White && wing
                == CastlingType::Kingside)),
            final(self).white_can_ooo == (old(self).white_can_ooo || (side == Color::White && wing
                == CastlingType::Queenside)),
            final(self).black_can_oo == (old(self).black_can_oo || (side == Color::Black && wing
                == CastlingType::Kingside)),
            final(self).black_can_ooo == (old(self).black_can_ooo || (side == Color::Black && wing
                == CastlingType::Queenside)),
            final(self).white == old(self).white,
            final(self).black == old(self).black,
            final(self).all == old(self).all,
            final(self).side_to_play == old(self).side_to_play,
            final(self).en_passant == old(self).en_passant,
            final(self).halfmove_clock == old(self).halfmove_clock,
            final(self).fullmove_number == old(self).fullmove_number,
    {
        match (side, wing) {
            (Color::White, CastlingType::Kingside) => {
                self.white_can_oo = true;
            },
            (Color::White, CastlingType::Queenside) => {
                self.white_can_ooo = true;
            },
            (Color::Black, CastlingType::Kingside) => {
                self.black_can_oo = true;
            },
            (Color::Black, CastlingType::Queenside) => {
                self.black_can_ooo = true;
            },
        }
    }

    /// The board part of making a move: the mover leaves, what it captures
    /// leaves, the mover (or what it promotes to) arrives, and a castling
    /// king takes its rook along.
    fn move_pieces(&mut self, motion: Move, mover: Piece, captured: Option<Piece>)
        requires
            old(self).wf(),
            old(self)@.applicable(motion),
            Some(mover) == old(self)@.board[motion.from.index()],
            captured == old(self)@.board[motion.to.index()],
        ensures
            final(self).wf(),
            final(self).same_state(*old(self)),
            final(self)@.board == old(self)@.board_after(motion),
    {
        proof {
            motion.from.lemma_index_range();
            motion.to.lemma_index_range();
        }
        let side = self.side_to_play;
        self.lift(mover, motion.from);
        match captured {
            Some(taken) => {
                self.lift(taken, motion.to);
            },
            None => {},
        }
        let placed = match motion.promote_to {
            Some(kind) => Piece::new(side, kind),
            None => mover,
        };
        self.put(placed, motion.to);
        match motion.castling {
            Some(wing) => {
                let rook = Piece::new(side, PieceKind::Rook);
                self.lift(rook, rook_home_square(side, wing));
                self.put(rook, rook_dest_square(side, wing));
            },
            None => {},
        }
        proof {
            assert(self@.board =~= old(self)@.board_after(motion));
        }
    }

    /// Makes a move and returns what is needed to take it back.
    pub fn make_move(&mut self, motion: Move) -> (undo: UndoContext)
        requires
            old(self).wf(),
            old(self)@.applicable(motion),
        ensures
            final(self).wf(),
            final(self)@ == old(self)@.after(motion),
            undo == old(self)@.undo_context(motion),
    {
        proof {
            motion.from.lemma_index_range();
            motion.to.lemma_index_range();
        }
        let side = self.side_to_play;
        let mover = self.piece_at(motion.from).unwrap();
        let captured = self.piece_at(motion.to);

        let mut undo = UndoContext {
            halfmove_clock: self.halfmove_clock,
            captured: match captured {
                Some(taken) => Some(taken.kind),
                None => None,
            },
            en_passant: self.en_passant,
            reset_oo: false,
            reset_ooo: false,
        };

        self.move_pieces(motion, mover, captured);
        let ghost moved = *self;

        // a pawn move or a capture starts the clock again
        let restarts = match mover.kind {
            PieceKind::Pawn => true,
            _ => captured.is_some(),
        };
        if restarts {
            self.halfmove_clock = 0;
        } else {
            self.halfmove_clock = self.halfmove_clock + 1;
        }

        // the move number goes up when Black has moved
        match side {
            Color::Black => {
                self.fullmove_number = self.fullmove_number + 1;
            },
            Color::White => {},
        }

        self.en_passant = None;
        match mover.kind {
            PieceKind::Pawn => {
                // a double step leaves the square behind the pawn open to
                // en passant
                let (home, jump): (u8, u8) = match side {
                    Color::White => (1, 3),
                    Color::Black => (6, 4),
                };
                if motion.from.rank() == home && motion.to.rank() == jump {
                    self.en_passant = Some(
                        match side {
                            Color::White => motion.from + 8,
                            Color::Black => motion.from - 8,
                        },
                    );
                }
            },
            PieceKind::Rook => {
                // a rook that leaves its corner gives up castling there
                let from = motion.from.to_index();
                if from == rook_home_square(side, CastlingType::Kingside).to_index() {
                    undo.reset_oo = self.revoke(side, CastlingType::Kingside);
                }
                if from == rook_home_square(side, CastlingType::Queenside).to_index() {
                    undo.reset_ooo = self.revoke(side, CastlingType::Queenside);
                }
            },
            PieceKind::King => {
                undo.reset_oo = self.revoke(side, CastlingType::Kingside);
                undo.reset_ooo = self.revoke(side, CastlingType::Queenside);
            },
            _ => {},
        }

        self.side_to_play = side.opponent();

        proof {
            assert forall|i: int| #[trigger] self.piece_on(i) == moved.piece_on(i) by {}
            assert(self@.board =~= moved@.board);
        }
        undo
    }

    /// The board part of taking a move back: the mover goes back (as a pawn,
    /// if it promoted), what it captured returns, and a castling rook goes
    /// back to its corner.
    fn move_pieces_back(&mut self, motion: Move, undo: UndoContext)
        requires
            old(self).wf(),
            old(self)@.undoable(motion, undo),
        ensures
            final(self).wf(),
            final(self).same_state(*old(self)),
            final(self)@.board == old(self)@.board_before(motion, undo),
    {
        proof {
            motion.from.lemma_index_range();
            motion.to.lemma_index_range();
        }
        let side = self.side_to_play.opponent();
        let moved = self.piece_at(motion.to).unwrap();
        self.lift(moved, motion.to);
        let origin = match motion.promote_to {
            Some(_) => Piece::new(side, PieceKind::Pawn),
            None => moved,
        };
        self.put(origin, motion.from);
        match undo.captured {
            Some(kind) => {
                self.put(Piece::new(side.opponent(), kind), motion.to);
            },
            None => {},
        }
        match motion.castling {
            Some(wing) => {
                let rook = Piece::new(side, PieceKind::Rook);
                self.lift(rook, rook_dest_square(side, wing));
                self.put(rook, rook_home_square(side, wing));
            },
            None => {},
        }
        proof {
            assert(self@.board =~= old(self)@.board_before(motion, undo));
        }
    }

    /// Takes back the move that was made last, with the record that making
    /// it returned.
    pub fn undo_move(&mut self, motion: Move, undo: UndoContext)
        requires
            old(self).wf(),
            old(self)@.undoable(motion, undo),
        ensures
            final(self).wf(),
            final(self)@ == old(self)@.before(motion, undo),
    {
        let side = self.side_to_play.opponent();
        self.move_pieces_back(motion, undo);
        let ghost restored = *self;

        if undo.reset_oo {
            self.grant(side, CastlingType::Kingside);
        }
        if undo.reset_ooo {
            self.grant(side, CastlingType::Queenside);
        }

        self.halfmove_clock = undo.halfmove_clock;
        self.en_passant = undo.en_passant;
        match side {
            Color::Black => {
                self.fullmove_number = self.fullmove_number - 1;
            },
            Color::White => {},
        }
        self.side_to_play = side;

        proof {
            assert forall|i: int| #[trigger] self.piece_on(i) == restored.piece_on(i) by {}
            assert(self@.board =~= restored@.board);
        }
    }
}

impl Army {
    /// Two well-formed armies with the same piece on every square are equal.
    pub proof fn lemma_kinds_determine(self, other: Army)
        requires
            self.wf(),
            other.wf(),
            forall|i: int| 0 <= i < 64 ==> self.kind_on(i) == other.kind_on(i),
        ensures
            self == other,
    {
        assert forall|i: int| 0 <= i < 64 implies {
            &&& has_bit(self.pawns.0, i) == has_bit(other.pawns.0, i)
            &&& has_bit(self.knights.0, i) == has_bit(other.knights.0, i)
            &&& has_bit(self.bishops.0, i) == has_bit(other.bishops.0, i)
            &&& has_bit(self.rooks.0, i) == has_bit(other.rooks.0, i)
            &&& has_bit(self.queens.0, i) == has_bit(other.queens.0, i)
            &&& has_bit(self.king.0, i) == has_bit(other.king.0, i)
        } by {
            assert(self.kind_on(i) == other.kind_on(i));
            assert(self.single_on(i));
            assert(other.single_on(i));
        }
        lemma_bits_ext(self.pawns.0, other.pawns.0);
        lemma_bits_ext(self.knights.0, other.knights.0);
        lemma_bits_ext(self.bishops.0, other.bishops.0);
        lemma_bits_ext(self.rooks.0, other.rooks.0);
        lemma_bits_ext(self.queens.0, other.queens.0);
        lemma_bits_ext(self.king.0, other.king.0);
    }
}

impl Position {
    /// A well-formed position is known by its view: two of them that show
    /// the same board and state are equal bit for bit.
    pub proof fn lemma_view_determines(self, other: Position)
        requires
            self.wf(),
            other.wf(),
            self@ == other@,
        ensures
            self == other,
    {
        assert forall|i: int| 0 <= i < 64 implies self.white.kind_on(i) == other.white.kind_on(i)
            && self.black.kind_on(i) == other.black.kind_on(i) by {
            assert(self@.board[i] == other@.board[i]);
            assert(self.piece_on(i) == other.piece_on(i));
        }
        self.white.lemma_kinds_determine(other.white);
        self.black.lemma_kinds_determine(other.black);
    }

    /// Making a move and taking it back at once restores the position bit
    /// for bit: if `made` is what `make_move` leaves of `self` and `undo`
    /// what it returns, and `restored` is what `undo_move` leaves of `made`,
    /// then `restored` is `self`.
    pub proof fn lemma_make_undo_restores(
        self,
        motion: Move,
        made: Position,
        undo: UndoContext,
        restored: Position,
    )
        requires
            self.wf(),
            self@.applicable(motion),
            made.wf(),
            made@ == self@.after(motion),
            undo == self@.undo_context(motion),
            restored.wf(),
            restored@ == made@.before(motion, undo),
        ensures
            made@.undoable(motion, undo),
            restored == self,
    {
        self@.lemma_undo_after_make(motion);
        restored.lemma_view_determines(self);
    }
}

impl PositionView {
    /// A move that was just made can be taken back, and taking it back gives
    /// the position from which it was made: board, side to play, castling
    /// rights, en passant target and both counters.
    pub proof fn lemma_undo_after_make(self, m: Move)
        requires
            self.wf(),
            self.applicable(m),
        ensures
            self.after(m).wf(),
            self.after(m).undoable(m, self.undo_context(m)),
            self.after(m).before(m, self.undo_context(m)) == self,
    {
        m.from.lemma_index_range();
        m.to.lemma_index_range();
        let undo = self.undo_context(m);
        let made = self.after(m);
        if self.is_double_push(m) {
            match self.side_to_play {
                Color::White => Square::lemma_spec_new(m.from.index() + 8),
                Color::Black => Square::lemma_spec_new(m.from.index() - 8),
            }
        }
        assert(made.undoable(m, undo));
        assert(made.board_before(m, undo) =~= self.board);
    }
}

impl Position {
    /// In a well-formed position the boards say what the view says: a board
    /// of a kind holds the squares with a piece of that kind and colour, the
    /// board of an army the squares with a piece of its colour, and the board
    /// of all the occupied squares.
    pub proof fn lemma_boards_show_view(self)
        requires
            self.wf(),
        ensures
            forall|c: Color, k: PieceKind, i: int|
                #![trigger self.army(c).board(k)@.contains(i)]
                self.army(c).board(k)@.contains(i) <==> self.piece_on(i) == Some(
                    Piece { color: c, kind: k },
                ),
            forall|c: Color, i: int|
                #![trigger self.army(c).all@.contains(i)]
                self.army(c).all@.contains(i) <==> (self.piece_on(i) matches Some(p) && p.color
                    == c),
            forall|i: int| #[trigger] self.all@.contains(i) <==> self.piece_on(i) is Some,
            forall|i: int| self.piece_on(i) is Some ==> 0 <= i < 64,
            forall|i: int| 0 <= i < 64 ==> self@.board[i] == self.piece_on(i),
    {
        self.white.lemma_union_bits();
        self.black.lemma_union_bits();
        lemma_bits_or(self.white.all.0, self.black.all.0);
        assert forall|c: Color, k: PieceKind, i: int|
            #![trigger self.army(c).board(k)@.contains(i)]
            self.army(c).board(k)@.contains(i) <==> self.piece_on(i) == Some(
                Piece { color: c, kind: k },
            ) by {
            assert(self.white.single_on(i));
            assert(self.black.single_on(i));
            assert(has_bit(self.white.union(), i) == (self.white.kind_on(i) is Some));
            assert(has_bit(self.black.union(), i) == (self.black.kind_on(i) is Some));
        }
        assert forall|c: Color, i: int|
            #![trigger self.army(c).all@.contains(i)]
            self.army(c).all@.contains(i) <==> (self.piece_on(i) matches Some(p) && p.color
                == c) by {
            assert(has_bit(self.white.union(), i) == (self.white.kind_on(i) is Some));
            assert(has_bit(self.black.union(), i) == (self.black.kind_on(i) is Some));
        }
        assert forall|i: int| #[trigger] self.all@.contains(i) <==> self.piece_on(i) is Some by {
            assert(has_bit(self.white.union(), i) == (self.white.kind_on(i) is Some));
            assert(has_bit(self.black.union(), i) == (self.black.kind_on(i) is Some));
        }
    }
}

/// Whether two boards share no square.
fn apart(a: Bitboard, b: Bitboard) -> (r: bool)
    ensures
        r == (forall|i: int| !(has_bit(a.0, i) && has_bit(b.0, i))),
{
    proof {
        lemma_bits_and(a.0, b.0);
        lemma_no_bits(a.0 & b.0);
        if a.0 & b.0 == 0 {
            assert forall|i: int| !(has_bit(a.0, i) && has_bit(b.0, i)) by {
                assert(!has_bit(a.0 & b.0, i));
            }
        } else {
            let i = choose|i: int| has_bit(a.0 & b.0, i);
            assert(has_bit(a.0, i) && has_bit(b.0, i));
        }
    }
    (a & b).is_empty()
}

impl Army {
    /// Whether the six boards are disjoint and `all` is their union.
    pub fn is_wf(&self) -> (r: bool)
        ensures
            r == self.wf(),
    {
        let two = self.pawns | self.knights;
        let three = two | self.bishops;
        let four = three | self.rooks;
        let five = four | self.queens;
        let six = five | self.king;
        proof {
            lemma_bits_or(self.pawns.0, self.knights.0);
            lemma_bits_or(two.0, self.bishops.0);
            lemma_bits_or(three.0, self.rooks.0);
            lemma_bits_or(four.0, self.queens.0);
        }
        let disjoint = apart(self.pawns, self.knights) && apart(two, self.bishops) && apart(
            three,
            self.rooks,
        ) && apart(four, self.queens) && apart(five, self.king);
        proof {
            if disjoint {
                assert forall|i: int| self.single_on(i) by {}
            } else {
                if self.disjoint() {
                    assert forall|i: int|
                        !(has_bit(self.pawns.0, i) && has_bit(self.knights.0, i)) && !(has_bit(
                            two.0,
                            i,
                        ) && has_bit(self.bishops.0, i)) && !(has_bit(three.0, i) && has_bit(
                            self.rooks.0,
                            i,
                        )) && !(has_bit(four.0, i) && has_bit(self.queens.0, i)) && !(has_bit(
                            five.0,
                            i,
                        ) && has_bit(self.king.0, i)) by {
                        assert(has_bit(self.pawns.0, i) ==> self.single_on(i));
                        assert(has_bit(self.knights.0, i) ==> self.single_on(i));
                        assert(has_bit(self.bishops.0, i) ==> self.single_on(i));
                        assert(has_bit(self.rooks.0, i) ==> self.single_on(i));
                        assert(has_bit(self.queens.0, i) ==> self.single_on(i));
                        assert(has_bit(self.king.0, i) ==> self.single_on(i));
                    }
                }
            }
        }
        disjoint && self.all.0 == six.0
    }
}

impl Position {
    /// Whether the position is well-formed.
    pub fn is_wf(&self) -> (r: bool)
        ensures
            r == self.wf(),
    {
        if !self.white.is_wf() || !self.black.is_wf() {
            return false;
        }
        let armies_apart = apart(self.white.all, self.black.all);
        proof {
            self.white.lemma_union_bits();
            self.black.lemma_union_bits();
            match self.en_passant {
                Some(sq) => {
                    use_type_invariant(&sq);
                },
                None => {},
            }
            if armies_apart {
                assert forall|i: int|
                    !(self.white.kind_on(i) is Some && self.black.kind_on(i) is Some) by {
                    assert(has_bit(self.white.union(), i) == (self.white.kind_on(i) is Some));
                    assert(has_bit(self.black.union(), i) == (self.black.kind_on(i) is Some));
                }
            } else {
                let i = choose|i: int|
                    has_bit(self.white.all.0, i) && has_bit(self.black.all.0, i);
                assert(has_bit(self.white.union(), i) == (self.white.kind_on(i) is Some));
                assert(has_bit(self.black.union(), i) == (self.black.kind_on(i) is Some));
                assert(self.white.kind_on(i) is Some && self.black.kind_on(i) is Some);
            }
        }
        armies_apart && self.all.0 == (self.white.all | self.black.all).0
    }

    /// Whether a side still has the right to castle to a wing.
    pub fn can_castle(&self, side: Color, wing: CastlingType) -> (r: bool)
        ensures
            r == self@.can_castle(side, wing),
    {
        match (side, wing) {
            (Color::White, CastlingType::Kingside) => self.white_can_oo,
            (Color::White, CastlingType::Queenside) => self.white_can_ooo,
            (Color::Black, CastlingType::Kingside) => self.black_can_oo,
            (Color::Black, CastlingType::Queenside) => self.black_can_ooo,
        }
    }

    /// Whether a move can be made in this position.
    pub fn admits(&self, motion: Move) -> (r: bool)
        ensures
            r == self@.applicable(motion),
    {
        let from = motion.from.to_index();
        let to = motion.to.to_index();
        let side = self.side_to_play;
        if from == to {
            return false;
        }
        let mover = match self.piece_at(motion.from) {
            Some(mover) => mover,
            None => {
                return false;
            },
        };
        if mover.color != side {
            return false;
        }
        let captured = self.piece_at(motion.to);
        match captured {
            Some(taken) => {
                if taken.color == side {
                    return false;
                }
            },
            None => {},
        }
        let is_pawn = match mover.kind {
            PieceKind::Pawn => true,
            _ => false,
        };
        let is_king = match mover.kind {
            PieceKind::King => true,
            _ => false,
        };
        if motion.promote_to.is_some() && !is_pawn {
            return false;
        }
        match motion.castling {
            Some(wing) => {
                if !is_king {
                    return false;
                }
                let home = rook_home_square(side, wing);
                let dest = rook_dest_square(side, wing);
                let rook_ready = match self.piece_at(home) {
                    Some(piece) => piece.color == side && match piece.kind {
                        PieceKind::Rook => true,
                        _ => false,
                    },
                    None => false,
                };
                if !rook_ready || self.piece_at(dest).is_some() || dest.to_index() == to {
                    return false;
                }
            },
            None => {},
        }
        if !is_pawn && captured.is_none() && self.halfmove_clock == u64::MAX {
            return false;
        }
        match side {
            Color::Black => self.fullmove_number < u64::MAX,
            Color::White => true,
        }
    }

    /// Whether a move can be taken back from this position with the given
    /// record.
    pub fn admits_undo(&self, motion: Move, undo: UndoContext) -> (r: bool)
        ensures
            r == self@.undoable(motion, undo),
    {
        let from = motion.from.to_index();
        let to = motion.to.to_index();
        let side = self.side_to_play.opponent();
        proof {
            match undo.en_passant {
                Some(sq) => {
                    use_type_invariant(&sq);
                },
                None => {},
            }
        }
        if from == to {
            return false;
        }
        let moved = match self.piece_at(motion.to) {
            Some(moved) => moved,
            None => {
                return false;
            },
        };
        if moved.color != side {
            return false;
        }
        match motion.promote_to {
            Some(kind) => {
                if moved.kind != kind {
                    return false;
                }
            },
            None => {},
        }
        if self.piece_at(motion.from).is_some() {
            return false;
        }
        match motion.castling {
            Some(wing) => {
                let home = rook_home_square(side, wing);
                let dest = rook_dest_square(side, wing);
                let rook_there = match self.piece_at(dest) {
                    Some(piece) => piece.color == side && match piece.kind {
                        PieceKind::Rook => true,
                        _ => false,
                    },
                    None => false,
                };
                if !rook_there || self.piece_at(home).is_some() || home.to_index() == from
                    || dest.to_index() == to {
                    return false;
                }
            },
            None => {},
        }
        match side {
            Color::Black => self.fullmove_number > 0,
            Color::White => true,
        }
    }
}

} // verus!
