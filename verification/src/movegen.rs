//! Where the pieces that do not slide can go, and the moves that a position
//! offers to pawns, knights and kings.

use vstd::prelude::*;
use core::ops::Not;
use crate::bitboard::{descending, indices, Bitboard};
use crate::bits::{has_bit, lemma_bits_zero, lemma_no_bits};
use crate::motion::Move;
use crate::position::{pawn_home_rank, Color, Piece, PieceKind, Position, PositionView};
use crate::rays::coords_in_bounds;
use crate::square::Square;

verus! {

/// How many files apart two squares are.
pub open spec fn file_gap(a: int, b: int) -> int {
    if a % 8 >= b % 8 {
        a % 8 - b % 8
    } else {
        b % 8 - a % 8
    }
}

/// How many ranks apart two squares are.
pub open spec fn rank_gap(a: int, b: int) -> int {
    if a / 8 >= b / 8 {
        a / 8 - b / 8
    } else {
        b / 8 - a / 8
    }
}

/// Whether a knight jumps from one square to the other: two files and one
/// rank apart, or one file and two ranks.
pub open spec fn knight_jump(from: int, to: int) -> bool {
    ||| file_gap(from, to) == 1 && rank_gap(from, to) == 2
    ||| file_gap(from, to) == 2 && rank_gap(from, to) == 1
}

/// Whether a king steps from one square to the other: another square, at
/// most one file and one rank apart.
pub open spec fn king_step(from: int, to: int) -> bool {
    from != to && file_gap(from, to) <= 1 && rank_gap(from, to) <= 1
}

/// Whether a pawn of a side on `from` attacks `to`: one file apart and one
/// rank ahead, up the board for White and down for Black.
pub open spec fn pawn_attack(side: Color, from: int, to: int) -> bool {
    &&& file_gap(from, to) == 1
    &&& to / 8 - from / 8 == match side {
        Color::White => 1int,
        Color::Black => -1int,
    }
}

/// The squares to which a knight on `from` jumps.
pub open spec fn knight_targets(from: int) -> Set<int> {
    Set::new(|to: int| 0 <= to < 64 && knight_jump(from, to))
}

/// The squares to which a king on `from` steps.
pub open spec fn king_targets(from: int) -> Set<int> {
    Set::new(|to: int| 0 <= to < 64 && king_step(from, to))
}

/// The squares that a pawn of a side on `from` attacks.
pub open spec fn pawn_targets(side: Color, from: int) -> Set<int> {
    Set::new(|to: int| 0 <= to < 64 && pawn_attack(side, from, to))
}

/// The set with the square at a file and a rank added, if there is such a
/// square.
pub fn add_if_in_bounds(bitboard: Bitboard, file: i8, rank: i8) -> (r: Bitboard)
    ensures
        r@ == if 0 <= file < 8 && 0 <= rank < 8 {
            bitboard@.insert(file + 8 * rank)
        } else {
            bitboard@
        },
{
    if coords_in_bounds(file, rank) {
        let r = bitboard | Square::from_coords(file as u8, rank as u8).to_bitboard();
        assert(r@ =~= bitboard@.insert(file + 8 * rank));
        r
    } else {
        bitboard
    }
}

/// The squares that a white pawn on `square` attacks.
pub fn white_pawn_attacks(square: Square) -> (result: Bitboard)
    ensures
        result@ == pawn_targets(Color::White, square.index()),
{
    let rank = square.rank() as i8;
    let file = square.file() as i8;

    let mut result = Bitboard::new(0);
    proof {
        lemma_bits_zero();
        assert(result@ =~= Set::<int>::empty());
    }

    result = add_if_in_bounds(result, file + 1, rank + 1);
    result = add_if_in_bounds(result, file - 1, rank + 1);

    assert(result@ =~= pawn_targets(Color::White, square.index()));
    result
}

/// The squares that a black pawn on `square` attacks.
pub fn black_pawn_attacks(square: Square) -> (result: Bitboard)
    ensures
        result@ == pawn_targets(Color::Black, square.index()),
{
    let rank = square.rank() as i8;
    let file = square.file() as i8;

    let mut result = Bitboard::new(0);
    proof {
        lemma_bits_zero();
        assert(result@ =~= Set::<int>::empty());
    }

    result = add_if_in_bounds(result, file + 1, rank - 1);
    result = add_if_in_bounds(result, file - 1, rank - 1);

    assert(result@ =~= pawn_targets(Color::Black, square.index()));
    result
}

/// The squares to which a knight on `square` jumps.
pub fn knight_moves(square: Square) -> (result: Bitboard)
    ensures
        result@ == knight_targets(square.index()),
{
    let mut result = Bitboard::new(0);
    let file = square.file() as i8;
    let rank = square.rank() as i8;
    proof {
        lemma_bits_zero();
        assert(result@ =~= Set::<int>::empty());
    }

    result = add_if_in_bounds(result, file + 1, rank + 2);
    result = add_if_in_bounds(result, file + 1, rank - 2);
    result = add_if_in_bounds(result, file - 1, rank + 2);
    result = add_if_in_bounds(result, file - 1, rank - 2);
    result = add_if_in_bounds(result, file + 2, rank + 1);
    result = add_if_in_bounds(result, file + 2, rank - 1);
    result = add_if_in_bounds(result, file - 2, rank + 1);
    result = add_if_in_bounds(result, file - 2, rank - 1);

    assert(result@ =~= knight_targets(square.index()));
    result
}

/// The squares to which a king on `square` steps.
pub fn king_moves(square: Square) -> (result: Bitboard)
    ensures
        result@ == king_targets(square.index()),
{
    let mut result = Bitboard::new(0);
    let file = square.file() as i8;
    let rank = square.rank() as i8;
    proof {
        lemma_bits_zero();
        assert(result@ =~= Set::<int>::empty());
    }

    result = add_if_in_bounds(result, file + 1, rank + 1);
    result = add_if_in_bounds(result, file + 1, rank - 1);
    result = add_if_in_bounds(result, file - 1, rank + 1);
    result = add_if_in_bounds(result, file - 1, rank - 1);
    result = add_if_in_bounds(result, file + 1, rank);
    result = add_if_in_bounds(result, file - 1, rank);
    result = add_if_in_bounds(result, file, rank + 1);
    result = add_if_in_bounds(result, file, rank - 1);

    assert(result@ =~= king_targets(square.index()));
    result
}

/// The rank on which the pawns of a side promote.
pub open spec fn last_rank(side: Color) -> int {
    match side {
        Color::White => 7,
        Color::Black => 0,
    }
}

/// One rank ahead for a pawn of a side, in squares.
pub open spec fn pawn_step(side: Color) -> int {
    match side {
        Color::White => 8,
        Color::Black => -8,
    }
}

/// Whether a pawn of the side to play on `from` can go to `to`: it captures
/// an enemy piece that it attacks, steps ahead to an empty square, or goes
/// two ranks ahead from its home rank over empty squares.
pub open spec fn pawn_reaches(v: PositionView, from: int, to: int) -> bool {
    let side = v.side_to_play;
    ||| pawn_attack(side, from, to) && 0 <= to < 64 && (v.board[to] matches Some(q) && q.color
        != side)
    ||| to == from + pawn_step(side) && 0 <= to < 64 && v.board[to] is None
    ||| from / 8 == pawn_home_rank(side) && to == from + 2 * pawn_step(side) && v.board[from
        + pawn_step(side)] is None && v.board[to] is None
}

/// Whether a knight or a king of the side to play on `from` can go to `to`:
/// the square is a jump or a step away and holds no piece of its own side.
pub open spec fn leaper_reaches(v: PositionView, kind: PieceKind, from: int, to: int) -> bool {
    &&& 0 <= to < 64
    &&& match kind {
        PieceKind::Knight => knight_jump(from, to),
        PieceKind::King => king_step(from, to),
        _ => false,
    }
    &&& !(v.board[to] matches Some(q) && q.color == v.side_to_play)
}

/// Whether a piece of a kind of the side to play on `from` can go to `to`.
/// Sliders are offered no moves.
pub open spec fn reaches(v: PositionView, kind: PieceKind, from: int, to: int) -> bool {
    match kind {
        PieceKind::Pawn => pawn_reaches(v, from, to),
        _ => leaper_reaches(v, kind, from, to),
    }
}

/// Whether a move says what is due about promotion: a pawn that reaches the
/// last rank becomes a knight, bishop, rook or queen, and nothing else
/// promotes.
pub open spec fn well_promoted(side: Color, kind: PieceKind, m: Move) -> bool {
    if kind == PieceKind::Pawn && m.to.index() / 8 == last_rank(side) {
        m.promote_to matches Some(k) && k != PieceKind::Pawn && k != PieceKind::King
    } else {
        m.promote_to is None
    }
}

/// Whether a move goes from one square to another, without castling, and
/// says what is due about promotion.
pub open spec fn due(side: Color, kind: PieceKind, from: Square, to: Square, m: Move) -> bool {
    m.from == from && m.to == to && m.castling is None && well_promoted(side, kind, m)
}

/// Whether a position offers a move to the pieces of one kind of the side
/// to play.
pub open spec fn stage_offer(v: PositionView, kind: PieceKind, m: Move) -> bool {
    &&& m.from.on_board()
    &&& m.to.on_board()
    &&& v.board[m.from.index()] == Some(Piece { color: v.side_to_play, kind })
    &&& reaches(v, kind, m.from.index(), m.to.index())
    &&& due(v.side_to_play, kind, m.from, m.to, m)
}

/// Whether a position offers a move: the piece on `from` is one of the side
/// to play and can go to `to`.
pub open spec fn offers(v: PositionView, m: Move) -> bool {
    v.board[m.from.index()] matches Some(p) && stage_offer(v, p.kind, m)
}

/// The place of a kind in the order in which moves are generated.
pub open spec fn kind_rank(kind: PieceKind) -> int {
    match kind {
        PieceKind::Pawn => 0,
        PieceKind::Knight => 1,
        PieceKind::Bishop => 2,
        PieceKind::Rook => 3,
        PieceKind::Queen => 4,
        PieceKind::King => 5,
    }
}

/// Whether the moves of a kind are still to be generated at a stage.
pub open spec fn to_come(kind: PieceKind, stage: Option<Piece>) -> bool {
    stage matches Some(p) && kind_rank(kind) >= kind_rank(p.kind)
}

/// Whether none of the pawns of the side to play stands on its last rank.
pub open spec fn pawns_can_advance(v: PositionView) -> bool {
    forall|i: int|
        0 <= i < 64 && #[trigger] v.board[i] == Some(
            Piece { color: v.side_to_play, kind: PieceKind::Pawn },
        ) ==> i / 8 != last_rank(v.side_to_play)
}

/// The moves that a position offers to its pawns, knights and kings, to be
/// taken one by one.
pub struct MovesIter<'a> {
    position: &'a Position,
    next_to_return: Option<Piece>,
    buffer: Vec<Move>,
}

/// Whether a square is one of the first `n` of a list.
pub open spec fn listed(list: Seq<Square>, n: int, sq: Square) -> bool {
    exists|j: int| 0 <= j < n && #[trigger] list[j] == sq
}

/// A list with one more entry holds what it held and the new entry, and
/// holds nothing twice if it did not before and the entry is new.
pub proof fn lemma_push_contains<T>(s: Seq<T>, x: T)
    ensures
        forall|y: T| s.push(x).contains(y) <==> s.contains(y) || y == x,
        s.no_duplicates() && !s.contains(x) ==> s.push(x).no_duplicates(),
{
    assert forall|y: T| s.push(x).contains(y) <==> s.contains(y) || y == x by {
        if s.push(x).contains(y) {
            let i = choose|i: int| 0 <= i < s.push(x).len() && s.push(x)[i] == y;
            if i < s.len() {
                assert(s[i] == y);
            }
        }
        if s.contains(y) {
            let i = choose|i: int| 0 <= i < s.len() && s[i] == y;
            assert(s.push(x)[i] == y);
        }
        if y == x {
            assert(s.push(x)[s.len() as int] == y);
        }
    }
}

impl<'a> MovesIter<'a> {
    /// The position whose moves these are.
    pub closed spec fn position(self) -> Position {
        *self.position
    }

    /// The piece whose moves are generated next, if any are still to be
    /// generated.
    pub closed spec fn stage(self) -> Option<Piece> {
        self.next_to_return
    }

    /// The moves that are generated and not taken yet.
    pub closed spec fn pending(self) -> Seq<Move> {
        self.buffer@
    }

    /// The moves that are still to be taken: those that are pending and
    /// those that are still to be generated.
    pub open spec fn remaining(self) -> Set<Move> {
        Set::new(
            |m: Move|
                self.pending().contains(m) || (offers(self.position()@, m) && to_come(
                    self.position()@.board[m.from.index()]->0.kind,
                    self.stage(),
                )),
        )
    }

    /// The position is well-formed and its pawns can advance; the stage is
    /// one of the side to play; the pending moves are all different, are
    /// offered, and are none of those that are still to be generated.
    pub open spec fn wf(self) -> bool {
        let v = self.position()@;
        &&& self.position().wf()
        &&& pawns_can_advance(v)
        &&& (self.stage() matches Some(p) ==> p.color == v.side_to_play)
        &&& self.pending().no_duplicates()
        &&& forall|i: int|
            0 <= i < self.pending().len() ==> offers(v, #[trigger] self.pending()[i]) && !to_come(
                v.board[self.pending()[i].from.index()]->0.kind,
                self.stage(),
            )
    }

    /// The moves of a position, none of them taken yet.
    pub fn new(position: &'a Position) -> (it: MovesIter<'a>)
        requires
            position.wf(),
            pawns_can_advance(position@),
        ensures
            it.wf(),
            it.position() == *position,
            it.remaining() == Set::new(|m: Move| offers(position@, m)),
    {
        let next_to_return = Piece::new(position.side_to_play, PieceKind::Pawn);
        let it = MovesIter { position: position, next_to_return: Some(next_to_return), buffer: vec![] };
        proof {
            assert(it.remaining() =~= Set::new(|m: Move| offers(position@, m)));
        }
        it
    }

    /// The kind that follows a kind in the order of generation.
    fn next_piece(&self, piece: Piece) -> (r: Option<Piece>)
        ensures
            match r {
                Some(p) => p.color == piece.color && kind_rank(p.kind) == kind_rank(piece.kind)
                    + 1,
                None => piece.kind == PieceKind::King,
            },
    {
        let next_kind = match piece.kind {
            PieceKind::Pawn => Some(PieceKind::Knight),
            PieceKind::Knight => Some(PieceKind::Bishop),
            PieceKind::Bishop => Some(PieceKind::Rook),
            PieceKind::Rook => Some(PieceKind::Queen),
            PieceKind::Queen => Some(PieceKind::King),
            PieceKind::King => None,
        };
        match next_kind {
            Some(kind) => Some(Piece::new(piece.color, kind)),
            None => None,
        }
    }

    /// Adds a move to the pending ones.
    fn push_move(&mut self, m: Move)
        requires
            old(self).buffer@.no_duplicates(),
            !old(self).buffer@.contains(m),
        ensures
            final(self).position == old(self).position,
            final(self).next_to_return == old(self).next_to_return,
            final(self).buffer@ == old(self).buffer@.push(m),
            final(self).buffer@.no_duplicates(),
            forall|x: Move|
                #![trigger final(self).buffer@.contains(x)]
                final(self).buffer@.contains(x) <==> old(self).buffer@.contains(x) || x == m,
    {
        proof {
            lemma_push_contains(self.buffer@, m);
        }
        self.buffer.push(m);
    }

    /// Adds the moves from one square to another that are due: the four
    /// promotions for a pawn that reaches the last rank, the plain move
    /// otherwise.
    fn push_due(&mut self, kind: PieceKind, from: Square, to: Square)
        requires
            old(self).buffer@.no_duplicates(),
            forall|x: Move| #[trigger] old(self).buffer@.contains(x) ==> !(x.from == from && x.to == to),
        ensures
            final(self).position == old(self).position,
            final(self).next_to_return == old(self).next_to_return,
            final(self).buffer@.no_duplicates(),
            forall|x: Move|
                #![trigger final(self).buffer@.contains(x)]
                final(self).buffer@.contains(x) <==> old(self).buffer@.contains(x) || due(
                    old(self).position.side_to_play,
                    kind,
                    from,
                    to,
                    x,
                ),
    {
        let last: u8 = match self.position.side_to_play {
            Color::White => 7,
            Color::Black => 0,
        };
        let promotes = match kind {
            PieceKind::Pawn => to.rank() == last,
            _ => false,
        };
        if promotes {
            self.push_move(
                Move { from: from, to: to, promote_to: Some(PieceKind::Knight), castling: None },
            );
            self.push_move(
                Move { from: from, to: to, promote_to: Some(PieceKind::Bishop), castling: None },
            );
            self.push_move(
                Move { from: from, to: to, promote_to: Some(PieceKind::Rook), castling: None },
            );
            self.push_move(
                Move { from: from, to: to, promote_to: Some(PieceKind::Queen), castling: None },
            );
        } else {
            self.push_move(Move { from: from, to: to, promote_to: None, castling: None });
        }
    }
}

impl<'a> MovesIter<'a> {
    /// Adds the moves that are due from one square to each square of a set.
    fn push_targets(&mut self, kind: PieceKind, from: Square, targets: Bitboard)
        requires
            old(self).buffer@.no_duplicates(),
            forall|x: Move|
                #[trigger] old(self).buffer@.contains(x) ==> !(x.from == from && targets@.contains(
                    x.to.index(),
                )),
        ensures
            final(self).position == old(self).position,
            final(self).next_to_return == old(self).next_to_return,
            final(self).buffer@.no_duplicates(),
            forall|x: Move|
                #![trigger final(self).buffer@.contains(x)]
                final(self).buffer@.contains(x) <==> old(self).buffer@.contains(x) || (x.from
                    == from && targets@.contains(x.to.index()) && x.castling is None
                    && well_promoted(old(self).position.side_to_play, kind, x)),
    {
        let list = targets.squares().collect();
        let ghost side = self.position.side_to_play;
        let mut i: usize = 0;
        while i < list.len()
            invariant
                i <= list.len(),
                descending(list@),
                indices(list@) == targets@,
                self.position == old(self).position,
                self.next_to_return == old(self).next_to_return,
                side == self.position.side_to_play,
                self.buffer@.no_duplicates(),
                forall|x: Move|
                    #[trigger] old(self).buffer@.contains(x) ==> !(x.from == from
                        && targets@.contains(x.to.index())),
                forall|x: Move|
                    #![trigger self.buffer@.contains(x)]
                    self.buffer@.contains(x) <==> old(self).buffer@.contains(x) || (x.from == from
                        && listed(list@, i as int, x.to) && x.castling is None && well_promoted(
                        side,
                        kind,
                        x,
                    )),
            decreases list.len() - i,
        {
            let to = list[i];
            proof {
                assert(list@[i as int].index() == to.index());
                assert(indices(list@).contains(to.index()));
                assert forall|x: Move| #[trigger] self.buffer@.contains(x) implies !(x.from == from
                    && x.to == to) by {
                    if x.from == from && x.to == to {
                        if old(self).buffer@.contains(x) {
                        } else {
                            assert(listed(list@, i as int, x.to));
                            let j = choose|j: int| 0 <= j < i && #[trigger] list@[j] == x.to;
                            assert(list@[j].index() > list@[i as int].index());
                        }
                    }
                }
            }
            let ghost before = self.buffer@;
            self.push_due(kind, from, to);
            proof {
                assert forall|x: Move|
                    #![trigger self.buffer@.contains(x)]
                    self.buffer@.contains(x) <==> old(self).buffer@.contains(x) || (x.from == from
                        && listed(list@, i + 1, x.to) && x.castling is None && well_promoted(
                        side,
                        kind,
                        x,
                    )) by {
                    if listed(list@, i + 1, x.to) {
                        let j = choose|j: int| 0 <= j < i + 1 && #[trigger] list@[j] == x.to;
                        if j < i {
                            assert(listed(list@, i as int, x.to));
                        }
                    }
                    if listed(list@, i as int, x.to) {
                        let j = choose|j: int| 0 <= j < i && #[trigger] list@[j] == x.to;
                        assert(list@[j] == x.to);
                        assert(listed(list@, i + 1, x.to));
                    }
                    if x.to == to {
                        assert(list@[i as int] == x.to);
                        assert(listed(list@, i + 1, x.to));
                    }
                    assert(before.contains(x) <==> old(self).buffer@.contains(x) || (x.from == from
                        && listed(list@, i as int, x.to) && x.castling is None && well_promoted(
                        side,
                        kind,
                        x,
                    )));
                }
            }
            i = i + 1;
        }
        proof {
            assert forall|x: Move|
                #![trigger self.buffer@.contains(x)]
                self.buffer@.contains(x) <==> old(self).buffer@.contains(x) || (x.from == from
                    && targets@.contains(x.to.index()) && x.castling is None && well_promoted(
                    side,
                    kind,
                    x,
                )) by {
                if targets@.contains(x.to.index()) {
                    assert(indices(list@).contains(x.to.index()));
                    let j = choose|j: int|
                        0 <= j < list@.len() && #[trigger] list@[j].index() == x.to.index();
                    Square::lemma_index_determines(list@[j], x.to);
                    assert(list@[j] == x.to);
                    assert(listed(list@, list@.len() as int, x.to));
                }
                if listed(list@, list@.len() as int, x.to) {
                    let j = choose|j: int| 0 <= j < list@.len() && #[trigger] list@[j] == x.to;
                    assert(list@[j].index() == x.to.index());
                    assert(indices(list@).contains(x.to.index()));
                }
            }
        }
    }

    /// The board of all the pieces of the side to play.
    fn own_all(&self) -> (b: Bitboard)
        ensures
            b == self.position.army(self.position.side_to_play).all,
    {
        match self.position.side_to_play {
            Color::White => self.position.white.all,
            Color::Black => self.position.black.all,
        }
    }

    /// The board of all the pieces of the side that is not to play.
    fn enemy_all(&self) -> (b: Bitboard)
        ensures
            b == self.position.army(self.position.side_to_play.spec_opponent()).all,
    {
        match self.position.side_to_play {
            Color::White => self.position.black.all,
            Color::Black => self.position.white.all,
        }
    }

    /// The moves of the pawn of the side to play on a square.
    fn pawn_moves_from(&mut self, square: Square)
        requires
            old(self).position.wf(),
            pawns_can_advance(old(self).position@),
            old(self).position.piece_on(square.index()) == Some(
                Piece { color: old(self).position.side_to_play, kind: PieceKind::Pawn },
            ),
            old(self).buffer@.no_duplicates(),
            forall|x: Move| #[trigger] old(self).buffer@.contains(x) ==> x.from != square,
        ensures
            final(self).position == old(self).position,
            final(self).next_to_return == old(self).next_to_return,
            final(self).buffer@.no_duplicates(),
            forall|x: Move|
                #![trigger final(self).buffer@.contains(x)]
                final(self).buffer@.contains(x) <==> old(self).buffer@.contains(x) || (x.from
                    == square && stage_offer(old(self).position@, PieceKind::Pawn, x)),
    {
        let side = self.position.side_to_play;
        let ghost v = self.position@;
        let ghost from = square.index();
        proof {
            use_type_invariant(&square);
            square.lemma_index_range();
            self.position.lemma_boards_show_view();
        }
        let pawn_attacks = match side {
            Color::White => white_pawn_attacks(square),
            Color::Black => black_pawn_attacks(square),
        };
        let pawn_attacks = pawn_attacks & self.enemy_all();
        self.push_targets(PieceKind::Pawn, square, pawn_attacks);
        let ghost captured = self.buffer@;

        let ahead = match side {
            Color::White => square + 8,
            Color::Black => square - 8,
        };
        let home: u8 = match side {
            Color::White => 1,
            Color::Black => 6,
        };
        let ghost mut stepped = false;
        let ghost mut leapt = false;
        let ghost mut after_step = self.buffer@;
        if !self.position.all.is_occupied(ahead) {
            self.push_due(PieceKind::Pawn, square, ahead);
            proof {
                stepped = true;
                after_step = self.buffer@;
            }
            if square.rank() == home {
                let two_square = match side {
                    Color::White => square + 16,
                    Color::Black => square - 16,
                };
                if !self.position.all.is_occupied(two_square) {
                    self.push_due(PieceKind::Pawn, square, two_square);
                    proof {
                        leapt = true;
                        assert forall|x: Move|
                            #![trigger self.buffer@.contains(x)]
                            self.buffer@.contains(x) <==> after_step.contains(x) || (x.from
                                == square && x.to.index() == from + 2 * pawn_step(side)
                                && x.castling is None && well_promoted(
                                side,
                                PieceKind::Pawn,
                                x,
                            )) by {
                            if x.to.index() == from + 2 * pawn_step(side) {
                                Square::lemma_index_determines(x.to, two_square);
                            }
                        }
                    }
                }
            }
        }
        proof {
            let step = pawn_step(side);
            assert(ahead.index() == from + step);
            assert forall|x: Move|
                #![trigger self.buffer@.contains(x)]
                self.buffer@.contains(x) <==> old(self).buffer@.contains(x) || (x.from == square
                    && stage_offer(v, PieceKind::Pawn, x)) by {
                let to = x.to.index();
                let offered = x.from == square && stage_offer(v, PieceKind::Pawn, x);
                let taken = x.from == square && pawn_attacks@.contains(to) && x.castling is None
                    && well_promoted(side, PieceKind::Pawn, x);
                assert(captured.contains(x) <==> old(self).buffer@.contains(x) || taken);
                let steps = stepped && x.from == square && to == from + step && x.castling is None
                    && well_promoted(side, PieceKind::Pawn, x);
                let leaps = leapt && x.from == square && to == from + 2 * step && x.castling is None
                    && well_promoted(side, PieceKind::Pawn, x);
                if to == from + step {
                    Square::lemma_index_determines(x.to, ahead);
                }
                assert(after_step.contains(x) <==> captured.contains(x) || steps);
                assert(self.buffer@.contains(x) <==> after_step.contains(x) || leaps);
                if steps || leaps {
                    x.to.lemma_new_of_index_range();
                    assert(offered);
                }
                if taken {
                    x.to.lemma_new_of_index_range();
                    assert(self.position.army(side.spec_opponent()).all@.contains(to));
                    assert(pawn_targets(side, from).contains(to));
                    assert(offered);
                }
                if offered {
                    x.to.lemma_index_range();
                    if pawn_attack(side, from, to) {
                        assert(pawn_targets(side, from).contains(to));
                        assert(self.position.army(side.spec_opponent()).all@.contains(to));
                        assert(taken);
                    } else if to == from + step {
                        assert(!self.position.all@.contains(to));
                        Square::lemma_index_determines(x.to, ahead);
                        assert(stepped);
                    } else {
                        assert(to == from + 2 * step);
                        assert(!self.position.all@.contains(from + step));
                        assert(!self.position.all@.contains(to));
                        assert(stepped);
                        assert(leapt);
                    }
                }
            }
        }
    }
}

impl<'a> MovesIter<'a> {
    /// The moves of the knight or king of the side to play on a square.
    fn leaper_moves_from(&mut self, kind: PieceKind, square: Square)
        requires
            kind == PieceKind::Knight || kind == PieceKind::King,
            old(self).position.wf(),
            old(self).position.piece_on(square.index()) == Some(
                Piece { color: old(self).position.side_to_play, kind },
            ),
            old(self).buffer@.no_duplicates(),
            forall|x: Move| #[trigger] old(self).buffer@.contains(x) ==> x.from != square,
        ensures
            final(self).position == old(self).position,
            final(self).next_to_return == old(self).next_to_return,
            final(self).buffer@.no_duplicates(),
            forall|x: Move|
                #![trigger final(self).buffer@.contains(x)]
                final(self).buffer@.contains(x) <==> old(self).buffer@.contains(x) || (x.from
                    == square && stage_offer(old(self).position@, kind, x)),
    {
        let ghost v = self.position@;
        let ghost side = self.position.side_to_play;
        let ghost from = square.index();
        proof {
            use_type_invariant(&square);
            square.lemma_index_range();
            self.position.lemma_boards_show_view();
        }
        let jumps = match kind {
            PieceKind::Knight => knight_moves(square),
            _ => king_moves(square),
        };
        let targets = jumps & self.own_all().not();
        self.push_targets(kind, square, targets);
        proof {
            assert forall|x: Move|
                #![trigger self.buffer@.contains(x)]
                self.buffer@.contains(x) <==> old(self).buffer@.contains(x) || (x.from == square
                    && stage_offer(v, kind, x)) by {
                let to = x.to.index();
                let taken = x.from == square && targets@.contains(to) && x.castling is None
                    && well_promoted(side, kind, x);
                assert(self.buffer@.contains(x) <==> old(self).buffer@.contains(x) || taken);
                if taken {
                    x.to.lemma_new_of_index_range();
                    assert(!self.position.army(side).all@.contains(to));
                }
                if x.from == square && stage_offer(v, kind, x) {
                    x.to.lemma_index_range();
                    assert(!self.position.army(side).all@.contains(to));
                    assert(jumps@.contains(to));
                    assert(taken);
                }
            }
        }
    }

    /// The board of the pieces of one kind of the side to play.
    fn own_board(&self, kind: PieceKind) -> (b: Bitboard)
        ensures
            b == self.position.army(self.position.side_to_play).board(kind),
    {
        let army = match self.position.side_to_play {
            Color::White => &self.position.white,
            Color::Black => &self.position.black,
        };
        match kind {
            PieceKind::Pawn => army.pawns,
            PieceKind::Knight => army.knights,
            PieceKind::Bishop => army.bishops,
            PieceKind::Rook => army.rooks,
            PieceKind::Queen => army.queens,
            PieceKind::King => army.king,
        }
    }

    /// Generates the moves of all the pawns, knights or kings of the side to
    /// play.
    fn generate(&mut self, kind: PieceKind)
        requires
            kind == PieceKind::Pawn || kind == PieceKind::Knight || kind == PieceKind::King,
            old(self).position.wf(),
            pawns_can_advance(old(self).position@),
            old(self).buffer@.no_duplicates(),
            forall|x: Move|
                #[trigger] old(self).buffer@.contains(x) ==> old(self).position.piece_on(
                    x.from.index(),
                ) != Some(Piece { color: old(self).position.side_to_play, kind }),
        ensures
            final(self).position == old(self).position,
            final(self).next_to_return == old(self).next_to_return,
            final(self).buffer@.no_duplicates(),
            forall|x: Move|
                #![trigger final(self).buffer@.contains(x)]
                final(self).buffer@.contains(x) <==> old(self).buffer@.contains(x) || stage_offer(
                    old(self).position@,
                    kind,
                    x,
                ),
    {
        let ghost v = self.position@;
        let ghost piece = Piece { color: self.position.side_to_play, kind };
        let board = self.own_board(kind);
        let squares = board.squares().collect();
        proof {
            self.position.lemma_boards_show_view();
        }
        let mut i: usize = 0;
        while i < squares.len()
            invariant
                i <= squares.len(),
                kind == PieceKind::Pawn || kind == PieceKind::Knight || kind == PieceKind::King,
                descending(squares@),
                indices(squares@) == board@,
                board == self.position.army(self.position.side_to_play).board(kind),
                piece == (Piece { color: self.position.side_to_play, kind }),
                v == self.position@,
                self.position == old(self).position,
                self.next_to_return == old(self).next_to_return,
                self.position.wf(),
                pawns_can_advance(self.position@),
                self.buffer@.no_duplicates(),
                forall|c: Color, k: PieceKind, j: int|
                    #![trigger self.position.army(c).board(k)@.contains(j)]
                    self.position.army(c).board(k)@.contains(j) <==> self.position.piece_on(j)
                        == Some(Piece { color: c, kind: k }),
                forall|x: Move|
                    #[trigger] old(self).buffer@.contains(x) ==> self.position.piece_on(
                        x.from.index(),
                    ) != Some(piece),
                forall|x: Move|
                    #![trigger self.buffer@.contains(x)]
                    self.buffer@.contains(x) <==> old(self).buffer@.contains(x) || (listed(
                        squares@,
                        i as int,
                        x.from,
                    ) && stage_offer(v, kind, x)),
            decreases squares.len() - i,
        {
            let square = squares[i];
            let ghost before = self.buffer@;
            proof {
                assert(squares@[i as int].index() == square.index());
                assert(indices(squares@).contains(square.index()));
                assert(board@.contains(square.index()));
                assert(self.position.piece_on(square.index()) == Some(piece));
                assert forall|x: Move| #[trigger] self.buffer@.contains(x) implies x.from
                    != square by {
                    if x.from == square {
                        if old(self).buffer@.contains(x) {
                        } else {
                            assert(listed(squares@, i as int, x.from));
                            let j = choose|j: int| 0 <= j < i && #[trigger] squares@[j] == x.from;
                            assert(squares@[j].index() > squares@[i as int].index());
                        }
                    }
                }
            }
            match kind {
                PieceKind::Pawn => {
                    self.pawn_moves_from(square);
                },
                _ => {
                    self.leaper_moves_from(kind, square);
                },
            }
            proof {
                assert forall|x: Move|
                    #![trigger self.buffer@.contains(x)]
                    self.buffer@.contains(x) <==> old(self).buffer@.contains(x) || (listed(
                        squares@,
                        i + 1,
                        x.from,
                    ) && stage_offer(v, kind, x)) by {
                    assert(self.buffer@.contains(x) <==> before.contains(x) || (x.from == square
                        && stage_offer(v, kind, x)));
                    assert(before.contains(x) <==> old(self).buffer@.contains(x) || (listed(
                        squares@,
                        i as int,
                        x.from,
                    ) && stage_offer(v, kind, x)));
                    if listed(squares@, i + 1, x.from) {
                        let j = choose|j: int| 0 <= j < i + 1 && #[trigger] squares@[j] == x.from;
                        if j < i {
                            assert(listed(squares@, i as int, x.from));
                        }
                    }
                    if listed(squares@, i as int, x.from) {
                        let j = choose|j: int| 0 <= j < i && #[trigger] squares@[j] == x.from;
                        assert(squares@[j] == x.from);
                        assert(listed(squares@, i + 1, x.from));
                    }
                    if x.from == square {
                        assert(squares@[i as int] == x.from);
                        assert(listed(squares@, i + 1, x.from));
                    }
                }
            }
            i = i + 1;
        }
        proof {
            assert forall|x: Move|
                #![trigger self.buffer@.contains(x)]
                self.buffer@.contains(x) <==> old(self).buffer@.contains(x) || stage_offer(
                    v,
                    kind,
                    x,
                ) by {
                if stage_offer(v, kind, x) {
                    x.from.lemma_index_range();
                    assert(self.position.piece_on(x.from.index()) == Some(piece));
                    assert(board@.contains(x.from.index()));
                    assert(indices(squares@).contains(x.from.index()));
                    let j = choose|j: int|
                        0 <= j < squares@.len() && #[trigger] squares@[j].index()
                            == x.from.index();
                    Square::lemma_index_determines(squares@[j], x.from);
                    assert(squares@[j] == x.from);
                    assert(listed(squares@, squares@.len() as int, x.from));
                }
            }
        }
    }

    /// Generates the moves of the pieces of the kind whose turn it is.
    /// Sliders get none.
    fn get_moves(&mut self, piece: Piece)
        requires
            old(self).wf(),
            old(self).next_to_return == Some(piece),
        ensures
            final(self).position == old(self).position,
            final(self).next_to_return == old(self).next_to_return,
            final(self).buffer@.no_duplicates(),
            forall|x: Move|
                #![trigger final(self).buffer@.contains(x)]
                final(self).buffer@.contains(x) <==> old(self).buffer@.contains(x) || stage_offer(
                    old(self).position@,
                    piece.kind,
                    x,
                ),
    {
        proof {
            self.position.lemma_boards_show_view();
            assert forall|x: Move| #[trigger] self.buffer@.contains(x) implies self.position.piece_on(
                x.from.index(),
            ) != Some(Piece { color: self.position.side_to_play, kind: piece.kind }) by {
                let i = choose|i: int| 0 <= i < self.buffer@.len() && self.buffer@[i] == x;
                assert(offers(self.position@, self.pending()[i]));
                x.from.lemma_index_range();
            }
        }
        match piece.kind {
            PieceKind::Pawn => self.generate(PieceKind::Pawn),
            PieceKind::Knight => self.generate(PieceKind::Knight),
            PieceKind::King => self.generate(PieceKind::King),
            _ => {},
        }
    }
}

impl<'a> MovesIter<'a> {
    /// How many kinds of piece still have their moves to be generated.
    pub closed spec fn stages_left(self) -> nat {
        match self.next_to_return {
            Some(p) => (6 - kind_rank(p.kind)) as nat,
            None => 0,
        }
    }

    /// Takes one of the moves that are left, if any is left: the one that
    /// became pending last, after generating the moves of the next kinds
    /// until one is pending or all are generated.
    pub fn next(&mut self) -> (r: Option<Move>)
        requires
            old(self).wf(),
        ensures
            final(self).wf(),
            final(self).position() == old(self).position(),
            old(self).pending().len() > 0 ==> {
                &&& r == Some(old(self).pending().last())
                &&& final(self).pending() == old(self).pending().drop_last()
                &&& final(self).stage() == old(self).stage()
            },
            match r {
                Some(m) => {
                    &&& old(self).remaining().contains(m)
                    &&& final(self).remaining() == old(self).remaining().remove(m)
                    &&& (final(self).stages_left() < old(self).stages_left() || {
                        &&& final(self).stages_left() == old(self).stages_left()
                        &&& final(self).pending().len() < old(self).pending().len()
                    })
                },
                None => {
                    &&& old(self).remaining() == Set::<Move>::empty()
                    &&& final(self).remaining() == Set::<Move>::empty()
                },
            },
    {
        let ghost v = self.position@;
        if self.buffer.len() == 0 {
            while self.next_to_return.is_some() && self.buffer.len() == 0
                invariant
                    self.wf(),
                    self.position == old(self).position,
                    v == self.position@,
                    self.remaining() == old(self).remaining(),
                    self.stages_left() <= old(self).stages_left(),
                    self.buffer@.len() > 0 ==> self.stages_left() < old(self).stages_left(),
                decreases self.stages_left(),
            {
                let next = self.next_to_return.unwrap();
                let ghost before = *self;
                self.get_moves(next);
                let ghost generated = self.buffer@;
                self.next_to_return = self.next_piece(next);
                proof {
                    assert forall|i: int| 0 <= i < self.pending().len() implies offers(
                        v,
                        #[trigger] self.pending()[i],
                    ) && !to_come(
                        v.board[self.pending()[i].from.index()]->0.kind,
                        self.stage(),
                    ) by {
                        let x = self.pending()[i];
                        assert(generated.contains(x));
                        if before.buffer@.contains(x) {
                            let j = choose|j: int|
                                0 <= j < before.buffer@.len() && before.buffer@[j] == x;
                            assert(offers(v, before.pending()[j]));
                        } else {
                            x.from.lemma_index_range();
                        }
                    }
                    assert forall|x: Move| self.remaining().contains(x) <==> before.remaining().contains(
                        x,
                    ) by {
                        let k = v.board[x.from.index()]->0.kind;
                        if self.pending().contains(x) && !before.pending().contains(x) {
                            x.from.lemma_index_range();
                        }
                        if offers(v, x) && to_come(k, before.stage()) && !to_come(k, self.stage()) {
                            assert(k == next.kind);
                            assert(generated.contains(x));
                        }
                    }
                    assert(self.remaining() =~= before.remaining());
                }
            }
        }
        let ghost ready = *self;
        let r = self.buffer.pop();
        proof {
            match r {
                Some(m) => {
                    let n = ready.buffer@.len() as int - 1;
                    assert(ready.buffer@[n] == m);
                    assert(ready.pending().contains(m));
                    assert(offers(v, ready.pending()[n]));
                    assert forall|x: Move|
                        self.remaining().contains(x) <==> ready.remaining().remove(m).contains(
                            x,
                        ) by {
                        if self.pending().contains(x) {
                            let i = choose|i: int| 0 <= i < self.buffer@.len() && self.buffer@[i] == x;
                            assert(ready.buffer@[i] == x);
                        }
                        if ready.pending().contains(x) && x != m {
                            let i = choose|i: int|
                                0 <= i < ready.buffer@.len() && ready.buffer@[i] == x;
                            assert(self.buffer@[i] == x);
                        }
                    }
                    assert(self.remaining() =~= ready.remaining().remove(m));
                    assert forall|i: int| 0 <= i < self.pending().len() implies offers(
                        v,
                        #[trigger] self.pending()[i],
                    ) && !to_come(
                        v.board[self.pending()[i].from.index()]->0.kind,
                        self.stage(),
                    ) by {
                        assert(self.pending()[i] == ready.pending()[i]);
                    }
                },
                None => {
                    assert(self.remaining() =~= Set::<Move>::empty());
                },
            }
        }
        r
    }

    /// Takes all the moves that are left: each of them once.
    pub fn collect(self) -> (list: Vec<Move>)
        requires
            self.wf(),
        ensures
            list@.no_duplicates(),
            forall|m: Move| #[trigger] list@.contains(m) <==> self.remaining().contains(m),
    {
        let mut it = self;
        let mut list: Vec<Move> = Vec::new();
        loop
            invariant_except_break
                it.wf(),
                list@.no_duplicates(),
                forall|m: Move|
                    #![trigger list@.contains(m)]
                    list@.contains(m) ==> !it.remaining().contains(m),
                forall|m: Move|
                    #![trigger self.remaining().contains(m)]
                    self.remaining().contains(m) <==> list@.contains(m) || it.remaining().contains(
                        m,
                    ),
            ensures
                list@.no_duplicates(),
                forall|m: Move| #[trigger] list@.contains(m) <==> self.remaining().contains(m),
            decreases it.stages_left(), it.pending().len(),
        {
            let ghost before = it;
            let ghost listed_before = list@;
            match it.next() {
                Some(m) => {
                    proof {
                        lemma_push_contains(list@, m);
                    }
                    list.push(m);
                    proof {
                        assert forall|x: Move|
                            #![trigger list@.contains(x)]
                            list@.contains(x) implies !it.remaining().contains(x) by {
                            assert(listed_before.contains(x) || x == m);
                            assert(it.remaining() == before.remaining().remove(m));
                            if listed_before.contains(x) {
                                assert(!before.remaining().contains(x));
                            }
                        }
                        assert forall|x: Move|
                            #![trigger self.remaining().contains(x)]
                            self.remaining().contains(x) <==> list@.contains(x)
                                || it.remaining().contains(x) by {
                            assert(listed_before.contains(x) ==> !before.remaining().contains(x));
                        }
                    }
                },
                None => {
                    break ;
                },
            }
        }
        list
    }
}

/// A move that a position offers can be made in it, if the counters have
/// room.
pub proof fn lemma_offered_is_applicable(v: PositionView, m: Move)
    requires
        v.wf(),
        offers(v, m),
        v.halfmove_clock < u64::MAX,
        v.fullmove_number < u64::MAX,
    ensures
        v.applicable(m),
{
    m.from.lemma_index_range();
    m.to.lemma_index_range();
}

/// Whether none of the pawns of the side to play stands on its last rank,
/// so that the moves of the position can be generated.
pub fn pawns_are_free(position: &Position) -> (r: bool)
    requires
        position.wf(),
    ensures
        r == pawns_can_advance(position@),
{
    let (pawns, last_rank_squares) = match position.side_to_play {
        Color::White => (position.white.pawns, Bitboard::new(0xff00_0000_0000_0000)),
        Color::Black => (position.black.pawns, Bitboard::new(0x0000_0000_0000_00ff)),
    };
    let on_last = pawns & last_rank_squares;
    let free = on_last.is_empty();
    proof {
        let side = position.side_to_play;
        let pawn = Piece { color: side, kind: PieceKind::Pawn };
        position.lemma_boards_show_view();
        assert forall|i: int| 0 <= i < 64 implies (last_rank_squares@.contains(i) <==> i / 8
            == last_rank(side)) by {
            let k = i as u64;
            assert(((0xff00_0000_0000_0000u64 >> k) & 1 == 1 <==> k >= 56) && ((
            0x0000_0000_0000_00ffu64 >> k) & 1 == 1 <==> k < 8)) by (bit_vector)
                requires
                    k < 64,
            ;
        }
        assert(pawns == position.army(side).board(PieceKind::Pawn));
        if free {
            assert forall|i: int| 0 <= i < 64 && #[trigger] position@.board[i] == Some(
                pawn,
            ) implies i / 8 != last_rank(side) by {
                assert(position.army(side).board(PieceKind::Pawn)@.contains(i));
                assert(!on_last@.contains(i));
            }
        } else {
            lemma_no_bits(on_last.0);
            let i = choose|i: int| has_bit(on_last.0, i);
            assert(on_last@.contains(i));
            assert(position.army(side).board(PieceKind::Pawn)@.contains(i));
            assert(last_rank_squares@.contains(i));
            assert(position@.board[i] == Some(pawn));
        }
    }
    free
}

} // verus!
