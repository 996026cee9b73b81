//! Boards as text: an 8 by 8 grid, the eighth rank on top, one mark per
//! square.

use vstd::prelude::*;
use vstd::string::StringExecFns;
use crate::bitboard::Bitboard;
use crate::position::{Color, Piece, PieceKind, Position, PositionView};
use crate::square::Square;

verus! {

/// The line between two ranks of a grid.
pub open spec fn rule_text() -> Seq<char> {
    "+---+---+---+---+---+---+---+---+\n"@
}

/// The first `files` squares of a rank of a grid, after the bar that opens
/// the rank.
pub open spec fn rank_text(marks: Seq<Seq<char>>, rank: int, files: int) -> Seq<char>
    decreases files,
{
    if files <= 0 {
        "|"@
    } else {
        rank_text(marks, rank, files - 1) + " "@ + marks[8 * rank + files - 1] + " |"@
    }
}

/// The top `ranks` ranks of a grid, from the eighth down, between rules.
pub open spec fn grid_text(marks: Seq<Seq<char>>, ranks: int) -> Seq<char>
    decreases ranks,
{
    if ranks <= 0 {
        rule_text()
    } else {
        grid_text(marks, ranks - 1) + rank_text(marks, 8 - ranks, 8) + "\n"@ + rule_text()
    }
}

/// One decimal digit as text.
pub open spec fn digit_text(d: int) -> Seq<char> {
    if d == 0 {
        "0"@
    } else if d == 1 {
        "1"@
    } else if d == 2 {
        "2"@
    } else if d == 3 {
        "3"@
    } else if d == 4 {
        "4"@
    } else if d == 5 {
        "5"@
    } else if d == 6 {
        "6"@
    } else if d == 7 {
        "7"@
    } else if d == 8 {
        "8"@
    } else {
        "9"@
    }
}

/// A number in decimal, without leading zeros.
pub open spec fn decimal_text(n: nat) -> Seq<char>
    decreases n,
{
    if n < 10 {
        digit_text(n as int)
    } else {
        decimal_text(n / 10) + digit_text((n % 10) as int)
    }
}

/// A truth value as text.
pub open spec fn bool_text(b: bool) -> Seq<char> {
    if b {
        "true"@
    } else {
        "false"@
    }
}

/// The name of a side.
pub open spec fn color_text(c: Color) -> Seq<char> {
    match c {
        Color::White => "White"@,
        Color::Black => "Black"@,
    }
}

/// The letter of a piece: upper case for White, lower case for Black.
pub open spec fn piece_text(p: Piece) -> Seq<char> {
    match (p.color, p.kind) {
        (Color::White, PieceKind::Pawn) => "P"@,
        (Color::White, PieceKind::Knight) => "N"@,
        (Color::White, PieceKind::Bishop) => "B"@,
        (Color::White, PieceKind::Rook) => "R"@,
        (Color::White, PieceKind::Queen) => "Q"@,
        (Color::White, PieceKind::King) => "K"@,
        (Color::Black, PieceKind::Pawn) => "p"@,
        (Color::Black, PieceKind::Knight) => "n"@,
        (Color::Black, PieceKind::Bishop) => "b"@,
        (Color::Black, PieceKind::Rook) => "r"@,
        (Color::Black, PieceKind::Queen) => "q"@,
        (Color::Black, PieceKind::King) => "k"@,
    }
}

/// The en passant target as text.
pub open spec fn en_passant_text(target: Option<Square>) -> Seq<char> {
    match target {
        Some(sq) => "Some(Square("@ + decimal_text(sq.index() as nat) + "))"@,
        None => "None"@,
    }
}

/// The marks of a set of squares: an X on each of its squares.
pub open spec fn set_marks(squares: Set<int>) -> Seq<Seq<char>> {
    Seq::new(
        64,
        |i: int|
            if squares.contains(i) {
                "X"@
            } else {
                " "@
            },
    )
}

/// The marks of a board: the letter of the piece on each occupied square.
pub open spec fn board_marks(board: Seq<Option<Piece>>) -> Seq<Seq<char>> {
    Seq::new(
        64,
        |i: int|
            match board[i] {
                Some(p) => piece_text(p),
                None => " "@,
            },
    )
}

impl PositionView {
    /// The position as text: the grid of its board, then who is to play, the
    /// en passant target, the castling rights and the counters, a line each.
    pub open spec fn text(self) -> Seq<char> {
        grid_text(board_marks(self.board), 8) + "To play: "@ + color_text(self.side_to_play)
            + "\n"@ + "En passant: "@ + en_passant_text(self.en_passant) + "\n"@ + "OO: "@
            + bool_text(self.white_can_oo) + ", OOO: "@ + bool_text(self.white_can_ooo)
            + ", oo: "@ + bool_text(self.black_can_oo) + ", ooo: "@ + bool_text(
            self.black_can_ooo,
        ) + "\n"@ + "Half-move: "@ + decimal_text(self.halfmove_clock as nat) + ", Full-move: "@
            + decimal_text(self.fullmove_number as nat) + "\n"@
    }
}

/// One decimal digit as text.
fn digit_str(d: u64) -> (s: &'static str)
    requires
        d < 10,
    ensures
        s@ == digit_text(d as int),
{
    if d == 0 {
        "0"
    } else if d == 1 {
        "1"
    } else if d == 2 {
        "2"
    } else if d == 3 {
        "3"
    } else if d == 4 {
        "4"
    } else if d == 5 {
        "5"
    } else if d == 6 {
        "6"
    } else if d == 7 {
        "7"
    } else if d == 8 {
        "8"
    } else {
        "9"
    }
}

/// Appends a number in decimal to a text.
fn append_decimal(out: &mut String, n: u64)
    ensures
        final(out)@ == old(out)@ + decimal_text(n as nat),
    decreases n,
{
    if n < 10 {
        out.append(digit_str(n));
    } else {
        append_decimal(out, n / 10);
        out.append(digit_str(n % 10));
        assert(out@ =~= old(out)@ + decimal_text(n as nat));
    }
}

/// A truth value as text.
fn bool_str(b: bool) -> (s: &'static str)
    ensures
        s@ == bool_text(b),
{
    if b {
        "true"
    } else {
        "false"
    }
}

/// Appends a grid with the given marks to a text.
fn append_grid(out: &mut String, marks: &Vec<&'static str>)
    requires
        marks.len() == 64,
    ensures
        final(out)@ == old(out)@ + grid_text(Seq::new(64, |i: int| marks@[i]@), 8),
{
    let ghost texts = Seq::new(64, |i: int| marks@[i]@);
    let line = "+---+---+---+---+---+---+---+---+\n";
    out.append(line);
    let mut done: u8 = 0;
    while done < 8
        invariant
            done <= 8,
            marks.len() == 64,
            texts == Seq::new(64, |i: int| marks@[i]@),
            line@ == rule_text(),
            out@ == old(out)@ + grid_text(texts, done as int),
        decreases 8 - done,
    {
        let rank: u8 = 7 - done;
        let ghost start = out@;
        out.append("|");
        let mut file: u8 = 0;
        while file < 8
            invariant
                file <= 8,
                rank < 8,
                marks.len() == 64,
                texts == Seq::new(64, |i: int| marks@[i]@),
                out@ == start + rank_text(texts, rank as int, file as int),
            decreases 8 - file,
        {
            let ghost before = out@;
            out.append(" ");
            out.append(marks[(rank * 8 + file) as usize]);
            out.append(" |");
            proof {
                assert(texts[8 * rank + file] == marks@[8 * rank + file]@);
                assert(out@ =~= start + rank_text(texts, rank as int, file + 1));
            }
            file = file + 1;
        }
        out.append("\n");
        out.append(line);
        proof {
            assert(out@ =~= old(out)@ + grid_text(texts, done + 1));
        }
        done = done + 1;
    }
}

impl Piece {
    /// The letter of the piece: upper case for White, lower case for Black.
    pub fn symbol(&self) -> (s: &'static str)
        ensures
            s@ == piece_text(*self),
    {
        match (self.color, self.kind) {
            (Color::White, PieceKind::Pawn) => "P",
            (Color::White, PieceKind::Knight) => "N",
            (Color::White, PieceKind::Bishop) => "B",
            (Color::White, PieceKind::Rook) => "R",
            (Color::White, PieceKind::Queen) => "Q",
            (Color::White, PieceKind::King) => "K",
            (Color::Black, PieceKind::Pawn) => "p",
            (Color::Black, PieceKind::Knight) => "n",
            (Color::Black, PieceKind::Bishop) => "b",
            (Color::Black, PieceKind::Rook) => "r",
            (Color::Black, PieceKind::Queen) => "q",
            (Color::Black, PieceKind::King) => "k",
        }
    }

    /// The piece as text: its letter.
    pub fn to_text(&self) -> (text: String)
        ensures
            text@ == piece_text(*self),
    {
        String::from_str(self.symbol())
    }
}

impl Bitboard {
    /// The set as text: a grid with an X on each of its squares.
    pub fn to_text(&self) -> (text: String)
        ensures
            text@ == grid_text(set_marks(self@), 8),
    {
        let mut marks: Vec<&'static str> = Vec::new();
        let mut i: u8 = 0;
        while i < 64
            invariant
                i <= 64,
                marks.len() == i,
                forall|j: int| 0 <= j < i ==> (#[trigger] marks@[j])@ == set_marks(self@)[j],
            decreases 64 - i,
        {
            let mark = if self.is_occupied(Square::new(i)) {
                "X"
            } else {
                " "
            };
            marks.push(mark);
            i = i + 1;
        }
        let mut text = String::from_str("");
        proof {
            reveal_strlit("");
        }
        append_grid(&mut text, &marks);
        proof {
            assert(Seq::new(64, |i: int| marks@[i]@) =~= set_marks(self@));
            assert(text@ =~= grid_text(set_marks(self@), 8));
        }
        text
    }
}

impl Position {
    /// The position as text: the grid of its board, then who is to play, the
    /// en passant target, the castling rights and the counters, a line each.
    pub fn to_text(&self) -> (text: String)
        ensures
            text@ == self@.text(),
    {
        let mut marks: Vec<&'static str> = Vec::new();
        let mut i: u8 = 0;
        while i < 64
            invariant
                i <= 64,
                marks.len() == i,
                forall|j: int| 0 <= j < i ==> (#[trigger] marks@[j])@ == board_marks(self@.board)[j],
            decreases 64 - i,
        {
            let mark = match self.piece_at(Square::new(i)) {
                Some(piece) => piece.symbol(),
                None => " ",
            };
            marks.push(mark);
            i = i + 1;
        }
        let mut text = String::from_str("");
        proof {
            reveal_strlit("");
        }
        append_grid(&mut text, &marks);
        proof {
            assert(Seq::new(64, |i: int| marks@[i]@) =~= board_marks(self@.board));
            assert(text@ =~= grid_text(board_marks(self@.board), 8));
        }
        text.append("To play: ");
        text.append(
            match self.side_to_play {
                Color::White => "White",
                Color::Black => "Black",
            },
        );
        text.append("\n");
        text.append("En passant: ");
        match self.en_passant {
            Some(sq) => {
                text.append("Some(Square(");
                append_decimal(&mut text, sq.to_index() as u64);
                text.append("))");
                assert(text@ =~= grid_text(board_marks(self@.board), 8) + "To play: "@
                    + color_text(self.side_to_play) + "\n"@ + "En passant: "@ + en_passant_text(
                    self.en_passant,
                ));
            },
            None => {
                text.append("None");
            },
        }
        text.append("\n");
        text.append("OO: ");
        text.append(bool_str(self.white_can_oo));
        text.append(", OOO: ");
        text.append(bool_str(self.white_can_ooo));
        text.append(", oo: ");
        text.append(bool_str(self.black_can_oo));
        text.append(", ooo: ");
        text.append(bool_str(self.black_can_ooo));
        text.append("\n");
        text.append("Half-move: ");
        append_decimal(&mut text, self.halfmove_clock);
        text.append(", Full-move: ");
        append_decimal(&mut text, self.fullmove_number);
        text.append("\n");
        text
    }
}

} // verus!
