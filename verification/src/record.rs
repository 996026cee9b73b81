//! Board descriptions: the plain record that a parser of Forsyth-Edwards
//! notation hands over, the call of the parser, and the guard that keeps
//! away from it the texts that it cannot take.

use vstd::prelude::*;
use vstd::string::StrSliceExecFns;
use crate::position::{Color, Piece, PieceKind, Position, PositionView};
use crate::square::Square;

verus! {

/// A parsed board description, in plain values.  A piece is a pair of codes:
/// the colour (0 white, 1 black) and the kind (0 pawn, 1 knight, 2 bishop,
/// 3 rook, 4 queen, 5 king).  `pieces` is indexed by square, a1 first, rank
/// by rank.  The side to play is a colour code.
#[derive(Clone, Debug, PartialEq, Eq)]
pub struct BoardRecord {
    pub pieces: Vec<Option<(u8, u8)>>,
    pub side_to_play: u8,
    pub white_can_oo: bool,
    pub white_can_ooo: bool,
    pub black_can_oo: bool,
    pub black_can_ooo: bool,
    pub en_passant_square: Option<u8>,
    pub halfmove_clock: u64,
    pub fullmove_number: u64,
}

/// What a record holds, with the list of its pieces as a sequence.
pub struct BoardRecordView {
    pub pieces: Seq<Option<(u8, u8)>>,
    pub side_to_play: u8,
    pub white_can_oo: bool,
    pub white_can_ooo: bool,
    pub black_can_oo: bool,
    pub black_can_ooo: bool,
    pub en_passant_square: Option<u8>,
    pub halfmove_clock: u64,
    pub fullmove_number: u64,
}

impl View for BoardRecord {
    type V = BoardRecordView;

    open spec fn view(&self) -> BoardRecordView {
        BoardRecordView {
            pieces: self.pieces@,
            side_to_play: self.side_to_play,
            white_can_oo: self.white_can_oo,
            white_can_ooo: self.white_can_ooo,
            black_can_oo: self.black_can_oo,
            black_can_ooo: self.black_can_ooo,
            en_passant_square: self.en_passant_square,
            halfmove_clock: self.halfmove_clock,
            fullmove_number: self.fullmove_number,
        }
    }
}

/// The colour that a code stands for.
pub open spec fn color_of_code(code: u8) -> Option<Color> {
    if code == 0 {
        Some(Color::White)
    } else if code == 1 {
        Some(Color::Black)
    } else {
        None
    }
}

/// The kind of piece that a code stands for.
pub open spec fn kind_of_code(code: u8) -> Option<PieceKind> {
    if code == 0 {
        Some(PieceKind::Pawn)
    } else if code == 1 {
        Some(PieceKind::Knight)
    } else if code == 2 {
        Some(PieceKind::Bishop)
    } else if code == 3 {
        Some(PieceKind::Rook)
    } else if code == 4 {
        Some(PieceKind::Queen)
    } else if code == 5 {
        Some(PieceKind::King)
    } else {
        None
    }
}

/// The piece that a pair of codes stands for.
pub open spec fn piece_of_codes(codes: (u8, u8)) -> Option<Piece> {
    match (color_of_code(codes.0), kind_of_code(codes.1)) {
        (Some(color), Some(kind)) => Some(Piece { color, kind }),
        _ => None,
    }
}

/// The colour that a code stands for.
pub fn color_from_code(code: u8) -> (r: Option<Color>)
    ensures
        r == color_of_code(code),
{
    if code == 0 {
        Some(Color::White)
    } else if code == 1 {
        Some(Color::Black)
    } else {
        None
    }
}

/// The kind of piece that a code stands for.
pub fn kind_from_code(code: u8) -> (r: Option<PieceKind>)
    ensures
        r == kind_of_code(code),
{
    if code == 0 {
        Some(PieceKind::Pawn)
    } else if code == 1 {
        Some(PieceKind::Knight)
    } else if code == 2 {
        Some(PieceKind::Bishop)
    } else if code == 3 {
        Some(PieceKind::Rook)
    } else if code == 4 {
        Some(PieceKind::Queen)
    } else if code == 5 {
        Some(PieceKind::King)
    } else {
        None
    }
}

impl BoardRecordView {
    /// The record describes a board: 64 squares, every code one of those
    /// listed, and an en passant square on the board.
    pub open spec fn valid(self) -> bool {
        &&& self.pieces.len() == 64
        &&& forall|i: int|
            0 <= i < 64 ==> (#[trigger] self.pieces[i] matches Some(codes) ==> piece_of_codes(
                codes,
            ) is Some)
        &&& color_of_code(self.side_to_play) is Some
        &&& self.en_passant_square matches Some(i) ==> i < 64
    }

    /// The piece that the record puts on square `i`.
    pub open spec fn piece_on(self, i: int) -> Option<Piece> {
        match self.pieces[i] {
            Some(codes) => piece_of_codes(codes),
            None => None,
        }
    }

    /// The position that a valid record describes.
    pub open spec fn position(self) -> PositionView {
        PositionView {
            board: Seq::new(64, |i: int| self.piece_on(i)),
            side_to_play: color_of_code(self.side_to_play)->0,
            white_can_oo: self.white_can_oo,
            white_can_ooo: self.white_can_ooo,
            black_can_oo: self.black_can_oo,
            black_can_ooo: self.black_can_ooo,
            en_passant: match self.en_passant_square {
                Some(i) => Some(Square::spec_new(i as int)),
                None => None,
            },
            halfmove_clock: self.halfmove_clock,
            fullmove_number: self.fullmove_number,
        }
    }
}

/// The number of spaces among the first `i` characters of `text`.
pub open spec fn spaces(text: Seq<char>, i: int) -> int
    decreases i,
{
    if i <= 0 {
        0
    } else {
        spaces(text, i - 1) + if text[i - 1] == ' ' {
            1int
        } else {
            0int
        }
    }
}

/// The number of slashes among the first `i` characters of `text`.
pub open spec fn slashes(text: Seq<char>, i: int) -> int
    decreases i,
{
    if i <= 0 {
        0
    } else {
        slashes(text, i - 1) + if text[i - 1] == '/' {
            1int
        } else {
            0int
        }
    }
}

/// Whether a character is one of the ten digits.
pub open spec fn is_digit(c: char) -> bool {
    '0' <= c <= '9'
}

/// The number that a digit stands for.
pub open spec fn digit_value(c: char) -> int {
    c as int - '0' as int
}

/// How many squares the characters since the last slash, up to but not
/// including character `i`, take up: a digit as many as it says, any other
/// character one.
pub open spec fn run_width(text: Seq<char>, i: int) -> int
    decreases i,
{
    if i <= 0 {
        0
    } else if text[i - 1] == '/' {
        0
    } else if is_digit(text[i - 1]) {
        run_width(text, i - 1) + digit_value(text[i - 1])
    } else {
        run_width(text, i - 1) + 1
    }
}

/// Whether character `i` of a piece placement keeps to the board: a slash
/// starts at most the eighth rank, a digit leaves at most eight squares taken
/// in its rank, and a piece letter lands on one of the 64 squares, counting
/// on from the last rank of the text.
pub open spec fn placement_step_fits(text: Seq<char>, i: int) -> bool {
    if text[i] == '/' {
        slashes(text, i) < 7
    } else if is_digit(text[i]) {
        run_width(text, i) + digit_value(text[i]) <= 8
    } else {
        run_width(text, i) < 8 * (slashes(text, i) + 1)
    }
}

/// Whether every character of the piece placement, the part of `text` before
/// its first space, keeps to the board.
pub open spec fn placement_fits(text: Seq<char>) -> bool {
    forall|i: int|
        0 <= i < text.len() && spaces(text, i + 1) == 0 ==> #[trigger] placement_step_fits(text, i)
}

/// Whether character `i` is all of the fourth field of `text` (the en
/// passant target) and is one that takes two bytes.
pub open spec fn wide_en_passant_at(text: Seq<char>, i: int) -> bool {
    &&& spaces(text, i) == 3
    &&& i > 0
    &&& text[i - 1] == ' '
    &&& (i + 1 == text.len() || text[i + 1] == ' ')
    &&& 0x80 <= text[i] as int <= 0x7ff
}

/// Whether the fourth field of `text` is something other than a single
/// two-byte character.
pub open spec fn en_passant_fits(text: Seq<char>) -> bool {
    forall|i: int| 0 <= i < text.len() ==> !#[trigger] wide_en_passant_at(text, i)
}

/// Whether the parser can be given the text.
pub open spec fn parser_can_take(text: Seq<char>) -> bool {
    placement_fits(text) && en_passant_fits(text)
}

/// A longer part of a text holds at least as many spaces.
proof fn lemma_spaces_grow(text: Seq<char>, a: int, b: int)
    requires
        a <= b,
    ensures
        spaces(text, a) <= spaces(text, b),
        spaces(text, a) >= 0,
    decreases b - a,
{
    if a < b {
        lemma_spaces_grow(text, a, b - 1);
    } else {
        lemma_spaces_count(text, a);
    }
}

/// A part of a text holds no more spaces than characters.
proof fn lemma_spaces_count(text: Seq<char>, a: int)
    ensures
        0 <= spaces(text, a),
        a >= 0 ==> spaces(text, a) <= a,
    decreases a,
{
    if a > 0 {
        lemma_spaces_count(text, a - 1);
    }
}

/// Whether the piece placement of `text` keeps to the board.
pub fn placement_keeps_to_board(text: &str) -> (ok: bool)
    ensures
        ok == placement_fits(text@),
{
    let n = text.unicode_len();
    let mut i: usize = 0;
    let mut width: u64 = 0;
    let mut lines: u64 = 0;
    while i < n
        invariant
            n == text@.len(),
            i <= n,
            spaces(text@, i as int) == 0,
            width == run_width(text@, i as int),
            lines == slashes(text@, i as int),
            lines <= 7,
            width <= 64,
            forall|j: int| 0 <= j < i ==> placement_step_fits(text@, j),
        decreases n - i,
    {
        let c = text.get_char(i);
        if c == ' ' {
            proof {
                assert forall|j: int|
                    0 <= j < text@.len() && spaces(text@, j + 1) == 0 implies #[trigger] placement_step_fits(
                    text@,
                    j,
                ) by {
                    if j >= i {
                        lemma_spaces_grow(text@, i + 1, j + 1);
                    }
                }
            }
            return true;
        }
        if c == '/' {
            if lines >= 7 {
                assert(!placement_step_fits(text@, i as int));
                return false;
            }
            lines = lines + 1;
            width = 0;
        } else if '0' <= c && c <= '9' {
            let d: u64 = (c as u32 - '0' as u32) as u64;
            if width + d > 8 {
                assert(!placement_step_fits(text@, i as int));
                return false;
            }
            width = width + d;
        } else {
            if width >= 8 * (lines + 1) {
                assert(!placement_step_fits(text@, i as int));
                return false;
            }
            width = width + 1;
        }
        i = i + 1;
    }
    true
}

/// Whether the en passant field of `text` is something other than a single
/// two-byte character.
pub fn en_passant_keeps_to_bytes(text: &str) -> (ok: bool)
    ensures
        ok == en_passant_fits(text@),
{
    let n = text.unicode_len();
    let mut i: usize = 0;
    let mut seen: usize = 0;
    while i < n
        invariant
            n == text@.len(),
            i <= n,
            seen == spaces(text@, i as int),
            seen <= i,
            forall|j: int| 0 <= j < i ==> !wide_en_passant_at(text@, j),
        decreases n - i,
    {
        let c = text.get_char(i);
        if seen == 3 && i > 0 && 0x80 <= c as u32 && c as u32 <= 0x7ff {
            let alone = text.get_char(i - 1) == ' ' && (i + 1 == n || text.get_char(i + 1) == ' ');
            if alone {
                assert(wide_en_passant_at(text@, i as int));
                return false;
            }
        }
        if c == ' ' {
            seen = seen + 1;
        }
        i = i + 1;
    }
    true
}

/// What the parser makes of a text: the record it reads, or the message
/// with which it refuses the text.
pub uninterp spec fn parsed_fen(text: Seq<char>) -> Result<BoardRecordView, Seq<char>>;

/// Calls `fen::BoardState::from_fen` and copies what comes back into plain
/// values: each colour and kind as the number of its variant, an error as
/// its debug text.  The contract claims only that the outcome is a function
/// of the text.  It leaves out the texts on which that function indexes
/// past the 64 squares or past the characters of the en passant field.
#[verifier::external_body]
fn parse_fen(text: &str) -> (r: Result<BoardRecord, String>)
    requires
        parser_can_take(text@),
    ensures
        match r {
            Ok(record) => parsed_fen(text@) == Ok::<BoardRecordView, Seq<char>>(record@),
            Err(message) => parsed_fen(text@) == Err::<BoardRecordView, Seq<char>>(message@),
        },
{
    match fen::BoardState::from_fen(text) {
        Ok(b) => Ok(BoardRecord {
            pieces: b.pieces.iter().map(|p| p.as_ref().map(|q| (q.color.clone() as u8, q.kind.clone() as u8))).collect(),
            side_to_play: b.side_to_play as u8,
            white_can_oo: b.white_can_oo,
            white_can_ooo: b.white_can_ooo,
            black_can_oo: b.black_can_oo,
            black_can_ooo: b.black_can_ooo,
            en_passant_square: b.en_passant_square,
            halfmove_clock: b.halfmove_clock,
            fullmove_number: b.fullmove_number,
        }),
        Err(e) => Err(format!("{:?}", e)),
    }
}

/// Why a text gave no position.
#[derive(Clone, Debug, PartialEq, Eq)]
pub enum FenError {
    /// The piece placement runs off the board, or the en passant field is a
    /// single two-byte character: the parser is not given such a text.
    OffBoard,
    /// The parser refused the text, with this message.
    Rejected(String),
    /// The parser's record does not describe a board.
    BadRecord,
}

impl Position {
    /// The position that a record describes, if it describes one.
    pub fn from_record(record: &BoardRecord) -> (r: Option<Position>)
        ensures
            r is Some <==> record@.valid(),
            r matches Some(p) ==> p.wf() && p@ == record@.position(),
    {
        if record.pieces.len() != 64 {
            return None;
        }
        let side = match color_from_code(record.side_to_play) {
            Some(side) => side,
            None => {
                return None;
            },
        };
        let en_passant = match record.en_passant_square {
            Some(i) => {
                if i >= 64 {
                    return None;
                }
                Some(Square::new(i))
            },
            None => None,
        };
        let mut position = Position::default();
        let ghost empty = position;
        let mut i: u8 = 0;
        while i < 64
            invariant
                i <= 64,
                record.pieces@.len() == 64,
                position.wf(),
                position.same_state(empty),
                forall|j: int| 0 <= j < i ==> #[trigger] position.piece_on(j) == record@.piece_on(j),
                forall|j: int| i <= j ==> #[trigger] position.piece_on(j) is None,
                forall|j: int|
                    0 <= j < i ==> (#[trigger] record@.pieces[j] matches Some(codes)
                        ==> piece_of_codes(codes) is Some),
            decreases 64 - i,
        {
            match record.pieces[i as usize] {
                Some((color_code, kind_code)) => {
                    match (color_from_code(color_code), kind_from_code(kind_code)) {
                        (Some(color), Some(kind)) => {
                            position.put(Piece::new(color, kind), Square::new(i));
                        },
                        _ => {
                            assert(record@.pieces[i as int] is Some);
                            return None;
                        },
                    }
                },
                None => {},
            }
            i = i + 1;
        }
        let ghost filled = position;
        position.side_to_play = side;
        position.white_can_oo = record.white_can_oo;
        position.white_can_ooo = record.white_can_ooo;
        position.black_can_oo = record.black_can_oo;
        position.black_can_ooo = record.black_can_ooo;
        position.en_passant = en_passant;
        position.halfmove_clock = record.halfmove_clock;
        position.fullmove_number = record.fullmove_number;
        proof {
            assert forall|j: int| #[trigger] position.piece_on(j) == filled.piece_on(j) by {}
            assert(position@.board =~= record@.position().board);
        }
        Some(position)
    }

    /// The position that a text in Forsyth-Edwards notation describes.
    pub fn from_fen(fen: &str) -> (r: Result<Position, FenError>)
        ensures
            match r {
                Ok(p) => {
                    &&& parser_can_take(fen@)
                    &&& parsed_fen(fen@) matches Ok(record)
                    &&& record.valid()
                    &&& p.wf()
                    &&& p@ == record.position()
                },
                Err(FenError::OffBoard) => !parser_can_take(fen@),
                Err(FenError::Rejected(message)) => {
                    &&& parser_can_take(fen@)
                    &&& parsed_fen(fen@) == Err::<BoardRecordView, Seq<char>>(message@)
                },
                Err(FenError::BadRecord) => {
                    &&& parser_can_take(fen@)
                    &&& parsed_fen(fen@) matches Ok(record)
                    &&& !record.valid()
                },
            },
    {
        if !placement_keeps_to_board(fen) || !en_passant_keeps_to_bytes(fen) {
            return Err(FenError::OffBoard);
        }
        match parse_fen(fen) {
            Ok(record) => match Position::from_record(&record) {
                Some(position) => Ok(position),
                None => Err(FenError::BadRecord),
            },
            Err(message) => Err(FenError::Rejected(message)),
        }
    }
}

} // verus!
