use ajaccio::motion::{CastlingType, Move};
use ajaccio::position::{Color, Piece, PieceKind, Position};
use ajaccio::square::Square;

#[test]
fn fen_parsing() {
    let fen = "rnbqkbnr/pppppppp/8/8/4P3/8/PPPP1PPP/RNBQKBNR b KQkq e3 0 1";
    let position = Position::from_fen(fen).unwrap();

    assert_eq!(Color::Black, position.side_to_play);
    assert!(position.white_can_oo);
    assert!(position.white_can_ooo);
    assert!(position.black_can_oo);
    assert!(position.black_can_ooo);
    assert_eq!(Some(Square::from_san("e3")), position.en_passant);
    assert_eq!(0, position.halfmove_clock);
    assert_eq!(1, position.fullmove_number);
}

#[test]
fn piece_at() {
    let fen = "rnbqkbnr/pppppppp/8/8/4P3/8/PPPP1PPP/RNBQKBNR b KQkq e3 0 1";
    let position = Position::from_fen(fen).unwrap();

    let white_rook = Piece::new(Color::White, PieceKind::Rook);
    assert_eq!(Some(white_rook), position.piece_at(Square::from_san("a1")));
}

#[test]
fn make_move_e2e4_e7e5() {
    let fen = "rnbqkbnr/pppppppp/8/8/8/8/PPPPPPPP/RNBQKBNR w KQkq - 0 1";
    let mut position = Position::from_fen(fen).unwrap();

    let motion = Move {
        from: Square::from_san("e2"),
        to: Square::from_san("e4"),
        promote_to: None,
        castling: None
    };

    position.make_move(motion);

    let white_pawn = Piece::new(Color::White, PieceKind::Pawn);
    assert_eq!(Some(white_pawn), position.piece_at(Square::from_san("e4")));
    assert_eq!(None, position.piece_at(Square::from_san("e2")));
    assert_eq!(Some(Square::from_san("e3")), position.en_passant);

    let motion = Move {
        from: Square::from_san("e7"),
        to: Square::from_san("e5"),
        promote_to: None,
        castling: None
    };

    position.make_move(motion);

    let black_pawn = Piece::new(Color::Black, PieceKind::Pawn);
    assert_eq!(Some(black_pawn), position.piece_at(Square::from_san("e5")));
    assert_eq!(None, position.piece_at(Square::from_san("e7")));
    assert_eq!(Some(Square::from_san("e6")), position.en_passant);

    assert_eq!(2, position.fullmove_number);
}

#[test]
fn make_move_capture() {
    let fen = "r1bqkbnr/pppp1ppp/2n5/4p3/4P3/5N2/PPPP1PPP/RNBQKB1R w KQkq - 0 2";
    let mut position = Position::from_fen(fen).unwrap();

    let motion = Move {
        from: Square::from_san("f3"),
        to: Square::from_san("e5"),
        promote_to: None,
        castling: None
    };

    position.make_move(motion);

    let white_knight = Piece::new(Color::White, PieceKind::Knight);
    assert_eq!(Some(white_knight), position.piece_at(Square::from_san("e5")));
    assert_eq!(None, position.piece_at(Square::from_san("f3")));
    assert_eq!(0, position.halfmove_clock);

    let motion = Move {
        from: Square::from_san("c6"),
        to: Square::from_san("e5"),
        promote_to: None,
        castling: None
    };

    position.make_move(motion);

    let black_knight = Piece::new(Color::Black, PieceKind::Knight);
    assert_eq!(Some(black_knight), position.piece_at(Square::from_san("e5")));
    assert_eq!(None, position.piece_at(Square::from_san("c6")));
    assert_eq!(0, position.halfmove_clock);
}

#[test]
fn make_move_castle() {
    let fen = "r3k2r/8/8/8/8/8/8/R3K2R w KQkq - 0 1";
    let mut position = Position::from_fen(fen).unwrap();

    let motion = Move {
        from: Square::from_san("e1"),
        to: Square::from_san("g1"),
        promote_to: None,
        castling: Some(CastlingType::Kingside)
    };

    position.make_move(motion);

    let white_king = Piece::new(Color::White, PieceKind::King);
    let white_rook = Piece::new(Color::White, PieceKind::Rook);
    assert_eq!(Some(white_king), position.piece_at(Square::from_san("g1")));
    assert_eq!(Some(white_rook), position.piece_at(Square::from_san("f1")));
    assert_eq!(None, position.piece_at(Square::from_san("h1")));
    assert!(!position.white_can_oo);
    assert!(!position.white_can_ooo);

    let motion = Move {
        from: Square::from_san("a8"),
        to: Square::from_san("a6"),
        promote_to: None,
        castling: None
    };

    position.make_move(motion);

    assert!(position.black_can_oo);
    assert!(!position.black_can_ooo);
}

#[test]
fn make_move_promotion() {
    let fen = "8/7P/8/5K1k/8/8/8/8 w - - 0 1";
    let mut position = Position::from_fen(fen).unwrap();

    let motion = Move {
        from: Square::from_san("h7"),
        to: Square::from_san("h8"),
        promote_to: Some(PieceKind::Rook),
        castling: None
    };

    position.make_move(motion);

    let white_rook = Piece::new(Color::White, PieceKind::Rook);
    assert_eq!(Some(white_rook), position.piece_at(Square::from_san("h8")));
    assert_eq!(None, position.piece_at(Square::from_san("h7")));
}

#[test]
fn make_ummake_moves() {
    let fen = "rnbqkbnr/pppppppp/8/8/8/8/PPPPPPPP/RNBQKBNR w KQkq - 0 1";
    let mut position = Position::from_fen(fen).unwrap();
    let original1 = position.clone();

    let motion1 = Move {
        from: Square::from_san("e2"),
        to: Square::from_san("e4"),
        promote_to: None,
        castling: None
    };

    let undo1 = position.make_move(motion1);
    let original2 = position.clone();

    let motion2 = Move {
        from: Square::from_san("e7"),
        to: Square::from_san("e5"),
        promote_to: None,
        castling: None
    };

    let undo2 = position.make_move(motion2);

    position.undo_move(motion2, undo2);
    assert_eq!(original2, position);
    position.undo_move(motion1, undo1);
    assert_eq!(original1, position);
}

#[test]
fn make_unmake_capture() {
    let fen = "r1bqkbnr/pppp1ppp/2n5/4p3/4P3/5N2/PPPP1PPP/RNBQKB1R w KQkq - 0 2";
    let mut position = Position::from_fen(fen).unwrap();
    let original = position.clone();

    let motion = Move {
        from: Square::from_san("f3"),
        to: Square::from_san("e5"),
        promote_to: None,
        castling: None
    };

    let undo = position.make_move(motion);
    position.undo_move(motion, undo);

    assert_eq!(original, position);
}

#[test]
fn make_unmake_castle() {
    let fen = "r3k2r/8/8/8/8/8/8/R3K2R w KQkq - 0 1";
    let mut position = Position::from_fen(fen).unwrap();
    let original = position.clone();

    let motion = Move {
        from: Square::from_san("e1"),
        to: Square::from_san("g1"),
        promote_to: None,
        castling: Some(CastlingType::Kingside)
    };

    let undo = position.make_move(motion);
    position.undo_move(motion, undo);

    assert_eq!(original, position);
}

#[test]
fn make_unmake_promotion() {
    let fen = "8/7P/8/5K1k/8/8/8/8 w - - 0 1";
    let mut position = Position::from_fen(fen).unwrap();
    let original = position.clone();

    let motion = Move {
        from: Square::from_san("h7"),
        to: Square::from_san("h8"),
        promote_to: Some(PieceKind::Rook),
        castling: None
    };

    let undo = position.make_move(motion);
    position.undo_move(motion, undo);

    assert_eq!(original, position);
}

use ajaccio::bitboard::Bitboard;
use ajaccio::position::{rook_dest_square, rook_home_square, Army, UndoContext};
use ajaccio::record::{BoardRecord, FenError};

fn plain(from: &str, to: &str) -> Move {
    Move { from: Square::from_san(from), to: Square::from_san(to), promote_to: None, castling: None }
}

fn castle(from: &str, to: &str, wing: CastlingType) -> Move {
    Move {
        from: Square::from_san(from),
        to: Square::from_san(to),
        promote_to: None,
        castling: Some(wing),
    }
}

fn unions_hold(position: &Position) {
    let w = &position.white;
    let b = &position.black;
    assert_eq!(w.all, w.pawns | w.knights | w.bishops | w.rooks | w.queens | w.king);
    assert_eq!(b.all, b.pawns | b.knights | b.bishops | b.rooks | b.queens | b.king);
    assert_eq!(position.all, w.all | b.all);
    assert!((w.all & b.all).is_empty());
}

#[test]
fn black_castles_kingside_with_its_own_rook() {
    let mut position = Position::from_fen("r3k2r/8/8/8/8/8/8/R3K2R b KQkq - 3 7").unwrap();
    let original = position.clone();
    let motion = castle("e8", "g8", CastlingType::Kingside);

    let undo = position.make_move(motion);

    let black_king = Piece::new(Color::Black, PieceKind::King);
    let black_rook = Piece::new(Color::Black, PieceKind::Rook);
    let white_rook = Piece::new(Color::White, PieceKind::Rook);
    assert_eq!(Some(black_king), position.piece_at(Square::from_san("g8")));
    assert_eq!(Some(black_rook), position.piece_at(Square::from_san("f8")));
    assert_eq!(None, position.piece_at(Square::from_san("h8")));
    assert_eq!(None, position.piece_at(Square::from_san("e8")));
    assert_eq!(Some(black_rook), position.piece_at(Square::from_san("a8")));
    assert_eq!(Some(white_rook), position.piece_at(Square::from_san("h1")));
    assert_eq!(Some(white_rook), position.piece_at(Square::from_san("a1")));
    assert!(position.white_can_oo && position.white_can_ooo);
    assert!(!position.black_can_oo && !position.black_can_ooo);
    assert_eq!(Color::White, position.side_to_play);
    assert_eq!(4, position.halfmove_clock);
    assert_eq!(8, position.fullmove_number);
    assert_eq!(None, position.en_passant);
    unions_hold(&position);

    position.undo_move(motion, undo);
    assert_eq!(original, position);
}

#[test]
fn black_castles_queenside_with_its_own_rook() {
    let mut position = Position::from_fen("r3k2r/8/8/8/8/8/8/R3K2R b KQkq - 0 1").unwrap();
    let original = position.clone();
    let motion = castle("e8", "c8", CastlingType::Queenside);

    let undo = position.make_move(motion);

    let black_king = Piece::new(Color::Black, PieceKind::King);
    let black_rook = Piece::new(Color::Black, PieceKind::Rook);
    assert_eq!(Some(black_king), position.piece_at(Square::from_san("c8")));
    assert_eq!(Some(black_rook), position.piece_at(Square::from_san("d8")));
    assert_eq!(None, position.piece_at(Square::from_san("a8")));
    assert_eq!(Some(black_rook), position.piece_at(Square::from_san("h8")));
    assert_eq!(original.white, position.white);
    unions_hold(&position);

    position.undo_move(motion, undo);
    assert_eq!(original, position);
}

#[test]
fn white_castles_queenside() {
    let mut position = Position::from_fen("r3k2r/8/8/8/8/8/8/R3K2R w KQkq - 0 1").unwrap();
    let original = position.clone();
    let motion = castle("e1", "c1", CastlingType::Queenside);

    let undo = position.make_move(motion);

    let white_king = Piece::new(Color::White, PieceKind::King);
    let white_rook = Piece::new(Color::White, PieceKind::Rook);
    assert_eq!(Some(white_king), position.piece_at(Square::from_san("c1")));
    assert_eq!(Some(white_rook), position.piece_at(Square::from_san("d1")));
    assert_eq!(None, position.piece_at(Square::from_san("a1")));
    assert_eq!(original.black, position.black);
    assert!(undo.reset_oo && undo.reset_ooo);

    position.undo_move(motion, undo);
    assert_eq!(original, position);
}

#[test]
fn a_move_that_is_no_double_step_clears_en_passant() {
    let fen = "rnbqkbnr/pppppppp/8/8/4P3/8/PPPP1PPP/RNBQKBNR b KQkq e3 0 1";
    let mut position = Position::from_fen(fen).unwrap();
    let original = position.clone();
    let motion = plain("g8", "f6");

    let undo = position.make_move(motion);
    assert_eq!(None, position.en_passant);
    assert_eq!(Some(Square::from_san("e3")), undo.en_passant);
    assert_eq!(1, position.halfmove_clock);
    assert_eq!(2, position.fullmove_number);

    position.undo_move(motion, undo);
    assert_eq!(original, position);

    // a single step of a pawn sets no target either
    let mut position = Position::from_fen(fen).unwrap();
    position.make_move(plain("e7", "e6"));
    assert_eq!(None, position.en_passant);
}

#[test]
fn the_clock_counts_quiet_moves_of_pieces() {
    let fen = "rnbqkbnr/pppppppp/8/8/8/8/PPPPPPPP/RNBQKBNR w KQkq - 5 9";
    let mut position = Position::from_fen(fen).unwrap();
    let undo = position.make_move(plain("g1", "f3"));
    assert_eq!(6, position.halfmove_clock);
    assert_eq!(9, position.fullmove_number);
    assert_eq!(Color::Black, position.side_to_play);
    assert_eq!(
        UndoContext {
            halfmove_clock: 5,
            captured: None,
            en_passant: None,
            reset_oo: false,
            reset_ooo: false
        },
        undo
    );
    position.make_move(plain("e7", "e5"));
    assert_eq!(0, position.halfmove_clock);
    assert_eq!(10, position.fullmove_number);
}

#[test]
fn a_capture_is_recorded_and_taken_back() {
    let fen = "r1bqkbnr/pppp1ppp/2n5/4p3/4P3/5N2/PPPP1PPP/RNBQKB1R w KQkq - 4 2";
    let mut position = Position::from_fen(fen).unwrap();
    let original = position.clone();
    let motion = plain("f3", "e5");
    let undo = position.make_move(motion);
    assert_eq!(Some(PieceKind::Pawn), undo.captured);
    assert_eq!(4, undo.halfmove_clock);
    assert!(!position.black.pawns.is_occupied(Square::from_san("e5")));
    assert_eq!(7, position.black.pawns.num_occupied_squares());
    unions_hold(&position);
    position.undo_move(motion, undo);
    assert_eq!(original, position);
}

#[test]
fn a_rook_that_leaves_its_corner_gives_up_one_right() {
    let mut position = Position::from_fen("r3k2r/8/8/8/8/8/8/R3K2R w KQkq - 0 1").unwrap();
    let original = position.clone();
    let motion = plain("h1", "h4");
    let undo = position.make_move(motion);
    assert!(!position.white_can_oo);
    assert!(position.white_can_ooo);
    assert!(position.black_can_oo && position.black_can_ooo);
    assert!(undo.reset_oo);
    assert!(!undo.reset_ooo);
    position.undo_move(motion, undo);
    assert_eq!(original, position);

    let motion = plain("a1", "a4");
    let undo = position.make_move(motion);
    assert!(position.white_can_oo);
    assert!(!position.white_can_ooo);
    assert!(!undo.reset_oo);
    assert!(undo.reset_ooo);
    position.undo_move(motion, undo);
    assert_eq!(original, position);
}

#[test]
fn rights_that_were_not_held_are_not_given_by_taking_back() {
    let mut position = Position::from_fen("r3k2r/8/8/8/8/8/8/R3K2R w Qk - 0 1").unwrap();
    let original = position.clone();

    let motion = plain("e1", "e2");
    let undo = position.make_move(motion);
    assert!(!position.white_can_oo && !position.white_can_ooo);
    assert!(position.black_can_oo && !position.black_can_ooo);
    assert!(!undo.reset_oo);
    assert!(undo.reset_ooo);
    position.undo_move(motion, undo);
    assert_eq!(original, position);

    let motion = plain("h1", "h2");
    let undo = position.make_move(motion);
    assert!(!undo.reset_oo && !undo.reset_ooo);
    position.undo_move(motion, undo);
    assert_eq!(original, position);
}

#[test]
fn a_black_king_move_leaves_the_rights_of_white() {
    let mut position = Position::from_fen("r3k2r/8/8/8/8/8/8/R3K2R b KQkq - 0 1").unwrap();
    let original = position.clone();
    let motion = plain("e8", "e7");
    let undo = position.make_move(motion);
    assert!(position.white_can_oo && position.white_can_ooo);
    assert!(!position.black_can_oo && !position.black_can_ooo);
    position.undo_move(motion, undo);
    assert_eq!(original, position);
}

#[test]
fn a_promotion_with_capture_is_taken_back() {
    let mut position = Position::from_fen("6r1/7P/8/5K1k/8/8/8/8 w - - 9 30").unwrap();
    let original = position.clone();
    let motion = Move {
        from: Square::from_san("h7"),
        to: Square::from_san("g8"),
        promote_to: Some(PieceKind::Queen),
        castling: None,
    };
    let undo = position.make_move(motion);
    assert_eq!(
        Some(Piece::new(Color::White, PieceKind::Queen)),
        position.piece_at(Square::from_san("g8"))
    );
    assert_eq!(None, position.piece_at(Square::from_san("h7")));
    assert!(position.white.pawns.is_empty());
    assert!(position.black.rooks.is_empty());
    assert_eq!(Some(PieceKind::Rook), undo.captured);
    assert_eq!(0, position.halfmove_clock);
    unions_hold(&position);
    position.undo_move(motion, undo);
    assert_eq!(original, position);
}

#[test]
fn make_move_keeps_the_union_boards() {
    let fen = "rnbqkbnr/pppppppp/8/8/8/8/PPPPPPPP/RNBQKBNR w KQkq - 0 1";
    let mut position = Position::from_fen(fen).unwrap();
    unions_hold(&position);
    assert_eq!(Bitboard::new(0xffff), position.white.all);
    assert_eq!(Bitboard::new(0xffff_0000_0000_0000), position.black.all);
    position.make_move(plain("e2", "e4"));
    unions_hold(&position);
    assert_eq!(Bitboard::new(0xefff | 1 << 28), position.white.all);
    assert_eq!(Bitboard::new(0xffff_0000_0000_0000 | 0xefff | 1 << 28), position.all);
}

#[test]
fn fen_that_runs_off_the_board_is_refused() {
    assert_eq!(Err(FenError::OffBoard), Position::from_fen("8p/8/8/8/8/8/8/8 w - - 0 1"));
    assert_eq!(
        Err(FenError::OffBoard),
        Position::from_fen("rnbqkbnrr/pppppppp/8/8/8/8/PPPPPPPP/RNBQKBNR w KQkq - 0 1")
    );
    assert_eq!(
        Err(FenError::OffBoard),
        Position::from_fen("rnbqkbnr/pppppppp/9/8/8/8/PPPPPPPP/RNBQKBNR w KQkq - 0 1")
    );
    assert_eq!(
        Err(FenError::OffBoard),
        Position::from_fen("8/8/8/8/8/8/8/8/8 w - - 0 1")
    );
    assert_eq!(Err(FenError::OffBoard), Position::from_fen("8/8/8/8/8/8/8/8 w - \u{e9} 0 1"));
}

#[test]
fn fen_that_the_parser_refuses_gives_its_message() {
    let short = Position::from_fen("rnbqkbnr/pppppppp/8/8/8/8/PPPPPPPP/RNBQKBNR w KQkq - 0");
    assert_eq!(Err(FenError::Rejected("NotEnoughParts".to_string())), short);
    let piece = Position::from_fen("rnbqkbnr/ppppTppp/8/8/8/8/PPPPPPPP/RNBQKBNR w KQkq - 0 1");
    assert_eq!(Err(FenError::Rejected("UnknownPiece('T')".to_string())), piece);
    let side = Position::from_fen("rnbqkbnr/pppppppp/8/8/8/8/PPPPPPPP/RNBQKBNR n KQkq - 0 1");
    assert_eq!(Err(FenError::Rejected("NoSuchSide(\"n\")".to_string())), side);
    let target = Position::from_fen("rnbqkbnr/pppppppp/8/8/8/8/PPPPPPPP/RNBQKBNR w KQkq h9 0 1");
    assert_eq!(Err(FenError::Rejected("BadEnPassant(\"h9\")".to_string())), target);
    let lines = Position::from_fen("8/8/8/8/8/8/8 w - - 0 1");
    assert_eq!(Err(FenError::Rejected("BadPlacement(\"8/8/8/8/8/8/8\")".to_string())), lines);
    let clock = Position::from_fen("8/8/8/8/8/8/8/8 w - - zero 1");
    assert_eq!(Err(FenError::Rejected("BadHalfmove(\"zero\")".to_string())), clock);
    let number = Position::from_fen("8/8/8/8/8/8/8/8 w - - 0 one");
    assert_eq!(Err(FenError::Rejected("BadFullmove(\"one\")".to_string())), number);
}

#[test]
fn fen_with_a_wide_character_elsewhere_is_read() {
    let position = Position::from_fen("8/8/8/8/8/8/8/4K3 w \u{e9} - 0 1").unwrap();
    assert!(!position.white_can_oo && !position.white_can_ooo);
    assert_eq!(
        Some(Piece::new(Color::White, PieceKind::King)),
        position.piece_at(Square::from_san("e1"))
    );
}

#[test]
fn a_rank_that_runs_into_the_next_is_read_as_the_parser_reads_it() {
    let position = Position::from_fen("8/8/8/8/8/8/8/PPPPPPPPP w - - 0 1").unwrap();
    assert_eq!(Bitboard::new(0x1ff), position.white.pawns);
    assert_eq!(Bitboard::new(0x1ff), position.all);
}

fn empty_record() -> BoardRecord {
    BoardRecord {
        pieces: vec![None; 64],
        side_to_play: 0,
        white_can_oo: false,
        white_can_ooo: false,
        black_can_oo: false,
        black_can_ooo: false,
        en_passant_square: None,
        halfmove_clock: 0,
        fullmove_number: 1,
    }
}

#[test]
fn a_record_gives_its_position() {
    let mut record = empty_record();
    record.pieces[4] = Some((0, 5));
    record.pieces[60] = Some((1, 5));
    record.pieces[12] = Some((0, 0));
    record.pieces[57] = Some((1, 1));
    record.pieces[2] = Some((0, 2));
    record.pieces[63] = Some((1, 3));
    record.pieces[3] = Some((0, 4));
    record.side_to_play = 1;
    record.black_can_oo = true;
    record.en_passant_square = Some(20);
    record.halfmove_clock = 3;
    record.fullmove_number = 12;

    let position = Position::from_record(&record).unwrap();
    let fen = Position::from_fen("1n2k2r/8/8/8/8/8/4P3/2BQK3 b k e3 3 12").unwrap();
    assert_eq!(fen, position);
    unions_hold(&position);
}

#[test]
fn a_record_that_describes_no_board_gives_nothing() {
    let mut short = empty_record();
    short.pieces.pop();
    assert_eq!(None, Position::from_record(&short));

    let mut colour = empty_record();
    colour.pieces[10] = Some((2, 0));
    assert_eq!(None, Position::from_record(&colour));

    let mut kind = empty_record();
    kind.pieces[63] = Some((1, 6));
    assert_eq!(None, Position::from_record(&kind));

    let mut side = empty_record();
    side.side_to_play = 2;
    assert_eq!(None, Position::from_record(&side));

    let mut target = empty_record();
    target.en_passant_square = Some(64);
    assert_eq!(None, Position::from_record(&target));

    assert!(Position::from_record(&empty_record()).is_some());
}

#[test]
fn the_default_position_is_empty() {
    let position = Position::default();
    assert_eq!(Position::from_record(&BoardRecord { fullmove_number: 0, ..empty_record() }), Some(position.clone()));
    assert!(position.all.is_empty());
    assert_eq!(Color::White, position.side_to_play);
    assert_eq!(Color::White, Color::default());
    assert_eq!(Army::default(), position.white);
    for i in 0..64 {
        assert_eq!(None, position.piece_at(Square::new(i)));
    }
}

#[test]
fn boards_can_be_reached_and_changed() {
    let fen = "rnbqkbnr/pppppppp/8/8/8/8/PPPPPPPP/RNBQKBNR w KQkq - 0 1";
    let mut position = Position::from_fen(fen).unwrap();
    let original = position.clone();

    assert_eq!(Bitboard::new(0xff00), *position.get_bitboard_mut(Piece::new(Color::White, PieceKind::Pawn)));
    assert_eq!(Bitboard::new(0x42), *position.get_army_mut(Color::White).get_bitboard_mut(PieceKind::Knight));
    assert_eq!(Bitboard::new(0x24 << 56), *position.get_army_mut(Color::Black).get_bitboard_mut(PieceKind::Bishop));
    assert_eq!(Bitboard::new(0x81), *position.white.get_bitboard_mut(PieceKind::Rook));
    assert_eq!(Bitboard::new(0x08 << 56), *position.black.get_bitboard_mut(PieceKind::Queen));
    assert_eq!(Bitboard::new(0x10), *position.white.get_bitboard_mut(PieceKind::King));
    assert_eq!(original, position);

    *position.get_bitboard_mut(Piece::new(Color::Black, PieceKind::Queen)) = Bitboard::new(0);
    assert_eq!(None, position.piece_at(Square::from_san("d8")));
    assert_eq!(original.black.all, position.black.all);
    position.black.update_union();
    assert_eq!(Bitboard::new(0xf7ff << 48), position.black.all);
    assert_eq!(original.all, position.all);

    *position.get_army_mut(Color::White).get_bitboard_mut(PieceKind::Pawn) = Bitboard::new(0);
    position.update_special_bitboards();
    assert_eq!(Bitboard::new(0xff), position.white.all);
    assert_eq!(Bitboard::new(0xf7ff << 48 | 0xff), position.all);
    unions_hold(&position);
}

#[test]
fn the_other_side_and_the_castling_squares() {
    assert_eq!(Color::Black, Color::White.opponent());
    assert_eq!(Color::White, Color::Black.opponent());
    assert_eq!(Square::from_san("h1"), rook_home_square(Color::White, CastlingType::Kingside));
    assert_eq!(Square::from_san("a1"), rook_home_square(Color::White, CastlingType::Queenside));
    assert_eq!(Square::from_san("h8"), rook_home_square(Color::Black, CastlingType::Kingside));
    assert_eq!(Square::from_san("a8"), rook_home_square(Color::Black, CastlingType::Queenside));
    assert_eq!(Square::from_san("f1"), rook_dest_square(Color::White, CastlingType::Kingside));
    assert_eq!(Square::from_san("d1"), rook_dest_square(Color::White, CastlingType::Queenside));
    assert_eq!(Square::from_san("f8"), rook_dest_square(Color::Black, CastlingType::Kingside));
    assert_eq!(Square::from_san("d8"), rook_dest_square(Color::Black, CastlingType::Queenside));
}

#[test]
fn a_position_as_text() {
    let fen = "rnbqkbnr/pppppppp/8/8/4P3/8/PPPP1PPP/RNBQKBNR b KQkq e3 0 1";
    let position = Position::from_fen(fen).unwrap();
    let expected = "+---+---+---+---+---+---+---+---+\n| r | n | b | q | k | b | n | r |\n+---+---+---+---+---+---+---+---+\n| p | p | p | p | p | p | p | p |\n+---+---+---+---+---+---+---+---+\n|   |   |   |   |   |   |   |   |\n+---+---+---+---+---+---+---+---+\n|   |   |   |   |   |   |   |   |\n+---+---+---+---+---+---+---+---+\n|   |   |   |   | P |   |   |   |\n+---+---+---+---+---+---+---+---+\n|   |   |   |   |   |   |   |   |\n+---+---+---+---+---+---+---+---+\n| P | P | P | P |   | P | P | P |\n+---+---+---+---+---+---+---+---+\n| R | N | B | Q | K | B | N | R |\n+---+---+---+---+---+---+---+---+\nTo play: Black\nEn passant: Some(Square(20))\nOO: true, OOO: true, oo: true, ooo: true\nHalf-move: 0, Full-move: 1\n";
    assert_eq!(expected, position.to_text());

    let bare = Position::from_fen("8/8/8/8/8/8/8/8 w - - 105 2040").unwrap();
    let text = bare.to_text();
    assert!(text.ends_with("To play: White\nEn passant: None\nOO: false, OOO: false, oo: false, ooo: false\nHalf-move: 105, Full-move: 2040\n"));
}

#[test]
fn pieces_as_text() {
    let kinds = [
        PieceKind::Pawn,
        PieceKind::Knight,
        PieceKind::Bishop,
        PieceKind::Rook,
        PieceKind::Queen,
        PieceKind::King,
    ];
    let white = ["P", "N", "B", "R", "Q", "K"];
    let black = ["p", "n", "b", "r", "q", "k"];
    for i in 0..6 {
        assert_eq!(white[i], Piece::new(Color::White, kinds[i]).symbol());
        assert_eq!(black[i], Piece::new(Color::Black, kinds[i]).to_text());
    }
}

#[test]
fn a_position_knows_whether_it_is_well_formed() {
    let fen = "rnbqkbnr/pppppppp/8/8/8/8/PPPPPPPP/RNBQKBNR w KQkq - 0 1";
    let position = Position::from_fen(fen).unwrap();
    assert!(position.is_wf());
    assert!(position.white.is_wf() && position.black.is_wf());
    assert!(Position::default().is_wf());

    // a square with two pieces of one side
    let mut broken = position.clone();
    broken.white.knights = broken.white.knights | Square::from_san("a2").to_bitboard();
    assert!(!broken.white.is_wf());
    assert!(!broken.is_wf());

    // a union board that is out of date
    let mut broken = position.clone();
    broken.white.pawns = Bitboard::new(0);
    assert!(!broken.white.is_wf());
    broken.white.update_union();
    assert!(broken.white.is_wf());
    assert!(!broken.is_wf());
    broken.update_special_bitboards();
    assert!(broken.is_wf());

    // a square with a piece of each side
    let mut broken = position.clone();
    broken.black.queens = broken.black.queens | Square::from_san("e1").to_bitboard();
    broken.update_special_bitboards();
    assert!(broken.white.is_wf() && broken.black.is_wf());
    assert!(!broken.is_wf());
}

#[test]
fn a_position_knows_which_moves_it_admits() {
    let position = Position::from_fen("r3k2r/8/8/8/8/8/4P3/R3K2R w Kq - 0 1").unwrap();
    assert!(position.can_castle(Color::White, CastlingType::Kingside));
    assert!(!position.can_castle(Color::White, CastlingType::Queenside));
    assert!(!position.can_castle(Color::Black, CastlingType::Kingside));
    assert!(position.can_castle(Color::Black, CastlingType::Queenside));

    assert!(position.admits(plain("e2", "e4")));
    assert!(position.admits(plain("a1", "a8")));
    assert!(position.admits(castle("e1", "g1", CastlingType::Kingside)));
    assert!(position.admits(castle("e1", "c1", CastlingType::Queenside)));
    // nothing to move, not this side's piece, the same square, an own piece in the way
    assert!(!position.admits(plain("e4", "e5")));
    assert!(!position.admits(plain("a8", "a7")));
    assert!(!position.admits(plain("e2", "e2")));
    assert!(!position.admits(plain("e1", "e2")));
    // only pawns promote
    let mut promotion = plain("a1", "a2");
    promotion.promote_to = Some(PieceKind::Queen);
    assert!(!position.admits(promotion));
    let mut promotion = plain("e2", "e3");
    promotion.promote_to = Some(PieceKind::Queen);
    assert!(position.admits(promotion));
    // only kings castle, with the rook on its corner and its way free
    assert!(!position.admits(castle("a1", "b1", CastlingType::Queenside)));
    assert!(!position.admits(castle("e1", "f1", CastlingType::Kingside)));
    let crowded = Position::from_fen("r3k2r/8/8/8/8/8/8/R2QKB1R w KQkq - 0 1").unwrap();
    assert!(!crowded.admits(castle("e1", "g1", CastlingType::Kingside)));
    assert!(!crowded.admits(castle("e1", "c1", CastlingType::Queenside)));
    let no_rook = Position::from_fen("r3k2r/8/8/8/8/8/8/4K3 w kq - 0 1").unwrap();
    assert!(!no_rook.admits(castle("e1", "g1", CastlingType::Kingside)));
    // the counters need room
    let mut full = position.clone();
    full.halfmove_clock = u64::MAX;
    assert!(!full.admits(plain("a1", "a2")));
    assert!(full.admits(plain("a1", "a8")));
    assert!(full.admits(plain("e2", "e3")));
    full.fullmove_number = u64::MAX;
    assert!(full.admits(plain("e2", "e3")));
    full.side_to_play = Color::Black;
    assert!(!full.admits(plain("a8", "a1")));
}

#[test]
fn a_position_knows_which_moves_it_can_take_back() {
    let fen = "r1bqkbnr/pppp1ppp/2n5/4p3/4P3/5N2/PPPP1PPP/RNBQKB1R w KQkq - 0 2";
    let mut position = Position::from_fen(fen).unwrap();
    let motion = plain("f3", "e5");
    let undo = position.make_move(motion);
    assert!(position.admits_undo(motion, undo));
    // nothing on the square it went to, the move the wrong way round, a
    // piece on the square it came from, a piece of the other side, a
    // promotion that was none, a castling that was none
    assert!(!position.admits_undo(plain("f3", "d4"), undo));
    assert!(!position.admits_undo(plain("e5", "f3"), undo));
    assert!(!position.admits_undo(plain("b1", "e5"), undo));
    assert!(position.admits_undo(plain("g1", "e5"), undo));
    assert!(!position.admits_undo(plain("f3", "c6"), undo));
    assert!(position.admits_undo(plain("e7", "e5"), undo));
    let mut promotion = motion;
    promotion.promote_to = Some(PieceKind::Queen);
    assert!(!position.admits_undo(promotion, undo));
    promotion.promote_to = Some(PieceKind::Knight);
    assert!(position.admits_undo(promotion, undo));
    let mut castling = motion;
    castling.castling = Some(CastlingType::Kingside);
    assert!(!position.admits_undo(castling, undo));

    let mut castled = Position::from_fen("r3k2r/8/8/8/8/8/8/R3K2R w KQkq - 0 1").unwrap();
    let motion = castle("e1", "g1", CastlingType::Kingside);
    let undo = castled.make_move(motion);
    assert!(castled.admits_undo(motion, undo));
    assert!(!castled.admits_undo(castle("e1", "g1", CastlingType::Queenside), undo));
    assert!(castled.admits_undo(plain("e1", "g1"), undo));

    let start = Position::from_fen("4k3/8/8/8/8/8/8/4K3 w - - 0 0").unwrap();
    let mut first = start.clone();
    let motion = plain("e1", "e2");
    let undo = first.make_move(motion);
    assert!(first.admits_undo(motion, undo));
    first.side_to_play = Color::White;
    first.black.king = Bitboard::new(0);
    first.black.pawns = Square::from_san("e2").to_bitboard();
    first.white.king = Bitboard::new(0);
    first.update_special_bitboards();
    assert!(!first.admits_undo(motion, undo));
}
