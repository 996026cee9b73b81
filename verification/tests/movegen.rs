use ajaccio::bitboard::Bitboard;
use ajaccio::motion::Move;
use ajaccio::movegen::{
    add_if_in_bounds, black_pawn_attacks, king_moves, knight_moves, pawns_are_free,
    white_pawn_attacks, MovesIter,
};
use ajaccio::position::{PieceKind, Position};
use ajaccio::square::Square;

#[test]
fn test_pawn_attacks() {
    let e4 = Bitboard::new(171798691840);
    let a2 = Bitboard::new(131072);
    let h7 = Bitboard::new(4611686018427387904);

    assert_eq!(e4, white_pawn_attacks(Square::from_san("e4")));
    assert_eq!(a2, white_pawn_attacks(Square::from_san("a2")));
    assert_eq!(h7, white_pawn_attacks(Square::from_san("h7")));

    let e4 = Bitboard::new(2621440);
    let a2 = Bitboard::new(2);
    let h7 = Bitboard::new(70368744177664);

    assert_eq!(e4, black_pawn_attacks(Square::from_san("e4")));
    assert_eq!(a2, black_pawn_attacks(Square::from_san("a2")));
    assert_eq!(h7, black_pawn_attacks(Square::from_san("h7")));
}

#[test]
fn test_knight_moves() {
    let e4 = Bitboard::new(44272527353856);
    let a1 = Bitboard::new(132096);
    let e7 = Bitboard::new(4899991333168480256);
    assert_eq!(e4, knight_moves(Square::from_san("e4")));
    assert_eq!(a1, knight_moves(Square::from_san("a1")));
    assert_eq!(e7, knight_moves(Square::from_san("e7")));
}

#[test]
fn test_king_moves() {
    let e4 = Bitboard::new(241192927232);
    let a1 = Bitboard::new(770);

    assert_eq!(e4, king_moves(Square::from_san("e4")));
    assert_eq!(a1, king_moves(Square::from_san("a1")));
}

#[test]
fn test_pawn_moves() {
    let fen = "4b3/p2P1p1p/1P6/5P2/5p2/p6p/1P1PpP1P/8 w - - 0 1";
    let position = Position::from_fen(fen).unwrap();

    let mut iter = MovesIter::new(&position);
    while let Some(motion) = iter.next() {
        println!("{}", (motion.from.to_bitboard() | motion.to.to_bitboard()).to_text());
    }
}

#[test]
fn test_knight_king_moves() {
    let fen = "6p1/6k1/2n1p1P1/4P3/1p2p2p/1p2P2P/1K4N1/1P6 w - - 0 1";
    let position = Position::from_fen(fen).unwrap();

    let mut iter = MovesIter::new(&position);
    while let Some(motion) = iter.next() {
        println!("{}", (motion.from.to_bitboard() | motion.to.to_bitboard()).to_text());
    }
}

fn promo(kind: Option<PieceKind>) -> u8 {
    match kind {
        None => 0,
        Some(PieceKind::Pawn) => 1,
        Some(PieceKind::Knight) => 2,
        Some(PieceKind::Bishop) => 3,
        Some(PieceKind::Rook) => 4,
        Some(PieceKind::Queen) => 5,
        Some(PieceKind::King) => 6,
    }
}

fn generated(fen: &str) -> Vec<(u8, u8, u8)> {
    let position = Position::from_fen(fen).unwrap();
    let moves: Vec<Move> = MovesIter::new(&position).collect();
    let mut out = Vec::new();
    for m in moves.iter() {
        assert_eq!(None, m.castling);
        out.push((m.from.to_index(), m.to.to_index(), promo(m.promote_to)));
    }
    out.sort();
    out
}

#[test]
fn moves_of_the_start_position() {
    let expected = vec![
        (1, 16, 0), (1, 18, 0), (6, 21, 0), (6, 23, 0), (8, 16, 0), (8, 24, 0), (9, 17, 0),
        (9, 25, 0), (10, 18, 0), (10, 26, 0), (11, 19, 0), (11, 27, 0), (12, 20, 0), (12, 28, 0),
        (13, 21, 0), (13, 29, 0), (14, 22, 0), (14, 30, 0), (15, 23, 0), (15, 31, 0),
    ];
    assert_eq!(expected, generated("rnbqkbnr/pppppppp/8/8/8/8/PPPPPPPP/RNBQKBNR w KQkq - 0 1"));
}

#[test]
fn white_pawns_capture_push_and_promote() {
    let expected = vec![
        (9, 16, 0), (9, 17, 0), (9, 25, 0), (11, 19, 0), (11, 27, 0), (13, 21, 0), (37, 45, 0),
        (41, 48, 0), (41, 49, 0), (51, 59, 2), (51, 59, 3), (51, 59, 4), (51, 59, 5),
        (51, 60, 2), (51, 60, 3), (51, 60, 4), (51, 60, 5),
    ];
    assert_eq!(expected, generated("4b3/p2P1p1p/1P6/5P2/5p2/p6p/1P1PpP1P/8 w - - 0 1"));
}

#[test]
fn black_pawns_capture_push_and_promote() {
    let expected = vec![
        (12, 4, 2), (12, 4, 3), (12, 4, 4), (12, 4, 5), (16, 8, 0), (16, 9, 0), (29, 21, 0),
        (48, 32, 0), (48, 40, 0), (48, 41, 0), (53, 45, 0), (55, 39, 0), (55, 47, 0),
    ];
    assert_eq!(expected, generated("4b3/p2P1p1p/1P6/5P2/5p2/p6p/1P1PpP1P/8 b - - 0 1"));
}

#[test]
fn white_knight_and_king_keep_off_their_own_pieces() {
    let expected = vec![
        (9, 0, 0), (9, 2, 0), (9, 8, 0), (9, 10, 0), (9, 16, 0), (9, 17, 0), (9, 18, 0),
        (14, 4, 0), (14, 29, 0), (14, 31, 0),
    ];
    assert_eq!(expected, generated("6p1/6k1/2n1p1P1/4P3/1p2p2p/1p2P2P/1K4N1/1P6 w - - 0 1"));
}

#[test]
fn black_knight_and_king_keep_off_their_own_pieces() {
    let expected = vec![
        (42, 27, 0), (42, 32, 0), (42, 36, 0), (42, 48, 0), (42, 52, 0), (42, 57, 0),
        (42, 59, 0), (54, 45, 0), (54, 46, 0), (54, 47, 0), (54, 53, 0), (54, 55, 0),
        (54, 61, 0), (54, 63, 0),
    ];
    assert_eq!(expected, generated("6p1/6k1/2n1p1P1/4P3/1p2p2p/1p2P2P/1K4N1/1P6 b - - 0 1"));
}

#[test]
fn moves_come_pawns_first_and_each_once() {
    let position =
        Position::from_fen("rnbqkbnr/pppppppp/8/8/8/8/PPPPPPPP/RNBQKBNR w KQkq - 0 1").unwrap();
    let mut iter = MovesIter::new(&position);
    let mut seen: Vec<Move> = Vec::new();
    while let Some(m) = iter.next() {
        assert!(!seen.contains(&m));
        seen.push(m);
    }
    assert_eq!(20, seen.len());
    assert_eq!(None, iter.next());
    // the last move that was generated is taken first: a double step of the
    // pawn with the lowest index
    assert_eq!(Square::from_san("a2"), seen[0].from);
    assert_eq!(Square::from_san("a4"), seen[0].to);
}

#[test]
fn every_generated_move_can_be_made_and_taken_back() {
    let fen = "4b3/p2P1p1p/1P6/5P2/5p2/p6p/1P1PpP1P/8 w - - 0 1";
    let position = Position::from_fen(fen).unwrap();
    let moves = MovesIter::new(&position).collect();
    for m in moves.iter() {
        let mut scratch = position.clone();
        let undo = scratch.make_move(*m);
        assert_ne!(position, scratch);
        scratch.undo_move(*m, undo);
        assert_eq!(position, scratch);
    }
}

#[test]
fn add_if_in_bounds_ignores_squares_off_the_board() {
    let empty = Bitboard::new(0);
    assert_eq!(Bitboard::new(1 << 9), add_if_in_bounds(empty, 1, 1));
    assert_eq!(empty, add_if_in_bounds(empty, -1, 1));
    assert_eq!(empty, add_if_in_bounds(empty, 8, 1));
    assert_eq!(empty, add_if_in_bounds(empty, 1, -1));
    assert_eq!(empty, add_if_in_bounds(empty, 1, 8));
    assert_eq!(Bitboard::new(1 | 1 << 63), add_if_in_bounds(Bitboard::new(1), 7, 7));
}

#[test]
fn pawns_on_their_last_rank_are_noticed() {
    let start =
        Position::from_fen("rnbqkbnr/pppppppp/8/8/8/8/PPPPPPPP/RNBQKBNR w KQkq - 0 1").unwrap();
    assert!(pawns_are_free(&start));
    let white_stuck = Position::from_fen("P6p/8/8/8/8/8/8/P6p w - - 0 1").unwrap();
    assert!(!pawns_are_free(&white_stuck));
    let black_stuck = Position::from_fen("P6p/8/8/8/8/8/8/P6p b - - 0 1").unwrap();
    assert!(!pawns_are_free(&black_stuck));
    let others = Position::from_fen("p6p/8/8/8/8/8/8/8 w - - 0 1").unwrap();
    assert!(pawns_are_free(&others));
    let others = Position::from_fen("8/8/8/8/8/8/8/P6P b - - 0 1").unwrap();
    assert!(pawns_are_free(&others));
}
