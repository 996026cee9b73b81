use ajaccio::bitboard::{Bitboard, SquaresIter};
use ajaccio::square::Square;

#[test]
fn test_squares_iter() {
    let a = Square::from_san("e6");
    let b = Square::from_san("c2");

    let expected = vec![a, b];
    let actual = SquaresIter::new(a.to_bitboard() | b.to_bitboard()).collect();
    assert_eq!(expected, actual);
}

#[test]
fn bitboard_algebra() {
    let a = Bitboard::new(0b1100);
    let b = Bitboard::new(0b1010);
    assert_eq!(Bitboard::new(0b1000), a & b);
    assert_eq!(Bitboard::new(0b1110), a | b);
    assert_eq!(Bitboard::new(0b0110), a ^ b);
    assert_eq!(Bitboard::new(!0b1100u64), !a);
    assert!(Bitboard::new(0).is_empty());
    assert!(!Bitboard::new(0).is_nonempty());
    assert!(a.is_nonempty());
    assert_eq!(2, a.num_occupied_squares());
    assert_eq!(64, Bitboard::new(u64::MAX).num_occupied_squares());
    assert!(a.is_occupied(Square::new(2)));
    assert!(!a.is_occupied(Square::new(1)));
}

#[test]
fn squares_come_highest_first() {
    let all = Bitboard::new(u64::MAX).squares().collect();
    assert_eq!(64, all.len());
    for (i, sq) in all.iter().enumerate() {
        assert_eq!(63 - i as u8, sq.to_index());
    }
    assert!(Bitboard::new(0).squares().collect().is_empty());

    let mut it = SquaresIter::new(Bitboard::new(0b1001_0001));
    assert_eq!(Some(Square::new(7)), it.next());
    assert_eq!(Some(Square::new(4)), it.next());
    assert_eq!(Some(Square::new(0)), it.next());
    assert_eq!(None, it.next());
    assert_eq!(None, it.next());
}

#[test]
fn the_top_square_of_a_set() {
    assert_eq!(Square::new(0), Bitboard::new(1).top_square());
    assert_eq!(Square::new(63), Bitboard::new(u64::MAX).top_square());
    assert_eq!(Square::new(40), Bitboard::new(1 << 40 | 1 << 13).top_square());
}

#[test]
fn a_set_as_text() {
    let board = Square::from_san("b1").to_bitboard() | Square::from_san("g8").to_bitboard();
    let expected = "+---+---+---+---+---+---+---+---+\n|   |   |   |   |   |   | X |   |\n+---+---+---+---+---+---+---+---+\n|   |   |   |   |   |   |   |   |\n+---+---+---+---+---+---+---+---+\n|   |   |   |   |   |   |   |   |\n+---+---+---+---+---+---+---+---+\n|   |   |   |   |   |   |   |   |\n+---+---+---+---+---+---+---+---+\n|   |   |   |   |   |   |   |   |\n+---+---+---+---+---+---+---+---+\n|   |   |   |   |   |   |   |   |\n+---+---+---+---+---+---+---+---+\n|   |   |   |   |   |   |   |   |\n+---+---+---+---+---+---+---+---+\n|   | X |   |   |   |   |   |   |\n+---+---+---+---+---+---+---+---+\n";
    assert_eq!(expected, board.to_text());
}
