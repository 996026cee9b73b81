use ajaccio::square::Square;

#[test]
fn san_square_parsing() {
    assert_eq!(Square::new(4 + 2 * 8), Square::from_san("e3"));
    assert_eq!(Square::new(4 + 2 * 8), Square::from_coords(4, 2));
}

#[test]
fn coordinates_and_index_agree_on_every_square() {
    for i in 0..64u8 {
        let sq = Square::new(i);
        assert_eq!(i, sq.to_index());
        assert_eq!(i % 8, sq.file());
        assert_eq!(i / 8, sq.rank());
        assert_eq!(sq, Square::from_coords(sq.file(), sq.rank()));
        assert_eq!(1u64 << i, sq.to_bitboard().0);
    }
    assert_eq!(Square::new(56), Square::from_coords(0, 7));
    assert_eq!(Square::new(7), Square::from_coords(7, 0));
}

#[test]
fn every_name_gives_its_square() {
    let files = ['a', 'b', 'c', 'd', 'e', 'f', 'g', 'h'];
    let ranks = ['1', '2', '3', '4', '5', '6', '7', '8'];
    for (r, rank) in ranks.iter().enumerate() {
        for (f, file) in files.iter().enumerate() {
            let name = format!("{}{}", file, rank);
            assert_eq!(Square::from_coords(f as u8, r as u8), Square::from_san(&name));
        }
    }
    assert_eq!(Square::new(0), Square::from_san("a1"));
    assert_eq!(Square::new(63), Square::from_san("h8"));
    assert_eq!(Square::new(63), Square::from_san("h8+"));
}

#[test]
fn squares_shift_by_whole_ranks() {
    assert_eq!(Square::from_san("e3"), Square::from_san("e2") + 8);
    assert_eq!(Square::from_san("e4"), Square::from_san("e2") + 16);
    assert_eq!(Square::from_san("e6"), Square::from_san("e7") - 8);
    assert_eq!(Square::from_san("a1"), Square::from_san("h8") - 63);
    assert_eq!(Square::default(), Square::new(0));
}
