use ajaccio::bitboard::Bitboard;
use ajaccio::magic::{bishop_attacks, bishop_move_locations, rook_attacks, rook_move_locations};
use ajaccio::square::Square;

#[test]
fn test_rook_attacks() {
    let a1 = Bitboard::new(282578800148862);
    let e4 = Bitboard::new(4521262379438080);
    let h8 = Bitboard::new(9115426935197958144);

    assert_eq!(a1, rook_attacks(Square::from_san("a1")));
    assert_eq!(e4, rook_attacks(Square::from_san("e4")));
    assert_eq!(h8, rook_attacks(Square::from_san("h8")));
}

#[test]
fn test_bishop_attacks() {
    let a1 = Bitboard::new(18049651735527936);
    let e4 = Bitboard::new(637888545440768);
    let h8 = Bitboard::new(18049651735527936);

    assert_eq!(a1, bishop_attacks(Square::from_san("a1")));
    assert_eq!(e4, bishop_attacks(Square::from_san("e4")));
    assert_eq!(h8, bishop_attacks(Square::from_san("h8")));
}

#[test]
fn test_bishop_move_locations() {
    let enemies = Bitboard::new(4521262379438080);
    let expected = Bitboard(1227793891648880768);
    assert_eq!(expected, bishop_move_locations(Square::from_san("c6"), enemies));
}

#[test]
fn test_rook_move_locations() {
    let enemies = Bitboard::new(4521262379438080);
    let expected = Bitboard(289385980119482368);
    assert_eq!(expected, rook_move_locations(Square::from_san("c6"), enemies));
}

#[test]
fn test_magic_database() {
    let occupied = Bitboard::new(4521262379438080);
    let square = Square::from_san("b6");

    let rook_expected = Bitboard(144710032489971712);
    let bishop_expected = Bitboard(577868148796030976);
    let queen_expected = Bitboard(722578181286002688);

    let database = ajaccio::magic::MagicDatabase::new().unwrap();
    assert_eq!(rook_expected, database.rook_attacks(square, occupied));
    assert_eq!(bishop_expected, database.bishop_attacks(square, occupied));
    assert_eq!(queen_expected, database.queen_attacks(square, occupied));
}

use ajaccio::magic::{
    common_bits, diagonal_attacks, diagonal_move_locations, find_bishop_magic, find_magic, find_magic_among,
    find_rook_magic, gen_bishop_database, gen_database, gen_magic_database, gen_rook_database,
    gen_variations, magic_index, slider_attacks, slider_move_locations, slider_move_targets,
    sparse_candidate,
    MagicDatabase, Slider, BISHOP_MAGICS, MAGIC_ATTEMPTS, ROOK_MAGICS,
};
use ajaccio::rays::{coords_in_bounds, ray_attacks, ray_move_locations};

#[test]
fn a_table_look_up_gives_what_the_walk_gives() {
    let database = MagicDatabase::new().unwrap();
    for i in 0..64u8 {
        let square = Square::new(i);
        for variation in gen_variations(rook_attacks(square)) {
            assert_eq!(rook_move_locations(square, variation), database.rook_attacks(square, variation));
        }
        for variation in gen_variations(bishop_attacks(square)) {
            assert_eq!(
                bishop_move_locations(square, variation),
                database.bishop_attacks(square, variation)
            );
        }
    }
}

#[test]
fn pieces_off_the_mask_do_not_change_a_look_up() {
    let database = MagicDatabase::new().unwrap();
    let mut occupied: u64 = 0x9e37_79b9_7f4a_7c15;
    for i in 0..64u8 {
        let square = Square::new(i);
        for _ in 0..50 {
            occupied = occupied.wrapping_mul(6364136223846793005).wrapping_add(1442695040888963407);
            let board = Bitboard::new(occupied);
            let rook = database.rook_attacks(square, board);
            let bishop = database.bishop_attacks(square, board);
            assert_eq!(rook_move_locations(square, board), rook);
            assert_eq!(bishop_move_locations(square, board), bishop);
            assert_eq!(rook | bishop, database.queen_attacks(square, board));
        }
    }
}

#[test]
fn a_rook_on_an_empty_board_sees_its_file_and_rank() {
    let empty = Bitboard::new(0);
    let a1 = rook_move_locations(Square::from_san("a1"), empty);
    assert_eq!(Bitboard::new(0x0101_0101_0101_01fe), a1);
    let d4 = bishop_move_locations(Square::from_san("d4"), empty);
    assert_eq!(Bitboard::new(0x8041_2214_0014_2241), d4);
    // a piece next to the rook is reached and hides what is behind it
    let blocked = rook_move_locations(Square::from_san("a1"), Bitboard::new(0x0102));
    assert_eq!(Bitboard::new(0x0102), blocked);
}

#[test]
fn rays_one_by_one() {
    let e4 = Square::from_san("e4");
    let empty = Bitboard::new(0);
    assert_eq!(Bitboard::new(0x1010_1010_0000_0000), ray_move_locations(e4, 0, 1, empty));
    assert_eq!(Bitboard::new(0x0000_0000_0010_1010), ray_move_locations(e4, 0, -1, empty));
    assert_eq!(Bitboard::new(0x0000_0000_e000_0000), ray_move_locations(e4, 1, 0, empty));
    assert_eq!(Bitboard::new(0x0000_0000_0f00_0000), ray_move_locations(e4, -1, 0, empty));
    assert_eq!(Bitboard::new(0x0080_4020_0000_0000), ray_move_locations(e4, 1, 1, empty));
    assert_eq!(Bitboard::new(0x0080_4020_0000_0000), diagonal_move_locations(e4, 1, 1, empty));
    let e6 = Square::from_san("e6").to_bitboard();
    assert_eq!(Bitboard::new(0x0000_1010_0000_0000), ray_move_locations(e4, 0, 1, e6));
    assert_eq!(Bitboard::new(0x0010_1010_0000_0000), ray_attacks(e4, 0, 1));
    assert_eq!(Bitboard::new(0x0000_0000_6000_0000), ray_attacks(e4, 1, 0));
    assert_eq!(Bitboard::new(0x0000_4020_0000_0000), diagonal_attacks(e4, 1, 1));
    assert_eq!(Bitboard::new(0), ray_attacks(Square::from_san("h4"), 1, 0));
    assert_eq!(Bitboard::new(0), ray_attacks(Square::from_san("g4"), 1, 0));
    assert_eq!(Bitboard::new(0), ray_move_locations(Square::from_san("h4"), 1, 0, empty));
    assert!(coords_in_bounds(0, 0) && coords_in_bounds(7, 7));
    assert!(!coords_in_bounds(-1, 0) && !coords_in_bounds(0, 8) && !coords_in_bounds(8, 0));
}

#[test]
fn sliders_by_kind() {
    let c6 = Square::from_san("c6");
    let enemies = Bitboard::new(4521262379438080);
    assert_eq!(rook_attacks(c6), slider_attacks(Slider::Rook, c6));
    assert_eq!(bishop_attacks(c6), slider_attacks(Slider::Bishop, c6));
    assert_eq!(Bitboard(289385980119482368), slider_move_locations(Slider::Rook, c6, enemies));
    assert_eq!(Bitboard(1227793891648880768), slider_move_locations(Slider::Bishop, c6, enemies));
}

#[test]
fn variations_are_the_subsets_of_a_mask() {
    assert_eq!(vec![Bitboard::new(0)], gen_variations(Bitboard::new(0)));
    assert_eq!(vec![Bitboard::new(4), Bitboard::new(0)], gen_variations(Bitboard::new(4)));
    assert_eq!(
        vec![Bitboard::new(5), Bitboard::new(4), Bitboard::new(1), Bitboard::new(0)],
        gen_variations(Bitboard::new(5))
    );
    let mask = Bitboard::new(0x8100_0000_0420_0011);
    let list = gen_variations(mask);
    assert_eq!(64, list.len());
    for v in list.iter() {
        assert_eq!(v.0 & !mask.0, 0);
        assert_eq!(1, list.iter().filter(|w| *w == v).count());
    }
    for i in 0..64u8 {
        let square = Square::new(i);
        let rook = rook_attacks(square);
        let bishop = bishop_attacks(square);
        assert_eq!(1usize << rook.num_occupied_squares(), gen_variations(rook).len());
        assert_eq!(1usize << bishop.num_occupied_squares(), gen_variations(bishop).len());
    }
}

#[test]
fn the_slot_of_an_occupancy() {
    assert_eq!(12, magic_index(3, 4, Bitboard::new(0x4000_0000_0000_0000)));
    assert_eq!(0, magic_index(0, 12, Bitboard::new(u64::MAX)));
    assert_eq!(1, magic_index(u64::MAX, 1, Bitboard::new(1)));
    // the product is taken modulo 2^64
    assert_eq!(15, magic_index(u64::MAX, 4, Bitboard::new(3)));
    assert_eq!(0, magic_index(u64::MAX, 31, Bitboard::new(u64::MAX - 1)));
    assert_eq!(0, magic_index(2, 1, Bitboard::new(0x8000_0000_0000_0000)));
    assert_eq!(5, magic_index(5 << 7, 3, Bitboard::new(1 << 54)));
}

#[test]
fn a_multiplier_that_collides_gives_no_table() {
    let square = Square::from_san("a1");
    let mask = bishop_attacks(square);
    let variations = gen_variations(mask);
    assert_eq!(None, gen_magic_database(0, 6, square, &variations, Slider::Bishop));
    assert_eq!(None, gen_bishop_database(0, 0, 6));
    assert_eq!(None, gen_rook_database(0, 1, 12));
    assert_eq!(None, gen_database(Slider::Rook, 27, u64::MAX, 10));

    let (magic, bits) = BISHOP_MAGICS[0];
    assert_eq!(6, bits);
    let table = gen_magic_database(magic, bits, square, &variations, Slider::Bishop).unwrap();
    assert_eq!(64, table.len());
    assert_eq!(Some(table.clone()), gen_bishop_database(0, magic, bits));
    assert_eq!(Some(table.clone()), gen_database(Slider::Bishop, 0, magic, bits));
    for v in variations.iter() {
        assert_eq!(bishop_move_locations(square, *v), table[magic_index(magic, bits, *v)]);
    }
    // the right multiplier with the wrong width gives nothing
    assert_eq!(None, gen_bishop_database(0, magic, 5));
    assert_eq!(None, gen_bishop_database(0, magic, 7));
}

#[test]
fn the_multipliers_of_the_database_are_magic() {
    for i in 0..64u8 {
        let (magic, bits) = ROOK_MAGICS[i as usize];
        assert_eq!(rook_attacks(Square::new(i)).num_occupied_squares(), bits);
        let table = gen_rook_database(i, magic, bits).unwrap();
        assert_eq!(1usize << bits, table.len());
        let (magic, bits) = BISHOP_MAGICS[i as usize];
        assert_eq!(bishop_attacks(Square::new(i)).num_occupied_squares(), bits);
        assert!(gen_bishop_database(i, magic, bits).is_some());
    }
}

#[test]
fn the_first_magic_candidate_is_found() {
    let (magic, bits) = ROOK_MAGICS[27];
    let (other, _) = ROOK_MAGICS[0];
    assert_eq!(None, gen_rook_database(27, other, bits));
    let candidates = vec![0, u64::MAX, other, magic, 1, magic];
    assert_eq!(Some((magic, bits)), find_magic_among(Slider::Rook, 27, &candidates));
    assert_eq!(None, find_magic_among(Slider::Rook, 27, &vec![0, u64::MAX, other, 1]));
    assert_eq!(None, find_magic_among(Slider::Rook, 27, &vec![]));
    let (magic, bits) = BISHOP_MAGICS[63];
    assert_eq!(Some((magic, bits)), find_magic_among(Slider::Bishop, 63, &vec![magic]));
}

#[test]
fn a_search_finds_a_multiplier_that_is_magic() {
    let (magic, bits) = find_bishop_magic(0).unwrap();
    assert_eq!(6, bits);
    assert!(gen_bishop_database(0, magic, bits).is_some());

    let (magic, bits) = find_rook_magic(27).unwrap();
    assert_eq!(10, bits);
    assert!(gen_rook_database(27, magic, bits).is_some());

    assert_eq!(None, find_magic(Slider::Rook, 0, 0));
    assert_eq!(100_000_000, MAGIC_ATTEMPTS);
    let _ = sparse_candidate();
    assert_eq!(0b1000, common_bits(0b1100, 0b1010, 0b1001, 0b1111));
    assert_eq!(0, common_bits(u64::MAX, 1, 2, u64::MAX));
    assert_eq!(u64::MAX, common_bits(u64::MAX, u64::MAX, u64::MAX, u64::MAX));
}

#[test]
fn a_slider_stops_before_a_friend_and_on_an_enemy() {
    let a1 = Square::from_san("a1");
    let friends = Square::from_san("a4").to_bitboard() | Square::from_san("b1").to_bitboard();
    let enemies = Square::from_san("a3").to_bitboard() | Square::from_san("h8").to_bitboard();
    let none = Bitboard::new(0);
    // up the file to the enemy on a3, and nowhere along the rank
    assert_eq!(Bitboard::new(0x0001_0100), slider_move_targets(Slider::Rook, a1, friends, enemies));
    // up the file to just before the friend on a4
    assert_eq!(
        Bitboard::new(0x0001_0100),
        slider_move_targets(Slider::Rook, a1, friends, Square::from_san("h8").to_bitboard())
    );
    assert_eq!(
        rook_move_locations(a1, enemies),
        slider_move_targets(Slider::Rook, a1, none, enemies)
    );
    // along the long diagonal onto the enemy in the far corner
    assert_eq!(
        Bitboard::new(0x8040_2010_0804_0200),
        slider_move_targets(Slider::Bishop, a1, friends, enemies)
    );
    assert_eq!(
        Bitboard::new(0x0000_0000_0804_0200),
        slider_move_targets(Slider::Bishop, a1, Square::from_san("e5").to_bitboard(), enemies)
    );
}
