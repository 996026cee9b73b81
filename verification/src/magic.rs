//! Sliding-piece attacks by perfect hashing: for every square a multiplier
//! that sends each occupancy of the square's mask to a table slot of its
//! own, and the table of what the slider reaches for it.

use core::ops::Not;
use vstd::arithmetic::power2::{lemma2_to64, lemma_pow2_strictly_increases, lemma_pow2_unfold, pow2};
use vstd::bits::lemma_u64_shl_is_mul;
use vstd::prelude::*;
use vstd::wrapping::u64_specs::wrapping_mul;
use crate::bitboard::Bitboard;
use crate::bits::{
    bit_set, has_bit, lemma_bit_set_ext, lemma_bits_and, lemma_bits_not, lemma_bits_or,
    lemma_bits_single, lemma_bits_xor, lemma_bits_zero, lemma_below_single, lemma_no_bits,
    lemma_popcount_is_len, lemma_popcount_nonzero, lemma_popcount_or, lemma_popcount_without,
    popcount,
};
use crate::rays::{
    lemma_first_step_in_mask, lemma_first_step_reached, lemma_moves_see_mask_only, ray_attacks,
    ray_mask, ray_move_locations, ray_moves, square_at,
};
use crate::square::Square;

verus! {

/// The two kinds of sliding piece that have tables of their own.
#[derive(Clone, Copy, Debug, PartialEq, Eq, Structural)]
pub enum Slider {
    Rook,
    Bishop,
}

/// The squares whose occupancy decides what a rook on `from` reaches: its
/// four rays without their last squares.
pub open spec fn rook_mask(from: int) -> Set<int> {
    ray_mask(from, 0, 1).union(ray_mask(from, 0, -1)).union(ray_mask(from, 1, 0)).union(
        ray_mask(from, -1, 0),
    )
}

/// The squares that a rook on `from` reaches: along each of its four rays
/// every empty square up to the first occupied one, and that one too.
pub open spec fn rook_moves(from: int, occupied: Set<int>) -> Set<int> {
    ray_moves(from, 0, 1, occupied).union(ray_moves(from, 0, -1, occupied)).union(
        ray_moves(from, 1, 0, occupied),
    ).union(ray_moves(from, -1, 0, occupied))
}

/// The squares whose occupancy decides what a bishop on `from` reaches.
pub open spec fn bishop_mask(from: int) -> Set<int> {
    ray_mask(from, 1, 1).union(ray_mask(from, 1, -1)).union(ray_mask(from, -1, 1)).union(
        ray_mask(from, -1, -1),
    )
}

/// The squares that a bishop on `from` reaches.
pub open spec fn bishop_moves(from: int, occupied: Set<int>) -> Set<int> {
    ray_moves(from, 1, 1, occupied).union(ray_moves(from, 1, -1, occupied)).union(
        ray_moves(from, -1, 1, occupied),
    ).union(ray_moves(from, -1, -1, occupied))
}

/// The squares that a queen on `from` reaches: those of a rook and those of
/// a bishop.
pub open spec fn queen_moves(from: int, occupied: Set<int>) -> Set<int> {
    rook_moves(from, occupied).union(bishop_moves(from, occupied))
}

/// The squares whose occupancy decides what a slider on `from` reaches.
pub open spec fn slider_mask(slider: Slider, from: int) -> Set<int> {
    match slider {
        Slider::Rook => rook_mask(from),
        Slider::Bishop => bishop_mask(from),
    }
}

/// The squares that a slider on `from` reaches.
pub open spec fn slider_moves(slider: Slider, from: int, occupied: Set<int>) -> Set<int> {
    match slider {
        Slider::Rook => rook_moves(from, occupied),
        Slider::Bishop => bishop_moves(from, occupied),
    }
}

/// Pieces off the mask do not change what a slider reaches.
pub proof fn lemma_slider_sees_mask_only(slider: Slider, from: int, occupied: Set<int>)
    requires
        0 <= from < 64,
    ensures
        slider_moves(slider, from, occupied.intersect(slider_mask(slider, from))) == slider_moves(
            slider,
            from,
            occupied,
        ),
{
    let keep = slider_mask(slider, from);
    match slider {
        Slider::Rook => {
            lemma_moves_see_mask_only(from, 0, 1, occupied, keep);
            lemma_moves_see_mask_only(from, 0, -1, occupied, keep);
            lemma_moves_see_mask_only(from, 1, 0, occupied, keep);
            lemma_moves_see_mask_only(from, -1, 0, occupied, keep);
        },
        Slider::Bishop => {
            lemma_moves_see_mask_only(from, 1, 1, occupied, keep);
            lemma_moves_see_mask_only(from, 1, -1, occupied, keep);
            lemma_moves_see_mask_only(from, -1, 1, occupied, keep);
            lemma_moves_see_mask_only(from, -1, -1, occupied, keep);
        },
    }
}

/// A slider reaches at least one square, whatever stands on the board.
pub proof fn lemma_slider_moves_somewhere(slider: Slider, from: int, occupied: Set<int>)
    requires
        0 <= from < 64,
    ensures
        slider_moves(slider, from, occupied) != Set::<int>::empty(),
{
    let dx: int = if from % 8 <= 6 {
        1
    } else {
        -1
    };
    let dy: int = if from / 8 <= 6 {
        1
    } else {
        -1
    };
    match slider {
        Slider::Rook => {
            lemma_first_step_reached(from, dx, 0, occupied);
            assert(slider_moves(slider, from, occupied).contains(square_at(from, dx, 0, 1)));
        },
        Slider::Bishop => {
            lemma_first_step_reached(from, dx, dy, occupied);
            assert(slider_moves(slider, from, occupied).contains(square_at(from, dx, dy, 1)));
        },
    }
}

/// The mask of a slider holds at least one square.
pub proof fn lemma_slider_mask_nonempty(slider: Slider, from: int)
    requires
        0 <= from < 64,
    ensures
        slider_mask(slider, from) != Set::<int>::empty(),
{
    let dx: int = if from % 8 <= 5 {
        1
    } else {
        -1
    };
    let dy: int = if from / 8 <= 5 {
        1
    } else {
        -1
    };
    match slider {
        Slider::Rook => {
            lemma_first_step_in_mask(from, dx, 0);
            assert(slider_mask(slider, from).contains(square_at(from, dx, 0, 1)));
        },
        Slider::Bishop => {
            lemma_first_step_in_mask(from, dx, dy);
            assert(slider_mask(slider, from).contains(square_at(from, dx, dy, 1)));
        },
    }
}

/// The squares whose occupancy decides what a rook on `square` reaches.
pub fn rook_attacks(square: Square) -> (result: Bitboard)
    ensures
        result@ == rook_mask(square.index()),
        1 <= popcount(result.0) <= 24,
{
    let up = ray_attacks(square, 0, 1);
    let down = ray_attacks(square, 0, -1);
    let right = ray_attacks(square, 1, 0);
    let left = ray_attacks(square, -1, 0);
    let result = up | down | right | left;
    proof {
        use_type_invariant(&square);
        square.lemma_index_range();
        lemma_popcount_or(up.0, down.0);
        lemma_popcount_or(up.0 | down.0, right.0);
        lemma_popcount_or(up.0 | down.0 | right.0, left.0);
        lemma_slider_mask_nonempty(Slider::Rook, square.index());
        lemma_nonempty_board(result);
    }
    result
}

/// The squares that a rook on `square` reaches when the squares of
/// `enemies` are occupied and no others.
pub fn rook_move_locations(square: Square, enemies: Bitboard) -> (result: Bitboard)
    ensures
        result@ == rook_moves(square.index(), enemies@),
{
    let up = ray_move_locations(square, 0, 1, enemies);
    let down = ray_move_locations(square, 0, -1, enemies);
    let right = ray_move_locations(square, 1, 0, enemies);
    let left = ray_move_locations(square, -1, 0, enemies);
    up | down | right | left
}

/// The squares whose occupancy decides what a bishop on `square` reaches.
pub fn bishop_attacks(square: Square) -> (result: Bitboard)
    ensures
        result@ == bishop_mask(square.index()),
        1 <= popcount(result.0) <= 24,
{
    let a = diagonal_attacks(square, 1, 1);
    let b = diagonal_attacks(square, 1, -1);
    let c = diagonal_attacks(square, -1, 1);
    let d = diagonal_attacks(square, -1, -1);
    let result = a | b | c | d;
    proof {
        use_type_invariant(&square);
        square.lemma_index_range();
        lemma_popcount_or(a.0, b.0);
        lemma_popcount_or(a.0 | b.0, c.0);
        lemma_popcount_or(a.0 | b.0 | c.0, d.0);
        lemma_slider_mask_nonempty(Slider::Bishop, square.index());
        lemma_nonempty_board(result);
    }
    result
}

/// One diagonal of the mask of a bishop.
pub fn diagonal_attacks(square: Square, dx: i8, dy: i8) -> (result: Bitboard)
    requires
        dx == 1 || dx == -1,
        dy == 1 || dy == -1,
    ensures
        result@ == ray_mask(square.index(), dx as int, dy as int),
        popcount(result.0) <= 6,
{
    ray_attacks(square, dx, dy)
}

/// The squares that a bishop on `square` reaches when the squares of
/// `enemies` are occupied and no others.
pub fn bishop_move_locations(square: Square, enemies: Bitboard) -> (result: Bitboard)
    ensures
        result@ == bishop_moves(square.index(), enemies@),
{
    let a = diagonal_move_locations(square, 1, 1, enemies);
    let b = diagonal_move_locations(square, 1, -1, enemies);
    let c = diagonal_move_locations(square, -1, 1, enemies);
    let d = diagonal_move_locations(square, -1, -1, enemies);
    a | b | c | d
}

/// What a bishop reaches along one diagonal.
pub fn diagonal_move_locations(square: Square, dx: i8, dy: i8, enemies: Bitboard) -> (result:
    Bitboard)
    requires
        dx == 1 || dx == -1,
        dy == 1 || dy == -1,
    ensures
        result@ == ray_moves(square.index(), dx as int, dy as int, enemies@),
{
    ray_move_locations(square, dx, dy, enemies)
}

/// The mask of a slider on `square`.
pub fn slider_attacks(slider: Slider, square: Square) -> (result: Bitboard)
    ensures
        result@ == slider_mask(slider, square.index()),
        1 <= popcount(result.0) <= 24,
{
    match slider {
        Slider::Rook => rook_attacks(square),
        Slider::Bishop => bishop_attacks(square),
    }
}

/// What a slider on `square` reaches when the squares of `occupied` are
/// occupied and no others.
pub fn slider_move_locations(slider: Slider, square: Square, occupied: Bitboard) -> (result:
    Bitboard)
    ensures
        result@ == slider_moves(slider, square.index(), occupied@),
        result.0 != 0,
{
    let result = match slider {
        Slider::Rook => rook_move_locations(square, occupied),
        Slider::Bishop => bishop_move_locations(square, occupied),
    };
    proof {
        use_type_invariant(&square);
        square.lemma_index_range();
        lemma_slider_moves_somewhere(slider, square.index(), occupied@);
        lemma_nonempty_board(result);
    }
    result
}

/// Where a slider on `square` can go among pieces of both sides: along each
/// ray over the empty squares up to the first piece, onto that piece if it is
/// an enemy, and not onto it if it is a friend.
pub fn slider_move_targets(
    slider: Slider,
    square: Square,
    friends: Bitboard,
    enemies: Bitboard,
) -> (result: Bitboard)
    ensures
        result@ == slider_moves(slider, square.index(), friends@.union(enemies@)).difference(
            friends@,
        ),
{
    let reached = slider_move_locations(slider, square, friends | enemies);
    let result = reached & friends.not();
    assert(result@ =~= slider_moves(slider, square.index(), friends@.union(enemies@)).difference(
        friends@,
    ));
    result
}

/// A board whose set of squares is not empty is not the zero word and has
/// a bit set.
pub proof fn lemma_nonempty_board(b: Bitboard)
    requires
        b@ != Set::<int>::empty(),
    ensures
        b.0 != 0,
        popcount(b.0) >= 1,
{
    if b.0 == 0 {
        lemma_bits_zero();
        assert(b@ =~= Set::<int>::empty());
    }
    lemma_popcount_nonzero(b.0);
}

/// The slot to which a multiplier sends an occupancy: the top `bits` bits of
/// their product, taken modulo 2^64.
pub open spec fn magic_slot(magic: u64, bits: u32, occupancy: u64) -> int {
    (wrapping_mul(magic, occupancy) >> ((64 - bits) as u64)) as int
}

/// Every slot lies in a table of `2^bits` entries.
pub proof fn lemma_slot_in_table(magic: u64, bits: u32, occupancy: u64)
    requires
        1 <= bits <= 31,
    ensures
        0 <= magic_slot(magic, bits, occupancy) < pow2(bits as nat),
        pow2(bits as nat) <= 0x8000_0000,
        pow2(bits as nat) == 1u64 << (bits as u64),
{
    let hash = wrapping_mul(magic, occupancy);
    let b = bits as u64;
    let s = (64 - bits) as u64;
    assert((hash >> s) < (1u64 << b) && (1u64 << b) <= 0x8000_0000) by (bit_vector)
        requires
            1 <= b <= 31,
            s == 64 - b,
    ;
    lemma2_to64();
    lemma_pow2_strictly_increases(b as nat, 32);
    lemma_u64_shl_is_mul(1, b);
}

/// The slot to which a multiplier sends an occupancy.
pub fn magic_index(magic: u64, shift_amount: u32, bitboard: Bitboard) -> (index: usize)
    requires
        1 <= shift_amount <= 31,
    ensures
        index == magic_slot(magic, shift_amount, bitboard.0),
        index < pow2(shift_amount as nat),
{
    let hash = magic.wrapping_mul(bitboard.0);
    let shift = 64 - shift_amount;
    proof {
        lemma_slot_in_table(magic, shift_amount, bitboard.0);
    }
    (hash >> shift) as usize
}

/// Whether every bit of `v` is a bit of `mask`.
pub open spec fn within(v: u64, mask: u64) -> bool {
    v & !mask == 0
}

/// A word lies within a mask exactly when its squares are among those of
/// the mask.
pub proof fn lemma_within_is_subset(v: u64, mask: u64)
    ensures
        within(v, mask) <==> bit_set(v).subset_of(bit_set(mask)),
{
    lemma_bits_not(mask);
    lemma_bits_and(v, !mask);
    lemma_no_bits(v & !mask);
    if within(v, mask) {
        assert forall|i: int| bit_set(v).contains(i) implies bit_set(mask).contains(i) by {
            assert(!has_bit(v & !mask, i));
        }
    }
    if bit_set(v).subset_of(bit_set(mask)) {
        assert forall|i: int| !has_bit(v & !mask, i) by {
            if has_bit(v, i) {
                assert(bit_set(v).contains(i));
                assert(bit_set(mask).contains(i));
            }
        }
    }
}

/// Whether `v` is one of the words of `list`.
pub open spec fn lists(list: Seq<Bitboard>, v: u64) -> bool {
    exists|i: int| 0 <= i < list.len() && (#[trigger] list[i]).0 == v
}

/// Whether a list holds the subsets of a set of squares: each of them and
/// nothing else.
pub open spec fn enumerates(list: Seq<Bitboard>, mask: Set<int>) -> bool {
    &&& forall|i: int| 0 <= i < list.len() ==> (#[trigger] list[i])@.subset_of(mask)
    &&& forall|v: u64| bit_set(v).subset_of(mask) ==> lists(list, v)
}

/// Whether the words of a list come in strictly descending order.
pub open spec fn falling(list: Seq<Bitboard>) -> bool {
    forall|i: int, j: int| 0 <= i < j < list.len() ==> list[i].0 > list[j].0
}

/// All the subsets of a set of squares: each of them, nothing else, as many
/// entries as there are subsets, the greatest word first and the empty set
/// last.
pub fn gen_variations(bitboard: Bitboard) -> (out: Vec<Bitboard>)
    ensures
        enumerates(out@, bitboard@),
        falling(out@),
        out.len() == pow2(bitboard@.len()),
    decreases bitboard.0,
{
    let mask = bitboard.0;
    if bitboard.is_empty() {
        let out = vec![bitboard];
        proof {
            lemma_popcount_is_len(mask);
            assert(out@[0] == bitboard);
            assert forall|v: u64| bit_set(v).subset_of(bitboard@) implies lists(out@, v) by {
                lemma_within_is_subset(v, 0);
                assert(v == 0) by (bit_vector)
                    requires
                        v & !0u64 == 0,
                ;
                assert(out@[0].0 == v);
            }
            lemma2_to64();
        }
        return out;
    }
    let top_one_square = bitboard.top_square();
    let top = top_one_square.to_bitboard();
    let without_top = bitboard ^ top;
    let ghost t = top.0;
    let ghost k = top_one_square.index() as u64;
    proof {
        lemma_popcount_without(mask, top_one_square.index());
        lemma_pow2_unfold(popcount(mask));
        lemma_popcount_is_len(mask);
        lemma_popcount_is_len(without_top.0);
        assert(t == 1u64 << k);
    }
    let rest_variations = gen_variations(without_top);
    let n = rest_variations.len();

    let mut out: Vec<Bitboard> = Vec::new();
    let mut i: usize = 0;
    while i < n
        invariant
            i <= n,
            n == rest_variations.len(),
            out.len() == i,
            forall|j: int| 0 <= j < i ==> (#[trigger] out[j]).0 == rest_variations[j].0 | t,
            top.0 == t,
        decreases n - i,
    {
        out.push(rest_variations[i] | top);
        i = i + 1;
    }
    i = 0;
    while i < n
        invariant
            i <= n,
            n == rest_variations.len(),
            out.len() == n + i,
            forall|j: int| 0 <= j < n ==> (#[trigger] out[j]).0 == rest_variations[j].0 | t,
            forall|j: int| 0 <= j < i ==> (#[trigger] out[n + j]).0 == rest_variations[j].0,
        decreases n - i,
    {
        out.push(rest_variations[i]);
        i = i + 1;
    }
    proof {
        let rest_mask = without_top.0;
        assert forall|j: int| k <= j < 64 implies !has_bit(rest_mask, j) by {
            lemma_bits_xor(mask, t);
            lemma_bits_single(k as int);
            if has_bit(mask, j) {
                assert(bitboard@.contains(j));
            }
        }
        lemma_below_single(rest_mask, k as int);
        assert forall|i: int, j: int| 0 <= i < j < out.len() implies out[i].0 > out[j].0 by {
            let ri = if i < n {
                rest_variations[i].0
            } else {
                rest_variations[i - n].0
            };
            let rj = if j < n {
                rest_variations[j].0
            } else {
                rest_variations[j - n].0
            };
            if i >= n {
                assert(out[n + (i - n)].0 == ri);
            }
            if j >= n {
                assert(out[n + (j - n)].0 == rj);
            }
            assert(rest_variations[if i < n { i } else { i - n }]@.subset_of(without_top@));
            assert(rest_variations[if j < n { j } else { j - n }]@.subset_of(without_top@));
            lemma_within_is_subset(ri, rest_mask);
            lemma_within_is_subset(rj, rest_mask);
            assert((ri | t) > rj && (ri > rj ==> (ri | t) > (rj | t))) by (bit_vector)
                requires
                    ri & !rest_mask == 0,
                    rj & !rest_mask == 0,
                    rest_mask < t,
                    t == 1u64 << k,
                    k < 64,
            ;
        }
        assert forall|j: int| 0 <= j < out.len() implies (#[trigger] out[j])@.subset_of(
            bitboard@,
        ) by {
            let r = if j < n {
                rest_variations[j].0
            } else {
                rest_variations[j - n].0
            };
            if j >= n {
                assert(out[n + (j - n)].0 == r);
            }
            lemma_within_is_subset(r, rest_mask);
            assert((r | t) & !mask == 0 && r & !mask == 0) by (bit_vector)
                requires
                    r & !rest_mask == 0,
                    rest_mask == mask ^ t,
                    t == 1u64 << k,
                    k < 64,
                    (mask >> k) & 1 == 1,
            ;
            lemma_within_is_subset(out[j].0, mask);
        }
        assert forall|v: u64| bit_set(v).subset_of(bitboard@) implies lists(out@, v) by {
            lemma_within_is_subset(v, mask);
            let r = if v & t != 0 {
                v ^ t
            } else {
                v
            };
            assert(r & !rest_mask == 0 && (v & t != 0 ==> r | t == v)) by (bit_vector)
                requires
                    v & !mask == 0,
                    rest_mask == mask ^ t,
                    t == 1u64 << k,
                    k < 64,
                    (mask >> k) & 1 == 1,
                    r == if v & t != 0 {
                        v ^ t
                    } else {
                        v
                    },
            ;
            lemma_within_is_subset(r, rest_mask);
            assert(lists(rest_variations@, r));
            let j = choose|j: int|
                0 <= j < rest_variations@.len() && (#[trigger] rest_variations@[j]).0 == r;
            if v & t != 0 {
                assert(out@[j].0 == v);
            } else {
                assert(out@[n + j].0 == v);
            }
        }
    }
    out
}

/// Whether a multiplier sends two occupancies of a slider on `from` to the
/// same slot although the slider reaches different squares for them.
pub open spec fn collide(slider: Slider, from: int, magic: u64, bits: u32, v1: u64, v2: u64)
    -> bool {
    &&& magic_slot(magic, bits, v1) == magic_slot(magic, bits, v2)
    &&& slider_moves(slider, from, bit_set(v1)) != slider_moves(slider, from, bit_set(v2))
}

/// Whether two of the listed occupancies collide.
pub open spec fn collision_among(
    slider: Slider,
    from: int,
    magic: u64,
    bits: u32,
    variations: Seq<Bitboard>,
) -> bool {
    exists|i: int, j: int|
        0 <= i < variations.len() && 0 <= j < variations.len() && #[trigger] collide(
            slider,
            from,
            magic,
            bits,
            variations[i].0,
            variations[j].0,
        )
}

/// Whether one of the first `n` listed occupancies is sent to slot `s`.
pub open spec fn slot_taken(
    magic: u64,
    bits: u32,
    variations: Seq<Bitboard>,
    n: int,
    s: int,
) -> bool {
    exists|i: int| 0 <= i < n && #[trigger] magic_slot(magic, bits, variations[i].0) == s
}

/// Whether a table answers for every listed occupancy: in the slot of each
/// stands what the slider reaches for it, and the slots of none are empty.
pub open spec fn table_serves(
    slider: Slider,
    from: int,
    magic: u64,
    bits: u32,
    variations: Seq<Bitboard>,
    table: Seq<Bitboard>,
) -> bool {
    &&& table.len() == pow2(bits as nat)
    &&& forall|i: int|
        0 <= i < variations.len() ==> table[#[trigger] magic_slot(magic, bits, variations[i].0)]@
            == slider_moves(slider, from, variations[i]@)
    &&& forall|s: int|
        0 <= s < table.len() && !slot_taken(magic, bits, variations, variations.len() as int, s)
            ==> (#[trigger] table[s]).0 == 0
}

/// A table of empty boards.
fn empty_table(size: usize) -> (table: Vec<Bitboard>)
    ensures
        table.len() == size,
        forall|s: int| 0 <= s < size ==> (#[trigger] table[s]).0 == 0,
{
    let mut table: Vec<Bitboard> = Vec::new();
    let mut i: usize = 0;
    while i < size
        invariant
            i <= size,
            table.len() == i,
            forall|s: int| 0 <= s < i ==> (#[trigger] table[s]).0 == 0,
        decreases size - i,
    {
        table.push(Bitboard::new(0));
        i = i + 1;
    }
    table
}

/// Fills the table of a slider on `square` for a multiplier: every listed
/// occupancy goes to its slot.  Gives the table if no two of them collide,
/// and nothing if two do.
pub fn gen_magic_database(
    magic: u64,
    num_bits: u32,
    square: Square,
    variations: &Vec<Bitboard>,
    slider: Slider,
) -> (r: Option<Vec<Bitboard>>)
    requires
        1 <= num_bits <= 31,
    ensures
        r is Some <==> !collision_among(slider, square.index(), magic, num_bits, variations@),
        r matches Some(table) ==> table_serves(
            slider,
            square.index(),
            magic,
            num_bits,
            variations@,
            table@,
        ),
{
    let ghost from = square.index();
    proof {
        use_type_invariant(&square);
        square.lemma_index_range();
        lemma_slot_in_table(magic, num_bits, 0);
    }
    let database_size = (1u64 << num_bits) as usize;
    let mut database = empty_table(database_size);

    let n = variations.len();
    let mut k: usize = 0;
    while k < n
        invariant
            0 <= from < 64,
            from == square.index(),
            1 <= num_bits <= 31,
            k <= n,
            n == variations.len(),
            database.len() == pow2(num_bits as nat),
            forall|i: int|
                0 <= i < k ==> database[#[trigger] magic_slot(magic, num_bits, variations[i].0)]@
                    == slider_moves(slider, from, variations[i]@),
            forall|s: int|
                0 <= s < database.len() && !slot_taken(magic, num_bits, variations@, k as int, s)
                    ==> (#[trigger] database[s]).0 == 0,
        decreases n - k,
    {
        let variation = variations[k];
        let index = magic_index(magic, num_bits, variation);
        let solution = slider_move_locations(slider, square, variation);
        let ghost before = database@;
        let stored = database[index];
        if stored.is_empty() {
            database.set(index, solution);
        } else if stored.0 != solution.0 {
            proof {
                assert(slot_taken(magic, num_bits, variations@, k as int, index as int));
                let i = choose|i: int|
                    0 <= i < k && #[trigger] magic_slot(magic, num_bits, variations@[i].0)
                        == index;
                if stored@ == solution@ {
                    lemma_bit_set_ext(stored.0, solution.0);
                }
                assert(collide(
                    slider,
                    from,
                    magic,
                    num_bits,
                    variations@[i].0,
                    variations@[k as int].0,
                ));
            }
            return None;
        }
        proof {
            assert forall|i: int| 0 <= i < k + 1 implies database[#[trigger] magic_slot(
                magic,
                num_bits,
                variations[i].0,
            )]@ == slider_moves(slider, from, variations[i]@) by {
                let s = magic_slot(magic, num_bits, variations[i].0);
                lemma_slot_in_table(magic, num_bits, variations[i].0);
                if i < k && s == index {
                    assert(before[s]@ == slider_moves(slider, from, variations[i]@));
                    lemma_slider_moves_somewhere(slider, from, variations[i]@);
                    lemma_nonempty_board(before[s]);
                }
            }
            assert forall|s: int|
                0 <= s < database.len() && !slot_taken(
                    magic,
                    num_bits,
                    variations@,
                    k + 1,
                    s,
                ) implies (#[trigger] database[s]).0 == 0 by {
                if s == index {
                    assert(magic_slot(magic, num_bits, variations@[k as int].0) == s);
                } else if slot_taken(magic, num_bits, variations@, k as int, s) {
                    let i = choose|i: int|
                        0 <= i < k && #[trigger] magic_slot(magic, num_bits, variations@[i].0)
                            == s;
                    assert(magic_slot(magic, num_bits, variations@[i].0) == s);
                }
            }
        }
        k = k + 1;
    }
    proof {
        if collision_among(slider, from, magic, num_bits, variations@) {
            let (i, j) = choose|i: int, j: int|
                0 <= i < variations@.len() && 0 <= j < variations@.len() && #[trigger] collide(
                    slider,
                    from,
                    magic,
                    num_bits,
                    variations@[i].0,
                    variations@[j].0,
                );
            let si = magic_slot(magic, num_bits, variations[i].0);
            let sj = magic_slot(magic, num_bits, variations[j].0);
            assert(database[si]@ == slider_moves(slider, from, variations[i]@));
            assert(database[sj]@ == slider_moves(slider, from, variations[j]@));
        }
    }
    Some(database)
}

/// Whether a multiplier is magic for a slider on `from`: among the
/// occupancies of the mask no two collide in a table of `2^bits` slots.
pub open spec fn is_magic(slider: Slider, from: int, magic: u64, bits: u32) -> bool {
    forall|v1: u64, v2: u64|
        bit_set(v1).subset_of(slider_mask(slider, from)) && bit_set(v2).subset_of(
            slider_mask(slider, from),
        ) ==> !#[trigger] collide(slider, from, magic, bits, v1, v2)
}

/// Whether a multiplier sends some occupancy of the mask of a slider on
/// `from` to slot `s`.
pub open spec fn slot_used(slider: Slider, from: int, magic: u64, bits: u32, s: int) -> bool {
    exists|v: u64|
        bit_set(v).subset_of(slider_mask(slider, from)) && #[trigger] magic_slot(magic, bits, v)
            == s
}

/// Whether a table answers for a slider on `from`: it has `2^bits` slots,
/// in the slot of every occupancy of the mask stands what the slider
/// reaches for it, and the other slots are empty.
pub open spec fn table_answers(
    slider: Slider,
    from: int,
    magic: u64,
    bits: u32,
    table: Seq<Bitboard>,
) -> bool {
    &&& table.len() == pow2(bits as nat)
    &&& forall|v: u64|
        bit_set(v).subset_of(slider_mask(slider, from)) ==> table[#[trigger] magic_slot(
            magic,
            bits,
            v,
        )]@ == slider_moves(slider, from, bit_set(v))
    &&& forall|s: int|
        0 <= s < table.len() && !slot_used(slider, from, magic, bits, s) ==> (#[trigger] table[s]).0
            == 0
}

/// Over a list of all the occupancies of the mask, a multiplier is magic
/// exactly when no two of the list collide, and a table that serves the
/// list answers for the slider.
pub proof fn lemma_magic_over_list(
    slider: Slider,
    from: int,
    magic: u64,
    bits: u32,
    variations: Seq<Bitboard>,
)
    requires
        enumerates(variations, slider_mask(slider, from)),
    ensures
        is_magic(slider, from, magic, bits) <==> !collision_among(
            slider,
            from,
            magic,
            bits,
            variations,
        ),
        forall|table: Seq<Bitboard>|
            table_serves(slider, from, magic, bits, variations, table) ==> #[trigger] table_answers(
                slider,
                from,
                magic,
                bits,
                table,
            ),
{
    let mask = slider_mask(slider, from);
    if !is_magic(slider, from, magic, bits) {
        let (v1, v2) = choose|v1: u64, v2: u64|
            bit_set(v1).subset_of(mask) && bit_set(v2).subset_of(mask) && #[trigger] collide(
                slider,
                from,
                magic,
                bits,
                v1,
                v2,
            );
        assert(lists(variations, v1));
        assert(lists(variations, v2));
        let i = choose|i: int| 0 <= i < variations.len() && (#[trigger] variations[i]).0 == v1;
        let j = choose|j: int| 0 <= j < variations.len() && (#[trigger] variations[j]).0 == v2;
        assert(collide(slider, from, magic, bits, variations[i].0, variations[j].0));
    }
    if collision_among(slider, from, magic, bits, variations) {
        let (i, j) = choose|i: int, j: int|
            0 <= i < variations.len() && 0 <= j < variations.len() && #[trigger] collide(
                slider,
                from,
                magic,
                bits,
                variations[i].0,
                variations[j].0,
            );
        assert(variations[i]@.subset_of(mask));
        assert(variations[j]@.subset_of(mask));
    }
    assert forall|table: Seq<Bitboard>|
        table_serves(slider, from, magic, bits, variations, table) implies #[trigger] table_answers(
        slider,
        from,
        magic,
        bits,
        table,
    ) by {
        assert forall|v: u64| bit_set(v).subset_of(mask) implies table[#[trigger] magic_slot(
            magic,
            bits,
            v,
        )]@ == slider_moves(slider, from, bit_set(v)) by {
            assert(lists(variations, v));
            let i = choose|i: int| 0 <= i < variations.len() && (#[trigger] variations[i]).0 == v;
            assert(table[magic_slot(magic, bits, variations[i].0)]@ == slider_moves(
                slider,
                from,
                variations[i]@,
            ));
        }
        assert forall|s: int|
            0 <= s < table.len() && !slot_used(slider, from, magic, bits, s) implies (
        #[trigger] table[s]).0 == 0 by {
            if slot_taken(magic, bits, variations, variations.len() as int, s) {
                let i = choose|i: int|
                    0 <= i < variations.len() && #[trigger] magic_slot(
                        magic,
                        bits,
                        variations[i].0,
                    ) == s;
                assert(variations[i]@.subset_of(mask));
                assert(magic_slot(magic, bits, variations[i].0) == s);
            }
        }
    }
}

/// The table of a slider on a square for a multiplier and a table width,
/// if the width is the size of the mask and the multiplier is magic.
pub fn gen_database(slider: Slider, square_index: u8, magic: u64, shift_amount: u32) -> (r: Option<
    Vec<Bitboard>,
>)
    requires
        square_index < 64,
    ensures
        r is Some <==> shift_amount == slider_mask(slider, square_index as int).len() && is_magic(
            slider,
            square_index as int,
            magic,
            shift_amount,
        ),
        r matches Some(table) ==> table_answers(
            slider,
            square_index as int,
            magic,
            shift_amount,
            table@,
        ),
{
    let square = Square::new(square_index);
    let attacks = slider_attacks(slider, square);
    let num_bits = attacks.num_occupied_squares();
    let variations = gen_variations(attacks);

    if num_bits != shift_amount {
        return None;
    }
    proof {
        lemma_magic_over_list(slider, square_index as int, magic, num_bits, variations@);
    }
    gen_magic_database(magic, num_bits, square, &variations, slider)
}

/// The table of a rook on a square for a multiplier and a table width, if
/// the width is the size of the mask and the multiplier is magic.
pub fn gen_rook_database(square_index: u8, magic: u64, shift_amount: u32) -> (r: Option<
    Vec<Bitboard>,
>)
    requires
        square_index < 64,
    ensures
        r is Some <==> shift_amount == rook_mask(square_index as int).len() && is_magic(
            Slider::Rook,
            square_index as int,
            magic,
            shift_amount,
        ),
        r matches Some(table) ==> table_answers(
            Slider::Rook,
            square_index as int,
            magic,
            shift_amount,
            table@,
        ),
{
    gen_database(Slider::Rook, square_index, magic, shift_amount)
}

/// The table of a bishop on a square for a multiplier and a table width,
/// if the width is the size of the mask and the multiplier is magic.
pub fn gen_bishop_database(square_index: u8, magic: u64, shift_amount: u32) -> (r: Option<
    Vec<Bitboard>,
>)
    requires
        square_index < 64,
    ensures
        r is Some <==> shift_amount == bishop_mask(square_index as int).len() && is_magic(
            Slider::Bishop,
            square_index as int,
            magic,
            shift_amount,
        ),
        r matches Some(table) ==> table_answers(
            Slider::Bishop,
            square_index as int,
            magic,
            shift_amount,
            table@,
        ),
{
    gen_database(Slider::Bishop, square_index, magic, shift_amount)
}

/// The multiplier and table width that the database uses for each square of
/// a bishop.
pub const BISHOP_MAGICS: [(u64, u32); 64] = [
    (13528393349890082, 6),
    (9152340191895557, 5),
    (3459899212118884352, 5),
    (1165484472926210, 5),
    (73206171372101698, 5),
    (4611844400178267136, 5),
    (1130315167301632, 5),
    (39586723008512, 6),
    (72092920211120192, 5),
    (9009407270723712, 5),
    (2269396865134593, 5),
    (18159826110513152, 5),
    (2207881789696, 5),
    (585468510176542720, 5),
    (5764682987826323456, 5),
    (4614089551936751680, 5),
    (1214136051040768, 5),
    (22518032530179072, 5),
    (845533166045824, 7),
    (76701965546962944, 7),
    (1128101088067720, 7),
    (562960825649152, 7),
    (571750350865408, 5),
    (3463831063946725504, 5),
    (633662832394752, 5),
    (322158115963904, 5),
    (4543182079788032, 7),
    (184651999952769056, 9),
    (2959885310369792, 9),
    (144717857920421888, 7),
    (1130297958663168, 5),
    (2341951280341189184, 5),
    (2306159737282498560, 5),
    (285941744795904, 5),
    (1729452831947620416, 7),
    (144401078279471632, 9),
    (162130690391945280, 9),
    (141845592080544, 7),
    (4627450270685628416, 5),
    (288797725225452608, 5),
    (1153495587719487552, 5),
    (11404152320033280, 5),
    (9512165707765797890, 7),
    (412719513856, 7),
    (1020484380524672, 7),
    (283708393259328, 7),
    (585478955302134272, 5),
    (1301544692579565600, 5),
    (37155830831907074, 5),
    (72603402371072, 5),
    (283682623848464, 5),
    (4400739778560, 5),
    (216177249418874880, 5),
    (4616260055560388608, 5),
    (2308103609549717568, 5),
    (4612257773089062928, 5),
    (3941785827279364, 6),
    (288231836474216579, 5),
    (18014403374944264, 5),
    (70368746309632, 5),
    (2594073394494324992, 5),
    (10376294177653915904, 5),
    (2449980256309231744, 5),
    (9009415609983488, 6),
];

/// The multiplier and table width that the database uses for each square of
/// a rook.
pub const ROOK_MAGICS: [(u64, u32); 64] = [
    (180166250207477760, 12),
    (18014708284002304, 11),
    (72092778548494352, 11),
    (9295464883984859140, 11),
    (144123992760914961, 11),
    (36050787276687872, 11),
    (1225050567001244036, 11),
    (72060070120661248, 12),
    (6917669775334178944, 11),
    (36169809395712128, 10),
    (2305983815429939200, 10),
    (2305983781062836352, 10),
    (578853323973608448, 10),
    (288371130820067456, 10),
    (141287277741312, 10),
    (281483570872576, 11),
    (9007751158054912, 11),
    (74451231925346560, 10),
    (141287781109768, 10),
    (141287378391040, 10),
    (2306125583970992196, 10),
    (4612812470237790720, 10),
    (72198881315661056, 10),
    (9805486477952682113, 11),
    (140741785436416, 11),
    (9886810712850432, 10),
    (9223794429709647936, 10),
    (17594341918720, 10),
    (36072788221755520, 10),
    (4616191819225759872, 10),
    (1153202983878656004, 10),
    (4620693501151281537, 11),
    (36028934537609280, 11),
    (35186595086336, 10),
    (144396732862570496, 10),
    (36037595267870722, 10),
    (18058381130466304, 10),
    (563121785672720, 10),
    (4504733565854224, 10),
    (3458768914048090177, 11),
    (140876001345536, 11),
    (74591143714684964, 10),
    (1161084547399808, 10),
    (1729399849230565504, 10),
    (8796915171332, 10),
    (19316237725598016, 10),
    (288511859718422540, 10),
    (11529365680545726468, 11),
    (36028934462111808, 11),
    (1170936180679642176, 10),
    (144194490368790784, 10),
    (8813541360256, 10),
    (145241122350900608, 10),
    (4398080098432, 10),
    (4611967510617522944, 10),
    (564050606459392, 11),
    (140814934262018, 12),
    (4612037872886808993, 11),
    (9259454710480373825, 11),
    (1153203014020894721, 11),
    (562984851112962, 11),
    (281526516843009, 11),
    (288283154991612420, 11),
    (13194684809474, 12),
];

/// The multiplier and table width that the database uses for a slider on
/// square `from`.
pub open spec fn built_in(slider: Slider, from: int) -> (u64, u32) {
    match slider {
        Slider::Rook => ROOK_MAGICS[from],
        Slider::Bishop => BISHOP_MAGICS[from],
    }
}

/// Whether the multiplier that the database uses for a slider on `from` is
/// magic and its table width the size of the mask.
pub open spec fn built_in_works(slider: Slider, from: int) -> bool {
    &&& built_in(slider, from).1 == slider_mask(slider, from).len()
    &&& is_magic(slider, from, built_in(slider, from).0, built_in(slider, from).1)
}

/// Looking an occupancy up gives what the slider reaches: in a table that
/// answers for a slider on `from`, the slot of the part of any occupancy
/// that lies on the mask holds the squares that the slider reaches when the
/// whole occupancy stands on the board.
pub proof fn lemma_lookup_is_oracle(
    slider: Slider,
    from: int,
    magic: u64,
    bits: u32,
    table: Seq<Bitboard>,
    mask: Bitboard,
    occupied: Bitboard,
)
    requires
        0 <= from < 64,
        1 <= bits <= 31,
        mask@ == slider_mask(slider, from),
        table_answers(slider, from, magic, bits, table),
    ensures
        0 <= magic_slot(magic, bits, occupied.0 & mask.0) < table.len(),
        table[magic_slot(magic, bits, occupied.0 & mask.0)]@ == slider_moves(
            slider,
            from,
            occupied@,
        ),
{
    let v = occupied.0 & mask.0;
    lemma_bits_and(occupied.0, mask.0);
    lemma_slot_in_table(magic, bits, v);
    lemma_slider_sees_mask_only(slider, from, occupied@);
    assert(bit_set(v) =~= occupied@.intersect(mask@));
    assert(bit_set(v).subset_of(slider_mask(slider, from)));
}

/// What a queen reaches is what a rook reaches together with what a bishop
/// reaches, bit for bit.
pub proof fn lemma_queen_is_rook_or_bishop(
    from: int,
    occupied: Set<int>,
    rook: Bitboard,
    bishop: Bitboard,
    queen: Bitboard,
)
    requires
        rook@ == rook_moves(from, occupied),
        bishop@ == bishop_moves(from, occupied),
        queen@ == queen_moves(from, occupied),
    ensures
        queen.0 == rook.0 | bishop.0,
{
    lemma_bits_or(rook.0, bishop.0);
    assert(bit_set(rook.0 | bishop.0) =~= queen@);
    lemma_bit_set_ext(queen.0, rook.0 | bishop.0);
}

/// For every square the mask and the table of a rook and of a bishop, built
/// once and only read after that.
pub struct MagicDatabase {
    rook_databases: Vec<Vec<Bitboard>>,
    bishop_databases: Vec<Vec<Bitboard>>,
    rook_attacks: Vec<Bitboard>,
    bishop_attacks: Vec<Bitboard>,
}

/// Whether the masks and tables of the first `n` squares are those of the
/// slider, built for the multipliers that the database uses.
pub open spec fn tables_answer(
    slider: Slider,
    tables: Seq<Vec<Bitboard>>,
    masks: Seq<Bitboard>,
    n: int,
) -> bool {
    forall|from: int|
        0 <= from < n ==> {
            &&& (#[trigger] masks[from])@ == slider_mask(slider, from)
            &&& 1 <= built_in(slider, from).1 <= 31
            &&& table_answers(
                slider,
                from,
                built_in(slider, from).0,
                built_in(slider, from).1,
                tables[from]@,
            )
        }
}

impl MagicDatabase {
    /// Every table answers for its square.
    #[verifier::type_invariant]
    pub closed spec fn wf(self) -> bool {
        &&& self.rook_databases.len() == 64
        &&& self.rook_attacks.len() == 64
        &&& self.bishop_databases.len() == 64
        &&& self.bishop_attacks.len() == 64
        &&& tables_answer(Slider::Rook, self.rook_databases@, self.rook_attacks@, 64)
        &&& tables_answer(Slider::Bishop, self.bishop_databases@, self.bishop_attacks@, 64)
    }

    /// Builds the masks and tables of one slider for all squares, if the
    /// multipliers that the database uses all work.
    fn build(slider: Slider) -> (r: Option<(Vec<Vec<Bitboard>>, Vec<Bitboard>)>)
        ensures
            r is Some <==> forall|from: int| 0 <= from < 64 ==> built_in_works(slider, from),
            r matches Some((tables, masks)) ==> {
                &&& tables.len() == 64
                &&& masks.len() == 64
                &&& tables_answer(slider, tables@, masks@, 64)
            },
    {
        let mut tables: Vec<Vec<Bitboard>> = Vec::new();
        let mut masks: Vec<Bitboard> = Vec::new();
        let mut square_index: u8 = 0;
        while square_index < 64
            invariant
                square_index <= 64,
                tables.len() == square_index,
                masks.len() == square_index,
                tables_answer(slider, tables@, masks@, square_index as int),
                forall|from: int| 0 <= from < square_index ==> built_in_works(slider, from),
            decreases 64 - square_index,
        {
            let (magic, shift_amount) = match slider {
                Slider::Rook => ROOK_MAGICS[square_index as usize],
                Slider::Bishop => BISHOP_MAGICS[square_index as usize],
            };
            let mask = slider_attacks(slider, Square::new(square_index));
            match gen_database(slider, square_index, magic, shift_amount) {
                Some(database) => {
                    proof {
                        lemma_popcount_is_len(mask.0);
                    }
                    tables.push(database);
                    masks.push(mask);
                },
                None => {
                    assert(!built_in_works(slider, square_index as int));
                    return None;
                },
            }
            square_index = square_index + 1;
        }
        Some((tables, masks))
    }

    /// The database, if every multiplier that it uses is magic for its
    /// square with the table width that goes with it.
    pub fn new() -> (r: Option<MagicDatabase>)
        ensures
            r is Some <==> forall|from: int|
                0 <= from < 64 ==> built_in_works(Slider::Rook, from) && built_in_works(
                    Slider::Bishop,
                    from,
                ),
    {
        let (rook_databases, rook_attacks) = match MagicDatabase::build(Slider::Rook) {
            Some(built) => built,
            None => {
                return None;
            },
        };
        let (bishop_databases, bishop_attacks) = match MagicDatabase::build(Slider::Bishop) {
            Some(built) => built,
            None => {
                return None;
            },
        };
        Some(MagicDatabase { rook_databases, bishop_databases, rook_attacks, bishop_attacks })
    }

    /// What a rook on `square` reaches when the squares of `occupied` are
    /// occupied and no others.
    pub fn rook_attacks(&self, square: Square, occupied: Bitboard) -> (r: Bitboard)
        ensures
            r@ == rook_moves(square.index(), occupied@),
    {
        let square_index = square.to_index() as usize;
        proof {
            use_type_invariant(self);
        }
        let variation = occupied & self.rook_attacks[square_index];
        let (magic, shift) = ROOK_MAGICS[square_index];
        let magic_index = magic_index(magic, shift, variation);
        proof {
            assert(built_in(Slider::Rook, square.index()) == (magic, shift));
            lemma_lookup_is_oracle(
                Slider::Rook,
                square.index(),
                magic,
                shift,
                self.rook_databases@[square.index()]@,
                self.rook_attacks@[square.index()],
                occupied,
            );
        }
        self.rook_databases[square_index][magic_index]
    }

    /// What a bishop on `square` reaches when the squares of `occupied` are
    /// occupied and no others.
    pub fn bishop_attacks(&self, square: Square, occupied: Bitboard) -> (r: Bitboard)
        ensures
            r@ == bishop_moves(square.index(), occupied@),
    {
        let square_index = square.to_index() as usize;
        proof {
            use_type_invariant(self);
        }
        let variation = occupied & self.bishop_attacks[square_index];
        let (magic, shift) = BISHOP_MAGICS[square_index];
        let magic_index = magic_index(magic, shift, variation);
        proof {
            assert(built_in(Slider::Bishop, square.index()) == (magic, shift));
            lemma_lookup_is_oracle(
                Slider::Bishop,
                square.index(),
                magic,
                shift,
                self.bishop_databases@[square.index()]@,
                self.bishop_attacks@[square.index()],
                occupied,
            );
        }
        self.bishop_databases[square_index][magic_index]
    }

    /// What a queen on `square` reaches: what a rook reaches and what a
    /// bishop reaches.
    pub fn queen_attacks(&self, square: Square, occupied: Bitboard) -> (r: Bitboard)
        ensures
            r@ == queen_moves(square.index(), occupied@),
            r@ == rook_moves(square.index(), occupied@).union(
                bishop_moves(square.index(), occupied@),
            ),
    {
        self.rook_attacks(square, occupied) | self.bishop_attacks(square, occupied)
    }
}

/// A 64-bit number from the random number generator of the thread, by
/// `rand::random`.  Nothing is claimed of the number.  The generator stops
/// the program where the system gives it no seed; no argument decides that.
#[verifier::external_body]
fn random_u64() -> u64 {
    rand::random::<u64>()
}

/// The bits that four words have in common: of random words, a word with
/// few bits set.
pub fn common_bits(a: u64, b: u64, c: u64, d: u64) -> (r: u64)
    ensures
        r == a & b & c & d,
        bit_set(r) == bit_set(a).intersect(bit_set(b)).intersect(bit_set(c)).intersect(
            bit_set(d),
        ),
{
    proof {
        lemma_bits_and(a, b);
        lemma_bits_and(a & b, c);
        lemma_bits_and(a & b & c, d);
        assert(bit_set(a & b & c & d) =~= bit_set(a).intersect(bit_set(b)).intersect(
            bit_set(c),
        ).intersect(bit_set(d)));
    }
    a & b & c & d
}

/// A candidate multiplier with few bits set: four random numbers, of which
/// it keeps the bits that all of them have.
pub fn sparse_candidate() -> u64 {
    let a = random_u64();
    let b = random_u64();
    let c = random_u64();
    let d = random_u64();
    common_bits(a, b, c, d)
}

/// How many candidates `find_rook_magic` and `find_bishop_magic` try before
/// they give up.
pub const MAGIC_ATTEMPTS: u64 = 100_000_000;

/// Whether a multiplier is magic for a slider on a square, given the mask of
/// the slider and the list of its occupancies.
fn candidate_works(
    slider: Slider,
    square: Square,
    num_bits: u32,
    variations: &Vec<Bitboard>,
    magic: u64,
) -> (ok: bool)
    requires
        1 <= num_bits <= 31,
        enumerates(variations@, slider_mask(slider, square.index())),
    ensures
        ok == is_magic(slider, square.index(), magic, num_bits),
{
    proof {
        lemma_magic_over_list(slider, square.index(), magic, num_bits, variations@);
    }
    gen_magic_database(magic, num_bits, square, variations, slider).is_some()
}

/// The first of the candidates that is magic for a slider on a square, with
/// the table width that goes with it, the size of the mask.  Nothing if
/// none of them is magic.
pub fn find_magic_among(slider: Slider, square_index: u8, candidates: &Vec<u64>) -> (r: Option<
    (u64, u32),
>)
    requires
        square_index < 64,
    ensures
        match r {
            Some((magic, bits)) => {
                &&& bits == slider_mask(slider, square_index as int).len()
                &&& exists|i: int|
                    {
                        &&& 0 <= i < candidates.len()
                        &&& #[trigger] candidates[i] == magic
                        &&& is_magic(slider, square_index as int, magic, bits)
                        &&& forall|j: int|
                            0 <= j < i ==> !is_magic(
                                slider,
                                square_index as int,
                                #[trigger] candidates[j],
                                bits,
                            )
                    }
            },
            None => forall|i: int|
                0 <= i < candidates.len() ==> !is_magic(
                    slider,
                    square_index as int,
                    #[trigger] candidates[i],
                    slider_mask(slider, square_index as int).len() as u32,
                ),
        },
{
    let square = Square::new(square_index);
    let attacks = slider_attacks(slider, square);
    let num_bits = attacks.num_occupied_squares();
    let variations = gen_variations(attacks);

    let mut i: usize = 0;
    while i < candidates.len()
        invariant
            i <= candidates.len(),
            square.index() == square_index,
            1 <= num_bits <= 31,
            num_bits == slider_mask(slider, square_index as int).len(),
            enumerates(variations@, slider_mask(slider, square.index())),
            forall|j: int|
                0 <= j < i ==> !is_magic(
                    slider,
                    square_index as int,
                    #[trigger] candidates[j],
                    num_bits,
                ),
        decreases candidates.len() - i,
    {
        let magic = candidates[i];
        if candidate_works(slider, square, num_bits, &variations, magic) {
            assert(candidates[i as int] == magic);
            return Some((magic, num_bits));
        }
        i = i + 1;
    }
    None
}

/// Looks for a multiplier that is magic for a slider on a square among at
/// most `attempts` sparse random candidates.  What it returns is magic, with
/// the table width that goes with it, the size of the mask.  With no attempt
/// allowed it returns nothing; otherwise the candidates that are drawn
/// decide whether it finds one.
pub fn find_magic(slider: Slider, square_index: u8, attempts: u64) -> (r: Option<(u64, u32)>)
    requires
        square_index < 64,
    ensures
        r matches Some((magic, bits)) ==> {
            &&& bits == slider_mask(slider, square_index as int).len()
            &&& is_magic(slider, square_index as int, magic, bits)
        },
        attempts == 0 ==> r is None,
{
    let square = Square::new(square_index);
    let attacks = slider_attacks(slider, square);
    let num_bits = attacks.num_occupied_squares();
    let variations = gen_variations(attacks);

    let mut tried: u64 = 0;
    while tried < attempts
        invariant
            square.index() == square_index,
            1 <= num_bits <= 31,
            num_bits == slider_mask(slider, square_index as int).len(),
            enumerates(variations@, slider_mask(slider, square.index())),
        decreases attempts - tried,
    {
        let magic = sparse_candidate();
        if candidate_works(slider, square, num_bits, &variations, magic) {
            return Some((magic, num_bits));
        }
        tried = tried + 1;
    }
    None
}

/// Looks for a multiplier that is magic for a rook on a square, among at
/// most `MAGIC_ATTEMPTS` sparse random candidates.
pub fn find_rook_magic(square_index: u8) -> (r: Option<(u64, u32)>)
    requires
        square_index < 64,
    ensures
        r matches Some((magic, bits)) ==> {
            &&& bits == rook_mask(square_index as int).len()
            &&& is_magic(Slider::Rook, square_index as int, magic, bits)
        },
{
    find_magic(Slider::Rook, square_index, MAGIC_ATTEMPTS)
}

/// Looks for a multiplier that is magic for a bishop on a square, among at
/// most `MAGIC_ATTEMPTS` sparse random candidates.
pub fn find_bishop_magic(square_index: u8) -> (r: Option<(u64, u32)>)
    requires
        square_index < 64,
    ensures
        r matches Some((magic, bits)) ==> {
            &&& bits == bishop_mask(square_index as int).len()
            &&& is_magic(Slider::Bishop, square_index as int, magic, bits)
        },
{
    find_magic(Slider::Bishop, square_index, MAGIC_ATTEMPTS)
}

} // verus!
