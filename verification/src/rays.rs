//! Rays on the board: the squares that a sliding piece sees along one
//! direction, with and without pieces in the way.

use vstd::prelude::*;
use crate::bitboard::Bitboard;
use crate::bits::{lemma_bits_zero, lemma_popcount_or, lemma_popcount_single, popcount};
use crate::square::Square;

verus! {

/// `n` steps along one coordinate of a direction.
pub open spec fn scaled(d: int, n: int) -> int {
    if d == 0 {
        0
    } else if d > 0 {
        n
    } else {
        -n
    }
}

/// One of the eight directions: a step of at most one file and one rank.
pub open spec fn is_direction(dx: int, dy: int) -> bool {
    -1 <= dx <= 1 && -1 <= dy <= 1 && !(dx == 0 && dy == 0)
}

/// The file reached `n` steps from square `from`.
pub open spec fn file_at(from: int, dx: int, n: int) -> int {
    from % 8 + scaled(dx, n)
}

/// The rank reached `n` steps from square `from`.
pub open spec fn rank_at(from: int, dy: int, n: int) -> int {
    from / 8 + scaled(dy, n)
}

/// Whether `n` steps from `from` in the direction lead to a square of the
/// board.
pub open spec fn on_board_at(from: int, dx: int, dy: int, n: int) -> bool {
    0 <= file_at(from, dx, n) < 8 && 0 <= rank_at(from, dy, n) < 8
}

/// The square `n` steps from `from` in the direction.
pub open spec fn square_at(from: int, dx: int, dy: int, n: int) -> int {
    file_at(from, dx, n) + 8 * rank_at(from, dy, n)
}

/// Whether the squares strictly between `from` and the one `n` steps away
/// are all empty.
pub open spec fn clear_before(from: int, dx: int, dy: int, n: int, occupied: Set<int>) -> bool {
    forall|k: int| 1 <= k < n ==> !occupied.contains(#[trigger] square_at(from, dx, dy, k))
}

/// Whether a slider on `from` reaches the square `n` steps away: it is on
/// the board and nothing stands in between.
pub open spec fn ray_reaches(from: int, dx: int, dy: int, n: int, occupied: Set<int>) -> bool {
    1 <= n && on_board_at(from, dx, dy, n) && clear_before(from, dx, dy, n, occupied)
}

/// The squares that a slider on `from` reaches in one direction: every
/// empty square up to the first occupied one, and that one too.
pub open spec fn ray_moves(from: int, dx: int, dy: int, occupied: Set<int>) -> Set<int> {
    Set::new(
        |t: int|
            exists|n: int| #[trigger]
                ray_reaches(from, dx, dy, n, occupied) && t == square_at(from, dx, dy, n),
    )
}

/// Whether the square `n` steps from `from` is on the ray and is not its
/// last square.
pub open spec fn inner_at(from: int, dx: int, dy: int, n: int) -> bool {
    1 <= n && on_board_at(from, dx, dy, n + 1)
}

/// The squares of a ray whose occupancy decides how far a slider on `from`
/// gets: all of the ray but its last square.
pub open spec fn ray_mask(from: int, dx: int, dy: int) -> Set<int> {
    Set::new(
        |t: int| exists|n: int| #[trigger] inner_at(from, dx, dy, n) && t == square_at(from, dx, dy, n),
    )
}

/// Whether `t` is the square `k` steps from `from` and `k` is in `1..=n`.
pub open spec fn is_step(from: int, dx: int, dy: int, n: int, k: int, t: int) -> bool {
    1 <= k <= n && t == square_at(from, dx, dy, k)
}

/// The first `n` squares of a ray.
pub open spec fn ray_prefix(from: int, dx: int, dy: int, n: int) -> Set<int> {
    Set::new(|t: int| exists|k: int| #[trigger] is_step(from, dx, dy, n, k, t))
}

/// Before the first step a ray has no squares.
pub proof fn lemma_prefix_empty(from: int, dx: int, dy: int)
    ensures
        ray_prefix(from, dx, dy, 0) == Set::<int>::empty(),
{
    assert(ray_prefix(from, dx, dy, 0) =~= Set::<int>::empty());
}

/// One step more adds one square to the squares of a ray.
pub proof fn lemma_prefix_step(from: int, dx: int, dy: int, n: int)
    requires
        n >= 0,
    ensures
        ray_prefix(from, dx, dy, n + 1) == ray_prefix(from, dx, dy, n).insert(
            square_at(from, dx, dy, n + 1),
        ),
{
    let longer = ray_prefix(from, dx, dy, n + 1);
    let shorter = ray_prefix(from, dx, dy, n).insert(square_at(from, dx, dy, n + 1));
    assert forall|t: int| longer.contains(t) implies shorter.contains(t) by {
        let k = choose|k: int| #[trigger] is_step(from, dx, dy, n + 1, k, t);
        if k <= n {
            assert(is_step(from, dx, dy, n, k, t));
        }
    }
    assert forall|t: int| shorter.contains(t) implies longer.contains(t) by {
        if t == square_at(from, dx, dy, n + 1) {
            assert(is_step(from, dx, dy, n + 1, n + 1, t));
        } else {
            let k = choose|k: int| #[trigger] is_step(from, dx, dy, n, k, t);
            assert(is_step(from, dx, dy, n + 1, k, t));
        }
    }
    assert(longer =~= shorter);
}

/// Once a ray has left the board it stays off it.
pub proof fn lemma_off_board_stays(from: int, dx: int, dy: int, m: int, j: int)
    requires
        0 <= from < 64,
        is_direction(dx, dy),
        0 <= m <= j,
        !on_board_at(from, dx, dy, m),
    ensures
        !on_board_at(from, dx, dy, j),
{
}

/// A ray that runs off the board after `n` empty squares is those squares.
pub proof fn lemma_moves_to_edge(from: int, dx: int, dy: int, n: int, occupied: Set<int>)
    requires
        0 <= from < 64,
        is_direction(dx, dy),
        n >= 0,
        forall|k: int|
            1 <= k <= n ==> on_board_at(from, dx, dy, k) && !occupied.contains(
                #[trigger] square_at(from, dx, dy, k),
            ),
        !on_board_at(from, dx, dy, n + 1),
    ensures
        ray_moves(from, dx, dy, occupied) == ray_prefix(from, dx, dy, n),
{
    let moves = ray_moves(from, dx, dy, occupied);
    let prefix = ray_prefix(from, dx, dy, n);
    assert forall|t: int| moves.contains(t) implies prefix.contains(t) by {
        let j = choose|j: int| #[trigger]
            ray_reaches(from, dx, dy, j, occupied) && t == square_at(from, dx, dy, j);
        if j > n {
            lemma_off_board_stays(from, dx, dy, n + 1, j);
        }
        assert(is_step(from, dx, dy, n, j, t));
    }
    assert forall|t: int| prefix.contains(t) implies moves.contains(t) by {
        let k = choose|k: int| #[trigger] is_step(from, dx, dy, n, k, t);
        assert(on_board_at(from, dx, dy, k)) by {
            assert(!occupied.contains(square_at(from, dx, dy, k)));
        }
        assert(ray_reaches(from, dx, dy, k, occupied));
    }
    assert(moves =~= prefix);
}

/// A ray that meets its first piece on its `m`-th square is its first `m`
/// squares.
pub proof fn lemma_moves_to_piece(from: int, dx: int, dy: int, m: int, occupied: Set<int>)
    requires
        0 <= from < 64,
        is_direction(dx, dy),
        m >= 1,
        forall|k: int|
            1 <= k < m ==> on_board_at(from, dx, dy, k) && !occupied.contains(
                #[trigger] square_at(from, dx, dy, k),
            ),
        on_board_at(from, dx, dy, m),
        occupied.contains(square_at(from, dx, dy, m)),
    ensures
        ray_moves(from, dx, dy, occupied) == ray_prefix(from, dx, dy, m),
{
    let moves = ray_moves(from, dx, dy, occupied);
    let prefix = ray_prefix(from, dx, dy, m);
    assert forall|t: int| moves.contains(t) implies prefix.contains(t) by {
        let j = choose|j: int| #[trigger]
            ray_reaches(from, dx, dy, j, occupied) && t == square_at(from, dx, dy, j);
        if j > m {
            assert(!occupied.contains(square_at(from, dx, dy, m)));
        }
        assert(is_step(from, dx, dy, m, j, t));
    }
    assert forall|t: int| prefix.contains(t) implies moves.contains(t) by {
        let k = choose|k: int| #[trigger] is_step(from, dx, dy, m, k, t);
        if k < m {
            assert(!occupied.contains(square_at(from, dx, dy, k)));
        }
        assert(ray_reaches(from, dx, dy, k, occupied));
    }
    assert(moves =~= prefix);
}

/// A ray whose square after the `n`-th is its last, or off the board, has
/// its first `n` squares as mask.
pub proof fn lemma_mask_is_prefix(from: int, dx: int, dy: int, n: int)
    requires
        0 <= from < 64,
        is_direction(dx, dy),
        n >= 0,
        n >= 1 ==> on_board_at(from, dx, dy, n + 1),
        !on_board_at(from, dx, dy, n + 2),
    ensures
        ray_mask(from, dx, dy) == ray_prefix(from, dx, dy, n),
{
    let mask = ray_mask(from, dx, dy);
    let prefix = ray_prefix(from, dx, dy, n);
    assert forall|t: int| mask.contains(t) implies prefix.contains(t) by {
        let j = choose|j: int| #[trigger] inner_at(from, dx, dy, j) && t == square_at(from, dx, dy, j);
        if j > n {
            lemma_off_board_stays(from, dx, dy, n + 2, j + 1);
        }
        assert(is_step(from, dx, dy, n, j, t));
    }
    assert forall|t: int| prefix.contains(t) implies mask.contains(t) by {
        let k = choose|k: int| #[trigger] is_step(from, dx, dy, n, k, t);
        if !on_board_at(from, dx, dy, k + 1) {
            lemma_off_board_stays(from, dx, dy, k + 1, n + 1);
        }
        assert(inner_at(from, dx, dy, k));
    }
    assert(mask =~= prefix);
}

/// Pieces off the mask of a ray do not change what a slider reaches along
/// it.
pub proof fn lemma_moves_see_mask_only(
    from: int,
    dx: int,
    dy: int,
    occupied: Set<int>,
    keep: Set<int>,
)
    requires
        0 <= from < 64,
        is_direction(dx, dy),
        ray_mask(from, dx, dy).subset_of(keep),
    ensures
        ray_moves(from, dx, dy, occupied.intersect(keep)) == ray_moves(from, dx, dy, occupied),
{
    let kept = occupied.intersect(keep);
    assert forall|n: int| #[trigger]
        ray_reaches(from, dx, dy, n, kept) == ray_reaches(from, dx, dy, n, occupied) by {
        if 1 <= n && on_board_at(from, dx, dy, n) {
            assert forall|k: int| 1 <= k < n implies kept.contains(
                #[trigger] square_at(from, dx, dy, k),
            ) == occupied.contains(square_at(from, dx, dy, k)) by {
                if !on_board_at(from, dx, dy, k + 1) {
                    lemma_off_board_stays(from, dx, dy, k + 1, n);
                }
                assert(inner_at(from, dx, dy, k));
                assert(ray_mask(from, dx, dy).contains(square_at(from, dx, dy, k)));
            }
        }
    }
    let masked = ray_moves(from, dx, dy, kept);
    let plain = ray_moves(from, dx, dy, occupied);
    assert forall|t: int| masked.contains(t) implies plain.contains(t) by {
        let n = choose|n: int| #[trigger]
            ray_reaches(from, dx, dy, n, kept) && t == square_at(from, dx, dy, n);
        assert(ray_reaches(from, dx, dy, n, occupied));
    }
    assert forall|t: int| plain.contains(t) implies masked.contains(t) by {
        let n = choose|n: int| #[trigger]
            ray_reaches(from, dx, dy, n, occupied) && t == square_at(from, dx, dy, n);
        assert(ray_reaches(from, dx, dy, n, kept));
    }
    assert(masked =~= plain);
}

/// A ray whose first square is on the board reaches that square.
pub proof fn lemma_first_step_reached(from: int, dx: int, dy: int, occupied: Set<int>)
    requires
        on_board_at(from, dx, dy, 1),
    ensures
        ray_moves(from, dx, dy, occupied).contains(square_at(from, dx, dy, 1)),
{
    assert(ray_reaches(from, dx, dy, 1, occupied));
}

/// A ray whose second square is on the board has its first square in its
/// mask.
pub proof fn lemma_first_step_in_mask(from: int, dx: int, dy: int)
    requires
        on_board_at(from, dx, dy, 2),
    ensures
        ray_mask(from, dx, dy).contains(square_at(from, dx, dy, 1)),
{
    assert(inner_at(from, dx, dy, 1));
}

/// Whether a file and a rank name a square of the board.
pub fn coords_in_bounds(file: i8, rank: i8) -> (r: bool)
    ensures
        r == (0 <= file < 8 && 0 <= rank < 8),
{
    0 <= file && file < 8 && 0 <= rank && rank < 8
}

/// The squares that a slider on `square` reaches in one direction: it
/// passes over empty squares and stops on the first square of `occupied`.
pub fn ray_move_locations(square: Square, dx: i8, dy: i8, occupied: Bitboard) -> (result: Bitboard)
    requires
        is_direction(dx as int, dy as int),
    ensures
        result@ == ray_moves(square.index(), dx as int, dy as int, occupied@),
{
    let ghost from = square.index();
    let mut result = Bitboard::new(0);
    let mut file = square.file() as i8;
    let mut rank = square.rank() as i8;
    let mut n: u8 = 0;
    proof {
        use_type_invariant(&square);
        square.lemma_index_range();
        lemma_bits_zero();
        assert(result@ =~= Set::<int>::empty());
        lemma_prefix_empty(from, dx as int, dy as int);
    }
    loop
        invariant_except_break
            0 <= from < 64,
            from == square.index(),
            is_direction(dx as int, dy as int),
            n <= 7,
            file == file_at(from, dx as int, n as int),
            rank == rank_at(from, dy as int, n as int),
            on_board_at(from, dx as int, dy as int, n as int),
            forall|k: int|
                1 <= k <= n ==> on_board_at(from, dx as int, dy as int, k) && !occupied@.contains(
                    #[trigger] square_at(from, dx as int, dy as int, k),
                ),
            result@ == ray_prefix(from, dx as int, dy as int, n as int),
        ensures
            result@ == ray_moves(from, dx as int, dy as int, occupied@),
        decreases 8 - n,
    {
        file = file + dx;
        rank = rank + dy;
        if !coords_in_bounds(file, rank) {
            proof {
                lemma_moves_to_edge(from, dx as int, dy as int, n as int, occupied@);
            }
            break ;
        }
        n = n + 1;
        let here = Square::from_coords(file as u8, rank as u8);
        let here_board = here.to_bitboard();
        result = result | here_board;
        proof {
            lemma_prefix_step(from, dx as int, dy as int, n as int - 1);
            assert(result@ =~= ray_prefix(from, dx as int, dy as int, n as int));
        }
        if occupied.is_occupied(here) {
            proof {
                lemma_moves_to_piece(from, dx as int, dy as int, n as int, occupied@);
            }
            break ;
        }
    }
    result
}

/// The squares of one ray from `square` whose occupancy matters: all but
/// the last.
pub fn ray_attacks(square: Square, dx: i8, dy: i8) -> (result: Bitboard)
    requires
        is_direction(dx as int, dy as int),
    ensures
        result@ == ray_mask(square.index(), dx as int, dy as int),
        popcount(result.0) <= 6,
{
    let ghost from = square.index();
    let mut result = Bitboard::new(0);
    let mut file = square.file() as i8;
    let mut rank = square.rank() as i8;
    let mut n: u8 = 0;
    proof {
        use_type_invariant(&square);
        square.lemma_index_range();
        lemma_bits_zero();
        assert(result@ =~= Set::<int>::empty());
        lemma_prefix_empty(from, dx as int, dy as int);
    }
    loop
        invariant_except_break
            0 <= from < 64,
            from == square.index(),
            is_direction(dx as int, dy as int),
            n <= 6,
            file == file_at(from, dx as int, n as int),
            rank == rank_at(from, dy as int, n as int),
            on_board_at(from, dx as int, dy as int, n as int),
            n >= 1 ==> on_board_at(from, dx as int, dy as int, n + 1),
            result@ == ray_prefix(from, dx as int, dy as int, n as int),
            popcount(result.0) <= n,
        ensures
            result@ == ray_mask(from, dx as int, dy as int),
            popcount(result.0) <= 6,
        decreases 8 - n,
    {
        file = file + dx;
        rank = rank + dy;
        if !coords_in_bounds(file + dx, rank + dy) {
            proof {
                lemma_mask_is_prefix(from, dx as int, dy as int, n as int);
            }
            break ;
        }
        n = n + 1;
        let here = Square::from_coords(file as u8, rank as u8).to_bitboard();
        proof {
            lemma_popcount_or(result.0, here.0);
            lemma_popcount_single(file + 8 * rank);
        }
        result = result | here;
        proof {
            lemma_prefix_step(from, dx as int, dy as int, n as int - 1);
            assert(result@ =~= ray_prefix(from, dx as int, dy as int, n as int));
        }
    }
    result
}

} // verus!
