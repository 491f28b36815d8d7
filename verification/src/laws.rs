//! Properties of the moves that hold on every board.
use vstd::prelude::*;

use crate::game::{column_from_bottom, column_from_top, in_board, line_cell, pushed, row_from_left, row_from_right, Board, Movement};
use crate::line::{count4, lemma_changed_slide_frees_last, lemma_slide_keeps_or_drops_tiles, lemma_full_line_slide, lemma_line_sum4, lemma_slide_keeps_sum, lemma_slide_packs, slide, sum4, value_of};

verus! {

/// The sum of the lines for the direction `m`.
pub open spec fn lines_sum(b: Board, m: Movement) -> int {
    sum4(b.line(m, 0)) + sum4(b.line(m, 1)) + sum4(b.line(m, 2)) + sum4(b.line(m, 3))
}

/// The sum of the tiles of row `x`, written out.
spec fn row_sum(b: Board, x: int) -> int {
    value_of(b.cell(x, 0)) + value_of(b.cell(x, 1)) + value_of(b.cell(x, 2)) + value_of(b.cell(x, 3))
}

/// The sum of the tiles, row by row.
spec fn rows_sum(b: Board) -> int {
    row_sum(b, 0) + row_sum(b, 1) + row_sum(b, 2) + row_sum(b, 3)
}

proof fn lemma_total_rows(b: Board)
    ensures
        b.total() == rows_sum(b),
{
    reveal_with_fuel(Board::partial_score, 17);
}

proof fn lemma_lines_sum(b: Board, m: Movement)
    ensures
        lines_sum(b, m) == rows_sum(b),
{
    match m {
        Movement::Up => {},
        Movement::Down => {},
        Movement::Left => {},
        Movement::Right => {},
    }
}

/// The sum of the tiles is the sum of the lines, in any direction.
proof fn lemma_total_lines(b: Board, m: Movement)
    ensures
        b.total() == lines_sum(b, m),
{
    lemma_total_rows(b);
    lemma_lines_sum(b, m);
}

/// `after` is what pushing the tiles of `before` toward `m` gives.
pub open spec fn is_moved(before: Board, after: Board, m: Movement) -> bool {
    forall|x: int, y: int| in_board(x) && in_board(y) ==> #[trigger] after.cell(x, y) == before.moved_cell(m, x, y)
}

/// Each line of the moved board, in the direction of the move, is the slide
/// of that line before the move.
pub proof fn lemma_moved_lines(before: Board, after: Board, m: Movement)
    requires
        is_moved(before, after, m),
    ensures
        forall|k: int| in_board(k) ==> #[trigger] after.line(m, k) == slide(before.line(m, k)),
{
    assert forall|k: int| in_board(k) implies #[trigger] after.line(m, k) == slide(before.line(m, k)) by {
        assert forall|p: int| 0 <= p < 4 implies after.line(m, k)[p] == slide(before.line(m, k))[p] by {
            let c = line_cell(m, k, p);
            assert(after.cell(c.0, c.1) == before.moved_cell(m, c.0, c.1));
        }
        assert(after.line(m, k) =~= slide(before.line(m, k)));
    }
}

/// A move keeps the sum of the tiles on the board: a merge replaces two
/// tiles by one tile of their sum, and no tile appears or vanishes otherwise.
pub proof fn lemma_move_keeps_total(before: Board, after: Board, m: Movement)
    requires
        is_moved(before, after, m),
    ensures
        after.total() == before.total(),
{
    lemma_moved_lines(before, after, m);
    lemma_total_lines(before, m);
    lemma_total_lines(after, m);
    assert forall|k: int| in_board(k) implies sum4(#[trigger] slide(before.line(m, k))) == sum4(before.line(m, k)) by {
        lemma_slide_keeps_sum(before.line(m, k));
        lemma_line_sum4(before.line(m, k));
        lemma_line_sum4(slide(before.line(m, k)));
    }
    assert(sum4(after.line(m, 0)) == sum4(before.line(m, 0)));
    assert(sum4(after.line(m, 1)) == sum4(before.line(m, 1)));
    assert(sum4(after.line(m, 2)) == sum4(before.line(m, 2)));
    assert(sum4(after.line(m, 3)) == sum4(before.line(m, 3)));
}

/// Two cells side by side, in a row or in a column, hold equal values.
pub open spec fn has_equal_neighbours(b: Board) -> bool {
    exists|x: int, y: int|
        in_board(x) && in_board(y) && ((y < 3 && #[trigger] b.cell(x, y) == b.cell(x, y + 1)) || (x < 3 && b.cell(x, y)
            == b.cell(x + 1, y)))
}

proof fn lemma_full_lines(b: Board, m: Movement, k: int)
    requires
        b.is_full(),
        in_board(k),
    ensures
        slide(b.line(m, k)) != b.line(m, k) <==> exists|i: int| 0 <= i < 3 && #[trigger] b.line(m, k)[i] == b.line(m, k)[i + 1],
{
    assert forall|i: int| 0 <= i < 4 implies #[trigger] b.line(m, k)[i] is Some by {
        let c = line_cell(m, k, i);
        assert(b.cell(c.0, c.1) is Some);
    }
    lemma_full_line_slide(b.line(m, k));
}

/// On a full board some move changes the board exactly when two neighbours
/// hold equal tiles; otherwise the game is over.
pub proof fn lemma_full_board_movable(b: Board)
    requires
        b.is_full(),
    ensures
        b.can_move() <==> has_equal_neighbours(b),
{
    if has_equal_neighbours(b) {
        let (x, y) = choose|x: int, y: int|
            in_board(x) && in_board(y) && ((y < 3 && #[trigger] b.cell(x, y) == b.cell(x, y + 1)) || (x < 3 && b.cell(x, y)
                == b.cell(x + 1, y)));
        if y < 3 && b.cell(x, y) == b.cell(x, y + 1) {
            lemma_full_lines(b, Movement::Left, x);
            assert(b.line(Movement::Left, x)[y] == b.line(Movement::Left, x)[y + 1]);
            assert(slide(b.line(Movement::Left, x)) != b.line(Movement::Left, x));
        } else {
            lemma_full_lines(b, Movement::Up, y);
            assert(b.line(Movement::Up, y)[x] == b.line(Movement::Up, y)[x + 1]);
            assert(slide(b.line(Movement::Up, y)) != b.line(Movement::Up, y));
        }
    }
    if b.can_move() {
        let m = if b.move_changes(Movement::Up) {
            Movement::Up
        } else if b.move_changes(Movement::Left) {
            Movement::Left
        } else if b.move_changes(Movement::Down) {
            Movement::Down
        } else {
            Movement::Right
        };
        let k = choose|k: int| in_board(k) && #[trigger] slide(b.line(m, k)) != b.line(m, k);
        lemma_full_lines(b, m, k);
        let i = choose|i: int| 0 <= i < 3 && #[trigger] b.line(m, k)[i] == b.line(m, k)[i + 1];
        match m {
            Movement::Up => {
                assert(b.cell(i, k) == b.cell(i + 1, k));
            },
            Movement::Down => {
                assert(b.cell(2 - i, k) == b.cell(3 - i, k));
            },
            Movement::Left => {
                assert(b.cell(k, i) == b.cell(k, i + 1));
            },
            Movement::Right => {
                assert(b.cell(k, 2 - i) == b.cell(k, 3 - i));
            },
        }
    }
}

/// After a move, in every line along its direction the tiles stand at the
/// edge they were pushed to, with no empty cell before a tile.
pub proof fn lemma_move_packs_lines(before: Board, after: Board, m: Movement)
    requires
        is_moved(before, after, m),
    ensures
        forall|k: int, i: int, j: int|
            in_board(k) && 0 <= i < j < 4 && (#[trigger] after.line(m, k)[i]) is None ==> (#[trigger] after.line(m, k)[j]) is None,
{
    lemma_moved_lines(before, after, m);
    assert forall|k: int, i: int, j: int|
        in_board(k) && 0 <= i < j < 4 && (#[trigger] after.line(m, k)[i]) is None implies (#[trigger] after.line(m, k)[j]) is None by {
        lemma_slide_packs(before.line(m, k));
        assert(slide(before.line(m, k))[i] is None);
    }
}

/// A move that changes the board leaves at least one cell empty, so a new
/// tile can always be placed after it.
pub proof fn lemma_changing_move_frees_cell(before: Board, after: Board, m: Movement)
    requires
        is_moved(before, after, m),
        before.move_changes(m),
    ensures
        !after.is_full(),
{
    let k = choose|k: int| in_board(k) && #[trigger] slide(before.line(m, k)) != before.line(m, k);
    lemma_changed_slide_frees_last(before.line(m, k));
    lemma_moved_lines(before, after, m);
    let c = line_cell(m, k, 3);
    assert(after.line(m, k)[3] == after.cell(c.0, c.1));
}

/// The number of tiles on the board.
pub open spec fn tile_count(b: Board) -> int {
    count4(b.line(Movement::Left, 0)) + count4(b.line(Movement::Left, 1)) + count4(b.line(Movement::Left, 2))
        + count4(b.line(Movement::Left, 3))
}

proof fn lemma_count_lines(b: Board, m: Movement)
    ensures
        tile_count(b) == count4(b.line(m, 0)) + count4(b.line(m, 1)) + count4(b.line(m, 2)) + count4(b.line(m, 3)),
{
    match m {
        Movement::Up => {},
        Movement::Down => {},
        Movement::Left => {},
        Movement::Right => {},
    }
}

/// A move never adds a tile to the board; each merge takes one away.
pub proof fn lemma_move_never_adds_tiles(before: Board, after: Board, m: Movement)
    requires
        is_moved(before, after, m),
    ensures
        tile_count(after) <= tile_count(before),
{
    lemma_moved_lines(before, after, m);
    lemma_count_lines(before, m);
    lemma_count_lines(after, m);
    assert forall|k: int| in_board(k) implies count4(#[trigger] slide(before.line(m, k))) <= count4(before.line(m, k)) by {
        lemma_slide_keeps_or_drops_tiles(before.line(m, k));
    }
    assert(count4(after.line(m, 0)) <= count4(before.line(m, 0)));
    assert(count4(after.line(m, 1)) <= count4(before.line(m, 1)));
    assert(count4(after.line(m, 2)) <= count4(before.line(m, 2)));
    assert(count4(after.line(m, 3)) <= count4(before.line(m, 3)));
}

/// After a push the tiles of each row or column stand against the edge they
/// were pushed to, told on board coordinates: toward the right, an empty
/// cell has only empty cells to its left; toward the left, only empty cells
/// to its right; up, only empty cells below it; down, only empty cells above.
pub proof fn lemma_push_packs_at_edge(before: Board, after: Board, m: Movement)
    requires
        pushed(before, after, m),
    ensures
        m is Right ==> forall|x: int, j: int, k: int|
            in_board(x) && 0 <= j < k < 4 && (#[trigger] after.cell(x, k)) is None ==> (#[trigger] after.cell(x, j)) is None,
        m is Left ==> forall|x: int, j: int, k: int|
            in_board(x) && 0 <= j < k < 4 && (#[trigger] after.cell(x, j)) is None ==> (#[trigger] after.cell(x, k)) is None,
        m is Up ==> forall|y: int, i: int, k: int|
            in_board(y) && 0 <= i < k < 4 && (#[trigger] after.cell(i, y)) is None ==> (#[trigger] after.cell(k, y)) is None,
        m is Down ==> forall|y: int, i: int, k: int|
            in_board(y) && 0 <= i < k < 4 && (#[trigger] after.cell(k, y)) is None ==> (#[trigger] after.cell(i, y)) is None,
{
    match m {
        Movement::Right => {
            assert forall|x: int, j: int, k: int|
                in_board(x) && 0 <= j < k < 4 && (#[trigger] after.cell(x, k)) is None implies (#[trigger] after.cell(x, j)) is None by {
                assert(row_from_right(after, x) == slide(row_from_right(before, x)));
                lemma_slide_packs(row_from_right(before, x));
                assert(row_from_right(after, x)[3 - k] == after.cell(x, k));
                assert(row_from_right(after, x)[3 - j] == after.cell(x, j));
            }
        },
        Movement::Left => {
            assert forall|x: int, j: int, k: int|
                in_board(x) && 0 <= j < k < 4 && (#[trigger] after.cell(x, j)) is None implies (#[trigger] after.cell(x, k)) is None by {
                assert(row_from_left(after, x) == slide(row_from_left(before, x)));
                lemma_slide_packs(row_from_left(before, x));
                assert(row_from_left(after, x)[j] == after.cell(x, j));
                assert(row_from_left(after, x)[k] == after.cell(x, k));
            }
        },
        Movement::Up => {
            assert forall|y: int, i: int, k: int|
                in_board(y) && 0 <= i < k < 4 && (#[trigger] after.cell(i, y)) is None implies (#[trigger] after.cell(k, y)) is None by {
                assert(column_from_top(after, y) == slide(column_from_top(before, y)));
                lemma_slide_packs(column_from_top(before, y));
                assert(column_from_top(after, y)[i] == after.cell(i, y));
                assert(column_from_top(after, y)[k] == after.cell(k, y));
            }
        },
        Movement::Down => {
            assert forall|y: int, i: int, k: int|
                in_board(y) && 0 <= i < k < 4 && (#[trigger] after.cell(k, y)) is None implies (#[trigger] after.cell(i, y)) is None by {
                assert(column_from_bottom(after, y) == slide(column_from_bottom(before, y)));
                lemma_slide_packs(column_from_bottom(before, y));
                assert(column_from_bottom(after, y)[3 - k] == after.cell(k, y));
                assert(column_from_bottom(after, y)[3 - i] == after.cell(i, y));
            }
        },
    }
}

} // verus!
