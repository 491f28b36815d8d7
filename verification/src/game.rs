//! The board of the game: its cells, the moves in the four directions,
//! the spawning of new tiles and the score.
use rand::seq::IndexedRandom;
use vstd::prelude::*;

use crate::line::{in_i32, lift, lift_cell, slide, slide_line, value_of};
use crate::score::Score;

verus! {

/// A cell of the board: `x` is the row, `y` the column.
#[derive(Clone, Copy, Debug)]
pub struct Coordinates {
    pub x: usize,
    pub y: usize,
}

/// The direction in which the player pushes the tiles.
#[derive(Clone, Copy, Debug, PartialEq, Eq, Structural)]
pub enum Movement {
    Up,
    Down,
    Right,
    Left,
}

/// A four by four board. `state[x][y]` is the cell in row `x` and column
/// `y`; it holds a tile's value or nothing.
#[derive(Clone, Copy)]
pub struct Board {
    pub state: [[Option<i32>; 4]; 4],
    pub score: Score,
}

/// A stored cell seen as a mathematical value.
pub open spec fn lift32(c: Option<i32>) -> Option<int> {
    match c {
        Some(v) => Some(v as int),
        None => None,
    }
}

/// The cell at place `p` of line `k` when the tiles are pushed toward `m`:
/// place 0 is the cell at the edge the tiles move to.
pub open spec fn line_cell(m: Movement, k: int, p: int) -> (int, int) {
    match m {
        Movement::Up => (p, k),
        Movement::Down => (3 - p, k),
        Movement::Left => (k, p),
        Movement::Right => (k, 3 - p),
    }
}

/// The line that the cell `(x, y)` belongs to when the tiles are pushed toward `m`.
pub open spec fn line_index(m: Movement, x: int, y: int) -> int {
    match m {
        Movement::Up | Movement::Down => y,
        Movement::Left | Movement::Right => x,
    }
}

/// The place of the cell `(x, y)` in its line when the tiles are pushed toward `m`.
pub open spec fn line_place(m: Movement, x: int, y: int) -> int {
    match m {
        Movement::Up => x,
        Movement::Down => 3 - x,
        Movement::Left => y,
        Movement::Right => 3 - y,
    }
}

/// `0 <= i < 4`.
pub open spec fn in_board(i: int) -> bool {
    0 <= i < 4
}

/// A stored cell copied into a line buffer.
fn widen(c: Option<i32>) -> (w: Option<i64>)
    ensures
        lift_cell(w) == lift32(c),
{
    match c {
        Some(v) => Some(v as i64),
        None => None,
    }
}

/// A line buffer cell stored back into the board.
fn narrow(c: Option<i64>) -> (n: Option<i32>)
    requires
        in_i32(lift_cell(c)),
    ensures
        lift32(n) == lift_cell(c),
{
    match c {
        Some(v) => Some(v as i32),
        None => None,
    }
}

/// The generator of random numbers that `rand` keeps for each thread.
#[verifier::external_type_specification]
#[verifier::external_body]
pub struct ExThreadRng(rand::rngs::ThreadRng);

/// `rand::rng()`: a handle on the thread-local generator of `rand`. Nothing
/// is stated of it.
#[verifier::external_body]
fn thread_rng() -> rand::rngs::ThreadRng {
    rand::rng()
}

/// `IndexedRandom::choose` on the slice of `cells`, drawing from `rng`. Its
/// source returns `None` exactly when the slice is empty and otherwise a
/// reference to the element at an index below the length that it draws at
/// random; which element comes back is left to chance and is not stated.
#[verifier::external_body]
fn choose_cell<'a>(cells: &'a Vec<Coordinates>, rng: &mut rand::rngs::ThreadRng) -> (chosen: Option<&'a Coordinates>)
    ensures
        chosen is None <==> cells@.len() == 0,
        chosen matches Some(c) ==> exists|i: int| 0 <= i < cells@.len() && cells@[i] == *c,
{
    cells.as_slice().choose(rng)
}

/// `rand::random_ratio`: true with a chance of `numerator` in
/// `denominator`, from the thread-local generator. Its documentation
/// guarantees `true` when the two are equal and `false` when `numerator` is
/// 0; any other result is left to chance. It panics when `denominator` is 0
/// or `numerator` exceeds it, which `requires` rules out.
#[verifier::external_body]
fn random_ratio(numerator: u32, denominator: u32) -> (hit: bool)
    requires
        0 < denominator,
        numerator <= denominator,
    ensures
        numerator == denominator ==> hit,
        numerator == 0 ==> !hit,
{
    rand::random_ratio(numerator, denominator)
}

/// Row `x` of `b`, read from column 0 to column 3.
pub open spec fn row_from_left(b: Board, x: int) -> Seq<Option<int>> {
    seq![b.cell(x, 0), b.cell(x, 1), b.cell(x, 2), b.cell(x, 3)]
}

/// Row `x` of `b`, read from column 3 to column 0.
pub open spec fn row_from_right(b: Board, x: int) -> Seq<Option<int>> {
    seq![b.cell(x, 3), b.cell(x, 2), b.cell(x, 1), b.cell(x, 0)]
}

/// Column `y` of `b`, read from row 0 to row 3.
pub open spec fn column_from_top(b: Board, y: int) -> Seq<Option<int>> {
    seq![b.cell(0, y), b.cell(1, y), b.cell(2, y), b.cell(3, y)]
}

/// Column `y` of `b`, read from row 3 to row 0.
pub open spec fn column_from_bottom(b: Board, y: int) -> Seq<Option<int>> {
    seq![b.cell(3, y), b.cell(2, y), b.cell(1, y), b.cell(0, y)]
}

/// `after` is `before` with its tiles pushed toward `m`, told on board
/// coordinates: each row (for left and right) or column (for up and down),
/// read from the edge the tiles move to, is the slide of what it was.
pub open spec fn pushed(before: Board, after: Board, m: Movement) -> bool {
    match m {
        Movement::Up => forall|y: int| in_board(y) ==> #[trigger] column_from_top(after, y) == slide(column_from_top(before, y)),
        Movement::Down => forall|y: int| in_board(y) ==> #[trigger] column_from_bottom(after, y) == slide(column_from_bottom(before, y)),
        Movement::Left => forall|x: int| in_board(x) ==> #[trigger] row_from_left(after, x) == slide(row_from_left(before, x)),
        Movement::Right => forall|x: int| in_board(x) ==> #[trigger] row_from_right(after, x) == slide(row_from_right(before, x)),
    }
}

proof fn lemma_moved_is_pushed(before: Board, after: Board, m: Movement)
    requires
        forall|x: int, y: int| in_board(x) && in_board(y) ==> #[trigger] after.cell(x, y) == before.moved_cell(m, x, y),
    ensures
        pushed(before, after, m),
{
    match m {
        Movement::Up => {
            assert forall|y: int| in_board(y) implies #[trigger] column_from_top(after, y) == slide(column_from_top(before, y)) by {
                assert(before.line(m, y) =~= column_from_top(before, y));
                assert(after.cell(0, y) == before.moved_cell(m, 0, y));
                assert(after.cell(1, y) == before.moved_cell(m, 1, y));
                assert(after.cell(2, y) == before.moved_cell(m, 2, y));
                assert(after.cell(3, y) == before.moved_cell(m, 3, y));
                assert(column_from_top(after, y) =~= slide(column_from_top(before, y)));
            }
        },
        Movement::Down => {
            assert forall|y: int| in_board(y) implies #[trigger] column_from_bottom(after, y) == slide(column_from_bottom(before, y)) by {
                assert(before.line(m, y) =~= column_from_bottom(before, y));
                assert(after.cell(0, y) == before.moved_cell(m, 0, y));
                assert(after.cell(1, y) == before.moved_cell(m, 1, y));
                assert(after.cell(2, y) == before.moved_cell(m, 2, y));
                assert(after.cell(3, y) == before.moved_cell(m, 3, y));
                assert(column_from_bottom(after, y) =~= slide(column_from_bottom(before, y)));
            }
        },
        Movement::Left => {
            assert forall|x: int| in_board(x) implies #[trigger] row_from_left(after, x) == slide(row_from_left(before, x)) by {
                assert(before.line(m, x) =~= row_from_left(before, x));
                assert(after.cell(x, 0) == before.moved_cell(m, x, 0));
                assert(after.cell(x, 1) == before.moved_cell(m, x, 1));
                assert(after.cell(x, 2) == before.moved_cell(m, x, 2));
                assert(after.cell(x, 3) == before.moved_cell(m, x, 3));
                assert(row_from_left(after, x) =~= slide(row_from_left(before, x)));
            }
        },
        Movement::Right => {
            assert forall|x: int| in_board(x) implies #[trigger] row_from_right(after, x) == slide(row_from_right(before, x)) by {
                assert(before.line(m, x) =~= row_from_right(before, x));
                assert(after.cell(x, 0) == before.moved_cell(m, x, 0));
                assert(after.cell(x, 1) == before.moved_cell(m, x, 1));
                assert(after.cell(x, 2) == before.moved_cell(m, x, 2));
                assert(after.cell(x, 3) == before.moved_cell(m, x, 3));
                assert(row_from_right(after, x) =~= slide(row_from_right(before, x)));
            }
        },
    }
}

/// Two boards with the same cells and the same score are the same board.
pub proof fn lemma_same_cells_equal(a: Board, b: Board)
    requires
        a.same_cells(b),
        a.score == b.score,
    ensures
        a == b,
{
    assert forall|x: int| 0 <= x < 4 implies a.state@[x] == b.state@[x] by {
        assert forall|y: int| 0 <= y < 4 implies a.state@[x]@[y] == b.state@[x]@[y] by {
            assert(a.cell(x, y) == b.cell(x, y));
        }
        assert(a.state@[x]@ =~= b.state@[x]@);
        assert(a.state@[x] =~= b.state@[x]);
    }
    assert(a.state@ =~= b.state@);
    assert(a.state =~= b.state);
}

impl Default for Board {
    /// An empty board with a score of 0.
    fn default() -> (board: Self)
        ensures
            forall|x: int, y: int| in_board(x) && in_board(y) ==> #[trigger] board.cell(x, y) is None,
            board.score.value == 0,
    {
        Board { state: [[None; 4]; 4], score: Score { value: 0 } }
    }
}

impl Board {
    /// The content of the cell in row `x` and column `y`.
    pub open spec fn cell(self, x: int, y: int) -> Option<int> {
        lift32(self.state@[x]@[y])
    }

    /// Line `k` as the tiles travel when pushed toward `m`, the edge first.
    pub open spec fn line(self, m: Movement, k: int) -> Seq<Option<int>> {
        Seq::new(4, |p: int| self.cell(line_cell(m, k, p).0, line_cell(m, k, p).1))
    }

    /// What the cell `(x, y)` holds after the tiles are pushed toward `m`.
    pub open spec fn moved_cell(self, m: Movement, x: int, y: int) -> Option<int> {
        slide(self.line(m, line_index(m, x, y)))[line_place(m, x, y)]
    }

    /// Pushing the tiles toward `m` changes some line.
    pub open spec fn move_changes(self, m: Movement) -> bool {
        exists|k: int| in_board(k) && #[trigger] slide(self.line(m, k)) != self.line(m, k)
    }

    /// Every value that pushing the tiles toward `m` produces fits in an `i32`.
    pub open spec fn move_fits(self, m: Movement) -> bool {
        forall|k: int, p: int| in_board(k) && in_board(p) ==> in_i32(#[trigger] slide(self.line(m, k))[p])
    }

    /// The two boards hold the same cells.
    pub open spec fn same_cells(self, other: Board) -> bool {
        forall|x: int, y: int| in_board(x) && in_board(y) ==> #[trigger] self.cell(x, y) == other.cell(x, y)
    }

    /// Writes `cell_value` into row `x`, column `y`.
    pub fn set_cell(&mut self, cell_value: Option<i32>, x: usize, y: usize)
        requires
            x < 4,
            y < 4,
        ensures
            final(self).cell(x as int, y as int) == lift32(cell_value),
            forall|i: int, j: int| in_board(i) && in_board(j) && (i != x || j != y)
                ==> #[trigger] final(self).cell(i, j) == old(self).cell(i, j),
            final(self).score == old(self).score,
    {
        self.state[x][y] = cell_value;
    }


    /// Line `k` as the tiles travel when pushed toward `m`, copied into a
    /// buffer wide enough to hold the sum of two tiles.
    fn read_line(&self, m: Movement, k: usize) -> (line: [Option<i64>; 4])
        requires
            k < 4,
        ensures
            lift(line) == self.line(m, k as int),
            forall|p: int| in_board(p) ==> in_i32(#[trigger] lift(line)[p]),
    {
        let s = &self.state;
        let cells: [Option<i32>; 4] = match m {
            Movement::Up => [s[0][k], s[1][k], s[2][k], s[3][k]],
            Movement::Down => [s[3][k], s[2][k], s[1][k], s[0][k]],
            Movement::Left => [s[k][0], s[k][1], s[k][2], s[k][3]],
            Movement::Right => [s[k][3], s[k][2], s[k][1], s[k][0]],
        };
        let line = [widen(cells[0]), widen(cells[1]), widen(cells[2]), widen(cells[3])];
        assert(lift(line) =~= self.line(m, k as int));
        line
    }

    /// Writes the buffer back as line `k` for the direction `m`.
    fn write_line(&mut self, m: Movement, k: usize, line: [Option<i64>; 4])
        requires
            k < 4,
            forall|p: int| in_board(p) ==> in_i32(#[trigger] lift(line)[p]),
        ensures
            forall|x: int, y: int| in_board(x) && in_board(y) ==> #[trigger] final(self).cell(x, y) == if line_index(m, x, y) == k {
                lift(line)[line_place(m, x, y)]
            } else {
                old(self).cell(x, y)
            },
            final(self).score == old(self).score,
    {
        assert(in_i32(lift(line)[0]) && in_i32(lift(line)[1]) && in_i32(lift(line)[2]) && in_i32(lift(line)[3]));
        let c0 = narrow(line[0]);
        let c1 = narrow(line[1]);
        let c2 = narrow(line[2]);
        let c3 = narrow(line[3]);
        match m {
            Movement::Up => {
                self.state[0][k] = c0;
                self.state[1][k] = c1;
                self.state[2][k] = c2;
                self.state[3][k] = c3;
            },
            Movement::Down => {
                self.state[3][k] = c0;
                self.state[2][k] = c1;
                self.state[1][k] = c2;
                self.state[0][k] = c3;
            },
            Movement::Left => {
                self.state[k][0] = c0;
                self.state[k][1] = c1;
                self.state[k][2] = c2;
                self.state[k][3] = c3;
            },
            Movement::Right => {
                self.state[k][3] = c0;
                self.state[k][2] = c1;
                self.state[k][1] = c2;
                self.state[k][0] = c3;
            },
        }
    }

    /// Pushes every tile toward `movement`: in each line the tiles close up
    /// at that edge and two equal neighbours merge, front first, into one
    /// tile of their sum. Returns whether any cell changed.
    pub fn move_board(&mut self, movement: Movement) -> (has_changed: bool)
        requires
            old(self).move_fits(movement),
        ensures
            forall|x: int, y: int| in_board(x) && in_board(y)
                ==> #[trigger] final(self).cell(x, y) == old(self).moved_cell(movement, x, y),
            final(self).score == old(self).score,
            has_changed == old(self).move_changes(movement),
            !has_changed ==> *final(self) == *old(self),
            pushed(*old(self), *final(self), movement),
    {
        let ghost start = *self;
        let mut has_changed = false;
        let mut k: usize = 0;
        while k < 4
            invariant
                k <= 4,
                start.move_fits(movement),
                self.score == start.score,
                forall|x: int, y: int| in_board(x) && in_board(y) ==> #[trigger] self.cell(x, y) == if line_index(movement, x, y) < k {
                    start.moved_cell(movement, x, y)
                } else {
                    start.cell(x, y)
                },
                has_changed == exists|j: int| 0 <= j < k && #[trigger] slide(start.line(movement, j)) != start.line(movement, j),
            decreases 4 - k,
        {
            let mut line = self.read_line(movement, k);
            assert(lift(line) =~= start.line(movement, k as int));
            let changed = slide_line(&mut line);
            self.write_line(movement, k, line);
            has_changed = has_changed || changed;
            k = k + 1;
        }
        proof {
            if !has_changed {
                start.lemma_unchanged_move(movement);
                lemma_same_cells_equal(*self, start);
            }
            lemma_moved_is_pushed(start, *self, movement);
        }
        has_changed
    }

    /// The sum of the tiles in the first `n` cells, row by row.
    pub open spec fn partial_score(self, n: int) -> int
        decreases n,
    {
        if n <= 0 {
            0
        } else {
            self.partial_score(n - 1) + value_of(self.cell((n - 1) / 4, (n - 1) % 4))
        }
    }

    /// The sum of all the tiles on the board.
    pub open spec fn total(self) -> int {
        self.partial_score(16)
    }

    /// Adding up the tiles row by row never leaves the range of an `i32`.
    pub open spec fn score_fits(self) -> bool {
        forall|n: int| 0 <= n <= 16 ==> i32::MIN <= #[trigger] self.partial_score(n) <= i32::MAX
    }

    /// The sum of all the tiles on the board, added row by row.
    pub fn get_score(&self) -> (sum: i32)
        requires
            self.score_fits(),
        ensures
            sum == self.total(),
    {
        let mut sum: i32 = 0;
        for x in 0..4usize
            invariant
                self.score_fits(),
                sum == self.partial_score(4 * x),
        {
            for y in 0..4usize
                invariant
                    x < 4,
                    self.score_fits(),
                    sum == self.partial_score(4 * x + y),
            {
                assert((4 * x + y) / 4 == x && (4 * x + y) % 4 == y);
                assert(self.partial_score(4 * x + y + 1) == sum + value_of(self.cell(x as int, y as int)));
                if let Some(v) = self.state[x][y] {
                    sum = sum + v;
                }
            }
        }
        sum
    }

    /// Whether adding up the tiles row by row stays in the range of an
    /// `i32`, as `get_score` and `update_score` require.
    pub fn check_score_fits(&self) -> (fits: bool)
        ensures
            fits == self.score_fits(),
    {
        let mut sum: i64 = 0;
        for x in 0..4usize
            invariant
                sum == self.partial_score(4 * x),
                forall|n: int| 0 <= n <= 4 * x ==> i32::MIN <= #[trigger] self.partial_score(n) <= i32::MAX,
        {
            for y in 0..4usize
                invariant
                    x < 4,
                    sum == self.partial_score(4 * x + y),
                    forall|n: int| 0 <= n <= 4 * x + y ==> i32::MIN <= #[trigger] self.partial_score(n) <= i32::MAX,
            {
                assert((4 * x + y) / 4 == x && (4 * x + y) % 4 == y);
                assert(self.partial_score(4 * x + y + 1) == sum + value_of(self.cell(x as int, y as int)));
                assert(i32::MIN <= self.partial_score(4 * x + y) <= i32::MAX);
                if let Some(v) = self.state[x][y] {
                    sum = sum + v as i64;
                }
                if sum < i32::MIN as i64 || sum > i32::MAX as i64 {
                    assert(!(i32::MIN <= self.partial_score(4 * x + y + 1) <= i32::MAX));
                    return false;
                }
            }
        }
        true
    }

    /// Sets the score to the sum of the tiles.
    pub fn update_score(&mut self)
        requires
            old(self).score_fits(),
        ensures
            final(self).score.value == old(self).total(),
            final(self).state == old(self).state,
    {
        self.score = Score { value: self.get_score() };
    }

    /// The empty cells among the first `n` cells, row by row.
    pub open spec fn empty_cells_upto(self, n: int) -> Seq<(int, int)>
        decreases n,
    {
        if n <= 0 {
            Seq::empty()
        } else {
            let prev = self.empty_cells_upto(n - 1);
            if self.cell((n - 1) / 4, (n - 1) % 4) is None {
                prev.push(((n - 1) / 4, (n - 1) % 4))
            } else {
                prev
            }
        }
    }

    /// The empty cells of the board, row by row.
    pub open spec fn empty_cells(self) -> Seq<(int, int)> {
        self.empty_cells_upto(16)
    }

    /// No cell of the board is empty.
    pub open spec fn is_full(self) -> bool {
        forall|x: int, y: int| in_board(x) && in_board(y) ==> #[trigger] self.cell(x, y) is Some
    }

    /// The coordinates of the empty cells, row by row.
    pub fn get_empty_cells(&self) -> (empty_cells: Vec<Coordinates>)
        ensures
            empty_cells@.len() == self.empty_cells().len(),
            forall|i: int| 0 <= i < empty_cells@.len() ==> (#[trigger] empty_cells@[i].x as int, empty_cells@[i].y as int)
                == self.empty_cells()[i],
    {
        let mut empty_cells: Vec<Coordinates> = Vec::new();
        for x in 0..4usize
            invariant
                empty_cells@.len() == self.empty_cells_upto(4 * x).len(),
                forall|i: int| 0 <= i < empty_cells@.len() ==> (#[trigger] empty_cells@[i].x as int, empty_cells@[i].y as int)
                    == self.empty_cells_upto(4 * x)[i],
        {
            for y in 0..4usize
                invariant
                    x < 4,
                    empty_cells@.len() == self.empty_cells_upto(4 * x + y).len(),
                    forall|i: int| 0 <= i < empty_cells@.len() ==> (#[trigger] empty_cells@[i].x as int, empty_cells@[i].y as int)
                        == self.empty_cells_upto(4 * x + y)[i],
            {
                assert((4 * x + y) / 4 == x && (4 * x + y) % 4 == y);
                if self.state[x][y].is_none() {
                    empty_cells.push(Coordinates { x, y });
                }
            }
        }
        empty_cells
    }

    proof fn lemma_empty_cells_upto(self, n: int)
        requires
            0 <= n <= 16,
        ensures
            forall|i: int| 0 <= i < self.empty_cells_upto(n).len() ==> {
                let c = #[trigger] self.empty_cells_upto(n)[i];
                in_board(c.0) && in_board(c.1) && self.cell(c.0, c.1) is None
            },
            self.empty_cells_upto(n).len() == 0 <==> forall|j: int| 0 <= j < n ==> #[trigger] self.cell(j / 4, j % 4) is Some,
        decreases n,
    {
        if n > 0 {
            self.lemma_empty_cells_upto(n - 1);
            assert(self.empty_cells_upto(n).len() == 0 <==> (self.empty_cells_upto(n - 1).len() == 0
                && self.cell((n - 1) / 4, (n - 1) % 4) is Some));
            if self.empty_cells_upto(n - 1).len() == 0 && self.cell((n - 1) / 4, (n - 1) % 4) is Some {
                assert forall|j: int| 0 <= j < n implies #[trigger] self.cell(j / 4, j % 4) is Some by {
                    if j < n - 1 {
                        assert(self.cell(j / 4, j % 4) is Some);
                    }
                }
            }
        }
    }

    proof fn lemma_empty_cells_upto_complete(self, n: int)
        requires
            0 <= n <= 16,
        ensures
            forall|j: int| 0 <= j < n && (#[trigger] self.cell(j / 4, j % 4)) is None ==> exists|i: int|
                0 <= i < self.empty_cells_upto(n).len() && self.empty_cells_upto(n)[i] == (j / 4, j % 4),
        decreases n,
    {
        if n > 0 {
            self.lemma_empty_cells_upto_complete(n - 1);
            let prev = self.empty_cells_upto(n - 1);
            assert forall|j: int| 0 <= j < n && (#[trigger] self.cell(j / 4, j % 4)) is None implies exists|i: int|
                0 <= i < self.empty_cells_upto(n).len() && self.empty_cells_upto(n)[i] == (j / 4, j % 4) by {
                if j == n - 1 {
                    assert(self.empty_cells_upto(n)[prev.len() as int] == (j / 4, j % 4));
                } else {
                    let i = choose|i: int| 0 <= i < prev.len() && prev[i] == (j / 4, j % 4);
                    assert(self.empty_cells_upto(n)[i] == prev[i]);
                }
            }
        }
    }

    /// Every empty cell of the board is in the list of empty cells, so the
    /// random pick of `spawn_random_cell` can land on any of them.
    pub proof fn lemma_empty_cells_complete(self)
        ensures
            forall|x: int, y: int| in_board(x) && in_board(y) && (#[trigger] self.cell(x, y)) is None ==> exists|i: int|
                0 <= i < self.empty_cells().len() && self.empty_cells()[i] == (x, y),
    {
        self.lemma_empty_cells_upto_complete(16);
        assert forall|x: int, y: int| in_board(x) && in_board(y) && (#[trigger] self.cell(x, y)) is None implies exists|i: int|
            0 <= i < self.empty_cells().len() && self.empty_cells()[i] == (x, y) by {
            let j = 4 * x + y;
            assert(j / 4 == x && j % 4 == y);
            assert(self.cell(j / 4, j % 4) is None);
            let i = choose|i: int| 0 <= i < self.empty_cells_upto(16).len() && self.empty_cells_upto(16)[i] == (j / 4, j % 4);
            assert(self.empty_cells()[i] == (x, y));
        }
    }

    /// The empty cells listed are empty cells of the board, and there are
    /// none exactly when the board is full.
    pub proof fn lemma_empty_cells(self)
        ensures
            forall|i: int| 0 <= i < self.empty_cells().len() ==> {
                let c = #[trigger] self.empty_cells()[i];
                in_board(c.0) && in_board(c.1) && self.cell(c.0, c.1) is None
            },
            self.empty_cells().len() == 0 <==> self.is_full(),
    {
        self.lemma_empty_cells_upto(16);
        if self.empty_cells().len() == 0 {
            assert forall|x: int, y: int| in_board(x) && in_board(y) implies #[trigger] self.cell(x, y) is Some by {
                let j = 4 * x + y;
                assert(j / 4 == x && j % 4 == y);
                assert(self.cell(j / 4, j % 4) is Some);
            }
        }
        if self.is_full() {
            assert forall|j: int| 0 <= j < 16 implies #[trigger] self.cell(j / 4, j % 4) is Some by {
                assert(in_board(j / 4) && in_board(j % 4));
            }
        }
    }

    /// `after` is `self` with a new tile of value 2 or 4 in the empty cell `(x, y)`.
    pub open spec fn spawned_at(self, after: Board, x: int, y: int) -> bool {
        &&& in_board(x) && in_board(y)
        &&& self.cell(x, y) is None
        &&& after.cell(x, y) == Some(2int) || after.cell(x, y) == Some(4int)
        &&& forall|i: int, j: int| in_board(i) && in_board(j) && (i != x || j != y)
            ==> #[trigger] after.cell(i, j) == self.cell(i, j)
    }

    /// Puts a new tile in `cell`: a 2 when `likely` holds, else a 4.
    /// `spawn_random_cell` draws `likely` with a chance of nine in ten.
    pub fn place_tile(&mut self, cell: &Coordinates, likely: bool)
        requires
            cell.x < 4,
            cell.y < 4,
        ensures
            final(self).cell(cell.x as int, cell.y as int) == Some(if likely { 2int } else { 4int }),
            forall|i: int, j: int| in_board(i) && in_board(j) && (i != cell.x || j != cell.y)
                ==> #[trigger] final(self).cell(i, j) == old(self).cell(i, j),
            final(self).score == old(self).score,
    {
        let new_cell_value = if likely { 2 } else { 4 };
        self.set_cell(Some(new_cell_value), cell.x, cell.y);
    }

    /// Puts a new tile in an empty cell picked at random: a 2 nine times in
    /// ten, else a 4. Fails, leaving the board as it is, when no cell is empty.
    pub fn spawn_random_cell(&mut self) -> (spawned: Result<(), ()>)
        ensures
            spawned is Err <==> old(self).is_full(),
            spawned is Err ==> *final(self) == *old(self),
            spawned is Ok ==> exists|x: int, y: int| #[trigger] old(self).spawned_at(*final(self), x, y),
            final(self).score == old(self).score,
    {
        let empty_cells = self.get_empty_cells();
        proof {
            self.lemma_empty_cells();
        }
        let mut rng = thread_rng();
        match choose_cell(&empty_cells, &mut rng) {
            Some(random_cell) => {
                let ghost i = choose|i: int| 0 <= i < empty_cells@.len() && empty_cells@[i] == *random_cell;
                assert((empty_cells@[i].x as int, empty_cells@[i].y as int) == self.empty_cells()[i]);
                let likely = random_ratio(9, 10);
                let ghost before = *self;
                self.place_tile(random_cell, likely);
                assert(before.spawned_at(*self, random_cell.x as int, random_cell.y as int));
                Ok(())
            },
            None => Err(()),
        }
    }

    /// A move that changes no line leaves every cell as it was.
    pub proof fn lemma_unchanged_move(self, m: Movement)
        requires
            !self.move_changes(m),
        ensures
            forall|x: int, y: int| in_board(x) && in_board(y) ==> #[trigger] self.moved_cell(m, x, y) == self.cell(x, y),
    {
        assert forall|x: int, y: int| in_board(x) && in_board(y) implies #[trigger] self.moved_cell(m, x, y) == self.cell(x, y) by {
            let k = line_index(m, x, y);
            assert(in_board(k));
            assert(slide(self.line(m, k)) == self.line(m, k));
        }
    }

    /// Some move changes the board.
    pub open spec fn can_move(self) -> bool {
        ||| self.move_changes(Movement::Up)
        ||| self.move_changes(Movement::Left)
        ||| self.move_changes(Movement::Down)
        ||| self.move_changes(Movement::Right)
    }

    /// Trying the moves up, left, down and right in turn, up to the first
    /// that changes the board, produces only values that fit in an `i32`.
    pub open spec fn movable_check_fits(self) -> bool {
        &&& self.move_fits(Movement::Up)
        &&& !self.move_changes(Movement::Up) ==> self.move_fits(Movement::Left)
        &&& !self.move_changes(Movement::Up) && !self.move_changes(Movement::Left) ==> self.move_fits(Movement::Down)
        &&& !self.move_changes(Movement::Up) && !self.move_changes(Movement::Left) && !self.move_changes(Movement::Down)
            ==> self.move_fits(Movement::Right)
    }

    /// Whether some move would change the board: tries up, left, down and
    /// right in turn on a copy and stops at the first that changes it.
    pub fn is_board_movable(&mut self) -> (movable: bool)
        requires
            old(self).movable_check_fits(),
        ensures
            movable == old(self).can_move(),
            movable == (old(self).move_changes(Movement::Up) || old(self).move_changes(Movement::Down)
                || old(self).move_changes(Movement::Left) || old(self).move_changes(Movement::Right)),
            *final(self) == *old(self),
    {
        let mut board = self.clone();
        if board.move_board(Movement::Up) {
            return true;
        }
        if board.move_board(Movement::Left) {
            return true;
        }
        if board.move_board(Movement::Down) {
            return true;
        }
        board.move_board(Movement::Right)
    }

    /// Whether pushing the tiles toward `m` produces only values that fit in
    /// an `i32`, as `move_board` requires.
    pub fn check_move_fits(&self, m: Movement) -> (fits: bool)
        ensures
            fits == self.move_fits(m),
    {
        for k in 0..4usize
            invariant
                forall|j: int, p: int| 0 <= j < k && in_board(p) ==> in_i32(#[trigger] slide(self.line(m, j))[p]),
        {
            let mut line = self.read_line(m, k);
            slide_line(&mut line);
            for p in 0..4usize
                invariant
                    k < 4,
                    lift(line) == slide(self.line(m, k as int)),
                    forall|j: int, q: int| 0 <= j < k && in_board(q) ==> in_i32(#[trigger] slide(self.line(m, j))[q]),
                    forall|q: int| 0 <= q < p ==> in_i32(#[trigger] slide(self.line(m, k as int))[q]),
            {
                assert(lift(line)[p as int] == lift_cell(line[p as int]));
                if let Some(v) = line[p] {
                    if v < i32::MIN as i64 || v > i32::MAX as i64 {
                        assert(!in_i32(slide(self.line(m, k as int))[p as int]));
                        return false;
                    }
                }
            }
        }
        true
    }

    /// Whether `is_board_movable` may run on this board: see `movable_check_fits`.
    pub fn check_movable_fits(&self) -> (fits: bool)
        ensures
            fits == self.movable_check_fits(),
    {
        let mut board = self.clone();
        if !board.check_move_fits(Movement::Up) {
            return false;
        }
        if board.move_board(Movement::Up) {
            return true;
        }
        if !board.check_move_fits(Movement::Left) {
            return false;
        }
        if board.move_board(Movement::Left) {
            return true;
        }
        if !board.check_move_fits(Movement::Down) {
            return false;
        }
        if board.move_board(Movement::Down) {
            return true;
        }
        board.check_move_fits(Movement::Right)
    }

    proof fn lemma_same_cells_partial(self, other: Board, n: int)
        requires
            self.same_cells(other),
            n <= 16,
        ensures
            self.partial_score(n) == other.partial_score(n),
        decreases n,
    {
        if n > 0 {
            self.lemma_same_cells_partial(other, n - 1);
            assert(in_board((n - 1) / 4) && in_board((n - 1) % 4));
            assert(self.cell((n - 1) / 4, (n - 1) % 4) == other.cell((n - 1) / 4, (n - 1) % 4));
        }
    }

    proof fn lemma_same_cells_score(self, other: Board)
        requires
            self.same_cells(other),
        ensures
            self.score_fits() == other.score_fits(),
            self.total() == other.total(),
    {
        assert forall|n: int| 0 <= n <= 16 implies #[trigger] self.partial_score(n) == other.partial_score(n) by {
            self.lemma_same_cells_partial(other, n);
        }
        if self.score_fits() {
            assert forall|n: int| 0 <= n <= 16 implies i32::MIN <= #[trigger] other.partial_score(n) <= i32::MAX by {
                assert(i32::MIN <= self.partial_score(n) <= i32::MAX);
            }
        }
        if other.score_fits() {
            assert forall|n: int| 0 <= n <= 16 implies i32::MIN <= #[trigger] self.partial_score(n) <= i32::MAX by {
                assert(i32::MIN <= other.partial_score(n) <= i32::MAX);
            }
        }
    }

    proof fn lemma_same_cells_full(self, other: Board)
        requires
            self.same_cells(other),
        ensures
            self.is_full() == other.is_full(),
    {
        if self.is_full() {
            assert forall|x: int, y: int| in_board(x) && in_board(y) implies #[trigger] other.cell(x, y) is Some by {
                assert(self.cell(x, y) is Some);
            }
        }
        if other.is_full() {
            assert forall|x: int, y: int| in_board(x) && in_board(y) implies #[trigger] self.cell(x, y) is Some by {
                assert(other.cell(x, y) is Some);
            }
        }
    }

    /// Boards with the same cells agree on every condition that the
    /// moves, the count of the score and the check for a possible move
    /// depend on.
    pub proof fn lemma_same_cells_same_checks(self, other: Board)
        requires
            self.same_cells(other),
        ensures
            self.score_fits() == other.score_fits(),
            self.total() == other.total(),
            self.is_full() == other.is_full(),
            self.movable_check_fits() == other.movable_check_fits(),
            self.can_move() == other.can_move(),
            forall|m: Movement| #[trigger] self.move_fits(m) == other.move_fits(m),
    {
        self.lemma_same_cells_score(other);
        self.lemma_same_cells_full(other);
        self.lemma_same_cells_moves(other);
    }

    proof fn lemma_same_cells_moves(self, other: Board)
        requires
            self.same_cells(other),
        ensures
            self.movable_check_fits() == other.movable_check_fits(),
            self.can_move() == other.can_move(),
            forall|m: Movement| #[trigger] self.move_fits(m) == other.move_fits(m),
    {
        assert forall|m: Movement, k: int| in_board(k) implies #[trigger] self.line(m, k) == other.line(m, k) by {
            assert forall|p: int| 0 <= p < 4 implies self.line(m, k)[p] == other.line(m, k)[p] by {
                let c = line_cell(m, k, p);
                assert(self.cell(c.0, c.1) == other.cell(c.0, c.1));
            }
            assert(self.line(m, k) =~= other.line(m, k));
        }
        assert forall|m: Movement| #[trigger] self.move_changes(m) == other.move_changes(m) by {
            if self.move_changes(m) {
                let k = choose|k: int| in_board(k) && #[trigger] slide(self.line(m, k)) != self.line(m, k);
                assert(slide(other.line(m, k)) != other.line(m, k));
            }
            if other.move_changes(m) {
                let k = choose|k: int| in_board(k) && #[trigger] slide(other.line(m, k)) != other.line(m, k);
                assert(slide(self.line(m, k)) != self.line(m, k));
            }
        }
        assert forall|m: Movement| #[trigger] self.move_fits(m) == other.move_fits(m) by {
            if self.move_fits(m) {
                assert forall|k: int, p: int| in_board(k) && in_board(p) implies in_i32(#[trigger] slide(other.line(m, k))[p]) by {
                    assert(in_i32(slide(self.line(m, k))[p]));
                }
            }
            if other.move_fits(m) {
                assert forall|k: int, p: int| in_board(k) && in_board(p) implies in_i32(#[trigger] slide(self.line(m, k))[p]) by {
                    assert(in_i32(slide(other.line(m, k))[p]));
                }
            }
        }
        assert(self.move_changes(Movement::Up) == other.move_changes(Movement::Up));
        assert(self.move_changes(Movement::Left) == other.move_changes(Movement::Left));
        assert(self.move_changes(Movement::Down) == other.move_changes(Movement::Down));
        assert(self.move_changes(Movement::Right) == other.move_changes(Movement::Right));
        assert(self.move_fits(Movement::Up) == other.move_fits(Movement::Up));
        assert(self.move_fits(Movement::Left) == other.move_fits(Movement::Left));
        assert(self.move_fits(Movement::Down) == other.move_fits(Movement::Down));
        assert(self.move_fits(Movement::Right) == other.move_fits(Movement::Right));
    }
}

} // verus!
