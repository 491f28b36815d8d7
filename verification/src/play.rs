//! The game as the player drives it: the events that keys raise and what
//! each event does to the board and to the state of the game.
use vstd::prelude::*;

use crate::game::{in_board, Board, Movement};
use crate::laws::{is_moved, lemma_changing_move_frees_cell, lemma_move_keeps_total};

verus! {

/// What can happen in the game.
#[derive(Clone, Copy, Debug, PartialEq, Eq, Structural)]
pub enum AppEvent {
    GameOver,
    MoveBoard(Movement),
    RestartGame,
    Quit,
}

/// A key that the player pressed, as far as the game tells keys apart.
#[derive(Clone, Copy, Debug, PartialEq, Eq, Structural)]
pub enum Key {
    Char(char),
    Up,
    Down,
    Left,
    Right,
    Other,
}

/// The state of a game: the board, whether the player asked to quit, and
/// whether the game is over.
pub struct App {
    pub board: Board,
    pub should_quit: bool,
    pub game_over: bool,
}

/// A board fresh from a restart: one tile of 2 or 4 and a score of 0.
pub open spec fn is_fresh_board(b: Board) -> bool {
    &&& b.score.value == 0
    &&& exists|x: int, y: int| #[trigger] holds_lone_tile(b, x, y)
}

/// The cell `(x, y)` of `b` holds a 2 or a 4 and every other cell is empty.
pub open spec fn holds_lone_tile(b: Board, x: int, y: int) -> bool {
    &&& in_board(x) && in_board(y)
    &&& b.cell(x, y) == Some(2int) || b.cell(x, y) == Some(4int)
    &&& forall|i: int, j: int| in_board(i) && in_board(j) && (i != x || j != y) ==> #[trigger] b.cell(i, j) is None
}

/// `after` is `before` pushed toward `m` with a new tile of 2 or 4 in the
/// cell `(x, y)`, which the move left empty.
pub open spec fn moved_then_spawned(before: Board, after: Board, m: Movement, x: int, y: int) -> bool {
    &&& in_board(x) && in_board(y)
    &&& before.moved_cell(m, x, y) is None
    &&& after.cell(x, y) == Some(2int) || after.cell(x, y) == Some(4int)
    &&& forall|i: int, j: int| in_board(i) && in_board(j) && (i != x || j != y)
        ==> #[trigger] after.cell(i, j) == before.moved_cell(m, i, j)
}

/// What handling `event` does: `before` becomes `after`, and `next` is the
/// event that it raises.
pub open spec fn handles(before: App, event: AppEvent, after: App, next: Option<AppEvent>) -> bool {
    match event {
        AppEvent::GameOver => {
            &&& after.game_over
            &&& after.should_quit == before.should_quit
            &&& after.board == before.board
            &&& next is None
        },
        AppEvent::Quit => {
            &&& after.should_quit
            &&& after.game_over == before.game_over
            &&& after.board == before.board
            &&& next is None
        },
        AppEvent::RestartGame => {
            &&& !after.game_over
            &&& after.should_quit == before.should_quit
            &&& is_fresh_board(after.board)
            &&& next is None
        },
        AppEvent::MoveBoard(m) => {
            &&& after.should_quit == before.should_quit
            &&& after.game_over == before.game_over
            &&& !before.board.move_changes(m) ==> {
                &&& after.board == before.board
                &&& next == if before.board.can_move() { None } else { Some(AppEvent::GameOver) }
            }
            &&& before.board.move_changes(m) ==> {
                &&& after.board.score.value == before.board.total()
                &&& exists|x: int, y: int| #[trigger] moved_then_spawned(before.board, after.board, m, x, y)
                &&& next is None
            }
        },
    }
}

impl Default for App {
    fn default() -> (app: Self)
        ensures
            forall|x: int, y: int| in_board(x) && in_board(y) ==> #[trigger] app.board.cell(x, y) is None,
            app.board.score.value == 0,
            !app.should_quit,
            !app.game_over,
    {
        App { board: Board::default(), should_quit: false, game_over: false }
    }
}

impl App {
    /// Every sum that handling `event` computes fits in an `i32`: for a
    /// move, the merges, then the new score when the board changed, or the
    /// check for a possible move when it did not.
    pub open spec fn event_fits(self, event: AppEvent) -> bool {
        match event {
            AppEvent::MoveBoard(m) => {
                &&& self.board.move_fits(m)
                &&& self.board.move_changes(m) ==> forall|after: Board| #[trigger] is_moved(self.board, after, m) ==> after.score_fits()
                &&& !self.board.move_changes(m) ==> self.board.movable_check_fits()
            },
            _ => true,
        }
    }

    /// Handles one event and returns the event that it raises, if any: a
    /// move that leaves no move possible raises the end of the game.
    pub fn handle_event(&mut self, app_event: AppEvent) -> (next: Option<AppEvent>)
        requires
            old(self).event_fits(app_event),
        ensures
            handles(*old(self), app_event, *final(self), next),
            final(self).should_quit == (old(self).should_quit || app_event is Quit),
            final(self).game_over == (app_event is GameOver || (old(self).game_over && !(app_event is RestartGame))),
            app_event matches AppEvent::MoveBoard(m) && !old(self).board.move_changes(m) ==> next == if old(self).board.move_changes(
                Movement::Up,
            ) || old(self).board.move_changes(Movement::Down) || old(self).board.move_changes(Movement::Left)
                || old(self).board.move_changes(Movement::Right) {
                None
            } else {
                Some(AppEvent::GameOver)
            },
    {
        match app_event {
            AppEvent::GameOver => self.game_over = true,
            AppEvent::Quit => self.should_quit = true,
            AppEvent::RestartGame => {
                self.board = Board::default();
                self.game_over = false;
                let ghost empty = self.board;
                assert(empty.cell(0, 0) is None);
                let _ = self.board.spawn_random_cell();
                proof {
                    let (x, y) = choose|x: int, y: int| #[trigger] empty.spawned_at(self.board, x, y);
                    assert(holds_lone_tile(self.board, x, y));
                }
            },
            AppEvent::MoveBoard(movement) => {
                let ghost before = self.board;
                let board_has_changed = self.board.move_board(movement);
                if board_has_changed {
                    let ghost moved = self.board;
                    assert(is_moved(before, moved, movement));
                    proof {
                        lemma_move_keeps_total(before, moved, movement);
                    }
                    self.board.update_score();
                    proof {
                        assert forall|x: int, y: int| in_board(x) && in_board(y) implies #[trigger] self.board.cell(x, y)
                            == before.moved_cell(movement, x, y) by {
                            assert(self.board.cell(x, y) == moved.cell(x, y));
                        }
                        assert(is_moved(before, self.board, movement));
                        lemma_changing_move_frees_cell(before, self.board, movement);
                    }
                    let ghost scored = self.board;
                    match self.board.spawn_random_cell() {
                        Ok(_) => {
                            let ghost (x, y) = choose|x: int, y: int| #[trigger] scored.spawned_at(self.board, x, y);
                            assert(moved_then_spawned(before, self.board, movement, x, y));
                        },
                        Err(_) => {
                            // The move freed a cell, so the new tile always finds one.
                            if !self.board.is_board_movable() {
                                return Some(AppEvent::GameOver);
                            }
                        },
                    }
                } else if !self.board.is_board_movable() {
                    return Some(AppEvent::GameOver);
                }
            },
        }
        None
    }

    /// Whether `handle_event` may run on `event`: see `event_fits`.
    pub fn check_event_fits(&self, event: AppEvent) -> (fits: bool)
        ensures
            fits == self.event_fits(event),
    {
        match event {
            AppEvent::MoveBoard(m) => {
                if !self.board.check_move_fits(m) {
                    return false;
                }
                let mut moved = self.board;
                if moved.move_board(m) {
                    assert(is_moved(self.board, moved, m));
                    let fits = moved.check_score_fits();
                    proof {
                        assert forall|after: Board| #[trigger] is_moved(self.board, after, m) implies after.score_fits() == fits by {
                            after.lemma_same_cells_same_checks(moved);
                        }
                    }
                    fits
                } else {
                    self.board.check_movable_fits()
                }
            },
            _ => true,
        }
    }

    /// The event that a key raises: `q` quits, `r` restarts, and the arrow
    /// keys or `h`, `j`, `k`, `l` push the tiles left, down, up and right.
    pub fn handle_key(&self, key: Key) -> (event: Option<AppEvent>)
        ensures
            event == match key {
                Key::Char('q') => Some(AppEvent::Quit),
                Key::Char('j') | Key::Down => Some(AppEvent::MoveBoard(Movement::Down)),
                Key::Char('k') | Key::Up => Some(AppEvent::MoveBoard(Movement::Up)),
                Key::Char('h') | Key::Left => Some(AppEvent::MoveBoard(Movement::Left)),
                Key::Char('l') | Key::Right => Some(AppEvent::MoveBoard(Movement::Right)),
                Key::Char('r') => Some(AppEvent::RestartGame),
                _ => None,
            },
    {
        match key {
            Key::Char('q') => Some(AppEvent::Quit),
            Key::Char('j') | Key::Down => Some(AppEvent::MoveBoard(Movement::Down)),
            Key::Char('k') | Key::Up => Some(AppEvent::MoveBoard(Movement::Up)),
            Key::Char('h') | Key::Left => Some(AppEvent::MoveBoard(Movement::Left)),
            Key::Char('l') | Key::Right => Some(AppEvent::MoveBoard(Movement::Right)),
            Key::Char('r') => Some(AppEvent::RestartGame),
            _ => None,
        }
    }
}

/// The player's request to quit is never withdrawn, and the game is over
/// exactly when a game-over event came, or it was over already and no
/// restart came.
pub proof fn lemma_event_flags(before: App, event: AppEvent, after: App, next: Option<AppEvent>)
    requires
        handles(before, event, after, next),
    ensures
        after.should_quit == (before.should_quit || event is Quit),
        after.game_over == (event is GameOver || (before.game_over && !(event is RestartGame))),
{
}

/// The only event that handling an event raises is the end of the game,
/// and handling that raises nothing: a chain of events stops after at most
/// two steps.
pub proof fn lemma_raised_event_ends(
    before: App,
    event: AppEvent,
    middle: App,
    raised: AppEvent,
    after: App,
    next: Option<AppEvent>,
)
    requires
        handles(before, event, middle, Some(raised)),
        handles(middle, raised, after, next),
    ensures
        raised == AppEvent::GameOver,
        next is None,
{
}

} // verus!
