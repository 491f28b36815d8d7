use game_2048::game::{Board, Coordinates, Movement};
use game_2048::line::slide_line;
use game_2048::play::{App, AppEvent, Key};

const ALL_MOVES: [Movement; 4] = [Movement::Up, Movement::Down, Movement::Left, Movement::Right];

fn board_from(rows: [[Option<i32>; 4]; 4]) -> Board {
    let mut board = Board::default();
    for x in 0..4 {
        for y in 0..4 {
            board.set_cell(rows[x][y], x, y);
        }
    }
    board
}

fn tile_count(board: &Board) -> usize {
    board.state.iter().flatten().filter(|c| c.is_some()).count()
}

#[test]
fn slide_line_merges_each_tile_once() {
    let mut line = [Some(2), Some(2), Some(4), None];
    assert!(slide_line(&mut line));
    assert_eq!(line, [Some(4), Some(4), None, None]);

    let mut line = [Some(4), Some(2), Some(2), None];
    assert!(slide_line(&mut line));
    assert_eq!(line, [Some(4), Some(4), None, None]);

    let mut line = [Some(2), Some(2), Some(2), None];
    assert!(slide_line(&mut line));
    assert_eq!(line, [Some(4), Some(2), None, None]);

    let mut line = [Some(2), None, Some(2), Some(2)];
    assert!(slide_line(&mut line));
    assert_eq!(line, [Some(4), Some(2), None, None]);

    let mut line = [None, None, None, Some(8)];
    assert!(slide_line(&mut line));
    assert_eq!(line, [Some(8), None, None, None]);
}

#[test]
fn slide_line_reports_no_change_on_a_settled_line() {
    let mut line = [Some(2), Some(4), Some(2), None];
    assert!(!slide_line(&mut line));
    assert_eq!(line, [Some(2), Some(4), Some(2), None]);

    let mut line = [None, None, None, None];
    assert!(!slide_line(&mut line));
    assert_eq!(line, [None, None, None, None]);
}

#[test]
fn slide_line_adds_past_i32() {
    let big = 1i64 << 30;
    let mut line = [Some(big), Some(big), None, None];
    assert!(slide_line(&mut line));
    assert_eq!(line, [Some(big * 2), None, None, None]);
}

#[test]
fn move_board_unchanged_leaves_board_as_it_was() {
    let mut board = board_from([
        [Some(2), Some(4), None, None],
        [Some(8), None, None, None],
        [None, None, None, None],
        [None, None, None, None],
    ]);
    let before = board.state;
    assert!(!board.move_board(Movement::Left));
    assert_eq!(board.state, before);
    assert!(!board.move_board(Movement::Up));
    assert_eq!(board.state, before);
    assert!(board.move_board(Movement::Right));
    assert_eq!(tile_count(&board), 3);
    assert_eq!(board.state[0], [None, None, Some(2), Some(4)]);
    assert_eq!(board.state[1], [None, None, None, Some(8)]);
}

#[test]
fn move_keeps_the_sum_of_the_tiles() {
    let start = board_from([
        [Some(2), Some(2), Some(4), Some(8)],
        [None, Some(4), Some(4), Some(4)],
        [Some(16), None, Some(16), Some(2)],
        [Some(2), Some(2), Some(2), Some(2)],
    ]);
    let total = start.get_score();
    assert_eq!(total, 70);
    for m in ALL_MOVES {
        let mut board = start;
        assert!(board.move_board(m));
        assert_eq!(board.get_score(), total);
        assert!(tile_count(&board) < tile_count(&start));
    }
}

#[test]
fn move_packs_the_tiles_at_the_edge() {
    let start = board_from([
        [None, Some(2), None, Some(4)],
        [Some(2), None, Some(2), None],
        [None, None, None, Some(8)],
        [Some(16), None, None, Some(16)],
    ]);
    let mut left = start;
    left.move_board(Movement::Left);
    assert_eq!(left.state[0], [Some(2), Some(4), None, None]);
    assert_eq!(left.state[1], [Some(4), None, None, None]);
    assert_eq!(left.state[2], [Some(8), None, None, None]);
    assert_eq!(left.state[3], [Some(32), None, None, None]);

    let mut down = start;
    down.move_board(Movement::Down);
    let columns: Vec<[Option<i32>; 4]> = (0..4)
        .map(|y| [down.state[0][y], down.state[1][y], down.state[2][y], down.state[3][y]])
        .collect();
    assert_eq!(columns[0], [None, None, Some(2), Some(16)]);
    assert_eq!(columns[1], [None, None, None, Some(2)]);
    assert_eq!(columns[2], [None, None, None, Some(2)]);
    assert_eq!(columns[3], [None, Some(4), Some(8), Some(16)]);
}

#[test]
fn full_board_moves_only_with_equal_neighbours() {
    let mut board = board_from([
        [Some(2), Some(4), Some(2), Some(4)],
        [Some(4), Some(2), Some(4), Some(2)],
        [Some(2), Some(4), Some(2), Some(4)],
        [Some(4), Some(2), Some(4), Some(2)],
    ]);
    assert!(!board.is_board_movable());
    for m in ALL_MOVES {
        let mut copy = board;
        assert!(!copy.move_board(m));
    }
    board.set_cell(Some(2), 3, 1);
    board.set_cell(Some(2), 2, 1);
    assert!(board.is_board_movable());
}

#[test]
fn is_board_movable_leaves_the_board() {
    let mut board = board_from([
        [Some(2), Some(2), None, None],
        [None, None, None, None],
        [None, None, None, None],
        [None, None, None, None],
    ]);
    let before = board.state;
    assert!(board.is_board_movable());
    assert_eq!(board.state, before);

    let mut empty = Board::default();
    assert!(!empty.is_board_movable());
}

#[test]
fn empty_cells_are_listed_row_by_row() {
    let mut board = Board::default();
    for x in 0..4 {
        for y in 0..4 {
            board.set_cell(Some(2), x, y);
        }
    }
    assert!(board.get_empty_cells().is_empty());
    board.set_cell(None, 2, 1);
    board.set_cell(None, 0, 3);
    board.set_cell(None, 2, 0);
    let cells: Vec<(usize, usize)> = board.get_empty_cells().iter().map(|c| (c.x, c.y)).collect();
    assert_eq!(cells, vec![(0, 3), (2, 0), (2, 1)]);
}

#[test]
fn spawn_fills_one_empty_cell_with_two_or_four() {
    for _ in 0..50 {
        let mut board = Board::default();
        board.set_cell(Some(8), 0, 0);
        assert_eq!(board.spawn_random_cell(), Ok(()));
        assert_eq!(board.state[0][0], Some(8));
        assert_eq!(tile_count(&board), 2);
        let new_tiles: Vec<i32> = board.state.iter().flatten().flatten().copied().filter(|v| *v != 8).collect();
        assert_eq!(new_tiles.len(), 1);
        assert!(new_tiles[0] == 2 || new_tiles[0] == 4);
    }
}

#[test]
fn spawn_fails_on_a_full_board() {
    let mut board = Board::default();
    for x in 0..4 {
        for y in 0..4 {
            board.set_cell(Some(2), x, y);
        }
    }
    let before = board.state;
    assert_eq!(board.spawn_random_cell(), Err(()));
    assert_eq!(board.state, before);
}

#[test]
fn spawn_finds_the_last_empty_cell() {
    let mut board = Board::default();
    for x in 0..4 {
        for y in 0..4 {
            board.set_cell(Some(8), x, y);
        }
    }
    board.set_cell(None, 3, 2);
    assert_eq!(board.spawn_random_cell(), Ok(()));
    assert!(board.state[3][2] == Some(2) || board.state[3][2] == Some(4));
}

#[test]
fn update_score_counts_the_tiles() {
    let mut board = board_from([
        [Some(2), None, None, None],
        [None, Some(4), None, None],
        [None, None, Some(8), None],
        [None, None, None, Some(16)],
    ]);
    assert_eq!(board.score.value, 0);
    board.update_score();
    assert_eq!(board.score.value, 30);
}

#[test]
fn overflow_checks() {
    let big = 1 << 30;
    let board = board_from([
        [Some(big), Some(big), None, None],
        [None, None, None, None],
        [None, None, None, None],
        [None, None, None, None],
    ]);
    assert!(!board.check_move_fits(Movement::Left));
    assert!(!board.check_move_fits(Movement::Right));
    assert!(board.check_move_fits(Movement::Up));
    assert!(board.check_move_fits(Movement::Down));
    assert!(!board.check_score_fits());
    // Up leaves the board as it is, and Left merges past the range of an i32.
    assert!(!board.check_movable_fits());

    let lower = board_from([
        [None, None, None, None],
        [Some(big), Some(big), None, None],
        [None, None, None, None],
        [None, None, None, None],
    ]);
    // Up changes the board and fits, so the check stops there.
    assert!(lower.check_movable_fits());

    let column = board_from([
        [Some(big), None, None, None],
        [Some(big), None, None, None],
        [None, None, None, None],
        [None, None, None, None],
    ]);
    // Up merges the two tiles past the range of an i32.
    assert!(!column.check_movable_fits());

    let mut sums = Board::default();
    sums.set_cell(Some(i32::MAX), 0, 0);
    sums.set_cell(Some(1), 0, 1);
    assert!(!sums.check_score_fits());
    sums.set_cell(Some(-1), 0, 0);
    sums.set_cell(Some(i32::MAX), 0, 1);
    assert!(sums.check_score_fits());
    assert_eq!(sums.get_score(), i32::MAX - 1);
}

#[test]
fn handle_event_quit_and_game_over() {
    let mut app = App::default();
    assert_eq!(app.handle_event(AppEvent::Quit), None);
    assert!(app.should_quit);
    assert!(!app.game_over);
    assert_eq!(app.handle_event(AppEvent::GameOver), None);
    assert!(app.game_over);
}

#[test]
fn handle_event_restart_gives_one_tile() {
    let mut app = App::default();
    app.game_over = true;
    app.board.set_cell(Some(64), 1, 1);
    app.board.update_score();
    assert_eq!(app.handle_event(AppEvent::RestartGame), None);
    assert!(!app.game_over);
    assert_eq!(app.board.score.value, 0);
    assert_eq!(tile_count(&app.board), 1);
    let tile = app.board.state.iter().flatten().flatten().copied().next().unwrap();
    assert!(tile == 2 || tile == 4);
}

#[test]
fn handle_event_move_scores_and_spawns() {
    let mut app = App::default();
    app.board.set_cell(Some(2), 0, 0);
    app.board.set_cell(Some(2), 0, 3);
    let event = AppEvent::MoveBoard(Movement::Left);
    assert!(app.check_event_fits(event));
    assert_eq!(app.handle_event(event), None);
    assert_eq!(app.board.score.value, 4);
    assert_eq!(app.board.state[0][0], Some(4));
    assert_eq!(tile_count(&app.board), 2);
}

#[test]
fn handle_event_stuck_board_ends_the_game() {
    let mut app = App::default();
    app.board = board_from([
        [Some(2), Some(4), Some(2), Some(4)],
        [Some(4), Some(2), Some(4), Some(2)],
        [Some(2), Some(4), Some(2), Some(4)],
        [Some(4), Some(2), Some(4), Some(2)],
    ]);
    let before = app.board.state;
    assert_eq!(app.handle_event(AppEvent::MoveBoard(Movement::Up)), Some(AppEvent::GameOver));
    assert_eq!(app.board.state, before);
    assert_eq!(app.handle_event(AppEvent::GameOver), None);
    assert!(app.game_over);
}

#[test]
fn handle_event_refused_move_on_open_board() {
    let mut app = App::default();
    app.board.set_cell(Some(2), 0, 0);
    let before = app.board.state;
    assert_eq!(app.handle_event(AppEvent::MoveBoard(Movement::Left)), None);
    assert_eq!(app.board.state, before);
    assert_eq!(app.board.score.value, 0);
}

#[test]
fn check_event_fits_refuses_overflowing_merge() {
    let mut app = App::default();
    app.board.set_cell(Some(1 << 30), 0, 0);
    app.board.set_cell(Some(1 << 30), 0, 1);
    assert!(!app.check_event_fits(AppEvent::MoveBoard(Movement::Left)));
    // Up leaves the board as it is; the check for a possible move then
    // tries Left, which overflows.
    assert!(!app.check_event_fits(AppEvent::MoveBoard(Movement::Up)));
    assert!(app.check_event_fits(AppEvent::Quit));

    let mut half = App::default();
    half.board.set_cell(Some(1 << 29), 0, 0);
    half.board.set_cell(Some(1 << 29), 0, 1);
    assert!(half.check_event_fits(AppEvent::MoveBoard(Movement::Left)));
    assert_eq!(half.handle_event(AppEvent::MoveBoard(Movement::Left)), None);
    assert_eq!(half.board.state[0][0], Some(1 << 30));
    assert_eq!(half.board.score.value, 1 << 30);

    let mut scored = App::default();
    scored.board.set_cell(Some(i32::MAX), 0, 0);
    scored.board.set_cell(Some(1), 1, 1);
    // Down moves both tiles; counting the score afterwards overflows.
    assert!(!scored.check_event_fits(AppEvent::MoveBoard(Movement::Down)));
}

#[test]
fn keys_map_to_events() {
    let app = App::default();
    assert_eq!(app.handle_key(Key::Char('q')), Some(AppEvent::Quit));
    assert_eq!(app.handle_key(Key::Char('r')), Some(AppEvent::RestartGame));
    assert_eq!(app.handle_key(Key::Char('j')), Some(AppEvent::MoveBoard(Movement::Down)));
    assert_eq!(app.handle_key(Key::Down), Some(AppEvent::MoveBoard(Movement::Down)));
    assert_eq!(app.handle_key(Key::Char('k')), Some(AppEvent::MoveBoard(Movement::Up)));
    assert_eq!(app.handle_key(Key::Up), Some(AppEvent::MoveBoard(Movement::Up)));
    assert_eq!(app.handle_key(Key::Char('h')), Some(AppEvent::MoveBoard(Movement::Left)));
    assert_eq!(app.handle_key(Key::Left), Some(AppEvent::MoveBoard(Movement::Left)));
    assert_eq!(app.handle_key(Key::Char('l')), Some(AppEvent::MoveBoard(Movement::Right)));
    assert_eq!(app.handle_key(Key::Right), Some(AppEvent::MoveBoard(Movement::Right)));
    assert_eq!(app.handle_key(Key::Char('x')), None);
    assert_eq!(app.handle_key(Key::Other), None);
}

#[test]
fn place_tile_puts_two_when_likely_else_four() {
    let mut board = Board::default();
    board.set_cell(Some(8), 0, 0);
    board.place_tile(&Coordinates { x: 2, y: 3 }, true);
    assert_eq!(board.state[2][3], Some(2));
    board.place_tile(&Coordinates { x: 1, y: 0 }, false);
    assert_eq!(board.state[1][0], Some(4));
    assert_eq!(board.state[0][0], Some(8));
    assert_eq!(tile_count(&board), 3);
}

#[test]
fn event_flags_and_chains() {
    let mut app = App::default();
    app.board = board_from([
        [Some(2), Some(4), Some(2), Some(4)],
        [Some(4), Some(2), Some(4), Some(2)],
        [Some(2), Some(4), Some(2), Some(4)],
        [Some(4), Some(2), Some(4), Some(2)],
    ]);
    let raised = app.handle_event(AppEvent::MoveBoard(Movement::Left));
    assert_eq!(raised, Some(AppEvent::GameOver));
    assert!(!app.game_over);
    assert_eq!(app.handle_event(raised.unwrap()), None);
    assert!(app.game_over);
    assert!(!app.should_quit);
    assert_eq!(app.handle_event(AppEvent::Quit), None);
    assert!(app.should_quit && app.game_over);
    assert_eq!(app.handle_event(AppEvent::RestartGame), None);
    assert!(app.should_quit && !app.game_over);
}
