use game_2048::game::{Board, Movement};

#[test]
fn test_set_board() {
    let mut board = Board::default();
    board.set_cell(Some(1), 1, 0);

    assert_eq!(board.state[1][0], Some(1));
}

#[test]
fn tets_score() {
    let mut board = Board::default();
    assert_eq!(board.get_score(), 0);

    board.set_cell(Some(2), 0, 0);
    assert_eq!(board.get_score(), 2);
    board.set_cell(Some(2), 0, 1);
    assert_eq!(board.get_score(), 4);
}

#[test]
fn test_board_move_down() {
    let mut board = Board::default();
    board.set_cell(Some(1), 1, 0);
    assert_eq!(board.state[1][0], Some(1));
    board.move_board(Movement::Down);

    assert_eq!(board.state[0][0], None);
    assert_eq!(board.state[1][0], None);
    assert_eq!(board.state[2][0], None);
    assert_eq!(board.state[3][0], Some(1));

    let mut board2 = Board::default();
    board2.set_cell(Some(2), 0, 0);
    board2.set_cell(Some(2), 1, 0);
    board2.set_cell(Some(2), 2, 0);
    board2.set_cell(Some(2), 3, 0);
    assert_eq!(board2.state[1][0], Some(2));
    board2.move_board(Movement::Down);
    assert_eq!(board2.state[0][0], None, "first row should be empty");
    assert_eq!(board2.state[1][0], None, "second row should be empty");
    assert_eq!(board2.state[2][0], Some(4), "third row should equal 4");
    assert_eq!(board2.state[3][0], Some(4), "fourth row should equal 4");

    let mut board3 = Board::default();
    board3.set_cell(None, 0, 0);
    board3.set_cell(Some(2), 1, 0);
    board3.set_cell(Some(4), 2, 0);
    board3.set_cell(Some(6), 3, 0);
    board3.move_board(Movement::Up);
    assert_eq!(board3.state[0][0], Some(2), "first row should equal 2");
    assert_eq!(board3.state[1][0], Some(4), "second row should equal 4");
    assert_eq!(board3.state[2][0], Some(6), "third row should equal 6");
    assert_eq!(board3.state[3][0], None, "fourth row should be empty");
}

#[test]
fn test_board_move_up() {
    let mut board = Board::default();
    board.set_cell(Some(2), 0, 0);
    board.set_cell(Some(2), 1, 0);
    board.set_cell(Some(2), 2, 0);
    board.set_cell(Some(2), 3, 0);
    assert_eq!(board.state[1][0], Some(2));
    board.move_board(Movement::Up);
    assert_eq!(board.state[0][0], Some(4), "first row should equal 4");
    assert_eq!(board.state[1][0], Some(4), "second row should equal 4");
    assert_eq!(board.state[2][0], None, "third row should be empty");
    assert_eq!(board.state[3][0], None, "fourth row should be empty");

    // Impossible
    let mut board3 = Board::default();
    board3.set_cell(None, 0, 0);
    board3.set_cell(Some(2), 1, 0);
    board3.set_cell(Some(4), 2, 0);
    board3.set_cell(None, 3, 0);
    board3.move_board(Movement::Up);
    assert_eq!(board3.state[0][0], Some(2), "first row should equal 2");
    assert_eq!(board3.state[1][0], Some(4), "second row should equal 4");
    assert_eq!(board3.state[2][0], None, "third row should be empty");
    assert_eq!(board3.state[3][0], None, "fourth row should be empty");
}

#[test]
fn test_board_move_right() {
    let mut board = Board::default();
    board.set_cell(Some(2), 0, 0);
    board.set_cell(Some(2), 0, 1);
    board.set_cell(Some(2), 0, 2);
    board.set_cell(Some(2), 0, 3);
    assert_eq!(board.state[0][1], Some(2));
    board.move_board(Movement::Right);
    assert_eq!(board.state[0][0], None, "first column should be empty");
    assert_eq!(board.state[0][1], None, "second column should be empty");
    assert_eq!(board.state[0][2], Some(4), "third column should equal 4");
    assert_eq!(board.state[0][3], Some(4), "fourth column should equal 4");

    // Impossible
    let mut board3 = Board::default();
    board3.set_cell(None, 0, 0);
    board3.set_cell(Some(2), 0, 1);
    board3.set_cell(Some(4), 0, 2);
    board3.set_cell(None, 0, 3);
    board3.move_board(Movement::Right);
    assert_eq!(board3.state[0][0], None, "first column should be empty");
    assert_eq!(board3.state[0][1], None, "second column should be empty");
    assert_eq!(board3.state[0][2], Some(2), "third column should equal 2");
    assert_eq!(board3.state[0][3], Some(4), "fourth column should equal 4");
}

#[test]
fn test_board_move_left() {
    let mut board = Board::default();
    board.set_cell(Some(2), 0, 0);
    board.set_cell(Some(2), 0, 1);
    board.set_cell(Some(2), 0, 2);
    board.set_cell(Some(2), 0, 3);
    assert_eq!(board.state[0][1], Some(2));
    board.move_board(Movement::Left);
    assert_eq!(board.state[0][0], Some(4), "first column should equal 4");
    assert_eq!(board.state[0][1], Some(4), "second column should equal 4");
    assert_eq!(board.state[0][2], None, "third column should be empty");
    assert_eq!(board.state[0][3], None, "fourth column should be empty");

    // Impossible
    let mut board3 = Board::default();
    board3.set_cell(None, 0, 0);
    board3.set_cell(Some(2), 0, 1);
    board3.set_cell(Some(4), 0, 2);
    board3.set_cell(None, 0, 3);
    board3.move_board(Movement::Left);
    assert_eq!(board3.state[0][0], Some(2), "first column should equal 2");
    assert_eq!(board3.state[0][1], Some(4), "second column should equal 4");
    assert_eq!(board3.state[0][2], None, "third column should be empty");
    assert_eq!(board3.state[0][3], None, "fourth column should be empty");
}

#[test]
fn test_board_is_movable() {
    let mut board = Board::default();
    for x in 0..4 {
        for y in 0..4 {
            board.set_cell(Some(x + y), x as usize, y as usize);
        }
    }
    assert!(
        !board.is_board_movable(),
        "board is full and can't be updated"
    );
    for x in 0..4 {
        for y in 0..4 {
            board.set_cell(Some(2), x as usize, y as usize);
        }
    }
    assert!(board.is_board_movable(), "board is full but can be updated");
}
