use flow_four::board::Board;
use flow_four::text::ParseError;
use flow_four::game::Game;

fn load(text: &str, rows: usize, cols: usize) -> Board {
    Board::load_board(text, rows, cols).unwrap()
}

#[test]
fn new_game_keeps_only_heads() {
    let g = Game::new("AaA\nB.b", 2, 3).unwrap();
    assert_eq!(*g.get_board(), load("A.A\nB..", 2, 3));
    assert!(!g.is_finished());
}

#[test]
fn new_game_rejects_bad_text() {
    assert!(matches!(Game::new("A.A\nB", 2, 3), Err(ParseError::WrongCellCount { found: 4 })));
}

#[test]
fn drawing_both_paths_finishes_game() {
    let mut g = Game::new("A.A\nB.B", 2, 3).unwrap();
    g.handle_mouse_press(0, 0);
    g.handle_mouse_move(0, 1);
    assert_eq!(*g.get_board(), load("AaA\nB.B", 2, 3));
    g.handle_mouse_move(0, 2);
    g.handle_mouse_release();
    assert!(!g.update());
    g.handle_mouse_press(1, 0);
    g.handle_mouse_move(1, 1);
    g.handle_mouse_move(1, 2);
    g.handle_mouse_release();
    assert_eq!(*g.get_board(), load("AaA\nBbB", 2, 3));
    assert!(g.update());
    assert!(g.is_finished());
    assert!(!g.update());
    // a finished game ignores input
    g.handle_right_click();
    assert_eq!(*g.get_board(), load("AaA\nBbB", 2, 3));
}

#[test]
fn move_without_press_does_nothing() {
    let mut g = Game::new("A.A\nB.B", 2, 3).unwrap();
    g.handle_mouse_move(0, 1);
    assert_eq!(*g.get_board(), load("A.A\nB.B", 2, 3));
    g.handle_mouse_press(0, 1);
    g.handle_mouse_move(1, 1);
    assert_eq!(*g.get_board(), load("A.A\nB.B", 2, 3));
}

#[test]
fn pressing_path_cell_cuts_path_back() {
    let mut g = Game::new("A...\n....\n...A", 3, 4).unwrap();
    g.handle_mouse_press(0, 0);
    g.handle_mouse_move(0, 1);
    g.handle_mouse_move(0, 2);
    g.handle_mouse_move(0, 3);
    g.handle_mouse_release();
    assert_eq!(*g.get_board(), load("Aaaa\n....\n...A", 3, 4));
    g.handle_mouse_press(0, 1);
    assert_eq!(*g.get_board(), load("Aa..\n....\n...A", 3, 4));
}

#[test]
fn pressing_near_start_of_complete_path_keeps_far_end() {
    let mut g = Game::new("A..\n...\n..A", 3, 3).unwrap();
    g.handle_mouse_press(0, 0);
    g.handle_mouse_move(0, 1);
    g.handle_mouse_move(0, 2);
    // the head below closes the path
    g.handle_mouse_move(1, 2);
    g.handle_mouse_release();
    assert_eq!(*g.get_board(), load("Aaa\n..a\n..A", 3, 3));
    // the path is kept from the pressed cell to the far head, turned around
    g.handle_mouse_press(0, 1);
    assert_eq!(*g.get_board(), load("Aaa\n..a\n..A", 3, 3));
    // dragging on grows the kept part; here the new cell makes (0,1) touch
    // three cells of its color, so the path is dropped
    g.handle_mouse_move(1, 1);
    assert_eq!(*g.get_board(), load("A..\n...\n..A", 3, 3));
}

#[test]
fn dragging_back_over_path_cuts_it() {
    let mut g = Game::new("A...\n....\n...A", 3, 4).unwrap();
    g.handle_mouse_press(0, 0);
    g.handle_mouse_move(0, 1);
    g.handle_mouse_move(0, 2);
    g.handle_mouse_move(0, 1);
    assert_eq!(*g.get_board(), load("Aa..\n....\n...A", 3, 4));
}

#[test]
fn illegal_crossing_drops_dragged_path() {
    let mut g = Game::new("A.A\nB.B", 2, 3).unwrap();
    g.handle_mouse_press(0, 0);
    g.handle_mouse_move(0, 1);
    g.handle_mouse_move(0, 2);
    g.handle_mouse_release();
    g.handle_mouse_press(1, 0);
    g.handle_mouse_move(1, 1);
    g.handle_mouse_move(0, 1);
    // the blue path would touch itself three times: it is dropped, and the
    // red path stays cut back to its head
    assert_eq!(*g.get_board(), load("A.A\nB.B", 2, 3));
}

#[test]
fn right_click_clears_paths() {
    let mut g = Game::new("A.A\nB.B", 2, 3).unwrap();
    g.handle_mouse_press(0, 0);
    g.handle_mouse_move(0, 1);
    g.handle_right_click();
    assert_eq!(*g.get_board(), load("A.A\nB.B", 2, 3));
    g.clear_flows();
    assert_eq!(*g.get_board(), load("A.A\nB.B", 2, 3));
}
