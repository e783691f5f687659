use flow_four::board::{Board, Cell};
use flow_four::text::ParseError;
use flow_four::palette::palette_rgb;

fn load(text: &str, rows: usize, cols: usize) -> Board {
    Board::load_board(text, rows, cols).unwrap()
}

#[test]
fn cell_queries() {
    assert_eq!(Cell::Path { color: 3 }.color(), 3);
    assert_eq!(Cell::Head { color: 7 }.color(), 7);
    assert!(Cell::Head { color: 0 }.is_head());
    assert!(!Cell::Path { color: 0 }.is_head());
    assert!(Cell::Empty.is_empty());
    assert!(!Cell::Head { color: 1 }.is_empty());
}

#[test]
fn new_board_is_empty() {
    let b = Board::new(2, 3);
    assert_eq!(b.len(), 6);
    assert_eq!(b.rows(), 2);
    assert_eq!(b.cols(), 3);
    for i in 0..6 {
        assert_eq!(b.cell_at(i), Cell::Empty);
    }
    assert!(b.is_legal());
    assert!(!b.is_solved());
    assert!(!b.is_full());
    assert_eq!(b.num_colors(), 0);
}

#[test]
fn load_reads_letters_and_skips_layout() {
    let b = load("Ab.\n\n  aB?\n", 2, 3);
    assert_eq!(b.cell(0, 0), Cell::Head { color: 0 });
    assert_eq!(b.cell(0, 1), Cell::Path { color: 1 });
    assert_eq!(b.cell(0, 2), Cell::Empty);
    assert_eq!(b.cell(1, 0), Cell::Path { color: 0 });
    assert_eq!(b.cell(1, 1), Cell::Head { color: 1 });
    assert_eq!(b.cell(1, 2), Cell::Empty);
}

#[test]
fn load_rejects_wrong_cell_count() {
    assert_eq!(
        Board::load_board("A.A\nB.", 2, 3),
        Err(ParseError::WrongCellCount { found: 5 })
    );
    assert_eq!(
        Board::load_board("A.A\nB.BB", 2, 3),
        Err(ParseError::WrongCellCount { found: 7 })
    );
    assert!(Board::load_board("", 0, 5).is_ok());
}

#[test]
fn solved_board_is_legal() {
    let b = load("AaA\nBbB", 2, 3);
    assert!(b.is_solved());
    assert!(b.is_legal());
    assert!(b.is_full());
}

#[test]
fn legality_counts_same_color_neighbours() {
    // a path cell with no neighbour of its color
    assert!(!load("A.a\n...", 2, 3).is_legal());
    // a head touching two cells of its color
    assert!(!load("aAa\n...", 2, 3).is_legal());
    // a path cell touching three of its color
    assert!(!load("aaa\n.a.", 2, 3).is_legal());
    // unfinished but legal
    assert!(load("Aa.\n..A", 2, 3).is_legal());
    assert!(!load("Aa.\n..A", 2, 3).is_solved());
}

#[test]
fn add_path_never_restores_legality_after_overfill() {
    let mut b = load("aaa\n.a.\n...", 3, 3);
    assert!(!b.is_legal());
    b.add_path(2, 0, 0);
    assert!(!b.is_legal());
    b.add_path(2, 1, 0);
    assert!(!b.is_legal());
    assert_eq!(b.cell(2, 1), Cell::Path { color: 0 });
}

#[test]
fn validity_needs_two_heads_per_color() {
    assert!(load("A.A\nB.B", 2, 3).is_valid());
    assert!(!load("A.A\nB.A", 2, 3).is_valid());
    assert!(!load("A..\nB.B", 2, 3).is_valid());
    assert!(Board::new(2, 2).is_valid());
}

#[test]
fn num_colors_counts_distinct_head_colors() {
    assert_eq!(load("A.C\nCbA", 2, 3).num_colors(), 2);
    assert_eq!(load("ab.\n...", 2, 3).num_colors(), 0);
}

#[test]
fn empty_neighbors_in_fixed_order() {
    let b = load("A..\n.B.\n...", 3, 3);
    assert_eq!(b.empty_neighbors(1, 1), [Some((0, 1)), Some((1, 0)), Some((2, 1)), Some((1, 2))]);
    assert_eq!(b.empty_neighbors(0, 0), [None, None, Some((1, 0)), Some((0, 1))]);
    assert_eq!(b.empty_neighbors(0, 1), [None, None, None, Some((0, 2))]);
}

#[test]
fn neighbor_head_looks_up_down_left_right() {
    let b = load(".A.\nA.A\n.A.", 3, 3);
    assert_eq!(b.neighbor_head(1, 1, 0), Some((0, 1)));
    let c = load("...\nA.A\n.A.", 3, 3);
    assert_eq!(c.neighbor_head(1, 1, 0), Some((2, 1)));
    let d = load("...\n..A\n...", 3, 3);
    assert_eq!(d.neighbor_head(1, 1, 0), Some((1, 2)));
    assert_eq!(d.neighbor_head(1, 1, 1), None);
}

#[test]
fn orientation_masks_same_color_neighbours() {
    let b = load("Aa.\n.aB\n.ab", 3, 3);
    // (1,1): above (0,1) a, below (2,1) a
    assert_eq!(b.orientation(4), 1 + 4);
    // (0,0): right neighbour a
    assert_eq!(b.orientation(0), 8);
    // (1,2): below b
    assert_eq!(b.orientation(5), 4);
    // (0,1): left A, below a
    assert_eq!(b.orientation(1), 2 + 4);
}

#[test]
fn inverse_ind_splits_index() {
    let b = Board::new(3, 4);
    assert_eq!(b.inverse_ind(0), (0, 0));
    assert_eq!(b.inverse_ind(5), (1, 1));
    assert_eq!(b.inverse_ind(11), (2, 3));
}

#[test]
fn set_cell_and_strip() {
    let mut b = load("Aa.\n.bB", 2, 3);
    Board::set_cell(&mut b, 0, 2, Cell::Head { color: 4 });
    assert_eq!(b.cell(0, 2), Cell::Head { color: 4 });
    b.strip();
    assert_eq!(b, load("A.E\n..B", 2, 3));
}

#[test]
fn text_writes_rows() {
    let b = load("Aa.\n.zB", 2, 3);
    assert_eq!(b.to_text(), b"Aa.\n.zB\n".to_vec());
    let mut c = Board::new(1, 2);
    Board::set_cell(&mut c, 0, 0, Cell::Head { color: 30 });
    assert_eq!(c.to_text(), b"?.\n".to_vec());
}

#[test]
fn text_round_trip_of_heads() {
    let b = load("A..B\n.C..\n..CA\nB...", 4, 4);
    let text = String::from_utf8(b.to_text()).unwrap();
    let back = Board::load_board(&text, 4, 4).unwrap();
    assert_eq!(back, b);
    assert_eq!(back.to_text(), b.to_text());
}

#[test]
fn clone_is_equal_and_independent() {
    let b = load("A.A\nB.B", 2, 3);
    let mut c = b.clone();
    assert_eq!(b, c);
    c.add_path(0, 1, 0);
    assert_ne!(b, c);
    assert_eq!(b.cell(0, 1), Cell::Empty);
}

#[test]
fn palette_colors_decode_hex() {
    assert_eq!(palette_rgb(5), Some([0xda, 0x00, 0x84]));
    assert_eq!(palette_rgb(6), Some([0xf2, 0x00, 0xff]));
    assert_eq!(palette_rgb(28), Some([0x4c, 0xb1, 0x48]));
    assert_eq!(palette_rgb(4), None);
    assert_eq!(palette_rgb(0), None);
    assert_eq!(palette_rgb(29), None);
    assert_eq!(palette_rgb(255), None);
}
