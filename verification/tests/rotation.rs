use tetromino::Tetromino;

fn cells_of(piece: &Tetromino) -> Vec<bool> {
    let n = piece.width() as usize * piece.height() as usize;
    (0..n).map(|i| piece.test_pos(i)).collect()
}

fn piece(stride: u8, rows: &[&str]) -> Tetromino {
    let mut cells = Vec::new();
    for row in rows {
        for c in row.chars() {
            cells.push(c == '#');
        }
    }
    Tetromino::from_cells(4, stride, &cells).unwrap()
}

fn picture(p: &Tetromino) -> Vec<String> {
    let w = p.width() as usize;
    let h = p.height() as usize;
    (0..h)
        .map(|y| (0..w).map(|x| if p.test_pos(x + y * w) { '#' } else { '.' }).collect())
        .collect()
}

#[test]
fn quarter_turn_moves_each_cell_as_stated() {
    // 3 wide, 2 high; cell (x, y) goes to (y, 2 - x) of a 2 wide, 3 high piece
    let mut p = piece(3, &["##.", "..#"]);
    p.rotate_quarter();
    assert_eq!(p.width(), 2);
    assert_eq!(p.height(), 3);
    assert_eq!(picture(&p), vec![".#", "#.", "#."]);
}

#[test]
fn quarter_turn_of_l_piece() {
    let mut p = piece(2, &["#.", "#.", "##"]);
    p.rotate_quarter();
    assert_eq!(p.width(), 3);
    assert_eq!(p.height(), 2);
    assert_eq!(picture(&p), vec!["..#", "###"]);
    p.rotate_quarter();
    assert_eq!(picture(&p), vec!["##", ".#", ".#"]);
    p.rotate_quarter();
    assert_eq!(picture(&p), vec!["###", "#.."]);
    p.rotate_quarter();
    assert_eq!(picture(&p), vec!["#.", "#.", "##"]);
}

#[test]
fn four_quarter_turns_give_the_piece_back() {
    let rows = ["#..#.", ".##..", "#...#"];
    let mut p = piece(5, &rows);
    let before = cells_of(&p);
    for _ in 0..4 {
        assert!(p.rotate_deg(Some(90)));
    }
    assert_eq!(p.width(), 5);
    assert_eq!(p.height(), 3);
    assert_eq!(cells_of(&p), before);
}

#[test]
fn rotate_by_zero_degrees_changes_nothing() {
    let mut p = piece(3, &["##.", "..#"]);
    let before = cells_of(&p);
    assert!(p.rotate_deg(Some(0)));
    assert_eq!(p.width(), 3);
    assert_eq!(p.height(), 2);
    assert_eq!(cells_of(&p), before);
    assert!(p.rotate_deg(Some(360)));
    assert_eq!(p.width(), 3);
    assert_eq!(cells_of(&p), before);
}

#[test]
fn rotate_deg_defaults_to_a_quarter_turn() {
    let mut p = piece(3, &["##.", "..#"]);
    let mut q = piece(3, &["##.", "..#"]);
    assert!(p.rotate_deg(None));
    q.rotate_quarter();
    assert_eq!(picture(&p), picture(&q));
    assert_eq!(picture(&p), vec![".#", "#.", "#."]);
}

#[test]
fn rotate_deg_counts_quarter_turns() {
    let mut p = piece(3, &["##.", "..#"]);
    assert!(p.rotate_deg(Some(180)));
    assert_eq!(picture(&p), vec!["#..", ".##"]);
    let mut p = piece(3, &["##.", "..#"]);
    assert!(p.rotate_deg(Some(270)));
    assert_eq!(picture(&p), vec![".#", ".#", "#."]);
    let mut p = piece(3, &["##.", "..#"]);
    assert!(p.rotate_deg(Some(-90)));
    assert_eq!(picture(&p), vec![".#", ".#", "#."]);
    let mut p = piece(3, &["##.", "..#"]);
    assert!(p.rotate_deg(Some(450)));
    assert_eq!(picture(&p), vec![".#", "#.", "#."]);
    let mut p = piece(3, &["##.", "..#"]);
    assert!(p.rotate_deg(Some(i32::MIN + 128)));
    // i32::MIN + 128 = -2147483520 = -23860928 * 90, and -23860928 is 0 modulo 4
    assert_eq!(picture(&p), vec!["##.", "..#"]);
    let mut p = piece(3, &["##.", "..#"]);
    assert!(p.rotate_deg(Some(i32::MAX - 37)));
    // i32::MAX - 37 = 2147483610 = 23860929 * 90, and 23860929 is 1 modulo 4
    assert_eq!(picture(&p), vec![".#", "#.", "#."]);
}

#[test]
fn rotate_deg_leaves_other_angles_alone() {
    let mut p = piece(3, &["##.", "..#"]);
    assert!(!p.rotate_deg(Some(45)));
    assert_eq!(picture(&p), vec!["##.", "..#"]);
    assert!(!p.rotate_deg(Some(-1)));
    assert!(!p.rotate_deg(Some(91)));
    assert!(!p.rotate_deg(Some(i32::MIN)));
    assert!(!p.rotate_deg(Some(i32::MAX)));
    assert_eq!(picture(&p), vec!["##.", "..#"]);
}

#[test]
fn from_cells_takes_whole_rows_only() {
    assert!(Tetromino::from_cells(1, 0, &vec![true]).is_none());
    assert!(Tetromino::from_cells(1, 1, &vec![]).is_none());
    assert!(Tetromino::from_cells(1, 2, &vec![true, false, true]).is_none());
    assert!(Tetromino::from_cells(1, 1, &vec![true; 256]).is_none());
    let tall = Tetromino::from_cells(1, 1, &vec![true; 255]).unwrap();
    assert_eq!(tall.width(), 1);
    assert_eq!(tall.height(), 255);
    let p = Tetromino::from_cells(7, 2, &vec![true, false, false, true]).unwrap();
    assert_eq!(p.level(), 7);
    assert_eq!(p.width(), 2);
    assert_eq!(p.height(), 2);
    assert!(p.test_pos(0));
    assert!(!p.test_pos(1));
    assert!(!p.test_pos(2));
    assert!(p.test_pos(3));
}

#[test]
fn test_pos_past_the_end_is_not_set() {
    let p = Tetromino::from_cells(1, 1, &vec![true]).unwrap();
    assert!(p.test_pos(0));
    assert!(!p.test_pos(1));
    assert!(!p.test_pos(1000));
}

#[test]
fn piece_render_has_one_line_for_each_row() {
    let p = Tetromino::from_cells(4, 3, &vec![true, true, false, false, false, true]).unwrap();
    assert_eq!(p.render(), "\n4:110:\n4:001:\n\n");
    let q = Tetromino::from_cells(123, 1, &vec![true]).unwrap();
    assert_eq!(q.render(), "\n123:1:\n\n");
    let r = Tetromino::from_cells(40, 1, &vec![false]).unwrap();
    assert_eq!(r.render(), "\n40:0:\n\n");
}

#[test]
fn quarter_turn_keeps_the_number_of_set_cells() {
    let mut p = piece(4, &["#..#", ".#..", "..##"]);
    let before = cells_of(&p).iter().filter(|c| **c).count();
    for _ in 0..7 {
        p.rotate_quarter();
        assert_eq!(cells_of(&p).iter().filter(|c| **c).count(), before);
    }
}

#[test]
fn quarter_turn_of_a_single_row_and_a_single_column() {
    let mut p = piece(4, &["#.##"]);
    p.rotate_quarter();
    assert_eq!(p.width(), 1);
    assert_eq!(p.height(), 4);
    assert_eq!(picture(&p), vec!["#", "#", ".", "#"]);
    p.rotate_quarter();
    assert_eq!(picture(&p), vec!["##.#"]);
}

#[test]
fn largest_piece_turns() {
    let cells: Vec<bool> = (0..255 * 255).map(|i| i % 7 == 0).collect();
    let mut p = Tetromino::from_cells(8, 255, &cells).unwrap();
    p.rotate_quarter();
    assert_eq!(p.width(), 255);
    assert_eq!(p.height(), 255);
    // cell (x, y) went to (y, 254 - x)
    for (x, y) in [(0usize, 0usize), (254, 0), (0, 254), (17, 100), (254, 254)] {
        assert_eq!(p.test_pos(y + (254 - x) * 255), cells[x + y * 255]);
    }
}

#[test]
fn from_marks_sets_the_marked_cells_and_no_others() {
    let p = Tetromino::from_marks(3, 3, 2, &vec![0, 4, 5]).unwrap();
    assert_eq!(p.level(), 3);
    assert_eq!(p.width(), 3);
    assert_eq!(p.height(), 2);
    assert_eq!(picture(&p), vec!["#..", ".##"]);
    let none = Tetromino::from_marks(3, 2, 2, &vec![]).unwrap();
    assert_eq!(picture(&none), vec!["..", ".."]);
}

#[test]
fn from_marks_passes_over_marks_outside_the_piece() {
    let p = Tetromino::from_marks(4, 2, 2, &vec![4, 1, 100, usize::MAX, 3]).unwrap();
    assert_eq!(picture(&p), vec![".#", ".#"]);
    assert!(!p.test_pos(4));
    assert!(!p.test_pos(100));
}

#[test]
fn from_marks_counts_a_cell_once() {
    let p = Tetromino::from_marks(4, 2, 2, &vec![2, 2, 2, 0, 2]).unwrap();
    assert_eq!(picture(&p), vec!["#.", "#."]);
    assert_eq!(cells_of(&p).iter().filter(|c| **c).count(), 2);
}

#[test]
fn from_marks_needs_both_sides() {
    assert!(Tetromino::from_marks(1, 0, 3, &vec![0]).is_none());
    assert!(Tetromino::from_marks(1, 3, 0, &vec![0]).is_none());
    assert!(Tetromino::from_marks(1, 0, 0, &vec![]).is_none());
    let big = Tetromino::from_marks(1, 255, 255, &vec![255 * 255 - 1, 255 * 255]).unwrap();
    assert_eq!(big.width(), 255);
    assert_eq!(big.height(), 255);
    assert!(big.test_pos(255 * 255 - 1));
    assert!(!big.test_pos(255 * 255));
    assert!(!big.test_pos(0));
}
