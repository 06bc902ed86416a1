use sudoku::grid::Grid;
use sudoku::square::Square;
use sudoku::state::{Direction, GridState};

fn example() -> [[u8; 9]; 9] {
    [
        [5, 3, 0, 0, 7, 0, 0, 0, 0],
        [6, 0, 0, 1, 9, 5, 0, 0, 0],
        [0, 9, 8, 0, 0, 0, 0, 6, 0],
        [8, 0, 0, 0, 6, 0, 0, 0, 3],
        [4, 0, 0, 8, 0, 3, 0, 0, 1],
        [7, 0, 0, 0, 2, 0, 0, 0, 6],
        [0, 6, 0, 0, 0, 0, 2, 8, 0],
        [0, 0, 0, 4, 1, 9, 0, 0, 5],
        [0, 0, 0, 0, 8, 0, 0, 7, 9],
    ]
}

fn solution() -> [[u8; 9]; 9] {
    [
        [5, 3, 4, 6, 7, 8, 9, 1, 2],
        [6, 7, 2, 1, 9, 5, 3, 4, 8],
        [1, 9, 8, 3, 4, 2, 5, 6, 7],
        [8, 5, 9, 7, 6, 1, 4, 2, 3],
        [4, 2, 6, 8, 5, 3, 7, 9, 1],
        [7, 1, 3, 9, 2, 4, 8, 5, 6],
        [9, 6, 1, 5, 3, 7, 2, 8, 4],
        [2, 8, 7, 4, 1, 9, 6, 3, 5],
        [3, 4, 5, 2, 8, 6, 1, 7, 9],
    ]
}

fn values_of(cells: &[Square]) -> Vec<u8> {
    cells.iter().map(|s| s.value()).collect()
}

fn all_values(g: &Grid) -> Vec<Vec<u8>> {
    (0..9).map(|i| values_of(&g.row(i))).collect()
}

#[test]
fn new_reads_back_rows_columns_blocks() {
    let v = example();
    let g = Grid::new(v);
    for i in 0..9 {
        assert_eq!(values_of(&g.row(i)), v[i].to_vec());
        let col: Vec<u8> = (0..9).map(|k| v[k][i]).collect();
        assert_eq!(values_of(&g.col(i)), col);
    }
    assert_eq!(values_of(&g.block(0, 0)), vec![5, 3, 0, 6, 0, 0, 0, 9, 8]);
    assert_eq!(values_of(&g.block(1, 2)), vec![0, 0, 3, 0, 0, 1, 0, 0, 6]);
    assert_eq!(values_of(&g.block(2, 2)), vec![2, 8, 0, 0, 0, 5, 0, 7, 9]);
    assert!(g.row(0)[0].is_initial());
    assert!(g.row(0)[2].is_empty());
    assert_eq!(g.current(), (0, 0));
}

#[test]
fn csv_round_trip_keeps_values() {
    let g = GridState::new(example());
    let text = g.to_csv();
    assert!(text.starts_with("5,3,0,0,7,0,0,0,0\n6,0,0"));
    let back = GridState::from_csv(&text);
    for i in 0..9 {
        assert_eq!(values_of(&back.row(i)), example()[i].to_vec());
    }
}

#[test]
fn from_csv_without_trailing_newline() {
    let rows: Vec<String> = example()
        .iter()
        .map(|r| r.iter().map(|d| d.to_string()).collect::<Vec<_>>().join(","))
        .collect();
    let g = Grid::from_csv(&rows.join("\n"));
    assert_eq!(values_of(&g.row(8)), vec![0, 0, 0, 0, 8, 0, 0, 7, 9]);
}

#[test]
fn try_from_csv_refuses_other_characters() {
    assert!(GridState::try_from_csv("1,2,x").is_none());
    assert!(GridState::try_from_csv("1,2,3").is_some());
    // a tenth field on a row lies off the board
    assert!(GridState::try_from_csv("0,0,0,0,0,0,0,0,0,5").is_none());
}

#[test]
fn example_has_no_conflicts_until_a_duplicate() {
    let mut g = Grid::new(example());
    assert!(g.find_invalid_squares().is_empty());
    g.move_cursor(Direction::Right);
    g.move_cursor(Direction::Right);
    assert_eq!(g.current(), (0, 2));
    g.update_current(5);
    let bad = g.find_invalid_squares();
    assert!(bad.contains(&(0, 0)));
    assert!(bad.contains(&(0, 2)));
    assert_eq!(bad.len(), 2);
}

#[test]
fn same_block_duplicate_is_flagged() {
    let mut v = [[0u8; 9]; 9];
    v[0][0] = 4;
    v[1][1] = 4;
    let bad = Grid::new(v).find_invalid_squares();
    assert_eq!(bad, vec![(0, 0), (1, 1)]);
}

#[test]
fn far_apart_duplicates_are_fine() {
    let mut v = [[0u8; 9]; 9];
    v[0][0] = 4;
    v[4][4] = 4;
    v[2][8] = 4;
    assert!(Grid::new(v).find_invalid_squares().is_empty());
}

#[test]
fn block_edges_are_respected() {
    let mut v = [[0u8; 9]; 9];
    v[2][2] = 6;
    v[3][3] = 6;
    assert!(Grid::new(v).find_invalid_squares().is_empty());
    v[5][5] = 6;
    assert_eq!(Grid::new(v).find_invalid_squares(), vec![(3, 3), (5, 5)]);
}

#[test]
fn clues_cannot_be_overwritten() {
    let mut g = Grid::new(example());
    g.update_current(9);
    assert_eq!(g.row(0)[0].value(), 5);
    assert!(g.row(0)[0].is_initial());
}

#[test]
fn entry_and_clear() {
    let mut g = Grid::new(example());
    g.move_cursor(Direction::Down);
    g.move_cursor(Direction::Right);
    g.update_current(7);
    assert!(matches!(g.row(1)[1], Square::Filled(7)));
    g.update_current(0);
    assert!(g.row(1)[1].is_empty());
}

#[test]
fn cursor_wraps_round() {
    let mut g = Grid::new(example());
    g.move_cursor(Direction::Left);
    assert_eq!(g.current(), (0, 8));
    g.move_cursor(Direction::Up);
    assert_eq!(g.current(), (8, 8));
    g.move_cursor(Direction::Right);
    assert_eq!(g.current(), (8, 0));
    g.move_cursor(Direction::Down);
    assert_eq!(g.current(), (0, 0));
}

#[test]
fn nine_moves_return() {
    for dir in [Direction::Right, Direction::Left, Direction::Up, Direction::Down] {
        let mut g = Grid::new(example());
        g.move_cursor(Direction::Down);
        g.move_cursor(Direction::Right);
        g.move_cursor(Direction::Right);
        let start = g.current();
        for _ in 0..9 {
            g.move_cursor(dir);
        }
        assert_eq!(g.current(), start);
    }
}

#[test]
fn direction_coords() {
    assert_eq!(Direction::Right.coords(), (0, 1));
    assert_eq!(Direction::Left.coords(), (0, 8));
    assert_eq!(Direction::Up.coords(), (8, 0));
    assert_eq!(Direction::Down.coords(), (1, 0));
}

#[test]
fn flips_twice_give_back_the_board() {
    let mut g = GridState::new(example());
    let before = g.to_csv();
    g.flip_horizontally();
    assert_eq!(values_of(&g.row(0)), vec![0, 0, 0, 0, 7, 0, 0, 3, 5]);
    g.flip_horizontally();
    assert_eq!(g.to_csv(), before);
    g.flip_vertically();
    assert_eq!(values_of(&g.row(0)), example()[8].to_vec());
    g.flip_vertically();
    assert_eq!(g.to_csv(), before);
}

#[test]
fn permute_renames_digits_and_keeps_validity() {
    let mut g = GridState::new(solution());
    assert!(g.is_solved());
    let p = [9u8, 8, 7, 6, 5, 4, 3, 2, 1];
    g.permute(&p);
    assert_eq!(values_of(&g.row(0)), vec![5, 7, 6, 4, 3, 2, 1, 9, 8]);
    assert!(g.row(0)[0].is_initial());
    assert!(g.find_invalid_squares().is_empty());
    assert!(g.is_solved());
}

#[test]
fn permute_keeps_entries_as_entries() {
    let mut g = GridState::new(example());
    g.move_cursor(Direction::Right);
    g.move_cursor(Direction::Right);
    g.update_current(4);
    g.permute(&[2, 3, 4, 5, 6, 7, 8, 9, 1]);
    assert!(matches!(g.row(0)[2], Square::Filled(5)));
    assert!(matches!(g.row(0)[0], Square::Initial(6)));
}

#[test]
fn solved_needs_every_cell_and_no_conflict() {
    let g = Grid::new(solution());
    assert!(g.is_solved());
    let mut open = solution();
    open[4][4] = 0;
    assert!(!Grid::new(open).is_solved());
    let mut wrong = solution();
    wrong[0][0] = 3;
    let g = Grid::new(wrong);
    assert!(!g.find_invalid_squares().is_empty());
    assert!(!g.is_solved());
}

#[test]
fn freeze_makes_entries_clues() {
    let mut g = Grid::new(example());
    g.move_cursor(Direction::Right);
    g.move_cursor(Direction::Right);
    g.update_current(4);
    g.freeze();
    assert!(g.row(0)[2].is_initial());
    assert_eq!(g.row(0)[2].value(), 4);
    assert!(g.row(0)[3].is_empty());
}

#[test]
fn remove_filled_keeps_clues() {
    let mut g = Grid::new(example());
    g.move_cursor(Direction::Right);
    g.move_cursor(Direction::Right);
    g.update_current(4);
    g.remove_filled();
    assert!(g.row(0)[2].is_empty());
    assert_eq!(g.row(0)[0].value(), 5);
}

#[test]
fn undo_and_redo_walk_the_history() {
    let mut g = Grid::new(example());
    let start = all_values(&g);
    g.move_cursor(Direction::Right);
    g.move_cursor(Direction::Right);
    g.update_current(1);
    g.move_cursor(Direction::Right);
    g.update_current(2);
    g.flip_vertically();
    let end = all_values(&g);
    for _ in 0..3 {
        g.undo();
    }
    assert_eq!(all_values(&g), start);
    g.undo();
    assert_eq!(all_values(&g), start);
    for _ in 0..3 {
        g.redo();
    }
    assert_eq!(all_values(&g), end);
}

#[test]
fn an_edit_after_undo_drops_redo() {
    let mut g = Grid::new(example());
    g.move_cursor(Direction::Right);
    g.move_cursor(Direction::Right);
    g.update_current(1);
    g.undo();
    g.update_current(2);
    let after = all_values(&g);
    g.redo();
    g.redo();
    assert_eq!(all_values(&g), after);
    assert_eq!(g.row(0)[2].value(), 2);
}

#[test]
fn to_csv_writes_the_exact_text() {
    let mut v = [[0u8; 9]; 9];
    v[0][0] = 1;
    v[8][8] = 9;
    let text = GridState::new(v).to_csv();
    let mut expect = String::from("1,0,0,0,0,0,0,0,0\n");
    for _ in 0..7 {
        expect.push_str("0,0,0,0,0,0,0,0,0\n");
    }
    expect.push_str("0,0,0,0,0,0,0,0,9\n");
    assert_eq!(text, expect);
    assert_eq!(text.len(), 162);
}

#[test]
fn invalid_squares_come_in_row_major_order() {
    let mut v = [[0u8; 9]; 9];
    v[7][1] = 2;
    v[7][6] = 2;
    v[0][3] = 8;
    v[5][3] = 8;
    let bad = Grid::new(v).find_invalid_squares();
    assert_eq!(bad, vec![(0, 3), (5, 3), (7, 1), (7, 6)]);
}
