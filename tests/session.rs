use sudoku::generator::Difficulty;
use sudoku::grid::Grid;
use sudoku::session::{command_for, menu_step, play, Command, KeyPress, MenuStep};
use sudoku::state::Direction;

fn solution() -> [[u8; 9]; 9] {
    [
        [5, 3, 4, 6, 7, 8, 9, 1, 2],
        [6, 7, 2, 1, 9, 5, 3, 4, 8],
        [1, 9, 8, 3, 4, 2, 5, 6, 7],
        [8, 5, 9, 7, 6, 1, 4, 2, 3],
        [4, 2, 6, 8, 5, 3, 7, 9, 1],
        [7, 1, 3, 9, 2, 4, 8, 5, 6],
        [9, 6, 1, 5, 3, 7, 2, 8, 4],
        [2, 8, 7, 4, 1, 9, 6, 3, 5],
        [3, 4, 5, 2, 8, 6, 1, 7, 9],
    ]
}

#[test]
fn keys_map_to_commands() {
    assert_eq!(command_for(KeyPress::Right), Command::Move(Direction::Right));
    assert_eq!(command_for(KeyPress::Char('h')), Command::Move(Direction::Left));
    assert_eq!(command_for(KeyPress::Char('w')), Command::Move(Direction::Up));
    assert_eq!(command_for(KeyPress::Char('j')), Command::Move(Direction::Down));
    assert_eq!(command_for(KeyPress::Char('7')), Command::Enter(7));
    assert_eq!(command_for(KeyPress::Char('0')), Command::Enter(0));
    assert_eq!(command_for(KeyPress::Char(' ')), Command::Enter(0));
    assert_eq!(command_for(KeyPress::Backspace), Command::Enter(0));
    assert_eq!(command_for(KeyPress::Char('u')), Command::Undo);
    assert_eq!(command_for(KeyPress::Ctrl('r')), Command::Redo);
    assert_eq!(command_for(KeyPress::Char('r')), Command::RemoveFilled);
    assert_eq!(command_for(KeyPress::Char('n')), Command::NewGame);
    assert_eq!(command_for(KeyPress::Char('q')), Command::Quit);
    assert_eq!(command_for(KeyPress::Ctrl('d')), Command::Quit);
    assert_eq!(command_for(KeyPress::Char('x')), Command::Nothing);
    assert_eq!(command_for(KeyPress::Other), Command::Nothing);
}

#[test]
fn menu_moves_and_wraps() {
    assert_eq!(menu_step(0, KeyPress::Down), MenuStep::Highlight(1));
    assert_eq!(menu_step(4, KeyPress::Char('s')), MenuStep::Highlight(0));
    assert_eq!(menu_step(0, KeyPress::Up), MenuStep::Highlight(4));
    assert_eq!(menu_step(3, KeyPress::Char('k')), MenuStep::Highlight(2));
    assert_eq!(menu_step(2, KeyPress::Char('\n')), MenuStep::Choose(Difficulty::Medium));
    assert_eq!(menu_step(4, KeyPress::Char('\n')), MenuStep::Choose(Difficulty::Fiendish));
    assert_eq!(menu_step(1, KeyPress::Char('q')), MenuStep::Quit);
    assert_eq!(menu_step(1, KeyPress::Char('z')), MenuStep::Highlight(1));
}

#[test]
fn finishing_the_puzzle_freezes_it() {
    let mut v = solution();
    v[0][1] = 0;
    let mut g = Grid::new(v);
    assert!(!play(&mut g, Command::Move(Direction::Right)));
    assert!(!play(&mut g, Command::Enter(4)));
    assert!(play(&mut g, Command::Enter(3)));
    assert!(g.is_solved());
    assert!(g.row(0)[1].is_initial());
}

#[test]
fn play_undo_redo() {
    let mut v = solution();
    v[0][1] = 0;
    let mut g = Grid::new(v);
    play(&mut g, Command::Move(Direction::Right));
    play(&mut g, Command::Enter(8));
    assert_eq!(g.row(0)[1].value(), 8);
    play(&mut g, Command::Undo);
    assert!(g.row(0)[1].is_empty());
    play(&mut g, Command::Redo);
    assert_eq!(g.row(0)[1].value(), 8);
    play(&mut g, Command::RemoveFilled);
    assert!(g.row(0)[1].is_empty());
}
