use vstd::prelude::*;

use crate::generator::Difficulty;
use crate::grid::{Grid, GridHistory};
use crate::state::Direction;

verus! {

/// A key press, as the game reads it.
#[derive(Debug, Clone, Copy, PartialEq, Eq, Structural)]
pub enum KeyPress {
    Char(char),
    Ctrl(char),
    Left,
    Right,
    Up,
    Down,
    Backspace,
    Other,
}

/// What a key press asks of a game in play.
#[derive(Debug, Clone, Copy, PartialEq, Eq, Structural)]
pub enum Command {
    Move(Direction),
    Enter(usize),
    Undo,
    Redo,
    RemoveFilled,
    NewGame,
    Quit,
    Nothing,
}

/// The command bound to a key: arrows or `d`/`a`/`w`/`s` or `l`/`h`/`k`/`j`
/// move, a digit enters it, space or backspace clears, `u` undoes, ctrl-r
/// redoes, `r` clears every entry, `n` starts anew, `q` or ctrl-c or ctrl-d
/// quits.
pub open spec fn command_of(key: KeyPress) -> Command {
    match key {
        KeyPress::Right => Command::Move(Direction::Right),
        KeyPress::Left => Command::Move(Direction::Left),
        KeyPress::Up => Command::Move(Direction::Up),
        KeyPress::Down => Command::Move(Direction::Down),
        KeyPress::Backspace => Command::Enter(0),
        KeyPress::Ctrl(c) => if c == 'r' {
            Command::Redo
        } else if c == 'c' || c == 'd' {
            Command::Quit
        } else {
            Command::Nothing
        },
        KeyPress::Char(c) => if c == 'd' || c == 'l' {
            Command::Move(Direction::Right)
        } else if c == 'a' || c == 'h' {
            Command::Move(Direction::Left)
        } else if c == 'w' || c == 'k' {
            Command::Move(Direction::Up)
        } else if c == 's' || c == 'j' {
            Command::Move(Direction::Down)
        } else if c == ' ' {
            Command::Enter(0)
        } else if c == 'q' {
            Command::Quit
        } else if c == 'u' {
            Command::Undo
        } else if c == 'r' {
            Command::RemoveFilled
        } else if c == 'n' {
            Command::NewGame
        } else if '0' <= c && c <= '9' {
            Command::Enter((c as u32 - '0' as u32) as usize)
        } else {
            Command::Nothing
        },
        KeyPress::Other => Command::Nothing,
    }
}

pub fn command_for(key: KeyPress) -> (r: Command)
    ensures
        r == command_of(key),
        r matches Command::Enter(d) ==> d <= 9,
{
    match key {
        KeyPress::Right => Command::Move(Direction::Right),
        KeyPress::Left => Command::Move(Direction::Left),
        KeyPress::Up => Command::Move(Direction::Up),
        KeyPress::Down => Command::Move(Direction::Down),
        KeyPress::Backspace => Command::Enter(0),
        KeyPress::Ctrl(c) => if c == 'r' {
            Command::Redo
        } else if c == 'c' || c == 'd' {
            Command::Quit
        } else {
            Command::Nothing
        },
        KeyPress::Char(c) => if c == 'd' || c == 'l' {
            Command::Move(Direction::Right)
        } else if c == 'a' || c == 'h' {
            Command::Move(Direction::Left)
        } else if c == 'w' || c == 'k' {
            Command::Move(Direction::Up)
        } else if c == 's' || c == 'j' {
            Command::Move(Direction::Down)
        } else if c == ' ' {
            Command::Enter(0)
        } else if c == 'q' {
            Command::Quit
        } else if c == 'u' {
            Command::Undo
        } else if c == 'r' {
            Command::RemoveFilled
        } else if c == 'n' {
            Command::NewGame
        } else if '0' <= c && c <= '9' {
            Command::Enter((c as u32 - '0' as u32) as usize)
        } else {
            Command::Nothing
        },
        KeyPress::Other => Command::Nothing,
    }
}

/// `next` is the history after `cmd` is carried out on `h`; commands that
/// leave the grid (a new game, quitting) change nothing here.
pub open spec fn is_effect_of(next: GridHistory, h: GridHistory, cmd: Command) -> bool {
    match cmd {
        Command::Move(dir) => {
            &&& next.state.is_moved(h.state, dir)
            &&& next.past == h.past
            &&& next.future == h.future
        },
        Command::Enter(d) => next == h.record(next.state) && next.state.is_entry(h.state, d),
        Command::Undo => next == h.undo(),
        Command::Redo => next == h.redo(),
        Command::RemoveFilled => next == h.record(next.state) && next.state.is_cleared(h.state),
        _ => next == h,
    }
}

/// Carries out `cmd` on the grid, then, if the grid is solved, freezes it so
/// that the finished board stays as it is. Returns whether it is solved.
pub fn play(grid: &mut Grid, cmd: Command) -> (solved: bool)
    requires
        old(grid)@.wf(),
        cmd matches Command::Enter(d) ==> d <= 9,
    ensures
        final(grid)@.wf(),
        exists|mid: GridHistory|
            {
                &&& #[trigger] is_effect_of(mid, old(grid)@, cmd)
                &&& solved == (mid.state.is_full() && mid.state.has_no_conflicts())
                &&& if solved {
                    final(grid)@ == mid.record(final(grid)@.state) && final(grid)@.state.is_frozen(mid.state)
                } else {
                    final(grid)@ == mid
                }
            },
{
    match cmd {
        Command::Move(dir) => grid.move_cursor(dir),
        Command::Enter(d) => grid.update_current(d),
        Command::Undo => grid.undo(),
        Command::Redo => grid.redo(),
        Command::RemoveFilled => grid.remove_filled(),
        _ => {},
    }
    let ghost mid = grid@;
    let solved = grid.is_solved();
    if solved {
        grid.freeze();
    }
    assert(is_effect_of(mid, old(grid)@, cmd));
    solved
}

/// The tiers in the order the menu lists them.
pub open spec fn menu_entry(index: int) -> Difficulty {
    if index == 0 {
        Difficulty::VeryEasy
    } else if index == 1 {
        Difficulty::Easy
    } else if index == 2 {
        Difficulty::Medium
    } else if index == 3 {
        Difficulty::Hard
    } else {
        Difficulty::Fiendish
    }
}

/// Number of entries in the difficulty menu.
pub const MENU_LEN: usize = 5;

/// What a key press does in the difficulty menu.
#[derive(Debug, Clone, Copy, PartialEq, Eq, Structural)]
pub enum MenuStep {
    Highlight(usize),
    Choose(Difficulty),
    Quit,
}

/// The difficulty menu with entry `index` highlighted reads `key`: down
/// (or `j`, `s`) and up (or `k`, `w`) move the highlight, wrapping round,
/// enter chooses the highlighted tier, `q` or ctrl-c or ctrl-d quits, and
/// any other key leaves the highlight where it is.
pub fn menu_step(index: usize, key: KeyPress) -> (r: MenuStep)
    requires
        index < MENU_LEN,
    ensures
        r == match key {
            KeyPress::Down | KeyPress::Char('j') | KeyPress::Char('s') => MenuStep::Highlight(
                ((index + 1) % 5) as usize,
            ),
            KeyPress::Up | KeyPress::Char('k') | KeyPress::Char('w') => MenuStep::Highlight(
                ((index + 4) % 5) as usize,
            ),
            KeyPress::Char('\n') => MenuStep::Choose(menu_entry(index as int)),
            KeyPress::Char('q') | KeyPress::Ctrl('c') | KeyPress::Ctrl('d') => MenuStep::Quit,
            _ => MenuStep::Highlight(index),
        },
{
    match key {
        KeyPress::Char('q') | KeyPress::Ctrl('c') | KeyPress::Ctrl('d') => MenuStep::Quit,
        KeyPress::Down | KeyPress::Char('j') | KeyPress::Char('s') => MenuStep::Highlight(
            (index + 1) % MENU_LEN,
        ),
        KeyPress::Up | KeyPress::Char('k') | KeyPress::Char('w') => MenuStep::Highlight(
            if index > 0 {
                index - 1
            } else {
                MENU_LEN - 1
            },
        ),
        KeyPress::Char('\n') => MenuStep::Choose(
            if index == 0 {
                Difficulty::VeryEasy
            } else if index == 1 {
                Difficulty::Easy
            } else if index == 2 {
                Difficulty::Medium
            } else if index == 3 {
                Difficulty::Hard
            } else {
                Difficulty::Fiendish
            },
        ),
        _ => MenuStep::Highlight(index),
    }
}

} // verus!
