use vstd::prelude::*;

use crate::csv::csv_scan;
use crate::square::Square;
use crate::state::{is_digit_permutation, Direction, GridState};

verus! {

/// What a [`Grid`] holds, as values: the live board, the earlier boards
/// (oldest first) and the boards that were undone (last undone at the end).
pub struct GridHistory {
    pub state: GridState,
    pub past: Seq<GridState>,
    pub future: Seq<GridState>,
}

impl GridHistory {
    /// Every board in the history is well formed.
    pub open spec fn wf(self) -> bool {
        &&& self.state.wf()
        &&& forall|k: int| 0 <= k < self.past.len() ==> (#[trigger] self.past[k]).wf()
        &&& forall|k: int| 0 <= k < self.future.len() ==> (#[trigger] self.future[k]).wf()
    }

    /// An edit that leaves `next` as the live board: the old board is kept
    /// for undo, and whatever could be redone is dropped.
    pub open spec fn record(self, next: GridState) -> GridHistory {
        GridHistory { state: next, past: self.past.push(self.state), future: Seq::empty() }
    }

    /// Back to the board before the last edit, if there is one.
    pub open spec fn undo(self) -> GridHistory {
        if self.past.len() > 0 {
            GridHistory {
                state: self.past.last(),
                past: self.past.drop_last(),
                future: self.future.push(self.state),
            }
        } else {
            self
        }
    }

    /// Forward to the board that the last undo left, if there is one.
    pub open spec fn redo(self) -> GridHistory {
        if self.future.len() > 0 {
            GridHistory {
                state: self.future.last(),
                past: self.past.push(self.state),
                future: self.future.drop_last(),
            }
        } else {
            self
        }
    }
}

/// The history after a series of edits that leave `boards[0]`, `boards[1]`,
/// ... as the live board in turn.
pub open spec fn apply_edits(h: GridHistory, boards: Seq<GridState>) -> GridHistory
    decreases boards.len(),
{
    if boards.len() == 0 {
        h
    } else {
        apply_edits(h.record(boards[0]), boards.skip(1))
    }
}

/// The history after `n` undos.
pub open spec fn undo_times(h: GridHistory, n: nat) -> GridHistory
    decreases n,
{
    if n == 0 {
        h
    } else {
        undo_times(h.undo(), (n - 1) as nat)
    }
}

/// The history after `n` redos.
pub open spec fn redo_times(h: GridHistory, n: nat) -> GridHistory
    decreases n,
{
    if n == 0 {
        h
    } else {
        redo_times(h.redo(), (n - 1) as nat)
    }
}

/// The boards of `s`, last first.
pub open spec fn reversed(s: Seq<GridState>) -> Seq<GridState> {
    Seq::new(s.len(), |i: int| s[s.len() - 1 - i])
}

/// One more edit at the end of a series is one more `record`.
proof fn lemma_apply_edits_push(h: GridHistory, boards: Seq<GridState>, next: GridState)
    ensures
        apply_edits(h, boards.push(next)) == apply_edits(h, boards).record(next),
    decreases boards.len(),
{
    let longer = boards.push(next);
    assert(longer[0] == if boards.len() == 0 { next } else { boards[0] });
    if boards.len() == 0 {
        assert(longer.skip(1) =~= Seq::<GridState>::empty());
        assert(apply_edits(h.record(next), longer.skip(1)) == h.record(next));
    } else {
        assert(longer.skip(1) =~= boards.skip(1).push(next));
        lemma_apply_edits_push(h.record(boards[0]), boards.skip(1), next);
    }
}

/// Undoing a series of edits walks back to the board before them, and the
/// boards that were undone pile up, last first, behind what was there.
proof fn lemma_undo_series(h: GridHistory, boards: Seq<GridState>, f: Seq<GridState>)
    requires
        boards.len() > 0,
    ensures
        undo_times(
            GridHistory {
                state: apply_edits(h, boards).state,
                past: apply_edits(h, boards).past,
                future: f,
            },
            boards.len(),
        ) == (GridHistory { state: h.state, past: h.past, future: f + reversed(boards) }),
    decreases boards.len(),
{
    let rest = boards.drop_last();
    let last = boards.last();
    assert(rest.push(last) =~= boards);
    lemma_apply_edits_push(h, rest, last);
    let before = apply_edits(h, rest);
    let start = GridHistory { state: last, past: before.past.push(before.state), future: f };
    assert(start.undo() == (GridHistory { state: before.state, past: before.past, future: f.push(last) })) by {
        assert(start.past.drop_last() =~= before.past);
    }
    assert(undo_times(start, boards.len()) == undo_times(start.undo(), (boards.len() - 1) as nat));
    if rest.len() == 0 {
        assert(before == h);
        assert(f + reversed(boards) =~= f.push(last));
    } else {
        lemma_undo_series(h, rest, f.push(last));
        assert(f.push(last) + reversed(rest) =~= f + reversed(boards));
    }
}

/// Redoing boards that lie, last first, at the end of what could be redone
/// walks forward through them as a series of edits would.
proof fn lemma_redo_series(h: GridHistory, boards: Seq<GridState>, g: Seq<GridState>)
    ensures
        redo_times(GridHistory { state: h.state, past: h.past, future: g + reversed(boards) }, boards.len())
            == (GridHistory {
            state: apply_edits(h, boards).state,
            past: apply_edits(h, boards).past,
            future: g,
        }),
    decreases boards.len(),
{
    let start = GridHistory { state: h.state, past: h.past, future: g + reversed(boards) };
    if boards.len() == 0 {
        assert(g + reversed(boards) =~= g);
    } else {
        let next = h.record(boards[0]);
        assert((g + reversed(boards)).last() == boards[0]);
        assert((g + reversed(boards)).drop_last() =~= g + reversed(boards.skip(1)));
        assert(start.redo() == (GridHistory { state: next.state, past: next.past, future: g + reversed(boards.skip(1)) }));
        lemma_redo_series(next, boards.skip(1), g);
    }
}

/// Undo and redo over a series of edits: undoing each edit gives back the
/// board and the history from before the series, and redoing each then
/// gives back the history that the series had made.
pub proof fn lemma_undo_redo_series(h: GridHistory, boards: Seq<GridState>)
    ensures
        undo_times(apply_edits(h, boards), boards.len()).state == h.state,
        undo_times(apply_edits(h, boards), boards.len()).past == h.past,
        redo_times(undo_times(apply_edits(h, boards), boards.len()), boards.len()) == apply_edits(h, boards),
{
    if boards.len() > 0 {
        let rest = boards.drop_last();
        assert(rest.push(boards.last()) =~= boards);
        lemma_apply_edits_push(h, rest, boards.last());
        let after = apply_edits(h, boards);
        assert(after == GridHistory { state: after.state, past: after.past, future: Seq::empty() });
        lemma_undo_series(h, boards, Seq::empty());
        assert(Seq::<GridState>::empty() + reversed(boards) =~= reversed(boards));
        lemma_redo_series(h, boards, Seq::empty());
    }
}

/// The histories a grid goes through under a series of edits are those of
/// `apply_edits` on the boards the edits leave.
proof fn lemma_history_is_series(hs: Seq<GridHistory>, boards: Seq<GridState>, m: int)
    requires
        hs.len() >= 1,
        forall|k: int| 0 <= k < hs.len() - 1 ==> #[trigger] hs[k + 1] == hs[k].record(hs[k + 1].state),
        boards == Seq::new((hs.len() - 1) as nat, |k: int| hs[k + 1].state),
        0 <= m < hs.len(),
    ensures
        hs[m] == apply_edits(hs[0], boards.take(m)),
    decreases m,
{
    if m == 0 {
        assert(boards.take(0) =~= Seq::<GridState>::empty());
    } else {
        lemma_history_is_series(hs, boards, m - 1);
        assert(boards.take(m - 1).push(boards[m - 1]) =~= boards.take(m));
        lemma_apply_edits_push(hs[0], boards.take(m - 1), boards[m - 1]);
        assert(hs[(m - 1) + 1] == hs[m - 1].record(hs[(m - 1) + 1].state));
    }
}

/// Undo and redo on a grid: take the histories `hs[0]`, `hs[1]`, ... that a
/// series of edits goes through (each edit records, as the editing methods
/// of [`Grid`] ensure). Undoing once per edit gives back the first board and
/// its earlier history; redoing once per edit after that gives back the last
/// history.
pub proof fn lemma_undo_redo_edits(hs: Seq<GridHistory>)
    requires
        hs.len() >= 1,
        forall|k: int| 0 <= k < hs.len() - 1 ==> #[trigger] hs[k + 1] == hs[k].record(hs[k + 1].state),
    ensures
        undo_times(hs.last(), (hs.len() - 1) as nat).state == hs[0].state,
        undo_times(hs.last(), (hs.len() - 1) as nat).past == hs[0].past,
        redo_times(undo_times(hs.last(), (hs.len() - 1) as nat), (hs.len() - 1) as nat) == hs.last(),
{
    let n = (hs.len() - 1) as nat;
    let boards = Seq::new(n, |k: int| hs[k + 1].state);
    lemma_history_is_series(hs, boards, n as int);
    assert(boards.take(n as int) =~= boards);
    lemma_undo_redo_series(hs[0], boards);
}

/// An edit drops whatever could be redone: any number of redos after it
/// changes nothing.
pub proof fn lemma_edit_drops_redo(h: GridHistory, next: GridState, n: nat)
    ensures
        redo_times(h.record(next), n) == h.record(next),
    decreases n,
{
    if n > 0 {
        lemma_edit_drops_redo(h, next, (n - 1) as nat);
    }
}

/// A board with linear undo and redo of its edits.
#[derive(Debug)]
pub struct Grid {
    state: GridState,
    past: Vec<GridState>,
    future: Vec<GridState>,
}

impl View for Grid {
    type V = GridHistory;

    closed spec fn view(&self) -> GridHistory {
        GridHistory { state: self.state, past: self.past@, future: self.future@ }
    }
}

impl Grid {
    /// A grid with no history around `state`.
    pub fn from_state(state: GridState) -> (r: Grid)
        requires
            state.wf(),
        ensures
            r@.wf(),
            r@.state == state,
            r@.past.len() == 0,
            r@.future.len() == 0,
    {
        Grid { state, past: Vec::new(), future: Vec::new() }
    }

    pub fn new(values: [[u8; 9]; 9]) -> (r: Grid)
        requires
            forall|i: int, j: int| 0 <= i < 9 && 0 <= j < 9 ==> #[trigger] values[i][j] <= 9,
        ensures
            r@.wf(),
            r@.state.cursor() == (0usize, 0usize),
            forall|i: int, j: int|
                0 <= i < 9 && 0 <= j < 9 ==> #[trigger] r@.state.at(i, j) == Square::of_clue(
                    values[i][j] as int,
                ),
            r@.past.len() == 0,
            r@.future.len() == 0,
    {
        Grid::from_state(GridState::new(values))
    }

    pub fn from_csv(csv: &str) -> (r: Grid)
        requires
            csv_scan(csv@).ok,
        ensures
            r@.wf(),
            r@.state.is_read_from(csv@),
            r@.past.len() == 0,
            r@.future.len() == 0,
    {
        Grid::from_state(GridState::from_csv(csv))
    }

    /// The live board.
    pub fn state(&self) -> (r: GridState)
        ensures
            r == self@.state,
    {
        self.state
    }

    /// The cursor's (row, column).
    pub fn current(&self) -> (r: (usize, usize))
        ensures
            r == self@.state.cursor(),
    {
        self.state.current()
    }

    /// Keeps the live board for undo and drops what could be redone.
    fn save(&mut self)
        requires
            old(self)@.wf(),
        ensures
            final(self)@ == (GridHistory {
                state: old(self)@.state,
                past: old(self)@.past.push(old(self)@.state),
                future: Seq::empty(),
            }),
            final(self)@.wf(),
    {
        self.past.push(self.state);
        self.future = Vec::new();
        assert(self@.future =~= Seq::<GridState>::empty());
    }

    /// Moves the cursor; this is not an edit, so the history stays as it is.
    pub fn move_cursor(&mut self, dir: Direction)
        requires
            old(self)@.wf(),
        ensures
            final(self)@.wf(),
            final(self)@.state.is_moved(old(self)@.state, dir),
            final(self)@.past == old(self)@.past,
            final(self)@.future == old(self)@.future,
    {
        let ghost prev = self@;
        self.state.move_cursor(dir);
        assert(self@.past == prev.past && self@.future == prev.future);
    }

    pub fn update_current(&mut self, d: usize)
        requires
            old(self)@.wf(),
            d <= 9,
        ensures
            final(self)@.wf(),
            final(self)@ == old(self)@.record(final(self)@.state),
            final(self)@.state.is_entry(old(self)@.state, d),
    {
        self.save();
        self.state.update_current(d);
    }

    pub fn freeze(&mut self)
        requires
            old(self)@.wf(),
        ensures
            final(self)@.wf(),
            final(self)@ == old(self)@.record(final(self)@.state),
            final(self)@.state.is_frozen(old(self)@.state),
    {
        self.save();
        self.state.freeze();
    }

    pub fn permute(&mut self, permutation: &[u8])
        requires
            old(self)@.wf(),
            is_digit_permutation(permutation@),
        ensures
            final(self)@.wf(),
            final(self)@ == old(self)@.record(final(self)@.state),
            final(self)@.state.is_permuted(old(self)@.state, permutation@),
    {
        self.save();
        self.state.permute(permutation);
    }

    pub fn flip_horizontally(&mut self)
        requires
            old(self)@.wf(),
        ensures
            final(self)@.wf(),
            final(self)@ == old(self)@.record(final(self)@.state),
            final(self)@.state.is_flipped_horizontally(old(self)@.state),
    {
        self.save();
        self.state.flip_horizontally();
    }

    pub fn flip_vertically(&mut self)
        requires
            old(self)@.wf(),
        ensures
            final(self)@.wf(),
            final(self)@ == old(self)@.record(final(self)@.state),
            final(self)@.state.is_flipped_vertically(old(self)@.state),
    {
        self.save();
        self.state.flip_vertically();
    }

    pub fn remove_filled(&mut self)
        requires
            old(self)@.wf(),
        ensures
            final(self)@.wf(),
            final(self)@ == old(self)@.record(final(self)@.state),
            final(self)@.state.is_cleared(old(self)@.state),
    {
        self.save();
        self.state.remove_filled();
    }

    pub fn undo(&mut self)
        requires
            old(self)@.wf(),
        ensures
            final(self)@.wf(),
            final(self)@ == old(self)@.undo(),
    {
        let ghost prev = self@;
        if let Some(state) = self.past.pop() {
            self.future.push(self.state);
            self.state = state;
            assert(self@.future[self@.future.len() - 1] == prev.state);
            assert(self@.past =~= prev.past.drop_last());
            assert(self@.future =~= prev.future.push(prev.state));
            assert forall|k: int| 0 <= k < self@.future.len() implies (#[trigger] self@.future[k]).wf() by {
                if k < prev.future.len() {
                    assert(self@.future[k] == prev.future[k]);
                }
            }
            assert(self@.state == prev.past[prev.past.len() - 1]);
        }
    }

    pub fn redo(&mut self)
        requires
            old(self)@.wf(),
        ensures
            final(self)@.wf(),
            final(self)@ == old(self)@.redo(),
    {
        let ghost prev = self@;
        if let Some(state) = self.future.pop() {
            self.past.push(self.state);
            self.state = state;
            assert(self@.past[self@.past.len() - 1] == prev.state);
            assert(self@.future =~= prev.future.drop_last());
            assert(self@.past =~= prev.past.push(prev.state));
            assert forall|k: int| 0 <= k < self@.past.len() implies (#[trigger] self@.past[k]).wf() by {
                if k < prev.past.len() {
                    assert(self@.past[k] == prev.past[k]);
                }
            }
            assert(self@.state == prev.future[prev.future.len() - 1]);
        }
    }

    pub fn row(&self, row: usize) -> (r: Vec<Square>)
        requires
            row < 9,
        ensures
            r@.len() == 9,
            forall|k: int| 0 <= k < 9 ==> #[trigger] r@[k] == self@.state.at(row as int, k),
    {
        self.state.row(row)
    }

    pub fn col(&self, col: usize) -> (r: Vec<Square>)
        requires
            col < 9,
        ensures
            r@.len() == 9,
            forall|k: int| 0 <= k < 9 ==> #[trigger] r@[k] == self@.state.at(k, col as int),
    {
        self.state.col(col)
    }

    /// The 3×3 block at block-row `y` and block-column `x`, read row by row.
    pub fn block(&self, y: usize, x: usize) -> (r: Vec<Square>)
        requires
            y < 3,
            x < 3,
        ensures
            r@.len() == 9,
            forall|k: int| 0 <= k < 9 ==> #[trigger] r@[k] == self@.state.at(3 * y + k / 3, 3 * x + k % 3),
    {
        self.state.block(y, x)
    }

    pub fn is_solved(&self) -> (r: bool)
        ensures
            r == (self@.state.is_full() && self@.state.has_no_conflicts()),
    {
        self.state.is_solved()
    }

    /// The cells that break a rule, each once, in row-major order.
    pub fn find_invalid_squares(&self) -> (r: Vec<(usize, usize)>)
        ensures
            forall|e: (usize, usize)| #[trigger] r@.contains(e) ==> e.0 < 9 && e.1 < 9,
            forall|i: int, j: int|
                0 <= i < 9 && 0 <= j < 9 ==> (r@.contains((i as usize, j as usize))
                    <==> #[trigger] self@.state.conflicted(i, j)),
            r@.no_duplicates(),
            forall|a: int, b: int|
                0 <= a < b < r@.len() ==> (r@[a].0 < r@[b].0 || (r@[a].0 == r@[b].0 && r@[a].1 < r@[b].1)),
    {
        self.state.find_invalid_squares()
    }
}

} // verus!
