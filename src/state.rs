use vstd::prelude::*;

use crate::csv::{csv_scan, csv_step, digit_of, is_digit_char, lemma_scan_shape, scan_shape, scan_values};
use crate::square::Square;

verus! {

/// A direction in which the cursor moves by one cell.
#[derive(Debug, Clone, Copy, PartialEq, Eq, Structural)]
pub enum Direction {
    Right,
    Left,
    Up,
    Down,
}

impl Direction {
    /// The step as (row, column) offsets, each taken modulo 9; 8 stands for -1.
    pub open spec fn offsets(self) -> (usize, usize) {
        match self {
            Direction::Right => (0, 1),
            Direction::Left => (0, 8),
            Direction::Up => (8, 0),
            Direction::Down => (1, 0),
        }
    }

    pub fn coords(self) -> (r: (usize, usize))
        ensures
            r == self.offsets(),
    {
        match self {
            Direction::Right => (0, 1),
            Direction::Left => (0, 8),
            Direction::Up => (8, 0),
            Direction::Down => (1, 0),
        }
    }
}

/// One coordinate after a step of `delta` (0, 1 or 8), wrapping round at 9.
pub open spec fn wrap_step(c: int, delta: int) -> int {
    (c + delta) % 9
}

/// `p` lists the images of the digits 1 to 9: nine digits, no two alike.
pub open spec fn is_digit_permutation(p: Seq<u8>) -> bool {
    &&& p.len() == 9
    &&& forall|k: int| 0 <= k < 9 ==> 1 <= #[trigger] p[k] <= 9
    &&& forall|k1: int, k2: int| 0 <= k1 < 9 && 0 <= k2 < 9 && p[k1] == p[k2] ==> k1 == k2
}

/// Cells (i, j) and (k, l) are distinct and share a row, a column or a 3×3 block.
pub open spec fn are_peers(i: int, j: int, k: int, l: int) -> bool {
    &&& (k != i || l != j)
    &&& (k == i || l == j || (k / 3 == i / 3 && l / 3 == j / 3))
}

/// The largest multiple of `a` that is at most `b`.
fn prev_multiple(a: usize, b: usize) -> (r: usize)
    requires
        a > 0,
    ensures
        r == b - b % a,
{
    assert(b % a <= b) by (nonlinear_arith)
        requires
            a > 0,
    ;
    b - (b % a)
}

/// The smallest multiple of `a` that is greater than `b`.
fn next_multiple(a: usize, b: usize) -> (r: usize)
    requires
        a > 0,
        b + a <= usize::MAX,
    ensures
        r == b + a - b % a,
{
    b + a - (b % a)
}

/// A 9×9 board of cells with the cursor's (row, column).
#[derive(Debug, Clone, Copy)]
pub struct GridState {
    squares: [[Square; 9]; 9],
    current: (usize, usize),
}

impl GridState {
    /// The cell at row `i`, column `j`.
    pub closed spec fn at(self, i: int, j: int) -> Square {
        self.squares[i][j]
    }

    /// The cursor's (row, column).
    pub closed spec fn cursor(self) -> (usize, usize) {
        self.current
    }

    pub fn current(&self) -> (r: (usize, usize))
        ensures
            r == self.cursor(),
    {
        self.current
    }

    /// Every cell holds a digit or nothing, and the cursor is on the board.
    pub open spec fn wf(self) -> bool {
        &&& self.cursor().0 < 9
        &&& self.cursor().1 < 9
        &&& forall|i: int, j: int| 0 <= i < 9 && 0 <= j < 9 ==> (#[trigger] self.at(i, j)).wf()
    }

    /// The cursor cell.
    pub open spec fn cursor_cell(self) -> Square {
        self.at(self.cursor().0 as int, self.cursor().1 as int)
    }

    pub fn new(values: [[u8; 9]; 9]) -> (r: GridState)
        requires
            forall|i: int, j: int| 0 <= i < 9 && 0 <= j < 9 ==> #[trigger] values[i][j] <= 9,
        ensures
            r.wf(),
            r.cursor() == (0usize, 0usize),
            forall|i: int, j: int|
                0 <= i < 9 && 0 <= j < 9 ==> #[trigger] r.at(i, j) == Square::of_clue(
                    values[i][j] as int,
                ),
    {
        let mut squares = [[Square::Empty; 9]; 9];
        let mut i: usize = 0;
        while i < 9
            invariant
                i <= 9,
                forall|i: int, j: int| 0 <= i < 9 && 0 <= j < 9 ==> #[trigger] values[i][j] <= 9,
                forall|a: int, b: int|
                    0 <= a < i && 0 <= b < 9 ==> #[trigger] squares[a][b] == Square::of_clue(
                        values[a][b] as int,
                    ),
                forall|a: int, b: int|
                    i <= a < 9 && 0 <= b < 9 ==> #[trigger] squares[a][b] == Square::Empty,
            decreases 9 - i,
        {
            let mut row = squares[i];
            let mut j: usize = 0;
            while j < 9
                invariant
                    i < 9,
                    j <= 9,
                    forall|i: int, j: int| 0 <= i < 9 && 0 <= j < 9 ==> #[trigger] values[i][j] <= 9,
                    forall|b: int| 0 <= b < j ==> #[trigger] row[b] == Square::of_clue(values[i as int][b] as int),
                decreases 9 - j,
            {
                if values[i][j] == 0 {
                    row[j] = Square::Empty;
                } else {
                    row[j] = Square::initial(values[i][j]);
                }
                j += 1;
            }
            squares[i] = row;
            i += 1;
        }
        GridState { squares, current: (0, 0) }
    }

    /// `self` is a fresh board, cursor at the origin, whose clues are the
    /// values read from the text `t`.
    pub open spec fn is_read_from(self, t: Seq<char>) -> bool {
        &&& self.wf()
        &&& self.cursor() == (0usize, 0usize)
        &&& forall|i: int, j: int|
            0 <= i < 9 && 0 <= j < 9 ==> #[trigger] self.at(i, j) == Square::of_clue(
                csv_scan(t).values[i][j] as int,
            )
    }

    /// The board that a puzzle text describes: nine lines of nine
    /// comma-separated digits, 0 for a blank. `None` where the text holds
    /// anything else, or a digit off the board.
    pub fn try_from_csv(csv: &str) -> (r: Option<GridState>)
        ensures
            r is Some <==> csv_scan(csv@).ok,
            r matches Some(g) ==> g.is_read_from(csv@),
    {
        proof {
            lemma_scan_shape(csv@);
        }
        match scan_values(csv) {
            Some(values) => Some(GridState::new(values)),
            None => None,
        }
    }

    pub fn from_csv(csv: &str) -> (r: GridState)
        requires
            csv_scan(csv@).ok,
        ensures
            r.is_read_from(csv@),
    {
        GridState::try_from_csv(csv).unwrap()
    }

    /// `c` is what stands at place `x` of the board's text, where each row
    /// takes 18 characters: its nine digits at the even places (0 for a
    /// blank), commas between them, and a newline at the end.
    pub open spec fn csv_char_ok(self, c: char, x: int) -> bool {
        let (i, q) = (x / 18, x % 18);
        if q == 17 {
            c == '\n'
        } else if q % 2 == 1 {
            c == ','
        } else {
            is_digit_char(c) && digit_of(c) as int == self.at(i, q / 2).val()
        }
    }

    /// The board as a puzzle text: nine lines of nine comma-separated
    /// digits, 0 for a blank, each line ended by a newline.
    pub fn to_csv(&self) -> (r: String)
        requires
            self.wf(),
        ensures
            r@.len() == 162,
            forall|x: int| 0 <= x < 162 ==> self.csv_char_ok(#[trigger] r@[x], x),
            csv_scan(r@).ok,
            forall|i: int, j: int|
                0 <= i < 9 && 0 <= j < 9 ==> #[trigger] csv_scan(r@).values[i][j] as int == self.at(i, j).val(),
    {
        let mut out = String::new();
        proof {
            assert(out@ =~= Seq::<char>::empty());
            lemma_scan_shape(out@);
        }
        let mut i: usize = 0;
        while i < 9
            invariant
                self.wf(),
                i <= 9,
                csv_scan(out@).ok,
                csv_scan(out@).row == i,
                csv_scan(out@).col == 0,
                scan_shape(csv_scan(out@)),
                out@.len() == 18 * i,
                forall|x: int| 0 <= x < out@.len() ==> self.csv_char_ok(#[trigger] out@[x], x),
                forall|a: int, b: int|
                    0 <= a < 9 && 0 <= b < 9 ==> #[trigger] csv_scan(out@).values[a][b] as int == if a < i {
                        self.at(a, b).val()
                    } else {
                        0
                    },
            decreases 9 - i,
        {
            let mut j: usize = 0;
            while j < 9
                invariant
                    self.wf(),
                    i < 9,
                    j <= 9,
                    csv_scan(out@).ok,
                    csv_scan(out@).row == i,
                    csv_scan(out@).col == if j == 0 { 0 } else { j - 1 },
                    scan_shape(csv_scan(out@)),
                    out@.len() == 18 * i + if j == 0 { 0 } else { 2 * j - 1 },
                    forall|x: int| 0 <= x < out@.len() ==> self.csv_char_ok(#[trigger] out@[x], x),
                    forall|a: int, b: int|
                        0 <= a < 9 && 0 <= b < 9 ==> #[trigger] csv_scan(out@).values[a][b] as int == if a < i || (a
                            == i && b < j) {
                            self.at(a, b).val()
                        } else {
                            0
                        },
                decreases 9 - j,
            {
                if j > 0 {
                    let ghost before = out@;
                    out.append(",");
                    proof {
                        reveal_strlit(",");
                        assert(out@.drop_last() =~= before);
                        lemma_scan_shape(out@);
                        assert forall|x: int| 0 <= x < out@.len() implies self.csv_char_ok(#[trigger] out@[x], x) by {
                            if x < before.len() {
                                assert(out@[x] == before[x]);
                            } else {
                                assert(x == 18 * i + 2 * j - 1);
                                assert(x / 18 == i && x % 18 == 2 * j - 1);
                            }
                        }
                    }
                }
                let ghost before = out@;
                let ghost scan_before = csv_scan(before);
                assert(self.at(i as int, j as int).wf());
                let digit = digit_text(self.squares[i][j].value());
                out.append(digit);
                proof {
                    assert(out@.drop_last() =~= before);
                    assert(out@.last() == digit@[0]);
                    lemma_scan_shape(out@);
                    assert forall|x: int| 0 <= x < out@.len() implies self.csv_char_ok(#[trigger] out@[x], x) by {
                        if x < before.len() {
                            assert(out@[x] == before[x]);
                        } else {
                            assert(x == 18 * i + 2 * j);
                            assert(x / 18 == i && x % 18 == 2 * j);
                        }
                    }
                    let after = csv_scan(out@);
                    assert(after == csv_step(scan_before, digit@[0]));
                    assert forall|a: int, b: int| 0 <= a < 9 && 0 <= b < 9 implies #[trigger] after.values[a][b] as int
                        == if a < i || (a == i && b < j + 1) {
                        self.at(a, b).val()
                    } else {
                        0
                    } by {
                        assert(scan_before.values[a][b] as int == if a < i || (a == i && b < j) {
                            self.at(a, b).val()
                        } else {
                            0
                        });
                    }
                }
                j += 1;
            }
            let ghost before = out@;
            out.append("\n");
            proof {
                reveal_strlit("\n");
                assert(out@.drop_last() =~= before);
                lemma_scan_shape(out@);
                assert forall|x: int| 0 <= x < out@.len() implies self.csv_char_ok(#[trigger] out@[x], x) by {
                    if x < before.len() {
                        assert(out@[x] == before[x]);
                    } else {
                        assert(x == 18 * i + 17);
                        assert(x / 18 == i && x % 18 == 17);
                    }
                }
            }
            i += 1;
        }
        out
    }

    /// Same cells in every position.
    pub open spec fn same_cells(self, other: GridState) -> bool {
        forall|i: int, j: int| 0 <= i < 9 && 0 <= j < 9 ==> #[trigger] self.at(i, j) == other.at(i, j)
    }

    /// `self` is `prev` with the cursor moved one step in `dir`.
    pub open spec fn is_moved(self, prev: GridState, dir: Direction) -> bool {
        &&& self.same_cells(prev)
        &&& self.cursor().0 as int == wrap_step(prev.cursor().0 as int, dir.offsets().0 as int)
        &&& self.cursor().1 as int == wrap_step(prev.cursor().1 as int, dir.offsets().1 as int)
    }

    /// `self` is `prev` with the player's digit `d` written under the cursor,
    /// unless that cell is a clue.
    pub open spec fn is_entry(self, prev: GridState, d: usize) -> bool {
        let (ci, cj) = (prev.cursor().0 as int, prev.cursor().1 as int);
        &&& self.cursor() == prev.cursor()
        &&& forall|i: int, j: int|
            0 <= i < 9 && 0 <= j < 9 ==> #[trigger] self.at(i, j) == if i == ci && j == cj
                && !(prev.at(i, j) is Initial) {
                Square::of_entry(d as u8)
            } else {
                prev.at(i, j)
            }
    }

    /// `self` is `prev` with every non-empty cell made a clue of the same value.
    pub open spec fn is_frozen(self, prev: GridState) -> bool {
        &&& self.cursor() == prev.cursor()
        &&& forall|i: int, j: int|
            0 <= i < 9 && 0 <= j < 9 ==> #[trigger] self.at(i, j) == if prev.at(i, j) is Empty {
                Square::Empty
            } else {
                Square::Initial(prev.at(i, j).val() as u8)
            }
    }

    /// `self` is `prev` with every player entry cleared and the clues kept.
    pub open spec fn is_cleared(self, prev: GridState) -> bool {
        &&& self.cursor() == prev.cursor()
        &&& forall|i: int, j: int|
            0 <= i < 9 && 0 <= j < 9 ==> #[trigger] self.at(i, j) == if prev.at(i, j) is Initial {
                prev.at(i, j)
            } else {
                Square::Empty
            }
    }

    /// `self` is `prev` with each row reversed.
    pub open spec fn is_flipped_horizontally(self, prev: GridState) -> bool {
        &&& self.cursor() == prev.cursor()
        &&& forall|i: int, j: int| 0 <= i < 9 && 0 <= j < 9 ==> #[trigger] self.at(i, j) == prev.at(i, 8 - j)
    }

    /// `self` is `prev` with the order of the rows reversed.
    pub open spec fn is_flipped_vertically(self, prev: GridState) -> bool {
        &&& self.cursor() == prev.cursor()
        &&& forall|i: int, j: int| 0 <= i < 9 && 0 <= j < 9 ==> #[trigger] self.at(i, j) == prev.at(8 - i, j)
    }

    /// `self` is `prev` with every digit renamed through `p`.
    pub open spec fn is_permuted(self, prev: GridState, p: Seq<u8>) -> bool {
        &&& self.cursor() == prev.cursor()
        &&& forall|i: int, j: int| 0 <= i < 9 && 0 <= j < 9 ==> #[trigger] self.at(i, j) == prev.at(i, j).relabeled(p)
    }

    /// `self` is `base` with its digits renamed through `p`, then each row
    /// reversed if `flip_h`, then the order of the rows reversed if `flip_v`.
    pub open spec fn is_transform_of(self, base: GridState, p: Seq<u8>, flip_h: bool, flip_v: bool) -> bool {
        &&& self.cursor() == base.cursor()
        &&& forall|i: int, j: int|
            0 <= i < 9 && 0 <= j < 9 ==> #[trigger] self.at(i, j) == base.at(
                if flip_v { 8 - i } else { i },
                if flip_h { 8 - j } else { j },
            ).relabeled(p)
    }

    pub fn move_cursor(&mut self, dir: Direction)
        requires
            old(self).wf(),
        ensures
            final(self).wf(),
            final(self).is_moved(*old(self), dir),
    {
        let ghost prev = *self;
        let (i, j) = dir.coords();
        let (ci, cj) = self.current;
        self.current = ((ci + i) % 9, (cj + j) % 9);
        assert forall|a: int, b: int| 0 <= a < 9 && 0 <= b < 9 implies (#[trigger] self.at(a, b)).wf() by {
            assert(self.at(a, b) == prev.at(a, b));
        }
    }

    pub fn update_current(&mut self, d: usize)
        requires
            old(self).wf(),
            d <= 9,
        ensures
            final(self).wf(),
            final(self).is_entry(*old(self), d),
    {
        let (i, j) = self.current;
        if !self.squares[i][j].is_initial() {
            self.set(i, j, Square::from_value(d as u8));
        }
    }

    /// Writes one cell, leaving the others and the cursor as they were.
    fn set(&mut self, i: usize, j: usize, sq: Square)
        requires
            i < 9,
            j < 9,
        ensures
            final(self).cursor() == old(self).cursor(),
            final(self).at(i as int, j as int) == sq,
            forall|a: int, b: int|
                0 <= a < 9 && 0 <= b < 9 && (a != i || b != j) ==> #[trigger] final(self).at(a, b) == old(
                    self,
                ).at(a, b),
    {
        let ghost prev = *self;
        let mut row = self.squares[i];
        row[j] = sq;
        self.squares[i] = row;
        assert forall|a: int, b: int|
            0 <= a < 9 && 0 <= b < 9 && (a != i || b != j) implies #[trigger] self.at(a, b) == prev.at(a, b) by {
            if a != i {
                assert(self.squares@[a] == prev.squares@[a]);
            }
        }
    }

    pub fn freeze(&mut self)
        requires
            old(self).wf(),
        ensures
            final(self).wf(),
            final(self).is_frozen(*old(self)),
    {
        let ghost prev = *self;
        let mut i: usize = 0;
        while i < 9
            invariant
                i <= 9,
                prev.wf(),
                self.cursor() == prev.cursor(),
                forall|a: int, b: int|
                    0 <= a < 9 && 0 <= b < 9 ==> #[trigger] self.at(a, b) == if a < i && !(prev.at(a, b) is Empty) {
                        Square::Initial(prev.at(a, b).val() as u8)
                    } else {
                        prev.at(a, b)
                    },
            decreases 9 - i,
        {
            let mut j: usize = 0;
            while j < 9
                invariant
                    i < 9,
                    j <= 9,
                    prev.wf(),
                    self.cursor() == prev.cursor(),
                    forall|a: int, b: int|
                        0 <= a < 9 && 0 <= b < 9 ==> #[trigger] self.at(a, b) == if (a < i || (a == i && b < j))
                            && !(prev.at(a, b) is Empty) {
                            Square::Initial(prev.at(a, b).val() as u8)
                        } else {
                            prev.at(a, b)
                        },
                decreases 9 - j,
            {
                let sq = self.squares[i][j];
                assert(sq == self.at(i as int, j as int));
                if !sq.is_empty() {
                    assert(prev.at(i as int, j as int).wf());
                    self.set(i, j, Square::initial(sq.value()));
                }
                j += 1;
            }
            i += 1;
        }
        assert forall|i: int, j: int| 0 <= i < 9 && 0 <= j < 9 implies (#[trigger] self.at(i, j)).wf() by {
            assert(prev.at(i, j).wf());
        }
    }
    pub fn permute(&mut self, permutation: &[u8])
        requires
            old(self).wf(),
            is_digit_permutation(permutation@),
        ensures
            final(self).wf(),
            final(self).is_permuted(*old(self), permutation@),
    {
        let ghost prev = *self;
        let mut i: usize = 0;
        while i < 9
            invariant
                i <= 9,
                prev.wf(),
                is_digit_permutation(permutation@),
                self.cursor() == prev.cursor(),
                forall|a: int, b: int|
                    0 <= a < 9 && 0 <= b < 9 ==> #[trigger] self.at(a, b) == if a < i {
                        prev.at(a, b).relabeled(permutation@)
                    } else {
                        prev.at(a, b)
                    },
            decreases 9 - i,
        {
            let mut j: usize = 0;
            while j < 9
                invariant
                    i < 9,
                    j <= 9,
                    prev.wf(),
                    is_digit_permutation(permutation@),
                    self.cursor() == prev.cursor(),
                    forall|a: int, b: int|
                        0 <= a < 9 && 0 <= b < 9 ==> #[trigger] self.at(a, b) == if a < i || (a == i && b < j) {
                            prev.at(a, b).relabeled(permutation@)
                        } else {
                            prev.at(a, b)
                        },
                decreases 9 - j,
            {
                let sq = self.squares[i][j];
                assert(sq == self.at(i as int, j as int));
                assert(prev.at(i as int, j as int).wf());
                match sq {
                    Square::Initial(v) => {
                        self.set(i, j, Square::Initial(permutation[(v - 1) as usize]));
                    },
                    Square::Filled(v) => {
                        self.set(i, j, Square::Filled(permutation[(v - 1) as usize]));
                    },
                    Square::Empty => {},
                }
                j += 1;
            }
            i += 1;
        }
        assert forall|i: int, j: int| 0 <= i < 9 && 0 <= j < 9 implies (#[trigger] self.at(i, j)).wf() by {
            assert(prev.at(i, j).wf());
        }
    }

    pub fn flip_horizontally(&mut self)
        requires
            old(self).wf(),
        ensures
            final(self).wf(),
            final(self).is_flipped_horizontally(*old(self)),
    {
        let prev = *self;
        let mut i: usize = 0;
        while i < 9
            invariant
                i <= 9,
                prev.wf(),
                self.cursor() == prev.cursor(),
                forall|a: int, b: int|
                    0 <= a < 9 && 0 <= b < 9 ==> #[trigger] self.at(a, b) == if a < i {
                        prev.at(a, 8 - b)
                    } else {
                        prev.at(a, b)
                    },
            decreases 9 - i,
        {
            let mut j: usize = 0;
            while j < 9
                invariant
                    i < 9,
                    j <= 9,
                    prev.wf(),
                    self.cursor() == prev.cursor(),
                    forall|a: int, b: int|
                        0 <= a < 9 && 0 <= b < 9 ==> #[trigger] self.at(a, b) == if a < i || (a == i && b < j) {
                            prev.at(a, 8 - b)
                        } else {
                            prev.at(a, b)
                        },
                decreases 9 - j,
            {
                self.set(i, j, prev.squares[i][8 - j]);
                j += 1;
            }
            i += 1;
        }
        assert forall|i: int, j: int| 0 <= i < 9 && 0 <= j < 9 implies (#[trigger] self.at(i, j)).wf() by {
            assert(prev.at(i, 8 - j).wf());
        }
    }

    pub fn flip_vertically(&mut self)
        requires
            old(self).wf(),
        ensures
            final(self).wf(),
            final(self).is_flipped_vertically(*old(self)),
    {
        let prev = *self;
        let mut i: usize = 0;
        while i < 9
            invariant
                i <= 9,
                prev.wf(),
                self.cursor() == prev.cursor(),
                forall|a: int, b: int|
                    0 <= a < 9 && 0 <= b < 9 ==> #[trigger] self.at(a, b) == if a < i {
                        prev.at(8 - a, b)
                    } else {
                        prev.at(a, b)
                    },
            decreases 9 - i,
        {
            let mut j: usize = 0;
            while j < 9
                invariant
                    i < 9,
                    j <= 9,
                    prev.wf(),
                    self.cursor() == prev.cursor(),
                    forall|a: int, b: int|
                        0 <= a < 9 && 0 <= b < 9 ==> #[trigger] self.at(a, b) == if a < i || (a == i && b < j) {
                            prev.at(8 - a, b)
                        } else {
                            prev.at(a, b)
                        },
                decreases 9 - j,
            {
                self.set(i, j, prev.squares[8 - i][j]);
                j += 1;
            }
            i += 1;
        }
        assert forall|i: int, j: int| 0 <= i < 9 && 0 <= j < 9 implies (#[trigger] self.at(i, j)).wf() by {
            assert(prev.at(8 - i, j).wf());
        }
    }

    pub fn remove_filled(&mut self)
        requires
            old(self).wf(),
        ensures
            final(self).wf(),
            final(self).is_cleared(*old(self)),
    {
        let ghost prev = *self;
        let mut i: usize = 0;
        while i < 9
            invariant
                i <= 9,
                prev.wf(),
                self.cursor() == prev.cursor(),
                forall|a: int, b: int|
                    0 <= a < 9 && 0 <= b < 9 ==> #[trigger] self.at(a, b) == if a < i && !(prev.at(a, b) is Initial) {
                        Square::Empty
                    } else {
                        prev.at(a, b)
                    },
            decreases 9 - i,
        {
            let mut j: usize = 0;
            while j < 9
                invariant
                    i < 9,
                    j <= 9,
                    prev.wf(),
                    self.cursor() == prev.cursor(),
                    forall|a: int, b: int|
                        0 <= a < 9 && 0 <= b < 9 ==> #[trigger] self.at(a, b) == if (a < i || (a == i && b < j))
                            && !(prev.at(a, b) is Initial) {
                            Square::Empty
                        } else {
                            prev.at(a, b)
                        },
                decreases 9 - j,
            {
                assert(self.squares[i as int][j as int] == self.at(i as int, j as int));
                if !self.squares[i][j].is_initial() {
                    self.set(i, j, Square::Empty);
                }
                j += 1;
            }
            i += 1;
        }
        assert forall|i: int, j: int| 0 <= i < 9 && 0 <= j < 9 implies (#[trigger] self.at(i, j)).wf() by {
            assert(prev.at(i, j).wf());
        }
    }

    pub fn row(&self, row: usize) -> (r: Vec<Square>)
        requires
            row < 9,
        ensures
            r@.len() == 9,
            forall|k: int| 0 <= k < 9 ==> #[trigger] r@[k] == self.at(row as int, k),
    {
        let mut v: Vec<Square> = Vec::with_capacity(9);
        let mut j: usize = 0;
        while j < 9
            invariant
                row < 9,
                j <= 9,
                v@ == self.squares[row as int]@.take(j as int),
            decreases 9 - j,
        {
            v.push(self.squares[row][j]);
            j += 1;
            assert(v@ =~= self.squares[row as int]@.take(j as int));
        }
        assert(self.squares[row as int]@.take(9) =~= self.squares[row as int]@);
        v
    }

    pub fn col(&self, col: usize) -> (r: Vec<Square>)
        requires
            col < 9,
        ensures
            r@.len() == 9,
            forall|k: int| 0 <= k < 9 ==> #[trigger] r@[k] == self.at(k, col as int),
    {
        let mut v: Vec<Square> = Vec::with_capacity(9);
        let mut i: usize = 0;
        while i < 9
            invariant
                col < 9,
                i <= 9,
                v@.len() == i,
                forall|k: int| 0 <= k < i ==> #[trigger] v@[k] == self.at(k, col as int),
            decreases 9 - i,
        {
            v.push(self.squares[i][col]);
            i += 1;
        }
        v
    }

    /// The 3×3 block at block-row `y` and block-column `x`, read row by row.
    pub fn block(&self, y: usize, x: usize) -> (r: Vec<Square>)
        requires
            y < 3,
            x < 3,
        ensures
            r@.len() == 9,
            forall|k: int| 0 <= k < 9 ==> #[trigger] r@[k] == self.at(3 * y + k / 3, 3 * x + k % 3),
    {
        let mut v: Vec<Square> = Vec::with_capacity(9);
        let mut i: usize = y * 3;
        while i < (y + 1) * 3
            invariant
                y < 3,
                x < 3,
                3 * y <= i <= 3 * y + 3,
                v@.len() == 3 * (i - 3 * y),
                forall|k: int| 0 <= k < v@.len() ==> #[trigger] v@[k] == self.at(3 * y + k / 3, 3 * x + k % 3),
            decreases 3 * y + 3 - i,
        {
            let mut j: usize = x * 3;
            while j < (x + 1) * 3
                invariant
                    y < 3,
                    x < 3,
                    3 * y <= i < 3 * y + 3,
                    3 * x <= j <= 3 * x + 3,
                    v@.len() == 3 * (i - 3 * y) + (j - 3 * x),
                    forall|k: int| 0 <= k < v@.len() ==> #[trigger] v@[k] == self.at(3 * y + k / 3, 3 * x + k % 3),
                decreases 3 * x + 3 - j,
            {
                v.push(self.squares[i][j]);
                j += 1;
            }
            i += 1;
        }
        v
    }

    /// Cell (k, l) is a peer of (i, j) holding the same value.
    pub open spec fn is_twin(self, i: int, j: int, k: int, l: int) -> bool {
        are_peers(i, j, k, l) && self.at(k, l).val() == self.at(i, j).val()
    }

    /// Cell (i, j) holds a digit that one of its peers holds too.
    pub open spec fn conflicted(self, i: int, j: int) -> bool {
        &&& self.at(i, j).val() != 0
        &&& exists|k: int, l: int| 0 <= k < 9 && 0 <= l < 9 && #[trigger] self.is_twin(i, j, k, l)
    }

    /// No cell breaks a rule.
    pub open spec fn has_no_conflicts(self) -> bool {
        forall|i: int, j: int| 0 <= i < 9 && 0 <= j < 9 ==> !#[trigger] self.conflicted(i, j)
    }

    /// Every cell holds a digit.
    pub open spec fn is_full(self) -> bool {
        forall|i: int, j: int| 0 <= i < 9 && 0 <= j < 9 ==> !(#[trigger] self.at(i, j) is Empty)
    }

    /// Whether some peer of (i, j) holds the value of (i, j).
    fn has_twin(&self, i: usize, j: usize) -> (r: bool)
        requires
            i < 9,
            j < 9,
        ensures
            r == exists|k: int, l: int| 0 <= k < 9 && 0 <= l < 9 && #[trigger] self.is_twin(i as int, j as int, k, l),
    {
        let value = self.squares[i][j].value();
        let top = prev_multiple(3, i);
        let bottom = next_multiple(3, i);
        let left = prev_multiple(3, j);
        let right = next_multiple(3, j);
        assert(top == 3 * (i / 3) && bottom == top + 3);
        assert(left == 3 * (j / 3) && right == left + 3);
        let mut k: usize = 0;
        while k < 9
            invariant
                i < 9,
                j < 9,
                k <= 9,
                value as int == self.at(i as int, j as int).val(),
                top == 3 * (i / 3) && bottom == top + 3,
                left == 3 * (j / 3) && right == left + 3,
                forall|a: int, b: int| 0 <= a < k && 0 <= b < 9 ==> !#[trigger] self.is_twin(i as int, j as int, a, b),
            decreases 9 - k,
        {
            let mut l: usize = 0;
            while l < 9
                invariant
                    i < 9,
                    j < 9,
                    k < 9,
                    l <= 9,
                    value as int == self.at(i as int, j as int).val(),
                    top == 3 * (i / 3) && bottom == top + 3,
                    left == 3 * (j / 3) && right == left + 3,
                    forall|a: int, b: int|
                        0 <= a < 9 && 0 <= b < 9 && (a < k || (a == k && b < l)) ==> !#[trigger] self.is_twin(
                            i as int,
                            j as int,
                            a,
                            b,
                        ),
                decreases 9 - l,
            {
                let same_block = top <= k && k < bottom && left <= l && l < right;
                let peer = (k != i || l != j) && (k == i || l == j || same_block);
                assert(same_block == (k / 3 == i / 3 && l / 3 == j / 3));
                assert(peer == are_peers(i as int, j as int, k as int, l as int));
                if peer && self.squares[k][l].value() == value {
                    assert(self.is_twin(i as int, j as int, k as int, l as int));
                    return true;
                }
                l += 1;
            }
            k += 1;
        }
        false
    }

    /// The cells that break a rule, each once, in row-major order.
    pub fn find_invalid_squares(&self) -> (r: Vec<(usize, usize)>)
        ensures
            forall|e: (usize, usize)| #[trigger] r@.contains(e) ==> e.0 < 9 && e.1 < 9,
            forall|i: int, j: int|
                0 <= i < 9 && 0 <= j < 9 ==> (r@.contains((i as usize, j as usize)) <==> #[trigger] self.conflicted(i, j)),
            r@.no_duplicates(),
            forall|a: int, b: int|
                0 <= a < b < r@.len() ==> (r@[a].0 < r@[b].0 || (r@[a].0 == r@[b].0 && r@[a].1 < r@[b].1)),
    {
        let mut set: Vec<(usize, usize)> = Vec::new();
        let mut i: usize = 0;
        while i < 9
            invariant
                i <= 9,
                forall|e: (usize, usize)| #[trigger] set@.contains(e) ==> e.0 < i && e.1 < 9,
                forall|a: int, b: int|
                    0 <= a < i && 0 <= b < 9 ==> (set@.contains((a as usize, b as usize)) <==> #[trigger] self.conflicted(a, b)),
                set@.no_duplicates(),
                forall|a: int, b: int|
                    0 <= a < b < set@.len() ==> (set@[a].0 < set@[b].0 || (set@[a].0 == set@[b].0 && set@[a].1 < set@[b].1)),
            decreases 9 - i,
        {
            let mut j: usize = 0;
            while j < 9
                invariant
                    i < 9,
                    j <= 9,
                    forall|e: (usize, usize)| #[trigger] set@.contains(e) ==> (e.0 < i || (e.0 == i && e.1 < j)) && e.1 < 9,
                    forall|a: int, b: int|
                        0 <= a < 9 && 0 <= b < 9 && (a < i || (a == i && b < j)) ==> (set@.contains((a as usize, b as usize))
                            <==> #[trigger] self.conflicted(a, b)),
                    set@.no_duplicates(),
                    forall|a: int, b: int|
                        0 <= a < b < set@.len() ==> (set@[a].0 < set@[b].0 || (set@[a].0 == set@[b].0 && set@[a].1
                            < set@[b].1)),
                decreases 9 - j,
            {
                let ghost before = set@;
                if self.squares[i][j].value() != 0 && self.has_twin(i, j) {
                    assert(!set@.contains((i, j)));
                    set.push((i, j));
                    assert(set@ == before.push((i, j)));
                    assert(set@[before.len() as int] == (i, j));
                    assert forall|e: (usize, usize)| #[trigger] set@.contains(e) implies before.contains(e) || e == (i, j) by {
                        let idx = choose|idx: int| 0 <= idx < set@.len() && set@[idx] == e;
                        if idx < before.len() {
                            assert(before[idx] == e);
                        }
                    }
                    assert forall|a: int| 0 <= a < before.len() implies (before[a].0 < i || (before[a].0 == i
                        && before[a].1 < j)) by {
                        assert(before.contains(before[a]));
                    }
                    assert forall|e: (usize, usize)| before.contains(e) implies #[trigger] set@.contains(e) by {
                        let idx = choose|idx: int| 0 <= idx < before.len() && before[idx] == e;
                        assert(set@[idx] == e);
                    }
                }
                j += 1;
            }
            i += 1;
        }
        set
    }

    /// Solved: every cell holds a digit and no rule is broken.
    pub fn is_solved(&self) -> (r: bool)
        ensures
            r == (self.is_full() && self.has_no_conflicts()),
    {
        let mut i: usize = 0;
        while i < 9
            invariant
                i <= 9,
                forall|a: int, b: int| 0 <= a < i && 0 <= b < 9 ==> !(#[trigger] self.at(a, b) is Empty),
            decreases 9 - i,
        {
            let mut j: usize = 0;
            while j < 9
                invariant
                    i < 9,
                    j <= 9,
                    forall|a: int, b: int|
                        0 <= a < 9 && 0 <= b < 9 && (a < i || (a == i && b < j)) ==> !(#[trigger] self.at(a, b) is Empty),
                decreases 9 - j,
            {
                if self.squares[i][j].is_empty() {
                    assert(self.at(i as int, j as int) is Empty);
                    return false;
                }
                j += 1;
            }
            i += 1;
        }
        let invalid = self.find_invalid_squares();
        if invalid.len() == 0 {
            assert forall|a: int, b: int| 0 <= a < 9 && 0 <= b < 9 implies !#[trigger] self.conflicted(a, b) by {
                assert(!invalid@.contains((a as usize, b as usize)));
            }
            true
        } else {
            let e = invalid[0];
            assert(invalid@.contains(e));
            assert(self.conflicted(e.0 as int, e.1 as int));
            false
        }
    }
}

/// The text of one digit.
fn digit_text(v: u8) -> (r: &'static str)
    requires
        v <= 9,
    ensures
        r@.len() == 1,
        '0' <= r@[0] <= '9',
        digit_of(r@[0]) == v,
{
    proof {
        reveal_strlit("0");
        reveal_strlit("1");
        reveal_strlit("2");
        reveal_strlit("3");
        reveal_strlit("4");
        reveal_strlit("5");
        reveal_strlit("6");
        reveal_strlit("7");
        reveal_strlit("8");
        reveal_strlit("9");
    }
    match v {
        0 => "0",
        1 => "1",
        2 => "2",
        3 => "3",
        4 => "4",
        5 => "5",
        6 => "6",
        7 => "7",
        8 => "8",
        _ => "9",
    }
}

/// Writing a board out as text and reading that text back gives a board
/// with the same value in every cell. With `to_csv`'s text, or the same text
/// without its final newline (see `lemma_final_newline_reads_same`), the
/// first condition is what `to_csv` ensures.
pub proof fn lemma_csv_round_trip(g: GridState, text: Seq<char>, back: GridState)
    requires
        g.wf(),
        forall|i: int, j: int|
            0 <= i < 9 && 0 <= j < 9 ==> #[trigger] csv_scan(text).values[i][j] as int == g.at(i, j).val(),
        back.is_read_from(text),
    ensures
        forall|i: int, j: int| 0 <= i < 9 && 0 <= j < 9 ==> (#[trigger] back.at(i, j)).val() == g.at(i, j).val(),
{
    assert forall|i: int, j: int| 0 <= i < 9 && 0 <= j < 9 implies (#[trigger] back.at(i, j)).val() == g.at(i, j).val() by {
        assert(g.at(i, j).wf());
        assert(csv_scan(text).values[i][j] as int == g.at(i, j).val());
    }
}

/// A board built from a value matrix holds exactly those values: in each
/// cell (so in each row and column), and in each 3×3 block read row by row.
pub proof fn lemma_built_board_reads_back(g: GridState, values: [[u8; 9]; 9])
    requires
        forall|i: int, j: int| 0 <= i < 9 && 0 <= j < 9 ==> #[trigger] values[i][j] <= 9,
        forall|i: int, j: int|
            0 <= i < 9 && 0 <= j < 9 ==> #[trigger] g.at(i, j) == Square::of_clue(values[i][j] as int),
    ensures
        forall|i: int, j: int| 0 <= i < 9 && 0 <= j < 9 ==> (#[trigger] g.at(i, j)).val() == values[i][j],
        forall|y: int, x: int, k: int|
            0 <= y < 3 && 0 <= x < 3 && 0 <= k < 9 ==> (#[trigger] g.at(3 * y + k / 3, 3 * x + k % 3)).val()
                == values[3 * y + k / 3][3 * x + k % 3],
{
    assert forall|y: int, x: int, k: int| 0 <= y < 3 && 0 <= x < 3 && 0 <= k < 9 implies (#[trigger] g.at(
        3 * y + k / 3,
        3 * x + k % 3,
    )).val() == values[3 * y + k / 3][3 * x + k % 3] by {
        let i = 3 * y + k / 3;
        let j = 3 * x + k % 3;
        assert(0 <= i < 9 && 0 <= j < 9);
        assert(values[i][j] <= 9);
    }
}

/// Renaming the digits through a permutation changes no cell's standing:
/// a cell breaks a rule afterwards exactly when it did before, so a board
/// without conflicts stays without conflicts.
pub proof fn lemma_permute_keeps_validity(a: GridState, b: GridState, p: Seq<u8>)
    requires
        a.wf(),
        is_digit_permutation(p),
        b.is_permuted(a, p),
    ensures
        forall|i: int, j: int| 0 <= i < 9 && 0 <= j < 9 ==> #[trigger] b.conflicted(i, j) == a.conflicted(i, j),
        a.has_no_conflicts() ==> b.has_no_conflicts(),
{
    assert forall|i: int, j: int| 0 <= i < 9 && 0 <= j < 9 implies #[trigger] b.conflicted(i, j) == a.conflicted(i, j) by {
        assert(a.at(i, j).wf());
        assert forall|k: int, l: int| 0 <= k < 9 && 0 <= l < 9 && a.at(i, j).val() != 0 implies #[trigger] b.is_twin(i, j, k, l)
            == a.is_twin(i, j, k, l) by {
            assert(a.at(k, l).wf());
            assert(b.at(k, l) == a.at(k, l).relabeled(p));
            assert(b.at(i, j) == a.at(i, j).relabeled(p));
            let vi = a.at(i, j).val();
            let vk = a.at(k, l).val();
            if vk != 0 && b.at(k, l).val() == b.at(i, j).val() {
                assert(p[vk - 1] == p[vi - 1]);
            }
        }
        if a.conflicted(i, j) {
            let (k, l) = choose|k: int, l: int| 0 <= k < 9 && 0 <= l < 9 && #[trigger] a.is_twin(i, j, k, l);
            assert(b.is_twin(i, j, k, l));
        }
        if b.conflicted(i, j) {
            assert(a.at(i, j).val() != 0);
            let (k, l) = choose|k: int, l: int| 0 <= k < 9 && 0 <= l < 9 && #[trigger] b.is_twin(i, j, k, l);
            assert(a.is_twin(i, j, k, l));
        }
    }
}

/// Mirroring left to right twice gives back the board it started from.
pub proof fn lemma_flip_horizontally_twice(a: GridState, b: GridState, c: GridState)
    requires
        b.is_flipped_horizontally(a),
        c.is_flipped_horizontally(b),
    ensures
        c == a,
{
    assert forall|i: int| 0 <= i < 9 implies c.squares[i] == a.squares[i] by {
        assert forall|j: int| 0 <= j < 9 implies c.squares[i][j] == a.squares[i][j] by {
            assert(c.at(i, j) == b.at(i, 8 - j));
            assert(b.at(i, 8 - j) == a.at(i, j));
        }
        assert(c.squares[i] =~= a.squares[i]);
    }
    assert(c.squares =~= a.squares);
}

/// Mirroring top to bottom twice gives back the board it started from.
pub proof fn lemma_flip_vertically_twice(a: GridState, b: GridState, c: GridState)
    requires
        b.is_flipped_vertically(a),
        c.is_flipped_vertically(b),
    ensures
        c == a,
{
    assert forall|i: int| 0 <= i < 9 implies c.squares[i] == a.squares[i] by {
        assert forall|j: int| 0 <= j < 9 implies c.squares[i][j] == a.squares[i][j] by {
            assert(c.at(i, j) == b.at(8 - i, j));
            assert(b.at(8 - i, j) == a.at(i, j));
        }
        assert(c.squares[i] =~= a.squares[i]);
    }
    assert(c.squares =~= a.squares);
}

/// After `k` moves in direction `dir`, the cursor stands `k` steps further
/// along, wrapping round, and the cells are the same.
pub proof fn lemma_moves_add_up(states: Seq<GridState>, dir: Direction, k: int)
    requires
        0 <= k < states.len(),
        forall|m: int| 0 <= m < states.len() - 1 ==> #[trigger] states[m + 1].is_moved(states[m], dir),
        states[0].wf(),
    ensures
        states[k].cursor().0 as int == (states[0].cursor().0 + k * dir.offsets().0) % 9,
        states[k].cursor().1 as int == (states[0].cursor().1 + k * dir.offsets().1) % 9,
        states[k].same_cells(states[0]),
    decreases k,
{
    if k > 0 {
        lemma_moves_add_up(states, dir, k - 1);
        assert(states[(k - 1) + 1].is_moved(states[k - 1], dir));
        let d0 = dir.offsets().0 as int;
        let d1 = dir.offsets().1 as int;
        let c0 = states[0].cursor().0 as int;
        let c1 = states[0].cursor().1 as int;
        assert(((c0 + (k - 1) * d0) % 9 + d0) % 9 == (c0 + k * d0) % 9) by {
            vstd::arithmetic::div_mod::lemma_add_mod_noop(c0 + (k - 1) * d0, d0, 9);
            vstd::arithmetic::div_mod::lemma_mod_twice(d0, 9);
            vstd::arithmetic::div_mod::lemma_add_mod_noop((c0 + (k - 1) * d0) % 9, d0, 9);
            vstd::arithmetic::div_mod::lemma_mod_twice(c0 + (k - 1) * d0, 9);
            assert(c0 + (k - 1) * d0 + d0 == c0 + k * d0) by (nonlinear_arith);
        }
        assert(((c1 + (k - 1) * d1) % 9 + d1) % 9 == (c1 + k * d1) % 9) by {
            vstd::arithmetic::div_mod::lemma_add_mod_noop(c1 + (k - 1) * d1, d1, 9);
            vstd::arithmetic::div_mod::lemma_mod_twice(d1, 9);
            vstd::arithmetic::div_mod::lemma_add_mod_noop((c1 + (k - 1) * d1) % 9, d1, 9);
            vstd::arithmetic::div_mod::lemma_mod_twice(c1 + (k - 1) * d1, 9);
            assert(c1 + (k - 1) * d1 + d1 == c1 + k * d1) by (nonlinear_arith);
        }
    }
}

/// Nine moves in one direction bring the cursor back where it started, with
/// the cells untouched.
pub proof fn lemma_nine_moves_return(states: Seq<GridState>, dir: Direction)
    requires
        states.len() == 10,
        forall|m: int| 0 <= m < 9 ==> #[trigger] states[m + 1].is_moved(states[m], dir),
        states[0].wf(),
    ensures
        states[9].cursor() == states[0].cursor(),
        states[9].same_cells(states[0]),
{
    lemma_moves_add_up(states, dir, 9);
    let c0 = states[0].cursor().0 as int;
    let c1 = states[0].cursor().1 as int;
    let d0 = dir.offsets().0 as int;
    let d1 = dir.offsets().1 as int;
    vstd::arithmetic::div_mod::lemma_mod_multiples_vanish(d0, c0, 9);
    vstd::arithmetic::div_mod::lemma_mod_multiples_vanish(d1, c1, 9);
    vstd::arithmetic::div_mod::lemma_small_mod(c0 as nat, 9);
    vstd::arithmetic::div_mod::lemma_small_mod(c1 as nat, 9);
    assert(9 * d0 + c0 == c0 + 9 * d0);
    assert(9 * d1 + c1 == c1 + 9 * d1);
}

/// A board with an empty cell, or with a cell that breaks a rule, is not
/// solved.
pub proof fn lemma_unsolved(g: GridState, i: int, j: int)
    requires
        0 <= i < 9,
        0 <= j < 9,
        g.at(i, j) is Empty || g.conflicted(i, j),
    ensures
        !(g.is_full() && g.has_no_conflicts()),
{
}

} // verus!
