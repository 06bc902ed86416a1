use vstd::prelude::*;

use crate::csv::csv_scan;
use crate::grid::Grid;
use crate::square::Square;
use crate::state::{is_digit_permutation, GridState};

verus! {

pub const VERY_EASY: &'static str = "\
0,0,4,6,7,0,9,1,2\n\
6,0,2,1,0,5,0,0,8\n\
1,9,0,0,4,2,0,6,7\n\
8,0,0,7,0,0,0,2,3\n\
4,2,0,0,5,3,0,0,0\n\
7,1,0,0,0,4,8,5,6\n\
9,6,1,5,3,7,2,0,4\n\
2,8,7,4,1,9,0,3,0\n\
3,0,5,2,8,6,0,7,0\n\
0,5,3,0,9,8,0,7,1\n\
1,8,0,0,0,0,0,0,9\n\
9,0,6,4,5,1,0,0,2\n\
0,3,1,8,6,4,0,0,7\n\
8,0,9,0,2,0,1,3,6\n\
0,2,0,3,0,9,8,0,5\n\
4,0,2,9,8,6,0,5,3\n\
3,9,5,7,4,2,6,1,0\n\
7,0,0,1,3,5,9,0,0\n";

pub const EASY: &'static str = "\
0,0,4,0,0,8,0,1,2\n\
6,7,2,0,0,5,0,4,8\n\
0,0,0,3,4,0,5,6,7\n\
8,5,0,0,6,0,0,0,3\n\
4,0,0,8,0,0,7,9,1\n\
7,0,0,0,2,4,0,0,6\n\
9,6,0,5,3,7,0,8,4\n\
2,8,0,0,1,0,0,3,0\n\
3,4,0,0,0,6,0,0,0\n\
2,5,0,6,9,0,4,7,0\n\
0,8,0,2,7,0,0,6,0\n\
9,0,0,4,0,1,0,8,0\n\
0,3,1,8,0,0,2,0,7\n\
8,0,9,0,2,0,0,3,0\n\
0,0,7,0,1,0,8,4,5\n\
4,1,0,9,8,6,0,5,3\n\
0,9,5,0,4,2,0,1,0\n\
0,0,0,1,0,0,0,0,4\n";

pub const MEDIUM: &'static str = "\
5,0,0,6,0,8,9,1,0\n\
6,0,0,1,9,0,3,4,0\n\
0,9,0,3,0,0,0,0,7\n\
0,0,9,7,6,1,0,0,0\n\
0,0,0,0,0,0,0,0,1\n\
0,1,3,9,0,0,0,5,0\n\
9,0,0,5,3,0,2,0,0\n\
0,0,0,4,0,9,0,0,5\n\
3,4,0,2,8,0,0,0,9\n\
0,0,3,6,0,0,0,0,0\n\
0,0,4,2,0,3,5,0,0\n\
9,0,6,4,0,0,0,8,2\n\
0,3,0,0,0,4,2,9,0\n\
0,0,9,5,2,0,0,0,0\n\
6,2,7,3,1,9,8,0,0\n\
0,0,2,0,0,0,0,0,3\n\
0,0,5,7,4,0,6,0,0\n\
0,0,0,1,3,0,0,2,0\n";

pub const HARD: &'static str = "\
5,0,0,6,0,0,0,0,0\n\
0,7,0,1,9,0,0,0,0\n\
0,0,0,3,0,0,5,6,0\n\
0,5,9,7,0,0,4,0,3\n\
0,0,0,8,0,0,0,0,1\n\
7,1,0,0,0,0,0,0,6\n\
0,0,0,5,3,0,2,0,4\n\
2,8,0,4,0,0,6,3,0\n\
0,0,0,0,8,0,0,0,0\n\
0,0,0,6,0,0,0,0,0\n\
1,8,4,0,0,0,5,6,0\n\
0,0,6,4,5,0,0,8,0\n\
0,0,1,0,0,0,0,0,0\n\
0,4,9,5,0,7,1,0,6\n\
0,0,0,0,1,9,8,4,0\n\
0,1,0,9,0,6,0,5,3\n\
0,0,0,0,0,2,0,0,0\n\
0,0,0,0,0,0,0,2,0\n";

pub const FIENDISH: &'static str = "\
0,3,4,6,0,0,0,0,0\n\
0,0,0,0,9,0,3,4,8\n\
0,9,8,0,0,0,5,0,0\n\
8,0,0,0,0,1,0,0,0\n\
0,2,0,0,0,0,0,0,1\n\
0,0,0,9,0,0,0,0,0\n\
0,6,0,0,0,0,2,0,0\n\
2,0,7,0,1,0,0,3,5\n\
0,0,0,2,0,6,0,0,0\n\
2,0,3,0,0,0,0,7,0\n\
1,0,4,0,0,0,0,6,0\n\
0,7,0,0,0,1,0,0,0\n\
0,0,0,0,0,0,0,0,0\n\
0,0,9,0,0,0,0,0,0\n\
6,0,0,0,1,0,8,0,5\n\
0,0,2,0,8,0,0,0,0\n\
0,9,5,7,4,2,6,0,0\n\
0,0,8,0,0,0,9,2,0\n";

/// Where a left-to-right split of a text into lines stands: the lines
/// ended so far, and the characters of the line not yet ended.
pub struct LineSplit {
    pub done: Seq<Seq<char>>,
    pub cur: Seq<char>,
}

/// A line ended by a newline, without a carriage return before that newline.
pub open spec fn strip_cr(l: Seq<char>) -> Seq<char> {
    if l.len() > 0 && l.last() == '\r' {
        l.drop_last()
    } else {
        l
    }
}

/// The split of `t` at its newlines.
pub open spec fn split_scan(t: Seq<char>) -> LineSplit
    decreases t.len(),
{
    if t.len() == 0 {
        LineSplit { done: Seq::empty(), cur: Seq::empty() }
    } else {
        let s = split_scan(t.drop_last());
        if t.last() == '\n' {
            LineSplit { done: s.done.push(strip_cr(s.cur)), cur: Seq::empty() }
        } else {
            LineSplit { done: s.done, cur: s.cur.push(t.last()) }
        }
    }
}

/// The lines of `t`: split at each newline (a carriage return just before
/// it is dropped), the last line counted only if it is not empty.
pub open spec fn lines_of(t: Seq<char>) -> Seq<Seq<char>> {
    let s = split_scan(t);
    if s.cur.len() == 0 {
        s.done
    } else {
        s.done.push(s.cur)
    }
}

/// Lines put back together with a newline between each two.
pub open spec fn join_lines(ls: Seq<Seq<char>>) -> Seq<char>
    decreases ls.len(),
{
    if ls.len() == 0 {
        Seq::empty()
    } else if ls.len() == 1 {
        ls[0]
    } else {
        join_lines(ls.drop_last()) + seq!['\n'] + ls.last()
    }
}

/// The number of entries of a catalog text: one for each nine lines; a
/// last group of fewer than nine lines is no entry.
pub open spec fn puzzle_count(t: Seq<char>) -> int {
    lines_of(t).len() as int / 9
}

/// The `k`-th entry of a catalog text: its lines `9k` to `9k + 8`, joined.
pub open spec fn puzzle_text(t: Seq<char>, k: int) -> Seq<char> {
    join_lines(lines_of(t).subrange(9 * k, 9 * k + 9))
}

/// Every entry of a catalog text is a readable puzzle.
pub open spec fn catalog_ok(t: Seq<char>) -> bool {
    forall|k: int| 0 <= k < puzzle_count(t) ==> #[trigger] csv_scan(puzzle_text(t, k)).ok
}

/// The lines of `text`, each as the range of its characters.
fn line_ranges(text: &str) -> (r: Vec<(usize, usize)>)
    ensures
        r@.len() == lines_of(text@).len(),
        forall|i: int|
            0 <= i < r@.len() ==> {
                &&& (#[trigger] r@[i]).0 <= r@[i].1 <= text@.len()
                &&& text@.subrange(r@[i].0 as int, r@[i].1 as int) == lines_of(text@)[i]
            },
{
    let n = text.unicode_len();
    let mut ranges: Vec<(usize, usize)> = Vec::new();
    let mut start: usize = 0;
    let mut k: usize = 0;
    assert(text@.take(0) =~= Seq::<char>::empty());
    while k < n
        invariant
            n == text@.len(),
            start <= k <= n,
            ranges@.len() == split_scan(text@.take(k as int)).done.len(),
            text@.subrange(start as int, k as int) == split_scan(text@.take(k as int)).cur,
            forall|i: int|
                0 <= i < ranges@.len() ==> {
                    &&& (#[trigger] ranges@[i]).0 <= ranges@[i].1 <= n
                    &&& text@.subrange(ranges@[i].0 as int, ranges@[i].1 as int) == split_scan(
                        text@.take(k as int),
                    ).done[i]
                },
        decreases n - k,
    {
        let c = text.get_char(k);
        let ghost before = split_scan(text@.take(k as int));
        assert(text@.take(k + 1).drop_last() =~= text@.take(k as int));
        assert(text@.take(k + 1).last() == c);
        let ghost after = split_scan(text@.take(k + 1));
        if c == '\n' {
            let end = if k > start && text.get_char(k - 1) == '\r' {
                k - 1
            } else {
                k
            };
            assert(text@.subrange(start as int, end as int) =~= strip_cr(before.cur));
            let ghost old_ranges = ranges@;
            ranges.push((start, end));
            start = k + 1;
            assert(text@.subrange(start as int, (k + 1) as int) =~= after.cur);
            assert forall|i: int| 0 <= i < ranges@.len() implies {
                &&& (#[trigger] ranges@[i]).0 <= ranges@[i].1 <= n
                &&& text@.subrange(ranges@[i].0 as int, ranges@[i].1 as int) == after.done[i]
            } by {
                if i < ranges@.len() - 1 {
                    assert(ranges@[i] == old_ranges[i]);
                }
            }
        } else {
            assert(text@.subrange(start as int, (k + 1) as int) =~= after.cur);
        }
        k += 1;
    }
    assert(text@.take(n as int) =~= text@);
    if start < n {
        assert(text@.subrange(start as int, n as int).len() > 0);
        ranges.push((start, n));
    }
    ranges
}

/// The boards of a catalog text, one for each nine lines, in order; `None`
/// where an entry is not a readable puzzle.
pub fn read_puzzles(text: &str) -> (r: Option<Vec<GridState>>)
    ensures
        r is Some <==> catalog_ok(text@),
        r matches Some(v) ==> {
            &&& v@.len() == puzzle_count(text@)
            &&& forall|k: int| 0 <= k < v@.len() ==> (#[trigger] v@[k]).is_read_from(puzzle_text(text@, k))
        },
{
    let ranges = line_ranges(text);
    let ghost lines = lines_of(text@);
    let count = ranges.len() / 9;
    let mut puzzles: Vec<GridState> = Vec::new();
    let mut p: usize = 0;
    while p < count
        invariant
            ranges@.len() == lines.len(),
            lines == lines_of(text@),
            forall|i: int|
                0 <= i < ranges@.len() ==> {
                    &&& (#[trigger] ranges@[i]).0 <= ranges@[i].1 <= text@.len()
                    &&& text@.subrange(ranges@[i].0 as int, ranges@[i].1 as int) == lines[i]
                },
            count == puzzle_count(text@),
            p <= count,
            puzzles@.len() == p,
            forall|a: int| 0 <= a < p ==> #[trigger] csv_scan(puzzle_text(text@, a)).ok,
            forall|a: int| 0 <= a < p ==> (#[trigger] puzzles@[a]).is_read_from(puzzle_text(text@, a)),
        decreases count - p,
    {
        let total = ranges.len();
        assert(9 * p + 9 <= total) by (nonlinear_arith)
            requires
                p < count,
                count == total / 9,
        ;
        let first = 9 * p;
        let ghost group = lines.subrange(9 * p as int, 9 * p as int + 9);
        let mut entry = String::new();
        let mut m: usize = 0;
        while m < 9
            invariant
                ranges@.len() == lines.len(),
                forall|i: int|
                    0 <= i < ranges@.len() ==> {
                        &&& (#[trigger] ranges@[i]).0 <= ranges@[i].1 <= text@.len()
                        &&& text@.subrange(ranges@[i].0 as int, ranges@[i].1 as int) == lines[i]
                    },
                p < count,
                count == ranges@.len() / 9,
                group == lines.subrange(9 * p as int, 9 * p as int + 9),
                first == 9 * p,
                first + 9 <= total,
                total == ranges@.len(),
                m <= 9,
                entry@ == join_lines(group.take(m as int)),
            decreases 9 - m,
        {
            let (from, to) = ranges[first + m];
            let line = text.substring_char(from, to);
            assert(line@ == group[m as int]);
            let ghost before = entry@;
            if m > 0 {
                entry.append("\n");
                proof {
                    reveal_strlit("\n");
                }
            }
            entry.append(line);
            proof {
                let taken = group.take(m + 1);
                assert(taken.drop_last() =~= group.take(m as int));
                assert(taken.last() == line@);
                if m == 0 {
                    assert(before =~= Seq::<char>::empty());
                    assert(entry@ =~= taken[0]);
                } else {
                    assert(entry@ =~= join_lines(taken.drop_last()) + seq!['\n'] + taken.last());
                }
            }
            m += 1;
        }
        assert(group.take(9) =~= group);
        match GridState::try_from_csv(entry.as_str()) {
            Some(g) => {
                puzzles.push(g);
            },
            None => {
                assert(!csv_scan(puzzle_text(text@, p as int)).ok);
                return None;
            },
        }
        p += 1;
    }
    Some(puzzles)
}

/// Relies on `fastrand::usize`: a value of the range `..n`, which must not
/// be empty.
#[verifier::external_body]
fn random_index(n: usize) -> (r: usize)
    requires
        n > 0,
    ensures
        r < n,
{
    fastrand::usize(..n)
}

/// Relies on `fastrand::shuffle`: it only swaps elements, so the same
/// elements come back in some order.
#[verifier::external_body]
fn shuffle_digits(v: &mut Vec<u8>)
    ensures
        final(v)@.len() == old(v)@.len(),
        final(v)@.to_multiset() == old(v)@.to_multiset(),
{
    fastrand::shuffle(v)
}

/// Relies on `fastrand::bool`: a coin flip.
#[verifier::external_body]
fn random_bool() -> bool {
    fastrand::bool()
}

/// Makes fresh puzzles out of the catalog.
pub struct Generator {}

impl Generator {
    /// `base` with its digits renamed through `permutation`, then mirrored
    /// left to right if `flip_h` and top to bottom if `flip_v`, with no history.
    pub fn generate_from(base: GridState, permutation: &[u8], flip_h: bool, flip_v: bool) -> (r: Grid)
        requires
            base.wf(),
            is_digit_permutation(permutation@),
        ensures
            r@.wf(),
            r@.state.is_transform_of(base, permutation@, flip_h, flip_v),
            r@.past.len() == 0,
            r@.future.len() == 0,
    {
        let mut puzzle = base;
        puzzle.permute(permutation);
        let ghost permuted = puzzle;
        if flip_h {
            puzzle.flip_horizontally();
        }
        let ghost mirrored = puzzle;
        if flip_v {
            puzzle.flip_vertically();
        }
        assert forall|i: int, j: int| 0 <= i < 9 && 0 <= j < 9 implies #[trigger] puzzle.at(i, j) == base.at(
            if flip_v { 8 - i } else { i },
            if flip_h { 8 - j } else { j },
        ).relabeled(permutation@) by {
            let i2 = if flip_v { 8 - i } else { i };
            let j2 = if flip_h { 8 - j } else { j };
            assert(puzzle.at(i, j) == mirrored.at(i2, j));
            assert(mirrored.at(i2, j) == permuted.at(i2, j2));
        }
        Grid::from_state(puzzle)
    }

    /// A fresh puzzle of the tier: one of its catalog entries chosen at
    /// random, its digits renamed by a random permutation, and each of the
    /// two mirrorings done or not at random. `None` where the tier's catalog
    /// is unreadable or empty.
    pub fn generate(diff: Difficulty) -> (r: Option<Grid>)
        ensures
            r is Some <==> catalog_ok(diff.catalog()) && puzzle_count(diff.catalog()) > 0,
            r matches Some(g) ==> {
                &&& g@.wf()
                &&& g@.past.len() == 0
                &&& g@.future.len() == 0
                &&& exists|k: int, base: GridState, p: Seq<u8>, flip_h: bool, flip_v: bool|
                    0 <= k < puzzle_count(diff.catalog()) && #[trigger] base.is_read_from(puzzle_text(diff.catalog(), k))
                        && is_digit_permutation(p) && #[trigger] g@.state.is_transform_of(base, p, flip_h, flip_v)
            },
    {
        let puzzles = match read_puzzles(diff.puzzles()) {
            Some(v) => v,
            None => {
                return None;
            },
        };
        if puzzles.len() == 0 {
            return None;
        }
        let index = random_index(puzzles.len());
        let mut permutation: Vec<u8> = Vec::new();
        let mut d: u8 = 1;
        while d <= 9
            invariant
                1 <= d <= 10,
                permutation@.len() == d - 1,
                forall|k: int| 0 <= k < d - 1 ==> #[trigger] permutation@[k] == k + 1,
            decreases 10 - d,
        {
            permutation.push(d);
            d += 1;
        }
        let ghost digits = permutation@;
        assert(digits.no_duplicates());
        shuffle_digits(&mut permutation);
        proof {
            digits.lemma_multiset_has_no_duplicates();
            assert forall|x: u8| permutation@.to_multiset().contains(x) implies permutation@.to_multiset().count(x)
                == 1 by {
                assert(digits.to_multiset().contains(x));
            }
            permutation@.lemma_multiset_has_no_duplicates_conv();
            assert forall|k: int| 0 <= k < 9 implies 1 <= #[trigger] permutation@[k] <= 9 by {
                broadcast use vstd::seq_lib::group_to_multiset_ensures;
                let x = permutation@[k];
                assert(permutation@.contains(x));
                assert(permutation@.to_multiset().count(x) > 0);
                assert(digits.to_multiset().count(x) > 0);
                assert(digits.contains(x));
                let idx = choose|idx: int| 0 <= idx < digits.len() && digits[idx] == x;
                assert(digits[idx] == idx + 1);
            }
        }
        let flip_h = random_bool();
        let flip_v = random_bool();
        let base = puzzles[index];
        let r = Generator::generate_from(base, permutation.as_slice(), flip_h, flip_v);
        assert(r@.state.is_transform_of(base, permutation@, flip_h, flip_v));
        assert(base.is_read_from(puzzle_text(diff.catalog(), index as int)));
        assert(0 <= index < puzzle_count(diff.catalog()));
        assert(is_digit_permutation(permutation@));
        assert(exists|k: int, b: GridState, p: Seq<u8>, fh: bool, fv: bool|
            0 <= k < puzzle_count(diff.catalog()) && #[trigger] b.is_read_from(puzzle_text(diff.catalog(), k))
                && is_digit_permutation(p) && #[trigger] r@.state.is_transform_of(b, p, fh, fv)) by {
            assert(r@.state.is_transform_of(base, permutation@, flip_h, flip_v));
        }
        Some(r)
    }
}

/// How hard a puzzle is meant to be.
#[derive(Debug, Clone, Copy, PartialEq, Eq, Structural)]
pub enum Difficulty {
    VeryEasy,
    Easy,
    Medium,
    Hard,
    Fiendish,
}

/// The name of a tier in lower case, as a difficulty is parsed.
pub open spec fn lower_name(d: Difficulty) -> Seq<char> {
    match d {
        Difficulty::VeryEasy => "very easy"@,
        Difficulty::Easy => "easy"@,
        Difficulty::Medium => "medium"@,
        Difficulty::Hard => "hard"@,
        Difficulty::Fiendish => "fiendish"@,
    }
}

/// What `str::to_lowercase` makes of a text.
pub uninterp spec fn lower_of(s: Seq<char>) -> Seq<char>;

/// Relies on `str::to_lowercase`: the result depends on the text alone.
#[verifier::external_body]
fn lowercase(s: &str) -> (r: String)
    ensures
        r@ == lower_of(s@),
{
    s.to_lowercase()
}

impl Difficulty {
    /// The catalog text of this tier.
    pub open spec fn catalog(self) -> Seq<char> {
        match self {
            Difficulty::VeryEasy => VERY_EASY@,
            Difficulty::Easy => EASY@,
            Difficulty::Medium => MEDIUM@,
            Difficulty::Hard => HARD@,
            Difficulty::Fiendish => FIENDISH@,
        }
    }

    pub fn puzzles(self) -> (r: &'static str)
        ensures
            r@ == self.catalog(),
    {
        match self {
            Difficulty::VeryEasy => VERY_EASY,
            Difficulty::Easy => EASY,
            Difficulty::Medium => MEDIUM,
            Difficulty::Hard => HARD,
            Difficulty::Fiendish => FIENDISH,
        }
    }

    /// The tier whose lower-case name is exactly `t`.
    pub fn from_lower_name(t: &str) -> (r: Option<Difficulty>)
        ensures
            r matches Some(d) ==> t@ == lower_name(d),
            r is None ==> forall|d: Difficulty| t@ != lower_name(d),
    {
        proof {
            reveal_strlit("very easy");
            reveal_strlit("easy");
            reveal_strlit("medium");
            reveal_strlit("hard");
            reveal_strlit("fiendish");
        }
        if str_eq(t, "very easy") {
            Some(Difficulty::VeryEasy)
        } else if str_eq(t, "easy") {
            Some(Difficulty::Easy)
        } else if str_eq(t, "medium") {
            Some(Difficulty::Medium)
        } else if str_eq(t, "hard") {
            Some(Difficulty::Hard)
        } else if str_eq(t, "fiendish") {
            Some(Difficulty::Fiendish)
        } else {
            None
        }
    }

    /// The tier named by `s`, in any mix of cases; `s` must name one.
    pub fn parse(s: &str) -> (r: Difficulty)
        requires
            exists|d: Difficulty| lower_of(s@) == lower_name(d),
        ensures
            lower_of(s@) == lower_name(r),
    {
        let lowered = lowercase(s);
        match Difficulty::from_lower_name(lowered.as_str()) {
            Some(d) => d,
            None => {
                assert(false);
                Difficulty::VeryEasy
            },
        }
    }

    /// The tier named by `s`, in any mix of cases, or `None` where `s` names
    /// no tier.
    pub fn from_name(s: &str) -> (r: Option<Difficulty>)
        ensures
            r matches Some(d) ==> lower_of(s@) == lower_name(d),
            r is None ==> forall|d: Difficulty| lower_of(s@) != lower_name(d),
    {
        let lowered = lowercase(s);
        match Difficulty::from_lower_name(lowered.as_str()) {
            Some(d) => {
                assert(lower_of(s@) == lower_name(d));
                Some(Difficulty::parse(s))
            },
            None => None,
        }
    }

    /// The tier's name for display.
    pub fn name(self) -> (r: &'static str)
        ensures
            r@ == match self {
                Difficulty::VeryEasy => "Very Easy"@,
                Difficulty::Easy => "Easy"@,
                Difficulty::Medium => "Medium"@,
                Difficulty::Hard => "Hard"@,
                Difficulty::Fiendish => "Fiendish"@,
            },
    {
        match self {
            Difficulty::VeryEasy => "Very Easy",
            Difficulty::Easy => "Easy",
            Difficulty::Medium => "Medium",
            Difficulty::Hard => "Hard",
            Difficulty::Fiendish => "Fiendish",
        }
    }
}

/// Whether two texts are the same, character by character.
fn str_eq(a: &str, b: &str) -> (r: bool)
    ensures
        r == (a@ == b@),
{
    let n = a.unicode_len();
    if n != b.unicode_len() {
        return false;
    }
    let mut k: usize = 0;
    while k < n
        invariant
            n == a@.len(),
            n == b@.len(),
            k <= n,
            forall|i: int| 0 <= i < k ==> a@[i] == b@[i],
        decreases n - k,
    {
        if a.get_char(k) != b.get_char(k) {
            return false;
        }
        k += 1;
    }
    assert(a@ =~= b@);
    true
}

} // verus!
