use vstd::prelude::*;

verus! {

/// Where a left-to-right reading of a puzzle text stands: the row and
/// column of the next field, whether every character so far was accepted,
/// and the 9×9 values read so far (0 where nothing was written).
pub struct CsvScan {
    pub row: nat,
    pub col: nat,
    pub ok: bool,
    pub values: Seq<Seq<u8>>,
}

/// Before the first character: at row 0, column 0, all values 0.
pub open spec fn csv_start() -> CsvScan {
    CsvScan { row: 0, col: 0, ok: true, values: Seq::new(9, |i: int| Seq::new(9, |j: int| 0u8)) }
}

pub open spec fn is_digit_char(c: char) -> bool {
    '0' <= c && c <= '9'
}

pub open spec fn digit_of(c: char) -> u8 {
    (c as u32 - '0' as u32) as u8
}

/// One character read: `,` moves to the next column, a newline to the start
/// of the next row, a digit is written at the current position (which must
/// be on the board), anything else is refused.
pub open spec fn csv_step(s: CsvScan, c: char) -> CsvScan {
    if c == ',' {
        CsvScan { col: s.col + 1, ..s }
    } else if c == '\n' {
        CsvScan { row: s.row + 1, col: 0, ..s }
    } else if is_digit_char(c) {
        if s.row < 9 && s.col < 9 {
            CsvScan {
                values: s.values.update(
                    s.row as int,
                    s.values[s.row as int].update(s.col as int, digit_of(c)),
                ),
                ..s
            }
        } else {
            CsvScan { ok: false, ..s }
        }
    } else {
        CsvScan { ok: false, ..s }
    }
}

/// The reading of the whole text `t`.
pub open spec fn csv_scan(t: Seq<char>) -> CsvScan
    decreases t.len(),
{
    if t.len() == 0 {
        csv_start()
    } else {
        csv_step(csv_scan(t.drop_last()), t.last())
    }
}

/// The values that a reading holds are digits, on a 9×9 board.
pub open spec fn scan_shape(s: CsvScan) -> bool {
    &&& s.values.len() == 9
    &&& forall|i: int| 0 <= i < 9 ==> (#[trigger] s.values[i]).len() == 9
    &&& forall|i: int, j: int| 0 <= i < 9 && 0 <= j < 9 ==> #[trigger] s.values[i][j] <= 9
}

/// Every reading has that shape.
pub proof fn lemma_scan_shape(t: Seq<char>)
    ensures
        scan_shape(csv_scan(t)),
    decreases t.len(),
{
    if t.len() > 0 {
        lemma_scan_shape(t.drop_last());
    }
}

/// A final newline changes nothing that is read: the text without it reads
/// the same values, and is accepted exactly when the text is.
pub proof fn lemma_final_newline_reads_same(t: Seq<char>)
    requires
        t.len() > 0,
        t.last() == '\n',
    ensures
        csv_scan(t.drop_last()).ok == csv_scan(t).ok,
        csv_scan(t.drop_last()).values == csv_scan(t).values,
{
}

/// The values read from `csv`, as a 9×9 array, or `None` where the text
/// holds a character other than a digit, a comma or a newline, or a digit
/// off the board.
pub fn scan_values(csv: &str) -> (r: Option<[[u8; 9]; 9]>)
    ensures
        r is Some <==> csv_scan(csv@).ok,
        r matches Some(v) ==> forall|i: int, j: int|
            0 <= i < 9 && 0 <= j < 9 ==> #[trigger] v[i][j] == csv_scan(csv@).values[i][j],
{
    let n = csv.unicode_len();
    let mut values = [[0u8; 9]; 9];
    let mut row: usize = 0;
    let mut col: usize = 0;
    let mut ok = true;
    let mut k: usize = 0;
    proof {
        lemma_scan_shape(csv@.take(0));
        assert(csv@.take(0) =~= Seq::<char>::empty());
    }
    while k < n
        invariant
            n == csv@.len(),
            k <= n,
            row <= k,
            col <= k,
            csv_scan(csv@.take(k as int)).row == row,
            csv_scan(csv@.take(k as int)).col == col,
            csv_scan(csv@.take(k as int)).ok == ok,
            scan_shape(csv_scan(csv@.take(k as int))),
            forall|i: int, j: int|
                0 <= i < 9 && 0 <= j < 9 ==> #[trigger] values[i][j] == csv_scan(csv@.take(k as int)).values[i][j],
        decreases n - k,
    {
        let c = csv.get_char(k);
        let ghost before = csv_scan(csv@.take(k as int));
        assert(csv@.take(k + 1).drop_last() =~= csv@.take(k as int));
        assert(csv@.take(k + 1).last() == c);
        proof {
            lemma_scan_shape(csv@.take(k + 1));
        }
        if c == ',' {
            col = col + 1;
        } else if c == '\n' {
            row = row + 1;
            col = 0;
        } else if '0' <= c && c <= '9' {
            if row < 9 && col < 9 {
                let ghost prev_values = values;
                let mut line = values[row];
                line[col] = (c as u32 - '0' as u32) as u8;
                values[row] = line;
                let ghost after = csv_scan(csv@.take(k + 1));
                assert forall|i: int, j: int| 0 <= i < 9 && 0 <= j < 9 implies #[trigger] values[i][j]
                    == after.values[i][j] by {
                    assert(prev_values[i][j] == before.values[i][j]);
                    if i != row {
                        assert(values@[i] == prev_values@[i]);
                    }
                }
            } else {
                ok = false;
            }
        } else {
            ok = false;
        }
        k = k + 1;
    }
    assert(csv@.take(n as int) =~= csv@);
    if ok {
        Some(values)
    } else {
        None
    }
}

} // verus!
