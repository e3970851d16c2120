//! Blank lines behind the header change nothing but the numbers of the rows
//! behind them.

use super::dat;
use super::dat::{DatModel, DatRowModel};
use super::error;
use super::error::ReadFault;
use super::processed;
use super::processed::{ProcessedModel, SeriesColumns};
use super::tabular;
use super::tabular::Columns;
use crate::dates::DateFmt;
use crate::scan;
use vstd::prelude::*;

verus! {

/// Whether a text is white space in one line.
pub open spec fn is_blank(s: Seq<char>) -> bool {
    forall|i: int| 0 <= i < s.len() ==> scan::is_space(#[trigger] s[i]) && s[i] != '\n'
}

/// The number of a row once there is another line behind the first `i`.
pub open spec fn renumbered(row: int, i: int) -> int {
    if row > i {
        row + 1
    } else {
        row
    }
}

/// The error with the row's new number.
pub open spec fn fault_renumbered(e: ReadFault, i: int) -> ReadFault {
    match e {
        ReadFault::ShortRow { row, got, need } => ReadFault::ShortRow {
            row: renumbered(row, i),
            got,
            need,
        },
        ReadFault::BadTime(cell, row) => ReadFault::BadTime(cell, renumbered(row, i)),
        ReadFault::BadNumber(cell, row, column) => ReadFault::BadNumber(
            cell,
            renumbered(row, i),
            column,
        ),
        _ => e,
    }
}

proof fn lemma_lines_behind(a: Seq<char>, b: Seq<char>, i: int)
    requires
        0 <= i,
    ensures
        scan::lines_from(a + b, a.len() + i) == scan::lines_from(b, i),
    decreases b.len() - i,
{
    let all = a + b;
    let n = a.len() as int;
    if i < b.len() {
        let k = scan::upto(b, i, '\n');
        scan::lemma_upto(b, i, '\n');
        assert forall|j: int| n + i <= j < n + k implies all[j] != '\n' by {
            assert(all[j] == b[j - n]);
        }
        scan::lemma_upto_at(all, n + i, n + k, '\n');
        assert(all.subrange(n + i, n + k) =~= b.subrange(i, k));
        if k < b.len() {
            lemma_lines_behind(a, b, k + 1);
        }
    }
}

proof fn lemma_lines_from_split(a: Seq<char>, b: Seq<char>, i: int)
    requires
        0 <= i <= a.len(),
        a.len() > 0,
        a.last() == '\n',
    ensures
        scan::lines_from(a + b, i) == scan::lines_from(a, i) + scan::lines(b),
    decreases a.len() - i,
{
    let all = a + b;
    if i == a.len() {
        lemma_lines_behind(a, b, 0);
        assert(scan::lines_from(a, i) + scan::lines(b) =~= scan::lines(b));
    } else {
        let k = scan::upto(a, i, '\n');
        scan::lemma_upto(a, i, '\n');
        assert(a[a.len() - 1] == '\n');
        assert forall|j: int| i <= j < k implies all[j] != '\n' by {
            assert(all[j] == a[j]);
        }
        scan::lemma_upto_at(all, i, k, '\n');
        lemma_lines_from_split(a, b, k + 1);
        assert(all.subrange(i, k) =~= a.subrange(i, k));
        let first = seq![scan::without_return(a.subrange(i, k))];
        assert(first + (scan::lines_from(a, k + 1) + scan::lines(b)) =~= (first
            + scan::lines_from(a, k + 1)) + scan::lines(b));
    }
}

/// The lines of a text are those of a first part that ends with a line, and
/// then those of the rest.
pub proof fn law_lines_split(a: Seq<char>, b: Seq<char>)
    requires
        a.len() > 0,
        a.last() == '\n',
    ensures
        scan::lines(a + b) == scan::lines(a) + scan::lines(b),
{
    lemma_lines_from_split(a, b, 0);
}

proof fn lemma_trim_blank(s: Seq<char>)
    requires
        is_blank(s),
    ensures
        scan::trimmed(s).len() == 0,
{
    lemma_trim_start_blank(s);
}

proof fn lemma_trim_start_blank(s: Seq<char>)
    requires
        is_blank(s),
    ensures
        scan::trim_start(s).len() == 0,
    decreases s.len(),
{
    if s.len() > 0 {
        assert(scan::is_space(s[0]));
        let rest = s.drop_first();
        assert forall|i: int| 0 <= i < rest.len() implies scan::is_space(#[trigger] rest[i])
            && rest[i] != '\n' by {
            assert(rest[i] == s[i + 1]);
        }
        lemma_trim_start_blank(rest);
    }
}

proof fn lemma_blank_line(blank: Seq<char>) -> (line: Seq<char>)
    requires
        is_blank(blank),
    ensures
        scan::lines(blank.push('\n')) == seq![line],
        scan::trimmed(line).len() == 0,
{
    let s = blank.push('\n');
    let n = blank.len() as int;
    assert forall|j: int| 0 <= j < n implies s[j] != '\n' by {
        assert(s[j] == blank[j]);
    }
    scan::lemma_upto_at(s, 0, n, '\n');
    assert(s.subrange(0, n) =~= blank);
    let line = scan::without_return(blank);
    assert forall|i: int| 0 <= i < line.len() implies scan::is_space(#[trigger] line[i]) && line[i]
        != '\n' by {
        assert(line[i] == blank[i]);
    }
    lemma_trim_blank(line);
    assert(scan::lines_from(s, n + 1) =~= Seq::empty());
    assert(scan::lines(s) =~= seq![line]);
    line
}

proof fn lemma_with_blank(head: Seq<char>, blank: Seq<char>, tail: Seq<char>) -> (line: Seq<char>)
    requires
        head.len() > 0,
        head.last() == '\n',
        is_blank(blank),
    ensures
        scan::trimmed(line).len() == 0,
        scan::lines(head + blank.push('\n') + tail) == scan::lines(head + tail).insert(
            scan::lines(head).len() as int,
            line,
        ),
        scan::lines(head + tail).len() >= scan::lines(head).len(),
        forall|j: int|
            0 <= j < scan::lines(head).len() ==> #[trigger] scan::lines(head + tail)[j]
                == scan::lines(head)[j],
{
    let line = lemma_blank_line(blank);
    let ended = blank.push('\n');
    law_lines_split(head, tail);
    law_lines_split(ended, tail);
    law_lines_split(head, ended + tail);
    assert(head + ended + tail =~= head + (ended + tail));
    let l = scan::lines(head);
    let r = scan::lines(tail);
    assert(l + (seq![line] + r) =~= (l + r).insert(l.len() as int, line));
    line
}

proof fn lemma_format_behind(
    body: Seq<Seq<char>>,
    i: int,
    line: Seq<char>,
    k: int,
    d: char,
    column: int,
    need: int,
)
    requires
        0 <= i <= k,
        i <= body.len(),
    ensures
        tabular::format_from(body.insert(i, line), k + 1, d, column, need)
            == tabular::format_from(body, k, d, column, need),
    decreases body.len() - k,
{
    if k < body.len() {
        assert(body.insert(i, line)[k + 1] == body[k]);
        lemma_format_behind(body, i, line, k + 1, d, column, need);
    }
}

proof fn lemma_format(
    body: Seq<Seq<char>>,
    i: int,
    line: Seq<char>,
    k: int,
    d: char,
    column: int,
    need: int,
)
    requires
        0 <= k <= i <= body.len(),
        scan::trimmed(line).len() == 0,
    ensures
        tabular::format_from(body.insert(i, line), k, d, column, need) == tabular::format_from(
            body,
            k,
            d,
            column,
            need,
        ),
    decreases i - k,
{
    let more = body.insert(i, line);
    if k == i {
        assert(more[i] == line);
        lemma_format_behind(body, i, line, k, d, column, need);
    } else {
        assert(more[k] == body[k]);
        lemma_format(body, i, line, k + 1, d, column, need);
    }
}

proof fn lemma_rows_before(
    body: Seq<Seq<char>>,
    i: int,
    line: Seq<char>,
    k: int,
    d: char,
    fmt: DateFmt,
    cols: Columns,
)
    requires
        k <= i <= body.len(),
        0 <= i,
    ensures
        tabular::table_rows(body.insert(i, line), k, d, fmt, cols) == tabular::table_rows(
            body,
            k,
            d,
            fmt,
            cols,
        ),
        tabular::table_rows(body, k, d, fmt, cols) matches Err(e) ==> fault_renumbered(e, i) == e,
    decreases k,
{
    if k > 0 {
        assert(body.insert(i, line)[k - 1] == body[k - 1]);
        lemma_rows_before(body, i, line, k - 1, d, fmt, cols);
    }
}

proof fn lemma_rows(
    body: Seq<Seq<char>>,
    i: int,
    line: Seq<char>,
    k: int,
    d: char,
    fmt: DateFmt,
    cols: Columns,
)
    requires
        0 <= i <= k <= body.len(),
        scan::trimmed(line).len() == 0,
    ensures
        tabular::table_rows(body.insert(i, line), k + 1, d, fmt, cols)
            == match tabular::table_rows(body, k, d, fmt, cols) {
            Ok(rows) => Ok(rows),
            Err(e) => Err(fault_renumbered(e, i)),
        },
    decreases k,
{
    let more = body.insert(i, line);
    if k == i {
        assert(more[k] == line);
        lemma_rows_before(body, i, line, k, d, fmt, cols);
    } else {
        assert(more[k] == body[k - 1]);
        lemma_rows(body, i, line, k - 1, d, fmt, cols);
    }
}

/// A table with a blank line more behind its header has the same rows; an
/// error names its row by the new number.
pub proof fn law_blank_line_in_table(
    plain: Seq<u8>,
    spaced: Seq<u8>,
    head: Seq<char>,
    blank: Seq<char>,
    tail: Seq<char>,
    d: char,
    cols: Columns,
    skip: int,
)
    requires
        error::text_of(plain) == Ok::<_, ReadFault>(head + tail),
        error::text_of(spaced) == Ok::<_, ReadFault>(head + blank.push('\n') + tail),
        head.len() > 0,
        head.last() == '\n',
        is_blank(blank),
        0 <= skip < scan::lines(head).len(),
    ensures
        tabular::table_of(spaced, d, cols, skip) == match tabular::table_of(plain, d, cols, skip) {
            Ok(rows) => Ok(rows),
            Err(e) => Err(fault_renumbered(e, scan::lines(head).len() - (skip + 1))),
        },
{
    let line = lemma_with_blank(head, blank, tail);
    let lines = scan::lines(head + tail);
    let more = scan::lines(head + blank.push('\n') + tail);
    let body = lines.skip(skip + 1);
    let i = scan::lines(head).len() - (skip + 1);
    assert(more.skip(skip + 1) =~= body.insert(i, line));
    lemma_format(body, i, line, 0, d, cols.time as int, cols.needed());
    match tabular::format_from(body, 0, d, cols.time as int, cols.needed()) {
        None => {},
        Some(fmt) => {
            lemma_rows(body, i, line, body.len() as int, d, fmt, cols);
        },
    }
}

proof fn lemma_series_before(
    body: Seq<Seq<char>>,
    i: int,
    line: Seq<char>,
    k: int,
    fmt: DateFmt,
    time: int,
    cols: SeriesColumns,
)
    requires
        k <= i <= body.len(),
        0 <= i,
    ensures
        processed::series_rows(body.insert(i, line), k, fmt, time, cols)
            == processed::series_rows(body, k, fmt, time, cols),
        processed::series_rows(body, k, fmt, time, cols) matches Err(e) ==> fault_renumbered(e, i)
            == e,
    decreases k,
{
    if k > 0 {
        assert(body.insert(i, line)[k - 1] == body[k - 1]);
        lemma_series_before(body, i, line, k - 1, fmt, time, cols);
    }
}

proof fn lemma_series(
    body: Seq<Seq<char>>,
    i: int,
    line: Seq<char>,
    k: int,
    fmt: DateFmt,
    time: int,
    cols: SeriesColumns,
)
    requires
        0 <= i <= k <= body.len(),
        scan::trimmed(line).len() == 0,
    ensures
        processed::series_rows(body.insert(i, line), k + 1, fmt, time, cols)
            == match processed::series_rows(body, k, fmt, time, cols) {
            Ok(rows) => Ok(rows),
            Err(e) => Err(fault_renumbered(e, i)),
        },
    decreases k,
{
    let more = body.insert(i, line);
    if k == i {
        assert(more[k] == line);
        lemma_series_before(body, i, line, k, fmt, time, cols);
    } else {
        assert(more[k] == body[k - 1]);
        lemma_series(body, i, line, k - 1, fmt, time, cols);
    }
}

/// How many lines stand in front of the rows of a table of results.
pub open spec fn lines_in_front(first: Seq<char>) -> int {
    if processed::is_comment(first) {
        2
    } else {
        1
    }
}

/// A table of results with a blank line more behind its header holds the same;
/// an error names its row by the new number.
pub proof fn law_blank_line_in_results(
    plain: Seq<u8>,
    spaced: Seq<u8>,
    head: Seq<char>,
    blank: Seq<char>,
    tail: Seq<char>,
)
    requires
        error::text_of(plain) == Ok::<_, ReadFault>(head + tail),
        error::text_of(spaced) == Ok::<_, ReadFault>(head + blank.push('\n') + tail),
        head.len() > 0,
        head.last() == '\n',
        is_blank(blank),
        lines_in_front(scan::lines(head)[0]) <= scan::lines(head).len(),
    ensures
        processed::processed_of(spaced) == match processed::processed_of(plain) {
            Ok(f) => Ok(f),
            Err(e) => Err(
                fault_renumbered(
                    e,
                    scan::lines(head).len() - lines_in_front(scan::lines(head)[0]),
                ),
            ),
        },
{
    let line = lemma_with_blank(head, blank, tail);
    let lines = scan::lines(head + tail);
    let more = scan::lines(head + blank.push('\n') + tail);
    let front = lines_in_front(scan::lines(head)[0]);
    assert(lines[0] == scan::lines(head)[0]);
    assert(more[0] == lines[0]);
    assert(more[front - 1] == lines[front - 1]);
    let body = lines.skip(front);
    let i = scan::lines(head).len() - front;
    assert(more.skip(front) =~= body.insert(i, line));
    let names = super::headers::trimmed_cells(lines[front - 1], ',');
    match processed::position(names, "Time"@, 0) {
        None => {},
        Some(time) => {
            lemma_format(body, i, line, 0, ',', time, time + 1);
            match tabular::format_from(body, 0, ',', time, time + 1) {
                None => {},
                Some(fmt) => {
                    lemma_series(
                        body,
                        i,
                        line,
                        body.len() as int,
                        fmt,
                        time,
                        processed::series_columns(names),
                    );
                },
            }
        },
    }
}

/// A row with its new number.
pub open spec fn row_renumbered(r: DatRowModel, i: int) -> DatRowModel {
    DatRowModel { row: renumbered(r.row, i), ..r }
}

/// A short row with its new number.
pub open spec fn short_renumbered(short: Option<(int, int)>, i: int) -> Option<(int, int)> {
    match short {
        Some((row, got)) => Some((renumbered(row, i), got)),
        None => None,
    }
}

proof fn lemma_dat_before(body: Seq<Seq<char>>, i: int, line: Seq<char>, k: int)
    requires
        k <= i <= body.len(),
        0 <= i,
    ensures
        dat::dat_rows(body.insert(i, line), k) == dat::dat_rows(body, k),
        dat::dat_rows(body, k).0.map_values(|r: DatRowModel| row_renumbered(r, i))
            == dat::dat_rows(body, k).0,
        short_renumbered(dat::dat_rows(body, k).1, i) == dat::dat_rows(body, k).1,
    decreases k,
{
    if k > 0 {
        assert(body.insert(i, line)[k - 1] == body[k - 1]);
        lemma_dat_before(body, i, line, k - 1);
        let before = dat::dat_rows(body, k - 1).0;
        let rows = dat::dat_rows(body, k).0;
        let again = rows.map_values(|r: DatRowModel| row_renumbered(r, i));
        assert forall|j: int| 0 <= j < rows.len() implies #[trigger] again[j] == rows[j] by {
            if j < before.len() {
                assert(before.map_values(|r: DatRowModel| row_renumbered(r, i))[j] == before[j]);
            }
        }
        assert(again =~= rows);
    } else {
        assert(dat::dat_rows(body, k).0.map_values(|r: DatRowModel| row_renumbered(r, i))
            =~= dat::dat_rows(body, k).0);
    }
}

proof fn lemma_dat(body: Seq<Seq<char>>, i: int, line: Seq<char>, k: int)
    requires
        0 <= i <= k <= body.len(),
        scan::trimmed(line).len() == 0,
    ensures
        dat::dat_rows(body.insert(i, line), k + 1) == (
            dat::dat_rows(body, k).0.map_values(|r: DatRowModel| row_renumbered(r, i)),
            short_renumbered(dat::dat_rows(body, k).1, i),
        ),
    decreases k,
{
    let more = body.insert(i, line);
    if k == i {
        assert(more[k] == line);
        lemma_dat_before(body, i, line, k);
    } else {
        assert(more[k] == body[k - 1]);
        lemma_dat(body, i, line, k - 1);
        assert(dat::dat_rows(more, k + 1).0 =~= dat::dat_rows(body, k).0.map_values(
            |r: DatRowModel| row_renumbered(r, i),
        ));
    }
}

/// A DAT file with a blank line more behind its header has the same rows under
/// their new numbers.
pub proof fn law_blank_line_in_dat(
    plain: Seq<u8>,
    spaced: Seq<u8>,
    head: Seq<char>,
    blank: Seq<char>,
    tail: Seq<char>,
)
    requires
        error::text_of(plain) == Ok::<_, ReadFault>(head + tail),
        error::text_of(spaced) == Ok::<_, ReadFault>(head + blank.push('\n') + tail),
        head.len() > 0,
        head.last() == '\n',
        is_blank(blank),
        scan::lines(head).len() >= 2,
    ensures
        dat::dat_of(spaced) == match dat::dat_of(plain) {
            Ok(f) => Ok(
                DatModel {
                    start_ns: f.start_ns,
                    rows: f.rows.map_values(
                        |r: DatRowModel| row_renumbered(r, scan::lines(head).len() - 2),
                    ),
                    short: short_renumbered(f.short, scan::lines(head).len() - 2),
                },
            ),
            Err(e) => Err(e),
        },
{
    let line = lemma_with_blank(head, blank, tail);
    let lines = scan::lines(head + tail);
    let more = scan::lines(head + blank.push('\n') + tail);
    assert(more[0] == lines[0]);
    let body = lines.skip(2);
    let i = scan::lines(head).len() - 2;
    assert(more.skip(2) =~= body.insert(i, line));
    lemma_dat(body, i, line, body.len() as int);
}

} // verus!
