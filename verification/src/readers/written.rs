//! Text files as they are written, and what is read of them: every row comes
//! back with its own cells, each under the column that was asked for.

use super::blanks;
use super::dat;
use super::dat::DatRowModel;
use super::error;
use super::error::ReadFault;
use super::headers;
use super::processed;
use super::processed::{ProcessedModel, SeriesColumns, SeriesRow};
use super::tabular;
use super::tabular::{Columns, TableRow};
use crate::calendar;
use crate::dates;
use crate::dates::DateFmt;
use crate::scan;
use vstd::prelude::*;
use vstd::utf8;

verus! {

/// The end of a line, with a carriage return or without.
pub open spec fn line_end(with_return: bool) -> Seq<char> {
    if with_return {
        seq!['\r', '\n']
    } else {
        seq!['\n']
    }
}

/// Lines with their ends.
pub open spec fn lines_text(ls: Seq<Seq<char>>, with_return: bool) -> Seq<char>
    decreases ls.len(),
{
    if ls.len() == 0 {
        Seq::empty()
    } else {
        lines_text(ls.drop_last(), with_return) + (ls.last() + line_end(with_return))
    }
}

/// Whether a line can be told from its end.
pub open spec fn is_line(l: Seq<char>, with_return: bool) -> bool {
    !l.contains('\n') && (with_return || l.len() == 0 || l.last() != '\r')
}

/// Whether all can.
pub open spec fn are_lines(ls: Seq<Seq<char>>, with_return: bool) -> bool {
    forall|i: int| 0 <= i < ls.len() ==> is_line(#[trigger] ls[i], with_return)
}

proof fn lemma_line(l: Seq<char>, with_return: bool)
    requires
        is_line(l, with_return),
    ensures
        scan::lines(l + line_end(with_return)) == seq![l],
{
    let s = l + line_end(with_return);
    let k = s.len() - 1;
    assert forall|j: int| 0 <= j < k implies s[j] != '\n' by {
        if j < l.len() {
            assert(s[j] == l[j]);
        }
    }
    assert(s[k] == '\n');
    scan::lemma_upto_at(s, 0, k, '\n');
    let body = s.subrange(0, k);
    if with_return {
        assert(body.last() == '\r');
        assert(body.drop_last() =~= l);
    } else {
        assert(body =~= l);
    }
    assert(scan::lines_from(s, k + 1) =~= Seq::empty());
    assert(scan::lines(s) =~= seq![l]);
}

/// The lines of a text are those that it was written of, whichever way they
/// end.
pub proof fn law_lines_written(ls: Seq<Seq<char>>, with_return: bool)
    requires
        are_lines(ls, with_return),
    ensures
        scan::lines(lines_text(ls, with_return)) == ls,
    decreases ls.len(),
{
    if ls.len() == 0 {
        assert(scan::lines(lines_text(ls, with_return)) =~= ls);
    } else {
        let rest = ls.drop_last();
        let l = ls.last();
        assert(l == ls[ls.len() - 1]);
        assert(are_lines(rest, with_return)) by {
            assert forall|i: int| 0 <= i < rest.len() implies is_line(
                #[trigger] rest[i],
                with_return,
            ) by {
                assert(rest[i] == ls[i]);
            }
        }
        law_lines_written(rest, with_return);
        lemma_line(l, with_return);
        let a = lines_text(rest, with_return);
        let b = l + line_end(with_return);
        if rest.len() == 0 {
            assert(a + b =~= b);
        } else {
            lemma_ends(rest, with_return);
            blanks::law_lines_split(a, b);
        }
        assert(rest + seq![l] =~= ls);
    }
}

proof fn lemma_ends(ls: Seq<Seq<char>>, with_return: bool)
    requires
        ls.len() > 0,
    ensures
        lines_text(ls, with_return).len() > 0,
        lines_text(ls, with_return).last() == '\n',
{
    let s = lines_text(ls, with_return);
    assert(s[s.len() - 1] == '\n');
}

/// The last line need not end.
pub proof fn law_last_line(ls: Seq<Seq<char>>, last: Seq<char>, with_return: bool)
    requires
        are_lines(ls, with_return),
        last.len() > 0,
        !last.contains('\n'),
    ensures
        scan::lines(lines_text(ls, with_return) + last) == ls.push(last),
{
    let n = last.len() as int;
    assert forall|j: int| 0 <= j < n implies last[j] != '\n' by {}
    scan::lemma_upto_at(last, 0, n, '\n');
    assert(last.subrange(0, n) =~= last);
    assert(scan::lines(last) =~= seq![last]);
    law_lines_written(ls, with_return);
    let a = lines_text(ls, with_return);
    if ls.len() == 0 {
        assert(a + last =~= last);
    } else {
        lemma_ends(ls, with_return);
        blanks::law_lines_split(a, last);
    }
    assert(ls + seq![last] =~= ls.push(last));
}

/// Rows as lines.
pub open spec fn row_lines(rows: Seq<Seq<Seq<char>>>, d: char) -> Seq<Seq<char>> {
    rows.map_values(|c: Seq<Seq<char>>| scan::with_delimiters(c, d))
}

/// Whether a row can be told from a blank line, and its cells from each other.
pub open spec fn row_ok(c: Seq<Seq<char>>, d: char) -> bool {
    c.len() > 0 && scan::delimited(c, d) && scan::trimmed(scan::with_delimiters(c, d)).len() > 0
}

/// Whether all rows can.
pub open spec fn rows_ok(rows: Seq<Seq<Seq<char>>>, d: char) -> bool {
    forall|i: int| 0 <= i < rows.len() ==> row_ok(#[trigger] rows[i], d)
}

proof fn lemma_row(rows: Seq<Seq<Seq<char>>>, d: char, i: int)
    requires
        rows_ok(rows, d),
        0 <= i < rows.len(),
    ensures
        scan::cells(row_lines(rows, d)[i], d) == rows[i],
        scan::trimmed(row_lines(rows, d)[i]).len() > 0,
{
    assert(row_ok(rows[i], d));
    scan::law_cells_written(rows[i], d);
}

/// The format of the times is that of the first row whose time tells one.
proof fn lemma_format(
    rows: Seq<Seq<Seq<char>>>,
    d: char,
    column: int,
    need: int,
    k: int,
    first: int,
)
    requires
        rows_ok(rows, d),
        0 <= k <= first < rows.len(),
        0 <= column < need,
        forall|i: int|
            k <= i < first ==> (#[trigger] rows[i]).len() < need || dates::format_of(
                rows[i][column],
            ) is None,
        rows[first].len() >= need,
        dates::format_of(rows[first][column]) is Some,
    ensures
        tabular::format_from(row_lines(rows, d), k, d, column, need) == dates::format_of(
            rows[first][column],
        ),
    decreases first - k,
{
    lemma_row(rows, d, k);
    if k < first {
        lemma_format(rows, d, column, need, k + 1, first);
    }
}

/// What a row of a table is, its time given.
pub open spec fn table_row(c: Seq<Seq<char>>, cols: Columns, time: i64) -> TableRow {
    TableRow {
        time,
        x: scan::trimmed(c[cols.x as int]),
        y: scan::trimmed(c[cols.y as int]),
        z: scan::trimmed(c[cols.z as int]),
    }
}

/// Whether a table's columns are in a row and its time can be read.
pub open spec fn row_reads(c: Seq<Seq<char>>, cols: Columns, fmt: DateFmt) -> bool {
    cols.time < c.len() && cols.x < c.len() && cols.y < c.len() && cols.z < c.len()
        && dates::instant_in(fmt, c[cols.time as int]) is Some
}

proof fn lemma_table_rows(
    rows: Seq<Seq<Seq<char>>>,
    d: char,
    fmt: DateFmt,
    cols: Columns,
    k: int,
)
    requires
        rows_ok(rows, d),
        0 <= k <= rows.len(),
        forall|i: int| 0 <= i < k ==> row_reads(#[trigger] rows[i], cols, fmt),
    ensures
        tabular::table_rows(row_lines(rows, d), k, d, fmt, cols) matches Ok(r) && r.len() == k
            && forall|i: int|
            0 <= i < k ==> #[trigger] r[i] == table_row(
                rows[i],
                cols,
                dates::instant_in(fmt, rows[i][cols.time as int])->0,
            ),
    decreases k,
{
    if k > 0 {
        lemma_table_rows(rows, d, fmt, cols, k - 1);
        lemma_row(rows, d, k - 1);
        assert(row_reads(rows[k - 1], cols, fmt));
    }
}

/// What a table's text is: lines in front, of which the last is the header, and
/// rows.
pub open spec fn table_text(
    front: Seq<Seq<char>>,
    rows: Seq<Seq<Seq<char>>>,
    d: char,
    with_return: bool,
) -> Seq<char> {
    lines_text(front + row_lines(rows, d), with_return)
}

/// A table gives back every row as it was written: its time in the format that
/// the first row that tells one has, and under x, y and z the cells, without
/// the white space around them, of just the columns that were asked for.
#[verifier::spinoff_prover]
#[verifier::rlimit(60)]
pub proof fn law_table_written(
    bytes: Seq<u8>,
    front: Seq<Seq<char>>,
    rows: Seq<Seq<Seq<char>>>,
    d: char,
    with_return: bool,
    cols: Columns,
    first: int,
    fmt: DateFmt,
)
    requires
        error::text_of(bytes) == Ok::<_, ReadFault>(table_text(front, rows, d, with_return)),
        are_lines(front + row_lines(rows, d), with_return),
        front.len() > 0,
        rows_ok(rows, d),
        rows.len() >= 2,
        0 <= first < rows.len(),
        forall|i: int|
            0 <= i < first ==> dates::format_of((#[trigger] rows[i])[cols.time as int]) is None,
        dates::format_of(rows[first][cols.time as int]) == Some(fmt),
        forall|i: int| 0 <= i < rows.len() ==> row_reads(#[trigger] rows[i], cols, fmt),
    ensures
        tabular::table_of(bytes, d, cols, front.len() - 1) matches Ok(r) && r.len() == rows.len()
            && forall|i: int|
            0 <= i < rows.len() ==> (#[trigger] r[i]).x == scan::trimmed(rows[i][cols.x as int])
                && r[i].y == scan::trimmed(rows[i][cols.y as int]) && r[i].z == scan::trimmed(
                rows[i][cols.z as int],
            ) && Some(r[i].time) == dates::instant_in(fmt, rows[i][cols.time as int]),
{
    let body = row_lines(rows, d);
    let lines = front + body;
    law_lines_written(lines, with_return);
    assert(lines.skip(front.len() as int) =~= body);
    assert(row_reads(rows[first], cols, fmt));
    lemma_format(rows, d, cols.time as int, cols.needed(), 0, first);
    lemma_table_rows(rows, d, fmt, cols, rows.len() as int);
}

/// A row with too few cells, or whose time cannot be read, is an error that
/// names it, where all before it can be read.
#[verifier::spinoff_prover]
#[verifier::rlimit(60)]
pub proof fn law_table_refused(
    bytes: Seq<u8>,
    front: Seq<Seq<char>>,
    rows: Seq<Seq<Seq<char>>>,
    d: char,
    with_return: bool,
    cols: Columns,
    first: int,
    fmt: DateFmt,
    bad: int,
)
    requires
        error::text_of(bytes) == Ok::<_, ReadFault>(table_text(front, rows, d, with_return)),
        are_lines(front + row_lines(rows, d), with_return),
        front.len() > 0,
        rows_ok(rows, d),
        0 <= first < rows.len(),
        0 <= bad < rows.len(),
        cols.needed() <= rows[first].len(),
        forall|i: int|
            0 <= i < first ==> (#[trigger] rows[i]).len() < cols.needed() || dates::format_of(
                rows[i][cols.time as int],
            ) is None,
        dates::format_of(rows[first][cols.time as int]) == Some(fmt),
        forall|i: int| 0 <= i < bad ==> row_reads(#[trigger] rows[i], cols, fmt),
        !row_reads(rows[bad], cols, fmt),
    ensures
        tabular::table_of(bytes, d, cols, front.len() - 1) == Err::<Seq<TableRow>, _>(
            if rows[bad].len() <= cols.time || rows[bad].len() <= cols.x || rows[bad].len()
                <= cols.y || rows[bad].len() <= cols.z {
                ReadFault::ShortRow {
                    row: bad + 1,
                    got: rows[bad].len() as int,
                    need: cols.needed(),
                }
            } else {
                ReadFault::BadTime(scan::trimmed(rows[bad][cols.time as int]), bad + 1)
            },
        ),
{
    let body = row_lines(rows, d);
    let lines = front + body;
    law_lines_written(lines, with_return);
    assert(lines.skip(front.len() as int) =~= body);
    lemma_format(rows, d, cols.time as int, cols.needed(), 0, first);
    lemma_table_rows(rows, d, fmt, cols, bad);
    lemma_row(rows, d, bad);
    tabular::lemma_rows_fault(body, bad + 1, body.len() as int, d, fmt, cols);
}

/// The columns that are needed reach up to the last one asked for.
pub proof fn law_needed(cols: Columns)
    ensures
        cols.needed() > cols.time,
        cols.needed() > cols.x,
        cols.needed() > cols.y,
        cols.needed() > cols.z,
        cols.needed() == cols.time + 1 || cols.needed() == cols.x + 1 || cols.needed() == cols.y
            + 1 || cols.needed() == cols.z + 1,
{
}

/// The place of a name is the first where it stands.
pub proof fn law_position(names: Seq<Seq<char>>, name: Seq<char>, i: int)
    requires
        0 <= i <= names.len(),
    ensures
        match processed::position(names, name, i) {
            Some(k) => i <= k < names.len() && names[k] == name && forall|j: int|
                i <= j < k ==> #[trigger] names[j] != name,
            None => forall|j: int| i <= j < names.len() ==> #[trigger] names[j] != name,
        },
    decreases names.len() - i,
{
    if i < names.len() && names[i] != name {
        law_position(names, name, i + 1);
    }
}

/// Each series has the first column of its own name; that of Y and Z may be
/// named either way round.
pub proof fn law_series_columns(names: Seq<Seq<char>>)
    ensures
        ({
            let c = processed::series_columns(names);
            &&& c.x == processed::position(names, seq!['X', '_', 'P', 'k', 'P', 'k'], 0)
            &&& c.y == processed::position(names, seq!['Y', '_', 'P', 'k', 'P', 'k'], 0)
            &&& c.z == processed::position(names, seq!['Z', '_', 'P', 'k', 'P', 'k'], 0)
            &&& c.xy == processed::position(names, seq!['X', 'Y', '_', 'P', 'k', 'P', 'k'], 0)
            &&& c.xz == processed::position(names, seq!['X', 'Z', '_', 'P', 'k', 'P', 'k'], 0)
            &&& names.contains(seq!['Y', 'Z', '_', 'P', 'k', 'P', 'k']) ==> c.yz
                == processed::position(names, seq!['Y', 'Z', '_', 'P', 'k', 'P', 'k'], 0)
            &&& !names.contains(seq!['Y', 'Z', '_', 'P', 'k', 'P', 'k']) ==> c.yz
                == processed::position(names, seq!['Z', 'Y', '_', 'P', 'k', 'P', 'k'], 0)
        }),
{
    reveal_strlit("X_PkPk");
    reveal_strlit("Y_PkPk");
    reveal_strlit("Z_PkPk");
    reveal_strlit("XY_PkPk");
    reveal_strlit("XZ_PkPk");
    reveal_strlit("YZ_PkPk");
    reveal_strlit("ZY_PkPk");
    assert("X_PkPk"@ =~= seq!['X', '_', 'P', 'k', 'P', 'k']);
    assert("Y_PkPk"@ =~= seq!['Y', '_', 'P', 'k', 'P', 'k']);
    assert("Z_PkPk"@ =~= seq!['Z', '_', 'P', 'k', 'P', 'k']);
    assert("XY_PkPk"@ =~= seq!['X', 'Y', '_', 'P', 'k', 'P', 'k']);
    assert("XZ_PkPk"@ =~= seq!['X', 'Z', '_', 'P', 'k', 'P', 'k']);
    assert("YZ_PkPk"@ =~= seq!['Y', 'Z', '_', 'P', 'k', 'P', 'k']);
    assert("ZY_PkPk"@ =~= seq!['Z', 'Y', '_', 'P', 'k', 'P', 'k']);
    let yz = seq!['Y', 'Z', '_', 'P', 'k', 'P', 'k'];
    law_position(names, yz, 0);
    if names.contains(yz) {
        let k = names.index_of(yz);
        assert(names[k] == yz);
    }
}

/// The cell of a column, where the column and the cell are there.
pub open spec fn column_cell(c: Seq<Seq<char>>, column: Option<int>) -> Option<Seq<char>> {
    if column is Some && column->0 < c.len() {
        Some(scan::trimmed(c[column->0]))
    } else {
        None
    }
}

proof fn lemma_series_rows(
    rows: Seq<Seq<Seq<char>>>,
    fmt: DateFmt,
    time: int,
    names: Seq<Seq<char>>,
    k: int,
)
    requires
        rows_ok(rows, ','),
        0 <= time,
        0 <= k <= rows.len(),
        forall|i: int|
            0 <= i < k ==> time < (#[trigger] rows[i]).len() && dates::instant_in(
                fmt,
                rows[i][time],
            ) is Some,
    ensures
        processed::series_rows(
            row_lines(rows, ','),
            k,
            fmt,
            time,
            processed::series_columns(names),
        ) matches Ok(r) && r.len() == k && forall|i: int|
            0 <= i < k ==> #[trigger] r[i] == results_row(
                rows[i],
                processed::series_columns(names),
                dates::instant_in(fmt, rows[i][time])->0,
            ),
    decreases k,
{
    if k > 0 {
        lemma_series_rows(rows, fmt, time, names, k - 1);
        lemma_row(rows, ',', k - 1);
        assert(time < rows[k - 1].len());
    }
}

/// A comment in front of a table of results: hashes and a text.
pub open spec fn comment_line(hashes: nat, text: Seq<char>) -> Seq<char> {
    Seq::new(hashes, |i: int| '#') + text
}

proof fn lemma_without_hashes(hashes: nat, text: Seq<char>)
    requires
        text.len() == 0 || text[0] != '#',
    ensures
        processed::without_hashes(comment_line(hashes, text)) == text,
    decreases hashes,
{
    let s = comment_line(hashes, text);
    if hashes > 0 {
        assert(s.drop_first() =~= comment_line((hashes - 1) as nat, text));
        lemma_without_hashes((hashes - 1) as nat, text);
    } else {
        assert(s =~= text);
    }
}

/// The lines in front of the rows of a table of results: a comment, where there
/// are hashes, and the column names.
pub open spec fn results_front(
    hashes: nat,
    comment: Seq<char>,
    names: Seq<Seq<char>>,
) -> Seq<Seq<char>> {
    if hashes > 0 {
        seq![comment_line(hashes, comment), scan::with_delimiters(names, ',')]
    } else {
        seq![scan::with_delimiters(names, ',')]
    }
}

/// Names without the white space around them.
pub open spec fn tidy(names: Seq<Seq<char>>) -> Seq<Seq<char>> {
    names.map_values(|c: Seq<char>| scan::trimmed(c))
}

/// Whether this is the first column of that name.
pub open spec fn first_named(names: Seq<Seq<char>>, name: Seq<char>, k: int) -> bool {
    0 <= k < names.len() && scan::trimmed(names[k]) == name && forall|j: int|
        0 <= j < k ==> scan::trimmed(#[trigger] names[j]) != name
}

proof fn lemma_time_column(names: Seq<Seq<char>>, time: int)
    requires
        names.len() > 0,
        scan::delimited(names, ','),
        first_named(names, seq!['T', 'i', 'm', 'e'], time),
    ensures
        headers::trimmed_cells(scan::with_delimiters(names, ','), ',') == tidy(names),
        processed::position(tidy(names), "Time"@, 0) == Some(time),
{
    scan::law_cells_written(names, ',');
    let t = tidy(names);
    assert(headers::trimmed_cells(scan::with_delimiters(names, ','), ',') =~= t);
    reveal_strlit("Time");
    assert("Time"@ =~= seq!['T', 'i', 'm', 'e']);
    law_position(t, "Time"@, 0);
    assert(t[time] == "Time"@);
    let k = processed::position(t, "Time"@, 0)->0;
    if k < time {
        assert(t[k] == scan::trimmed(names[k]));
    }
}

proof fn lemma_results_lines(
    hashes: nat,
    comment: Seq<char>,
    names: Seq<Seq<char>>,
    body: Seq<Seq<char>>,
)
    requires
        comment.len() == 0 || comment[0] != '#',
        hashes > 0 || scan::with_delimiters(names, ',').len() == 0 || scan::with_delimiters(
            names,
            ',',
        )[0] != '#',
    ensures
        ({
            let lines = results_front(hashes, comment, names) + body;
            let at: int = if hashes > 0 {
                1
            } else {
                0
            };
            &&& lines.len() > at
            &&& lines[at] == scan::with_delimiters(names, ',')
            &&& lines.skip(at + 1) == body
            &&& processed::is_comment(lines[0]) == (hashes > 0)
            &&& hashes > 0 ==> processed::without_hashes(lines[0]) == comment
        }),
{
    let front = results_front(hashes, comment, names);
    let lines = front + body;
    lemma_without_hashes(hashes, comment);
    assert(lines.skip(front.len() as int) =~= body);
    assert(lines[0] == front[0]);
    if hashes > 0 {
        assert(comment_line(hashes, comment)[0] == '#');
        assert(lines[1] == front[1]);
    }
}

/// A table of results gives back every row as it was written: its time, and
/// under each series the cell of the column with that name. The comment in front
/// is its text without the hashes and the white space around it.
#[verifier::spinoff_prover]
#[verifier::rlimit(60)]
pub proof fn law_results_written(
    bytes: Seq<u8>,
    hashes: nat,
    comment: Seq<char>,
    names: Seq<Seq<char>>,
    rows: Seq<Seq<Seq<char>>>,
    with_return: bool,
    time: int,
    first: int,
    fmt: DateFmt,
)
    requires
        error::text_of(bytes) == Ok::<_, ReadFault>(
            table_text(results_front(hashes, comment, names), rows, ',', with_return),
        ),
        are_lines(results_front(hashes, comment, names) + row_lines(rows, ','), with_return),
        comment.len() == 0 || comment[0] != '#',
        names.len() > 0,
        scan::delimited(names, ','),
        hashes > 0 || scan::with_delimiters(names, ',').len() == 0 || scan::with_delimiters(
            names,
            ',',
        )[0] != '#',
        rows_ok(rows, ','),
        first_named(names, seq!['T', 'i', 'm', 'e'], time),
        times_read(rows, time, first, fmt),
    ensures
        processed::processed_of(bytes) matches Ok(f) && f.rows.len() == rows.len() && f.metadata
            == (if hashes > 0 {
            scan::trimmed(comment)
        } else {
            Seq::empty()
        }) && forall|i: int|
            0 <= i < rows.len() ==> (#[trigger] f.rows[i]) == results_row(
                rows[i],
                processed::series_columns(tidy(names)),
                dates::instant_in(fmt, rows[i][time])->0,
            ),
{
    let body = row_lines(rows, ',');
    law_lines_written(results_front(hashes, comment, names) + body, with_return);
    lemma_results_lines(hashes, comment, names, body);
    lemma_time_column(names, time);
    lemma_results_body(rows, names, time, first, fmt);
}

/// Whether every row has a time in a format, and the first row whose time tells
/// a format tells this one.
pub open spec fn times_read(
    rows: Seq<Seq<Seq<char>>>,
    time: int,
    first: int,
    fmt: DateFmt,
) -> bool {
    &&& 0 <= first < rows.len()
    &&& forall|i: int| 0 <= i < first ==> dates::format_of((#[trigger] rows[i])[time]) is None
    &&& forall|i: int|
        0 <= i < rows.len() ==> time < (#[trigger] rows[i]).len() && dates::instant_in(
            fmt,
            rows[i][time],
        ) is Some
    &&& dates::format_of(rows[first][time]) == Some(fmt)
}

proof fn lemma_results_body(
    rows: Seq<Seq<Seq<char>>>,
    names: Seq<Seq<char>>,
    time: int,
    first: int,
    fmt: DateFmt,
)
    requires
        rows_ok(rows, ','),
        0 <= time,
        times_read(rows, time, first, fmt),
    ensures
        tabular::format_from(row_lines(rows, ','), 0, ',', time, time + 1) == Some(fmt),
        processed::series_rows(
            row_lines(rows, ','),
            rows.len() as int,
            fmt,
            time,
            processed::series_columns(tidy(names)),
        ) matches Ok(r) && r.len() == rows.len() && forall|i: int|
            0 <= i < rows.len() ==> #[trigger] r[i] == results_row(
                rows[i],
                processed::series_columns(tidy(names)),
                dates::instant_in(fmt, rows[i][time])->0,
            ),
{
    assert(time < rows[first].len());
    lemma_format(rows, ',', time, time + 1, 0, first);
    lemma_series_rows(rows, fmt, time, tidy(names), rows.len() as int);
}

/// A row of results: under each series the cell of its column.
pub open spec fn results_row(
    c: Seq<Seq<char>>,
    cols: SeriesColumns,
    time: i64,
) -> SeriesRow {
    SeriesRow {
        time,
        x: column_cell(c, cols.x),
        y: column_cell(c, cols.y),
        z: column_cell(c, cols.z),
        xy: column_cell(c, cols.xy),
        xz: column_cell(c, cols.xz),
        yz: column_cell(c, cols.yz),
    }
}

/// A row of a DAT file as it is read.
pub open spec fn dat_row(c: Seq<Seq<char>>, row: int) -> DatRowModel {
    DatRowModel {
        row,
        time: c[0],
        x: scan::trimmed(c[1]),
        y: scan::trimmed(c[2]),
        z: scan::trimmed(c[3]),
    }
}

proof fn lemma_dat_rows(rows: Seq<Seq<Seq<char>>>, k: int)
    requires
        rows_ok(rows, '\t'),
        0 <= k <= rows.len(),
        forall|i: int| 0 <= i < k ==> (#[trigger] rows[i]).len() >= 4,
    ensures
        dat::dat_rows(row_lines(rows, '\t'), k).1 is None,
        dat::dat_rows(row_lines(rows, '\t'), k).0.len() == k,
        forall|i: int|
            0 <= i < k ==> #[trigger] dat::dat_rows(row_lines(rows, '\t'), k).0[i] == dat_row(
                rows[i],
                i + 1,
            ),
    decreases k,
{
    if k > 0 {
        lemma_dat_rows(rows, k - 1);
        lemma_row(rows, '\t', k - 1);
    }
}

/// The line that says when a scan started.
pub open spec fn scan_line(
    hour: int,
    minute: int,
    second: int,
    fs: Seq<int>,
    day: int,
    month: int,
    year: int,
) -> Seq<char> {
    dat::scan_prefix() + (dates::time_text(hour, minute, second, fs).push(' ')
        + dates::two_digits(day).push('/') + dates::two_digits(month).push('/')
        + dates::four_digits(year))
}

proof fn lemma_no_space(s: Seq<char>)
    requires
        forall|i: int|
            0 <= i < s.len() ==> dates::is_digit(#[trigger] s[i]) || s[i] == ':' || s[i] == '.'
                || s[i] == '/',
    ensures
        forall|i: int| 0 <= i < s.len() ==> !scan::is_space(#[trigger] s[i]),
{
}

/// When a scan started is read as it was written: a time of day, and a date
/// with the day first.
#[verifier::spinoff_prover]
#[verifier::rlimit(60)]
pub proof fn law_scan_start(
    hour: int,
    minute: int,
    second: int,
    fs: Seq<int>,
    day: int,
    month: int,
    year: int,
)
    requires
        0 <= year < 10_000,
        0 <= month < 100,
        0 <= day < 100,
        0 <= hour < 100,
        0 <= minute < 100,
        0 <= second < 100,
        forall|i: int| 0 <= i < fs.len() ==> 0 <= #[trigger] fs[i] < 10,
    ensures
        dat::scan_prefix() == seq![
            'S', 'c', 'a', 'n', ' ', 's', 't', 'a', 'r', 't', 'e', 'd', ' ', 'a', 't', ' ',
        ],
        dat::scan_start(scan_line(hour, minute, second, fs, day, month, year))
            == calendar::instant(
            year as i32,
            month as u32,
            day as u32,
            hour as u32,
            minute as u32,
            second as u32,
            dates::fraction_value(fs, 9) as u32,
        ),
{
    reveal_strlit("Scan started at ");
    assert(dat::scan_prefix() =~= seq![
        'S', 'c', 'a', 'n', ' ', 's', 't', 'a', 'r', 't', 'e', 'd', ' ', 'a', 't', ' ',
    ]);
    let y = dates::four_digits(year);
    let m = dates::two_digits(month);
    let d = dates::two_digits(day);
    let time = dates::time_text(hour, minute, second, fs);
    let date = d.push('/') + m.push('/') + y;
    let rest = time.push(' ') + d.push('/') + m.push('/') + y;
    let line = scan_line(hour, minute, second, fs, day, month, year);
    let p = dat::scan_prefix();
    assert(line.subrange(0, p.len() as int) =~= p);
    assert(line.skip(p.len() as int) =~= rest);
    dates::law_digits_read(year);
    dates::law_digits_read(month);
    dates::law_digits_read(day);
    dates::law_digits_read(hour);
    dates::law_digits_read(minute);
    dates::law_digits_read(second);
    let none = Seq::<char>::empty();
    assert(rest =~= none + time + (seq![' '] + date));
    assert(rest =~= none + rest + none);
    lemma_date_chars(date, d, m, y);
    lemma_time_chars(time, hour, minute, second, fs);
    lemma_no_space(date);
    lemma_no_space(time);
    assert(rest[0] == time[0]);
    assert(rest.last() == date[date.len() - 1]);
    scan::law_trimmed(none, rest, none);
    scan::law_next_word(none, time, seq![' '] + date);
    assert(seq![' '] + date =~= seq![' '] + date + none);
    scan::law_next_word(seq![' '], date, none);
    assert(date.push(' ') + time =~= dates::written(d, m, y, '/', ' ', time));
    dates::law_dates_read(none, none, year, month, day, hour, minute, second, fs);
    let w = dates::written(d, m, y, '/', ' ', time);
    assert(none + w + none =~= w);
    assert(w[0] == d[0]);
    assert(dates::is_digit(d[0]));
    assert(w.last() == time.last());
    assert(time.last() == time[time.len() - 1]);
    scan::law_trimmed(none, w, none);
}

proof fn lemma_date_chars(date: Seq<char>, d: Seq<char>, m: Seq<char>, y: Seq<char>)
    requires
        date == d.push('/') + m.push('/') + y,
        dates::all_digits(d),
        dates::all_digits(m),
        dates::all_digits(y),
    ensures
        forall|i: int|
            0 <= i < date.len() ==> dates::is_digit(#[trigger] date[i]) || date[i] == ':'
                || date[i] == '.' || date[i] == '/',
{
    assert forall|i: int| 0 <= i < date.len() implies dates::is_digit(#[trigger] date[i])
        || date[i] == ':' || date[i] == '.' || date[i] == '/' by {
        if i < d.len() {
            assert(date[i] == d[i]);
        } else if d.len() < i < d.len() + 1 + m.len() {
            assert(date[i] == m[i - d.len() - 1]);
        } else if i > d.len() + 1 + m.len() {
            assert(date[i] == y[i - d.len() - m.len() - 2]);
        }
    }
}

proof fn lemma_time_chars(time: Seq<char>, hour: int, minute: int, second: int, fs: Seq<int>)
    requires
        0 <= hour < 100,
        0 <= minute < 100,
        0 <= second < 100,
        forall|i: int| 0 <= i < fs.len() ==> 0 <= #[trigger] fs[i] < 10,
        time == dates::time_text(hour, minute, second, fs),
    ensures
        time.len() > 0,
        forall|i: int|
            0 <= i < time.len() ==> dates::is_digit(#[trigger] time[i]) || time[i] == ':'
                || time[i] == '.' || time[i] == '/',
{
    let h = dates::two_digits(hour);
    let mi = dates::two_digits(minute);
    let s = dates::two_digits(second);
    let f = dates::fraction_text(fs);
    dates::law_digits_read(hour);
    dates::law_digits_read(minute);
    dates::law_digits_read(second);
    assert forall|i: int| 0 <= i < time.len() implies dates::is_digit(#[trigger] time[i])
        || time[i] == ':' || time[i] == '.' || time[i] == '/' by {
        if i < 2 {
            assert(time[i] == h[i]);
        } else if 3 <= i < 5 {
            assert(time[i] == mi[i - 3]);
        } else if 6 <= i < 8 {
            assert(time[i] == s[i - 6]);
        } else if i > 8 {
            assert(time[i] == f[i - 8]);
            assert(f[i - 8] == dates::digit(fs[i - 9]));
        } else if i == 8 {
            assert(time[i] == f[0]);
        }
    }
}

/// A DAT file gives back every row as it was written: its number, the text of
/// its time, and its channels in their order. The first line says when the scan
/// started.
#[verifier::spinoff_prover]
#[verifier::rlimit(60)]
pub proof fn law_dat_written(
    bytes: Seq<u8>,
    start: Seq<char>,
    header: Seq<char>,
    rows: Seq<Seq<Seq<char>>>,
    with_return: bool,
)
    requires
        error::text_of(bytes) == Ok::<_, ReadFault>(
            table_text(seq![start, header], rows, '\t', with_return),
        ),
        are_lines(seq![start, header] + row_lines(rows, '\t'), with_return),
        rows_ok(rows, '\t'),
        dat::scan_start(start) is Some,
        forall|i: int| 0 <= i < rows.len() ==> (#[trigger] rows[i]).len() >= 4,
    ensures
        dat::dat_of(bytes) matches Ok(f) && Some(f.start_ns) == dat::scan_start(start)
            && f.short is None && f.rows.len() == rows.len() && forall|i: int|
            0 <= i < rows.len() ==> (#[trigger] f.rows[i]).row == i + 1 && f.rows[i].time
                == rows[i][0] && f.rows[i].x == scan::trimmed(rows[i][1]) && f.rows[i].y
                == scan::trimmed(rows[i][2]) && f.rows[i].z == scan::trimmed(rows[i][3]),
{
    let front = seq![start, header];
    let body = row_lines(rows, '\t');
    let lines = front + body;
    law_lines_written(lines, with_return);
    assert(lines.skip(2) =~= body);
    assert(lines[0] == start);
    lemma_dat_rows(rows, rows.len() as int);
}

/// The first row of a DAT file that is too short ends it, with its number and
/// its length.
#[verifier::spinoff_prover]
#[verifier::rlimit(60)]
pub proof fn law_dat_short(
    bytes: Seq<u8>,
    start: Seq<char>,
    header: Seq<char>,
    rows: Seq<Seq<Seq<char>>>,
    with_return: bool,
    bad: int,
)
    requires
        error::text_of(bytes) == Ok::<_, ReadFault>(
            table_text(seq![start, header], rows, '\t', with_return),
        ),
        are_lines(seq![start, header] + row_lines(rows, '\t'), with_return),
        rows_ok(rows, '\t'),
        dat::scan_start(start) is Some,
        0 <= bad < rows.len(),
        forall|i: int| 0 <= i < bad ==> (#[trigger] rows[i]).len() >= 4,
        rows[bad].len() < 4,
    ensures
        dat::dat_of(bytes) matches Ok(f) && f.short == Some((bad + 1, rows[bad].len() as int))
            && f.rows.len() == bad && forall|i: int|
            0 <= i < bad ==> (#[trigger] f.rows[i]).row == i + 1 && f.rows[i].time == rows[i][0],
{
    let front = seq![start, header];
    let body = row_lines(rows, '\t');
    let lines = front + body;
    law_lines_written(lines, with_return);
    assert(lines.skip(2) =~= body);
    assert(lines[0] == start);
    lemma_dat_rows(rows, bad);
    lemma_row(rows, '\t', bad);
    lemma_short_stays(body, bad + 1, body.len() as int);
}

proof fn lemma_short_stays(body: Seq<Seq<char>>, j: int, k: int)
    requires
        0 < j <= k,
        dat::dat_rows(body, j).1 is Some,
    ensures
        dat::dat_rows(body, k) == dat::dat_rows(body, j),
    decreases k - j,
{
    if j < k {
        lemma_short_stays(body, j, k - 1);
    }
}

/// The rows of a DAT file are in order exactly where all times are numbers, no
/// row is too short and there are at least two; of several faults the first
/// time that is no number counts.
pub proof fn law_dat_fault(f: dat::DatModel, numeric: Seq<bool>, i: int)
    requires
        numeric.len() == f.rows.len(),
        0 <= i <= numeric.len(),
        forall|j: int| 0 <= j < i ==> #[trigger] numeric[j],
    ensures
        i < numeric.len() && !numeric[i] ==> f.fault(numeric) == Some(
            ReadFault::BadNumber(f.rows[i].time, f.rows[i].row, 0),
        ),
        i == numeric.len() ==> (f.short matches Some((row, got)) ==> f.fault(numeric) == Some(
            ReadFault::ShortRow { row, got, need: 4 },
        )),
        i == numeric.len() && f.short is None ==> f.fault(numeric) == (if f.rows.len() < 2 {
            Some(ReadFault::Empty)
        } else {
            None
        }),
{
    lemma_all_numbers(numeric, 0, i);
}

proof fn lemma_all_numbers(numeric: Seq<bool>, j: int, i: int)
    requires
        0 <= j <= i <= numeric.len(),
        forall|k: int| 0 <= k < i ==> #[trigger] numeric[k],
    ensures
        dat::first_non_number(numeric, j) == dat::first_non_number(numeric, i),
    decreases i - j,
{
    if j < i {
        assert(numeric[j]);
        lemma_all_numbers(numeric, j + 1, i);
    }
}

/// The instants of a grid start with its start and are a step apart.
pub proof fn law_grid(start_ns: i128, step_ns: i64, i: int)
    ensures
        dat::grid_instant(start_ns, step_ns, 0) == start_ns,
        dat::grid_instant(start_ns, step_ns, i + 1) - dat::grid_instant(start_ns, step_ns, i)
            == step_ns,
{
    assert(0 * step_ns == 0);
    assert((i + 1) * step_ns == i * step_ns + step_ns) by (nonlinear_arith);
}

/// The column names of a text are the cells of its first line, without the
/// white space around them.
pub proof fn law_headers_written(
    names: Seq<Seq<char>>,
    more: Seq<Seq<char>>,
    d: char,
    with_return: bool,
)
    requires
        names.len() > 0,
        scan::delimited(names, d),
        are_lines(seq![scan::with_delimiters(names, d)] + more, with_return),
    ensures
        ({
            let s = lines_text(seq![scan::with_delimiters(names, d)] + more, with_return);
            let got = headers::trimmed_cells(headers::first_line(s), d);
            got.len() == names.len() && forall|i: int|
                0 <= i < names.len() ==> #[trigger] got[i] == scan::trimmed(names[i])
        }),
{
    law_lines_written(seq![scan::with_delimiters(names, d)] + more, with_return);
    scan::law_cells_written(names, d);
}

proof fn lemma_non_empty(s: Seq<Seq<char>>)
    requires
        forall|i: int| 0 <= i < s.len() ==> (#[trigger] s[i]).len() > 0,
    ensures
        headers::non_empty(s) == s,
    decreases s.len(),
{
    if s.len() > 0 {
        let rest = s.drop_last();
        assert forall|i: int| 0 <= i < rest.len() implies (#[trigger] rest[i]).len() > 0 by {
            assert(rest[i] == s[i]);
        }
        lemma_non_empty(rest);
        assert(s[s.len() - 1].len() > 0);
        assert(rest.push(s.last()) =~= s);
    } else {
        assert(headers::non_empty(s) =~= s);
    }
}

/// Names that are empty do not count.
pub proof fn law_non_empty(a: Seq<Seq<char>>, b: Seq<Seq<char>>, gap: Seq<char>)
    requires
        gap.len() == 0,
    ensures
        headers::non_empty(a + seq![gap] + b) == headers::non_empty(a + b),
    decreases b.len(),
{
    let s = a + seq![gap] + b;
    if b.len() == 0 {
        assert(s.drop_last() =~= a);
        assert(a + b =~= a);
    } else {
        let rest = b.drop_last();
        law_non_empty(a, rest, gap);
        assert(s.drop_last() =~= a + seq![gap] + rest);
        assert((a + b).drop_last() =~= a + rest);
        assert(s.last() == b.last() && (a + b).last() == b.last());
    }
}

/// The channel names of a DAT file are the three behind the first in its second
/// line; where that has fewer than four, they are X, Y and Z.
#[verifier::spinoff_prover]
#[verifier::rlimit(60)]
pub proof fn law_dat_names_written(
    start: Seq<char>,
    names: Seq<Seq<char>>,
    more: Seq<Seq<char>>,
    with_return: bool,
)
    requires
        names.len() > 0,
        scan::delimited(names, '\t'),
        forall|i: int| 0 <= i < names.len() ==> scan::trimmed(#[trigger] names[i]).len() > 0,
        are_lines(seq![start, scan::with_delimiters(names, '\t')] + more, with_return),
    ensures
        ({
            let s = lines_text(
                seq![start, scan::with_delimiters(names, '\t')] + more,
                with_return,
            );
            headers::dat_names(s) == if names.len() >= 4 {
                seq![
                    scan::trimmed(names[1]),
                    scan::trimmed(names[2]),
                    scan::trimmed(names[3]),
                ]
            } else {
                seq![seq!['X'], seq!['Y'], seq!['Z']]
            }
        }),
{
    let lines = seq![start, scan::with_delimiters(names, '\t')] + more;
    law_lines_written(lines, with_return);
    scan::law_cells_written(names, '\t');
    assert(lines[1] == scan::with_delimiters(names, '\t'));
    let tidy = headers::trimmed_cells(lines[1], '\t');
    assert forall|i: int| 0 <= i < tidy.len() implies (#[trigger] tidy[i]).len() > 0 by {
        assert(tidy[i] == scan::trimmed(names[i]));
    }
    lemma_non_empty(tidy);
    reveal_strlit("X");
    reveal_strlit("Y");
    reveal_strlit("Z");
    assert("X"@ =~= seq!['X']);
    assert("Y"@ =~= seq!['Y']);
    assert("Z"@ =~= seq!['Z']);
    if names.len() >= 4 {
        assert(tidy.subrange(1, 4) =~= seq![
            scan::trimmed(names[1]),
            scan::trimmed(names[2]),
            scan::trimmed(names[3]),
        ]);
    } else {
        assert(seq!["X"@, "Y"@, "Z"@] =~= seq![seq!['X'], seq!['Y'], seq!['Z']]);
    }
}

/// A text is read of its UTF-8 bytes as it was written, and of no others.
pub proof fn law_text_read(s: Seq<char>, bytes: Seq<u8>, d: char, cols: Columns, skip: int)
    ensures
        error::text_of(utf8::encode_utf8(s)) == Ok::<_, ReadFault>(s),
        error::text_of(bytes) matches Ok(t) ==> utf8::encode_utf8(t) == bytes,
        error::text_of(bytes) is Err ==> error::text_of(bytes) == Err::<Seq<char>, _>(
            ReadFault::NotUtf8,
        ) && tabular::table_of(bytes, d, cols, skip) == Err::<Seq<TableRow>, _>(ReadFault::NotUtf8) && dat::dat_of(bytes) == Err::<
            dat::DatModel,
            _,
        >(ReadFault::NotUtf8) && processed::processed_of(bytes) == Err::<ProcessedModel, _>(
            ReadFault::NotUtf8,
        ),
{
    utf8::encode_utf8_valid_utf8(s);
    utf8::encode_utf8_decode_utf8(s);
    if utf8::valid_utf8(bytes) {
        utf8::decode_utf8_encode_utf8(bytes);
    }
}

/// A table without its header row is an error.
pub proof fn law_table_without_header(
    bytes: Seq<u8>,
    ls: Seq<Seq<char>>,
    with_return: bool,
    d: char,
    cols: Columns,
    skip: int,
)
    requires
        error::text_of(bytes) == Ok::<_, ReadFault>(lines_text(ls, with_return)),
        are_lines(ls, with_return),
        ls.len() <= skip,
    ensures
        tabular::table_of(bytes, d, cols, skip) == Err::<Seq<TableRow>, _>(ReadFault::NoHeader),
{
    law_lines_written(ls, with_return);
}

proof fn lemma_no_format(
    rows: Seq<Seq<Seq<char>>>,
    d: char,
    column: int,
    need: int,
    k: int,
)
    requires
        rows_ok(rows, d),
        0 <= k <= rows.len(),
        forall|i: int|
            k <= i < rows.len() ==> (#[trigger] rows[i]).len() < need || dates::format_of(
                rows[i][column],
            ) is None,
    ensures
        tabular::format_from(row_lines(rows, d), k, d, column, need) is None,
    decreases rows.len() - k,
{
    if k < rows.len() {
        lemma_row(rows, d, k);
        lemma_no_format(rows, d, column, need, k + 1);
    }
}

/// A table of which no row tells the format of its times is an error.
#[verifier::spinoff_prover]
#[verifier::rlimit(60)]
pub proof fn law_table_without_format(
    bytes: Seq<u8>,
    front: Seq<Seq<char>>,
    rows: Seq<Seq<Seq<char>>>,
    d: char,
    with_return: bool,
    cols: Columns,
)
    requires
        error::text_of(bytes) == Ok::<_, ReadFault>(table_text(front, rows, d, with_return)),
        are_lines(front + row_lines(rows, d), with_return),
        front.len() > 0,
        rows_ok(rows, d),
        forall|i: int|
            0 <= i < rows.len() ==> (#[trigger] rows[i]).len() < cols.needed() || dates::format_of(
                rows[i][cols.time as int],
            ) is None,
    ensures
        tabular::table_of(bytes, d, cols, front.len() - 1) == Err::<Seq<TableRow>, _>(
            ReadFault::BadTime("(no detectable format)"@, 0),
        ),
{
    let body = row_lines(rows, d);
    law_lines_written(front + body, with_return);
    assert((front + body).skip(front.len() as int) =~= body);
    lemma_no_format(rows, d, cols.time as int, cols.needed(), 0);
}

/// A table of one row is an error.
#[verifier::spinoff_prover]
#[verifier::rlimit(60)]
pub proof fn law_table_of_one_row(
    bytes: Seq<u8>,
    front: Seq<Seq<char>>,
    row: Seq<Seq<char>>,
    d: char,
    with_return: bool,
    cols: Columns,
    fmt: DateFmt,
)
    requires
        error::text_of(bytes) == Ok::<_, ReadFault>(table_text(front, seq![row], d, with_return)),
        are_lines(front + row_lines(seq![row], d), with_return),
        front.len() > 0,
        rows_ok(seq![row], d),
        dates::format_of(row[cols.time as int]) == Some(fmt),
        row_reads(row, cols, fmt),
    ensures
        tabular::table_of(bytes, d, cols, front.len() - 1) == Err::<Seq<TableRow>, _>(
            ReadFault::Empty,
        ),
{
    let rows = seq![row];
    let body = row_lines(rows, d);
    law_lines_written(front + body, with_return);
    assert((front + body).skip(front.len() as int) =~= body);
    assert(rows[0] == row);
    lemma_format(rows, d, cols.time as int, cols.needed(), 0, 0);
    lemma_table_rows(rows, d, fmt, cols, 1);
}

/// A row of results without a cell in the time column does not count; one whose
/// time cannot be read is an error that names it.
pub proof fn law_results_in_turn(
    rows: Seq<Seq<Seq<char>>>,
    k: int,
    fmt: DateFmt,
    time: int,
    cols: SeriesColumns,
)
    requires
        rows_ok(rows, ','),
        0 <= k < rows.len(),
        0 <= time,
    ensures
        ({
            let before = processed::series_rows(row_lines(rows, ','), k, fmt, time, cols);
            let after = processed::series_rows(row_lines(rows, ','), k + 1, fmt, time, cols);
            &&& rows[k].len() <= time ==> after == before
            &&& before is Err ==> after == before
            &&& before is Ok && rows[k].len() > time && dates::instant_in(
                fmt,
                rows[k][time],
            ) is None ==> after == Err::<Seq<SeriesRow>, _>(
                ReadFault::BadTime(scan::trimmed(rows[k][time]), k + 1),
            )
            &&& before is Ok && rows[k].len() > time ==> (dates::instant_in(
                fmt,
                rows[k][time],
            ) matches Some(t) ==> after == Ok::<_, ReadFault>(
                before->Ok_0.push(results_row(rows[k], cols, t)),
            ))
        }),
{
    lemma_row(rows, ',', k);
}

/// A table of results without lines, or whose names have no time among them, has
/// no header.
#[verifier::spinoff_prover]
#[verifier::rlimit(60)]
pub proof fn law_results_without_header(
    bytes: Seq<u8>,
    hashes: nat,
    comment: Seq<char>,
    names: Seq<Seq<char>>,
    more: Seq<Seq<char>>,
    with_return: bool,
)
    requires
        comment.len() == 0 || comment[0] != '#',
        names.len() > 0,
        scan::delimited(names, ','),
        hashes > 0 || scan::with_delimiters(names, ',').len() == 0 || scan::with_delimiters(
            names,
            ',',
        )[0] != '#',
        error::text_of(bytes) == Ok::<_, ReadFault>(
            lines_text(results_front(hashes, comment, names) + more, with_return),
        ),
        are_lines(results_front(hashes, comment, names) + more, with_return),
        forall|j: int|
            0 <= j < names.len() ==> scan::trimmed(#[trigger] names[j]) != seq!['T', 'i', 'm', 'e'],
    ensures
        processed::processed_of(bytes) == Err::<ProcessedModel, _>(ReadFault::NoHeader),
{
    law_lines_written(results_front(hashes, comment, names) + more, with_return);
    lemma_results_lines(hashes, comment, names, more);
    scan::law_cells_written(names, ',');
    let t = tidy(names);
    assert(headers::trimmed_cells(scan::with_delimiters(names, ','), ',') =~= t);
    reveal_strlit("Time");
    assert("Time"@ =~= seq!['T', 'i', 'm', 'e']);
    law_position(t, "Time"@, 0);
    if processed::position(t, "Time"@, 0) is Some {
        let k = processed::position(t, "Time"@, 0)->0;
        assert(t[k] == scan::trimmed(names[k]));
    }
}

/// A table of results of which no row tells the format of its times is an error.
#[verifier::spinoff_prover]
#[verifier::rlimit(60)]
pub proof fn law_results_without_format(
    bytes: Seq<u8>,
    names: Seq<Seq<char>>,
    rows: Seq<Seq<Seq<char>>>,
    with_return: bool,
    time: int,
)
    requires
        names.len() > 0,
        scan::delimited(names, ','),
        scan::with_delimiters(names, ',').len() == 0 || scan::with_delimiters(names, ',')[0]
            != '#',
        error::text_of(bytes) == Ok::<_, ReadFault>(
            table_text(results_front(0, Seq::empty(), names), rows, ',', with_return),
        ),
        are_lines(results_front(0, Seq::empty(), names) + row_lines(rows, ','), with_return),
        rows_ok(rows, ','),
        first_named(names, seq!['T', 'i', 'm', 'e'], time),
        forall|i: int|
            0 <= i < rows.len() ==> (#[trigger] rows[i]).len() <= time || dates::format_of(
                rows[i][time],
            ) is None,
    ensures
        processed::processed_of(bytes) == Err::<ProcessedModel, _>(
            ReadFault::BadTime("processed-csv"@, 0),
        ),
{
    let body = row_lines(rows, ',');
    law_lines_written(results_front(0, Seq::empty(), names) + body, with_return);
    lemma_results_lines(0, Seq::empty(), names, body);
    lemma_time_column(names, time);
    lemma_no_format(rows, ',', time, time + 1, 0);
}

/// A DAT file without lines has no header; one whose first line does not say
/// when the scan started is an error that gives that line; one of that line
/// alone has no header.
pub proof fn law_dat_refused(bytes: Seq<u8>, ls: Seq<Seq<char>>, with_return: bool)
    requires
        error::text_of(bytes) == Ok::<_, ReadFault>(lines_text(ls, with_return)),
        are_lines(ls, with_return),
    ensures
        ls.len() == 0 ==> dat::dat_of(bytes) == Err::<dat::DatModel, _>(ReadFault::NoHeader),
        ls.len() > 0 && dat::scan_start(ls[0]) is None ==> dat::dat_of(bytes) == Err::<
            dat::DatModel,
            _,
        >(ReadFault::DatBadHeader(ls[0])),
        ls.len() == 1 && dat::scan_start(ls[0]) is Some ==> dat::dat_of(bytes) == Err::<
            dat::DatModel,
            _,
        >(ReadFault::NoHeader),
{
    law_lines_written(ls, with_return);
}

/// A line that does not start with the words of a scan's start gives none.
pub proof fn law_no_scan_start(line: Seq<char>, i: int)
    requires
        0 <= i < 16,
        i >= line.len() || line[i] != seq![
            'S', 'c', 'a', 'n', ' ', 's', 't', 'a', 'r', 't', 'e', 'd', ' ', 'a', 't', ' ',
        ][i],
    ensures
        dat::scan_start(line) is None,
{
    reveal_strlit("Scan started at ");
    assert(dat::scan_prefix() =~= seq![
        'S', 'c', 'a', 'n', ' ', 's', 't', 'a', 'r', 't', 'e', 'd', ' ', 'a', 't', ' ',
    ]);
    if dat::scan_prefix().is_prefix_of(line) {
        assert(line.subrange(0, 16)[i] == line[i]);
    }
}

/// A grid fits where its first and its last instant do.
pub proof fn law_grid_fits(start_ns: i128, n: nat, step_ns: i64)
    requires
        n > 0,
    ensures
        dat::grid_fits(start_ns, n, step_ns) == (-0x8000_0000_0000_0000 <= start_ns
            < 0x8000_0000_0000_0000 && -0x8000_0000_0000_0000 <= start_ns + (n - 1) * step_ns
            < 0x8000_0000_0000_0000),
{
    let last = (n - 1) * step_ns;
    law_grid(start_ns, step_ns, 0);
    assert(dat::grid_instant(start_ns, step_ns, n - 1) == start_ns + last);
    if -0x8000_0000_0000_0000 <= start_ns < 0x8000_0000_0000_0000 && -0x8000_0000_0000_0000
        <= start_ns + last < 0x8000_0000_0000_0000 {
        assert forall|i: int| 0 <= i < n implies i64::MIN <= #[trigger] dat::grid_instant(
            start_ns,
            step_ns,
            i,
        ) <= i64::MAX by {
            assert(step_ns >= 0 ==> 0 <= i * step_ns <= last) by (nonlinear_arith)
                requires
                    0 <= i <= n - 1,
                    last == (n - 1) * step_ns,
            ;
            assert(step_ns < 0 ==> last <= i * step_ns <= 0) by (nonlinear_arith)
                requires
                    0 <= i <= n - 1,
                    last == (n - 1) * step_ns,
            ;
        }
    }
}

} // verus!
