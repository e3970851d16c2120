//! Tables of pk-pk results that an earlier run has written.

use super::error;
use super::error::{ReadError, ReadFault};
use super::headers;
use super::tabular;
use crate::dates;
use crate::dates::DateFmt;
use crate::scan;
use crate::slices;
use crate::text;
use vstd::prelude::*;

verus! {

/// A line without the `#`s in front.
pub open spec fn without_hashes(s: Seq<char>) -> Seq<char>
    decreases s.len(),
{
    if s.len() > 0 && s[0] == '#' {
        without_hashes(s.drop_first())
    } else {
        s
    }
}

/// Whether a line is a comment.
pub open spec fn is_comment(line: Seq<char>) -> bool {
    line.len() > 0 && line[0] == '#'
}

/// The first place of a name from `i` on.
pub open spec fn position(names: Seq<Seq<char>>, name: Seq<char>, i: int) -> Option<int>
    decreases names.len() - i,
{
    if i >= names.len() {
        None
    } else if names[i] == name {
        Some(i)
    } else {
        position(names, name, i + 1)
    }
}

/// Which columns hold the series. The names of the last one may be either way
/// round.
pub struct SeriesColumns {
    pub x: Option<int>,
    pub y: Option<int>,
    pub z: Option<int>,
    pub xy: Option<int>,
    pub xz: Option<int>,
    pub yz: Option<int>,
}

/// The columns that a header row names.
pub open spec fn series_columns(names: Seq<Seq<char>>) -> SeriesColumns {
    SeriesColumns {
        x: position(names, "X_PkPk"@, 0),
        y: position(names, "Y_PkPk"@, 0),
        z: position(names, "Z_PkPk"@, 0),
        xy: position(names, "XY_PkPk"@, 0),
        xz: position(names, "XZ_PkPk"@, 0),
        yz: match position(names, "YZ_PkPk"@, 0) {
            Some(i) => Some(i),
            None => position(names, "ZY_PkPk"@, 0),
        },
    }
}

/// A row: its time, and the texts of its cells where it has them.
pub struct SeriesRow {
    pub time: i64,
    pub x: Option<Seq<char>>,
    pub y: Option<Seq<char>>,
    pub z: Option<Seq<char>>,
    pub xy: Option<Seq<char>>,
    pub xz: Option<Seq<char>>,
    pub yz: Option<Seq<char>>,
}

/// The text of a cell, where the column and the cell are there.
pub open spec fn cell_at(c: Seq<Seq<char>>, column: Option<int>) -> Option<Seq<char>> {
    match column {
        Some(i) => if i < c.len() {
            Some(scan::trimmed(c[i]))
        } else {
            None
        },
        None => None,
    }
}

/// The row that cells form.
pub open spec fn series_row(time: i64, c: Seq<Seq<char>>, cols: SeriesColumns) -> SeriesRow {
    SeriesRow {
        time,
        x: cell_at(c, cols.x),
        y: cell_at(c, cols.y),
        z: cell_at(c, cols.z),
        xy: cell_at(c, cols.xy),
        xz: cell_at(c, cols.xz),
        yz: cell_at(c, cols.yz),
    }
}

/// The rows among the first `k` lines of the body. Blank lines, and lines
/// without a time cell, are skipped.
pub open spec fn series_rows(
    body: Seq<Seq<char>>,
    k: int,
    fmt: DateFmt,
    time: int,
    cols: SeriesColumns,
) -> Result<Seq<SeriesRow>, ReadFault>
    decreases k,
{
    if k <= 0 {
        Ok(Seq::empty())
    } else {
        match series_rows(body, k - 1, fmt, time, cols) {
            Err(e) => Err(e),
            Ok(before) => {
                let c = scan::cells(body[k - 1], ',');
                if scan::trimmed(body[k - 1]).len() == 0 || c.len() <= time {
                    Ok(before)
                } else {
                    match dates::instant_in(fmt, c[time]) {
                        None => Err(ReadFault::BadTime(scan::trimmed(c[time]), k)),
                        Some(t) => Ok(before.push(series_row(t, c, cols))),
                    }
                }
            },
        }
    }
}

/// What a table of results holds: the text of the comment in front, and the
/// rows.
pub struct ProcessedModel {
    pub metadata: Seq<char>,
    pub rows: Seq<SeriesRow>,
}

/// The contents of a table of results.
pub open spec fn processed_of(bytes: Seq<u8>) -> Result<ProcessedModel, ReadFault> {
    match error::text_of(bytes) {
        Err(e) => Err(e),
        Ok(s) => {
            let lines = scan::lines(s);
            let at: int = if is_comment(lines[0]) {
                1
            } else {
                0
            };
            let metadata = if is_comment(lines[0]) {
                scan::trimmed(without_hashes(lines[0]))
            } else {
                Seq::empty()
            };
            let names = headers::trimmed_cells(lines[at], ',');
            let body = lines.skip(at + 1);
            if lines.len() <= at || position(names, "Time"@, 0) is None {
                Err(ReadFault::NoHeader)
            } else {
                let time = position(names, "Time"@, 0)->0;
                match tabular::format_from(body, 0, ',', time, time + 1) {
                    None => Err(ReadFault::BadTime("processed-csv"@, 0)),
                    Some(fmt) => match series_rows(
                        body,
                        body.len() as int,
                        fmt,
                        time,
                        series_columns(names),
                    ) {
                        Err(e) => Err(e),
                        Ok(rows) => Ok(ProcessedModel { metadata, rows }),
                    },
                }
            }
        },
    }
}

/// A table of results as it was read. The cells are text, without white space
/// around it.
#[derive(Debug)]
pub struct ProcessedCsv {
    /// Nanoseconds since 1970-01-01.
    pub times_ns: Vec<i64>,
    pub x_pkpk: Vec<Option<String>>,
    pub y_pkpk: Vec<Option<String>>,
    pub z_pkpk: Vec<Option<String>>,
    pub xy_pkpk: Vec<Option<String>>,
    pub xz_pkpk: Vec<Option<String>>,
    pub yz_pkpk: Vec<Option<String>>,
    pub metadata: String,
}

/// The view of an optional cell.
pub open spec fn cell_view(s: Option<String>) -> Option<Seq<char>> {
    match s {
        Some(t) => Some(t@),
        None => None,
    }
}

impl ProcessedCsv {
    /// Every row has all its cells.
    pub open spec fn wf(&self) -> bool {
        let n = self.times_ns@.len();
        self.x_pkpk@.len() == n && self.y_pkpk@.len() == n && self.z_pkpk@.len() == n
            && self.xy_pkpk@.len() == n && self.xz_pkpk@.len() == n && self.yz_pkpk@.len() == n
    }
}

impl View for ProcessedCsv {
    type V = ProcessedModel;

    open spec fn view(&self) -> ProcessedModel {
        ProcessedModel {
            metadata: self.metadata@,
            rows: Seq::new(
                self.times_ns@.len(),
                |i: int| SeriesRow {
                    time: self.times_ns@[i],
                    x: cell_view(self.x_pkpk@[i]),
                    y: cell_view(self.y_pkpk@[i]),
                    z: cell_view(self.z_pkpk@[i]),
                    xy: cell_view(self.xy_pkpk@[i]),
                    xz: cell_view(self.xz_pkpk@[i]),
                    yz: cell_view(self.yz_pkpk@[i]),
                },
            ),
        }
    }
}

proof fn lemma_rows_fault(
    body: Seq<Seq<char>>,
    j: int,
    k: int,
    fmt: DateFmt,
    time: int,
    cols: SeriesColumns,
)
    requires
        j <= k,
        series_rows(body, j, fmt, time, cols) is Err,
    ensures
        series_rows(body, k, fmt, time, cols) == series_rows(body, j, fmt, time, cols),
    decreases k - j,
{
    if j < k {
        lemma_rows_fault(body, j, k - 1, fmt, time, cols);
    }
}

/// The view of an optional column.
pub open spec fn column_view(i: Option<usize>) -> Option<int> {
    match i {
        Some(k) => Some(k as int),
        None => None,
    }
}

fn find_name(names: &Vec<String>, name: &str) -> (r: Option<usize>)
    ensures
        column_view(r) == position(headers::strings(names@), name@, 0),
        r matches Some(k) ==> k < names@.len(),
{
    for i in 0..names.len()
        invariant
            position(headers::strings(names@), name@, 0) == position(
                headers::strings(names@),
                name@,
                i as int,
            ),
    {
        assert(headers::strings(names@)[i as int] == names@[i as int]@);
        if text::same_text(names[i].as_str(), name) {
            return Some(i);
        }
    }
    None
}

fn take_cell(cells: &Vec<Vec<char>>, column: Option<usize>) -> (r: Option<String>)
    ensures
        cell_view(r) == cell_at(scan::texts(cells@), column_view(column)),
{
    match column {
        Some(i) => if i < cells.len() {
            assert(scan::texts(cells@)[i as int] == cells@[i as int]@);
            Some(tabular::trimmed_string(cells[i].as_slice()))
        } else {
            None
        },
        None => None,
    }
}

fn comment_text(line: &[char]) -> (r: String)
    ensures
        r@ == scan::trimmed(without_hashes(line@)),
{
    let n: usize = line.len();
    let mut i: usize = 0;
    assert(line@.skip(0) =~= line@);
    while i < n && line[i] == '#'
        invariant
            n == line@.len(),
            i <= n,
            without_hashes(line@) == without_hashes(line@.skip(i as int)),
        decreases n - i,
    {
        assert(line@.skip(i as int).drop_first() =~= line@.skip(i + 1));
        i = i + 1;
    }
    let rest: Vec<char> = slices::copy_range(line, i, n);
    assert(rest@ =~= line@.skip(i as int));
    tabular::trimmed_string(rest.as_slice())
}

/// Reads a table of results.
pub fn read_processed_csv(bytes: &[u8]) -> (r: Result<ProcessedCsv, ReadError>)
    ensures
        match processed_of(bytes@) {
            Ok(f) => r matches Ok(x) && x@ == f && x.wf(),
            Err(e) => r matches Err(x) && x@ == e,
        },
{
    let chars: Vec<char> = error::decode(bytes)?;
    let lines: Vec<Vec<char>> = scan::split_lines(chars.as_slice());
    let ghost all = scan::texts(lines@);
    assert(all.len() == lines@.len());
    if lines.len() == 0 {
        return Err(ReadError::NoHeader);
    }
    assert(all[0] == lines@[0]@);
    let commented: bool = lines[0].len() > 0 && lines[0][0] == '#';
    let at: usize = if commented {
        1
    } else {
        0
    };
    let metadata: String = if commented {
        comment_text(lines[0].as_slice())
    } else {
        let none: String = String::new();
        assert(none@ =~= Seq::empty());
        none
    };
    if lines.len() <= at {
        return Err(ReadError::NoHeader);
    }
    assert(all[at as int] == lines@[at as int]@);
    let names: Vec<String> = headers::trimmed_row(lines[at].as_slice(), 44);
    let _width: usize = names.len();
    let time: usize = match find_name(&names, "Time") {
        Some(i) => i,
        None => {
            return Err(ReadError::NoHeader);
        },
    };
    let x: Option<usize> = find_name(&names, "X_PkPk");
    let y: Option<usize> = find_name(&names, "Y_PkPk");
    let z: Option<usize> = find_name(&names, "Z_PkPk");
    let xy: Option<usize> = find_name(&names, "XY_PkPk");
    let xz: Option<usize> = find_name(&names, "XZ_PkPk");
    let yz: Option<usize> = match find_name(&names, "YZ_PkPk") {
        Some(i) => Some(i),
        None => find_name(&names, "ZY_PkPk"),
    };
    let ghost cols = series_columns(headers::strings(names@));
    let start: usize = at + 1;
    let ghost body = all.skip(start as int);
    let ghost n = body.len() as int;
    let fmt: DateFmt = match tabular::find_format(&lines, start, 44, time, time + 1) {
        Some(f) => f,
        None => {
            return Err(ReadError::BadTime("processed-csv".to_owned(), 0));
        },
    };
    let mut out: ProcessedCsv = ProcessedCsv {
        times_ns: Vec::new(),
        x_pkpk: Vec::new(),
        y_pkpk: Vec::new(),
        z_pkpk: Vec::new(),
        xy_pkpk: Vec::new(),
        xz_pkpk: Vec::new(),
        yz_pkpk: Vec::new(),
        metadata,
    };
    let ghost about = metadata@;
    assert(out@.rows =~= Seq::empty());
    for i in start..lines.len()
        invariant
            all == scan::texts(lines@),
            body == all.skip(start as int),
            n == body.len(),
            start <= lines@.len(),
            out.wf(),
            out.metadata@ == about,
            cols.x == column_view(x),
            cols.y == column_view(y),
            cols.z == column_view(z),
            cols.xy == column_view(xy),
            cols.xz == column_view(xz),
            cols.yz == column_view(yz),
            series_rows(body, i - start, fmt, time as int, cols) == Ok::<_, ReadFault>(out@.rows),
            processed_of(bytes@) == match series_rows(body, n, fmt, time as int, cols) {
                Err(e) => Err(e),
                Ok(rows) => Ok(ProcessedModel { metadata: about, rows }),
            },
    {
        let ghost k = i - start;
        assert(body[k] == lines@[i as int]@);
        proof {
            if series_rows(body, k + 1, fmt, time as int, cols) is Err {
                lemma_rows_fault(body, k + 1, n, fmt, time as int, cols);
            }
        }
        if !scan::blank(lines[i].as_slice()) {
            let cells: Vec<Vec<char>> = headers::split_row(lines[i].as_slice(), 44);
            let ghost c = scan::texts(cells@);
            assert(c.len() == cells@.len());
            if cells.len() > time {
                assert(c[time as int] == cells@[time as int]@);
                match dates::parse_date_with(fmt, cells[time].as_slice()) {
                    None => {
                        return Err(
                            ReadError::BadTime(
                                tabular::trimmed_string(cells[time].as_slice()),
                                i - start + 1,
                            ),
                        );
                    },
                    Some(t) => {
                        let ghost before = out@.rows;
                        out.times_ns.push(t);
                        out.x_pkpk.push(take_cell(&cells, x));
                        out.y_pkpk.push(take_cell(&cells, y));
                        out.z_pkpk.push(take_cell(&cells, z));
                        out.xy_pkpk.push(take_cell(&cells, xy));
                        out.xz_pkpk.push(take_cell(&cells, xz));
                        out.yz_pkpk.push(take_cell(&cells, yz));
                        assert(out@.rows =~= before.push(series_row(t, c, cols)));
                    },
                }
            }
        }
    }
    Ok(out)
}

} // verus!
