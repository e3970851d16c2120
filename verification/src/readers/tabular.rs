//! Delimited tables with a time column and three channel columns.

use super::error;
use super::error::{ReadError, ReadFault};
use super::headers;
use crate::dates;
use crate::dates::DateFmt;
use crate::scan;
use crate::text;
use vstd::prelude::*;

verus! {

/// Which columns hold the time and the channels.
#[derive(Debug, Clone, Copy, PartialEq, Eq, Structural)]
pub struct Columns {
    pub time: usize,
    pub x: usize,
    pub y: usize,
    pub z: usize,
}

impl Columns {
    /// How many columns a row needs.
    pub open spec fn needed(self) -> int {
        let a = if self.time >= self.x {
            self.time
        } else {
            self.x
        };
        let b = if self.y >= self.z {
            self.y
        } else {
            self.z
        };
        if a >= b {
            a + 1
        } else {
            b + 1
        }
    }

    /// How many columns a row needs.
    pub fn need(&self) -> (r: usize)
        requires
            self.needed() <= usize::MAX,
        ensures
            r == self.needed(),
    {
        let a: usize = if self.time >= self.x {
            self.time
        } else {
            self.x
        };
        let b: usize = if self.y >= self.z {
            self.y
        } else {
            self.z
        };
        if a >= b {
            a + 1
        } else {
            b + 1
        }
    }
}

/// A row of a table: its time, and the texts of its channel cells.
pub struct TableRow {
    pub time: i64,
    pub x: Seq<char>,
    pub y: Seq<char>,
    pub z: Seq<char>,
}

/// The first time format that can be told from row `k` on. Blank rows and
/// rows with fewer than `need` cells do not count.
pub open spec fn format_from(
    body: Seq<Seq<char>>,
    k: int,
    d: char,
    column: int,
    need: int,
) -> Option<DateFmt>
    decreases body.len() - k,
{
    if k >= body.len() {
        None
    } else {
        let c = scan::cells(body[k], d);
        if scan::trimmed(body[k]).len() > 0 && c.len() >= need && dates::format_of(
            c[column],
        ) is Some {
            dates::format_of(c[column])
        } else {
            format_from(body, k + 1, d, column, need)
        }
    }
}

/// The rows among the first `k` lines of the body. Blank lines are skipped;
/// the first row that is too short, or whose time cannot be read, is an error.
pub open spec fn table_rows(
    body: Seq<Seq<char>>,
    k: int,
    d: char,
    fmt: DateFmt,
    cols: Columns,
) -> Result<Seq<TableRow>, ReadFault>
    decreases k,
{
    if k <= 0 {
        Ok(Seq::empty())
    } else {
        match table_rows(body, k - 1, d, fmt, cols) {
            Err(e) => Err(e),
            Ok(before) => {
                let c = scan::cells(body[k - 1], d);
                if scan::trimmed(body[k - 1]).len() == 0 {
                    Ok(before)
                } else if c.len() < cols.needed() {
                    Err(
                        ReadFault::ShortRow { row: k, got: c.len() as int, need: cols.needed() },
                    )
                } else {
                    match dates::instant_in(fmt, c[cols.time as int]) {
                        None => Err(ReadFault::BadTime(scan::trimmed(c[cols.time as int]), k)),
                        Some(time) => Ok(
                            before.push(
                                TableRow {
                                    time,
                                    x: scan::trimmed(c[cols.x as int]),
                                    y: scan::trimmed(c[cols.y as int]),
                                    z: scan::trimmed(c[cols.z as int]),
                                },
                            ),
                        ),
                    }
                }
            },
        }
    }
}

/// The rows of a table: `skip` lines and a header in front, at least two rows
/// behind.
pub open spec fn table_of(bytes: Seq<u8>, d: char, cols: Columns, skip: int) -> Result<
    Seq<TableRow>,
    ReadFault,
> {
    match error::text_of(bytes) {
        Err(e) => Err(e),
        Ok(s) => {
            let lines = scan::lines(s);
            let body = lines.skip(skip + 1);
            if skip >= lines.len() {
                Err(ReadFault::NoHeader)
            } else {
                match format_from(body, 0, d, cols.time as int, cols.needed()) {
                    None => Err(ReadFault::BadTime("(no detectable format)"@, 0)),
                    Some(fmt) => match table_rows(body, body.len() as int, d, fmt, cols) {
                        Err(e) => Err(e),
                        Ok(rows) => if rows.len() < 2 {
                            Err(ReadFault::Empty)
                        } else {
                            Ok(rows)
                        },
                    },
                }
            }
        },
    }
}

/// A table as it was read. The channel cells are text, without white space
/// around it.
#[derive(Debug)]
pub struct LoadedFile {
    /// Nanoseconds since 1970-01-01.
    pub times_ns: Vec<i64>,
    pub x: Vec<String>,
    pub y: Vec<String>,
    pub z: Vec<String>,
    /// The time from the first row to the second, in nanoseconds.
    pub dt_ns: i128,
}

impl LoadedFile {
    /// Every row has all its cells.
    pub open spec fn wf(&self) -> bool {
        self.x@.len() == self.times_ns@.len() && self.y@.len() == self.times_ns@.len()
            && self.z@.len() == self.times_ns@.len()
    }

    /// The rows.
    pub open spec fn rows(&self) -> Seq<TableRow> {
        Seq::new(
            self.times_ns@.len(),
            |i: int| TableRow {
                time: self.times_ns@[i],
                x: self.x@[i]@,
                y: self.y@[i]@,
                z: self.z@[i]@,
            },
        )
    }
}

/// A row that cannot be read is the error, whatever follows it.
pub proof fn lemma_rows_fault(
    body: Seq<Seq<char>>,
    j: int,
    k: int,
    d: char,
    fmt: DateFmt,
    cols: Columns,
)
    requires
        j <= k,
        table_rows(body, j, d, fmt, cols) is Err,
    ensures
        table_rows(body, k, d, fmt, cols) == table_rows(body, j, d, fmt, cols),
    decreases k - j,
{
    if j < k {
        lemma_rows_fault(body, j, k - 1, d, fmt, cols);
    }
}

/// Finds the time format of the lines behind `start`.
pub fn find_format(
    lines: &Vec<Vec<char>>,
    start: usize,
    delimiter: u8,
    column: usize,
    need: usize,
) -> (r: Option<DateFmt>)
    requires
        start <= lines@.len(),
        column < need,
    ensures
        r == format_from(
            scan::texts(lines@).skip(start as int),
            0,
            delimiter as char,
            column as int,
            need as int,
        ),
{
    let ghost body = scan::texts(lines@).skip(start as int);
    let ghost d = delimiter as char;
    for i in start..lines.len()
        invariant
            body == scan::texts(lines@).skip(start as int),
            d == delimiter as char,
            start <= lines@.len(),
            column < need,
            format_from(body, 0, d, column as int, need as int) == format_from(
                body,
                i - start,
                d,
                column as int,
                need as int,
            ),
    {
        assert(body[i - start] == lines@[i as int]@);
        if !scan::blank(lines[i].as_slice()) {
            let cells: Vec<Vec<char>> = headers::split_row(lines[i].as_slice(), delimiter);
            assert(scan::texts(cells@).len() == cells@.len());
            if cells.len() >= need {
                assert(scan::texts(cells@)[column as int] == cells@[column as int]@);
                let found: Option<DateFmt> = dates::detect_date_fmt(cells[column].as_slice());
                if found.is_some() {
                    return found;
                }
            }
        }
    }
    None
}

/// The text without white space around it.
pub fn trimmed_string(s: &[char]) -> (r: String)
    ensures
        r@ == scan::trimmed(s@),
{
    let t: Vec<char> = scan::trim(s);
    text::string_of(t.as_slice())
}

fn read_rows(
    lines: &Vec<Vec<char>>,
    start: usize,
    delimiter: u8,
    fmt: DateFmt,
    cols: Columns,
) -> (r: Result<LoadedFile, ReadError>)
    requires
        start <= lines@.len(),
        cols.needed() <= usize::MAX,
    ensures
        match table_rows(
            scan::texts(lines@).skip(start as int),
            lines@.len() - start,
            delimiter as char,
            fmt,
            cols,
        ) {
            Ok(rows) => r matches Ok(f) && f.wf() && f.rows() == rows,
            Err(e) => r matches Err(x) && x@ == e,
        },
{
    let ghost body = scan::texts(lines@).skip(start as int);
    let ghost d = delimiter as char;
    let ghost n = lines@.len() - start;
    let need: usize = cols.need();
    let mut out: LoadedFile = LoadedFile {
        times_ns: Vec::new(),
        x: Vec::new(),
        y: Vec::new(),
        z: Vec::new(),
        dt_ns: 0,
    };
    assert(out.rows() =~= Seq::empty());
    for i in start..lines.len()
        invariant
            body == scan::texts(lines@).skip(start as int),
            d == delimiter as char,
            n == lines@.len() - start,
            start <= lines@.len(),
            need == cols.needed(),
            out.wf(),
            table_rows(body, i - start, d, fmt, cols) == Ok::<_, ReadFault>(out.rows()),
    {
        let ghost k = i - start;
        assert(body[k] == lines@[i as int]@);
        proof {
            if table_rows(body, k + 1, d, fmt, cols) is Err {
                lemma_rows_fault(body, k + 1, n, d, fmt, cols);
            }
        }
        if !scan::blank(lines[i].as_slice()) {
            let cells: Vec<Vec<char>> = headers::split_row(lines[i].as_slice(), delimiter);
            let ghost c = scan::texts(cells@);
            assert(c.len() == cells@.len());
            let row: usize = i - start + 1;
            if cells.len() < need {
                return Err(ReadError::ShortRow { row, got: cells.len(), need });
            }
            proof {
                assert(c[cols.time as int] == cells@[cols.time as int]@);
                assert(c[cols.x as int] == cells@[cols.x as int]@);
                assert(c[cols.y as int] == cells@[cols.y as int]@);
                assert(c[cols.z as int] == cells@[cols.z as int]@);
            }
            match dates::parse_date_with(fmt, cells[cols.time].as_slice()) {
                None => {
                    return Err(
                        ReadError::BadTime(trimmed_string(cells[cols.time].as_slice()), row),
                    );
                },
                Some(t) => {
                    let ghost before = out.rows();
                    out.times_ns.push(t);
                    out.x.push(trimmed_string(cells[cols.x].as_slice()));
                    out.y.push(trimmed_string(cells[cols.y].as_slice()));
                    out.z.push(trimmed_string(cells[cols.z].as_slice()));
                    assert(out.rows() =~= table_rows(body, k + 1, d, fmt, cols)->Ok_0);
                },
            }
        }
    }
    Ok(out)
}

/// Reads a delimited table: `skip_lines` lines, a header, and rows with a time
/// and three channels.
pub fn read_tabular(
    bytes: &[u8],
    delimiter: u8,
    time_col: usize,
    x_col: usize,
    y_col: usize,
    z_col: usize,
    skip_lines: usize,
) -> (r: Result<LoadedFile, ReadError>)
    requires
        time_col < usize::MAX,
        x_col < usize::MAX,
        y_col < usize::MAX,
        z_col < usize::MAX,
    ensures
        match table_of(
            bytes@,
            delimiter as char,
            (Columns { time: time_col, x: x_col, y: y_col, z: z_col }),
            skip_lines as int,
        ) {
            Ok(rows) => r matches Ok(f) && f.wf() && f.rows() == rows && f.dt_ns == rows[1].time
                - rows[0].time,
            Err(e) => r matches Err(x) && x@ == e,
        },
{
    let cols = Columns { time: time_col, x: x_col, y: y_col, z: z_col };
    let need: usize = cols.need();
    let chars: Vec<char> = error::decode(bytes)?;
    let lines: Vec<Vec<char>> = scan::split_lines(chars.as_slice());
    assert(scan::texts(lines@).len() == lines@.len());
    if skip_lines >= lines.len() {
        return Err(ReadError::NoHeader);
    }
    let start: usize = skip_lines + 1;
    let fmt: DateFmt = match find_format(&lines, start, delimiter, time_col, need) {
        Some(f) => f,
        None => {
            return Err(ReadError::BadTime("(no detectable format)".to_owned(), 0));
        },
    };
    let mut out: LoadedFile = read_rows(&lines, start, delimiter, fmt, cols)?;
    let ghost rows = out.rows();
    if out.times_ns.len() < 2 {
        return Err(ReadError::Empty);
    }
    out.dt_ns = out.times_ns[1] as i128 - out.times_ns[0] as i128;
    assert(out.rows() =~= rows);
    Ok(out)
}

/// Reads a CSV file.
pub fn read_csv(bytes: &[u8], time_col: usize, x_col: usize, y_col: usize, z_col: usize) -> (r:
    Result<LoadedFile, ReadError>)
    requires
        time_col < usize::MAX,
        x_col < usize::MAX,
        y_col < usize::MAX,
        z_col < usize::MAX,
    ensures
        match table_of(
            bytes@,
            ',',
            (Columns { time: time_col, x: x_col, y: y_col, z: z_col }),
            0,
        ) {
            Ok(rows) => r matches Ok(f) && f.wf() && f.rows() == rows && f.dt_ns == rows[1].time
                - rows[0].time,
            Err(e) => r matches Err(x) && x@ == e,
        },
{
    read_tabular(bytes, 44, time_col, x_col, y_col, z_col, 0)
}

} // verus!
