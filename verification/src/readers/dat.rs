//! DAT files: a line that says when the scan started, a line of column names,
//! and rows of seconds and three channels between tabs.

use super::error;
use super::error::{ReadError, ReadFault};
use super::headers;
use super::tabular;
use crate::dates;
use crate::scan;
use crate::slices;
use crate::text;
use vstd::prelude::*;

verus! {

/// A row: its number, the text of its time cell, and the texts of its channel
/// cells without white space around them.
pub struct DatRowModel {
    pub row: int,
    pub time: Seq<char>,
    pub x: Seq<char>,
    pub y: Seq<char>,
    pub z: Seq<char>,
}

/// A DAT file as far as its rows are long enough.
pub struct DatModel {
    /// When the scan started, in nanoseconds since 1970-01-01.
    pub start_ns: i64,
    pub rows: Seq<DatRowModel>,
    /// The number of the first row that is too short, and its length.
    pub short: Option<(int, int)>,
}

/// A row of a DAT file.
#[derive(Debug)]
pub struct DatRow {
    pub row: usize,
    pub time: String,
    pub x: String,
    pub y: String,
    pub z: String,
}

impl View for DatRow {
    type V = DatRowModel;

    open spec fn view(&self) -> DatRowModel {
        DatRowModel {
            row: self.row as int,
            time: self.time@,
            x: self.x@,
            y: self.y@,
            z: self.z@,
        }
    }
}

/// A DAT file as far as its rows are long enough.
#[derive(Debug)]
pub struct DatFile {
    pub start_ns: i64,
    pub rows: Vec<DatRow>,
    pub short: Option<(usize, usize)>,
}

/// The rows of a list.
pub open spec fn row_models(s: Seq<DatRow>) -> Seq<DatRowModel> {
    s.map_values(|r: DatRow| r@)
}

/// The view of a short row's number and length.
pub open spec fn short_view(s: Option<(usize, usize)>) -> Option<(int, int)> {
    match s {
        Some((row, got)) => Some((row as int, got as int)),
        None => None,
    }
}

impl View for DatFile {
    type V = DatModel;

    open spec fn view(&self) -> DatModel {
        DatModel {
            start_ns: self.start_ns,
            rows: row_models(self.rows@),
            short: short_view(self.short),
        }
    }
}

/// The columns of a DAT row.
pub const DAT_COLUMNS: usize = 4;

/// What the first line of a DAT file starts with.
pub open spec fn scan_prefix() -> Seq<char> {
    "Scan started at "@
}

/// When the scan started, by the first line: the words of a time of day and a
/// date with the day first.
pub open spec fn scan_start(header: Seq<char>) -> Option<i64> {
    if scan_prefix().is_prefix_of(header) {
        match scan::next_word(scan::trimmed(header.skip(scan_prefix().len() as int))) {
            None => None,
            Some((time, rest)) => match scan::next_word(rest) {
                None => None,
                Some((date, _)) => dates::three_part_instant(
                    date.push(' ') + time,
                    '/',
                    true,
                ),
            },
        }
    } else {
        None
    }
}

/// The rows among the first `k` lines of the body up to the first that is too
/// short. Blank lines are skipped.
pub open spec fn dat_rows(body: Seq<Seq<char>>, k: int) -> (Seq<DatRowModel>, Option<(int, int)>)
    decreases k,
{
    if k <= 0 {
        (Seq::empty(), None)
    } else {
        let (rows, short) = dat_rows(body, k - 1);
        let c = scan::cells(body[k - 1], '\t');
        if short is Some || scan::trimmed(body[k - 1]).len() == 0 {
            (rows, short)
        } else if c.len() < DAT_COLUMNS {
            (rows, Some((k, c.len() as int)))
        } else {
            (
                rows.push(
                    DatRowModel {
                        row: k,
                        time: c[0],
                        x: scan::trimmed(c[1]),
                        y: scan::trimmed(c[2]),
                        z: scan::trimmed(c[3]),
                    },
                ),
                None,
            )
        }
    }
}

/// The contents of a DAT file.
pub open spec fn dat_of(bytes: Seq<u8>) -> Result<DatModel, ReadFault> {
    match error::text_of(bytes) {
        Err(e) => Err(e),
        Ok(s) => {
            let lines = scan::lines(s);
            let body = lines.skip(2);
            if lines.len() == 0 {
                Err(ReadFault::NoHeader)
            } else {
                match scan_start(lines[0]) {
                    None => Err(ReadFault::DatBadHeader(lines[0])),
                    Some(start_ns) => if lines.len() < 2 {
                        Err(ReadFault::NoHeader)
                    } else {
                        let (rows, short) = dat_rows(body, body.len() as int);
                        Ok(DatModel { start_ns, rows, short })
                    },
                }
            }
        },
    }
}

/// The first row from `i` on whose time is no number.
pub open spec fn first_non_number(numeric: Seq<bool>, i: int) -> Option<int>
    decreases numeric.len() - i,
{
    if i >= numeric.len() {
        None
    } else if !numeric[i] {
        Some(i)
    } else {
        first_non_number(numeric, i + 1)
    }
}

impl DatModel {
    /// What is wrong with the rows, given which of their times are numbers.
    pub open spec fn fault(self, numeric: Seq<bool>) -> Option<ReadFault> {
        match first_non_number(numeric, 0) {
            Some(i) => Some(ReadFault::BadNumber(self.rows[i].time, self.rows[i].row, 0)),
            None => match self.short {
                Some((row, got)) => Some(
                    ReadFault::ShortRow { row, got, need: DAT_COLUMNS as int },
                ),
                None => if self.rows.len() < 2 {
                    Some(ReadFault::Empty)
                } else {
                    None
                },
            },
        }
    }
}

fn strip_prefix(header: &[char]) -> (r: Option<Vec<char>>)
    ensures
        match r {
            Some(rest) => scan_prefix().is_prefix_of(header@) && rest@ == header@.skip(
                scan_prefix().len() as int,
            ),
            None => !scan_prefix().is_prefix_of(header@),
        },
{
    let prefix: Vec<char> = text::chars_of("Scan started at ");
    let n: usize = prefix.len();
    if header.len() < n {
        return None;
    }
    for i in 0..n
        invariant
            n == prefix@.len(),
            prefix@ == scan_prefix(),
            n <= header@.len(),
            forall|k: int| 0 <= k < i ==> header@[k] == prefix@[k],
    {
        if header[i] != prefix[i] {
            assert(scan_prefix().is_prefix_of(header@) ==> scan_prefix()[i as int]
                == header@.subrange(0, n as int)[i as int]);
            return None;
        }
    }
    assert(header@.subrange(0, n as int) =~= prefix@);
    let rest: Vec<char> = slices::copy_range(header, n, header.len());
    assert(rest@ =~= header@.skip(n as int));
    Some(rest)
}

fn read_start(header: &[char]) -> (r: Option<i64>)
    ensures
        r == scan_start(header@),
{
    match strip_prefix(header) {
        None => None,
        Some(rest) => {
            let stripped: Vec<char> = scan::trim(rest.as_slice());
            match scan::take_word(stripped.as_slice()) {
                None => None,
                Some((time, behind)) => match scan::take_word(behind.as_slice()) {
                    None => None,
                    Some((date, _)) => {
                        let mut joined: Vec<char> = date;
                        joined.push(' ');
                        let mut t: Vec<char> = time;
                        let ghost want = joined@ + t@;
                        joined.append(&mut t);
                        assert(joined@ =~= want);
                        dates::parse_three_part(joined.as_slice(), '/', true)
                    },
                },
            }
        },
    }
}

/// Reads a DAT file as far as its rows are long enough. Whether the times are
/// numbers is for `check` to say.
pub fn read_dat(bytes: &[u8]) -> (r: Result<DatFile, ReadError>)
    ensures
        match dat_of(bytes@) {
            Ok(f) => r matches Ok(x) && x@ == f,
            Err(e) => r matches Err(x) && x@ == e,
        },
{
    let chars: Vec<char> = error::decode(bytes)?;
    let lines: Vec<Vec<char>> = scan::split_lines(chars.as_slice());
    let ghost all = scan::texts(lines@);
    assert(all.len() == lines@.len());
    if lines.len() == 0 {
        return Err(ReadError::NoHeader);
    }
    assert(all[0] == lines@[0]@);
    let start_ns: i64 = match read_start(lines[0].as_slice()) {
        Some(t) => t,
        None => {
            return Err(ReadError::DatBadHeader(text::string_of(lines[0].as_slice())));
        },
    };
    if lines.len() < 2 {
        return Err(ReadError::NoHeader);
    }
    let ghost body = all.skip(2);
    let mut rows: Vec<DatRow> = Vec::new();
    let mut short: Option<(usize, usize)> = None;
    assert(row_models(rows@) =~= Seq::empty());
    for i in 2..lines.len()
        invariant
            all == scan::texts(lines@),
            body == all.skip(2),
            dat_rows(body, i - 2) == (row_models(rows@), short_view(short)),
    {
        let ghost k = i - 2;
        assert(body[k] == lines@[i as int]@);
        if short.is_none() && !scan::blank(lines[i].as_slice()) {
            let cells: Vec<Vec<char>> = headers::split_row(lines[i].as_slice(), 9);
            let ghost c = scan::texts(cells@);
            assert(c.len() == cells@.len());
            if cells.len() < DAT_COLUMNS {
                short = Some((i - 1, cells.len()));
            } else {
                proof {
                    assert(c[0] == cells@[0]@);
                    assert(c[1] == cells@[1]@);
                    assert(c[2] == cells@[2]@);
                    assert(c[3] == cells@[3]@);
                }
                let row = DatRow {
                    row: i - 1,
                    time: text::string_of(cells[0].as_slice()),
                    x: tabular::trimmed_string(cells[1].as_slice()),
                    y: tabular::trimmed_string(cells[2].as_slice()),
                    z: tabular::trimmed_string(cells[3].as_slice()),
                };
                let ghost before = row_models(rows@);
                let ghost added = row@;
                rows.push(row);
                assert(row_models(rows@) =~= before.push(added));
            }
        }
    }
    Ok(DatFile { start_ns, rows, short })
}

impl DatFile {
    /// Checks the rows, given which of their times are numbers.
    pub fn check(&self, numeric: &[bool]) -> (r: Result<(), ReadError>)
        requires
            numeric@.len() == self.rows@.len(),
        ensures
            match self@.fault(numeric@) {
                None => r is Ok,
                Some(e) => r matches Err(x) && x@ == e,
            },
    {
        for i in 0..numeric.len()
            invariant
                numeric@.len() == self.rows@.len(),
                first_non_number(numeric@, 0) == first_non_number(numeric@, i as int),
        {
            if !numeric[i] {
                assert(self@.rows[i as int] == self.rows@[i as int]@);
                return Err(ReadError::BadNumber(self.rows[i].time.clone(), self.rows[i].row, 0));
            }
        }
        if let Some((row, got)) = self.short {
            return Err(ReadError::ShortRow { row, got, need: DAT_COLUMNS });
        }
        if self.rows.len() < 2 {
            Err(ReadError::Empty)
        } else {
            Ok(())
        }
    }
}

/// Whether every instant of the grid fits in 64 bits.
pub open spec fn grid_fits(start_ns: i128, n: nat, step_ns: i64) -> bool {
    forall|i: int| 0 <= i < n ==> i64::MIN <= #[trigger] grid_instant(start_ns, step_ns, i)
        <= i64::MAX
}

/// The instant `i` steps behind the start.
pub open spec fn grid_instant(start_ns: i128, step_ns: i64, i: int) -> int {
    start_ns + i * step_ns
}

/// The `n` instants from a start on, a fixed step apart; nothing where one of
/// them does not fit in 64 bits.
pub fn time_grid(start_ns: i128, n: usize, step_ns: i64) -> (r: Option<Vec<i64>>)
    ensures
        match r {
            Some(v) => grid_fits(start_ns, n as nat, step_ns) && v@.len() == n && forall|i: int|
                0 <= i < n ==> #[trigger] v@[i] == grid_instant(start_ns, step_ns, i),
            None => !grid_fits(start_ns, n as nat, step_ns),
        },
{
    let mut out: Vec<i64> = Vec::new();
    let mut at: i128 = start_ns;
    assert(0 * step_ns == 0);
    for i in 0..n
        invariant
            at == start_ns + i * step_ns,
            i > 0 ==> i64::MIN <= at - step_ns <= i64::MAX,
            i == 0 ==> at == start_ns,
            out@.len() == i,
            forall|k: int|
                0 <= k < i ==> #[trigger] out@[k] == grid_instant(start_ns, step_ns, k),
    {
        assert(grid_instant(start_ns, step_ns, i as int) == at);
        if at < i64::MIN as i128 || at > i64::MAX as i128 {
            return None;
        }
        out.push(at as i64);
        assert((i + 1) * step_ns == i * step_ns + step_ns) by (nonlinear_arith);
        at = at + step_ns as i128;
    }
    assert forall|i: int| 0 <= i < n implies i64::MIN <= #[trigger] grid_instant(
        start_ns,
        step_ns,
        i,
    ) <= i64::MAX by {
        assert(out@[i] == grid_instant(start_ns, step_ns, i));
    }
    Some(out)
}

} // verus!
