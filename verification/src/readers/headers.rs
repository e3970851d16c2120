//! Column names.

use super::error;
use super::error::{ReadError, ReadFault};
use crate::scan;
use crate::text;
use vstd::prelude::*;

verus! {

/// The texts of a list of strings.
pub open spec fn strings(s: Seq<String>) -> Seq<Seq<char>> {
    s.map_values(|t: String| t@)
}

/// The cells of a row, without the white space around them.
pub open spec fn trimmed_cells(row: Seq<char>, d: char) -> Seq<Seq<char>> {
    scan::cells(row, d).map_values(|c: Seq<char>| scan::trimmed(c))
}

/// The first line of a text; nothing where there is none.
pub open spec fn first_line(s: Seq<char>) -> Seq<char> {
    let l = scan::lines(s);
    if l.len() > 0 {
        l[0]
    } else {
        Seq::empty()
    }
}

/// Splits a row at the delimiter.
pub fn split_row(row: &[char], delimiter: u8) -> (r: Vec<Vec<char>>)
    ensures
        scan::texts(r@) == scan::cells(row@, delimiter as char),
        r@.len() >= 1,
{
    scan::split(row, delimiter as char)
}

/// The cells of a row, without the white space around them.
pub fn trimmed_row(row: &[char], delimiter: u8) -> (r: Vec<String>)
    ensures
        strings(r@) == trimmed_cells(row@, delimiter as char),
{
    let cells: Vec<Vec<char>> = split_row(row, delimiter);
    let ghost all = trimmed_cells(row@, delimiter as char);
    let mut out: Vec<String> = Vec::new();
    for i in 0..cells.len()
        invariant
            scan::texts(cells@) == scan::cells(row@, delimiter as char),
            all == trimmed_cells(row@, delimiter as char),
            out@.len() == i,
            forall|k: int| 0 <= k < i ==> (#[trigger] out@[k])@ == all[k],
    {
        let t: Vec<char> = scan::trim(cells[i].as_slice());
        assert(scan::texts(cells@)[i as int] == cells@[i as int]@);
        out.push(text::string_of(t.as_slice()));
    }
    assert(strings(out@) =~= all);
    out
}

/// The column names in the first line of a text.
pub fn list_headers(s: &str, delimiter: u8) -> (r: Vec<String>)
    ensures
        strings(r@) == trimmed_cells(first_line(s@), delimiter as char),
{
    let chars: Vec<char> = text::chars_of(s);
    headers_of(chars.as_slice(), delimiter)
}

fn headers_of(chars: &[char], delimiter: u8) -> (r: Vec<String>)
    ensures
        strings(r@) == trimmed_cells(first_line(chars@), delimiter as char),
{
    let lines: Vec<Vec<char>> = scan::split_lines(chars);
    if lines.len() > 0 {
        assert(scan::texts(lines@)[0] == lines@[0]@);
        trimmed_row(lines[0].as_slice(), delimiter)
    } else {
        let none: Vec<char> = Vec::new();
        assert(none@ =~= Seq::empty());
        trimmed_row(none.as_slice(), delimiter)
    }
}

/// The column names of a CSV file.
pub fn inspect_csv_headers(bytes: &[u8]) -> (r: Result<Vec<String>, ReadError>)
    ensures
        match error::text_of(bytes@) {
            Ok(s) => r matches Ok(v) && strings(v@) == trimmed_cells(first_line(s), ','),
            Err(e) => r matches Err(x) && x@ == e,
        },
{
    let chars: Vec<char> = error::decode(bytes)?;
    Ok(headers_of(chars.as_slice(), 44))
}

/// The texts that are not empty.
pub open spec fn non_empty(s: Seq<Seq<char>>) -> Seq<Seq<char>>
    decreases s.len(),
{
    if s.len() == 0 {
        Seq::empty()
    } else if s.last().len() == 0 {
        non_empty(s.drop_last())
    } else {
        non_empty(s.drop_last()).push(s.last())
    }
}

/// The channel names of a DAT file: what stands behind the time in the second
/// line, where that has four names, and `X`, `Y`, `Z` where it has not.
pub open spec fn dat_names(s: Seq<char>) -> Seq<Seq<char>> {
    let l = scan::lines(s);
    let names = non_empty(trimmed_cells(l[1], '\t'));
    if l.len() >= 2 && names.len() >= 4 {
        names.subrange(1, 4)
    } else {
        seq!["X"@, "Y"@, "Z"@]
    }
}

fn keep_non_empty(v: Vec<String>) -> (r: Vec<String>)
    ensures
        strings(r@) == non_empty(strings(v@)),
{
    let ghost all = strings(v@);
    let mut out: Vec<String> = Vec::new();
    assert(strings(out@) =~= non_empty(all.take(0)));
    for i in 0..v.len()
        invariant
            all == strings(v@),
            strings(out@) == non_empty(all.take(i as int)),
    {
        assert(all.take(i + 1).drop_last() =~= all.take(i as int));
        assert(all[i as int] == v@[i as int]@);
        let chars: Vec<char> = text::chars_of(v[i].as_str());
        if chars.len() > 0 {
            let ghost before = strings(out@);
            out.push(v[i].clone());
            assert(strings(out@) =~= before.push(all[i as int]));
        }
    }
    assert(all.take(all.len() as int) =~= all);
    out
}

/// The channel names of a DAT file.
pub fn inspect_dat_headers(bytes: &[u8]) -> (r: Result<Vec<String>, ReadError>)
    ensures
        match error::text_of(bytes@) {
            Ok(s) => r matches Ok(v) && strings(v@) == dat_names(s),
            Err(e) => r matches Err(x) && x@ == e,
        },
{
    let chars: Vec<char> = error::decode(bytes)?;
    let lines: Vec<Vec<char>> = scan::split_lines(chars.as_slice());
    let mut out: Vec<String> = Vec::new();
    if lines.len() >= 2 {
        assert(scan::texts(lines@)[1] == lines@[1]@);
        let names: Vec<String> = keep_non_empty(trimmed_row(lines[1].as_slice(), 9));
        if names.len() >= 4 {
            out.push(names[1].clone());
            out.push(names[2].clone());
            out.push(names[3].clone());
            assert(strings(out@) =~= strings(names@).subrange(1, 4));
            return Ok(out);
        }
    }
    out.push("X".to_owned());
    out.push("Y".to_owned());
    out.push("Z".to_owned());
    assert(strings(out@) =~= seq!["X"@, "Y"@, "Z"@]);
    Ok(out)
}

} // verus!
