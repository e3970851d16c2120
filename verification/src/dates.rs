//! Date and time cells: numbers, format detection, parsing.

use crate::calendar;
use crate::scan;
use crate::text;
use vstd::prelude::*;
use vstd::utf8;

verus! {

/// Whether the character is an ASCII digit.
pub open spec fn is_digit(c: char) -> bool {
    '0' <= c <= '9'
}

/// Whether all characters are ASCII digits.
pub open spec fn all_digits(s: Seq<char>) -> bool {
    forall|i: int| 0 <= i < s.len() ==> is_digit(#[trigger] s[i])
}

/// The number that digits stand for.
pub open spec fn digits_value(s: Seq<char>) -> int
    decreases s.len(),
{
    if s.len() == 0 {
        0
    } else {
        digits_value(s.drop_last()) * 10 + (s.last() as int - '0' as int)
    }
}

/// The number of a text of digits, if it is at most `limit`.
pub open spec fn bounded_number(s: Seq<char>, limit: int) -> Option<int> {
    if s.len() > 0 && all_digits(s) && digits_value(s) <= limit {
        Some(digits_value(s))
    } else {
        None
    }
}

/// The text without a plus sign in front.
pub open spec fn without_plus(s: Seq<char>) -> Seq<char> {
    if s.len() > 0 && s[0] == '+' {
        s.drop_first()
    } else {
        s
    }
}

/// The `u32` that a text stands for: digits, with or without a plus sign.
pub open spec fn u32_of(s: Seq<char>) -> Option<u32> {
    match bounded_number(without_plus(s), u32::MAX as int) {
        Some(n) => Some(n as u32),
        None => None,
    }
}

/// The `i32` that a text stands for: digits, with or without a sign.
pub open spec fn i32_of(s: Seq<char>) -> Option<i32> {
    if s.len() > 0 && s[0] == '-' {
        match bounded_number(s.drop_first(), 0x8000_0000) {
            Some(n) => Some((-n) as i32),
            None => None,
        }
    } else {
        match bounded_number(without_plus(s), i32::MAX as int) {
            Some(n) => Some(n as i32),
            None => None,
        }
    }
}

proof fn lemma_prefix_value(s: Seq<char>, k: int)
    requires
        0 <= k <= s.len(),
        all_digits(s),
    ensures
        0 <= digits_value(s.take(k)) <= digits_value(s),
    decreases s.len(),
{
    if k == s.len() {
        assert(s.take(k) =~= s);
        if k > 0 {
            assert(is_digit(s[k - 1]));
            let rest = s.drop_last();
            assert forall|i: int| 0 <= i < rest.len() implies is_digit(#[trigger] rest[i]) by {
                assert(rest[i] == s[i]);
            }
            lemma_prefix_value(rest, k - 1);
            assert(rest.take(k - 1) =~= rest);
        }
    } else {
        assert(is_digit(s[s.len() - 1]));
        let rest = s.drop_last();
        assert forall|i: int| 0 <= i < rest.len() implies is_digit(#[trigger] rest[i]) by {
            assert(rest[i] == s[i]);
        }
        lemma_prefix_value(rest, k);
        assert(rest.take(k) =~= s.take(k));
    }
}

fn parse_digits(s: &[char], limit: u64) -> (r: Option<u64>)
    requires
        limit <= 0xFFFF_FFFF,
    ensures
        match bounded_number(s@, limit as int) {
            Some(n) => r matches Some(v) && v == n,
            None => r is None,
        },
{
    if s.len() == 0 {
        return None;
    }
    let mut value: u64 = 0;
    for i in 0..s.len()
        invariant
            limit <= 0xFFFF_FFFF,
            value <= limit,
            value == digits_value(s@.take(i as int)),
            forall|k: int| 0 <= k < i ==> is_digit(#[trigger] s@[k]),
    {
        let c: char = s[i];
        if c < '0' || c > '9' {
            assert(!is_digit(s@[i as int]));
            return None;
        }
        let d: u64 = (c as u32 - '0' as u32) as u64;
        assert(s@.take(i + 1).drop_last() =~= s@.take(i as int));
        value = value * 10 + d;
        if value > limit {
            proof {
                if all_digits(s@) {
                    lemma_prefix_value(s@, i + 1);
                }
            }
            return None;
        }
    }
    assert(s@.take(s@.len() as int) =~= s@);
    Some(value)
}

fn skip_plus(s: &[char]) -> (r: &[char])
    ensures
        r@ == without_plus(s@),
{
    if s.len() > 0 && s[0] == '+' {
        assert(s@.subrange(1, s@.len() as int) =~= s@.drop_first());
        vstd::slice::slice_subrange(s, 1, s.len())
    } else {
        s
    }
}

/// Parses an unsigned number.
pub fn parse_u32(s: &[char]) -> (r: Option<u32>)
    ensures
        r == u32_of(s@),
{
    match parse_digits(skip_plus(s), 0xFFFF_FFFF) {
        Some(v) => Some(v as u32),
        None => None,
    }
}

/// Parses a signed number.
pub fn parse_i32(s: &[char]) -> (r: Option<i32>)
    ensures
        r == i32_of(s@),
{
    if s.len() > 0 && s[0] == '-' {
        assert(s@.subrange(1, s@.len() as int) =~= s@.drop_first());
        let digits: &[char] = vstd::slice::slice_subrange(s, 1, s.len());
        match parse_digits(digits, 0x8000_0000) {
            Some(v) => Some((-(v as i64)) as i32),
            None => None,
        }
    } else {
        match parse_digits(skip_plus(s), 0x7FFF_FFFF) {
            Some(v) => Some(v as i32),
            None => None,
        }
    }
}

/// How a date cell is written.
#[derive(Debug, Clone, Copy, PartialEq, Eq, Structural)]
pub enum DateFmt {
    /// `YYYY-MM-DD HH:MM:SS[.ffffff]`
    IsoSpace,
    /// `YYYY-MM-DDTHH:MM:SS[.ffffff]`
    IsoT,
    /// `DD/MM/YYYY HH:MM:SS[.ffffff]`
    DayFirstSlash,
    /// `DD-MM-YYYY HH:MM:SS[.ffffff]`
    DayFirstDash,
    /// `YYYY/MM/DD HH:MM:SS[.ffffff]`
    YmdSlash,
}

/// The bytes of `-`, `/` and `T`.
pub const DASH: u8 = 45;

pub const SLASH: u8 = 47;

pub const LETTER_T: u8 = 84;

/// The format of a cell, by the separators in its UTF-8 bytes.
pub open spec fn format_of(cell: Seq<char>) -> Option<DateFmt> {
    let b = utf8::encode_utf8(scan::trimmed(cell));
    if b.len() < 10 {
        None
    } else if b[4] == DASH && b[7] == DASH {
        if b.len() > 10 && b[10] == LETTER_T {
            Some(DateFmt::IsoT)
        } else {
            Some(DateFmt::IsoSpace)
        }
    } else if b[2] == SLASH && b[5] == SLASH {
        Some(DateFmt::DayFirstSlash)
    } else if b[4] == SLASH && b[7] == SLASH {
        Some(DateFmt::YmdSlash)
    } else if b[2] == DASH && b[5] == DASH {
        Some(DateFmt::DayFirstDash)
    } else {
        None
    }
}

/// Tells the format of a cell.
pub fn detect_date_fmt(cell: &[char]) -> (r: Option<DateFmt>)
    ensures
        r == format_of(cell@),
{
    let t: Vec<char> = scan::trim(cell);
    let s: String = text::string_of(t.as_slice());
    let b: &[u8] = s.as_str().as_bytes();
    if b.len() < 10 {
        None
    } else if b[4] == DASH && b[7] == DASH {
        if b.len() > 10 && b[10] == LETTER_T {
            Some(DateFmt::IsoT)
        } else {
            Some(DateFmt::IsoSpace)
        }
    } else if b[2] == SLASH && b[5] == SLASH {
        Some(DateFmt::DayFirstSlash)
    } else if b[4] == SLASH && b[7] == SLASH {
        Some(DateFmt::YmdSlash)
    } else if b[2] == DASH && b[5] == DASH {
        Some(DateFmt::DayFirstDash)
    } else {
        None
    }
}

/// Where the run of digits from `i` on ends.
pub open spec fn digits_end(s: Seq<char>, i: int) -> int
    decreases s.len() - i,
{
    if i < s.len() && is_digit(s[i]) {
        digits_end(s, i + 1)
    } else {
        i
    }
}

/// The nanoseconds that the first nine of these digits stand for behind a
/// decimal point.
pub open spec fn scaled_fraction(digits: Seq<char>, places: int) -> int
    decreases places,
{
    if places <= 0 {
        0
    } else if digits.len() >= places {
        scaled_fraction(digits, places - 1) * 10 + (digits[places - 1] as int - '0' as int)
    } else {
        scaled_fraction(digits, places - 1) * 10
    }
}

/// The nanoseconds in what follows the seconds: a decimal point and digits,
/// or nothing that counts.
pub open spec fn fraction_of(rest: Seq<char>) -> int {
    let t = scan::trimmed(rest);
    if t.len() > 0 && t[0] == '.' {
        scaled_fraction(t.subrange(1, digits_end(t, 1)), 9)
    } else {
        0
    }
}

proof fn lemma_digits_end(s: Seq<char>, i: int)
    requires
        0 <= i <= s.len(),
    ensures
        i <= digits_end(s, i) <= s.len(),
        forall|k: int| i <= k < digits_end(s, i) ==> is_digit(#[trigger] s[k]),
    decreases s.len() - i,
{
    if i < s.len() && is_digit(s[i]) {
        lemma_digits_end(s, i + 1);
    }
}

/// Parses what follows the seconds.
pub fn parse_optional_fraction_ns(rest: &[char]) -> (r: u32)
    ensures
        r == fraction_of(rest@),
        r < 1_000_000_000,
{
    let t: Vec<char> = scan::trim(rest);
    if t.len() == 0 || t[0] != '.' {
        return 0;
    }
    let ghost digits = t@.subrange(1, digits_end(t@, 1));
    proof {
        lemma_digits_end(t@, 1);
        assert(forall|k: int| 0 <= k < digits.len() ==> #[trigger] digits[k] == t@[k + 1]);
    }
    let mut value: u32 = 0;
    let mut bound: u32 = 1;
    let mut running: bool = true;
    let mut places: usize = 0;
    while places < 9
        invariant
            t@.len() >= 1,
            digits == t@.subrange(1, digits_end(t@, 1)),
            1 <= digits_end(t@, 1) <= t@.len(),
            forall|k: int| 1 <= k < digits_end(t@, 1) ==> is_digit(#[trigger] t@[k]),
            places <= 9,
            value == scaled_fraction(digits, places as int),
            value < bound,
            bound == (if places == 0 {
                1int
            } else if places == 1 {
                10
            } else if places == 2 {
                100
            } else if places == 3 {
                1_000
            } else if places == 4 {
                10_000
            } else if places == 5 {
                100_000
            } else if places == 6 {
                1_000_000
            } else if places == 7 {
                10_000_000
            } else if places == 8 {
                100_000_000
            } else {
                1_000_000_000
            }),
            running ==> digits_end(t@, 1) == digits_end(t@, places + 1),
            running ==> digits.len() >= places,
            !running ==> digits.len() < places,
        decreases 9 - places,
    {
        let at: usize = places + 1;
        if running && at < t.len() && '0' <= t[at] && t[at] <= '9' {
            assert(is_digit(t@[at as int]));
            proof {
                lemma_digits_end(t@, at + 1);
            }
            let d: u32 = t[at] as u32 - '0' as u32;
            assert(digits[places as int] == t@[at as int]);
            value = value * 10 + d;
        } else {
            running = false;
            value = value * 10;
        }
        bound = bound * 10;
        places = places + 1;
    }
    value
}

/// Whether the first `n` characters are there and ASCII.
pub open spec fn ascii_start(s: Seq<char>, n: int) -> bool {
    s.len() >= n && forall|i: int| 0 <= i < n ==> #[trigger] s[i] <= '\u{7f}'
}

fn starts_ascii(s: &[char], n: usize) -> (r: bool)
    ensures
        r == ascii_start(s@, n as int),
{
    if s.len() < n {
        return false;
    }
    for i in 0..n
        invariant
            n <= s@.len(),
            forall|k: int| 0 <= k < i ==> #[trigger] s@[k] <= '\u{7f}',
    {
        if s[i] > '\u{7f}' {
            return false;
        }
    }
    true
}

/// The number in the characters between two places.
pub open spec fn field(s: Seq<char>, from: int, to: int) -> Option<u32> {
    u32_of(s.subrange(from, to))
}

/// The instant that the fields give, where all are there.
pub open spec fn instant_of(
    year: Option<i32>,
    month: Option<u32>,
    day: Option<u32>,
    time: Seq<char>,
    at: int,
) -> Option<i64> {
    let hour = field(time, at, at + 2);
    let minute = field(time, at + 3, at + 5);
    let second = field(time, at + 6, at + 8);
    if year is Some && month is Some && day is Some && hour is Some && minute is Some
        && second is Some {
        calendar::instant(
            year->0,
            month->0,
            day->0,
            hour->0,
            minute->0,
            second->0,
            fraction_of(time.skip(at + 8)) as u32,
        )
    } else {
        None
    }
}

/// The instant of `YYYY-MM-DD HH:MM:SS[.ffffff]`. Any ASCII character may
/// stand between the fields.
pub open spec fn iso_instant(s: Seq<char>) -> Option<i64> {
    if ascii_start(s, 19) {
        instant_of(i32_of(s.subrange(0, 4)), field(s, 5, 7), field(s, 8, 10), s, 11)
    } else {
        None
    }
}

fn time_instant(
    year: Option<i32>,
    month: Option<u32>,
    day: Option<u32>,
    time: &[char],
    at: usize,
) -> (r: Option<i64>)
    requires
        at + 8 <= time@.len(),
    ensures
        r == instant_of(year, month, day, time@, at as int),
{
    let n: usize = time.len();
    let hour: Option<u32> = parse_u32(vstd::slice::slice_subrange(time, at, at + 2));
    let minute: Option<u32> = parse_u32(vstd::slice::slice_subrange(time, at + 3, at + 5));
    let second: Option<u32> = parse_u32(vstd::slice::slice_subrange(time, at + 6, at + 8));
    let rest: &[char] = vstd::slice::slice_subrange(time, at + 8, n);
    assert(rest@ =~= time@.skip(at + 8));
    let frac_ns: u32 = parse_optional_fraction_ns(rest);
    match (year, month, day, hour, minute, second) {
        (Some(y), Some(mo), Some(d), Some(h), Some(mi), Some(s)) => calendar::ymdhms_to_ns(
            y,
            mo,
            d,
            h,
            mi,
            s,
            frac_ns,
        ),
        _ => None,
    }
}

/// Parses `YYYY-MM-DD HH:MM:SS[.ffffff]`.
pub fn parse_iso(s: &[char]) -> (r: Option<i64>)
    ensures
        r == iso_instant(s@),
{
    if !starts_ascii(s, 19) {
        return None;
    }
    let year: Option<i32> = parse_i32(vstd::slice::slice_subrange(s, 0, 4));
    let month: Option<u32> = parse_u32(vstd::slice::slice_subrange(s, 5, 7));
    let day: Option<u32> = parse_u32(vstd::slice::slice_subrange(s, 8, 10));
    time_instant(year, month, day, s, 11)
}

/// Where the time of day is set off: the first space or `T` from `i` on.
pub open spec fn time_mark(s: Seq<char>, i: int) -> Option<int>
    decreases s.len() - i,
{
    if i >= s.len() {
        None
    } else if s[i] == ' ' || s[i] == 'T' {
        Some(i)
    } else {
        time_mark(s, i + 1)
    }
}

/// The instant of a date of three parts and a time of day.
pub open spec fn three_part_instant(s: Seq<char>, sep: char, day_first: bool) -> Option<i64> {
    match time_mark(s, 0) {
        None => None,
        Some(k) => {
            let parts = scan::cells(s.take(k), sep);
            let time = s.skip(k + 1);
            if parts.len() != 3 || !ascii_start(time, 8) {
                None
            } else if day_first {
                instant_of(i32_of(parts[2]), u32_of(parts[1]), u32_of(parts[0]), time, 0)
            } else {
                instant_of(i32_of(parts[0]), u32_of(parts[1]), u32_of(parts[2]), time, 0)
            }
        },
    }
}

fn find_time_mark(s: &[char]) -> (r: Option<usize>)
    ensures
        match time_mark(s@, 0) {
            Some(i) => r matches Some(k) && k == i && k < s@.len(),
            None => r is None,
        },
{
    for i in 0..s.len()
        invariant
            time_mark(s@, 0) == time_mark(s@, i as int),
    {
        if s[i] == ' ' || s[i] == 'T' {
            return Some(i);
        }
    }
    None
}

/// Parses a date of three parts and a time of day.
pub fn parse_three_part(s: &[char], sep: char, day_first: bool) -> (r: Option<i64>)
    ensures
        r == three_part_instant(s@, sep, day_first),
{
    let n: usize = s.len();
    let k: usize = match find_time_mark(s) {
        Some(k) => k,
        None => {
            return None;
        },
    };
    let date: &[char] = vstd::slice::slice_subrange(s, 0, k);
    let time: &[char] = vstd::slice::slice_subrange(s, k + 1, n);
    let parts: Vec<Vec<char>> = scan::split(date, sep);
    proof {
        assert(date@ =~= s@.take(k as int));
        assert(time@ =~= s@.skip(k + 1));
        assert(scan::texts(parts@).len() == parts@.len());
        assert(forall|i: int|
            0 <= i < parts@.len() ==> #[trigger] scan::texts(parts@)[i] == parts@[i]@);
    }
    if parts.len() != 3 || !starts_ascii(time, 8) {
        return None;
    }
    let first: &[char] = parts[0].as_slice();
    let last: &[char] = parts[2].as_slice();
    let month: Option<u32> = parse_u32(parts[1].as_slice());
    if day_first {
        time_instant(parse_i32(last), month, parse_u32(first), time, 0)
    } else {
        time_instant(parse_i32(first), month, parse_u32(last), time, 0)
    }
}

/// The instant of a cell in a format.
pub open spec fn instant_in(fmt: DateFmt, cell: Seq<char>) -> Option<i64> {
    let s = scan::trimmed(cell);
    match fmt {
        DateFmt::IsoSpace => iso_instant(s),
        DateFmt::IsoT => iso_instant(s),
        DateFmt::DayFirstSlash => three_part_instant(s, '/', true),
        DateFmt::DayFirstDash => three_part_instant(s, '-', true),
        DateFmt::YmdSlash => three_part_instant(s, '/', false),
    }
}

/// Parses a cell in a format.
pub fn parse_date_with(fmt: DateFmt, cell: &[char]) -> (r: Option<i64>)
    ensures
        r == instant_in(fmt, cell@),
{
    let t: Vec<char> = scan::trim(cell);
    let s: &[char] = t.as_slice();
    match fmt {
        DateFmt::IsoSpace => parse_iso(s),
        DateFmt::IsoT => parse_iso(s),
        DateFmt::DayFirstSlash => parse_three_part(s, '/', true),
        DateFmt::DayFirstDash => parse_three_part(s, '-', true),
        DateFmt::YmdSlash => parse_three_part(s, '/', false),
    }
}

/// Three texts with a separator between them, a mark, and a time of day.
pub open spec fn written(
    a: Seq<char>,
    b: Seq<char>,
    c: Seq<char>,
    sep: char,
    mark: char,
    time: Seq<char>,
) -> Seq<char> {
    (a.push(sep) + b.push(sep) + c).push(mark) + time
}

/// Whether a text holds none of the characters that set dates off.
pub open spec fn plain(s: Seq<char>) -> bool {
    forall|i: int| #![trigger s[i]]
        0 <= i < s.len() ==> s[i] != ' ' && s[i] != 'T' && s[i] != '/' && s[i] != '-' && s[i]
            <= '\u{7f}'
}

proof fn lemma_time_mark(s: Seq<char>, i: int, k: int)
    requires
        0 <= i <= k < s.len(),
        forall|x: int| #![trigger s[x]] i <= x < k ==> s[x] != ' ' && s[x] != 'T',
        s[k] == ' ' || s[k] == 'T',
    ensures
        time_mark(s, i) == Some(k),
    decreases k - i,
{
    if i < k {
        lemma_time_mark(s, i + 1, k);
    }
}

proof fn lemma_three_part(
    a: Seq<char>,
    b: Seq<char>,
    c: Seq<char>,
    sep: char,
    mark: char,
    time: Seq<char>,
)
    requires
        plain(a),
        plain(b),
        plain(c),
        sep == '/' || sep == '-',
        mark == ' ' || mark == 'T',
        ascii_start(time, 8),
    ensures
        three_part_instant(written(a, b, c, sep, mark, time), sep, true) == instant_of(
            i32_of(c),
            u32_of(b),
            u32_of(a),
            time,
            0,
        ),
        three_part_instant(written(a, b, c, sep, mark, time), sep, false) == instant_of(
            i32_of(a),
            u32_of(b),
            u32_of(c),
            time,
            0,
        ),
{
    let date = a.push(sep) + b.push(sep) + c;
    let s = written(a, b, c, sep, mark, time);
    let k = date.len() as int;
    assert(s[k] == mark);
    assert forall|x: int| #![trigger s[x]] 0 <= x < k implies s[x] != ' ' && s[x] != 'T' by {
        assert(s[x] == date[x]);
        if x < a.len() {
            assert(date[x] == a[x]);
        } else if a.len() < x < a.len() + 1 + b.len() {
            assert(date[x] == b[x - a.len() - 1]);
        } else if x > a.len() + 1 + b.len() {
            assert(date[x] == c[x - a.len() - b.len() - 2]);
        }
    }
    lemma_time_mark(s, 0, k);
    scan::law_cells_of_three(a, b, c, sep);
    assert(s.take(k) =~= date);
    assert(s.skip(k + 1) =~= time);
}

/// One instant can be written in every format: with the year first or the day
/// first, with dashes or slashes, with a space or a `T` in front of the time.
pub proof fn law_formats_agree(
    y: Seq<char>,
    m: Seq<char>,
    d: Seq<char>,
    mark: char,
    time: Seq<char>,
)
    requires
        plain(y),
        plain(m),
        plain(d),
        y.len() == 4,
        m.len() == 2,
        d.len() == 2,
        mark == ' ' || mark == 'T',
        ascii_start(time, 8),
    ensures
        ({
            let it = instant_of(i32_of(y), u32_of(m), u32_of(d), time, 0);
            &&& iso_instant(written(y, m, d, '-', mark, time)) == it
            &&& three_part_instant(written(d, m, y, '/', mark, time), '/', true) == it
            &&& three_part_instant(written(d, m, y, '-', mark, time), '-', true) == it
            &&& three_part_instant(written(y, m, d, '/', mark, time), '/', false) == it
        }),
{
    lemma_three_part(d, m, y, '/', mark, time);
    lemma_three_part(d, m, y, '-', mark, time);
    lemma_three_part(y, m, d, '/', mark, time);
    let s = written(y, m, d, '-', mark, time);
    assert(s.subrange(0, 4) =~= y);
    assert(s.subrange(5, 7) =~= m);
    assert(s.subrange(8, 10) =~= d);
    assert(s.subrange(11, 13) =~= time.subrange(0, 2));
    assert(s.subrange(14, 16) =~= time.subrange(3, 5));
    assert(s.subrange(17, 19) =~= time.subrange(6, 8));
    assert(s.skip(19) =~= time.skip(8));
    assert forall|i: int| 0 <= i < 19 implies #[trigger] s[i] <= '\u{7f}' by {
        if i < 4 {
            assert(s[i] == y[i]);
        } else if 5 <= i < 7 {
            assert(s[i] == m[i - 5]);
        } else if 8 <= i < 10 {
            assert(s[i] == d[i - 8]);
        } else if i >= 11 {
            assert(s[i] == time[i - 11]);
        }
    }
}

proof fn lemma_least_char(c: char)
    ensures
        '\0' <= c,
{
}

proof fn lemma_ascii_bytes(s: Seq<char>, n: int)
    requires
        0 <= n,
        ascii_start(s, n),
    ensures
        utf8::encode_utf8(s).len() >= n,
        forall|i: int| 0 <= i < n ==> #[trigger] utf8::encode_utf8(s)[i] == s[i] as u8,
    decreases n,
{
    if n > 0 {
        let rest = s.drop_first();
        assert forall|i: int| 0 <= i < n - 1 implies #[trigger] rest[i] <= '\u{7f}' by {
            assert(rest[i] == s[i + 1]);
        }
        lemma_ascii_bytes(rest, n - 1);
        let c: char = s[0];
        lemma_least_char(c);
        let v: u32 = c as u32;
        assert(utf8::leading_byte_width_1(v) == v as u8) by (bit_vector)
            requires
                v <= 0x7f,
        ;
        let b = utf8::encode_utf8(s);
        let tail = utf8::encode_utf8(rest);
        assert(b =~= seq![v as u8] + tail);
        assert forall|i: int| 0 <= i < n implies #[trigger] b[i] == s[i] as u8 by {
            if i > 0 {
                assert(b[i] == tail[i - 1]);
                assert(rest[i - 1] == s[i]);
            }
        }
    }
}

proof fn lemma_digits_plain(s: Seq<char>)
    requires
        all_digits(s),
    ensures
        plain(s),
        s.len() > 0 ==> !scan::is_space(s[0]),
{
    assert forall|i: int| #![trigger s[i]] 0 <= i < s.len() implies s[i] != ' ' && s[i] != 'T'
        && s[i] != '/' && s[i] != '-' && s[i] <= '\u{7f}' by {
        assert(is_digit(s[i]));
    }
    if s.len() > 0 {
        assert(is_digit(s[0]));
    }
}

/// What the format of a cell goes by: a spelling with white space around it.
proof fn lemma_spelled(
    front: Seq<char>,
    a: Seq<char>,
    b: Seq<char>,
    c: Seq<char>,
    sep: char,
    mark: char,
    time: Seq<char>,
    behind: Seq<char>,
)
    requires
        all_digits(a),
        all_digits(b),
        all_digits(c),
        a.len() > 0,
        a.len() + b.len() + c.len() == 8,
        sep == '/' || sep == '-',
        mark == ' ' || mark == 'T',
        ascii_start(time, 8),
        !scan::is_space(time.last()),
        forall|k: int| 0 <= k < front.len() ==> scan::is_space(#[trigger] front[k]),
        forall|k: int| 0 <= k < behind.len() ==> scan::is_space(#[trigger] behind[k]),
    ensures
        ({
            let s = written(a, b, c, sep, mark, time);
            let e = utf8::encode_utf8(s);
            &&& scan::trimmed(front + s + behind) == s
            &&& e.len() > 10
            &&& e[2] == s[2] as u8
            &&& e[4] == s[4] as u8
            &&& e[5] == s[5] as u8
            &&& e[7] == s[7] as u8
            &&& e[10] == s[10] as u8
        }),
{
    let s = written(a, b, c, sep, mark, time);
    lemma_digits_plain(a);
    lemma_digits_plain(b);
    lemma_digits_plain(c);
    assert(s[0] == a[0]);
    assert(s.last() == time.last());
    scan::law_trimmed(front, s, behind);
    assert forall|i: int| 0 <= i < 11 implies #[trigger] s[i] <= '\u{7f}' by {
        if i < a.len() {
            assert(s[i] == a[i]);
        } else if a.len() < i < a.len() + 1 + b.len() {
            assert(s[i] == b[i - a.len() - 1]);
        } else if a.len() + 1 + b.len() < i < 10 {
            assert(s[i] == c[i - a.len() - b.len() - 2]);
        }
    }
    lemma_ascii_bytes(s, 11);
    let e = utf8::encode_utf8(s);
    assert(e[2] == s[2] as u8 && e[4] == s[4] as u8 && e[5] == s[5] as u8 && e[7] == s[7] as u8
        && e[10] == s[10] as u8);
}

/// Each of the spellings of a date is told from the others, whatever white
/// space is around it, and read in its format all give the same instant.
pub proof fn law_spellings(
    front: Seq<char>,
    y: Seq<char>,
    m: Seq<char>,
    d: Seq<char>,
    mark: char,
    time: Seq<char>,
    behind: Seq<char>,
)
    requires
        all_digits(y),
        all_digits(m),
        all_digits(d),
        y.len() == 4,
        m.len() == 2,
        d.len() == 2,
        mark == ' ' || mark == 'T',
        ascii_start(time, 8),
        !scan::is_space(time.last()),
        forall|k: int| 0 <= k < front.len() ==> scan::is_space(#[trigger] front[k]),
        forall|k: int| 0 <= k < behind.len() ==> scan::is_space(#[trigger] behind[k]),
    ensures
        ({
            let it = instant_of(i32_of(y), u32_of(m), u32_of(d), time, 0);
            let iso_space = front + written(y, m, d, '-', ' ', time) + behind;
            let iso_t = front + written(y, m, d, '-', 'T', time) + behind;
            let day_slash = front + written(d, m, y, '/', mark, time) + behind;
            let day_dash = front + written(d, m, y, '-', mark, time) + behind;
            let year_slash = front + written(y, m, d, '/', mark, time) + behind;
            &&& format_of(iso_space) == Some(DateFmt::IsoSpace)
            &&& format_of(iso_t) == Some(DateFmt::IsoT)
            &&& format_of(day_slash) == Some(DateFmt::DayFirstSlash)
            &&& format_of(day_dash) == Some(DateFmt::DayFirstDash)
            &&& format_of(year_slash) == Some(DateFmt::YmdSlash)
            &&& instant_in(DateFmt::IsoSpace, iso_space) == it
            &&& instant_in(DateFmt::IsoT, iso_t) == it
            &&& instant_in(DateFmt::DayFirstSlash, day_slash) == it
            &&& instant_in(DateFmt::DayFirstDash, day_dash) == it
            &&& instant_in(DateFmt::YmdSlash, year_slash) == it
        }),
{
    lemma_digits_plain(y);
    lemma_digits_plain(m);
    lemma_digits_plain(d);
    law_formats_agree(y, m, d, ' ', time);
    law_formats_agree(y, m, d, 'T', time);
    lemma_spelled(front, y, m, d, '-', ' ', time, behind);
    lemma_spelled(front, y, m, d, '-', 'T', time, behind);
    lemma_spelled(front, d, m, y, '/', mark, time, behind);
    lemma_spelled(front, d, m, y, '-', mark, time, behind);
    lemma_spelled(front, y, m, d, '/', mark, time, behind);
    assert(is_digit(m[1]) && is_digit(y[1]) && is_digit(y[2]));
    let day_slash = written(d, m, y, '/', mark, time);
    assert(day_slash[4] == m[1] && day_slash[7] == y[1]);
    let day_dash = written(d, m, y, '-', mark, time);
    assert(day_dash[4] == m[1] && day_dash[7] == y[1]);
    let year_slash = written(y, m, d, '/', mark, time);
    assert(year_slash[2] == y[2]);
}

/// The characters of the digits.
pub open spec fn digit(n: int) -> char {
    if n == 0 {
        '0'
    } else if n == 1 {
        '1'
    } else if n == 2 {
        '2'
    } else if n == 3 {
        '3'
    } else if n == 4 {
        '4'
    } else if n == 5 {
        '5'
    } else if n == 6 {
        '6'
    } else if n == 7 {
        '7'
    } else if n == 8 {
        '8'
    } else {
        '9'
    }
}

/// A number below a hundred in two digits.
pub open spec fn two_digits(n: int) -> Seq<char> {
    seq![digit(n / 10), digit(n % 10)]
}

/// A number below ten thousand in four digits.
pub open spec fn four_digits(n: int) -> Seq<char> {
    seq![digit(n / 1000), digit(n / 100 % 10), digit(n / 10 % 10), digit(n % 10)]
}

proof fn lemma_digit(n: int)
    requires
        0 <= n < 10,
    ensures
        is_digit(digit(n)),
        digit(n) as int - '0' as int == n,
{
}

/// The digits of a number are read as that number.
pub proof fn law_digits_read(n: int)
    ensures
        0 <= n < 100 ==> all_digits(two_digits(n)) && u32_of(two_digits(n)) == Some(n as u32)
            && i32_of(two_digits(n)) == Some(n as i32),
        0 <= n < 10_000 ==> all_digits(four_digits(n)) && i32_of(four_digits(n)) == Some(n as i32)
            && u32_of(four_digits(n)) == Some(n as u32),
{
    reveal_with_fuel(digits_value, 5);
    if 0 <= n < 100 {
        let s = two_digits(n);
        lemma_digit(n / 10);
        lemma_digit(n % 10);
        assert(s.drop_last() =~= seq![digit(n / 10)]);
        assert(s.drop_last().drop_last() =~= Seq::empty());
        assert(s.drop_last().last() == digit(n / 10));
        assert(digits_value(s) == n);
        assert forall|i: int| 0 <= i < s.len() implies is_digit(#[trigger] s[i]) by {}
    }
    if 0 <= n < 10_000 {
        let s = four_digits(n);
        lemma_digit(n / 1000);
        lemma_digit(n / 100 % 10);
        lemma_digit(n / 10 % 10);
        lemma_digit(n % 10);
        let a = s.drop_last();
        let b = a.drop_last();
        let c = b.drop_last();
        assert(a.last() == digit(n / 10 % 10));
        assert(b.last() == digit(n / 100 % 10));
        assert(c.last() == digit(n / 1000));
        assert(c.drop_last() =~= Seq::empty());
        assert(digits_value(c) == n / 1000);
        assert(digits_value(b) == n / 100);
        assert(digits_value(a) == n / 10);
        assert(digits_value(s) == n);
        assert forall|i: int| 0 <= i < s.len() implies is_digit(#[trigger] s[i]) by {}
    }
}

/// What follows the seconds: nothing, or a point and these digits.
pub open spec fn fraction_text(fs: Seq<int>) -> Seq<char> {
    if fs.len() == 0 {
        Seq::empty()
    } else {
        seq!['.'] + Seq::new(fs.len(), |i: int| digit(fs[i]))
    }
}

/// The nanoseconds of the first `k` decimal places.
pub open spec fn fraction_value(fs: Seq<int>, k: int) -> int
    decreases k,
{
    if k <= 0 {
        0
    } else {
        fraction_value(fs, k - 1) + (if k <= fs.len() {
            fs[k - 1]
        } else {
            0
        }) * place_value(k)
    }
}

/// The nanoseconds of one in a decimal place: a tenth of a second in the first.
pub open spec fn place_value(k: int) -> int {
    if k == 1 {
        100_000_000
    } else if k == 2 {
        10_000_000
    } else if k == 3 {
        1_000_000
    } else if k == 4 {
        100_000
    } else if k == 5 {
        10_000
    } else if k == 6 {
        1_000
    } else if k == 7 {
        100
    } else if k == 8 {
        10
    } else if k == 9 {
        1
    } else {
        0
    }
}

proof fn lemma_digits_run(s: Seq<char>, i: int)
    requires
        0 <= i <= s.len(),
        forall|k: int| i <= k < s.len() ==> is_digit(#[trigger] s[k]),
    ensures
        digits_end(s, i) == s.len(),
    decreases s.len() - i,
{
    if i < s.len() {
        lemma_digits_run(s, i + 1);
    }
}

/// The fraction of a second is the sum of its decimal places, of which nine
/// count.
pub proof fn law_fraction_read(fs: Seq<int>)
    requires
        forall|i: int| 0 <= i < fs.len() ==> 0 <= #[trigger] fs[i] < 10,
    ensures
        fraction_of(fraction_text(fs)) == fraction_value(fs, 9),
{
    let t = fraction_text(fs);
    reveal_with_fuel(scaled_fraction, 10);
    reveal_with_fuel(fraction_value, 10);
    if fs.len() == 0 {
        assert(scan::trimmed(t) =~= Seq::empty());
    } else {
        let ds = Seq::new(fs.len(), |i: int| digit(fs[i]));
        assert(t[0] == '.');
        assert forall|k: int| 1 <= k < t.len() implies is_digit(#[trigger] t[k]) by {
            assert(t[k] == ds[k - 1]);
            lemma_digit(fs[k - 1]);
        }
        let none = Seq::<char>::empty();
        assert(none + t + none =~= t);
        assert(is_digit(t.last()));
        scan::law_trimmed(none, t, none);
        lemma_digits_run(t, 1);
        assert(t.subrange(1, t.len() as int) =~= ds);
        assert forall|k: int| 0 <= k < fs.len() implies #[trigger] ds[k] as int - '0' as int
            == fs[k] by {
            lemma_digit(fs[k]);
        }
        if fs.len() > 0 {
            assert(ds[0] as int - '0' as int == fs[0]);
        }
        if fs.len() > 1 {
            assert(ds[1] as int - '0' as int == fs[1]);
        }
        if fs.len() > 2 {
            assert(ds[2] as int - '0' as int == fs[2]);
        }
        if fs.len() > 3 {
            assert(ds[3] as int - '0' as int == fs[3]);
        }
        if fs.len() > 4 {
            assert(ds[4] as int - '0' as int == fs[4]);
        }
        if fs.len() > 5 {
            assert(ds[5] as int - '0' as int == fs[5]);
        }
        if fs.len() > 6 {
            assert(ds[6] as int - '0' as int == fs[6]);
        }
        if fs.len() > 7 {
            assert(ds[7] as int - '0' as int == fs[7]);
        }
        if fs.len() > 8 {
            assert(ds[8] as int - '0' as int == fs[8]);
        }
    }
}

/// A time of day: hours, minutes and seconds with colons between them, and a
/// fraction.
pub open spec fn time_text(hour: int, minute: int, second: int, fs: Seq<int>) -> Seq<char> {
    two_digits(hour).push(':') + two_digits(minute).push(':') + two_digits(second)
        + fraction_text(fs)
}

/// A date in each of the spellings, with white space around it, is told from
/// the others and read as the instant of its fields.
#[verifier::spinoff_prover]
#[verifier::rlimit(60)]
pub proof fn law_dates_read(
    front: Seq<char>,
    behind: Seq<char>,
    year: int,
    month: int,
    day: int,
    hour: int,
    minute: int,
    second: int,
    fs: Seq<int>,
)
    requires
        0 <= year < 10_000,
        0 <= month < 100,
        0 <= day < 100,
        0 <= hour < 100,
        0 <= minute < 100,
        0 <= second < 100,
        forall|i: int| 0 <= i < fs.len() ==> 0 <= #[trigger] fs[i] < 10,
        forall|k: int| 0 <= k < front.len() ==> scan::is_space(#[trigger] front[k]),
        forall|k: int| 0 <= k < behind.len() ==> scan::is_space(#[trigger] behind[k]),
    ensures
        ({
            let y = four_digits(year);
            let m = two_digits(month);
            let d = two_digits(day);
            let time = time_text(hour, minute, second, fs);
            let it = calendar::instant(
                year as i32,
                month as u32,
                day as u32,
                hour as u32,
                minute as u32,
                second as u32,
                fraction_value(fs, 9) as u32,
            );
            let iso_space = front + written(y, m, d, '-', ' ', time) + behind;
            let iso_t = front + written(y, m, d, '-', 'T', time) + behind;
            let day_slash = front + written(d, m, y, '/', ' ', time) + behind;
            let day_dash = front + written(d, m, y, '-', ' ', time) + behind;
            let year_slash = front + written(y, m, d, '/', ' ', time) + behind;
            &&& format_of(iso_space) == Some(DateFmt::IsoSpace)
            &&& format_of(iso_t) == Some(DateFmt::IsoT)
            &&& format_of(day_slash) == Some(DateFmt::DayFirstSlash)
            &&& format_of(day_dash) == Some(DateFmt::DayFirstDash)
            &&& format_of(year_slash) == Some(DateFmt::YmdSlash)
            &&& instant_in(DateFmt::IsoSpace, iso_space) == it
            &&& instant_in(DateFmt::IsoT, iso_t) == it
            &&& instant_in(DateFmt::DayFirstSlash, day_slash) == it
            &&& instant_in(DateFmt::DayFirstDash, day_dash) == it
            &&& instant_in(DateFmt::YmdSlash, year_slash) == it
        }),
{
    let y = four_digits(year);
    let m = two_digits(month);
    let d = two_digits(day);
    let time = time_text(hour, minute, second, fs);
    law_digits_read(year);
    law_digits_read(month);
    law_digits_read(day);
    lemma_time_text(hour, minute, second, fs);
    law_spellings(front, y, m, d, ' ', time, behind);
}

proof fn lemma_time_text(hour: int, minute: int, second: int, fs: Seq<int>)
    requires
        0 <= hour < 100,
        0 <= minute < 100,
        0 <= second < 100,
        forall|i: int| 0 <= i < fs.len() ==> 0 <= #[trigger] fs[i] < 10,
    ensures
        ({
            let time = time_text(hour, minute, second, fs);
            &&& ascii_start(time, 8)
            &&& !scan::is_space(time.last())
            &&& field(time, 0, 2) == Some(hour as u32)
            &&& field(time, 3, 5) == Some(minute as u32)
            &&& field(time, 6, 8) == Some(second as u32)
            &&& fraction_of(time.skip(8)) == fraction_value(fs, 9)
        }),
{
    let h = two_digits(hour);
    let mi = two_digits(minute);
    let s = two_digits(second);
    let f = fraction_text(fs);
    let time = time_text(hour, minute, second, fs);
    law_digits_read(hour);
    law_digits_read(minute);
    law_digits_read(second);
    law_fraction_read(fs);
    assert(is_digit(h[0]) && is_digit(h[1]) && is_digit(mi[0]) && is_digit(mi[1]) && is_digit(
        s[0],
    ) && is_digit(s[1]));
    assert(time.subrange(0, 2) =~= h);
    assert(time.subrange(3, 5) =~= mi);
    assert(time.subrange(6, 8) =~= s);
    assert(time.skip(8) =~= f);
    assert(time[0] == h[0] && time[1] == h[1] && time[2] == ':' && time[3] == mi[0] && time[4]
        == mi[1] && time[5] == ':' && time[6] == s[0] && time[7] == s[1]);
    if fs.len() == 0 {
        assert(time.last() == s[1]);
    } else {
        assert(time.last() == digit(fs[fs.len() - 1]));
        lemma_digit(fs[fs.len() - 1]);
    }
}

/// These digits as text.
pub open spec fn digits_text(ds: Seq<int>) -> Seq<char> {
    Seq::new(ds.len(), |i: int| digit(ds[i]))
}

/// The number that has these decimal digits.
pub open spec fn number_of(ds: Seq<int>) -> int
    decreases ds.len(),
{
    if ds.len() == 0 {
        0
    } else {
        10 * number_of(ds.drop_last()) + ds.last()
    }
}

proof fn lemma_digits_text(ds: Seq<int>)
    requires
        forall|i: int| 0 <= i < ds.len() ==> 0 <= #[trigger] ds[i] < 10,
    ensures
        all_digits(digits_text(ds)),
        digits_value(digits_text(ds)) == number_of(ds),
        number_of(ds) >= 0,
    decreases ds.len(),
{
    let s = digits_text(ds);
    assert forall|i: int| 0 <= i < s.len() implies is_digit(#[trigger] s[i]) by {
        lemma_digit(ds[i]);
    }
    if ds.len() > 0 {
        let rest = ds.drop_last();
        assert forall|i: int| 0 <= i < rest.len() implies 0 <= #[trigger] rest[i] < 10 by {
            assert(rest[i] == ds[i]);
        }
        lemma_digits_text(rest);
        assert(s.drop_last() =~= digits_text(rest));
        assert(s.last() == digit(ds[ds.len() - 1]));
        lemma_digit(ds[ds.len() - 1]);
    }
}

/// A number of any digits, with leading zeros or without and with a plus sign
/// or without, is read as it is, where its type can hold it; a minus sign makes
/// it negative, where the type has negative numbers.
pub proof fn law_numbers_read(ds: Seq<int>)
    requires
        ds.len() > 0,
        forall|i: int| 0 <= i < ds.len() ==> 0 <= #[trigger] ds[i] < 10,
    ensures
        ({
            let s = digits_text(ds);
            let v = number_of(ds);
            &&& v <= 0xFFFF_FFFF ==> u32_of(s) == Some(v as u32) && u32_of(seq!['+'] + s) == Some(
                v as u32,
            )
            &&& v > 0xFFFF_FFFF ==> u32_of(s) is None && u32_of(seq!['+'] + s) is None
            &&& v <= 0x7FFF_FFFF ==> i32_of(s) == Some(v as i32) && i32_of(seq!['+'] + s) == Some(
                v as i32,
            )
            &&& v > 0x7FFF_FFFF ==> i32_of(s) is None && i32_of(seq!['+'] + s) is None
            &&& u32_of(seq!['-'] + s) is None
            &&& v <= 0x8000_0000 ==> i32_of(seq!['-'] + s) == Some((-v) as i32)
            &&& v > 0x8000_0000 ==> i32_of(seq!['-'] + s) is None
        }),
{
    let s = digits_text(ds);
    lemma_digits_text(ds);
    assert(is_digit(s[0]));
    assert((seq!['+'] + s).drop_first() =~= s);
    assert((seq!['-'] + s).drop_first() =~= s);
    assert((seq!['-'] + s)[0] == '-');
    assert(!is_digit((seq!['-'] + s)[0]));
}

/// A text with anything but digits behind a sign is no number, nor is one
/// without digits.
pub proof fn law_no_numbers(s: Seq<char>, i: int)
    ensures
        s.len() == 0 ==> u32_of(s) is None && i32_of(s) is None,
        s.len() == 1 && (s[0] == '+' || s[0] == '-') ==> u32_of(s) is None && i32_of(s) is None,
        0 <= i < s.len() && !('0' <= s[i] <= '9') && !(i == 0 && s[0] == '+') ==> u32_of(s) is None,
        0 <= i < s.len() && !('0' <= s[i] <= '9') && !(i == 0 && (s[0] == '+' || s[0] == '-'))
            ==> i32_of(s) is None,
{
    if s.len() > 0 {
        if 0 < i < s.len() {
            assert(s.drop_first()[i - 1] == s[i]);
        }
        if 0 <= i < s.len() && !('0' <= s[i] <= '9') {
            assert(!is_digit(s[i]));
            if s[0] == '+' || s[0] == '-' {
                if i > 0 {
                    assert(!is_digit(s.drop_first()[i - 1]));
                }
            }
            if s[0] == '-' {
                assert(!is_digit(s[0]));
            }
        }
        if s[0] == '-' {
            assert(!is_digit(s[0]));
        }
    }
}

/// What follows the digits of a fraction does not count, and without a point
/// nothing does.
pub proof fn law_fraction_ends(fs: Seq<int>, more: Seq<char>)
    requires
        forall|i: int| 0 <= i < fs.len() ==> 0 <= #[trigger] fs[i] < 10,
        more.len() > 0,
        !('0' <= more[0] <= '9'),
        !scan::is_space(more.last()),
    ensures
        fraction_of(seq!['.'] + digits_text(fs) + more) == fraction_value(fs, 9),
        more[0] != '.' && !scan::is_space(more[0]) ==> fraction_of(more) == 0,
{
    let none = Seq::<char>::empty();
    let ds = digits_text(fs);
    let t = seq!['.'] + ds + more;
    assert(none + t + none =~= t);
    assert(t.last() == more.last());
    scan::law_trimmed(none, t, none);
    let k = 1 + fs.len() as int;
    lemma_digits_text(fs);
    assert forall|i: int| 1 <= i < k implies is_digit(#[trigger] t[i]) by {
        assert(t[i] == ds[i - 1]);
    }
    assert(t[k] == more[0]);
    lemma_digits_stop(t, 1, k);
    assert(t.subrange(1, k) =~= ds);
    if fs.len() > 0 {
        law_fraction_read(fs);
        let u = fraction_text(fs);
        assert(none + u + none =~= u);
        assert forall|i: int| 1 <= i < u.len() implies is_digit(#[trigger] u[i]) by {
            assert(u[i] == ds[i - 1]);
        }
        assert(is_digit(u[u.len() - 1]));
        scan::law_trimmed(none, u, none);
        lemma_digits_run(u, 1);
        assert(u.subrange(1, u.len() as int) =~= ds);
    } else {
        reveal_with_fuel(scaled_fraction, 10);
        reveal_with_fuel(fraction_value, 10);
    }
    if !scan::is_space(more[0]) {
        assert(none + more + none =~= more);
        scan::law_trimmed(none, more, none);
    }
}

proof fn lemma_digits_stop(s: Seq<char>, i: int, k: int)
    requires
        0 <= i <= k < s.len(),
        forall|j: int| i <= j < k ==> is_digit(#[trigger] s[j]),
        !is_digit(s[k]),
    ensures
        digits_end(s, i) == k,
    decreases k - i,
{
    if i < k {
        lemma_digits_stop(s, i + 1, k);
    }
}

/// Any ASCII characters may stand between the fields of a date with the year
/// first and dashes, and between those of a time of day.
pub proof fn law_separators_free(s: Seq<char>, t: Seq<char>)
    requires
        s.len() == t.len(),
        ascii_start(s, 19),
        ascii_start(t, 19),
        forall|i: int| #![trigger s[i]]
            0 <= i < s.len() && i != 4 && i != 7 && i != 10 && i != 13 && i != 16 ==> s[i] == t[i],
    ensures
        iso_instant(s) == iso_instant(t),
{
    assert(s.subrange(0, 4) =~= t.subrange(0, 4));
    assert(s.subrange(5, 7) =~= t.subrange(5, 7));
    assert(s.subrange(8, 10) =~= t.subrange(8, 10));
    assert(s.subrange(11, 13) =~= t.subrange(11, 13));
    assert(s.subrange(14, 16) =~= t.subrange(14, 16));
    assert(s.subrange(17, 19) =~= t.subrange(17, 19));
    assert(s.skip(19) =~= t.skip(19));
}

proof fn lemma_no_mark(s: Seq<char>, i: int)
    requires
        0 <= i <= s.len(),
        forall|x: int| #![trigger s[x]] i <= x < s.len() ==> s[x] != ' ' && s[x] != 'T',
    ensures
        time_mark(s, i) is None,
    decreases s.len() - i,
{
    if i < s.len() {
        lemma_no_mark(s, i + 1);
    }
}

/// A date with no time of day is none, nor is one whose time is cut short, nor
/// one of more or fewer than three parts.
pub proof fn law_no_instant(s: Seq<char>, parts: Seq<Seq<char>>, sep: char, time: Seq<char>)
    ensures
        s.len() < 19 ==> iso_instant(s) is None,
        (forall|x: int| #![trigger s[x]] 0 <= x < s.len() ==> s[x] != ' ' && s[x] != 'T')
            ==> three_part_instant(s, sep, true) is None && three_part_instant(
            s,
            sep,
            false,
        ) is None,
        parts.len() > 0 && scan::delimited(parts, sep) && (forall|x: int|
            #![trigger scan::with_delimiters(parts, sep)[x]]
            0 <= x < scan::with_delimiters(parts, sep).len() ==> scan::with_delimiters(
                parts,
                sep,
            )[x] != ' ' && scan::with_delimiters(parts, sep)[x] != 'T') && (parts.len() != 3
            || time.len() < 8) ==> three_part_instant(
            scan::with_delimiters(parts, sep).push(' ') + time,
            sep,
            true,
        ) is None && three_part_instant(
            scan::with_delimiters(parts, sep).push(' ') + time,
            sep,
            false,
        ) is None,
{
    if forall|x: int| #![trigger s[x]] 0 <= x < s.len() ==> s[x] != ' ' && s[x] != 'T' {
        lemma_no_mark(s, 0);
    }
    let date = scan::with_delimiters(parts, sep);
    if parts.len() > 0 && scan::delimited(parts, sep) && (forall|x: int| #![trigger date[x]]
        0 <= x < date.len() ==> date[x] != ' ' && date[x] != 'T') {
        let u = date.push(' ') + time;
        let k = date.len() as int;
        assert forall|x: int| #![trigger u[x]] 0 <= x < k implies u[x] != ' ' && u[x] != 'T' by {
            assert(u[x] == date[x]);
        }
        lemma_time_mark(u, 0, k);
        assert(u.take(k) =~= date);
        assert(u.skip(k + 1) =~= time);
        scan::law_cells_written(parts, sep);
    }
}

/// A cell that is too short for a date has no format, nor has one of ASCII
/// characters in which no dash and no slash stands.
pub proof fn law_no_format(s: Seq<char>)
    requires
        vstd::utf8::is_ascii_chars(s),
        s.len() == 0 || (!scan::is_space(s[0]) && !scan::is_space(s.last())),
        s.len() < 10 || forall|i: int| #![trigger s[i]]
            0 <= i < s.len() ==> s[i] != '-' && s[i] != '/',
    ensures
        format_of(s) is None,
{
    let none = Seq::<char>::empty();
    assert(none + s + none =~= s);
    if s.len() > 0 {
        scan::law_trimmed(none, s, none);
    } else {
        assert(scan::trimmed(s) =~= s);
    }
    utf8::is_ascii_chars_encode_utf8(s);
    if s.len() >= 10 {
        let e = utf8::encode_utf8(s);
        assert(e[2] == s[2] as u8 && e[4] == s[4] as u8 && e[5] == s[5] as u8 && e[7] == s[7] as u8);
        assert(s[2] != '-' && s[4] != '-' && s[2] != '/' && s[4] != '/');
    }
}

/// The format of a cell of ASCII characters goes by its separators alone,
/// whatever else stands in it: dashes behind four and seven characters count
/// first, then slashes behind two and five, then slashes behind four and seven,
/// then dashes behind two and five.
pub proof fn law_format_told(s: Seq<char>)
    requires
        vstd::utf8::is_ascii_chars(s),
        s.len() >= 10,
        !scan::is_space(s[0]),
        !scan::is_space(s.last()),
    ensures
        ({
            let iso = s[4] == '-' && s[7] == '-';
            let day_slash = s[2] == '/' && s[5] == '/';
            let year_slash = s[4] == '/' && s[7] == '/';
            let day_dash = s[2] == '-' && s[5] == '-';
            &&& iso && s.len() > 10 && s[10] == 'T' ==> format_of(s) == Some(DateFmt::IsoT)
            &&& iso && !(s.len() > 10 && s[10] == 'T') ==> format_of(s) == Some(DateFmt::IsoSpace)
            &&& !iso && day_slash ==> format_of(s) == Some(DateFmt::DayFirstSlash)
            &&& !iso && !day_slash && year_slash ==> format_of(s) == Some(DateFmt::YmdSlash)
            &&& !iso && !day_slash && !year_slash && day_dash ==> format_of(s) == Some(
                DateFmt::DayFirstDash,
            )
            &&& !iso && !day_slash && !year_slash && !day_dash ==> format_of(s) is None
        }),
{
    let none = Seq::<char>::empty();
    assert(none + s + none =~= s);
    scan::law_trimmed(none, s, none);
    utf8::is_ascii_chars_encode_utf8(s);
    let e = utf8::encode_utf8(s);
    assert(e[2] == s[2] as u8 && e[4] == s[4] as u8 && e[5] == s[5] as u8 && e[7] == s[7] as u8);
    if s.len() > 10 {
        assert(e[10] == s[10] as u8);
    }
}

} // verus!
