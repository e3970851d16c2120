//! Cutting text into lines, cells and words.

use crate::slices;
use vstd::prelude::*;

verus! {

/// Whether Unicode counts the character as white space.
pub open spec fn is_space(c: char) -> bool {
    ||| '\u{9}' <= c <= '\u{d}'
    ||| c == ' '
    ||| c == '\u{85}'
    ||| c == '\u{a0}'
    ||| c == '\u{1680}'
    ||| '\u{2000}' <= c <= '\u{200a}'
    ||| c == '\u{2028}'
    ||| c == '\u{2029}'
    ||| c == '\u{202f}'
    ||| c == '\u{205f}'
    ||| c == '\u{3000}'
}

/// Whether Unicode counts the character as white space.
pub fn space(c: char) -> (r: bool)
    ensures
        r == is_space(c),
{
    ('\u{9}' <= c && c <= '\u{d}') || c == ' ' || c == '\u{85}' || c == '\u{a0}' || c == '\u{1680}'
        || ('\u{2000}' <= c && c <= '\u{200a}') || c == '\u{2028}' || c == '\u{2029}' || c
        == '\u{202f}' || c == '\u{205f}' || c == '\u{3000}'
}

/// The texts of a list.
pub open spec fn texts(s: Seq<Vec<char>>) -> Seq<Seq<char>> {
    s.map_values(|v: Vec<char>| v@)
}

/// The text without the white space in front.
pub open spec fn trim_start(s: Seq<char>) -> Seq<char>
    decreases s.len(),
{
    if s.len() > 0 && is_space(s[0]) {
        trim_start(s.drop_first())
    } else {
        s
    }
}

/// The text without the white space behind.
pub open spec fn trim_end(s: Seq<char>) -> Seq<char>
    decreases s.len(),
{
    if s.len() > 0 && is_space(s.last()) {
        trim_end(s.drop_last())
    } else {
        s
    }
}

/// The text without white space around it.
pub open spec fn trimmed(s: Seq<char>) -> Seq<char> {
    trim_end(trim_start(s))
}

/// What stands in front of the first `d` from `i` on, and where that is; the
/// rest of the text, and its end, where there is none.
pub open spec fn upto(s: Seq<char>, i: int, d: char) -> int
    decreases s.len() - i,
{
    if i >= s.len() {
        s.len() as int
    } else if s[i] == d {
        i
    } else {
        upto(s, i + 1, d)
    }
}

/// The end of a piece lies in the text.
pub proof fn lemma_upto(s: Seq<char>, i: int, d: char)
    requires
        0 <= i <= s.len(),
    ensures
        i <= upto(s, i, d) <= s.len(),
        forall|k: int| i <= k < upto(s, i, d) ==> s[k] != d,
        upto(s, i, d) < s.len() ==> s[upto(s, i, d)] == d,
    decreases s.len() - i,
{
    if i < s.len() && s[i] != d {
        lemma_upto(s, i + 1, d);
    }
}

/// The piece from `i` on ends where the first `d` stands.
pub proof fn lemma_upto_at(s: Seq<char>, i: int, k: int, d: char)
    requires
        0 <= i <= k <= s.len(),
        forall|j: int| i <= j < k ==> s[j] != d,
        k < s.len() ==> s[k] == d,
    ensures
        upto(s, i, d) == k,
    decreases k - i,
{
    if i < k {
        lemma_upto_at(s, i + 1, k, d);
    }
}

/// Texts without a `d` in them are the cells of what they are joined to.
pub proof fn law_cells_of_three(a: Seq<char>, b: Seq<char>, c: Seq<char>, d: char)
    requires
        !a.contains(d),
        !b.contains(d),
        !c.contains(d),
    ensures
        cells(a.push(d) + b.push(d) + c, d) == seq![a, b, c],
{
    let s = a.push(d) + b.push(d) + c;
    let i = a.len() as int;
    let j = i + 1 + b.len();
    let n = s.len() as int;
    assert forall|x: int| 0 <= x < i implies s[x] != d by {
        assert(a[x] == s[x]);
    }
    assert forall|x: int| i < x < j implies s[x] != d by {
        assert(b[x - i - 1] == s[x]);
    }
    assert forall|x: int| j < x < n implies s[x] != d by {
        assert(c[x - j - 1] == s[x]);
    }
    assert(s[i] == d && s[j] == d);
    lemma_upto_at(s, 0, i, d);
    lemma_upto_at(s, i + 1, j, d);
    lemma_upto_at(s, j + 1, n, d);
    assert(s.subrange(0, i) =~= a);
    assert(s.subrange(i + 1, j) =~= b);
    assert(s.subrange(j + 1, n) =~= c);
    assert(pieces(s, j + 1, d) =~= seq![c]);
    assert(pieces(s, i + 1, d) =~= seq![b, c]);
    assert(pieces(s, 0, d) =~= seq![a, b, c]);
}

/// The pieces between the `d`s from `i` on. There is always one more than
/// there are `d`s.
pub open spec fn pieces(s: Seq<char>, i: int, d: char) -> Seq<Seq<char>>
    decreases s.len() - i,
{
    if 0 <= i <= s.len() {
        let k = upto(s, i, d);
        proof {
            lemma_upto(s, i, d);
        }
        if k < s.len() {
            seq![s.subrange(i, k)] + pieces(s, k + 1, d)
        } else {
            seq![s.subrange(i, k)]
        }
    } else {
        Seq::empty()
    }
}

/// The cells of a row: what stands between the delimiters.
pub open spec fn cells(row: Seq<char>, d: char) -> Seq<Seq<char>> {
    pieces(row, 0, d)
}

/// Cells with a delimiter between them.
pub open spec fn with_delimiters(cs: Seq<Seq<char>>, d: char) -> Seq<char>
    decreases cs.len(),
{
    if cs.len() == 0 {
        Seq::empty()
    } else if cs.len() == 1 {
        cs[0]
    } else {
        cs[0].push(d) + with_delimiters(cs.drop_first(), d)
    }
}

/// Whether no cell holds the delimiter.
pub open spec fn delimited(cs: Seq<Seq<char>>, d: char) -> bool {
    forall|i: int| 0 <= i < cs.len() ==> !(#[trigger] cs[i]).contains(d)
}

proof fn lemma_pieces_written(s: Seq<char>, i: int, cs: Seq<Seq<char>>, d: char)
    requires
        0 <= i <= s.len(),
        cs.len() > 0,
        delimited(cs, d),
        s.skip(i) == with_delimiters(cs, d),
    ensures
        pieces(s, i, d) == cs,
    decreases cs.len(),
{
    let c = cs[0];
    let t = s.skip(i);
    let k = i + c.len();
    assert(t.len() == s.len() - i);
    assert(c.len() <= with_delimiters(cs, d).len());
    assert(!c.contains(d));
    assert forall|j: int| i <= j < k implies s[j] != d by {
        assert(s[j] == t[j - i]);
        assert(t[j - i] == c[j - i]);
    }
    if cs.len() == 1 {
        lemma_upto_at(s, i, k, d);
        assert(s.subrange(i, k) =~= t);
        assert(cs =~= seq![c]);
    } else {
        assert(t.len() == c.len() + 1 + with_delimiters(cs.drop_first(), d).len());
        assert(s[k] == t[c.len() as int]);
        assert(s[k] == d);
        lemma_upto_at(s, i, k, d);
        let rest = cs.drop_first();
        assert(delimited(rest, d)) by {
            assert forall|j: int| 0 <= j < rest.len() implies !(#[trigger] rest[j]).contains(
                d,
            ) by {
                assert(rest[j] == cs[j + 1]);
            }
        }
        assert(s.skip(k + 1) =~= with_delimiters(rest, d)) by {
            assert forall|j: int| 0 <= j < s.len() - (k + 1) implies s.skip(k + 1)[j]
                == with_delimiters(rest, d)[j] by {
                assert(s.skip(k + 1)[j] == t[c.len() + 1 + j]);
            }
        }
        lemma_pieces_written(s, k + 1, rest, d);
        assert(s.subrange(i, k) =~= c) by {
            assert forall|j: int| 0 <= j < c.len() implies s.subrange(i, k)[j] == c[j] by {
                assert(s[i + j] == t[j]);
            }
        }
        assert(seq![c] + rest =~= cs);
    }
}

/// The cells of a row are those that it was written of.
pub proof fn law_cells_written(cs: Seq<Seq<char>>, d: char)
    requires
        cs.len() > 0,
        delimited(cs, d),
    ensures
        cells(with_delimiters(cs, d), d) == cs,
{
    let s = with_delimiters(cs, d);
    assert(s.skip(0) =~= s);
    lemma_pieces_written(s, 0, cs, d);
}

proof fn lemma_pieces_whole(s: Seq<char>, i: int, d: char)
    requires
        0 <= i <= s.len(),
    ensures
        pieces(s, i, d).len() > 0,
        delimited(pieces(s, i, d), d),
        with_delimiters(pieces(s, i, d), d) == s.skip(i),
    decreases s.len() - i,
{
    let k = upto(s, i, d);
    lemma_upto(s, i, d);
    let c = s.subrange(i, k);
    let all = pieces(s, i, d);
    assert(!c.contains(d)) by {
        if c.contains(d) {
            let j = c.index_of(d);
            assert(s[i + j] == d);
        }
    }
    if k < s.len() {
        lemma_pieces_whole(s, k + 1, d);
        let rest = pieces(s, k + 1, d);
        assert(all.drop_first() =~= rest);
        assert(all[0] == c);
        assert forall|j: int| 0 <= j < all.len() implies !(#[trigger] all[j]).contains(d) by {
            if j > 0 {
                assert(all[j] == rest[j - 1]);
            }
        }
        assert(c.push(d) + s.skip(k + 1) =~= s.skip(i));
    } else {
        assert(c =~= s.skip(i));
    }
}

/// The cells of a row hold all of it but its delimiters.
pub proof fn law_cells_whole(row: Seq<char>, d: char)
    ensures
        cells(row, d).len() > 0,
        delimited(cells(row, d), d),
        with_delimiters(cells(row, d), d) == row,
{
    lemma_pieces_whole(row, 0, d);
    assert(row.skip(0) =~= row);
}

/// A line without the carriage return of its line end.
pub open spec fn without_return(s: Seq<char>) -> Seq<char> {
    if s.len() > 0 && s.last() == '\r' {
        s.drop_last()
    } else {
        s
    }
}

/// The lines from `i` on. A line ends with a line feed, with or without a
/// carriage return in front; the last one need not.
pub open spec fn lines_from(s: Seq<char>, i: int) -> Seq<Seq<char>>
    decreases s.len() - i,
{
    if 0 <= i < s.len() {
        let k = upto(s, i, '\n');
        proof {
            lemma_upto(s, i, '\n');
        }
        if k < s.len() {
            seq![without_return(s.subrange(i, k))] + lines_from(s, k + 1)
        } else {
            seq![s.subrange(i, k)]
        }
    } else {
        Seq::empty()
    }
}

/// The lines of a text.
pub open spec fn lines(s: Seq<char>) -> Seq<Seq<char>> {
    lines_from(s, 0)
}

/// The first word, and what follows the white space behind it; `None` where
/// there is none.
pub open spec fn next_word(s: Seq<char>) -> Option<(Seq<char>, Seq<char>)> {
    let t = trim_start(s);
    if t.len() == 0 {
        None
    } else {
        let k = word_end(t, 0);
        Some((t.take(k), t.skip(k)))
    }
}

/// Where the white space from `i` on starts.
pub open spec fn word_end(s: Seq<char>, i: int) -> int
    decreases s.len() - i,
{
    if i >= s.len() {
        s.len() as int
    } else if is_space(s[i]) {
        i
    } else {
        word_end(s, i + 1)
    }
}

proof fn lemma_word_end(s: Seq<char>, i: int, k: int)
    requires
        0 <= i <= k <= s.len(),
        forall|j: int| i <= j < k ==> !is_space(#[trigger] s[j]),
        k < s.len() ==> is_space(s[k]),
    ensures
        word_end(s, i) == k,
    decreases k - i,
{
    if i < k {
        lemma_word_end(s, i + 1, k);
    }
}

/// The first word of a text is what stands between the white space in front and
/// the white space behind; where there is none, there is only white space.
pub proof fn law_next_word(front: Seq<char>, word: Seq<char>, behind: Seq<char>)
    requires
        word.len() > 0,
        forall|k: int| 0 <= k < front.len() ==> is_space(#[trigger] front[k]),
        forall|k: int| 0 <= k < word.len() ==> !is_space(#[trigger] word[k]),
        behind.len() > 0 ==> is_space(behind[0]),
    ensures
        next_word(front + word + behind) == Some((word, behind)),
        next_word(front) is None,
{
    let s = front + word + behind;
    let i = front.len() as int;
    assert forall|k: int| 0 <= k < i implies is_space(#[trigger] s[k]) by {
        assert(s[k] == front[k]);
    }
    assert(s[i] == word[0]);
    lemma_trim_start_at(s, i);
    let t = s.skip(i);
    let n = word.len() as int;
    assert forall|j: int| 0 <= j < n implies !is_space(#[trigger] t[j]) by {
        assert(t[j] == word[j]);
    }
    if behind.len() > 0 {
        assert(t[n] == behind[0]);
    }
    lemma_word_end(t, 0, n);
    assert(t.take(n) =~= word);
    assert(t.skip(n) =~= behind);
    lemma_trim_start_at(front, i);
}

proof fn lemma_trim_start_at(s: Seq<char>, i: int)
    requires
        0 <= i <= s.len(),
        forall|k: int| 0 <= k < i ==> is_space(#[trigger] s[k]),
        i < s.len() ==> !is_space(s[i]),
    ensures
        trim_start(s) == s.skip(i),
    decreases s.len(),
{
    if i == 0 {
        assert(s.skip(0) =~= s);
    } else {
        let rest = s.drop_first();
        assert forall|k: int| 0 <= k < i - 1 implies is_space(#[trigger] rest[k]) by {
            assert(rest[k] == s[k + 1]);
        }
        lemma_trim_start_at(rest, i - 1);
        assert(is_space(s[0]));
        assert(rest.skip(i - 1) =~= s.skip(i));
    }
}

proof fn lemma_trim_end_at(s: Seq<char>, j: int)
    requires
        0 <= j <= s.len(),
        forall|k: int| j <= k < s.len() ==> is_space(#[trigger] s[k]),
        j > 0 ==> !is_space(s[j - 1]),
    ensures
        trim_end(s) == s.take(j),
    decreases s.len(),
{
    if j == s.len() {
        assert(s.take(j) =~= s);
    } else {
        let rest = s.drop_last();
        assert(is_space(s[s.len() - 1]));
        assert forall|k: int| j <= k < rest.len() implies is_space(#[trigger] rest[k]) by {
            assert(rest[k] == s[k]);
        }
        lemma_trim_end_at(rest, j);
        assert(rest.take(j) =~= s.take(j));
    }
}

/// White space around a text that starts and ends without is all that is cut
/// off.
pub proof fn law_trimmed(front: Seq<char>, s: Seq<char>, behind: Seq<char>)
    requires
        s.len() > 0,
        !is_space(s[0]),
        !is_space(s.last()),
        forall|k: int| 0 <= k < front.len() ==> is_space(#[trigger] front[k]),
        forall|k: int| 0 <= k < behind.len() ==> is_space(#[trigger] behind[k]),
    ensures
        trimmed(front + s + behind) == s,
{
    let all = front + s + behind;
    let i = front.len() as int;
    let n = s.len() as int;
    assert forall|k: int| 0 <= k < i implies is_space(#[trigger] all[k]) by {
        assert(all[k] == front[k]);
    }
    assert(all[i] == s[0]);
    lemma_trim_start_at(all, i);
    let t = all.skip(i);
    assert forall|k: int| n <= k < t.len() implies is_space(#[trigger] t[k]) by {
        assert(t[k] == behind[k - n]);
    }
    assert(t[n - 1] == s.last());
    lemma_trim_end_at(t, n);
    assert(t.take(n) =~= s);
}

/// The text without white space around it.
pub fn trim(s: &[char]) -> (r: Vec<char>)
    ensures
        r@ == trimmed(s@),
{
    let n: usize = s.len();
    let mut i: usize = 0;
    while i < n && space(s[i])
        invariant
            n == s@.len(),
            i <= n,
            forall|k: int| 0 <= k < i ==> is_space(#[trigger] s@[k]),
        decreases n - i,
    {
        i = i + 1;
    }
    let mut j: usize = n;
    while j > i && space(s[j - 1])
        invariant
            n == s@.len(),
            i <= j <= n,
            forall|k: int| j <= k < n ==> is_space(#[trigger] s@[k]),
        decreases j,
    {
        j = j - 1;
    }
    proof {
        lemma_trim_start_at(s@, i as int);
        let t = s@.skip(i as int);
        assert forall|k: int| j - i <= k < t.len() implies is_space(#[trigger] t[k]) by {
            assert(t[k] == s@[k + i]);
        }
        if j > i {
            assert(t[j - i - 1] == s@[j - 1]);
        }
        lemma_trim_end_at(t, j - i);
        assert(t.take(j - i) =~= s@.subrange(i as int, j as int));
    }
    slices::copy_range(s, i, j)
}

fn find_from(s: &[char], start: usize, d: char) -> (r: usize)
    requires
        start <= s@.len(),
    ensures
        r == upto(s@, start as int, d),
        start <= r <= s@.len(),
{
    let mut i: usize = start;
    while i < s.len() && s[i] != d
        invariant
            start <= i <= s@.len(),
            upto(s@, start as int, d) == upto(s@, i as int, d),
        decreases s@.len() - i,
    {
        i = i + 1;
    }
    i
}

/// The cells of a row: what stands between the delimiters.
pub fn split(row: &[char], d: char) -> (r: Vec<Vec<char>>)
    ensures
        texts(r@) == cells(row@, d),
        r@.len() >= 1,
{
    let mut out: Vec<Vec<char>> = Vec::new();
    let mut i: usize = 0;
    let ghost all = cells(row@, d);
    assert(texts(out@) + pieces(row@, 0, d) =~= all);
    loop
        invariant_except_break
            texts(out@) + pieces(row@, i as int, d) == all,
        invariant
            i <= row@.len(),
            all == cells(row@, d),
        ensures
            texts(out@) == all,
            out@.len() >= 1,
        decreases row@.len() - i,
    {
        let k: usize = find_from(row, i, d);
        let ghost before = texts(out@);
        let ghost piece = row@.subrange(i as int, k as int);
        out.push(slices::copy_range(row, i, k));
        assert(texts(out@) =~= before.push(piece));
        if k >= row.len() {
            assert(before + seq![piece] =~= before.push(piece));
            break ;
        }
        proof {
            assert(before + (seq![piece] + pieces(row@, k + 1, d)) =~= texts(out@) + pieces(
                row@,
                k + 1,
                d,
            ));
        }
        i = k + 1;
    }
    out
}

/// The lines of a text.
pub fn split_lines(s: &[char]) -> (r: Vec<Vec<char>>)
    ensures
        texts(r@) == lines(s@),
{
    let mut out: Vec<Vec<char>> = Vec::new();
    let mut i: usize = 0;
    let ghost all = lines(s@);
    assert(texts(out@) + lines_from(s@, 0) =~= all);
    while i < s.len()
        invariant
            i <= s@.len(),
            all == lines(s@),
            texts(out@) + lines_from(s@, i as int) == all,
        decreases s@.len() - i,
    {
        let k: usize = find_from(s, i, '\n');
        let ghost before = texts(out@);
        if k < s.len() {
            let end: usize = if k > i && s[k - 1] == '\r' {
                k - 1
            } else {
                k
            };
            let ghost line = without_return(s@.subrange(i as int, k as int));
            out.push(slices::copy_range(s, i, end));
            proof {
                let raw = s@.subrange(i as int, k as int);
                if k > i {
                    assert(raw.last() == s@[k - 1]);
                    assert(raw.drop_last() =~= s@.subrange(i as int, k - 1));
                }
                assert(texts(out@) =~= before.push(line));
                assert(before + (seq![line] + lines_from(s@, k + 1)) =~= texts(out@)
                    + lines_from(s@, k + 1));
            }
            i = k + 1;
        } else {
            let ghost line = s@.subrange(i as int, k as int);
            out.push(slices::copy_range(s, i, k));
            proof {
                assert(texts(out@) =~= before.push(line));
                assert(before + seq![line] =~= texts(out@) + Seq::empty());
            }
            i = k;
        }
    }
    assert(texts(out@) + Seq::empty() =~= texts(out@));
    out
}

/// The first word, and what follows it.
pub fn take_word(s: &[char]) -> (r: Option<(Vec<char>, Vec<char>)>)
    ensures
        match next_word(s@) {
            Some((word, rest)) => r matches Some((w, t)) && w@ == word && t@ == rest,
            None => r is None,
        },
{
    let n: usize = s.len();
    let mut i: usize = 0;
    while i < n && space(s[i])
        invariant
            n == s@.len(),
            i <= n,
            forall|k: int| 0 <= k < i ==> is_space(#[trigger] s@[k]),
        decreases n - i,
    {
        i = i + 1;
    }
    proof {
        lemma_trim_start_at(s@, i as int);
    }
    let ghost t = s@.skip(i as int);
    if i == n {
        return None;
    }
    let mut j: usize = i;
    while j < n && !space(s[j])
        invariant
            n == s@.len(),
            i <= j <= n,
            t == s@.skip(i as int),
            word_end(t, 0) == word_end(t, j - i),
        decreases n - j,
    {
        assert(t[j - i] == s@[j as int]);
        j = j + 1;
    }
    proof {
        if j < n {
            assert(t[j - i] == s@[j as int]);
        }
        assert(t.take(j - i) =~= s@.subrange(i as int, j as int));
        assert(t.skip(j - i) =~= s@.subrange(j as int, n as int));
    }
    Some((slices::copy_range(s, i, j), slices::copy_range(s, j, n)))
}

/// Whether the text is white space alone.
pub fn blank(s: &[char]) -> (r: bool)
    ensures
        r == (trimmed(s@).len() == 0),
{
    trim(s).len() == 0
}

/// White space is the control characters from tab to carriage return, the
/// space, the next-line and the no-break space, and seventeen further spaces and
/// line ends.
pub proof fn law_white_space(c: char)
    ensures
        is_space(c) == ({
            let n = c as u32;
            ||| 9 <= n <= 13
            ||| n == 32
            ||| n == 133
            ||| n == 160
            ||| n == 5760
            ||| 8192 <= n <= 8202
            ||| n == 8232
            ||| n == 8233
            ||| n == 8239
            ||| n == 8287
            ||| n == 12288
        }),
{
}

} // verus!
