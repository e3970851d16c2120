//! Text helpers: characters of a string, decimal numbers, quoting.

use crate::dates;
use vstd::prelude::*;
use vstd::utf8;

verus! {

/// `String::push` appends one character.
pub assume_specification[ std::string::String::push ](s: &mut std::string::String, c: char)
    ensures
        final(s)@ == old(s)@.push(c),
;

/// `std::str::from_utf8` borrows the bytes as text when they are UTF-8, and
/// fails when they are not. The text is the one whose encoding the bytes are.
#[verifier::external_body]
pub(crate) fn utf8_text(bytes: &[u8]) -> (r: Option<&str>)
    ensures
        r is Some == utf8::valid_utf8(bytes@),
        r matches Some(s) ==> s@ == utf8::decode_utf8(bytes@),
{
    match std::str::from_utf8(bytes) {
        Ok(s) => Some(s),
        Err(_) => None,
    }
}

/// The text that the `Debug` form of a string shows: the string in double
/// quotes, with what is not printable escaped.
pub uninterp spec fn quoted(s: Seq<char>) -> Seq<char>;

/// `format!` with `{:?}` writes the `Debug` form of the string.
#[verifier::external_body]
pub(crate) fn quote(s: &str) -> (r: String)
    ensures
        r@ == quoted(s@),
{
    format!("{:?}", s)
}

/// The digit that stands for `d`.
pub open spec fn digit_char(d: int) -> char {
    (48 + d) as char
}

/// The decimal form of `n`.
pub open spec fn decimal(n: nat) -> Seq<char>
    decreases n,
{
    if n < 10 {
        seq![digit_char(n as int)]
    } else {
        decimal(n / 10).push(digit_char(n as int % 10))
    }
}

/// Appends the decimal form of `n`.
pub fn push_decimal(out: &mut String, n: u128)
    ensures
        final(out)@ == old(out)@ + decimal(n as nat),
    decreases n,
{
    if n >= 10 {
        push_decimal(out, n / 10);
    }
    let d: u8 = (n % 10) as u8;
    out.push((48 + d) as char);
    assert(out@ =~= old(out)@ + decimal(n as nat));
}

/// Appends a text.
pub fn push_text(out: &mut String, more: &str)
    ensures
        final(out)@ == old(out)@ + more@,
{
    let ghost start = out@;
    assert(start + more@.take(0) =~= start);
    for c in it: more.chars()
        invariant
            out@ == start + more@.take(it.index()),
            it.seq() == more@,
    {
        let ghost k = it.index();
        assert((start + more@.take(k)).push(more@[k]) =~= start + more@.take(k + 1));
        out.push(c);
    }
    assert(more@.take(more@.len() as int) =~= more@);
}

/// The characters of a string, in order.
pub fn chars_of(s: &str) -> (r: Vec<char>)
    ensures
        r@ == s@,
{
    let mut out: Vec<char> = Vec::new();
    for c in it: s.chars()
        invariant
            out@ == s@.take(it.index()),
            it.seq() == s@,
    {
        assert(s@.take(it.index()).push(s@[it.index()]) =~= s@.take(it.index() + 1));
        out.push(c);
    }
    assert(s@.take(s@.len() as int) =~= s@);
    out
}

/// Collects characters into a string.
pub fn string_of(chars: &[char]) -> (r: String)
    ensures
        r@ == chars@,
{
    let mut out: String = String::new();
    for i in 0..chars.len()
        invariant
            out@ == chars@.take(i as int),
    {
        assert(chars@.take(i as int).push(chars@[i as int]) =~= chars@.take(i + 1));
        out.push(chars[i]);
    }
    assert(chars@.take(chars@.len() as int) =~= chars@);
    out
}

/// Whether two strings hold the same text.
pub fn same_text(a: &str, b: &str) -> (r: bool)
    ensures
        r == (a@ == b@),
{
    let x: &[u8] = a.as_bytes();
    let y: &[u8] = b.as_bytes();
    proof {
        utf8::encode_utf8_decode_utf8(a@);
        utf8::encode_utf8_decode_utf8(b@);
    }
    if x.len() != y.len() {
        return false;
    }
    for i in 0..x.len()
        invariant
            x@.len() == y@.len(),
            x@ == utf8::encode_utf8(a@),
            y@ == utf8::encode_utf8(b@),
            forall|j: int| 0 <= j < i ==> x@[j] == y@[j],
    {
        if x[i] != y[i] {
            return false;
        }
    }
    assert(x@ =~= y@);
    true
}

/// The decimal form of a number has only digits, which stand for the number,
/// and starts with a zero only where it is nothing else.
pub proof fn law_decimal(n: nat)
    ensures
        decimal(n).len() > 0,
        dates::all_digits(decimal(n)),
        dates::digits_value(decimal(n)) == n,
        n > 0 ==> decimal(n)[0] != '0',
        n == 0 ==> decimal(n) == seq!['0'],
    decreases n,
{
    let s = decimal(n);
    reveal_with_fuel(dates::digits_value, 2);
    if n < 10 {
        assert(s.drop_last() =~= Seq::empty());
        assert(s[0] as int == 48 + n);
        if n == 0 {
            assert(s =~= seq!['0']);
        }
    } else {
        let rest = decimal(n / 10);
        law_decimal(n / 10);
        assert(s.drop_last() =~= rest);
        assert(s.last() as int == 48 + n as int % 10);
        assert(s[0] == rest[0]);
        assert forall|i: int| 0 <= i < s.len() implies dates::is_digit(#[trigger] s[i]) by {
            if i < rest.len() {
                assert(s[i] == rest[i]);
            }
        }
    }
}

} // verus!
