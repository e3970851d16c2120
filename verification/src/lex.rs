//! Lexicographic order of byte strings, and of text by its UTF-8 bytes.

use vstd::prelude::*;
use vstd::utf8;

verus! {

/// `a` comes before `b`: at the first place where they differ `a` has the
/// smaller byte, or `a` is a proper prefix of `b`.
pub open spec fn bytes_lt(a: Seq<u8>, b: Seq<u8>) -> bool
    decreases a.len(),
{
    if b.len() == 0 {
        false
    } else if a.len() == 0 {
        true
    } else if a[0] != b[0] {
        a[0] < b[0]
    } else {
        bytes_lt(a.drop_first(), b.drop_first())
    }
}

/// The order of text: that of its UTF-8 bytes.
pub open spec fn text_lt(a: Seq<char>, b: Seq<char>) -> bool {
    bytes_lt(utf8::encode_utf8(a), utf8::encode_utf8(b))
}

/// One byte string comes before another where it has the smaller byte in the
/// first place where they differ, or where the other one goes on behind it.
pub proof fn law_bytes_order(a: Seq<u8>, b: Seq<u8>, k: int)
    requires
        0 <= k <= a.len(),
        k <= b.len(),
        a.take(k) == b.take(k),
    ensures
        k < a.len() && k < b.len() && a[k] < b[k] ==> bytes_lt(a, b) && !bytes_lt(b, a),
        k == a.len() && k < b.len() ==> bytes_lt(a, b) && !bytes_lt(b, a),
        k == a.len() && k == b.len() ==> !bytes_lt(a, b),
    decreases k,
{
    if k > 0 {
        assert(a[0] == a.take(k)[0] && b[0] == b.take(k)[0]);
        let x = a.drop_first();
        let y = b.drop_first();
        assert forall|i: int| 0 <= i < k - 1 implies x[i] == y[i] by {
            assert(a[i + 1] == a.take(k)[i + 1] && b[i + 1] == b.take(k)[i + 1]);
        }
        assert(x.take(k - 1) =~= y.take(k - 1));
        law_bytes_order(x, y, k - 1);
    }
}

/// Nothing comes before itself.
pub proof fn lemma_bytes_irreflexive(a: Seq<u8>)
    ensures
        !bytes_lt(a, a),
    decreases a.len(),
{
    if a.len() > 0 {
        lemma_bytes_irreflexive(a.drop_first());
    }
}

/// The order is transitive.
pub proof fn lemma_bytes_transitive(a: Seq<u8>, b: Seq<u8>, c: Seq<u8>)
    requires
        bytes_lt(a, b),
        bytes_lt(b, c),
    ensures
        bytes_lt(a, c),
    decreases a.len(),
{
    if a.len() > 0 && b.len() > 0 && c.len() > 0 && a[0] == b[0] && b[0] == c[0] {
        lemma_bytes_transitive(a.drop_first(), b.drop_first(), c.drop_first());
    }
}

/// Of two different byte strings one comes before the other.
pub proof fn lemma_bytes_total(a: Seq<u8>, b: Seq<u8>)
    ensures
        a == b || bytes_lt(a, b) || bytes_lt(b, a),
    decreases a.len(),
{
    if a.len() == 0 {
        if b.len() == 0 {
            assert(a =~= b);
        }
    } else if b.len() > 0 && a[0] == b[0] {
        lemma_bytes_total(a.drop_first(), b.drop_first());
        if a.drop_first() == b.drop_first() {
            assert(a =~= seq![a[0]] + a.drop_first());
            assert(b =~= seq![b[0]] + b.drop_first());
        }
    }
}

/// No text comes before itself.
pub proof fn lemma_text_irreflexive(a: Seq<char>)
    ensures
        !text_lt(a, a),
{
    lemma_bytes_irreflexive(utf8::encode_utf8(a));
}

/// The order of text is transitive.
pub proof fn lemma_text_transitive(a: Seq<char>, b: Seq<char>, c: Seq<char>)
    requires
        text_lt(a, b),
        text_lt(b, c),
    ensures
        text_lt(a, c),
{
    lemma_bytes_transitive(utf8::encode_utf8(a), utf8::encode_utf8(b), utf8::encode_utf8(c));
}

/// Of two different texts one comes before the other.
pub proof fn lemma_text_total(a: Seq<char>, b: Seq<char>)
    ensures
        a == b || text_lt(a, b) || text_lt(b, a),
{
    lemma_bytes_total(utf8::encode_utf8(a), utf8::encode_utf8(b));
    utf8::encode_utf8_decode_utf8(a);
    utf8::encode_utf8_decode_utf8(b);
}

/// Whether the bytes of `a` come before those of `b`.
pub fn bytes_below(a: &[u8], b: &[u8]) -> (r: bool)
    ensures
        r == bytes_lt(a@, b@),
{
    let mut i: usize = 0;
    assert(a@.skip(0) =~= a@);
    assert(b@.skip(0) =~= b@);
    while i < a.len() && i < b.len()
        invariant
            i <= a@.len(),
            i <= b@.len(),
            bytes_lt(a@, b@) == bytes_lt(a@.skip(i as int), b@.skip(i as int)),
        decreases a@.len() - i,
    {
        if a[i] != b[i] {
            return a[i] < b[i];
        }
        assert(a@.skip(i as int).drop_first() =~= a@.skip(i + 1));
        assert(b@.skip(i as int).drop_first() =~= b@.skip(i + 1));
        i = i + 1;
    }
    i < b.len()
}

/// Whether the text `a` comes before `b`.
pub fn text_below(a: &str, b: &str) -> (r: bool)
    ensures
        r == text_lt(a@, b@),
{
    bytes_below(a.as_bytes(), b.as_bytes())
}

/// Of two texts of ASCII characters that one comes first which has the smaller
/// character in the first place where they differ, or which the other one goes
/// on behind.
pub proof fn law_text_order(a: Seq<char>, b: Seq<char>, k: int)
    requires
        utf8::is_ascii_chars(a),
        utf8::is_ascii_chars(b),
        0 <= k <= a.len(),
        k <= b.len(),
        forall|i: int| 0 <= i < k ==> #[trigger] a[i] == b[i],
    ensures
        k < a.len() && k < b.len() && a[k] < b[k] ==> text_lt(a, b) && !text_lt(b, a),
        k == a.len() && k < b.len() ==> text_lt(a, b) && !text_lt(b, a),
        k == a.len() && k == b.len() ==> !text_lt(a, b),
{
    utf8::is_ascii_chars_encode_utf8(a);
    utf8::is_ascii_chars_encode_utf8(b);
    let x = utf8::encode_utf8(a);
    let y = utf8::encode_utf8(b);
    assert forall|i: int| 0 <= i < k implies x[i] == y[i] by {
        assert(a[i] == b[i]);
    }
    assert(x.take(k) =~= y.take(k));
    law_bytes_order(x, y, k);
    if k < a.len() && k < b.len() {
        assert(x[k] == a[k] as u8 && y[k] == b[k] as u8);
        assert(a[k] <= '\u{7f}' && b[k] <= '\u{7f}');
    }
}

} // verus!
