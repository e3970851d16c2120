//! Which samples forward-backward filtering takes from where: the padding of
//! the signal, its length, and what is left when it is cut off again.

use crate::bits;
use crate::slices;
use vstd::prelude::*;

verus! {

/// A value of an oddly extended signal `x` of `n` samples.
#[derive(Debug, Clone, Copy, PartialEq, Eq, Structural)]
pub enum Tap {
    /// `2 * x[0] - x[k]`.
    Start(usize),
    /// `x[k]`.
    Sample(usize),
    /// `2 * x[n - 1] - x[k]`.
    End(usize),
}

/// Value `i` of a signal of `n` samples that is reflected through its first
/// and its last value, `pad` samples on each side.
pub open spec fn extension_tap(n: int, pad: int, i: int) -> Tap {
    if i < pad {
        Tap::Start((pad - i) as usize)
    } else if i < pad + n {
        Tap::Sample((i - pad) as usize)
    } else {
        Tap::End((2 * n + pad - 2 - i) as usize)
    }
}

/// Values as far before the first sample as another one is behind it are made
/// of the same sample, and so at the end.
pub proof fn law_extension_is_odd(n: int, pad: int, k: int)
    requires
        0 < k <= pad < n <= usize::MAX,
    ensures
        extension_tap(n, pad, pad - k) == Tap::Start(k as usize),
        extension_tap(n, pad, pad + k) == Tap::Sample(k as usize),
        extension_tap(n, pad, pad + n - 1 + k) == Tap::End((n - 1 - k) as usize),
        extension_tap(n, pad, pad + n - 1 - k) == Tap::Sample((n - 1 - k) as usize),
{
}

/// What a signal of `n` samples is extended to, `padlen` samples on each side.
pub fn odd_extension(n: usize, padlen: usize) -> (r: Vec<Tap>)
    requires
        padlen < n,
    ensures
        r@.len() == n + 2 * padlen,
        forall|i: int|
            0 <= i < r@.len() ==> #[trigger] r@[i] == extension_tap(n as int, padlen as int, i),
{
    let mut out: Vec<Tap> = Vec::new();
    for i in 0..padlen
        invariant
            padlen < n,
            out@.len() == i,
            forall|k: int|
                0 <= k < i ==> #[trigger] out@[k] == extension_tap(n as int, padlen as int, k),
    {
        out.push(Tap::Start(padlen - i));
    }
    for i in 0..n
        invariant
            padlen < n,
            out@.len() == padlen + i,
            forall|k: int|
                0 <= k < padlen + i ==> #[trigger] out@[k] == extension_tap(
                    n as int,
                    padlen as int,
                    k,
                ),
    {
        out.push(Tap::Sample(i));
    }
    for i in 0..padlen
        invariant
            padlen < n,
            out@.len() == padlen + n + i,
            forall|k: int|
                0 <= k < padlen + n + i ==> #[trigger] out@[k] == extension_tap(
                    n as int,
                    padlen as int,
                    k,
                ),
    {
        out.push(Tap::End(n - 2 - i));
    }
    out
}

/// Whether the bits are those of a zero.
pub open spec fn zero(v: u64) -> bool {
    v == 0 || v == bits::SIGN_WEIGHT
}

/// How many of the values are zero.
pub open spec fn zero_count(s: Seq<u64>) -> int
    decreases s.len(),
{
    if s.len() == 0 {
        0
    } else {
        zero_count(s.drop_last()) + if zero(s.last()) {
            1int
        } else {
            0
        }
    }
}

/// The padding of a cascade of second-order sections, by the last numerator
/// and the last denominator coefficients of the sections: three times the taps,
/// where a section of first order has one less.
pub open spec fn sos_padding(b2: Seq<u64>, a2: Seq<u64>) -> int {
    let b = zero_count(b2);
    let a = zero_count(a2);
    3 * (2 * b2.len() + 1 - if b <= a {
        b
    } else {
        a
    })
}

fn count_zeros(s: &[u64]) -> (r: usize)
    ensures
        r == zero_count(s@),
        r <= s@.len(),
{
    let mut n: usize = 0;
    for i in 0..s.len()
        invariant
            n == zero_count(s@.take(i as int)),
            n <= i,
    {
        assert(s@.take(i + 1).drop_last() =~= s@.take(i as int));
        if s[i] == 0 || s[i] == bits::SIGN_WEIGHT {
            n = n + 1;
        }
    }
    assert(s@.take(s@.len() as int) =~= s@);
    n
}

/// The padding of a cascade of second-order sections.
pub fn sosfiltfilt_edge(b2: &[u64], a2: &[u64]) -> (r: usize)
    requires
        b2@.len() == a2@.len(),
        6 * b2@.len() + 3 <= usize::MAX,
    ensures
        r == sos_padding(b2@, a2@),
{
    let b: usize = count_zeros(b2);
    let a: usize = count_zeros(a2);
    let degenerate: usize = if b <= a {
        b
    } else {
        a
    };
    let n: usize = b2.len();
    3 * (2 * n + 1 - degenerate)
}

/// The padding of a filter with these numbers of coefficients.
pub fn filtfilt_edge(b_len: usize, a_len: usize) -> (r: usize)
    requires
        3 * b_len <= usize::MAX,
        3 * a_len <= usize::MAX,
    ensures
        r == 3 * (if b_len >= a_len {
            b_len
        } else {
            a_len
        }),
{
    if b_len >= a_len {
        3 * b_len
    } else {
        3 * a_len
    }
}

/// A signal from its end to its start.
pub fn reversed<T: Copy>(y: &[T]) -> (r: Vec<T>)
    ensures
        r@ == y@.reverse(),
{
    let n: usize = y.len();
    let mut out: Vec<T> = Vec::new();
    for i in 0..n
        invariant
            n == y@.len(),
            out@ == y@.reverse().take(i as int),
    {
        out.push(y[n - 1 - i]);
        assert(out@ =~= y@.reverse().take(i + 1));
    }
    assert(out@ =~= y@.reverse());
    out
}

/// The `n` values behind the padding in front.
pub fn trim_edges<T: Copy>(y: &[T], edge: usize, n: usize) -> (r: Vec<T>)
    requires
        edge + n <= y@.len(),
    ensures
        r@ == y@.subrange(edge as int, edge + n),
{
    let _len: usize = y.len();
    slices::copy_range(y, edge, edge + n)
}

/// An extended signal that is turned round twice and cut to its own length is
/// the signal again.
pub proof fn law_padding_is_cut_off(n: int, pad: int, i: int)
    requires
        0 <= pad < n <= usize::MAX,
        0 <= i < n,
    ensures
        ({
            let whole = Seq::new((n + 2 * pad) as nat, |k: int| extension_tap(n, pad, k));
            whole.reverse().reverse().subrange(pad, pad + n)[i] == Tap::Sample(i as usize)
        }),
{
    let whole = Seq::new((n + 2 * pad) as nat, |k: int| extension_tap(n, pad, k));
    assert(whole.reverse().reverse() =~= whole);
}

/// Zeros are counted one by one, and both zeros count.
pub proof fn law_zero_count(s: Seq<u64>, v: u64)
    ensures
        zero_count(Seq::empty()) == 0,
        zero_count(s.push(v)) == zero_count(s) + if bits::value_of(v) == 0 {
            1int
        } else {
            0
        },
{
    bits::law_zero();
    assert(s.push(v).drop_last() =~= s);
}

proof fn lemma_zero_count(s: Seq<u64>)
    ensures
        0 <= zero_count(s) <= s.len(),
    decreases s.len(),
{
    if s.len() > 0 {
        lemma_zero_count(s.drop_last());
    }
}

/// Without sections the padding is three samples. A section of second order
/// adds six, one of first order three. Where all numerators are of first order,
/// the denominators decide, and the other way round; numerators and
/// denominators count alike.
pub proof fn law_padding(b2: Seq<u64>, a2: Seq<u64>, b: u64, a: u64)
    requires
        b2.len() == a2.len(),
    ensures
        sos_padding(Seq::empty(), Seq::empty()) == 3,
        bits::value_of(b) == 0 && bits::value_of(a) == 0 ==> sos_padding(b2.push(b), a2.push(a))
            == sos_padding(b2, a2) + 3,
        bits::value_of(b) != 0 && bits::value_of(a) != 0 ==> sos_padding(b2.push(b), a2.push(a))
            == sos_padding(b2, a2) + 6,
        sos_padding(b2, a2) == sos_padding(a2, b2),
        zero_count(b2) == 0 ==> sos_padding(b2, a2) == 6 * b2.len() + 3,
        zero_count(b2) == b2.len() ==> sos_padding(b2, a2) == 6 * b2.len() + 3 - 3 * zero_count(
            a2,
        ),
        zero_count(b2) <= zero_count(a2) ==> sos_padding(b2, a2) == 6 * b2.len() + 3 - 3
            * zero_count(b2),
{
    law_zero_count(b2, b);
    law_zero_count(a2, a);
    lemma_zero_count(a2);
    lemma_zero_count(b2);
}

} // verus!
