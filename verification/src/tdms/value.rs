//! Values that a TDMS file holds: timestamps, properties and samples.

use crate::lex;
use crate::text;
use vstd::prelude::*;

verus! {

/// A point in time, in whole microseconds.
#[derive(Debug, Clone, Copy, PartialEq, Eq, Structural)]
pub struct TdmsTimestamp {
    /// Microseconds since 1970-01-01 00:00:00 UTC. Sub-microsecond fractions
    /// are rounded half-to-even.
    pub us_since_epoch: i64,
}

/// Seconds from 1904-01-01, where the file format counts from, to 1970-01-01:
/// 66 years with 17 leap days, 24107 days.
pub const EPOCH_OFFSET_SECS: i64 = 2_082_844_800;

/// `num / den` to the nearest integer, and to the even one of two that are
/// equally near.
pub open spec fn round_half_even(num: int, den: int) -> int {
    let q = num / den;
    let r = num % den;
    if 2 * r < den || (2 * r == den && q % 2 == 0) {
        q
    } else {
        q + 1
    }
}

/// The nearest value that an `i64` can hold.
pub open spec fn clamp_i64(v: int) -> int {
    if v < i64::MIN {
        i64::MIN as int
    } else if v > i64::MAX {
        i64::MAX as int
    } else {
        v
    }
}

/// Microseconds since 1970 of an on-disk timestamp. A second count too far
/// from 1970 is held at the end of the range.
pub open spec fn micros_of_raw(fraction: u64, seconds: i64) -> int {
    clamp_i64(
        clamp_i64((seconds - EPOCH_OFFSET_SECS) * 1_000_000) + round_half_even(
            fraction * 1_000_000,
            0x1_0000_0000_0000_0000,
        ),
    )
}

/// A timestamp is the microseconds nearest to the on-disk fields, and the even
/// ones of two that are equally near, counted from 1970-01-01; a time that 64
/// bits do not hold is the last one that they do.
pub proof fn law_timestamp(fraction: u64, seconds: i64)
    ensures
        i64::MIN <= micros_of_raw(fraction, seconds) <= i64::MAX,
        ({
            let whole = (seconds - 2_082_844_800) * 1_000_000;
            let part = micros_of_raw(fraction, seconds) - whole;
            let off = part * 0x1_0000_0000_0000_0000 - fraction * 1_000_000;
            &&& i64::MIN <= whole && whole + 1_000_000 <= i64::MAX ==> 0 <= part <= 1_000_000
                && -0x8000_0000_0000_0000 <= off <= 0x8000_0000_0000_0000 && (off
                == 0x8000_0000_0000_0000 || off == -0x8000_0000_0000_0000 ==> part % 2 == 0)
            &&& whole > i64::MAX ==> micros_of_raw(fraction, seconds) == i64::MAX
            &&& whole + 1_000_000 < i64::MIN ==> i64::MIN <= micros_of_raw(fraction, seconds)
                <= i64::MIN + 1_000_000
        }),
{
    let den = 0x1_0000_0000_0000_0000int;
    let num = fraction * 1_000_000;
    let q = num / den;
    let r = num % den;
    assert(num == q * den + r && 0 <= r < den);
    assert(0 <= q <= 999_999);
}

/// One second more is a million microseconds more.
pub proof fn law_timestamp_seconds(fraction: u64, a: i64, b: i64)
    requires
        i64::MIN <= (a - 2_082_844_800) * 1_000_000,
        (a - 2_082_844_800) * 1_000_000 + 1_000_000 <= i64::MAX,
        i64::MIN <= (b - 2_082_844_800) * 1_000_000,
        (b - 2_082_844_800) * 1_000_000 + 1_000_000 <= i64::MAX,
    ensures
        micros_of_raw(fraction, b) - micros_of_raw(fraction, a) == (b - a) * 1_000_000,
{
    law_timestamp(fraction, a);
    law_timestamp(fraction, b);
}

/// A later timestamp is no earlier instant.
pub proof fn law_timestamp_order(f: u64, s: i64, g: u64, t: i64)
    requires
        s < t || (s == t && f <= g),
        i64::MIN <= (s - 2_082_844_800) * 1_000_000,
    ensures
        micros_of_raw(f, s) <= micros_of_raw(g, t),
{
    let den = 0x1_0000_0000_0000_0000int;
    let x = f * 1_000_000;
    let y = g * 1_000_000;
    assert(x == (x / den) * den + x % den && 0 <= x % den < den);
    assert(y == (y / den) * den + y % den && 0 <= y % den < den);
    assert(0 <= round_half_even(x, den) <= 1_000_000);
    assert(0 <= round_half_even(y, den) <= 1_000_000);
    if s == t {
        assert(x <= y);
        assert(x / den <= y / den);
        assert(x / den == y / den ==> x % den <= y % den);
        assert(round_half_even(x, den) <= round_half_even(y, den));
    }
}

/// The integer that a number is, where it is one.
pub open spec fn integer(s: Scalar) -> Option<int> {
    match s {
        Scalar::Signed(v) => Some(v as int),
        Scalar::Unsigned(v) => Some(v as int),
        _ => None,
    }
}

/// The number of a property is its value: that of an integer, or the bits of a
/// float. Nothing else is a number, a text or a timestamp than what holds one.
pub proof fn law_property_kinds(v: PropertyModel)
    ensures
        match v {
            PropertyModel::I8(n) => v.number() is Some && integer(v.number()->0) == Some(n as int),
            PropertyModel::I16(n) => v.number() is Some && integer(v.number()->0) == Some(
                n as int,
            ),
            PropertyModel::I32(n) => v.number() is Some && integer(v.number()->0) == Some(
                n as int,
            ),
            PropertyModel::I64(n) => v.number() is Some && integer(v.number()->0) == Some(
                n as int,
            ),
            PropertyModel::U8(n) => v.number() is Some && integer(v.number()->0) == Some(n as int),
            PropertyModel::U16(n) => v.number() is Some && integer(v.number()->0) == Some(
                n as int,
            ),
            PropertyModel::U32(n) => v.number() is Some && integer(v.number()->0) == Some(
                n as int,
            ),
            PropertyModel::U64(n) => v.number() is Some && integer(v.number()->0) == Some(
                n as int,
            ),
            PropertyModel::F32(b) => v.number() == Some(Scalar::Single(b)),
            PropertyModel::F64(b) => v.number() == Some(Scalar::Double(b)),
            _ => v.number() is None,
        },
        v.text() is Some ==> v == PropertyModel::Text(v.text()->0),
        v.timestamp() is Some ==> v == PropertyModel::Timestamp(v.timestamp()->0),
        v is Text ==> v.text() is Some,
        v is Timestamp ==> v.timestamp() is Some,
{
}

fn clamp(v: i128) -> (r: i64)
    ensures
        r == clamp_i64(v as int),
{
    if v < i64::MIN as i128 {
        i64::MIN
    } else if v > i64::MAX as i128 {
        i64::MAX
    } else {
        v as i64
    }
}

impl TdmsTimestamp {
    /// Builds a timestamp from the on-disk fields: `fraction` counts units of
    /// 2^-64 s, `seconds` counts from 1904-01-01.
    pub fn from_raw(fraction: u64, seconds: i64) -> (r: Self)
        ensures
            r.us_since_epoch == micros_of_raw(fraction, seconds),
    {
        let den: u128 = 0x1_0000_0000_0000_0000;
        let scaled: u128 = fraction as u128 * 1_000_000;
        let q: u128 = scaled / den;
        let rest: u128 = scaled % den;
        let round_down: bool = 2 * rest < den || (2 * rest == den && q % 2 == 0);
        let frac_us: u128 = if round_down {
            q
        } else {
            q + 1
        };
        let whole: i64 = clamp((seconds as i128 - EPOCH_OFFSET_SECS as i128) * 1_000_000);
        TdmsTimestamp { us_since_epoch: clamp(whole as i128 + frac_us as i128) }
    }
}

/// A number as the file stores it. Integers are widened; a floating-point
/// number is held as its raw bits.
#[derive(Debug, Clone, Copy, PartialEq, Eq, Structural)]
pub enum Scalar {
    Signed(i64),
    Unsigned(u64),
    Single(u32),
    Double(u64),
}

/// The value of a property. `F32` and `F64` hold the raw bits of the number.
#[derive(Debug, Clone)]
pub enum PropertyValue {
    Void,
    Bool(bool),
    I8(i8),
    I16(i16),
    I32(i32),
    I64(i64),
    U8(u8),
    U16(u16),
    U32(u32),
    U64(u64),
    F32(u32),
    F64(u64),
    String(String),
    Timestamp(TdmsTimestamp),
}

/// A property value with its text as a sequence of characters.
pub enum PropertyModel {
    Void,
    Bool(bool),
    I8(i8),
    I16(i16),
    I32(i32),
    I64(i64),
    U8(u8),
    U16(u16),
    U32(u32),
    U64(u64),
    F32(u32),
    F64(u64),
    Text(Seq<char>),
    Timestamp(TdmsTimestamp),
}

impl View for PropertyValue {
    type V = PropertyModel;

    open spec fn view(&self) -> PropertyModel {
        match *self {
            PropertyValue::Void => PropertyModel::Void,
            PropertyValue::Bool(v) => PropertyModel::Bool(v),
            PropertyValue::I8(v) => PropertyModel::I8(v),
            PropertyValue::I16(v) => PropertyModel::I16(v),
            PropertyValue::I32(v) => PropertyModel::I32(v),
            PropertyValue::I64(v) => PropertyModel::I64(v),
            PropertyValue::U8(v) => PropertyModel::U8(v),
            PropertyValue::U16(v) => PropertyModel::U16(v),
            PropertyValue::U32(v) => PropertyModel::U32(v),
            PropertyValue::U64(v) => PropertyModel::U64(v),
            PropertyValue::F32(v) => PropertyModel::F32(v),
            PropertyValue::F64(v) => PropertyModel::F64(v),
            PropertyValue::String(s) => PropertyModel::Text(s@),
            PropertyValue::Timestamp(t) => PropertyModel::Timestamp(t),
        }
    }
}

impl PropertyModel {
    /// The number that the value is, if it is one.
    pub open spec fn number(self) -> Option<Scalar> {
        match self {
            PropertyModel::I8(v) => Some(Scalar::Signed(v as i64)),
            PropertyModel::I16(v) => Some(Scalar::Signed(v as i64)),
            PropertyModel::I32(v) => Some(Scalar::Signed(v as i64)),
            PropertyModel::I64(v) => Some(Scalar::Signed(v)),
            PropertyModel::U8(v) => Some(Scalar::Unsigned(v as u64)),
            PropertyModel::U16(v) => Some(Scalar::Unsigned(v as u64)),
            PropertyModel::U32(v) => Some(Scalar::Unsigned(v as u64)),
            PropertyModel::U64(v) => Some(Scalar::Unsigned(v)),
            PropertyModel::F32(v) => Some(Scalar::Single(v)),
            PropertyModel::F64(v) => Some(Scalar::Double(v)),
            _ => None,
        }
    }

    /// The text that the value is, if it is text.
    pub open spec fn text(self) -> Option<Seq<char>> {
        match self {
            PropertyModel::Text(s) => Some(s),
            _ => None,
        }
    }

    /// The timestamp that the value is, if it is one.
    pub open spec fn timestamp(self) -> Option<TdmsTimestamp> {
        match self {
            PropertyModel::Timestamp(t) => Some(t),
            _ => None,
        }
    }
}

impl PropertyValue {
    /// The number that the property holds, integer or floating-point; `None`
    /// for every other kind of property.
    pub fn as_f64(&self) -> (r: Option<Scalar>)
        ensures
            r == self@.number(),
    {
        match self {
            PropertyValue::I8(v) => Some(Scalar::Signed(*v as i64)),
            PropertyValue::I16(v) => Some(Scalar::Signed(*v as i64)),
            PropertyValue::I32(v) => Some(Scalar::Signed(*v as i64)),
            PropertyValue::I64(v) => Some(Scalar::Signed(*v)),
            PropertyValue::U8(v) => Some(Scalar::Unsigned(*v as u64)),
            PropertyValue::U16(v) => Some(Scalar::Unsigned(*v as u64)),
            PropertyValue::U32(v) => Some(Scalar::Unsigned(*v as u64)),
            PropertyValue::U64(v) => Some(Scalar::Unsigned(*v)),
            PropertyValue::F32(v) => Some(Scalar::Single(*v)),
            PropertyValue::F64(v) => Some(Scalar::Double(*v)),
            _ => None,
        }
    }

    /// The text of a string property.
    pub fn as_str(&self) -> (r: Option<&str>)
        ensures
            match self@.text() {
                Some(s) => r matches Some(t) && t@ == s,
                None => r is None,
            },
    {
        match self {
            PropertyValue::String(s) => Some(s.as_str()),
            _ => None,
        }
    }

    /// The timestamp of a timestamp property.
    pub fn as_timestamp(&self) -> (r: Option<TdmsTimestamp>)
        ensures
            r == self@.timestamp(),
    {
        match self {
            PropertyValue::Timestamp(t) => Some(*t),
            _ => None,
        }
    }
}

/// The properties of one object: at most one value per name, in the order of
/// the names.
#[derive(Debug)]
pub struct PropertyMap {
    entries: Vec<(String, PropertyValue)>,
}

/// What a list of entries says of each name; the first entry of a name counts.
pub open spec fn entries_map(s: Seq<(Seq<char>, PropertyModel)>) -> Map<Seq<char>, PropertyModel>
    decreases s.len(),
{
    if s.len() == 0 {
        Map::empty()
    } else {
        entries_map(s.drop_first()).insert(s[0].0, s[0].1)
    }
}

/// Whether the names stand in strictly ascending order.
pub open spec fn names_ascend(s: Seq<(Seq<char>, PropertyModel)>) -> bool {
    forall|i: int, j: int|
        #![trigger s[i], s[j]]
        0 <= i < j < s.len() ==> lex::text_lt(s[i].0, s[j].0)
}

proof fn lemma_absent(s: Seq<(Seq<char>, PropertyModel)>, k: Seq<char>)
    requires
        forall|i: int| 0 <= i < s.len() ==> (#[trigger] s[i]).0 != k,
    ensures
        !entries_map(s).contains_key(k),
    decreases s.len(),
{
    if s.len() > 0 {
        assert forall|i: int| 0 <= i < s.drop_first().len() implies (
        #[trigger] s.drop_first()[i]).0 != k by {
            assert(s.drop_first()[i] == s[i + 1]);
        }
        lemma_absent(s.drop_first(), k);
    }
}

proof fn lemma_entry(s: Seq<(Seq<char>, PropertyModel)>, i: int)
    requires
        0 <= i < s.len(),
        forall|a: int, b: int| 0 <= a < b < s.len() ==> (#[trigger] s[a]).0 != (#[trigger] s[b]).0,
    ensures
        entries_map(s).contains_key(s[i].0),
        entries_map(s)[s[i].0] == s[i].1,
    decreases s.len(),
{
    if i > 0 {
        let rest = s.drop_first();
        assert forall|a: int, b: int| 0 <= a < b < rest.len() implies (#[trigger] rest[a]).0 != (
        #[trigger] rest[b]).0 by {
            assert(rest[a] == s[a + 1] && rest[b] == s[b + 1]);
        }
        lemma_entry(rest, i - 1);
        assert(rest[i - 1] == s[i]);
        assert(s[0].0 != s[i].0);
    }
}

proof fn lemma_insert_entry(
    s: Seq<(Seq<char>, PropertyModel)>,
    p: int,
    k: Seq<char>,
    v: PropertyModel,
)
    requires
        0 <= p <= s.len(),
        forall|i: int| 0 <= i < s.len() ==> (#[trigger] s[i]).0 != k,
    ensures
        entries_map(s.insert(p, (k, v))) =~= entries_map(s).insert(k, v),
    decreases p,
{
    let t = s.insert(p, (k, v));
    if p == 0 {
        assert(t.drop_first() =~= s);
    } else {
        assert(t.drop_first() =~= s.drop_first().insert(p - 1, (k, v)));
        assert forall|i: int| 0 <= i < s.drop_first().len() implies (
        #[trigger] s.drop_first()[i]).0 != k by {
            assert(s.drop_first()[i] == s[i + 1]);
        }
        lemma_insert_entry(s.drop_first(), p - 1, k, v);
        assert(t[0] == s[0]);
    }
}

proof fn lemma_replace_entry(
    s: Seq<(Seq<char>, PropertyModel)>,
    p: int,
    k: Seq<char>,
    v: PropertyModel,
)
    requires
        0 <= p < s.len(),
        s[p].0 == k,
        forall|i: int| 0 <= i < p ==> (#[trigger] s[i]).0 != k,
    ensures
        entries_map(s.update(p, (k, v))) =~= entries_map(s).insert(k, v),
    decreases p,
{
    let t = s.update(p, (k, v));
    if p == 0 {
        assert(t.drop_first() =~= s.drop_first());
    } else {
        assert(t.drop_first() =~= s.drop_first().update(p - 1, (k, v)));
        assert forall|i: int| 0 <= i < p - 1 implies (#[trigger] s.drop_first()[i]).0 != k by {
            assert(s.drop_first()[i] == s[i + 1]);
        }
        lemma_replace_entry(s.drop_first(), p - 1, k, v);
        assert(t[0] == s[0]);
    }
}

impl View for PropertyMap {
    type V = Map<Seq<char>, PropertyModel>;

    closed spec fn view(&self) -> Map<Seq<char>, PropertyModel> {
        entries_map(self.listing())
    }
}

impl PropertyMap {
    /// The entries, in the order in which they are kept.
    pub closed spec fn listing(&self) -> Seq<(Seq<char>, PropertyModel)> {
        self.entries@.map_values(|e: (String, PropertyValue)| (e.0@, e.1@))
    }

    /// The names stand in strictly ascending order, so none occurs twice.
    pub open spec fn wf(&self) -> bool {
        names_ascend(self.listing())
    }

    /// The listing holds what the map holds.
    pub proof fn law_listing(&self)
        ensures
            self@ == entries_map(self.listing()),
    {
    }

    /// The listing holds just the entries of the map, each name once.
    pub proof fn law_entries(&self)
        requires
            self.wf(),
        ensures
            forall|i: int|
                0 <= i < self.listing().len() ==> self@.contains_key(
                    (#[trigger] self.listing()[i]).0,
                ) && self@[self.listing()[i].0] == self.listing()[i].1,
            forall|name: Seq<char>| #[trigger]
                self@.contains_key(name) ==> exists|i: int|
                    0 <= i < self.listing().len() && (#[trigger] self.listing()[i]).0 == name,
            forall|i: int, j: int|
                0 <= i < j < self.listing().len() ==> (#[trigger] self.listing()[i]).0 != (
                #[trigger] self.listing()[j]).0,
    {
        let s = self.listing();
        assert forall|i: int, j: int| 0 <= i < j < s.len() implies (#[trigger] s[i]).0 != (
        #[trigger] s[j]).0 by {
            lex::lemma_text_irreflexive(s[i].0);
        }
        assert forall|i: int| 0 <= i < s.len() implies entries_map(s).contains_key(
            (#[trigger] s[i]).0,
        ) && entries_map(s)[s[i].0] == s[i].1 by {
            lemma_entry(s, i);
        }
        assert forall|name: Seq<char>| #[trigger] self@.contains_key(name) implies exists|i: int|
            0 <= i < s.len() && (#[trigger] s[i]).0 == name by {
            if forall|i: int| 0 <= i < s.len() ==> (#[trigger] s[i]).0 != name {
                lemma_absent(s, name);
            }
        }
    }

    /// No properties.
    pub fn new() -> (r: Self)
        ensures
            r@ == Map::<Seq<char>, PropertyModel>::empty(),
            r.wf(),
    {
        let r = PropertyMap { entries: Vec::new() };
        assert(r.listing() =~= Seq::empty());
        r
    }

    /// How many properties there are.
    pub fn len(&self) -> (r: usize)
        ensures
            r == self.listing().len(),
    {
        self.entries.len()
    }

    /// The `i`-th property in the order of the names.
    pub fn entry(&self, i: usize) -> (r: (&str, &PropertyValue))
        requires
            i < self.listing().len(),
        ensures
            (r.0@, r.1@) == self.listing()[i as int],
    {
        (self.entries[i].0.as_str(), &self.entries[i].1)
    }

    /// The value of the property of that name.
    pub fn get(&self, name: &str) -> (r: Option<&PropertyValue>)
        ensures
            match r {
                Some(v) => self@.contains_key(name@) && v@ == self@[name@],
                None => !self@.contains_key(name@),
            },
    {
        let ghost all = self.listing();
        assert(all.skip(0) =~= all);
        for i in 0..self.entries.len()
            invariant
                all == self.listing(),
                self@.contains_key(name@) == entries_map(all.skip(i as int)).contains_key(name@),
                self@[name@] == entries_map(all.skip(i as int))[name@],
        {
            proof {
                let rest = all.skip(i as int);
                assert(rest[0] == (self.entries@[i as int].0@, self.entries@[i as int].1@));
                assert(rest.drop_first() =~= all.skip(i + 1));
            }
            if text::same_text(self.entries[i].0.as_str(), name) {
                return Some(&self.entries[i].1);
            }
        }
        None
    }

    /// Sets the property of that name, in place of an earlier value.
    pub fn insert(&mut self, name: String, value: PropertyValue)
        requires
            old(self).wf(),
        ensures
            final(self)@ == old(self)@.insert(name@, value@),
            final(self).wf(),
    {
        let ghost all = self.listing();
        let ghost k = name@;
        let n: usize = self.entries.len();
        let mut p: usize = 0;
        while p < n && lex::text_below(self.entries[p].0.as_str(), name.as_str())
            invariant
                n == self.entries@.len(),
                *self == *old(self),
                all == self.listing(),
                k == name@,
                p <= n,
                forall|i: int| 0 <= i < p ==> lex::text_lt((#[trigger] all[i]).0, k),
            decreases n - p,
        {
            p = p + 1;
        }
        proof {
            assert forall|i: int| 0 <= i < p implies (#[trigger] all[i]).0 != k by {
                lex::lemma_text_irreflexive(k);
            }
        }
        if p < n && text::same_text(self.entries[p].0.as_str(), name.as_str()) {
            let ghost v = value@;
            self.entries.set(p, (name, value));
            proof {
                assert(self.listing() =~= all.update(p as int, (k, v)));
                assert(all[p as int].0 == k);
                lemma_replace_entry(all, p as int, k, v);
            }
        } else {
            let ghost v = value@;
            self.entries.insert(p, (name, value));
            proof {
                assert(self.listing() =~= all.insert(p as int, (k, v)));
                if p < n {
                    lex::lemma_text_total(all[p as int].0, k);
                }
                assert forall|i: int| p <= i < all.len() implies lex::text_lt(
                    k,
                    (#[trigger] all[i]).0,
                ) by {
                    if i > p {
                        lex::lemma_text_transitive(k, all[p as int].0, all[i].0);
                    }
                }
                assert forall|i: int| 0 <= i < all.len() implies (#[trigger] all[i]).0 != k by {
                    lex::lemma_text_irreflexive(k);
                }
                lemma_insert_entry(all, p as int, k, v);
                let t = self.listing();
                assert forall|i: int, j: int|
                    #![trigger t[i], t[j]]
                    0 <= i < j < t.len() implies lex::text_lt(t[i].0, t[j].0) by {
                    let a = if i < p { i } else { i - 1 };
                    let b = if j < p { j } else { j - 1 };
                    if i < p {
                        assert(t[i] == all[i]);
                    }
                    if i > p {
                        assert(t[i] == all[i - 1]);
                    }
                    if j < p {
                        assert(t[j] == all[j]);
                    }
                    if j > p {
                        assert(t[j] == all[j - 1]);
                    }
                }
            }
        }
    }
}

/// At the ends of the range the whole seconds stop at the first instant, and the
/// sum at the last one; the fraction is rounded as anywhere else.
pub proof fn law_timestamp_ends(fraction: u64, seconds: i64)
    ensures
        ({
            let whole = (seconds - 2_082_844_800) * 1_000_000;
            let base = if whole < -0x8000_0000_0000_0000 {
                -0x8000_0000_0000_0000int
            } else {
                whole
            };
            let t = micros_of_raw(fraction, seconds);
            let off = (t - base) * 0x1_0000_0000_0000_0000 - fraction * 1_000_000;
            &&& t < 0x7FFF_FFFF_FFFF_FFFF ==> -0x8000_0000_0000_0000 <= off
                <= 0x8000_0000_0000_0000 && (off == 0x8000_0000_0000_0000 || off
                == -0x8000_0000_0000_0000 ==> (t - base) % 2 == 0)
            &&& t == 0x7FFF_FFFF_FFFF_FFFF ==> off <= 0x8000_0000_0000_0000
        }),
{
    let den = 0x1_0000_0000_0000_0000int;
    let num = fraction * 1_000_000;
    let q = num / den;
    let r = num % den;
    assert(num == q * den + r && 0 <= r < den);
    assert(0 <= q <= 999_999);
}

} // verus!
