//! Fields as the format writes them, and what is read of them: every value
//! comes back as it was written, and no two byte strings read as one value.

use super::chunk;
use super::cursor;
use super::error::TdmsFault;
use super::object;
use super::object::{DeclModel, RawDataIndex, RawHeader};
use super::path;
use super::value;
use super::value::{PropertyModel, Scalar, TdmsTimestamp};
use vstd::prelude::*;
use vstd::utf8;

verus! {

/// The number of different strings of `w` bytes.
pub open spec fn patterns(w: nat) -> nat
    decreases w,
{
    if w == 0 {
        1
    } else {
        256 * patterns((w - 1) as nat)
    }
}

/// A number in `w` bytes, the least one first.
pub open spec fn le(n: nat, w: nat) -> Seq<u8>
    decreases w,
{
    if w == 0 {
        Seq::empty()
    } else {
        seq![(n % 256) as u8] + le(n / 256, (w - 1) as nat)
    }
}

/// A number below zero stands as its complement.
pub open spec fn complement(v: int, w: nat) -> nat {
    (if v >= 0 {
        v
    } else {
        v + patterns(w)
    }) as nat
}

/// The numbers of patterns of the widths that occur.
pub proof fn lemma_patterns()
    ensures
        patterns(1) == 0x100,
        patterns(2) == 0x1_0000,
        patterns(4) == 0x1_0000_0000,
        patterns(8) == 0x1_0000_0000_0000_0000,
{
    reveal_with_fuel(patterns, 9);
}

/// A number that is written in bytes is read back.
pub proof fn law_number_written(n: nat, w: nat)
    requires
        n < patterns(w),
    ensures
        le(n, w).len() == w,
        cursor::le_nat(le(n, w)) == n,
    decreases w,
{
    if w > 0 {
        let rest = (w - 1) as nat;
        law_number_written(n / 256, rest);
        assert(le(n, w).drop_first() =~= le(n / 256, rest));
    }
}

/// The number that bytes stand for is written in just these bytes.
pub proof fn law_number_read(s: Seq<u8>)
    ensures
        cursor::le_nat(s) < patterns(s.len()),
        le(cursor::le_nat(s), s.len()) == s,
    decreases s.len(),
{
    if s.len() > 0 {
        let rest = s.drop_first();
        law_number_read(rest);
        let n = cursor::le_nat(s);
        assert(n % 256 == s[0] && n / 256 == cursor::le_nat(rest));
        assert(le(n, s.len()) =~= s);
    } else {
        assert(le(0, 0) =~= s);
    }
}

/// How many bytes a sample of a numeric type takes.
pub open spec fn sample_width(code: u32) -> nat {
    if code == 1 || code == 5 {
        1
    } else if code == 2 || code == 6 {
        2
    } else if code == 3 || code == 7 || code == 9 {
        4
    } else {
        8
    }
}

/// Whether a type has this value: integers in the range of its width, floats
/// with all bit patterns.
pub open spec fn has_value(code: u32, s: Scalar) -> bool {
    match s {
        Scalar::Signed(v) => {
            ||| code == 1 && -0x80 <= v < 0x80
            ||| code == 2 && -0x8000 <= v < 0x8000
            ||| code == 3 && -0x8000_0000 <= v < 0x8000_0000
            ||| code == 4
        },
        Scalar::Unsigned(v) => {
            ||| code == 5 && v < 0x100
            ||| code == 6 && v < 0x1_0000
            ||| code == 7 && v < 0x1_0000_0000
            ||| code == 8
        },
        Scalar::Single(_) => code == 9,
        Scalar::Double(_) => code == 10,
    }
}

/// The bytes of a sample.
pub open spec fn sample_bytes(code: u32, s: Scalar) -> Seq<u8> {
    let w = sample_width(code);
    match s {
        Scalar::Signed(v) => le(complement(v as int, w), w),
        Scalar::Unsigned(v) => le(v as nat, w),
        Scalar::Single(b) => le(b as nat, w),
        Scalar::Double(b) => le(b as nat, w),
    }
}

/// A sample is read back as it was written, whatever its type and its value.
pub proof fn law_sample_written(code: u32, s: Scalar, data: Seq<u8>, at: int)
    requires
        has_value(code, s),
        holds(data, at, sample_bytes(code, s)),
    ensures
        chunk::numeric(code),
        object::raw_width(code) == Some(sample_width(code) as int),
        sample_bytes(code, s).len() == sample_width(code),
        chunk::sample_at(data, at, code, sample_width(code) as int) == s,
{
    lemma_patterns();
    let w = sample_width(code);
    match s {
        Scalar::Signed(v) => {
            law_number_written(complement(v as int, w), w);
        },
        Scalar::Unsigned(v) => {
            law_number_written(v as nat, w);
        },
        Scalar::Single(b) => {
            law_number_written(b as nat, w);
        },
        Scalar::Double(b) => {
            law_number_written(b as nat, w);
        },
    }
}

/// Decoding loses nothing: the sample that bytes are read as is one of its
/// type's, and it is written in just these bytes.
pub proof fn law_sample_read(code: u32, b: Seq<u8>)
    requires
        1 <= code <= 10,
        b.len() == sample_width(code),
    ensures
        has_value(code, chunk::sample_at(b, 0, code, b.len() as int)),
        sample_bytes(code, chunk::sample_at(b, 0, code, b.len() as int)) == b,
{
    lemma_patterns();
    law_number_read(b);
    assert(b.subrange(0, b.len() as int) =~= b);
}

/// Whether these bytes stand at a place.
pub open spec fn holds(buf: Seq<u8>, pos: int, b: Seq<u8>) -> bool {
    0 <= pos && pos + b.len() <= buf.len() && buf.subrange(pos, pos + b.len()) == b
}

/// What holds of two strings behind each other holds of each.
pub proof fn lemma_holds_parts(buf: Seq<u8>, pos: int, a: Seq<u8>, b: Seq<u8>)
    requires
        holds(buf, pos, a + b),
    ensures
        holds(buf, pos, a),
        holds(buf, pos + a.len(), b),
{
    let all = buf.subrange(pos, pos + a.len() + b.len());
    assert(all == a + b);
    assert(buf.subrange(pos, pos + a.len()) =~= a) by {
        assert forall|i: int| 0 <= i < a.len() implies #[trigger] buf.subrange(
            pos,
            pos + a.len(),
        )[i] == a[i] by {
            assert(all[i] == (a + b)[i]);
        }
    }
    assert(buf.subrange(pos + a.len(), pos + a.len() + b.len()) =~= b) by {
        assert forall|i: int| 0 <= i < b.len() implies #[trigger] buf.subrange(
            pos + a.len(),
            pos + a.len() + b.len(),
        )[i] == b[i] by {
            assert(all[a.len() + i] == (a + b)[a.len() + i]);
        }
    }
}

/// A number at a place is read there.
pub proof fn law_number_at(buf: Seq<u8>, pos: int, n: nat, w: nat)
    requires
        n < patterns(w),
        holds(buf, pos, le(n, w)),
    ensures
        cursor::nat_at(buf, pos, w as int) == Ok::<_, TdmsFault>(n),
{
    law_number_written(n, w);
}

/// A text: its length in bytes, and its UTF-8 bytes.
pub open spec fn text_bytes(s: Seq<char>) -> Seq<u8> {
    le(utf8::encode_utf8(s).len(), 4) + utf8::encode_utf8(s)
}

/// Whether a text's length can be written.
pub open spec fn writable(s: Seq<char>) -> bool {
    utf8::encode_utf8(s).len() < 0x1_0000_0000
}

/// A text is read back as it was written.
pub proof fn law_text_written(buf: Seq<u8>, pos: int, s: Seq<char>)
    requires
        writable(s),
        holds(buf, pos, text_bytes(s)),
    ensures
        cursor::text_at(buf, pos) == Ok::<_, TdmsFault>((s, pos + text_bytes(s).len())),
{
    lemma_patterns();
    let b = utf8::encode_utf8(s);
    law_number_written(b.len(), 4);
    lemma_holds_parts(buf, pos, le(b.len(), 4), b);
    law_number_at(buf, pos, b.len(), 4);
    utf8::encode_utf8_valid_utf8(s);
    utf8::encode_utf8_decode_utf8(s);
}

/// The value of a property as a file holds it. A timestamp is a fraction of a
/// second and the seconds since 1904.
pub enum Stored {
    Plain(PropertyModel),
    Stamp(u64, i64),
}

impl Stored {
    /// Whether the value can be written.
    pub open spec fn wf(self) -> bool {
        match self {
            Stored::Plain(PropertyModel::Timestamp(_)) => false,
            Stored::Plain(PropertyModel::Text(s)) => writable(s),
            _ => true,
        }
    }

    /// The code of its type.
    pub open spec fn code(self) -> u32 {
        match self {
            Stored::Stamp(_, _) => 0x44,
            Stored::Plain(v) => match v {
                PropertyModel::Void => 0,
                PropertyModel::I8(_) => 1,
                PropertyModel::I16(_) => 2,
                PropertyModel::I32(_) => 3,
                PropertyModel::I64(_) => 4,
                PropertyModel::U8(_) => 5,
                PropertyModel::U16(_) => 6,
                PropertyModel::U32(_) => 7,
                PropertyModel::U64(_) => 8,
                PropertyModel::F32(_) => 9,
                PropertyModel::F64(_) => 10,
                PropertyModel::Text(_) => 0x20,
                PropertyModel::Bool(_) => 0x21,
                PropertyModel::Timestamp(_) => 0x44,
            },
        }
    }

    /// Its bytes.
    pub open spec fn bytes(self) -> Seq<u8> {
        match self {
            Stored::Stamp(fraction, seconds) => le(fraction as nat, 8) + le(
                complement(seconds as int, 8),
                8,
            ),
            Stored::Plain(v) => match v {
                PropertyModel::Void => Seq::empty(),
                PropertyModel::I8(n) => le(complement(n as int, 1), 1),
                PropertyModel::I16(n) => le(complement(n as int, 2), 2),
                PropertyModel::I32(n) => le(complement(n as int, 4), 4),
                PropertyModel::I64(n) => le(complement(n as int, 8), 8),
                PropertyModel::U8(n) => le(n as nat, 1),
                PropertyModel::U16(n) => le(n as nat, 2),
                PropertyModel::U32(n) => le(n as nat, 4),
                PropertyModel::U64(n) => le(n as nat, 8),
                PropertyModel::F32(n) => le(n as nat, 4),
                PropertyModel::F64(n) => le(n as nat, 8),
                PropertyModel::Text(s) => text_bytes(s),
                PropertyModel::Bool(b) => if b {
                    seq![1u8]
                } else {
                    seq![0u8]
                },
                PropertyModel::Timestamp(_) => Seq::empty(),
            },
        }
    }

    /// The value that it is.
    pub open spec fn value(self) -> PropertyModel {
        match self {
            Stored::Stamp(fraction, seconds) => PropertyModel::Timestamp(
                TdmsTimestamp { us_since_epoch: value::micros_of_raw(fraction, seconds) as i64 },
            ),
            Stored::Plain(v) => v,
        }
    }
}

/// A property value of any type is read back as it was written, and what
/// follows it is read from behind its bytes on.
pub proof fn law_property_written(buf: Seq<u8>, pos: int, v: Stored, path: Seq<char>)
    requires
        v.wf(),
        holds(buf, pos, v.bytes()),
    ensures
        cursor::property_at(buf, pos, v.code(), path) == Ok::<_, TdmsFault>(
            (v.value(), pos + v.bytes().len()),
        ),
{
    lemma_patterns();
    match v {
        Stored::Stamp(fraction, seconds) => {
            let a = le(fraction as nat, 8);
            let b = le(complement(seconds as int, 8), 8);
            law_number_written(fraction as nat, 8);
            law_number_written(complement(seconds as int, 8), 8);
            lemma_holds_parts(buf, pos, a, b);
            law_number_at(buf, pos, fraction as nat, 8);
            law_number_at(buf, pos + 8, complement(seconds as int, 8), 8);
        },
        Stored::Plain(m) => match m {
            PropertyModel::Void => {
                assert(buf.subrange(pos, pos) =~= Seq::empty());
            },
            PropertyModel::I8(n) => {
                law_number_at(buf, pos, complement(n as int, 1), 1);
                law_number_written(complement(n as int, 1), 1);
            },
            PropertyModel::I16(n) => {
                law_number_at(buf, pos, complement(n as int, 2), 2);
                law_number_written(complement(n as int, 2), 2);
            },
            PropertyModel::I32(n) => {
                law_number_at(buf, pos, complement(n as int, 4), 4);
                law_number_written(complement(n as int, 4), 4);
            },
            PropertyModel::I64(n) => {
                law_number_at(buf, pos, complement(n as int, 8), 8);
                law_number_written(complement(n as int, 8), 8);
            },
            PropertyModel::U8(n) => {
                law_number_at(buf, pos, n as nat, 1);
                law_number_written(n as nat, 1);
            },
            PropertyModel::U16(n) => {
                law_number_at(buf, pos, n as nat, 2);
                law_number_written(n as nat, 2);
            },
            PropertyModel::U32(n) => {
                law_number_at(buf, pos, n as nat, 4);
                law_number_written(n as nat, 4);
            },
            PropertyModel::U64(n) => {
                law_number_at(buf, pos, n as nat, 8);
                law_number_written(n as nat, 8);
            },
            PropertyModel::F32(n) => {
                law_number_at(buf, pos, n as nat, 4);
                law_number_written(n as nat, 4);
            },
            PropertyModel::F64(n) => {
                law_number_at(buf, pos, n as nat, 8);
                law_number_written(n as nat, 8);
            },
            PropertyModel::Text(s) => {
                law_text_written(buf, pos, s);
            },
            PropertyModel::Bool(b) => {
                let n: nat = if b {
                    1
                } else {
                    0
                };
                reveal_with_fuel(le, 2);
                assert(le(n, 1) =~= v.bytes());
                law_number_at(buf, pos, n, 1);
            },
            PropertyModel::Timestamp(_) => {},
        },
    }
}

/// Every byte but zero stands for `true`.
pub proof fn law_bool_read(buf: Seq<u8>, pos: int, path: Seq<char>)
    requires
        0 <= pos < buf.len(),
    ensures
        cursor::property_at(buf, pos, 0x21, path) == Ok::<_, TdmsFault>(
            (PropertyModel::Bool(buf[pos] != 0), pos + 1),
        ),
{
    let b = buf.subrange(pos, pos + 1);
    assert(b[0] == buf[pos]);
    cursor::lemma_le_nat_bound(b);
}

/// A property: its name, the code of its type, and its value.
pub open spec fn named_bytes(name: Seq<char>, v: Stored) -> Seq<u8> {
    text_bytes(name) + (le(v.code() as nat, 4) + v.bytes())
}

/// Properties, one after the other.
pub open spec fn properties_bytes(ps: Seq<(Seq<char>, Stored)>) -> Seq<u8>
    decreases ps.len(),
{
    if ps.len() == 0 {
        Seq::empty()
    } else {
        properties_bytes(ps.drop_last()) + named_bytes(ps.last().0, ps.last().1)
    }
}

/// Whether all properties can be written.
pub open spec fn properties_wf(ps: Seq<(Seq<char>, Stored)>) -> bool {
    forall|i: int| 0 <= i < ps.len() ==> writable((#[trigger] ps[i]).0) && ps[i].1.wf()
}

/// The properties with their values.
pub open spec fn property_values(ps: Seq<(Seq<char>, Stored)>) -> Seq<(Seq<char>, PropertyModel)> {
    ps.map_values(|p: (Seq<char>, Stored)| (p.0, p.1.value()))
}

/// Properties are read back as they were written, in their order.
pub proof fn law_properties_written(
    buf: Seq<u8>,
    pos: int,
    ps: Seq<(Seq<char>, Stored)>,
    path: Seq<char>,
)
    requires
        properties_wf(ps),
        holds(buf, pos, properties_bytes(ps)),
    ensures
        object::properties_at(buf, pos, ps.len(), path) == Ok::<_, TdmsFault>(
            (property_values(ps), pos + properties_bytes(ps).len()),
        ),
    decreases ps.len(),
{
    if ps.len() == 0 {
        assert(property_values(ps) =~= Seq::empty());
    } else {
        let rest = ps.drop_last();
        let (name, v) = ps.last();
        assert(ps[ps.len() - 1] == ps.last());
        assert(properties_wf(rest)) by {
            assert forall|i: int| 0 <= i < rest.len() implies writable((#[trigger] rest[i]).0)
                && rest[i].1.wf() by {
                assert(rest[i] == ps[i]);
            }
        }
        let front = properties_bytes(rest);
        lemma_holds_parts(buf, pos, front, named_bytes(name, v));
        law_properties_written(buf, pos, rest, path);
        let p = pos + front.len();
        let c = le(v.code() as nat, 4);
        lemma_patterns();
        law_number_written(v.code() as nat, 4);
        lemma_holds_parts(buf, p, text_bytes(name), c + v.bytes());
        law_text_written(buf, p, name);
        let p1 = p + text_bytes(name).len();
        lemma_holds_parts(buf, p1, c, v.bytes());
        law_number_at(buf, p1, v.code() as nat, 4);
        law_property_written(buf, p1 + 4, v, path);
        assert(property_values(ps) =~= property_values(rest).push((name, v.value())));
    }
}

/// A declaration as a segment holds it.
pub struct Declaration {
    pub path: Seq<char>,
    pub raw: RawHeader,
    pub properties: Seq<(Seq<char>, Stored)>,
}

/// The header of an object's raw data: none, as before, or a layout.
pub open spec fn raw_bytes(raw: RawHeader) -> Seq<u8> {
    match raw {
        RawHeader::NoData => le(0xFFFF_FFFF, 4),
        RawHeader::SameAsBefore => le(0, 4),
        RawHeader::Index(r) => le(20, 4) + (le(r.data_type as nat, 4) + (le(1, 4) + le(
            r.n_values as nat,
            8,
        ))),
    }
}

/// Whether a layout is one of a type with samples.
pub open spec fn layout_wf(r: RawDataIndex) -> bool {
    1 <= r.data_type <= 10 && r.bytes_per_value == sample_width(r.data_type)
}

impl Declaration {
    /// Whether it can be written and read.
    pub open spec fn wf(self) -> bool {
        writable(self.path) && path::path_parts(self.path) is Ok && self.properties.len()
            < 0x1_0000_0000 && properties_wf(self.properties) && (self.raw matches RawHeader::Index(
            r,
        ) ==> layout_wf(r))
    }

    /// Its bytes.
    pub open spec fn bytes(self) -> Seq<u8> {
        text_bytes(self.path) + (raw_bytes(self.raw) + (le(self.properties.len(), 4)
            + properties_bytes(self.properties)))
    }

    /// What it says.
    pub open spec fn model(self) -> DeclModel {
        let (depth, parent, name) = path::path_parts(self.path)->Ok_0;
        DeclModel {
            path: self.path,
            raw: self.raw,
            properties: property_values(self.properties),
            depth,
            parent,
            name,
        }
    }
}

proof fn lemma_raw_written(buf: Seq<u8>, pos: int, raw: RawHeader, daqmx: bool, path: Seq<char>)
    requires
        raw matches RawHeader::Index(r) ==> layout_wf(r),
        holds(buf, pos, raw_bytes(raw)),
    ensures
        object::raw_header_at(buf, pos, daqmx, path) == Ok::<_, TdmsFault>(
            (raw, pos + raw_bytes(raw).len()),
        ),
{
    lemma_patterns();
    match raw {
        RawHeader::NoData => {
            law_number_written(0xFFFF_FFFF, 4);
            law_number_at(buf, pos, 0xFFFF_FFFF, 4);
        },
        RawHeader::SameAsBefore => {
            law_number_written(0, 4);
            law_number_at(buf, pos, 0, 4);
        },
        RawHeader::Index(r) => {
            let a = le(20, 4);
            let b = le(r.data_type as nat, 4);
            let c = le(1, 4);
            let d = le(r.n_values as nat, 8);
            law_number_written(20, 4);
            law_number_written(r.data_type as nat, 4);
            law_number_written(1, 4);
            law_number_written(r.n_values as nat, 8);
            lemma_holds_parts(buf, pos, a, b + (c + d));
            lemma_holds_parts(buf, pos + 4, b, c + d);
            lemma_holds_parts(buf, pos + 8, c, d);
            law_number_at(buf, pos, 20, 4);
            law_number_at(buf, pos + 4, r.data_type as nat, 4);
            law_number_at(buf, pos + 8, 1, 4);
            law_number_at(buf, pos + 12, r.n_values as nat, 8);
        },
    }
}

/// A declaration is read back as it was written: its path, what it says of the
/// raw data, and its properties.
pub proof fn law_declaration_written(buf: Seq<u8>, pos: int, d: Declaration, daqmx: bool)
    requires
        d.wf(),
        holds(buf, pos, d.bytes()),
    ensures
        object::decl_at(buf, pos, daqmx) == Ok::<_, TdmsFault>((d.model(), pos + d.bytes().len())),
{
    lemma_patterns();
    let t = text_bytes(d.path);
    let r = raw_bytes(d.raw);
    let n = le(d.properties.len(), 4);
    let ps = properties_bytes(d.properties);
    law_number_written(d.properties.len(), 4);
    lemma_holds_parts(buf, pos, t, r + (n + ps));
    lemma_holds_parts(buf, pos + t.len(), r, n + ps);
    lemma_holds_parts(buf, pos + t.len() + r.len(), n, ps);
    law_text_written(buf, pos, d.path);
    lemma_raw_written(buf, pos + t.len(), d.raw, daqmx, d.path);
    law_number_at(buf, pos + t.len() + r.len(), d.properties.len(), 4);
    law_properties_written(buf, pos + t.len() + r.len() + 4, d.properties, d.path);
}

/// Declarations, one after the other.
pub open spec fn declarations_bytes(ds: Seq<Declaration>) -> Seq<u8>
    decreases ds.len(),
{
    if ds.len() == 0 {
        Seq::empty()
    } else {
        declarations_bytes(ds.drop_last()) + ds.last().bytes()
    }
}

/// Whether all declarations can be written and read.
pub open spec fn declarations_wf(ds: Seq<Declaration>) -> bool {
    forall|i: int| 0 <= i < ds.len() ==> (#[trigger] ds[i]).wf()
}

/// What declarations say.
pub open spec fn declared_models(ds: Seq<Declaration>) -> Seq<DeclModel> {
    ds.map_values(|d: Declaration| d.model())
}

/// Declarations are read back as they were written, in their order.
pub proof fn law_declarations_written(buf: Seq<u8>, pos: int, ds: Seq<Declaration>, daqmx: bool)
    requires
        declarations_wf(ds),
        holds(buf, pos, declarations_bytes(ds)),
    ensures
        object::decls_at(buf, pos, ds.len(), daqmx) == Ok::<_, TdmsFault>(
            (declared_models(ds), pos + declarations_bytes(ds).len()),
        ),
        object::decls_read(buf, pos, ds.len(), daqmx) == declared_models(ds),
    decreases ds.len(),
{
    if ds.len() == 0 {
        assert(declared_models(ds) =~= Seq::empty());
    } else {
        let rest = ds.drop_last();
        assert(ds[ds.len() - 1] == ds.last());
        assert(declarations_wf(rest)) by {
            assert forall|i: int| 0 <= i < rest.len() implies (#[trigger] rest[i]).wf() by {
                assert(rest[i] == ds[i]);
            }
        }
        let front = declarations_bytes(rest);
        lemma_holds_parts(buf, pos, front, ds.last().bytes());
        law_declarations_written(buf, pos, rest, daqmx);
        law_declaration_written(buf, pos + front.len(), ds.last(), daqmx);
        assert(declared_models(ds) =~= declared_models(rest).push(ds.last().model()));
    }
}

} // verus!
