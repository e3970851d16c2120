//! What cannot be read, and the error that says so.

use super::chunk;
use super::chunk::SlotModel;
use super::cursor;
use super::error::TdmsFault;
use super::file;
use super::laws;
use super::naming;
use super::object;
use super::object::{DeclModel, ObjectModel, RawHeader};
use super::order;
use super::path;
use super::segment;
use super::value::PropertyModel;
use crate::text;
use vstd::prelude::*;
use vstd::utf8;

verus! {

/// The codes of the types whose samples are numbers.
pub open spec fn is_number_code(code: u32) -> bool {
    1 <= code <= 10
}

/// Raw data may have numbers, flags and timestamps, and no other types. Each
/// type has its own width.
pub proof fn law_raw_types(code: u32)
    ensures
        object::raw_width(code) is Some <==> is_number_code(code) || code == 0x21 || code == 0x44,
        code == 1 || code == 5 || code == 0x21 ==> object::raw_width(code) == Some(1int),
        code == 2 || code == 6 ==> object::raw_width(code) == Some(2int),
        code == 3 || code == 7 || code == 9 ==> object::raw_width(code) == Some(4int),
        code == 4 || code == 8 || code == 10 ==> object::raw_width(code) == Some(8int),
        code == 0x44 ==> object::raw_width(code) == Some(16int),
        chunk::numeric(code) == is_number_code(code),
{
}

/// A field that reaches behind the end is an error that gives its own start.
pub proof fn law_number_cut_short(buf: Seq<u8>, pos: int, n: int)
    ensures
        pos + n > buf.len() ==> cursor::nat_at(buf, pos, n) == Err::<nat, _>(TdmsFault::Eof(pos)),
        pos + n <= buf.len() ==> cursor::nat_at(buf, pos, n) is Ok,
{
}

/// A text is an error where its length is cut short, where its bytes are, and
/// where they are not UTF-8; the reading stops in front of what is cut short,
/// and behind the bytes that are no text.
pub proof fn law_text_refused(buf: Seq<u8>, pos: int)
    ensures
        pos + 4 > buf.len() ==> cursor::text_at(buf, pos) == Err::<(Seq<char>, int), _>(
            TdmsFault::Eof(pos),
        ) && cursor::text_stop(buf, pos) == pos,
        pos + 4 <= buf.len() ==> {
            let n = cursor::le_nat(buf.subrange(pos, pos + 4)) as int;
            &&& pos + 4 + n > buf.len() ==> cursor::text_at(buf, pos) == Err::<
                (Seq<char>, int),
                _,
            >(TdmsFault::Eof(pos + 4)) && cursor::text_stop(buf, pos) == pos + 4
            &&& pos + 4 + n <= buf.len() ==> (cursor::text_at(buf, pos) is Ok)
                == utf8::valid_utf8(buf.subrange(pos + 4, pos + 4 + n))
            &&& pos + 4 + n <= buf.len() && !utf8::valid_utf8(
                buf.subrange(pos + 4, pos + 4 + n),
            ) ==> cursor::text_at(buf, pos) == Err::<(Seq<char>, int), _>(
                TdmsFault::Malformed(
                    seq![
                        'n', 'o', 'n', '-', 'U', 'T', 'F', '8', ' ', 's', 't', 'r', 'i', 'n', 'g',
                    ],
                ),
            ) && cursor::text_stop(buf, pos) == pos + 4 + n
        },
{
    reveal_strlit("non-UTF8 string");
    assert("non-UTF8 string"@ =~= seq![
        'n', 'o', 'n', '-', 'U', 'T', 'F', '8', ' ', 's', 't', 'r', 'i', 'n', 'g',
    ]);
}

/// The bytes of a property value whose type has a fixed size.
pub open spec fn fixed_size(code: u32) -> int {
    if code == 0 {
        0
    } else if code == 1 || code == 5 || code == 0x21 {
        1
    } else if code == 2 || code == 6 {
        2
    } else if code == 3 || code == 7 || code == 9 {
        4
    } else {
        8
    }
}

/// A property of a type that no property has is an error that names the type
/// and the object, and takes no bytes. One that is cut short is an error that
/// gives the start of the value, or of the seconds where a timestamp ends with
/// its fraction, and there the reading stops.
pub proof fn law_property_refused(buf: Seq<u8>, pos: int, code: u32, path: Seq<char>)
    requires
        code != 0x20,
    ensures
        code > 10 && code != 0x21 && code != 0x44 ==> cursor::property_at(buf, pos, code, path)
            == Err::<(PropertyModel, int), _>(TdmsFault::UnsupportedDataType(code, path))
            && cursor::property_stop(buf, pos, code) == pos,
        (code <= 10 || code == 0x21) && pos + fixed_size(code) > buf.len() ==> cursor::property_at(
            buf,
            pos,
            code,
            path,
        ) == Err::<(PropertyModel, int), _>(TdmsFault::Eof(pos)) && cursor::property_stop(
            buf,
            pos,
            code,
        ) == pos,
        (code <= 10 || code == 0x21) && pos + fixed_size(code) <= buf.len() ==> (
        cursor::property_at(buf, pos, code, path) matches Ok((_, next)) && next == pos + fixed_size(
            code,
        )),
        code == 0x44 && pos + 8 > buf.len() ==> cursor::property_at(buf, pos, code, path) == Err::<
            (PropertyModel, int),
            _,
        >(TdmsFault::Eof(pos)) && cursor::property_stop(buf, pos, code) == pos,
        code == 0x44 && pos + 8 <= buf.len() < pos + 16 ==> cursor::property_at(
            buf,
            pos,
            code,
            path,
        ) == Err::<(PropertyModel, int), _>(TdmsFault::Eof(pos + 8)) && cursor::property_stop(
            buf,
            pos,
            code,
        ) == pos + 8,
        code == 0x44 && pos + 16 <= buf.len() ==> (cursor::property_at(
            buf,
            pos,
            code,
            path,
        ) matches Ok((_, next)) && next == pos + 16),
{
}

/// A property of text is refused as a text is, and the reading stops where that
/// of the text does.
pub proof fn law_text_property(buf: Seq<u8>, pos: int, path: Seq<char>)
    ensures
        match cursor::text_at(buf, pos) {
            Ok((s, next)) => cursor::property_at(buf, pos, 0x20, path) == Ok::<_, TdmsFault>(
                (PropertyModel::Text(s), next),
            ),
            Err(e) => cursor::property_at(buf, pos, 0x20, path) == Err::<(PropertyModel, int), _>(
                e,
            ),
        },
        cursor::property_stop(buf, pos, 0x20) == cursor::text_stop(buf, pos),
{
}

/// The header of DAQmx data is an error in a segment that is marked to hold
/// such data; elsewhere it says that there is no raw data.
pub proof fn law_daqmx(buf: Seq<u8>, pos: int, path: Seq<char>)
    requires
        pos + 4 <= buf.len(),
        cursor::le_nat(buf.subrange(pos, pos + 4)) == 0x6913_0000 || cursor::le_nat(
            buf.subrange(pos, pos + 4),
        ) == 0x6914_0000,
    ensures
        object::raw_header_at(buf, pos, true, path) == Err::<(RawHeader, int), _>(
            TdmsFault::DaqmxNotSupported(path),
        ),
        object::raw_header_at(buf, pos, false, path) == Ok::<_, TdmsFault>(
            (RawHeader::NoData, pos + 4),
        ),
{
}

/// A raw data index of a type that raw data cannot have is an error that names
/// the type and the object, once all its fields are there: that of text has one
/// more.
pub proof fn law_index_refused(buf: Seq<u8>, pos: int, daqmx: bool, path: Seq<char>)
    requires
        0 <= pos,
        pos + 4 <= buf.len(),
        ({
            let h = cursor::le_nat(buf.subrange(pos, pos + 4));
            h != 0 && h != 0xFFFF_FFFF && h != 0x6913_0000 && h != 0x6914_0000
        }),
    ensures
        pos + 8 > buf.len() ==> object::raw_header_at(buf, pos, daqmx, path) == Err::<
            (RawHeader, int),
            _,
        >(TdmsFault::Eof(pos + 4)),
        pos + 8 <= buf.len() < pos + 12 ==> object::raw_header_at(buf, pos, daqmx, path) == Err::<
            (RawHeader, int),
            _,
        >(TdmsFault::Eof(pos + 8)),
        pos + 12 <= buf.len() < pos + 20 ==> object::raw_header_at(buf, pos, daqmx, path) == Err::<
            (RawHeader, int),
            _,
        >(TdmsFault::Eof(pos + 12)),
        pos + 20 <= buf.len() ==> {
            let code = cursor::le_nat(buf.subrange(pos + 4, pos + 8));
            let refused = object::raw_header_at(buf, pos, daqmx, path);
            &&& code == 0x20 && pos + 28 > buf.len() ==> refused == Err::<(RawHeader, int), _>(
                TdmsFault::Eof(pos + 20),
            )
            &&& (code != 0x20 || pos + 28 <= buf.len()) && !(1 <= code <= 10) && code != 0x21
                && code != 0x44 ==> refused == Err::<(RawHeader, int), _>(
                TdmsFault::UnsupportedDataType(code as u32, path),
            )
            &&& 1 <= code <= 10 || code == 0x21 || code == 0x44 ==> refused is Ok
        },
{
    if pos + 8 <= buf.len() {
        cursor::lemma_le_nat_bound(buf.subrange(pos + 4, pos + 8));
    }
}

/// The first field of a declaration that cannot be read is its error: its path,
/// its raw data header, the number of its properties, a property; and then a
/// path that does not follow the grammar.
pub proof fn law_declaration_refused(
    buf: Seq<u8>,
    pos: int,
    daqmx: bool,
    path: Seq<char>,
    raw: RawHeader,
    n: nat,
    p1: int,
    p2: int,
    e: TdmsFault,
)
    ensures
        cursor::text_at(buf, pos) == Err::<(Seq<char>, int), _>(e) ==> object::decl_at(
            buf,
            pos,
            daqmx,
        ) == Err::<(DeclModel, int), _>(e),
        cursor::text_at(buf, pos) == Ok::<_, TdmsFault>((path, p1)) ==> {
            &&& object::raw_header_at(buf, p1, daqmx, path) == Err::<(RawHeader, int), _>(e)
                ==> object::decl_at(buf, pos, daqmx) == Err::<(DeclModel, int), _>(e)
            &&& object::raw_header_at(buf, p1, daqmx, path) == Ok::<_, TdmsFault>((raw, p2)) ==> {
                &&& p2 + 4 > buf.len() ==> object::decl_at(buf, pos, daqmx) == Err::<
                    (DeclModel, int),
                    _,
                >(TdmsFault::Eof(p2))
                &&& cursor::nat_at(buf, p2, 4) == Ok::<_, TdmsFault>(n)
                    && object::properties_at(buf, p2 + 4, n, path) == Err::<
                    (Seq<(Seq<char>, PropertyModel)>, int),
                    _,
                >(e) ==> object::decl_at(buf, pos, daqmx) == Err::<(DeclModel, int), _>(e)
                &&& cursor::nat_at(buf, p2, 4) == Ok::<_, TdmsFault>(n)
                    && object::properties_at(buf, p2 + 4, n, path) is Ok && path::path_parts(
                    path,
                ) is Err ==> object::decl_at(buf, pos, daqmx) == Err::<(DeclModel, int), _>(
                    TdmsFault::MalformedPath(path),
                )
            }
        },
{
}

/// A property that cannot be read is the error of its declaration, whatever
/// follows it.
pub proof fn law_properties_refused(
    buf: Seq<u8>,
    pos: int,
    k: nat,
    n: nat,
    path: Seq<char>,
    ps: Seq<(Seq<char>, PropertyModel)>,
    at: int,
    e: TdmsFault,
)
    requires
        k < n,
        object::properties_at(buf, pos, k, path) == Ok::<_, TdmsFault>((ps, at)),
        object::named_property_at(buf, at, path) == Err::<((Seq<char>, PropertyModel), int), _>(e),
    ensures
        object::properties_at(buf, pos, n, path) == Err::<
            (Seq<(Seq<char>, PropertyModel)>, int),
            _,
        >(e),
    decreases n,
{
    if k < n - 1 {
        law_properties_refused(buf, pos, k, (n - 1) as nat, path, ps, at, e);
    }
}

/// A declaration that cannot be read is the error of its segment's metadata, and
/// those before it still count.
pub proof fn law_declarations_refused(
    buf: Seq<u8>,
    pos: int,
    k: nat,
    n: nat,
    daqmx: bool,
    ds: Seq<DeclModel>,
    at: int,
    e: TdmsFault,
)
    requires
        k < n,
        object::decls_at(buf, pos, k, daqmx) == Ok::<_, TdmsFault>((ds, at)),
        object::decl_at(buf, at, daqmx) == Err::<(DeclModel, int), _>(e),
    ensures
        object::decls_at(buf, pos, n, daqmx) == Err::<(Seq<DeclModel>, int), _>(e),
        object::decls_read(buf, pos, n, daqmx) == ds,
    decreases n,
{
    if k < n - 1 {
        law_declarations_refused(buf, pos, k, (n - 1) as nat, daqmx, ds, at, e);
    }
}

/// Declarations that can all be read all count.
pub proof fn law_declarations_read(buf: Seq<u8>, pos: int, n: nat, daqmx: bool)
    ensures
        object::decls_at(buf, pos, n, daqmx) matches Ok((ds, _)) ==> object::decls_read(
            buf,
            pos,
            n,
            daqmx,
        ) == ds && ds.len() == n,
    decreases n,
{
    if n > 0 {
        law_declarations_read(buf, pos, (n - 1) as nat, daqmx);
    }
}

/// A path is refused as a whole, whatever is wrong with it. It starts with a
/// slash, and names two things at most.
pub proof fn law_path_refused(p: Seq<char>)
    ensures
        path::path_parts(p) is Err ==> path::path_parts(p) == Err::<
            (u8, Option<Seq<char>>, Seq<char>),
            _,
        >(TdmsFault::MalformedPath(p)),
        p.len() == 0 || p[0] != '/' ==> path::path_parts(p) is Err,
        p.len() > 1 && p[1] != '\'' ==> path::path_parts(p) is Err,
        path::path_parts(p) matches Ok((depth, parent, _)) ==> depth <= 2 && (parent is Some) == (
        depth == 2),
{
}

/// The marks of a table of contents are its binary digits: twos for metadata,
/// fours for a new list, eights for raw data; then interleaving, byte order and
/// DAQmx data.
pub proof fn law_marks(toc: u32)
    ensures
        segment::marked(toc, segment::META_DATA) == (toc / 2 % 2 == 1),
        segment::marked(toc, segment::NEW_OBJ_LIST) == (toc / 4 % 2 == 1),
        segment::marked(toc, segment::RAW_DATA) == (toc / 8 % 2 == 1),
        segment::marked(toc, segment::INTERLEAVED) == (toc / 32 % 2 == 1),
        segment::marked(toc, segment::BIG_ENDIAN) == (toc / 64 % 2 == 1),
        segment::marked(toc, segment::DAQMX) == (toc / 128 % 2 == 1),
{
    assert((toc & 0x2 != 0) == (toc / 2 % 2 == 1) && (toc & 0x4 != 0) == (toc / 4 % 2 == 1) && (toc
        & 0x8 != 0) == (toc / 8 % 2 == 1) && (toc & 0x20 != 0) == (toc / 32 % 2 == 1) && (toc
        & 0x40 != 0) == (toc / 64 % 2 == 1) && (toc & 0x80 != 0) == (toc / 128 % 2 == 1))
        by (bit_vector);
}

/// A segment is refused where its lead-in is cut short, where another tag
/// stands, and where its numbers are big-endian, in this order, and then leaves
/// everything as it was.
#[verifier::spinoff_prover]
#[verifier::rlimit(60)]
pub proof fn law_lead_in_refused(
    bytes: Seq<u8>,
    start: int,
    objs: Seq<ObjectModel>,
    before: Seq<int>,
)
    requires
        0 <= start,
    ensures
        ({
            let r = segment::segment_at(bytes, start, objs, before);
            let cut = start + 28 > bytes.len();
            let tagged = bytes[start] == 0x54 && bytes[start + 1] == 0x44 && bytes[start + 2]
                == 0x53 && bytes[start + 3] == 0x6D;
            let big = bytes[start + 4] / 64 % 2 == 1;
            &&& cut ==> r == Err::<(Seq<ObjectModel>, Seq<int>, int), _>(TdmsFault::Eof(start))
            &&& !cut && !tagged ==> r == Err::<(Seq<ObjectModel>, Seq<int>, int), _>(
                TdmsFault::BadTag(
                    start,
                    seq![
                        bytes[start],
                        bytes[start + 1],
                        bytes[start + 2],
                        bytes[start + 3],
                    ],
                ),
            )
            &&& !cut && tagged && big ==> r == Err::<(Seq<ObjectModel>, Seq<int>, int), _>(
                TdmsFault::BigEndianNotSupported,
            )
            &&& cut || !tagged || big ==> segment::segment_left(bytes, start, objs, before) == objs
            &&& !cut && tagged && !big ==> segment::lead_in_fault(bytes, start) is None
        }),
{
    reveal(segment::segment_at);
    if start + 28 <= bytes.len() {
        let t = bytes.subrange(start, start + 4);
        assert(t =~= seq![bytes[start], bytes[start + 1], bytes[start + 2], bytes[start + 3]]);
        let tagged = bytes[start] == 0x54 && bytes[start + 1] == 0x44 && bytes[start + 2] == 0x53
            && bytes[start + 3] == 0x6D;
        if t == segment::tag() {
            assert(t[0] == segment::tag()[0] && t[1] == segment::tag()[1] && t[2]
                == segment::tag()[2] && t[3] == segment::tag()[3]);
            assert(tagged);
        }
        if tagged {
            assert(t =~= segment::tag());
        }
        let s = bytes.subrange(start + 4, start + 8);
        cursor::lemma_le_nat_bound(s);
        law_marks(segment::toc_of(bytes, start));
        let toc = segment::toc_of(bytes, start);
        assert(s[0] == bytes[start + 4]);
        assert(toc == s[0] + 256 * (s[1] + 0x100 * s[2] + 0x1_0000 * s[3]));
        assert(toc / 64 % 2 == s[0] / 64 % 2);
    }
}

/// The text of the error on a raw section outside the file tells its bounds and
/// the length of the file; that on one of broken chunks tells both lengths.
pub proof fn law_section_texts(from: int, to: int, len: int, size: int)
    ensures
        segment::bounds_text(from, to, len) == seq![
            'r', 'a', 'w', ' ', 's', 'e', 'c', 't', 'i', 'o', 'n', ' ', 'o', 'u', 't', ' ', 'o',
            'f', ' ', 'b', 'o', 'u', 'n', 'd', 's', ':', ' ',
        ] + text::decimal(from as nat) + seq!['.', '.'] + text::decimal(to as nat) + seq![
            ',', ' ', 'f', 'i', 'l', 'e', ' ', 'l', 'e', 'n', ' ',
        ] + text::decimal(len as nat),
        segment::size_text(len, size) == seq![
            'r', 'a', 'w', ' ', 's', 'e', 'c', 't', 'i', 'o', 'n', ' ', 's', 'i', 'z', 'e', ' ',
        ] + text::decimal(len as nat) + seq![
            ' ', 'n', 'o', 't', ' ', 'a', ' ', 'm', 'u', 'l', 't', 'i', 'p', 'l', 'e', ' ', 'o',
            'f', ' ', 'c', 'h', 'u', 'n', 'k', ' ', 's', 'i', 'z', 'e', ' ',
        ] + text::decimal(size as nat),
{
    reveal_strlit("raw section out of bounds: ");
    reveal_strlit("..");
    reveal_strlit(", file len ");
    reveal_strlit("raw section size ");
    reveal_strlit(" not a multiple of chunk size ");
    assert("raw section out of bounds: "@ =~= seq![
        'r', 'a', 'w', ' ', 's', 'e', 'c', 't', 'i', 'o', 'n', ' ', 'o', 'u', 't', ' ', 'o', 'f',
        ' ', 'b', 'o', 'u', 'n', 'd', 's', ':', ' ',
    ]);
    assert(".."@ =~= seq!['.', '.']);
    assert(", file len "@ =~= seq![',', ' ', 'f', 'i', 'l', 'e', ' ', 'l', 'e', 'n', ' ']);
    assert("raw section size "@ =~= seq![
        'r', 'a', 'w', ' ', 's', 'e', 'c', 't', 'i', 'o', 'n', ' ', 's', 'i', 'z', 'e', ' ',
    ]);
    assert(" not a multiple of chunk size "@ =~= seq![
        ' ', 'n', 'o', 't', ' ', 'a', ' ', 'm', 'u', 'l', 't', 'i', 'p', 'l', 'e', ' ', 'o', 'f',
        ' ', 'c', 'h', 'u', 'n', 'k', ' ', 's', 'i', 'z', 'e', ' ',
    ]);
}

/// The bytes that the slots have in a chunk, one by one.
pub open spec fn slot_sizes(slots: Seq<SlotModel>) -> Seq<int> {
    Seq::new(slots.len(), |k: int| slots[k].raw.n_values * slots[k].raw.bytes_per_value)
}

/// The sum of numbers.
pub open spec fn sum(s: Seq<int>) -> int
    decreases s.len(),
{
    if s.len() == 0 {
        0
    } else {
        s[0] + sum(s.drop_first())
    }
}

proof fn lemma_sum_push(s: Seq<int>, v: int)
    ensures
        sum(s.push(v)) == sum(s) + v,
    decreases s.len(),
{
    if s.len() == 0 {
        assert(s.push(v).drop_first() =~= Seq::empty());
        assert(sum(Seq::<int>::empty()) == 0);
    } else {
        lemma_sum_push(s.drop_first(), v);
        assert(s.push(v).drop_first() =~= s.drop_first().push(v));
    }
}

proof fn lemma_offset_sum(slots: Seq<SlotModel>, k: int)
    requires
        0 <= k <= slots.len(),
    ensures
        chunk::offset(slots, k) == sum(slot_sizes(slots).take(k)),
    decreases k,
{
    let t = slot_sizes(slots);
    if k > 0 {
        lemma_offset_sum(slots, k - 1);
        assert(t.take(k) =~= t.take(k - 1).push(t[k - 1]));
        lemma_sum_push(t.take(k - 1), t[k - 1]);
        let raw = slots[k - 1].raw;
        assert(raw.n_values * raw.bytes_per_value == raw.bytes_per_value * raw.n_values)
            by (nonlinear_arith);
    } else {
        assert(t.take(0) =~= Seq::empty());
    }
}

/// A raw section is refused where it ends before its start or behind the file,
/// and where it is no whole number of chunks; a chunk has the bytes of all its
/// slots. Without a byte in a chunk nothing is read.
pub proof fn law_section_refused(
    bytes: Seq<u8>,
    from: int,
    to: int,
    is_interleaved: bool,
    objs: Seq<ObjectModel>,
    list: Seq<int>,
)
    requires
        sum(slot_sizes(order::slots_of(objs, list))) <= u128::MAX,
    ensures
        ({
            let size = sum(slot_sizes(order::slots_of(objs, list)));
            let r = segment::raw_section(bytes, from, to, is_interleaved, objs, list);
            let left = segment::section_left(bytes, from, to, is_interleaved, objs, list);
            &&& to < from || to > bytes.len() ==> r == Err::<Seq<ObjectModel>, _>(
                TdmsFault::Malformed(segment::bounds_text(from, to, bytes.len() as int)),
            ) && left == objs
            &&& from <= to <= bytes.len() && size != 0 && (to - from) % size != 0 ==> r == Err::<
                Seq<ObjectModel>,
                _,
            >(TdmsFault::Malformed(segment::size_text(to - from, size))) && left == objs
            &&& from <= to <= bytes.len() && size == 0 ==> r == Ok::<_, TdmsFault>(objs)
        }),
{
    let slots = order::slots_of(objs, list);
    lemma_offset_sum(slots, slots.len() as int);
    assert(slot_sizes(slots).take(slots.len() as int) =~= slot_sizes(slots));
}

/// The first slot whose samples are no numbers is the error of a chunk that
/// holds one channel behind the other; those before it are given their samples.
pub proof fn law_slot_refused(
    objs: Seq<ObjectModel>,
    slots: Seq<SlotModel>,
    chunk: Seq<u8>,
    k: int,
)
    requires
        0 <= k < slots.len(),
        forall|j: int| 0 <= j < k ==> is_number_code((#[trigger] slots[j]).raw.data_type),
        !is_number_code(slots[k].raw.data_type),
    ensures
        chunk::chunk_read(objs, slots, chunk, false) == Err::<Seq<ObjectModel>, _>(
            TdmsFault::UnsupportedDataType(slots[k].raw.data_type, slots[k].path),
        ),
        chunk::decimated(objs, slots, chunk, k) == Ok::<_, TdmsFault>(
            chunk::chunk_left(objs, slots, chunk, false),
        ),
{
    assert(chunk::all_numeric(slots, k));
    chunk::law_decimated_succeeds(objs, slots, chunk, k);
    lemma_decimated_fault(objs, slots, chunk, k + 1, slots.len() as int);
    chunk::lemma_refused(slots, 0, k);
}

proof fn lemma_decimated_fault(
    objs: Seq<ObjectModel>,
    slots: Seq<SlotModel>,
    chunk: Seq<u8>,
    j: int,
    k: int,
)
    requires
        j <= k,
        chunk::decimated(objs, slots, chunk, j) is Err,
    ensures
        chunk::decimated(objs, slots, chunk, k) == chunk::decimated(objs, slots, chunk, j),
    decreases k - j,
{
    if j < k {
        lemma_decimated_fault(objs, slots, chunk, j, k - 1);
    }
}

/// An interleaved chunk whose slots have unequal counts is refused, and nothing
/// of it is read.
pub proof fn law_unequal_counts(
    objs: Seq<ObjectModel>,
    slots: Seq<SlotModel>,
    chunk: Seq<u8>,
    i: int,
    j: int,
)
    requires
        0 <= i < slots.len(),
        0 <= j < slots.len(),
        slots[i].raw.n_values != slots[j].raw.n_values,
    ensures
        chunk::chunk_read(objs, slots, chunk, true) == Err::<Seq<ObjectModel>, _>(
            TdmsFault::Malformed(
                seq![
                    'i', 'n', 't', 'e', 'r', 'l', 'e', 'a', 'v', 'e', 'd', ' ', 'c', 'h', 'u', 'n',
                    'k', ' ', 'w', 'i', 't', 'h', ' ', 'm', 'i', 's', 'm', 'a', 't', 'c', 'h', 'e',
                    'd', ' ', 'n', '_', 'v', 'a', 'l', 'u', 'e', 's',
                ],
            ),
        ),
        chunk::chunk_left(objs, slots, chunk, true) == objs,
{
    reveal_strlit("interleaved chunk with mismatched n_values");
    assert("interleaved chunk with mismatched n_values"@ =~= seq![
        'i', 'n', 't', 'e', 'r', 'l', 'e', 'a', 'v', 'e', 'd', ' ', 'c', 'h', 'u', 'n', 'k', ' ',
        'w', 'i', 't', 'h', ' ', 'm', 'i', 's', 'm', 'a', 't', 'c', 'h', 'e', 'd', ' ', 'n', '_',
        'v', 'a', 'l', 'u', 'e', 's',
    ]);
    if chunk::same_counts(slots) {
        assert(slots[i].raw.n_values == slots[0].raw.n_values);
        assert(slots[j].raw.n_values == slots[0].raw.n_values);
    }
}

/// Segments are read in turn, each where the one before it ends, with the
/// objects and the list that it left; the first that cannot be read is the error
/// of the file.
pub proof fn law_segments_in_turn(
    bytes: Seq<u8>,
    pos: int,
    objs: Seq<ObjectModel>,
    before: Seq<int>,
)
    ensures
        pos >= bytes.len() ==> file::segments(bytes, pos, objs, before) == Ok::<_, TdmsFault>(
            (objs, before),
        ),
        pos < bytes.len() ==> match segment::segment_at(bytes, pos, objs, before) {
            Ok((after, list, end)) => file::segments(bytes, pos, objs, before) == file::segments(
                bytes,
                end,
                after,
                list,
            ),
            Err(e) => file::segments(bytes, pos, objs, before) == Err::<
                (Seq<ObjectModel>, Seq<int>),
                _,
            >(e),
        },
{
}

/// A segment without metadata declares nothing, and one without raw data reads
/// no samples, whatever else it holds.
pub proof fn law_marks_decide(
    bytes: Seq<u8>,
    start: int,
    objs: Seq<ObjectModel>,
    before: Seq<int>,
)
    requires
        segment::lead_in_fault(bytes, start) is None,
    ensures
        ({
            let toc = segment::toc_of(bytes, start);
            let r = segment::segment_at(bytes, start, objs, before);
            let ds = segment::declarations(bytes, start);
            &&& toc / 2 % 2 == 0 ==> ds.len() == 0
            &&& toc / 8 % 2 == 0 ==> match r {
                Ok((after, _, end)) => after == object::declared_all(objs, ds).0 && end
                    == segment::segment_end(bytes, start),
                Err(e) => segment::metadata(segment::body_of(bytes, start), toc, objs) == Err::<
                    (Seq<ObjectModel>, Seq<int>),
                    _,
                >(e),
            }
            &&& segment::metadata(segment::body_of(bytes, start), toc, objs) matches Err(e) ==> r
                == Err::<(Seq<ObjectModel>, Seq<int>, int), _>(e) && segment::segment_left(
                bytes,
                start,
                objs,
                before,
            ) == object::declared_all(objs, ds).0
        }),
{
    reveal(segment::segment_at);
    let toc = segment::toc_of(bytes, start);
    law_marks(toc);
    let buf = segment::body_of(bytes, start);
    match cursor::nat_at(buf, 24, 4) {
        Ok(n) => {
            law_declarations_read(buf, 28, n, segment::marked(toc, segment::DAQMX));
        },
        Err(_) => {},
    }
}

/// The bytes of a sample are just as many as its type takes; for the types of
/// one byte, the first of any number of them counts.
pub proof fn law_sample_sizes(code: u32, len: int)
    requires
        is_number_code(code),
    ensures
        code == 1 || code == 5 ==> chunk::fits(code, len) == (len >= 1),
        code == 2 || code == 6 ==> chunk::fits(code, len) == (len == 2),
        code == 3 || code == 7 || code == 9 ==> chunk::fits(code, len) == (len == 4),
        code == 4 || code == 8 || code == 10 ==> chunk::fits(code, len) == (len == 8),
{
}

/// Objects form a hierarchy exactly where the group of every channel is among
/// them. The first channel whose group is not is the error.
pub proof fn law_unknown_group(objs: Seq<ObjectModel>, k: int)
    requires
        0 <= k <= objs.len(),
        forall|i: int|
            0 <= i < k && (#[trigger] objs[i]).depth == 2 ==> naming::has_group(
                objs,
                file::group_of(objs[i]),
            ),
    ensures
        k == objs.len() ==> file::hierarchy(objs) is Ok,
        k < objs.len() && objs[k].depth == 2 && !naming::has_group(objs, file::group_of(objs[k]))
            ==> file::hierarchy(objs) == Err::<file::FileModel, _>(
            TdmsFault::Malformed(
                seq![
                    'c', 'h', 'a', 'n', 'n', 'e', 'l', ' ', 'u', 'n', 'd', 'e', 'r', ' ', 'u', 'n',
                    'k', 'n', 'o', 'w', 'n', ' ', 'g', 'r', 'o', 'u', 'p', ' ',
                ] + text::quoted(file::group_of(objs[k])),
            ),
        ),
{
    reveal_strlit("channel under unknown group ");
    assert("channel under unknown group "@ =~= seq![
        'c', 'h', 'a', 'n', 'n', 'e', 'l', ' ', 'u', 'n', 'd', 'e', 'r', ' ', 'u', 'n', 'k', 'n',
        'o', 'w', 'n', ' ', 'g', 'r', 'o', 'u', 'p', ' ',
    ]);
    let n = objs.len() as int;
    let groups = file::empty_groups(objs, n);
    lemma_groups_of(objs, n);
    lemma_filled_ok(objs, k);
    if k < n && objs[k].depth == 2 && !naming::has_group(objs, file::group_of(objs[k])) {
        let before = file::filled_groups(groups, objs, k)->Ok_0;
        let g = file::group_of(objs[k]);
        laws::lemma_group_named(before, g);
        if file::group_named(before, g) is Some {
            let i = file::group_named(before, g)->0;
            assert(groups[i].name == before[i].name);
        }
        file::lemma_filled_fault(groups, objs, k + 1, n);
    }
}

proof fn lemma_groups_of(objs: Seq<ObjectModel>, k: int)
    requires
        0 <= k <= objs.len(),
    ensures
        forall|i: int|
            0 <= i < k && (#[trigger] objs[i]).depth == 1 ==> exists|j: int|
                0 <= j < file::empty_groups(objs, k).len() && (#[trigger] file::empty_groups(
                    objs,
                    k,
                )[j]).name == objs[i].name,
        forall|j: int|
            0 <= j < file::empty_groups(objs, k).len() ==> naming::has_group(
                objs,
                (#[trigger] file::empty_groups(objs, k)[j]).name,
            ),
    decreases k,
{
    if k > 0 {
        lemma_groups_of(objs, k - 1);
        let before = file::empty_groups(objs, k - 1);
        let all = file::empty_groups(objs, k);
        assert forall|i: int| 0 <= i < k && (#[trigger] objs[i]).depth == 1 implies exists|j: int|
            0 <= j < all.len() && (#[trigger] all[j]).name == objs[i].name by {
            if i < k - 1 {
                let j = choose|j: int|
                    0 <= j < before.len() && (#[trigger] before[j]).name == objs[i].name;
                assert(all[j] == before[j]);
            } else {
                assert(all[before.len() as int].name == objs[i].name);
            }
        }
        assert forall|j: int| 0 <= j < all.len() implies naming::has_group(
            objs,
            (#[trigger] all[j]).name,
        ) by {
            if j < before.len() {
                assert(all[j] == before[j]);
            } else {
                assert(objs[k - 1].depth == 1 && objs[k - 1].name == all[j].name);
            }
        }
    }
}

proof fn lemma_filled_ok(objs: Seq<ObjectModel>, k: int)
    requires
        0 <= k <= objs.len(),
        forall|i: int|
            0 <= i < k && (#[trigger] objs[i]).depth == 2 ==> naming::has_group(
                objs,
                file::group_of(objs[i]),
            ),
    ensures
        ({
            let groups = file::empty_groups(objs, objs.len() as int);
            file::filled_groups(groups, objs, k) matches Ok(after) && after.len() == groups.len()
                && forall|j: int|
                0 <= j < groups.len() ==> (#[trigger] after[j]).name == groups[j].name
        }),
    decreases k,
{
    let groups = file::empty_groups(objs, objs.len() as int);
    if k > 0 {
        lemma_filled_ok(objs, k - 1);
        let before = file::filled_groups(groups, objs, k - 1)->Ok_0;
        if objs[k - 1].depth == 2 {
            let g = file::group_of(objs[k - 1]);
            assert(naming::has_group(objs, g));
            lemma_groups_of(objs, objs.len() as int);
            laws::lemma_group_named(before, g);
            let i = choose|i: int|
                0 <= i < objs.len() && (#[trigger] objs[i]).depth == 1 && objs[i].name == g;
            assert(objs[i].depth == 1);
            let j = choose|j: int| 0 <= j < groups.len() && (#[trigger] groups[j]).name == g;
            assert(before[j].name == g);
        }
    }
}

} // verus!
