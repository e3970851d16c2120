//! One segment of a file: lead-in, metadata, raw data.

use super::chunk;
use super::chunk::{Slot, SlotModel};
use super::cursor;
use super::cursor::Cursor;
use super::error::{TdmsError, TdmsFault};
use super::history;
use super::object;
use super::object::{DeclModel, Declared, ObjectModel, ObjectState, RawHeader};
use super::order;
use super::path;
use crate::text;
use vstd::prelude::*;

verus! {

/// Bytes of a segment's lead-in.
pub const LEAD_IN: usize = 28;

/// Marks of a segment's table of contents: metadata is present.
pub const META_DATA: u32 = 0x2;

/// The segment lists the objects of its raw data itself.
pub const NEW_OBJ_LIST: u32 = 0x4;

/// Raw data is present.
pub const RAW_DATA: u32 = 0x8;

/// The raw data is interleaved.
pub const INTERLEAVED: u32 = 0x20;

/// Numbers are big-endian.
pub const BIG_ENDIAN: u32 = 0x40;

/// The raw data is DAQmx data.
pub const DAQMX: u32 = 0x80;

/// Whether a table of contents has a mark.
pub open spec fn marked(toc: u32, mark: u32) -> bool {
    toc & mark != 0
}

/// The tag that starts a segment: `TDSm`.
pub open spec fn tag() -> Seq<u8> {
    seq![0x54u8, 0x44u8, 0x53u8, 0x6Du8]
}

/// The table of contents of the segment at `start`.
pub open spec fn toc_of(bytes: Seq<u8>, start: int) -> u32 {
    cursor::le_nat(bytes.subrange(start + 4, start + 8)) as u32
}

/// Where the segment ends. An offset of all ones marks a file that was not
/// closed: the segment takes the rest of it.
pub open spec fn segment_end(bytes: Seq<u8>, start: int) -> int {
    let offset = cursor::le_nat(bytes.subrange(start + 12, start + 20));
    if offset == u64::MAX {
        bytes.len() as int
    } else {
        start + LEAD_IN + offset
    }
}

/// Where the raw data of the segment starts.
pub open spec fn raw_start(bytes: Seq<u8>, start: int) -> int {
    start + LEAD_IN + cursor::le_nat(bytes.subrange(start + 20, start + 28))
}

/// The objects once the metadata of a segment is read, and the places of those
/// that it lists as having raw data. `buf` is what follows the segment's tag.
pub open spec fn metadata(buf: Seq<u8>, toc: u32, objs: Seq<ObjectModel>) -> Result<
    (Seq<ObjectModel>, Seq<int>),
    TdmsFault,
> {
    if marked(toc, META_DATA) {
        match cursor::nat_at(buf, 24, 4) {
            Err(e) => Err(e),
            Ok(n) => match object::decls_at(buf, 28, n, marked(toc, DAQMX)) {
                Err(e) => Err(e),
                Ok((ds, _)) => Ok(object::declared_all(objs, ds)),
            },
        }
    } else {
        Ok((objs, Seq::empty()))
    }
}

/// The size of a chunk, as far as 128 bits can tell it.
pub open spec fn chunk_size(slots: Seq<SlotModel>) -> int {
    let size = chunk::offset(slots, slots.len() as int);
    if size > u128::MAX {
        u128::MAX as int
    } else {
        size
    }
}

/// The text of the error on a raw section that does not lie inside the file.
pub open spec fn bounds_text(from: int, to: int, len: int) -> Seq<char> {
    "raw section out of bounds: "@ + text::decimal(from as nat) + ".."@ + text::decimal(to as nat)
        + ", file len "@ + text::decimal(len as nat)
}

/// The text of the error on a raw section that is no row of whole chunks.
pub open spec fn size_text(len: int, size: int) -> Seq<char> {
    "raw section size "@ + text::decimal(len as nat) + " not a multiple of chunk size "@
        + text::decimal(size as nat)
}

/// What is wrong with a raw section between two positions of a file of `len`
/// bytes: it lies outside, or is no row of whole chunks.
pub open spec fn section_fault(from: int, to: int, len: int, size: int) -> Option<TdmsFault> {
    if to < from || to > len {
        Some(TdmsFault::Malformed(bounds_text(from, to, len)))
    } else if size != 0 && (to - from) % size != 0 {
        Some(TdmsFault::Malformed(size_text(to - from, size)))
    } else {
        None
    }
}

/// The objects once the raw section between two positions is read.
pub open spec fn raw_section(
    bytes: Seq<u8>,
    from: int,
    to: int,
    is_interleaved: bool,
    objs: Seq<ObjectModel>,
    list: Seq<int>,
) -> Result<Seq<ObjectModel>, TdmsFault> {
    let slots = order::slots_of(objs, list);
    let size = chunk_size(slots);
    match section_fault(from, to, bytes.len() as int, size) {
        Some(e) => Err(e),
        None => if size == 0 {
            Ok(objs)
        } else {
            chunk::chunks_read(
                objs,
                slots,
                bytes.subrange(from, to),
                size,
                is_interleaved,
                (to - from) / size,
            )
        },
    }
}

/// The objects that the raw section between two positions leaves, whether or
/// not it can be read.
pub open spec fn section_left(
    bytes: Seq<u8>,
    from: int,
    to: int,
    is_interleaved: bool,
    objs: Seq<ObjectModel>,
    list: Seq<int>,
) -> Seq<ObjectModel> {
    match raw_section(bytes, from, to, is_interleaved, objs, list) {
        Ok(after) => after,
        Err(_) => {
            let slots = order::slots_of(objs, list);
            let size = chunk_size(slots);
            if section_fault(from, to, bytes.len() as int, size) is Some {
                objs
            } else {
                chunk::chunk_left(
                    objs,
                    slots,
                    bytes.subrange(from, to).subrange(0, size),
                    is_interleaved,
                )
            }
        },
    }
}

/// What follows the tag of the segment at `start`.
pub open spec fn body_of(bytes: Seq<u8>, start: int) -> Seq<u8> {
    bytes.subrange(start + 4, bytes.len() as int)
}

/// The declarations in the metadata of a segment, up to the first that cannot
/// be read. `buf` is what follows the segment's tag.
pub open spec fn decls_of(buf: Seq<u8>, toc: u32) -> Seq<DeclModel> {
    if marked(toc, META_DATA) {
        match cursor::nat_at(buf, 24, 4) {
            Err(_) => Seq::empty(),
            Ok(n) => object::decls_read(buf, 28, n, marked(toc, DAQMX)),
        }
    } else {
        Seq::empty()
    }
}

/// The declarations in the metadata of the segment at `pos`.
pub open spec fn declarations(bytes: Seq<u8>, pos: int) -> Seq<DeclModel> {
    decls_of(body_of(bytes, pos), toc_of(bytes, pos))
}

/// The places of the objects in the raw data of the segment at `start`, once
/// its metadata is read. `before` are those of the segment before it, `listed`
/// those that it lists itself.
pub open spec fn list_of(
    bytes: Seq<u8>,
    start: int,
    known: Seq<ObjectModel>,
    before: Seq<int>,
    listed: Seq<int>,
) -> Seq<int> {
    order::active(
        marked(toc_of(bytes, start), NEW_OBJ_LIST),
        known,
        before,
        listed,
        object::silent_paths(declarations(bytes, start)),
    )
}

/// What is wrong with the lead-in at `start`: it is cut short, has another
/// tag, or is big-endian.
pub open spec fn lead_in_fault(bytes: Seq<u8>, start: int) -> Option<TdmsFault> {
    if start + LEAD_IN > bytes.len() {
        Some(TdmsFault::Eof(start))
    } else if bytes.subrange(start, start + 4) != tag() {
        Some(TdmsFault::BadTag(start, bytes.subrange(start, start + 4)))
    } else if marked(toc_of(bytes, start), BIG_ENDIAN) {
        Some(TdmsFault::BigEndianNotSupported)
    } else {
        None
    }
}

/// The objects once the segment at `start` is read, the places of those in its
/// raw data, and where it ends. `before` are the places of those in the raw
/// data of the segment before it.
#[verifier::opaque]
pub open spec fn segment_at(
    bytes: Seq<u8>,
    start: int,
    objs: Seq<ObjectModel>,
    before: Seq<int>,
) -> Result<(Seq<ObjectModel>, Seq<int>, int), TdmsFault> {
    match lead_in_fault(bytes, start) {
        Some(e) => Err(e),
        None => {
            let toc = toc_of(bytes, start);
            let end = segment_end(bytes, start);
            match metadata(body_of(bytes, start), toc, objs) {
                Err(e) => Err(e),
                Ok((known, listed)) => {
                    let list = list_of(bytes, start, known, before, listed);
                    if marked(toc, RAW_DATA) && list.len() > 0 {
                        match raw_section(
                            bytes,
                            raw_start(bytes, start),
                            end,
                            marked(toc, INTERLEAVED),
                            known,
                            list,
                        ) {
                            Err(e) => Err(e),
                            Ok(filled) => Ok((filled, list, end)),
                        }
                    } else {
                        Ok((known, list, end))
                    }
                },
            }
        },
    }
}

/// The objects that the segment at `start` leaves, whether or not it can be
/// read: as they were, where its lead-in is wrong; with the declarations before
/// the wrong one, where its metadata is; with its declarations, where its raw
/// section is no row of whole chunks inside the file; and with the samples
/// before the refused one, where a channel's are refused.
pub open spec fn segment_left(
    bytes: Seq<u8>,
    start: int,
    objs: Seq<ObjectModel>,
    before: Seq<int>,
) -> Seq<ObjectModel> {
    if lead_in_fault(bytes, start) is Some {
        objs
    } else {
        let toc = toc_of(bytes, start);
        match metadata(body_of(bytes, start), toc, objs) {
            Err(_) => object::declared_all(objs, declarations(bytes, start)).0,
            Ok((known, listed)) => {
                let list = list_of(bytes, start, known, before, listed);
                if marked(toc, RAW_DATA) && list.len() > 0 {
                    section_left(
                        bytes,
                        raw_start(bytes, start),
                        segment_end(bytes, start),
                        marked(toc, INTERLEAVED),
                        known,
                        list,
                    )
                } else {
                    known
                }
            },
        }
    }
}

/// Whether no sample of the segment at `start` is read: its lead-in, its
/// metadata or the bounds of its raw section are wrong.
pub open spec fn unread(
    bytes: Seq<u8>,
    start: int,
    objs: Seq<ObjectModel>,
    before: Seq<int>,
) -> bool {
    lead_in_fault(bytes, start) is Some || match metadata(
        body_of(bytes, start),
        toc_of(bytes, start),
        objs,
    ) {
        Err(_) => true,
        Ok((known, listed)) => {
            let list = list_of(bytes, start, known, before, listed);
            marked(toc_of(bytes, start), RAW_DATA) && list.len() > 0 && section_fault(
                raw_start(bytes, start),
                segment_end(bytes, start),
                bytes.len() as int,
                chunk_size(order::slots_of(known, list)),
            ) is Some
        },
    }
}

/// Whether every layout that the declarations give has the width of its type.
pub open spec fn decl_layouts_ok(ds: Seq<DeclModel>) -> bool {
    forall|k: int|
        0 <= k < ds.len() ==> match (#[trigger] ds[k]).raw {
            RawHeader::Index(r) => object::raw_width(r.data_type) == Some(
                r.bytes_per_value as int,
            ),
            _ => true,
        }
}

proof fn lemma_decls_layouts(buf: Seq<u8>, pos: int, n: nat, daqmx: bool)
    ensures
        object::decls_at(buf, pos, n, daqmx) matches Ok((ds, _)) ==> decl_layouts_ok(ds),
    decreases n,
{
    if n > 0 {
        lemma_decls_layouts(buf, pos, (n - 1) as nat, daqmx);
    }
}

proof fn lemma_declared_layouts(objs: Seq<ObjectModel>, d: DeclModel)
    requires
        order::layouts_ok(objs),
        decl_layouts_ok(seq![d]),
    ensures
        order::layouts_ok(object::declared(objs, d).0),
        object::declared(objs, d).0.len() >= objs.len(),
        forall|i: int|
            0 <= i < objs.len() && (#[trigger] objs[i]).last_raw is Some ==> object::declared(
                objs,
                d,
            ).0[i].last_raw is Some,
        object::declared(objs, d).1 matches Some(i) ==> 0 <= i < object::declared(objs, d).0.len()
            && object::declared(objs, d).0[i].last_raw is Some,
{
    assert(seq![d][0] == d);
    object::lemma_find(objs, d.path);
    match d.parent {
        Some(g) => {
            object::lemma_find(objs, object::implied_group(g).path);
        },
        None => {},
    }
    let grouped = object::with_group(objs, d);
    object::lemma_find(grouped, d.path);
}

proof fn lemma_declared_all_layouts(objs: Seq<ObjectModel>, ds: Seq<DeclModel>)
    requires
        order::layouts_ok(objs),
        decl_layouts_ok(ds),
    ensures
        order::layouts_ok(object::declared_all(objs, ds).0),
        order::order_ok(object::declared_all(objs, ds).0, object::declared_all(objs, ds).1),
    decreases ds.len(),
{
    if ds.len() > 0 {
        let rest = ds.drop_last();
        assert forall|k: int| 0 <= k < rest.len() implies match (#[trigger] rest[k]).raw {
            RawHeader::Index(r) => object::raw_width(r.data_type) == Some(
                r.bytes_per_value as int,
            ),
            _ => true,
        } by {
            assert(rest[k] == ds[k]);
        }
        lemma_declared_all_layouts(objs, rest);
        let (before, known) = object::declared_all(objs, rest);
        assert(ds[ds.len() - 1] == ds.last());
        assert(decl_layouts_ok(seq![ds.last()]));
        lemma_declared_layouts(before, ds.last());
        let (after, list) = object::declared_all(objs, ds);
        assert forall|k: int| 0 <= k < list.len() implies 0 <= #[trigger] list[k] < after.len()
            && after[list[k]].last_raw is Some by {
            if k < known.len() {
                assert(list[k] == known[k]);
                assert(before[known[k]].last_raw is Some);
            }
        }
    }
}

/// Metadata keeps the layouts sound, and what it lists, and what was listed
/// before, can be read.
pub proof fn lemma_metadata(buf: Seq<u8>, toc: u32, objs: Seq<ObjectModel>, before: Seq<int>)
    requires
        order::layouts_ok(objs),
        order::order_ok(objs, before),
    ensures
        metadata(buf, toc, objs) matches Ok((known, listed)) ==> order::layouts_ok(known)
            && order::order_ok(known, listed) && order::order_ok(known, before),
{
    if marked(toc, META_DATA) {
        match cursor::nat_at(buf, 24, 4) {
            Err(_) => {},
            Ok(n) => {
                lemma_decls_layouts(buf, 28, n, marked(toc, DAQMX));
                match object::decls_at(buf, 28, n, marked(toc, DAQMX)) {
                    Err(_) => {},
                    Ok((ds, _)) => {
                        lemma_declared_all_layouts(objs, ds);
                        history::lemma_declared_all_continues(objs, ds);
                        history::lemma_order_continues(
                            objs,
                            object::declared_all(objs, ds).0,
                            before,
                        );
                    },
                }
            },
        }
    }
}

/// The declarations that are read, of metadata that can be read or not, keep
/// the layouts sound.
pub proof fn lemma_decls_of(buf: Seq<u8>, toc: u32, objs: Seq<ObjectModel>)
    requires
        order::layouts_ok(objs),
    ensures
        order::layouts_ok(object::declared_all(objs, decls_of(buf, toc)).0),
{
    let ds = decls_of(buf, toc);
    if marked(toc, META_DATA) {
        match cursor::nat_at(buf, 24, 4) {
            Err(_) => {},
            Ok(n) => {
                lemma_decls_read_layouts(buf, 28, n, marked(toc, DAQMX));
            },
        }
    }
    lemma_declared_all_layouts(objs, ds);
}

proof fn lemma_decls_read_layouts(buf: Seq<u8>, pos: int, n: nat, daqmx: bool)
    ensures
        decl_layouts_ok(object::decls_read(buf, pos, n, daqmx)),
    decreases n,
{
    if n > 0 {
        lemma_decls_read_layouts(buf, pos, (n - 1) as nat, daqmx);
        lemma_decls_layouts(buf, pos, (n - 1) as nat, daqmx);
        lemma_decls_layouts(buf, pos, n, daqmx);
    }
}

/// Metadata keeps what is known of every object.
pub proof fn lemma_metadata_continues(buf: Seq<u8>, toc: u32, objs: Seq<ObjectModel>)
    ensures
        metadata(buf, toc, objs) matches Ok((known, _)) ==> history::continues(objs, known) && (
        order::paths_distinct(objs) ==> order::paths_distinct(known)),
{
    if marked(toc, META_DATA) {
        match cursor::nat_at(buf, 24, 4) {
            Err(_) => {},
            Ok(n) => match object::decls_at(buf, 28, n, marked(toc, DAQMX)) {
                Err(_) => {},
                Ok((ds, _)) => {
                    history::lemma_declared_all_continues(objs, ds);
                },
            },
        }
    }
}

/// A segment ends behind its start.
pub proof fn lemma_segment_advances(
    bytes: Seq<u8>,
    start: int,
    objs: Seq<ObjectModel>,
    before: Seq<int>,
)
    ensures
        segment_at(bytes, start, objs, before) matches Ok((_, _, end)) ==> end > start,
{
    reveal(segment_at);
}

fn bounds_message(from: u128, to: u128, len: usize) -> (r: String)
    ensures
        r@ == bounds_text(from as int, to as int, len as int),
{
    let mut out: String = "raw section out of bounds: ".to_owned();
    text::push_decimal(&mut out, from);
    text::push_text(&mut out, "..");
    text::push_decimal(&mut out, to);
    text::push_text(&mut out, ", file len ");
    text::push_decimal(&mut out, len as u128);
    out
}

fn size_message(len: usize, size: u128) -> (r: String)
    ensures
        r@ == size_text(len as int, size as int),
{
    let mut out: String = "raw section size ".to_owned();
    text::push_decimal(&mut out, len as u128);
    text::push_text(&mut out, " not a multiple of chunk size ");
    text::push_decimal(&mut out, size);
    out
}

fn total_size(slots: &Vec<Slot>) -> (r: u128)
    ensures
        r == chunk_size(chunk::slot_models(slots@)),
{
    let ghost sm = chunk::slot_models(slots@);
    let mut sum: u128 = 0;
    for k in 0..slots.len()
        invariant
            sm == chunk::slot_models(slots@),
            sum == if chunk::offset(sm, k as int) > u128::MAX {
                u128::MAX as int
            } else {
                chunk::offset(sm, k as int)
            },
    {
        assert(sm[k as int] == slots@[k as int]@);
        let width: u128 = slots[k].raw.bytes_per_value as u128;
        let count: u128 = slots[k].raw.n_values as u128;
        assert(0 <= width * count <= u128::MAX) by (nonlinear_arith)
            requires
                0 <= width <= u64::MAX,
                0 <= count <= u64::MAX,
        ;
        sum = sum.saturating_add(width * count);
    }
    sum
}

fn read_raw_section(
    bytes: &[u8],
    from: u128,
    to: u128,
    is_interleaved: bool,
    objects: &mut Vec<ObjectState>,
    list: &Vec<usize>,
) -> (r: Result<(), TdmsError>)
    requires
        list@.len() > 0,
        order::layouts_ok(object::models(old(objects)@)),
        order::order_ok(object::models(old(objects)@), object::places(list@)),
        object::all_wf(old(objects)@),
    ensures
        object::all_wf(final(objects)@),
        history::only_samples(object::models(old(objects)@), object::models(final(objects)@)),
        object::models(final(objects)@) == section_left(
            bytes@,
            from as int,
            to as int,
            is_interleaved,
            object::models(old(objects)@),
            object::places(list@),
        ),
        match raw_section(
            bytes@,
            from as int,
            to as int,
            is_interleaved,
            object::models(old(objects)@),
            object::places(list@),
        ) {
            Ok(_) => r is Ok,
            Err(e) => r matches Err(x) && x@ == e,
        },
{
    let ghost objs = object::models(objects@);
    let slots: Vec<Slot> = order::make_slots(objects, list);
    let ghost sm = chunk::slot_models(slots@);
    let len: usize = bytes.len();
    if to < from || to > len as u128 {
        return Err(TdmsError::Malformed(bounds_message(from, to, len)));
    }
    let data: &[u8] = vstd::slice::slice_subrange(bytes, from as usize, to as usize);
    let size: u128 = total_size(&slots);
    if size == 0 {
        return Ok(());
    }
    let data_len: usize = data.len();
    if data_len as u128 % size != 0 {
        return Err(TdmsError::Malformed(size_message(data_len, size)));
    }
    if data_len == 0 {
        assert(0int / (size as int) == 0) by (nonlinear_arith)
            requires
                size > 0,
        ;
        return Ok(());
    }
    proof {
        if data_len < size {
            vstd::arithmetic::div_mod::lemma_small_mod(data_len as nat, size as nat);
        }
        order::lemma_slots_wf(objs, object::places(list@));
    }
    chunk::read_chunks(data, size as usize, is_interleaved, &slots, objects)
}

/// What a segment leaves for the next one.
#[derive(Debug)]
pub struct ParsedSegment {
    /// Where the next segment starts; behind the end of the file where there
    /// is none.
    pub next_pos: u128,
    /// The places of the objects in the segment's raw data.
    pub active: Vec<usize>,
}

/// The fields of a lead-in.
#[derive(Debug, Clone, Copy, PartialEq, Eq, Structural)]
struct LeadIn {
    toc: u32,
    raw_from: u128,
    end: u128,
}

fn read_lead_in(bytes: &[u8], start: usize) -> (r: Result<LeadIn, TdmsError>)
    ensures
        match lead_in_fault(bytes@, start as int) {
            Some(e) => r matches Err(x) && x@ == e,
            None => r matches Ok(l) && l.toc == toc_of(bytes@, start as int) && l.raw_from
                == raw_start(bytes@, start as int) && l.end == segment_end(bytes@, start as int)
                && start + LEAD_IN <= bytes@.len(),
        },
{
    let len: usize = bytes.len();
    if start > len || len - start < LEAD_IN {
        return Err(TdmsError::Eof(start));
    }
    let ghost found = bytes@.subrange(start as int, start + 4);
    let t: [u8; 4] = [bytes[start], bytes[start + 1], bytes[start + 2], bytes[start + 3]];
    assert(t@ =~= found);
    if t[0] != 0x54 || t[1] != 0x44 || t[2] != 0x53 || t[3] != 0x6D {
        assert(found[0] == t[0] && found[1] == t[1] && found[2] == t[2] && found[3] == t[3]);
        return Err(TdmsError::BadTag(start, t));
    }
    assert(found =~= tag());
    let body: &[u8] = vstd::slice::slice_subrange(bytes, start + 4, len);
    let mut c: Cursor = Cursor::new(body);
    proof {
        assert(body@.subrange(0, 4) =~= bytes@.subrange(start + 4, start + 8));
        assert(body@.subrange(8, 16) =~= bytes@.subrange(start + 12, start + 20));
        assert(body@.subrange(16, 24) =~= bytes@.subrange(start + 20, start + 28));
    }
    let toc: u32 = c.read_u32()?;
    let _version: u32 = c.read_u32()?;
    let next_offset: u64 = c.read_u64()?;
    let raw_offset: u64 = c.read_u64()?;
    if toc & BIG_ENDIAN != 0 {
        return Err(TdmsError::BigEndianNotSupported);
    }
    let lead_in_end: u128 = (start + LEAD_IN) as u128;
    let end: u128 = if next_offset == u64::MAX {
        len as u128
    } else {
        lead_in_end + next_offset as u128
    };
    Ok(LeadIn { toc, raw_from: lead_in_end + raw_offset as u128, end })
}

/// Reads the metadata of a segment, where it has some. `body` is what follows
/// the segment's tag.
fn read_metadata(body: &[u8], toc: u32, objects: &mut Vec<ObjectState>) -> (r: Result<
    Declared,
    TdmsError,
>)
    requires
        body@.len() >= 24,
        object::all_wf(old(objects)@),
    ensures
        object::all_wf(final(objects)@),
        object::models(final(objects)@) == object::declared_all(
            object::models(old(objects)@),
            decls_of(body@, toc),
        ).0,
        match metadata(body@, toc, object::models(old(objects)@)) {
            Ok((known, listed)) => (r matches Ok(d) && object::places(d.listed@) == listed
                && path::views(d.silent@).to_set() == object::silent_paths(decls_of(body@, toc)))
                && object::models(final(objects)@) == known,
            Err(e) => r matches Err(x) && x@ == e,
        },
{
    if toc & META_DATA != 0 {
        let mut c: Cursor = Cursor { buf: body, pos: 24 };
        let n: u32 = c.read_u32()?;
        object::read_objects(&mut c, n, toc & DAQMX != 0, objects)
    } else {
        let none = Declared { listed: Vec::new(), silent: Vec::new() };
        assert(object::places(none.listed@) =~= Seq::empty());
        assert(path::views(none.silent@).to_set() =~= Set::empty());
        Ok(none)
    }
}

/// Reads the segment at `start`. `before` are the places of the objects in the
/// raw data of the segment before it. Also where it cannot be read, every
/// object that was known is kept, with its samples; where its lead-in, its
/// metadata or the bounds of its raw section are wrong, none are added.
pub fn parse_segment(
    bytes: &[u8],
    start: usize,
    objects: &mut Vec<ObjectState>,
    before: &Vec<usize>,
) -> (r: Result<ParsedSegment, TdmsError>)
    requires
        order::layouts_ok(object::models(old(objects)@)),
        order::order_ok(object::models(old(objects)@), object::places(before@)),
        object::all_wf(old(objects)@),
    ensures
        object::all_wf(final(objects)@),
        object::models(final(objects)@) == segment_left(
            bytes@,
            start as int,
            object::models(old(objects)@),
            object::places(before@),
        ),
        history::continues(object::models(old(objects)@), object::models(final(objects)@)),
        unread(
            bytes@,
            start as int,
            object::models(old(objects)@),
            object::places(before@),
        ) ==> history::same_samples(
            object::models(old(objects)@),
            object::models(final(objects)@),
        ),
        match segment_at(
            bytes@,
            start as int,
            object::models(old(objects)@),
            object::places(before@),
        ) {
            Ok((after, list, end)) => (r matches Ok(p) && p.next_pos == end && object::places(
                p.active@,
            ) == list) && object::models(final(objects)@) == after,
            Err(e) => r matches Err(x) && x@ == e,
        },
{
    let ghost objs = object::models(objects@);
    let ghost was = object::places(before@);
    proof {
        reveal(segment_at);
        history::law_segment_left(bytes@, start as int, objs, was);
    }
    let lead: LeadIn = read_lead_in(bytes, start)?;
    let toc: u32 = lead.toc;
    let len: usize = bytes.len();
    let body: &[u8] = vstd::slice::slice_subrange(bytes, start + 4, len);
    proof {
        lemma_metadata(body@, toc, objs, was);
    }
    let declared: Declared = read_metadata(body, toc, objects)?;
    let ghost known = object::models(objects@);
    proof {
        order::lemma_active_ok(
            marked(toc, NEW_OBJ_LIST),
            known,
            was,
            object::places(declared.listed@),
            path::views(declared.silent@).to_set(),
        );
    }
    let list: Vec<usize> = order::active_list(
        toc & NEW_OBJ_LIST != 0,
        objects,
        before,
        declared.listed,
        &declared.silent,
    );
    if toc & RAW_DATA != 0 && list.len() > 0 {
        read_raw_section(
            bytes,
            lead.raw_from,
            lead.end,
            toc & INTERLEAVED != 0,
            objects,
            &list,
        )?;
    }
    Ok(ParsedSegment { next_pos: lead.end, active: list })
}

} // verus!
