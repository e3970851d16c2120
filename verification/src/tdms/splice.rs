//! Files one behind the other: the second is read with what the first left.

use super::cursor;
use super::file;
use super::object;
use super::object::ObjectModel;
use super::segment;
use vstd::prelude::*;

verus! {

/// Whether the segments from `pos` on say where they end, and the last one
/// ends with the file.
pub open spec fn closed(bytes: Seq<u8>, pos: int) -> bool
    decreases bytes.len() - pos,
{
    pos == bytes.len() || (0 <= pos && pos + segment::LEAD_IN <= bytes.len() && cursor::le_nat(
        bytes.subrange(pos + 12, pos + 20),
    ) != u64::MAX && segment::segment_end(bytes, pos) <= bytes.len() && closed(
        bytes,
        segment::segment_end(bytes, pos),
    ))
}

proof fn lemma_bytes(buf: Seq<u8>, more: Seq<u8>, pos: int, n: int)
    requires
        0 <= pos,
        0 <= n,
        cursor::bytes_at(buf, pos, n) is Ok,
    ensures
        cursor::bytes_at(buf + more, pos, n) == cursor::bytes_at(buf, pos, n),
{
    assert((buf + more).subrange(pos, pos + n) =~= buf.subrange(pos, pos + n));
}

proof fn lemma_nat(buf: Seq<u8>, more: Seq<u8>, pos: int, n: int)
    requires
        0 <= pos,
        0 <= n,
        cursor::nat_at(buf, pos, n) is Ok,
    ensures
        cursor::nat_at(buf + more, pos, n) == cursor::nat_at(buf, pos, n),
{
    lemma_bytes(buf, more, pos, n);
}

proof fn lemma_text(buf: Seq<u8>, more: Seq<u8>, pos: int)
    requires
        0 <= pos,
    ensures
        cursor::text_at(buf, pos) matches Ok((_, next)) ==> next >= pos && cursor::text_at(
            buf + more,
            pos,
        ) == cursor::text_at(buf, pos),
{
    if cursor::text_at(buf, pos) is Ok {
        lemma_nat(buf, more, pos, 4);
        let n = cursor::nat_at(buf, pos, 4)->Ok_0;
        lemma_bytes(buf, more, pos + 4, n as int);
    }
}

proof fn lemma_property(buf: Seq<u8>, more: Seq<u8>, pos: int, code: u32, path: Seq<char>)
    requires
        0 <= pos,
    ensures
        cursor::property_at(buf, pos, code, path) matches Ok((_, next)) ==> next >= pos
            && cursor::property_at(buf + more, pos, code, path) == cursor::property_at(
            buf,
            pos,
            code,
            path,
        ),
{
    if cursor::property_at(buf, pos, code, path) is Ok {
        if code == super::dtype::STRING {
            lemma_text(buf, more, pos);
        } else if code == super::dtype::TIMESTAMP {
            lemma_nat(buf, more, pos, 8);
            lemma_nat(buf, more, pos + 8, 8);
        } else {
            lemma_nat(buf, more, pos, cursor::property_width(code)->0);
        }
    }
}

proof fn lemma_raw_header(buf: Seq<u8>, more: Seq<u8>, pos: int, daqmx: bool, path: Seq<char>)
    requires
        0 <= pos,
    ensures
        object::raw_header_at(buf, pos, daqmx, path) matches Ok((_, next)) ==> next >= pos
            && object::raw_header_at(buf + more, pos, daqmx, path) == object::raw_header_at(
            buf,
            pos,
            daqmx,
            path,
        ),
{
    if object::raw_header_at(buf, pos, daqmx, path) is Ok {
        lemma_nat(buf, more, pos, 4);
        let h = cursor::nat_at(buf, pos, 4)->Ok_0;
        if h != object::HEADER_NO_DATA && h != object::HEADER_SAME && h
            != object::HEADER_DAQMX_FORMAT && h != object::HEADER_DAQMX_LINE {
            lemma_nat(buf, more, pos + 4, 4);
            lemma_nat(buf, more, pos + 8, 4);
            lemma_nat(buf, more, pos + 12, 8);
            if cursor::nat_at(buf, pos + 20, 8) is Ok {
                lemma_nat(buf, more, pos + 20, 8);
            }
        }
    }
}

proof fn lemma_properties(buf: Seq<u8>, more: Seq<u8>, pos: int, n: nat, path: Seq<char>)
    requires
        0 <= pos,
    ensures
        object::properties_at(buf, pos, n, path) matches Ok((_, next)) ==> next >= pos
            && object::properties_at(buf + more, pos, n, path) == object::properties_at(
            buf,
            pos,
            n,
            path,
        ),
    decreases n,
{
    if n > 0 && object::properties_at(buf, pos, n, path) is Ok {
        lemma_properties(buf, more, pos, (n - 1) as nat, path);
        let p = object::properties_at(buf, pos, (n - 1) as nat, path)->Ok_0.1;
        lemma_text(buf, more, p);
        let p1 = cursor::text_at(buf, p)->Ok_0.1;
        lemma_nat(buf, more, p1, 4);
        let code = cursor::nat_at(buf, p1, 4)->Ok_0;
        lemma_property(buf, more, p1 + 4, code as u32, path);
    }
}

proof fn lemma_decl(buf: Seq<u8>, more: Seq<u8>, pos: int, daqmx: bool)
    requires
        0 <= pos,
    ensures
        object::decl_at(buf, pos, daqmx) matches Ok((_, next)) ==> next >= pos && object::decl_at(
            buf + more,
            pos,
            daqmx,
        ) == object::decl_at(buf, pos, daqmx),
{
    if object::decl_at(buf, pos, daqmx) is Ok {
        lemma_text(buf, more, pos);
        let (path, p1) = cursor::text_at(buf, pos)->Ok_0;
        lemma_raw_header(buf, more, p1, daqmx, path);
        let p2 = object::raw_header_at(buf, p1, daqmx, path)->Ok_0.1;
        lemma_nat(buf, more, p2, 4);
        let n = cursor::nat_at(buf, p2, 4)->Ok_0;
        lemma_properties(buf, more, p2 + 4, n, path);
    }
}

proof fn lemma_decls(buf: Seq<u8>, more: Seq<u8>, pos: int, n: nat, daqmx: bool)
    requires
        0 <= pos,
    ensures
        object::decls_at(buf, pos, n, daqmx) matches Ok((_, next)) ==> next >= pos
            && object::decls_at(buf + more, pos, n, daqmx) == object::decls_at(
            buf,
            pos,
            n,
            daqmx,
        ),
    decreases n,
{
    if n > 0 && object::decls_at(buf, pos, n, daqmx) is Ok {
        lemma_decls(buf, more, pos, (n - 1) as nat, daqmx);
        let p = object::decls_at(buf, pos, (n - 1) as nat, daqmx)->Ok_0.1;
        lemma_decl(buf, more, p, daqmx);
    }
}

/// Metadata that can be read is read so, whatever follows it.
pub proof fn lemma_metadata_front(buf: Seq<u8>, more: Seq<u8>, toc: u32, objs: Seq<ObjectModel>)
    requires
        segment::metadata(buf, toc, objs) is Ok,
    ensures
        segment::metadata(buf + more, toc, objs) == segment::metadata(buf, toc, objs),
        segment::decls_of(buf + more, toc) == segment::decls_of(buf, toc),
{
    if segment::marked(toc, segment::META_DATA) {
        lemma_nat(buf, more, 24, 4);
        let n = cursor::nat_at(buf, 24, 4)->Ok_0;
        lemma_decls(buf, more, 28, n, segment::marked(toc, segment::DAQMX));
    }
}

/// A segment that says where it ends is read so, whatever follows it.
proof fn lemma_segment_front(
    a: Seq<u8>,
    b: Seq<u8>,
    start: int,
    objs: Seq<ObjectModel>,
    before: Seq<int>,
)
    requires
        0 <= start < a.len(),
        closed(a, start),
        segment::segment_at(a, start, objs, before) is Ok,
    ensures
        segment::segment_at(a + b, start, objs, before) == segment::segment_at(
            a,
            start,
            objs,
            before,
        ),
        segment::segment_at(a, start, objs, before)->Ok_0.2 == segment::segment_end(a, start),
{
    reveal(segment::segment_at);
    let all = a + b;
    assert(all.subrange(start, start + 4) =~= a.subrange(start, start + 4));
    assert(all.subrange(start + 4, start + 8) =~= a.subrange(start + 4, start + 8));
    assert(all.subrange(start + 12, start + 20) =~= a.subrange(start + 12, start + 20));
    assert(all.subrange(start + 20, start + 28) =~= a.subrange(start + 20, start + 28));
    assert(segment::body_of(all, start) =~= segment::body_of(a, start) + b);
    let toc = segment::toc_of(a, start);
    lemma_metadata_front(segment::body_of(a, start), b, toc, objs);
    let from = segment::raw_start(a, start);
    let to = segment::segment_end(a, start);
    if from <= to {
        assert(all.subrange(from, to) =~= a.subrange(from, to));
    }
}

/// A segment is read behind another file as it is in its own.
#[verifier::spinoff_prover]
#[verifier::rlimit(60)]
proof fn lemma_segment_behind(
    a: Seq<u8>,
    b: Seq<u8>,
    start: int,
    objs: Seq<ObjectModel>,
    before: Seq<int>,
)
    requires
        0 <= start < b.len(),
    ensures
        match segment::segment_at(b, start, objs, before) {
            Ok((after, list, end)) => segment::segment_at(a + b, a.len() + start, objs, before)
                == Ok::<_, super::error::TdmsFault>((after, list, a.len() + end)),
            Err(_) => segment::segment_at(a + b, a.len() + start, objs, before) is Err,
        },
{
    reveal(segment::segment_at);
    let all = a + b;
    let at = a.len() + start;
    if start + 28 <= b.len() {
        assert(all.subrange(at, at + 4) =~= b.subrange(start, start + 4));
        assert(all.subrange(at + 4, at + 8) =~= b.subrange(start + 4, start + 8));
        assert(all.subrange(at + 12, at + 20) =~= b.subrange(start + 12, start + 20));
        assert(all.subrange(at + 20, at + 28) =~= b.subrange(start + 20, start + 28));
        assert(segment::body_of(all, at) =~= segment::body_of(b, start));
        let from = segment::raw_start(b, start);
        let to = segment::segment_end(b, start);
        if from <= to && to <= b.len() {
            assert(all.subrange(a.len() + from, a.len() + to) =~= b.subrange(from, to));
        }
    }
}

proof fn lemma_segments_behind(
    a: Seq<u8>,
    b: Seq<u8>,
    pos: int,
    objs: Seq<ObjectModel>,
    before: Seq<int>,
)
    requires
        0 <= pos,
    ensures
        match file::segments(b, pos, objs, before) {
            Ok(r) => file::segments(a + b, a.len() + pos, objs, before) == Ok::<
                _,
                super::error::TdmsFault,
            >(r),
            Err(_) => file::segments(a + b, a.len() + pos, objs, before) is Err,
        },
    decreases
            (if pos < b.len() {
                b.len() - pos
            } else {
                0
            }),
{
    if pos < b.len() {
        segment::lemma_segment_advances(b, pos, objs, before);
        lemma_segment_behind(a, b, pos, objs, before);
        match segment::segment_at(b, pos, objs, before) {
            Err(_) => {},
            Ok((after, list, end)) => {
                lemma_segments_behind(a, b, end, after, list);
            },
        }
    }
}

/// A file behind a closed one is read with what the closed one left: the two
/// can be read where the second can be read so, and give what it gives.
pub proof fn law_read_on(
    a: Seq<u8>,
    b: Seq<u8>,
    pos: int,
    objs: Seq<ObjectModel>,
    before: Seq<int>,
)
    requires
        0 <= pos <= a.len(),
        closed(a, pos),
        file::segments(a, pos, objs, before) is Ok,
    ensures
        ({
            let (left, list) = file::segments(a, pos, objs, before)->Ok_0;
            match file::segments(b, 0, left, list) {
                Ok(r) => file::segments(a + b, pos, objs, before) == Ok::<
                    _,
                    super::error::TdmsFault,
                >(r),
                Err(_) => file::segments(a + b, pos, objs, before) is Err,
            }
        }),
    decreases a.len() - pos,
{
    if pos == a.len() {
        lemma_segments_behind(a, b, 0, objs, before);
    } else {
        lemma_segment_front(a, b, pos, objs, before);
        segment::lemma_segment_advances(a, pos, objs, before);
        let (after, list, end) = segment::segment_at(a, pos, objs, before)->Ok_0;
        law_read_on(a, b, end, after, list);
    }
}

} // verus!
