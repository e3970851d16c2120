//! Whole files as they are written, and what is read of them: every channel
//! comes back with its own samples and properties.

use super::chunk;
use super::chunk::SlotModel;
use super::cursor;
use super::error::TdmsFault;
use super::file;
use super::file::ChannelModel;
use super::history;
use super::laws;
use super::naming;
use super::object;
use super::object::{DeclModel, ObjectModel, RawDataIndex, RawHeader};
use super::order;
use super::path;
use super::segment;
use super::value::{PropertyModel, Scalar};
use super::written;
use super::written::{Declaration, Stored};
use vstd::prelude::*;

verus! {

/// The metadata of a segment: how many declarations, and these.
pub open spec fn metadata_bytes(ds: Seq<Declaration>) -> Seq<u8> {
    written::le(ds.len(), 4) + written::declarations_bytes(ds)
}

/// The lead-in of a segment: the tag, the table of contents, a version, how far
/// behind the lead-in the next segment and the raw data are.
pub open spec fn lead_in_bytes(toc: u32, version: u32, next: nat, raw: nat) -> Seq<u8> {
    seq![0x54u8, 0x44u8, 0x53u8, 0x6Du8] + (written::le(toc as nat, 4) + (written::le(
        version as nat,
        4,
    ) + (written::le(next, 8) + written::le(raw, 8))))
}

/// A segment with metadata and raw data.
pub open spec fn segment_bytes(toc: u32, version: u32, ds: Seq<Declaration>, data: Seq<u8>) -> Seq<
    u8,
> {
    let m = metadata_bytes(ds);
    lead_in_bytes(toc, version, m.len() + data.len(), m.len()) + (m + data)
}

proof fn lemma_lead_in_len(toc: u32, version: u32, next: nat, raw: nat)
    requires
        next < 0xFFFF_FFFF_FFFF_FFFF,
        raw <= next,
    ensures
        lead_in_bytes(toc, version, next, raw).len() == 28,
{
    written::lemma_patterns();
    written::law_number_written(toc as nat, 4);
    written::law_number_written(version as nat, 4);
    written::law_number_written(next, 8);
    written::law_number_written(raw, 8);
}

/// The lead-in of a segment is read back as it was written.
pub proof fn law_lead_in_written(
    bytes: Seq<u8>,
    start: int,
    toc: u32,
    version: u32,
    next: nat,
    raw: nat,
)
    requires
        next < 0xFFFF_FFFF_FFFF_FFFF,
        raw <= next,
        toc & 0x40 == 0,
        written::holds(bytes, start, lead_in_bytes(toc, version, next, raw)),
    ensures
        segment::lead_in_fault(bytes, start) is None,
        segment::toc_of(bytes, start) == toc,
        segment::segment_end(bytes, start) == start + 28 + next,
        segment::raw_start(bytes, start) == start + 28 + raw,
{
    written::lemma_patterns();
    lemma_lead_in_len(toc, version, next, raw);
    written::law_number_written(toc as nat, 4);
    written::law_number_written(version as nat, 4);
    written::law_number_written(next, 8);
    written::law_number_written(raw, 8);
    let t = seq![0x54u8, 0x44u8, 0x53u8, 0x6Du8];
    let a = written::le(toc as nat, 4);
    let b = written::le(version as nat, 4);
    let c = written::le(next, 8);
    let d = written::le(raw, 8);
    written::lemma_holds_parts(bytes, start, t, a + (b + (c + d)));
    written::lemma_holds_parts(bytes, start + 4, a, b + (c + d));
    written::lemma_holds_parts(bytes, start + 8, b, c + d);
    written::lemma_holds_parts(bytes, start + 12, c, d);
    assert(t =~= segment::tag());
}

/// A segment that is not closed has an offset of all ones: it takes the rest
/// of the file.
pub proof fn law_unclosed_written(bytes: Seq<u8>, start: int)
    requires
        0 <= start,
        start + 28 <= bytes.len(),
        forall|i: int| start + 12 <= i < start + 20 ==> #[trigger] bytes[i] == 0xFF,
    ensures
        segment::segment_end(bytes, start) == bytes.len(),
{
    let s = bytes.subrange(start + 12, start + 20);
    assert forall|i: int| 0 <= i < 8 implies #[trigger] s[i] == 0xFF by {
        assert(s[i] == bytes[start + 12 + i]);
    }
    cursor::lemma_le_nat_bound(s);
    assert(s[0] == 0xFF && s[1] == 0xFF && s[2] == 0xFF && s[3] == 0xFF && s[4] == 0xFF && s[5]
        == 0xFF && s[6] == 0xFF && s[7] == 0xFF);
}

/// A segment is read back as it was written: it declares what was declared, and
/// its raw data are where they were written.
pub proof fn law_segment_written(
    bytes: Seq<u8>,
    start: int,
    toc: u32,
    version: u32,
    ds: Seq<Declaration>,
    data: Seq<u8>,
    objs: Seq<ObjectModel>,
)
    requires
        toc & 0x40 == 0,
        toc & 0x2 != 0,
        written::declarations_wf(ds),
        ds.len() < 0x1_0000_0000,
        metadata_bytes(ds).len() + data.len() < 0xFFFF_FFFF_FFFF_FFFF,
        written::holds(bytes, start, segment_bytes(toc, version, ds, data)),
    ensures
        segment::lead_in_fault(bytes, start) is None,
        segment::toc_of(bytes, start) == toc,
        segment::segment_end(bytes, start) == start + segment_bytes(toc, version, ds, data).len(),
        written::holds(bytes, segment::raw_start(bytes, start), data),
        segment::raw_start(bytes, start) + data.len() == segment::segment_end(bytes, start),
        segment::declarations(bytes, start) == written::declared_models(ds),
        segment::metadata(segment::body_of(bytes, start), toc, objs) == Ok::<_, TdmsFault>(
            object::declared_all(objs, written::declared_models(ds)),
        ),
{
    let m = metadata_bytes(ds);
    let l = lead_in_bytes(toc, version, m.len() + data.len(), m.len());
    lemma_lead_in_len(toc, version, m.len() + data.len(), m.len());
    written::lemma_holds_parts(bytes, start, l, m + data);
    law_lead_in_written(bytes, start, toc, version, m.len() + data.len(), m.len());
    written::lemma_holds_parts(bytes, start + 28, m, data);
    let body = segment::body_of(bytes, start);
    assert(body.subrange(24, 24 + m.len() as int) =~= bytes.subrange(start + 28, start + 28 + m.len()));
    assert(written::holds(body, 24, m));
    written::lemma_patterns();
    written::law_number_written(ds.len(), 4);
    written::lemma_holds_parts(
        body,
        24,
        written::le(ds.len(), 4),
        written::declarations_bytes(ds),
    );
    written::law_number_at(body, 24, ds.len(), 4);
    written::law_declarations_written(body, 28, ds, segment::marked(toc, segment::DAQMX));
}

/// The samples of one type, one behind the other.
pub open spec fn samples_bytes(code: u32, s: Seq<Scalar>) -> Seq<u8>
    decreases s.len(),
{
    if s.len() == 0 {
        Seq::empty()
    } else {
        samples_bytes(code, s.drop_last()) + written::sample_bytes(code, s.last())
    }
}

/// Whether a type has all these values.
pub open spec fn has_values(code: u32, s: Seq<Scalar>) -> bool {
    forall|i: int| 0 <= i < s.len() ==> written::has_value(code, #[trigger] s[i])
}

proof fn lemma_samples_len(code: u32, s: Seq<Scalar>)
    requires
        has_values(code, s),
    ensures
        samples_bytes(code, s).len() == s.len() * written::sample_width(code),
    decreases s.len(),
{
    let w = written::sample_width(code);
    if s.len() > 0 {
        let rest = s.drop_last();
        assert(has_values(code, rest)) by {
            assert forall|i: int| 0 <= i < rest.len() implies written::has_value(
                code,
                #[trigger] rest[i],
            ) by {
                assert(rest[i] == s[i]);
            }
        }
        lemma_samples_len(code, rest);
        let b = written::sample_bytes(code, s.last());
        assert(s[s.len() - 1] == s.last());
        assert(b.subrange(0, b.len() as int) =~= b);
        written::law_sample_written(code, s.last(), b, 0);
        assert(s.len() * w == rest.len() * w + w) by (nonlinear_arith)
            requires
                s.len() == rest.len() + 1,
        ;
    } else {
        assert(0 * w == 0);
    }
}

proof fn lemma_sample_in(code: u32, s: Seq<Scalar>, data: Seq<u8>, pos: int, i: int)
    requires
        has_values(code, s),
        written::holds(data, pos, samples_bytes(code, s)),
        0 <= i < s.len(),
    ensures
        written::holds(
            data,
            pos + i * written::sample_width(code),
            written::sample_bytes(code, s[i]),
        ),
    decreases s.len(),
{
    let rest = s.drop_last();
    assert(has_values(code, rest)) by {
        assert forall|k: int| 0 <= k < rest.len() implies written::has_value(
            code,
            #[trigger] rest[k],
        ) by {
            assert(rest[k] == s[k]);
        }
    }
    lemma_samples_len(code, rest);
    written::lemma_holds_parts(
        data,
        pos,
        samples_bytes(code, rest),
        written::sample_bytes(code, s.last()),
    );
    if i < rest.len() {
        lemma_sample_in(code, rest, data, pos, i);
        assert(rest[i] == s[i]);
    }
}

/// Samples that stand one behind the other are read back as they were written.
pub proof fn law_samples_written(raw: RawDataIndex, s: Seq<Scalar>, data: Seq<u8>)
    requires
        has_values(raw.data_type, s),
        raw.n_values == s.len(),
        raw.bytes_per_value == written::sample_width(raw.data_type),
        written::holds(data, 0, samples_bytes(raw.data_type, s)),
    ensures
        chunk::samples_in(data, raw) == s,
{
    let got = chunk::samples_in(data, raw);
    assert forall|i: int| 0 <= i < s.len() implies #[trigger] got[i] == s[i] by {
        lemma_sample_in(raw.data_type, s, data, 0, i);
        written::law_sample_written(
            raw.data_type,
            s[i],
            data,
            i * written::sample_width(raw.data_type),
        );
    }
    assert(got =~= s);
}

/// A channel of a file: its name and group, its properties, the type of its
/// samples, how many of them a chunk has, and all of them.
pub struct Channel {
    pub group: Seq<char>,
    pub name: Seq<char>,
    pub properties: Seq<(Seq<char>, Stored)>,
    pub code: u32,
    pub count: nat,
    pub samples: Seq<Scalar>,
}

impl Channel {
    /// The layout of its samples.
    pub open spec fn layout(self) -> RawDataIndex {
        RawDataIndex {
            data_type: self.code,
            n_values: self.count as u64,
            bytes_per_value: written::sample_width(self.code) as usize,
        }
    }

    /// Its declaration.
    pub open spec fn declaration(self) -> Declaration {
        Declaration {
            path: path::component(self.group) + path::component(self.name),
            raw: RawHeader::Index(self.layout()),
            properties: self.properties,
        }
    }

    /// Its samples in chunk `c`.
    pub open spec fn part(self, c: int) -> Seq<Scalar> {
        self.samples.subrange(c * self.count, (c + 1) * self.count)
    }

    /// Whether it can be written in this number of chunks.
    pub open spec fn wf(self, chunks: nat) -> bool {
        &&& 1 <= self.code <= 10
        &&& has_values(self.code, self.samples)
        &&& self.samples.len() == chunks * self.count
        &&& self.count < 0x1_0000_0000_0000_0000
        &&& written::writable(path::component(self.group) + path::component(self.name))
        &&& self.properties.len() < 0x1_0000_0000
        &&& written::properties_wf(self.properties)
    }
}

/// Whether the channels can be written in this number of chunks, interleaved or
/// not, and no two are the same.
pub open spec fn channels_wf(chs: Seq<Channel>, chunks: nat, is_interleaved: bool) -> bool {
    &&& chs.len() < 0x1_0000_0000
    &&& forall|i: int| 0 <= i < chs.len() ==> (#[trigger] chs[i]).wf(chunks)
    &&& forall|i: int, j: int|
        0 <= i < j < chs.len() ==> (#[trigger] chs[i]).group != (#[trigger] chs[j]).group
            || chs[i].name != chs[j].name
    &&& is_interleaved ==> forall|i: int|
        0 <= i < chs.len() ==> (#[trigger] chs[i]).count == chs[0].count
}

/// Chunk `c` of the first `k` channels, one channel behind the other.
pub open spec fn blocks_bytes(chs: Seq<Channel>, c: int, k: int) -> Seq<u8>
    decreases k,
{
    if k <= 0 {
        Seq::empty()
    } else {
        blocks_bytes(chs, c, k - 1) + samples_bytes(chs[k - 1].code, chs[k - 1].part(c))
    }
}

/// The samples number `i` of the first `k` channels.
pub open spec fn row_bytes(chs: Seq<Channel>, i: int, k: int) -> Seq<u8>
    decreases k,
{
    if k <= 0 {
        Seq::empty()
    } else {
        row_bytes(chs, i, k - 1) + written::sample_bytes(chs[k - 1].code, chs[k - 1].samples[i])
    }
}

/// `n` rows from sample `i` on.
pub open spec fn rows_bytes(chs: Seq<Channel>, i: int, n: int) -> Seq<u8>
    decreases n,
{
    if n <= 0 {
        Seq::empty()
    } else {
        rows_bytes(chs, i, n - 1) + row_bytes(chs, i + n - 1, chs.len() as int)
    }
}

/// Chunk `c`.
pub open spec fn chunk_bytes(chs: Seq<Channel>, c: int, is_interleaved: bool) -> Seq<u8> {
    if is_interleaved {
        rows_bytes(chs, c * chs[0].count, chs[0].count as int)
    } else {
        blocks_bytes(chs, c, chs.len() as int)
    }
}

/// The first `k` chunks.
pub open spec fn chunks_bytes(chs: Seq<Channel>, is_interleaved: bool, k: int) -> Seq<u8>
    decreases k,
{
    if k <= 0 {
        Seq::empty()
    } else {
        chunks_bytes(chs, is_interleaved, k - 1) + chunk_bytes(chs, k - 1, is_interleaved)
    }
}

/// Whether the slots have the layouts of the channels.
pub open spec fn slots_fit(chs: Seq<Channel>, slots: Seq<SlotModel>) -> bool {
    slots.len() == chs.len() && forall|j: int|
        #![trigger slots[j]]
        #![trigger chs[j]]
        0 <= j < slots.len() ==> slots[j].raw == chs[j].layout()
}

proof fn lemma_part(ch: Channel, chunks: nat, c: int)
    requires
        ch.wf(chunks),
        0 <= c < chunks,
    ensures
        0 <= c * ch.count <= (c + 1) * ch.count <= ch.samples.len(),
        ch.part(c).len() == ch.count,
        has_values(ch.code, ch.part(c)),
{
    assert(0 <= c * ch.count && (c + 1) * ch.count == c * ch.count + ch.count && (c + 1)
        * ch.count <= chunks * ch.count) by (nonlinear_arith)
        requires
            0 <= c < chunks,
            ch.count >= 0,
    ;
    let p = ch.part(c);
    assert forall|i: int| 0 <= i < p.len() implies written::has_value(
        ch.code,
        #[trigger] p[i],
    ) by {
        assert(p[i] == ch.samples[c * ch.count + i]);
    }
}

proof fn lemma_blocks(chs: Seq<Channel>, slots: Seq<SlotModel>, chunks: nat, c: int, k: int)
    requires
        channels_wf(chs, chunks, false),
        slots_fit(chs, slots),
        0 <= c < chunks,
        0 <= k <= chs.len(),
    ensures
        blocks_bytes(chs, c, k).len() == chunk::offset(slots, k),
    decreases k,
{
    if k > 0 {
        lemma_blocks(chs, slots, chunks, c, k - 1);
        let ch = chs[k - 1];
        lemma_part(ch, chunks, c);
        lemma_samples_len(ch.code, ch.part(c));
        assert(slots[k - 1].raw == ch.layout());
        let w = written::sample_width(ch.code);
        assert(ch.count * w == w * ch.count) by (nonlinear_arith);
    }
}

proof fn lemma_block_at(
    chs: Seq<Channel>,
    slots: Seq<SlotModel>,
    chunks: nat,
    c: int,
    k: int,
    data: Seq<u8>,
    j: int,
)
    requires
        channels_wf(chs, chunks, false),
        slots_fit(chs, slots),
        0 <= c < chunks,
        0 <= j < k <= chs.len(),
        written::holds(data, 0, blocks_bytes(chs, c, k)),
    ensures
        written::holds(
            data,
            chunk::offset(slots, j),
            samples_bytes(chs[j].code, chs[j].part(c)),
        ),
    decreases k,
{
    let ch = chs[k - 1];
    lemma_blocks(chs, slots, chunks, c, k - 1);
    written::lemma_holds_parts(
        data,
        0,
        blocks_bytes(chs, c, k - 1),
        samples_bytes(ch.code, ch.part(c)),
    );
    if j < k - 1 {
        lemma_block_at(chs, slots, chunks, c, k - 1, data, j);
    }
}

/// Chunks that hold one channel behind the other give every channel its own
/// samples.
pub proof fn law_blocks_written(
    chs: Seq<Channel>,
    slots: Seq<SlotModel>,
    chunks: nat,
    c: int,
    data: Seq<u8>,
    j: int,
)
    requires
        channels_wf(chs, chunks, false),
        slots_fit(chs, slots),
        0 <= c < chunks,
        0 <= j < chs.len(),
        data == chunk_bytes(chs, c, false),
    ensures
        data.len() == chunk::offset(slots, slots.len() as int),
        laws::block_samples(slots, data, j) == chs[j].part(c),
{
    let n = chs.len() as int;
    lemma_blocks(chs, slots, chunks, c, n);
    assert(data.subrange(0, data.len() as int) =~= data);
    lemma_block_at(chs, slots, chunks, c, n, data, j);
    let ch = chs[j];
    assert(slots[j].raw == ch.layout());
    lemma_part(ch, chunks, c);
    lemma_blocks(chs, slots, chunks, c, j);
    lemma_blocks(chs, slots, chunks, c, j + 1);
    let b = samples_bytes(ch.code, ch.part(c));
    let part = data.subrange(chunk::offset(slots, j), chunk::offset(slots, j + 1));
    assert(part =~= b);
    assert(part.subrange(0, part.len() as int) =~= b);
    law_samples_written(ch.layout(), ch.part(c), part);
}

proof fn lemma_row(chs: Seq<Channel>, slots: Seq<SlotModel>, chunks: nat, i: int, k: int)
    requires
        channels_wf(chs, chunks, true),
        slots_fit(chs, slots),
        0 <= k <= chs.len(),
        chs.len() > 0,
        0 <= i < chunks * chs[0].count,
    ensures
        row_bytes(chs, i, k).len() == chunk::row_offset(slots, k),
    decreases k,
{
    if k > 0 {
        lemma_row(chs, slots, chunks, i, k - 1);
        let ch = chs[k - 1];
        assert(ch.count == chs[0].count);
        let b = written::sample_bytes(ch.code, ch.samples[i]);
        assert(b.subrange(0, b.len() as int) =~= b);
        written::law_sample_written(ch.code, ch.samples[i], b, 0);
        assert(slots[k - 1].raw == ch.layout());
    }
}

proof fn lemma_cell_at(
    chs: Seq<Channel>,
    slots: Seq<SlotModel>,
    chunks: nat,
    i: int,
    k: int,
    data: Seq<u8>,
    pos: int,
    j: int,
)
    requires
        channels_wf(chs, chunks, true),
        slots_fit(chs, slots),
        0 <= j < k <= chs.len(),
        0 <= i < chunks * chs[0].count,
        written::holds(data, pos, row_bytes(chs, i, k)),
    ensures
        written::holds(
            data,
            pos + chunk::row_offset(slots, j),
            written::sample_bytes(chs[j].code, chs[j].samples[i]),
        ),
    decreases k,
{
    lemma_row(chs, slots, chunks, i, k - 1);
    written::lemma_holds_parts(
        data,
        pos,
        row_bytes(chs, i, k - 1),
        written::sample_bytes(chs[k - 1].code, chs[k - 1].samples[i]),
    );
    if j < k - 1 {
        lemma_cell_at(chs, slots, chunks, i, k - 1, data, pos, j);
    }
}

proof fn lemma_rows(chs: Seq<Channel>, slots: Seq<SlotModel>, chunks: nat, i: int, n: int)
    requires
        channels_wf(chs, chunks, true),
        slots_fit(chs, slots),
        chs.len() > 0,
        0 <= i,
        0 <= n,
        i + n <= chunks * chs[0].count,
    ensures
        rows_bytes(chs, i, n).len() == n * chunk::row_offset(slots, slots.len() as int),
    decreases n,
{
    let r = chunk::row_offset(slots, slots.len() as int);
    if n > 0 {
        lemma_rows(chs, slots, chunks, i, n - 1);
        lemma_row(chs, slots, chunks, i + n - 1, chs.len() as int);
        assert(n * r == (n - 1) * r + r) by (nonlinear_arith);
    } else {
        assert(0 * r == 0);
    }
}

proof fn lemma_row_at(
    chs: Seq<Channel>,
    slots: Seq<SlotModel>,
    chunks: nat,
    i: int,
    n: int,
    data: Seq<u8>,
    r: int,
)
    requires
        channels_wf(chs, chunks, true),
        slots_fit(chs, slots),
        chs.len() > 0,
        0 <= i,
        0 <= r < n,
        i + n <= chunks * chs[0].count,
        written::holds(data, 0, rows_bytes(chs, i, n)),
    ensures
        written::holds(
            data,
            r * chunk::row_offset(slots, slots.len() as int),
            row_bytes(chs, i + r, chs.len() as int),
        ),
    decreases n,
{
    lemma_rows(chs, slots, chunks, i, n - 1);
    written::lemma_holds_parts(
        data,
        0,
        rows_bytes(chs, i, n - 1),
        row_bytes(chs, i + n - 1, chs.len() as int),
    );
    if r < n - 1 {
        lemma_row_at(chs, slots, chunks, i, n - 1, data, r);
    }
}

/// Interleaved chunks give every channel its own samples.
pub proof fn law_rows_written(
    chs: Seq<Channel>,
    slots: Seq<SlotModel>,
    chunks: nat,
    c: int,
    data: Seq<u8>,
    j: int,
)
    requires
        channels_wf(chs, chunks, true),
        slots_fit(chs, slots),
        0 <= c < chunks,
        0 <= j < chs.len(),
        data == chunk_bytes(chs, c, true),
    ensures
        chunk::same_counts(slots),
        slots[0].raw.n_values == chs[0].count,
        data.len() == chunk::offset(slots, slots.len() as int),
        laws::strided_samples(slots, data, j, chs[0].count) == chs[j].part(c),
{
    let n = chs[0].count as int;
    let i = c * n;
    let m = chs.len() as int;
    assert(slots[0].raw == chs[0].layout());
    assert forall|k: int| 0 <= k < slots.len() implies (#[trigger] slots[k]).raw.n_values
        == n by {
        assert(slots[k].raw == chs[k].layout());
        assert(chs[k].count == chs[0].count);
    }
    lemma_part(chs[0], chunks, c);
    assert((c + 1) * n == c * n + n) by (nonlinear_arith);
    lemma_rows(chs, slots, chunks, i, n);
    chunk::lemma_rows_fill_chunk(slots, m, n);
    assert(data.subrange(0, data.len() as int) =~= data);
    let ch = chs[j];
    assert(ch.count == n);
    assert(slots[j].raw == ch.layout());
    lemma_part(ch, chunks, c);
    let got = laws::strided_samples(slots, data, j, n as nat);
    assert forall|r: int| 0 <= r < n implies #[trigger] got[r] == ch.part(c)[r] by {
        lemma_row_at(chs, slots, chunks, i, n, data, r);
        lemma_cell_at(
            chs,
            slots,
            chunks,
            i + r,
            m,
            data,
            r * chunk::row_offset(slots, m),
            j,
        );
        assert(written::has_value(ch.code, ch.samples[i + r]));
        written::law_sample_written(
            ch.code,
            ch.samples[i + r],
            data,
            r * chunk::row_offset(slots, m) + chunk::row_offset(slots, j),
        );
    }
    assert(got =~= ch.part(c));
}

proof fn lemma_chunk_len(
    chs: Seq<Channel>,
    slots: Seq<SlotModel>,
    chunks: nat,
    is_interleaved: bool,
    c: int,
)
    requires
        channels_wf(chs, chunks, is_interleaved),
        slots_fit(chs, slots),
        chs.len() > 0,
        0 <= c < chunks,
    ensures
        chunk_bytes(chs, c, is_interleaved).len() == chunk::offset(slots, slots.len() as int),
{
    if is_interleaved {
        law_rows_written(chs, slots, chunks, c, chunk_bytes(chs, c, true), 0);
    } else {
        law_blocks_written(chs, slots, chunks, c, chunk_bytes(chs, c, false), 0);
    }
}

proof fn lemma_chunks_len(
    chs: Seq<Channel>,
    slots: Seq<SlotModel>,
    chunks: nat,
    is_interleaved: bool,
    k: int,
)
    requires
        channels_wf(chs, chunks, is_interleaved),
        slots_fit(chs, slots),
        chs.len() > 0,
        0 <= k <= chunks,
    ensures
        chunks_bytes(chs, is_interleaved, k).len() == k * chunk::offset(
            slots,
            slots.len() as int,
        ),
    decreases k,
{
    let size = chunk::offset(slots, slots.len() as int);
    if k > 0 {
        lemma_chunks_len(chs, slots, chunks, is_interleaved, k - 1);
        lemma_chunk_len(chs, slots, chunks, is_interleaved, k - 1);
        assert(k * size == (k - 1) * size + size) by (nonlinear_arith);
    } else {
        assert(0 * size == 0);
    }
}

proof fn lemma_chunk_at(
    chs: Seq<Channel>,
    slots: Seq<SlotModel>,
    chunks: nat,
    is_interleaved: bool,
    k: int,
    c: int,
)
    requires
        channels_wf(chs, chunks, is_interleaved),
        slots_fit(chs, slots),
        chs.len() > 0,
        0 <= c < k <= chunks,
    ensures
        ({
            let size = chunk::offset(slots, slots.len() as int);
            let data = chunks_bytes(chs, is_interleaved, k);
            0 <= c * size <= (c + 1) * size <= data.len() && data.subrange(
                c * size,
                (c + 1) * size,
            ) == chunk_bytes(chs, c, is_interleaved)
        }),
    decreases k,
{
    let size = chunk::offset(slots, slots.len() as int);
    let data = chunks_bytes(chs, is_interleaved, k);
    let front = chunks_bytes(chs, is_interleaved, k - 1);
    lemma_chunks_len(chs, slots, chunks, is_interleaved, k);
    lemma_chunks_len(chs, slots, chunks, is_interleaved, k - 1);
    lemma_chunk_len(chs, slots, chunks, is_interleaved, k - 1);
    chunk::lemma_offset_grows(slots, 0, slots.len() as int);
    assert(0 <= c * size && c * size + size == (c + 1) * size && (c + 1) * size <= k * size)
        by (nonlinear_arith)
        requires
            0 <= c < k,
            size >= 0,
    ;
    if c == k - 1 {
        assert(data.subrange(c * size, (c + 1) * size) =~= chunk_bytes(chs, c, is_interleaved));
    } else {
        lemma_chunk_at(chs, slots, chunks, is_interleaved, k - 1, c);
        assert((c + 1) * size <= (k - 1) * size) by (nonlinear_arith)
            requires
                c + 1 <= k - 1,
                size >= 0,
        ;
        assert(data.subrange(c * size, (c + 1) * size) =~= front.subrange(
            c * size,
            (c + 1) * size,
        ));
    }
}

proof fn lemma_chunks_samples(
    chs: Seq<Channel>,
    slots: Seq<SlotModel>,
    chunks: nat,
    is_interleaved: bool,
    j: int,
    k: int,
)
    requires
        channels_wf(chs, chunks, is_interleaved),
        slots_fit(chs, slots),
        0 <= j < chs.len(),
        0 <= k <= chunks,
    ensures
        laws::chunks_samples(
            slots,
            chunks_bytes(chs, is_interleaved, chunks as int),
            chunk::offset(slots, slots.len() as int),
            j,
            is_interleaved,
            k,
        ) == chs[j].samples.take(k * chs[j].count),
    decreases k,
{
    let ch = chs[j];
    let size = chunk::offset(slots, slots.len() as int);
    let data = chunks_bytes(chs, is_interleaved, chunks as int);
    if k > 0 {
        let c = k - 1;
        lemma_chunks_samples(chs, slots, chunks, is_interleaved, j, c);
        lemma_chunk_at(chs, slots, chunks, is_interleaved, chunks as int, c);
        let part = data.subrange(c * size, k * size);
        if is_interleaved {
            law_rows_written(chs, slots, chunks, c, part, j);
        } else {
            law_blocks_written(chs, slots, chunks, c, part, j);
        }
        lemma_part(ch, chunks, c);
        assert(ch.samples.take(c * ch.count) + ch.part(c) =~= ch.samples.take(k * ch.count));
    } else {
        assert(0 * ch.count == 0);
        assert(ch.samples.take(0) =~= Seq::empty());
    }
}

/// The declarations of channels.
pub open spec fn channel_declarations(chs: Seq<Channel>) -> Seq<Declaration> {
    chs.map_values(|ch: Channel| ch.declaration())
}

proof fn lemma_channel_declarations(chs: Seq<Channel>, chunks: nat, is_interleaved: bool)
    requires
        channels_wf(chs, chunks, is_interleaved),
    ensures
        written::declarations_wf(channel_declarations(chs)),
        channel_models_ok(written::declared_models(channel_declarations(chs))),
        forall|i: int|
            0 <= i < chs.len() ==> (#[trigger] written::declared_models(
                channel_declarations(chs),
            )[i]) == (DeclModel {
                path: path::component(chs[i].group) + path::component(chs[i].name),
                raw: RawHeader::Index(chs[i].layout()),
                properties: written::property_values(chs[i].properties),
                depth: 2,
                parent: Some(chs[i].group),
                name: chs[i].name,
            }),
{
    let ds = channel_declarations(chs);
    let ms = written::declared_models(ds);
    assert forall|i: int| 0 <= i < chs.len() implies (#[trigger] ms[i]) == (DeclModel {
        path: path::component(chs[i].group) + path::component(chs[i].name),
        raw: RawHeader::Index(chs[i].layout()),
        properties: written::property_values(chs[i].properties),
        depth: 2,
        parent: Some(chs[i].group),
        name: chs[i].name,
    }) && ds[i].wf() by {
        assert(chs[i].wf(chunks));
        naming::law_channel_path(chs[i].group, chs[i].name);
    }
    assert(written::declarations_wf(ds)) by {
        assert forall|i: int| 0 <= i < ds.len() implies (#[trigger] ds[i]).wf() by {
            assert(ms[i] == ds[i].model());
        }
    }
    assert forall|i: int, j: int| 0 <= i < j < ms.len() implies (#[trigger] ms[i]).path != (
    #[trigger] ms[j]).path by {
        naming::law_channel_path(chs[i].group, chs[i].name);
        naming::law_channel_path(chs[j].group, chs[j].name);
        assert(chs[i].group != chs[j].group || chs[i].name != chs[j].name);
    }
    assert forall|i: int| 0 <= i < ms.len() implies channel_model_ok(#[trigger] ms[i]) by {
        naming::law_channel_path(chs[i].group, chs[i].name);
    }
}

/// Whether a declaration is of a channel with a layout.
pub open spec fn channel_model_ok(d: DeclModel) -> bool {
    d.depth == 2 && d.parent is Some && d.raw is Index && path::path_parts(d.path) == Ok::<
        _,
        TdmsFault,
    >((d.depth, d.parent, d.name))
}

/// Whether the declarations are of different channels with layouts.
pub open spec fn channel_models_ok(ds: Seq<DeclModel>) -> bool {
    (forall|i: int| 0 <= i < ds.len() ==> channel_model_ok(#[trigger] ds[i])) && (forall|
        i: int,
        j: int,
    |
        0 <= i < j < ds.len() ==> (#[trigger] ds[i]).path != (#[trigger] ds[j]).path)
}

/// What a newly declared channel is.
pub open spec fn new_channel(d: DeclModel) -> ObjectModel {
    ObjectModel {
        path: d.path,
        depth: 2,
        properties: object::merged(Map::empty(), d.properties),
        last_raw: Some(d.raw->Index_0),
        samples: Seq::empty(),
        parent: d.parent,
        name: d.name,
    }
}

/// Channels that are declared for the first time are listed in the order of
/// their declarations, each with its own layout and properties.
pub proof fn law_channels_declared(ds: Seq<DeclModel>)
    requires
        channel_models_ok(ds),
    ensures
        ({
            let (objs, list) = object::declared_all(Seq::empty(), ds);
            &&& list.len() == ds.len()
            &&& list.no_duplicates()
            &&& naming::named(objs)
            &&& naming::grouped(objs)
            &&& order::paths_distinct(objs)
            &&& forall|i: int|
                #![trigger list[i]]
                #![trigger ds[i]]
                0 <= i < ds.len() ==> 0 <= list[i] < objs.len() && objs[list[i]] == new_channel(
                    ds[i],
                )
            &&& forall|k: int|
                0 <= k < objs.len() && (#[trigger] objs[k]).depth == 2 ==> list.contains(k)
        }),
    decreases ds.len(),
{
    let none = Seq::<ObjectModel>::empty();
    naming::lemma_grouped_declared_all(none, ds);
    history::lemma_declared_all_continues(none, ds);
    if ds.len() > 0 {
        let rest = ds.drop_last();
        let d = ds.last();
        assert(d == ds[ds.len() - 1]);
        assert(channel_models_ok(rest)) by {
            assert forall|i: int| 0 <= i < rest.len() implies channel_model_ok(
                #[trigger] rest[i],
            ) by {
                assert(rest[i] == ds[i]);
            }
            assert forall|i: int, j: int| 0 <= i < j < rest.len() implies (
            #[trigger] rest[i]).path != (#[trigger] rest[j]).path by {
                assert(rest[i] == ds[i] && rest[j] == ds[j]);
            }
        }
        law_channels_declared(rest);
        let (before, known) = object::declared_all(none, rest);
        let wide = object::with_group(before, d);
        let g = d.parent->0;
        object::lemma_find(before, path::component(g));
        naming::law_group_path(g);
        object::lemma_find(wide, d.path);
        assert(object::find(wide, d.path) is None) by {
            if let Some(j) = object::find(wide, d.path) {
                if j < before.len() {
                    assert(wide[j] == before[j]);
                    assert(before[j].depth == 2);
                    let i = known.index_of(j);
                    assert(known[i] == j);
                    assert(before[known[i]] == new_channel(rest[i]));
                    assert(rest[i] == ds[i]);
                    assert(ds[i].path != d.path);
                } else {
                    assert(wide[j] == object::implied_group(g));
                }
            }
        }
        let at = wide.len() as int;
        let (objs, list) = object::declared_all(none, ds);
        assert(list =~= known.push(at));
        assert(objs.len() == wide.len() + 1);
        assert(objs[at] == new_channel(d));
        assert forall|k: int| 0 <= k < before.len() implies #[trigger] objs[k] == before[k] by {
            assert(wide[k] == before[k]);
        }
        assert forall|i: int|
            #![trigger list[i]]
            #![trigger ds[i]]
            0 <= i < ds.len() implies 0 <= list[i] < objs.len() && objs[list[i]] == new_channel(
            ds[i],
        ) by {
            if i < rest.len() {
                assert(list[i] == known[i]);
                assert(rest[i] == ds[i]);
                assert(before[known[i]] == new_channel(rest[i]));
            }
        }
        assert forall|k: int| 0 <= k < objs.len() && (#[trigger] objs[k]).depth
            == 2 implies list.contains(k) by {
            if k == at {
                assert(list[known.len() as int] == k);
            } else if k < before.len() {
                assert(before[k].depth == 2);
                let i = known.index_of(k);
                assert(list[i] == k);
            } else {
                assert(objs[k] == wide[k]);
            }
        }
        assert forall|i: int, j: int| 0 <= i < j < list.len() implies list[i] != list[j] by {
            if j == known.len() {
                assert(known[i] < before.len());
            } else {
                assert(known[i] != known[j]);
            }
        }
    }
}

/// A file of one segment with these channels.
pub open spec fn file_bytes(
    toc: u32,
    version: u32,
    chs: Seq<Channel>,
    chunks: nat,
    is_interleaved: bool,
) -> Seq<u8> {
    segment_bytes(
        toc,
        version,
        channel_declarations(chs),
        chunks_bytes(chs, is_interleaved, chunks as int),
    )
}

/// The channels of a file are read back as they were written, whatever their
/// types, samples and properties, one behind the other or interleaved, and in
/// any number of chunks. There are no others.
pub proof fn law_file_written(
    toc: u32,
    version: u32,
    chs: Seq<Channel>,
    chunks: nat,
    is_interleaved: bool,
    group: Seq<char>,
    name: Seq<char>,
)
    requires
        chs.len() > 0,
        channels_wf(chs, chunks, is_interleaved),
        toc & 0x2 != 0,
        toc & 0x8 != 0,
        toc & 0x40 == 0,
        (toc & 0x20 != 0) == is_interleaved,
        file_bytes(toc, version, chs, chunks, is_interleaved).len() < 0xFFFF_FFFF_FFFF_FFFF,
    ensures
        file::file_of(file_bytes(toc, version, chs, chunks, is_interleaved)) matches Ok(f) && {
            &&& forall|i: int|
                0 <= i < chs.len() ==> f.channel((#[trigger] chs[i]).group, chs[i].name) == Some(
                    ChannelModel {
                        name: chs[i].name,
                        properties: object::merged(
                            Map::empty(),
                            written::property_values(chs[i].properties),
                        ),
                        data: chs[i].samples,
                    },
                )
            &&& f.channel(group, name) is Some ==> exists|i: int|
                0 <= i < chs.len() && (#[trigger] chs[i]).group == group && chs[i].name == name
        },
{
    let none = Seq::<ObjectModel>::empty();
    let no_list = Seq::<int>::empty();
    let bytes = file_bytes(toc, version, chs, chunks, is_interleaved);
    let data = chunks_bytes(chs, is_interleaved, chunks as int);
    let ws = channel_declarations(chs);
    let ds = written::declared_models(ws);
    lemma_channel_declarations(chs, chunks, is_interleaved);
    assert(bytes.subrange(0, bytes.len() as int) =~= bytes);
    let m = metadata_bytes(ws);
    assert(bytes.len() == lead_in_bytes(toc, version, m.len() + data.len(), m.len()).len()
        + m.len() + data.len());
    law_segment_written(bytes, 0, toc, version, ws, data, none);
    law_channels_declared(ds);
    let (objs, list) = object::declared_all(none, ds);
    segment::lemma_metadata(segment::body_of(bytes, 0), toc, none, no_list);
    order::law_list_starts(
        segment::marked(toc, segment::NEW_OBJ_LIST),
        objs,
        list,
        object::silent_paths(segment::declarations(bytes, 0)),
    );
    let slots = order::slots_of(objs, list);
    assert(slots_fit(chs, slots)) by {
        assert forall|j: int|
            #![trigger slots[j]]
            #![trigger chs[j]]
            0 <= j < slots.len() implies slots[j].raw == chs[j].layout() by {
            assert(objs[list[j]] == new_channel(ds[j]));
        }
    }
    let from = segment::raw_start(bytes, 0);
    let end = segment::segment_end(bytes, 0);
    let size = chunk::offset(slots, slots.len() as int);
    lemma_chunks_len(chs, slots, chunks, is_interleaved, chunks as int);
    chunk::lemma_offset_grows(slots, 0, slots.len() as int);
    lemma_section(chs, slots, chunks, is_interleaved, bytes, from, end, objs, list);
    reveal(segment::segment_at);
    let filled = segment::raw_section(bytes, from, end, is_interleaved, objs, list)->Ok_0;
    assert(segment::segment_at(bytes, 0, none, no_list) == Ok::<_, TdmsFault>(
        (filled, list, end),
    ));
    assert(file::segments(bytes, end, filled, list) == Ok::<_, TdmsFault>((filled, list)));
    assert(file::segments(bytes, 0, none, no_list) == Ok::<_, TdmsFault>((filled, list)));
    naming::law_groups_known(bytes);
    let f = file::file_of(bytes)->Ok_0;
    let n = filled.len() as int;
    assert forall|k: int| 0 <= k < n && (#[trigger] filled[k]).depth == 2 implies exists|i: int|
        0 <= i < chs.len() && (#[trigger] chs[i]).group == file::group_of(filled[k])
            && chs[i].name == filled[k].name && list[i] == k by {
        assert(history::more_samples(objs[k], filled[k]));
        let i = list.index_of(k);
        assert(list[i] == k);
        assert(objs[list[i]] == new_channel(ds[i]));
        assert(chs[i].name == filled[k].name);
    }
    assert forall|i: int| 0 <= i < chs.len() implies f.channel(
        (#[trigger] chs[i]).group,
        chs[i].name,
    ) == Some(
        ChannelModel {
            name: chs[i].name,
            properties: object::merged(
                Map::empty(),
                written::property_values(chs[i].properties),
            ),
            data: chs[i].samples,
        },
    ) by {
        let ch = chs[i];
        laws::law_channel_lookup(filled, ch.group, ch.name);
        laws::lemma_first_channel(filled, n, ch.group, ch.name);
        assert(objs[list[i]] == new_channel(ds[i]));
        assert(history::more_samples(objs[list[i]], filled[list[i]]));
        assert(laws::is_channel(filled[list[i]], ch.group, ch.name));
        assert(objs[list[i]].samples + ch.samples =~= ch.samples);
        let k = laws::first_channel(filled, n, ch.group, ch.name)->0;
        assert(laws::is_channel(filled[k], ch.group, ch.name));
        let j = choose|j: int|
            0 <= j < chs.len() && (#[trigger] chs[j]).group == file::group_of(filled[k])
                && chs[j].name == filled[k].name && list[j] == k;
        assert(j == i) by {
            if j < i {
                assert(chs[j].group != chs[i].group || chs[j].name != chs[i].name);
            }
            if i < j {
                assert(chs[i].group != chs[j].group || chs[i].name != chs[j].name);
            }
        }
    }
    if f.channel(group, name) is Some {
        laws::law_channel_lookup(filled, group, name);
        laws::lemma_first_channel(filled, n, group, name);
        let k = laws::first_channel(filled, n, group, name)->0;
        assert(filled[k].depth == 2);
    }
}

proof fn lemma_section(
    chs: Seq<Channel>,
    slots: Seq<SlotModel>,
    chunks: nat,
    is_interleaved: bool,
    bytes: Seq<u8>,
    from: int,
    end: int,
    objs: Seq<ObjectModel>,
    list: Seq<int>,
)
    requires
        chs.len() > 0,
        channels_wf(chs, chunks, is_interleaved),
        slots == order::slots_of(objs, list),
        slots_fit(chs, slots),
        order::layouts_ok(objs),
        order::order_ok(objs, list),
        list.no_duplicates(),
        from >= 0,
        written::holds(bytes, from, chunks_bytes(chs, is_interleaved, chunks as int)),
        end == from + chunks_bytes(chs, is_interleaved, chunks as int).len(),
        bytes.len() < 0xFFFF_FFFF_FFFF_FFFF,
    ensures
        segment::raw_section(bytes, from, end, is_interleaved, objs, list) matches Ok(filled)
            && history::only_samples(objs, filled) && forall|i: int|
            0 <= i < list.len() ==> filled[#[trigger] list[i]].samples == objs[list[i]].samples
                + chs[i].samples,
        segment::raw_section(bytes, from, end, is_interleaved, objs, list) matches Ok(filled)
            && forall|k: int|
            0 <= k < objs.len() && !list.contains(k) ==> #[trigger] filled[k] == objs[k],
{
    let data = chunks_bytes(chs, is_interleaved, chunks as int);
    let size = chunk::offset(slots, slots.len() as int);
    let told = segment::chunk_size(slots);
    let m = slots.len() as int;
    lemma_chunks_len(chs, slots, chunks, is_interleaved, chunks as int);
    chunk::lemma_offset_grows(slots, 0, m);
    order::lemma_slots_wf(objs, list);
    assert(bytes.subrange(from, end) =~= data);
    if size == 0 {
        assert(history::only_samples(objs, objs));
        assert forall|i: int| 0 <= i < list.len() implies objs[#[trigger] list[i]].samples
            == objs[list[i]].samples + chs[i].samples by {
            lemma_no_bytes(chs, slots, i, m);
            assert(chs[i].wf(chunks));
            assert(chunks * 0 == 0);
            assert(objs[list[i]].samples + chs[i].samples =~= objs[list[i]].samples);
        }
    } else if chunks == 0 {
        assert(0 * size == 0);
        assert(data.len() == 0);
        assert(0int % told == 0 && 0int / told == 0) by (nonlinear_arith)
            requires
                told > 0,
        ;
        assert(history::only_samples(objs, objs));
        assert forall|i: int| 0 <= i < list.len() implies objs[#[trigger] list[i]].samples
            == objs[list[i]].samples + chs[i].samples by {
            assert(chs[i].wf(chunks));
            assert(0 * chs[i].count == 0);
            assert(objs[list[i]].samples + chs[i].samples =~= objs[list[i]].samples);
        }
    } else {
        assert(size <= chunks * size) by (nonlinear_arith)
            requires
                chunks >= 1,
                size > 0,
        ;
        assert(told == size);
        assert(chunks * size == size * chunks) by (nonlinear_arith);
        vstd::arithmetic::div_mod::lemma_fundamental_div_mod_converse(
            data.len() as int,
            size,
            chunks as int,
            0,
        );
        lemma_chunks_succeed(chs, slots, chunks, is_interleaved, objs, data);
        history::lemma_chunks_only_samples(
            objs,
            slots,
            data,
            size,
            is_interleaved,
            chunks as int,
        );
        laws::law_section_samples(bytes, from, end, is_interleaved, objs, list);
        let filled = segment::raw_section(bytes, from, end, is_interleaved, objs, list)->Ok_0;
        assert forall|i: int| 0 <= i < list.len() implies filled[#[trigger] list[i]].samples
            == objs[list[i]].samples + chs[i].samples by {
            lemma_chunks_samples(chs, slots, chunks, is_interleaved, i, chunks as int);
            assert(chs[i].wf(chunks));
            assert(chs[i].samples.take((chunks * chs[i].count) as int) =~= chs[i].samples);
        }
    }
}

proof fn lemma_no_bytes(chs: Seq<Channel>, slots: Seq<SlotModel>, i: int, k: int)
    requires
        slots_fit(chs, slots),
        forall|j: int| 0 <= j < chs.len() ==> (#[trigger] chs[j]).count < 0x1_0000_0000_0000_0000,
        0 <= i < k <= slots.len(),
        chunk::offset(slots, k) == 0,
    ensures
        chs[i].count == 0,
    decreases k,
{
    let s = slots[k - 1];
    assert(s.raw == chs[k - 1].layout());
    chunk::lemma_offset_grows(slots, 0, k - 1);
    let c = chs[k - 1].count as int;
    let w = written::sample_width(chs[k - 1].code) as int;
    assert(s.bytes() == w * c);
    assert(w * c >= 0 && (c > 0 ==> w * c > 0)) by (nonlinear_arith)
        requires
            w > 0,
            c >= 0,
    ;
    if i < k - 1 {
        lemma_no_bytes(chs, slots, i, k - 1);
    }
}

proof fn lemma_chunks_succeed(
    chs: Seq<Channel>,
    slots: Seq<SlotModel>,
    chunks: nat,
    is_interleaved: bool,
    objs: Seq<ObjectModel>,
    data: Seq<u8>,
)
    requires
        chs.len() > 0,
        channels_wf(chs, chunks, is_interleaved),
        slots_fit(chs, slots),
        chunk::offset(slots, slots.len() as int) > 0,
    ensures
        chunk::chunks_read(
            objs,
            slots,
            data,
            chunk::offset(slots, slots.len() as int),
            is_interleaved,
            chunks as int,
        ) is Ok,
{
    assert(chunk::readable(slots, is_interleaved)) by {
        assert forall|j: int| 0 <= j < slots.len() implies chunk::numeric(
            (#[trigger] slots[j]).raw.data_type,
        ) by {
            assert(slots[j].raw == chs[j].layout());
            assert(chs[j].wf(chunks));
        }
        if is_interleaved {
            assert forall|j: int| 0 <= j < slots.len() implies (#[trigger] slots[j]).raw.n_values
                == slots[0].raw.n_values by {
                assert(slots[j].raw == chs[j].layout());
                assert(slots[0].raw == chs[0].layout());
                assert(chs[j].count == chs[0].count);
            }
        }
    }
    lemma_readable_chunks(objs, slots, data, is_interleaved, chunks as int);
}

proof fn lemma_readable_chunks(
    objs: Seq<ObjectModel>,
    slots: Seq<SlotModel>,
    data: Seq<u8>,
    is_interleaved: bool,
    k: int,
)
    requires
        slots.len() > 0,
        chunk::offset(slots, slots.len() as int) > 0,
        chunk::readable(slots, is_interleaved),
    ensures
        chunk::chunks_read(
            objs,
            slots,
            data,
            chunk::offset(slots, slots.len() as int),
            is_interleaved,
            k,
        ) is Ok,
    decreases k,
{
    if k > 0 {
        let size = chunk::offset(slots, slots.len() as int);
        lemma_readable_chunks(objs, slots, data, is_interleaved, k - 1);
        let before = chunk::chunks_read(objs, slots, data, size, is_interleaved, k - 1)->Ok_0;
        chunk::law_chunk_succeeds(
            before,
            slots,
            data.subrange((k - 1) * size, k * size),
            is_interleaved,
        );
    }
}

/// A segment of a lead-in and raw data alone: it has the list of the segment
/// before it.
pub open spec fn data_segment_bytes(toc: u32, version: u32, data: Seq<u8>) -> Seq<u8> {
    lead_in_bytes(toc, version, data.len(), 0) + data
}

/// A segment without metadata goes on with the channels of the list before it:
/// each is given its own samples behind those it had, no other object changes,
/// and the list is handed on.
pub proof fn law_next_segment_written(
    bytes: Seq<u8>,
    pos: int,
    toc: u32,
    version: u32,
    chs: Seq<Channel>,
    chunks: nat,
    is_interleaved: bool,
    objs: Seq<ObjectModel>,
    list: Seq<int>,
)
    requires
        chs.len() > 0,
        channels_wf(chs, chunks, is_interleaved),
        toc & 0x2 == 0,
        toc & 0x4 == 0,
        toc & 0x8 != 0,
        toc & 0x40 == 0,
        (toc & 0x20 != 0) == is_interleaved,
        pos >= 0,
        bytes.len() < 0xFFFF_FFFF_FFFF_FFFF,
        written::holds(
            bytes,
            pos,
            data_segment_bytes(toc, version, chunks_bytes(chs, is_interleaved, chunks as int)),
        ),
        order::layouts_ok(objs),
        order::order_ok(objs, list),
        list.no_duplicates(),
        forall|k: int| 0 <= k < list.len() ==> objs[#[trigger] list[k]].depth == 2,
        slots_fit(chs, order::slots_of(objs, list)),
    ensures
        segment::segment_at(bytes, pos, objs, list) matches Ok((after, next, end)) && {
            &&& next == list
            &&& end == pos + 28 + chunks_bytes(chs, is_interleaved, chunks as int).len()
            &&& history::only_samples(objs, after)
            &&& forall|i: int|
                0 <= i < list.len() ==> after[#[trigger] list[i]].samples == objs[list[i]].samples
                    + chs[i].samples
            &&& forall|k: int|
                0 <= k < objs.len() && !list.contains(k) ==> #[trigger] after[k] == objs[k]
            &&& file::segments(bytes, pos, objs, list) == file::segments(bytes, end, after, list)
        },
{
    let data = chunks_bytes(chs, is_interleaved, chunks as int);
    let l = lead_in_bytes(toc, version, data.len(), 0);
    lemma_lead_in_len(toc, version, data.len(), 0);
    written::lemma_holds_parts(bytes, pos, l, data);
    law_lead_in_written(bytes, pos, toc, version, data.len(), 0);
    let ds = segment::declarations(bytes, pos);
    assert(ds =~= Seq::empty());
    assert(object::silent_paths(ds) =~= Set::empty());
    order::law_list_inherited(objs, list);
    let slots = order::slots_of(objs, list);
    lemma_section(
        chs,
        slots,
        chunks,
        is_interleaved,
        bytes,
        pos + 28,
        pos + 28 + data.len(),
        objs,
        list,
    );
    reveal(segment::segment_at);
}

} // verus!
