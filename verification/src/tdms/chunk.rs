//! Raw data chunks: the samples of a segment's channels, channel by channel
//! or interleaved.

use super::cursor;
use super::dtype;
use super::error::{TdmsError, TdmsFault};
use super::history;
use super::object;
use super::object::{ObjectModel, ObjectState, RawDataIndex};
use super::value::Scalar;
use vstd::prelude::*;

verus! {

/// Whether samples of this type are numbers.
pub open spec fn numeric(code: u32) -> bool {
    dtype::I8 <= code <= dtype::F64
}

/// The sample that the number `n` of a numeric type stands for.
pub open spec fn scalar_of(code: u32, n: nat) -> Scalar {
    if code == dtype::I8 {
        Scalar::Signed(cursor::signed(n, 0x80) as i64)
    } else if code == dtype::I16 {
        Scalar::Signed(cursor::signed(n, 0x8000) as i64)
    } else if code == dtype::I32 {
        Scalar::Signed(cursor::signed(n, 0x8000_0000) as i64)
    } else if code == dtype::I64 {
        Scalar::Signed(cursor::signed(n, 0x8000_0000_0000_0000) as i64)
    } else if code == dtype::F32 {
        Scalar::Single(n as u32)
    } else if code == dtype::F64 {
        Scalar::Double(n as u64)
    } else {
        Scalar::Unsigned(n as u64)
    }
}

/// The sample whose `width` bytes start at `at`.
pub open spec fn sample_at(data: Seq<u8>, at: int, code: u32, width: int) -> Scalar {
    scalar_of(code, cursor::le_nat(data.subrange(at, at + width)))
}

/// The samples that stand one behind the other in `data`.
pub open spec fn samples_in(data: Seq<u8>, raw: RawDataIndex) -> Seq<Scalar> {
    Seq::new(
        raw.n_values as nat,
        |i: int| sample_at(data, i * raw.bytes_per_value, raw.data_type, raw.bytes_per_value as int),
    )
}

/// A channel's part in the chunks of a segment.
pub struct SlotModel {
    /// The place of the channel among the objects.
    pub at: int,
    pub path: Seq<char>,
    pub raw: RawDataIndex,
}

impl SlotModel {
    /// The bytes of the channel in one chunk.
    pub open spec fn bytes(self) -> int {
        self.raw.bytes_per_value * self.raw.n_values
    }
}

/// A channel's part in the chunks of a segment.
#[derive(Debug)]
pub struct Slot {
    pub at: usize,
    pub path: String,
    pub raw: RawDataIndex,
}

impl View for Slot {
    type V = SlotModel;

    open spec fn view(&self) -> SlotModel {
        SlotModel { at: self.at as int, path: self.path@, raw: self.raw }
    }
}

/// The slots of a list.
pub open spec fn slot_models(s: Seq<Slot>) -> Seq<SlotModel> {
    s.map_values(|x: Slot| x@)
}

/// Every slot belongs to one of `n` objects, and its width is that of its type.
pub open spec fn slots_wf(slots: Seq<SlotModel>, n: int) -> bool {
    forall|k: int|
        0 <= k < slots.len() ==> 0 <= (#[trigger] slots[k]).at < n && object::raw_width(
            slots[k].raw.data_type,
        ) == Some(slots[k].raw.bytes_per_value as int)
}

/// Where the data of slot `k` starts in a chunk that holds one channel behind
/// the other; for the number of slots, the size of a chunk.
pub open spec fn offset(slots: Seq<SlotModel>, k: int) -> int
    decreases k,
{
    if k <= 0 {
        0
    } else {
        offset(slots, k - 1) + slots[k - 1].bytes()
    }
}

/// Where the value of slot `k` starts in a row of an interleaved chunk; for
/// the number of slots, the size of a row.
pub open spec fn row_offset(slots: Seq<SlotModel>, k: int) -> int
    decreases k,
{
    if k <= 0 {
        0
    } else {
        row_offset(slots, k - 1) + slots[k - 1].raw.bytes_per_value
    }
}

/// Whether object `i` has one of the first `k` slots.
pub open spec fn has_slot(slots: Seq<SlotModel>, k: int, i: int) -> bool {
    exists|j: int| 0 <= j < k && (#[trigger] slots[j]).at == i
}

/// Whether the objects without a slot are the same.
pub open spec fn untouched(
    slots: Seq<SlotModel>,
    a: Seq<ObjectModel>,
    b: Seq<ObjectModel>,
) -> bool {
    a.len() == b.len() && forall|i: int|
        0 <= i < a.len() && !has_slot(slots, slots.len() as int, i) ==> #[trigger] b[i] == a[i]
}

/// Whether samples were added to objects with a slot, and nothing else was
/// done.
pub open spec fn only_fed(
    slots: Seq<SlotModel>,
    a: Seq<ObjectModel>,
    b: Seq<ObjectModel>,
) -> bool {
    history::only_samples(a, b) && untouched(slots, a, b)
}

/// The objects with samples added to the one at `i`.
pub open spec fn with_samples(objs: Seq<ObjectModel>, i: int, more: Seq<Scalar>) -> Seq<
    ObjectModel,
> {
    objs.update(i, ObjectModel { samples: objs[i].samples + more, ..objs[i] })
}

/// The objects once the first `k` slots of a channel-by-channel chunk are read.
pub open spec fn decimated(
    objs: Seq<ObjectModel>,
    slots: Seq<SlotModel>,
    chunk: Seq<u8>,
    k: int,
) -> Result<Seq<ObjectModel>, TdmsFault>
    decreases k,
{
    if k <= 0 {
        Ok(objs)
    } else {
        match decimated(objs, slots, chunk, k - 1) {
            Err(e) => Err(e),
            Ok(before) => {
                let slot = slots[k - 1];
                if numeric(slot.raw.data_type) {
                    let data = chunk.subrange(offset(slots, k - 1), offset(slots, k));
                    Ok(with_samples(before, slot.at, samples_in(data, slot.raw)))
                } else {
                    Err(TdmsFault::UnsupportedDataType(slot.raw.data_type, slot.path))
                }
            },
        }
    }
}

/// The objects once the first `k` values of the row that starts at `base` are
/// read.
pub open spec fn row_cells(
    objs: Seq<ObjectModel>,
    slots: Seq<SlotModel>,
    chunk: Seq<u8>,
    base: int,
    k: int,
) -> Result<Seq<ObjectModel>, TdmsFault>
    decreases k,
{
    if k <= 0 {
        Ok(objs)
    } else {
        match row_cells(objs, slots, chunk, base, k - 1) {
            Err(e) => Err(e),
            Ok(before) => {
                let slot = slots[k - 1];
                if numeric(slot.raw.data_type) {
                    let v = sample_at(
                        chunk,
                        base + row_offset(slots, k - 1),
                        slot.raw.data_type,
                        slot.raw.bytes_per_value as int,
                    );
                    Ok(with_samples(before, slot.at, seq![v]))
                } else {
                    Err(TdmsFault::UnsupportedDataType(slot.raw.data_type, slot.path))
                }
            },
        }
    }
}

/// The objects once the first `i` rows of an interleaved chunk are read.
pub open spec fn rows(
    objs: Seq<ObjectModel>,
    slots: Seq<SlotModel>,
    chunk: Seq<u8>,
    i: int,
) -> Result<Seq<ObjectModel>, TdmsFault>
    decreases i,
{
    if i <= 0 {
        Ok(objs)
    } else {
        match rows(objs, slots, chunk, i - 1) {
            Err(e) => Err(e),
            Ok(before) => row_cells(
                before,
                slots,
                chunk,
                (i - 1) * row_offset(slots, slots.len() as int),
                slots.len() as int,
            ),
        }
    }
}

/// Whether every slot has as many values per chunk as the first.
pub open spec fn same_counts(slots: Seq<SlotModel>) -> bool {
    forall|k: int|
        0 <= k < slots.len() ==> (#[trigger] slots[k]).raw.n_values == slots[0].raw.n_values
}

/// The objects once an interleaved chunk is read.
pub open spec fn interleaved(
    objs: Seq<ObjectModel>,
    slots: Seq<SlotModel>,
    chunk: Seq<u8>,
) -> Result<Seq<ObjectModel>, TdmsFault> {
    if same_counts(slots) {
        rows(objs, slots, chunk, slots[0].raw.n_values as int)
    } else {
        Err(TdmsFault::Malformed("interleaved chunk with mismatched n_values"@))
    }
}

/// The objects once a chunk is read.
pub open spec fn chunk_read(
    objs: Seq<ObjectModel>,
    slots: Seq<SlotModel>,
    chunk: Seq<u8>,
    is_interleaved: bool,
) -> Result<Seq<ObjectModel>, TdmsFault> {
    if is_interleaved {
        interleaved(objs, slots, chunk)
    } else {
        decimated(objs, slots, chunk, slots.len() as int)
    }
}

/// The objects once the first `k` chunks of `size` bytes are read.
pub open spec fn chunks_read(
    objs: Seq<ObjectModel>,
    slots: Seq<SlotModel>,
    data: Seq<u8>,
    size: int,
    is_interleaved: bool,
    k: int,
) -> Result<Seq<ObjectModel>, TdmsFault>
    decreases k,
{
    if k <= 0 {
        Ok(objs)
    } else {
        match chunks_read(objs, slots, data, size, is_interleaved, k - 1) {
            Err(e) => Err(e),
            Ok(before) => chunk_read(
                before,
                slots,
                data.subrange((k - 1) * size, k * size),
                is_interleaved,
            ),
        }
    }
}

/// The first slot from `k` on whose samples are no numbers; the number of slots
/// where there is none.
pub open spec fn refused_from(slots: Seq<SlotModel>, k: int) -> int
    decreases slots.len() - k,
{
    if k >= slots.len() {
        slots.len() as int
    } else if numeric(slots[k].raw.data_type) {
        refused_from(slots, k + 1)
    } else {
        k
    }
}

/// The objects that a chunk leaves that cannot be read: with the samples of the
/// slots before the one that is refused, of an interleaved chunk those in its
/// first row; as they were, where an interleaved chunk has unequal counts.
pub open spec fn chunk_left(
    objs: Seq<ObjectModel>,
    slots: Seq<SlotModel>,
    chunk: Seq<u8>,
    is_interleaved: bool,
) -> Seq<ObjectModel> {
    let k = refused_from(slots, 0);
    if !is_interleaved {
        decimated(objs, slots, chunk, k)->Ok_0
    } else if same_counts(slots) {
        row_cells(objs, slots, chunk, 0, k)->Ok_0
    } else {
        objs
    }
}

/// Whether the samples of the first `k` slots are numbers.
pub open spec fn all_numeric(slots: Seq<SlotModel>, k: int) -> bool {
    forall|j: int| 0 <= j < k ==> numeric((#[trigger] slots[j]).raw.data_type)
}

/// The slot that is refused is the first whose samples are no numbers.
pub proof fn lemma_refused(slots: Seq<SlotModel>, i: int, k: int)
    requires
        0 <= i <= k < slots.len(),
        all_numeric(slots, k),
        !numeric(slots[k].raw.data_type),
    ensures
        refused_from(slots, i) == k,
    decreases k - i,
{
    if i < k {
        assert(numeric(slots[i].raw.data_type));
        lemma_refused(slots, i + 1, k);
    }
}

/// The slots before the refused one have numbers.
pub proof fn lemma_before_refused(slots: Seq<SlotModel>, i: int)
    requires
        0 <= i <= slots.len(),
        all_numeric(slots, i),
    ensures
        i <= refused_from(slots, i) <= slots.len(),
        all_numeric(slots, refused_from(slots, i)),
    decreases slots.len() - i,
{
    if i < slots.len() && numeric(slots[i].raw.data_type) {
        lemma_before_refused(slots, i + 1);
    }
}

/// Offsets grow with the slots.
pub proof fn lemma_offset_grows(slots: Seq<SlotModel>, j: int, k: int)
    requires
        j <= k,
    ensures
        0 <= offset(slots, j) <= offset(slots, k),
    decreases k,
{
    if k > 0 {
        let s = slots[k - 1];
        assert(s.bytes() >= 0) by (nonlinear_arith)
            requires
                s.bytes() == s.raw.bytes_per_value * s.raw.n_values,
        ;
        if j < k {
            lemma_offset_grows(slots, j, k - 1);
        } else {
            lemma_offset_grows(slots, j - 1, k - 1);
        }
    }
}

/// Row offsets grow with the slots.
pub proof fn lemma_row_offset_grows(slots: Seq<SlotModel>, j: int, k: int)
    requires
        j <= k,
    ensures
        0 <= row_offset(slots, j) <= row_offset(slots, k),
    decreases k,
{
    if k > 0 {
        if j < k {
            lemma_row_offset_grows(slots, j, k - 1);
        } else {
            lemma_row_offset_grows(slots, j - 1, k - 1);
        }
    }
}

/// With equal counts a chunk is as many rows as there are values.
pub proof fn lemma_rows_fill_chunk(slots: Seq<SlotModel>, k: int, n: int)
    requires
        0 <= k <= slots.len(),
        forall|j: int| 0 <= j < slots.len() ==> (#[trigger] slots[j]).raw.n_values == n,
    ensures
        offset(slots, k) == n * row_offset(slots, k),
    decreases k,
{
    if k > 0 {
        lemma_rows_fill_chunk(slots, k - 1, n);
        let w = slots[k - 1].raw.bytes_per_value as int;
        let r = row_offset(slots, k - 1);
        assert(slots[k - 1].bytes() == w * n);
        assert(n * (r + w) == n * r + w * n) by (nonlinear_arith);
    } else {
        assert(n * 0 == 0);
    }
}

proof fn lemma_only_fed_step(
    slots: Seq<SlotModel>,
    a: Seq<ObjectModel>,
    b: Seq<ObjectModel>,
    k: int,
    more: Seq<Scalar>,
)
    requires
        only_fed(slots, a, b),
        0 <= k < slots.len(),
        0 <= slots[k].at < a.len(),
    ensures
        only_fed(slots, a, with_samples(b, slots[k].at, more)),
{
    history::lemma_only_samples_step(a, b, slots[k].at, more);
    assert(has_slot(slots, slots.len() as int, slots[k].at));
}

proof fn lemma_only_fed_trans(
    slots: Seq<SlotModel>,
    a: Seq<ObjectModel>,
    b: Seq<ObjectModel>,
    c: Seq<ObjectModel>,
)
    requires
        only_fed(slots, a, b),
        only_fed(slots, b, c),
    ensures
        only_fed(slots, a, c),
{
    history::lemma_only_samples_trans(a, b, c);
    assert forall|i: int|
        0 <= i < a.len() && !has_slot(slots, slots.len() as int, i) implies #[trigger] c[i]
        == a[i] by {
        assert(b[i] == a[i]);
    }
}

/// The first slots of a chunk that holds one channel behind the other can be
/// read exactly when their samples are numbers.
pub proof fn law_decimated_succeeds(
    objs: Seq<ObjectModel>,
    slots: Seq<SlotModel>,
    chunk: Seq<u8>,
    k: int,
)
    requires
        0 <= k <= slots.len(),
    ensures
        decimated(objs, slots, chunk, k) is Ok == all_numeric(slots, k),
    decreases k,
{
    if k > 0 {
        law_decimated_succeeds(objs, slots, chunk, k - 1);
        if all_numeric(slots, k) {
            assert(all_numeric(slots, k - 1));
            assert(numeric(slots[k - 1].raw.data_type));
        }
    }
}

/// What is read in a row is numbers, and numbers are read so.
pub proof fn lemma_cells_numeric(
    objs: Seq<ObjectModel>,
    slots: Seq<SlotModel>,
    chunk: Seq<u8>,
    base: int,
    k: int,
)
    requires
        0 <= k <= slots.len(),
    ensures
        row_cells(objs, slots, chunk, base, k) is Ok == all_numeric(slots, k),
    decreases k,
{
    if k > 0 {
        lemma_cells_numeric(objs, slots, chunk, base, k - 1);
        if all_numeric(slots, k) {
            assert(all_numeric(slots, k - 1));
            assert(numeric(slots[k - 1].raw.data_type));
        }
    }
}

proof fn lemma_rows_numeric(
    objs: Seq<ObjectModel>,
    slots: Seq<SlotModel>,
    chunk: Seq<u8>,
    i: int,
)
    requires
        i > 0,
    ensures
        rows(objs, slots, chunk, i) is Ok ==> all_numeric(slots, slots.len() as int),
{
    match rows(objs, slots, chunk, i - 1) {
        Err(_) => {},
        Ok(before) => {
            lemma_cells_numeric(
                before,
                slots,
                chunk,
                (i - 1) * row_offset(slots, slots.len() as int),
                slots.len() as int,
            );
        },
    }
}

proof fn lemma_decimated_fault(
    objs: Seq<ObjectModel>,
    slots: Seq<SlotModel>,
    chunk: Seq<u8>,
    j: int,
    k: int,
)
    requires
        j <= k,
        decimated(objs, slots, chunk, j) is Err,
    ensures
        decimated(objs, slots, chunk, k) == decimated(objs, slots, chunk, j),
    decreases k - j,
{
    if j < k {
        lemma_decimated_fault(objs, slots, chunk, j, k - 1);
    }
}

proof fn lemma_row_fault(
    objs: Seq<ObjectModel>,
    slots: Seq<SlotModel>,
    chunk: Seq<u8>,
    base: int,
    j: int,
    k: int,
)
    requires
        j <= k,
        row_cells(objs, slots, chunk, base, j) is Err,
    ensures
        row_cells(objs, slots, chunk, base, k) == row_cells(objs, slots, chunk, base, j),
    decreases k - j,
{
    if j < k {
        lemma_row_fault(objs, slots, chunk, base, j, k - 1);
    }
}

proof fn lemma_rows_fault(
    objs: Seq<ObjectModel>,
    slots: Seq<SlotModel>,
    chunk: Seq<u8>,
    j: int,
    k: int,
)
    requires
        j <= k,
        rows(objs, slots, chunk, j) is Err,
    ensures
        rows(objs, slots, chunk, k) == rows(objs, slots, chunk, j),
    decreases k - j,
{
    if j < k {
        lemma_rows_fault(objs, slots, chunk, j, k - 1);
    }
}

proof fn lemma_chunks_fault(
    objs: Seq<ObjectModel>,
    slots: Seq<SlotModel>,
    data: Seq<u8>,
    size: int,
    is_interleaved: bool,
    j: int,
    k: int,
)
    requires
        j <= k,
        chunks_read(objs, slots, data, size, is_interleaved, j) is Err,
    ensures
        chunks_read(objs, slots, data, size, is_interleaved, k) == chunks_read(
            objs,
            slots,
            data,
            size,
            is_interleaved,
            j,
        ),
    decreases k - j,
{
    if j < k {
        lemma_chunks_fault(objs, slots, data, size, is_interleaved, j, k - 1);
    }
}

/// Whether chunks of these slots can be read: their samples are numbers, and
/// where they are interleaved their counts are equal.
pub open spec fn readable(slots: Seq<SlotModel>, is_interleaved: bool) -> bool {
    all_numeric(slots, slots.len() as int) && (is_interleaved ==> same_counts(slots))
}

proof fn lemma_some_rows(slots: Seq<SlotModel>)
    requires
        slots.len() > 0,
        same_counts(slots),
        offset(slots, slots.len() as int) > 0,
    ensures
        slots[0].raw.n_values > 0,
{
    if slots[0].raw.n_values == 0 {
        let m = slots.len() as int;
        lemma_rows_fill_chunk(slots, m, 0);
        assert(0 * row_offset(slots, m) == 0);
    }
}

proof fn lemma_rows_succeed(
    objs: Seq<ObjectModel>,
    slots: Seq<SlotModel>,
    chunk: Seq<u8>,
    i: int,
)
    requires
        all_numeric(slots, slots.len() as int),
    ensures
        rows(objs, slots, chunk, i) is Ok,
    decreases i,
{
    if i > 0 {
        lemma_rows_succeed(objs, slots, chunk, i - 1);
        lemma_cells_numeric(
            rows(objs, slots, chunk, i - 1)->Ok_0,
            slots,
            chunk,
            (i - 1) * row_offset(slots, slots.len() as int),
            slots.len() as int,
        );
    }
}

/// A chunk that is not empty can be read exactly when its slots can.
pub proof fn law_chunk_succeeds(
    objs: Seq<ObjectModel>,
    slots: Seq<SlotModel>,
    chunk: Seq<u8>,
    is_interleaved: bool,
)
    requires
        slots.len() > 0,
        offset(slots, slots.len() as int) > 0,
    ensures
        chunk_read(objs, slots, chunk, is_interleaved) is Ok == readable(slots, is_interleaved),
{
    if !is_interleaved {
        law_decimated_succeeds(objs, slots, chunk, slots.len() as int);
    } else if same_counts(slots) {
        let n = slots[0].raw.n_values as int;
        lemma_some_rows(slots);
        lemma_rows_numeric(objs, slots, chunk, n);
        if all_numeric(slots, slots.len() as int) {
            lemma_rows_succeed(objs, slots, chunk, n);
        }
    }
}

/// Whether the bytes are a sample of a numeric type: as many as it takes, or
/// at least one where it takes one.
pub open spec fn fits(code: u32, len: int) -> bool {
    if code == dtype::U8 || code == dtype::I8 {
        len >= 1
    } else {
        object::raw_width(code) == Some(len)
    }
}

/// Decodes one sample. `path` names the channel in an error.
pub fn sample_to_f64(data: &[u8], code: u32, path: &str) -> (r: Result<Scalar, TdmsError>)
    requires
        code == dtype::U8 || code == dtype::I8 ==> data@.len() >= 1,
    ensures
        if !numeric(code) {
            r matches Err(x) && x@ == TdmsFault::UnsupportedDataType(code, path@)
        } else if fits(code, data@.len() as int) {
            r == Ok::<Scalar, TdmsError>(
                sample_at(data@, 0, code, object::raw_width(code)->0),
            )
        } else {
            r matches Err(x) && x@ == TdmsFault::Eof(0)
        },
{
    let numeric_type: bool = dtype::I8 <= code && code <= dtype::F64;
    if !numeric_type {
        return Err(TdmsError::UnsupportedDataType(code, path.to_owned()));
    }
    let w: usize = object::bytes_for_type(code, path)?;
    let len: usize = data.len();
    proof {
        let part = data@.subrange(0, w as int);
        cursor::lemma_le_nat_bound(part);
        if len == w {
            assert(part =~= data@);
        }
    }
    if code == dtype::U8 {
        return Ok(Scalar::Unsigned(data[0] as u64));
    }
    if code == dtype::I8 {
        return Ok(Scalar::Signed(cursor::sign_u8(data[0]) as i64));
    }
    if len != w {
        return Err(TdmsError::Eof(0));
    }
    if code == dtype::F64 {
        Ok(Scalar::Double(cursor::le_u64(data)))
    } else if code == dtype::F32 {
        Ok(Scalar::Single(cursor::le_u32(data)))
    } else if code == dtype::I16 {
        Ok(Scalar::Signed(cursor::sign_u16(cursor::le_u16(data)) as i64))
    } else if code == dtype::I32 {
        Ok(Scalar::Signed(cursor::sign_u32(cursor::le_u32(data)) as i64))
    } else if code == dtype::I64 {
        Ok(Scalar::Signed(cursor::sign_u64(cursor::le_u64(data))))
    } else if code == dtype::U16 {
        Ok(Scalar::Unsigned(cursor::le_u16(data) as u64))
    } else if code == dtype::U32 {
        Ok(Scalar::Unsigned(cursor::le_u32(data) as u64))
    } else {
        Ok(Scalar::Unsigned(cursor::le_u64(data)))
    }
}

/// A layout with the width of its type.
pub open spec fn typed(raw: RawDataIndex) -> RawDataIndex {
    RawDataIndex { bytes_per_value: object::raw_width(raw.data_type)->0 as usize, ..raw }
}

/// Decodes the samples that stand one behind the other in `data` and appends
/// them. A sample takes as many bytes as its type. `path` names the channel in
/// an error.
pub fn append_samples(
    data: &[u8],
    raw: RawDataIndex,
    out: &mut Vec<Scalar>,
    path: &str,
) -> (r: Result<(), TdmsError>)
    requires
        numeric(raw.data_type) ==> data@.len() >= typed(raw).bytes_per_value * raw.n_values,
    ensures
        if numeric(raw.data_type) {
            r is Ok && final(out)@ == old(out)@ + samples_in(data@, typed(raw))
        } else {
            (r matches Err(x) && x@ == TdmsFault::UnsupportedDataType(raw.data_type, path@))
                && final(out)@ == old(out)@
        },
{
    let numeric_type: bool = dtype::I8 <= raw.data_type && raw.data_type <= dtype::F64;
    if !numeric_type {
        return Err(TdmsError::UnsupportedDataType(raw.data_type, path.to_owned()));
    }
    let w: usize = object::bytes_for_type(raw.data_type, path)?;
    let ghost all = samples_in(data@, typed(raw));
    let total: usize = data.len();
    let mut i: u64 = 0;
    let mut at: usize = 0;
    assert(old(out)@ + all.take(0) =~= old(out)@);
    while i < raw.n_values
        invariant
            all == samples_in(data@, typed(raw)),
            w == typed(raw).bytes_per_value,
            numeric(raw.data_type),
            object::raw_width(raw.data_type) == Some(w as int),
            data@.len() >= w * raw.n_values,
            total == data@.len(),
            i <= raw.n_values,
            at == i * w,
            out@ == old(out)@ + all.take(i as int),
        decreases raw.n_values - i,
    {
        assert(i * w + w <= w * raw.n_values && (i + 1) * w == i * w + w) by (nonlinear_arith)
            requires
                i < raw.n_values,
        ;
        let cell: &[u8] = vstd::slice::slice_subrange(data, at, at + w);
        assert(cell@.subrange(0, w as int) =~= data@.subrange(at as int, at + w));
        let v: Scalar = match sample_to_f64(cell, raw.data_type, path) {
            Ok(v) => v,
            Err(e) => {
                return Err(e);
            },
        };
        out.push(v);
        proof {
            assert(all.take(i + 1) =~= all.take(i as int).push(v));
            assert(out@ =~= old(out)@ + all.take(i + 1));
        }
        at = at + w;
        i = i + 1;
    }
    assert(all.take(all.len() as int) =~= all);
    Ok(())
}

/// Reads a chunk that holds one channel behind the other.
pub fn read_chunk_decimated(chunk: &[u8], slots: &Vec<Slot>, objects: &mut Vec<ObjectState>) -> (r:
    Result<(), TdmsError>)
    requires
        slots_wf(slot_models(slots@), old(objects)@.len() as int),
        chunk@.len() >= offset(slot_models(slots@), slots@.len() as int),
        object::all_wf(old(objects)@),
    ensures
        final(objects)@.len() == old(objects)@.len(),
        object::all_wf(final(objects)@),
        only_fed(
            slot_models(slots@),
            object::models(old(objects)@),
            object::models(final(objects)@),
        ),
        match decimated(
            object::models(old(objects)@),
            slot_models(slots@),
            chunk@,
            slots@.len() as int,
        ) {
            Ok(after) => r is Ok && object::models(final(objects)@) == after,
            Err(e) => (r matches Err(x) && x@ == e) && object::models(final(objects)@)
                == chunk_left(
                object::models(old(objects)@),
                slot_models(slots@),
                chunk@,
                false,
            ),
        },
{
    let ghost start = object::models(objects@);
    let ghost sm = slot_models(slots@);
    let ghost n = slots@.len() as int;
    let total: usize = chunk.len();
    let mut cur: usize = 0;
    for k in 0..slots.len()
        invariant
            sm == slot_models(slots@),
            n == slots@.len(),
            start == object::models(old(objects)@),
            slots_wf(sm, objects@.len() as int),
            objects@.len() == old(objects)@.len(),
            object::all_wf(objects@),
            chunk@.len() >= offset(sm, n),
            total == chunk@.len(),
            only_fed(sm, start, object::models(objects@)),
            sm.len() == n,
            cur == offset(sm, k as int),
            decimated(start, sm, chunk@, k as int) == Ok::<_, TdmsFault>(object::models(objects@)),
    {
        let ghost slot = sm[k as int];
        assert(slot == slots@[k as int]@);
        proof {
            lemma_offset_grows(sm, k as int, k + 1);
            lemma_offset_grows(sm, k + 1, n);
            if decimated(start, sm, chunk@, k + 1) is Err {
                lemma_decimated_fault(start, sm, chunk@, k + 1, n);
            }
        }
        let raw: RawDataIndex = slots[k].raw;
        let width: usize = raw.bytes_per_value;
        proof {
            assert(width >= 1);
            let c = raw.n_values as int;
            assert(c <= width * c) by (nonlinear_arith)
                requires
                    width >= 1,
                    c >= 0,
            ;
            assert(slot.bytes() == width * c);
            assert(cur + width * c <= total);
        }
        let count: usize = raw.n_values as usize;
        let end: usize = cur + width * count;
        let data: &[u8] = vstd::slice::slice_subrange(chunk, cur, end);
        let at: usize = slots[k].at;
        let ghost before = object::models(objects@);
        assert(before[at as int] == objects@[at as int]@);
        match append_samples(data, raw, &mut objects[at].samples, slots[k].path.as_str()) {
            Ok(()) => {},
            Err(e) => {
                assert(object::models(objects@) =~= before);
                proof {
                    law_decimated_succeeds(start, sm, chunk@, k as int);
                    lemma_refused(sm, 0, k as int);
                }
                return Err(e);
            },
        }
        proof {
            assert(object::models(objects@) =~= with_samples(
                before,
                at as int,
                samples_in(data@, raw),
            ));
            lemma_only_fed_step(sm, start, before, k as int, samples_in(data@, raw));
        }
        cur = end;
    }
    Ok(())
}

/// Reads a chunk that holds one value of each channel after the other.
pub fn read_chunk_interleaved(
    chunk: &[u8],
    slots: &Vec<Slot>,
    objects: &mut Vec<ObjectState>,
) -> (r: Result<(), TdmsError>)
    requires
        slots@.len() > 0,
        slots_wf(slot_models(slots@), old(objects)@.len() as int),
        same_counts(slot_models(slots@)) ==> chunk@.len() >= offset(
            slot_models(slots@),
            slots@.len() as int,
        ),
        object::all_wf(old(objects)@),
    ensures
        final(objects)@.len() == old(objects)@.len(),
        object::all_wf(final(objects)@),
        only_fed(
            slot_models(slots@),
            object::models(old(objects)@),
            object::models(final(objects)@),
        ),
        match interleaved(object::models(old(objects)@), slot_models(slots@), chunk@) {
            Ok(after) => r is Ok && object::models(final(objects)@) == after,
            Err(e) => (r matches Err(x) && x@ == e) && object::models(final(objects)@)
                == chunk_left(
                object::models(old(objects)@),
                slot_models(slots@),
                chunk@,
                true,
            ),
        },
{
    let ghost start = object::models(objects@);
    let ghost sm = slot_models(slots@);
    let m: usize = slots.len();
    let n: u64 = slots[0].raw.n_values;
    for k in 0..m
        invariant
            m == slots@.len(),
            m > 0,
            sm == slot_models(slots@),
            n == slots@[0].raw.n_values,
            forall|j: int| 0 <= j < k ==> (#[trigger] sm[j]).raw.n_values == n,
            sm.len() == m,
            start == object::models(old(objects)@),
            *objects == *old(objects),
            object::all_wf(old(objects)@),
    {
        assert(sm[k as int] == slots@[k as int]@);
        assert(sm[0] == slots@[0]@);
        if slots[k].raw.n_values != n {
            return Err(
                TdmsError::Malformed("interleaved chunk with mismatched n_values".to_owned()),
            );
        }
    }
    assert(sm[0] == slots@[0]@);
    let ghost row = row_offset(sm, m as int);
    let total: usize = chunk.len();
    proof {
        lemma_rows_fill_chunk(sm, m as int, n as int);
        lemma_row_offset_grows(sm, 0, m as int);
    }
    let mut cur: usize = 0;
    let mut i: u64 = 0;
    assert(0 * row == 0);
    while i < n
        invariant
            m == slots@.len(),
            m > 0,
            sm == slot_models(slots@),
            sm.len() == m,
            n == sm[0].raw.n_values,
            same_counts(sm),
            row == row_offset(sm, m as int),
            start == object::models(old(objects)@),
            slots_wf(sm, objects@.len() as int),
            objects@.len() == old(objects)@.len(),
            object::all_wf(objects@),
            chunk@.len() >= n * row,
            total == chunk@.len(),
            only_fed(sm, start, object::models(objects@)),
            row >= 0,
            i <= n,
            cur == i * row,
            rows(start, sm, chunk@, i as int) == Ok::<_, TdmsFault>(object::models(objects@)),
        decreases n - i,
    {
        let ghost base = cur as int;
        let ghost row_start = object::models(objects@);
        proof {
            assert(i * row + row <= n * row && (i + 1) * row == i * row + row) by (nonlinear_arith)
                requires
                    i < n,
                    row >= 0,
            ;
            if rows(start, sm, chunk@, i + 1) is Err {
                lemma_rows_fault(start, sm, chunk@, i + 1, n as int);
            }
        }
        for k in 0..m
            invariant
                m == slots@.len(),
                sm == slot_models(slots@),
                sm.len() == m,
                same_counts(sm),
                row == row_offset(sm, m as int),
                slots_wf(sm, objects@.len() as int),
                objects@.len() == old(objects)@.len(),
                object::all_wf(objects@),
                base + row <= chunk@.len(),
                total == chunk@.len(),
                base >= 0,
                cur == base + row_offset(sm, k as int),
                row_cells(row_start, sm, chunk@, base, k as int) == Ok::<_, TdmsFault>(
                    object::models(objects@),
                ),
                base == i * row,
                n == sm[0].raw.n_values,
                i < n,
                start == object::models(old(objects)@),
                only_fed(sm, start, object::models(objects@)),
                rows(start, sm, chunk@, i as int) == Ok::<_, TdmsFault>(row_start),
                rows(start, sm, chunk@, i + 1) is Err ==> rows(start, sm, chunk@, n as int)
                    == rows(start, sm, chunk@, i + 1),
        {
            assert(sm[k as int] == slots@[k as int]@);
            proof {
                lemma_row_offset_grows(sm, k + 1, m as int);
                lemma_row_offset_grows(sm, 0, k as int);
                if row_cells(row_start, sm, chunk@, base, k + 1) is Err {
                    lemma_row_fault(row_start, sm, chunk@, base, k + 1, m as int);
                }
            }
            let width: usize = slots[k].raw.bytes_per_value;
            let cell: &[u8] = vstd::slice::slice_subrange(chunk, cur, cur + width);
            assert(cell@.subrange(0, width as int) =~= chunk@.subrange(cur as int, cur + width));
            proof {
                lemma_cells_numeric(row_start, sm, chunk@, base, k as int);
                if !numeric(sm[k as int].raw.data_type) {
                    if i > 0 {
                        lemma_rows_numeric(start, sm, chunk@, i as int);
                    }
                    lemma_refused(sm, 0, k as int);
                }
            }
            let v: Scalar = sample_to_f64(cell, slots[k].raw.data_type, slots[k].path.as_str())?;
            let at: usize = slots[k].at;
            let ghost before = object::models(objects@);
            assert(before[at as int] == objects@[at as int]@);
            objects[at].samples.push(v);
            proof {
                assert(objects@[at as int].samples@ =~= before[at as int].samples + seq![v]);
                assert(object::models(objects@) =~= with_samples(before, at as int, seq![v]));
                lemma_only_fed_step(sm, start, before, k as int, seq![v]);
            }
            cur = cur + width;
        }
        i = i + 1;
    }
    Ok(())
}

/// Reads the chunks of `size` bytes that fill `data`.
pub fn read_chunks(
    data: &[u8],
    size: usize,
    is_interleaved: bool,
    slots: &Vec<Slot>,
    objects: &mut Vec<ObjectState>,
) -> (r: Result<(), TdmsError>)
    requires
        slots@.len() > 0,
        slots_wf(slot_models(slots@), old(objects)@.len() as int),
        size == offset(slot_models(slots@), slots@.len() as int),
        size > 0,
        object::all_wf(old(objects)@),
    ensures
        final(objects)@.len() == old(objects)@.len(),
        object::all_wf(final(objects)@),
        only_fed(
            slot_models(slots@),
            object::models(old(objects)@),
            object::models(final(objects)@),
        ),
        match chunks_read(
            object::models(old(objects)@),
            slot_models(slots@),
            data@,
            size as int,
            is_interleaved,
            data@.len() as int / size as int,
        ) {
            Ok(after) => r is Ok && object::models(final(objects)@) == after,
            Err(e) => (r matches Err(x) && x@ == e) && object::models(final(objects)@)
                == chunk_left(
                object::models(old(objects)@),
                slot_models(slots@),
                data@.subrange(0, size as int),
                is_interleaved,
            ),
        },
{
    let ghost start = object::models(objects@);
    let ghost sm = slot_models(slots@);
    let total: usize = data.len();
    let n: usize = total / size;
    assert(sm.len() > 0);
    proof {
        vstd::arithmetic::div_mod::lemma_fundamental_div_mod(data@.len() as int, size as int);
        assert(size * n == n * size) by (nonlinear_arith);
        assert(n * size <= data@.len());
    }
    assert(0 * size == 0);
    let mut cur: usize = 0;
    for k in 0..n
        invariant
            slots@.len() > 0,
            sm.len() > 0,
            size > 0,
            sm == slot_models(slots@),
            start == object::models(old(objects)@),
            slots_wf(sm, objects@.len() as int),
            objects@.len() == old(objects)@.len(),
            object::all_wf(objects@),
            size == offset(sm, slots@.len() as int),
            n == data@.len() as int / size as int,
            n * size <= data@.len(),
            total == data@.len(),
            only_fed(sm, start, object::models(objects@)),
            cur == k * size,
            chunks_read(start, sm, data@, size as int, is_interleaved, k as int) == Ok::<
                _,
                TdmsFault,
            >(object::models(objects@)),
    {
        proof {
            assert(k * size + size <= n * size && (k + 1) * size == k * size + size)
                by (nonlinear_arith)
                requires
                    k < n,
            ;
            if chunks_read(start, sm, data@, size as int, is_interleaved, k + 1) is Err {
                lemma_chunks_fault(start, sm, data@, size as int, is_interleaved, k + 1, n as int);
            }
        }
        let end: usize = cur + size;
        let chunk: &[u8] = vstd::slice::slice_subrange(data, cur, end);
        let ghost before = object::models(objects@);
        let read: Result<(), TdmsError> = if is_interleaved {
            read_chunk_interleaved(chunk, slots, objects)
        } else {
            read_chunk_decimated(chunk, slots, objects)
        };
        proof {
            lemma_only_fed_trans(sm, start, before, object::models(objects@));
            if read is Err && k > 0 {
                let first = chunks_read(
                    start,
                    sm,
                    data@,
                    size as int,
                    is_interleaved,
                    k - 1,
                )->Ok_0;
                let part = data@.subrange((k - 1) * size, k * size);
                law_chunk_succeeds(first, sm, part, is_interleaved);
                law_chunk_succeeds(before, sm, chunk@, is_interleaved);
            }
            if k == 0 {
                assert(0 * size == 0);
                assert(chunk@ =~= data@.subrange(0, size as int));
            }
        }
        read?;
        cur = end;
    }
    Ok(())
}

} // verus!
