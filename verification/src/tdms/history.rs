//! What segments keep of what was read before them.

use super::chunk;
use super::chunk::SlotModel;
use super::cursor;
use super::error::TdmsFault;
use super::object;
use super::object::{DeclModel, ObjectModel};
use super::order;
use super::segment;
use super::value::{PropertyModel, Scalar};
use vstd::prelude::*;

verus! {

/// Whether one list of samples starts with the other.
pub open spec fn extends(before: Seq<Scalar>, after: Seq<Scalar>) -> bool {
    before.len() <= after.len() && forall|i: int|
        0 <= i < before.len() ==> after[i] == #[trigger] before[i]
}

/// Whether `b` is `a` with more samples.
pub open spec fn more_samples(a: ObjectModel, b: ObjectModel) -> bool {
    b == (ObjectModel { samples: b.samples, ..a }) && extends(a.samples, b.samples)
}

/// Whether the objects are the same but for more samples.
pub open spec fn only_samples(a: Seq<ObjectModel>, b: Seq<ObjectModel>) -> bool {
    a.len() == b.len() && forall|i: int|
        0 <= i < a.len() ==> more_samples(#[trigger] a[i], b[i])
}

/// Whether `b` is what became of the object `a`: it keeps its path, its place
/// in the hierarchy and its samples, and loses no property and no layout.
pub open spec fn grown(a: ObjectModel, b: ObjectModel) -> bool {
    &&& b.path == a.path
    &&& b.depth == a.depth
    &&& b.parent == a.parent
    &&& b.name == a.name
    &&& extends(a.samples, b.samples)
    &&& a.properties.dom().subset_of(b.properties.dom())
    &&& a.last_raw is Some ==> b.last_raw is Some
}

/// Whether every object of `a` is in `b`, in its place, as it has grown.
pub open spec fn continues(a: Seq<ObjectModel>, b: Seq<ObjectModel>) -> bool {
    a.len() <= b.len() && forall|i: int| 0 <= i < a.len() ==> grown(#[trigger] a[i], b[i])
}

/// Whether every object of `a` has the same samples in `b`, and every other
/// object of `b` none.
pub open spec fn same_samples(a: Seq<ObjectModel>, b: Seq<ObjectModel>) -> bool {
    a.len() <= b.len() && forall|i: int|
        0 <= i < b.len() ==> (#[trigger] b[i]).samples == if i < a.len() {
            a[i].samples
        } else {
            Seq::empty()
        }
}

/// What holds of the objects at any time.
pub open spec fn sound(objs: Seq<ObjectModel>) -> bool {
    order::paths_distinct(objs) && order::layouts_ok(objs)
}

/// More samples for one object are more samples.
pub proof fn lemma_only_samples_step(
    a: Seq<ObjectModel>,
    b: Seq<ObjectModel>,
    i: int,
    more: Seq<Scalar>,
)
    requires
        only_samples(a, b),
        0 <= i < a.len(),
    ensures
        only_samples(a, chunk::with_samples(b, i, more)),
{
    let c = chunk::with_samples(b, i, more);
    assert forall|j: int| 0 <= j < a.len() implies more_samples(#[trigger] a[j], c[j]) by {
        assert(more_samples(a[j], b[j]));
        if j == i {
            assert forall|k: int| 0 <= k < a[j].samples.len() implies c[j].samples[k]
                == #[trigger] a[j].samples[k] by {
                assert(b[j].samples[k] == a[j].samples[k]);
            }
        }
    }
}

/// What has more samples than something has more than what that has more than.
pub proof fn lemma_only_samples_trans(
    a: Seq<ObjectModel>,
    b: Seq<ObjectModel>,
    c: Seq<ObjectModel>,
)
    requires
        only_samples(a, b),
        only_samples(b, c),
    ensures
        only_samples(a, c),
{
    assert forall|j: int| 0 <= j < a.len() implies more_samples(#[trigger] a[j], c[j]) by {
        assert(more_samples(a[j], b[j]));
        assert(more_samples(b[j], c[j]));
        assert forall|k: int| 0 <= k < a[j].samples.len() implies c[j].samples[k]
            == #[trigger] a[j].samples[k] by {
            assert(b[j].samples[k] == a[j].samples[k]);
            assert(c[j].samples[k] == b[j].samples[k]);
        }
    }
}

/// Reading a chunk channel by channel adds samples and nothing else.
pub proof fn lemma_decimated_only_samples(
    objs: Seq<ObjectModel>,
    slots: Seq<SlotModel>,
    data: Seq<u8>,
    k: int,
)
    requires
        k <= slots.len(),
        chunk::slots_wf(slots, objs.len() as int),
    ensures
        chunk::decimated(objs, slots, data, k) matches Ok(after) ==> only_samples(objs, after),
    decreases k,
{
    if k > 0 {
        lemma_decimated_only_samples(objs, slots, data, k - 1);
        match chunk::decimated(objs, slots, data, k - 1) {
            Err(_) => {},
            Ok(before) => {
                let slot = slots[k - 1];
                let part = data.subrange(chunk::offset(slots, k - 1), chunk::offset(slots, k));
                lemma_only_samples_step(
                    objs,
                    before,
                    slot.at,
                    chunk::samples_in(part, slot.raw),
                );
            },
        }
    }
}

proof fn lemma_cells_only_samples(
    objs: Seq<ObjectModel>,
    slots: Seq<SlotModel>,
    data: Seq<u8>,
    base: int,
    k: int,
)
    requires
        k <= slots.len(),
        chunk::slots_wf(slots, objs.len() as int),
    ensures
        chunk::row_cells(objs, slots, data, base, k) matches Ok(after) ==> only_samples(
            objs,
            after,
        ),
    decreases k,
{
    if k > 0 {
        lemma_cells_only_samples(objs, slots, data, base, k - 1);
        match chunk::row_cells(objs, slots, data, base, k - 1) {
            Err(_) => {},
            Ok(before) => {
                let slot = slots[k - 1];
                let v = chunk::sample_at(
                    data,
                    base + chunk::row_offset(slots, k - 1),
                    slot.raw.data_type,
                    slot.raw.bytes_per_value as int,
                );
                lemma_only_samples_step(objs, before, slot.at, seq![v]);
            },
        }
    }
}

proof fn lemma_rows_only_samples(
    objs: Seq<ObjectModel>,
    slots: Seq<SlotModel>,
    data: Seq<u8>,
    i: int,
)
    requires
        chunk::slots_wf(slots, objs.len() as int),
    ensures
        chunk::rows(objs, slots, data, i) matches Ok(after) ==> only_samples(objs, after),
    decreases i,
{
    if i > 0 {
        lemma_rows_only_samples(objs, slots, data, i - 1);
        match chunk::rows(objs, slots, data, i - 1) {
            Err(_) => {},
            Ok(before) => {
                let m = slots.len() as int;
                let base = (i - 1) * chunk::row_offset(slots, m);
                lemma_cells_only_samples(before, slots, data, base, m);
                match chunk::row_cells(before, slots, data, base, m) {
                    Err(_) => {},
                    Ok(after) => {
                        lemma_only_samples_trans(objs, before, after);
                    },
                }
            },
        }
    }
}

/// Reading chunks adds samples and nothing else.
pub proof fn lemma_chunks_only_samples(
    objs: Seq<ObjectModel>,
    slots: Seq<SlotModel>,
    data: Seq<u8>,
    size: int,
    is_interleaved: bool,
    k: int,
)
    requires
        chunk::slots_wf(slots, objs.len() as int),
    ensures
        chunk::chunks_read(objs, slots, data, size, is_interleaved, k) matches Ok(after)
            ==> only_samples(objs, after),
    decreases k,
{
    if k > 0 {
        lemma_chunks_only_samples(objs, slots, data, size, is_interleaved, k - 1);
        match chunk::chunks_read(objs, slots, data, size, is_interleaved, k - 1) {
            Err(_) => {},
            Ok(before) => {
                let part = data.subrange((k - 1) * size, k * size);
                lemma_decimated_only_samples(before, slots, part, slots.len() as int);
                lemma_rows_only_samples(before, slots, part, slots[0].raw.n_values as int);
                match chunk::chunk_read(before, slots, part, is_interleaved) {
                    Err(_) => {},
                    Ok(after) => {
                        lemma_only_samples_trans(objs, before, after);
                    },
                }
            },
        }
    }
}

/// What continues something continues what that continues.
pub proof fn lemma_continues_trans(a: Seq<ObjectModel>, b: Seq<ObjectModel>, c: Seq<ObjectModel>)
    requires
        continues(a, b),
        continues(b, c),
    ensures
        continues(a, c),
{
    assert forall|j: int| 0 <= j < a.len() implies grown(#[trigger] a[j], c[j]) by {
        assert(grown(a[j], b[j]));
        assert(grown(b[j], c[j]));
        assert forall|k: int| 0 <= k < a[j].samples.len() implies c[j].samples[k]
            == #[trigger] a[j].samples[k] by {
            assert(b[j].samples[k] == a[j].samples[k]);
            assert(c[j].samples[k] == b[j].samples[k]);
        }
    }
}

proof fn lemma_merged_keeps(m: Map<Seq<char>, PropertyModel>, ps: Seq<(Seq<char>, PropertyModel)>)
    ensures
        m.dom().subset_of(object::merged(m, ps).dom()),
    decreases ps.len(),
{
    if ps.len() > 0 {
        lemma_merged_keeps(m, ps.drop_last());
    }
}

proof fn lemma_ensured_continues(objs: Seq<ObjectModel>, fresh: ObjectModel)
    ensures
        continues(objs, object::ensured(objs, fresh).0),
        order::paths_distinct(objs) ==> order::paths_distinct(object::ensured(objs, fresh).0),
        0 <= object::ensured(objs, fresh).1 < object::ensured(objs, fresh).0.len(),
        object::ensured(objs, fresh).0[object::ensured(objs, fresh).1].path == fresh.path,
{
    object::lemma_find(objs, fresh.path);
}

/// More samples are a continuation.
pub proof fn lemma_only_samples_continues(a: Seq<ObjectModel>, b: Seq<ObjectModel>)
    requires
        only_samples(a, b),
    ensures
        continues(a, b),
        order::paths_distinct(a) ==> order::paths_distinct(b),
        order::layouts_ok(a) ==> order::layouts_ok(b),
{
    assert forall|j: int| 0 <= j < a.len() implies more_samples(a[j], #[trigger] b[j]) by {
        assert(more_samples(a[j], b[j]));
    }
}

/// A continuation leaves lists that can be read so.
pub proof fn lemma_order_continues(a: Seq<ObjectModel>, b: Seq<ObjectModel>, list: Seq<int>)
    requires
        continues(a, b),
        order::order_ok(a, list),
    ensures
        order::order_ok(b, list),
{
    assert forall|k: int| 0 <= k < list.len() implies 0 <= #[trigger] list[k] < b.len()
        && b[list[k]].last_raw is Some by {
        assert(grown(a[list[k]], b[list[k]]));
    }
}

/// A declaration keeps what is known of every object, and adds no samples.
pub proof fn lemma_declared_continues(objs: Seq<ObjectModel>, d: DeclModel)
    ensures
        continues(objs, object::declared(objs, d).0),
        same_samples(objs, object::declared(objs, d).0),
        order::paths_distinct(objs) ==> order::paths_distinct(object::declared(objs, d).0),
{
    let grouped = object::with_group(objs, d);
    match d.parent {
        Some(g) => {
            lemma_ensured_continues(objs, object::implied_group(g));
        },
        None => {},
    }
    assert(continues(objs, grouped));
    lemma_ensured_continues(grouped, object::fresh_object(d));
    let (all, i) = object::ensured(grouped, object::fresh_object(d));
    let after = object::declared(objs, d).0;
    lemma_merged_keeps(all[i].properties, d.properties);
    assert(continues(all, after));
    lemma_continues_trans(objs, grouped, all);
    lemma_continues_trans(objs, all, after);
    if order::paths_distinct(objs) {
        assert forall|a: int, b: int| 0 <= a < b < after.len() implies (#[trigger] after[a]).path
            != (#[trigger] after[b]).path by {
            assert(after[a].path == all[a].path && after[b].path == all[b].path);
        }
    }
}

/// Declarations keep what is known of every object, and add no samples.
pub proof fn lemma_declared_all_continues(objs: Seq<ObjectModel>, ds: Seq<DeclModel>)
    ensures
        continues(objs, object::declared_all(objs, ds).0),
        same_samples(objs, object::declared_all(objs, ds).0),
        order::paths_distinct(objs) ==> order::paths_distinct(object::declared_all(objs, ds).0),
    decreases ds.len(),
{
    if ds.len() > 0 {
        lemma_declared_all_continues(objs, ds.drop_last());
        let before = object::declared_all(objs, ds.drop_last()).0;
        lemma_declared_continues(before, ds.last());
        lemma_continues_trans(objs, before, object::declared_all(objs, ds).0);
    }
}

/// A segment that is read declares its objects and then adds samples to those
/// that are active.
pub proof fn lemma_segment_parts(
    bytes: Seq<u8>,
    start: int,
    objs: Seq<ObjectModel>,
    before: Seq<int>,
)
    requires
        order::layouts_ok(objs),
        order::order_ok(objs, before),
    ensures
        segment::segment_at(bytes, start, objs, before) matches Ok((after, list, end)) ==> {
            let toc = segment::toc_of(bytes, start);
            let buf = segment::body_of(bytes, start);
            end > start && (segment::metadata(buf, toc, objs) matches Ok((known, listed))
                && only_samples(known, after) && order::layouts_ok(known) && list
                == segment::list_of(bytes, start, known, before, listed) && order::order_ok(
                after,
                list,
            ))
        },
{
    reveal(segment::segment_at);
    match segment::segment_at(bytes, start, objs, before) {
        Err(_) => {},
        Ok((after, list, end)) => {
            let toc = segment::toc_of(bytes, start);
            let buf = segment::body_of(bytes, start);
            segment::lemma_metadata(buf, toc, objs, before);
            let (known, listed) = segment::metadata(buf, toc, objs)->Ok_0;
            order::lemma_active_ok(
                segment::marked(toc, segment::NEW_OBJ_LIST),
                known,
                before,
                listed,
                object::silent_paths(segment::declarations(bytes, start)),
            );
            if segment::marked(toc, segment::RAW_DATA) && list.len() > 0 {
                let slots = order::slots_of(known, list);
                order::lemma_slots_wf(known, list);
                let from = segment::raw_start(bytes, start);
                let size = segment::chunk_size(slots);
                if size != 0 {
                    lemma_chunks_only_samples(
                        known,
                        slots,
                        bytes.subrange(from, end),
                        size,
                        segment::marked(toc, segment::INTERLEAVED),
                        (end - from) / size,
                    );
                }
            }
            assert(only_samples(known, after));
            lemma_only_samples_continues(known, after);
            lemma_order_continues(known, after, list);
        },
    }
}

/// A segment keeps every object that was known before it: its place, its path
/// and name, its properties but for those set anew, and its samples, to which
/// the new ones are appended. No path comes to stand twice.
pub proof fn law_segment_keeps(
    bytes: Seq<u8>,
    start: int,
    objs: Seq<ObjectModel>,
    before: Seq<int>,
)
    requires
        sound(objs),
        order::order_ok(objs, before),
    ensures
        segment::segment_at(bytes, start, objs, before) matches Ok((after, list, end)) ==> sound(
            after,
        ) && order::order_ok(after, list) && continues(objs, after) && end > start,
{
    lemma_segment_parts(bytes, start, objs, before);
    match segment::segment_at(bytes, start, objs, before) {
        Err(_) => {},
        Ok((after, list, end)) => {
            let toc = segment::toc_of(bytes, start);
            let buf = segment::body_of(bytes, start);
            segment::lemma_metadata_continues(buf, toc, objs);
            let (known, _) = segment::metadata(buf, toc, objs)->Ok_0;
            lemma_only_samples_continues(known, after);
            lemma_continues_trans(objs, known, after);
        },
    }
}

/// What a segment leaves keeps every object that was known before it, whether
/// or not the segment can be read: its place, its path and name, its properties
/// but for those set anew, and its samples, to which new ones may be appended.
/// No path comes to stand twice. Where the lead-in, the metadata or the bounds
/// of the raw section are wrong, there are no new samples.
pub proof fn law_segment_left(
    bytes: Seq<u8>,
    start: int,
    objs: Seq<ObjectModel>,
    before: Seq<int>,
)
    requires
        order::layouts_ok(objs),
        order::order_ok(objs, before),
    ensures
        continues(objs, segment::segment_left(bytes, start, objs, before)),
        order::layouts_ok(segment::segment_left(bytes, start, objs, before)),
        order::paths_distinct(objs) ==> order::paths_distinct(
            segment::segment_left(bytes, start, objs, before),
        ),
        segment::unread(bytes, start, objs, before) ==> same_samples(
            objs,
            segment::segment_left(bytes, start, objs, before),
        ),
        segment::segment_at(bytes, start, objs, before) matches Ok((after, _, _)) ==> after
            == segment::segment_left(bytes, start, objs, before),
{
    reveal(segment::segment_at);
    let left = segment::segment_left(bytes, start, objs, before);
    let toc = segment::toc_of(bytes, start);
    let buf = segment::body_of(bytes, start);
    let ds = segment::declarations(bytes, start);
    lemma_declared_all_continues(objs, ds);
    segment::lemma_decls_of(buf, toc, objs);
    if segment::lead_in_fault(bytes, start) is None {
        segment::lemma_metadata(buf, toc, objs, before);
        match segment::metadata(buf, toc, objs) {
            Err(_) => {},
            Ok((known, listed)) => {
                assert((known, listed) == object::declared_all(objs, ds));
                let list = segment::list_of(bytes, start, known, before, listed);
                order::lemma_active_ok(
                    segment::marked(toc, segment::NEW_OBJ_LIST),
                    known,
                    before,
                    listed,
                    object::silent_paths(ds),
                );
                if segment::marked(toc, segment::RAW_DATA) && list.len() > 0 {
                    lemma_section_left(
                        bytes,
                        segment::raw_start(bytes, start),
                        segment::segment_end(bytes, start),
                        segment::marked(toc, segment::INTERLEAVED),
                        known,
                        list,
                    );
                    lemma_only_samples_continues(known, left);
                    lemma_continues_trans(objs, known, left);
                }
            },
        }
    }
}

proof fn lemma_section_left(
    bytes: Seq<u8>,
    from: int,
    to: int,
    is_interleaved: bool,
    objs: Seq<ObjectModel>,
    list: Seq<int>,
)
    requires
        order::layouts_ok(objs),
        order::order_ok(objs, list),
    ensures
        only_samples(
            objs,
            segment::section_left(bytes, from, to, is_interleaved, objs, list),
        ),
{
    let slots = order::slots_of(objs, list);
    order::lemma_slots_wf(objs, list);
    let size = segment::chunk_size(slots);
    let data = bytes.subrange(from, to);
    let part = data.subrange(0, size);
    let k = chunk::refused_from(slots, 0);
    lemma_chunks_only_samples(objs, slots, data, size, is_interleaved, (to - from) / size);
    chunk::lemma_before_refused(slots, 0);
    chunk::law_decimated_succeeds(objs, slots, part, k);
    chunk::lemma_cells_numeric(objs, slots, part, 0, k);
    lemma_decimated_only_samples(objs, slots, part, k);
    lemma_cells_only_samples(objs, slots, part, 0, k);
    assert(only_samples(objs, objs));
}

} // verus!
