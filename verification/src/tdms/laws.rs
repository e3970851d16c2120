//! Laws of the reader: which samples a chunk gives each channel, what a
//! declaration carries over, and how the hierarchy follows the objects.

use super::chunk;
use super::chunk::SlotModel;
use super::error::TdmsFault;
use super::file;
use super::file::{ChannelModel, FileModel, GroupModel};
use super::history;
use super::object;
use super::object::{DeclModel, ObjectModel, RawDataIndex, RawHeader};
use super::order;
use super::segment;
use super::value::Scalar;
use vstd::prelude::*;

verus! {

/// Whether no channel has two slots.
pub open spec fn slots_distinct(slots: Seq<SlotModel>) -> bool {
    forall|i: int, j: int|
        0 <= i < j < slots.len() ==> (#[trigger] slots[i]).at != (#[trigger] slots[j]).at
}

/// The samples of slot `j` in a chunk that holds one channel behind the other.
pub open spec fn block_samples(slots: Seq<SlotModel>, data: Seq<u8>, j: int) -> Seq<Scalar> {
    chunk::samples_in(
        data.subrange(chunk::offset(slots, j), chunk::offset(slots, j + 1)),
        slots[j].raw,
    )
}

/// The samples of slot `j` in the first `n` rows of an interleaved chunk: one
/// per row, always as far behind the start of the row.
pub open spec fn strided_samples(slots: Seq<SlotModel>, data: Seq<u8>, j: int, n: nat) -> Seq<
    Scalar,
> {
    Seq::new(
        n,
        |r: int| chunk::sample_at(
            data,
            r * chunk::row_offset(slots, slots.len() as int) + chunk::row_offset(slots, j),
            slots[j].raw.data_type,
            slots[j].raw.bytes_per_value as int,
        ),
    )
}

/// Each channel of a chunk that holds one channel behind the other is given
/// the samples of its own block, and no other object is changed.
pub proof fn law_decimated_samples(
    objs: Seq<ObjectModel>,
    slots: Seq<SlotModel>,
    data: Seq<u8>,
    k: int,
)
    requires
        0 <= k <= slots.len(),
        chunk::slots_wf(slots, objs.len() as int),
        slots_distinct(slots),
    ensures
        chunk::decimated(objs, slots, data, k) matches Ok(after) ==> {
            &&& after.len() == objs.len()
            &&& forall|j: int|
                0 <= j < k ==> after[(#[trigger] slots[j]).at].samples
                    == objs[slots[j].at].samples + block_samples(slots, data, j)
            &&& forall|i: int|
                0 <= i < objs.len() && !chunk::has_slot(slots, k, i) ==> #[trigger] after[i] == objs[i]
        },
    decreases k,
{
    if k > 0 {
        law_decimated_samples(objs, slots, data, k - 1);
        match chunk::decimated(objs, slots, data, k) {
            Err(_) => {},
            Ok(after) => {
                let before = chunk::decimated(objs, slots, data, k - 1)->Ok_0;
                let slot = slots[k - 1];
                assert(!chunk::has_slot(slots, k - 1, slot.at));
                assert(before[slot.at] == objs[slot.at]);
                assert forall|j: int| 0 <= j < k implies after[(#[trigger] slots[j]).at].samples
                    == objs[slots[j].at].samples + block_samples(slots, data, j) by {
                    if j < k - 1 {
                        assert(slots[j].at != slot.at);
                    }
                }
                assert forall|i: int|
                    0 <= i < objs.len() && !chunk::has_slot(slots, k, i) implies #[trigger] after[i]
                    == objs[i] by {
                    assert(slots[k - 1].at != i);
                    if chunk::has_slot(slots, k - 1, i) {
                        let j = choose|j: int| 0 <= j < k - 1 && (#[trigger] slots[j]).at == i;
                        assert(slots[j].at == i && 0 <= j < k);
                    }
                }
            },
        }
    }
}

proof fn lemma_row_samples(
    objs: Seq<ObjectModel>,
    slots: Seq<SlotModel>,
    data: Seq<u8>,
    base: int,
    k: int,
)
    requires
        0 <= k <= slots.len(),
        chunk::slots_wf(slots, objs.len() as int),
        slots_distinct(slots),
    ensures
        chunk::row_cells(objs, slots, data, base, k) matches Ok(after) ==> {
            &&& after.len() == objs.len()
            &&& forall|j: int|
                0 <= j < k ==> after[(#[trigger] slots[j]).at].samples
                    == objs[slots[j].at].samples.push(
                    chunk::sample_at(
                        data,
                        base + chunk::row_offset(slots, j),
                        slots[j].raw.data_type,
                        slots[j].raw.bytes_per_value as int,
                    ),
                )
            &&& forall|i: int|
                0 <= i < objs.len() && !chunk::has_slot(slots, k, i) ==> #[trigger] after[i] == objs[i]
        },
    decreases k,
{
    if k > 0 {
        lemma_row_samples(objs, slots, data, base, k - 1);
        match chunk::row_cells(objs, slots, data, base, k) {
            Err(_) => {},
            Ok(after) => {
                let before = chunk::row_cells(objs, slots, data, base, k - 1)->Ok_0;
                let slot = slots[k - 1];
                assert(!chunk::has_slot(slots, k - 1, slot.at));
                assert(before[slot.at] == objs[slot.at]);
                assert forall|j: int| 0 <= j < k implies after[(#[trigger] slots[j]).at].samples
                    == objs[slots[j].at].samples.push(
                    chunk::sample_at(
                        data,
                        base + chunk::row_offset(slots, j),
                        slots[j].raw.data_type,
                        slots[j].raw.bytes_per_value as int,
                    ),
                ) by {
                    if j < k - 1 {
                        assert(slots[j].at != slot.at);
                    } else {
                        let v = chunk::sample_at(
                            data,
                            base + chunk::row_offset(slots, j),
                            slots[j].raw.data_type,
                            slots[j].raw.bytes_per_value as int,
                        );
                        assert(objs[slot.at].samples + seq![v] =~= objs[slot.at].samples.push(v));
                    }
                }
                assert forall|i: int|
                    0 <= i < objs.len() && !chunk::has_slot(slots, k, i) implies #[trigger] after[i]
                    == objs[i] by {
                    assert(slots[k - 1].at != i);
                    if chunk::has_slot(slots, k - 1, i) {
                        let j = choose|j: int| 0 <= j < k - 1 && (#[trigger] slots[j]).at == i;
                        assert(slots[j].at == i && 0 <= j < k);
                    }
                }
            },
        }
    }
}

/// Each channel of an interleaved chunk is given one sample of every row, and
/// no other object is changed.
pub proof fn law_interleaved_samples(
    objs: Seq<ObjectModel>,
    slots: Seq<SlotModel>,
    data: Seq<u8>,
    n: nat,
)
    requires
        chunk::slots_wf(slots, objs.len() as int),
        slots_distinct(slots),
    ensures
        chunk::rows(objs, slots, data, n as int) matches Ok(after) ==> {
            &&& after.len() == objs.len()
            &&& forall|j: int|
                0 <= j < slots.len() ==> after[(#[trigger] slots[j]).at].samples
                    == objs[slots[j].at].samples + strided_samples(slots, data, j, n)
            &&& forall|i: int|
                0 <= i < objs.len() && !chunk::has_slot(slots, slots.len() as int, i)
                    ==> #[trigger] after[i] == objs[i]
        },
    decreases n,
{
    let m = slots.len() as int;
    if n > 0 {
        law_interleaved_samples(objs, slots, data, (n - 1) as nat);
        match chunk::rows(objs, slots, data, n as int) {
            Err(_) => {},
            Ok(after) => {
                let before = chunk::rows(objs, slots, data, n - 1)->Ok_0;
                let base = (n - 1) * chunk::row_offset(slots, m);
                lemma_row_samples(before, slots, data, base, m);
                assert forall|j: int| 0 <= j < m implies after[(#[trigger] slots[j]).at].samples
                    == objs[slots[j].at].samples + strided_samples(slots, data, j, n) by {
                    assert(before[slots[j].at].samples == objs[slots[j].at].samples
                        + strided_samples(slots, data, j, (n - 1) as nat));
                    assert(after[slots[j].at].samples =~= objs[slots[j].at].samples
                        + strided_samples(slots, data, j, n));
                }
            },
        }
    } else {
        assert forall|j: int| 0 <= j < m implies objs[(#[trigger] slots[j]).at].samples
            == objs[slots[j].at].samples + strided_samples(slots, data, j, 0) by {
            assert(objs[slots[j].at].samples =~= objs[slots[j].at].samples + strided_samples(
                slots,
                data,
                j,
                0,
            ));
        }
    }
}

/// The samples of slot `j` in a chunk.
pub open spec fn chunk_samples(
    slots: Seq<SlotModel>,
    data: Seq<u8>,
    j: int,
    is_interleaved: bool,
) -> Seq<Scalar> {
    if is_interleaved {
        strided_samples(slots, data, j, slots[0].raw.n_values as nat)
    } else {
        block_samples(slots, data, j)
    }
}

/// The samples of slot `j` in the first `k` chunks of `size` bytes.
pub open spec fn chunks_samples(
    slots: Seq<SlotModel>,
    data: Seq<u8>,
    size: int,
    j: int,
    is_interleaved: bool,
    k: int,
) -> Seq<Scalar>
    decreases k,
{
    if k <= 0 {
        Seq::empty()
    } else {
        chunks_samples(slots, data, size, j, is_interleaved, k - 1) + chunk_samples(
            slots,
            data.subrange((k - 1) * size, k * size),
            j,
            is_interleaved,
        )
    }
}

proof fn lemma_chunk_samples(
    objs: Seq<ObjectModel>,
    slots: Seq<SlotModel>,
    data: Seq<u8>,
    is_interleaved: bool,
)
    requires
        slots.len() > 0,
        chunk::slots_wf(slots, objs.len() as int),
        slots_distinct(slots),
    ensures
        chunk::chunk_read(objs, slots, data, is_interleaved) matches Ok(after) ==> {
            &&& after.len() == objs.len()
            &&& forall|j: int|
                0 <= j < slots.len() ==> after[(#[trigger] slots[j]).at].samples
                    == objs[slots[j].at].samples + chunk_samples(slots, data, j, is_interleaved)
            &&& forall|i: int|
                0 <= i < objs.len() && !chunk::has_slot(slots, slots.len() as int, i)
                    ==> #[trigger] after[i] == objs[i]
        },
{
    if is_interleaved {
        law_interleaved_samples(objs, slots, data, slots[0].raw.n_values as nat);
    } else {
        law_decimated_samples(objs, slots, data, slots.len() as int);
    }
}

/// Each channel is given its samples of all chunks, one chunk after the other,
/// and no other object is changed.
pub proof fn law_chunks_samples(
    objs: Seq<ObjectModel>,
    slots: Seq<SlotModel>,
    data: Seq<u8>,
    size: int,
    is_interleaved: bool,
    k: int,
)
    requires
        slots.len() > 0,
        chunk::slots_wf(slots, objs.len() as int),
        slots_distinct(slots),
    ensures
        chunk::chunks_read(objs, slots, data, size, is_interleaved, k) matches Ok(after) ==> {
            &&& after.len() == objs.len()
            &&& forall|j: int|
                0 <= j < slots.len() ==> after[(#[trigger] slots[j]).at].samples
                    == objs[slots[j].at].samples + chunks_samples(
                    slots,
                    data,
                    size,
                    j,
                    is_interleaved,
                    k,
                )
            &&& forall|i: int|
                0 <= i < objs.len() && !chunk::has_slot(slots, slots.len() as int, i)
                    ==> #[trigger] after[i] == objs[i]
        },
    decreases k,
{
    if k > 0 {
        law_chunks_samples(objs, slots, data, size, is_interleaved, k - 1);
        match chunk::chunks_read(objs, slots, data, size, is_interleaved, k) {
            Err(_) => {},
            Ok(after) => {
                let before = chunk::chunks_read(
                    objs,
                    slots,
                    data,
                    size,
                    is_interleaved,
                    k - 1,
                )->Ok_0;
                let part = data.subrange((k - 1) * size, k * size);
                lemma_chunk_samples(before, slots, part, is_interleaved);
                assert forall|j: int| 0 <= j < slots.len() implies after[(
                #[trigger] slots[j]).at].samples == objs[slots[j].at].samples + chunks_samples(
                    slots,
                    data,
                    size,
                    j,
                    is_interleaved,
                    k,
                ) by {
                    assert(after[slots[j].at].samples =~= objs[slots[j].at].samples
                        + chunks_samples(slots, data, size, j, is_interleaved, k));
                }
            },
        }
    } else {
        assert forall|j: int| 0 <= j < slots.len() implies objs[(
        #[trigger] slots[j]).at].samples == objs[slots[j].at].samples + chunks_samples(
            slots,
            data,
            size,
            j,
            is_interleaved,
            k,
        ) by {
            assert(objs[slots[j].at].samples =~= objs[slots[j].at].samples + chunks_samples(
                slots,
                data,
                size,
                j,
                is_interleaved,
                k,
            ));
        }
    }
}

/// Each channel of a raw section is given its samples of all chunks behind
/// those it had, where none is listed twice, and no other object is changed.
pub proof fn law_section_samples(
    bytes: Seq<u8>,
    from: int,
    to: int,
    is_interleaved: bool,
    objs: Seq<ObjectModel>,
    list: Seq<int>,
)
    requires
        list.len() > 0,
        list.no_duplicates(),
        order::layouts_ok(objs),
        order::order_ok(objs, list),
        segment::chunk_size(order::slots_of(objs, list)) > 0,
    ensures
        segment::raw_section(bytes, from, to, is_interleaved, objs, list) matches Ok(after) ==> {
            let slots = order::slots_of(objs, list);
            let size = segment::chunk_size(slots);
            &&& after.len() == objs.len()
            &&& forall|j: int|
                0 <= j < list.len() ==> after[#[trigger] list[j]].samples
                    == objs[list[j]].samples + chunks_samples(
                    slots,
                    bytes.subrange(from, to),
                    size,
                    j,
                    is_interleaved,
                    (to - from) / size,
                )
            &&& forall|i: int|
                0 <= i < objs.len() && !list.contains(i) ==> #[trigger] after[i] == objs[i]
        },
{
    let slots = order::slots_of(objs, list);
    let size = segment::chunk_size(slots);
    order::lemma_slots_wf(objs, list);
    assert(slots_distinct(slots)) by {
        assert forall|i: int, j: int| 0 <= i < j < slots.len() implies (#[trigger] slots[i]).at
            != (#[trigger] slots[j]).at by {
            assert(list[i] != list[j]);
        }
    }
    match segment::raw_section(bytes, from, to, is_interleaved, objs, list) {
        Err(_) => {},
        Ok(after) => {
            let k = (to - from) / size;
            law_chunks_samples(objs, slots, bytes.subrange(from, to), size, is_interleaved, k);
            assert forall|j: int| 0 <= j < list.len() implies after[#[trigger] list[j]].samples
                == objs[list[j]].samples + chunks_samples(
                slots,
                bytes.subrange(from, to),
                size,
                j,
                is_interleaved,
                k,
            ) by {
                assert(slots[j].at == list[j]);
            }
            assert forall|i: int| 0 <= i < objs.len() && !list.contains(i) implies #[trigger] after[i]
                == objs[i] by {
                if chunk::has_slot(slots, slots.len() as int, i) {
                    let j = choose|j: int|
                        0 <= j < slots.len() && (#[trigger] slots[j]).at == i;
                    assert(list[j] == i);
                }
            }
        },
    }
}

/// A declaration that says "as before" of a known object keeps its layout, and
/// the object takes part in the raw data with it.
pub proof fn law_same_as_before(objs: Seq<ObjectModel>, d: DeclModel, i: int, raw: RawDataIndex)
    requires
        d.raw is SameAsBefore,
        object::find(objs, d.path) == Some(i),
        objs[i].last_raw == Some(raw),
    ensures
        object::declared(objs, d).1 == Some(i),
        object::declared(objs, d).0[i].last_raw == Some(raw),
{
    object::lemma_find(objs, d.path);
    let grouped = object::with_group(objs, d);
    if grouped != objs {
        assert(grouped.drop_last() =~= objs);
        assert(object::find(grouped, d.path) == Some(i));
    }
}

/// Reading on keeps everything that was read, up to the end of the file.
pub proof fn law_file_keeps(bytes: Seq<u8>, pos: int, objs: Seq<ObjectModel>, before: Seq<int>)
    requires
        history::sound(objs),
        order::order_ok(objs, before),
    ensures
        file::segments(bytes, pos, objs, before) matches Ok((after, list)) ==> history::sound(
            after,
        ) && order::order_ok(after, list) && history::continues(objs, after),
    decreases
            (if pos < bytes.len() {
                bytes.len() - pos
            } else {
                0
            }),
{
    if pos < bytes.len() {
        history::law_segment_keeps(bytes, pos, objs, before);
        match segment::segment_at(bytes, pos, objs, before) {
            Err(_) => {},
            Ok((next, list, end)) => {
                law_file_keeps(bytes, end, next, list);
                match file::segments(bytes, end, next, list) {
                    Err(_) => {},
                    Ok((after, _)) => {
                        history::lemma_continues_trans(objs, next, after);
                    },
                }
            },
        }
    }
}

/// The channels of a group among the first `k` objects, in the order in which
/// they were first seen.
pub open spec fn channels_in(objs: Seq<ObjectModel>, k: int, group: Seq<char>) -> Seq<
    ChannelModel,
>
    decreases k,
{
    if k <= 0 {
        Seq::empty()
    } else {
        let before = channels_in(objs, k - 1, group);
        let o = objs[k - 1];
        if o.depth == 2 && file::group_of(o) == group {
            before.push(
                ChannelModel { name: o.name, properties: o.properties, data: o.samples },
            )
        } else {
            before
        }
    }
}

/// A group that is found by name has that name and is the first to have it.
pub proof fn lemma_group_named(groups: Seq<GroupModel>, name: Seq<char>)
    ensures
        match file::group_named(groups, name) {
            Some(i) => 0 <= i < groups.len() && groups[i].name == name && (forall|j: int|
                0 <= j < i ==> (#[trigger] groups[j]).name != name),
            None => forall|j: int| 0 <= j < groups.len() ==> (#[trigger] groups[j]).name != name,
        },
    decreases groups.len(),
{
    if groups.len() > 0 {
        let rest = groups.drop_last();
        lemma_group_named(rest, name);
        assert forall|j: int| 0 <= j < rest.len() implies #[trigger] groups[j] == rest[j] by {}
        match file::group_named(rest, name) {
            Some(i) => {
                assert(groups[i] == rest[i]);
            },
            None => {},
        }
    }
}

proof fn lemma_group_named_by_names(a: Seq<GroupModel>, b: Seq<GroupModel>, name: Seq<char>)
    requires
        a.len() == b.len(),
        forall|i: int| 0 <= i < a.len() ==> (#[trigger] a[i]).name == b[i].name,
    ensures
        file::group_named(a, name) == file::group_named(b, name),
    decreases a.len(),
{
    if a.len() > 0 {
        assert forall|i: int| 0 <= i < a.len() - 1 implies (#[trigger] a.drop_last()[i]).name
            == b.drop_last()[i].name by {
            assert(a.drop_last()[i] == a[i]);
        }
        lemma_group_named_by_names(a.drop_last(), b.drop_last(), name);
        assert(a[a.len() - 1].name == b[b.len() - 1].name);
    }
}

/// Every group keeps its name and properties, and the first group of a name
/// has exactly the channels of that group.
pub proof fn law_groups_filled(groups: Seq<GroupModel>, objs: Seq<ObjectModel>, k: int)
    requires
        forall|i: int|
            0 <= i < groups.len() ==> (#[trigger] groups[i]).channels == Seq::<
                ChannelModel,
            >::empty(),
    ensures
        file::filled_groups(groups, objs, k) matches Ok(after) ==> {
            &&& after.len() == groups.len()
            &&& forall|i: int|
                0 <= i < groups.len() ==> (#[trigger] after[i]).name == groups[i].name
                    && after[i].properties == groups[i].properties
            &&& forall|i: int|
                0 <= i < groups.len() && file::group_named(groups, groups[i].name) == Some(i)
                    ==> (#[trigger] after[i]).channels == channels_in(objs, k, groups[i].name)
        },
    decreases k,
{
    if k > 0 {
        law_groups_filled(groups, objs, k - 1);
        match file::filled_groups(groups, objs, k) {
            Err(_) => {},
            Ok(after) => {
                let before = file::filled_groups(groups, objs, k - 1)->Ok_0;
                let o = objs[k - 1];
                if o.depth == 2 {
                    let g = file::group_of(o);
                    lemma_group_named(before, g);
                    lemma_group_named_by_names(before, groups, g);
                    let at = file::group_named(before, g)->0;
                    assert forall|i: int|
                        0 <= i < groups.len() && file::group_named(groups, groups[i].name)
                            == Some(i) implies (#[trigger] after[i]).channels == channels_in(
                        objs,
                        k,
                        groups[i].name,
                    ) by {
                        assert(before[i].name == groups[i].name);
                        if i != at {
                            assert(groups[i].name != g);
                        }
                    }
                }
            },
        }
    }
}

/// Whether an object is the channel of this name in this group.
pub open spec fn is_channel(o: ObjectModel, group: Seq<char>, name: Seq<char>) -> bool {
    o.depth == 2 && file::group_of(o) == group && o.name == name
}

/// The first channel of this name in this group among the first `k` objects.
pub open spec fn first_channel(
    objs: Seq<ObjectModel>,
    k: int,
    group: Seq<char>,
    name: Seq<char>,
) -> Option<int>
    decreases k,
{
    if k <= 0 {
        None
    } else {
        match first_channel(objs, k - 1, group, name) {
            Some(i) => Some(i),
            None => if is_channel(objs[k - 1], group, name) {
                Some(k - 1)
            } else {
                None
            },
        }
    }
}

/// The channel that an object becomes.
pub open spec fn channel_of(o: ObjectModel) -> ChannelModel {
    ChannelModel { name: o.name, properties: o.properties, data: o.samples }
}

proof fn lemma_channel_in(objs: Seq<ObjectModel>, k: int, group: Seq<char>, name: Seq<char>)
    requires
        0 <= k <= objs.len(),
    ensures
        match (
            first_channel(objs, k, group, name),
            file::channel_named(channels_in(objs, k, group), name),
        ) {
            (Some(i), Some(j)) => 0 <= i < k && 0 <= j < channels_in(objs, k, group).len()
                && channels_in(objs, k, group)[j] == channel_of(objs[i]),
            (None, None) => true,
            _ => false,
        },
    decreases k,
{
    if k > 0 {
        lemma_channel_in(objs, k - 1, group, name);
        let before = channels_in(objs, k - 1, group);
        let all = channels_in(objs, k, group);
        if all.len() > before.len() {
            assert(all.drop_last() =~= before);
        }
    }
}

/// Groups are without channels at first.
pub proof fn lemma_groups_empty(objs: Seq<ObjectModel>, k: int)
    ensures
        forall|i: int|
            0 <= i < file::empty_groups(objs, k).len() ==> (#[trigger] file::empty_groups(
                objs,
                k,
            )[i]).channels == Seq::<ChannelModel>::empty(),
    decreases k,
{
    if k > 0 {
        lemma_groups_empty(objs, k - 1);
        let all = file::empty_groups(objs, k);
        let before = file::empty_groups(objs, k - 1);
        assert forall|i: int| 0 <= i < all.len() implies (#[trigger] all[i]).channels == Seq::<
            ChannelModel,
        >::empty() by {
            if i < before.len() {
                assert(all[i] == before[i]);
            }
        }
    }
}

proof fn lemma_filled_has_group(
    groups: Seq<GroupModel>,
    objs: Seq<ObjectModel>,
    k: int,
    i: int,
)
    requires
        0 <= i < k <= objs.len(),
        objs[i].depth == 2,
        file::filled_groups(groups, objs, k) is Ok,
        forall|j: int|
            0 <= j < groups.len() ==> (#[trigger] groups[j]).channels == Seq::<
                ChannelModel,
            >::empty(),
    ensures
        file::group_named(groups, file::group_of(objs[i])) is Some,
    decreases k,
{
    if i == k - 1 {
        let before = file::filled_groups(groups, objs, k - 1)->Ok_0;
        law_groups_filled(groups, objs, k - 1);
        lemma_group_named_by_names(before, groups, file::group_of(objs[i]));
    } else {
        lemma_filled_has_group(groups, objs, k - 1, i);
    }
}

/// A channel that is looked up is the first object of its group and name, with
/// all its properties and samples; where nothing is found there is none.
pub proof fn law_channel_lookup(objs: Seq<ObjectModel>, group: Seq<char>, name: Seq<char>)
    requires
        file::hierarchy(objs) is Ok,
    ensures
        file::hierarchy(objs)->Ok_0.channel(group, name) == match first_channel(
            objs,
            objs.len() as int,
            group,
            name,
        ) {
            Some(i) => Some(channel_of(objs[i])),
            None => None,
        },
{
    let n = objs.len() as int;
    let f = file::hierarchy(objs)->Ok_0;
    let groups = file::empty_groups(objs, n);
    lemma_groups_empty(objs, n);
    law_groups_filled(groups, objs, n);
    lemma_group_named_by_names(f.groups, groups, group);
    lemma_group_named(groups, group);
    lemma_channel_in(objs, n, group, name);
    match file::group_named(groups, group) {
        Some(i) => {
            assert(f.groups[i].channels == channels_in(objs, n, group));
        },
        None => {
            match first_channel(objs, n, group, name) {
                Some(i) => {
                    lemma_first_channel(objs, n, group, name);
                    lemma_filled_has_group(groups, objs, n, i);
                },
                None => {},
            }
        },
    }
}

/// The first channel of a name has it; where there is none, no object has.
pub proof fn lemma_first_channel(objs: Seq<ObjectModel>, k: int, group: Seq<char>, name: Seq<char>)
    ensures
        match first_channel(objs, k, group, name) {
            Some(i) => 0 <= i < k && is_channel(objs[i], group, name),
            None => forall|i: int| 0 <= i < k ==> !is_channel(#[trigger] objs[i], group, name),
        },
    decreases k,
{
    if k > 0 {
        lemma_first_channel(objs, k - 1, group, name);
    }
}

} // verus!
