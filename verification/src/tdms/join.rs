//! Two files one behind the other hold the data and the properties of both.

use super::chunk;
use super::chunk::SlotModel;
use super::error::TdmsFault;
use super::file;
use super::file::ChannelModel;
use super::hierarchy;
use super::history;
use super::naming;
use super::object;
use super::object::{DeclModel, ObjectModel, RawHeader};
use super::order;
use super::segment;
use super::splice;
use super::value::{PropertyModel, Scalar};
use vstd::prelude::*;

verus! {

/// What is known of the object with this path.
pub open spec fn known(objs: Seq<ObjectModel>, path: Seq<char>) -> Option<ObjectModel> {
    match object::find(objs, path) {
        Some(i) => Some(objs[i]),
        None => None,
    }
}

/// What is known of an object from two files: its samples in the first and
/// then those in the second, and its properties, of which those in the second
/// count where both have them.
pub open spec fn object_of_both(a: Option<ObjectModel>, b: Option<ObjectModel>) -> Option<
    ObjectModel,
> {
    match (a, b) {
        (None, _) => b,
        (Some(_), None) => a,
        (Some(x), Some(y)) => Some(
            ObjectModel {
                properties: x.properties.union_prefer_right(y.properties),
                samples: x.samples + y.samples,
                last_raw: if y.last_raw is Some {
                    y.last_raw
                } else {
                    x.last_raw
                },
                ..x
            },
        ),
    }
}

/// Whether `c` is what is known from two files, of which one gives `a` and the
/// other `b`.
pub open spec fn both(a: Seq<ObjectModel>, b: Seq<ObjectModel>, c: Seq<ObjectModel>) -> bool {
    forall|path: Seq<char>| #[trigger]
        known(c, path) == object_of_both(known(a, path), known(b, path))
}

/// Whether no declaration takes a layout from before these declarations and
/// objects: one that says `as before` is of an object whose layout is known.
pub open spec fn layouts_own(objs: Seq<ObjectModel>, ds: Seq<DeclModel>) -> bool
    decreases ds.len(),
{
    ds.len() == 0 || (layouts_own(objs, ds.drop_last()) && (ds.last().raw
        == RawHeader::SameAsBefore ==> (known(
        object::declared_all(objs, ds.drop_last()).0,
        ds.last().path,
    ) matches Some(o) && o.last_raw is Some)))
}

/// Whether the segments from `pos` on take no layout from before them.
pub open spec fn file_layouts_own(
    bytes: Seq<u8>,
    pos: int,
    objs: Seq<ObjectModel>,
    before: Seq<int>,
) -> bool
    decreases
        (if pos < bytes.len() {
            bytes.len() - pos
        } else {
            0
        }),
{
    pos >= bytes.len() || (layouts_own(objs, segment::declarations(bytes, pos)) && {
        proof {
            segment::lemma_segment_advances(bytes, pos, objs, before);
        }
        match segment::segment_at(bytes, pos, objs, before) {
            Err(_) => true,
            Ok((after, list, end)) => file_layouts_own(bytes, end, after, list),
        }
    })
}

/// Whether a file stands on its own: its first segment lists its objects
/// itself, and none takes a layout from before the file.
pub open spec fn own(bytes: Seq<u8>) -> bool {
    (bytes.len() == 0 || segment::marked(segment::toc_of(bytes, 0), segment::NEW_OBJ_LIST))
        && file_layouts_own(bytes, 0, Seq::empty(), Seq::empty())
}

proof fn lemma_known_at(objs: Seq<ObjectModel>, i: int)
    requires
        order::paths_distinct(objs),
        0 <= i < objs.len(),
    ensures
        object::find(objs, objs[i].path) == Some(i),
        known(objs, objs[i].path) == Some(objs[i]),
{
    object::lemma_find(objs, objs[i].path);
    let j = object::find(objs, objs[i].path)->0;
    if j < i {
        assert(objs[j].path != objs[i].path);
    }
}

proof fn lemma_find_is(objs: Seq<ObjectModel>, path: Seq<char>, i: int)
    requires
        0 <= i < objs.len(),
        objs[i].path == path,
        forall|j: int| 0 <= j < i ==> (#[trigger] objs[j]).path != path,
    ensures
        object::find(objs, path) == Some(i),
{
    object::lemma_find(objs, path);
    match object::find(objs, path) {
        Some(k) => {
            if i < k {
                assert(objs[i].path != path);
            }
        },
        None => {
            assert(objs[i].path != path);
        },
    }
}

/// An object that is replaced is the one that is known.
pub proof fn lemma_known_updated(objs: Seq<ObjectModel>, i: int, o: ObjectModel, path: Seq<char>)
    requires
        0 <= i < objs.len(),
        o.path == objs[i].path,
        object::find(objs, o.path) == Some(i),
    ensures
        known(objs.update(i, o), path) == if path == o.path {
            Some(o)
        } else {
            known(objs, path)
        },
        object::find(objs.update(i, o), path) == object::find(objs, path),
{
    let after = objs.update(i, o);
    object::lemma_find(objs, path);
    assert forall|j: int| 0 <= j < objs.len() implies (#[trigger] after[j]).path
        == objs[j].path by {}
    match object::find(objs, path) {
        Some(k) => {
            lemma_find_is(after, path, k);
        },
        None => {
            object::lemma_find(after, path);
            match object::find(after, path) {
                Some(k) => {
                    assert(objs[k].path != path);
                },
                None => {},
            }
        },
    }
}

/// An object that is added where its path is not known is known behind it.
pub proof fn lemma_known_ensured(objs: Seq<ObjectModel>, fresh: ObjectModel, path: Seq<char>)
    ensures
        known(object::ensured(objs, fresh).0, path) == match known(objs, path) {
            Some(o) => Some(o),
            None => if path == fresh.path {
                Some(fresh)
            } else {
                None
            },
        },
        object::find(object::ensured(objs, fresh).0, fresh.path) == Some(
            object::ensured(objs, fresh).1,
        ),
{
    object::lemma_find(objs, path);
    object::lemma_find(objs, fresh.path);
    let all = object::ensured(objs, fresh).0;
    if object::find(objs, fresh.path) is None {
        assert(all.drop_last() =~= objs);
        assert(all.last() == fresh);
    }
}

proof fn lemma_both_ensured(
    a: Seq<ObjectModel>,
    b: Seq<ObjectModel>,
    c: Seq<ObjectModel>,
    fresh: ObjectModel,
)
    requires
        both(a, b, c),
        fresh.properties == Map::<Seq<char>, PropertyModel>::empty(),
        fresh.samples == Seq::<Scalar>::empty(),
        fresh.last_raw is None,
    ensures
        both(a, object::ensured(b, fresh).0, object::ensured(c, fresh).0),
{
    let b2 = object::ensured(b, fresh).0;
    let c2 = object::ensured(c, fresh).0;
    assert forall|path: Seq<char>| #[trigger]
        known(c2, path) == object_of_both(known(a, path), known(b2, path)) by {
        lemma_known_ensured(b, fresh, path);
        lemma_known_ensured(c, fresh, path);
        assert(known(c, path) == object_of_both(known(a, path), known(b, path)));
        match (known(a, path), known(b, path)) {
            (Some(x), None) => {
                assert(x.properties.union_prefer_right(fresh.properties) =~= x.properties);
                assert(x.samples + fresh.samples =~= x.samples);
            },
            _ => {},
        }
    }
}

proof fn lemma_merged_union(
    x: Map<Seq<char>, PropertyModel>,
    y: Map<Seq<char>, PropertyModel>,
    ps: Seq<(Seq<char>, PropertyModel)>,
)
    ensures
        object::merged(x.union_prefer_right(y), ps) == x.union_prefer_right(
            object::merged(y, ps),
        ),
    decreases ps.len(),
{
    if ps.len() > 0 {
        lemma_merged_union(x, y, ps.drop_last());
        assert(object::merged(x.union_prefer_right(y), ps) =~= x.union_prefer_right(
            object::merged(y, ps),
        ));
    }
}

/// A declaration makes of the objects of both files what it makes of those of
/// the second, and lists the same object.
proof fn lemma_both_declared(
    a: Seq<ObjectModel>,
    b: Seq<ObjectModel>,
    c: Seq<ObjectModel>,
    d: DeclModel,
)
    requires
        both(a, b, c),
        d.raw == RawHeader::SameAsBefore ==> (known(b, d.path) matches Some(o)
            && o.last_raw is Some),
    ensures
        both(a, object::declared(b, d).0, object::declared(c, d).0),
        match (object::declared(b, d).1, object::declared(c, d).1) {
            (Some(i), Some(j)) => 0 <= i < object::declared(b, d).0.len() && 0 <= j
                < object::declared(c, d).0.len() && object::declared(b, d).0[i].path == d.path
                && object::declared(c, d).0[j].path == d.path,
            (None, None) => true,
            _ => false,
        },
{
    let raw = object::declared_raw(b, d);
    assert(known(c, d.path) == object_of_both(known(a, d.path), known(b, d.path)));
    assert(raw == object::declared_raw(c, d));
    let gb = object::with_group(b, d);
    let gc = object::with_group(c, d);
    match d.parent {
        Some(g) => {
            if d.depth == 2 {
                lemma_both_ensured(a, b, c, object::implied_group(g));
            }
        },
        None => {},
    }
    assert(both(a, gb, gc));
    let fresh = object::fresh_object(d);
    lemma_both_ensured(a, gb, gc, fresh);
    let (nb, i) = object::ensured(gb, fresh);
    let (nc, j) = object::ensured(gc, fresh);
    lemma_known_ensured(gb, fresh, d.path);
    lemma_known_ensured(gc, fresh, d.path);
    object::lemma_find(nb, d.path);
    object::lemma_find(nc, d.path);
    let rb = object::declared(b, d).0;
    let rc = object::declared(c, d).0;
    assert forall|path: Seq<char>| #[trigger]
        known(rc, path) == object_of_both(known(a, path), known(rb, path)) by {
        assert(known(nc, path) == object_of_both(known(a, path), known(nb, path)));
        lemma_known_updated(nb, i, rb[i], path);
        lemma_known_updated(nc, j, rc[j], path);
        if path == d.path {
            match known(a, path) {
                Some(x) => {
                    lemma_merged_union(x.properties, nb[i].properties, d.properties);
                },
                None => {},
            }
        }
    }
}

/// Whether two lists name the same objects, by their paths.
pub open spec fn same_objects(
    b: Seq<ObjectModel>,
    list_b: Seq<int>,
    c: Seq<ObjectModel>,
    list_c: Seq<int>,
) -> bool {
    list_b.len() == list_c.len() && forall|k: int|
        #![trigger list_b[k]]
        #![trigger list_c[k]]
        0 <= k < list_b.len() ==> 0 <= list_b[k] < b.len() && 0 <= list_c[k] < c.len()
            && b[list_b[k]].path == c[list_c[k]].path
}

proof fn lemma_same_continues(
    b: Seq<ObjectModel>,
    list_b: Seq<int>,
    c: Seq<ObjectModel>,
    list_c: Seq<int>,
    b2: Seq<ObjectModel>,
    c2: Seq<ObjectModel>,
)
    requires
        same_objects(b, list_b, c, list_c),
        history::continues(b, b2),
        history::continues(c, c2),
    ensures
        same_objects(b2, list_b, c2, list_c),
{
    assert forall|k: int|
        #![trigger list_b[k]]
        #![trigger list_c[k]]
        0 <= k < list_b.len() implies 0 <= list_b[k] < b2.len() && 0 <= list_c[k] < c2.len()
        && b2[list_b[k]].path == c2[list_c[k]].path by {
        assert(history::grown(b[list_b[k]], b2[list_b[k]]));
        assert(history::grown(c[list_c[k]], c2[list_c[k]]));
    }
}

proof fn lemma_both_declared_all(
    a: Seq<ObjectModel>,
    b: Seq<ObjectModel>,
    c: Seq<ObjectModel>,
    ds: Seq<DeclModel>,
)
    requires
        both(a, b, c),
        layouts_own(b, ds),
    ensures
        both(a, object::declared_all(b, ds).0, object::declared_all(c, ds).0),
        same_objects(
            object::declared_all(b, ds).0,
            object::declared_all(b, ds).1,
            object::declared_all(c, ds).0,
            object::declared_all(c, ds).1,
        ),
    decreases ds.len(),
{
    if ds.len() > 0 {
        let rest = ds.drop_last();
        lemma_both_declared_all(a, b, c, rest);
        let (b1, list_b) = object::declared_all(b, rest);
        let (c1, list_c) = object::declared_all(c, rest);
        lemma_both_declared(a, b1, c1, ds.last());
        history::lemma_declared_continues(b1, ds.last());
        history::lemma_declared_continues(c1, ds.last());
        lemma_same_continues(
            b1,
            list_b,
            c1,
            list_c,
            object::declared(b1, ds.last()).0,
            object::declared(c1, ds.last()).0,
        );
    }
}

/// In lists that name the same objects, the same places are the same objects.
proof fn lemma_same_places(
    b: Seq<ObjectModel>,
    list_b: Seq<int>,
    c: Seq<ObjectModel>,
    list_c: Seq<int>,
    i: int,
    j: int,
)
    requires
        same_objects(b, list_b, c, list_c),
        order::paths_distinct(b),
        order::paths_distinct(c),
        0 <= i < b.len(),
        0 <= j < c.len(),
        b[i].path == c[j].path,
    ensures
        list_b.contains(i) == list_c.contains(j),
{
    if list_b.contains(i) {
        let k = list_b.index_of(i);
        assert(list_b[k] == i);
        lemma_known_at(c, list_c[k]);
        lemma_known_at(c, j);
        assert(list_c[k] == j);
    }
    if list_c.contains(j) {
        let k = list_c.index_of(j);
        assert(list_c[k] == j);
        lemma_known_at(b, list_b[k]);
        lemma_known_at(b, i);
        assert(list_b[k] == i);
    }
}

proof fn lemma_same_behind(
    b: Seq<ObjectModel>,
    list_b: Seq<int>,
    more_b: Seq<int>,
    c: Seq<ObjectModel>,
    list_c: Seq<int>,
    more_c: Seq<int>,
)
    requires
        same_objects(b, list_b, c, list_c),
        same_objects(b, more_b, c, more_c),
        order::paths_distinct(b),
        order::paths_distinct(c),
    ensures
        same_objects(b, order::behind(list_b, more_b), c, order::behind(list_c, more_c)),
    decreases more_b.len(),
{
    if more_b.len() > 0 {
        let rest_b = more_b.drop_last();
        let rest_c = more_c.drop_last();
        assert(same_objects(b, rest_b, c, rest_c)) by {
            assert forall|k: int|
                #![trigger rest_b[k]]
                #![trigger rest_c[k]]
                0 <= k < rest_b.len() implies 0 <= rest_b[k] < b.len() && 0 <= rest_c[k] < c.len()
                && b[rest_b[k]].path == c[rest_c[k]].path by {
                assert(rest_b[k] == more_b[k] && rest_c[k] == more_c[k]);
            }
        }
        lemma_same_behind(b, list_b, rest_b, c, list_c, rest_c);
        assert(more_b[more_b.len() - 1] == more_b.last());
        assert(more_c[more_c.len() - 1] == more_c.last());
        lemma_same_places(b, list_b, c, list_c, more_b.last(), more_c.last());
    }
}

/// Whether objects with the same path have the same depth.
pub open spec fn same_depths(b: Seq<ObjectModel>, c: Seq<ObjectModel>) -> bool {
    forall|i: int, j: int|
        0 <= i < b.len() && 0 <= j < c.len() && (#[trigger] b[i]).path == (#[trigger] c[j]).path
            ==> b[i].depth == c[j].depth
}

proof fn lemma_named_depths(b: Seq<ObjectModel>, c: Seq<ObjectModel>)
    requires
        naming::named(b),
        naming::named(c),
    ensures
        same_depths(b, c),
{
}

proof fn lemma_same_channels(
    b: Seq<ObjectModel>,
    list_b: Seq<int>,
    c: Seq<ObjectModel>,
    list_c: Seq<int>,
    silent: Set<Seq<char>>,
)
    requires
        same_objects(b, list_b, c, list_c),
        same_depths(b, c),
    ensures
        same_objects(
            b,
            order::channels_of(b, list_b, silent),
            c,
            order::channels_of(c, list_c, silent),
        ),
    decreases list_b.len(),
{
    if list_b.len() > 0 {
        let rest_b = list_b.drop_last();
        let rest_c = list_c.drop_last();
        assert(same_objects(b, rest_b, c, rest_c)) by {
            assert forall|k: int|
                #![trigger rest_b[k]]
                #![trigger rest_c[k]]
                0 <= k < rest_b.len() implies 0 <= rest_b[k] < b.len() && 0 <= rest_c[k] < c.len()
                && b[rest_b[k]].path == c[rest_c[k]].path by {
                assert(rest_b[k] == list_b[k] && rest_c[k] == list_c[k]);
            }
        }
        lemma_same_channels(b, rest_b, c, rest_c, silent);
        assert(list_b[list_b.len() - 1] == list_b.last());
        assert(list_c[list_c.len() - 1] == list_c.last());
        assert(b[list_b.last()].depth == c[list_c.last()].depth);
    }
}

/// Whether two lists of slots have the same layouts, of the same objects.
pub open spec fn same_slots(
    b: Seq<ObjectModel>,
    slots_b: Seq<SlotModel>,
    c: Seq<ObjectModel>,
    slots_c: Seq<SlotModel>,
) -> bool {
    slots_b.len() == slots_c.len() && forall|k: int|
        #![trigger slots_b[k]]
        #![trigger slots_c[k]]
        0 <= k < slots_b.len() ==> slots_b[k].raw == slots_c[k].raw && 0 <= slots_b[k].at
            < b.len() && 0 <= slots_c[k].at < c.len() && b[slots_b[k].at].path
            == c[slots_c[k].at].path
}

/// What the reading of a chunk goes through: the objects of the second file,
/// and those of both.
pub open spec fn in_step(
    a: Seq<ObjectModel>,
    b: Seq<ObjectModel>,
    slots_b: Seq<SlotModel>,
    c: Seq<ObjectModel>,
    slots_c: Seq<SlotModel>,
) -> bool {
    both(a, b, c) && order::paths_distinct(b) && order::paths_distinct(c) && same_slots(
        b,
        slots_b,
        c,
        slots_c,
    )
}

proof fn lemma_step(
    a: Seq<ObjectModel>,
    b: Seq<ObjectModel>,
    slots_b: Seq<SlotModel>,
    c: Seq<ObjectModel>,
    slots_c: Seq<SlotModel>,
    k: int,
    more: Seq<Scalar>,
)
    requires
        in_step(a, b, slots_b, c, slots_c),
        0 <= k < slots_b.len(),
    ensures
        in_step(
            a,
            chunk::with_samples(b, slots_b[k].at, more),
            slots_b,
            chunk::with_samples(c, slots_c[k].at, more),
            slots_c,
        ),
{
    let i = slots_b[k].at;
    let j = slots_c[k].at;
    let b2 = chunk::with_samples(b, i, more);
    let c2 = chunk::with_samples(c, j, more);
    lemma_known_at(b, i);
    lemma_known_at(c, j);
    assert(b[i].path == c[j].path);
    assert forall|path: Seq<char>| #[trigger]
        known(c2, path) == object_of_both(known(a, path), known(b2, path)) by {
        assert(known(c, path) == object_of_both(known(a, path), known(b, path)));
        lemma_known_updated(b, i, b2[i], path);
        lemma_known_updated(c, j, c2[j], path);
        if path == b[i].path {
            match known(a, path) {
                Some(x) => {
                    assert(x.samples + (b[i].samples + more) =~= x.samples + b[i].samples + more);
                },
                None => {},
            }
        }
    }
    assert forall|x: int, y: int| 0 <= x < y < b2.len() implies (#[trigger] b2[x]).path != (
    #[trigger] b2[y]).path by {
        assert(b[x].path != b[y].path);
    }
    assert forall|x: int, y: int| 0 <= x < y < c2.len() implies (#[trigger] c2[x]).path != (
    #[trigger] c2[y]).path by {
        assert(c[x].path != c[y].path);
    }
    assert forall|m: int|
        #![trigger slots_b[m]]
        #![trigger slots_c[m]]
        0 <= m < slots_b.len() implies slots_b[m].raw == slots_c[m].raw && 0 <= slots_b[m].at
        < b2.len() && 0 <= slots_c[m].at < c2.len() && b2[slots_b[m].at].path
        == c2[slots_c[m].at].path by {
        assert(b2[slots_b[m].at].path == b[slots_b[m].at].path);
        assert(c2[slots_c[m].at].path == c[slots_c[m].at].path);
    }
}

proof fn lemma_same_offsets(
    b: Seq<ObjectModel>,
    slots_b: Seq<SlotModel>,
    c: Seq<ObjectModel>,
    slots_c: Seq<SlotModel>,
    k: int,
)
    requires
        same_slots(b, slots_b, c, slots_c),
        k <= slots_b.len(),
    ensures
        chunk::offset(slots_b, k) == chunk::offset(slots_c, k),
        chunk::row_offset(slots_b, k) == chunk::row_offset(slots_c, k),
    decreases k,
{
    if k > 0 {
        lemma_same_offsets(b, slots_b, c, slots_c, k - 1);
        assert(slots_b[k - 1].raw == slots_c[k - 1].raw);
    }
}

proof fn lemma_both_decimated(
    a: Seq<ObjectModel>,
    b: Seq<ObjectModel>,
    slots_b: Seq<SlotModel>,
    c: Seq<ObjectModel>,
    slots_c: Seq<SlotModel>,
    data: Seq<u8>,
    k: int,
)
    requires
        in_step(a, b, slots_b, c, slots_c),
        k <= slots_b.len(),
    ensures
        chunk::decimated(b, slots_b, data, k) matches Ok(b2) ==> (chunk::decimated(
            c,
            slots_c,
            data,
            k,
        ) matches Ok(c2) && in_step(a, b2, slots_b, c2, slots_c)),
    decreases k,
{
    if k > 0 {
        lemma_both_decimated(a, b, slots_b, c, slots_c, data, k - 1);
        lemma_same_offsets(b, slots_b, c, slots_c, k - 1);
        lemma_same_offsets(b, slots_b, c, slots_c, k);
        match chunk::decimated(b, slots_b, data, k - 1) {
            Err(_) => {},
            Ok(b1) => {
                let c1 = chunk::decimated(c, slots_c, data, k - 1)->Ok_0;
                let part = data.subrange(chunk::offset(slots_b, k - 1), chunk::offset(slots_b, k));
                lemma_step(
                    a,
                    b1,
                    slots_b,
                    c1,
                    slots_c,
                    k - 1,
                    chunk::samples_in(part, slots_b[k - 1].raw),
                );
                assert(slots_b[k - 1].raw == slots_c[k - 1].raw);
            },
        }
    }
}

proof fn lemma_both_cells(
    a: Seq<ObjectModel>,
    b: Seq<ObjectModel>,
    slots_b: Seq<SlotModel>,
    c: Seq<ObjectModel>,
    slots_c: Seq<SlotModel>,
    data: Seq<u8>,
    base: int,
    k: int,
)
    requires
        in_step(a, b, slots_b, c, slots_c),
        k <= slots_b.len(),
    ensures
        chunk::row_cells(b, slots_b, data, base, k) matches Ok(b2) ==> (chunk::row_cells(
            c,
            slots_c,
            data,
            base,
            k,
        ) matches Ok(c2) && in_step(a, b2, slots_b, c2, slots_c)),
    decreases k,
{
    if k > 0 {
        lemma_both_cells(a, b, slots_b, c, slots_c, data, base, k - 1);
        lemma_same_offsets(b, slots_b, c, slots_c, k - 1);
        match chunk::row_cells(b, slots_b, data, base, k - 1) {
            Err(_) => {},
            Ok(b1) => {
                let c1 = chunk::row_cells(c, slots_c, data, base, k - 1)->Ok_0;
                let slot = slots_b[k - 1];
                let v = chunk::sample_at(
                    data,
                    base + chunk::row_offset(slots_b, k - 1),
                    slot.raw.data_type,
                    slot.raw.bytes_per_value as int,
                );
                lemma_step(a, b1, slots_b, c1, slots_c, k - 1, seq![v]);
                assert(slots_b[k - 1].raw == slots_c[k - 1].raw);
            },
        }
    }
}

proof fn lemma_both_rows(
    a: Seq<ObjectModel>,
    b: Seq<ObjectModel>,
    slots_b: Seq<SlotModel>,
    c: Seq<ObjectModel>,
    slots_c: Seq<SlotModel>,
    data: Seq<u8>,
    i: int,
)
    requires
        in_step(a, b, slots_b, c, slots_c),
    ensures
        chunk::rows(b, slots_b, data, i) matches Ok(b2) ==> (chunk::rows(
            c,
            slots_c,
            data,
            i,
        ) matches Ok(c2) && in_step(a, b2, slots_b, c2, slots_c)),
    decreases i,
{
    if i > 0 {
        let m = slots_b.len() as int;
        lemma_both_rows(a, b, slots_b, c, slots_c, data, i - 1);
        lemma_same_offsets(b, slots_b, c, slots_c, m);
        match chunk::rows(b, slots_b, data, i - 1) {
            Err(_) => {},
            Ok(b1) => {
                let c1 = chunk::rows(c, slots_c, data, i - 1)->Ok_0;
                let base = (i - 1) * chunk::row_offset(slots_b, m);
                lemma_both_cells(a, b1, slots_b, c1, slots_c, data, base, m);
            },
        }
    }
}

proof fn lemma_both_chunks(
    a: Seq<ObjectModel>,
    b: Seq<ObjectModel>,
    slots_b: Seq<SlotModel>,
    c: Seq<ObjectModel>,
    slots_c: Seq<SlotModel>,
    data: Seq<u8>,
    size: int,
    is_interleaved: bool,
    k: int,
)
    requires
        in_step(a, b, slots_b, c, slots_c),
        slots_b.len() > 0,
    ensures
        chunk::chunks_read(b, slots_b, data, size, is_interleaved, k) matches Ok(b2) ==> (
        chunk::chunks_read(c, slots_c, data, size, is_interleaved, k) matches Ok(c2) && in_step(
            a,
            b2,
            slots_b,
            c2,
            slots_c,
        )),
    decreases k,
{
    if k > 0 {
        lemma_both_chunks(a, b, slots_b, c, slots_c, data, size, is_interleaved, k - 1);
        match chunk::chunks_read(b, slots_b, data, size, is_interleaved, k - 1) {
            Err(_) => {},
            Ok(b1) => {
                let c1 = chunk::chunks_read(
                    c,
                    slots_c,
                    data,
                    size,
                    is_interleaved,
                    k - 1,
                )->Ok_0;
                let part = data.subrange((k - 1) * size, k * size);
                lemma_both_decimated(
                    a,
                    b1,
                    slots_b,
                    c1,
                    slots_c,
                    part,
                    slots_b.len() as int,
                );
                assert(slots_b[0].raw == slots_c[0].raw);
                assert(chunk::same_counts(slots_b) ==> chunk::same_counts(slots_c)) by {
                    if chunk::same_counts(slots_b) {
                        assert forall|m: int| 0 <= m < slots_c.len() implies (
                        #[trigger] slots_c[m]).raw.n_values == slots_c[0].raw.n_values by {
                            assert(slots_b[m].raw == slots_c[m].raw);
                        }
                    }
                }
                lemma_both_rows(
                    a,
                    b1,
                    slots_b,
                    c1,
                    slots_c,
                    part,
                    slots_b[0].raw.n_values as int,
                );
            },
        }
    }
}

/// What reading goes through from segment to segment.
pub open spec fn abreast(
    a: Seq<ObjectModel>,
    b: Seq<ObjectModel>,
    list_b: Seq<int>,
    c: Seq<ObjectModel>,
    list_c: Seq<int>,
) -> bool {
    &&& both(a, b, c)
    &&& history::sound(b)
    &&& history::sound(c)
    &&& naming::named(b)
    &&& naming::named(c)
    &&& naming::grouped(b)
    &&& naming::grouped(c)
    &&& order::order_ok(b, list_b)
    &&& order::order_ok(c, list_c)
}

proof fn lemma_same_slots(
    a: Seq<ObjectModel>,
    b: Seq<ObjectModel>,
    list_b: Seq<int>,
    c: Seq<ObjectModel>,
    list_c: Seq<int>,
)
    requires
        both(a, b, c),
        order::paths_distinct(b),
        order::paths_distinct(c),
        order::order_ok(b, list_b),
        same_objects(b, list_b, c, list_c),
    ensures
        same_slots(b, order::slots_of(b, list_b), c, order::slots_of(c, list_c)),
{
    let slots_b = order::slots_of(b, list_b);
    let slots_c = order::slots_of(c, list_c);
    assert forall|k: int|
        #![trigger slots_b[k]]
        #![trigger slots_c[k]]
        0 <= k < slots_b.len() implies slots_b[k].raw == slots_c[k].raw && 0 <= slots_b[k].at
        < b.len() && 0 <= slots_c[k].at < c.len() && b[slots_b[k].at].path
        == c[slots_c[k].at].path by {
        let i = list_b[k];
        let j = list_c[k];
        lemma_known_at(b, i);
        lemma_known_at(c, j);
        let path = b[i].path;
        assert(known(c, path) == object_of_both(known(a, path), known(b, path)));
    }
}

/// A segment adds to the objects of both files what it adds to those of the
/// second.
proof fn lemma_both_segment(
    a: Seq<ObjectModel>,
    bytes: Seq<u8>,
    start: int,
    b: Seq<ObjectModel>,
    list_b: Seq<int>,
    c: Seq<ObjectModel>,
    list_c: Seq<int>,
)
    requires
        abreast(a, b, list_b, c, list_c),
        segment::marked(segment::toc_of(bytes, start), segment::NEW_OBJ_LIST) || same_objects(
            b,
            list_b,
            c,
            list_c,
        ),
        layouts_own(b, segment::declarations(bytes, start)),
    ensures
        segment::segment_at(bytes, start, b, list_b) matches Ok((b2, after_b, end)) ==> (
        segment::segment_at(bytes, start, c, list_c) matches Ok((c2, after_c, end_c)) && end_c
            == end && abreast(a, b2, after_b, c2, after_c) && same_objects(
            b2,
            after_b,
            c2,
            after_c,
        )),
{
    if segment::segment_at(bytes, start, b, list_b) is Ok {
        reveal(segment::segment_at);
        let toc = segment::toc_of(bytes, start);
        let buf = segment::body_of(bytes, start);
        let ds = segment::declarations(bytes, start);
        let is_new = segment::marked(toc, segment::NEW_OBJ_LIST);
        let silent = object::silent_paths(ds);
        let (kb, named_b) = segment::metadata(buf, toc, b)->Ok_0;
        assert((kb, named_b) == object::declared_all(b, ds));
        let (kc, named_c) = object::declared_all(c, ds);
        assert(segment::metadata(buf, toc, c) == Ok::<_, TdmsFault>((kc, named_c)));
        lemma_both_declared_all(a, b, c, ds);
        history::lemma_declared_all_continues(b, ds);
        history::lemma_declared_all_continues(c, ds);
        segment::lemma_metadata(buf, toc, b, list_b);
        segment::lemma_metadata(buf, toc, c, list_c);
        let lb = order::active(is_new, kb, list_b, named_b, silent);
        let lc = order::active(is_new, kc, list_c, named_c, silent);
        order::lemma_active_ok(is_new, kb, list_b, named_b, silent);
        order::lemma_active_ok(is_new, kc, list_c, named_c, silent);
        naming::lemma_declared_named(bytes, start, b);
        naming::lemma_declared_named(bytes, start, c);
        if !is_new {
            lemma_same_continues(b, list_b, c, list_c, kb, kc);
            lemma_named_depths(kb, kc);
            lemma_same_channels(kb, list_b, kc, list_c, silent);
            lemma_same_behind(
                kb,
                order::channels_of(kb, list_b, silent),
                named_b,
                kc,
                order::channels_of(kc, list_c, silent),
                named_c,
            );
        }
        assert(same_objects(kb, lb, kc, lc));
        if segment::marked(toc, segment::RAW_DATA) && lb.len() > 0 {
            let slots_b = order::slots_of(kb, lb);
            let slots_c = order::slots_of(kc, lc);
            lemma_same_slots(a, kb, lb, kc, lc);
            lemma_same_offsets(kb, slots_b, kc, slots_c, slots_b.len() as int);
            let from = segment::raw_start(bytes, start);
            let end = segment::segment_end(bytes, start);
            let size = segment::chunk_size(slots_b);
            if size != 0 {
                lemma_both_chunks(
                    a,
                    kb,
                    slots_b,
                    kc,
                    slots_c,
                    bytes.subrange(from, end),
                    size,
                    segment::marked(toc, segment::INTERLEAVED),
                    (end - from) / size,
                );
            }
        }
        history::law_segment_keeps(bytes, start, b, list_b);
        history::law_segment_keeps(bytes, start, c, list_c);
        history::lemma_segment_parts(bytes, start, b, list_b);
        history::lemma_segment_parts(bytes, start, c, list_c);
        naming::lemma_segment_named(bytes, start, b, list_b);
        naming::lemma_segment_named(bytes, start, c, list_c);
        let b2 = segment::segment_at(bytes, start, b, list_b)->Ok_0.0;
        let c2 = segment::segment_at(bytes, start, c, list_c)->Ok_0.0;
        history::lemma_only_samples_continues(kb, b2);
        history::lemma_only_samples_continues(kc, c2);
        lemma_same_continues(kb, lb, kc, lc, b2, c2);
    }
}

proof fn lemma_both_segments(
    a: Seq<ObjectModel>,
    bytes: Seq<u8>,
    pos: int,
    b: Seq<ObjectModel>,
    list_b: Seq<int>,
    c: Seq<ObjectModel>,
    list_c: Seq<int>,
)
    requires
        abreast(a, b, list_b, c, list_c),
        pos >= bytes.len() || segment::marked(
            segment::toc_of(bytes, pos),
            segment::NEW_OBJ_LIST,
        ) || same_objects(b, list_b, c, list_c),
        file_layouts_own(bytes, pos, b, list_b),
        file::segments(bytes, pos, b, list_b) is Ok,
    ensures
        file::segments(bytes, pos, c, list_c) is Ok,
        both(
            a,
            file::segments(bytes, pos, b, list_b)->Ok_0.0,
            file::segments(bytes, pos, c, list_c)->Ok_0.0,
        ),
    decreases
            (if pos < bytes.len() {
                bytes.len() - pos
            } else {
                0
            }),
{
    if pos < bytes.len() {
        segment::lemma_segment_advances(bytes, pos, b, list_b);
        lemma_both_segment(a, bytes, pos, b, list_b, c, list_c);
        let (b2, after_b, end) = segment::segment_at(bytes, pos, b, list_b)->Ok_0;
        let (c2, after_c, _) = segment::segment_at(bytes, pos, c, list_c)->Ok_0;
        lemma_both_segments(a, bytes, end, b2, after_b, c2, after_c);
    }
}

/// A closed file and then one that stands on its own can be read as one: of
/// every object, the data are those of the first and then those of the second,
/// and the properties those of both. Behind a file that leaves no list, the
/// second need not start with one.
pub proof fn law_files_join(a: Seq<u8>, b: Seq<u8>)
    requires
        splice::closed(a, 0),
        file::segments(a, 0, Seq::empty(), Seq::empty()) is Ok,
        file::segments(b, 0, Seq::empty(), Seq::empty()) is Ok,
        own(b) || (file::segments(a, 0, Seq::empty(), Seq::empty())->Ok_0.1.len() == 0
            && file_layouts_own(b, 0, Seq::empty(), Seq::empty())),
    ensures
        file::segments(a + b, 0, Seq::empty(), Seq::empty()) is Ok,
        both(
            file::segments(a, 0, Seq::empty(), Seq::empty())->Ok_0.0,
            file::segments(b, 0, Seq::empty(), Seq::empty())->Ok_0.0,
            file::segments(a + b, 0, Seq::empty(), Seq::empty())->Ok_0.0,
        ),
{
    let none = Seq::<ObjectModel>::empty();
    let no_list = Seq::<int>::empty();
    let (left, list) = file::segments(a, 0, none, no_list)->Ok_0;
    super::laws::law_file_keeps(a, 0, none, no_list);
    naming::law_objects_grouped(a, 0, none, no_list);
    assert forall|path: Seq<char>| #[trigger]
        known(left, path) == object_of_both(known(left, path), known(none, path)) by {}
    lemma_both_segments(left, b, 0, none, no_list, left, list);
    splice::law_read_on(a, b, 0, none, no_list);
}

proof fn lemma_part_of_both(
    a: Seq<ObjectModel>,
    b: Seq<ObjectModel>,
    c: Seq<ObjectModel>,
    i: int,
) -> (k: int)
    requires
        both(a, b, c),
        hierarchy::read_well(a),
        hierarchy::read_well(b),
        hierarchy::read_well(c),
        0 <= i < a.len() + b.len(),
    ensures
        0 <= k < c.len(),
        c[k].path == (a + b)[i].path,
        c[k].depth == (a + b)[i].depth,
        c[k].parent == (a + b)[i].parent,
        c[k].name == (a + b)[i].name,
{
    let o = (a + b)[i];
    if i < a.len() {
        lemma_known_at(a, i);
    } else {
        lemma_known_at(b, i - a.len());
    }
    assert(known(c, o.path) == object_of_both(known(a, o.path), known(b, o.path)));
    object::lemma_find(c, o.path);
    let k = object::find(c, o.path)->0;
    assert(super::path::path_parts(c[k].path) == Ok::<_, TdmsFault>(
        (c[k].depth, c[k].parent, c[k].name),
    ));
    assert(super::path::path_parts(o.path) == Ok::<_, TdmsFault>((o.depth, o.parent, o.name)));
    k
}

proof fn lemma_no_twins_in_parts(a: Seq<ObjectModel>, b: Seq<ObjectModel>, c: Seq<ObjectModel>)
    requires
        both(a, b, c),
        hierarchy::read_well(a),
        hierarchy::read_well(b),
        hierarchy::read_well(c),
        hierarchy::no_twins(c),
    ensures
        hierarchy::no_twins(a),
        hierarchy::no_twins(b),
{
    assert forall|i: int, j: int|
        0 <= i < a.len() && 0 <= j < a.len() && (#[trigger] a[i]).depth > 0 implies a[i].path.push(
        '\'',
    ) != (#[trigger] a[j]).path by {
        let x = lemma_part_of_both(a, b, c, i);
        let y = lemma_part_of_both(a, b, c, j);
        assert(c[x].path.push('\'') != c[y].path);
    }
    assert forall|i: int, j: int|
        0 <= i < b.len() && 0 <= j < b.len() && (#[trigger] b[i]).depth > 0 implies b[i].path.push(
        '\'',
    ) != (#[trigger] b[j]).path by {
        let x = lemma_part_of_both(a, b, c, a.len() + i);
        let y = lemma_part_of_both(a, b, c, a.len() + j);
        assert(c[x].path.push('\'') != c[y].path);
    }
}

/// What has a place in the hierarchy of both files comes of what has it in
/// each.
proof fn lemma_placed_in_both(
    a: Seq<ObjectModel>,
    b: Seq<ObjectModel>,
    c: Seq<ObjectModel>,
    depth: u8,
    parent: Option<Seq<char>>,
    name: Seq<char>,
)
    requires
        both(a, b, c),
        hierarchy::read_well(a),
        hierarchy::read_well(b),
        hierarchy::read_well(c),
        hierarchy::no_twins(c),
    ensures
        hierarchy::placed(c, depth, parent, name) == object_of_both(
            hierarchy::placed(a, depth, parent, name),
            hierarchy::placed(b, depth, parent, name),
        ),
{
    lemma_no_twins_in_parts(a, b, c);
    if hierarchy::taken(a, depth, parent, name) || hierarchy::taken(b, depth, parent, name) {
        let i = if hierarchy::taken(a, depth, parent, name) {
            choose|i: int|
                0 <= i < a.len() && hierarchy::is_at(#[trigger] a[i], depth, parent, name)
        } else {
            a.len() + choose|i: int|
                0 <= i < b.len() && hierarchy::is_at(#[trigger] b[i], depth, parent, name)
        };
        let k = lemma_part_of_both(a, b, c, i);
        let path = c[k].path;
        hierarchy::lemma_placed(c, k);
        lemma_known_at(c, k);
        assert(known(c, path) == object_of_both(known(a, path), known(b, path)));
        lemma_placed_known(a, b, c, a, 0, k);
        lemma_placed_known(a, b, c, b, a.len() as int, k);
    } else if hierarchy::taken(c, depth, parent, name) {
        let k = choose|k: int|
            0 <= k < c.len() && hierarchy::is_at(#[trigger] c[k], depth, parent, name);
        let path = c[k].path;
        lemma_known_at(c, k);
        assert(known(c, path) == object_of_both(known(a, path), known(b, path)));
        lemma_placed_known(a, b, c, a, 0, k);
        lemma_placed_known(a, b, c, b, a.len() as int, k);
    }
}

/// In each of the files, the object with a place is the one with the path that
/// the place has in both.
proof fn lemma_placed_known(
    a: Seq<ObjectModel>,
    b: Seq<ObjectModel>,
    c: Seq<ObjectModel>,
    part: Seq<ObjectModel>,
    at: int,
    k: int,
)
    requires
        both(a, b, c),
        hierarchy::read_well(a),
        hierarchy::read_well(b),
        hierarchy::read_well(c),
        hierarchy::no_twins(c),
        hierarchy::no_twins(part),
        (part == a && at == 0) || (part == b && at == a.len()),
        0 <= k < c.len(),
    ensures
        hierarchy::placed(part, c[k].depth, c[k].parent, c[k].name) == known(part, c[k].path),
{
    let o = c[k];
    object::lemma_find(part, o.path);
    assert(super::path::path_parts(o.path) == Ok::<_, TdmsFault>((o.depth, o.parent, o.name)));
    match object::find(part, o.path) {
        Some(i) => {
            assert(super::path::path_parts(part[i].path) == Ok::<_, TdmsFault>(
                (part[i].depth, part[i].parent, part[i].name),
            ));
            hierarchy::lemma_placed(part, i);
        },
        None => {
            if hierarchy::taken(part, o.depth, o.parent, o.name) {
                let i = choose|i: int|
                    0 <= i < part.len() && hierarchy::is_at(
                        #[trigger] part[i],
                        o.depth,
                        o.parent,
                        o.name,
                    );
                assert((a + b)[at + i] == part[i]);
                let x = lemma_part_of_both(a, b, c, at + i);
                hierarchy::lemma_place_is_own(c, x, k);
                assert(part[i].path == o.path);
            }
        },
    }
}

/// The channel of two files: its samples in the first and then those in the
/// second, and the properties of both.
pub open spec fn channel_of_both(a: Option<ChannelModel>, b: Option<ChannelModel>) -> Option<
    ChannelModel,
> {
    match (a, b) {
        (None, _) => b,
        (Some(_), None) => a,
        (Some(x), Some(y)) => Some(
            ChannelModel {
                name: x.name,
                properties: x.properties.union_prefer_right(y.properties),
                data: x.data + y.data,
            },
        ),
    }
}

/// The properties of two files.
pub open spec fn properties_of_both(
    a: Option<Map<Seq<char>, PropertyModel>>,
    b: Option<Map<Seq<char>, PropertyModel>>,
) -> Option<Map<Seq<char>, PropertyModel>> {
    match (a, b) {
        (None, _) => b,
        (Some(_), None) => a,
        (Some(x), Some(y)) => Some(x.union_prefer_right(y)),
    }
}

/// Two files that can be read as one give, where no two paths differ in a
/// closing quote alone, a file in which every channel has its samples in the
/// first file and then those in the second, and channels, groups and the file
/// have the properties of both.
pub proof fn law_files_as_one(a: Seq<u8>, b: Seq<u8>, group: Seq<char>, name: Seq<char>)
    requires
        splice::closed(a, 0),
        file::segments(a, 0, Seq::empty(), Seq::empty()) is Ok,
        file::segments(b, 0, Seq::empty(), Seq::empty()) is Ok,
        own(b) || (file::segments(a, 0, Seq::empty(), Seq::empty())->Ok_0.1.len() == 0
            && file_layouts_own(b, 0, Seq::empty(), Seq::empty())),
        file::segments(a + b, 0, Seq::empty(), Seq::empty()) matches Ok((objs, _))
            ==> hierarchy::no_twins(objs),
    ensures
        file::file_of(a) is Ok,
        file::file_of(b) is Ok,
        file::file_of(a + b) is Ok,
        ({
            let x = file::file_of(a)->Ok_0;
            let y = file::file_of(b)->Ok_0;
            let f = file::file_of(a + b)->Ok_0;
            &&& f.channel(group, name) == channel_of_both(
                x.channel(group, name),
                y.channel(group, name),
            )
            &&& hierarchy::group_properties(f, group) == properties_of_both(
                hierarchy::group_properties(x, group),
                hierarchy::group_properties(y, group),
            )
            &&& f.properties == x.properties.union_prefer_right(y.properties)
        }),
{
    law_files_join(a, b);
    let none = Seq::<ObjectModel>::empty();
    let no_list = Seq::<int>::empty();
    let oa = file::segments(a, 0, none, no_list)->Ok_0.0;
    let ob = file::segments(b, 0, none, no_list)->Ok_0.0;
    let oc = file::segments(a + b, 0, none, no_list)->Ok_0.0;
    hierarchy::lemma_read_well(a);
    hierarchy::lemma_read_well(b);
    hierarchy::lemma_read_well(a + b);
    lemma_no_twins_in_parts(oa, ob, oc);
    hierarchy::law_channel_placed(oa, group, name);
    hierarchy::law_channel_placed(ob, group, name);
    hierarchy::law_channel_placed(oc, group, name);
    lemma_placed_in_both(oa, ob, oc, 2, Some(group), name);
    hierarchy::law_group_placed(oa, group);
    hierarchy::law_group_placed(ob, group);
    hierarchy::law_group_placed(oc, group);
    lemma_placed_in_both(oa, ob, oc, 1, None, group);
    hierarchy::law_root_placed(oa);
    hierarchy::law_root_placed(ob);
    hierarchy::law_root_placed(oc);
    lemma_placed_in_both(oa, ob, oc, 0, None, Seq::empty());
    let x = file::file_of(a)->Ok_0;
    let y = file::file_of(b)->Ok_0;
    assert(file::file_of(a + b)->Ok_0.properties =~= x.properties.union_prefer_right(
        y.properties,
    ));
}

} // verus!
