//! What declarations do to the objects that are known, object by object.

use super::join;
use super::object;
use super::object::{DeclModel, ObjectModel};
use super::order;
use super::path;
use super::value::PropertyModel;
use vstd::prelude::*;

verus! {

/// Of the entries of one name the last one counts; a name without an entry has
/// what it had.
pub proof fn law_properties_set(
    m: Map<Seq<char>, PropertyModel>,
    ps: Seq<(Seq<char>, PropertyModel)>,
    name: Seq<char>,
    k: int,
)
    requires
        -1 <= k < ps.len(),
        k >= 0 ==> ps[k].0 == name,
        forall|i: int| k < i < ps.len() ==> (#[trigger] ps[i]).0 != name,
    ensures
        k >= 0 ==> object::merged(m, ps).contains_key(name) && object::merged(m, ps)[name]
            == ps[k].1,
        k < 0 ==> object::merged(m, ps).contains_key(name) == m.contains_key(name),
        k < 0 && m.contains_key(name) ==> object::merged(m, ps)[name] == m[name],
    decreases ps.len(),
{
    if ps.len() > 0 {
        let rest = ps.drop_last();
        if k < ps.len() - 1 {
            assert(ps[ps.len() - 1].0 != name);
            assert forall|i: int| k < i < rest.len() implies (#[trigger] rest[i]).0 != name by {
                assert(rest[i] == ps[i]);
            }
            law_properties_set(m, rest, name, k);
        }
    }
}

/// What a declaration makes of an object of which `before` was known: it keeps
/// its place in the hierarchy and its samples, its properties are set one after
/// the other, and a layout replaces the one that it had.
pub open spec fn after_declaration(before: Option<ObjectModel>, d: DeclModel) -> ObjectModel {
    ObjectModel {
        path: d.path,
        depth: if before is Some {
            before->0.depth
        } else {
            d.depth
        },
        parent: if before is Some {
            before->0.parent
        } else {
            d.parent
        },
        name: if before is Some {
            before->0.name
        } else {
            d.name
        },
        samples: if before is Some {
            before->0.samples
        } else {
            Seq::empty()
        },
        properties: object::merged(
            if before is Some {
                before->0.properties
            } else {
                Map::empty()
            },
            d.properties,
        ),
        last_raw: if d.raw is Index {
            Some(d.raw->Index_0)
        } else if before is Some {
            before->0.last_raw
        } else {
            None
        },
    }
}

/// A declaration changes what is known of its object, and of no other, but that
/// the group of a channel becomes known with it.
pub proof fn law_object_declared(objs: Seq<ObjectModel>, d: DeclModel, other: Seq<char>)
    requires
        order::paths_distinct(objs),
        d.depth == 2 && d.parent is Some ==> d.path != path::component(d.parent->0),
        other != d.path,
    ensures
        ({
            let (after, at) = object::declared(objs, d);
            let groups = d.depth == 2 && d.parent is Some;
            &&& join::known(after, d.path) == Some(after_declaration(join::known(objs, d.path), d))
            &&& join::known(objs, other) is Some ==> join::known(after, other) == join::known(
                objs,
                other,
            )
            &&& join::known(objs, other) is None && !(groups && other == path::component(
                d.parent->0,
            )) ==> join::known(after, other) is None
            &&& join::known(objs, other) is None && groups && other == path::component(d.parent->0)
                ==> join::known(after, other) == Some(
                ObjectModel {
                    path: other,
                    depth: 1,
                    properties: Map::empty(),
                    last_raw: None,
                    samples: Seq::empty(),
                    parent: None,
                    name: d.parent->0,
                },
            )
        }),
{
    let wide = object::with_group(objs, d);
    let fresh = object::fresh_object(d);
    if d.depth == 2 && d.parent is Some {
        let g = object::implied_group(d.parent->0);
        join::lemma_known_ensured(objs, g, d.path);
        join::lemma_known_ensured(objs, g, other);
    }
    join::lemma_known_ensured(wide, fresh, d.path);
    join::lemma_known_ensured(wide, fresh, other);
    let (all, i) = object::ensured(wide, fresh);
    let o = all[i];
    let after = object::declared(objs, d).0;
    object::lemma_find(all, d.path);
    join::lemma_known_updated(all, i, after[i], d.path);
    join::lemma_known_updated(all, i, after[i], other);
    assert(object::find(all, d.path) == Some(i));
    assert(join::known(all, d.path) == Some(o));
    object::lemma_find(objs, d.path);
    assert(after == all.update(i, after[i]));
    assert(join::known(after, d.path) == Some(after[i]));
}

/// The objects stand in the order in which they became known: those before stay
/// in their places, a group comes in front of the channel that made it known.
pub proof fn law_places_kept(objs: Seq<ObjectModel>, d: DeclModel)
    requires
        d.depth == 2 && d.parent is Some ==> d.path != path::component(d.parent->0),
    ensures
        ({
            let (after, at) = object::declared(objs, d);
            let has_group = d.depth == 2 && d.parent is Some && join::known(
                objs,
                path::component(d.parent->0),
            ) is None;
            let is_new = join::known(objs, d.path) is None;
            let n = objs.len() as int;
            &&& after.len() == n + (if has_group {
                1int
            } else {
                0
            }) + (if is_new {
                1int
            } else {
                0
            })
            &&& forall|i: int| 0 <= i < n ==> (#[trigger] after[i]).path == objs[i].path
            &&& has_group ==> after[n].path == path::component(d.parent->0)
            &&& is_new ==> after.last().path == d.path
        }),
{
    let wide = object::with_group(objs, d);
    object::lemma_find(objs, d.path);
    if d.depth == 2 && d.parent is Some {
        let g = object::implied_group(d.parent->0);
        object::lemma_find(objs, g.path);
        join::lemma_known_ensured(objs, g, d.path);
    }
    object::lemma_find(wide, d.path);
    let (all, i) = object::ensured(wide, object::fresh_object(d));
    assert(all[i].path == d.path);
    let after = object::declared(objs, d).0;
    assert forall|k: int| 0 <= k < objs.len() implies (#[trigger] after[k]).path
        == objs[k].path by {
        assert(all[k].path == objs[k].path);
    }
}

/// A declaration lists its object exactly where it gives a layout, or says "as
/// before" of an object that has one, and the place that it lists is that of its
/// own object.
pub proof fn law_object_listed(objs: Seq<ObjectModel>, d: DeclModel)
    ensures
        ({
            let (after, at) = object::declared(objs, d);
            &&& d.raw is NoData ==> at is None
            &&& d.raw is Index ==> at is Some
            &&& d.raw is SameAsBefore ==> (at is Some) == (join::known(objs, d.path) matches Some(
                o,
            ) && o.last_raw is Some)
            &&& at matches Some(i) ==> 0 <= i < after.len() && after[i].path == d.path
        }),
{
    let wide = object::with_group(objs, d);
    object::lemma_find(wide, d.path);
}

/// Declarations are taken one after the other, and the list is in their order.
pub proof fn law_declared_in_turn(objs: Seq<ObjectModel>, ds: Seq<DeclModel>, d: DeclModel)
    ensures
        object::declared_all(objs, Seq::empty()) == (objs, Seq::<int>::empty()),
        ({
            let (before, list) = object::declared_all(objs, ds);
            let (after, longer) = object::declared_all(objs, ds.push(d));
            &&& after == object::declared(before, d).0
            &&& object::declared(before, d).1 matches Some(i) ==> longer == list.push(i)
            &&& object::declared(before, d).1 is None ==> longer == list
        }),
{
    assert(ds.push(d).drop_last() =~= ds);
}

/// An object is silent exactly where the last declaration of its path says that
/// it has no raw data.
pub proof fn law_silent(ds: Seq<DeclModel>, path: Seq<char>, k: int)
    requires
        -1 <= k < ds.len(),
        k >= 0 ==> ds[k].path == path,
        forall|i: int| k < i < ds.len() ==> (#[trigger] ds[i]).path != path,
    ensures
        object::silent_paths(ds).contains(path) == (k >= 0 && ds[k].raw is NoData),
    decreases ds.len(),
{
    if ds.len() > 0 {
        let rest = ds.drop_last();
        if k < ds.len() - 1 {
            assert(ds[ds.len() - 1].path != path);
            assert forall|i: int| k < i < rest.len() implies (#[trigger] rest[i]).path != path by {
                assert(rest[i] == ds[i]);
            }
            law_silent(rest, path, k);
        }
    }
}

/// Whether one place stands before another in a list.
pub open spec fn stands_before(list: Seq<int>, x: int, y: int) -> bool {
    exists|p: int, q: int|
        0 <= p < q < list.len() && #[trigger] list[p] == x && #[trigger] list[q] == y
}

proof fn lemma_stands_before(list: Seq<int>, x: int, y: int)
    requires
        list.len() > 0,
        stands_before(list.drop_last(), x, y) || (list.drop_last().contains(x) && list.last()
            == y),
    ensures
        stands_before(list, x, y),
{
    let rest = list.drop_last();
    if stands_before(rest, x, y) {
        let (p, q) = choose|p: int, q: int|
            0 <= p < q < rest.len() && #[trigger] rest[p] == x && #[trigger] rest[q] == y;
        assert(list[p] == x && list[q] == y);
    } else {
        let p = rest.index_of(x);
        assert(list[p] == x && list[list.len() - 1] == y);
    }
}

proof fn lemma_channels_in_order(
    objs: Seq<ObjectModel>,
    list: Seq<int>,
    silent: Set<Seq<char>>,
)
    ensures
        ({
            let s = order::channels_of(objs, list, silent);
            &&& forall|i: int| 0 <= i < s.len() ==> list.contains(#[trigger] s[i])
            &&& forall|i: int, j: int|
                0 <= i < j < s.len() ==> stands_before(list, #[trigger] s[i], #[trigger] s[j])
        }),
    decreases list.len(),
{
    if list.len() > 0 {
        let rest = list.drop_last();
        lemma_channels_in_order(objs, rest, silent);
        let t = order::channels_of(objs, rest, silent);
        let s = order::channels_of(objs, list, silent);
        assert forall|i: int| 0 <= i < s.len() implies list.contains(#[trigger] s[i]) by {
            if i < t.len() {
                assert(s[i] == t[i]);
                let k = rest.index_of(t[i]);
                assert(list[k] == s[i]);
            } else {
                assert(list[list.len() - 1] == s[i]);
            }
        }
        assert forall|i: int, j: int| 0 <= i < j < s.len() implies stands_before(
            list,
            #[trigger] s[i],
            #[trigger] s[j],
        ) by {
            assert(s[i] == t[i]);
            assert(rest.contains(t[i]));
            if j < t.len() {
                assert(s[j] == t[j]);
                assert(stands_before(rest, t[i], t[j]));
            }
            lemma_stands_before(list, s[i], s[j]);
        }
    }
}

proof fn lemma_behind_in_order(list: Seq<int>, more: Seq<int>)
    ensures
        ({
            let s = order::behind(list, more);
            let n = list.len() as int;
            &&& n <= s.len()
            &&& forall|i: int| n <= i < s.len() ==> more.contains(#[trigger] s[i])
            &&& forall|i: int, j: int|
                n <= i < j < s.len() ==> stands_before(more, #[trigger] s[i], #[trigger] s[j])
        }),
    decreases more.len(),
{
    if more.len() > 0 {
        let rest = more.drop_last();
        lemma_behind_in_order(list, rest);
        let n = list.len() as int;
        let t = order::behind(list, rest);
        let s = order::behind(list, more);
        assert forall|i: int| n <= i < s.len() implies more.contains(#[trigger] s[i]) by {
            if i < t.len() {
                assert(s[i] == t[i]);
                let k = rest.index_of(t[i]);
                assert(more[k] == s[i]);
            } else {
                assert(more[more.len() - 1] == s[i]);
            }
        }
        assert forall|i: int, j: int| n <= i < j < s.len() implies stands_before(
            more,
            #[trigger] s[i],
            #[trigger] s[j],
        ) by {
            assert(s[i] == t[i]);
            assert(rest.contains(t[i]));
            if j < t.len() {
                assert(s[j] == t[j]);
                assert(stands_before(rest, t[i], t[j]));
            }
            lemma_stands_before(more, s[i], s[j]);
        }
    }
}

/// A list that goes on has two parts: what it takes from the list before it, in
/// that list's order, and behind it what the segment lists besides, in the order
/// of its declarations.
pub proof fn law_order_kept(
    objs: Seq<ObjectModel>,
    before: Seq<int>,
    listed: Seq<int>,
    silent: Set<Seq<char>>,
)
    ensures
        ({
            let a = order::active(false, objs, before, listed, silent);
            let n = order::channels_of(objs, before, silent).len() as int;
            &&& n <= a.len()
            &&& forall|i: int| 0 <= i < n ==> before.contains(#[trigger] a[i])
            &&& forall|i: int, j: int|
                0 <= i < j < n ==> stands_before(before, #[trigger] a[i], #[trigger] a[j])
            &&& forall|i: int| n <= i < a.len() ==> listed.contains(#[trigger] a[i])
            &&& forall|i: int, j: int|
                n <= i < j < a.len() ==> stands_before(listed, #[trigger] a[i], #[trigger] a[j])
        }),
{
    let kept = order::channels_of(objs, before, silent);
    let a = order::active(false, objs, before, listed, silent);
    lemma_channels_in_order(objs, before, silent);
    lemma_behind_in_order(kept, listed);
    order::law_list_goes_on(objs, before, listed, silent, 0);
    assert(a.subrange(0, kept.len() as int) =~= kept);
    assert forall|i: int| 0 <= i < kept.len() implies a[i] == kept[i] by {
        assert(a.subrange(0, kept.len() as int)[i] == a[i]);
    }
}

} // verus!
