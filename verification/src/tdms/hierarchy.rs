//! Laws of the hierarchy: what a path was written of, which names are distinct,
//! and in what order they come.

use super::file;
use super::file::{ChannelModel, GroupModel};
use super::history;
use super::laws;
use super::naming;
use super::object;
use super::object::{DeclModel, ObjectModel};
use super::order;
use super::path;
use super::segment;
use vstd::prelude::*;

verus! {

/// The path of the object with this place in the hierarchy.
pub open spec fn written(depth: u8, parent: Option<Seq<char>>, name: Seq<char>) -> Seq<char> {
    if depth == 0 {
        seq!['/']
    } else if depth == 1 {
        path::component(name)
    } else {
        path::component(
            match parent {
                Some(g) => g,
                None => Seq::empty(),
            },
        ) + path::component(name)
    }
}

/// What is read as a name was written so, but for the closing quote that may be
/// missing at the end.
proof fn lemma_name_written(s: Seq<char>, i: int)
    requires
        0 <= i <= s.len(),
    ensures
        ({
            let (name, next) = path::name_body(s, i);
            i <= next <= s.len() && (s.subrange(i, next) == path::escaped(name).push('\'') || (next
                == s.len() && s.subrange(i, next) == path::escaped(name)))
        }),
    decreases s.len() - i,
{
    path::lemma_name_body_advances(s, i);
    let (name, next) = path::name_body(s, i);
    if i == s.len() {
        assert(s.subrange(i, next) =~= path::escaped(name));
    } else if s[i] == '\'' {
        if i + 1 < s.len() && s[i + 1] == '\'' {
            lemma_name_written(s, i + 2);
            let (rest, _) = path::name_body(s, i + 2);
            assert(name.drop_first() =~= rest);
            naming::lemma_escaped_front(name);
            assert(s.subrange(i, next) =~= seq!['\'', '\''] + s.subrange(i + 2, next));
            assert((seq!['\'', '\''] + path::escaped(rest)).push('\'') =~= seq!['\'', '\'']
                + path::escaped(rest).push('\''));
        } else {
            assert(s.subrange(i, next) =~= path::escaped(name).push('\''));
        }
    } else {
        lemma_name_written(s, i + 1);
        let (rest, _) = path::name_body(s, i + 1);
        assert(name.drop_first() =~= rest);
        naming::lemma_escaped_front(name);
        assert(s.subrange(i, next) =~= seq![s[i]] + s.subrange(i + 1, next));
        assert((seq![s[i]] + path::escaped(rest)).push('\'') =~= seq![s[i]]
            + path::escaped(rest).push('\''));
    }
}

/// A path that can be read is the one that its names are written as, but for
/// the closing quote of the last name, which may be missing.
pub proof fn law_path_written(p: Seq<char>)
    requires
        path::path_parts(p) is Ok,
    ensures
        ({
            let (depth, parent, name) = path::path_parts(p)->Ok_0;
            p == written(depth, parent, name) || (depth > 0 && p.push('\'') == written(
                depth,
                parent,
                name,
            ))
        }),
{
    let (depth, parent, name) = path::path_parts(p)->Ok_0;
    reveal_with_fuel(path::components, 3);
    if p.len() == 1 {
        assert(p =~= seq!['/']);
    } else {
        lemma_name_written(p, 2);
        let (first, next) = path::name_body(p, 2);
        let head = p.subrange(2, next);
        assert(p[0] == '/' && p[1] == '\'');
        if next == p.len() {
            assert(p =~= seq!['/', '\''] + head);
            if head == path::escaped(first).push('\'') {
                assert(p =~= path::component(first));
            } else {
                assert(p.push('\'') =~= path::component(first));
            }
        } else {
            assert(p[next] == '/' && p[next + 1] == '\'');
            lemma_name_written(p, next + 2);
            let (second, end) = path::name_body(p, next + 2);
            let tail = p.subrange(next + 2, end);
            assert(end == p.len()) by {
                if end < p.len() {
                    match path::components(p, end, false) {
                        Some(rest) => {
                            assert(rest.len() > 0);
                        },
                        None => {},
                    }
                }
            }
            assert(p =~= (seq!['/', '\''] + head) + (seq!['/', '\''] + tail));
            assert(seq!['/', '\''] + head =~= path::component(first));
            if tail == path::escaped(second).push('\'') {
                assert(seq!['/', '\''] + tail =~= path::component(second));
            } else {
                assert(p.push('\'') =~= path::component(first) + path::component(second));
            }
        }
    }
}

/// Whether no two paths of groups or channels differ in a closing quote at the
/// end alone.
pub open spec fn no_twins(objs: Seq<ObjectModel>) -> bool {
    forall|i: int, j: int|
        0 <= i < objs.len() && 0 <= j < objs.len() && (#[trigger] objs[i]).depth > 0
            ==> objs[i].path.push('\'') != (#[trigger] objs[j]).path
}

/// An object's place in the hierarchy is its alone.
pub proof fn lemma_place_is_own(objs: Seq<ObjectModel>, i: int, j: int)
    requires
        order::paths_distinct(objs),
        naming::named(objs),
        no_twins(objs),
        0 <= i < objs.len(),
        0 <= j < objs.len(),
        objs[i].depth == objs[j].depth,
        objs[i].parent == objs[j].parent,
        objs[i].name == objs[j].name,
    ensures
        i == j,
{
    law_path_written(objs[i].path);
    law_path_written(objs[j].path);
    let w = written(objs[i].depth, objs[i].parent, objs[i].name);
    if objs[i].path != objs[j].path {
        if objs[i].path == w {
            assert(objs[j].path.push('\'') == objs[i].path);
        } else if objs[j].path == w {
            assert(objs[i].path.push('\'') == objs[j].path);
        } else {
            assert(objs[i].path =~= w.drop_last());
            assert(objs[j].path =~= w.drop_last());
        }
    }
    if i < j {
        assert(objs[i].path != objs[j].path);
    }
    if j < i {
        assert(objs[j].path != objs[i].path);
    }
}

/// The group of this name among the objects.
pub open spec fn is_group(o: ObjectModel, name: Seq<char>) -> bool {
    o.depth == 1 && o.name == name
}

/// The places of the groups among the first `k` objects.
pub open spec fn group_places(objs: Seq<ObjectModel>, k: int) -> Seq<int>
    decreases k,
{
    if k <= 0 {
        Seq::empty()
    } else if objs[k - 1].depth == 1 {
        group_places(objs, k - 1).push(k - 1)
    } else {
        group_places(objs, k - 1)
    }
}

/// The places of a group's channels among the first `k` objects.
pub open spec fn channel_places(objs: Seq<ObjectModel>, k: int, group: Seq<char>) -> Seq<int>
    decreases k,
{
    if k <= 0 {
        Seq::empty()
    } else if objs[k - 1].depth == 2 && file::group_of(objs[k - 1]) == group {
        channel_places(objs, k - 1, group).push(k - 1)
    } else {
        channel_places(objs, k - 1, group)
    }
}

/// Whether the places ascend, and none is beyond `k`.
pub open spec fn ascending(places: Seq<int>, k: int) -> bool {
    (forall|i: int| 0 <= i < places.len() ==> 0 <= #[trigger] places[i] < k) && (forall|
        i: int,
        j: int,
    |
        0 <= i < j < places.len() ==> places[i] < places[j])
}

proof fn lemma_group_places(objs: Seq<ObjectModel>, k: int)
    requires
        0 <= k <= objs.len(),
    ensures
        ascending(group_places(objs, k), k),
        file::empty_groups(objs, k).len() == group_places(objs, k).len(),
        forall|i: int|
            #![trigger group_places(objs, k)[i]]
            #![trigger file::empty_groups(objs, k)[i]]
            0 <= i < group_places(objs, k).len() ==> is_group(
                objs[group_places(objs, k)[i]],
                file::empty_groups(objs, k)[i].name,
            ) && file::empty_groups(objs, k)[i].properties
                == objs[group_places(objs, k)[i]].properties,
    decreases k,
{
    if k > 0 {
        lemma_group_places(objs, k - 1);
        let before = file::empty_groups(objs, k - 1);
        let all = file::empty_groups(objs, k);
        let places = group_places(objs, k);
        assert forall|i: int|
            #![trigger places[i]]
            #![trigger all[i]]
            0 <= i < places.len() implies is_group(objs[places[i]], all[i].name)
            && all[i].properties == objs[places[i]].properties by {
            if i < before.len() {
                assert(all[i] == before[i]);
                assert(places[i] == group_places(objs, k - 1)[i]);
            }
        }
    }
}

proof fn lemma_channel_places(objs: Seq<ObjectModel>, k: int, group: Seq<char>)
    requires
        0 <= k <= objs.len(),
    ensures
        ascending(channel_places(objs, k, group), k),
        laws::channels_in(objs, k, group).len() == channel_places(objs, k, group).len(),
        forall|i: int|
            #![trigger channel_places(objs, k, group)[i]]
            #![trigger laws::channels_in(objs, k, group)[i]]
            0 <= i < channel_places(objs, k, group).len() ==> laws::is_channel(
                objs[channel_places(objs, k, group)[i]],
                group,
                laws::channels_in(objs, k, group)[i].name,
            ) && laws::channels_in(objs, k, group)[i] == laws::channel_of(
                objs[channel_places(objs, k, group)[i]],
            ),
    decreases k,
{
    if k > 0 {
        lemma_channel_places(objs, k - 1, group);
        let before = laws::channels_in(objs, k - 1, group);
        let all = laws::channels_in(objs, k, group);
        let places = channel_places(objs, k, group);
        assert forall|i: int|
            #![trigger places[i]]
            #![trigger all[i]]
            0 <= i < places.len() implies laws::is_channel(objs[places[i]], group, all[i].name)
            && all[i] == laws::channel_of(objs[places[i]]) by {
            if i < before.len() {
                assert(all[i] == before[i]);
                assert(places[i] == channel_places(objs, k - 1, group)[i]);
            }
        }
    }
}

/// Whether an object has this place in the hierarchy.
pub open spec fn is_at(
    o: ObjectModel,
    depth: u8,
    parent: Option<Seq<char>>,
    name: Seq<char>,
) -> bool {
    o.depth == depth && o.parent == parent && o.name == name
}

/// Whether some object has this place.
pub open spec fn taken(
    objs: Seq<ObjectModel>,
    depth: u8,
    parent: Option<Seq<char>>,
    name: Seq<char>,
) -> bool {
    exists|i: int| 0 <= i < objs.len() && is_at(#[trigger] objs[i], depth, parent, name)
}

/// The object that has this place.
pub open spec fn placed(
    objs: Seq<ObjectModel>,
    depth: u8,
    parent: Option<Seq<char>>,
    name: Seq<char>,
) -> Option<ObjectModel> {
    if taken(objs, depth, parent, name) {
        Some(
            objs[choose|i: int|
                0 <= i < objs.len() && is_at(#[trigger] objs[i], depth, parent, name)],
        )
    } else {
        None
    }
}

/// The object with a place is the one that is there.
pub proof fn lemma_placed(objs: Seq<ObjectModel>, i: int)
    requires
        order::paths_distinct(objs),
        naming::named(objs),
        no_twins(objs),
        0 <= i < objs.len(),
    ensures
        placed(objs, objs[i].depth, objs[i].parent, objs[i].name) == Some(objs[i]),
{
    let o = objs[i];
    assert(is_at(objs[i], o.depth, o.parent, o.name));
    let j = choose|j: int|
        0 <= j < objs.len() && is_at(#[trigger] objs[j], o.depth, o.parent, o.name);
    lemma_place_is_own(objs, i, j);
}

/// What holds of the objects of a file that was read.
pub open spec fn read_well(objs: Seq<ObjectModel>) -> bool {
    order::paths_distinct(objs) && naming::named(objs) && naming::grouped(objs)
}

/// The objects of a file that was read are those.
pub proof fn lemma_read_well(bytes: Seq<u8>)
    ensures
        file::segments(bytes, 0, Seq::empty(), Seq::empty()) matches Ok((objs, _)) ==> read_well(
            objs,
        ),
{
    laws::law_file_keeps(bytes, 0, Seq::empty(), Seq::empty());
    naming::law_objects_grouped(bytes, 0, Seq::empty(), Seq::empty());
}

/// Whether no two groups have the same name.
pub open spec fn groups_distinct(groups: Seq<GroupModel>) -> bool {
    forall|i: int, j: int|
        0 <= i < j < groups.len() ==> (#[trigger] groups[i]).name != (#[trigger] groups[j]).name
}

/// Whether no two channels have the same name.
pub open spec fn channels_distinct(channels: Seq<ChannelModel>) -> bool {
    forall|i: int, j: int|
        0 <= i < j < channels.len() ==> (#[trigger] channels[i]).name != (
        #[trigger] channels[j]).name
}

/// The names of groups are distinct, and so are the names of a group's
/// channels; groups and channels come in the order of the objects.
pub proof fn law_names_distinct(objs: Seq<ObjectModel>)
    requires
        read_well(objs),
        no_twins(objs),
    ensures
        file::hierarchy(objs) matches Ok(f) && groups_distinct(f.groups) && f.groups.len()
            == group_places(objs, objs.len() as int).len() && forall|i: int|
            #![trigger f.groups[i]]
            0 <= i < f.groups.len() ==> {
                let g = f.groups[i];
                let at = group_places(objs, objs.len() as int)[i];
                &&& is_group(objs[at], g.name)
                &&& g.properties == objs[at].properties
                &&& channels_distinct(g.channels)
                &&& g.channels == channel_places(objs, objs.len() as int, g.name).map_values(
                    |k: int| laws::channel_of(objs[k]),
                )
            },
        ascending(group_places(objs, objs.len() as int), objs.len() as int),
        forall|group: Seq<char>|
            ascending(
                #[trigger] channel_places(objs, objs.len() as int, group),
                objs.len() as int,
            ),
{
    let n = objs.len() as int;
    let groups = file::empty_groups(objs, n);
    let places = group_places(objs, n);
    naming::lemma_filled(objs, n);
    let f = file::hierarchy(objs)->Ok_0;
    laws::lemma_groups_empty(objs, n);
    laws::law_groups_filled(groups, objs, n);
    lemma_group_places(objs, n);
    assert(groups_distinct(groups)) by {
        assert forall|i: int, j: int| 0 <= i < j < groups.len() implies (#[trigger] groups[i]).name
            != (#[trigger] groups[j]).name by {
            if groups[i].name == groups[j].name {
                assert(places[i] < places[j]);
                assert(objs[places[i]].parent is None && objs[places[j]].parent is None);
                lemma_place_is_own(objs, places[i], places[j]);
            }
        }
    }
    assert forall|group: Seq<char>| ascending(#[trigger] channel_places(objs, n, group), n) by {
        lemma_channel_places(objs, n, group);
    }
    assert forall|i: int| 0 <= i < f.groups.len() implies ({
        let g = #[trigger] f.groups[i];
        let at = group_places(objs, n)[i];
        &&& is_group(objs[at], g.name)
        &&& g.properties == objs[at].properties
        &&& channels_distinct(g.channels)
        &&& g.channels == channel_places(objs, n, g.name).map_values(
            |k: int| laws::channel_of(objs[k]),
        )
    }) by {
        let g = f.groups[i];
        assert(g.name == groups[i].name);
        laws::lemma_group_named(groups, g.name);
        let first = file::group_named(groups, g.name)->0;
        if first < i {
            assert(groups[first].name != groups[i].name);
        } else if first > i {
            assert(groups[i].name != g.name);
        }
        lemma_channel_places(objs, n, g.name);
        let cs = channel_places(objs, n, g.name);
        assert(g.channels == laws::channels_in(objs, n, g.name));
        assert forall|x: int, y: int| 0 <= x < y < g.channels.len() implies (
        #[trigger] g.channels[x]).name != (#[trigger] g.channels[y]).name by {
            if g.channels[x].name == g.channels[y].name {
                assert(cs[x] < cs[y]);
                lemma_parent(objs, cs[x]);
                lemma_parent(objs, cs[y]);
                lemma_place_is_own(objs, cs[x], cs[y]);
            }
        }
        assert(g.channels =~= cs.map_values(|k: int| laws::channel_of(objs[k])));
    }
}

/// A channel has a group in its path.
proof fn lemma_parent(objs: Seq<ObjectModel>, i: int)
    requires
        naming::named(objs),
        0 <= i < objs.len(),
        objs[i].depth == 2,
    ensures
        objs[i].parent == Some(file::group_of(objs[i])),
{
    assert(path::path_parts(objs[i].path) is Ok);
}

/// A channel that is looked up is the object with its place.
pub proof fn law_channel_placed(objs: Seq<ObjectModel>, group: Seq<char>, name: Seq<char>)
    requires
        read_well(objs),
        no_twins(objs),
    ensures
        file::hierarchy(objs) is Ok,
        file::hierarchy(objs)->Ok_0.channel(group, name) == match placed(
            objs,
            2,
            Some(group),
            name,
        ) {
            Some(o) => Some(laws::channel_of(o)),
            None => None,
        },
{
    let n = objs.len() as int;
    naming::lemma_filled(objs, n);
    laws::law_channel_lookup(objs, group, name);
    laws::lemma_first_channel(objs, n, group, name);
    match laws::first_channel(objs, n, group, name) {
        Some(i) => {
            lemma_parent(objs, i);
            lemma_placed(objs, i);
        },
        None => {
            if taken(objs, 2, Some(group), name) {
                let i = choose|i: int|
                    0 <= i < objs.len() && is_at(#[trigger] objs[i], 2, Some(group), name);
                assert(laws::is_channel(objs[i], group, name));
            }
        },
    }
}

/// The properties of the first group of that name.
pub open spec fn group_properties(f: file::FileModel, name: Seq<char>) -> Option<
    Map<Seq<char>, super::value::PropertyModel>,
> {
    match file::group_named(f.groups, name) {
        Some(i) => Some(f.groups[i].properties),
        None => None,
    }
}

/// The properties of a group are those of the object with its place.
pub proof fn law_group_placed(objs: Seq<ObjectModel>, name: Seq<char>)
    requires
        read_well(objs),
        no_twins(objs),
    ensures
        file::hierarchy(objs) is Ok,
        group_properties(file::hierarchy(objs)->Ok_0, name) == match placed(objs, 1, None, name) {
            Some(o) => Some(o.properties),
            None => None,
        },
{
    law_names_distinct(objs);
    let n = objs.len() as int;
    let f = file::hierarchy(objs)->Ok_0;
    laws::lemma_group_named(f.groups, name);
    match file::group_named(f.groups, name) {
        Some(i) => {
            let at = group_places(objs, n)[i];
            assert(f.groups[i].name == name);
            assert(objs[at].parent is None);
            lemma_placed(objs, at);
        },
        None => {
            if taken(objs, 1, None, name) {
                let j = choose|j: int|
                    0 <= j < objs.len() && is_at(#[trigger] objs[j], 1, None, name);
                naming::lemma_group_listed(objs, n, j);
                let groups = file::empty_groups(objs, n);
                let i = choose|i: int|
                    0 <= i < groups.len() && (#[trigger] groups[i]).name == objs[j].name;
                laws::lemma_groups_empty(objs, n);
                laws::law_groups_filled(groups, objs, n);
                assert(f.groups[i].name == name);
            }
        },
    }
}

proof fn lemma_root(objs: Seq<ObjectModel>, k: int, i: int)
    requires
        order::paths_distinct(objs),
        naming::named(objs),
        0 <= k <= objs.len(),
        0 <= i < k,
        objs[i].depth == 0,
    ensures
        file::root_properties(objs, k) == objs[i].properties,
    decreases k,
{
    if i < k - 1 {
        lemma_root(objs, k - 1, i);
        if objs[k - 1].depth == 0 {
            law_path_written(objs[i].path);
            law_path_written(objs[k - 1].path);
            assert(objs[i].path != objs[k - 1].path);
        }
    }
}

proof fn lemma_no_root(objs: Seq<ObjectModel>, k: int)
    requires
        0 <= k <= objs.len(),
        forall|i: int| 0 <= i < k ==> (#[trigger] objs[i]).depth != 0,
    ensures
        file::root_properties(objs, k) == Map::<Seq<char>, super::value::PropertyModel>::empty(),
    decreases k,
{
    if k > 0 {
        lemma_no_root(objs, k - 1);
    }
}

/// The properties of a file are those of the object at the root.
pub proof fn law_root_placed(objs: Seq<ObjectModel>)
    requires
        read_well(objs),
        no_twins(objs),
    ensures
        file::root_properties(objs, objs.len() as int) == match placed(
            objs,
            0,
            None,
            Seq::empty(),
        ) {
            Some(o) => o.properties,
            None => Map::empty(),
        },
{
    let n = objs.len() as int;
    if taken(objs, 0, None, Seq::empty()) {
        let i = choose|i: int|
            0 <= i < objs.len() && is_at(#[trigger] objs[i], 0, None, Seq::empty());
        lemma_placed(objs, i);
        lemma_root(objs, n, i);
    } else {
        assert forall|i: int| 0 <= i < n implies (#[trigger] objs[i]).depth != 0 by {
            if objs[i].depth == 0 {
                assert(is_at(objs[i], 0, None, objs[i].name));
                assert(objs[i].name =~= Seq::empty());
            }
        }
        lemma_no_root(objs, n);
    }
}

/// A list with those of another behind it that have not come before.
pub open spec fn first_of<A>(list: Seq<A>, more: Seq<A>) -> Seq<A>
    decreases more.len(),
{
    if more.len() == 0 {
        list
    } else {
        let before = first_of(list, more.drop_last());
        if before.contains(more.last()) {
            before
        } else {
            before.push(more.last())
        }
    }
}

/// The paths of objects.
pub open spec fn paths(objs: Seq<ObjectModel>) -> Seq<Seq<char>> {
    objs.map_values(|o: ObjectModel| o.path)
}

/// The paths that a declaration mentions: that of the group, where it declares
/// a channel, and its own.
pub open spec fn mentioned(d: DeclModel) -> Seq<Seq<char>> {
    match d.parent {
        Some(g) => if d.depth == 2 {
            seq![path::component(g), d.path]
        } else {
            seq![d.path]
        },
        None => seq![d.path],
    }
}

/// The paths that declarations mention, one after the other.
pub open spec fn mentions(ds: Seq<DeclModel>) -> Seq<Seq<char>>
    decreases ds.len(),
{
    if ds.len() == 0 {
        Seq::empty()
    } else {
        mentions(ds.drop_last()) + mentioned(ds.last())
    }
}

/// The paths that the segments from `pos` on mention, one after the other.
pub open spec fn file_mentions(bytes: Seq<u8>, pos: int) -> Seq<Seq<char>>
    decreases
        (if pos < bytes.len() {
            bytes.len() - pos
        } else {
            0
        }),
{
    if pos + segment::LEAD_IN > bytes.len() {
        Seq::empty()
    } else {
        mentions(segment::declarations(bytes, pos)) + file_mentions(
            bytes,
            segment::segment_end(bytes, pos),
        )
    }
}

proof fn lemma_first_step<A>(list: Seq<A>, more: Seq<A>, x: A)
    ensures
        first_of(list, more.push(x)) == if first_of(list, more).contains(x) {
            first_of(list, more)
        } else {
            first_of(list, more).push(x)
        },
{
    assert(more.push(x).drop_last() =~= more);
}

proof fn lemma_first_on<A>(list: Seq<A>, a: Seq<A>, b: Seq<A>)
    ensures
        first_of(first_of(list, a), b) == first_of(list, a + b),
    decreases b.len(),
{
    if b.len() == 0 {
        assert(a + b =~= a);
    } else {
        lemma_first_on(list, a, b.drop_last());
        assert((a + b).drop_last() =~= a + b.drop_last());
    }
}

proof fn lemma_ensured_paths(objs: Seq<ObjectModel>, fresh: ObjectModel)
    ensures
        paths(object::ensured(objs, fresh).0) == first_of(paths(objs), seq![fresh.path]),
{
    object::lemma_find(objs, fresh.path);
    let s = paths(objs);
    let none = Seq::<Seq<char>>::empty();
    assert(none.push(fresh.path) =~= seq![fresh.path]);
    lemma_first_step(s, none, fresh.path);
    match object::find(objs, fresh.path) {
        Some(i) => {
            assert(s[i] == fresh.path);
        },
        None => {
            if s.contains(fresh.path) {
                let k = s.index_of(fresh.path);
                assert(objs[k].path == fresh.path);
            }
            assert(paths(objs.push(fresh)) =~= s.push(fresh.path));
        },
    }
}

proof fn lemma_declared_paths(objs: Seq<ObjectModel>, d: DeclModel)
    ensures
        paths(object::declared(objs, d).0) == first_of(paths(objs), mentioned(d)),
{
    let wide = object::with_group(objs, d);
    let fresh = object::fresh_object(d);
    let (all, i) = object::ensured(wide, fresh);
    lemma_ensured_paths(wide, fresh);
    object::lemma_find(wide, d.path);
    assert(paths(object::declared(objs, d).0) =~= paths(all));
    match d.parent {
        Some(g) => {
            if d.depth == 2 {
                lemma_ensured_paths(objs, object::implied_group(g));
                lemma_first_on(paths(objs), seq![path::component(g)], seq![d.path]);
                assert(seq![path::component(g)] + seq![d.path] =~= mentioned(d));
            }
        },
        None => {},
    }
}

proof fn lemma_declared_all_paths(objs: Seq<ObjectModel>, ds: Seq<DeclModel>)
    ensures
        paths(object::declared_all(objs, ds).0) == first_of(paths(objs), mentions(ds)),
    decreases ds.len(),
{
    if ds.len() > 0 {
        let before = object::declared_all(objs, ds.drop_last()).0;
        lemma_declared_all_paths(objs, ds.drop_last());
        lemma_declared_paths(before, ds.last());
        lemma_first_on(paths(objs), mentions(ds.drop_last()), mentioned(ds.last()));
    }
}

/// Objects come in the order in which a file first mentions their paths.
pub proof fn law_first_mention(
    bytes: Seq<u8>,
    pos: int,
    objs: Seq<ObjectModel>,
    before: Seq<int>,
)
    requires
        history::sound(objs),
        order::order_ok(objs, before),
        0 <= pos,
    ensures
        file::segments(bytes, pos, objs, before) matches Ok((after, _)) ==> paths(after)
            == first_of(paths(objs), file_mentions(bytes, pos)),
    decreases
            (if pos < bytes.len() {
                bytes.len() - pos
            } else {
                0
            }),
{
    if pos < bytes.len() {
        history::law_segment_keeps(bytes, pos, objs, before);
        history::lemma_segment_parts(bytes, pos, objs, before);
        match segment::segment_at(bytes, pos, objs, before) {
            Err(_) => {},
            Ok((next, list, end)) => {
                reveal(segment::segment_at);
                let ds = segment::declarations(bytes, pos);
                lemma_declared_all_paths(objs, ds);
                let known = object::declared_all(objs, ds).0;
                assert(paths(next) =~= paths(known)) by {
                    assert forall|i: int| 0 <= i < next.len() implies (#[trigger] next[i]).path
                        == known[i].path by {
                        assert(history::more_samples(known[i], next[i]));
                    }
                }
                law_first_mention(bytes, end, next, list);
                lemma_first_on(paths(objs), mentions(ds), file_mentions(bytes, end));
            },
        }
    }
}

/// In a file that can be read, and in which no two paths differ in a closing
/// quote alone, groups have distinct names, and so have the channels of a
/// group; they come in the order in which the file first mentions their paths.
pub proof fn law_file_names(bytes: Seq<u8>)
    requires
        file::segments(bytes, 0, Seq::empty(), Seq::empty()) is Ok,
        no_twins(file::segments(bytes, 0, Seq::empty(), Seq::empty())->Ok_0.0),
    ensures
        ({
            let objs = file::segments(bytes, 0, Seq::empty(), Seq::empty())->Ok_0.0;
            let n = objs.len() as int;
            &&& paths(objs) == first_of(Seq::empty(), file_mentions(bytes, 0))
            &&& ascending(group_places(objs, n), n)
            &&& file::file_of(bytes) matches Ok(f) && groups_distinct(f.groups) && f.groups.len()
                == group_places(objs, n).len() && forall|i: int|
                #![trigger f.groups[i]]
                0 <= i < f.groups.len() ==> {
                    let g = f.groups[i];
                    &&& is_group(objs[group_places(objs, n)[i]], g.name)
                    &&& channels_distinct(g.channels)
                    &&& ascending(channel_places(objs, n, g.name), n)
                    &&& g.channels == channel_places(objs, n, g.name).map_values(
                        |k: int| laws::channel_of(objs[k]),
                    )
                }
        }),
{
    let none = Seq::<ObjectModel>::empty();
    let no_list = Seq::<int>::empty();
    let objs = file::segments(bytes, 0, none, no_list)->Ok_0.0;
    lemma_read_well(bytes);
    law_names_distinct(objs);
    law_first_mention(bytes, 0, none, no_list);
    assert(paths(none) =~= Seq::empty());
    let f = file::file_of(bytes)->Ok_0;
    assert forall|i: int| 0 <= i < f.groups.len() implies ascending(
        channel_places(objs, objs.len() as int, (#[trigger] f.groups[i]).name),
        objs.len() as int,
    ) by {
        assert(ascending(
            channel_places(objs, objs.len() as int, f.groups[i].name),
            objs.len() as int,
        ));
    }
}

} // verus!
