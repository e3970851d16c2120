//! A whole file: its segments in turn, and the hierarchy of file, groups and
//! channels that comes of them.

use super::error::{TdmsError, TdmsFault};
use super::history;
use super::object;
use super::object::{ObjectModel, ObjectState};
use super::order;
use super::segment;
use super::value::{PropertyMap, PropertyModel, Scalar};
use crate::text;
use vstd::prelude::*;

verus! {

/// A channel.
#[verifier::ext_equal]
pub struct ChannelModel {
    pub name: Seq<char>,
    pub properties: Map<Seq<char>, PropertyModel>,
    pub data: Seq<Scalar>,
}

/// A group.
#[verifier::ext_equal]
pub struct GroupModel {
    pub name: Seq<char>,
    pub properties: Map<Seq<char>, PropertyModel>,
    pub channels: Seq<ChannelModel>,
}

/// A file.
#[verifier::ext_equal]
pub struct FileModel {
    pub properties: Map<Seq<char>, PropertyModel>,
    pub groups: Seq<GroupModel>,
}

/// A channel with its properties and all its samples, each as it is stored.
#[derive(Debug)]
pub struct TdmsChannel {
    pub name: String,
    pub properties: PropertyMap,
    pub data: Vec<Scalar>,
}

impl View for TdmsChannel {
    type V = ChannelModel;

    open spec fn view(&self) -> ChannelModel {
        ChannelModel {
            name: self.name@,
            properties: self.properties@,
            data: self.data@,
        }
    }
}

/// A group with its properties and its channels, in the order in which they
/// were first seen.
#[derive(Debug)]
pub struct TdmsGroup {
    pub name: String,
    pub properties: PropertyMap,
    pub channels: Vec<TdmsChannel>,
}

impl View for TdmsGroup {
    type V = GroupModel;

    open spec fn view(&self) -> GroupModel {
        GroupModel {
            name: self.name@,
            properties: self.properties@,
            channels: channel_models(self.channels@),
        }
    }
}

/// The properties of a file and its groups, in the order in which they were
/// first seen.
#[derive(Debug)]
pub struct TdmsFile {
    pub properties: PropertyMap,
    pub groups: Vec<TdmsGroup>,
}

impl View for TdmsFile {
    type V = FileModel;

    open spec fn view(&self) -> FileModel {
        FileModel { properties: self.properties@, groups: group_models(self.groups@) }
    }
}

/// The channels of a list.
pub open spec fn channel_models(s: Seq<TdmsChannel>) -> Seq<ChannelModel> {
    s.map_values(|c: TdmsChannel| c@)
}

/// The groups of a list.
pub open spec fn group_models(s: Seq<TdmsGroup>) -> Seq<GroupModel> {
    s.map_values(|g: TdmsGroup| g@)
}

/// The objects once the segments from `pos` on are read, and the places of
/// those in the raw data of the last one. `before` are the places of those in
/// the raw data of the segment before `pos`.
pub open spec fn segments(bytes: Seq<u8>, pos: int, objs: Seq<ObjectModel>, before: Seq<int>) -> Result<
    (Seq<ObjectModel>, Seq<int>),
    TdmsFault,
>
    decreases
        (if pos < bytes.len() {
            bytes.len() - pos
        } else {
            0
        }),
{
    if pos >= bytes.len() {
        Ok((objs, before))
    } else {
        proof {
            segment::lemma_segment_advances(bytes, pos, objs, before);
        }
        match segment::segment_at(bytes, pos, objs, before) {
            Err(e) => Err(e),
            Ok((after, list, end)) => segments(bytes, end, after, list),
        }
    }
}

/// The properties of the object of depth 0 among the first `k`.
pub open spec fn root_properties(objs: Seq<ObjectModel>, k: int) -> Map<Seq<char>, PropertyModel>
    decreases k,
{
    if k <= 0 {
        Map::empty()
    } else if objs[k - 1].depth == 0 {
        objs[k - 1].properties
    } else {
        root_properties(objs, k - 1)
    }
}

/// The groups among the first `k` objects, without channels.
pub open spec fn empty_groups(objs: Seq<ObjectModel>, k: int) -> Seq<GroupModel>
    decreases k,
{
    if k <= 0 {
        Seq::empty()
    } else {
        let before = empty_groups(objs, k - 1);
        let o = objs[k - 1];
        if o.depth == 1 {
            before.push(
                GroupModel { name: o.name, properties: o.properties, channels: Seq::empty() },
            )
        } else {
            before
        }
    }
}

/// The first group of that name.
pub open spec fn group_named(groups: Seq<GroupModel>, name: Seq<char>) -> Option<int>
    decreases groups.len(),
{
    if groups.len() == 0 {
        None
    } else {
        match group_named(groups.drop_last(), name) {
            Some(i) => Some(i),
            None => if groups.last().name == name {
                Some(groups.len() - 1)
            } else {
                None
            },
        }
    }
}

/// The first channel of that name.
pub open spec fn channel_named(channels: Seq<ChannelModel>, name: Seq<char>) -> Option<int>
    decreases channels.len(),
{
    if channels.len() == 0 {
        None
    } else {
        match channel_named(channels.drop_last(), name) {
            Some(i) => Some(i),
            None => if channels.last().name == name {
                Some(channels.len() - 1)
            } else {
                None
            },
        }
    }
}

/// The name of the group that an object belongs to.
pub open spec fn group_of(o: ObjectModel) -> Seq<char> {
    match o.parent {
        Some(g) => g,
        None => Seq::empty(),
    }
}

/// The groups with a channel added to the first one of its group's name.
pub open spec fn with_channel(groups: Seq<GroupModel>, o: ObjectModel) -> Result<
    Seq<GroupModel>,
    TdmsFault,
> {
    match group_named(groups, group_of(o)) {
        None => Err(
            TdmsFault::Malformed("channel under unknown group "@ + text::quoted(group_of(o))),
        ),
        Some(i) => {
            let c = ChannelModel { name: o.name, properties: o.properties, data: o.samples };
            let g = groups[i];
            Ok(groups.update(i, GroupModel { channels: g.channels.push(c), ..g }))
        },
    }
}

/// The groups once the channels among the first `k` objects are in them.
pub open spec fn filled_groups(groups: Seq<GroupModel>, objs: Seq<ObjectModel>, k: int) -> Result<
    Seq<GroupModel>,
    TdmsFault,
>
    decreases k,
{
    if k <= 0 {
        Ok(groups)
    } else {
        match filled_groups(groups, objs, k - 1) {
            Err(e) => Err(e),
            Ok(before) => if objs[k - 1].depth == 2 {
                with_channel(before, objs[k - 1])
            } else {
                Ok(before)
            },
        }
    }
}

/// The hierarchy that the objects form.
pub open spec fn hierarchy(objs: Seq<ObjectModel>) -> Result<FileModel, TdmsFault> {
    let n = objs.len() as int;
    match filled_groups(empty_groups(objs, n), objs, n) {
        Err(e) => Err(e),
        Ok(groups) => Ok(FileModel { properties: root_properties(objs, n), groups }),
    }
}

/// The file that the bytes hold.
pub open spec fn file_of(bytes: Seq<u8>) -> Result<FileModel, TdmsFault> {
    match segments(bytes, 0, Seq::empty(), Seq::empty()) {
        Err(e) => Err(e),
        Ok((objs, _)) => hierarchy(objs),
    }
}

proof fn lemma_group_named(groups: Seq<GroupModel>, k: int, name: Seq<char>)
    requires
        0 <= k <= groups.len(),
        group_named(groups.take(k), name) is Some,
    ensures
        group_named(groups, name) == group_named(groups.take(k), name),
    decreases groups.len(),
{
    if k < groups.len() {
        assert(groups.drop_last().take(k) =~= groups.take(k));
        lemma_group_named(groups.drop_last(), k, name);
    } else {
        assert(groups.take(k) =~= groups);
    }
}

proof fn lemma_channel_named(channels: Seq<ChannelModel>, k: int, name: Seq<char>)
    requires
        0 <= k <= channels.len(),
        channel_named(channels.take(k), name) is Some,
    ensures
        channel_named(channels, name) == channel_named(channels.take(k), name),
    decreases channels.len(),
{
    if k < channels.len() {
        assert(channels.drop_last().take(k) =~= channels.take(k));
        lemma_channel_named(channels.drop_last(), k, name);
    } else {
        assert(channels.take(k) =~= channels);
    }
}

/// A channel that cannot be placed is the error, whatever follows it.
pub proof fn lemma_filled_fault(groups: Seq<GroupModel>, objs: Seq<ObjectModel>, j: int, k: int)
    requires
        j <= k,
        filled_groups(groups, objs, j) is Err,
    ensures
        filled_groups(groups, objs, k) == filled_groups(groups, objs, j),
    decreases k - j,
{
    if j < k {
        lemma_filled_fault(groups, objs, j, k - 1);
    }
}

fn find_group(groups: &Vec<TdmsGroup>, name: &str) -> (r: Option<usize>)
    ensures
        match group_named(group_models(groups@), name@) {
            Some(i) => r matches Some(k) && k == i && k < groups@.len(),
            None => r is None,
        },
{
    let ghost all = group_models(groups@);
    assert(all.take(0) =~= Seq::empty());
    for i in 0..groups.len()
        invariant
            all == group_models(groups@),
            group_named(all.take(i as int), name@) is None,
    {
        assert(all.take(i + 1).drop_last() =~= all.take(i as int));
        if text::same_text(groups[i].name.as_str(), name) {
            proof {
                lemma_group_named(all, i + 1, name@);
            }
            return Some(i);
        }
    }
    assert(all.take(all.len() as int) =~= all);
    None
}

fn find_channel(channels: &Vec<TdmsChannel>, name: &str) -> (r: Option<usize>)
    ensures
        match channel_named(channel_models(channels@), name@) {
            Some(i) => r matches Some(k) && k == i && k < channels@.len(),
            None => r is None,
        },
{
    let ghost all = channel_models(channels@);
    assert(all.take(0) =~= Seq::empty());
    for i in 0..channels.len()
        invariant
            all == channel_models(channels@),
            channel_named(all.take(i as int), name@) is None,
    {
        assert(all.take(i + 1).drop_last() =~= all.take(i as int));
        if text::same_text(channels[i].name.as_str(), name) {
            proof {
                lemma_channel_named(all, i + 1, name@);
            }
            return Some(i);
        }
    }
    assert(all.take(all.len() as int) =~= all);
    None
}

impl TdmsChannel {
    /// The properties stand in the order of their names.
    pub open spec fn wf(&self) -> bool {
        self.properties.wf()
    }
}

impl TdmsGroup {
    /// All properties stand in the order of their names.
    pub open spec fn wf(&self) -> bool {
        self.properties.wf() && forall|i: int|
            0 <= i < self.channels@.len() ==> (#[trigger] self.channels@[i]).wf()
    }
}

impl TdmsFile {
    /// All properties stand in the order of their names.
    pub open spec fn wf(&self) -> bool {
        self.properties.wf() && groups_wf(self.groups@)
    }
}

/// All properties of the groups stand in the order of their names.
pub open spec fn groups_wf(s: Seq<TdmsGroup>) -> bool {
    forall|i: int| 0 <= i < s.len() ==> (#[trigger] s[i]).wf()
}

impl FileModel {
    /// The first channel of that name in the first group of that name.
    pub open spec fn channel(self, group: Seq<char>, channel: Seq<char>) -> Option<ChannelModel> {
        match group_named(self.groups, group) {
            None => None,
            Some(i) => match channel_named(self.groups[i].channels, channel) {
                None => None,
                Some(j) => Some(self.groups[i].channels[j]),
            },
        }
    }
}

impl TdmsFile {
    /// The channel of that name in the group of that name.
    pub fn channel(&self, group: &str, channel: &str) -> (r: Option<&TdmsChannel>)
        ensures
            match self@.channel(group@, channel@) {
                Some(c) => r matches Some(x) && x@ == c,
                None => r is None,
            },
    {
        match find_group(&self.groups, group) {
            None => None,
            Some(i) => {
                assert(self@.groups[i as int] == self.groups@[i as int]@);
                let g: &TdmsGroup = &self.groups[i];
                match find_channel(&g.channels, channel) {
                    None => None,
                    Some(j) => Some(&g.channels[j]),
                }
            },
        }
    }
}

fn unknown_group(name: &str) -> (r: TdmsError)
    ensures
        r@ == TdmsFault::Malformed("channel under unknown group "@ + text::quoted(name@)),
{
    let mut out: String = "channel under unknown group ".to_owned();
    let shown: String = text::quote(name);
    text::push_text(&mut out, shown.as_str());
    TdmsError::Malformed(out)
}

/// Puts a channel into its group.
fn add_channel(groups: &mut Vec<TdmsGroup>, o: ObjectState) -> (r: Result<(), TdmsError>)
    requires
        groups_wf(old(groups)@),
        o.properties.wf(),
    ensures
        groups_wf(final(groups)@),
        match with_channel(group_models(old(groups)@), o@) {
            Ok(after) => r is Ok && group_models(final(groups)@) == after,
            Err(e) => r matches Err(x) && x@ == e,
        },
{
    let ghost before = group_models(groups@);
    let ghost model = o@;
    let name: &str = match &o.parent {
        Some(g) => g.as_str(),
        None => "",
    };
    proof {
        reveal_strlit("");
        assert(""@ =~= Seq::<char>::empty());
        assert(name@ == group_of(model));
    }
    match find_group(groups, name) {
        None => Err(unknown_group(name)),
        Some(i) => {
            assert(before[i as int] == groups@[i as int]@);
            let channel = TdmsChannel { name: o.name, properties: o.properties, data: o.samples };
            let ghost c = channel@;
            let ghost g = groups@[i as int];
            groups[i].channels.push(channel);
            proof {
                assert(channel_models(groups@[i as int].channels@) =~= channel_models(
                    g.channels@,
                ).push(c));
                assert(group_models(groups@) =~= with_channel(before, model)->Ok_0);
            }
            Ok(())
        },
    }
}

/// Forms the hierarchy of the objects.
pub fn assemble(objects: Vec<ObjectState>) -> (r: Result<TdmsFile, TdmsError>)
    requires
        object::all_wf(objects@),
    ensures
        match hierarchy(object::models(objects@)) {
            Ok(f) => r matches Ok(x) && x@ == f && x.wf(),
            Err(e) => r matches Err(x) && x@ == e,
        },
{
    let ghost objs = object::models(objects@);
    let ghost n = objs.len() as int;
    let mut properties: PropertyMap = PropertyMap::new();
    let mut groups: Vec<TdmsGroup> = Vec::new();
    let mut channels: Vec<ObjectState> = Vec::new();
    let ghost mut from: Seq<int> = Seq::empty();
    assert(group_models(groups@) =~= Seq::empty());
    for o in it: objects.into_iter()
        invariant
            it.seq() == objects@,
            object::all_wf(objects@),
            properties.wf(),
            groups_wf(groups@),
            object::all_wf(channels@),
            objs == object::models(objects@),
            properties@ == root_properties(objs, it.index()),
            group_models(groups@) == empty_groups(objs, it.index()),
            from.len() == channels@.len(),
            forall|j: int|
                0 <= j < from.len() ==> 0 <= #[trigger] from[j] < it.index()
                    && objs[from[j]].depth == 2 && channels@[j]@ == objs[from[j]],
            forall|i: int, j: int| 0 <= i < j < from.len() ==> from[i] < from[j],
            forall|i: int|
                0 <= i < it.index() && (#[trigger] objs[i]).depth == 2 ==> from.contains(i),
    {
        let ghost k = it.index();
        assert(objs[k] == objects@[k]@);
        if o.depth == 0 {
            properties = o.properties;
        } else if o.depth == 1 {
            let ghost before = group_models(groups@);
            let g = TdmsGroup { name: o.name, properties: o.properties, channels: Vec::new() };
            let ghost gm = g@;
            assert(gm.channels =~= Seq::empty());
            groups.push(g);
            assert(group_models(groups@) =~= before.push(gm));
        } else if o.depth == 2 {
            channels.push(o);
            proof {
                let longer = from.push(k);
                assert forall|i: int|
                    0 <= i < k + 1 && (#[trigger] objs[i]).depth == 2 implies longer.contains(
                    i,
                ) by {
                    if i == k {
                        assert(longer[from.len() as int] == k);
                    } else {
                        let j = from.index_of(i);
                        assert(longer[j] == i);
                    }
                }
                from = longer;
            }
        }
    }
    let ghost start = group_models(groups@);
    let ghost mut done: int = 0;
    for o in it: channels.into_iter()
        invariant
            it.seq() == channels@,
            object::all_wf(channels@),
            groups_wf(groups@),
            n == objs.len(),
            from.len() == channels@.len(),
            forall|j: int|
                0 <= j < from.len() ==> 0 <= #[trigger] from[j] < n && objs[from[j]].depth == 2
                    && channels@[j]@ == objs[from[j]],
            forall|i: int, j: int| 0 <= i < j < from.len() ==> from[i] < from[j],
            forall|i: int| 0 <= i < n && (#[trigger] objs[i]).depth == 2 ==> from.contains(i),
            done == if it.index() == 0 {
                0
            } else {
                from[it.index() - 1] + 1
            },
            filled_groups(start, objs, done) == Ok::<_, TdmsFault>(group_models(groups@)),
            start == empty_groups(objs, n),
            objs == object::models(objects@),
    {
        let ghost k = it.index();
        proof {
            assert forall|i: int| done <= i < from[k] implies (#[trigger] objs[i]).depth != 2 by {
                if objs[i].depth == 2 {
                    let j = from.index_of(i);
                    assert(from[j] == i);
                    if j < k {
                        assert(from[j] <= from[k - 1]);
                    }
                }
            }
            lemma_skip(start, objs, done, from[k]);
            if with_channel(group_models(groups@), o@) is Err {
                lemma_filled_fault(start, objs, from[k] + 1, n);
            }
        }
        add_channel(&mut groups, o)?;
        proof {
            done = from[k] + 1;
        }
    }
    proof {
        assert forall|i: int| done <= i < n implies (#[trigger] objs[i]).depth != 2 by {
            if objs[i].depth == 2 {
                let j = from.index_of(i);
                assert(from[j] == i);
                assert(from[j] <= from[from.len() - 1]);
            }
        }
        lemma_skip(start, objs, done, n);
    }
    Ok(TdmsFile { properties, groups })
}

/// Objects that are no channels add nothing.
proof fn lemma_skip(groups: Seq<GroupModel>, objs: Seq<ObjectModel>, j: int, k: int)
    requires
        0 <= j <= k,
        forall|i: int| j <= i < k ==> (#[trigger] objs[i]).depth != 2,
    ensures
        filled_groups(groups, objs, k) == filled_groups(groups, objs, j),
    decreases k - j,
{
    if j < k {
        lemma_skip(groups, objs, j, k - 1);
        assert(objs[k - 1].depth != 2);
    }
}

/// Reads a TDMS file.
pub fn parse_tdms(bytes: &[u8]) -> (r: Result<TdmsFile, TdmsError>)
    ensures
        match file_of(bytes@) {
            Ok(f) => r matches Ok(x) && x@ == f && x.wf(),
            Err(e) => r matches Err(x) && x@ == e,
        },
{
    let mut objects: Vec<ObjectState> = Vec::new();
    let mut active: Vec<usize> = Vec::new();
    let len: usize = bytes.len();
    let mut pos: usize = 0;
    assert(object::models(objects@) =~= Seq::empty());
    assert(object::places(active@) =~= Seq::empty());
    while pos < len
        invariant
            len == bytes@.len(),
            pos <= len,
            object::all_wf(objects@),
            history::sound(object::models(objects@)),
            order::order_ok(object::models(objects@), object::places(active@)),
            segments(bytes@, 0, Seq::empty(), Seq::empty()) == segments(
                bytes@,
                pos as int,
                object::models(objects@),
                object::places(active@),
            ),
        decreases len - pos,
    {
        proof {
            history::law_segment_keeps(
                bytes@,
                pos as int,
                object::models(objects@),
                object::places(active@),
            );
        }
        let parsed: segment::ParsedSegment = segment::parse_segment(
            bytes,
            pos,
            &mut objects,
            &active,
        )?;
        let next: usize = if parsed.next_pos < len as u128 {
            parsed.next_pos as usize
        } else {
            len
        };
        active = parsed.active;
        assert(segments(
            bytes@,
            parsed.next_pos as int,
            object::models(objects@),
            object::places(active@),
        ) == segments(bytes@, next as int, object::models(objects@), object::places(active@)));
        pos = next;
    }
    assemble(objects)
}

} // verus!
