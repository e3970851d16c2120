//! Laws of paths and groups: a path gives back the names it was made of, and
//! every channel has its group.

use super::cursor;
use super::error::TdmsFault;
use super::file;
use super::file::GroupModel;
use super::history;
use super::laws;
use super::object;
use super::object::{DeclModel, ObjectModel};
use super::order;
use super::path;
use super::segment;
use vstd::prelude::*;

verus! {

/// A character of a name as it stands in a path.
pub open spec fn escaped_char(c: char) -> Seq<char> {
    if c == '\'' {
        seq!['\'', '\'']
    } else {
        seq![c]
    }
}

/// A name is escaped character by character.
pub proof fn lemma_escaped_front(name: Seq<char>)
    requires
        name.len() > 0,
    ensures
        path::escaped(name) == escaped_char(name[0]) + path::escaped(name.drop_first()),
    decreases name.len(),
{
    reveal_with_fuel(path::escaped, 2);
    if name.len() == 1 {
        assert(name.drop_last() =~= Seq::empty());
        assert(name.drop_first() =~= Seq::empty());
        assert(path::escaped(name) =~= escaped_char(name[0]) + path::escaped(name.drop_first()));
    } else {
        let rest = name.drop_last();
        lemma_escaped_front(rest);
        assert(rest.drop_first() =~= name.drop_first().drop_last());
        assert(name.drop_first().last() == name.last());
        assert(path::escaped(name) =~= escaped_char(name[0]) + path::escaped(name.drop_first()));
    }
}

proof fn lemma_name_read(b: Seq<char>, i: int, name: Seq<char>)
    requires
        0 <= i,
        i + path::escaped(name).len() < b.len(),
        forall|k: int|
            0 <= k < path::escaped(name).len() ==> b[i + k] == #[trigger] path::escaped(name)[k],
        b[i + path::escaped(name).len()] == '\'',
        i + path::escaped(name).len() + 1 < b.len() ==> b[i + path::escaped(name).len() + 1]
            != '\'',
    ensures
        path::name_body(b, i) == (name, i + path::escaped(name).len() + 1),
    decreases name.len(),
{
    let e = path::escaped(name);
    if name.len() == 0 {
        assert(path::name_body(b, i).0 =~= name);
    } else {
        lemma_escaped_front(name);
        let rest = name.drop_first();
        let er = path::escaped(rest);
        let w = escaped_char(name[0]).len() as int;
        assert(e.len() == w + er.len());
        assert forall|k: int| 0 <= k < er.len() implies b[i + w + k] == #[trigger] er[k] by {
            assert(e[w + k] == er[k]);
            assert(b[i + (w + k)] == e[w + k]);
        }
        lemma_name_read(b, i + w, rest);
        assert(e[0] == name[0]);
        assert(b[i + 0] == e[0]);
        if name[0] == '\'' {
            assert(e[1] == '\'');
            assert(b[i + 1] == e[1]);
        }
        assert(seq![name[0]] + rest =~= name);
    }
}

/// A group's path names the group.
pub proof fn law_group_path(name: Seq<char>)
    ensures
        path::path_parts(path::component(name)) == Ok::<_, TdmsFault>(
            (1u8, None::<Seq<char>>, name),
        ),
{
    let p = path::component(name);
    let e = path::escaped(name);
    assert(p[0] == '/' && p[1] == '\'' && p[p.len() - 1] == '\'');
    assert forall|k: int| 0 <= k < e.len() implies p[2 + k] == #[trigger] e[k] by {}
    lemma_name_read(p, 2, name);
    reveal_with_fuel(path::components, 2);
    assert(path::components(p, 1, true)->0 =~= seq![name]);
}

/// A channel's path names the channel and its group.
pub proof fn law_channel_path(group: Seq<char>, name: Seq<char>)
    ensures
        path::path_parts(path::component(group) + path::component(name)) == Ok::<_, TdmsFault>(
            (2u8, Some(group), name),
        ),
{
    let pg = path::component(group);
    let pn = path::component(name);
    let p = pg + pn;
    let eg = path::escaped(group);
    let en = path::escaped(name);
    let m = pg.len() as int;
    assert(p[0] == '/' && p[1] == '\'' && p[m - 1] == '\'');
    assert(p[m] == '/' && p[m + 1] == '\'' && p[p.len() - 1] == '\'');
    assert forall|k: int| 0 <= k < eg.len() implies p[2 + k] == #[trigger] eg[k] by {}
    assert forall|k: int| 0 <= k < en.len() implies p[m + 2 + k] == #[trigger] en[k] by {}
    lemma_name_read(p, 2, group);
    lemma_name_read(p, m + 2, name);
    reveal_with_fuel(path::components, 3);
    assert(path::components(p, 1, true)->0 =~= seq![group, name]);
}

/// Whether every object has the place in the hierarchy that its path says.
pub open spec fn named(objs: Seq<ObjectModel>) -> bool {
    forall|i: int|
        0 <= i < objs.len() ==> path::path_parts((#[trigger] objs[i]).path) == Ok::<_, TdmsFault>(
            (objs[i].depth, objs[i].parent, objs[i].name),
        )
}

/// Whether there is a group of this name.
pub open spec fn has_group(objs: Seq<ObjectModel>, name: Seq<char>) -> bool {
    exists|j: int| 0 <= j < objs.len() && (#[trigger] objs[j]).depth == 1 && objs[j].name == name
}

/// Whether every channel has its group.
pub open spec fn grouped(objs: Seq<ObjectModel>) -> bool {
    forall|i: int|
        0 <= i < objs.len() && (#[trigger] objs[i]).depth == 2 ==> has_group(
            objs,
            file::group_of(objs[i]),
        )
}

proof fn lemma_has_group_continues(a: Seq<ObjectModel>, b: Seq<ObjectModel>, name: Seq<char>)
    requires
        history::continues(a, b),
        has_group(a, name),
    ensures
        has_group(b, name),
{
    let j = choose|j: int|
        0 <= j < a.len() && (#[trigger] a[j]).depth == 1 && a[j].name == name;
    assert(history::grown(a[j], b[j]));
    assert(b[j].depth == 1 && b[j].name == name);
}

proof fn lemma_grouped_declared(objs: Seq<ObjectModel>, d: DeclModel)
    requires
        named(objs),
        grouped(objs),
        path::path_parts(d.path) == Ok::<_, TdmsFault>((d.depth, d.parent, d.name)),
    ensures
        named(object::declared(objs, d).0),
        grouped(object::declared(objs, d).0),
{
    let after = object::declared(objs, d).0;
    let wide = object::with_group(objs, d);
    let (all, at) = object::ensured(wide, object::fresh_object(d));
    history::lemma_declared_continues(objs, d);
    object::lemma_find(wide, d.path);
    assert(after[at].path == d.path);
    match d.parent {
        Some(g) => {
            object::lemma_find(objs, path::component(g));
            law_group_path(g);
        },
        None => {},
    }
    assert(named(wide));
    assert(named(all));
    assert(named(after));
    assert forall|i: int| 0 <= i < after.len() && (#[trigger] after[i]).depth == 2 implies has_group(
        after,
        file::group_of(after[i]),
    ) by {
        if i < objs.len() {
            assert(history::grown(objs[i], after[i]));
            lemma_has_group_continues(objs, after, file::group_of(objs[i]));
        } else {
            assert(after[i].path == all[i].path);
            if i < wide.len() {
                assert(wide[i].depth == 1);
            } else {
                assert(all[i] == object::fresh_object(d));
                assert(d.depth == 2);
                let g = d.parent->0;
                assert(d.parent is Some);
                let j = match object::find(objs, path::component(g)) {
                    Some(j) => j,
                    None => objs.len() as int,
                };
                assert(wide[j].path == path::component(g));
                assert(wide[j].depth == 1 && wide[j].name == g);
                assert(after[j].depth == 1 && after[j].name == g);
            }
        }
    }
}

/// Declarations keep the objects named by their paths, and every channel grouped.
pub proof fn lemma_grouped_declared_all(objs: Seq<ObjectModel>, ds: Seq<DeclModel>)
    requires
        named(objs),
        grouped(objs),
        forall|k: int|
            0 <= k < ds.len() ==> path::path_parts((#[trigger] ds[k]).path) == Ok::<_, TdmsFault>(
                (ds[k].depth, ds[k].parent, ds[k].name),
            ),
    ensures
        named(object::declared_all(objs, ds).0),
        grouped(object::declared_all(objs, ds).0),
    decreases ds.len(),
{
    if ds.len() > 0 {
        let rest = ds.drop_last();
        assert(ds[ds.len() - 1] == ds.last());
        let before = object::declared_all(objs, rest).0;
        assert forall|k: int| 0 <= k < rest.len() implies path::path_parts(
            (#[trigger] rest[k]).path,
        ) == Ok::<_, TdmsFault>((rest[k].depth, rest[k].parent, rest[k].name)) by {
            assert(rest[k] == ds[k]);
        }
        lemma_grouped_declared_all(objs, rest);
        lemma_grouped_declared(before, ds.last());
    }
}

proof fn lemma_decls_named(buf: Seq<u8>, pos: int, n: nat, daqmx: bool)
    ensures
        object::decls_at(buf, pos, n, daqmx) matches Ok((ds, _)) ==> forall|k: int|
            0 <= k < ds.len() ==> path::path_parts((#[trigger] ds[k]).path) == Ok::<_, TdmsFault>(
                (ds[k].depth, ds[k].parent, ds[k].name),
            ),
    decreases n,
{
    if n > 0 {
        lemma_decls_named(buf, pos, (n - 1) as nat, daqmx);
    }
}

/// The declarations of a segment keep the objects named by their paths, and
/// every channel grouped.
pub proof fn lemma_declared_named(bytes: Seq<u8>, start: int, objs: Seq<ObjectModel>)
    requires
        named(objs),
        grouped(objs),
    ensures
        segment::metadata(
            segment::body_of(bytes, start),
            segment::toc_of(bytes, start),
            objs,
        ) matches Ok((known, _)) ==> named(known) && grouped(known),
{
    let toc = segment::toc_of(bytes, start);
    let buf = segment::body_of(bytes, start);
    if segment::marked(toc, segment::META_DATA) {
        match cursor::nat_at(buf, 24, 4) {
            Err(_) => {},
            Ok(n) => {
                let daqmx = segment::marked(toc, segment::DAQMX);
                lemma_decls_named(buf, 28, n, daqmx);
                match object::decls_at(buf, 28, n, daqmx) {
                    Err(_) => {},
                    Ok((ds, _)) => {
                        lemma_grouped_declared_all(objs, ds);
                    },
                }
            },
        }
    }
}

/// So does the whole segment.
pub proof fn lemma_segment_named(
    bytes: Seq<u8>,
    start: int,
    objs: Seq<ObjectModel>,
    before: Seq<int>,
)
    requires
        history::sound(objs),
        order::order_ok(objs, before),
        named(objs),
        grouped(objs),
    ensures
        segment::segment_at(bytes, start, objs, before) matches Ok((after, _, _)) ==> named(after)
            && grouped(after),
{
    match segment::segment_at(bytes, start, objs, before) {
        Err(_) => {},
        Ok((after, list, end)) => {
            let toc = segment::toc_of(bytes, start);
            let buf = segment::body_of(bytes, start);
            history::lemma_segment_parts(bytes, start, objs, before);
            let (known, listed) = segment::metadata(buf, toc, objs)->Ok_0;
            lemma_declared_named(bytes, start, objs);
            history::lemma_only_samples_continues(known, after);
            assert forall|i: int| 0 <= i < after.len() implies history::more_samples(
                known[i],
                #[trigger] after[i],
            ) by {
                assert(history::more_samples(known[i], after[i]));
            }
            assert forall|i: int|
                0 <= i < after.len() && (#[trigger] after[i]).depth == 2 implies has_group(
                after,
                file::group_of(after[i]),
            ) by {
                assert(known[i].depth == 2);
                lemma_has_group_continues(known, after, file::group_of(known[i]));
            }
        },
    }
}

/// Every object that is read has the place in the hierarchy that its path says,
/// and every channel its group.
pub proof fn law_objects_grouped(
    bytes: Seq<u8>,
    pos: int,
    objs: Seq<ObjectModel>,
    before: Seq<int>,
)
    requires
        history::sound(objs),
        order::order_ok(objs, before),
        named(objs),
        grouped(objs),
    ensures
        file::segments(bytes, pos, objs, before) matches Ok((after, _)) ==> named(after)
            && grouped(after),
    decreases
            (if pos < bytes.len() {
                bytes.len() - pos
            } else {
                0
            }),
{
    if pos < bytes.len() {
        history::law_segment_keeps(bytes, pos, objs, before);
        lemma_segment_named(bytes, pos, objs, before);
        match segment::segment_at(bytes, pos, objs, before) {
            Err(_) => {},
            Ok((next, list, end)) => {
                law_objects_grouped(bytes, end, next, list);
            },
        }
    }
}

/// Every group is listed.
pub proof fn lemma_group_listed(objs: Seq<ObjectModel>, k: int, j: int)
    requires
        0 <= j < k <= objs.len(),
        objs[j].depth == 1,
    ensures
        exists|i: int|
            0 <= i < file::empty_groups(objs, k).len() && (#[trigger] file::empty_groups(
                objs,
                k,
            )[i]).name == objs[j].name,
    decreases k,
{
    let all = file::empty_groups(objs, k);
    let before = file::empty_groups(objs, k - 1);
    if j == k - 1 {
        assert(all[all.len() - 1].name == objs[j].name);
    } else {
        lemma_group_listed(objs, k - 1, j);
        let i = choose|i: int| 0 <= i < before.len() && (#[trigger] before[i]).name == objs[j].name;
        assert(all[i] == before[i]);
    }
}

/// Where every channel has its group, all can be put into them.
pub proof fn lemma_filled(objs: Seq<ObjectModel>, k: int)
    requires
        0 <= k <= objs.len(),
        grouped(objs),
    ensures
        file::filled_groups(file::empty_groups(objs, objs.len() as int), objs, k) is Ok,
    decreases k,
{
    let n = objs.len() as int;
    let groups = file::empty_groups(objs, n);
    if k > 0 {
        lemma_filled(objs, k - 1);
        let o = objs[k - 1];
        if o.depth == 2 {
            let before = file::filled_groups(groups, objs, k - 1)->Ok_0;
            let g = file::group_of(o);
            assert(has_group(objs, g));
            let j = choose|j: int|
                0 <= j < objs.len() && (#[trigger] objs[j]).depth == 1 && objs[j].name == g;
            lemma_group_listed(objs, n, j);
            let i = choose|i: int| 0 <= i < groups.len() && (#[trigger] groups[i]).name == g;
            laws::lemma_groups_empty(objs, n);
            laws::law_groups_filled(groups, objs, k - 1);
            assert(before[i].name == g);
            laws::lemma_group_named(before, g);
        }
    }
}

/// A file whose segments can be read can be read: every channel has its group,
/// though only the channel was declared.
pub proof fn law_groups_known(bytes: Seq<u8>)
    requires
        file::segments(bytes, 0, Seq::empty(), Seq::empty()) is Ok,
    ensures
        file::file_of(bytes) is Ok,
{
    law_objects_grouped(bytes, 0, Seq::empty(), Seq::empty());
    let objs = file::segments(bytes, 0, Seq::empty(), Seq::empty())->Ok_0.0;
    lemma_filled(objs, objs.len() as int);
}

/// A name stands in a path between quotes, behind a slash, with two quotes for
/// each of its own, and otherwise as it is.
pub proof fn law_component(a: Seq<char>, b: Seq<char>)
    requires
        !a.contains('\''),
    ensures
        path::component(a) == seq!['/', '\''] + a + seq!['\''],
        path::escaped(a + seq!['\''] + b) == a + seq!['\'', '\''] + path::escaped(b),
    decreases a.len(),
{
    let q = seq!['\''];
    lemma_plain(a);
    lemma_escaped_front(q + b);
    assert((q + b).drop_first() =~= b);
    assert(path::escaped(q + b) =~= seq!['\'', '\''] + path::escaped(b));
    lemma_plain_front(a, q + b);
    assert(a + q + b =~= a + (q + b));
    assert(path::escaped(a + q + b) =~= a + seq!['\'', '\''] + path::escaped(b));
}

proof fn lemma_plain(a: Seq<char>)
    requires
        !a.contains('\''),
    ensures
        path::escaped(a) == a,
{
    let none = Seq::<char>::empty();
    lemma_plain_front(a, none);
    assert(a + none =~= a);
    assert(path::escaped(none) =~= none);
}

proof fn lemma_plain_front(a: Seq<char>, b: Seq<char>)
    requires
        !a.contains('\''),
    ensures
        path::escaped(a + b) == a + path::escaped(b),
    decreases a.len(),
{
    if a.len() > 0 {
        let rest = a.drop_first();
        assert(!rest.contains('\'')) by {
            if rest.contains('\'') {
                let k = rest.index_of('\'');
                assert(a[k + 1] == '\'');
            }
        }
        assert(a[0] != '\'') by {
            assert(a.contains(a[0]));
        }
        lemma_plain_front(rest, b);
        lemma_escaped_front(a + b);
        assert((a + b).drop_first() =~= rest + b);
        assert(path::escaped(a + b) =~= a + path::escaped(b));
    } else {
        assert(a + b =~= b);
        assert(a + path::escaped(b) =~= path::escaped(b));
    }
}

} // verus!
