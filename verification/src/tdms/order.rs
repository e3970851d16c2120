//! The channels of a segment's raw data.

use super::chunk;
use super::chunk::{Slot, SlotModel};
use super::object;
use super::object::{ObjectModel, ObjectState};
use super::path;
use vstd::prelude::*;

verus! {

/// The channels of a list whose paths are not silent, in its order.
pub open spec fn channels_of(
    objs: Seq<ObjectModel>,
    list: Seq<int>,
    silent: Set<Seq<char>>,
) -> Seq<int>
    decreases list.len(),
{
    if list.len() == 0 {
        Seq::empty()
    } else {
        let before = channels_of(objs, list.drop_last(), silent);
        let o = objs[list.last()];
        if o.depth == 2 && !silent.contains(o.path) {
            before.push(list.last())
        } else {
            before
        }
    }
}

/// A list, and behind it what of another one is not in it.
pub open spec fn behind(list: Seq<int>, more: Seq<int>) -> Seq<int>
    decreases more.len(),
{
    if more.len() == 0 {
        list
    } else if list.contains(more.last()) {
        behind(list, more.drop_last())
    } else {
        behind(list, more.drop_last()).push(more.last())
    }
}

/// The places of the objects in a segment's raw data: those that it lists,
/// where it says that the list is new; otherwise the channels of the list
/// before it, without those that it declares to have no raw data, and behind
/// them those that it lists besides. `silent` are the paths of the objects that
/// it declares so.
pub open spec fn active(
    is_new: bool,
    objs: Seq<ObjectModel>,
    before: Seq<int>,
    listed: Seq<int>,
    silent: Set<Seq<char>>,
) -> Seq<int> {
    if is_new {
        listed
    } else {
        behind(channels_of(objs, before, silent), listed)
    }
}

/// Whether no two objects have the same path.
pub open spec fn paths_distinct(objs: Seq<ObjectModel>) -> bool {
    forall|i: int, j: int|
        0 <= i < j < objs.len() ==> (#[trigger] objs[i]).path != (#[trigger] objs[j]).path
}

/// Whether every layout has the width of its type.
pub open spec fn layouts_ok(objs: Seq<ObjectModel>) -> bool {
    forall|i: int|
        0 <= i < objs.len() ==> match (#[trigger] objs[i]).last_raw {
            Some(r) => object::raw_width(r.data_type) == Some(r.bytes_per_value as int),
            None => true,
        }
}

/// Whether these are places of objects with a layout.
pub open spec fn order_ok(objs: Seq<ObjectModel>, list: Seq<int>) -> bool {
    forall|k: int|
        0 <= k < list.len() ==> 0 <= #[trigger] list[k] < objs.len()
            && objs[list[k]].last_raw is Some
}

/// The slots of the channels at these places.
pub open spec fn slots_of(objs: Seq<ObjectModel>, list: Seq<int>) -> Seq<SlotModel> {
    Seq::new(
        list.len(),
        |k: int| SlotModel {
            at: list[k],
            path: objs[list[k]].path,
            raw: objs[list[k]].last_raw->0,
        },
    )
}

proof fn lemma_drop_contains(s: Seq<int>, x: int)
    requires
        s.len() > 0,
    ensures
        s.contains(x) == (s.drop_last().contains(x) || x == s.last()),
{
    object::lemma_push_contains(s.drop_last(), s.last(), x);
    assert(s.drop_last().push(s.last()) =~= s);
}

proof fn lemma_channels_of(
    objs: Seq<ObjectModel>,
    list: Seq<int>,
    silent: Set<Seq<char>>,
    x: int,
)
    ensures
        channels_of(objs, list, silent).contains(x) == (list.contains(x) && objs[x].depth == 2
            && !silent.contains(objs[x].path)),
    decreases list.len(),
{
    if list.len() > 0 {
        lemma_channels_of(objs, list.drop_last(), silent, x);
        lemma_drop_contains(list, x);
        object::lemma_push_contains(channels_of(objs, list.drop_last(), silent), list.last(), x);
    }
}

proof fn lemma_channels_distinct(
    objs: Seq<ObjectModel>,
    list: Seq<int>,
    silent: Set<Seq<char>>,
)
    requires
        list.no_duplicates(),
    ensures
        channels_of(objs, list, silent).no_duplicates(),
    decreases list.len(),
{
    if list.len() > 0 {
        let rest = list.drop_last();
        assert(rest.no_duplicates());
        lemma_channels_distinct(objs, rest, silent);
        lemma_channels_of(objs, rest, silent, list.last());
        lemma_last_is_new(list);
        let before = channels_of(objs, rest, silent);
        let all = channels_of(objs, list, silent);
        assert forall|i: int, j: int| 0 <= i < j < all.len() implies all[i] != all[j] by {
            if j == before.len() {
                assert(before.contains(before[i]));
            }
        }
    }
}

proof fn lemma_last_is_new(list: Seq<int>)
    requires
        list.len() > 0,
        list.no_duplicates(),
    ensures
        !list.drop_last().contains(list.last()),
{
    let rest = list.drop_last();
    if rest.contains(list.last()) {
        let k = rest.index_of(list.last());
        assert(list[k] == list[list.len() - 1]);
    }
}

proof fn lemma_behind(list: Seq<int>, more: Seq<int>, x: int)
    ensures
        behind(list, more).contains(x) == (list.contains(x) || more.contains(x)),
    decreases more.len(),
{
    if more.len() > 0 {
        lemma_behind(list, more.drop_last(), x);
        lemma_drop_contains(more, x);
        object::lemma_push_contains(behind(list, more.drop_last()), more.last(), x);
    }
}

proof fn lemma_behind_prefix(list: Seq<int>, more: Seq<int>)
    ensures
        behind(list, more).len() >= list.len(),
        behind(list, more).take(list.len() as int) == list,
        list.no_duplicates() && more.no_duplicates() ==> behind(list, more).no_duplicates(),
    decreases more.len(),
{
    if more.len() > 0 {
        let rest = more.drop_last();
        lemma_behind_prefix(list, rest);
        let before = behind(list, rest);
        let all = behind(list, more);
        assert(all.take(list.len() as int) =~= before.take(list.len() as int));
        if list.no_duplicates() && more.no_duplicates() {
            assert(rest.no_duplicates());
            lemma_last_is_new(more);
            lemma_behind(list, rest, more.last());
            assert forall|i: int, j: int| 0 <= i < j < all.len() implies all[i] != all[j] by {
                if j == before.len() {
                    assert(before.contains(before[i]));
                }
            }
        }
    } else {
        assert(list.take(list.len() as int) =~= list);
    }
}

/// A segment whose list is not new goes on with the channels of the list
/// before it that it does not declare to have no raw data, in their order, and
/// has behind them what it lists besides. Nothing else comes in: what it
/// declares to have no raw data is there only where it is listed too. Nothing
/// comes twice where nothing was twice.
pub proof fn law_list_goes_on(
    objs: Seq<ObjectModel>,
    before: Seq<int>,
    listed: Seq<int>,
    silent: Set<Seq<char>>,
    x: int,
)
    ensures
        channels_of(objs, before, silent).is_prefix_of(
            active(false, objs, before, listed, silent),
        ),
        active(false, objs, before, listed, silent).contains(x) == ((before.contains(x)
            && objs[x].depth == 2 && !silent.contains(objs[x].path)) || listed.contains(x)),
        silent.contains(objs[x].path) ==> active(false, objs, before, listed, silent).contains(x)
            == listed.contains(x),
        before.no_duplicates() && listed.no_duplicates() ==> active(
            false,
            objs,
            before,
            listed,
            silent,
        ).no_duplicates(),
{
    let kept = channels_of(objs, before, silent);
    lemma_channels_of(objs, before, silent, x);
    lemma_behind(kept, listed, x);
    lemma_behind_prefix(kept, listed);
    assert(behind(kept, listed).subrange(0, kept.len() as int) =~= kept);
    if before.no_duplicates() {
        lemma_channels_distinct(objs, before, silent);
    }
}

/// Where nothing is inherited, the list is what the segment lists, as often as
/// it lists it.
pub proof fn law_list_starts(
    is_new: bool,
    objs: Seq<ObjectModel>,
    listed: Seq<int>,
    silent: Set<Seq<char>>,
)
    ensures
        active(is_new, objs, Seq::empty(), listed, silent) == listed,
    decreases listed.len(),
{
    if listed.len() > 0 {
        law_list_starts(is_new, objs, listed.drop_last(), silent);
        assert(listed.drop_last().push(listed.last()) =~= listed);
    } else {
        assert(listed =~= Seq::empty());
    }
}

/// A segment that declares nothing has the channels of the list before it.
pub proof fn law_list_inherited(objs: Seq<ObjectModel>, before: Seq<int>)
    requires
        forall|k: int| 0 <= k < before.len() ==> objs[#[trigger] before[k]].depth == 2,
    ensures
        active(false, objs, before, Seq::empty(), Set::empty()) == before,
    decreases before.len(),
{
    if before.len() > 0 {
        let rest = before.drop_last();
        assert forall|k: int| 0 <= k < rest.len() implies objs[#[trigger] rest[k]].depth == 2 by {
            assert(rest[k] == before[k]);
        }
        law_list_inherited(objs, rest);
        assert(objs[before[before.len() - 1]].depth == 2);
        assert(rest.push(before.last()) =~= before);
    }
}

/// The active objects can be read where those of both lists can.
pub proof fn lemma_active_ok(
    is_new: bool,
    objs: Seq<ObjectModel>,
    before: Seq<int>,
    listed: Seq<int>,
    silent: Set<Seq<char>>,
)
    requires
        order_ok(objs, before),
        order_ok(objs, listed),
    ensures
        order_ok(objs, active(is_new, objs, before, listed, silent)),
{
    let all = active(is_new, objs, before, listed, silent);
    assert forall|k: int| 0 <= k < all.len() implies 0 <= #[trigger] all[k] < objs.len()
        && objs[all[k]].last_raw is Some by {
        let x = all[k];
        assert(all.contains(x));
        if !is_new {
            lemma_channels_of(objs, before, silent, x);
            lemma_behind(channels_of(objs, before, silent), listed, x);
            if listed.contains(x) {
                let j = listed.index_of(x);
                assert(listed[j] == x);
            } else {
                let j = before.index_of(x);
                assert(before[j] == x);
            }
        }
    }
}

/// The slots of objects with sound layouts are well-formed.
pub proof fn lemma_slots_wf(objs: Seq<ObjectModel>, list: Seq<int>)
    requires
        layouts_ok(objs),
        order_ok(objs, list),
    ensures
        chunk::slots_wf(slots_of(objs, list), objs.len() as int),
{
    let slots = slots_of(objs, list);
    assert forall|k: int| 0 <= k < slots.len() implies 0 <= (#[trigger] slots[k]).at < objs.len()
        && object::raw_width(slots[k].raw.data_type) == Some(
        slots[k].raw.bytes_per_value as int,
    ) by {
        assert(objs[list[k]].last_raw is Some);
    }
}

fn contains(list: &Vec<usize>, n: usize, x: usize) -> (r: bool)
    requires
        n <= list@.len(),
    ensures
        r == object::places(list@).take(n as int).contains(x as int),
{
    let ghost all = object::places(list@).take(n as int);
    for i in 0..n
        invariant
            n <= list@.len(),
            all == object::places(list@).take(n as int),
            forall|k: int| 0 <= k < i ==> #[trigger] all[k] != x,
    {
        assert(all[i as int] == list@[i as int]);
        if list[i] == x {
            return true;
        }
    }
    false
}

/// The places of the objects in a segment's raw data.
pub fn active_list(
    is_new: bool,
    objects: &Vec<ObjectState>,
    before: &Vec<usize>,
    listed: Vec<usize>,
    silent: &Vec<String>,
) -> (r: Vec<usize>)
    requires
        order_ok(object::models(objects@), object::places(before@)),
    ensures
        object::places(r@) == active(
            is_new,
            object::models(objects@),
            object::places(before@),
            object::places(listed@),
            path::views(silent@).to_set(),
        ),
{
    if is_new {
        return listed;
    }
    let ghost objs = object::models(objects@);
    let ghost was = object::places(before@);
    let ghost more = object::places(listed@);
    let ghost quiet = path::views(silent@).to_set();
    let mut list: Vec<usize> = Vec::new();
    assert(object::places(list@) =~= channels_of(objs, was.take(0), quiet));
    for i in 0..before.len()
        invariant
            objs == object::models(objects@),
            was == object::places(before@),
            quiet == path::views(silent@).to_set(),
            order_ok(objs, was),
            object::places(list@) == channels_of(objs, was.take(i as int), quiet),
    {
        let at: usize = before[i];
        assert(was[i as int] == at);
        assert(was.take(i + 1).drop_last() =~= was.take(i as int));
        assert(objs[at as int] == objects@[at as int]@);
        if objects[at].depth == 2 && !object::has_text(silent, objects[at].path.as_str()) {
            let ghost known = object::places(list@);
            list.push(at);
            assert(object::places(list@) =~= known.push(at as int));
        }
    }
    assert(was.take(was.len() as int) =~= was);
    let ghost kept = object::places(list@);
    let n: usize = list.len();
    assert(kept.take(n as int) =~= kept);
    assert(behind(kept, more.take(0)) =~= kept);
    for i in 0..listed.len()
        invariant
            more == object::places(listed@),
            n == kept.len(),
            n <= list@.len(),
            object::places(list@).take(n as int) == kept,
            object::places(list@) == behind(kept, more.take(i as int)),
    {
        let at: usize = listed[i];
        assert(more[i as int] == at);
        assert(more.take(i + 1).drop_last() =~= more.take(i as int));
        if !contains(&list, n, at) {
            let ghost known = object::places(list@);
            list.push(at);
            assert(object::places(list@) =~= known.push(at as int));
            assert(object::places(list@).take(n as int) =~= known.take(n as int));
        }
    }
    assert(more.take(more.len() as int) =~= more);
    list
}

/// The slots of the channels at these places.
pub fn make_slots(objects: &Vec<ObjectState>, list: &Vec<usize>) -> (r: Vec<Slot>)
    requires
        order_ok(object::models(objects@), object::places(list@)),
    ensures
        chunk::slot_models(r@) == slots_of(object::models(objects@), object::places(list@)),
{
    let ghost objs = object::models(objects@);
    let ghost all = object::places(list@);
    let mut out: Vec<Slot> = Vec::new();
    for k in 0..list.len()
        invariant
            objs == object::models(objects@),
            all == object::places(list@),
            order_ok(objs, all),
            out@.len() == k,
            forall|j: int| 0 <= j < k ==> (#[trigger] out@[j])@ == slots_of(objs, all)[j],
    {
        let at: usize = list[k];
        assert(all[k as int] == at);
        assert(objs[at as int] == objects@[at as int]@);
        match objects[at].last_raw {
            Some(raw) => {
                out.push(Slot { at, path: objects[at].path.clone(), raw });
            },
            None => {},
        }
    }
    assert(chunk::slot_models(out@) =~= slots_of(objs, all));
    out
}

} // verus!
