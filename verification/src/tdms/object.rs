//! Object declarations of a segment, and what the reader keeps of each object
//! from segment to segment.

use super::cursor::Cursor;
use super::error::{TdmsError, TdmsFault};
use super::path;
use super::value::{PropertyMap, PropertyModel, PropertyValue, Scalar};
use super::{cursor, dtype};
use crate::text;
use vstd::prelude::*;

verus! {

/// The layout of an object's raw data in a chunk.
#[derive(Debug, Clone, Copy, PartialEq, Eq, Structural)]
pub struct RawDataIndex {
    /// Code of the data type.
    pub data_type: u32,
    /// Number of values per chunk.
    pub n_values: u64,
    /// Bytes per value.
    pub bytes_per_value: usize,
}

/// How many bytes a raw value of this type takes; `None` for codes that are
/// no raw data type.
pub open spec fn raw_width(code: u32) -> Option<int> {
    if code == dtype::I8 || code == dtype::U8 || code == dtype::BOOL {
        Some(1)
    } else if code == dtype::I16 || code == dtype::U16 {
        Some(2)
    } else if code == dtype::I32 || code == dtype::U32 || code == dtype::F32 {
        Some(4)
    } else if code == dtype::I64 || code == dtype::U64 || code == dtype::F64 {
        Some(8)
    } else if code == dtype::TIMESTAMP {
        Some(16)
    } else {
        None
    }
}

/// The bytes that one raw value of this type takes. `path` names the object
/// in an error.
pub fn bytes_for_type(code: u32, path: &str) -> (r: Result<usize, TdmsError>)
    ensures
        match raw_width(code) {
            Some(w) => r matches Ok(n) && n == w,
            None => r matches Err(x) && x@ == TdmsFault::UnsupportedDataType(code, path@),
        },
{
    if code == dtype::I8 || code == dtype::U8 || code == dtype::BOOL {
        Ok(1)
    } else if code == dtype::I16 || code == dtype::U16 {
        Ok(2)
    } else if code == dtype::I32 || code == dtype::U32 || code == dtype::F32 {
        Ok(4)
    } else if code == dtype::I64 || code == dtype::U64 || code == dtype::F64 {
        Ok(8)
    } else if code == dtype::TIMESTAMP {
        Ok(16)
    } else {
        Err(TdmsError::UnsupportedDataType(code, path.to_owned()))
    }
}

/// What a declaration says of the object's raw data in its segment.
#[derive(Debug, Clone, Copy, PartialEq, Eq, Structural)]
pub enum RawHeader {
    /// The object has none.
    NoData,
    /// As in the segment that declared it last.
    SameAsBefore,
    /// A layout of its own.
    Index(RawDataIndex),
}

/// Header of an object without raw data.
pub const HEADER_NO_DATA: u32 = 0xFFFF_FFFF;

/// Header of an object whose raw data is laid out as before.
pub const HEADER_SAME: u32 = 0;

/// Headers of DAQmx raw data.
pub const HEADER_DAQMX_FORMAT: u32 = 0x6913_0000;

pub const HEADER_DAQMX_LINE: u32 = 0x6914_0000;

/// The raw data header at `pos`, and the position behind it. DAQmx data is
/// refused in a segment that is marked to hold it, and skipped elsewhere.
pub open spec fn raw_header_at(buf: Seq<u8>, pos: int, daqmx: bool, path: Seq<char>) -> Result<
    (RawHeader, int),
    TdmsFault,
> {
    match cursor::nat_at(buf, pos, 4) {
        Err(e) => Err(e),
        Ok(h) => if h == HEADER_NO_DATA {
            Ok((RawHeader::NoData, pos + 4))
        } else if h == HEADER_SAME {
            Ok((RawHeader::SameAsBefore, pos + 4))
        } else if h == HEADER_DAQMX_FORMAT || h == HEADER_DAQMX_LINE {
            if daqmx {
                Err(TdmsFault::DaqmxNotSupported(path))
            } else {
                Ok((RawHeader::NoData, pos + 4))
            }
        } else {
            raw_index_at(buf, pos + 4, path)
        },
    }
}

/// The raw data index at `pos`: type code, dimension, number of values. The
/// index of text also holds its size in bytes; text is no raw data type.
pub open spec fn raw_index_at(buf: Seq<u8>, pos: int, path: Seq<char>) -> Result<
    (RawHeader, int),
    TdmsFault,
> {
    match cursor::nat_at(buf, pos, 4) {
        Err(e) => Err(e),
        Ok(code) => match cursor::nat_at(buf, pos + 4, 4) {
            Err(e) => Err(e),
            Ok(_) => match cursor::nat_at(buf, pos + 8, 8) {
                Err(e) => Err(e),
                Ok(n) => if code == dtype::STRING && cursor::nat_at(buf, pos + 16, 8) is Err {
                    Err(cursor::nat_at(buf, pos + 16, 8)->Err_0)
                } else {
                    match raw_width(code as u32) {
                        None => Err(TdmsFault::UnsupportedDataType(code as u32, path)),
                        Some(w) => Ok(
                            (
                                RawHeader::Index(
                                    RawDataIndex {
                                        data_type: code as u32,
                                        n_values: n as u64,
                                        bytes_per_value: w as usize,
                                    },
                                ),
                                pos + 16,
                            ),
                        ),
                    }
                },
            },
        },
    }
}

/// One property: its name, its type code and its value.
pub open spec fn named_property_at(buf: Seq<u8>, pos: int, path: Seq<char>) -> Result<
    ((Seq<char>, PropertyModel), int),
    TdmsFault,
> {
    match cursor::text_at(buf, pos) {
        Err(e) => Err(e),
        Ok((name, p1)) => match cursor::nat_at(buf, p1, 4) {
            Err(e) => Err(e),
            Ok(code) => match cursor::property_at(buf, p1 + 4, code as u32, path) {
                Err(e) => Err(e),
                Ok((v, p2)) => Ok(((name, v), p2)),
            },
        },
    }
}

/// The `n` properties from `pos` on, and the position behind them.
pub open spec fn properties_at(buf: Seq<u8>, pos: int, n: nat, path: Seq<char>) -> Result<
    (Seq<(Seq<char>, PropertyModel)>, int),
    TdmsFault,
>
    decreases n,
{
    if n == 0 {
        Ok((Seq::empty(), pos))
    } else {
        match properties_at(buf, pos, (n - 1) as nat, path) {
            Err(e) => Err(e),
            Ok((ps, p)) => match named_property_at(buf, p, path) {
                Err(e) => Err(e),
                Ok((entry, next)) => Ok((ps.push(entry), next)),
            },
        }
    }
}

/// An object declaration.
pub struct DeclModel {
    pub path: Seq<char>,
    pub raw: RawHeader,
    pub properties: Seq<(Seq<char>, PropertyModel)>,
    /// 0 file, 1 group, 2 channel.
    pub depth: u8,
    /// The group of a channel.
    pub parent: Option<Seq<char>>,
    pub name: Seq<char>,
}

/// The object declaration at `pos`, and the position behind it: path, raw
/// data header, properties.
pub open spec fn decl_at(buf: Seq<u8>, pos: int, daqmx: bool) -> Result<
    (DeclModel, int),
    TdmsFault,
> {
    match cursor::text_at(buf, pos) {
        Err(e) => Err(e),
        Ok((path, p1)) => match raw_header_at(buf, p1, daqmx, path) {
            Err(e) => Err(e),
            Ok((raw, p2)) => match cursor::nat_at(buf, p2, 4) {
                Err(e) => Err(e),
                Ok(n) => match properties_at(buf, p2 + 4, n, path) {
                    Err(e) => Err(e),
                    Ok((properties, p3)) => match path::path_parts(path) {
                        Err(e) => Err(e),
                        Ok((depth, parent, name)) => Ok(
                            (DeclModel { path, raw, properties, depth, parent, name }, p3),
                        ),
                    },
                },
            },
        },
    }
}

/// The `n` object declarations from `pos` on, and the position behind them.
pub open spec fn decls_at(buf: Seq<u8>, pos: int, n: nat, daqmx: bool) -> Result<
    (Seq<DeclModel>, int),
    TdmsFault,
>
    decreases n,
{
    if n == 0 {
        Ok((Seq::empty(), pos))
    } else {
        match decls_at(buf, pos, (n - 1) as nat, daqmx) {
            Err(e) => Err(e),
            Ok((ds, p)) => match decl_at(buf, p, daqmx) {
                Err(e) => Err(e),
                Ok((d, next)) => Ok((ds.push(d), next)),
            },
        }
    }
}

/// The object declarations from `pos` on, up to the first of `n` that cannot be
/// read.
pub open spec fn decls_read(buf: Seq<u8>, pos: int, n: nat, daqmx: bool) -> Seq<DeclModel>
    decreases n,
{
    if n == 0 {
        Seq::empty()
    } else {
        match decls_at(buf, pos, (n - 1) as nat, daqmx) {
            Err(_) => decls_read(buf, pos, (n - 1) as nat, daqmx),
            Ok((ds, p)) => match decl_at(buf, p, daqmx) {
                Err(_) => ds,
                Ok((d, _)) => ds.push(d),
            },
        }
    }
}

proof fn lemma_properties_fault(buf: Seq<u8>, pos: int, k: nat, n: nat, path: Seq<char>)
    requires
        k <= n,
        properties_at(buf, pos, k, path) is Err,
    ensures
        properties_at(buf, pos, n, path) == properties_at(buf, pos, k, path),
    decreases n,
{
    if k < n {
        lemma_properties_fault(buf, pos, k, (n - 1) as nat, path);
    }
}

proof fn lemma_decls_fault(buf: Seq<u8>, pos: int, k: nat, n: nat, daqmx: bool)
    requires
        k <= n,
        decls_at(buf, pos, k, daqmx) is Err,
    ensures
        decls_at(buf, pos, n, daqmx) == decls_at(buf, pos, k, daqmx),
        decls_read(buf, pos, n, daqmx) == decls_read(buf, pos, k, daqmx),
    decreases n,
{
    if k < n {
        lemma_decls_fault(buf, pos, k, (n - 1) as nat, daqmx);
    }
}

/// An object declaration, as read.
#[derive(Debug)]
pub struct ObjectDecl {
    pub path: String,
    pub raw: RawHeader,
    pub properties: Vec<(String, PropertyValue)>,
    pub depth: u8,
    pub parent: Option<String>,
    pub name: String,
}

/// The entries of a property list.
pub open spec fn entry_models(s: Seq<(String, PropertyValue)>) -> Seq<(Seq<char>, PropertyModel)> {
    s.map_values(|e: (String, PropertyValue)| (e.0@, e.1@))
}

impl View for ObjectDecl {
    type V = DeclModel;

    open spec fn view(&self) -> DeclModel {
        DeclModel {
            path: self.path@,
            raw: self.raw,
            properties: entry_models(self.properties@),
            depth: self.depth,
            parent: path::opt_view(self.parent),
            name: self.name@,
        }
    }
}

fn read_raw_header(c: &mut Cursor, daqmx: bool, path: &str) -> (r: Result<RawHeader, TdmsError>)
    requires
        old(c).wf(),
    ensures
        final(c).wf(),
        final(c).buf@ == old(c).buf@,
        match raw_header_at(old(c).buf@, old(c).pos as int, daqmx, path@) {
            Ok((h, next)) => (r matches Ok(v) && v == h) && final(c).moved(old(c), next),
            Err(e) => r matches Err(x) && x@ == e,
        },
{
    let header: u32 = c.read_u32()?;
    if header == HEADER_NO_DATA {
        Ok(RawHeader::NoData)
    } else if header == HEADER_SAME {
        Ok(RawHeader::SameAsBefore)
    } else if header == HEADER_DAQMX_FORMAT || header == HEADER_DAQMX_LINE {
        if daqmx {
            Err(TdmsError::DaqmxNotSupported(path.to_owned()))
        } else {
            Ok(RawHeader::NoData)
        }
    } else {
        let code: u32 = c.read_u32()?;
        let _dimension: u32 = c.read_u32()?;
        let n_values: u64 = c.read_u64()?;
        if code == dtype::STRING {
            let _size: u64 = c.read_u64()?;
        }
        let bytes_per_value: usize = bytes_for_type(code, path)?;
        Ok(RawHeader::Index(RawDataIndex { data_type: code, n_values, bytes_per_value }))
    }
}

fn read_properties(c: &mut Cursor, n: u32, path: &str) -> (r: Result<
    Vec<(String, PropertyValue)>,
    TdmsError,
>)
    requires
        old(c).wf(),
    ensures
        final(c).wf(),
        final(c).buf@ == old(c).buf@,
        match properties_at(old(c).buf@, old(c).pos as int, n as nat, path@) {
            Ok((ps, next)) => (r matches Ok(v) && entry_models(v@) == ps) && final(c).moved(
                old(c),
                next,
            ),
            Err(e) => r matches Err(x) && x@ == e,
        },
{
    let ghost buf = c.buf@;
    let ghost start = c.pos as int;
    let mut out: Vec<(String, PropertyValue)> = Vec::new();
    assert(entry_models(out@) =~= Seq::empty());
    for i in 0..n
        invariant
            c.wf(),
            c.buf@ == buf,
            start == old(c).pos,
            buf == old(c).buf@,
            properties_at(buf, start, i as nat, path@) == Ok::<_, TdmsFault>(
                (entry_models(out@), c.pos as int),
            ),
    {
        proof {
            if properties_at(buf, start, (i + 1) as nat, path@) is Err {
                lemma_properties_fault(buf, start, (i + 1) as nat, n as nat, path@);
            }
        }
        let name: String = c.read_string()?;
        let code: u32 = c.read_u32()?;
        let value: PropertyValue = c.read_property_value(code, path)?;
        let ghost before = entry_models(out@);
        let ghost entry = (name@, value@);
        out.push((name, value));
        assert(entry_models(out@) =~= before.push(entry));
    }
    Ok(out)
}

fn read_decl(c: &mut Cursor, daqmx: bool) -> (r: Result<ObjectDecl, TdmsError>)
    requires
        old(c).wf(),
    ensures
        final(c).wf(),
        final(c).buf@ == old(c).buf@,
        match decl_at(old(c).buf@, old(c).pos as int, daqmx) {
            Ok((d, next)) => (r matches Ok(v) && v@ == d) && final(c).moved(old(c), next),
            Err(e) => r matches Err(x) && x@ == e,
        },
{
    let path: String = c.read_string()?;
    let raw: RawHeader = read_raw_header(c, daqmx, path.as_str())?;
    let n: u32 = c.read_u32()?;
    let properties: Vec<(String, PropertyValue)> = read_properties(c, n, path.as_str())?;
    let (depth, parent, name): (u8, Option<String>, String) = path::parse_object_path(
        path.as_str(),
    )?;
    Ok(ObjectDecl { path, raw, properties, depth, parent, name })
}

/// What the reader knows of one object.
pub struct ObjectModel {
    pub path: Seq<char>,
    /// 0 file, 1 group, 2 channel.
    pub depth: u8,
    pub properties: Map<Seq<char>, PropertyModel>,
    /// The layout of its raw data as last declared.
    pub last_raw: Option<RawDataIndex>,
    /// The samples read so far.
    pub samples: Seq<Scalar>,
    /// The group of a channel.
    pub parent: Option<Seq<char>>,
    pub name: Seq<char>,
}

/// What the reader keeps of one object from segment to segment.
#[derive(Debug)]
pub struct ObjectState {
    pub path: String,
    pub depth: u8,
    pub properties: PropertyMap,
    pub last_raw: Option<RawDataIndex>,
    pub samples: Vec<Scalar>,
    pub parent: Option<String>,
    pub name: String,
}

impl View for ObjectState {
    type V = ObjectModel;

    open spec fn view(&self) -> ObjectModel {
        ObjectModel {
            path: self.path@,
            depth: self.depth,
            properties: self.properties@,
            last_raw: self.last_raw,
            samples: self.samples@,
            parent: path::opt_view(self.parent),
            name: self.name@,
        }
    }
}

/// The objects, in the order in which they were first seen.
pub open spec fn models(s: Seq<ObjectState>) -> Seq<ObjectModel> {
    s.map_values(|o: ObjectState| o@)
}

/// Every object's properties are well-formed.
pub open spec fn all_wf(s: Seq<ObjectState>) -> bool {
    forall|i: int| 0 <= i < s.len() ==> (#[trigger] s[i]).properties.wf()
}

/// Where the object with this path stands.
pub open spec fn find(objs: Seq<ObjectModel>, path: Seq<char>) -> Option<int>
    decreases objs.len(),
{
    if objs.len() == 0 {
        None
    } else {
        match find(objs.drop_last(), path) {
            Some(i) => Some(i),
            None => if objs.last().path == path {
                Some(objs.len() - 1)
            } else {
                None
            },
        }
    }
}

/// The objects with `fresh` added behind them unless its path is known, and
/// where the object with that path stands.
pub open spec fn ensured(objs: Seq<ObjectModel>, fresh: ObjectModel) -> (Seq<ObjectModel>, int) {
    match find(objs, fresh.path) {
        Some(i) => (objs, i),
        None => (objs.push(fresh), objs.len() as int),
    }
}

/// A group that is known only from the path of a channel.
pub open spec fn implied_group(name: Seq<char>) -> ObjectModel {
    ObjectModel {
        path: path::component(name),
        depth: 1,
        properties: Map::empty(),
        last_raw: None,
        samples: Seq::empty(),
        parent: None,
        name,
    }
}

/// A newly declared object.
pub open spec fn fresh_object(d: DeclModel) -> ObjectModel {
    ObjectModel {
        path: d.path,
        depth: d.depth,
        properties: Map::empty(),
        last_raw: None,
        samples: Seq::empty(),
        parent: d.parent,
        name: d.name,
    }
}

/// The properties with those of a declaration set one after the other.
pub open spec fn merged(
    m: Map<Seq<char>, PropertyModel>,
    ps: Seq<(Seq<char>, PropertyModel)>,
) -> Map<Seq<char>, PropertyModel>
    decreases ps.len(),
{
    if ps.len() == 0 {
        m
    } else {
        merged(m, ps.drop_last()).insert(ps.last().0, ps.last().1)
    }
}

/// The raw data layout that a declaration gives its object in this segment.
pub open spec fn declared_raw(objs: Seq<ObjectModel>, d: DeclModel) -> Option<RawDataIndex> {
    match d.raw {
        RawHeader::NoData => None,
        RawHeader::Index(r) => Some(r),
        RawHeader::SameAsBefore => match find(objs, d.path) {
            Some(i) => objs[i].last_raw,
            None => None,
        },
    }
}

/// The objects once the group of a declared channel is known.
pub open spec fn with_group(objs: Seq<ObjectModel>, d: DeclModel) -> Seq<ObjectModel> {
    match d.parent {
        Some(g) => if d.depth == 2 {
            ensured(objs, implied_group(g)).0
        } else {
            objs
        },
        None => objs,
    }
}

/// What a declaration makes of the objects. With it comes the object's place
/// if it takes part in the raw data of the segment.
pub open spec fn declared(objs: Seq<ObjectModel>, d: DeclModel) -> (
    Seq<ObjectModel>,
    Option<int>,
) {
    let raw = declared_raw(objs, d);
    let (all, i) = ensured(with_group(objs, d), fresh_object(d));
    let o = all[i];
    let updated = ObjectModel {
        properties: merged(o.properties, d.properties),
        last_raw: if raw is Some {
            raw
        } else {
            o.last_raw
        },
        ..o
    };
    (
        all.update(i, updated),
        if raw is Some {
            Some(i)
        } else {
            None
        },
    )
}

/// What a list of declarations makes of the objects, and which objects take
/// part in the raw data of the segment, in the order of their declarations.
pub open spec fn declared_all(objs: Seq<ObjectModel>, ds: Seq<DeclModel>) -> (
    Seq<ObjectModel>,
    Seq<int>,
)
    decreases ds.len(),
{
    if ds.len() == 0 {
        (objs, Seq::empty())
    } else {
        let (before, order) = declared_all(objs, ds.drop_last());
        let (after, at) = declared(before, ds.last());
        (
            after,
            match at {
                Some(i) => order.push(i),
                None => order,
            },
        )
    }
}

/// The paths of the objects that the declarations, each object's last one
/// counting, say to have no raw data.
pub open spec fn silent_paths(ds: Seq<DeclModel>) -> Set<Seq<char>>
    decreases ds.len(),
{
    if ds.len() == 0 {
        Set::empty()
    } else {
        let before = silent_paths(ds.drop_last());
        let d = ds.last();
        if d.raw == RawHeader::NoData {
            before.insert(d.path)
        } else {
            before.remove(d.path)
        }
    }
}

/// Places as mathematical integers.
pub open spec fn places(s: Seq<usize>) -> Seq<int> {
    s.map_values(|i: usize| i as int)
}

/// A found place is one of the objects', and its object has the path.
pub proof fn lemma_find(objs: Seq<ObjectModel>, path: Seq<char>)
    ensures
        match find(objs, path) {
            Some(i) => 0 <= i < objs.len() && objs[i].path == path && (forall|j: int|
                0 <= j < i ==> (#[trigger] objs[j]).path != path),
            None => forall|j: int| 0 <= j < objs.len() ==> (#[trigger] objs[j]).path != path,
        },
    decreases objs.len(),
{
    if objs.len() > 0 {
        let rest = objs.drop_last();
        lemma_find(rest, path);
        assert forall|j: int| 0 <= j < rest.len() implies #[trigger] objs[j] == rest[j] by {}
        match find(rest, path) {
            Some(i) => {
                assert(objs[i] == rest[i]);
            },
            None => {},
        }
    }
}

/// Finds the object with this path.
pub fn find_object(objects: &Vec<ObjectState>, path: &str) -> (r: Option<usize>)
    ensures
        match find(models(objects@), path@) {
            Some(i) => r matches Some(k) && k == i && k < objects@.len(),
            None => r is None,
        },
{
    let ghost all = models(objects@);
    assert(all.take(0) =~= Seq::empty());
    for i in 0..objects.len()
        invariant
            all == models(objects@),
            find(all.take(i as int), path@) is None,
    {
        assert(all.take(i + 1).drop_last() =~= all.take(i as int));
        if text::same_text(objects[i].path.as_str(), path) {
            proof {
                assert(find(all.take(i + 1), path@) == Some(i as int));
                lemma_find_extends(all, i + 1, path@);
            }
            return Some(i);
        }
    }
    assert(all.take(all.len() as int) =~= all);
    None
}

proof fn lemma_find_extends(objs: Seq<ObjectModel>, k: int, path: Seq<char>)
    requires
        0 <= k <= objs.len(),
        find(objs.take(k), path) is Some,
    ensures
        find(objs, path) == find(objs.take(k), path),
    decreases objs.len(),
{
    if k < objs.len() {
        assert(objs.drop_last().take(k) =~= objs.take(k));
        lemma_find_extends(objs.drop_last(), k, path);
    } else {
        assert(objs.take(k) =~= objs);
    }
}

fn ensure_object(objects: &mut Vec<ObjectState>, fresh: ObjectState) -> (r: usize)
    requires
        all_wf(old(objects)@),
        fresh.properties.wf(),
    ensures
        (models(final(objects)@), r as int) == ensured(models(old(objects)@), fresh@),
        r < final(objects)@.len(),
        all_wf(final(objects)@),
{
    match find_object(objects, fresh.path.as_str()) {
        Some(i) => i,
        None => {
            let n: usize = objects.len();
            let ghost before = models(objects@);
            let ghost added = fresh@;
            objects.push(fresh);
            assert(models(objects@) =~= before.push(added));
            n
        },
    }
}

fn merge_properties(map: &mut PropertyMap, props: Vec<(String, PropertyValue)>)
    requires
        old(map).wf(),
    ensures
        final(map)@ == merged(old(map)@, entry_models(props@)),
        final(map).wf(),
{
    let ghost all = entry_models(props@);
    let ghost start = map@;
    assert(all.take(0) =~= Seq::empty());
    for e in it: props.into_iter()
        invariant
            map.wf(),
            it.seq() == props@,
            all == entry_models(props@),
            map@ == merged(start, all.take(it.index())),
    {
        proof {
            let k = it.index();
            assert(all.take(k + 1).drop_last() =~= all.take(k));
            assert(all.take(k + 1).last() == (props@[k].0@, props@[k].1@));
        }
        map.insert(e.0, e.1);
    }
    assert(all.take(all.len() as int) =~= all);
}

/// Takes a declaration over into the objects. Gives the object's place if it
/// takes part in the raw data of the segment.
fn declare(objects: &mut Vec<ObjectState>, d: ObjectDecl) -> (r: Option<usize>)
    requires
        all_wf(old(objects)@),
    ensures
        models(final(objects)@) == declared(models(old(objects)@), d@).0,
        match declared(models(old(objects)@), d@).1 {
            Some(i) => r matches Some(k) && k == i && k < final(objects)@.len(),
            None => r is None,
        },
        all_wf(final(objects)@),
{
    let ghost start = models(objects@);
    let ghost dm = d@;
    let raw: Option<RawDataIndex> = match d.raw {
        RawHeader::NoData => None,
        RawHeader::Index(x) => Some(x),
        RawHeader::SameAsBefore => match find_object(objects, d.path.as_str()) {
            Some(i) => objects[i].last_raw,
            None => None,
        },
    };
    assert(raw == declared_raw(start, dm));
    if d.depth == 2 {
        match &d.parent {
            Some(group) => {
                let implied = ObjectState {
                    path: path::group_path(group.as_str()),
                    depth: 1,
                    properties: PropertyMap::new(),
                    last_raw: None,
                    samples: Vec::new(),
                    parent: None,
                    name: group.clone(),
                };
                assert(implied@.samples =~= Seq::empty());
                assert(implied@ == implied_group(group@));
                let _at: usize = ensure_object(objects, implied);
            },
            None => {},
        }
    }
    assert(models(objects@) == with_group(start, dm));
    let fresh = ObjectState {
        path: d.path,
        depth: d.depth,
        properties: PropertyMap::new(),
        last_raw: None,
        samples: Vec::new(),
        parent: d.parent,
        name: d.name,
    };
    assert(fresh@.samples =~= Seq::empty());
    assert(fresh@ == fresh_object(dm));
    let at: usize = ensure_object(objects, fresh);
    let ghost all = models(objects@);
    assert(all[at as int] == objects@[at as int]@);
    merge_properties(&mut objects[at].properties, d.properties);
    if raw.is_some() {
        objects[at].last_raw = raw;
    }
    proof {
        let want = declared(start, dm).0;
        assert(models(objects@) =~= want);
    }
    if raw.is_some() {
        Some(at)
    } else {
        None
    }
}

/// What declarations say of the raw data of their segment.
#[derive(Debug)]
pub struct Declared {
    /// The places of the objects that take part in it, in the order of their
    /// declarations.
    pub listed: Vec<usize>,
    /// The paths of the objects that have none in it.
    pub silent: Vec<String>,
}

/// Whether a list of strings has this one.
pub fn has_text(list: &Vec<String>, s: &str) -> (r: bool)
    ensures
        r == path::views(list@).contains(s@),
        r == path::views(list@).to_set().contains(s@),
{
    let ghost all = path::views(list@);
    for i in 0..list.len()
        invariant
            all == path::views(list@),
            forall|k: int| 0 <= k < i ==> #[trigger] all[k] != s@,
    {
        assert(all[i as int] == list@[i as int]@);
        if text::same_text(list[i].as_str(), s) {
            assert(all.contains(s@));
            return true;
        }
    }
    assert(!all.contains(s@));
    false
}

/// The strings of a list but for one.
fn without(list: Vec<String>, s: &str) -> (r: Vec<String>)
    ensures
        path::views(r@).to_set() == path::views(list@).to_set().remove(s@),
{
    let ghost all = path::views(list@);
    let mut out: Vec<String> = Vec::new();
    for t in it: list.into_iter()
        invariant
            it.seq() == list@,
            all == path::views(list@),
            forall|x: Seq<char>|
                path::views(out@).contains(x) == (all.take(it.index()).contains(x) && x != s@),
    {
        let ghost k = it.index();
        let ghost before = path::views(out@);
        let ghost now = t@;
        assert(all[k] == now);
        let other: bool = !text::same_text(t.as_str(), s);
        if other {
            out.push(t);
        }
        proof {
            let after = path::views(out@);
            assert(all.take(k + 1) =~= all.take(k).push(now));
            if other {
                assert(after =~= before.push(now));
            }
            assert forall|x: Seq<char>| after.contains(x) == (all.take(k + 1).contains(x) && x
                != s@) by {
                assert(before.contains(x) == (all.take(k).contains(x) && x != s@));
                lemma_push_contains(all.take(k), now, x);
                lemma_push_contains(before, now, x);
            }
        }
    }
    assert(all.take(all.len() as int) =~= all);
    assert(path::views(out@).to_set() =~= all.to_set().remove(s@));
    out
}

/// A longer list has one thing more.
pub proof fn lemma_push_contains<A>(s: Seq<A>, y: A, x: A)
    ensures
        s.push(y).contains(x) == (s.contains(x) || x == y),
{
    let t = s.push(y);
    if s.contains(x) {
        let k = s.index_of(x);
        assert(t[k] == x);
    }
    if x == y {
        assert(t[s.len() as int] == x);
    }
    if t.contains(x) {
        let k = t.index_of(x);
        if k < s.len() {
            assert(s[k] == x);
        }
    }
}

/// Takes note of whether a declaration says that its object has no raw data.
fn note_silent(silent: Vec<String>, path: &str, raw: RawHeader) -> (r: Vec<String>)
    ensures
        path::views(r@).to_set() == if raw == RawHeader::NoData {
            path::views(silent@).to_set().insert(path@)
        } else {
            path::views(silent@).to_set().remove(path@)
        },
{
    match raw {
        RawHeader::NoData => {
            let mut out: Vec<String> = silent;
            let ghost before = path::views(out@);
            out.push(path.to_owned());
            proof {
                let after = path::views(out@);
                assert(after =~= before.push(path@));
                assert forall|x: Seq<char>| after.contains(x) == (before.contains(x) || x
                    == path@) by {
                    lemma_push_contains(before, path@, x);
                }
                assert(after.to_set() =~= before.to_set().insert(path@));
            }
            out
        },
        _ => without(silent, path),
    }
}

/// Reads `n` object declarations and takes them over into the objects, up to
/// the first that cannot be read.
#[verifier::spinoff_prover]
#[verifier::rlimit(60)]
pub fn read_objects(
    c: &mut Cursor,
    n: u32,
    daqmx: bool,
    objects: &mut Vec<ObjectState>,
) -> (r: Result<Declared, TdmsError>)
    requires
        old(c).wf(),
        all_wf(old(objects)@),
    ensures
        final(c).wf(),
        final(c).buf@ == old(c).buf@,
        all_wf(final(objects)@),
        models(final(objects)@) == declared_all(
            models(old(objects)@),
            decls_read(old(c).buf@, old(c).pos as int, n as nat, daqmx),
        ).0,
        match decls_at(old(c).buf@, old(c).pos as int, n as nat, daqmx) {
            Ok((ds, next)) => (r matches Ok(d) && places(d.listed@) == declared_all(
                models(old(objects)@),
                ds,
            ).1 && path::views(d.silent@).to_set() == silent_paths(ds)) && final(c).pos == next,
            Err(e) => r matches Err(x) && x@ == e,
        },
{
    let ghost buf = c.buf@;
    let ghost start = c.pos as int;
    let ghost objs = models(objects@);
    let ghost mut ds: Seq<DeclModel> = Seq::empty();
    let mut listed: Vec<usize> = Vec::new();
    let mut silent: Vec<String> = Vec::new();
    assert(places(listed@) =~= Seq::empty());
    assert(path::views(silent@).to_set() =~= Set::empty());
    for i in 0..n
        invariant
            c.wf(),
            c.buf@ == buf,
            start == old(c).pos,
            buf == old(c).buf@,
            objs == models(old(objects)@),
            all_wf(objects@),
            decls_at(buf, start, i as nat, daqmx) == Ok::<_, TdmsFault>((ds, c.pos as int)),
            decls_read(buf, start, i as nat, daqmx) == ds,
            (models(objects@), places(listed@)) == declared_all(objs, ds),
            path::views(silent@).to_set() == silent_paths(ds),
    {
        proof {
            if decls_at(buf, start, (i + 1) as nat, daqmx) is Err {
                lemma_decls_fault(buf, start, (i + 1) as nat, n as nat, daqmx);
            }
        }
        let d: ObjectDecl = read_decl(c, daqmx)?;
        silent = note_silent(silent, d.path.as_str(), d.raw);
        proof {
            let longer = ds.push(d@);
            assert(longer.drop_last() =~= ds);
            ds = longer;
        }
        let ghost before = places(listed@);
        match declare(objects, d) {
            Some(at) => {
                listed.push(at);
                assert(places(listed@) =~= before.push(at as int));
            },
            None => {},
        }
    }
    Ok(Declared { listed, silent })
}

} // verus!
