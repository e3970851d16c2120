//! What the channels of a file say of their samples, and the three channels of
//! a field log.

use super::error::{TdmsError, TdmsFault};
use super::file;
use super::file::{ChannelModel, FileModel, GroupModel, TdmsChannel, TdmsFile, TdmsGroup};
use super::value::{PropertyMap, PropertyModel, PropertyValue, Scalar, TdmsTimestamp};
use crate::scan;
use crate::slices;
use crate::text;
use vstd::prelude::*;

verus! {

/// When the samples of a channel start.
#[derive(Debug, Clone, Copy, PartialEq, Eq, Structural)]
pub enum StartTime {
    /// Microseconds since 1970-01-01.
    Micros(i64),
    /// Seconds since 1970-01-01.
    Seconds(Scalar),
}

/// The value of a property.
pub open spec fn lookup(p: Map<Seq<char>, PropertyModel>, name: Seq<char>) -> Option<
    PropertyModel,
> {
    if p.contains_key(name) {
        Some(p[name])
    } else {
        None
    }
}

/// The number that a property is.
pub open spec fn number_in(v: Option<PropertyModel>) -> Option<Scalar> {
    match v {
        Some(m) => m.number(),
        None => None,
    }
}

/// The sample period: `wf_increment`, or `dt` where there is no such property.
pub open spec fn period_of(p: Map<Seq<char>, PropertyModel>) -> Option<Scalar> {
    match lookup(p, "wf_increment"@) {
        Some(v) => v.number(),
        None => number_in(lookup(p, "dt"@)),
    }
}

/// The start: the timestamp `wf_start_time`, or the number `t0` where there is
/// no such timestamp.
pub open spec fn start_of(p: Map<Seq<char>, PropertyModel>) -> Option<StartTime> {
    let stamp = match lookup(p, "wf_start_time"@) {
        Some(v) => v.timestamp(),
        None => None,
    };
    match stamp {
        Some(t) => Some(StartTime::Micros(t.us_since_epoch)),
        None => match number_in(lookup(p, "t0"@)) {
            Some(s) => Some(StartTime::Seconds(s)),
            None => None,
        },
    }
}

/// The unit; nothing where it is missing or no text.
pub open spec fn unit_of(p: Map<Seq<char>, PropertyModel>) -> Seq<char> {
    match lookup(p, "unit_string"@) {
        Some(v) => match v.text() {
            Some(s) => s,
            None => Seq::empty(),
        },
        None => Seq::empty(),
    }
}

/// How many nanotesla a unit is; other units count as they are.
pub open spec fn unit_scale(unit: Seq<char>) -> int {
    let u = scan::trimmed(unit);
    if u == "mT"@ {
        1_000_000
    } else if u == "uT"@ || u == "\u{b5}T"@ {
        1_000
    } else {
        1
    }
}

/// The number under a name, where the properties have one there.
pub open spec fn number_under(p: Map<Seq<char>, PropertyModel>, name: Seq<char>) -> Option<Scalar> {
    if p.contains_key(name) {
        p[name].number()
    } else {
        None
    }
}

/// The sample period is the number under `wf_increment`, whatever else the
/// properties hold; only where they hold nothing there it is the one under
/// `dt`. No other property counts.
pub proof fn law_period(
    p: Map<Seq<char>, PropertyModel>,
    name: Seq<char>,
    v: PropertyModel,
)
    ensures
        p.contains_key("wf_increment"@) ==> period_of(p) == p["wf_increment"@].number(),
        !p.contains_key("wf_increment"@) ==> period_of(p) == number_under(p, "dt"@),
        p.contains_key("wf_increment"@) && name != "wf_increment"@ ==> period_of(
            p.insert(name, v),
        ) == period_of(p) && period_of(p.remove(name)) == period_of(p),
        name != "wf_increment"@ && name != "dt"@ ==> period_of(p.insert(name, v)) == period_of(p)
            && period_of(p.remove(name)) == period_of(p),
        period_of(p.insert("wf_increment"@, v)) == v.number(),
        !p.contains_key("wf_increment"@) ==> period_of(p.insert("dt"@, v)) == v.number(),
{
    reveal_strlit("wf_increment");
    reveal_strlit("dt");
    assert("wf_increment"@.len() != "dt"@.len());
}

/// The start is the timestamp `wf_start_time`, whatever else the properties
/// hold; where that is missing or no timestamp, it is the seconds under `t0`.
/// No other property counts.
pub proof fn law_start(
    p: Map<Seq<char>, PropertyModel>,
    name: Seq<char>,
    v: PropertyModel,
    t: TdmsTimestamp,
)
    ensures
        start_of(p.insert("wf_start_time"@, PropertyModel::Timestamp(t))) == Some(
            StartTime::Micros(t.us_since_epoch),
        ),
        !(v is Timestamp) ==> start_of(p.insert("wf_start_time"@, v)) == start_of(
            p.remove("wf_start_time"@),
        ),
        start_of(p.remove("wf_start_time"@)) == match number_under(p, "t0"@) {
            Some(s) => Some(StartTime::Seconds(s)),
            None => None,
        },
        name != "wf_start_time"@ && name != "t0"@ ==> start_of(p.insert(name, v)) == start_of(p)
            && start_of(p.remove(name)) == start_of(p),
        !p.contains_key("wf_start_time"@) ==> start_of(p) == start_of(p.remove("wf_start_time"@)),
{
    reveal_strlit("wf_start_time");
    reveal_strlit("t0");
    assert("wf_start_time"@.len() != "t0"@.len());
    assert(p.contains_key("wf_start_time"@) || p.remove("wf_start_time"@) =~= p);
}

/// The unit is the text `unit_string`, and nothing where that is missing or no
/// text. No other property counts.
pub proof fn law_unit(
    p: Map<Seq<char>, PropertyModel>,
    name: Seq<char>,
    v: PropertyModel,
    s: Seq<char>,
)
    ensures
        unit_of(p.insert("unit_string"@, PropertyModel::Text(s))) == s,
        !(v is Text) ==> unit_of(p.insert("unit_string"@, v)) == Seq::<char>::empty(),
        unit_of(p.remove("unit_string"@)) == Seq::<char>::empty(),
        name != "unit_string"@ ==> unit_of(p.insert(name, v)) == unit_of(p) && unit_of(
            p.remove(name),
        ) == unit_of(p),
{
}

/// A millitesla is a million nanotesla and a microtesla a thousand, with white
/// space around or not; what is neither counts as it is.
pub proof fn law_unit_scale(front: Seq<char>, unit: Seq<char>, behind: Seq<char>)
    requires
        forall|k: int| 0 <= k < front.len() ==> scan::is_space(#[trigger] front[k]),
        forall|k: int| 0 <= k < behind.len() ==> scan::is_space(#[trigger] behind[k]),
    ensures
        unit == seq!['m', 'T'] ==> unit_scale(front + unit + behind) == 1_000_000,
        unit == seq!['u', 'T'] || unit == seq!['\u{b5}', 'T'] ==> unit_scale(
            front + unit + behind,
        ) == 1_000,
        unit.len() > 0 && !scan::is_space(unit[0]) && !scan::is_space(unit.last()) && unit
            != seq!['m', 'T'] && unit != seq!['u', 'T'] && unit != seq!['\u{b5}', 'T']
            ==> unit_scale(front + unit + behind) == 1,
{
    reveal_strlit("mT");
    reveal_strlit("uT");
    reveal_strlit("\u{b5}T");
    assert("mT"@ =~= seq!['m', 'T']);
    assert("uT"@ =~= seq!['u', 'T']);
    assert("\u{b5}T"@ =~= seq!['\u{b5}', 'T']);
    let m = seq!['m', 'T'];
    let u = seq!['u', 'T'];
    let g = seq!['\u{b5}', 'T'];
    assert(m[0] != u[0] && m[0] != g[0] && u[0] != g[0]);
    if unit.len() > 0 && !scan::is_space(unit[0]) && !scan::is_space(unit.last()) {
        scan::law_trimmed(front, unit, behind);
    }
}

fn find_period(p: &PropertyMap) -> (r: Option<Scalar>)
    ensures
        r == period_of(p@),
{
    match p.get("wf_increment") {
        Some(v) => v.as_f64(),
        None => match p.get("dt") {
            Some(v) => v.as_f64(),
            None => None,
        },
    }
}

fn find_start(p: &PropertyMap) -> (r: Option<StartTime>)
    ensures
        r == start_of(p@),
{
    let stamp: Option<TdmsTimestamp> = match p.get("wf_start_time") {
        Some(v) => v.as_timestamp(),
        None => None,
    };
    match stamp {
        Some(t) => Some(StartTime::Micros(t.us_since_epoch)),
        None => match p.get("t0") {
            Some(v) => match v.as_f64() {
                Some(s) => Some(StartTime::Seconds(s)),
                None => None,
            },
            None => None,
        },
    }
}

fn find_unit(p: &PropertyMap) -> (r: String)
    ensures
        r@ == unit_of(p@),
{
    match p.get("unit_string") {
        Some(v) => match v.as_str() {
            Some(s) => s.to_owned(),
            None => {
                let none: String = String::new();
                assert(none@ =~= Seq::empty());
                none
            },
        },
        None => {
            let none: String = String::new();
            assert(none@ =~= Seq::empty());
            none
        },
    }
}

/// How many nanotesla a unit is.
pub fn unit_scale_factor(unit: &str) -> (r: u32)
    ensures
        r == unit_scale(unit@),
{
    let chars: Vec<char> = text::chars_of(unit);
    let t: Vec<char> = scan::trim(chars.as_slice());
    let u: String = text::string_of(t.as_slice());
    if text::same_text(u.as_str(), "mT") {
        1_000_000
    } else if text::same_text(u.as_str(), "uT") || text::same_text(u.as_str(), "\u{b5}T") {
        1_000
    } else {
        1
    }
}

/// What a channel says of its samples.
pub struct SummaryModel {
    pub name: Seq<char>,
    pub sample_count: int,
    pub period: Option<Scalar>,
    pub start: Option<StartTime>,
    pub unit: Seq<char>,
}

/// A group with its properties, and what its channels say of their samples.
pub struct GroupSummaryModel {
    pub name: Seq<char>,
    pub properties: Map<Seq<char>, PropertyModel>,
    pub channels: Seq<SummaryModel>,
}

/// What a channel says of its samples.
#[derive(Debug)]
pub struct ChannelSummary {
    pub name: String,
    pub sample_count: usize,
    /// Sample period in seconds.
    pub period: Option<Scalar>,
    pub start: Option<StartTime>,
    pub unit: String,
}

impl View for ChannelSummary {
    type V = SummaryModel;

    open spec fn view(&self) -> SummaryModel {
        SummaryModel {
            name: self.name@,
            sample_count: self.sample_count as int,
            period: self.period,
            start: self.start,
            unit: self.unit@,
        }
    }
}

/// A group with its properties, and what its channels say of their samples.
#[derive(Debug)]
pub struct GroupSummary {
    pub name: String,
    pub properties: PropertyMap,
    pub channels: Vec<ChannelSummary>,
}

/// The summaries of a list.
pub open spec fn summary_models(s: Seq<ChannelSummary>) -> Seq<SummaryModel> {
    s.map_values(|c: ChannelSummary| c@)
}

impl View for GroupSummary {
    type V = GroupSummaryModel;

    open spec fn view(&self) -> GroupSummaryModel {
        GroupSummaryModel {
            name: self.name@,
            properties: self.properties@,
            channels: summary_models(self.channels@),
        }
    }
}

/// The structure of a file, without its samples.
#[derive(Debug)]
pub struct FileSummary {
    pub properties: PropertyMap,
    pub groups: Vec<GroupSummary>,
}

/// The summary of a channel.
pub open spec fn summary_of(c: ChannelModel) -> SummaryModel {
    SummaryModel {
        name: c.name,
        sample_count: c.data.len() as int,
        period: period_of(c.properties),
        start: start_of(c.properties),
        unit: unit_of(c.properties),
    }
}

/// The summary of a group.
pub open spec fn group_summary_of(g: GroupModel) -> GroupSummaryModel {
    GroupSummaryModel {
        name: g.name,
        properties: g.properties,
        channels: g.channels.map_values(|c: ChannelModel| summary_of(c)),
    }
}

/// The summaries of a list of groups.
pub open spec fn group_summary_models(s: Seq<GroupSummary>) -> Seq<GroupSummaryModel> {
    s.map_values(|g: GroupSummary| g@)
}

fn summarise(c: &TdmsChannel) -> (r: ChannelSummary)
    ensures
        r@ == summary_of(c@),
{
    ChannelSummary {
        name: c.name.clone(),
        sample_count: c.data.len(),
        period: find_period(&c.properties),
        start: find_start(&c.properties),
        unit: find_unit(&c.properties),
    }
}

fn summarise_group(g: TdmsGroup) -> (r: GroupSummary)
    requires
        g.wf(),
    ensures
        r@ == group_summary_of(g@),
        r.properties.wf(),
{
    let mut channels: Vec<ChannelSummary> = Vec::new();
    for i in 0..g.channels.len()
        invariant
            channels@.len() == i,
            forall|k: int|
                0 <= k < i ==> (#[trigger] channels@[k])@ == summary_of(g.channels@[k]@),
    {
        channels.push(summarise(&g.channels[i]));
    }
    let r = GroupSummary { name: g.name, properties: g.properties, channels };
    assert(r@.channels =~= group_summary_of(g@).channels);
    r
}

/// All properties stand in the order of their names.
pub open spec fn summaries_wf(s: Seq<GroupSummary>) -> bool {
    forall|i: int| 0 <= i < s.len() ==> (#[trigger] s[i]).properties.wf()
}

/// Reads a file and tells its structure: its properties, every group with its
/// properties, and for every channel of a group its name, the number of its
/// samples, their period and start, and the unit.
pub fn tdms_inspect(bytes: &[u8]) -> (r: Result<FileSummary, TdmsError>)
    ensures
        match file::file_of(bytes@) {
            Ok(f) => r matches Ok(x) && x.properties@ == f.properties && x.properties.wf()
                && group_summary_models(x.groups@) == f.groups.map_values(
                |g: GroupModel| group_summary_of(g),
            ) && summaries_wf(x.groups@),
            Err(e) => r matches Err(x) && x@ == e,
        },
{
    let parsed: TdmsFile = file::parse_tdms(bytes)?;
    let ghost all = parsed.groups@;
    let mut groups: Vec<GroupSummary> = Vec::new();
    for g in it: parsed.groups.into_iter()
        invariant
            it.seq() == all,
            file::groups_wf(all),
            summaries_wf(groups@),
            groups@.len() == it.index(),
            forall|k: int|
                0 <= k < it.index() ==> (#[trigger] groups@[k])@ == group_summary_of(all[k]@),
    {
        groups.push(summarise_group(g));
    }
    assert(group_summary_models(groups@) =~= file::group_models(all).map_values(
        |g: GroupModel| group_summary_of(g),
    ));
    Ok(FileSummary { properties: parsed.properties, groups })
}

/// Reads a file and gives all samples of a channel; nothing where there is no
/// such channel.
pub fn tdms_channel_samples(bytes: &[u8], group: &str, channel: &str) -> (r: Result<
    Option<Vec<Scalar>>,
    TdmsError,
>)
    ensures
        match file::file_of(bytes@) {
            Ok(f) => r matches Ok(found) && match f.channel(group@, channel@) {
                Some(c) => found matches Some(v) && v@ == c.data,
                None => found is None,
            },
            Err(e) => r matches Err(x) && x@ == e,
        },
{
    let parsed: TdmsFile = file::parse_tdms(bytes)?;
    match parsed.channel(group, channel) {
        Some(c) => Ok(Some(slices::copy_all(c.data.as_slice()))),
        None => Ok(None),
    }
}

/// Why the three channels of a field log cannot be had from a file.
#[derive(Debug)]
pub enum FeedError {
    /// The file cannot be read.
    Tdms(TdmsError),
    NoChannelX,
    NoChannelY,
    NoChannelZ,
    /// Channel X has no sample period.
    NoPeriod,
    /// Channel X has no start.
    NoStart,
}

/// The error with the texts in it as sequences of characters.
pub enum FeedFault {
    Tdms(TdmsFault),
    NoChannelX,
    NoChannelY,
    NoChannelZ,
    NoPeriod,
    NoStart,
}

impl View for FeedError {
    type V = FeedFault;

    open spec fn view(&self) -> FeedFault {
        match *self {
            FeedError::Tdms(e) => FeedFault::Tdms(e@),
            FeedError::NoChannelX => FeedFault::NoChannelX,
            FeedError::NoChannelY => FeedFault::NoChannelY,
            FeedError::NoChannelZ => FeedFault::NoChannelZ,
            FeedError::NoPeriod => FeedFault::NoPeriod,
            FeedError::NoStart => FeedFault::NoStart,
        }
    }
}

/// The three channels of a field log. Period, start and unit are those of
/// channel X.
pub struct SourceModel {
    pub x: Seq<Scalar>,
    pub y: Seq<Scalar>,
    pub z: Seq<Scalar>,
    pub period: Scalar,
    pub start: StartTime,
    pub scale: int,
}

/// The three channels of a field log. Period, start and unit are those of
/// channel X.
#[derive(Debug)]
pub struct TdmsSource {
    pub x: Vec<Scalar>,
    pub y: Vec<Scalar>,
    pub z: Vec<Scalar>,
    /// Sample period in seconds.
    pub period: Scalar,
    pub start: StartTime,
    /// Factor from the unit to nanotesla.
    pub scale: u32,
}

impl View for TdmsSource {
    type V = SourceModel;

    open spec fn view(&self) -> SourceModel {
        SourceModel {
            x: self.x@,
            y: self.y@,
            z: self.z@,
            period: self.period,
            start: self.start,
            scale: self.scale as int,
        }
    }
}

/// The field log that three channels of a group hold.
pub open spec fn source_in(
    f: FileModel,
    group: Seq<char>,
    x: Seq<char>,
    y: Seq<char>,
    z: Seq<char>,
) -> Result<SourceModel, FeedFault> {
    match (f.channel(group, x), f.channel(group, y), f.channel(group, z)) {
        (None, _, _) => Err(FeedFault::NoChannelX),
        (_, None, _) => Err(FeedFault::NoChannelY),
        (_, _, None) => Err(FeedFault::NoChannelZ),
        (Some(cx), Some(cy), Some(cz)) => match (
            period_of(cx.properties),
            start_of(cx.properties),
        ) {
            (None, _) => Err(FeedFault::NoPeriod),
            (_, None) => Err(FeedFault::NoStart),
            (Some(period), Some(start)) => Ok(
                SourceModel {
                    x: cx.data,
                    y: cy.data,
                    z: cz.data,
                    period,
                    start,
                    scale: unit_scale(unit_of(cx.properties)),
                },
            ),
        },
    }
}

/// A field log can be had exactly where the three channels are there and the
/// first has a period and a start; it holds the samples of each channel under
/// its own letter, and period, start and scale of the first, whatever the
/// others say of theirs.
pub proof fn law_source(
    f: FileModel,
    group: Seq<char>,
    x: Seq<char>,
    y: Seq<char>,
    z: Seq<char>,
)
    ensures
        source_in(f, group, x, y, z) is Ok == (f.channel(group, x) is Some && f.channel(
            group,
            y,
        ) is Some && f.channel(group, z) is Some && period_of(
            f.channel(group, x)->0.properties,
        ) is Some && start_of(f.channel(group, x)->0.properties) is Some),
        source_in(f, group, x, y, z) matches Ok(s) ==> {
            &&& s.x == f.channel(group, x)->0.data
            &&& s.y == f.channel(group, y)->0.data
            &&& s.z == f.channel(group, z)->0.data
            &&& period_of(f.channel(group, x)->0.properties) == Some(s.period)
            &&& start_of(f.channel(group, x)->0.properties) == Some(s.start)
            &&& s.scale == unit_scale(unit_of(f.channel(group, x)->0.properties))
            &&& source_in(f, group, x, z, y) matches Ok(t) && t.x == s.x && t.y == s.z && t.z
                == s.y && t.period == s.period && t.start == s.start && t.scale == s.scale
        },
        f.channel(group, x) is None ==> source_in(f, group, x, y, z) == Err::<SourceModel, _>(
            FeedFault::NoChannelX,
        ),
{
}

/// The summary of a file tells of every group and channel, in their order, the
/// name, the number of samples, and what the channel itself says of them.
pub proof fn law_summary(g: GroupModel, i: int)
    requires
        0 <= i < g.channels.len(),
    ensures
        group_summary_of(g).name == g.name,
        group_summary_of(g).properties == g.properties,
        group_summary_of(g).channels.len() == g.channels.len(),
        ({
            let c = g.channels[i];
            let s = group_summary_of(g).channels[i];
            &&& s.name == c.name
            &&& s.sample_count == c.data.len()
            &&& s.period == period_of(c.properties)
            &&& s.start == start_of(c.properties)
            &&& s.unit == unit_of(c.properties)
        }),
{
}

/// Reads a file and takes the three channels of a field log from it.
pub fn load_tdms(bytes: &[u8], group: &str, ch_x: &str, ch_y: &str, ch_z: &str) -> (r: Result<
    TdmsSource,
    FeedError,
>)
    ensures
        match file::file_of(bytes@) {
            Err(e) => r matches Err(x) && x@ == FeedFault::Tdms(e),
            Ok(f) => match source_in(f, group@, ch_x@, ch_y@, ch_z@) {
                Ok(s) => r matches Ok(v) && v@ == s,
                Err(e) => r matches Err(x) && x@ == e,
            },
        },
{
    let parsed: TdmsFile = match file::parse_tdms(bytes) {
        Ok(f) => f,
        Err(e) => {
            return Err(FeedError::Tdms(e));
        },
    };
    let x: &TdmsChannel = match parsed.channel(group, ch_x) {
        Some(c) => c,
        None => {
            return Err(FeedError::NoChannelX);
        },
    };
    let y: &TdmsChannel = match parsed.channel(group, ch_y) {
        Some(c) => c,
        None => {
            return Err(FeedError::NoChannelY);
        },
    };
    let z: &TdmsChannel = match parsed.channel(group, ch_z) {
        Some(c) => c,
        None => {
            return Err(FeedError::NoChannelZ);
        },
    };
    let period: Scalar = match find_period(&x.properties) {
        Some(v) => v,
        None => {
            return Err(FeedError::NoPeriod);
        },
    };
    let start: StartTime = match find_start(&x.properties) {
        Some(v) => v,
        None => {
            return Err(FeedError::NoStart);
        },
    };
    let unit: String = find_unit(&x.properties);
    Ok(
        TdmsSource {
            x: slices::copy_all(x.data.as_slice()),
            y: slices::copy_all(y.data.as_slice()),
            z: slices::copy_all(z.data.as_slice()),
            period,
            start,
            scale: unit_scale_factor(unit.as_str()),
        },
    )
}

/// The first thing that a field log lacks is its error: a channel, in the order
/// of the letters, then the period, then the start.
pub proof fn law_source_refused(
    f: FileModel,
    group: Seq<char>,
    x: Seq<char>,
    y: Seq<char>,
    z: Seq<char>,
)
    ensures
        ({
            let r = source_in(f, group, x, y, z);
            let has_x = f.channel(group, x) is Some;
            let has_y = f.channel(group, y) is Some;
            let has_z = f.channel(group, z) is Some;
            let p = f.channel(group, x)->0.properties;
            &&& has_x && !has_y ==> r == Err::<SourceModel, _>(FeedFault::NoChannelY)
            &&& has_x && has_y && !has_z ==> r == Err::<SourceModel, _>(FeedFault::NoChannelZ)
            &&& has_x && has_y && has_z && period_of(p) is None ==> r == Err::<SourceModel, _>(
                FeedFault::NoPeriod,
            )
            &&& has_x && has_y && has_z && period_of(p) is Some && start_of(p) is None ==> r
                == Err::<SourceModel, _>(FeedFault::NoStart)
        }),
{
}

} // verus!
