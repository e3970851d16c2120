use qdc_core::tdms::chunk::{
    append_samples, read_chunk_decimated, read_chunk_interleaved, sample_to_f64, Slot,
};
use qdc_core::tdms::cursor::Cursor;
use qdc_core::tdms::file::assemble;
use qdc_core::tdms::object::{ObjectState, RawDataIndex};
use qdc_core::tdms::segment::parse_segment;
use qdc_core::tdms::source::{unit_scale_factor, FeedError, StartTime};
use qdc_core::tdms::{
    load_tdms, parse_tdms, tdms_channel_samples, tdms_inspect, PropertyMap, PropertyValue, Scalar,
    TdmsError, TdmsTimestamp,
};

const META: u32 = 0x2;
const NEW: u32 = 0x4;
const RAW: u32 = 0x8;
const INTERLEAVED: u32 = 0x20;
const BIG: u32 = 0x40;
const DAQMX: u32 = 0x80;

const NO_DATA: u32 = 0xFFFF_FFFF;
const SAME: u32 = 0;

fn text(s: &str) -> Vec<u8> {
    let mut out = (s.len() as u32).to_le_bytes().to_vec();
    out.extend_from_slice(s.as_bytes());
    out
}

fn index(code: u32, n: u64) -> Vec<u8> {
    let mut out = 20u32.to_le_bytes().to_vec();
    out.extend_from_slice(&code.to_le_bytes());
    out.extend_from_slice(&1u32.to_le_bytes());
    out.extend_from_slice(&n.to_le_bytes());
    out
}

fn header(h: u32) -> Vec<u8> {
    h.to_le_bytes().to_vec()
}

fn property(name: &str, code: u32, value: &[u8]) -> Vec<u8> {
    let mut out = text(name);
    out.extend_from_slice(&code.to_le_bytes());
    out.extend_from_slice(value);
    out
}

fn object(path: &str, raw: Vec<u8>, properties: &[Vec<u8>]) -> Vec<u8> {
    let mut out = text(path);
    out.extend_from_slice(&raw);
    out.extend_from_slice(&(properties.len() as u32).to_le_bytes());
    for p in properties {
        out.extend_from_slice(p);
    }
    out
}

fn metadata(objects: &[Vec<u8>]) -> Vec<u8> {
    let mut out = (objects.len() as u32).to_le_bytes().to_vec();
    for o in objects {
        out.extend_from_slice(o);
    }
    out
}

fn lead_in(toc: u32, next: u64, raw: u64) -> Vec<u8> {
    let mut out = b"TDSm".to_vec();
    out.extend_from_slice(&toc.to_le_bytes());
    out.extend_from_slice(&4713u32.to_le_bytes());
    out.extend_from_slice(&next.to_le_bytes());
    out.extend_from_slice(&raw.to_le_bytes());
    out
}

fn segment(toc: u32, meta: &[u8], data: &[u8]) -> Vec<u8> {
    let mut out = lead_in(toc, (meta.len() + data.len()) as u64, meta.len() as u64);
    out.extend_from_slice(meta);
    out.extend_from_slice(data);
    out
}

fn doubles(v: &[f64]) -> Vec<u8> {
    v.iter().flat_map(|x| x.to_le_bytes()).collect()
}

fn as_doubles(v: &[f64]) -> Vec<Scalar> {
    v.iter().map(|x| Scalar::Double(x.to_bits())).collect()
}

fn one_channel(data: &[f64]) -> Vec<u8> {
    let meta = metadata(&[object("/'Data'/'X'", index(10, data.len() as u64), &[])]);
    segment(META | NEW | RAW, &meta, &doubles(data))
}

#[test]
fn empty_input_is_an_empty_file() {
    let f = parse_tdms(&[]).unwrap();
    assert_eq!(f.groups.len(), 0);
    assert_eq!(f.properties.len(), 0);
}

#[test]
fn group_is_implied_by_its_channel() {
    let f = parse_tdms(&one_channel(&[1.5, -2.0])).unwrap();
    assert_eq!(f.groups.len(), 1);
    assert_eq!(f.groups[0].name, "Data");
    assert_eq!(f.groups[0].channels.len(), 1);
    assert_eq!(f.groups[0].channels[0].name, "X");
    assert_eq!(f.groups[0].channels[0].data, as_doubles(&[1.5, -2.0]));
    assert!(f.channel("Data", "X").is_some());
    assert!(f.channel("Data", "Y").is_none());
    assert!(f.channel("Other", "X").is_none());
}

#[test]
fn samples_of_every_numeric_type() {
    let cases: Vec<(u32, Vec<u8>, Scalar)> = vec![
        (1, (-3i8).to_le_bytes().to_vec(), Scalar::Signed(-3)),
        (2, (-300i16).to_le_bytes().to_vec(), Scalar::Signed(-300)),
        (3, (-70000i32).to_le_bytes().to_vec(), Scalar::Signed(-70000)),
        (4, i64::MIN.to_le_bytes().to_vec(), Scalar::Signed(i64::MIN)),
        (5, 200u8.to_le_bytes().to_vec(), Scalar::Unsigned(200)),
        (6, 60000u16.to_le_bytes().to_vec(), Scalar::Unsigned(60000)),
        (7, 4_000_000_000u32.to_le_bytes().to_vec(), Scalar::Unsigned(4_000_000_000)),
        (8, u64::MAX.to_le_bytes().to_vec(), Scalar::Unsigned(u64::MAX)),
        (9, 0.1f32.to_le_bytes().to_vec(), Scalar::Single(0.1f32.to_bits())),
        (10, 0.1f64.to_le_bytes().to_vec(), Scalar::Double(0.1f64.to_bits())),
    ];
    for (code, bytes, want) in cases {
        for interleaved in [0, INTERLEAVED] {
            let meta = metadata(&[object("/'G'/'C'", index(code, 1), &[])]);
            let f = parse_tdms(&segment(META | NEW | RAW | interleaved, &meta, &bytes)).unwrap();
            assert_eq!(f.groups[0].channels[0].data, vec![want]);
        }
    }
}

#[test]
fn channels_stand_one_behind_the_other() {
    let meta = metadata(&[
        object("/'G'/'A'", index(10, 2), &[]),
        object("/'G'/'B'", index(2, 3), &[]),
    ]);
    let mut data = doubles(&[1.0, 2.0]);
    for v in [7i16, 8, 9] {
        data.extend_from_slice(&v.to_le_bytes());
    }
    // Two chunks.
    let mut twice = data.clone();
    twice.extend_from_slice(&data);
    let f = parse_tdms(&segment(META | NEW | RAW, &meta, &twice)).unwrap();
    assert_eq!(f.groups[0].channels[0].data, as_doubles(&[1.0, 2.0, 1.0, 2.0]));
    assert_eq!(
        f.groups[0].channels[1].data,
        vec![7, 8, 9, 7, 8, 9].into_iter().map(Scalar::Signed).collect::<Vec<_>>()
    );
}

#[test]
fn interleaved_channels_take_turns() {
    let meta = metadata(&[
        object("/'G'/'A'", index(10, 2), &[]),
        object("/'G'/'B'", index(10, 2), &[]),
    ]);
    let data = doubles(&[1.0, 10.0, 2.0, 20.0]);
    let f = parse_tdms(&segment(META | NEW | RAW | INTERLEAVED, &meta, &data)).unwrap();
    assert_eq!(f.groups[0].channels[0].data, as_doubles(&[1.0, 2.0]));
    assert_eq!(f.groups[0].channels[1].data, as_doubles(&[10.0, 20.0]));
}

#[test]
fn interleaved_channels_need_equal_counts() {
    let meta = metadata(&[
        object("/'G'/'A'", index(10, 2), &[]),
        object("/'G'/'B'", index(10, 1), &[]),
    ]);
    let data = doubles(&[1.0, 10.0, 2.0]);
    let e = parse_tdms(&segment(META | NEW | RAW | INTERLEAVED, &meta, &data)).unwrap_err();
    match e {
        TdmsError::Malformed(s) => assert_eq!(s, "interleaved chunk with mismatched n_values"),
        other => panic!("{:?}", other),
    }
}

#[test]
fn samples_are_concatenated_across_segments() {
    let mut bytes = one_channel(&[1.0, 2.0]);
    // Laid out as before.
    let again = metadata(&[object("/'Data'/'X'", header(SAME), &[])]);
    bytes.extend_from_slice(&segment(META | NEW | RAW, &again, &doubles(&[3.0, 4.0])));
    // No metadata at all: the list of channels is inherited.
    bytes.extend_from_slice(&segment(RAW, &[], &doubles(&[5.0, 6.0])));
    let f = parse_tdms(&bytes).unwrap();
    assert_eq!(f.groups[0].channels[0].data, as_doubles(&[1.0, 2.0, 3.0, 4.0, 5.0, 6.0]));
}

#[test]
fn inherited_channels_come_as_they_were_listed() {
    let meta = metadata(&[
        object("/'G'/'Y'", index(10, 1), &[]),
        object("/'G'/'X'", index(10, 1), &[]),
    ]);
    let mut bytes = segment(META | NEW | RAW, &meta, &doubles(&[1.0, 2.0]));
    bytes.extend_from_slice(&segment(RAW, &[], &doubles(&[3.0, 4.0])));
    let f = parse_tdms(&bytes).unwrap();
    assert_eq!(f.channel("G", "Y").unwrap().data, as_doubles(&[1.0, 3.0]));
    assert_eq!(f.channel("G", "X").unwrap().data, as_doubles(&[2.0, 4.0]));
}

#[test]
fn channel_that_left_the_list_stays_out() {
    let both = metadata(&[
        object("/'G'/'A'", index(10, 1), &[]),
        object("/'G'/'B'", index(10, 1), &[]),
    ]);
    let mut bytes = segment(META | NEW | RAW, &both, &doubles(&[1.0, 2.0]));
    // A new list with one of them, and then no list at all.
    let one = metadata(&[object("/'G'/'B'", header(SAME), &[])]);
    bytes.extend_from_slice(&segment(META | NEW | RAW, &one, &doubles(&[3.0])));
    bytes.extend_from_slice(&segment(RAW, &[], &doubles(&[4.0, 5.0])));
    let f = parse_tdms(&bytes).unwrap();
    assert_eq!(f.channel("G", "A").unwrap().data, as_doubles(&[1.0]));
    assert_eq!(f.channel("G", "B").unwrap().data, as_doubles(&[2.0, 3.0, 4.0, 5.0]));
}

#[test]
fn list_that_is_not_new_goes_on() {
    let mut bytes = one_channel(&[1.0]);
    // The new channel comes behind the one that was listed before.
    let more = metadata(&[object("/'Data'/'A'", index(10, 1), &[])]);
    bytes.extend_from_slice(&segment(META | RAW, &more, &doubles(&[2.0, 3.0])));
    // A channel that is listed again keeps its place.
    let again = metadata(&[object("/'Data'/'X'", header(SAME), &[])]);
    bytes.extend_from_slice(&segment(META | RAW, &again, &doubles(&[4.0, 5.0])));
    let f = parse_tdms(&bytes).unwrap();
    assert_eq!(f.channel("Data", "X").unwrap().data, as_doubles(&[1.0, 2.0, 4.0]));
    assert_eq!(f.channel("Data", "A").unwrap().data, as_doubles(&[3.0, 5.0]));
}

fn two_bytes() -> Vec<u8> {
    let meta = metadata(&[
        object("/'G'/'X'", index(5, 1), &[]),
        object("/'G'/'Y'", index(5, 1), &[]),
    ]);
    segment(META | NEW | RAW, &meta, &[1, 2])
}

fn unsigned(v: &[u64]) -> Vec<Scalar> {
    v.iter().map(|n| Scalar::Unsigned(*n)).collect()
}

#[test]
fn channel_declared_without_data_leaves_the_list() {
    // DAQmx data where none is marked counts as none.
    for none in [NO_DATA, 0x6913_0000, 0x6914_0000] {
        let meta = metadata(&[
            object("/'G'/'X'", header(none), &[]),
            object("/'G'/'Y'", header(SAME), &[]),
        ]);
        let mut bytes = two_bytes();
        bytes.extend_from_slice(&segment(META | RAW, &meta, &[3]));
        // It stays out.
        bytes.extend_from_slice(&segment(RAW, &[], &[4, 5]));
        // Listed again, it comes behind the others.
        let again = metadata(&[object("/'G'/'X'", header(SAME), &[])]);
        bytes.extend_from_slice(&segment(META | RAW, &again, &[6, 7]));
        let f = parse_tdms(&bytes).unwrap();
        assert_eq!(f.channel("G", "X").unwrap().data, unsigned(&[1, 7]));
        assert_eq!(f.channel("G", "Y").unwrap().data, unsigned(&[2, 3, 4, 5, 6]));
    }
    // With nothing else declared, what is left of the list goes on.
    let meta = metadata(&[object("/'G'/'X'", header(NO_DATA), &[])]);
    let mut bytes = two_bytes();
    bytes.extend_from_slice(&segment(META | RAW, &meta, &[3, 4]));
    let f = parse_tdms(&bytes).unwrap();
    assert_eq!(f.channel("G", "X").unwrap().data, unsigned(&[1]));
    assert_eq!(f.channel("G", "Y").unwrap().data, unsigned(&[2, 3, 4]));
}

#[test]
fn last_declaration_of_an_object_counts() {
    // Without data and then as before: it keeps its place.
    let meta = metadata(&[
        object("/'G'/'X'", header(NO_DATA), &[]),
        object("/'G'/'X'", header(SAME), &[]),
    ]);
    let mut bytes = two_bytes();
    bytes.extend_from_slice(&segment(META | RAW, &meta, &[3, 4]));
    let f = parse_tdms(&bytes).unwrap();
    assert_eq!(f.channel("G", "X").unwrap().data, unsigned(&[1, 3]));
    assert_eq!(f.channel("G", "Y").unwrap().data, unsigned(&[2, 4]));
    // As before and then without data: it is listed, behind the others.
    let meta = metadata(&[
        object("/'G'/'X'", header(SAME), &[]),
        object("/'G'/'X'", header(NO_DATA), &[]),
    ]);
    let mut bytes = two_bytes();
    bytes.extend_from_slice(&segment(META | RAW, &meta, &[3, 4]));
    let f = parse_tdms(&bytes).unwrap();
    assert_eq!(f.channel("G", "X").unwrap().data, unsigned(&[1, 4]));
    assert_eq!(f.channel("G", "Y").unwrap().data, unsigned(&[2, 3]));
}

#[test]
fn list_may_repeat_what_is_not_inherited() {
    let meta = metadata(&[
        object("/'G'/'X'", index(5, 1), &[]),
        object("/'G'/'Y'", index(5, 1), &[]),
        object("/'G'/'X'", header(SAME), &[]),
    ]);
    let f = parse_tdms(&segment(META | RAW, &meta, &[1, 2, 3])).unwrap();
    assert_eq!(f.channel("G", "X").unwrap().data, unsigned(&[1, 3]));
    assert_eq!(f.channel("G", "Y").unwrap().data, unsigned(&[2]));
    // What is inherited is not repeated.
    let mut bytes = two_bytes();
    bytes.extend_from_slice(&segment(META | RAW, &meta, &[3, 4]));
    let f = parse_tdms(&bytes).unwrap();
    assert_eq!(f.channel("G", "X").unwrap().data, unsigned(&[1, 3]));
    assert_eq!(f.channel("G", "Y").unwrap().data, unsigned(&[2, 4]));
}

#[test]
fn new_list_without_channels_has_no_data() {
    let mut bytes = one_channel(&[1.0]);
    let meta = metadata(&[object("/", header(NO_DATA), &[])]);
    bytes.extend_from_slice(&segment(META | NEW | RAW, &meta, &doubles(&[2.0])));
    let f = parse_tdms(&bytes).unwrap();
    assert_eq!(f.groups[0].channels[0].data, as_doubles(&[1.0]));
}

#[test]
fn segment_of_an_unclosed_file_takes_the_rest() {
    let meta = metadata(&[object("/'G'/'C'", index(10, 1), &[])]);
    let mut bytes = lead_in(META | NEW | RAW, u64::MAX, meta.len() as u64);
    bytes.extend_from_slice(&meta);
    bytes.extend_from_slice(&doubles(&[1.0, 2.0, 3.0]));
    let f = parse_tdms(&bytes).unwrap();
    assert_eq!(f.groups[0].channels[0].data, as_doubles(&[1.0, 2.0, 3.0]));
}

#[test]
fn properties_of_every_type() {
    let mut stamp = (1u64 << 63).to_le_bytes().to_vec();
    stamp.extend_from_slice(&2_082_844_801i64.to_le_bytes());
    let props = vec![
        property("void", 0, &[]),
        property("i8", 1, &[0xFF]),
        property("i16", 2, &(-2i16).to_le_bytes()),
        property("i32", 3, &(-3i32).to_le_bytes()),
        property("i64", 4, &(-4i64).to_le_bytes()),
        property("u8", 5, &[250]),
        property("u16", 6, &6u16.to_le_bytes()),
        property("u32", 7, &7u32.to_le_bytes()),
        property("u64", 8, &8u64.to_le_bytes()),
        property("f32", 9, &1.5f32.to_le_bytes()),
        property("f64", 10, &2.5f64.to_le_bytes()),
        property("text", 0x20, &text("h\u{e4}")),
        property("yes", 0x21, &[7]),
        property("no", 0x21, &[0]),
        property("when", 0x44, &stamp),
    ];
    let meta = metadata(&[object("/", header(NO_DATA), &props)]);
    let f = parse_tdms(&segment(META | NEW, &meta, &[])).unwrap();
    let p = &f.properties;
    assert_eq!(p.len(), 15);
    assert!(matches!(p.get("void"), Some(PropertyValue::Void)));
    assert_eq!(p.get("i8").unwrap().as_f64(), Some(Scalar::Signed(-1)));
    assert_eq!(p.get("i16").unwrap().as_f64(), Some(Scalar::Signed(-2)));
    assert_eq!(p.get("i32").unwrap().as_f64(), Some(Scalar::Signed(-3)));
    assert_eq!(p.get("i64").unwrap().as_f64(), Some(Scalar::Signed(-4)));
    assert_eq!(p.get("u8").unwrap().as_f64(), Some(Scalar::Unsigned(250)));
    assert_eq!(p.get("u16").unwrap().as_f64(), Some(Scalar::Unsigned(6)));
    assert_eq!(p.get("u32").unwrap().as_f64(), Some(Scalar::Unsigned(7)));
    assert_eq!(p.get("u64").unwrap().as_f64(), Some(Scalar::Unsigned(8)));
    assert_eq!(p.get("f32").unwrap().as_f64(), Some(Scalar::Single(1.5f32.to_bits())));
    assert_eq!(p.get("f64").unwrap().as_f64(), Some(Scalar::Double(2.5f64.to_bits())));
    assert_eq!(p.get("text").unwrap().as_str(), Some("h\u{e4}"));
    assert_eq!(p.get("text").unwrap().as_f64(), None);
    assert_eq!(p.get("f64").unwrap().as_str(), None);
    assert!(matches!(p.get("yes"), Some(PropertyValue::Bool(true))));
    assert!(matches!(p.get("no"), Some(PropertyValue::Bool(false))));
    assert_eq!(p.get("when").unwrap().as_timestamp().unwrap().us_since_epoch, 1_500_000);
    assert!(p.get("yes").unwrap().as_timestamp().is_none());
    assert!(p.get("missing").is_none());
    // Entries come by name.
    assert_eq!(p.entry(0).0, "f32");
    assert_eq!(p.entry(14).0, "yes");
}

#[test]
fn later_segments_set_properties_anew() {
    let first = metadata(&[object(
        "/'G'",
        header(NO_DATA),
        &[property("a", 3, &1i32.to_le_bytes()), property("b", 3, &2i32.to_le_bytes())],
    )]);
    let second =
        metadata(&[object("/'G'", header(NO_DATA), &[property("a", 3, &9i32.to_le_bytes())])]);
    let mut bytes = segment(META | NEW, &first, &[]);
    bytes.extend_from_slice(&segment(META, &second, &[]));
    let f = parse_tdms(&bytes).unwrap();
    assert_eq!(f.groups.len(), 1);
    assert_eq!(f.groups[0].properties.get("a").unwrap().as_f64(), Some(Scalar::Signed(9)));
    assert_eq!(f.groups[0].properties.get("b").unwrap().as_f64(), Some(Scalar::Signed(2)));
}

#[test]
fn quotes_in_names_are_doubled() {
    let meta = metadata(&[object("/'it''s'/'a''b'", index(5, 1), &[])]);
    let f = parse_tdms(&segment(META | NEW | RAW, &meta, &[1])).unwrap();
    assert_eq!(f.groups[0].name, "it's");
    assert_eq!(f.groups[0].channels[0].name, "a'b");
}

#[test]
fn truncated_lead_in() {
    let bytes = b"TDSm".to_vec();
    assert!(matches!(parse_tdms(&bytes), Err(TdmsError::Eof(0))));
    let mut more = one_channel(&[1.0]);
    let at = more.len();
    more.push(0);
    assert!(matches!(parse_tdms(&more), Err(TdmsError::Eof(n)) if n == at));
}

#[test]
fn truncated_metadata() {
    let meta = 1u32.to_le_bytes().to_vec();
    // The list of objects ends behind its count.
    let e = parse_tdms(&segment(META | NEW, &meta, &[])).unwrap_err();
    assert!(matches!(e, TdmsError::Eof(28)));
}

#[test]
fn tag_that_is_none() {
    let mut bytes = one_channel(&[1.0]);
    let at = bytes.len();
    bytes.extend_from_slice(&[b'X'; 28]);
    match parse_tdms(&bytes).unwrap_err() {
        TdmsError::BadTag(n, tag) => {
            assert_eq!(n, at);
            assert_eq!(tag, [b'X'; 4]);
        }
        other => panic!("{:?}", other),
    }
}

#[test]
fn big_endian_is_refused() {
    let bytes = segment(BIG, &[], &[]);
    assert!(matches!(parse_tdms(&bytes), Err(TdmsError::BigEndianNotSupported)));
}

#[test]
fn daqmx_is_refused_where_it_is_marked() {
    let meta = metadata(&[object("/'G'/'C'", header(0x6913_0000), &[])]);
    match parse_tdms(&segment(META | NEW | DAQMX, &meta, &[])).unwrap_err() {
        TdmsError::DaqmxNotSupported(p) => assert_eq!(p, "/'G'/'C'"),
        other => panic!("{:?}", other),
    }
    let f = parse_tdms(&segment(META | NEW, &meta, &[])).unwrap();
    assert_eq!(f.groups[0].channels[0].data, vec![]);
}

#[test]
fn unread_data_types() {
    // A raw data type that is none.
    let mut raw = index(0x20, 1);
    raw.extend_from_slice(&8u64.to_le_bytes());
    let meta = metadata(&[object("/'G'/'C'", raw, &[])]);
    assert!(matches!(
        parse_tdms(&segment(META | NEW, &meta, &[])),
        Err(TdmsError::UnsupportedDataType(0x20, p)) if p == "/'G'/'C'"
    ));
    // A raw data type that is no number.
    let meta = metadata(&[object("/'G'/'C'", index(0x21, 1), &[])]);
    for interleaved in [0, INTERLEAVED] {
        assert!(matches!(
            parse_tdms(&segment(META | NEW | RAW | interleaved, &meta, &[1])),
            Err(TdmsError::UnsupportedDataType(0x21, p)) if p == "/'G'/'C'"
        ));
    }
    // A property type that is none.
    let meta = metadata(&[object("/", header(NO_DATA), &[property("p", 0x99, &[])])]);
    assert!(matches!(
        parse_tdms(&segment(META | NEW, &meta, &[])),
        Err(TdmsError::UnsupportedDataType(0x99, p)) if p == "/"
    ));
}

#[test]
fn paths_that_are_none() {
    for path in ["", "x", "/x", "/'a'x", "/'a'/'b'/'c'"] {
        let meta = metadata(&[object(path, header(NO_DATA), &[])]);
        match parse_tdms(&segment(META | NEW, &meta, &[])).unwrap_err() {
            TdmsError::MalformedPath(p) => assert_eq!(p, path),
            other => panic!("{:?}", other),
        }
    }
}

#[test]
fn text_that_is_not_utf8() {
    let mut bad = 1u32.to_le_bytes().to_vec();
    bad.push(0xFF);
    let mut meta = 1u32.to_le_bytes().to_vec();
    meta.extend_from_slice(&bad);
    match parse_tdms(&segment(META | NEW, &meta, &[])).unwrap_err() {
        TdmsError::Malformed(s) => assert_eq!(s, "non-UTF8 string"),
        other => panic!("{:?}", other),
    }
}

#[test]
fn raw_section_outside_the_file() {
    let meta = metadata(&[object("/'G'/'C'", index(10, 1), &[])]);
    let mut bytes = lead_in(META | NEW | RAW, meta.len() as u64 + 8, meta.len() as u64);
    bytes.extend_from_slice(&meta);
    let from = bytes.len();
    let len = bytes.len();
    match parse_tdms(&bytes).unwrap_err() {
        TdmsError::Malformed(s) => assert_eq!(
            s,
            format!("raw section out of bounds: {}..{}, file len {}", from, from + 8, len)
        ),
        other => panic!("{:?}", other),
    }
}

#[test]
fn raw_section_of_broken_chunks() {
    let meta = metadata(&[object("/'G'/'C'", index(10, 2), &[])]);
    match parse_tdms(&segment(META | NEW | RAW, &meta, &doubles(&[1.0]))).unwrap_err() {
        TdmsError::Malformed(s) => {
            assert_eq!(s, "raw section size 8 not a multiple of chunk size 16")
        }
        other => panic!("{:?}", other),
    }
}

#[test]
fn offsets_beyond_every_file() {
    let meta = metadata(&[object("/'G'/'C'", index(10, 1), &[])]);
    let mut bytes = lead_in(META | NEW | RAW, u64::MAX - 1, meta.len() as u64);
    bytes.extend_from_slice(&meta);
    let len = bytes.len();
    match parse_tdms(&bytes).unwrap_err() {
        TdmsError::Malformed(s) => assert_eq!(
            s,
            format!("raw section out of bounds: {len}..18446744073709551642, file len {len}")
        ),
        other => panic!("{:?}", other),
    }
    // Without raw data the segment is the last one.
    let mut bytes = lead_in(META | NEW, u64::MAX - 1, meta.len() as u64);
    bytes.extend_from_slice(&meta);
    assert_eq!(parse_tdms(&bytes).unwrap().groups.len(), 1);
    // A chunk larger than every file.
    let meta = metadata(&[object("/'G'/'C'", index(10, u64::MAX), &[])]);
    match parse_tdms(&segment(META | NEW | RAW, &meta, &doubles(&[1.0]))).unwrap_err() {
        TdmsError::Malformed(s) => assert_eq!(
            s,
            "raw section size 8 not a multiple of chunk size 147573952589676412920"
        ),
        other => panic!("{:?}", other),
    }
}

#[test]
fn hierarchy_keeps_the_order_of_appearance() {
    let meta = metadata(&[
        object("/'B'/'x'", index(5, 1), &[]),
        object("/'A'", header(NO_DATA), &[]),
        object("/'A'/'x'", index(5, 1), &[]),
        object("/'B'/'a'", index(5, 1), &[]),
        object("/", header(NO_DATA), &[]),
    ]);
    let f = parse_tdms(&segment(META | NEW | RAW, &meta, &[1, 2, 3])).unwrap();
    let names: Vec<&str> = f.groups.iter().map(|g| g.name.as_str()).collect();
    assert_eq!(names, vec!["B", "A"]);
    let channels: Vec<&str> = f.groups[0].channels.iter().map(|c| c.name.as_str()).collect();
    assert_eq!(channels, vec!["x", "a"]);
    assert_eq!(f.channel("B", "x").unwrap().data, vec![Scalar::Unsigned(1)]);
    assert_eq!(f.channel("A", "x").unwrap().data, vec![Scalar::Unsigned(2)]);
    assert_eq!(f.channel("B", "a").unwrap().data, vec![Scalar::Unsigned(3)]);
}

#[test]
fn first_group_of_a_name_has_the_channels() {
    // A name that is not closed reads as the same name.
    let meta = metadata(&[
        object("/'A", header(NO_DATA), &[]),
        object("/'A'", header(NO_DATA), &[]),
        object("/'A'/'x'", index(5, 1), &[]),
    ]);
    let f = parse_tdms(&segment(META | NEW | RAW, &meta, &[9])).unwrap();
    assert_eq!(f.groups.len(), 2);
    assert_eq!(f.groups[0].channels.len(), 1);
    assert_eq!(f.groups[1].channels.len(), 0);
}

#[test]
fn channel_listed_twice_takes_two_parts() {
    let meta = metadata(&[
        object("/'A'/'x'", index(5, 1), &[]),
        object("/'A'/'x'", header(SAME), &[]),
    ]);
    let f = parse_tdms(&segment(META | NEW | RAW, &meta, &[1, 2, 3, 4])).unwrap();
    let want: Vec<Scalar> = vec![1, 2, 3, 4].into_iter().map(Scalar::Unsigned).collect();
    assert_eq!(f.groups[0].channels[0].data, want);
}

#[test]
fn empty_chunks_are_no_data() {
    let meta = metadata(&[object("/'G'/'C'", index(10, 0), &[])]);
    let f = parse_tdms(&segment(META | NEW | RAW, &meta, &[1, 2, 3])).unwrap();
    assert_eq!(f.groups[0].channels[0].data, vec![]);
}

#[test]
fn names_beyond_ascii() {
    let meta = metadata(&[object("/'\u{b5}T'/'\u{e9}''\u{1f600}'", index(5, 1), &[])]);
    let f = parse_tdms(&segment(META | NEW | RAW, &meta, &[1])).unwrap();
    assert_eq!(f.groups.len(), 1);
    assert_eq!(f.groups[0].name, "\u{b5}T");
    assert_eq!(f.groups[0].channels[0].name, "\u{e9}'\u{1f600}");
    assert!(f.channel("\u{b5}T", "\u{e9}'\u{1f600}").is_some());
}

fn stray_channel(group: Option<&str>) -> ObjectState {
    ObjectState {
        path: "/'?'/'x'".to_string(),
        depth: 2,
        parent: group.map(|g| g.to_string()),
        name: "x".to_string(),
        properties: PropertyMap::new(),
        last_raw: None,
        samples: vec![],
    }
}

#[test]
fn channel_without_its_group() {
    let fault = |group| match assemble(vec![stray_channel(group)]).unwrap_err() {
        TdmsError::Malformed(s) => s,
        other => panic!("{:?}", other),
    };
    assert_eq!(fault(Some("G")), "channel under unknown group \"G\"");
    assert_eq!(fault(None), "channel under unknown group \"\"");
    // The quotation escapes some characters.
    assert_eq!(fault(Some("\"\n\u{e9}")), "channel under unknown group \"\\\"\\n\u{e9}\"");
    assert_eq!(assemble(vec![]).unwrap().groups.len(), 0);
}

#[test]
fn segments_that_cannot_be_read_keep_what_is_known() {
    let mut objects = vec![];
    let first = one_channel(&[1.0]);
    let left = parse_segment(&first, 0, &mut objects, &vec![]).unwrap();
    assert_eq!(left.next_pos, first.len() as u128);
    assert_eq!(left.active, vec![1]);
    // A lead-in that is wrong changes nothing.
    assert!(parse_segment(b"TDSm", 0, &mut objects, &left.active).is_err());
    assert_eq!(objects.len(), 2);
    // A raw section that is wrong leaves the declarations.
    let meta = metadata(&[object("/'Data'/'Y'", index(10, 1), &[])]);
    let bad = segment(META | RAW, &meta, &doubles(&[1.0]));
    assert!(parse_segment(&bad, 0, &mut objects, &left.active).is_err());
    assert_eq!(objects.len(), 3);
    assert_eq!(objects[1].samples, as_doubles(&[1.0]));
    assert_eq!(objects[2].samples, vec![]);
    // A start behind the end.
    assert!(matches!(
        parse_segment(&first, first.len() + 1, &mut objects, &left.active),
        Err(TdmsError::Eof(n)) if n == first.len() + 1
    ));
    // Declarations before a wrong one are taken over.
    let meta = metadata(&[
        object("/'Data'/'Z'", header(NO_DATA), &[]),
        object("wrong", header(NO_DATA), &[]),
        object("/'Data'/'W'", header(NO_DATA), &[]),
    ]);
    let bad = segment(META, &meta, &[]);
    assert!(parse_segment(&bad, 0, &mut objects, &left.active).is_err());
    assert_eq!(objects.len(), 4);
    assert_eq!(objects[3].path, "/'Data'/'Z'");
    // Samples before those that are refused are read: of an interleaved chunk,
    // in its first row.
    let meta = metadata(&[
        object("/'Data'/'Y'", index(5, 2), &[]),
        object("/'Data'/'Z'", index(0x21, 2), &[]),
        object("/'Data'/'W'", index(5, 2), &[]),
    ]);
    for (mark, read) in [(0, vec![1, 2]), (INTERLEAVED, vec![1])] {
        let bad = segment(META | NEW | RAW | mark, &meta, &[1, 2, 3, 4, 5, 6]);
        objects[2].samples.clear();
        assert!(parse_segment(&bad, 0, &mut objects, &left.active).is_err());
        assert_eq!(objects[2].samples, unsigned(&read));
        assert_eq!(objects[3].samples, vec![]);
        assert_eq!(objects[4].samples, vec![]);
    }
}

#[test]
fn two_files_one_behind_the_other() {
    let first = metadata(&[
        object("/", header(NO_DATA), &[property("a", 5, &[1]), property("b", 5, &[2])]),
        object("/'G'", header(NO_DATA), &[property("p", 5, &[3])]),
        object("/'G'/'X'", index(10, 1), &[property("q", 5, &[4]), property("r", 5, &[5])]),
        object("/'G'/'Y'", index(10, 1), &[]),
    ]);
    let second = metadata(&[
        object("/", header(NO_DATA), &[property("b", 5, &[6]), property("c", 5, &[7])]),
        object("/'G'/'X'", index(10, 2), &[property("r", 5, &[8])]),
        object("/'H'/'Z'", index(10, 1), &[]),
    ]);
    let a = segment(META | NEW | RAW, &first, &doubles(&[1.0, 2.0]));
    let mut b = segment(META | NEW | RAW, &second, &doubles(&[3.0, 4.0, 5.0]));
    b.extend_from_slice(&segment(RAW, &[], &doubles(&[6.0, 7.0, 8.0])));
    let mut both = a.clone();
    both.extend_from_slice(&b);
    let f = parse_tdms(&both).unwrap();
    let number = |p: &PropertyMap, name: &str| p.get(name).unwrap().as_f64();
    assert_eq!(number(&f.properties, "a"), Some(Scalar::Unsigned(1)));
    assert_eq!(number(&f.properties, "b"), Some(Scalar::Unsigned(6)));
    assert_eq!(number(&f.properties, "c"), Some(Scalar::Unsigned(7)));
    assert_eq!(f.groups.len(), 2);
    assert_eq!(number(&f.groups[0].properties, "p"), Some(Scalar::Unsigned(3)));
    let x = f.channel("G", "X").unwrap();
    assert_eq!(x.data, as_doubles(&[1.0, 3.0, 4.0, 6.0, 7.0]));
    assert_eq!(number(&x.properties, "q"), Some(Scalar::Unsigned(4)));
    assert_eq!(number(&x.properties, "r"), Some(Scalar::Unsigned(8)));
    assert_eq!(f.channel("G", "Y").unwrap().data, as_doubles(&[2.0]));
    assert_eq!(f.channel("H", "Z").unwrap().data, as_doubles(&[5.0, 8.0]));
    // Each file by itself.
    for bytes in [&a, &b] {
        assert!(parse_tdms(bytes).is_ok());
    }
}

#[test]
fn cursor_stays_where_nothing_can_be_read() {
    let bytes = [1u8, 0, 0, 0, 0xFF];
    let mut c = Cursor::new(&bytes);
    assert!(matches!(c.read_bytes(6), Err(TdmsError::Eof(0))));
    assert_eq!(c.pos, 0);
    assert!(matches!(c.read_u64(), Err(TdmsError::Eof(0))));
    assert!(matches!(c.read_i64(), Err(TdmsError::Eof(0))));
    assert!(matches!(
        c.read_property_value(0x99, "/"),
        Err(TdmsError::UnsupportedDataType(0x99, p)) if p == "/"
    ));
    assert!(matches!(c.read_property_value(0x44, "/"), Err(TdmsError::Eof(0))));
    assert_eq!(c.pos, 0);
    assert!(matches!(c.read_property_value(0, "/"), Ok(PropertyValue::Void)));
    assert_eq!(c.pos, 0);
    // A text stops behind bytes that are not UTF-8, or at the part that is cut
    // short.
    assert!(matches!(c.read_string(), Err(TdmsError::Malformed(_))));
    assert_eq!(c.pos, 5);
    c.pos = 1;
    assert!(matches!(c.read_string(), Err(TdmsError::Eof(5))));
    assert_eq!(c.pos, 5);
    assert!(matches!(c.read_u32(), Err(TdmsError::Eof(5))));
    assert!(matches!(c.read_i32(), Err(TdmsError::Eof(5))));
    assert_eq!(c.pos, 5);
}

#[test]
fn samples_that_are_no_numbers() {
    for code in [0, 0x20, 0x21, 0x44, 0x99] {
        let raw = RawDataIndex { data_type: code, n_values: 3, bytes_per_value: 1 };
        let mut out = as_doubles(&[1.0]);
        assert!(matches!(
            append_samples(&[1, 2], raw, &mut out, "/'G'/'C'"),
            Err(TdmsError::UnsupportedDataType(c, p)) if c == code && p == "/'G'/'C'"
        ));
        assert_eq!(out, as_doubles(&[1.0]));
        assert!(matches!(
            sample_to_f64(&[], code, "p"),
            Err(TdmsError::UnsupportedDataType(c, _)) if c == code
        ));
    }
    let raw = RawDataIndex { data_type: 2, n_values: 2, bytes_per_value: 2 };
    let mut out = vec![];
    append_samples(&[1, 0, 0xFF, 0xFF, 9], raw, &mut out, "p").unwrap();
    assert_eq!(out, vec![Scalar::Signed(1), Scalar::Signed(-1)]);
    // One sample has just its bytes; of those with one byte, the first counts.
    assert!(matches!(sample_to_f64(&[1, 0, 0], 2, "p"), Err(TdmsError::Eof(0))));
    assert!(matches!(sample_to_f64(&[], 10, "p"), Err(TdmsError::Eof(0))));
    assert!(matches!(sample_to_f64(&[7, 8], 5, "p"), Ok(Scalar::Unsigned(7))));
    assert!(matches!(sample_to_f64(&[0xFF, 8], 1, "p"), Ok(Scalar::Signed(-1))));
}

fn slot(at: usize, n_values: u64) -> Slot {
    Slot {
        at,
        path: "p".to_string(),
        raw: RawDataIndex { data_type: 5, n_values, bytes_per_value: 1 },
    }
}

#[test]
fn chunks_may_be_longer_than_their_rows() {
    let mut objects = vec![stray_channel(None), stray_channel(None), stray_channel(None)];
    objects[1].samples = as_doubles(&[9.0]);
    let numbers = |v: &[u64]| v.iter().map(|n| Scalar::Unsigned(*n)).collect::<Vec<_>>();
    let slots = vec![slot(2, 2), slot(0, 2)];
    read_chunk_interleaved(&[1, 2, 3, 4, 5], &slots, &mut objects).unwrap();
    assert_eq!(objects[2].samples, numbers(&[1, 3]));
    assert_eq!(objects[0].samples, numbers(&[2, 4]));
    read_chunk_decimated(&[5, 6, 7, 8, 9], &slots, &mut objects).unwrap();
    assert_eq!(objects[2].samples, numbers(&[1, 3, 5, 6]));
    assert_eq!(objects[0].samples, numbers(&[2, 4, 7, 8]));
    // Unequal counts leave everything as it is, whatever the chunk.
    let slots = vec![slot(2, 2), slot(0, 1)];
    assert!(matches!(
        read_chunk_interleaved(&[1], &slots, &mut objects),
        Err(TdmsError::Malformed(_))
    ));
    assert_eq!(objects[2].samples.len(), 4);
    assert_eq!(objects[0].samples.len(), 4);
    assert_eq!(objects[1].samples, as_doubles(&[9.0]));
}

#[test]
fn timestamps_round_half_to_even() {
    let epoch = 2_082_844_800i64;
    let us = |fraction: u64, seconds: i64| TdmsTimestamp::from_raw(fraction, seconds).us_since_epoch;
    assert_eq!(us(0, epoch), 0);
    assert_eq!(us(0, 0), -2_082_844_800_000_000);
    assert_eq!(us(1 << 63, epoch), 500_000);
    // 3906.25 and 11718.75 microseconds.
    assert_eq!(us(1 << 56, epoch), 3906);
    assert_eq!(us(3 << 56, epoch), 11719);
    // 7812.5 and 23437.5 microseconds.
    assert_eq!(us(1 << 57, epoch), 7812);
    assert_eq!(us(3 << 57, epoch), 23438);
    // Almost a second.
    assert_eq!(us(u64::MAX, epoch), 1_000_000);
    assert_eq!(us(0, i64::MAX), i64::MAX);
    assert_eq!(us(0, i64::MIN), i64::MIN);
}

fn log_file() -> Vec<u8> {
    let mut stamp = 0u64.to_le_bytes().to_vec();
    stamp.extend_from_slice(&(2_082_844_800i64 + 100).to_le_bytes());
    let meta = metadata(&[
        object("/", header(NO_DATA), &[property("title", 0x20, &text("log"))]),
        object("/'G'", header(NO_DATA), &[property("place", 0x20, &text("hall"))]),
        object(
            "/'G'/'X'",
            index(10, 2),
            &[
                property("wf_increment", 10, &0.5f64.to_le_bytes()),
                property("dt", 10, &9.0f64.to_le_bytes()),
                property("wf_start_time", 0x44, &stamp),
                property("unit_string", 0x20, &text(" uT ")),
            ],
        ),
        object(
            "/'G'/'Y'",
            index(10, 2),
            &[property("dt", 3, &2i32.to_le_bytes()), property("t0", 10, &7.0f64.to_le_bytes())],
        ),
        object(
            "/'G'/'Z'",
            index(10, 2),
            &[property("wf_increment", 0x20, &text("fast")), property("dt", 3, &2i32.to_le_bytes())],
        ),
    ]);
    segment(META | NEW | RAW, &meta, &doubles(&[1.0, 2.0, 3.0, 4.0, 5.0, 6.0]))
}

#[test]
fn structure_of_a_log() {
    let s = tdms_inspect(&log_file()).unwrap();
    assert_eq!(s.properties.get("title").unwrap().as_str(), Some("log"));
    assert_eq!(s.groups.len(), 1);
    assert_eq!(s.groups[0].name, "G");
    assert_eq!(s.groups[0].properties.len(), 1);
    assert_eq!(s.groups[0].properties.get("place").unwrap().as_str(), Some("hall"));
    let c = &s.groups[0].channels;
    assert_eq!(c.len(), 3);
    assert_eq!(c[0].name, "X");
    assert_eq!(c[0].sample_count, 2);
    assert_eq!(c[0].period, Some(Scalar::Double(0.5f64.to_bits())));
    assert_eq!(c[0].start, Some(StartTime::Micros(100_000_000)));
    assert_eq!(c[0].unit, " uT ");
    assert_eq!(c[1].period, Some(Scalar::Signed(2)));
    assert_eq!(c[1].start, Some(StartTime::Seconds(Scalar::Double(7.0f64.to_bits()))));
    assert_eq!(c[1].unit, "");
    // A period that is no number hides the other one.
    assert_eq!(c[2].period, None);
    assert_eq!(c[2].start, None);
    assert!(matches!(tdms_inspect(b"TDSm"), Err(TdmsError::Eof(0))));
}

#[test]
fn samples_of_one_channel() {
    let bytes = log_file();
    assert_eq!(
        tdms_channel_samples(&bytes, "G", "Y").unwrap(),
        Some(as_doubles(&[3.0, 4.0]))
    );
    assert_eq!(tdms_channel_samples(&bytes, "G", "W").unwrap(), None);
    assert!(matches!(tdms_channel_samples(b"TDSm", "G", "Y"), Err(TdmsError::Eof(0))));
}

#[test]
fn three_channels_of_a_log() {
    let bytes = log_file();
    let s = load_tdms(&bytes, "G", "X", "Y", "Z").unwrap();
    assert_eq!(s.x, as_doubles(&[1.0, 2.0]));
    assert_eq!(s.y, as_doubles(&[3.0, 4.0]));
    assert_eq!(s.z, as_doubles(&[5.0, 6.0]));
    assert_eq!(s.period, Scalar::Double(0.5f64.to_bits()));
    assert_eq!(s.start, StartTime::Micros(100_000_000));
    assert_eq!(s.scale, 1000);
    assert_eq!(load_tdms(&bytes, "G", "Y", "Y", "Y").unwrap().scale, 1);
    assert!(matches!(load_tdms(&bytes, "G", "?", "?", "?"), Err(FeedError::NoChannelX)));
    assert!(matches!(load_tdms(&bytes, "G", "X", "?", "?"), Err(FeedError::NoChannelY)));
    assert!(matches!(load_tdms(&bytes, "G", "X", "Y", "?"), Err(FeedError::NoChannelZ)));
    assert!(matches!(load_tdms(&bytes, "G", "Z", "Y", "Y"), Err(FeedError::NoPeriod)));
    assert!(matches!(load_tdms(b"TDSm", "G", "X", "Y", "Z"), Err(FeedError::Tdms(TdmsError::Eof(0)))));
}

#[test]
fn period_without_start() {
    let meta = metadata(&[object("/'G'/'X'", index(10, 1), &[property("dt", 3, &2i32.to_le_bytes())])]);
    let bytes = segment(META | NEW | RAW, &meta, &doubles(&[1.0]));
    assert!(matches!(load_tdms(&bytes, "G", "X", "X", "X"), Err(FeedError::NoStart)));
}

#[test]
fn units_of_a_field() {
    assert_eq!(unit_scale_factor("mT"), 1_000_000);
    assert_eq!(unit_scale_factor("\tuT "), 1_000);
    assert_eq!(unit_scale_factor("\u{b5}T"), 1_000);
    assert_eq!(unit_scale_factor("nT"), 1);
    assert_eq!(unit_scale_factor("MT"), 1);
    assert_eq!(unit_scale_factor(""), 1);
}
