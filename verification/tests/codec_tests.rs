use transform::codec::{decode_record, encode_record, encode_then_decode, frame_then_read, read_frame, write_frame};
use transform::markers::DataContext;
use transform::record::{Common, CrateError, Data, Error, Header, Kind, Log, Record};

fn sample_header() -> Record {
    Record::Header(Header {
        required: Common::new(3),
        time: -1234567890123,
        id: String::from("proc-a"),
        pid: 4242,
        cxt: DataContext::Start,
    })
}

fn sample_data(payload: &str) -> Record {
    Record::Data(Data {
        required: Common::new(3),
        time: 77,
        id: String::from("proc-a"),
        pid: 4242,
        cxt: DataContext::Stdout,
        data: String::from(payload),
    })
}

fn assert_round_trip(r: Record) {
    let bytes = encode_record(&r);
    let back = decode_record(&bytes).expect("canonical bytes must decode");
    let again = encode_record(&back);
    assert_eq!(bytes, again);
}

#[test]
fn round_trip_sentinels() {
    assert_round_trip(Record::StreamStart);
    assert_round_trip(Record::StreamEnd);
    let ss = encode_record(&Record::StreamStart);
    let se = encode_record(&Record::StreamEnd);
    assert_ne!(ss, se);
    assert!(matches!(decode_record(&ss), Some(Record::StreamStart)));
    assert!(matches!(decode_record(&se), Some(Record::StreamEnd)));
}

#[test]
fn round_trip_header() {
    let r = sample_header();
    let out = encode_then_decode(&r);
    match out {
        Record::Header(h) => {
            assert_eq!(h.required.version, 3);
            assert_eq!(h.time, -1234567890123);
            assert_eq!(h.id, "proc-a");
            assert_eq!(h.pid, 4242);
            assert_eq!(h.cxt, DataContext::Start);
        }
        _ => panic!("wrong kind"),
    }
}

#[test]
fn round_trip_data() {
    let r = sample_data("hello \u{00e9}\u{4e16}\u{754c} world");
    let out = encode_then_decode(&r);
    match out {
        Record::Data(d) => {
            assert_eq!(d.data, "hello \u{00e9}\u{4e16}\u{754c} world");
            assert_eq!(d.cxt, DataContext::Stdout);
        }
        _ => panic!("wrong kind"),
    }
}

#[test]
fn round_trip_log_and_error() {
    let l = Record::Log(Log { required: Common::new(1), log: String::from("warmup done") });
    assert_round_trip(l);
    let e = Record::new_error(9, CrateError::new(55, Some(Kind::Generic), String::from("boom")));
    let bytes = encode_record(&e);
    match decode_record(&bytes).expect("decodes") {
        Record::Error(err) => {
            assert_eq!(err.required.version, 9);
            assert_eq!(err.error.timestamp_nanos(), 55);
            assert_eq!(err.error.kind(), Kind::Generic);
            assert_eq!(err.error.msg(), "boom");
        }
        _ => panic!("wrong kind"),
    }
}

#[test]
fn rejects_garbage() {
    assert!(decode_record(&vec![]).is_none());
    assert!(decode_record(&vec![0xff, 0x00, 0x12]).is_none());
    // trailing junk after a canonical record is refused
    let mut bytes = encode_record(&Record::StreamStart);
    bytes.push(0);
    assert!(decode_record(&bytes).is_none());
}

#[test]
fn rejects_non_minimal_heads() {
    // the canonical form of map(1) is 0xa1; 0xb8 0x01 spells the same length
    // in a longer form and must be refused
    let canonical = encode_record(&Record::StreamStart);
    assert_eq!(canonical[0], 0xa1);
    let mut padded = canonical.clone();
    padded[0] = 0xb8;
    padded.insert(1, 0x01);
    assert!(decode_record(&padded).is_none());
}

#[test]
fn framing_round_trip() {
    let payload = encode_record(&sample_data("line"));
    let mut framed: Vec<u8> = Vec::new();
    assert!(write_frame(&mut framed, &payload, 1 << 23));
    assert_eq!(framed.len(), payload.len() + 4);
    // big-endian length prefix
    let n = payload.len() as u32;
    assert_eq!(&framed[0..4], n.to_be_bytes());
    let (back, end) = read_frame(&framed, 0, 1 << 23).expect("frame reads back");
    assert_eq!(back, payload);
    assert_eq!(end, framed.len());
}

#[test]
fn frame_respects_max() {
    let payload = encode_record(&sample_data("0123456789"));
    let mut framed: Vec<u8> = Vec::new();
    assert!(!write_frame(&mut framed, &payload, 4));
    assert!(framed.is_empty());
    assert!(frame_then_read(&sample_data("0123456789"), 4).is_none());
    assert!(frame_then_read(&sample_data("ok"), 1 << 23).is_some());
}

#[test]
fn two_frames_in_sequence() {
    let p1 = encode_record(&Record::StreamStart);
    let p2 = encode_record(&sample_header());
    let mut buf: Vec<u8> = Vec::new();
    assert!(write_frame(&mut buf, &p1, 1 << 23));
    assert!(write_frame(&mut buf, &p2, 1 << 23));
    let (b1, m) = read_frame(&buf, 0, 1 << 23).expect("first frame");
    assert_eq!(b1, p1);
    let (b2, end) = read_frame(&buf, m, 1 << 23).expect("second frame");
    assert_eq!(b2, p2);
    assert_eq!(end, buf.len());
}

/// The canonical log record map(2){1: version, 6: text}, rebuilt by hand
/// with its keys swapped and one unrecognized entry added.
fn log_envelope(body: Vec<u8>) -> Vec<u8> {
    let mut b = vec![
        0xa2, // map(2)
        0x61, b't', // "t"
        0x61, b'l', // "l"
        0x61, b'c', // "c"
    ];
    b.extend(body);
    b
}

#[test]
fn decoder_accepts_reordered_keys() {
    // body: map(2){6: "x", 1: 5} -- message before version
    let body = vec![0xa2, 0x06, 0x61, b'x', 0x01, 0x05];
    match decode_record(&log_envelope(body)) {
        Some(Record::Log(l)) => {
            assert_eq!(l.required.version, 5);
            assert_eq!(l.log, "x");
        }
        _ => panic!("reordered keys must decode"),
    }
}

#[test]
fn decoder_skips_unknown_keys() {
    // body: map(3){1: 5, 23: [7, "y"], 6: "x"} -- an unrecognized key 23
    // carrying a nested array value
    let body = vec![
        0xa3, // map(3)
        0x01, 0x05, // 1: 5
        0x17, 0x82, 0x07, 0x61, b'y', // 23: [7, "y"]
        0x06, 0x61, b'x', // 6: "x"
    ];
    match decode_record(&log_envelope(body)) {
        Some(Record::Log(l)) => {
            assert_eq!(l.required.version, 5);
            assert_eq!(l.log, "x");
        }
        _ => panic!("unknown keys must be ignored"),
    }
}

#[test]
fn decoder_rejects_duplicate_recognized_keys() {
    // body: map(3){1: 5, 1: 6, 6: "x"} -- version twice
    let body = vec![0xa3, 0x01, 0x05, 0x01, 0x06, 0x06, 0x61, b'x'];
    assert!(decode_record(&log_envelope(body)).is_none());
    // and a missing required key is refused too: map(1){1: 5}
    let body = vec![0xa1, 0x01, 0x05];
    assert!(decode_record(&log_envelope(body)).is_none());
}
