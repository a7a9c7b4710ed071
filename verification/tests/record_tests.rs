use transform::builders::{DataBuilder, Directive, HeaderBuilder, OutputContext};
use transform::error::{Category, CfgErrSubject, ConfigError, ErrKind};
use transform::markers::{DataContext, KindMarker, Marker, Repr, TagMarker};
use transform::record::{Common, CrateError, Kind, Record, RecordKind};

#[test]
fn tag_markers_have_stable_ids() {
    assert_eq!(TagMarker::DataContext.repr_u8(), 0);
    assert_eq!(TagMarker::Version.repr_u8(), 1);
    assert_eq!(TagMarker::Time.repr_u8(), 2);
    assert_eq!(TagMarker::Id.repr_u8(), 3);
    assert_eq!(TagMarker::Pid.repr_u8(), 4);
    assert_eq!(TagMarker::Data.repr_u8(), 5);
    assert_eq!(TagMarker::Utf8Data.repr_u8(), 6);
    assert_eq!(TagMarker::Error.repr_u8(), 7);
    assert_eq!(KindMarker::StreamStart.repr_u8(), 0);
    assert_eq!(KindMarker::Error.repr_u8(), 5);
    assert_eq!(DataContext::Start.repr_u8(), 0);
    assert_eq!(DataContext::Stdout.repr_u8(), 1);
    assert_eq!(DataContext::Stderr.repr_u8(), 2);
    assert_eq!(DataContext::End.repr_u8(), 3);
    assert_eq!(TagMarker::Pid.as_marker(), TagMarker::Pid);
}

#[test]
fn record_kind_follows_marker() {
    assert!(matches!(RecordKind::new(KindMarker::StreamStart, 1u32), RecordKind::StreamStart));
    assert!(matches!(RecordKind::new(KindMarker::StreamEnd, 1u32), RecordKind::StreamEnd));
    assert!(matches!(RecordKind::new(KindMarker::Header, 7u32), RecordKind::Header(7)));
    assert!(matches!(RecordKind::new(KindMarker::Data, 8u32), RecordKind::Data(8)));
    assert!(matches!(RecordKind::new(KindMarker::Log, 9u32), RecordKind::Log(9)));
    assert!(matches!(RecordKind::new(KindMarker::Error, 10u32), RecordKind::Error(10)));
}

#[test]
fn crate_error_defaults_kind() {
    let e = CrateError::new(42, None, String::from("oops"));
    assert_eq!(e.kind(), Kind::Generic);
    assert_eq!(e.timestamp_nanos(), 42);
    assert_eq!(e.msg(), "oops");
    assert_eq!(Kind::default(), Kind::Generic);
    let r = Record::new_error(2, e);
    assert!(matches!(r, Record::Error(_)));
    assert_eq!(Common::new(5).version, 5);
}

#[test]
fn error_categories() {
    let io = transform::error::CrateError { inner: Box::new(ErrKind::Io) };
    assert_eq!(io.categorize(), Category::Io);
    let cfg = transform::error::CrateError {
        inner: Box::new(ErrKind::InvalidConfig(ConfigError::Missing(CfgErrSubject::Join))),
    };
    assert_eq!(cfg.categorize(), Category::Config);
    let rec = transform::error::CrateError { inner: Box::new(ErrKind::RecordDataInvalidUtf8) };
    assert_eq!(rec.categorize(), Category::Record);
}

#[test]
fn invalid_record_context_error_names_expected_tags() {
    let e = transform::error::CrateError::err_invalid_record(
        DataContext::Stdout,
        &vec![DataContext::Start, DataContext::End],
    );
    match &*e.inner {
        ErrKind::InvalidRecordContext { invalid, expected } => {
            assert_eq!(*invalid, DataContext::Stdout);
            assert_eq!(expected, "Start,End");
        }
        _ => panic!("wrong kind"),
    }
    assert_eq!(e.categorize(), Category::Record);
}

#[test]
fn header_builder_completes() {
    let mut cxt = OutputContext::new();
    cxt.insert_version(3);
    cxt.insert_id("child-1");
    cxt.insert_pid(99);
    let mut b = HeaderBuilder::new(Some(&cxt));
    assert!(!b.is_done());
    b.tag(Directive::Begin);
    b.time(1234);
    assert!(b.is_done());
    match b.done_unchecked() {
        Record::Header(h) => {
            assert_eq!(h.required.version, 3);
            assert_eq!(h.id, "child-1");
            assert_eq!(h.pid, 99);
            assert_eq!(h.time, 1234);
            assert_eq!(h.cxt, DataContext::Start);
        }
        _ => panic!("wrong kind"),
    }
}

#[test]
fn data_builder_completes() {
    let mut cxt = OutputContext::new();
    cxt.insert_version(1);
    cxt.insert_id("child-2");
    cxt.insert_pid(7);
    let b = DataBuilder::new(Some(&cxt));
    assert!(!b.is_done());
    let mut b = b.map(|b| b).and(|mut b| {
        b.time(5);
        b
    });
    b.tag(Directive::Stderr);
    b.data("a line");
    assert!(b.is_done());
    match b.done_unchecked() {
        Record::Data(d) => {
            assert_eq!(d.id, "child-2");
            assert_eq!(d.cxt, DataContext::Stderr);
            assert_eq!(d.data, "a line");
        }
        _ => panic!("wrong kind"),
    }
}

#[test]
fn later_context_items_win() {
    let mut cxt = OutputContext::new();
    cxt.insert_pid(1);
    cxt.insert_pid(2);
    let b = HeaderBuilder::new(Some(&cxt));
    assert_eq!(b.pid, Some(2));
    assert!(HeaderBuilder::new(None).pid.is_none());
}
