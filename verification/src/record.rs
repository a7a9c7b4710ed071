//! The in-memory representation of a wire record: the mechanism by which the
//! binaries transmit information across the wire. A record is either a
//! session sentinel (`StreamStart` / `StreamEnd`), a header that starts or
//! ends one logical sub-stream, a single line of output, a log message, or an
//! error report.

use crate::markers::{DataContext, KindMarker, Marker};
use vstd::prelude::*;

verus! {

/// Fields common to every record kind.
#[derive(Clone)]
pub struct Common {
    pub version: u32,
}

impl Common {
    pub fn new(version: u32) -> (r: Self)
        ensures
            r.version == version,
    {
        Common { version }
    }
}

/// Categories of error carried inside an error record.
#[derive(Debug, Clone, Copy, PartialEq, Eq, Structural)]
pub enum Kind {
    Generic,
}

impl Default for Kind {
    fn default() -> (r: Self)
        ensures
            r == Kind::Generic,
    {
        Kind::Generic
    }
}

/// The wire id of an error kind.
pub open spec fn spec_kind_id(k: Kind) -> u32 {
    match k {
        Kind::Generic => 0,
    }
}

/// The wire id of an error kind.
pub fn kind_id(k: Kind) -> (r: u32)
    ensures
        r == spec_kind_id(k),
{
    match k {
        Kind::Generic => 0,
    }
}

/// The error payload of an error record: an approximate time at which the
/// error occurred, its kind, and the textual message of the original error.
#[derive(Clone)]
pub struct CrateError {
    time: i64,
    kind: Kind,
    msg: String,
}

/// Spec-level error payload.
pub struct CrateErrorV {
    pub time: i64,
    pub kind: Kind,
    pub msg: Seq<char>,
}

impl View for CrateError {
    type V = CrateErrorV;

    closed spec fn view(&self) -> CrateErrorV {
        CrateErrorV { time: self.time, kind: self.kind, msg: self.msg@ }
    }
}

impl CrateError {
    /// A missing kind defaults to `Generic`.
    pub fn new(time: i64, kind: Option<Kind>, msg: String) -> (r: Self)
        ensures
            r@.time == time,
            r@.kind == (match kind {
                Some(k) => k,
                None => Kind::Generic,
            }),
            r@.msg == msg@,
    {
        let kind = match kind {
            Some(k) => k,
            None => Kind::default(),
        };
        CrateError { time, kind, msg }
    }

    pub fn kind(&self) -> (k: Kind)
        ensures
            k == self@.kind,
    {
        self.kind
    }

    pub fn timestamp_nanos(&self) -> (t: i64)
        ensures
            t == self@.time,
    {
        self.time
    }

    /// The message text.
    pub fn msg(&self) -> (m: &str)
        ensures
            m@ == self@.msg,
    {
        self.msg.as_str()
    }
}

/// A single line of output of one sub-stream. Bracketed by one header with
/// `Start` context before it and one with `End` context after it.
#[derive(Clone)]
pub struct Data {
    pub required: Common,
    pub time: i64,
    pub id: String,
    pub pid: u32,
    pub cxt: DataContext,
    pub data: String,
}

/// A record that starts or gracefully ends a stream of data records.
#[derive(Clone)]
pub struct Header {
    pub required: Common,
    pub time: i64,
    pub id: String,
    pub pid: u32,
    pub cxt: DataContext,
}

/// An error report produced by a non-graceful termination up the stream.
#[derive(Clone)]
pub struct Error {
    pub required: Common,
    pub error: CrateError,
}

/// A log message produced by a project binary up the data stream.
#[derive(Clone)]
pub struct Log {
    pub required: Common,
    pub log: String,
}

/// Spec-level data record.
pub struct DataV {
    pub version: u32,
    pub time: i64,
    pub id: Seq<char>,
    pub pid: u32,
    pub cxt: DataContext,
    pub data: Seq<char>,
}

/// Spec-level header record.
pub struct HeaderV {
    pub version: u32,
    pub time: i64,
    pub id: Seq<char>,
    pub pid: u32,
    pub cxt: DataContext,
}

impl View for Data {
    type V = DataV;

    open spec fn view(&self) -> DataV {
        DataV {
            version: self.required.version,
            time: self.time,
            id: self.id@,
            pid: self.pid,
            cxt: self.cxt,
            data: self.data@,
        }
    }
}

impl View for Header {
    type V = HeaderV;

    open spec fn view(&self) -> HeaderV {
        HeaderV {
            version: self.required.version,
            time: self.time,
            id: self.id@,
            pid: self.pid,
            cxt: self.cxt,
        }
    }
}

/// One framed unit on the wire.
#[derive(Clone)]
pub enum Record {
    StreamStart,
    StreamEnd,
    Header(Header),
    Data(Data),
    Log(Log),
    Error(Error),
}

/// Spec-level record.
pub enum RecordV {
    StreamStart,
    StreamEnd,
    Header(HeaderV),
    Data(DataV),
    Log(u32, Seq<char>),
    Error(u32, CrateErrorV),
}

impl View for Record {
    type V = RecordV;

    open spec fn view(&self) -> RecordV {
        match self {
            Record::StreamStart => RecordV::StreamStart,
            Record::StreamEnd => RecordV::StreamEnd,
            Record::Header(h) => RecordV::Header(h@),
            Record::Data(d) => RecordV::Data(d@),
            Record::Log(l) => RecordV::Log(l.required.version, l.log@),
            Record::Error(e) => RecordV::Error(e.required.version, e.error@),
        }
    }
}

impl Record {
    /// Convenience constructor for error records.
    pub fn new_error(version: u32, err: CrateError) -> (r: Self)
        ensures
            r@ matches RecordV::Error(v, e) && v == version && e == err@,
    {
        Record::Error(Error { required: Common::new(version), error: err })
    }
}

/// A record kind wrapping one serializable payload; which variant is chosen
/// follows the given kind marker.
pub enum RecordKind<R> {
    StreamStart,
    StreamEnd,
    Header(R),
    Data(R),
    Log(R),
    Error(R),
}

impl<R> RecordKind<R> {
    /// Wrap `record` in the variant that `mkr` stands for; the payload is
    /// dropped for the sentinels.
    pub fn new<M: Marker<Marker = KindMarker>>(mkr: M, record: R) -> (r: Self)
        ensures
            match mkr.spec_marker() {
                KindMarker::StreamStart => r is StreamStart,
                KindMarker::StreamEnd => r is StreamEnd,
                KindMarker::Header => r matches RecordKind::Header(x) && x == record,
                KindMarker::Data => r matches RecordKind::Data(x) && x == record,
                KindMarker::Log => r matches RecordKind::Log(x) && x == record,
                KindMarker::Error => r matches RecordKind::Error(x) && x == record,
            },
    {
        match mkr.as_marker() {
            KindMarker::StreamStart => RecordKind::StreamStart,
            KindMarker::StreamEnd => RecordKind::StreamEnd,
            KindMarker::Header => RecordKind::Header(record),
            KindMarker::Data => RecordKind::Data(record),
            KindMarker::Error => RecordKind::Error(record),
            KindMarker::Log => RecordKind::Log(record),
        }
    }
}

} // verus!
