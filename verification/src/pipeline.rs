//! The per-connection pipeline pieces: the local record form with its
//! context invariant, the session validity check, the join operator that
//! merges boundary-delimited data records, the filter operator, and the
//! fan-out policy for lagging loaders.

use crate::error::CrateError;
use crate::join::JoinSet;
use crate::markers;
use crate::record;
use vstd::prelude::*;

verus! {

// ---------------------------------------------------------------------------
// Local records
// ---------------------------------------------------------------------------

/// The context of a header record: it starts or ends a sub-stream.
#[derive(Debug, Clone, Copy, PartialEq, Eq, Structural)]
pub enum HeaderContext {
    Start,
    End,
}

/// The channel a data record belongs to.
#[derive(Debug, Clone, Copy, PartialEq, Eq, Structural)]
pub enum DataChannel {
    Stdout,
    Stderr,
}

/// A header record in local form: its context is known to be a lifecycle tag.
pub struct Header {
    pub version: u32,
    pub time: i64,
    pub id: String,
    pub pid: u32,
    pub cxt: HeaderContext,
}

/// A data record in local form: its context is known to be an output channel.
pub struct Data {
    pub version: u32,
    pub time: i64,
    pub id: String,
    pub pid: u32,
    pub cxt: DataChannel,
    pub data: String,
}

/// Spec-level local header.
pub struct LocalHeaderV {
    pub version: u32,
    pub time: i64,
    pub id: Seq<char>,
    pub pid: u32,
    pub cxt: HeaderContext,
}

/// Spec-level local data record.
pub struct LocalDataV {
    pub version: u32,
    pub time: i64,
    pub id: Seq<char>,
    pub pid: u32,
    pub cxt: DataChannel,
    pub data: Seq<char>,
}

impl View for Header {
    type V = LocalHeaderV;

    open spec fn view(&self) -> LocalHeaderV {
        LocalHeaderV {
            version: self.version,
            time: self.time,
            id: self.id@,
            pid: self.pid,
            cxt: self.cxt,
        }
    }
}

impl View for Data {
    type V = LocalDataV;

    open spec fn view(&self) -> LocalDataV {
        LocalDataV {
            version: self.version,
            time: self.time,
            id: self.id@,
            pid: self.pid,
            cxt: self.cxt,
            data: self.data@,
        }
    }
}

/// A record the pipeline operates on: a header or a data line.
pub enum LocalRecord {
    Header(Header),
    Data(Data),
}

/// Spec-level local record.
pub enum LocalRecordV {
    Header(LocalHeaderV),
    Data(LocalDataV),
}

impl View for LocalRecord {
    type V = LocalRecordV;

    open spec fn view(&self) -> LocalRecordV {
        match self {
            LocalRecord::Header(h) => LocalRecordV::Header(h@),
            LocalRecord::Data(d) => LocalRecordV::Data(d@),
        }
    }
}

impl Header {
    /// Convert a wire header, enforcing that its context is a lifecycle tag;
    /// any other context is a record error.
    pub fn try_from_wire(h: record::Header) -> (r: Result<Header, CrateError>)
        ensures
            r is Ok <==> (h@.cxt == markers::DataContext::Start || h@.cxt
                == markers::DataContext::End),
            r matches Ok(out) ==> out@ == (LocalHeaderV {
                version: h@.version,
                time: h@.time,
                id: h@.id,
                pid: h@.pid,
                cxt: if h@.cxt == markers::DataContext::Start {
                    HeaderContext::Start
                } else {
                    HeaderContext::End
                },
            }),
            r matches Err(e) ==> (*e.inner) matches crate::error::ErrKind::InvalidRecordContext {
                invalid,
                ..
            } && invalid == h@.cxt,
    {
        let cxt = match h.cxt {
            markers::DataContext::Start => HeaderContext::Start,
            markers::DataContext::End => HeaderContext::End,
            other => {
                let mut expected: Vec<markers::DataContext> = Vec::new();
                expected.push(markers::DataContext::Start);
                expected.push(markers::DataContext::End);
                return Err(CrateError::err_invalid_record(other, &expected));
            },
        };
        Ok(Header { version: h.required.version, time: h.time, id: h.id, pid: h.pid, cxt })
    }
}

impl Data {
    /// Convert a wire data record, enforcing that its context is an output
    /// channel; any other context is a record error.
    pub fn try_from_wire(d: record::Data) -> (r: Result<Data, CrateError>)
        ensures
            r is Ok <==> (d@.cxt == markers::DataContext::Stdout || d@.cxt
                == markers::DataContext::Stderr),
            r matches Ok(out) ==> out@ == (LocalDataV {
                version: d@.version,
                time: d@.time,
                id: d@.id,
                pid: d@.pid,
                cxt: if d@.cxt == markers::DataContext::Stdout {
                    DataChannel::Stdout
                } else {
                    DataChannel::Stderr
                },
                data: d@.data,
            }),
            r matches Err(e) ==> (*e.inner) matches crate::error::ErrKind::InvalidRecordContext {
                invalid,
                ..
            } && invalid == d@.cxt,
    {
        let cxt = match d.cxt {
            markers::DataContext::Stdout => DataChannel::Stdout,
            markers::DataContext::Stderr => DataChannel::Stderr,
            other => {
                let mut expected: Vec<markers::DataContext> = Vec::new();
                expected.push(markers::DataContext::Stdout);
                expected.push(markers::DataContext::Stderr);
                return Err(CrateError::err_invalid_record(other, &expected));
            },
        };
        Ok(
            Data {
                version: d.required.version,
                time: d.time,
                id: d.id,
                pid: d.pid,
                cxt,
                data: d.data,
            },
        )
    }
}

impl LocalRecord {
    /// Back to the wire form.
    pub fn into_wire(self) -> (r: record::Record)
        ensures
            self@ matches LocalRecordV::Header(h) ==> r@ matches record::RecordV::Header(w) && w
                == (record::HeaderV {
                version: h.version,
                time: h.time,
                id: h.id,
                pid: h.pid,
                cxt: if h.cxt == HeaderContext::Start {
                    markers::DataContext::Start
                } else {
                    markers::DataContext::End
                },
            }),
            self@ matches LocalRecordV::Data(d) ==> r@ matches record::RecordV::Data(w) && w == (
            record::DataV {
                version: d.version,
                time: d.time,
                id: d.id,
                pid: d.pid,
                cxt: if d.cxt == DataChannel::Stdout {
                    markers::DataContext::Stdout
                } else {
                    markers::DataContext::Stderr
                },
                data: d.data,
            }),
    {
        match self {
            LocalRecord::Header(h) => record::Record::Header(
                record::Header {
                    required: record::Common { version: h.version },
                    time: h.time,
                    id: h.id,
                    pid: h.pid,
                    cxt: match h.cxt {
                        HeaderContext::Start => markers::DataContext::Start,
                        HeaderContext::End => markers::DataContext::End,
                    },
                },
            ),
            LocalRecord::Data(d) => record::Record::Data(
                record::Data {
                    required: record::Common { version: d.version },
                    time: d.time,
                    id: d.id,
                    pid: d.pid,
                    cxt: match d.cxt {
                        DataChannel::Stdout => markers::DataContext::Stdout,
                        DataChannel::Stderr => markers::DataContext::Stderr,
                    },
                    data: d.data,
                },
            ),
        }
    }
}

// ---------------------------------------------------------------------------
// Session validity
// ---------------------------------------------------------------------------

/// Where the session check stands.
#[derive(Debug, Clone, Copy, PartialEq, Eq, Structural)]
pub enum GateState {
    /// Nothing seen yet: only `StreamStart` may come.
    AwaitFirst,
    /// Inside the session: anything but a second `StreamStart`.
    Open,
    /// `StreamEnd` seen: nothing may follow.
    Closed,
    /// A violation was found; the connection is terminated.
    Rejected,
}

/// One step of the session check: whether this record is accepted, and the
/// next state.
/// The first record must be `StreamStart`, nothing may follow `StreamEnd`,
/// and a second `StreamStart` is a violation.
pub open spec fn spec_gate_step(st: GateState, r: record::RecordV) -> (GateState, bool) {
    match st {
        GateState::AwaitFirst => if r is StreamStart {
            (GateState::Open, true)
        } else {
            (GateState::Rejected, false)
        },
        GateState::Open => match r {
            record::RecordV::StreamStart => (GateState::Rejected, false),
            record::RecordV::StreamEnd => (GateState::Closed, true),
            _ => (GateState::Open, true),
        },
        GateState::Closed => (GateState::Rejected, false),
        GateState::Rejected => (GateState::Rejected, false),
    }
}

/// The verdicts over a whole stream.
pub open spec fn gate_outputs(st: GateState, rs: Seq<record::RecordV>) -> Seq<bool>
    decreases rs.len(),
{
    if rs.len() == 0 {
        Seq::empty()
    } else {
        let step = spec_gate_step(st, rs[0]);
        seq![step.1] + gate_outputs(step.0, rs.drop_first())
    }
}

/// The session validity state of one connection.
pub struct SessionGate {
    state: GateState,
}

impl SessionGate {
    /// The current state.
    pub closed spec fn state(self) -> GateState {
        self.state
    }

    /// A fresh session check, awaiting the first record.
    pub fn new() -> (g: SessionGate)
        ensures
            g.state() == GateState::AwaitFirst,
    {
        SessionGate { state: GateState::AwaitFirst }
    }

    /// Check one record; false means the record is refused and the
    /// connection is to be terminated.
    pub fn accept(&mut self, r: &record::Record) -> (ok: bool)
        ensures
            (final(self).state(), ok) == spec_gate_step(old(self).state(), r@),
    {
        let (next, ok): (GateState, bool) = match self.state {
            GateState::AwaitFirst => match r {
                record::Record::StreamStart => (GateState::Open, true),
                _ => (GateState::Rejected, false),
            },
            GateState::Open => match r {
                record::Record::StreamStart => (GateState::Rejected, false),
                record::Record::StreamEnd => (GateState::Closed, true),
                _ => (GateState::Open, true),
            },
            GateState::Closed => (GateState::Rejected, false),
            GateState::Rejected => (GateState::Rejected, false),
        };
        self.state = next;
        ok
    }
}

/// There is one verdict per record.
pub proof fn lemma_gate_outputs_len(st: GateState, rs: Seq<record::RecordV>)
    ensures
        gate_outputs(st, rs).len() == rs.len(),
    decreases rs.len(),
{
    if rs.len() > 0 {
        lemma_gate_outputs_len(spec_gate_step(st, rs[0]).0, rs.drop_first());
    }
}

/// A rejected session never accepts anything again.
pub proof fn lemma_gate_rejected_forever(rs: Seq<record::RecordV>, i: int)
    requires
        0 <= i < rs.len(),
    ensures
        !gate_outputs(GateState::Rejected, rs)[i],
    decreases i,
{
    let step = spec_gate_step(GateState::Rejected, rs[0]);
    lemma_gate_outputs_len(step.0, rs.drop_first());
    assert(gate_outputs(GateState::Rejected, rs) == seq![step.1] + gate_outputs(
        step.0,
        rs.drop_first(),
    ));
    if i > 0 {
        lemma_gate_rejected_forever(rs.drop_first(), i - 1);
    }
}

/// A stream that begins with a record other than `StreamStart` is rejected:
/// its first verdict and every later one is a refusal.
pub proof fn lemma_gate_rejects_bad_first(rs: Seq<record::RecordV>, i: int)
    requires
        rs.len() > 0,
        !(rs[0] is StreamStart),
        0 <= i < rs.len(),
    ensures
        !gate_outputs(GateState::AwaitFirst, rs)[i],
{
    let step = spec_gate_step(GateState::AwaitFirst, rs[0]);
    lemma_gate_outputs_len(step.0, rs.drop_first());
    assert(gate_outputs(GateState::AwaitFirst, rs) == seq![step.1] + gate_outputs(
        step.0,
        rs.drop_first(),
    ));
    if i > 0 {
        lemma_gate_rejected_forever(rs.drop_first(), i - 1);
    }
}

/// Every record after an accepted `StreamEnd` is rejected.
pub proof fn lemma_gate_rejects_after_end(rs: Seq<record::RecordV>, i: int)
    requires
        0 <= i < rs.len(),
    ensures
        !gate_outputs(GateState::Closed, rs)[i],
{
    let step = spec_gate_step(GateState::Closed, rs[0]);
    lemma_gate_outputs_len(step.0, rs.drop_first());
    assert(gate_outputs(GateState::Closed, rs) == seq![step.1] + gate_outputs(
        step.0,
        rs.drop_first(),
    ));
    if i > 0 {
        lemma_gate_rejected_forever(rs.drop_first(), i - 1);
    }
}

// ---------------------------------------------------------------------------
// The join operator
// ---------------------------------------------------------------------------

/// Merge the text of a following group member onto the accumulator: a
/// newline, then the new text. The merged record keeps the first record's
/// metadata.
pub open spec fn merged_data(acc: LocalDataV, d: LocalDataV) -> LocalDataV {
    LocalDataV {
        version: acc.version,
        time: acc.time,
        id: acc.id,
        pid: acc.pid,
        cxt: acc.cxt,
        data: acc.data + "\n"@ + d.data,
    }
}

/// One step of the join operator on a data record, from the machine state
/// and the optional accumulator:
/// - no group open, record not joining: the record passes through;
/// - no group open, record joins: it opens the group and nothing is emitted;
/// - group open, record joins: its text is appended to the accumulator;
/// - group open, record does not join: the merged record is emitted,
///   followed by this record as-is.
pub open spec fn spec_join_push(
    set: JoinSet,
    awaiting: bool,
    acc: Option<LocalDataV>,
    d: LocalDataV,
) -> (bool, Option<LocalDataV>, Seq<LocalDataV>) {
    let step = set.spec_step(awaiting, d.data);
    let aw2 = step.0;
    let sj = step.1;
    match acc {
        None => if sj {
            (aw2, Some(d), Seq::empty())
        } else {
            (aw2, None, seq![d])
        },
        Some(a) => if sj {
            (aw2, Some(merged_data(a, d)), Seq::empty())
        } else {
            (aw2, None, seq![a, d])
        },
    }
}

/// The join operator over one substream: the per-task `JoinHandle` state and
/// the accumulator for the ongoing merged group.
pub struct JoinPipe<'j> {
    handle: crate::join::JoinSetHandle<'j>,
    ongoing: Option<Data>,
}

impl<'j> JoinPipe<'j> {
    /// The join set this pipe runs.
    pub closed spec fn parent(self) -> JoinSet {
        self.handle.parent()
    }

    /// Whether the machine awaits a start match.
    pub closed spec fn awaiting(self) -> bool {
        self.handle.awaiting()
    }

    /// The accumulator of the ongoing group.
    pub closed spec fn acc(self) -> Option<LocalDataV> {
        match self.ongoing {
            Some(d) => Some(d@),
            None => None,
        }
    }

    /// A fresh pipe over the shared join set.
    pub fn new(set: &'j JoinSet) -> (p: JoinPipe<'j>)
        ensures
            p.parent() == *set,
            p.awaiting(),
            p.acc() is None,
    {
        JoinPipe { handle: set.new_handle(), ongoing: None }
    }

    /// Feed one data record through the join; returns what is emitted now,
    /// in order.
    pub fn push(&mut self, d: Data) -> (out: Vec<Data>)
        requires
            old(self).parent().wf(),
        ensures
            final(self).parent() == old(self).parent(),
            ({
                let step = spec_join_push(old(self).parent(), old(self).awaiting(), old(self).acc(), d@);
                &&& final(self).awaiting() == step.0
                &&& final(self).acc() == step.1
                &&& out@.map_values(|x: Data| x@) == step.2
            }),
    {
        let sj = self.handle.should_join(d.data.as_str());
        let mut out: Vec<Data> = Vec::new();
        if self.ongoing.is_some() {
            if sj {
                let mut acc = self.ongoing.take().unwrap();
                acc.data.append("\n");
                acc.data.append(d.data.as_str());
                self.ongoing = Some(acc);
            } else {
                let acc = self.ongoing.take().unwrap();
                out.push(acc);
                out.push(d);
            }
        } else {
            if sj {
                self.ongoing = Some(d);
            } else {
                out.push(d);
            }
        }
        proof {
            let step = spec_join_push(old(self).parent(), old(self).awaiting(), old(self).acc(), d@);
            assert(out@.map_values(|x: Data| x@) =~= step.2);
        }
        out
    }

    /// End of the substream: an unterminated group is dropped, as the
    /// stream's close discards an accumulator that never saw its boundary.
    pub fn close(self) -> (out: Vec<Data>)
        ensures
            out@.len() == 0,
    {
        Vec::new()
    }
}

// ---------------------------------------------------------------------------
// The filter operator
// ---------------------------------------------------------------------------

/// The filter operator's decision for one data record: headers always pass,
/// a data record passes exactly when the named filter matches its payload.
pub fn filter_keeps(set: &crate::filter::FilterSet, name: &str, d: &Data) -> (keep: bool)
    requires
        set.wf(),
        set.has_name(name@),
    ensures
        keep == set.spec_is_match(name@, d@.data),
{
    set.is_match_with(name, d.data.as_str())
}

// ---------------------------------------------------------------------------
// Output multiplexing
// ---------------------------------------------------------------------------

/// What the output stage is handed: a record to forward downstream, or the
/// end of the session.
pub enum MuxEvent {
    Forward(record::Record),
    Close,
}

/// Spec-level mux event.
pub enum MuxEventV {
    Forward(record::RecordV),
    Close,
}

impl View for MuxEvent {
    type V = MuxEventV;

    open spec fn view(&self) -> MuxEventV {
        match self {
            MuxEvent::Forward(r) => MuxEventV::Forward(r@),
            MuxEvent::Close => MuxEventV::Close,
        }
    }
}

/// One step of the mux: what it emits and how its state moves. The first
/// event opens the stream with `StreamStart`; closing appends `StreamEnd`
/// (after an opening `StreamStart` if nothing was ever forwarded); nothing
/// is emitted after the close.
pub open spec fn spec_mux_step(started: bool, finished: bool, ev: MuxEventV) -> (
    bool,
    bool,
    Seq<record::RecordV>,
) {
    if finished {
        (started, finished, Seq::empty())
    } else {
        match ev {
            MuxEventV::Forward(r) => if started {
                (true, false, seq![r])
            } else {
                (true, false, seq![record::RecordV::StreamStart, r])
            },
            MuxEventV::Close => if started {
                (true, true, seq![record::RecordV::StreamEnd])
            } else {
                (true, true, seq![record::RecordV::StreamStart, record::RecordV::StreamEnd])
            },
        }
    }
}

/// The output multiplexer of one connection: wraps the merged record stream
/// in the session sentinels.
pub struct MuxState {
    started: bool,
    finished: bool,
}

impl MuxState {
    /// Whether `StreamStart` has been emitted.
    pub closed spec fn started(self) -> bool {
        self.started
    }

    /// Whether `StreamEnd` has been emitted.
    pub closed spec fn finished(self) -> bool {
        self.finished
    }

    /// A fresh mux that has emitted nothing.
    pub fn new() -> (m: MuxState)
        ensures
            !m.started(),
            !m.finished(),
    {
        MuxState { started: false, finished: false }
    }

    /// Feed one event; returns the records to serialize now, in order.
    pub fn step(&mut self, ev: MuxEvent) -> (out: Vec<record::Record>)
        ensures
            ({
                let step = spec_mux_step(old(self).started(), old(self).finished(), ev@);
                &&& final(self).started() == step.0
                &&& final(self).finished() == step.1
                &&& out@.map_values(|r: record::Record| r@) == step.2
            }),
    {
        let mut out: Vec<record::Record> = Vec::new();
        if !self.finished {
            if !self.started {
                out.push(record::Record::StreamStart);
                self.started = true;
            }
            match ev {
                MuxEvent::Forward(r) => {
                    out.push(r);
                },
                MuxEvent::Close => {
                    out.push(record::Record::StreamEnd);
                    self.finished = true;
                },
            }
        }
        proof {
            let step = spec_mux_step(old(self).started(), old(self).finished(), ev@);
            assert(out@.map_values(|r: record::Record| r@) =~= step.2);
        }
        out
    }
}

/// Everything the mux emits over a run, from the given state.
pub open spec fn mux_run(started: bool, finished: bool, evs: Seq<MuxEventV>) -> Seq<
    record::RecordV,
>
    decreases evs.len(),
{
    if evs.len() == 0 {
        Seq::empty()
    } else {
        let step = spec_mux_step(started, finished, evs[0]);
        step.2 + mux_run(step.0, step.1, evs.drop_first())
    }
}

/// A closed session is always bracketed: whatever events arrive, if the run
/// starts fresh and sees a close, its output begins with `StreamStart` and
/// ends with `StreamEnd`.
pub proof fn lemma_mux_brackets(evs: Seq<MuxEventV>)
    requires
        exists|i: int| 0 <= i < evs.len() && (#[trigger] evs[i]) is Close,
    ensures
        mux_run(false, false, evs).len() >= 2,
        mux_run(false, false, evs)[0] is StreamStart,
        mux_run(false, false, evs).last() is StreamEnd,
{
    let out = mux_run(false, false, evs);
    let step = spec_mux_step(false, false, evs[0]);
    match evs[0] {
        MuxEventV::Close => {
            lemma_mux_finished_silent(evs.drop_first());
            assert(out =~= seq![record::RecordV::StreamStart, record::RecordV::StreamEnd]);
        },
        MuxEventV::Forward(r) => {
            let i = choose|i: int| 0 <= i < evs.len() && (#[trigger] evs[i]) is Close;
            assert(evs.drop_first()[i - 1] is Close);
            lemma_mux_started_brackets(evs.drop_first());
            let rest = mux_run(true, false, evs.drop_first());
            assert(out == step.2 + rest);
            assert(out[0] == step.2[0]);
            assert(out.last() == rest.last());
        },
    }
}

/// From an open, unfinished state, a run that sees a close ends with
/// `StreamEnd` and emits no further sentinel start.
proof fn lemma_mux_started_brackets(evs: Seq<MuxEventV>)
    requires
        exists|i: int| 0 <= i < evs.len() && (#[trigger] evs[i]) is Close,
    ensures
        mux_run(true, false, evs).len() >= 1,
        mux_run(true, false, evs).last() is StreamEnd,
    decreases evs.len(),
{
    let step = spec_mux_step(true, false, evs[0]);
    let rest = evs.drop_first();
    match evs[0] {
        MuxEventV::Close => {
            lemma_mux_finished_silent(rest);
            assert(mux_run(true, false, evs) =~= seq![record::RecordV::StreamEnd]);
        },
        MuxEventV::Forward(r) => {
            let i = choose|i: int| 0 <= i < evs.len() && (#[trigger] evs[i]) is Close;
            assert(rest[i - 1] is Close);
            lemma_mux_started_brackets(rest);
            assert(mux_run(true, false, evs).last() == mux_run(true, false, rest).last());
        },
    }
}

/// A finished mux never emits again.
proof fn lemma_mux_finished_silent(evs: Seq<MuxEventV>)
    ensures
        mux_run(true, true, evs).len() == 0,
    decreases evs.len(),
{
    if evs.len() > 0 {
        lemma_mux_finished_silent(evs.drop_first());
        assert(mux_run(true, true, evs) =~= mux_run(true, true, evs.drop_first()));
    }
}

// ---------------------------------------------------------------------------
// Fan-out to loaders
// ---------------------------------------------------------------------------

/// What a loader task sees from the broadcast channel.
pub enum LoaderEvent {
    /// A frame to forward.
    Frame(Vec<u8>),
    /// The loader lagged and missed this many frames.
    Lagged(u64),
    /// The channel closed; the stream is over.
    Closed,
}

/// What the loader task does next.
pub enum LoaderAction {
    /// Send these bytes to the loader socket.
    Send(Vec<u8>),
    /// Log exactly one warning carrying the miss count, skip, and go on.
    WarnSkipped(u64),
    /// Finish the task.
    Stop,
}

/// Spec-level loader event.
pub enum LoaderEventV {
    Frame(Seq<u8>),
    Lagged(u64),
    Closed,
}

impl View for LoaderEvent {
    type V = LoaderEventV;

    open spec fn view(&self) -> LoaderEventV {
        match self {
            LoaderEvent::Frame(b) => LoaderEventV::Frame(b@),
            LoaderEvent::Lagged(n) => LoaderEventV::Lagged(*n),
            LoaderEvent::Closed => LoaderEventV::Closed,
        }
    }
}

/// The lag-tolerant fan-out policy: a frame is forwarded, a lag event is one
/// warning and no termination, and only closure stops the task.
pub open spec fn spec_loader_step(ev: LoaderEventV) -> LoaderActionV {
    match ev {
        LoaderEventV::Frame(b) => LoaderActionV::Send(b),
        LoaderEventV::Lagged(n) => LoaderActionV::WarnSkipped(n),
        LoaderEventV::Closed => LoaderActionV::Stop,
    }
}

/// Spec-level loader action.
pub enum LoaderActionV {
    Send(Seq<u8>),
    WarnSkipped(u64),
    Stop,
}

impl View for LoaderAction {
    type V = LoaderActionV;

    open spec fn view(&self) -> LoaderActionV {
        match self {
            LoaderAction::Send(b) => LoaderActionV::Send(b@),
            LoaderAction::WarnSkipped(n) => LoaderActionV::WarnSkipped(*n),
            LoaderAction::Stop => LoaderActionV::Stop,
        }
    }
}

/// Decide what a loader task does with one broadcast event.
pub fn loader_step(ev: LoaderEvent) -> (a: LoaderAction)
    ensures
        a@ == spec_loader_step(ev@),
{
    match ev {
        LoaderEvent::Frame(b) => LoaderAction::Send(b),
        LoaderEvent::Lagged(n) => LoaderAction::WarnSkipped(n),
        LoaderEvent::Closed => LoaderAction::Stop,
    }
}

/// The actions over a whole event sequence.
pub open spec fn loader_run(evs: Seq<LoaderEventV>) -> Seq<LoaderActionV> {
    evs.map_values(|ev: LoaderEventV| spec_loader_step(ev))
}

/// How many warnings a run logs.
pub open spec fn count_warnings(acts: Seq<LoaderActionV>) -> nat
    decreases acts.len(),
{
    if acts.len() == 0 {
        0
    } else {
        (if acts[0] is WarnSkipped {
            1nat
        } else {
            0nat
        }) + count_warnings(acts.drop_first())
    }
}

/// How many lag events a run sees.
pub open spec fn count_lags(evs: Seq<LoaderEventV>) -> nat
    decreases evs.len(),
{
    if evs.len() == 0 {
        0
    } else {
        (if evs[0] is Lagged {
            1nat
        } else {
            0nat
        }) + count_lags(evs.drop_first())
    }
}

/// Lag tolerance: a lagging loader never stops the pipeline — only closure
/// does — and the run logs exactly one warning per lag event.
pub proof fn lemma_loader_lag_tolerance(evs: Seq<LoaderEventV>)
    ensures
        count_warnings(loader_run(evs)) == count_lags(evs),
        forall|i: int|
            0 <= i < evs.len() ==> ((#[trigger] loader_run(evs)[i]) is Stop <==> evs[i] is Closed),
    decreases evs.len(),
{
    if evs.len() > 0 {
        lemma_loader_lag_tolerance(evs.drop_first());
        assert(loader_run(evs).drop_first() =~= loader_run(evs.drop_first()));
    }
}

} // verus!
