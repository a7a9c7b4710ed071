use transform::demux::{DemuxTable, RouteAction};
use transform::filter::{FilterSeed, FilterSet};
use transform::join::JoinSet;
use transform::markers::DataContext;
use transform::pipeline::{
    filter_keeps, loader_step, Data as LocalData, Header as LocalHeader, JoinPipe, LoaderAction,
    LoaderEvent, LocalRecord, MuxEvent, MuxState, SessionGate,
};
use transform::record::{Common, Data, Header, Record};

fn rx(p: &str) -> FilterSeed {
    FilterSeed::Regex(String::from(p))
}

fn header(id: &str, cxt: DataContext) -> Record {
    Record::Header(Header {
        required: Common::new(1),
        time: 0,
        id: String::from(id),
        pid: 7,
        cxt,
    })
}

fn data(id: &str, payload: &str) -> Record {
    Record::Data(Data {
        required: Common::new(1),
        time: 1,
        id: String::from(id),
        pid: 7,
        cxt: DataContext::Stdout,
        data: String::from(payload),
    })
}

fn payloads(out: &[Record]) -> Vec<String> {
    out.iter()
        .filter_map(|r| match r {
            Record::Data(d) => Some(d.data.clone()),
            _ => None,
        })
        .collect()
}

/// Drive one whole session sequentially: validity gate, conversion to the
/// local form, demux by id, the per-substream operator chain (join, then a
/// filter), and the output stream wrapped in sentinels.
fn run_session(
    filter: Option<(&FilterSet, &str)>,
    join: Option<&JoinSet>,
    input: Vec<Record>,
) -> Vec<Record> {
    let mut gate = SessionGate::new();
    let mut table = DemuxTable::new();
    let mut pipes: Vec<(JoinPipe, JoinPipe)> = Vec::new();
    let mut mux = MuxState::new();
    let mut out: Vec<Record> = Vec::new();
    let mut accepted_any = false;

    let keep = |d: &LocalData| match filter {
        Some((fs, name)) => filter_keeps(fs, name, d),
        None => true,
    };

    for r in input {
        if !gate.accept(&r) {
            break; // log error, terminate the connection
        }
        accepted_any = true;
        let local = match r {
            Record::StreamStart | Record::StreamEnd => continue, // re-added by the mux
            Record::Header(h) => match LocalHeader::try_from_wire(h) {
                Ok(h) => LocalRecord::Header(h),
                Err(_) => continue, // log warn, discard record
            },
            Record::Data(d) => match LocalData::try_from_wire(d) {
                Ok(d) => LocalRecord::Data(d),
                Err(_) => continue,
            },
            _ => continue, // log info, discard other kinds
        };
        match table.route(&local) {
            RouteAction::NewSubstream => {
                if let Some(js) = join {
                    pipes.push((JoinPipe::new(js), JoinPipe::new(js)));
                }
                out.extend(mux.step(MuxEvent::Forward(local.into_wire())));
            }
            RouteAction::EndSubstream(i) => {
                if join.is_some() {
                    let (o, e) = pipes.remove(i);
                    o.close();
                    e.close();
                }
                out.extend(mux.step(MuxEvent::Forward(local.into_wire())));
            }
            RouteAction::Forward(i) => {
                if let LocalRecord::Data(d) = local {
                    let emitted = match join {
                        Some(_) => {
                            let pipe = if d.cxt == transform::pipeline::DataChannel::Stdout {
                                &mut pipes[i].0
                            } else {
                                &mut pipes[i].1
                            };
                            pipe.push(d)
                        }
                        None => vec![d],
                    };
                    for d in emitted {
                        if keep(&d) {
                            out.extend(mux.step(MuxEvent::Forward(LocalRecord::Data(d).into_wire())));
                        }
                    }
                }
            }
            RouteAction::DropDuplicateStart
            | RouteAction::DropOrphanEnd
            | RouteAction::DropUnknownData => {}
        }
    }
    if !accepted_any {
        return Vec::new();
    }
    out.extend(mux.step(MuxEvent::Close));
    out
}

fn eq_records(a: &[Record], b: &[Record]) -> bool {
    if a.len() != b.len() {
        return false;
    }
    a.iter().zip(b.iter()).all(|(x, y)| {
        let xb = transform::codec::encode_record(x);
        let yb = transform::codec::encode_record(y);
        xb == yb
    })
}

#[test]
fn simple_passthrough() {
    let fs = FilterSet::try_new(vec![(String::from("accept"), vec![rx(".*")])]).unwrap();
    let input = vec![
        Record::StreamStart,
        header("x", DataContext::Start),
        data("x", "hello"),
        header("x", DataContext::End),
        Record::StreamEnd,
    ];
    let out = run_session(Some((&fs, "accept")), None, input.clone());
    assert!(eq_records(&out, &input));
}

#[test]
fn filter_drops_non_matches() {
    let fs = FilterSet::try_new(vec![(String::from("digits"), vec![rx("^\\d+$")])]).unwrap();
    let input = vec![
        Record::StreamStart,
        header("x", DataContext::Start),
        data("x", "abc"),
        data("x", "123"),
        data("x", "xyz"),
        header("x", DataContext::End),
        Record::StreamEnd,
    ];
    let out = run_session(Some((&fs, "digits")), None, input);
    assert_eq!(payloads(&out), vec!["123"]);
    // bracketing headers preserved
    assert!(matches!(&out[1], Record::Header(h) if h.cxt == DataContext::Start));
    assert!(matches!(&out[3], Record::Header(h) if h.cxt == DataContext::End));
}

#[test]
fn start_end_join_merges() {
    let js = JoinSet::new_filter(Some(vec![rx("^BEGIN")]), None, Some(vec![rx("^END")])).unwrap();
    let input = vec![
        Record::StreamStart,
        header("x", DataContext::Start),
        data("x", "noise"),
        data("x", "BEGIN foo"),
        data("x", "middle"),
        data("x", "END bar"),
        data("x", "trailing"),
        header("x", DataContext::End),
        Record::StreamEnd,
    ];
    let out = run_session(None, Some(&js), input);
    assert_eq!(payloads(&out), vec!["noise", "BEGIN foo\nmiddle\nEND bar", "trailing"]);
}

#[test]
fn while_join_merges() {
    let js = JoinSet::new_filter(None, Some(vec![rx("^\\s")]), None).unwrap();
    let input = vec![
        Record::StreamStart,
        header("x", DataContext::Start),
        data("x", "a"),
        data("x", " b"),
        data("x", " c"),
        data("x", "d"),
        header("x", DataContext::End),
        Record::StreamEnd,
    ];
    let out = run_session(None, Some(&js), input);
    assert_eq!(payloads(&out), vec!["a", " b\n c", "d"]);
}

#[test]
fn sentinel_violation_rejects_stream() {
    let input = vec![data("x", "first"), Record::StreamStart, data("x", "second")];
    let out = run_session(None, None, input);
    assert!(out.is_empty());
}

#[test]
fn record_after_stream_end_is_rejected() {
    let mut gate = SessionGate::new();
    assert!(gate.accept(&Record::StreamStart));
    assert!(gate.accept(&data("x", "fine")));
    assert!(gate.accept(&Record::StreamEnd));
    assert!(!gate.accept(&data("x", "late")));
    assert!(!gate.accept(&Record::StreamEnd));
}

#[test]
fn second_stream_start_is_rejected() {
    let mut gate = SessionGate::new();
    assert!(gate.accept(&Record::StreamStart));
    assert!(!gate.accept(&Record::StreamStart));
}

#[test]
fn interleaved_ids_are_demuxed_independently() {
    let input = vec![
        Record::StreamStart,
        header("A", DataContext::Start),
        header("B", DataContext::Start),
        data("A", "a1"),
        data("B", "b1"),
        data("A", "a2"),
        data("B", "b2"),
        header("A", DataContext::End),
        header("B", DataContext::End),
        Record::StreamEnd,
    ];
    let out = run_session(None, None, input);
    let per_id = |id: &str| -> Vec<String> {
        out.iter()
            .filter_map(|r| match r {
                Record::Data(d) if d.id == id => Some(d.data.clone()),
                _ => None,
            })
            .collect()
    };
    // within one id the order is preserved
    assert_eq!(per_id("A"), vec!["a1", "a2"]);
    assert_eq!(per_id("B"), vec!["b1", "b2"]);
    // cross-id ordering follows arrival of the headers
    let kinds: Vec<String> = out
        .iter()
        .map(|r| match r {
            Record::StreamStart => String::from("ss"),
            Record::StreamEnd => String::from("se"),
            Record::Header(h) => format!("h:{}", h.id),
            Record::Data(d) => format!("d:{}", d.id),
            _ => String::from("?"),
        })
        .collect();
    assert_eq!(
        kinds,
        vec!["ss", "h:A", "h:B", "d:A", "d:B", "d:A", "d:B", "h:A", "h:B", "se"]
    );
}

#[test]
fn data_for_unknown_id_is_dropped() {
    let input = vec![
        Record::StreamStart,
        data("ghost", "nope"),
        header("x", DataContext::Start),
        data("x", "yes"),
        header("x", DataContext::End),
        Record::StreamEnd,
    ];
    let out = run_session(None, None, input);
    assert_eq!(payloads(&out), vec!["yes"]);
}

#[test]
fn loader_lag_logs_one_warning_per_lag_event_and_continues() {
    let events = vec![
        LoaderEvent::Frame(vec![1, 2]),
        LoaderEvent::Lagged(3),
        LoaderEvent::Frame(vec![4]),
        LoaderEvent::Lagged(9),
        LoaderEvent::Closed,
    ];
    let mut warnings = 0;
    let mut stopped = 0;
    let mut sent = 0;
    for ev in events {
        match loader_step(ev) {
            LoaderAction::Send(_) => sent += 1,
            LoaderAction::WarnSkipped(n) => {
                assert!(n == 3 || n == 9);
                warnings += 1;
            }
            LoaderAction::Stop => stopped += 1,
        }
    }
    assert_eq!(sent, 2);
    assert_eq!(warnings, 2);
    assert_eq!(stopped, 1);
}


#[test]
fn valid_but_empty_session_is_still_bracketed() {
    // a session that forwards no records still produces the two sentinels
    let input = vec![Record::StreamStart, Record::StreamEnd];
    let out = run_session(None, None, input);
    assert_eq!(out.len(), 2);
    assert!(matches!(out[0], Record::StreamStart));
    assert!(matches!(out[1], Record::StreamEnd));
}

#[test]
fn mux_emits_nothing_after_close() {
    let mut mux = MuxState::new();
    let first = mux.step(MuxEvent::Forward(data("x", "a")));
    assert_eq!(first.len(), 2);
    assert!(matches!(first[0], Record::StreamStart));
    let closing = mux.step(MuxEvent::Close);
    assert_eq!(closing.len(), 1);
    assert!(matches!(closing[0], Record::StreamEnd));
    assert!(mux.step(MuxEvent::Forward(data("x", "b"))).is_empty());
    assert!(mux.step(MuxEvent::Close).is_empty());
}
