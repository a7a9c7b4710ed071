//! Demultiplexing: the per-connection table of active sub-stream ids, and
//! the routing decision for each incoming record. Records with one id are
//! only ever forwarded to that id's pipeline tasks.

use crate::pipeline::{DataChannel, LocalRecord, LocalRecordV};
use crate::text::str_eq;
use vstd::prelude::*;

verus! {

/// The first position of `id` in the table, or `-1` when absent.
pub open spec fn find_id(ids: Seq<Seq<char>>, id: Seq<char>) -> int
    decreases ids.len(),
{
    if ids.len() == 0 {
        -1
    } else if ids[0] == id {
        0
    } else {
        let r = find_id(ids.drop_first(), id);
        if r < 0 {
            -1
        } else {
            r + 1
        }
    }
}

/// `find_id` finds exactly the first entry equal to `id`.
pub proof fn lemma_find_id(ids: Seq<Seq<char>>, id: Seq<char>)
    ensures
        -1 <= find_id(ids, id) < ids.len(),
        0 <= find_id(ids, id) ==> ids[find_id(ids, id)] == id,
        (exists|k: int| 0 <= k < ids.len() && ids[k] == id) <==> 0 <= find_id(ids, id),
    decreases ids.len(),
{
    if ids.len() > 0 {
        if ids[0] == id {
        } else {
            lemma_find_id(ids.drop_first(), id);
            let r = find_id(ids.drop_first(), id);
            if 0 <= r {
                assert(ids.drop_first()[r] == ids[r + 1]);
            } else {
                if exists|k: int| 0 <= k < ids.len() && ids[k] == id {
                    let k = choose|k: int| 0 <= k < ids.len() && ids[k] == id;
                    assert(k != 0);
                    assert(ids.drop_first()[k - 1] == ids[k]);
                    assert(false);
                }
            }
        }
    }
}

/// What the demux loop does with one record.
#[derive(Debug, Clone, Copy, PartialEq, Eq, Structural)]
pub enum RouteAction {
    /// A `Start` header for a new id: spawn its pipelines, forward the header.
    NewSubstream,
    /// An `End` header for an active id: close and await its pipelines, then
    /// forward the header. Carries the table slot that was removed.
    EndSubstream(usize),
    /// A data record for the active id in this slot: forward it there.
    Forward(usize),
    /// A second `Start` for an active id: log an error, drop the record.
    DropDuplicateStart,
    /// An `End` without a matching `Start`: log an error, drop the record.
    DropOrphanEnd,
    /// A data record for an unknown id: log a warning, drop the record.
    DropUnknownData,
}

/// The routing decision: how the table of active ids changes and what
/// happens to the record.
pub open spec fn spec_route(ids: Seq<Seq<char>>, r: LocalRecordV) -> (Seq<Seq<char>>, RouteAction) {
    match r {
        LocalRecordV::Header(h) => {
            let at = find_id(ids, h.id);
            if h.cxt == crate::pipeline::HeaderContext::Start {
                if at < 0 {
                    (ids.push(h.id), RouteAction::NewSubstream)
                } else {
                    (ids, RouteAction::DropDuplicateStart)
                }
            } else {
                if at < 0 {
                    (ids, RouteAction::DropOrphanEnd)
                } else {
                    (ids.remove(at), RouteAction::EndSubstream(at as usize))
                }
            }
        },
        LocalRecordV::Data(d) => {
            let at = find_id(ids, d.id);
            if at < 0 {
                (ids, RouteAction::DropUnknownData)
            } else {
                (ids, RouteAction::Forward(at as usize))
            }
        },
    }
}

/// The demux table of one connection: the ids with an open sub-stream.
pub struct DemuxTable {
    active: Vec<String>,
}

impl DemuxTable {
    /// The active ids, in insertion order.
    pub closed spec fn ids(self) -> Seq<Seq<char>> {
        self.active@.map_values(|s: String| s@)
    }

    /// An empty table.
    pub fn new() -> (t: DemuxTable)
        ensures
            t.ids() == Seq::<Seq<char>>::empty(),
    {
        let t = DemuxTable { active: Vec::new() };
        proof {
            assert(t.ids() =~= Seq::<Seq<char>>::empty());
        }
        t
    }

    /// The first table slot holding `id`, if any.
    fn find(&self, id: &str) -> (r: Option<usize>)
        ensures
            r matches Some(i) ==> i as int == find_id(self.ids(), id@),
            r is None ==> find_id(self.ids(), id@) == -1,
    {
        let mut j: usize = 0;
        while j < self.active.len()
            invariant
                j <= self.active@.len(),
                forall|i: int| 0 <= i < j ==> (#[trigger] self.active@[i])@ != id@,
            decreases self.active@.len() - j,
        {
            if str_eq(self.active[j].as_str(), id) {
                proof {
                    lemma_find_id_prefix(self.ids(), id@, j as int);
                }
                return Some(j);
            }
            j = j + 1;
        }
        proof {
            lemma_find_id(self.ids(), id@);
            assert forall|k: int| 0 <= k < self.ids().len() implies #[trigger] self.ids()[k]
                != id@ by {
                assert(self.ids()[k] == self.active@[k]@);
            }
        }
        None
    }

    /// Route one record: update the table and say what to do with it.
    pub fn route(&mut self, r: &LocalRecord) -> (action: RouteAction)
        ensures
            (final(self).ids(), action) == spec_route(old(self).ids(), r@),
    {
        match r {
            LocalRecord::Header(h) => {
                let at = self.find(h.id.as_str());
                match h.cxt {
                    crate::pipeline::HeaderContext::Start => match at {
                        None => {
                            self.active.push(h.id.clone());
                            proof {
                                assert(self.ids() =~= old(self).ids().push(h.id@));
                            }
                            RouteAction::NewSubstream
                        },
                        Some(_) => RouteAction::DropDuplicateStart,
                    },
                    crate::pipeline::HeaderContext::End => match at {
                        None => RouteAction::DropOrphanEnd,
                        Some(i) => {
                            proof {
                                lemma_find_id(self.ids(), h.id@);
                            }
                            self.active.remove(i);
                            proof {
                                assert(self.ids() =~= old(self).ids().remove(i as int));
                            }
                            RouteAction::EndSubstream(i)
                        },
                    },
                }
            },
            LocalRecord::Data(d) => {
                let at = self.find(d.id.as_str());
                match at {
                    None => RouteAction::DropUnknownData,
                    Some(i) => RouteAction::Forward(i),
                }
            },
        }
    }
}

/// When the first `j` entries differ from `id` and entry `j` equals it,
/// `find_id` returns `j`.
proof fn lemma_find_id_prefix(ids: Seq<Seq<char>>, id: Seq<char>, j: int)
    requires
        0 <= j < ids.len(),
        ids[j] == id,
        forall|i: int| 0 <= i < j ==> #[trigger] ids[i] != id,
    ensures
        find_id(ids, id) == j,
    decreases j,
{
    if j > 0 {
        assert(forall|i: int| 0 <= i < j - 1 ==> #[trigger] ids.drop_first()[i] == ids[i + 1]);
        assert(ids.drop_first()[j - 1] == ids[j]);
        lemma_find_id_prefix(ids.drop_first(), id, j - 1);
    }
}

/// The records each pipeline receives: the fold of routing over a stream,
/// collecting `(target id, data record)` pairs.
pub open spec fn deliveries(ids: Seq<Seq<char>>, rs: Seq<LocalRecordV>) -> Seq<
    (Seq<char>, crate::pipeline::LocalDataV),
>
    decreases rs.len(),
{
    if rs.len() == 0 {
        Seq::empty()
    } else {
        let step = spec_route(ids, rs[0]);
        let here: Seq<(Seq<char>, crate::pipeline::LocalDataV)> = match rs[0] {
            LocalRecordV::Data(d) => {
                let at = find_id(ids, d.id);
                if at >= 0 {
                    seq![(ids[at], d)]
                } else {
                    Seq::empty()
                }
            },
            _ => Seq::empty(),
        };
        here + deliveries(step.0, rs.drop_first())
    }
}

/// The records among the deliveries that went to the pipeline of `id` on
/// channel `ch`, in delivery order.
pub open spec fn deliveries_for(
    dels: Seq<(Seq<char>, crate::pipeline::LocalDataV)>,
    id: Seq<char>,
    ch: DataChannel,
) -> Seq<crate::pipeline::LocalDataV>
    decreases dels.len(),
{
    if dels.len() == 0 {
        Seq::empty()
    } else {
        let here: Seq<crate::pipeline::LocalDataV> = if dels[0].0 == id && dels[0].1.cxt == ch {
            seq![dels[0].1]
        } else {
            Seq::empty()
        };
        here + deliveries_for(dels.drop_first(), id, ch)
    }
}

/// The in-order sub-sequence of the input that belongs to `(id, ch)`: its
/// data records carrying that id and channel, in input order, among those
/// arriving while the id's sub-stream is open.
pub open spec fn delivered_to(
    ids: Seq<Seq<char>>,
    rs: Seq<LocalRecordV>,
    id: Seq<char>,
    ch: DataChannel,
) -> Seq<crate::pipeline::LocalDataV>
    decreases rs.len(),
{
    if rs.len() == 0 {
        Seq::empty()
    } else {
        let step = spec_route(ids, rs[0]);
        let here: Seq<crate::pipeline::LocalDataV> = match rs[0] {
            LocalRecordV::Data(d) => if d.id == id && d.cxt == ch && find_id(ids, id) >= 0 {
                seq![d]
            } else {
                Seq::empty()
            },
            _ => Seq::empty(),
        };
        here + delivered_to(step.0, rs.drop_first(), id, ch)
    }
}

/// In-order delivery: what the router hands to the pipeline of `(id, ch)` is
/// exactly the input sub-sequence of data records with that id and channel
/// (while the id is open), in input order.
pub proof fn lemma_demux_in_order(
    ids: Seq<Seq<char>>,
    rs: Seq<LocalRecordV>,
    id: Seq<char>,
    ch: DataChannel,
)
    ensures
        deliveries_for(deliveries(ids, rs), id, ch) == delivered_to(ids, rs, id, ch),
    decreases rs.len(),
{
    if rs.len() > 0 {
        let step = spec_route(ids, rs[0]);
        let dels_rest = deliveries(step.0, rs.drop_first());
        lemma_demux_in_order(step.0, rs.drop_first(), id, ch);
        match rs[0] {
            LocalRecordV::Data(d) => {
                let at = find_id(ids, d.id);
                lemma_find_id(ids, d.id);
                if at >= 0 {
                    let p = (ids[at], d);
                    assert(deliveries(ids, rs) == seq![p] + dels_rest);
                    assert((seq![p] + dels_rest)[0] == p);
                    assert((seq![p] + dels_rest).drop_first() =~= dels_rest);
                    if d.id == id && d.cxt == ch {
                        assert(deliveries_for(deliveries(ids, rs), id, ch) =~= seq![d]
                            + deliveries_for(dels_rest, id, ch));
                    } else {
                        assert(deliveries_for(deliveries(ids, rs), id, ch) =~= deliveries_for(
                            dels_rest,
                            id,
                            ch,
                        ));
                    }
                } else {
                    assert(deliveries(ids, rs) =~= dels_rest);
                }
            },
            _ => {
                assert(deliveries(ids, rs) =~= dels_rest);
            },
        }
    }
}

/// Demux isolation: whatever the stream, every data record handed to the
/// pipelines of id `A` carries id `A`.
pub proof fn lemma_demux_isolation(ids: Seq<Seq<char>>, rs: Seq<LocalRecordV>, k: int)
    requires
        0 <= k < deliveries(ids, rs).len(),
    ensures
        deliveries(ids, rs)[k].0 == deliveries(ids, rs)[k].1.id,
    decreases rs.len(),
{
    if rs.len() > 0 {
        let step = spec_route(ids, rs[0]);
        let here: Seq<(Seq<char>, crate::pipeline::LocalDataV)> = match rs[0] {
            LocalRecordV::Data(d) => {
                let at = find_id(ids, d.id);
                if at >= 0 {
                    seq![(ids[at], d)]
                } else {
                    Seq::empty()
                }
            },
            _ => Seq::empty(),
        };
        assert(deliveries(ids, rs) == here + deliveries(step.0, rs.drop_first()));
        if k < here.len() {
            match rs[0] {
                LocalRecordV::Data(d) => {
                    lemma_find_id(ids, d.id);
                },
                _ => {},
            }
        } else {
            lemma_demux_isolation(step.0, rs.drop_first(), k - here.len());
        }
    }
}

} // verus!
