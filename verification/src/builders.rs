//! Builders for the records a producer emits: contextual items gathered
//! early (id, pid, version) seed a header or data builder, which is then
//! completed field by field and turned into a wire record once done.

use crate::markers::{DataContext, Marker, TagMarker};
use crate::record;
use vstd::prelude::*;

verus! {

/// Contextual information for interpreting associated data.
#[derive(Debug, Clone, Copy, PartialEq, Eq, Structural)]
pub enum Directive {
    Begin,
    Stdout,
    Stderr,
    End,
}

impl Directive {
    /// The wire context tag this directive stands for.
    pub fn as_context(self) -> (r: DataContext)
        ensures
            r == spec_directive_context(self),
    {
        match self {
            Directive::Begin => DataContext::Start,
            Directive::Stdout => DataContext::Stdout,
            Directive::Stderr => DataContext::Stderr,
            Directive::End => DataContext::End,
        }
    }
}

/// The wire context tag of a directive.
pub open spec fn spec_directive_context(d: Directive) -> DataContext {
    match d {
        Directive::Begin => DataContext::Start,
        Directive::Stdout => DataContext::Stdout,
        Directive::Stderr => DataContext::Stderr,
        Directive::End => DataContext::End,
    }
}

/// One unit of gathered output context.
pub enum Item {
    Version(u32),
    Tag(Directive),
    Time(i64),
    Id(String),
    Pid(u32),
    Data(String),
}

impl Marker for Item {
    type Marker = TagMarker;

    open spec fn spec_marker(&self) -> TagMarker {
        match self {
            Item::Version(_) => TagMarker::Version,
            Item::Tag(_) => TagMarker::DataContext,
            Item::Time(_) => TagMarker::Time,
            Item::Id(_) => TagMarker::Id,
            Item::Pid(_) => TagMarker::Pid,
            Item::Data(_) => TagMarker::Data,
        }
    }

    fn as_marker(&self) -> (r: TagMarker)
        ensures
            r == self.spec_marker(),
    {
        match self {
            Item::Version(_) => TagMarker::Version,
            Item::Tag(_) => TagMarker::DataContext,
            Item::Time(_) => TagMarker::Time,
            Item::Id(_) => TagMarker::Id,
            Item::Pid(_) => TagMarker::Pid,
            Item::Data(_) => TagMarker::Data,
        }
    }
}

/// Container for the relevant context that is gathered before any output.
pub struct OutputContext {
    inner: Vec<Item>,
}

impl OutputContext {
    /// The gathered items, in order.
    pub closed spec fn spec_items(self) -> Seq<Item> {
        self.inner@
    }

    pub fn new() -> (r: Self)
        ensures
            r.spec_items() == Seq::<Item>::empty(),
    {
        OutputContext { inner: Vec::new() }
    }

    pub fn insert_id(&mut self, id: &str)
        ensures
            final(self).spec_items().len() == old(self).spec_items().len() + 1,
            final(self).spec_items().drop_last() == old(self).spec_items(),
            final(self).spec_items().last() matches Item::Id(s) && s@ == id@,
    {
        self.inner.push(Item::Id(id.to_owned()));
        proof {
            assert(self.inner@.drop_last() =~= old(self).spec_items());
        }
    }

    pub fn insert_pid(&mut self, pid: u32)
        ensures
            final(self).spec_items() == old(self).spec_items().push(Item::Pid(pid)),
    {
        self.inner.push(Item::Pid(pid));
    }

    pub fn insert_version(&mut self, version: u32)
        ensures
            final(self).spec_items() == old(self).spec_items().push(Item::Version(version)),
    {
        self.inner.push(Item::Version(version));
    }

    /// Read access to the gathered items.
    pub fn items(&self) -> (r: &Vec<Item>)
        ensures
            r@ == self.spec_items(),
    {
        &self.inner
    }
}

/// A partial header record; complete once every field is present.
pub struct HeaderBuilder {
    pub version: Option<u32>,
    pub tag: Option<DataContext>,
    pub time: Option<i64>,
    pub id: Option<String>,
    pub pid: Option<u32>,
}

/// Fold context items into a header builder: later items win.
pub open spec fn spec_hb_fold(items: Seq<Item>) -> HeaderBuilder
    decreases items.len(),
{
    if items.len() == 0 {
        HeaderBuilder { version: None, tag: None, time: None, id: None, pid: None }
    } else {
        let b = spec_hb_fold(items.drop_last());
        match items.last() {
            Item::Version(v) => HeaderBuilder { version: Some(v), ..b },
            Item::Tag(d) => HeaderBuilder { tag: Some(spec_directive_context(d)), ..b },
            Item::Time(t) => HeaderBuilder { time: Some(t), ..b },
            Item::Id(s) => HeaderBuilder { id: Some(s), ..b },
            Item::Pid(p) => HeaderBuilder { pid: Some(p), ..b },
            Item::Data(_) => b,
        }
    }
}

impl HeaderBuilder {
    /// Whether every field of the header is present.
    pub open spec fn spec_done(self) -> bool {
        self.version is Some && self.tag is Some && self.time is Some && self.id is Some
            && self.pid is Some
    }

    /// An empty builder, or one seeded from the gathered context.
    pub fn new(cxt: Option<&OutputContext>) -> (r: Self)
        ensures
            r == (match cxt {
                Some(c) => spec_hb_fold(c.spec_items()),
                None => HeaderBuilder {
                    version: None,
                    tag: None,
                    time: None,
                    id: None,
                    pid: None,
                },
            }),
    {
        match cxt {
            None => HeaderBuilder { version: None, tag: None, time: None, id: None, pid: None },
            Some(c) => Self::from_context(c),
        }
    }

    /// Seed a builder from the gathered context items, in order.
    pub fn from_context(cxt: &OutputContext) -> (r: Self)
        ensures
            r == spec_hb_fold(cxt.spec_items()),
    {
        let items = cxt.items();
        let mut b = HeaderBuilder { version: None, tag: None, time: None, id: None, pid: None };
        let mut k: usize = 0;
        while k < items.len()
            invariant
                items@ == cxt.spec_items(),
                k <= items@.len(),
                b == spec_hb_fold(items@.subrange(0, k as int)),
            decreases items@.len() - k,
        {
            let ghost pre = items@.subrange(0, k as int);
            match &items[k] {
                Item::Version(v) => {
                    b.version = Some(*v);
                },
                Item::Tag(d) => {
                    b.tag = Some(d.as_context());
                },
                Item::Time(t) => {
                    b.time = Some(*t);
                },
                Item::Id(s) => {
                    b.id = Some(s.clone());
                },
                Item::Pid(p) => {
                    b.pid = Some(*p);
                },
                Item::Data(_) => {},
            }
            k = k + 1;
            proof {
                assert(items@.subrange(0, k as int).drop_last() =~= pre);
                assert(items@.subrange(0, k as int).last() == items@[k - 1]);
            }
        }
        proof {
            assert(items@.subrange(0, items@.len() as int) =~= items@);
        }
        b
    }

    /// Whether every field is present.
    pub fn is_done(&self) -> (r: bool)
        ensures
            r == self.spec_done(),
    {
        self.version.is_some() && self.tag.is_some() && self.time.is_some() && self.id.is_some()
            && self.pid.is_some()
    }

    /// Apply one completion step by value.
    pub fn map<F: FnOnce(Self) -> Self>(self, f: F) -> (r: Self)
        requires
            call_requires(f, (self,)),
        ensures
            call_ensures(f, (self,), r),
    {
        f(self)
    }

    /// Apply one completion step and hand the builder back.
    pub fn and<F: FnOnce(Self) -> Self>(self, f: F) -> (r: Self)
        requires
            call_requires(f, (self,)),
        ensures
            call_ensures(f, (self,), r),
    {
        f(self)
    }

    /// Set the context tag.
    pub fn tag(&mut self, tag: Directive)
        ensures
            *final(self) == (HeaderBuilder {
                tag: Some(spec_directive_context(tag)),
                ..*old(self)
            }),
    {
        self.tag = Some(tag.as_context());
    }

    /// Set the timestamp.
    pub fn time(&mut self, time: i64)
        ensures
            *final(self) == (HeaderBuilder { time: Some(time), ..*old(self) }),
    {
        self.time = Some(time);
    }

    /// Turn a complete builder into a wire header record. An incomplete
    /// builder is outside the contract.
    pub fn done_unchecked(self) -> (r: record::Record)
        requires
            self.spec_done(),
        ensures
            r@ matches record::RecordV::Header(h) && h == (record::HeaderV {
                version: self.version.unwrap(),
                time: self.time.unwrap(),
                id: self.id.unwrap()@,
                pid: self.pid.unwrap(),
                cxt: self.tag.unwrap(),
            }),
    {
        let HeaderBuilder { version, tag, time, id, pid } = self;
        record::Record::Header(
            record::Header {
                required: record::Common { version: version.unwrap() },
                time: time.unwrap(),
                id: id.unwrap(),
                pid: pid.unwrap(),
                cxt: tag.unwrap(),
            },
        )
    }
}

/// A partial data record; complete once every field is present.
pub struct DataBuilder {
    pub version: Option<u32>,
    pub tag: Option<DataContext>,
    pub time: Option<i64>,
    pub id: Option<String>,
    pub pid: Option<u32>,
    pub data: Option<String>,
}

/// Fold context items into a data builder: later items win.
pub open spec fn spec_db_fold(items: Seq<Item>) -> DataBuilder
    decreases items.len(),
{
    if items.len() == 0 {
        DataBuilder { version: None, tag: None, time: None, id: None, pid: None, data: None }
    } else {
        let b = spec_db_fold(items.drop_last());
        match items.last() {
            Item::Version(v) => DataBuilder { version: Some(v), ..b },
            Item::Tag(d) => DataBuilder { tag: Some(spec_directive_context(d)), ..b },
            Item::Time(t) => DataBuilder { time: Some(t), ..b },
            Item::Id(s) => DataBuilder { id: Some(s), ..b },
            Item::Pid(p) => DataBuilder { pid: Some(p), ..b },
            Item::Data(s) => DataBuilder { data: Some(s), ..b },
        }
    }
}

impl DataBuilder {
    /// Whether every field of the data record is present.
    pub open spec fn spec_done(self) -> bool {
        self.version is Some && self.tag is Some && self.time is Some && self.id is Some
            && self.pid is Some && self.data is Some
    }

    /// An empty builder, or one seeded from the gathered context.
    pub fn new(cxt: Option<&OutputContext>) -> (r: Self)
        ensures
            r == (match cxt {
                Some(c) => spec_db_fold(c.spec_items()),
                None => DataBuilder {
                    version: None,
                    tag: None,
                    time: None,
                    id: None,
                    pid: None,
                    data: None,
                },
            }),
    {
        match cxt {
            None => DataBuilder {
                version: None,
                tag: None,
                time: None,
                id: None,
                pid: None,
                data: None,
            },
            Some(c) => Self::from_context(c),
        }
    }

    /// Seed a builder from the gathered context items, in order.
    pub fn from_context(cxt: &OutputContext) -> (r: Self)
        ensures
            r == spec_db_fold(cxt.spec_items()),
    {
        let items = cxt.items();
        let mut b = DataBuilder {
            version: None,
            tag: None,
            time: None,
            id: None,
            pid: None,
            data: None,
        };
        let mut k: usize = 0;
        while k < items.len()
            invariant
                items@ == cxt.spec_items(),
                k <= items@.len(),
                b == spec_db_fold(items@.subrange(0, k as int)),
            decreases items@.len() - k,
        {
            let ghost pre = items@.subrange(0, k as int);
            match &items[k] {
                Item::Version(v) => {
                    b.version = Some(*v);
                },
                Item::Tag(d) => {
                    b.tag = Some(d.as_context());
                },
                Item::Time(t) => {
                    b.time = Some(*t);
                },
                Item::Id(s) => {
                    b.id = Some(s.clone());
                },
                Item::Pid(p) => {
                    b.pid = Some(*p);
                },
                Item::Data(s) => {
                    b.data = Some(s.clone());
                },
            }
            k = k + 1;
            proof {
                assert(items@.subrange(0, k as int).drop_last() =~= pre);
                assert(items@.subrange(0, k as int).last() == items@[k - 1]);
            }
        }
        proof {
            assert(items@.subrange(0, items@.len() as int) =~= items@);
        }
        b
    }

    /// Apply one completion step by value.
    pub fn map<F: FnOnce(Self) -> Self>(self, f: F) -> (r: Self)
        requires
            call_requires(f, (self,)),
        ensures
            call_ensures(f, (self,), r),
    {
        f(self)
    }

    /// Apply one completion step and hand the builder back.
    pub fn and<F: FnOnce(Self) -> Self>(self, f: F) -> (r: Self)
        requires
            call_requires(f, (self,)),
        ensures
            call_ensures(f, (self,), r),
    {
        f(self)
    }

    /// Set the context tag.
    pub fn tag(&mut self, tag: Directive)
        ensures
            *final(self) == (DataBuilder { tag: Some(spec_directive_context(tag)), ..*old(self) }),
    {
        self.tag = Some(tag.as_context());
    }

    /// Set the timestamp.
    pub fn time(&mut self, time: i64)
        ensures
            *final(self) == (DataBuilder { time: Some(time), ..*old(self) }),
    {
        self.time = Some(time);
    }

    /// Set the payload line.
    pub fn data(&mut self, data: &str)
        ensures
            final(self).version == old(self).version,
            final(self).tag == old(self).tag,
            final(self).time == old(self).time,
            final(self).id == old(self).id,
            final(self).pid == old(self).pid,
            final(self).data matches Some(s) && s@ == data@,
    {
        self.data = Some(data.to_owned());
    }

    /// Whether every field is present.
    pub fn is_done(&self) -> (r: bool)
        ensures
            r == self.spec_done(),
    {
        self.version.is_some() && self.tag.is_some() && self.time.is_some() && self.id.is_some()
            && self.pid.is_some() && self.data.is_some()
    }

    /// Turn a complete builder into a wire data record. An incomplete
    /// builder is outside the contract.
    pub fn done_unchecked(self) -> (r: record::Record)
        requires
            self.spec_done(),
        ensures
            r@ matches record::RecordV::Data(d) && d == (record::DataV {
                version: self.version.unwrap(),
                time: self.time.unwrap(),
                id: self.id.unwrap()@,
                pid: self.pid.unwrap(),
                cxt: self.tag.unwrap(),
                data: self.data.unwrap()@,
            }),
    {
        let DataBuilder { version, tag, time, id, pid, data } = self;
        record::Record::Data(
            record::Data {
                required: record::Common { version: version.unwrap() },
                time: time.unwrap(),
                id: id.unwrap(),
                pid: pid.unwrap(),
                cxt: tag.unwrap(),
                data: data.unwrap(),
            },
        )
    }
}

} // verus!
