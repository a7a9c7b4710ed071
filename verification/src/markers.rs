//! Wire-level tag markers: the small numeric keys of a serialized record map,
//! the record-kind discriminants, and the context tag of header/data records.

use vstd::prelude::*;

verus! {

/// Provides a simple abstraction for de/serializing objects based on a
/// foreign object.
pub trait Marker {
    type Marker: Clone + Copy + Sync + Send;

    /// What `as_marker` returns.
    spec fn spec_marker(&self) -> Self::Marker;

    fn as_marker(&self) -> (r: Self::Marker)
        ensures
            r == self.spec_marker(),
    ;
}

/// For marker enums with a stable numeric wire representation.
pub trait Repr: Marker {
    fn repr_u8(&self) -> u32;
}

/// Marker for the keys of a serialized record; keys are unique per object.
#[derive(Debug, Clone, Copy, PartialEq, Eq, Structural)]
pub enum TagMarker {
    DataContext,
    Version,
    Time,
    Id,
    Pid,
    Data,
    Utf8Data,
    Error,
}

/// The stable numeric wire id of a record-map key.
pub open spec fn spec_tag_value(t: TagMarker) -> u32 {
    match t {
        TagMarker::DataContext => 0,
        TagMarker::Version => 1,
        TagMarker::Time => 2,
        TagMarker::Id => 3,
        TagMarker::Pid => 4,
        TagMarker::Data => 5,
        TagMarker::Utf8Data => 6,
        TagMarker::Error => 7,
    }
}

impl Marker for TagMarker {
    type Marker = TagMarker;

    open spec fn spec_marker(&self) -> TagMarker {
        *self
    }

    fn as_marker(&self) -> (r: Self::Marker)
        ensures
            r == *self,
    {
        *self
    }
}

impl Repr for TagMarker {
    fn repr_u8(&self) -> (r: u32)
        ensures
            r == spec_tag_value(*self),
    {
        match self {
            TagMarker::DataContext => 0,
            TagMarker::Version => 1,
            TagMarker::Time => 2,
            TagMarker::Id => 3,
            TagMarker::Pid => 4,
            TagMarker::Data => 5,
            TagMarker::Utf8Data => 6,
            TagMarker::Error => 7,
        }
    }
}

/// Marker for what kind of record the de/serializer is expecting.
#[derive(Debug, Clone, Copy, PartialEq, Eq, Structural)]
pub enum KindMarker {
    StreamStart,
    StreamEnd,
    Header,
    Data,
    Log,
    Error,
}

/// The stable numeric wire id of a record kind.
pub open spec fn spec_kind_value(k: KindMarker) -> u32 {
    match k {
        KindMarker::StreamStart => 0,
        KindMarker::StreamEnd => 1,
        KindMarker::Header => 2,
        KindMarker::Data => 3,
        KindMarker::Log => 4,
        KindMarker::Error => 5,
    }
}

impl Marker for KindMarker {
    type Marker = KindMarker;

    open spec fn spec_marker(&self) -> KindMarker {
        *self
    }

    fn as_marker(&self) -> (r: Self::Marker)
        ensures
            r == *self,
    {
        *self
    }
}

impl Repr for KindMarker {
    fn repr_u8(&self) -> (r: u32)
        ensures
            r == spec_kind_value(*self),
    {
        match self {
            KindMarker::StreamStart => 0,
            KindMarker::StreamEnd => 1,
            KindMarker::Header => 2,
            KindMarker::Data => 3,
            KindMarker::Log => 4,
            KindMarker::Error => 5,
        }
    }
}

/// Marker for the context field present in header and data records.
#[derive(Debug, Clone, Copy, PartialEq, Eq, Structural)]
pub enum DataContext {
    Start,
    Stdout,
    Stderr,
    End,
}

/// The stable numeric wire id of a context tag.
pub open spec fn spec_context_value(c: DataContext) -> u32 {
    match c {
        DataContext::Start => 0,
        DataContext::Stdout => 1,
        DataContext::Stderr => 2,
        DataContext::End => 3,
    }
}

impl Marker for DataContext {
    type Marker = DataContext;

    open spec fn spec_marker(&self) -> DataContext {
        *self
    }

    fn as_marker(&self) -> (r: Self::Marker)
        ensures
            r == *self,
    {
        *self
    }
}

impl Repr for DataContext {
    fn repr_u8(&self) -> (r: u32)
        ensures
            r == spec_context_value(*self),
    {
        match self {
            DataContext::Start => 0,
            DataContext::Stdout => 1,
            DataContext::Stderr => 2,
            DataContext::End => 3,
        }
    }
}

} // verus!
