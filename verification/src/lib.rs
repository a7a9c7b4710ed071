//! A record-stream processing library: a filter engine over a shared boolean
//! DAG with regex leaves, a join state machine that merges boundary-delimited
//! data records, the wire record model with its length-prefixed codec, and
//! the pure decision core of the stream orchestrator (session validity,
//! demux routing, operator chains, fan-out policy).

pub mod builders;
pub mod cli;
pub mod codec;
pub mod compare;
pub mod demux;
pub mod error;
pub mod filter;
pub mod join;
pub mod load;
pub mod markers;
pub mod pipeline;
pub mod record;
pub mod text;
