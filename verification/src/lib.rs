//! Log triage at ingest: page only on logs that matter.
use vstd::prelude::*;

pub mod alert;
pub mod cache;
pub mod eval;
pub mod ingest;
pub mod jev;
pub mod json;
pub mod judge;
pub mod metrics;
pub mod order;
pub mod pattern;
pub mod pipeline;
pub mod route;
pub mod serve;
pub mod template;
pub mod text;

verus! {

/// The program's name, as it signs its messages.
pub const NAME: &'static str = "tocsin";

} // verus!
