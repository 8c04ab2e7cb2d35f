//! Orchestration of a watch-folder media encoder: a scan of the input
//! directory, a dispatcher that keeps the number of running encoder jobs
//! within a limit, the per-job decisions around the external encoder, and a
//! progress table fed by the markers that the encoder writes to its output.
use vstd::prelude::*;

pub mod marker;
pub mod registry;
pub mod job;
pub mod schedule;

verus! {

} // verus!
