//! Offset assignment for memory buffers with known lifetimes.

pub mod algo;
pub mod analyze;
pub mod clock;
pub mod helpe;
pub mod ingest;
pub mod instance;
pub mod job;
pub mod jobset;
pub mod laws;
pub mod model;
pub mod strips;

pub use crate::clock::{timer_end, timer_start, Clock};
pub use crate::instance::{Info, Instance};
pub use crate::job::{BoxIds, ByteSteps, Job, JobSet};
