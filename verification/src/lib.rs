//! A work queue for transcription jobs: producers enqueue jobs, workers claim
//! them in priority order and report a terminal outcome.
//!
//! The table of jobs is [`JobStore`]. Its operations are stated over the
//! table as a sequence of [`JobView`] values; `queue` says which rows a claim
//! takes, and `laws` holds what follows for every table.

pub mod clock;
pub mod error;
pub mod job;
pub mod laws;
pub mod queue;
pub mod status;
pub mod store;
pub mod users;

pub use crate::error::StoreError;
pub use crate::job::{JobView, TranscriptionJob, DEFAULT_MAX_ATTEMPTS};
pub use crate::status::JobStatus;
pub use crate::store::JobStore;
