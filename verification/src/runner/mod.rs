//! What surrounds a run: where its history comes from, what is written back,
//! how a pause is answered, and what is traced.

pub mod course;
pub mod error;
pub mod resume;
pub mod run;
pub mod trace;

pub use error::RunnerError;
pub use resume::PausedRun;
pub use run::{RunOutcome, SESSION_SCOPE_EPHEMERAL, SESSION_SCOPE_KEY};
pub use trace::JsonlTraceSink;
