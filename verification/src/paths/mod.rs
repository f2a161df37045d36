//! Names that stay one path component, paths that stay beneath a root, and
//! replacing a file without a window in which it is missing.

pub mod durable;
pub mod nofollow;
pub mod rooted;
pub mod segment;

pub use durable::DurableWriteError;
pub use rooted::{ContainmentError, DirEntry};
pub use segment::{displayed_segment, path_segment, PathSegmentError};
