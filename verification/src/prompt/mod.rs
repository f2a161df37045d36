//! What a provider request contains, and how it is kept within its window.

pub mod assembly;
pub mod calibration;
pub mod compact;
pub mod gateway;
pub mod projection;
pub mod prune;
pub mod sections;
pub mod tokens;

pub use assembly::{assemble, try_assemble, Prompt, PromptManifest, RunContext, SectionEntry};
pub use sections::{RequestKind, SectionId, SkillPrelude};
