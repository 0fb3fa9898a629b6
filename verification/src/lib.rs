//! Git-aware prompt status: parsing `git status --porcelain=v2 --branch`
//! output into a status model and rendering it as a prompt segment.

pub mod git;
pub mod git_laws;
pub mod render;
pub mod text;

pub use git::GitStatus;
pub use render::PromptTheme;
