//! MDBook preprocessor logic that expands short references in markdown links
//! to full paths or URLs.
//!
//! References are written `[text](prefix:value)`:
//!
//! - `adr:0042`, `docs:user/auth`, `blog:...`, `notes:...` and any configured
//!   prefix name a file through a glob pattern, and resolve to its path
//!   relative to the chapter;
//! - `gh:owner:repo:path` and `gl:owner:repo:path` resolve to GitHub and
//!   GitLab URLs, with the configured repository filling an empty owner and
//!   repository, and `issue/`, `pr/`, `mr/`, `commit/`, `blob/` shorthands
//!   expanded;
//! - `uuid:` references are looked up in a UUID index, lines `<uuid> <path>`;
//! - an unset GitHub repository may be taken from the book's git remote.

pub mod config;
pub mod error;
pub mod forge;
pub mod links;
pub mod paths;
pub mod preprocessor;
pub mod reference;
pub mod remote;
pub mod resolver;
pub mod text;
pub mod uuid_index;

pub use config::Config;
pub use error::Error;
pub use links::find_references;
pub use preprocessor::{process_chapter, process_content, Chapter, RefResolverPreprocessor};
pub use reference::Reference;
pub use resolver::ReferenceResolver;
