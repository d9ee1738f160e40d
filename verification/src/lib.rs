//! Language-specific test and production file analysis for Python and Rust
//! projects: file-name conventions, helper detection, import specifiers,
//! re-export discovery and the decisions that map tests to production code.

pub mod text;
pub mod paths;
pub mod lang_python;
pub mod lang_rust;
pub mod observe;
pub mod syntax;
pub mod mapping;
