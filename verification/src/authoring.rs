//! Authoring: what a draft may still be missing before it can be played, and how a project
//! is described to its tools.
pub mod doc;
pub mod expansion;
pub mod gap_order;
pub mod library;
pub mod phrases;
pub mod project;
pub mod syntax;
