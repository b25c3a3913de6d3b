//! Moves filesystem entries and keeps textual references to the moved paths
//! consistent across a project tree: a rewriter substitutes every supported
//! textual form of a moved path in a file's content, a line diff groups the
//! changes into context-bounded hunks, and the operator's per-hunk decisions
//! are spliced into the final file, so that declined text is never altered
//! and no file is partially written.
pub mod command;
pub mod diff;
pub mod path;
pub mod review;
pub mod rewrite;
pub mod text;
