//! A line-preserving model of key/value environment files, with the
//! reconciliation algorithms that keep a family of such files consistent:
//! missing-key detection, guarded batch application of changes, structural
//! reordering against a reference file, and layered variable resolution.
//!
//! File contents come in and go out as plain strings; reading and writing
//! files, printing, and process handling are left to the caller.

pub mod apply;
pub mod cli;
pub mod envfile;
pub mod reconcile;
pub mod resolve;
pub mod text;
