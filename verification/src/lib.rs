//! Time tracking core: records of tasks, projects and tags, the lifecycle of a
//! task, lookup by identifier and name, the text of a snapshot, and the
//! reconciliation of a local task store with a remote copy.
//!
//! Every function is verified against its contract. What is taken on trust
//! from chrono, uuid and std is marked where it stands: in `time`, `ident`
//! and `codec::chars`.

pub mod category;
pub mod codec;
pub mod commands;
pub mod edit;
pub mod entity;
pub mod error;
pub mod ident;
pub mod index;
pub mod laws;
pub mod merge;
pub mod store;
pub mod sync;
pub mod task;
pub mod time;
