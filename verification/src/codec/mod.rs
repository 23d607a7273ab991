//! The text of a snapshot: how the records of a store are written down, and
//! how they are read back.

pub mod chars;
pub mod decimal;
pub mod frame;
pub mod records;
pub mod snapshot;
