//! An ordered store of task records whose every mutation goes through a
//! bounded undo/redo log of reversible operations.

pub mod db;
pub mod history;
pub mod id;
pub mod ops;
pub mod selection;
pub mod ser;
pub mod tags;
pub mod tasks;
pub mod test;
