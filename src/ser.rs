//! Plain records that mirror the persisted shape of tasks and tags.

pub mod id;
pub mod tags;
pub mod tasks;
