//! Persisted shape of tags and tag templates.

use vstd::prelude::*;

use crate::ser::id::Id as IdT;

verus! {

/// The marker type that distinguishes template identifiers.
#[derive(Clone, Copy, Debug, PartialEq, Eq)]
pub struct T(());

/// A persisted tag template identifier.
pub type Id = IdT<T>;

/// A persisted tag: a reference to a template by its identifier.
#[derive(Clone, Copy, Debug, PartialEq, Eq)]
pub struct Tag {
    pub id: Id,
}

/// A persisted tag template: an identifier and a name.
#[derive(Clone, Debug, PartialEq)]
pub struct Template {
    pub id: Id,
    pub name: String,
}

/// A persisted list of tag templates.
#[derive(Clone, Debug, Default, PartialEq)]
pub struct Templates(pub Vec<Template>);

} // verus!
