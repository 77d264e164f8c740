//! Builds a nested menu forest from a flat list of items whose parent
//! references may point forwards or backwards in the list.

pub mod builder;
pub mod menu;
pub mod laws;
