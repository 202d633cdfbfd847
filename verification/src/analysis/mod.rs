//! Name resolution.

pub mod scope;
