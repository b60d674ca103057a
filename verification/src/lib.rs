//! A statement-based authorization engine.
//!
//! Policies are written as [`Statement`]s granting actions and configuration
//! values to hierarchical resources, compiled once into an immutable
//! [`Permissions`] trie, and then queried with [`Permissions::allowed_to`],
//! [`Permissions::check`], and [`Permissions::get`]. By default every action
//! is denied on every resource; statements only grant, and merging
//! permissions only widens what is allowed.

use vstd::prelude::*;

pub mod action;
pub mod encoding;
pub mod laws;
pub mod model;
pub mod permissions;
pub mod statement;

pub use action::{Action, ActionName};
pub use permissions::{AllowedActions, Data, PermissionDenied, Permissions};
pub use statement::{ActionNameList, Configuration, Identifier, ResourceName, Statement};

verus! {

} // verus!
