//! Authorization resolution engine for an administrative console.
//!
//! The engine computes, from a snapshot of the permission store
//! (users, roles, menus and their two association relations), the set of
//! backend API paths an operator may invoke and the pruned, completed menu
//! tree shown to them; it issues and verifies the signed bearer tokens that
//! carry that permission set; and it enforces the reserved-identifier rules
//! that protect the built-in superadmin account and role.

pub mod b64;
pub mod claims;
pub mod errors;
pub mod gate;
pub mod guard;
pub mod login;
pub mod model;
pub mod resolver;
pub mod token;
pub mod tree;
