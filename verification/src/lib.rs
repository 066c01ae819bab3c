//! Core of a JavaScript runtime: a copying garbage-collected heap with
//! rooted handles, a tagged value representation, an open-addressed
//! property table with ECMAScript attribute semantics, scope-chain
//! objects, and the entry points a bytecode interpreter and native
//! functions build on.

pub mod args;
pub mod descriptor;
pub mod errors;
pub mod hash;
pub mod heap;
pub mod jit;
pub mod name;
pub mod number;
pub mod property;
pub mod scope;
pub mod strings;
pub mod value;
