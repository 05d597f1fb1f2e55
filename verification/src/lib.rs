//! Dung-style argumentation frameworks that change over time.
//!
//! A framework is a directed graph of arguments and attacks. Elements marked
//! optional can be switched on and off by update lines; every applied line
//! starts a new revision. The combinatorial search for extensions is done by
//! an answer set solver outside this crate: the crate keeps the canonical
//! state, decides which edits are legal, tells the solver what to change and
//! interprets the models that come back.
pub mod argumentation_framework;
pub mod cli;
pub mod error;
pub mod framework;
pub mod generator;
pub mod input;
pub mod semantics;
pub mod text;

pub use error::Error;
