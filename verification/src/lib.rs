//! Core of a local-first encrypted-document workspace.
//!
//! Files and folders are converted between plaintext and an authenticated
//! encryption container, and the set of currently open items is tracked as a
//! stable, renameable tree independent of filesystem paths.

pub mod envelope;
pub mod errors;
pub mod items;
pub mod keys;
pub mod notes;
pub mod paths;
pub mod state;
