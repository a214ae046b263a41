//! Bash-like filesystem operations over an explicit directory-tree model.
//!
//! The library keeps a model of a filesystem — which paths are files with
//! which bytes, and which paths are directories — and offers the familiar
//! shell-flavoured operations (`mkdir`, `rm`, `mv`, reading and writing
//! files, emptiness checks) on it, each with a proved contract. A host
//! application that wants the same operations against the live filesystem
//! performs the operating-system calls itself and reuses the outcome rules
//! stated here.

pub mod fs;
pub mod host;
pub mod laws;
pub mod model;
pub mod paths;
mod store;
