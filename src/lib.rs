//! Parser for a small declarative format that describes a button board: a named
//! system with metadata and a set of folders, each holding an ordered list of
//! button labels and a behaviour mode.
//!
//! Text goes through two layers: [`grammar`] turns it into a tree of syntax
//! nodes, and [`system`] validates the tree and builds a [`System`].
pub mod grammar;
pub mod laws;
pub mod system;

pub use grammar::{line_index, parse_grammar, Expected, Node, Span, SyntaxError};
pub use system::{assemble_nodes, parse, Field, Folder, FolderMode, ParseError, System};
