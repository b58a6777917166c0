//! Flattens a tree of Rust source files into one text by inlining every
//! bodyless `mod name;` declaration with the file it refers to.
//!
//! The library does no I/O. `expand` starts on the root file and answers
//! with an `Action`; whenever it asks to read a file, the caller reads it and
//! hands the text (or `None`) to `Expansion::resume`, until the flattened text
//! or an error comes back.

pub mod expand;
pub mod locate;
pub mod outline;
pub mod paths;
pub mod session;

pub use expand::{expand_with, ModDecl};
pub use locate::{chars_of, line_col_offset, locate_decls, mod_declarations, DeclError};
pub use outline::TopItem;
pub use paths::{extend_path, get_mod, mod_dir, CrateType, PathError, SrcPath};
pub use session::{expand, Action, ExpandError, Expansion, MAX_DEPTH};
