//! Lossless, format-preserving editing of TOML-like configuration text.
//!
//! Text is split into tokens whose concatenation gives the text back, the
//! tokens are indexed by the tables they belong to, and a key/value line can
//! be spliced into a table without touching any other token.

pub mod editor;
pub mod error;
pub mod keyiter;
pub mod keypath;
pub mod tableix;
pub mod text;
pub mod tokenise;
pub mod value;

pub use editor::{insert_kv, make_key_token};
pub use error::{ErrorKind, SyntaxError};
pub use keyiter::{is_atomic_tok, key_token_to_string, select_significant, KeyTokenIter};
pub use keypath::{KeyPath, KeyPathComponent};
pub use tableix::{find_table, find_tables, TablePos};
pub use tokenise::{tokenise, Token, TokenType};
