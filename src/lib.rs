//! Platform-independent, slash-separated virtual paths with a lexical
//! canonical form, and a map from path prefixes to values that answers
//! nearest-enclosing-ancestor queries.

pub mod assoc;
pub mod content;
pub mod laws;
pub mod lexical;
pub mod native;
pub mod path;
pub mod roundtrip;
pub mod temp;
pub mod trie;

pub use path::{resolve_path, Path, PathIterator};
pub use trie::PrefixTrie;
pub use native::{keep_trailing_sep, normalize_path};
pub use temp::temp_name;
pub use content::content_differs;
