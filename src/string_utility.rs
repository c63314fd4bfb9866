//! String helpers used while building the trie.
pub use crate::string::find_common_prefix_length;
pub use crate::template::parse_placeholders;
