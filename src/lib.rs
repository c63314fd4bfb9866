//! A path router built on a canonical route trie.
pub mod codec;
pub mod string;
pub mod string_utility;
pub mod template;
pub mod route_node;
pub mod route_node_parse;
pub mod route_node_stringify;
pub mod route_node_merge;
pub mod route;
pub mod router;
