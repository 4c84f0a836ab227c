pub mod trie;
pub mod trie_node;
