pub mod config;
pub mod flag;
pub mod server;
mod text;
pub mod trie;
