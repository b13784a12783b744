//! An in-process key/value store: a mapping from string keys to byte-string
//! values, safe to share across concurrent callers, with bulk load and save
//! through a line-oriented text format ("kv file": one `<key> <value>` pair
//! per line, split on the first space).

pub mod client;
pub mod db;
pub mod errors;
pub mod file_ops;
mod table;
