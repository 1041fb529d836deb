//! Encodes sets of domain rules into rule-set files: a succinct trie over
//! reversed domains and suffixes, keyword and regex lists, in a zlib stream
//! behind a short header.

pub mod keys;
pub mod model;
pub mod order;
pub mod parser;
pub mod srs;
pub mod succinct_set;
pub mod trie;
pub mod varint;
