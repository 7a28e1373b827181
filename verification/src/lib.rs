//! Training byte-pair-encoding vocabularies in the `.tiktoken` format:
//! hardcoded merges for digits, white space and operators, a memory-bounded
//! reservoir of tokenized text, merge training, and loading and writing
//! vocabulary files. Every function here carries a contract checked by
//! Verus.
pub mod maps;
pub mod chunk;
pub mod hardcoded;
pub mod config;
pub mod trainer;
pub mod reservoir;
pub mod tiktoken;
pub mod warm;
pub mod output;
pub mod tokenizer;
