//! A small scripting-language toolchain: a byte-level tokenizer, a single-pass
//! compiler to a register bytecode, a tiered value representation and an
//! executor over a global environment, together with a few classic algorithms.

pub mod avl;
pub mod bst;
pub mod bytecode;
pub mod dp;
pub mod graph;
pub mod hello;
pub mod kmp;
pub mod lex;
pub mod minigrep;
pub mod parse;
pub mod radix;
pub mod sort;
pub mod vm;
pub mod value;
