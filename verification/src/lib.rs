//! Readers for AVEVA PDMS review models (RVM files), in their text and binary forms.
//!
//! Both readers fill a `ModelTree`, a `slab_tree::Tree` of `Group`s that only the library
//! builds and grows: the header at the root, the model
//! block as its first child, then group starts, primitives and group ends in file order,
//! each group's contents below it. Every number of the file is held as the bit pattern of
//! its IEEE-754 single-precision value.
pub mod error;
pub mod shapes;
pub mod names;
pub mod lex;
pub mod numbers;
pub mod parse_rvm;
pub mod tree;
pub mod document;
pub mod parse_binary;
pub mod formats;
