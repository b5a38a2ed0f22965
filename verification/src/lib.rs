//! A small git object store: object encoding and decoding, tree listing,
//! commit construction and the decisions of the command-line front end.

pub mod digest;
pub mod encoding;
pub mod kind;
pub mod objects;
pub mod text;
pub mod tree;
pub mod cat;
pub mod commit;
pub mod repo;
pub mod index;
pub mod cli;
pub mod laws;
