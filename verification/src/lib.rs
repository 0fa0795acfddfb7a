//! Lookup of words in MDict (`.mdx`) dictionaries.

pub mod bytes;
pub mod cipher;
pub mod codec;
pub mod lang;
pub mod mdict;
pub mod text;
pub mod parser;
pub mod registry;
pub mod browse;
pub mod cache;
pub mod render;

pub use mdict::{Mdx, Record};
pub use parser::parse;
