//! Core of an array-language runtime: shape-polymorphic transformations of
//! dense multidimensional arrays — reshape, keep, rotate, windows, find,
//! membership and lookup, pick, take, drop and select, with their exact
//! inverses — over a copy-on-write flat buffer, all behaviour stated in
//! contracts and machine-checked.

pub mod align;
pub mod array;
pub mod cow;
pub mod elem;
pub mod error;
pub mod keep;
pub mod laws;
pub mod lex;
pub mod reshape;
pub mod rotate;
pub mod search;
pub mod shape;
pub mod structure;
pub mod takedrop;
pub mod value;
pub mod windows;
