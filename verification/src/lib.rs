//! A schema compiler: named type aliases are lowered into a deduplicated,
//! reference-based intermediate representation.

pub mod ast;
pub mod backend;
pub mod error;
pub mod frontend;
pub mod ir;
pub mod laws;
pub mod text;
