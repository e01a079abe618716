//! Generates Zorsh schema source code from Borsh schema definitions.
//!
//! A schema is a graph of named type definitions. [`parser::Parser`] resolves
//! each type name of the graph to the Zorsh code that stands for it and
//! writes out the schema and the type of every record. What resolving means
//! and what is kept on the way is defined in [`resolve`], what the generated
//! file holds in [`export`]; the parser is proved to produce exactly that.

pub mod container;
pub mod export;
pub mod laws;
pub mod model;
pub mod names;
pub mod parser;
pub mod resolve;
pub mod schema;
pub mod text;
pub mod zorsh;
