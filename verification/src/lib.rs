//! Generates Rust structures from OpenAPI 3.0 definitions: gathers the
//! schemas of a document (`parse`), lifts the complex schemas nested in
//! others out into schemas of their own (`normalize`), and writes a struct,
//! enum or type alias for each (`generate`).
pub mod model;
pub mod name_map;
pub mod text;
pub mod names;
pub mod parse;
pub mod normalize;
pub mod emit;
pub mod types;
pub mod merge;
pub mod generate;
pub mod error;
pub mod outside_types;
pub mod document;
pub mod run;
