//! Reduces a complete truth table to one minimized sum of products per output.
//!
//! Rows whose output is set give minterms; adjacent cubes are merged level by level
//! into prime implicants; a cover is chosen from those (essential implicants first, then
//! greedily, then without redundant terms). Every step is verified: each equation is true
//! on exactly the rows whose output is set.

pub mod bit;
pub mod cover;
pub mod equation;
pub mod gray;
pub mod implicant;
pub mod ingest;
pub mod table;
pub mod term;
