//! Front end and incremental module graph for the adroit language.
//!
//! The library lexes and parses module sources, keeps one node per module
//! identity, and schedules fetching and type checking of modules so that a
//! module is only checked once every module it imports has been checked.

pub mod lex;
pub mod parse;
pub mod graph;
pub mod resolve;
pub mod driver;
pub mod laws;

