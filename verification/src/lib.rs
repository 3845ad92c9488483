//! An answer-set-programming front end and propagation engine.
//!
//! The library reads ASP programs (facts, regular rules, choice rules and
//! constraints), matches rule bodies against ground atoms, builds a
//! justification graph and runs unit propagation over a worklist.
pub mod atomdb;
pub mod engine;
pub mod graph;
pub mod parser;
pub mod program;
pub mod retejoin;
pub mod solver;
pub mod text;
