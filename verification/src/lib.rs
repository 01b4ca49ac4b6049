//! Luck: a small language of intent graphs, its registry of node kinds,
//! parsing, presentation syntax, constrained decoding, a traversal
//! scheduler, and the IDEF0 modelling layer built on top of it.

pub mod text;

pub mod keyed_map;
pub mod registry;
pub mod lexer;
pub mod digest;
pub mod parser;
pub mod decoding;
pub mod surface;
pub mod idef0;
pub mod icom;
pub mod scheduler;
pub mod presentation;
pub mod roundtrip;
pub mod interview;
pub mod verify;
pub mod validation;
