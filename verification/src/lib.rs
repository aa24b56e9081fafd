//! `raig` is a library for working with And-Inverter Graphs (AIGs): Boolean
//! logic built only from AND nodes and inverted edges, read from and written
//! to the AIGER file format.

pub mod graph;
pub mod text;
pub mod aiger;
pub mod cli;
