//! A text-driven generative rewriting engine.
//!
//! An L-system is a set of rewrite rules over symbols together with a few
//! rendering parameters.  This crate parses the textual definition of such a
//! system and expands a starting word lazily into a bounded stream of symbols
//! or of structural drawing events.

pub mod symbol;
pub mod rules;
pub mod frame;
pub mod expansion;
pub mod events;
pub mod text;
pub mod combinator;
pub mod outcome;
pub mod config;
pub mod system;
pub mod grammar;
pub mod render;
