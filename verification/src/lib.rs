//! Verified core of a heads-up poker solver toolkit: hand evaluation,
//! showdown resolution, preflop hand classes, fixture translation for an
//! external solver, notebook-plan parsing, and the integer bookkeeping of
//! the CFR tables.

#![allow(unused_imports)]

pub mod game;
pub mod text;
pub mod cards;
pub mod eval;
pub mod showdown;
pub mod preflop;
pub mod range;
pub mod json;
pub mod translate;
pub mod notebook;
pub mod cache;
pub mod seed;
pub mod demo;
pub mod solve;
pub mod layout;
pub mod equity;
