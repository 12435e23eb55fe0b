//! Chemical reaction networks: a set of named species with abundances and
//! a set of mass-action reactions over them.
//!
//! The library reads a network from its text and writes it back, keeps the
//! reactions with their net change, and holds the integer side of the
//! simulation: whether a reaction can occur, in how many ways, and what a
//! step does to the state. It computes with integers only. Rate constants
//! and real abundances are kept as the literals that the text gives, and
//! the clock as the bit pattern of a double: propensities, waiting times
//! and the integration of rate equations are left to the caller.

pub mod crn;
pub mod det;
pub mod grammar;
pub mod integer;
pub mod lex;
pub mod names;
pub mod number;
pub mod parse;
pub mod presets;
pub mod reaction;
pub mod roundtrip;
pub mod state;
pub mod sto;
pub mod text;

pub use crate::crn::{Crn, RealCrn, StoCrn};
pub use crate::number::{Abundance, Number};
pub use crate::parse::ParseError;
pub use crate::reaction::Reaction;
pub use crate::state::State;
pub use crate::sto::{Draw, Error};
