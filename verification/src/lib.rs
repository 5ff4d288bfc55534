//! Staff rostering by adaptive large neighbourhood search (ALNS): the roster
//! model and its penalties, the destroy and repair operators, the initial
//! roster, and the acceptance and scoring rules of the search.
pub mod alns;
pub mod operators;
pub mod random;
pub mod structs;
pub mod utils;
