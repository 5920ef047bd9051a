//! Competition outcome modelling: scoring rules of the event formats, the
//! per-trial logic of a Monte Carlo race simulation, and the exact integer
//! bookkeeping behind its probability and histogram outputs.

pub mod events;
pub mod request;
pub mod histogram;
pub mod keys;
pub mod rank;
pub mod simulation;
pub mod chart;
pub mod dates;
pub mod samples;
