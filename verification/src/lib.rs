//! Secret-Santa assignment engine: builds a single gift-giving cycle over a
//! set of participants while honouring directed exclusion constraints.

pub mod exclusion;
pub mod participant;
pub mod rng;
pub mod search;
pub mod session;
