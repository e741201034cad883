//! The richer message model: as `wire`, but with the source segment parsed
//! into a structured sender identity.

pub mod wire;
