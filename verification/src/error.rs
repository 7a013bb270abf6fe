//! Errors reported when a solver setup is rejected.
use vstd::prelude::*;

verus! {

/// Errors reported by the SPH setup layer.
#[derive(Debug)]
pub enum Error {
    /// The solver configuration was rejected; the message says which rule it breaks.
    InvalidConfig(String),
    /// The particle data was rejected; the message says which rule it breaks.
    InvalidParticles(String),
}

/// `Ok` value or the setup error that prevented it.
pub type Result<T> = core::result::Result<T, Error>;

/// The configuration error whose message is `message`.
pub open spec fn is_config_error(error: Error, message: Seq<char>) -> bool {
    error matches Error::InvalidConfig(text) && text@ == message
}

/// The particle error whose message is `message`.
pub open spec fn is_particle_error(error: Error, message: Seq<char>) -> bool {
    error matches Error::InvalidParticles(text) && text@ == message
}

} // verus!
