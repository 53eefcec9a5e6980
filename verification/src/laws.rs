//! What the library promises of its operations, stated over what goes in and
//! what comes out.

pub mod batches;
pub mod counting;
pub mod devices;
pub mod digits;
pub mod ending;
pub mod finding;
pub mod keys;
pub mod matches;
pub mod messages;
pub mod shader;
pub mod standing;
pub mod supply;
