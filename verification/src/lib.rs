//! Search for Ethereum addresses with a chosen hex prefix and suffix.

pub mod address;
pub mod alike;
pub mod backend;
pub mod best;
pub mod chain;
pub mod clock;
pub mod counter;
pub mod device;
pub mod entropy;
pub mod error;
pub mod events;
pub mod gpu;
pub mod hex;
pub mod hint;
pub mod judge;
pub mod launch;
pub mod laws;
pub mod matching;
pub mod metal;
pub mod outcome;
pub mod output;
pub mod pipeline;
pub mod preparation;
pub mod queue;
pub mod ring;
pub mod scalar;
pub mod search;
pub mod source;
pub mod steps;
pub mod table;
pub mod target;
pub mod text;
pub mod trace;
pub mod worker;
