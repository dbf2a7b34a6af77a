//! Reference bots for the Dragapult ex deck and the decision logic around them.

#![verifier::loop_isolation(false)]

pub mod bots;
pub mod cards;
pub mod cli;
pub mod deck;
pub mod report;
pub mod rng;
pub mod session;
pub mod transport;
pub mod util;
pub mod wire;
