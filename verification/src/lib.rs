//! Deterministic rollback netcode core: a frame-locked simulation that stays
//! bit-for-bit identical across peers by exchanging per-player inputs,
//! predicting the inputs that have not arrived yet, and rewinding to a stored
//! snapshot and re-simulating once a prediction turns out wrong.

pub mod bytes;
pub mod codec;
pub mod input;
pub mod session;
pub mod sim;
pub mod snapshot;
pub mod sync;
pub mod wire;
