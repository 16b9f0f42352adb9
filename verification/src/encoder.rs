//! Encoders that turn the superblocks of an epoch into droplets.
pub mod dummy_encoder;
pub mod fountain_encoder;
