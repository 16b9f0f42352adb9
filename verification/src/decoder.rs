//! Decoders that recover superblocks (or plain symbols) from droplets.
pub mod dummy_decoder;
pub mod fountain_decoder;
pub mod test_decoder;
