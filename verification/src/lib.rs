//! Blockchain storage reduction with fountain codes: blocks are packed into
//! superblocks, superblocks are XOR-combined into droplets, and a peeling
//! decoder recovers the superblocks from enough droplets.
pub mod blockchain;
pub mod cli;
pub mod compact_size;
pub mod compression;
pub mod config;
pub mod decoder;
pub mod droplet;
pub mod encoder;
pub mod padded_block;
pub mod peeling;
pub mod random;
pub mod storage;
pub mod super_block;
