//! The blockchain side of the library: checking recovered blocks against the
//! header chain, packing blocks into superblocks for compression, and the
//! decisions of restoration.
pub mod compressor;
pub mod decompressor;
pub mod headerchain;
