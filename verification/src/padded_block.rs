//! Block data zero-padded to a fixed length.
use vstd::prelude::*;

verus! {

/// Block data with padding
pub struct PaddedBlock {
    pub block_size: usize,
    pub data: Vec<u8>,
}

impl PaddedBlock {
    /// Pads the consensus-encoded block data with zeros up to `padding_limit` bytes.
    pub fn new(block_data: Vec<u8>, padding_limit: usize) -> (r: Self)
        requires
            block_data@.len() <= padding_limit,
        ensures
            r.block_size == block_data@.len(),
            r.data@.len() == padding_limit,
            r.data@.subrange(0, block_data@.len() as int) == block_data@,
            forall|i: int| block_data@.len() <= i < padding_limit ==> r.data@[i] == 0,
    {
        let block_size = block_data.len();
        let mut data = block_data;
        let ghost original = data@;
        while data.len() < padding_limit
            invariant
                block_size == original.len(),
                block_size <= data@.len() <= padding_limit,
                data@.subrange(0, block_size as int) == original,
                forall|i: int| block_size <= i < data@.len() ==> data@[i] == 0,
            decreases padding_limit - data@.len(),
        {
            let ghost before = data@;
            data.push(0u8);
            proof {
                assert(data@.subrange(0, block_size as int) =~= before.subrange(0, block_size as int));
            }
        }
        Self { block_size, data }
    }
}

} // verus!
