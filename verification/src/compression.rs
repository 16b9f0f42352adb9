//! Fountain encoding of plain byte symbols.
use rand::rngs::ThreadRng;

use vstd::prelude::*;

use crate::decoder::test_decoder::byte_lane;
use crate::peeling::xor_over;
use crate::random::{distinct, random_distinct};

verus! {

/// The symbols of a list, by index.
pub open spec fn symbols_by_index(symbols: Seq<Vec<u8>>) -> Map<usize, Seq<u8>> {
    Map::new(|i: usize| i < symbols.len(), |i: usize| symbols[i as int]@)
}

/// Fountain code encoder over byte symbols. The degree of each encoded symbol
/// is drawn by the caller (the robust soliton distribution uses floating
/// point).
pub struct FountainEncoder {
    /// Number of source symbols (ie. blocks in our case)
    k: usize,
    /// Source data
    source_symbols: Vec<Vec<u8>>,
}

impl FountainEncoder {
    /// The source symbols.
    pub closed spec fn sources(&self) -> Seq<Vec<u8>> {
        self.source_symbols@
    }

    pub fn new(source_symbols: Vec<Vec<u8>>) -> (r: Self)
        ensures
            r.sources() == source_symbols@,
    {
        let k = source_symbols.len();
        Self { k, source_symbols }
    }

    /// Generate an encoded symbol (repair symbol) by XORing `degree` random
    /// source symbols: gives the chosen source indices and the encoded bytes,
    /// as long as the first source symbol.
    pub fn generate_symbol(&self, degree: usize, rng: &mut ThreadRng) -> (r: (Vec<usize>, Vec<u8>))
        requires
            self.sources().len() > 0,
            degree <= self.sources().len(),
            forall|i: int|
                0 <= i < self.sources().len() ==> (#[trigger] self.sources()[i])@.len()
                    <= self.sources()[0]@.len(),
        ensures
            r.0@.len() == degree,
            distinct(r.0@),
            forall|i: int| 0 <= i < r.0@.len() ==> r.0@[i] < self.sources().len(),
            r.1@.len() == self.sources()[0]@.len(),
            forall|j: int|
                0 <= j < r.1@.len() ==> r.1@[j] as usize == #[trigger] xor_over(
                    byte_lane(j),
                    symbols_by_index(self.sources()),
                    r.0@,
                ),
    {
        let neighbors = random_distinct(rng, self.source_symbols.len(), degree);
        let ghost src = symbols_by_index(self.sources());
        let symbol_len = self.source_symbols[0].len();
        let mut encoded: Vec<u8> = Vec::with_capacity(symbol_len);
        let mut z: usize = 0;
        while z < symbol_len
            invariant
                z <= symbol_len,
                encoded@.len() == z,
                forall|j: int| 0 <= j < z ==> encoded@[j] == 0,
            decreases symbol_len - z,
        {
            encoded.push(0u8);
            z += 1;
        }
        let mut t: usize = 0;
        while t < neighbors.len()
            invariant
                forall|i: int|
                    0 <= i < self.sources().len() ==> (#[trigger] self.sources()[i])@.len()
                        <= symbol_len,
                forall|i: int| 0 <= i < neighbors@.len() ==> neighbors@[i] < self.source_symbols@.len(),
                src == symbols_by_index(self.sources()),
                t <= neighbors@.len(),
                encoded@.len() == symbol_len,
                forall|j: int|
                    0 <= j < symbol_len ==> encoded@[j] as usize == #[trigger] xor_over(
                        byte_lane(j),
                        src,
                        neighbors@.take(t as int),
                    ),
            decreases neighbors@.len() - t,
        {
            let neighbor = neighbors[t];
            let symbol = &self.source_symbols[neighbor];
            let ghost before = encoded@;
            let m = symbol.len();
            let mut b: usize = 0;
            while b < m
                invariant
                    m == symbol@.len(),
                    m <= symbol_len,
                    b <= m,
                    encoded@.len() == symbol_len,
                    before.len() == symbol_len,
                    forall|j: int|
                        0 <= j < symbol_len ==> encoded@[j] == if j < b {
                            before[j] ^ symbol@[j]
                        } else {
                            before[j]
                        },
                decreases m - b,
            {
                let x = encoded[b] ^ symbol[b];
                encoded.set(b, x);
                b += 1;
            }
            proof {
                assert(neighbors@.take(t + 1).drop_last() =~= neighbors@.take(t as int));
                assert(neighbors@.take(t + 1).last() == neighbor);
                assert(src[neighbor] == symbol@);
                assert forall|j: int| 0 <= j < symbol_len implies encoded@[j] as usize
                    == #[trigger] xor_over(byte_lane(j), src, neighbors@.take(t + 1)) by {
                    let p = before[j];
                    let q = crate::super_block::byte_or_zero(symbol@, j);
                    let x0 = xor_over(byte_lane(j), src, neighbors@.take(t as int));
                    assert(p as usize == x0);
                    assert(byte_lane(j)(src[neighbor]) == q as usize);
                    assert(xor_over(byte_lane(j), src, neighbors@.take(t + 1)) == x0 ^ (
                    q as usize));
                    assert((p ^ q) as usize == (p as usize) ^ (q as usize)) by (bit_vector);
                    if j >= m {
                        assert(q == 0);
                        assert((p as usize) ^ 0usize == p as usize) by (bit_vector);
                    } else {
                        assert(encoded@[j] == p ^ q);
                    }
                }
            }
            t += 1;
        }
        proof {
            assert(neighbors@.take(neighbors@.len() as int) =~= neighbors@);
        }
        (neighbors, encoded)
    }
}

} // verus!
