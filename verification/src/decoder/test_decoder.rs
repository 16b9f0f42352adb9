//! Belief propagation (peeling) decoder for fountain-coded byte symbols of a
//! fixed size.
use std::collections::HashMap;

use vstd::prelude::*;

use crate::peeling::{
    known_part, lemma_peel_value, lemma_unknown_part_contains, lemma_unknown_part_unknown, lemma_xor_over_agree, unknown_part,
    xor_over,
};
use crate::super_block::byte_or_zero;

verus! {

broadcast use vstd::std_specs::hash::group_hash_axioms;

/// Represents a single encoded symbol and its neighbors
#[derive(Debug)]
struct EncodedSymbol {
    id: usize,
    data: Vec<u8>,
    /// Indices of source symbols it depends on
    neighbors: Vec<usize>,
}

/// Byte `j` of a symbol, as a number XOR combination works on.
pub open spec fn byte_lane(j: int) -> spec_fn(Seq<u8>) -> usize {
    |s: Seq<u8>| byte_or_zero(s, j) as usize
}

/// A symbol whose bytes are the XOR of the source symbols it names, each of
/// which is known and has `size` bytes.
pub open spec fn symbol_encodes(
    data: Seq<u8>,
    neighbors: Seq<usize>,
    src: Map<usize, Seq<u8>>,
    size: nat,
) -> bool {
    &&& data.len() == size
    &&& forall|j: int| 0 <= j < size ==> data[j] as usize == #[trigger] xor_over(byte_lane(j), src, neighbors)
    &&& forall|i: int|
        0 <= i < neighbors.len() ==> src.contains_key(#[trigger] neighbors[i]) && src[neighbors[i]].len()
            == size
}

/// Recovered symbols are the source symbols of their indices.
pub open spec fn symbols_agree(recovered: Map<usize, Seq<u8>>, src: Map<usize, Seq<u8>>) -> bool {
    forall|k: usize| #[trigger]
        recovered.contains_key(k) ==> src.contains_key(k) && recovered[k] == src[k]
}

/// The symbols of a map, by their bytes.
pub open spec fn symbol_map_view(m: Map<usize, Vec<u8>>) -> Map<usize, Seq<u8>> {
    m.map_values(|v: Vec<u8>| v@)
}

proof fn lemma_symbol_map_view(m: Map<usize, Vec<u8>>)
    ensures
        symbol_map_view(m).dom() == m.dom(),
        m.dom().finite() ==> symbol_map_view(m).len() == m.len(),
{
    assert(symbol_map_view(m).dom() =~= m.dom());
}

/// Number of symbols among the first `n` whose neighbours are all known.
pub open spec fn resolved_count(lists: Seq<Seq<usize>>, known: Set<usize>, n: int) -> nat
    decreases n,
{
    if n <= 0 {
        0
    } else {
        resolved_count(lists, known, n - 1) + if unknown_part(lists[n - 1], known).len() == 0 {
            1nat
        } else {
            0nat
        }
    }
}

/// There are `k` indices below `k`.
proof fn lemma_indices_below(k: usize)
    ensures
        Set::new(|x: usize| x < k).finite(),
        Set::new(|x: usize| x < k).len() == k,
    decreases k,
{
    if k == 0 {
        assert(Set::new(|x: usize| x < k) =~= Set::<usize>::empty());
    } else {
        let j = (k - 1) as usize;
        lemma_indices_below(j);
        assert(Set::new(|x: usize| x < k) =~= Set::new(|x: usize| x < j).insert(j));
    }
}

/// Knowing more never makes a resolved symbol unresolved; a symbol with one
/// unknown neighbour becomes resolved once that neighbour is known.
proof fn lemma_resolved_grows(
    lists: Seq<Seq<usize>>,
    k1: Set<usize>,
    k2: Set<usize>,
    n: int,
    p: int,
    u: usize,
)
    requires
        k1.subset_of(k2),
        0 <= n <= lists.len(),
    ensures
        resolved_count(lists, k1, n) <= resolved_count(lists, k2, n),
        0 <= p < n && unknown_part(lists[p], k1) == seq![u] && k2.contains(u) ==> resolved_count(
            lists,
            k1,
            n,
        ) < resolved_count(lists, k2, n),
        resolved_count(lists, k2, n) <= n,
    decreases n,
{
    if n > 0 {
        lemma_resolved_grows(lists, k1, k2, n - 1, p, u);
        let l = lists[n - 1];
        if unknown_part(l, k1).len() == 0 {
            if unknown_part(l, k2).len() != 0 {
                let x = unknown_part(l, k2)[0];
                assert(unknown_part(l, k2).contains(x));
                lemma_unknown_part_contains(l, k2, x);
                lemma_unknown_part_contains(l, k1, x);
            }
        }
        if p == n - 1 && unknown_part(l, k1) == seq![u] && k2.contains(u) {
            if unknown_part(l, k2).len() != 0 {
                let x = unknown_part(l, k2)[0];
                assert(unknown_part(l, k2).contains(x));
                lemma_unknown_part_contains(l, k2, x);
                lemma_unknown_part_contains(l, k1, x);
                assert(seq![u].contains(x));
            }
        }
    }
}

/// Belief propagation decoder for Fountain codes
pub struct TestFountainDecoder {
    /// Number of source symbols
    k: usize,
    /// Size of each symbol in bytes
    symbol_size: usize,
    /// Received encoded symbols
    encoded_symbols: Vec<EncodedSymbol>,
    /// Recovered source symbols
    recovered_symbols: HashMap<usize, Vec<u8>>,
    /// Counter for encoded symbol IDs
    symbol_counter: usize,
}

impl TestFountainDecoder {
    /// Number of source symbols.
    pub closed spec fn source_count(&self) -> usize {
        self.k
    }

    /// Size of each symbol in bytes.
    pub closed spec fn size(&self) -> usize {
        self.symbol_size
    }

    /// The received symbols' bytes.
    pub closed spec fn symbols_data(&self) -> Seq<Seq<u8>> {
        self.encoded_symbols@.map_values(|s: EncodedSymbol| s.data@)
    }

    /// The received symbols' neighbours.
    pub closed spec fn symbols_neighbors(&self) -> Seq<Seq<usize>> {
        self.encoded_symbols@.map_values(|s: EncodedSymbol| s.neighbors@)
    }

    /// The recovered source symbols, by index.
    pub closed spec fn recovered(&self) -> Map<usize, Seq<u8>> {
        symbol_map_view(self.recovered_symbols@)
    }

    /// Number of symbols received so far.
    pub closed spec fn counter(&self) -> usize {
        self.symbol_counter
    }

    /// The received symbols encode the source symbols `src`.
    pub open spec fn encodes(&self, src: Map<usize, Seq<u8>>) -> bool {
        forall|i: int|
            0 <= i < self.symbols_data().len() ==> symbol_encodes(
                #[trigger] self.symbols_data()[i],
                self.symbols_neighbors()[i],
                src,
                self.size() as nat,
            )
    }

    /// Every received and every recovered symbol has the symbol size, and,
    /// whatever source symbols the received ones encode, every recovered
    /// symbol is the source symbol of its index.
    pub open spec fn wf(&self) -> bool {
        &&& self.symbols_data().len() == self.symbols_neighbors().len()
        &&& self.symbols_data().len() <= self.counter()
        &&& forall|i: int|
            0 <= i < self.symbols_data().len() ==> (#[trigger] self.symbols_data()[i]).len()
                == self.size()
        &&& forall|k: usize| #[trigger]
            self.recovered().contains_key(k) ==> self.recovered()[k].len() == self.size()
        &&& forall|src: Map<usize, Seq<u8>>| #[trigger]
            self.encodes(src) ==> symbols_agree(self.recovered(), src)
    }

    /// No received symbol has exactly one neighbour that is not recovered.
    pub open spec fn stalled(&self) -> bool {
        forall|i: int|
            0 <= i < self.symbols_neighbors().len() ==> unknown_part(
                #[trigger] self.symbols_neighbors()[i],
                self.recovered().dom(),
            ).len() != 1
    }

    /// Create a new decoder for k source symbols of given size
    pub fn new(k: usize, symbol_size: usize) -> (r: Self)
        ensures
            r.wf(),
            r.source_count() == k,
            r.size() == symbol_size,
            r.symbols_data() == Seq::<Seq<u8>>::empty(),
            r.recovered() == Map::<usize, Seq<u8>>::empty(),
            r.counter() == 0,
    {
        let r = TestFountainDecoder {
            k,
            symbol_size,
            encoded_symbols: Vec::new(),
            recovered_symbols: HashMap::new(),
            symbol_counter: 0,
        };
        proof {
            assert(r.recovered() =~= Map::<usize, Seq<u8>>::empty());
            assert(r.symbols_data() =~= Seq::<Seq<u8>>::empty());
            assert(r.symbols_neighbors() =~= Seq::<Seq<usize>>::empty());
        }
        r
    }

    /// Add a received encoded symbol with its neighbors
    pub fn add_symbol(&mut self, neighbors: Vec<usize>, data: Vec<u8>)
        requires
            old(self).wf(),
            data@.len() == old(self).size(),
            old(self).counter() < usize::MAX,
        ensures
            final(self).wf(),
            final(self).source_count() == old(self).source_count(),
            final(self).size() == old(self).size(),
            final(self).symbols_data() == old(self).symbols_data().push(data@),
            final(self).symbols_neighbors() == old(self).symbols_neighbors().push(neighbors@),
            final(self).recovered() == old(self).recovered(),
            final(self).counter() == old(self).counter() + 1,
    {
        let ghost d = data@;
        let ghost nb = neighbors@;
        self.encoded_symbols.push(EncodedSymbol { id: self.symbol_counter, data, neighbors });
        self.symbol_counter = self.symbol_counter + 1;
        proof {
            assert(self.symbols_data() =~= old(self).symbols_data().push(d));
            assert(self.symbols_neighbors() =~= old(self).symbols_neighbors().push(nb));
            assert(self.recovered() == old(self).recovered());
            assert forall|i: int| 0 <= i < self.symbols_data().len() implies (
            #[trigger] self.symbols_data()[i]).len() == self.size() by {
                if i < old(self).symbols_data().len() {
                    assert(self.symbols_data()[i] == old(self).symbols_data()[i]);
                }
            }
            assert forall|src: Map<usize, Seq<u8>>| #[trigger] self.encodes(src) implies symbols_agree(
                self.recovered(),
                src,
            ) by {
                assert forall|i: int| 0 <= i < old(self).symbols_data().len() implies symbol_encodes(
                    #[trigger] old(self).symbols_data()[i],
                    old(self).symbols_neighbors()[i],
                    src,
                    old(self).size() as nat,
                ) by {
                    assert(self.symbols_data()[i] == old(self).symbols_data()[i]);
                    assert(self.symbols_neighbors()[i] == old(self).symbols_neighbors()[i]);
                }
                assert(old(self).encodes(src));
            }
        }
    }

    /// The bytes of symbol `i` with every recovered neighbour XOR-ed out.
    fn peel(&self, i: usize) -> (r: Vec<u8>)
        requires
            self.wf(),
            i < self.encoded_symbols@.len(),
        ensures
            r@.len() == self.size(),
            forall|j: int|
                0 <= j < self.size() ==> r@[j] as usize == (self.symbols_data()[i as int][j] as usize)
                    ^ #[trigger] xor_over(
                    byte_lane(j),
                    self.recovered(),
                    known_part(self.symbols_neighbors()[i as int], self.recovered().dom()),
                ),
    {
        let symbol = &self.encoded_symbols[i];
        let ghost data = self.symbols_data()[i as int];
        let ghost nb = self.symbols_neighbors()[i as int];
        let ghost known = self.recovered().dom();
        let ghost rec = self.recovered();
        assert(data == symbol.data@ && nb == symbol.neighbors@);
        let mut recovered = symbol.data.clone();
        proof {
            assert(recovered@ =~= data);
            assert forall|j: int| 0 <= j < data.len() implies recovered@[j] as usize == (
            data[j] as usize) ^ #[trigger] xor_over(byte_lane(j), rec, known_part(nb.take(0), known)) by {
                assert(nb.take(0) =~= Seq::<usize>::empty());
                let x = data[j] as usize;
                assert(x ^ 0usize == x) by (bit_vector);
            }
        }
        let n = symbol.neighbors.len();
        let mut k: usize = 0;
        while k < n
            invariant
                self.wf(),
                n == nb.len(),
                nb == symbol.neighbors@,
                data.len() == self.size(),
                rec == self.recovered(),
                known == rec.dom(),
                k <= n,
                recovered@.len() == data.len(),
                forall|j: int|
                    0 <= j < data.len() ==> recovered@[j] as usize == (data[j] as usize)
                        ^ #[trigger] xor_over(byte_lane(j), rec, known_part(nb.take(k as int), known)),
            decreases n - k,
        {
            let neighbor_idx = symbol.neighbors[k];
            let ghost kp = known_part(nb.take(k as int), known);
            proof {
                assert(nb.take(k + 1).drop_last() =~= nb.take(k as int));
                assert(nb.take(k + 1).last() == neighbor_idx);
                lemma_symbol_map_view(self.recovered_symbols@);
            }
            match self.recovered_symbols.get(&neighbor_idx) {
                Some(known_symbol) => {
                    let ghost before = recovered@;
                    proof {
                        assert(known.contains(neighbor_idx));
                        assert(known_part(nb.take(k + 1), known) == kp.push(neighbor_idx));
                        assert(kp.push(neighbor_idx).drop_last() =~= kp);
                        assert(rec[neighbor_idx] == known_symbol@);
                        assert(rec.contains_key(neighbor_idx));
                    }
                    let m = known_symbol.len();
                    let mut b: usize = 0;
                    while b < m
                        invariant
                            m == known_symbol@.len(),
                            m == data.len(),
                            before.len() == data.len(),
                            b <= m,
                            recovered@.len() == data.len(),
                            forall|j: int|
                                0 <= j < data.len() ==> recovered@[j] == if j < b {
                                    before[j] ^ known_symbol@[j]
                                } else {
                                    before[j]
                                },
                        decreases m - b,
                    {
                        let x = recovered[b] ^ known_symbol[b];
                        recovered.set(b, x);
                        b += 1;
                    }
                    proof {
                        assert forall|j: int| 0 <= j < data.len() implies recovered@[j] as usize == (
                        data[j] as usize) ^ #[trigger] xor_over(
                            byte_lane(j),
                            rec,
                            known_part(nb.take(k + 1), known),
                        ) by {
                            let p = before[j];
                            let q = known_symbol@[j];
                            let d0 = data[j] as usize;
                            let x0 = xor_over(byte_lane(j), rec, kp);
                            assert(p as usize == d0 ^ x0);
                            assert(byte_lane(j)(rec[neighbor_idx]) == q as usize);
                            assert(xor_over(byte_lane(j), rec, kp.push(neighbor_idx)) == x0 ^ (
                            q as usize));
                            assert((p ^ q) as usize == (p as usize) ^ (q as usize)) by (bit_vector);
                            assert((d0 ^ x0) ^ (q as usize) == d0 ^ (x0 ^ (q as usize))) by (
                            bit_vector);
                        }
                    }
                },
                None => {
                    proof {
                        assert(!known.contains(neighbor_idx));
                        assert(known_part(nb.take(k + 1), known) == kp);
                    }
                },
            }
            k += 1;
        }
        proof {
            assert(nb.take(n as int) =~= nb);
        }
        recovered
    }

    /// Decode using belief propagation (iterative message passing)
    ///
    /// Rounds go over the received symbols; a symbol with exactly one neighbour
    /// not yet recovered gives that neighbour once the recovered ones are XOR-ed
    /// out. Decoding succeeds when `k` symbols are recovered and fails when a
    /// round recovers nothing new.
    pub fn decode(&mut self) -> (r: Result<HashMap<usize, Vec<u8>>, String>)
        requires
            old(self).wf(),
            old(self).symbols_data().len() * 10 <= usize::MAX,
        ensures
            final(self).wf(),
            final(self).source_count() == old(self).source_count(),
            final(self).size() == old(self).size(),
            final(self).symbols_data() == old(self).symbols_data(),
            final(self).symbols_neighbors() == old(self).symbols_neighbors(),
            final(self).counter() == old(self).counter(),
            old(self).recovered().submap_of(final(self).recovered()),
            old(self).symbols_data().len() == 0 ==> r is Err && final(self).recovered()
                == old(self).recovered(),
            r matches Ok(m) ==> symbol_map_view(m@) == final(self).recovered()
                && final(self).recovered().len() == final(self).source_count(),
            r is Err && old(self).symbols_data().len() > 0 ==> final(self).stalled()
                && final(self).recovered().len() != final(self).source_count(),
            forall|x: usize| #[trigger]
                final(self).recovered().contains_key(x) && !old(self).recovered().contains_key(x)
                    ==> exists|i: int| 0 <= i < final(self).symbols_neighbors().len()
                    && #[trigger] final(self).symbols_neighbors()[i].contains(x),
            final(self).recovered().len() <= old(self).recovered().len() + old(self).symbols_data().len(),
            old(self).recovered().len() == old(self).source_count() && old(self).symbols_data().len() > 0
                ==> r is Ok && final(self).recovered() == old(self).recovered(),
    {
        let mut iterations: usize = 0;
        let max_iterations = self.encoded_symbols.len() * 10;
        let ghost lists = self.symbols_neighbors();
        let ghost len = lists.len() as int;
        proof {
            lemma_symbol_map_view(self.recovered_symbols@);
        }
        loop
            invariant
                self.wf(),
                self.k == old(self).k,
                self.symbol_size == old(self).symbol_size,
                self.symbol_counter == old(self).symbol_counter,
                self.encoded_symbols@ == old(self).encoded_symbols@,
                lists == self.symbols_neighbors(),
                len == lists.len(),
                max_iterations == len * 10,
                old(self).recovered().submap_of(self.recovered()),
                iterations <= max_iterations,
                iterations == 0 ==> self.recovered() == old(self).recovered(),
                iterations <= resolved_count(lists, self.recovered().dom(), len),
                forall|x: usize| #[trigger]
                    self.recovered().contains_key(x) && !old(self).recovered().contains_key(x)
                        ==> exists|i: int| 0 <= i < len && #[trigger] lists[i].contains(x),
                self.recovered().len() - old(self).recovered().len() <= resolved_count(
                    lists,
                    self.recovered().dom(),
                    len,
                ) - resolved_count(lists, old(self).recovered().dom(), len),
                self.recovered().len() <= old(self).recovered().len() + len,
                old(self).recovered().len() == self.k && len > 0 ==> iterations == 0,
            decreases max_iterations - iterations,
        {
            proof {
                lemma_symbol_map_view(self.recovered_symbols@);
                lemma_resolved_grows(lists, self.recovered().dom(), self.recovered().dom(), len, -1, 0);
            }
            iterations += 1;
            if iterations > max_iterations {
                return Err(convergence_error(max_iterations, self.recovered_symbols.len(), self.k));
            }
            if self.recovered_symbols.len() == self.k {
                let m = self.recovered_symbols.clone();
                proof {
                    assert(symbol_map_view(m@) == self.recovered());
                }
                return Ok(m);
            }
            let progress_before = self.recovered_symbols.len();
            let ghost start_known = self.recovered().dom();
            let ghost mut progressed = false;
            let n = self.encoded_symbols.len();
            let mut i: usize = 0;
            while i < n
                invariant
                    self.wf(),
                    self.k == old(self).k,
                    self.symbol_size == old(self).symbol_size,
                    self.symbol_counter == old(self).symbol_counter,
                    self.encoded_symbols@ == old(self).encoded_symbols@,
                    lists == self.symbols_neighbors(),
                    n == len,
                    len == lists.len(),
                    i <= n,
                    old(self).recovered().submap_of(self.recovered()),
                    start_known.subset_of(self.recovered().dom()),
                    start_known.finite(),
                    progress_before == start_known.len(),
                    !progressed ==> self.recovered().dom() == start_known,
                    progressed ==> self.recovered_symbols@.len() > progress_before && resolved_count(
                        lists,
                        start_known,
                        len,
                    ) < resolved_count(lists, self.recovered().dom(), len),
                    !progressed ==> forall|p: int|
                        0 <= p < i ==> unknown_part(#[trigger] lists[p], start_known).len() != 1,
                    forall|x: usize| #[trigger]
                        self.recovered().contains_key(x) && !old(self).recovered().contains_key(x)
                            ==> exists|j: int| 0 <= j < len && #[trigger] lists[j].contains(x),
                    self.recovered().len() - old(self).recovered().len() <= resolved_count(
                        lists,
                        self.recovered().dom(),
                        len,
                    ) - resolved_count(lists, old(self).recovered().dom(), len),
                    self.recovered().len() <= old(self).recovered().len() + len,
                decreases n - i,
            {
                proof {
                    lemma_symbol_map_view(self.recovered_symbols@);
                }
                let unknown = self.unknown_neighbors(i);
                if unknown.len() == 1 {
                    let unknown_idx = unknown[0];
                    proof {
                        assert(unknown@ =~= seq![unknown_idx]);
                        lemma_unknown_part_unknown(lists[i as int], self.recovered().dom());
                        assert(unknown_part(lists[i as int], self.recovered().dom())[0]
                            == unknown_idx);
                    }
                    if !self.recovered_symbols.contains_key(&unknown_idx) {
                        let recovered = self.peel(i);
                        let ghost before = self.recovered();
                        let ghost rv = recovered@;
                        let ghost pre_self = *self;
                        proof {
                            self.lemma_peel_sound(i as int, unknown_idx, rv);
                            lemma_resolved_grows(
                                lists,
                                start_known,
                                before.dom(),
                                len,
                                -1,
                                0,
                            );
                            lemma_resolved_grows(
                                lists,
                                before.dom(),
                                before.dom().insert(unknown_idx),
                                len,
                                i as int,
                                unknown_idx,
                            );
                            vstd::set_lib::lemma_len_subset(start_known, before.dom());
                        }
                        self.recovered_symbols.insert(unknown_idx, recovered);
                        proof {
                            lemma_symbol_map_view(self.recovered_symbols@);
                            assert(self.recovered() =~= before.insert(unknown_idx, rv));
                            assert(self.recovered().dom() =~= before.dom().insert(unknown_idx));
                            assert(lists[i as int].contains(unknown_idx));
                            assert forall|x: usize| #[trigger]
                                self.recovered().contains_key(x) && !old(self).recovered().contains_key(x) implies exists|j: int|
                                0 <= j < len && #[trigger] lists[j].contains(x) by {
                                if x == unknown_idx {
                                    assert(lists[i as int].contains(x));
                                } else {
                                    assert(before.contains_key(x));
                                }
                            }
                            lemma_symbol_map_view(old(self).recovered_symbols@);
                            lemma_resolved_grows(
                                lists,
                                old(self).recovered().dom(),
                                self.recovered().dom(),
                                len,
                                -1,
                                0,
                            );
                            assert(self.symbols_neighbors() == lists);
                            assert(self.symbols_data() == old(self).symbols_data());
                            assert forall|src: Map<usize, Seq<u8>>| #[trigger]
                                self.encodes(src) implies symbols_agree(self.recovered(), src) by {
                                assert(pre_self.encodes(src));
                            }
                            progressed = true;
                        }
                    }
                }
                i += 1;
            }
            proof {
                lemma_symbol_map_view(self.recovered_symbols@);
            }
            if self.recovered_symbols.len() == progress_before {
                return Err(stall_error(self.recovered_symbols.len(), self.k));
            }
        }
    }

    /// The neighbours of symbol `i` that are not recovered yet, in order.
    fn unknown_neighbors(&self, i: usize) -> (r: Vec<usize>)
        requires
            i < self.encoded_symbols@.len(),
        ensures
            r@ == unknown_part(self.symbols_neighbors()[i as int], self.recovered().dom()),
    {
        let symbol = &self.encoded_symbols[i];
        let ghost nb = self.symbols_neighbors()[i as int];
        let ghost known = self.recovered().dom();
        assert(nb == symbol.neighbors@);
        let n = symbol.neighbors.len();
        let mut unknown: Vec<usize> = Vec::new();
        let mut k: usize = 0;
        while k < n
            invariant
                n == nb.len(),
                nb == symbol.neighbors@,
                known == self.recovered().dom(),
                k <= n,
                unknown@ == unknown_part(nb.take(k as int), known),
            decreases n - k,
        {
            let neighbor_idx = symbol.neighbors[k];
            proof {
                assert(nb.take(k + 1).drop_last() =~= nb.take(k as int));
                assert(nb.take(k + 1).last() == neighbor_idx);
            }
            if !self.recovered_symbols.contains_key(&neighbor_idx) {
                unknown.push(neighbor_idx);
            }
            k += 1;
        }
        proof {
            assert(nb.take(n as int) =~= nb);
        }
        unknown
    }

    /// Recovering symbol `u` from symbol `i`, its one unknown neighbour, keeps
    /// the recovered symbols sound.
    proof fn lemma_peel_sound(&self, i: int, u: usize, value: Seq<u8>)
        requires
            self.wf(),
            0 <= i < self.symbols_data().len(),
            unknown_part(self.symbols_neighbors()[i], self.recovered().dom()) == seq![u],
            value.len() == self.size(),
            forall|j: int|
                0 <= j < self.size() ==> value[j] as usize == (self.symbols_data()[i][j] as usize)
                    ^ #[trigger] xor_over(
                    byte_lane(j),
                    self.recovered(),
                    known_part(self.symbols_neighbors()[i], self.recovered().dom()),
                ),
        ensures
            forall|src: Map<usize, Seq<u8>>| #[trigger]
                self.encodes(src) ==> symbols_agree(self.recovered().insert(u, value), src),
    {
        let data = self.symbols_data()[i];
        let nb = self.symbols_neighbors()[i];
        let rec = self.recovered();
        let known = rec.dom();
        let kp = known_part(nb, known);
        crate::peeling::lemma_known_part_known(nb, known);
        lemma_unknown_part_unknown(nb, known);
        assert(unknown_part(nb, known)[0] == u);
        let iu = choose|t: int| 0 <= t < nb.len() && nb[t] == u;
        assert forall|src: Map<usize, Seq<u8>>| #[trigger] self.encodes(src) implies symbols_agree(
            rec.insert(u, value),
            src,
        ) by {
            assert(symbol_encodes(data, nb, src, self.size() as nat));
            assert(symbols_agree(rec, src));
            assert(src.contains_key(nb[iu]));
            assert forall|j: int| 0 <= j < value.len() implies value[j] == src[u][j] by {
                lemma_peel_value(byte_lane(j), src, nb, known, u);
                lemma_xor_over_agree(byte_lane(j), rec, src, kp);
                assert(data[j] as usize == xor_over(byte_lane(j), src, nb));
            }
            assert(value =~= src[u]);
        }
    }

    /// When every recovered index is below the number of source symbols and
    /// as many symbols are recovered as there are source symbols, every
    /// source index is recovered, as its source symbol, whatever sources the
    /// received symbols encode.
    pub proof fn lemma_complete_recovery(&self, src: Map<usize, Seq<u8>>)
        requires
            self.wf(),
            self.encodes(src),
            self.recovered().len() == self.source_count(),
            forall|x: usize| #[trigger] self.recovered().contains_key(x) ==> x < self.source_count(),
        ensures
            forall|i: usize|
                i < self.source_count() ==> #[trigger] self.recovered().contains_key(i)
                    && self.recovered()[i] == src[i],
    {
        let k = self.source_count();
        let d = self.recovered().dom();
        lemma_symbol_map_view(self.recovered_symbols@);
        lemma_indices_below(k);
        assert forall|i: usize| i < k implies #[trigger] d.contains(i) by {
            if !d.contains(i) {
                let below = Set::new(|x: usize| x < k);
                assert(d.subset_of(below.remove(i)));
                vstd::set_lib::lemma_len_subset(d, below.remove(i));
            }
        }
        assert(symbols_agree(self.recovered(), src));
    }

    /// Get a recovered source symbol by index
    pub fn get_symbol(&self, index: usize) -> (r: Option<&Vec<u8>>)
        ensures
            r matches Some(v) ==> self.recovered().contains_key(index) && v@ == self.recovered()[index],
            r is None ==> !self.recovered().contains_key(index),
    {
        self.recovered_symbols.get(&index)
    }

    /// Get all recovered symbols
    pub fn get_recovered_symbols(&self) -> (r: &HashMap<usize, Vec<u8>>)
        ensures
            symbol_map_view(r@) == self.recovered(),
    {
        &self.recovered_symbols
    }

    /// Get recovery statistics: how many symbols are recovered, and of how many.
    pub fn recovery_stats(&self) -> (r: (usize, usize))
        ensures
            r.0 == self.recovered().len(),
            r.1 == self.source_count(),
    {
        proof {
            lemma_symbol_map_view(self.recovered_symbols@);
        }
        (self.recovered_symbols.len(), self.k)
    }
}

/// Formats the message for decoding that ran out of rounds.
#[verifier::external_body]
fn convergence_error(max_iterations: usize, recovered: usize, k: usize) -> String {
    format!(
        "Decoding failed to converge after {} iterations. Recovered {}/{} symbols",
        max_iterations,
        recovered,
        k
    )
}

/// Formats the message for decoding that stopped making progress.
#[verifier::external_body]
fn stall_error(recovered: usize, k: usize) -> String {
    format!("Decoding stalled. Recovered {}/{} symbols", recovered, k)
}

} // verus!
