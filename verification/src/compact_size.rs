//! Bitcoin's compact-size integer encoding, as produced and consumed by the
//! `bitcoin-consensus-encoding` crate, stated as functions on byte sequences.
use vstd::prelude::*;

verus! {

/// Default limit of `CompactSizeDecoder::new()` (32 MiB).
pub const DEFAULT_VALUE_LIMIT: usize = 0x0200_0000;

/// Default element limit of the length prefix of a decoded vector.
pub const DEFAULT_VEC_LIMIT: usize = 4_000_000;

/// Little-endian bytes of the low 16 bits of `v`.
pub open spec fn le2(v: u64) -> Seq<u8> {
    seq![(v & 0xff) as u8, ((v >> 8u64) & 0xff) as u8]
}

/// Little-endian bytes of the low 32 bits of `v`.
pub open spec fn le4(v: u64) -> Seq<u8> {
    seq![
        (v & 0xff) as u8,
        ((v >> 8u64) & 0xff) as u8,
        ((v >> 16u64) & 0xff) as u8,
        ((v >> 24u64) & 0xff) as u8,
    ]
}

/// Little-endian bytes of `v`.
pub open spec fn le8(v: u64) -> Seq<u8> {
    seq![
        (v & 0xff) as u8,
        ((v >> 8u64) & 0xff) as u8,
        ((v >> 16u64) & 0xff) as u8,
        ((v >> 24u64) & 0xff) as u8,
        ((v >> 32u64) & 0xff) as u8,
        ((v >> 40u64) & 0xff) as u8,
        ((v >> 48u64) & 0xff) as u8,
        ((v >> 56u64) & 0xff) as u8,
    ]
}

/// The number read from two little-endian bytes.
pub open spec fn from_le2(b0: u8, b1: u8) -> u64 {
    (b0 as u64) | ((b1 as u64) << 8u64)
}

/// The number read from four little-endian bytes.
pub open spec fn from_le4(b0: u8, b1: u8, b2: u8, b3: u8) -> u64 {
    (b0 as u64) | ((b1 as u64) << 8u64) | ((b2 as u64) << 16u64) | ((b3 as u64) << 24u64)
}

/// The number read from eight little-endian bytes.
pub open spec fn from_le8(s: Seq<u8>) -> u64 {
    (s[0] as u64) | ((s[1] as u64) << 8u64) | ((s[2] as u64) << 16u64) | ((s[3] as u64) << 24u64)
        | ((s[4] as u64) << 32u64) | ((s[5] as u64) << 40u64) | ((s[6] as u64) << 48u64) | ((
    s[7] as u64) << 56u64)
}

/// The compact-size encoding of `v`: one byte below 0xFD, otherwise a marker
/// byte (0xFD, 0xFE, 0xFF) followed by 2, 4 or 8 little-endian bytes.
pub open spec fn compact_size_bytes(v: u64) -> Seq<u8> {
    if v <= 0xFC {
        seq![v as u8]
    } else if v <= 0xFFFF {
        seq![0xFDu8] + le2(v)
    } else if v <= 0xFFFF_FFFF {
        seq![0xFEu8] + le4(v)
    } else {
        seq![0xFFu8] + le8(v)
    }
}

/// Reads one compact-size integer from the front of `s`.
///
/// Gives the value and the number of bytes it took, or `None` when `s` is too
/// short, the encoding is not the shortest one for its value, or the value is
/// above `limit`.
#[verifier::opaque]
pub open spec fn compact_size_parse(s: Seq<u8>, limit: usize) -> Option<(usize, nat)> {
    if s.len() == 0 {
        None
    } else if s[0] < 0xFD {
        if s[0] <= limit {
            Some((s[0] as usize, 1))
        } else {
            None
        }
    } else if s[0] == 0xFD {
        if s.len() < 3 {
            None
        } else {
            let x = from_le2(s[1], s[2]);
            if x < 0xFD || x > limit {
                None
            } else {
                Some((x as usize, 3))
            }
        }
    } else if s[0] == 0xFE {
        if s.len() < 5 {
            None
        } else {
            let x = from_le4(s[1], s[2], s[3], s[4]);
            if x < 0x10000 || x > limit {
                None
            } else {
                Some((x as usize, 5))
            }
        }
    } else {
        if s.len() < 9 {
            None
        } else {
            let x = from_le8(s.subrange(1, 9));
            if x < 0x1_0000_0000 || x > limit {
                None
            } else {
                Some((x as usize, 9))
            }
        }
    }
}

/// Reads one compact-size integer starting at position `pos` of `s`, giving the
/// value and the position just after it.
#[verifier::opaque]
pub open spec fn compact_size_at(s: Seq<u8>, pos: nat, limit: usize) -> Option<(usize, nat)> {
    if pos > s.len() {
        None
    } else {
        match compact_size_parse(s.subrange(pos as int, s.len() as int), limit) {
            Some((v, n)) => Some((v, pos + n)),
            None => None,
        }
    }
}

/// The concatenated compact-size encodings of `xs`.
pub open spec fn compact_size_list_bytes(xs: Seq<usize>) -> Seq<u8>
    decreases xs.len(),
{
    if xs.len() == 0 {
        Seq::empty()
    } else {
        compact_size_list_bytes(xs.drop_last()) + compact_size_bytes(xs.last() as u64)
    }
}

/// Reads `count` compact-size integers one after another, starting at `pos`.
#[verifier::opaque]
pub open spec fn compact_size_list_at(s: Seq<u8>, pos: nat, count: nat, limit: usize) -> Option<
    (Seq<usize>, nat),
>
    decreases count,
{
    if count == 0 {
        if pos <= s.len() {
            Some((Seq::empty(), pos))
        } else {
            None
        }
    } else {
        match compact_size_list_at(s, pos, (count - 1) as nat, limit) {
            Some((xs, p)) => match compact_size_at(s, p, limit) {
                Some((v, p2)) => Some((xs.push(v), p2)),
                None => None,
            },
            None => None,
        }
    }
}

proof fn lemma_le2(v: u64)
    requires
        v <= 0xFFFF,
    ensures
        from_le2((v & 0xff) as u8, ((v >> 8u64) & 0xff) as u8) == v,
{
    assert(v <= 0xFFFF ==> ((v & 0xff) as u8 as u64) | ((((v >> 8u64) & 0xff) as u8 as u64)
        << 8u64) == v) by (bit_vector);
}

proof fn lemma_le4(v: u64)
    requires
        v <= 0xFFFF_FFFF,
    ensures
        from_le4(
            (v & 0xff) as u8,
            ((v >> 8u64) & 0xff) as u8,
            ((v >> 16u64) & 0xff) as u8,
            ((v >> 24u64) & 0xff) as u8,
        ) == v,
{
    assert(v <= 0xFFFF_FFFF ==> ((v & 0xff) as u8 as u64) | ((((v >> 8u64) & 0xff) as u8 as u64)
        << 8u64) | ((((v >> 16u64) & 0xff) as u8 as u64) << 16u64) | ((((v >> 24u64)
        & 0xff) as u8 as u64) << 24u64) == v) by (bit_vector);
}

proof fn lemma_le8(v: u64)
    ensures
        from_le8(le8(v)) == v,
{
    assert(((v & 0xff) as u8 as u64) | ((((v >> 8u64) & 0xff) as u8 as u64) << 8u64) | ((((v
        >> 16u64) & 0xff) as u8 as u64) << 16u64) | ((((v >> 24u64) & 0xff) as u8 as u64)
        << 24u64) | ((((v >> 32u64) & 0xff) as u8 as u64) << 32u64) | ((((v >> 40u64)
        & 0xff) as u8 as u64) << 40u64) | ((((v >> 48u64) & 0xff) as u8 as u64) << 48u64) | ((((v
        >> 56u64) & 0xff) as u8 as u64) << 56u64) == v) by (bit_vector);
}

proof fn lemma_from_le2(b0: u8, b1: u8)
    ensures
        from_le2(b0, b1) <= 0xFFFF,
        le2(from_le2(b0, b1)) == seq![b0, b1],
{
    let x = from_le2(b0, b1);
    assert((b0 as u64) | ((b1 as u64) << 8u64) <= 0xFFFF) by (bit_vector);
    assert((((b0 as u64) | ((b1 as u64) << 8u64)) & 0xff) as u8 == b0) by (bit_vector);
    assert(((((b0 as u64) | ((b1 as u64) << 8u64)) >> 8u64) & 0xff) as u8 == b1) by (bit_vector);
    assert(le2(x) =~= seq![b0, b1]);
}

proof fn lemma_from_le4(b0: u8, b1: u8, b2: u8, b3: u8)
    ensures
        from_le4(b0, b1, b2, b3) <= 0xFFFF_FFFF,
        le4(from_le4(b0, b1, b2, b3)) == seq![b0, b1, b2, b3],
{
    let x = from_le4(b0, b1, b2, b3);
    assert((b0 as u64) | ((b1 as u64) << 8u64) | ((b2 as u64) << 16u64) | ((b3 as u64) << 24u64)
        <= 0xFFFF_FFFF) by (bit_vector);
    assert(x & 0xff == b0 as u64 && (x >> 8u64) & 0xff == b1 as u64 && (x >> 16u64) & 0xff
        == b2 as u64 && (x >> 24u64) & 0xff == b3 as u64) by (bit_vector)
        requires
            x == (b0 as u64) | ((b1 as u64) << 8u64) | ((b2 as u64) << 16u64) | ((b3 as u64)
                << 24u64),
    ;
    assert(le4(x) =~= seq![b0, b1, b2, b3]);
}

proof fn lemma_from_le8(s: Seq<u8>)
    requires
        s.len() == 8,
    ensures
        le8(from_le8(s)) == s,
{
    let x = from_le8(s);
    let (b0, b1, b2, b3, b4, b5, b6, b7) = (s[0], s[1], s[2], s[3], s[4], s[5], s[6], s[7]);
    assert(x & 0xff == b0 as u64 && (x >> 8u64) & 0xff == b1 as u64 && (x >> 16u64) & 0xff
        == b2 as u64 && (x >> 24u64) & 0xff == b3 as u64 && (x >> 32u64) & 0xff == b4 as u64 && (x
        >> 40u64) & 0xff == b5 as u64 && (x >> 48u64) & 0xff == b6 as u64 && (x >> 56u64) & 0xff
        == b7 as u64) by (bit_vector)
        requires
            x == (b0 as u64) | ((b1 as u64) << 8u64) | ((b2 as u64) << 16u64) | ((b3 as u64)
                << 24u64) | ((b4 as u64) << 32u64) | ((b5 as u64) << 40u64) | ((b6 as u64)
                << 48u64) | ((b7 as u64) << 56u64),
    ;
    assert(le8(x) =~= s);
}

/// Reading back the encoding of a value within the limit gives the value and
/// the encoding's length, whatever follows it.
pub proof fn lemma_compact_size_roundtrip(v: usize, rest: Seq<u8>, limit: usize)
    requires
        v <= limit,
    ensures
        compact_size_parse(compact_size_bytes(v as u64) + rest, limit) == Some(
            (v, compact_size_bytes(v as u64).len()),
        ),
{
    reveal(compact_size_parse);
    let e = compact_size_bytes(v as u64);
    let s = e + rest;
    let w = v as u64;
    if w <= 0xFC {
    } else if w <= 0xFFFF {
        lemma_le2(w);
        assert(s[1] == le2(w)[0] && s[2] == le2(w)[1]);
    } else if w <= 0xFFFF_FFFF {
        lemma_le4(w);
        assert(s[1] == le4(w)[0] && s[2] == le4(w)[1] && s[3] == le4(w)[2] && s[4] == le4(w)[3]);
    } else {
        lemma_le8(w);
        assert(s.subrange(1, 9) =~= le8(w));
    }
}

/// Whatever a successful read accepts is exactly the encoding of the value read.
pub proof fn lemma_compact_size_canonical(s: Seq<u8>, limit: usize)
    requires
        compact_size_parse(s, limit) is Some,
    ensures
        ({
            let (v, n) = compact_size_parse(s, limit).unwrap();
            &&& n <= s.len()
            &&& v <= limit
            &&& s.subrange(0, n as int) == compact_size_bytes(v as u64)
        }),
{
    reveal(compact_size_parse);
    let (v, n) = compact_size_parse(s, limit).unwrap();
    if s[0] < 0xFD {
        assert(s.subrange(0, 1) =~= seq![s[0]]);
    } else if s[0] == 0xFD {
        lemma_from_le2(s[1], s[2]);
        assert(s.subrange(0, 3) =~= seq![0xFDu8] + seq![s[1], s[2]]);
    } else if s[0] == 0xFE {
        lemma_from_le4(s[1], s[2], s[3], s[4]);
        assert(s.subrange(0, 5) =~= seq![0xFEu8] + seq![s[1], s[2], s[3], s[4]]);
    } else {
        lemma_from_le8(s.subrange(1, 9));
        assert(s.subrange(0, 9) =~= seq![0xFFu8] + s.subrange(1, 9));
    }
}

/// The encoding of a value takes one to nine bytes.
pub proof fn lemma_compact_size_len(v: u64)
    ensures
        1 <= compact_size_bytes(v).len() <= 9,
{
}

/// Reading the encoding of `v` placed at `pos` gives `v` and the position after it.
pub proof fn lemma_compact_size_at(pre: Seq<u8>, v: usize, rest: Seq<u8>, limit: usize)
    requires
        v <= limit,
    ensures
        compact_size_at(pre + compact_size_bytes(v as u64) + rest, pre.len(), limit) == Some(
            (v, pre.len() + compact_size_bytes(v as u64).len()),
        ),
{
    reveal(compact_size_at);
    let s = pre + compact_size_bytes(v as u64) + rest;
    assert(s.subrange(pre.len() as int, s.len() as int) =~= compact_size_bytes(v as u64) + rest);
    lemma_compact_size_roundtrip(v, rest, limit);
}

/// A successful read at `pos` covers exactly the encoding of the value read.
pub proof fn lemma_compact_size_at_canonical(s: Seq<u8>, pos: nat, limit: usize)
    requires
        compact_size_at(s, pos, limit) is Some,
    ensures
        ({
            let (v, p) = compact_size_at(s, pos, limit).unwrap();
            &&& pos < p <= s.len()
            &&& v <= limit
            &&& s.subrange(pos as int, p as int) == compact_size_bytes(v as u64)
        }),
{
    reveal(compact_size_at);
    let t = s.subrange(pos as int, s.len() as int);
    lemma_compact_size_canonical(t, limit);
    let (v, n) = compact_size_parse(t, limit).unwrap();
    lemma_compact_size_len(v as u64);
    assert(s.subrange(pos as int, (pos + n) as int) =~= t.subrange(0, n as int));
}

/// Reading a list of encodings placed at `pre.len()` gives the list back.
pub proof fn lemma_compact_size_list_at(pre: Seq<u8>, xs: Seq<usize>, rest: Seq<u8>, limit: usize)
    requires
        forall|i: int| 0 <= i < xs.len() ==> xs[i] <= limit,
    ensures
        compact_size_list_at(
            pre + compact_size_list_bytes(xs) + rest,
            pre.len(),
            xs.len(),
            limit,
        ) == Some((xs, pre.len() + compact_size_list_bytes(xs).len())),
    decreases xs.len(),
{
    reveal(compact_size_list_at);
    let s = pre + compact_size_list_bytes(xs) + rest;
    if xs.len() == 0 {
        assert(xs =~= Seq::<usize>::empty());
    } else {
        let init = xs.drop_last();
        let last = xs.last();
        let e = compact_size_bytes(last as u64);
        assert(compact_size_list_bytes(xs) == compact_size_list_bytes(init) + e);
        assert(s =~= pre + compact_size_list_bytes(init) + (e + rest));
        lemma_compact_size_list_at(pre, init, e + rest, limit);
        assert(s =~= (pre + compact_size_list_bytes(init)) + e + rest);
        lemma_compact_size_at(pre + compact_size_list_bytes(init), last, rest, limit);
        assert(init.push(last) =~= xs);
    }
}

/// A successful list read covers exactly the encodings of the values read.
pub proof fn lemma_compact_size_list_at_canonical(s: Seq<u8>, pos: nat, count: nat, limit: usize)
    requires
        compact_size_list_at(s, pos, count, limit) is Some,
    ensures
        ({
            let (xs, p) = compact_size_list_at(s, pos, count, limit).unwrap();
            &&& pos <= p <= s.len()
            &&& xs.len() == count
            &&& (forall|i: int| 0 <= i < xs.len() ==> xs[i] <= limit)
            &&& s.subrange(pos as int, p as int) == compact_size_list_bytes(xs)
        }),
    decreases count,
{
    reveal(compact_size_list_at);
    if count == 0 {
        assert(s.subrange(pos as int, pos as int) =~= Seq::<u8>::empty());
    } else {
        lemma_compact_size_list_at_canonical(s, pos, (count - 1) as nat, limit);
        let (xs, p) = compact_size_list_at(s, pos, (count - 1) as nat, limit).unwrap();
        lemma_compact_size_at_canonical(s, p, limit);
        let (v, p2) = compact_size_at(s, p, limit).unwrap();
        let ys = xs.push(v);
        assert(ys.drop_last() =~= xs);
        assert(s.subrange(pos as int, p2 as int) =~= s.subrange(pos as int, p as int)
            + s.subrange(p as int, p2 as int));
    }
}

/// The concatenation of `pieces`, in order.
pub open spec fn concat_all(pieces: Seq<Seq<u8>>) -> Seq<u8>
    decreases pieces.len(),
{
    if pieces.len() == 0 {
        Seq::empty()
    } else {
        concat_all(pieces.drop_last()) + pieces.last()
    }
}

/// Where piece `i` starts in `concat_all(pieces)`.
pub open spec fn piece_offset(pieces: Seq<Seq<u8>>, i: int) -> nat {
    concat_all(pieces.take(i)).len()
}

/// Piece `i` stands at its offset in the concatenation, and the next piece
/// starts right after it.
pub proof fn lemma_concat_all_piece(pieces: Seq<Seq<u8>>, i: int)
    requires
        0 <= i < pieces.len(),
    ensures
        piece_offset(pieces, i + 1) == piece_offset(pieces, i) + pieces[i].len(),
        piece_offset(pieces, i + 1) <= concat_all(pieces).len(),
        concat_all(pieces).subrange(
            piece_offset(pieces, i) as int,
            piece_offset(pieces, i + 1) as int,
        ) == pieces[i],
    decreases pieces.len(),
{
    assert(pieces.take(i + 1).drop_last() =~= pieces.take(i));
    if i == pieces.len() - 1 {
        assert(pieces.take(i + 1) =~= pieces);
        assert(pieces.drop_last() =~= pieces.take(i));
        assert(concat_all(pieces).subrange(
            piece_offset(pieces, i) as int,
            piece_offset(pieces, i + 1) as int,
        ) =~= pieces[i]);
    } else {
        let init = pieces.drop_last();
        lemma_concat_all_piece(init, i);
        assert(init.take(i) =~= pieces.take(i));
        assert(init.take(i + 1) =~= pieces.take(i + 1));
        assert(init[i] == pieces[i]);
        assert(concat_all(pieces).subrange(
            piece_offset(pieces, i) as int,
            piece_offset(pieces, i + 1) as int,
        ) =~= concat_all(init).subrange(
            piece_offset(pieces, i) as int,
            piece_offset(pieces, i + 1) as int,
        ));
    }
}

/// The concatenation starts at offset zero and ends at the full length.
pub proof fn lemma_concat_all_ends(pieces: Seq<Seq<u8>>)
    ensures
        piece_offset(pieces, 0) == 0,
        piece_offset(pieces, pieces.len() as int) == concat_all(pieces).len(),
{
    assert(pieces.take(0) =~= Seq::<Seq<u8>>::empty());
    assert(pieces.take(pieces.len() as int) =~= pieces);
}

/// Piece `i` of an encoding placed after `pre`.
pub proof fn lemma_piece_in(pre: Seq<u8>, pieces: Seq<Seq<u8>>, rest: Seq<u8>, i: int)
    requires
        0 <= i < pieces.len(),
    ensures
        piece_offset(pieces, i + 1) == piece_offset(pieces, i) + pieces[i].len(),
        pre.len() + piece_offset(pieces, i + 1) <= (pre + concat_all(pieces) + rest).len(),
        (pre + concat_all(pieces) + rest).subrange(
            (pre.len() + piece_offset(pieces, i)) as int,
            (pre.len() + piece_offset(pieces, i + 1)) as int,
        ) == pieces[i],
{
    lemma_concat_all_piece(pieces, i);
    let s = pre + concat_all(pieces) + rest;
    assert(s.subrange(
        (pre.len() + piece_offset(pieces, i)) as int,
        (pre.len() + piece_offset(pieces, i + 1)) as int,
    ) =~= concat_all(pieces).subrange(
        piece_offset(pieces, i) as int,
        piece_offset(pieces, i + 1) as int,
    ));
}

/// Reading at `p` where the encoding of `v` stands gives `v`.
pub proof fn lemma_compact_size_at_in(s: Seq<u8>, p: nat, v: usize, limit: usize)
    requires
        v <= limit,
        p + compact_size_bytes(v as u64).len() <= s.len(),
        s.subrange(p as int, (p + compact_size_bytes(v as u64).len()) as int) == compact_size_bytes(
            v as u64,
        ),
    ensures
        compact_size_at(s, p, limit) == Some((v, p + compact_size_bytes(v as u64).len())),
{
    reveal(compact_size_at);
    let e = compact_size_bytes(v as u64);
    let rest = s.subrange((p + e.len()) as int, s.len() as int);
    assert(s.subrange(p as int, s.len() as int) =~= e + rest);
    lemma_compact_size_roundtrip(v, rest, limit);
}

/// Reading a list at `p` where the encodings of `xs` stand gives `xs`.
pub proof fn lemma_compact_size_list_at_in(s: Seq<u8>, p: nat, xs: Seq<usize>, limit: usize)
    requires
        forall|i: int| 0 <= i < xs.len() ==> xs[i] <= limit,
        p + compact_size_list_bytes(xs).len() <= s.len(),
        s.subrange(p as int, (p + compact_size_list_bytes(xs).len()) as int) == compact_size_list_bytes(
            xs,
        ),
    ensures
        compact_size_list_at(s, p, xs.len(), limit) == Some(
            (xs, p + compact_size_list_bytes(xs).len()),
        ),
{
    let e = compact_size_list_bytes(xs);
    let pre = s.subrange(0, p as int);
    let rest = s.subrange((p + e.len()) as int, s.len() as int);
    assert(s =~= pre + e + rest);
    lemma_compact_size_list_at(pre, xs, rest, limit);
}

/// Drains `bitcoin_consensus_encoding::CompactSizeEncoder::new(value)` into a
/// vector; trusted to give exactly the compact-size encoding of `value`.
#[verifier::external_body]
fn encode_compact_size(value: usize) -> (bytes: Vec<u8>)
    ensures
        bytes@ == compact_size_bytes(value as u64),
{
    bitcoin_consensus_encoding::drain_to_vec(
        &mut bitcoin_consensus_encoding::CompactSizeEncoder::new(value),
    )
}

/// Pushes the bytes from `pos` on into a
/// `bitcoin_consensus_encoding::CompactSizeDecoder::new_with_limit(limit)` and
/// ends it. Trusted to accept exactly what `compact_size_parse` accepts (the
/// decoder needs the full encoding, refuses non-shortest encodings and values
/// above the limit) and to leave the bytes after the encoding unread.
#[verifier::external_body]
fn decode_compact_size(bytes: &[u8], pos: usize, limit: usize) -> (r: Option<(usize, usize)>)
    requires
        pos <= bytes@.len(),
    ensures
        r == match compact_size_parse(bytes@.subrange(pos as int, bytes@.len() as int), limit) {
            Some((v, n)) => Some((v, (bytes@.len() - pos - n) as usize)),
            None => None,
        },
{
    let mut decoder = bitcoin_consensus_encoding::CompactSizeDecoder::new_with_limit(limit);
    let mut rest = &bytes[pos..];
    match bitcoin_consensus_encoding::Decoder::push_bytes(&mut decoder, &mut rest) {
        Ok(bitcoin_consensus_encoding::DecoderStatus::Ready) => {},
        Ok(bitcoin_consensus_encoding::DecoderStatus::NeedsMore) => return None,
        Err(_) => return None,
    }
    match bitcoin_consensus_encoding::Decoder::end(decoder) {
        Ok(value) => Some((value, rest.len())),
        Err(_) => None,
    }
}

/// Appends the compact-size encoding of `value` to `out`.
pub fn push_compact_size(out: &mut Vec<u8>, value: usize)
    ensures
        final(out)@ == old(out)@ + compact_size_bytes(value as u64),
{
    let mut bytes = encode_compact_size(value);
    out.append(&mut bytes);
}

/// Reads one compact-size integer at `pos`, giving the value and the position
/// after it.
pub fn read_compact_size(bytes: &[u8], pos: usize, limit: usize) -> (r: Option<(usize, usize)>)
    requires
        pos <= bytes@.len(),
    ensures
        r is Some <==> compact_size_at(bytes@, pos as nat, limit) is Some,
        r matches Some((v, p)) ==> compact_size_at(bytes@, pos as nat, limit) == Some((v, p as nat))
            && pos < p <= bytes@.len(),
{
    reveal(compact_size_at);
    match decode_compact_size(bytes, pos, limit) {
        Some((v, left)) => {
            proof {
                lemma_compact_size_canonical(
                    bytes@.subrange(pos as int, bytes@.len() as int),
                    limit,
                );
                lemma_compact_size_len(v as u64);
            }
            Some((v, bytes.len() - left))
        },
        None => None,
    }
}

} // verus!
