//! A fixed-endianness byte codec for stored embeddings: each component is a
//! 32-bit word (the IEEE-754 single-precision bit pattern of the value),
//! written as four little-endian bytes.
use vstd::prelude::*;

verus! {

/// The four little-endian bytes of `w`.
pub open spec fn le_bytes(w: u32) -> Seq<u8> {
    seq![(w & 0xff) as u8, ((w >> 8u32) & 0xff) as u8, ((w >> 16u32) & 0xff) as u8, (w >> 24u32) as u8]
}

/// The word whose little-endian bytes are `b0`, `b1`, `b2`, `b3`.
pub open spec fn le_word(b0: u8, b1: u8, b2: u8, b3: u8) -> u32 {
    (b0 as u32) | ((b1 as u32) << 8u32) | ((b2 as u32) << 16u32) | ((b3 as u32) << 24u32)
}

/// The bytes of `ws`, four per word, in order.
pub open spec fn encoded(ws: Seq<u32>) -> Seq<u8> {
    ws.map_values(|w: u32| le_bytes(w)).flatten()
}

/// The words of `bs`, one per four bytes, in order.
pub open spec fn decoded(bs: Seq<u8>) -> Seq<u32> {
    Seq::new(bs.len() / 4, |k: int| le_word(bs[4 * k], bs[4 * k + 1], bs[4 * k + 2], bs[4 * k + 3]))
}

/// The byte count is not a multiple of four.
#[derive(Debug, Clone, Copy, PartialEq, Eq)]
pub struct TruncatedEmbedding {
    pub len: usize,
}

proof fn lemma_word_round_trip(w: u32)
    ensures
        le_word(le_bytes(w)[0], le_bytes(w)[1], le_bytes(w)[2], le_bytes(w)[3]) == w,
{
    let b0 = (w & 0xff) as u8;
    let b1 = ((w >> 8u32) & 0xff) as u8;
    let b2 = ((w >> 16u32) & 0xff) as u8;
    let b3 = (w >> 24u32) as u8;
    assert(le_word(b0, b1, b2, b3) == w) by (bit_vector)
        requires
            b0 == (w & 0xff) as u8,
            b1 == ((w >> 8u32) & 0xff) as u8,
            b2 == ((w >> 16u32) & 0xff) as u8,
            b3 == (w >> 24u32) as u8,
    ;
}

proof fn lemma_encoded_index(ws: Seq<u32>, k: int, j: int)
    requires
        0 <= k < ws.len(),
        0 <= j < 4,
    ensures
        encoded(ws).len() == 4 * ws.len(),
        encoded(ws)[4 * k + j] == le_bytes(ws[k])[j],
    decreases ws.len(),
{
    let m = ws.map_values(|w: u32| le_bytes(w));
    assert(m.flatten() == m[0] + m.drop_first().flatten());
    assert(m.drop_first() =~= ws.drop_first().map_values(|w: u32| le_bytes(w)));
    if k > 0 {
        lemma_encoded_index(ws.drop_first(), k - 1, j);
    } else if ws.len() > 1 {
        lemma_encoded_index(ws.drop_first(), 0, 0);
    } else {
        assert(m.drop_first().flatten() =~= Seq::<u8>::empty());
    }
}

/// Decoding the bytes of an encoding gives the words back.
pub proof fn lemma_embedding_round_trip(ws: Seq<u32>)
    ensures
        decoded(encoded(ws)) == ws,
{
    if ws.len() > 0 {
        lemma_encoded_index(ws, 0, 0);
    } else {
        assert(encoded(ws) =~= Seq::<u8>::empty());
    }
    let e = encoded(ws);
    assert forall|k: int| 0 <= k < ws.len() implies #[trigger] decoded(e)[k] == ws[k] by {
        lemma_encoded_index(ws, k, 0);
        lemma_encoded_index(ws, k, 1);
        lemma_encoded_index(ws, k, 2);
        lemma_encoded_index(ws, k, 3);
        lemma_word_round_trip(ws[k]);
    }
    assert(decoded(e) =~= ws);
}

/// The bytes of `words`: four little-endian bytes per word.
pub fn encode_embedding(words: &Vec<u32>) -> (r: Vec<u8>)
    requires
        4 * words@.len() <= usize::MAX,
    ensures
        r@ == encoded(words@),
{
    let mut r: Vec<u8> = Vec::new();
    let mut k: usize = 0;
    while k < words.len()
        invariant
            k <= words@.len(),
            4 * words@.len() <= usize::MAX,
            r@ == encoded(words@.subrange(0, k as int)),
        decreases words@.len() - k,
    {
        let w = words[k];
        proof {
            let m = words@.subrange(0, k as int).map_values(|w: u32| le_bytes(w));
            assert(words@.subrange(0, k + 1).map_values(|w: u32| le_bytes(w)) =~= m.push(le_bytes(w)));
            m.lemma_flatten_push(le_bytes(w));
        }
        let ghost before = r@;
        r.push((w & 0xff) as u8);
        r.push(((w >> 8) & 0xff) as u8);
        r.push(((w >> 16) & 0xff) as u8);
        r.push((w >> 24) as u8);
        assert(r@ =~= before + le_bytes(w));
        k = k + 1;
    }
    assert(words@.subrange(0, k as int) =~= words@);
    r
}

/// The words of `bytes`, four little-endian bytes each, or the error when
/// the byte count is not a multiple of four.
pub fn decode_embedding(bytes: &Vec<u8>) -> (r: Result<Vec<u32>, TruncatedEmbedding>)
    ensures
        r is Ok <==> bytes@.len() % 4 == 0,
        r matches Ok(ws) ==> ws@ == decoded(bytes@),
        r matches Err(e) ==> e.len == bytes@.len(),
{
    let n = bytes.len();
    if n % 4 != 0 {
        return Err(TruncatedEmbedding { len: n });
    }
    let mut ws: Vec<u32> = Vec::new();
    let mut k: usize = 0;
    while k < n / 4
        invariant
            n == bytes@.len(),
            n % 4 == 0,
            k <= n / 4,
            ws@.len() == k,
            forall|j: int| 0 <= j < k ==> ws@[j] == #[trigger] decoded(bytes@)[j],
        decreases n / 4 - k,
    {
        let i = 4 * k;
        let w = (bytes[i] as u32) | ((bytes[i + 1] as u32) << 8) | ((bytes[i + 2] as u32) << 16) | ((
        bytes[i + 3] as u32) << 24);
        ws.push(w);
        k = k + 1;
    }
    assert(ws@ =~= decoded(bytes@));
    Ok(ws)
}

} // verus!
