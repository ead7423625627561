//! The vector codec: an embedding, given as the IEEE-754 bit patterns of its
//! single-precision elements, is stored as a fixed-width binary blob, four
//! bytes per element, little endian, elements in order.  Decoding is the
//! exact inverse for every blob whose length is a multiple of four; any other
//! length is rejected.  Narrowing the provider's double-precision values to
//! single precision is the caller's step: it is a deliberate, lossy storage
//! choice, and the codec itself is exact on the narrowed bits.

use vstd::prelude::*;

use crate::CodecError;

verus! {

/// The four little-endian bytes of one 32-bit word.
pub open spec fn word_bytes(w: u32) -> Seq<u8> {
    seq![
        (w % 256) as u8,
        ((w / 256) % 256) as u8,
        ((w / 65536) % 256) as u8,
        ((w / 16777216) % 256) as u8,
    ]
}

/// The 32-bit word read from four little-endian bytes.
pub open spec fn word_of_bytes(b0: u8, b1: u8, b2: u8, b3: u8) -> u32 {
    (b0 + b1 * 256 + b2 * 65536 + b3 * 16777216) as u32
}

/// The encoded form of a vector: the little-endian bytes of each element,
/// concatenated in element order.
pub open spec fn encoded(v: Seq<u32>) -> Seq<u8>
    decreases v.len(),
{
    if v.len() == 0 {
        Seq::empty()
    } else {
        encoded(v.drop_last()) + word_bytes(v.last())
    }
}

/// The vector read back from a blob; meaningful when the blob's length is a
/// multiple of four.
pub open spec fn decoded(b: Seq<u8>) -> Seq<u32>
    decreases b.len(),
{
    if b.len() < 4 {
        Seq::empty()
    } else {
        decoded(b.take(b.len() - 4)).push(
            word_of_bytes(b[b.len() - 4], b[b.len() - 3], b[b.len() - 2], b[b.len() - 1]),
        )
    }
}

pub proof fn lemma_encoded_len(v: Seq<u32>)
    ensures
        encoded(v).len() == 4 * v.len(),
    decreases v.len(),
{
    if v.len() > 0 {
        lemma_encoded_len(v.drop_last());
    }
}

proof fn lemma_word_round_trip(w: u32)
    ensures
        word_of_bytes(
            (w % 256) as u8,
            ((w / 256) % 256) as u8,
            ((w / 65536) % 256) as u8,
            ((w / 16777216) % 256) as u8,
        ) == w,
{
    assert((w % 256) + ((w / 256) % 256) * 256 + ((w / 65536) % 256) * 65536 + ((w / 16777216)
        % 256) * 16777216 == w) by (bit_vector);
}

proof fn lemma_bytes_round_trip(b0: u8, b1: u8, b2: u8, b3: u8)
    ensures
        word_bytes(word_of_bytes(b0, b1, b2, b3)) =~= seq![b0, b1, b2, b3],
{
    let w = word_of_bytes(b0, b1, b2, b3);
    assert(w == b0 + b1 * 256 + b2 * 65536 + b3 * 16777216);
    assert({
        &&& (w % 256) as u8 == b0
        &&& ((w / 256) % 256) as u8 == b1
        &&& ((w / 65536) % 256) as u8 == b2
        &&& ((w / 16777216) % 256) as u8 == b3
    }) by (bit_vector)
        requires
            w == b0 + b1 * 256 + b2 * 65536 + b3 * 16777216,
    ;
}

/// Decoding inverts encoding, bit for bit: the codec loses nothing that was
/// handed to it.
pub proof fn lemma_decode_encode(v: Seq<u32>)
    ensures
        decoded(encoded(v)) == v,
    decreases v.len(),
{
    if v.len() == 0 {
        assert(decoded(encoded(v)) =~= v);
    } else {
        let e = encoded(v);
        lemma_encoded_len(v);
        lemma_encoded_len(v.drop_last());
        lemma_decode_encode(v.drop_last());
        lemma_word_round_trip(v.last());
        assert(e.take(e.len() - 4) =~= encoded(v.drop_last()));
        assert(decoded(e) =~= v);
    }
}

/// Encoding inverts decoding on every well-formed blob: a stored blob is
/// reproduced exactly by decoding and re-encoding it.
pub proof fn lemma_encode_decode(b: Seq<u8>)
    requires
        b.len() % 4 == 0,
    ensures
        encoded(decoded(b)) == b,
    decreases b.len(),
{
    if b.len() == 0 {
        assert(encoded(decoded(b)) =~= b);
    } else {
        let front = b.take(b.len() - 4);
        lemma_encode_decode(front);
        lemma_bytes_round_trip(b[b.len() - 4], b[b.len() - 3], b[b.len() - 2], b[b.len() - 1]);
        assert(decoded(b).drop_last() =~= decoded(front));
        assert(encoded(decoded(b)) =~= b);
    }
}

/// Encode a vector of single-precision bit patterns as a blob, four bytes per
/// element, little endian, in order.
pub fn encode(v: &Vec<u32>) -> (r: Vec<u8>)
    ensures
        r@ == encoded(v@),
        r@.len() == 4 * v@.len(),
{
    let mut r: Vec<u8> = Vec::new();
    let mut i: usize = 0;
    while i < v.len()
        invariant
            i <= v@.len(),
            r@ == encoded(v@.take(i as int)),
            r@.len() == 4 * i,
        decreases v@.len() - i,
    {
        let w = v[i];
        r.push((w % 256) as u8);
        r.push(((w / 256) % 256) as u8);
        r.push(((w / 65536) % 256) as u8);
        r.push(((w / 16777216) % 256) as u8);
        proof {
            let pre = v@.take(i as int);
            let post = v@.take(i + 1);
            assert(post.drop_last() =~= pre);
            assert(post.last() == v@[i as int]);
            assert(r@ =~= encoded(pre) + word_bytes(v@[i as int]));
        }
        i = i + 1;
    }
    proof {
        assert(v@.take(v@.len() as int) =~= v@);
    }
    r
}

/// Decode a blob back to the vector of bit patterns it encodes.  A blob whose
/// length is not a multiple of four never came from the codec and is rejected.
pub fn decode(b: &Vec<u8>) -> (r: Result<Vec<u32>, CodecError>)
    ensures
        match r {
            Ok(v) => b@.len() % 4 == 0 && v@ == decoded(b@) && b@.len() == 4 * v@.len(),
            Err(e) => b@.len() % 4 != 0 && e == CodecError::InvalidLength,
        },
{
    if b.len() % 4 != 0 {
        return Err(CodecError::InvalidLength);
    }
    let mut r: Vec<u32> = Vec::new();
    let mut i: usize = 0;
    while i < b.len()
        invariant
            b@.len() % 4 == 0,
            i <= b@.len(),
            i % 4 == 0,
            r@ == decoded(b@.take(i as int)),
            i == 4 * r@.len(),
        decreases b@.len() - i,
    {
        let w = (b[i] as u32) + (b[i + 1] as u32) * 256 + (b[i + 2] as u32) * 65536 + (b[i
            + 3] as u32) * 16777216;
        r.push(w);
        proof {
            let post = b@.take(i + 4);
            assert(post.take(post.len() - 4) =~= b@.take(i as int));
            assert(w == word_of_bytes(b@[i as int], b@[i + 1], b@[i + 2], b@[i + 3]));
            assert(r@ =~= decoded(b@.take(i as int)).push(w));
        }
        i = i + 4;
    }
    proof {
        assert(b@.take(b@.len() as int) =~= b@);
    }
    Ok(r)
}

} // verus!
