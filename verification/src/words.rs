//! Words, bytes, and the little-endian packing used by the record format.

use vstd::prelude::*;

verus! {

/// The fundamental addressing and alignment unit of the region.
pub type Word = u32;

/// Size of a word in bytes.
pub const WORD_SZ: usize = 4;

/// Number of words in a record header.
pub const HEADER_WORDS: usize = 3;

/// The erased state of a word: all bits set.
pub const ERASED: u32 = 0xFFFF_FFFF;

/// Byte written into the unused tail positions of the last payload word.
pub const FILL: u8 = 0xA5;

/// Number of words needed to hold `sz` bytes.
pub open spec fn size_in_words(sz: nat) -> nat {
    ((sz + 3) / 4) as nat
}

/// The four bytes of a word, lowest-address (least significant) first.
pub open spec fn word_bytes(w: u32) -> Seq<u8> {
    seq![
        (w & 0xff) as u8,
        ((w >> 8) & 0xff) as u8,
        ((w >> 16) & 0xff) as u8,
        ((w >> 24) & 0xff) as u8,
    ]
}

/// A run of words as a byte stream, lowest-address byte first.
pub open spec fn words_to_bytes(ws: Seq<u32>) -> Seq<u8>
    decreases ws.len(),
{
    if ws.len() == 0 {
        Seq::empty()
    } else {
        word_bytes(ws[0]) + words_to_bytes(ws.drop_first())
    }
}

/// The word whose little-endian bytes are `b0 b1 b2 b3`.
pub open spec fn word_of_bytes(b0: u8, b1: u8, b2: u8, b3: u8) -> u32 {
    (b0 as u32) | ((b1 as u32) << 8) | ((b2 as u32) << 16) | ((b3 as u32) << 24)
}

/// `p` extended with fill bytes to a whole number of words.
pub open spec fn padded(p: Seq<u8>) -> Seq<u8> {
    p + Seq::new((size_in_words(p.len()) * 4 - p.len()) as nat, |i: int| FILL)
}

/// The words that pack a byte sequence whose length is a multiple of the
/// word size, four little-endian bytes per word.
pub open spec fn bytes_to_words(p: Seq<u8>) -> Seq<u32>
    decreases p.len(),
{
    if p.len() < 4 {
        Seq::empty()
    } else {
        seq![word_of_bytes(p[0], p[1], p[2], p[3])] + bytes_to_words(p.skip(4))
    }
}

/// The words written to store payload `p`: its bytes, fill-padded to a
/// whole number of words, packed little-endian.
pub open spec fn payload_words(p: Seq<u8>) -> Seq<u32> {
    bytes_to_words(padded(p))
}

/// Padding never shortens a payload and stops below one extra word.
pub proof fn lemma_padded_len(p: Seq<u8>)
    ensures
        padded(p).len() == size_in_words(p.len()) * 4,
        p.len() <= padded(p).len() < p.len() + 4,
        forall|i: int| 0 <= i < p.len() ==> padded(p)[i] == p[i],
        forall|i: int| p.len() <= i < padded(p).len() ==> padded(p)[i] == FILL,
{
}

/// Packing `p` yields one word per four bytes.
pub proof fn lemma_bytes_to_words_len(p: Seq<u8>)
    requires
        p.len() % 4 == 0,
    ensures
        bytes_to_words(p).len() == p.len() / 4,
    decreases p.len(),
{
    if p.len() >= 4 {
        lemma_bytes_to_words_len(p.skip(4));
    }
}

/// Word `i` of the packing holds bytes `4i .. 4i + 4` of `p`.
pub proof fn lemma_bytes_to_words_index(p: Seq<u8>, i: int)
    requires
        p.len() % 4 == 0,
        0 <= i < p.len() / 4,
    ensures
        bytes_to_words(p).len() == p.len() / 4,
        bytes_to_words(p)[i] == word_of_bytes(p[4 * i], p[4 * i + 1], p[4 * i + 2], p[4 * i + 3]),
    decreases i,
{
    lemma_bytes_to_words_len(p);
    if i > 0 {
        lemma_bytes_to_words_index(p.skip(4), i - 1);
    }
}

/// Unpacking a run of words yields four bytes per word.
pub proof fn lemma_words_to_bytes_len(ws: Seq<u32>)
    ensures
        words_to_bytes(ws).len() == 4 * ws.len(),
    decreases ws.len(),
{
    if ws.len() > 0 {
        lemma_words_to_bytes_len(ws.drop_first());
    }
}

/// Byte `j` of the unpacking is byte `j % 4` of word `j / 4`.
pub proof fn lemma_words_to_bytes_index(ws: Seq<u32>, j: int)
    requires
        0 <= j < 4 * ws.len(),
    ensures
        words_to_bytes(ws).len() == 4 * ws.len(),
        words_to_bytes(ws)[j] == word_bytes(ws[j / 4])[j % 4],
    decreases ws.len(),
{
    lemma_words_to_bytes_len(ws);
    if j >= 4 {
        lemma_words_to_bytes_index(ws.drop_first(), j - 4);
        lemma_words_to_bytes_len(ws.drop_first());
    }
}

/// The bytes of the word packed from `b0 b1 b2 b3` are `b0 b1 b2 b3`.
pub proof fn lemma_word_of_bytes_inverse(b0: u8, b1: u8, b2: u8, b3: u8)
    ensures
        word_bytes(word_of_bytes(b0, b1, b2, b3)) == seq![b0, b1, b2, b3],
{
    let w = word_of_bytes(b0, b1, b2, b3);
    assert((((b0 as u32) | ((b1 as u32) << 8) | ((b2 as u32) << 16) | ((b3 as u32) << 24))
        & 0xff) as u8 == b0) by (bit_vector);
    assert(((((b0 as u32) | ((b1 as u32) << 8) | ((b2 as u32) << 16) | ((b3 as u32) << 24))
        >> 8) & 0xff) as u8 == b1) by (bit_vector);
    assert(((((b0 as u32) | ((b1 as u32) << 8) | ((b2 as u32) << 16) | ((b3 as u32) << 24))
        >> 16) & 0xff) as u8 == b2) by (bit_vector);
    assert(((((b0 as u32) | ((b1 as u32) << 8) | ((b2 as u32) << 16) | ((b3 as u32) << 24))
        >> 24) & 0xff) as u8 == b3) by (bit_vector);
    assert(word_bytes(w) =~= seq![b0, b1, b2, b3]);
}

/// Repacking the four bytes of a word gives the word back.
pub proof fn lemma_word_bytes_inverse(w: u32)
    ensures
        word_of_bytes(word_bytes(w)[0], word_bytes(w)[1], word_bytes(w)[2], word_bytes(w)[3]) == w,
{
    assert(((w & 0xff) as u8 as u32) | ((((w >> 8) & 0xff) as u8 as u32) << 8) | ((((w >> 16)
        & 0xff) as u8 as u32) << 16) | ((((w >> 24) & 0xff) as u8 as u32) << 24) == w)
        by (bit_vector);
}

/// Packing bytes into words and reading them back is the identity.
pub proof fn lemma_pack_unpack(p: Seq<u8>)
    requires
        p.len() % 4 == 0,
    ensures
        words_to_bytes(bytes_to_words(p)) == p,
    decreases p.len(),
{
    lemma_bytes_to_words_len(p);
    lemma_words_to_bytes_len(bytes_to_words(p));
    if p.len() >= 4 {
        lemma_pack_unpack(p.skip(4));
        lemma_word_of_bytes_inverse(p[0], p[1], p[2], p[3]);
        let ws = bytes_to_words(p);
        assert(ws.drop_first() =~= bytes_to_words(p.skip(4)));
        assert(words_to_bytes(ws) =~= p);
    } else {
        assert(words_to_bytes(bytes_to_words(p)) =~= p);
    }
}

/// The stored payload words, truncated back to the payload length, give
/// back exactly the payload: the round trip through the record format.
pub proof fn lemma_payload_round_trip(p: Seq<u8>)
    ensures
        payload_words(p).len() == size_in_words(p.len()),
        words_to_bytes(payload_words(p)).take(p.len() as int) == p,
{
    lemma_padded_len(p);
    lemma_bytes_to_words_len(padded(p));
    lemma_pack_unpack(padded(p));
    assert(words_to_bytes(payload_words(p)).take(p.len() as int) =~= p);
}

/// Number of words needed to hold `sz_in_bytes` bytes.
pub fn convert_sz_in_words(sz_in_bytes: usize) -> (r: usize)
    ensures
        r == size_in_words(sz_in_bytes as nat),
{
    if sz_in_bytes % WORD_SZ == 0 {
        sz_in_bytes / WORD_SZ
    } else {
        sz_in_bytes / WORD_SZ + 1
    }
}

/// The word whose little-endian bytes are `b0 b1 b2 b3`.
pub fn le_word(b0: u8, b1: u8, b2: u8, b3: u8) -> (w: u32)
    ensures
        w == word_of_bytes(b0, b1, b2, b3),
{
    (b0 as u32) | ((b1 as u32) << 8) | ((b2 as u32) << 16) | ((b3 as u32) << 24)
}

/// Byte `j` of word `w`, counting from the lowest address.
pub fn word_byte(w: u32, j: usize) -> (b: u8)
    requires
        j < 4,
    ensures
        b == word_bytes(w)[j as int],
{
    if j == 0 {
        (w & 0xff) as u8
    } else if j == 1 {
        ((w >> 8) & 0xff) as u8
    } else if j == 2 {
        ((w >> 16) & 0xff) as u8
    } else {
        ((w >> 24) & 0xff) as u8
    }
}

} // verus!
