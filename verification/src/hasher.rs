//! The incremental 32-bit checksum abstraction, and a CRC-32 implementation
//! (IEEE polynomial, all-ones initial value, no final xor, non-reflected).

use vstd::prelude::*;
use crate::words::word_bytes;

verus! {

/// A resettable, incremental 32-bit checksum over word streams.
///
/// The checksum must be a function of the words fed since the last reset
/// and of nothing else: the recovery scan recomputes it over stored words
/// and compares it with the stored value, so two hashers fed the same
/// stream have to agree.
pub trait StorageHasher32: Sized {
    /// The checksum of a complete word stream.
    spec fn spec_hash(data: Seq<u32>) -> u32;

    /// The words fed since the last reset.
    spec fn fed(&self) -> Seq<u32>;

    /// Return to the initial state.
    fn reset(&mut self)
        ensures
            final(self).fed() == Seq::<u32>::empty(),
    ;

    /// Absorb a run of words.
    fn write32(&mut self, words: &[u32])
        ensures
            final(self).fed() == old(self).fed() + words@,
    ;

    /// The checksum of everything fed since the last reset; does not
    /// mutate the state.
    fn finish(&self) -> (r: u32)
        ensures
            r == Self::spec_hash(self.fed()),
    ;
}

/// The generator polynomial, most-significant-bit first.
pub const CRC_POLY: u32 = 0x04C1_1DB7;

/// The initial shift-register value.
pub const CRC_INIT: u32 = 0xFFFF_FFFF;

/// One shift of the CRC register.
pub open spec fn crc_bit(s: u32) -> u32 {
    if s & 0x8000_0000 != 0 {
        (s << 1) ^ CRC_POLY
    } else {
        s << 1
    }
}

/// `n` shifts of the CRC register.
pub open spec fn crc_bits(s: u32, n: nat) -> u32
    decreases n,
{
    if n == 0 {
        s
    } else {
        crc_bits(crc_bit(s), (n - 1) as nat)
    }
}

/// The register after absorbing one byte.
pub open spec fn crc_byte(s: u32, b: u8) -> u32 {
    crc_bits(s ^ ((b as u32) << 24), 8)
}

/// The register after absorbing one word, lowest-address byte first.
pub open spec fn crc_word(s: u32, w: u32) -> u32 {
    crc_byte(
        crc_byte(crc_byte(crc_byte(s, word_bytes(w)[0]), word_bytes(w)[1]), word_bytes(w)[2]),
        word_bytes(w)[3],
    )
}

/// The register after absorbing a run of words.
pub open spec fn crc_words(s: u32, ws: Seq<u32>) -> u32
    decreases ws.len(),
{
    if ws.len() == 0 {
        s
    } else {
        crc_words(crc_word(s, ws[0]), ws.drop_first())
    }
}

/// Absorbing one more word continues from the register reached so far.
pub proof fn lemma_crc_words_push(s: u32, ws: Seq<u32>, w: u32)
    ensures
        crc_words(s, ws.push(w)) == crc_word(crc_words(s, ws), w),
    decreases ws.len(),
{
    if ws.len() == 0 {
        assert(ws.push(w)[0] == w);
        assert(ws.push(w).drop_first() =~= Seq::<u32>::empty());
        assert(crc_words(s, ws) == s);
        assert(crc_words(crc_word(s, w), Seq::<u32>::empty()) == crc_word(s, w));
    } else {
        assert(ws.push(w)[0] == ws[0]);
        assert(ws.push(w).drop_first() =~= ws.drop_first().push(w));
        lemma_crc_words_push(crc_word(s, ws[0]), ws.drop_first(), w);
        assert(crc_words(s, ws.push(w)) == crc_words(crc_word(s, ws[0]), ws.drop_first().push(w)));
        assert(crc_words(s, ws) == crc_words(crc_word(s, ws[0]), ws.drop_first()));
    }
}

/// A software CRC-32 with the contract of [`StorageHasher32`].
pub struct Crc32 {
    state: u32,
    fed_words: Ghost<Seq<u32>>,
}

impl Crc32 {
    #[verifier::type_invariant]
    spec fn inv(self) -> bool {
        self.state == crc_words(CRC_INIT, self.fed_words@)
    }

    /// A hasher in its initial state.
    pub fn new() -> (r: Crc32)
        ensures
            r.fed() == Seq::<u32>::empty(),
    {
        Crc32 { state: CRC_INIT, fed_words: Ghost(Seq::empty()) }
    }
}

/// One shift of the CRC register.
fn crc_round(x: u32) -> (r: u32)
    ensures
        r == crc_bit(x),
{
    if x & 0x8000_0000 != 0 {
        (x << 1u32) ^ CRC_POLY
    } else {
        x << 1u32
    }
}

/// The register after absorbing one byte.
fn crc_absorb_byte(s: u32, b: u8) -> (r: u32)
    ensures
        r == crc_byte(s, b),
{
    let mut x = s ^ ((b as u32) << 24u32);
    let mut k: usize = 0;
    while k < 8
        invariant
            k <= 8,
            crc_bits(x, (8 - k) as nat) == crc_byte(s, b),
        decreases 8 - k,
    {
        x = crc_round(x);
        k = k + 1;
    }
    x
}

/// The register after absorbing one word, lowest-address byte first.
fn crc_absorb_word(s: u32, w: u32) -> (r: u32)
    ensures
        r == crc_word(s, w),
{
    let r0 = crc_absorb_byte(s, (w & 0xff) as u8);
    let r1 = crc_absorb_byte(r0, ((w >> 8u32) & 0xff) as u8);
    let r2 = crc_absorb_byte(r1, ((w >> 16u32) & 0xff) as u8);
    crc_absorb_byte(r2, ((w >> 24u32) & 0xff) as u8)
}

impl StorageHasher32 for Crc32 {
    open spec fn spec_hash(data: Seq<u32>) -> u32 {
        crc_words(CRC_INIT, data)
    }

    closed spec fn fed(&self) -> Seq<u32> {
        self.fed_words@
    }

    fn reset(&mut self) {
        *self = Crc32 { state: CRC_INIT, fed_words: Ghost(Seq::empty()) };
    }

    fn write32(&mut self, words: &[u32]) {
        proof {
            use_type_invariant(&*self);
        }
        let ghost fed0 = self.fed_words@;
        let mut s = self.state;
        let n = words.len();
        proof {
            assert(fed0 + words@.take(0) =~= fed0);
        }
        let mut i: usize = 0;
        while i < n
            invariant
                i <= n,
                n == words@.len(),
                s == crc_words(CRC_INIT, fed0 + words@.take(i as int)),
            decreases n - i,
        {
            let w = *vstd::slice::slice_index_get(words, i);
            s = crc_absorb_word(s, w);
            proof {
                lemma_crc_words_push(CRC_INIT, fed0 + words@.take(i as int), w);
                assert((fed0 + words@.take(i as int)).push(w) =~= fed0 + words@.take(
                    i as int + 1,
                ));
            }
            i = i + 1;
        }
        proof {
            assert(fed0 + words@.take(n as int) =~= fed0 + words@);
        }
        *self = Crc32 { state: s, fed_words: Ghost(fed0 + words@) };
    }

    fn finish(&self) -> (r: u32) {
        proof {
            use_type_invariant(self);
        }
        self.state
    }
}

} // verus!
