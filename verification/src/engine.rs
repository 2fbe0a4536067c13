//! The storage engine: the on-region record format, the append/update
//! algorithm, and the power-fail-safe scan that rebuilds the descriptor
//! table at startup.

use vstd::prelude::*;
use vstd::pervasive::VecAdditionalExecFns;
use core::marker::PhantomData;
use crate::words::{
    Word, ERASED, FILL, HEADER_WORDS, WORD_SZ, size_in_words, word_bytes, words_to_bytes,
    word_of_bytes, padded, bytes_to_words, payload_words, convert_sz_in_words, le_word, word_byte,
    lemma_padded_len, lemma_bytes_to_words_len, lemma_bytes_to_words_index,
    lemma_words_to_bytes_len, lemma_words_to_bytes_index, lemma_payload_round_trip,
};
use crate::hasher::StorageHasher32;
use crate::mem::StorageMem;

verus! {

/// The three-word record header, in memory order.
#[derive(Clone, Copy, PartialEq, Eq, Debug)]
pub struct Header {
    pub tag: Word,
    /// Size of the payload in bytes (not words).
    pub sz: Word,
    pub crc: Word,
}

/// Everything an engine operation can fail with.
#[derive(Debug)]
pub enum Error<T> {
    /// The record does not fit into the remaining free space.
    OutOfMemory,
    /// A descriptor points at a header whose stored tag differs from the
    /// descriptor's tag.
    CorruptedRecordOnGet,
    /// Re-validation at read time found a checksum mismatch.
    Crc,
    /// The memory driver refused an operation.
    Driver(T),
}

/// A per-tag entry of the descriptor table: where the latest valid record
/// of this tag lives, if anywhere.
#[derive(Clone, Copy, PartialEq, Eq, Debug)]
pub struct RecordDesc {
    pub tag: Word,
    pub ptr: Option<(Header, usize)>,
}

/// What the recovery scan found.
#[derive(Debug)]
pub struct InitStats {
    /// Non-erased words past the last valid record: unusable until an
    /// external erase.
    pub words_wasted: usize,
    /// Number of descriptors that point at a record after the scan.
    pub unique_tags: usize,
}

/// The record claimed at word offset `i` of region `m` lies in bounds and
/// its stored checksum matches the one recomputed over its words.
pub open spec fn rec_valid<H: StorageHasher32>(m: Seq<u32>, i: int) -> bool {
    &&& 0 <= i
    &&& i + HEADER_WORDS <= m.len()
    &&& rec_end(m, i) <= m.len()
    &&& m[i + 2] == H::spec_hash(crc_input(m, i))
}

/// First word offset past the record at `i`.
pub open spec fn rec_end(m: Seq<u32>, i: int) -> int {
    i + HEADER_WORDS + size_in_words(m[i + 1] as nat)
}

/// The words a record checksum is computed over: the header without its
/// crc word, then the payload including the pad word.
pub open spec fn crc_input(m: Seq<u32>, i: int) -> Seq<u32> {
    m.subrange(i, i + 2) + m.subrange(i + HEADER_WORDS, rec_end(m, i))
}

/// The header words of the record at `i`.
pub open spec fn header_at(m: Seq<u32>, i: int) -> Header {
    Header { tag: m[i], sz: m[i + 1], crc: m[i + 2] }
}

/// The payload bytes of the record at `off`: its payload words unpacked
/// little-endian, truncated to the stored byte size.
pub open spec fn payload_bytes(m: Seq<u32>, off: int) -> Seq<u8> {
    words_to_bytes(m.subrange(off + HEADER_WORDS, rec_end(m, off))).take(m[off + 1] as int)
}

/// The checksum stored for a fresh record with tag `tag` and payload `p`.
pub open spec fn rec_crc<H: StorageHasher32>(tag: u32, p: Seq<u8>) -> u32 {
    H::spec_hash(seq![tag, p.len() as u32] + payload_words(p))
}

/// The words a fresh record with tag `tag` and payload `p` occupies.
pub open spec fn rec_words<H: StorageHasher32>(tag: u32, p: Seq<u8>) -> Seq<u32> {
    seq![tag, p.len() as u32, rec_crc::<H>(tag, p)] + payload_words(p)
}

/// The region after a successful append: the record's words at the old
/// cursor `cur`, every other word untouched.
pub open spec fn mem_after_append<H: StorageHasher32>(
    m: Seq<u32>,
    cur: int,
    tag: u32,
    p: Seq<u8>,
) -> Seq<u32> {
    m.subrange(0, cur) + rec_words::<H>(tag, p) + m.subrange(
        cur + HEADER_WORDS + size_in_words(p.len()),
        m.len() as int,
    )
}

/// Offsets of the records the recovery scan accepts when started at `i`,
/// in scan order: from a hit the scan jumps past the whole record, from a
/// miss it advances a single word.
pub open spec fn scan<H: StorageHasher32>(m: Seq<u32>, i: int) -> Seq<int>
    decreases m.len() - i,
{
    if i + HEADER_WORDS > m.len() {
        Seq::empty()
    } else if rec_valid::<H>(m, i) {
        seq![i] + scan::<H>(m, rec_end(m, i))
    } else {
        scan::<H>(m, i + 1)
    }
}

/// Offset of the latest accepted record carrying tag `t`, if any.
pub open spec fn latest(m: Seq<u32>, offs: Seq<int>, t: u32) -> Option<int>
    decreases offs.len(),
{
    if offs.len() == 0 {
        None
    } else if m[offs.last()] == t {
        Some(offs.last())
    } else {
        latest(m, offs.drop_last(), t)
    }
}

/// End of the last accepted record; the waste scan starts here.
pub open spec fn scan_end(m: Seq<u32>, offs: Seq<int>) -> int {
    if offs.len() == 0 {
        0
    } else {
        rec_end(m, offs.last())
    }
}

/// The append cursor the scan reconstructs over `[from, upto)`: one past
/// the last non-erased word in the range, or `from` if the whole range is
/// erased.
pub open spec fn waste_end(m: Seq<u32>, from: int, upto: int) -> int
    decreases upto - from,
{
    if upto <= from {
        from
    } else if m[upto - 1] != ERASED {
        upto
    } else {
        waste_end(m, from, upto - 1)
    }
}

/// Number of non-erased words in `[from, upto)`.
pub open spec fn waste_count(m: Seq<u32>, from: int, upto: int) -> nat
    decreases upto - from,
{
    if upto <= from {
        0
    } else if m[upto - 1] != ERASED {
        waste_count(m, from, upto - 1) + 1
    } else {
        waste_count(m, from, upto - 1)
    }
}

/// Number of descriptors that point at a record.
pub open spec fn count_mapped(list: Seq<RecordDesc>) -> nat
    decreases list.len(),
{
    if list.len() == 0 {
        0
    } else if list.last().ptr is Some {
        count_mapped(list.drop_last()) + 1
    } else {
        count_mapped(list.drop_last())
    }
}

/// A mapped descriptor points below the end of the region, far enough in
/// that its record's payload lies in bounds.
pub open spec fn desc_in_bounds(m: Seq<u32>, d: RecordDesc) -> bool {
    match d.ptr {
        Some((h, off)) => off + HEADER_WORDS <= m.len() && rec_end(m, off as int) <= m.len(),
        None => true,
    }
}

/// Every offset the scan accepts from `i` on carries a valid record that
/// starts at or after `i` and ends at or before the end of the last one.
pub proof fn lemma_scan_bounds<H: StorageHasher32>(m: Seq<u32>, i: int)
    requires
        0 <= i,
    ensures
        forall|j: int|
            0 <= j < scan::<H>(m, i).len() ==> {
                let off = #[trigger] scan::<H>(m, i)[j];
                &&& i <= off
                &&& rec_valid::<H>(m, off)
                &&& rec_end(m, off) <= scan_end(m, scan::<H>(m, i))
            },
    decreases m.len() - i,
{
    let s = scan::<H>(m, i);
    if i + HEADER_WORDS > m.len() {
    } else if rec_valid::<H>(m, i) {
        let e = rec_end(m, i);
        let tail = scan::<H>(m, e);
        lemma_scan_bounds::<H>(m, e);
        assert(s == seq![i] + tail);
        assert(s[0] == i);
        if tail.len() == 0 {
            assert(s.last() == i);
            assert(scan_end(m, s) == rec_end(m, i));
        } else {
            assert(s.last() == tail[tail.len() - 1]);
            assert(scan_end(m, s) == scan_end(m, tail));
            assert(e <= tail[tail.len() - 1]);
            assert(rec_end(m, tail[tail.len() - 1]) <= scan_end(m, tail));
            assert(rec_end(m, i) == e <= scan_end(m, tail));
        }
        assert forall|j: int| 0 <= j < s.len() implies {
            let off = #[trigger] s[j];
            &&& i <= off
            &&& rec_valid::<H>(m, off)
            &&& rec_end(m, off) <= scan_end(m, s)
        } by {
            if j == 0 {
                assert(s[0] == i);
            } else {
                assert(s[j] == tail[j - 1]);
            }
        }
    } else {
        lemma_scan_bounds::<H>(m, i + 1);
        assert(s == scan::<H>(m, i + 1));
    }
}

/// When `latest` names an offset, that offset is one of the accepted
/// ones and its stored tag is the one asked for.
pub proof fn lemma_latest_in(m: Seq<u32>, offs: Seq<int>, t: u32, off: int)
    requires
        latest(m, offs, t) == Some(off),
    ensures
        offs.contains(off),
        m[off] == t,
    decreases offs.len(),
{
    if offs.len() > 0 {
        if m[offs.last()] == t {
            assert(offs[offs.len() - 1] == off);
        } else {
            lemma_latest_in(m, offs.drop_last(), t, off);
            let j = choose|j: int| 0 <= j < offs.drop_last().len() && offs.drop_last()[j] == off;
            assert(offs[j] == off);
        }
    }
}

/// The reconstructed cursor lies between the end of the last record and
/// the end of the region.
pub proof fn lemma_waste_end_bounds(m: Seq<u32>, from: int, upto: int)
    requires
        from <= upto,
    ensures
        from <= waste_end(m, from, upto) <= upto,
    decreases upto - from,
{
    if upto > from && m[upto - 1] == ERASED {
        lemma_waste_end_bounds(m, from, upto - 1);
    }
}

/// Validity, bounds, header and payload of a record depend only on the
/// words of its own range: two regions of equal length that agree there
/// agree on all of them.
pub proof fn lemma_record_frame<H: StorageHasher32>(m1: Seq<u32>, m2: Seq<u32>, off: int)
    requires
        m1.len() == m2.len(),
        0 <= off,
        off + HEADER_WORDS <= m1.len(),
        rec_end(m1, off) <= m1.len(),
        forall|j: int| off <= j < rec_end(m1, off) ==> m1[j] == m2[j],
    ensures
        rec_end(m2, off) == rec_end(m1, off),
        header_at(m2, off) == header_at(m1, off),
        crc_input(m2, off) == crc_input(m1, off),
        payload_bytes(m2, off) == payload_bytes(m1, off),
        rec_valid::<H>(m1, off) <==> rec_valid::<H>(m2, off),
{
    assert(m2[off + 1] == m1[off + 1]);
    assert(crc_input(m2, off) =~= crc_input(m1, off));
    assert(m2.subrange(off + HEADER_WORDS, rec_end(m2, off)) =~= m1.subrange(
        off + HEADER_WORDS,
        rec_end(m1, off),
    ));
}

/// A freshly appended record reads back exactly its payload: the words
/// stored for payload `p` under `tag`, unpacked and truncated to `p`'s
/// length, are `p` again.
pub proof fn lemma_fresh_record_payload<H: StorageHasher32>(
    m: Seq<u32>,
    c: int,
    tag: u32,
    p: Seq<u8>,
)
    requires
        0 <= c,
        p.len() <= u32::MAX,
        c + HEADER_WORDS + size_in_words(p.len()) <= m.len(),
        m.subrange(c, c + HEADER_WORDS + size_in_words(p.len())) == rec_words::<H>(tag, p),
    ensures
        rec_end(m, c) == c + HEADER_WORDS + size_in_words(p.len()),
        header_at(m, c) == (Header { tag, sz: p.len() as u32, crc: rec_crc::<H>(tag, p) }),
        rec_valid::<H>(m, c),
        payload_bytes(m, c) == p,
{
    lemma_payload_round_trip(p);
    let pw = size_in_words(p.len()) as int;
    let sub = m.subrange(c, c + HEADER_WORDS + pw);
    let rw = rec_words::<H>(tag, p);
    assert(m[c] == sub[0] && m[c + 1] == sub[1] && m[c + 2] == sub[2]);
    assert(m[c + 1] == p.len() as u32);
    assert(m[c + 1] as nat == p.len());
    assert(rec_end(m, c) == c + HEADER_WORDS + pw);
    assert(m.subrange(c + HEADER_WORDS, rec_end(m, c)) =~= payload_words(p)) by {
        let tail = m.subrange(c + HEADER_WORDS, c + HEADER_WORDS + pw);
        assert(forall|i: int| 0 <= i < pw ==> #[trigger] tail[i] == sub[HEADER_WORDS + i]);
    }
    assert(crc_input(m, c) =~= seq![tag, p.len() as u32] + payload_words(p));
}

/// The storage engine: a memory handle and the append cursor.
pub struct Storage<S, H> {
    storage: S,
    cur_word: usize,
    hasher: PhantomData<H>,
}

impl<S, H> Storage<S, H> where S: StorageMem, H: StorageHasher32 {
    /// The words of the region.
    pub closed spec fn mem(self) -> Seq<u32> {
        self.storage.view()
    }

    /// The append cursor, in words.
    pub closed spec fn cur(self) -> nat {
        self.cur_word as nat
    }

    /// The cursor is inside the region and the region's byte size fits
    /// the address space.
    pub open spec fn wf(self) -> bool {
        &&& self.cur() <= self.mem().len()
        &&& self.mem().len() * 4 <= usize::MAX
    }

    /// Free space between the cursor and the end of the region, in bytes.
    pub open spec fn free_bytes(self) -> int {
        self.mem().len() * 4 - self.cur() * 4
    }

    /// An engine over `storage` with the cursor at the start; `init`
    /// places the cursor from what the region holds.
    pub fn new(storage: S) -> (r: Self)
        requires
            storage.view().len() * 4 <= usize::MAX,
        ensures
            r.wf(),
            r.mem() == storage.view(),
            r.cur() == 0,
    {
        Self { storage, cur_word: 0, hasher: PhantomData }
    }

    /// Give the region back to the caller, e.g. for an external erase;
    /// the engine is recreated over it with `new` and `init`.
    pub fn into_inner(self) -> (r: S)
        ensures
            r.view() == self.mem(),
    {
        let Storage { storage, cur_word: _, hasher: _ } = self;
        storage
    }

    /// Total amount of occupied storage space in bytes.
    pub fn len(&self) -> (r: usize)
        requires
            self.wf(),
        ensures
            r == self.cur() * 4,
    {
        self.cur_word * WORD_SZ
    }

    /// Total storage space in bytes.
    pub fn capacity(&self) -> (r: usize)
        requires
            self.wf(),
        ensures
            r == self.mem().len() * 4,
    {
        self.storage.len() * WORD_SZ
    }

    fn free_space(&self) -> (r: usize)
        requires
            self.wf(),
        ensures
            r == self.free_bytes(),
    {
        self.capacity() - self.cur_word * WORD_SZ
    }

    fn is_ffed(word: Word) -> (r: bool)
        ensures
            r == (word == ERASED),
    {
        word == ERASED
    }

    /// Try to parse and check the record claimed at word offset `idx`:
    /// `Some` exactly when its payload lies in bounds and the stored
    /// checksum matches the one recomputed from the stored words.
    fn validate_record(&self, idx: usize, hasher: &mut H) -> (r: Option<Header>)
        requires
            self.wf(),
            idx + HEADER_WORDS <= self.mem().len(),
        ensures
            r is Some <==> rec_valid::<H>(self.mem(), idx as int),
            r is Some ==> r == Some(header_at(self.mem(), idx as int)),
            final(hasher).fed() == old(hasher).fed() || final(hasher).fed() == crc_input(
                self.mem(),
                idx as int,
            ),
    {
        let ghost m = self.mem();
        let tag = self.storage.read(idx);
        let len_in_bytes = self.storage.read(idx + 1);
        let len_in_words = convert_sz_in_words(len_in_bytes as usize);
        let crc = self.storage.read(idx + 2);

        let payload_start_idx = idx + HEADER_WORDS;
        let capacity = self.storage.len();
        // Check the payload slice is not out of bounds.
        if len_in_words > capacity - payload_start_idx {
            assert(!rec_valid::<H>(m, idx as int));
            return None;
        }
        let payload_end_idx = payload_start_idx + len_in_words;

        // Recompute the checksum over the stored words.
        hasher.reset();
        let header_part = self.storage.read_slice(idx, idx + 2);
        hasher.write32(header_part);
        let payload_slice = self.storage.read_slice(payload_start_idx, payload_end_idx);
        hasher.write32(payload_slice);
        let calc_crc = hasher.finish();
        proof {
            assert(hasher.fed() =~= crc_input(m, idx as int));
        }

        if crc != calc_crc {
            return None;
        }

        Some(Header { tag, sz: len_in_bytes, crc })
    }

    /// Scan the region and point each descriptor at the latest valid
    /// record carrying its tag; descriptors whose tag never occurs keep
    /// their entry.  Returns how many words past the last valid record
    /// are not erased (wasted) and how many descriptors are mapped.
    ///
    /// The scan tries to parse a record at every offset, jumping past a
    /// hit and advancing a single word on a miss, so a torn header whose
    /// stored size is garbage cannot hide a later valid record.  After
    /// the last hit the rest of the region is checked for the erased
    /// pattern and the cursor lands past the last non-erased word.
    /// The hasher is scratch state: afterwards it holds whatever the
    /// last checksum recomputation fed it.
    pub fn init(&mut self, list: &mut Vec<RecordDesc>, hasher: &mut H) -> (stats: InitStats)
        requires
            old(self).wf(),
            forall|k: int| 0 <= k < old(list)@.len() ==> (#[trigger] old(list)@[k]).tag == k,
            forall|j: int|
                0 <= j < scan::<H>(old(self).mem(), 0).len() ==> old(self).mem()[#[trigger] scan::<
                    H,
                >(old(self).mem(), 0)[j]] < old(list)@.len(),
        ensures
            final(self).wf(),
            final(self).mem() == old(self).mem(),
            final(list)@.len() == old(list)@.len(),
            forall|k: int| 0 <= k < old(list)@.len() ==> (#[trigger] final(list)@[k]).tag == k,
            ({
                let m = old(self).mem();
                let s = scan::<H>(m, 0);
                let lve = scan_end(m, s);
                &&& final(self).cur() == waste_end(m, lve, m.len() as int)
                &&& forall|k: int|
                    0 <= k < old(list)@.len() ==> (#[trigger] final(list)@[k]).ptr == (
                    match latest(m, s, old(list)@[k].tag) {
                        Some(off) => Some((header_at(m, off), off as usize)),
                        None => old(list)@[k].ptr,
                    })
                &&& stats.words_wasted == waste_count(m, lve, m.len() as int)
                &&& stats.unique_tags == count_mapped(final(list)@)
            }),
    {
        let ghost m = self.mem();
        let ghost s_all = scan::<H>(m, 0);
        let mut stats = InitStats { words_wasted: 0, unique_tags: 0 };
        let mut idx: usize = 0;
        let mut last_valid_end: usize = 0;
        let capacity = self.storage.len();
        let ghost mut done: Seq<int> = Seq::empty();
        proof {
            assert(done + scan::<H>(m, 0) =~= s_all);
        }

        // Scan through the whole region to find all valid records.
        while idx + HEADER_WORDS <= capacity
            invariant
                self.wf(),
                m == self.mem(),
                m == old(self).mem(),
                capacity == m.len(),
                idx <= capacity,
                last_valid_end <= idx,
                done + scan::<H>(m, idx as int) == s_all,
                last_valid_end == scan_end(m, done),
                list@.len() == old(list)@.len(),
                forall|k: int| 0 <= k < list@.len() ==> (#[trigger] list@[k]).tag == k,
                forall|k: int|
                    0 <= k < list@.len() ==> (#[trigger] list@[k]).ptr == (match latest(
                        m,
                        done,
                        list@[k].tag,
                    ) {
                        Some(off) => Some((header_at(m, off), off as usize)),
                        None => old(list)@[k].ptr,
                    }),
                forall|j: int| 0 <= j < s_all.len() ==> m[#[trigger] s_all[j]] < list@.len(),
            decreases capacity - idx,
        {
            let res = self.validate_record(idx, hasher);
            match res {
                Some(header) => {
                    let ghost done0 = done;
                    let ghost idx0 = idx as int;
                    proof {
                        assert(rec_valid::<H>(m, idx0));
                        assert(scan::<H>(m, idx0) =~= seq![idx0] + scan::<H>(
                            m,
                            rec_end(m, idx0),
                        ));
                        assert(s_all[done.len() as int] == idx0);
                        assert(m[idx0] < list@.len());
                        assert(header.tag == m[idx0]);
                    }
                    let t = header.tag as usize;
                    list.set(t, RecordDesc { tag: header.tag, ptr: Some((header, idx)) });
                    let payload_sz_in_words = convert_sz_in_words(header.sz as usize);
                    idx = idx + HEADER_WORDS + payload_sz_in_words;
                    last_valid_end = idx;
                    proof {
                        done = done0.push(idx0);
                        assert(done.drop_last() =~= done0);
                        assert(done.last() == idx0);
                        assert(done + scan::<H>(m, idx as int) =~= done0 + (seq![idx0]
                            + scan::<H>(m, rec_end(m, idx0))));
                        assert(scan_end(m, done) == rec_end(m, idx0));
                        assert(forall|k: int|
                            0 <= k < list@.len() && k != t ==> latest(
                                m,
                                done,
                                (#[trigger] list@[k]).tag,
                            ) == latest(m, done0, list@[k].tag));
                        assert(latest(m, done, list@[t as int].tag) == Some(idx0));
                    }
                }
                None => {
                    proof {
                        assert(scan::<H>(m, idx as int) == scan::<H>(m, idx as int + 1));
                    }
                    idx = idx + 1;
                }
            }
        }
        proof {
            assert(scan::<H>(m, idx as int) =~= Seq::<int>::empty());
            assert(done =~= s_all);
        }

        // Scan from the last record's end to make sure the rest of the
        // region is still erased; anything else is wasted space.
        let mut size = last_valid_end;
        let ghost lve = last_valid_end as int;
        let mut j = last_valid_end;
        while j < capacity
            invariant
                self.wf(),
                m == self.mem(),
                m == old(self).mem(),
                capacity == m.len(),
                lve <= j <= capacity,
                lve <= size <= j || (size == lve && j == lve),
                size == waste_end(m, lve, j as int),
                stats.words_wasted == waste_count(m, lve, j as int),
                stats.words_wasted <= j,
            decreases capacity - j,
        {
            if !Self::is_ffed(self.storage.read(j)) {
                size = j + 1;
                stats.words_wasted = stats.words_wasted + 1;
            }
            j = j + 1;
        }
        self.cur_word = size;

        // Count the mapped descriptors.
        let n = list.len();
        let mut k: usize = 0;
        let mut uniq: usize = 0;
        while k < n
            invariant
                n == list@.len(),
                k <= n,
                uniq <= k,
                uniq == count_mapped(list@.take(k as int)),
            decreases n - k,
        {
            if list[k].ptr.is_some() {
                uniq = uniq + 1;
            }
            proof {
                assert(list@.take(k as int + 1).drop_last() =~= list@.take(k as int));
                assert(list@.take(k as int + 1).last() == list@[k as int]);
            }
            k = k + 1;
        }
        stats.unique_tags = uniq;
        proof {
            assert(list@.take(n as int) =~= list@);
        }
        stats
    }

    /// Append a record with `record`'s tag and the given payload, then
    /// point `record` at it.
    ///
    /// Fails with `OutOfMemory` exactly when header plus payload do not
    /// fit into the free space.  A driver failure leaves the cursor and
    /// the descriptor untouched and no word outside the attempted record
    /// range changed; the partial record fails validation at the next
    /// scan because its crc word is written last.
    #[verifier::rlimit(60)]
    pub fn update(&mut self, record: &mut RecordDesc, payload: &[u8], hasher: &mut H) -> (r:
        Result<(), Error<S::Error>>)
        requires
            old(self).wf(),
            payload@.len() <= u32::MAX,
            payload@.len() + 12 <= usize::MAX,
        ensures
            final(self).wf(),
            final(self).mem().len() == old(self).mem().len(),
            final(record).tag == old(record).tag,
            r matches Err(e) ==> (e is OutOfMemory || e is Driver),
            (r matches Err(e) && e is OutOfMemory) <==> old(self).free_bytes() < 12
                + payload@.len(),
            (r matches Err(e) && e is OutOfMemory) ==> *final(self) == *old(self)
                && *final(record) == *old(record) && *final(hasher) == *old(hasher),
            r is Ok ==> ({
                let c = old(self).cur() as int;
                let pw = size_in_words(payload@.len()) as int;
                &&& final(self).cur() == c + HEADER_WORDS + pw
                &&& final(self).mem() == old(self).mem().subrange(0, c) + rec_words::<H>(
                    old(record).tag,
                    payload@,
                ) + old(self).mem().subrange(
                    c + HEADER_WORDS + pw,
                    old(self).mem().len() as int,
                )
                &&& forall|i: int|
                    c <= i < c + HEADER_WORDS + pw ==> old(self).mem()[i] == ERASED
                &&& *final(record) == RecordDesc {
                    tag: old(record).tag,
                    ptr: Some(
                        (
                            Header {
                                tag: old(record).tag,
                                sz: payload@.len() as u32,
                                crc: rec_crc::<H>(old(record).tag, payload@),
                            },
                            old(self).cur() as usize,
                        ),
                    ),
                }
                &&& rec_valid::<H>(final(self).mem(), c)
                &&& rec_end(final(self).mem(), c) == c + HEADER_WORDS + pw
                &&& desc_in_bounds(final(self).mem(), *final(record))
                &&& final(hasher).fed() == seq![old(record).tag, payload@.len() as u32]
                    + payload_words(payload@)
            }),
            (r matches Err(e) && e is Driver) ==> ({
                let c = old(self).cur() as int;
                let pw = size_in_words(payload@.len()) as int;
                &&& final(self).cur() == old(self).cur()
                &&& *final(record) == *old(record)
                &&& forall|i: int|
                    0 <= i < old(self).mem().len() && !(c <= i < c + HEADER_WORDS + pw)
                        ==> final(self).mem()[i] == old(self).mem()[i]
            }),
    {
        let ghost m0 = self.mem();
        let ghost len_total = m0.len() as int;
        let payload_len = payload.len();
        let record_len = HEADER_WORDS * WORD_SZ + payload_len;
        if self.free_space() < record_len {
            return Err(Error::OutOfMemory);
        }
        let ghost c = self.cur() as int;
        let ghost pw = size_in_words(payload@.len()) as int;
        let ghost l = payload@.len() as int;
        proof {
            // The free-space check is in bytes on the unpadded size; the
            // padded record still fits because free space is word-granular.
            assert(4 * pw <= l + 3 && l <= 4 * pw);
            assert(4 * (len_total - c) >= 12 + l);
            assert(c + HEADER_WORDS + pw <= len_total);
        }

        let header_idx = self.cur_word;
        // Fill the header; the crc slot stays erased until the end.
        let tag = record.tag;
        match self.storage.write(header_idx, tag) {
            Ok(_) => {}
            Err(e) => {
                return Err(Error::Driver(e));
            }
        }
        match self.storage.write(header_idx + 1, payload_len as Word) {
            Ok(_) => {}
            Err(e) => {
                return Err(Error::Driver(e));
            }
        }

        let payload_idx = header_idx + HEADER_WORDS;
        let full_words = payload_len / WORD_SZ;
        proof {
            lemma_padded_len(payload@);
            lemma_bytes_to_words_len(padded(payload@));
        }
        // Copy the payload word by word.
        let mut k: usize = 0;
        while k < full_words
            invariant
                self.wf(),
                self.cur() == c,
                self.mem().len() == len_total,
                m0 == old(self).mem(),
                c == old(self).cur(),
                m0.len() == len_total,
                4 * (len_total - c) >= 12 + l,
                c + HEADER_WORDS + pw <= len_total,
                pw == size_in_words(payload@.len()),
                l == payload@.len(),
                l <= u32::MAX,
                full_words == l / 4,
                k <= full_words,
                full_words <= pw,
                header_idx == c,
                payload_idx == c + HEADER_WORDS,
                tag == old(record).tag,
                *record == *old(record),
                payload_words(payload@).len() == pw,
                self.mem()[c] == tag,
                self.mem()[c + 1] == l as u32,
                forall|j: int|
                    c + HEADER_WORDS <= j < c + HEADER_WORDS + k ==> self.mem()[j]
                        == payload_words(payload@)[j - (c + HEADER_WORDS)],
                forall|j: int|
                    0 <= j < len_total && !(c <= j < c + 2) && !(c + HEADER_WORDS <= j < c
                        + HEADER_WORDS + k) ==> self.mem()[j] == m0[j],
                m0[c] == ERASED,
                m0[c + 1] == ERASED,
                forall|j: int| c + HEADER_WORDS <= j < c + HEADER_WORDS + k ==> m0[j] == ERASED,
            decreases full_words - k,
        {
            let b0 = payload[k * WORD_SZ];
            let b1 = payload[k * WORD_SZ + 1];
            let b2 = payload[k * WORD_SZ + 2];
            let b3 = payload[k * WORD_SZ + 3];
            let w = le_word(b0, b1, b2, b3);
            match self.storage.write(payload_idx + k, w) {
                Ok(_) => {}
                Err(e) => {
                    return Err(Error::Driver(e));
                }
            }
            proof {
                lemma_padded_len(payload@);
                lemma_bytes_to_words_index(padded(payload@), k as int);
            }
            k = k + 1;
        }
        // Residual bytes, padded with the fill byte to a whole word.
        let rem = payload_len % WORD_SZ;
        if rem != 0 {
            let base = full_words * WORD_SZ;
            let b0 = payload[base];
            let b1 = if rem > 1 {
                payload[base + 1]
            } else {
                FILL
            };
            let b2 = if rem > 2 {
                payload[base + 2]
            } else {
                FILL
            };
            let w = le_word(b0, b1, b2, FILL);
            match self.storage.write(payload_idx + full_words, w) {
                Ok(_) => {}
                Err(e) => {
                    return Err(Error::Driver(e));
                }
            }
            proof {
                lemma_padded_len(payload@);
                lemma_bytes_to_words_index(padded(payload@), full_words as int);
                assert(self.mem()[c + HEADER_WORDS + full_words as int] == payload_words(
                    payload@,
                )[full_words as int]);
            }
        }
        proof {
            assert(pw == full_words + if l % 4 == 0 { 0int } else { 1int });
            assert(forall|j: int|
                c + HEADER_WORDS <= j < c + HEADER_WORDS + pw ==> self.mem()[j] == payload_words(
                    payload@,
                )[j - (c + HEADER_WORDS)]);
        }

        // Calculate the checksum over the stored words, so that any
        // driver corruption is caught by a later scan.
        hasher.reset();
        let header_part = self.storage.read_slice(header_idx, header_idx + 2);
        hasher.write32(header_part);
        let pw_total = convert_sz_in_words(payload_len);
        let payload_slice = self.storage.read_slice(payload_idx, payload_idx + pw_total);
        hasher.write32(payload_slice);
        let checksum = hasher.finish();
        proof {
            assert(hasher.fed() =~= seq![tag, l as u32] + payload_words(payload@));
            assert(checksum == rec_crc::<H>(tag, payload@));
        }
        match self.storage.write(header_idx + 2, checksum) {
            Ok(_) => {}
            Err(e) => {
                return Err(Error::Driver(e));
            }
        }

        // Point the descriptor at the new record and advance the cursor.
        *record = RecordDesc {
            tag,
            ptr: Some((Header { tag, sz: payload_len as u32, crc: checksum }, header_idx)),
        };
        self.cur_word = self.cur_word + HEADER_WORDS + pw_total;

        proof {
            assert(self.mem() =~= m0.subrange(0, c) + rec_words::<H>(tag, payload@)
                + m0.subrange(c + HEADER_WORDS + pw, len_total));
            assert(rec_end(self.mem(), c) == c + HEADER_WORDS + pw);
            assert(crc_input(self.mem(), c) =~= seq![tag, l as u32] + payload_words(payload@));
            assert(rec_valid::<H>(self.mem(), c));
        }
        Ok(())
    }

    /// Copy the payload bytes of the record at `off` out of the region.
    fn read_payload(&self, off: usize) -> (b: Vec<u8>)
        requires
            self.wf(),
            off + HEADER_WORDS <= self.mem().len(),
            rec_end(self.mem(), off as int) <= self.mem().len(),
        ensures
            b@ == payload_bytes(self.mem(), off as int),
    {
        let ghost m = self.mem();
        let sz = self.storage.read(off + 1);
        let sz_bytes = sz as usize;
        let ghost sub = m.subrange(off + HEADER_WORDS, rec_end(m, off as int));
        proof {
            lemma_words_to_bytes_len(sub);
        }
        let mut out: Vec<u8> = Vec::new();
        let mut j: usize = 0;
        while j < sz_bytes
            invariant
                self.wf(),
                m == self.mem(),
                sz_bytes == sz,
                sz == m[off as int + 1],
                off + HEADER_WORDS <= m.len(),
                rec_end(m, off as int) <= m.len(),
                sub == m.subrange(off + HEADER_WORDS, rec_end(m, off as int)),
                j <= sz_bytes,
                sz_bytes <= 4 * sub.len(),
                out@.len() == j,
                forall|i: int| 0 <= i < j ==> out@[i] == words_to_bytes(sub)[i],
            decreases sz_bytes - j,
        {
            let w = self.storage.read(off + HEADER_WORDS + j / WORD_SZ);
            let b = word_byte(w, j % WORD_SZ);
            proof {
                lemma_words_to_bytes_index(sub, j as int);
                assert(sub[j as int / 4] == m[off + HEADER_WORDS + j as int / 4]);
            }
            out.push(b);
            j = j + 1;
        }
        proof {
            assert(out@ =~= payload_bytes(m, off as int));
        }
        out
    }

    /// The current payload of `record`'s field, without re-validation:
    /// `None` if the descriptor is unmapped, its payload bytes if the
    /// stored tag agrees with the descriptor, and `CorruptedRecordOnGet`
    /// if it does not.
    pub fn get(&self, record: &RecordDesc) -> (r: Result<Option<Vec<u8>>, Error<S::Error>>)
        requires
            self.wf(),
            desc_in_bounds(self.mem(), *record),
        ensures
            match record.ptr {
                None => r matches Ok(o) && o is None,
                Some((h, off)) => {
                    if self.mem()[off as int] != record.tag {
                        r matches Err(e) && e is CorruptedRecordOnGet
                    } else {
                        r matches Ok(o) && o matches Some(b) && b@ == payload_bytes(
                            self.mem(),
                            off as int,
                        )
                    }
                },
            },
    {
        match record.ptr {
            Some((_header, idx)) => {
                // Basic sanity check against the stored header.
                if self.storage.read(idx) != record.tag {
                    return Err(Error::CorruptedRecordOnGet);
                }
                Ok(Some(self.read_payload(idx)))
            }
            None => Ok(None),
        }
    }

    /// Like [`Self::get`], but re-validates the record's checksum first
    /// and fails with `Crc` when the stored record no longer checks out.
    pub fn get_checked(&self, record: &RecordDesc, hasher: &mut H) -> (r: Result<
        Option<Vec<u8>>,
        Error<S::Error>,
    >)
        requires
            self.wf(),
            desc_in_bounds(self.mem(), *record),
        ensures
            match record.ptr {
                None => r matches Ok(o) && o is None,
                Some((h, off)) => {
                    if self.mem()[off as int] != record.tag {
                        r matches Err(e) && e is CorruptedRecordOnGet
                    } else if !rec_valid::<H>(self.mem(), off as int) {
                        r matches Err(e) && e is Crc
                    } else {
                        r matches Ok(o) && o matches Some(b) && b@ == payload_bytes(
                            self.mem(),
                            off as int,
                        )
                    }
                },
            },
    {
        match record.ptr {
            Some((_header, idx)) => {
                if self.storage.read(idx) != record.tag {
                    return Err(Error::CorruptedRecordOnGet);
                }
                match self.validate_record(idx, hasher) {
                    Some(_) => Ok(Some(self.read_payload(idx))),
                    None => Err(Error::Crc),
                }
            }
            None => Ok(None),
        }
    }
}

} // verus!
