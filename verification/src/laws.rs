//! The store's global guarantees, stated and proved once over the
//! engine's model: recovery after a restart, tolerance of torn writes,
//! rejection of corrupted records, and the latest-record tie-break.

use vstd::prelude::*;
use crate::words::{ERASED, HEADER_WORDS, size_in_words, lemma_payload_round_trip};
use crate::engine::{
    rec_valid, rec_end, rec_words, crc_input, scan, scan_end, latest, payload_bytes, waste_end,
    waste_count, lemma_record_frame, lemma_fresh_record_payload,
};
use crate::hasher::StorageHasher32;

verus! {

/// The records at `offs` sit back to back starting at `i`: each one
/// valid, each beginning where the one before it ends.
pub open spec fn chain<H: StorageHasher32>(m: Seq<u32>, i: int, offs: Seq<int>) -> bool
    decreases offs.len(),
{
    if offs.len() == 0 {
        true
    } else {
        &&& offs[0] == i
        &&& rec_valid::<H>(m, i)
        &&& chain::<H>(m, rec_end(m, i), offs.drop_first())
    }
}

/// Where the record after the chain would begin.
pub open spec fn chain_end(m: Seq<u32>, i: int, offs: Seq<int>) -> int {
    if offs.len() == 0 {
        i
    } else {
        rec_end(m, offs.last())
    }
}

/// The shape every history of successful updates on an erased region
/// produces: the records of `offs` packed from offset 0, the append
/// cursor right after them, everything from the cursor on still erased.
pub open spec fn region_clean<H: StorageHasher32>(m: Seq<u32>, offs: Seq<int>, cur: int) -> bool {
    &&& chain::<H>(m, 0, offs)
    &&& cur == chain_end(m, 0, offs)
    &&& forall|j: int| cur <= j < m.len() ==> m[j] == ERASED
}

/// Every record of a chain lies between the chain's start and its end.
pub proof fn lemma_chain_bounds<H: StorageHasher32>(m: Seq<u32>, i: int, offs: Seq<int>)
    requires
        0 <= i,
        chain::<H>(m, i, offs),
    ensures
        i <= chain_end(m, i, offs),
        forall|k: int|
            0 <= k < offs.len() ==> {
                let off = #[trigger] offs[k];
                &&& i <= off
                &&& rec_valid::<H>(m, off)
                &&& rec_end(m, off) <= chain_end(m, i, offs)
            },
    decreases offs.len(),
{
    if offs.len() > 0 {
        let e = rec_end(m, i);
        let tail = offs.drop_first();
        lemma_chain_bounds::<H>(m, e, tail);
        if tail.len() == 0 {
            assert(offs.last() == offs[0]);
        } else {
            assert(offs.last() == tail.last());
            assert(tail[tail.len() - 1] == tail.last());
            assert(chain_end(m, i, offs) == chain_end(m, e, tail));
        }
        assert forall|k: int| 0 <= k < offs.len() implies {
            let off = #[trigger] offs[k];
            &&& i <= off
            &&& rec_valid::<H>(m, off)
            &&& rec_end(m, off) <= chain_end(m, i, offs)
        } by {
            if k == 0 {
                assert(offs[0] == i);
            } else {
                assert(offs[k] == tail[k - 1]);
            }
        }
    }
}

/// A chain depends only on the words below its end: a region of the same
/// length that agrees there carries the same chain.
pub proof fn lemma_chain_frame<H: StorageHasher32>(
    m1: Seq<u32>,
    m2: Seq<u32>,
    i: int,
    offs: Seq<int>,
)
    requires
        0 <= i,
        chain::<H>(m1, i, offs),
        chain_end(m1, i, offs) <= m1.len(),
        m1.len() == m2.len(),
        forall|j: int| i <= j < chain_end(m1, i, offs) ==> m1[j] == m2[j],
    ensures
        chain::<H>(m2, i, offs),
        chain_end(m2, i, offs) == chain_end(m1, i, offs),
    decreases offs.len(),
{
    if offs.len() > 0 {
        let e = rec_end(m1, i);
        let tail = offs.drop_first();
        lemma_chain_bounds::<H>(m1, i, offs);
        assert(rec_end(m1, offs[0]) <= chain_end(m1, i, offs));
        lemma_record_frame::<H>(m1, m2, i);
        assert(rec_valid::<H>(m2, i));
        assert(rec_end(m2, i) == e);
        if tail.len() == 0 {
            assert(offs.last() == offs[0]);
            assert(chain_end(m2, i, offs) == rec_end(m2, offs[0]));
            assert(chain::<H>(m2, e, tail));
        } else {
            assert(offs.last() == tail.last());
            assert(tail[tail.len() - 1] == tail.last());
            assert(chain_end(m1, e, tail) == chain_end(m1, i, offs));
            lemma_chain_bounds::<H>(m1, e, tail);
            lemma_chain_frame::<H>(m1, m2, e, tail);
            assert(chain_end(m2, i, offs) == chain_end(m2, e, tail));
        }
        assert(chain::<H>(m2, e, tail));
        assert(chain::<H>(m2, i, offs));
    }
}

/// A chain followed by one more valid record right at its end is a chain
/// again.
pub proof fn lemma_chain_snoc<H: StorageHasher32>(m: Seq<u32>, i: int, offs: Seq<int>, c: int)
    requires
        0 <= i,
        chain::<H>(m, i, offs),
        c == chain_end(m, i, offs),
        rec_valid::<H>(m, c),
    ensures
        chain::<H>(m, i, offs.push(c)),
        chain_end(m, i, offs.push(c)) == rec_end(m, c),
    decreases offs.len(),
{
    if offs.len() == 0 {
        assert(offs.push(c)[0] == c);
        assert(c == i);
        assert(offs.push(c).drop_first() =~= Seq::<int>::empty());
        assert(offs.push(c).last() == c);
        assert(chain::<H>(m, rec_end(m, c), offs.push(c).drop_first()));
        assert(chain::<H>(m, i, offs.push(c)));
    } else {
        let e = rec_end(m, i);
        let tail = offs.drop_first();
        if tail.len() == 0 {
            assert(offs.last() == offs[0]);
        } else {
            assert(offs.last() == tail.last());
            assert(tail[tail.len() - 1] == tail.last());
        }
        assert(chain_end(m, e, tail) == chain_end(m, i, offs));
        lemma_chain_snoc::<H>(m, e, tail, c);
        assert(offs.push(c)[0] == offs[0]);
        assert(offs.push(c).drop_first() =~= tail.push(c));
        assert(offs.push(c).last() == c);
        assert(tail.push(c).last() == c);
        assert(chain::<H>(m, e, tail.push(c)));
        assert(chain::<H>(m, i, offs.push(c)));
    }
}

/// The first records of a chain are a chain.
pub proof fn lemma_chain_prefix<H: StorageHasher32>(m: Seq<u32>, i: int, offs: Seq<int>, n: int)
    requires
        0 <= i,
        0 <= n <= offs.len(),
        chain::<H>(m, i, offs),
    ensures
        chain::<H>(m, i, offs.take(n)),
        chain_end(m, i, offs.take(n)) == (if n == 0 {
            i
        } else {
            rec_end(m, offs[n - 1])
        }),
    decreases offs.len(),
{
    if n == 0 {
        assert(offs.take(0) =~= Seq::<int>::empty());
    } else {
        let e = rec_end(m, i);
        let tail = offs.drop_first();
        lemma_chain_prefix::<H>(m, e, tail, n - 1);
        assert(offs.take(n)[0] == offs[0]);
        assert(offs.take(n).drop_first() =~= tail.take(n - 1));
        assert(offs.take(n).len() == n);
        if n == 1 {
            assert(offs.take(1).last() == offs[0]);
        } else {
            assert(offs.take(n).last() == offs[n - 1]);
            assert(tail.take(n - 1).last() == tail[n - 2]);
            assert(tail[n - 2] == offs[n - 1]);
            assert(chain_end(m, e, tail.take(n - 1)) == rec_end(m, offs[n - 1]));
        }
    }
}

/// A scan started where no offset below the end of the region begins a
/// valid record accepts nothing.
pub proof fn lemma_scan_finds_nothing<H: StorageHasher32>(m: Seq<u32>, i: int)
    requires
        0 <= i,
        forall|j: int| i <= j < m.len() ==> !rec_valid::<H>(m, j),
    ensures
        scan::<H>(m, i) == Seq::<int>::empty(),
    decreases m.len() - i,
{
    if i + HEADER_WORDS <= m.len() {
        assert(!rec_valid::<H>(m, i));
        lemma_scan_finds_nothing::<H>(m, i + 1);
    }
}

/// The scan accepts exactly the records of a chain when no offset from
/// the chain's end on validates: it meets every record in order, jumps
/// over each, and rejects everything behind the last one.
pub proof fn lemma_scan_finds_chain<H: StorageHasher32>(m: Seq<u32>, i: int, offs: Seq<int>)
    requires
        0 <= i,
        chain::<H>(m, i, offs),
        forall|j: int| chain_end(m, i, offs) <= j < m.len() ==> !rec_valid::<H>(m, j),
    ensures
        scan::<H>(m, i) == offs,
    decreases offs.len(),
{
    if offs.len() == 0 {
        lemma_scan_finds_nothing::<H>(m, i);
    } else {
        assert(offs[0] == i && rec_valid::<H>(m, i));
        let e = rec_end(m, i);
        let tail = offs.drop_first();
        if tail.len() == 0 {
            assert(offs.last() == offs[0]);
        } else {
            assert(offs.last() == tail.last());
            assert(tail[tail.len() - 1] == tail.last());
        }
        assert(chain_end(m, e, tail) == chain_end(m, i, offs));
        lemma_scan_finds_chain::<H>(m, e, tail);
        assert(i + HEADER_WORDS <= m.len());
        assert(scan::<H>(m, i) == seq![i] + tail);
        assert(seq![i] + tail =~= offs);
    }
}

/// An erased range reconstructs the cursor at its own start and counts
/// no waste.
pub proof fn lemma_waste_erased(m: Seq<u32>, from: int, upto: int)
    requires
        from <= upto,
        forall|j: int| from <= j < upto ==> m[j] == ERASED,
    ensures
        waste_end(m, from, upto) == from,
        waste_count(m, from, upto) == 0,
    decreases upto - from,
{
    if upto > from {
        lemma_waste_erased(m, from, upto - 1);
    }
}

/// Recovery: a region in the clean shape whose erased tail validates
/// nowhere scans back to exactly its records and its cursor.  With the
/// scan's contract this says a restart rebuilds the same descriptor for
/// every tag — all reads after `init` agree with the reads before the
/// restart.  (A 32-bit checksum collision inside the erased tail is the
/// one thing the hypothesis has to exclude.)
pub proof fn lemma_recovery<H: StorageHasher32>(m: Seq<u32>, offs: Seq<int>, cur: int)
    requires
        region_clean::<H>(m, offs, cur),
        forall|j: int| cur <= j < m.len() ==> !rec_valid::<H>(m, j),
    ensures
        scan::<H>(m, 0) == offs,
        scan_end(m, scan::<H>(m, 0)) == cur,
        waste_end(m, cur, m.len() as int) == cur,
        waste_count(m, cur, m.len() as int) == 0,
{
    lemma_chain_bounds::<H>(m, 0, offs);
    if offs.len() > 0 {
        assert(offs[offs.len() - 1] == offs.last());
        assert(rec_valid::<H>(m, offs.last()));
    }
    assert(0 <= cur <= m.len());
    lemma_scan_finds_chain::<H>(m, 0, offs);
    lemma_waste_erased(m, cur, m.len() as int);
}

/// A successful update keeps the clean shape: the region afterwards is
/// clean for the record list grown by the new record, with the cursor
/// right after it.
pub proof fn lemma_update_keeps_clean<H: StorageHasher32>(
    m0: Seq<u32>,
    offs: Seq<int>,
    cur: int,
    m1: Seq<u32>,
    tag: u32,
    p: Seq<u8>,
)
    requires
        region_clean::<H>(m0, offs, cur),
        p.len() <= u32::MAX,
        cur + HEADER_WORDS + size_in_words(p.len()) <= m0.len(),
        m1 == m0.subrange(0, cur) + rec_words::<H>(tag, p) + m0.subrange(
            cur + HEADER_WORDS + size_in_words(p.len()),
            m0.len() as int,
        ),
    ensures
        region_clean::<H>(m1, offs.push(cur), cur + HEADER_WORDS + size_in_words(p.len())),
{
    let pw = size_in_words(p.len()) as int;
    let cur1 = cur + HEADER_WORDS + pw;
    lemma_payload_round_trip(p);
    lemma_chain_bounds::<H>(m0, 0, offs);
    assert(0 <= cur <= m0.len());
    assert(rec_words::<H>(tag, p).len() == HEADER_WORDS + pw);
    assert(m1.len() == m0.len());
    assert(forall|j: int| 0 <= j < cur ==> m1[j] == m0[j]);
    assert(forall|j: int| cur1 <= j < m1.len() ==> m1[j] == m0[j]);
    lemma_chain_frame::<H>(m0, m1, 0, offs);
    assert(m1.subrange(cur, cur1) =~= rec_words::<H>(tag, p));
    lemma_fresh_record_payload::<H>(m1, cur, tag, p);
    lemma_chain_snoc::<H>(m1, 0, offs, cur);
}

/// Round trip through a restart: after a successful update on a clean
/// region whose new erased tail validates nowhere, a full rescan accepts
/// exactly the old records plus the new one, maps the new record's tag
/// to it — the latest write wins — and the new record reads back exactly
/// the payload written.
pub proof fn lemma_round_trip_after_restart<H: StorageHasher32>(
    m0: Seq<u32>,
    offs: Seq<int>,
    cur: int,
    m1: Seq<u32>,
    tag: u32,
    p: Seq<u8>,
)
    requires
        region_clean::<H>(m0, offs, cur),
        p.len() <= u32::MAX,
        cur + HEADER_WORDS + size_in_words(p.len()) <= m0.len(),
        m1 == m0.subrange(0, cur) + rec_words::<H>(tag, p) + m0.subrange(
            cur + HEADER_WORDS + size_in_words(p.len()),
            m0.len() as int,
        ),
        forall|j: int|
            cur + HEADER_WORDS + size_in_words(p.len()) <= j < m1.len() ==> !rec_valid::<H>(
                m1,
                j,
            ),
    ensures
        scan::<H>(m1, 0) == offs.push(cur),
        latest(m1, scan::<H>(m1, 0), tag) == Some(cur),
        payload_bytes(m1, cur) == p,
        scan_end(m1, scan::<H>(m1, 0)) == cur + HEADER_WORDS + size_in_words(p.len()),
        waste_end(m1, cur + HEADER_WORDS + size_in_words(p.len()), m1.len() as int) == cur
            + HEADER_WORDS + size_in_words(p.len()),
{
    let cur1 = cur + HEADER_WORDS + size_in_words(p.len()) as int;
    lemma_update_keeps_clean::<H>(m0, offs, cur, m1, tag, p);
    lemma_recovery::<H>(m1, offs.push(cur), cur1);
    lemma_payload_round_trip(p);
    lemma_chain_bounds::<H>(m0, 0, offs);
    assert(m1.subrange(cur, cur1) =~= rec_words::<H>(tag, p));
    lemma_fresh_record_payload::<H>(m1, cur, tag, p);
    assert(offs.push(cur).last() == cur);
    assert(m1[cur] == tag);
}

/// Torn-write tolerance: truncate a clean region at any word boundary
/// `t` at or below the cursor — words below `t` kept, everything from
/// `t` on erased — and the scan finds exactly the records that were
/// fully written below the boundary.
pub proof fn lemma_truncation_recovery<H: StorageHasher32>(
    m0: Seq<u32>,
    offs: Seq<int>,
    cur: int,
    m1: Seq<u32>,
    t: int,
    n: int,
)
    requires
        region_clean::<H>(m0, offs, cur),
        0 <= t <= cur,
        m1.len() == m0.len(),
        forall|j: int| 0 <= j < t ==> m1[j] == m0[j],
        forall|j: int| t <= j < m1.len() ==> m1[j] == ERASED,
        0 <= n <= offs.len(),
        forall|k: int| 0 <= k < n ==> rec_end(m0, #[trigger] offs[k]) <= t,
        forall|j: int|
            chain_end(m0, 0, offs.take(n)) <= j < m1.len() ==> !rec_valid::<H>(m1, j),
    ensures
        scan::<H>(m1, 0) == offs.take(n),
{
    lemma_chain_prefix::<H>(m0, 0, offs, n);
    let pre = offs.take(n);
    let e = chain_end(m0, 0, pre);
    lemma_chain_bounds::<H>(m0, 0, offs);
    if n > 0 {
        assert(rec_end(m0, offs[n - 1]) <= t);
    }
    assert(e <= t);
    lemma_chain_bounds::<H>(m0, 0, pre);
    lemma_chain_frame::<H>(m0, m1, 0, pre);
    assert(chain_end(m1, 0, pre) == e);
    lemma_scan_finds_chain::<H>(m1, 0, pre);
}

/// Each record of a chain after the first begins exactly where its
/// predecessor ends.
pub proof fn lemma_chain_step<H: StorageHasher32>(m: Seq<u32>, i: int, offs: Seq<int>, k: int)
    requires
        0 <= i,
        chain::<H>(m, i, offs),
        0 <= k < offs.len() - 1,
    ensures
        offs[k + 1] == rec_end(m, offs[k]),
    decreases k,
{
    let e = rec_end(m, i);
    let tail = offs.drop_first();
    if k == 0 {
        assert(offs[0] == i);
        assert(chain::<H>(m, e, tail));
        assert(tail[0] == e);
        assert(offs[1] == tail[0]);
    } else {
        lemma_chain_step::<H>(m, e, tail, k - 1);
        assert(offs[k] == tail[k - 1]);
        assert(offs[k + 1] == tail[k]);
    }
}

/// Corrupting any word of one record of a clean region makes a rescan
/// find exactly the records before it, provided nothing from the broken
/// record on still validates (the corrupted record itself no longer
/// does, and what follows it starts mid-record or in the erased tail):
/// the broken record's tag reverts to its latest earlier record, or to
/// none, and every earlier tag keeps its mapping.
pub proof fn lemma_corruption_recovery<H: StorageHasher32>(
    m0: Seq<u32>,
    offs: Seq<int>,
    cur: int,
    m1: Seq<u32>,
    k: int,
    p1: int,
    w: u32,
)
    requires
        region_clean::<H>(m0, offs, cur),
        0 <= k < offs.len(),
        offs[k] <= p1 < rec_end(m0, offs[k]),
        m1 == m0.update(p1, w),
        forall|j: int| offs[k] <= j < m1.len() ==> !rec_valid::<H>(m1, j),
    ensures
        scan::<H>(m1, 0) == offs.take(k),
{
    lemma_chain_bounds::<H>(m0, 0, offs);
    lemma_chain_prefix::<H>(m0, 0, offs, k);
    let pre = offs.take(k);
    let e = chain_end(m0, 0, pre);
    if k == 0 {
        assert(e == 0);
        assert(offs[0] == 0);
    } else {
        lemma_chain_step::<H>(m0, 0, offs, k - 1);
        assert(e == rec_end(m0, offs[k - 1]));
        assert(e == offs[k]);
    }
    assert(e <= p1);
    assert(m1.len() == m0.len());
    assert(forall|j: int| 0 <= j < e ==> m1[j] == m0[j]);
    lemma_chain_frame::<H>(m0, m1, 0, pre);
    assert(chain_end(m1, 0, pre) == e);
    lemma_scan_finds_chain::<H>(m1, 0, pre);
}

/// Corruption is rejected: changing the stored checksum word of a valid
/// record invalidates it, and so does any other single-word change whose
/// recomputed checksum no longer matches the stored one.  (For a change
/// outside the checksum word, a 32-bit checksum collision is possible in
/// principle; the last hypothesis excludes exactly that.)
pub proof fn lemma_corruption_rejected<H: StorageHasher32>(
    m0: Seq<u32>,
    m1: Seq<u32>,
    off: int,
    p: int,
)
    requires
        rec_valid::<H>(m0, off),
        m0.len() == m1.len(),
        off <= p < rec_end(m0, off),
        m1[p] != m0[p],
        forall|j: int| 0 <= j < m0.len() && j != p ==> m1[j] == m0[j],
        p != off + 2 ==> m1[off + 2] != H::spec_hash(crc_input(m1, off)),
    ensures
        !rec_valid::<H>(m1, off),
{
    if p == off + 2 {
        assert(m1[off + 1] == m0[off + 1]);
        assert(crc_input(m1, off) =~= crc_input(m0, off));
    }
}

/// The tie-break among records sharing a tag: the mapped one is the one
/// nothing later in the accepted order shares a tag with — the later
/// record supersedes the earlier.
pub proof fn lemma_latest_supersedes(m: Seq<u32>, offs: Seq<int>, tag: u32, off: int)
    requires
        latest(m, offs, tag) == Some(off),
    ensures
        m[off] == tag,
        exists|j: int|
            0 <= j < offs.len() && offs[j] == off && (forall|k: int|
                j < k < offs.len() ==> m[#[trigger] offs[k]] != tag),
    decreases offs.len(),
{
    if offs.len() > 0 {
        if m[offs.last()] == tag {
            let j = offs.len() - 1;
            assert(offs[j] == off && (forall|k: int|
                j < k < offs.len() ==> m[#[trigger] offs[k]] != tag));
        } else {
            lemma_latest_supersedes(m, offs.drop_last(), tag, off);
            let j0 = choose|j: int|
                0 <= j < offs.drop_last().len() && offs.drop_last()[j] == off && (forall|k: int|
                    j < k < offs.drop_last().len() ==> m[#[trigger] offs.drop_last()[k]] != tag);
            assert(offs[j0] == off);
            assert(forall|k: int| j0 < k < offs.len() - 1 ==> m[#[trigger] offs[k]] != tag) by {
                assert(forall|k: int|
                    j0 < k < offs.len() - 1 ==> offs[k] == offs.drop_last()[k]);
            }
            assert(offs[j0] == off && (forall|k: int|
                j0 < k < offs.len() ==> m[#[trigger] offs[k]] != tag));
        }
    }
}

} // verus!
