//! The schema projection: a fixed set of named, typed fields over the
//! engine.  Each field gets a stable tag from its declaration order
//! (starting at 1; tag 0 stays reserved), a typed setter that serializes
//! the value into a record payload, and a typed getter that decodes the
//! stored payload back.

use vstd::prelude::*;
use vstd::pervasive::VecAdditionalExecFns;
use vstd::string::StringSliceAdditionalSpecFns;
use vstd::string::StringExecFns;
use crate::words::{
    HEADER_WORDS, size_in_words, word_bytes, word_of_bytes, le_word, word_byte,
    lemma_word_bytes_inverse,
};
use crate::engine::{
    Error, InitStats, RecordDesc, Storage, rec_valid, rec_end, scan, scan_end, latest, header_at,
    payload_bytes, waste_end, waste_count, count_mapped, lemma_scan_bounds, lemma_latest_in,
    lemma_waste_end_bounds, lemma_record_frame, lemma_fresh_record_payload, rec_words,
    mem_after_append,
};
use crate::hasher::StorageHasher32;
use crate::mem::StorageMem;

verus! {

/// Number of declared fields.
pub const FIELD_COUNT: usize = 7;

/// Descriptor table size: one slot per field plus the reserved slot 0.
pub const TABLE_SIZE: usize = 8;

pub const TAG_NAME: usize = 1;

pub const TAG_CALIB: usize = 2;

pub const TAG_CARA: usize = 3;

pub const TAG_FLAG: usize = 4;

pub const TAG_MODE: usize = 5;

pub const TAG_MY_STR: usize = 6;

pub const TAG_MY_BYTES: usize = 7;

/// The flight-mode example field: a four-variant enumeration stored as a
/// single byte.
#[derive(Clone, Copy, PartialEq, Eq, Debug)]
pub enum Mode {
    InAir,
    Lifting,
    Landing,
    OnGround,
}

/// The byte a mode is stored as.
pub open spec fn mode_code(m: Mode) -> u8 {
    match m {
        Mode::InAir => 0,
        Mode::Lifting => 1,
        Mode::Landing => 2,
        Mode::OnGround => 3,
    }
}

/// The mode a stored byte decodes to, if it is a mode at all.
pub open spec fn mode_of_code(b: u8) -> Option<Mode> {
    if b == 0 {
        Some(Mode::InAir)
    } else if b == 1 {
        Some(Mode::Lifting)
    } else if b == 2 {
        Some(Mode::Landing)
    } else if b == 3 {
        Some(Mode::OnGround)
    } else {
        None
    }
}

/// The byte a `bool` is stored as.
pub open spec fn bool_code(b: bool) -> u8 {
    if b {
        1
    } else {
        0
    }
}

/// A four-byte little-endian payload as a `u32`.
pub open spec fn decode_u32(b: Seq<u8>) -> Option<u32> {
    if b.len() == 4 {
        Some(word_of_bytes(b[0], b[1], b[2], b[3]))
    } else {
        None
    }
}

/// A one-byte payload as a `u8`.
pub open spec fn decode_u8(b: Seq<u8>) -> Option<u8> {
    if b.len() == 1 {
        Some(b[0])
    } else {
        None
    }
}

/// A one-byte payload as a `bool`: exactly 0 or 1.
pub open spec fn decode_bool(b: Seq<u8>) -> Option<bool> {
    if b.len() == 1 && b[0] == 0 {
        Some(false)
    } else if b.len() == 1 && b[0] == 1 {
        Some(true)
    } else {
        None
    }
}

/// A one-byte payload as a `Mode`.
pub open spec fn decode_mode(b: Seq<u8>) -> Option<Mode> {
    if b.len() == 1 {
        mode_of_code(b[0])
    } else {
        None
    }
}

/// The typed round trip for a `u32` field: its encoding decodes back
/// to the value written.
pub proof fn lemma_u32_round_trip(v: u32)
    ensures
        decode_u32(word_bytes(v)) == Some(v),
{
    lemma_word_bytes_inverse(v);
}

/// The typed round trip for a `u8` field.
pub proof fn lemma_u8_round_trip(v: u8)
    ensures
        decode_u8(seq![v]) == Some(v),
{
}

/// The typed round trip for a `bool` field.
pub proof fn lemma_bool_round_trip(v: bool)
    ensures
        decode_bool(seq![bool_code(v)]) == Some(v),
{
}

/// The typed round trip for a `Mode` field.
pub proof fn lemma_mode_round_trip(m: Mode)
    ensures
        decode_mode(seq![mode_code(m)]) == Some(m),
{
}

fn mode_to_code(m: Mode) -> (b: u8)
    ensures
        b == mode_code(m),
{
    match m {
        Mode::InAir => 0,
        Mode::Lifting => 1,
        Mode::Landing => 2,
        Mode::OnGround => 3,
    }
}

fn mode_from_code(b: u8) -> (r: Option<Mode>)
    ensures
        r == mode_of_code(b),
{
    if b == 0 {
        Some(Mode::InAir)
    } else if b == 1 {
        Some(Mode::Lifting)
    } else if b == 2 {
        Some(Mode::Landing)
    } else if b == 3 {
        Some(Mode::OnGround)
    } else {
        None
    }
}

/// The decimal digit character for a value below ten.
pub open spec fn dec_digit(d: nat) -> char {
    if d == 0 {
        '0'
    } else if d == 1 {
        '1'
    } else if d == 2 {
        '2'
    } else if d == 3 {
        '3'
    } else if d == 4 {
        '4'
    } else if d == 5 {
        '5'
    } else if d == 6 {
        '6'
    } else if d == 7 {
        '7'
    } else if d == 8 {
        '8'
    } else {
        '9'
    }
}

/// The decimal rendering of a number, most significant digit first.
pub open spec fn dec_str(n: nat) -> Seq<char>
    decreases n,
{
    if n < 10 {
        seq![dec_digit(n)]
    } else {
        dec_str(n / 10).push(dec_digit(n % 10))
    }
}

/// The bytes of a payload rendered in order, decimal, comma-separated,
/// starting at index `i`.
pub open spec fn bytes_render_from(b: Seq<u8>, i: int) -> Seq<char>
    decreases b.len() - i,
{
    if i < 0 || i >= b.len() {
        Seq::empty()
    } else if i == b.len() - 1 {
        dec_str(b[i] as nat)
    } else {
        dec_str(b[i] as nat) + ", "@ + bytes_render_from(b, i + 1)
    }
}

/// A payload rendered as a bracketed decimal byte list.
pub open spec fn bytes_render(b: Seq<u8>) -> Seq<char> {
    "["@ + bytes_render_from(b, 0) + "]"@
}

/// How a stored `u32` field is rendered.
pub open spec fn render_u32_chars(fb: Option<Seq<u8>>) -> Seq<char> {
    match fb {
        None => "None"@,
        Some(b) => match decode_u32(b) {
            Some(v) => "Some("@ + dec_str(v as nat) + ")"@,
            None => Seq::empty(),
        },
    }
}

/// How a stored `u8` field is rendered.
pub open spec fn render_u8_chars(fb: Option<Seq<u8>>) -> Seq<char> {
    match fb {
        None => "None"@,
        Some(b) => match decode_u8(b) {
            Some(v) => "Some("@ + dec_str(v as nat) + ")"@,
            None => Seq::empty(),
        },
    }
}

/// How a stored `bool` field is rendered.
pub open spec fn render_bool_chars(fb: Option<Seq<u8>>) -> Seq<char> {
    match fb {
        None => "None"@,
        Some(b) => match decode_bool(b) {
            Some(v) => if v {
                "Some(true)"@
            } else {
                "Some(false)"@
            },
            None => Seq::empty(),
        },
    }
}

/// How a stored `Mode` field is rendered.
pub open spec fn render_mode_chars(fb: Option<Seq<u8>>) -> Seq<char> {
    match fb {
        None => "None"@,
        Some(b) => match decode_mode(b) {
            Some(Mode::InAir) => "Some(InAir)"@,
            Some(Mode::Lifting) => "Some(Lifting)"@,
            Some(Mode::Landing) => "Some(Landing)"@,
            Some(Mode::OnGround) => "Some(OnGround)"@,
            None => Seq::empty(),
        },
    }
}

/// How a stored byte-sequence field is rendered.
pub open spec fn render_bytes_chars(fb: Option<Seq<u8>>) -> Seq<char> {
    match fb {
        None => "None"@,
        Some(b) => "Some("@ + bytes_render(b) + ")"@,
    }
}

fn push_digit(buf: &mut String, d: u8)
    requires
        d < 10,
    ensures
        final(buf)@ == old(buf)@ + seq![dec_digit(d as nat)],
{
    if d == 0 {
        buf.append("0");
        proof {
            reveal_strlit("0");
            assert(buf@ =~= old(buf)@ + seq![dec_digit(d as nat)]);
        }
    } else if d == 1 {
        buf.append("1");
        proof {
            reveal_strlit("1");
            assert(buf@ =~= old(buf)@ + seq![dec_digit(d as nat)]);
        }
    } else if d == 2 {
        buf.append("2");
        proof {
            reveal_strlit("2");
            assert(buf@ =~= old(buf)@ + seq![dec_digit(d as nat)]);
        }
    } else if d == 3 {
        buf.append("3");
        proof {
            reveal_strlit("3");
            assert(buf@ =~= old(buf)@ + seq![dec_digit(d as nat)]);
        }
    } else if d == 4 {
        buf.append("4");
        proof {
            reveal_strlit("4");
            assert(buf@ =~= old(buf)@ + seq![dec_digit(d as nat)]);
        }
    } else if d == 5 {
        buf.append("5");
        proof {
            reveal_strlit("5");
            assert(buf@ =~= old(buf)@ + seq![dec_digit(d as nat)]);
        }
    } else if d == 6 {
        buf.append("6");
        proof {
            reveal_strlit("6");
            assert(buf@ =~= old(buf)@ + seq![dec_digit(d as nat)]);
        }
    } else if d == 7 {
        buf.append("7");
        proof {
            reveal_strlit("7");
            assert(buf@ =~= old(buf)@ + seq![dec_digit(d as nat)]);
        }
    } else if d == 8 {
        buf.append("8");
        proof {
            reveal_strlit("8");
            assert(buf@ =~= old(buf)@ + seq![dec_digit(d as nat)]);
        }
    } else {
        buf.append("9");
        proof {
            reveal_strlit("9");
            assert(buf@ =~= old(buf)@ + seq![dec_digit(d as nat)]);
        }
    }
}

/// The characters of the digit values in `ds`, last first.
spec fn digit_chars_rev(ds: Seq<u8>) -> Seq<char> {
    Seq::new(ds.len(), |j: int| dec_digit(ds[ds.len() - 1 - j] as nat))
}

fn push_dec(buf: &mut String, n: u32)
    ensures
        final(buf)@ == old(buf)@ + dec_str(n as nat),
{
    // Collect digits, least significant first.
    let mut digits: Vec<u8> = Vec::new();
    let mut x = n;
    loop
        invariant_except_break
            digits@.len() > 0 ==> x > 0,
            dec_str(n as nat) == (if digits@.len() == 0 {
                dec_str(x as nat)
            } else {
                dec_str(x as nat) + digit_chars_rev(digits@)
            }),
        invariant
            forall|j: int| 0 <= j < digits@.len() ==> #[trigger] digits@[j] < 10,
        ensures
            forall|j: int| 0 <= j < digits@.len() ==> #[trigger] digits@[j] < 10,
            dec_str(n as nat) == digit_chars_rev(digits@),
        decreases x,
    {
        let ghost x0 = x;
        let d = (x % 10) as u8;
        let ghost digits0 = digits@;
        digits.push(d);
        x = x / 10;
        proof {
            assert(digit_chars_rev(digits@) =~= seq![dec_digit(d as nat)] + digit_chars_rev(
                digits0,
            ));
            if x0 < 10 {
                assert(x == 0);
                assert(d as nat == x0 as nat);
                assert(dec_str(x0 as nat) == seq![dec_digit(x0 as nat)]);
                assert(seq![dec_digit(d as nat)] + digit_chars_rev(digits0) =~= dec_str(
                    x0 as nat,
                ) + digit_chars_rev(digits0));
                if digits0.len() == 0 {
                    assert(digit_chars_rev(digits@) =~= dec_str(x0 as nat));
                }
            } else {
                assert(x > 0);
                assert(dec_str(x0 as nat) == dec_str(x as nat).push(dec_digit((x0 % 10) as nat)));
                assert(dec_str(x0 as nat) =~= dec_str(x as nat) + seq![dec_digit(d as nat)]);
                if digits0.len() > 0 {
                    assert((dec_str(x as nat) + seq![dec_digit(d as nat)]) + digit_chars_rev(
                        digits0,
                    ) =~= dec_str(x as nat) + digit_chars_rev(digits@));
                } else {
                    assert(dec_str(x0 as nat) =~= dec_str(x as nat) + digit_chars_rev(digits@));
                }
            }
        }
        if x == 0 {
            break;
        }
    }
    // Append them most significant first.
    let ghost ds = digits@;
    let ghost buf0 = old(buf)@;
    let n_digits = digits.len();
    let mut i = n_digits;
    proof {
        assert(digit_chars_rev(ds).take(0) =~= Seq::<char>::empty());
        assert(buf@ =~= buf0 + digit_chars_rev(ds).take(0));
    }
    while i > 0
        invariant
            i <= n_digits,
            n_digits == ds.len(),
            ds == digits@,
            forall|j: int| 0 <= j < ds.len() ==> #[trigger] ds[j] < 10,
            buf@ == buf0 + digit_chars_rev(ds).take(n_digits - i),
            dec_str(n as nat) == digit_chars_rev(ds),
        decreases i,
    {
        i = i - 1;
        let d = digits[i];
        push_digit(buf, d);
        proof {
            assert(digit_chars_rev(ds).take(n_digits - i) =~= digit_chars_rev(ds).take(
                n_digits - i - 1,
            ) + seq![dec_digit(ds[i as int] as nat)]);
        }
    }
    proof {
        assert(digit_chars_rev(ds).take(n_digits as int) =~= digit_chars_rev(ds));
    }
}

fn push_byte_list(buf: &mut String, b: &Vec<u8>)
    ensures
        final(buf)@ == old(buf)@ + bytes_render(b@),
{
    let ghost buf0 = old(buf)@;
    buf.append("[");
    let n = b.len();
    let mut i: usize = 0;
    while i < n
        invariant
            i <= n,
            n == b@.len(),
            buf@ + bytes_render_from(b@, i as int) == buf0 + "["@ + bytes_render_from(b@, 0),
        decreases n - i,
    {
        let ghost pre = buf@;
        push_dec(buf, b[i] as u32);
        proof {
            assert(dec_str(b@[i as int] as nat) == dec_str((b@[i as int] as u32) as nat));
        }
        if i + 1 < n {
            buf.append(", ");
            proof {
                assert(bytes_render_from(b@, i as int) =~= dec_str(b@[i as int] as nat) + ", "@
                    + bytes_render_from(b@, i as int + 1));
                assert(buf@ =~= pre + dec_str(b@[i as int] as nat) + ", "@);
                assert(buf@ + bytes_render_from(b@, i as int + 1) =~= pre + bytes_render_from(
                    b@,
                    i as int,
                ));
            }
        } else {
            proof {
                assert(i == n - 1);
                assert(bytes_render_from(b@, i as int) =~= dec_str(b@[i as int] as nat));
                assert(bytes_render_from(b@, i as int + 1) =~= Seq::<char>::empty());
                assert(buf@ + bytes_render_from(b@, i as int + 1) =~= pre + bytes_render_from(
                    b@,
                    i as int,
                ));
            }
        }
        i = i + 1;
    }
    buf.append("]");
    proof {
        assert(bytes_render_from(b@, n as int) =~= Seq::<char>::empty());
        assert(buf@ =~= buf0 + bytes_render(b@));
    }
}

/// The example field set, stored in one region: each field keeps its
/// latest value as the latest valid record of its tag.
pub struct PerMap<S, H> {
    storage: Storage<S, H>,
    record_table: Vec<RecordDesc>,
}

impl<S, H> PerMap<S, H> where S: StorageMem, H: StorageHasher32 {
    /// The engine under the projection.
    pub closed spec fn engine(self) -> Storage<S, H> {
        self.storage
    }

    /// The words of the region.
    pub open spec fn mem(self) -> Seq<u32> {
        self.engine().mem()
    }

    /// The append cursor of the engine, in words.
    pub open spec fn cur(self) -> nat {
        self.engine().cur()
    }

    /// The descriptor table, one slot per tag.
    pub closed spec fn table(self) -> Seq<RecordDesc> {
        self.record_table@
    }

    /// Free space between the cursor and the end of the region, in bytes.
    pub open spec fn free_bytes(self) -> int {
        self.mem().len() * 4 - self.cur() * 4
    }

    /// Well-formedness: the engine is sound, the table has one slot per
    /// tag, and every mapped slot points below the cursor at a record
    /// whose stored tag is the slot's own.
    pub open spec fn wf(self) -> bool {
        &&& self.engine().wf()
        &&& self.table().len() == TABLE_SIZE
        &&& forall|k: int| 0 <= k < TABLE_SIZE ==> (#[trigger] self.table()[k]).tag == k
        &&& forall|k: int|
            0 <= k < TABLE_SIZE ==> match (#[trigger] self.table()[k]).ptr {
                Some((h, off)) => {
                    &&& off + HEADER_WORDS <= self.mem().len()
                    &&& rec_end(self.mem(), off as int) <= self.cur()
                    &&& self.mem()[off as int] == k as u32
                },
                None => true,
            }
    }

    /// The payload bytes currently stored for the field with tag `k`,
    /// `None` while no record of that tag is mapped.
    pub open spec fn field_bytes(self, k: int) -> Option<Seq<u8>> {
        match self.table()[k].ptr {
            Some((h, off)) => Some(payload_bytes(self.mem(), off as int)),
            None => None,
        }
    }

    /// A store over `mem` with an empty descriptor table; `init` fills
    /// the table from what the region holds.
    pub fn new(mem: S) -> (r: Self)
        requires
            mem.view().len() * 4 <= usize::MAX,
        ensures
            r.wf(),
            r.mem() == mem.view(),
            r.cur() == 0,
            forall|k: int| 0 <= k < TABLE_SIZE ==> (#[trigger] r.field_bytes(k)) is None,
    {
        let storage = Storage::<S, H>::new(mem);
        let mut record_table: Vec<RecordDesc> = Vec::new();
        record_table.push(RecordDesc { tag: 0, ptr: None });
        record_table.push(RecordDesc { tag: 1, ptr: None });
        record_table.push(RecordDesc { tag: 2, ptr: None });
        record_table.push(RecordDesc { tag: 3, ptr: None });
        record_table.push(RecordDesc { tag: 4, ptr: None });
        record_table.push(RecordDesc { tag: 5, ptr: None });
        record_table.push(RecordDesc { tag: 6, ptr: None });
        record_table.push(RecordDesc { tag: 7, ptr: None });
        PerMap { storage, record_table }
    }

    /// Forget all current mappings, scan the region, and point every
    /// field at the latest valid record of its tag; a field whose tag has
    /// no valid record afterwards reads as unset.
    ///
    /// A region written by this store only holds tags below the table
    /// size; a record with a foreign tag would be a schema change, which
    /// invalidates the region's contents.
    pub fn init(&mut self, hasher: &mut H) -> (stats: InitStats)
        requires
            old(self).wf(),
            forall|j: int|
                0 <= j < scan::<H>(old(self).mem(), 0).len() ==> old(self).mem()[#[trigger] scan::<
                    H,
                >(old(self).mem(), 0)[j]] < TABLE_SIZE,
        ensures
            final(self).wf(),
            final(self).mem() == old(self).mem(),
            ({
                let m = old(self).mem();
                let s = scan::<H>(m, 0);
                let lve = scan_end(m, s);
                &&& final(self).cur() == waste_end(m, lve, m.len() as int)
                &&& forall|k: int|
                    0 <= k < TABLE_SIZE ==> (#[trigger] final(self).table()[k]).ptr == (
                    match latest(m, s, k as u32) {
                        Some(off) => Some((header_at(m, off), off as usize)),
                        None => None,
                    })
                &&& stats.words_wasted == waste_count(m, lve, m.len() as int)
                &&& stats.unique_tags == count_mapped(final(self).table())
            }),
    {
        let ghost m = self.mem();
        let ghost s = scan::<H>(m, 0);
        // Start from a clean table: a mapping that the scan does not
        // confirm must not survive it.
        let mut k: usize = 0;
        while k < TABLE_SIZE
            invariant
                old(self).wf(),
                self.record_table@.len() == TABLE_SIZE,
                self.storage == old(self).storage,
                k <= TABLE_SIZE,
                forall|i: int|
                    0 <= i < k ==> #[trigger] self.record_table@[i] == (RecordDesc {
                        tag: i as u32,
                        ptr: None,
                    }),
                forall|i: int|
                    k <= i < TABLE_SIZE ==> #[trigger] self.record_table@[i] == old(
                        self,
                    ).record_table@[i],
            decreases TABLE_SIZE - k,
        {
            self.record_table.set(k, RecordDesc { tag: k as u32, ptr: None });
            k = k + 1;
        }
        let ghost list0 = self.record_table@;
        let stats = self.storage.init(&mut self.record_table, hasher);
        proof {
            let list1 = self.record_table@;
            assert(forall|k: int|
                0 <= k < list0.len() ==> (#[trigger] list1[k]).ptr == (match latest(
                    m,
                    s,
                    list0[k].tag,
                ) {
                    Some(off) => Some((header_at(m, off), off as usize)),
                    None => list0[k].ptr,
                }));
            lemma_scan_bounds::<H>(m, 0);
            let lve = scan_end(m, s);
            if s.len() > 0 {
                assert(s[s.len() - 1] == s.last());
            }
            assert(0 <= lve <= m.len());
            lemma_waste_end_bounds(m, lve, m.len() as int);
            assert forall|k: int| 0 <= k < TABLE_SIZE implies match (#[trigger] self.table()[k]).ptr {
                Some((h, off)) => {
                    &&& off + HEADER_WORDS <= self.mem().len()
                    &&& rec_end(self.mem(), off as int) <= self.cur()
                    &&& self.mem()[off as int] == k as u32
                },
                None => true,
            } by {
                assert(list0[k].tag == k as u32);
                assert(latest(m, s, list0[k].tag) == latest(m, s, k as u32));
                assert(list1[k].ptr == self.table()[k].ptr);
                match latest(m, s, k as u32) {
                    Some(off) => {
                        assert(self.table()[k].ptr == Some((header_at(m, off), off as usize)));
                        lemma_latest_in(m, s, k as u32, off);
                        assert(s.contains(off));
                        let j = choose|j: int| 0 <= j < s.len() && s[j] == off;
                        assert(s[j] == off);
                        assert(rec_valid::<H>(m, off));
                        assert(rec_end(m, off) <= lve);
                        assert(0 <= off <= m.len());
                        assert((off as usize) as int == off);
                        assert((off as usize) + HEADER_WORDS <= self.mem().len());
                        assert(rec_end(self.mem(), (off as usize) as int) <= self.cur());
                        assert(self.mem()[(off as usize) as int] == k as u32);
                    }
                    None => {
                        assert(self.table()[k].ptr is None);
                    }
                }
            }
        }
        stats
    }

    /// Append a new record for the field with tag `t` and remap the
    /// field to it.  All other fields keep their current bytes whatever
    /// happens; on any error this field keeps its bytes too.
    fn update_field(&mut self, t: usize, payload: &[u8], hasher: &mut H) -> (r: Result<
        (),
        Error<S::Error>,
    >)
        requires
            old(self).wf(),
            1 <= t < TABLE_SIZE,
            payload@.len() <= u32::MAX,
            payload@.len() + 12 <= usize::MAX,
        ensures
            final(self).wf(),
            final(self).mem().len() == old(self).mem().len(),
            r matches Err(e) ==> (e is OutOfMemory || e is Driver),
            (r matches Err(e) && e is OutOfMemory) <==> old(self).free_bytes() < 12
                + payload@.len(),
            r is Ok ==> final(self).field_bytes(t as int) == Some(payload@) && final(self).cur()
                == old(self).cur() + HEADER_WORDS + size_in_words(payload@.len()),
            r is Ok ==> final(self).mem() == mem_after_append::<H>(
                old(self).mem(),
                old(self).cur() as int,
                t as u32,
                payload@,
            ),
            forall|k: int|
                0 <= k < TABLE_SIZE && k != t ==> #[trigger] final(self).field_bytes(k) == old(
                    self,
                ).field_bytes(k),
            r is Err ==> final(self).field_bytes(t as int) == old(self).field_bytes(t as int)
                && final(self).cur() == old(self).cur(),
    {
        let ghost m0 = self.mem();
        let ghost c = self.cur() as int;
        let ghost pw = size_in_words(payload@.len()) as int;
        let mut d = self.record_table[t];
        let res = self.storage.update(&mut d, payload, hasher);
        self.record_table.set(t, d);
        proof {
            assert(self.record_table@ =~= old(self).record_table@.update(t as int, d));
            let m1 = self.mem();
            match res {
                Ok(_) => {
                    // Everything below the old cursor is untouched, so
                    // every other mapped record reads back unchanged.
                    assert(forall|j: int| 0 <= j < c ==> m1[j] == m0[j]) by {
                        assert(m1 == m0.subrange(0, c) + rec_words::<H>(d.tag, payload@)
                            + m0.subrange(c + HEADER_WORDS + pw, m0.len() as int));
                    }
                    assert forall|k: int|
                        0 <= k < TABLE_SIZE && k != t implies match (
                        #[trigger] self.table()[k]).ptr {
                            Some((h, off)) => {
                                &&& off + HEADER_WORDS <= m1.len()
                                &&& rec_end(m1, off as int) <= self.cur()
                                &&& m1[off as int] == k as u32
                                &&& payload_bytes(m1, off as int) == payload_bytes(
                                    m0,
                                    off as int,
                                )
                            },
                            None => true,
                        } by {
                        match old(self).table()[k].ptr {
                            Some((h, off)) => {
                                lemma_record_frame::<H>(m0, m1, off as int);
                            }
                            None => {}
                        }
                    }
                    // The fresh record reads back as exactly the payload.
                    let sub = m1.subrange(c, c + HEADER_WORDS + pw);
                    assert(sub =~= rec_words::<H>(d.tag, payload@)) by {
                        assert(m1 == m0.subrange(0, c) + rec_words::<H>(d.tag, payload@)
                            + m0.subrange(c + HEADER_WORDS + pw, m0.len() as int));
                    }
                    lemma_fresh_record_payload::<H>(m1, c, d.tag, payload@);
                }
                Err(_) => {
                    assert(d == old(self).table()[t as int]);
                    assert(forall|j: int| 0 <= j < c ==> m1[j] == m0[j]);
                    assert forall|k: int|
                        0 <= k < TABLE_SIZE implies match ((#[trigger] self.table()[k]).ptr) {
                            Some((h, off)) => {
                                &&& off + HEADER_WORDS <= m1.len()
                                &&& rec_end(m1, off as int) <= self.cur()
                                &&& m1[off as int] == k as u32
                                &&& payload_bytes(m1, off as int) == payload_bytes(
                                    m0,
                                    off as int,
                                )
                            },
                            None => true,
                        } by {
                        match old(self).table()[k].ptr {
                            Some((h, off)) => {
                                lemma_record_frame::<H>(m0, m1, off as int);
                            }
                            None => {}
                        }
                    }
                }
            }
        }
        res
    }

    /// The stored payload of the field with tag `t`, straight from the
    /// region.
    fn read_field(&self, t: usize) -> (r: Result<Option<Vec<u8>>, Error<S::Error>>)
        requires
            self.wf(),
            t < TABLE_SIZE,
        ensures
            ({
                match self.field_bytes(t as int) {
                    None => r matches Ok(o) && o is None,
                    Some(b) => r matches Ok(o) && o matches Some(v) && v@ == b,
                }
            }),
    {
        let d = self.record_table[t];
        self.storage.get(&d)
    }

    /// Like [`Self::read_field`], but re-validate the record's checksum
    /// first and fail with `Crc` when it no longer checks out.
    fn read_field_checked(&self, t: usize, hasher: &mut H) -> (r: Result<
        Option<Vec<u8>>,
        Error<S::Error>,
    >)
        requires
            self.wf(),
            t < TABLE_SIZE,
        ensures
            ({
                match self.table()[t as int].ptr {
                    None => r matches Ok(o) && o is None,
                    Some((h, off)) => {
                        if !rec_valid::<H>(self.mem(), off as int) {
                            r matches Err(e) && e is Crc
                        } else {
                            r matches Ok(o) && o matches Some(v) && v@ == payload_bytes(
                                self.mem(),
                                off as int,
                            )
                        }
                    },
                }
            }),
    {
        let d = self.record_table[t];
        self.storage.get_checked(&d, hasher)
    }


    /// Like [`Self::get_name`], but re-validate the record's checksum
    /// first and fail with `Crc` when it no longer checks out.
    pub fn get_name_checked(&self, hasher: &mut H) -> (r: Result<Option<u32>, Error<S::Error>>)
        requires
            self.wf(),
        ensures
            ({
                match self.table()[TAG_NAME as int].ptr {
                    None => r matches Ok(o) && o is None,
                    Some((h, off)) => {
                        if !rec_valid::<H>(self.mem(), off as int) {
                            r matches Err(e) && e is Crc
                        } else {
                            match decode_u32(payload_bytes(self.mem(), off as int)) {
                                Some(v) => r matches Ok(o) && o == Some(v),
                                None => r matches Err(e) && e is CorruptedRecordOnGet,
                            }
                        }
                    },
                }
            }),
    {
        match self.read_field_checked(TAG_NAME, hasher) {
            Ok(Some(b)) => 
                if b.len() == 4 {
                    Ok(Some(le_word(b[0], b[1], b[2], b[3])))
                } else {
                    Err(Error::CorruptedRecordOnGet)
                }
            
            Ok(None) => Ok(None),
            Err(e) => Err(e),
        }
    }

    /// Like [`Self::get_calib`], but re-validate the record's checksum
    /// first and fail with `Crc` when it no longer checks out.
    pub fn get_calib_checked(&self, hasher: &mut H) -> (r: Result<Option<u32>, Error<S::Error>>)
        requires
            self.wf(),
        ensures
            ({
                match self.table()[TAG_CALIB as int].ptr {
                    None => r matches Ok(o) && o is None,
                    Some((h, off)) => {
                        if !rec_valid::<H>(self.mem(), off as int) {
                            r matches Err(e) && e is Crc
                        } else {
                            match decode_u32(payload_bytes(self.mem(), off as int)) {
                                Some(v) => r matches Ok(o) && o == Some(v),
                                None => r matches Err(e) && e is CorruptedRecordOnGet,
                            }
                        }
                    },
                }
            }),
    {
        match self.read_field_checked(TAG_CALIB, hasher) {
            Ok(Some(b)) => 
                if b.len() == 4 {
                    Ok(Some(le_word(b[0], b[1], b[2], b[3])))
                } else {
                    Err(Error::CorruptedRecordOnGet)
                }
            
            Ok(None) => Ok(None),
            Err(e) => Err(e),
        }
    }

    /// Like [`Self::get_cara`], but re-validate the record's checksum
    /// first and fail with `Crc` when it no longer checks out.
    pub fn get_cara_checked(&self, hasher: &mut H) -> (r: Result<Option<u8>, Error<S::Error>>)
        requires
            self.wf(),
        ensures
            ({
                match self.table()[TAG_CARA as int].ptr {
                    None => r matches Ok(o) && o is None,
                    Some((h, off)) => {
                        if !rec_valid::<H>(self.mem(), off as int) {
                            r matches Err(e) && e is Crc
                        } else {
                            match decode_u8(payload_bytes(self.mem(), off as int)) {
                                Some(v) => r matches Ok(o) && o == Some(v),
                                None => r matches Err(e) && e is CorruptedRecordOnGet,
                            }
                        }
                    },
                }
            }),
    {
        match self.read_field_checked(TAG_CARA, hasher) {
            Ok(Some(b)) => 
                if b.len() == 1 {
                    Ok(Some(b[0]))
                } else {
                    Err(Error::CorruptedRecordOnGet)
                }
            
            Ok(None) => Ok(None),
            Err(e) => Err(e),
        }
    }

    /// Like [`Self::get_flag`], but re-validate the record's checksum
    /// first and fail with `Crc` when it no longer checks out.
    pub fn get_flag_checked(&self, hasher: &mut H) -> (r: Result<Option<bool>, Error<S::Error>>)
        requires
            self.wf(),
        ensures
            ({
                match self.table()[TAG_FLAG as int].ptr {
                    None => r matches Ok(o) && o is None,
                    Some((h, off)) => {
                        if !rec_valid::<H>(self.mem(), off as int) {
                            r matches Err(e) && e is Crc
                        } else {
                            match decode_bool(payload_bytes(self.mem(), off as int)) {
                                Some(v) => r matches Ok(o) && o == Some(v),
                                None => r matches Err(e) && e is CorruptedRecordOnGet,
                            }
                        }
                    },
                }
            }),
    {
        match self.read_field_checked(TAG_FLAG, hasher) {
            Ok(Some(b)) => 
                if b.len() == 1 && b[0] == 0 {
                    Ok(Some(false))
                } else if b.len() == 1 && b[0] == 1 {
                    Ok(Some(true))
                } else {
                    Err(Error::CorruptedRecordOnGet)
                }
            
            Ok(None) => Ok(None),
            Err(e) => Err(e),
        }
    }

    /// Like [`Self::get_mode`], but re-validate the record's checksum
    /// first and fail with `Crc` when it no longer checks out.
    pub fn get_mode_checked(&self, hasher: &mut H) -> (r: Result<Option<Mode>, Error<S::Error>>)
        requires
            self.wf(),
        ensures
            ({
                match self.table()[TAG_MODE as int].ptr {
                    None => r matches Ok(o) && o is None,
                    Some((h, off)) => {
                        if !rec_valid::<H>(self.mem(), off as int) {
                            r matches Err(e) && e is Crc
                        } else {
                            match decode_mode(payload_bytes(self.mem(), off as int)) {
                                Some(v) => r matches Ok(o) && o == Some(v),
                                None => r matches Err(e) && e is CorruptedRecordOnGet,
                            }
                        }
                    },
                }
            }),
    {
        match self.read_field_checked(TAG_MODE, hasher) {
            Ok(Some(b)) => 
                if b.len() == 1 {
                    match mode_from_code(b[0]) {
                        Some(v) => Ok(Some(v)),
                        None => Err(Error::CorruptedRecordOnGet),
                    }
                } else {
                    Err(Error::CorruptedRecordOnGet)
                }
            
            Ok(None) => Ok(None),
            Err(e) => Err(e),
        }
    }

    /// Like [`Self::get_my_str`], but re-validate the record's checksum
    /// first and fail with `Crc` when it no longer checks out.
    pub fn get_my_str_checked(&self, hasher: &mut H) -> (r: Result<Option<Vec<u8>>, Error<S::Error>>)
        requires
            self.wf(),
        ensures
            ({
                match self.table()[TAG_MY_STR as int].ptr {
                    None => r matches Ok(o) && o is None,
                    Some((h, off)) => {
                        if !rec_valid::<H>(self.mem(), off as int) {
                            r matches Err(e) && e is Crc
                        } else {
                            r matches Ok(o) && o matches Some(v) && v@ == payload_bytes(
                                self.mem(),
                                off as int,
                            )
                        }
                    },
                }
            }),
    {
        match self.read_field_checked(TAG_MY_STR, hasher) {
            Ok(Some(b)) => Ok(Some(b)),
            Ok(None) => Ok(None),
            Err(e) => Err(e),
        }
    }

    /// Like [`Self::get_my_bytes`], but re-validate the record's checksum
    /// first and fail with `Crc` when it no longer checks out.
    pub fn get_my_bytes_checked(&self, hasher: &mut H) -> (r: Result<Option<Vec<u8>>, Error<S::Error>>)
        requires
            self.wf(),
        ensures
            ({
                match self.table()[TAG_MY_BYTES as int].ptr {
                    None => r matches Ok(o) && o is None,
                    Some((h, off)) => {
                        if !rec_valid::<H>(self.mem(), off as int) {
                            r matches Err(e) && e is Crc
                        } else {
                            r matches Ok(o) && o matches Some(v) && v@ == payload_bytes(
                                self.mem(),
                                off as int,
                            )
                        }
                    },
                }
            }),
    {
        match self.read_field_checked(TAG_MY_BYTES, hasher) {
            Ok(Some(b)) => Ok(Some(b)),
            Ok(None) => Ok(None),
            Err(e) => Err(e),
        }
    }

    /// Give the region back to the caller, e.g. for an external erase;
    /// the store is recreated over it with `new` and `init`.
    pub fn into_inner(self) -> (r: S)
        ensures
            r.view() == self.mem(),
    {
        let PerMap { storage, record_table: _ } = self;
        storage.into_inner()
    }

    /// Total amount of occupied storage space in bytes.
    pub fn len(&self) -> (r: usize)
        requires
            self.wf(),
        ensures
            r == self.cur() * 4,
    {
        self.storage.len()
    }

    /// Total storage space in bytes.
    pub fn capacity(&self) -> (r: usize)
        requires
            self.wf(),
        ensures
            r == self.mem().len() * 4,
    {
        self.storage.capacity()
    }

    /// Store a new value for `name`.
    pub fn set_name(&mut self, name: u32, hasher: &mut H) -> (r: Result<(), Error<S::Error>>)
        requires
            old(self).wf(),
        ensures
            final(self).wf(),
            r matches Err(e) ==> (e is OutOfMemory || e is Driver),
            (r matches Err(e) && e is OutOfMemory) <==> old(self).free_bytes() < 16,
            r is Ok ==> final(self).field_bytes(TAG_NAME as int) == Some(word_bytes(name))
                && final(self).cur() == old(self).cur() + 4,
            r is Ok ==> final(self).mem() == mem_after_append::<H>(
                old(self).mem(),
                old(self).cur() as int,
                TAG_NAME as u32,
                word_bytes(name),
            ),
            forall|k: int|
                0 <= k < TABLE_SIZE && k != TAG_NAME ==> #[trigger] final(self).field_bytes(k)
                    == old(self).field_bytes(k),
            r is Err ==> final(self).field_bytes(TAG_NAME as int) == old(self).field_bytes(
                TAG_NAME as int,
            ) && final(self).cur() == old(self).cur(),
    {
        let mut payload: Vec<u8> = Vec::new();
        payload.push(word_byte(name, 0));
        payload.push(word_byte(name, 1));
        payload.push(word_byte(name, 2));
        payload.push(word_byte(name, 3));
        proof {
            assert(payload@ =~= word_bytes(name));
        }
        self.update_field(TAG_NAME, payload.as_slice(), hasher)
    }

    /// The current value of `name`.
    pub fn get_name(&self) -> (r: Result<Option<u32>, Error<S::Error>>)
        requires
            self.wf(),
        ensures
            ({
                match self.field_bytes(TAG_NAME as int) {
                    None => r matches Ok(o) && o is None,
                    Some(b) => match decode_u32(b) {
                        Some(v) => r matches Ok(o) && o == Some(v),
                        None => r matches Err(e) && e is CorruptedRecordOnGet,
                    },
                }
            }),
    {
        match self.read_field(TAG_NAME) {
            Ok(Some(b)) => {
                if b.len() == 4 {
                    Ok(Some(le_word(b[0], b[1], b[2], b[3])))
                } else {
                    Err(Error::CorruptedRecordOnGet)
                }
            }
            Ok(None) => Ok(None),
            Err(e) => Err(e),
        }
    }

    /// Store a new value for `calib`.
    pub fn set_calib(&mut self, calib: u32, hasher: &mut H) -> (r: Result<(), Error<S::Error>>)
        requires
            old(self).wf(),
        ensures
            final(self).wf(),
            r matches Err(e) ==> (e is OutOfMemory || e is Driver),
            (r matches Err(e) && e is OutOfMemory) <==> old(self).free_bytes() < 16,
            r is Ok ==> final(self).field_bytes(TAG_CALIB as int) == Some(word_bytes(calib))
                && final(self).cur() == old(self).cur() + 4,
            r is Ok ==> final(self).mem() == mem_after_append::<H>(
                old(self).mem(),
                old(self).cur() as int,
                TAG_CALIB as u32,
                word_bytes(calib),
            ),
            forall|k: int|
                0 <= k < TABLE_SIZE && k != TAG_CALIB ==> #[trigger] final(self).field_bytes(k)
                    == old(self).field_bytes(k),
            r is Err ==> final(self).field_bytes(TAG_CALIB as int) == old(self).field_bytes(
                TAG_CALIB as int,
            ) && final(self).cur() == old(self).cur(),
    {
        let mut payload: Vec<u8> = Vec::new();
        payload.push(word_byte(calib, 0));
        payload.push(word_byte(calib, 1));
        payload.push(word_byte(calib, 2));
        payload.push(word_byte(calib, 3));
        proof {
            assert(payload@ =~= word_bytes(calib));
        }
        self.update_field(TAG_CALIB, payload.as_slice(), hasher)
    }

    /// The current value of `calib`.
    pub fn get_calib(&self) -> (r: Result<Option<u32>, Error<S::Error>>)
        requires
            self.wf(),
        ensures
            ({
                match self.field_bytes(TAG_CALIB as int) {
                    None => r matches Ok(o) && o is None,
                    Some(b) => match decode_u32(b) {
                        Some(v) => r matches Ok(o) && o == Some(v),
                        None => r matches Err(e) && e is CorruptedRecordOnGet,
                    },
                }
            }),
    {
        match self.read_field(TAG_CALIB) {
            Ok(Some(b)) => {
                if b.len() == 4 {
                    Ok(Some(le_word(b[0], b[1], b[2], b[3])))
                } else {
                    Err(Error::CorruptedRecordOnGet)
                }
            }
            Ok(None) => Ok(None),
            Err(e) => Err(e),
        }
    }

    /// Store a new value for `cara`.
    pub fn set_cara(&mut self, cara: u8, hasher: &mut H) -> (r: Result<(), Error<S::Error>>)
        requires
            old(self).wf(),
        ensures
            final(self).wf(),
            r matches Err(e) ==> (e is OutOfMemory || e is Driver),
            (r matches Err(e) && e is OutOfMemory) <==> old(self).free_bytes() < 13,
            r is Ok ==> final(self).field_bytes(TAG_CARA as int) == Some(seq![cara])
                && final(self).cur() == old(self).cur() + 4,
            r is Ok ==> final(self).mem() == mem_after_append::<H>(
                old(self).mem(),
                old(self).cur() as int,
                TAG_CARA as u32,
                seq![cara],
            ),
            forall|k: int|
                0 <= k < TABLE_SIZE && k != TAG_CARA ==> #[trigger] final(self).field_bytes(k)
                    == old(self).field_bytes(k),
            r is Err ==> final(self).field_bytes(TAG_CARA as int) == old(self).field_bytes(
                TAG_CARA as int,
            ) && final(self).cur() == old(self).cur(),
    {
        let mut payload: Vec<u8> = Vec::new();
        payload.push(cara);
        proof {
            assert(payload@ =~= seq![cara]);
        }
        self.update_field(TAG_CARA, payload.as_slice(), hasher)
    }

    /// The current value of `cara`.
    pub fn get_cara(&self) -> (r: Result<Option<u8>, Error<S::Error>>)
        requires
            self.wf(),
        ensures
            ({
                match self.field_bytes(TAG_CARA as int) {
                    None => r matches Ok(o) && o is None,
                    Some(b) => match decode_u8(b) {
                        Some(v) => r matches Ok(o) && o == Some(v),
                        None => r matches Err(e) && e is CorruptedRecordOnGet,
                    },
                }
            }),
    {
        match self.read_field(TAG_CARA) {
            Ok(Some(b)) => {
                if b.len() == 1 {
                    Ok(Some(b[0]))
                } else {
                    Err(Error::CorruptedRecordOnGet)
                }
            }
            Ok(None) => Ok(None),
            Err(e) => Err(e),
        }
    }

    /// Store a new value for `flag`.
    pub fn set_flag(&mut self, flag: bool, hasher: &mut H) -> (r: Result<(), Error<S::Error>>)
        requires
            old(self).wf(),
        ensures
            final(self).wf(),
            r matches Err(e) ==> (e is OutOfMemory || e is Driver),
            (r matches Err(e) && e is OutOfMemory) <==> old(self).free_bytes() < 13,
            r is Ok ==> final(self).field_bytes(TAG_FLAG as int) == Some(seq![bool_code(flag)])
                && final(self).cur() == old(self).cur() + 4,
            r is Ok ==> final(self).mem() == mem_after_append::<H>(
                old(self).mem(),
                old(self).cur() as int,
                TAG_FLAG as u32,
                seq![bool_code(flag)],
            ),
            forall|k: int|
                0 <= k < TABLE_SIZE && k != TAG_FLAG ==> #[trigger] final(self).field_bytes(k)
                    == old(self).field_bytes(k),
            r is Err ==> final(self).field_bytes(TAG_FLAG as int) == old(self).field_bytes(
                TAG_FLAG as int,
            ) && final(self).cur() == old(self).cur(),
    {
        let mut payload: Vec<u8> = Vec::new();
        if flag {
            payload.push(1);
        } else {
            payload.push(0);
        }
        proof {
            assert(payload@ =~= seq![bool_code(flag)]);
        }
        self.update_field(TAG_FLAG, payload.as_slice(), hasher)
    }

    /// The current value of `flag`.
    pub fn get_flag(&self) -> (r: Result<Option<bool>, Error<S::Error>>)
        requires
            self.wf(),
        ensures
            ({
                match self.field_bytes(TAG_FLAG as int) {
                    None => r matches Ok(o) && o is None,
                    Some(b) => match decode_bool(b) {
                        Some(v) => r matches Ok(o) && o == Some(v),
                        None => r matches Err(e) && e is CorruptedRecordOnGet,
                    },
                }
            }),
    {
        match self.read_field(TAG_FLAG) {
            Ok(Some(b)) => {
                if b.len() == 1 && b[0] == 0 {
                    Ok(Some(false))
                } else if b.len() == 1 && b[0] == 1 {
                    Ok(Some(true))
                } else {
                    Err(Error::CorruptedRecordOnGet)
                }
            }
            Ok(None) => Ok(None),
            Err(e) => Err(e),
        }
    }

    /// Store a new value for `mode`.
    pub fn set_mode(&mut self, mode: Mode, hasher: &mut H) -> (r: Result<(), Error<S::Error>>)
        requires
            old(self).wf(),
        ensures
            final(self).wf(),
            r matches Err(e) ==> (e is OutOfMemory || e is Driver),
            (r matches Err(e) && e is OutOfMemory) <==> old(self).free_bytes() < 13,
            r is Ok ==> final(self).field_bytes(TAG_MODE as int) == Some(seq![mode_code(mode)])
                && final(self).cur() == old(self).cur() + 4,
            r is Ok ==> final(self).mem() == mem_after_append::<H>(
                old(self).mem(),
                old(self).cur() as int,
                TAG_MODE as u32,
                seq![mode_code(mode)],
            ),
            forall|k: int|
                0 <= k < TABLE_SIZE && k != TAG_MODE ==> #[trigger] final(self).field_bytes(k)
                    == old(self).field_bytes(k),
            r is Err ==> final(self).field_bytes(TAG_MODE as int) == old(self).field_bytes(
                TAG_MODE as int,
            ) && final(self).cur() == old(self).cur(),
    {
        let mut payload: Vec<u8> = Vec::new();
        payload.push(mode_to_code(mode));
        proof {
            assert(payload@ =~= seq![mode_code(mode)]);
        }
        self.update_field(TAG_MODE, payload.as_slice(), hasher)
    }

    /// The current value of `mode`.
    pub fn get_mode(&self) -> (r: Result<Option<Mode>, Error<S::Error>>)
        requires
            self.wf(),
        ensures
            ({
                match self.field_bytes(TAG_MODE as int) {
                    None => r matches Ok(o) && o is None,
                    Some(b) => match decode_mode(b) {
                        Some(v) => r matches Ok(o) && o == Some(v),
                        None => r matches Err(e) && e is CorruptedRecordOnGet,
                    },
                }
            }),
    {
        match self.read_field(TAG_MODE) {
            Ok(Some(b)) => {
                if b.len() == 1 {
                    match mode_from_code(b[0]) {
                        Some(v) => Ok(Some(v)),
                        None => Err(Error::CorruptedRecordOnGet),
                    }
                } else {
                    Err(Error::CorruptedRecordOnGet)
                }
            }
            Ok(None) => Ok(None),
            Err(e) => Err(e),
        }
    }

    /// Store a new value for `my_str`: its UTF-8 bytes, no terminator.
    pub fn set_my_str(&mut self, my_str: &str, hasher: &mut H) -> (r: Result<
        (),
        Error<S::Error>,
    >)
        requires
            old(self).wf(),
            my_str.spec_bytes().len() <= u32::MAX,
            my_str.spec_bytes().len() + 12 <= usize::MAX,
        ensures
            final(self).wf(),
            r matches Err(e) ==> (e is OutOfMemory || e is Driver),
            (r matches Err(e) && e is OutOfMemory) <==> old(self).free_bytes() < 12
                + my_str.spec_bytes().len(),
            r is Ok ==> final(self).field_bytes(TAG_MY_STR as int) == Some(my_str.spec_bytes())
                && final(self).cur() == old(self).cur() + HEADER_WORDS + size_in_words(
                my_str.spec_bytes().len(),
            ),
            r is Ok ==> final(self).mem() == mem_after_append::<H>(
                old(self).mem(),
                old(self).cur() as int,
                TAG_MY_STR as u32,
                my_str.spec_bytes(),
            ),
            forall|k: int|
                0 <= k < TABLE_SIZE && k != TAG_MY_STR ==> #[trigger] final(self).field_bytes(k)
                    == old(self).field_bytes(k),
            r is Err ==> final(self).field_bytes(TAG_MY_STR as int) == old(self).field_bytes(
                TAG_MY_STR as int,
            ) && final(self).cur() == old(self).cur(),
    {
        self.update_field(TAG_MY_STR, my_str.as_bytes(), hasher)
    }

    /// The UTF-8 bytes currently stored for `my_str`.
    pub fn get_my_str(&self) -> (r: Result<Option<Vec<u8>>, Error<S::Error>>)
        requires
            self.wf(),
        ensures
            ({
                match self.field_bytes(TAG_MY_STR as int) {
                    None => r matches Ok(o) && o is None,
                    Some(b) => r matches Ok(o) && o matches Some(v) && v@ == b,
                }
            }),
    {
        self.read_field(TAG_MY_STR)
    }

    /// Store a new value for `my_bytes`.
    pub fn set_my_bytes(&mut self, my_bytes: &[u8], hasher: &mut H) -> (r: Result<
        (),
        Error<S::Error>,
    >)
        requires
            old(self).wf(),
            my_bytes@.len() <= u32::MAX,
            my_bytes@.len() + 12 <= usize::MAX,
        ensures
            final(self).wf(),
            r matches Err(e) ==> (e is OutOfMemory || e is Driver),
            (r matches Err(e) && e is OutOfMemory) <==> old(self).free_bytes() < 12
                + my_bytes@.len(),
            r is Ok ==> final(self).field_bytes(TAG_MY_BYTES as int) == Some(my_bytes@)
                && final(self).cur() == old(self).cur() + HEADER_WORDS + size_in_words(
                my_bytes@.len(),
            ),
            r is Ok ==> final(self).mem() == mem_after_append::<H>(
                old(self).mem(),
                old(self).cur() as int,
                TAG_MY_BYTES as u32,
                my_bytes@,
            ),
            forall|k: int|
                0 <= k < TABLE_SIZE && k != TAG_MY_BYTES ==> #[trigger] final(self).field_bytes(
                    k,
                ) == old(self).field_bytes(k),
            r is Err ==> final(self).field_bytes(TAG_MY_BYTES as int) == old(self).field_bytes(
                TAG_MY_BYTES as int,
            ) && final(self).cur() == old(self).cur(),
    {
        self.update_field(TAG_MY_BYTES, my_bytes, hasher)
    }

    /// The bytes currently stored for `my_bytes`.
    pub fn get_my_bytes(&self) -> (r: Result<Option<Vec<u8>>, Error<S::Error>>)
        requires
            self.wf(),
        ensures
            ({
                match self.field_bytes(TAG_MY_BYTES as int) {
                    None => r matches Ok(o) && o is None,
                    Some(b) => r matches Ok(o) && o matches Some(v) && v@ == b,
                }
            }),
    {
        self.read_field(TAG_MY_BYTES)
    }

    /// Every stored field decodes, so the diagnostic rendering is defined.
    pub open spec fn renderable(self) -> bool {
        &&& (self.field_bytes(TAG_NAME as int) matches Some(b) ==> decode_u32(b) is Some)
        &&& (self.field_bytes(TAG_CALIB as int) matches Some(b) ==> decode_u32(b) is Some)
        &&& (self.field_bytes(TAG_CARA as int) matches Some(b) ==> decode_u8(b) is Some)
        &&& (self.field_bytes(TAG_FLAG as int) matches Some(b) ==> decode_bool(b) is Some)
        &&& (self.field_bytes(TAG_MODE as int) matches Some(b) ==> decode_mode(b) is Some)
    }

    /// The diagnostic rendering: every field's name and current value.
    pub open spec fn rendered(self) -> Seq<char> {
        "PerMap { name : "@ + render_u32_chars(self.field_bytes(TAG_NAME as int)) + ", calib : "@
            + render_u32_chars(self.field_bytes(TAG_CALIB as int)) + ", cara : "@
            + render_u8_chars(self.field_bytes(TAG_CARA as int)) + ", flag : "@
            + render_bool_chars(self.field_bytes(TAG_FLAG as int)) + ", mode : "@
            + render_mode_chars(self.field_bytes(TAG_MODE as int)) + ", my_str : "@
            + render_bytes_chars(self.field_bytes(TAG_MY_STR as int)) + ", my_bytes : "@
            + render_bytes_chars(self.field_bytes(TAG_MY_BYTES as int)) + " }"@
    }

    /// Render every field and its current value into `buf`, reading each
    /// without re-validation.  Diagnostics only; a field whose stored
    /// payload does not decode fails the whole rendering and leaves
    /// `buf` alone.
    pub fn format(&self, buf: &mut String) -> (r: Result<(), Error<S::Error>>)
        requires
            self.wf(),
        ensures
            self.renderable() ==> r is Ok && final(buf)@ == old(buf)@ + self.rendered(),
            !self.renderable() ==> (r matches Err(e) && e is CorruptedRecordOnGet)
                && final(buf)@ == old(buf)@,
    {
        let mut out = String::new();
        out.append("PerMap { name : ");
        match self.get_name() {
            Ok(Some(v)) => {
                out.append("Some(");
                push_dec(&mut out, v);
                out.append(")");
            }
            Ok(None) => {
                out.append("None");
            }
            Err(e) => {
                return Err(e);
            }
        }
        let ghost r1 = "PerMap { name : "@ + render_u32_chars(
            self.field_bytes(TAG_NAME as int),
        );
        proof {
            assert(out@ =~= r1);
        }
        out.append(", calib : ");
        match self.get_calib() {
            Ok(Some(v)) => {
                out.append("Some(");
                push_dec(&mut out, v);
                out.append(")");
            }
            Ok(None) => {
                out.append("None");
            }
            Err(e) => {
                return Err(e);
            }
        }
        let ghost r2 = r1 + ", calib : "@ + render_u32_chars(self.field_bytes(TAG_CALIB as int));
        proof {
            assert(out@ =~= r2);
        }
        out.append(", cara : ");
        match self.get_cara() {
            Ok(Some(v)) => {
                out.append("Some(");
                push_dec(&mut out, v as u32);
                out.append(")");
            }
            Ok(None) => {
                out.append("None");
            }
            Err(e) => {
                return Err(e);
            }
        }
        let ghost r3 = r2 + ", cara : "@ + render_u8_chars(self.field_bytes(TAG_CARA as int));
        proof {
            assert(out@ =~= r3);
        }
        out.append(", flag : ");
        match self.get_flag() {
            Ok(Some(true)) => {
                out.append("Some(true)");
            }
            Ok(Some(false)) => {
                out.append("Some(false)");
            }
            Ok(None) => {
                out.append("None");
            }
            Err(e) => {
                return Err(e);
            }
        }
        let ghost r4 = r3 + ", flag : "@ + render_bool_chars(self.field_bytes(TAG_FLAG as int));
        proof {
            assert(out@ =~= r4);
        }
        out.append(", mode : ");
        match self.get_mode() {
            Ok(Some(Mode::InAir)) => {
                out.append("Some(InAir)");
            }
            Ok(Some(Mode::Lifting)) => {
                out.append("Some(Lifting)");
            }
            Ok(Some(Mode::Landing)) => {
                out.append("Some(Landing)");
            }
            Ok(Some(Mode::OnGround)) => {
                out.append("Some(OnGround)");
            }
            Ok(None) => {
                out.append("None");
            }
            Err(e) => {
                return Err(e);
            }
        }
        let ghost r5 = r4 + ", mode : "@ + render_mode_chars(self.field_bytes(TAG_MODE as int));
        proof {
            assert(out@ =~= r5);
        }
        out.append(", my_str : ");
        match self.get_my_str() {
            Ok(Some(v)) => {
                out.append("Some(");
                push_byte_list(&mut out, &v);
                out.append(")");
            }
            Ok(None) => {
                out.append("None");
            }
            Err(e) => {
                return Err(e);
            }
        }
        let ghost r6 = r5 + ", my_str : "@ + render_bytes_chars(self.field_bytes(TAG_MY_STR as int));
        proof {
            assert(out@ =~= r6);
        }
        out.append(", my_bytes : ");
        match self.get_my_bytes() {
            Ok(Some(v)) => {
                out.append("Some(");
                push_byte_list(&mut out, &v);
                out.append(")");
            }
            Ok(None) => {
                out.append("None");
            }
            Err(e) => {
                return Err(e);
            }
        }
        let ghost r7 = r6 + ", my_bytes : "@ + render_bytes_chars(self.field_bytes(TAG_MY_BYTES as int));
        proof {
            assert(out@ =~= r7);
        }
        out.append(" }");
        proof {
            assert(out@ =~= r7 + " }"@);
            assert(out@ == self.rendered());
        }
        buf.append(out.as_str());
        Ok(())
    }
}

} // verus!
