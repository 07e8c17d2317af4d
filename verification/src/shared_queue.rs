//! A queue of byte records laid out in one shared buffer.

use vstd::prelude::*;

verus! {

/// The most records the offset table holds.
pub const MAX_RECORDS: usize = 100;

/// Word index of the total number of records added.
pub const INDEX_NUM_RECORDS: usize = 0;

/// Word index of the number of records that have been shifted off.
pub const INDEX_NUM_SHIFTED_OFF: usize = 1;

/// Word index of the head: the number of initialized bytes in the queue.
/// It grows monotonically until the next reset.
pub const INDEX_HEAD: usize = 2;

/// Word index of the first entry of the offset table.
pub const INDEX_OFFSETS: usize = 3;

/// Word index just past the offset table.
pub const INDEX_RECORDS: usize = INDEX_OFFSETS + MAX_RECORDS;

/// Byte offset of where the records begin. Also where the head starts.
pub const HEAD_INIT: usize = 4 * INDEX_RECORDS;

/// A rough guess at how big the record area should be, in bytes.
pub const RECORDS_SIZE: usize = 128 * MAX_RECORDS;

/// Size of the whole shared buffer in bytes.
pub const SIZE: usize = HEAD_INIT + RECORDS_SIZE;

/// Number of 32-bit words that fit in the buffer.
pub const NUM_WORDS: usize = SIZE / 4;

// ---------------------------------------------------------------------------
// The buffer as 32-bit words.
// ---------------------------------------------------------------------------

/// Reads the little-endian 32-bit word at word index `i` of `b`.
pub open spec fn word(b: Seq<u8>, i: int) -> int {
    b[4 * i] + 256 * b[4 * i + 1] + 65536 * b[4 * i + 2] + 16777216 * b[4 * i + 3]
}

/// `b` with the word at word index `i` replaced by the little-endian bytes of `v`.
pub open spec fn put_word(b: Seq<u8>, i: int, v: int) -> Seq<u8> {
    b.update(4 * i, (v % 256) as u8)
        .update(4 * i + 1, ((v / 256) % 256) as u8)
        .update(4 * i + 2, ((v / 65536) % 256) as u8)
        .update(4 * i + 3, ((v / 16777216) % 256) as u8)
}

/// A word written into the buffer reads back as the value written, and every
/// other byte stays as it was.
pub proof fn lemma_put_word(b: Seq<u8>, i: int, v: int)
    requires
        0 <= i,
        4 * i + 4 <= b.len(),
        0 <= v < 0x1_0000_0000,
    ensures
        put_word(b, i, v).len() == b.len(),
        word(put_word(b, i, v), i) == v,
        forall|p: int| 0 <= p < b.len() && !(4 * i <= p < 4 * i + 4) ==> #[trigger] put_word(b, i, v)[p] == b[p],
{
    let x: u32 = v as u32;
    assert(x == x % 256 + 256 * ((x / 256) % 256) + 65536 * ((x / 65536) % 256) + 16777216 * ((x / 16777216) % 256)) by (bit_vector);
}


/// Bytes that agree on a word's four bytes agree on the word.
proof fn lemma_word_same(a: Seq<u8>, b: Seq<u8>, i: int)
    requires
        0 <= i,
        4 * i + 4 <= a.len(),
        4 * i + 4 <= b.len(),
        forall|p: int| 4 * i <= p < 4 * i + 4 ==> a[p] == b[p],
    ensures
        word(a, i) == word(b, i),
{
    assert(a[4 * i] == b[4 * i]);
    assert(a[4 * i + 1] == b[4 * i + 1]);
    assert(a[4 * i + 2] == b[4 * i + 2]);
    assert(a[4 * i + 3] == b[4 * i + 3]);
}

/// Writing one word leaves the other words as they were.
proof fn lemma_put_word_other(b: Seq<u8>, i: int, v: int, j: int)
    requires
        0 <= i,
        4 * i + 4 <= b.len(),
        0 <= v < 0x1_0000_0000,
        0 <= j,
        4 * j + 4 <= b.len(),
        i != j,
    ensures
        word(put_word(b, i, v), j) == word(b, j),
{
    lemma_put_word(b, i, v);
    lemma_word_same(put_word(b, i, v), b, j);
}

/// The word at word index `i` of the buffer.
fn read_word(bytes: &Vec<u8>, i: usize) -> (r: u32)
    requires
        4 * i + 4 <= bytes.len(),
    ensures
        r == word(bytes@, i as int),
{
    let k: usize = 4 * i;
    (bytes[k] as u32) + (bytes[k + 1] as u32) * 256 + (bytes[k + 2] as u32) * 65536 + (bytes[k + 3] as u32) * 16777216
}

/// Writes `v` as the word at word index `i` of the buffer.
fn write_word(bytes: &mut Vec<u8>, i: usize, v: u32)
    requires
        4 * i + 4 <= old(bytes).len(),
    ensures
        final(bytes)@ == put_word(old(bytes)@, i as int, v as int),
{
    let k: usize = 4 * i;
    bytes.set(k, (v % 256) as u8);
    bytes.set(k + 1, ((v / 256) % 256) as u8);
    bytes.set(k + 2, ((v / 65536) % 256) as u8);
    bytes.set(k + 3, ((v / 16777216) % 256) as u8);
}


// ---------------------------------------------------------------------------
// The model: what the bytes of the buffer mean.
// ---------------------------------------------------------------------------

/// Total number of records added since the last reset.
pub open spec fn num_records_of(b: Seq<u8>) -> int {
    word(b, INDEX_NUM_RECORDS as int)
}

/// Number of records shifted off since the last reset.
pub open spec fn num_shifted_of(b: Seq<u8>) -> int {
    word(b, INDEX_NUM_SHIFTED_OFF as int)
}

/// The head: byte offset where the next record goes.
pub open spec fn head_of(b: Seq<u8>) -> int {
    word(b, INDEX_HEAD as int)
}

/// The end offset recorded for record `k`.
pub open spec fn end_of(b: Seq<u8>, k: int) -> int {
    word(b, INDEX_OFFSETS + k)
}

/// The start offset of record `k`: where the records begin for the first,
/// the end of the previous record for the others.
pub open spec fn offset_of(b: Seq<u8>, k: int) -> int {
    if k == 0 {
        HEAD_INIT as int
    } else {
        end_of(b, k - 1)
    }
}

/// The bytes of record `k`.
pub open spec fn record_of(b: Seq<u8>, k: int) -> Seq<u8> {
    b.subrange(offset_of(b, k), end_of(b, k))
}

/// The records that have been pushed and not yet shifted off, oldest first.
pub open spec fn pending(b: Seq<u8>) -> Seq<Seq<u8>> {
    Seq::new(
        (num_records_of(b) - num_shifted_of(b)) as nat,
        |j: int| record_of(b, num_shifted_of(b) + j),
    )
}

/// What holds of the buffer in every state the queue can reach.
pub open spec fn queue_wf(b: Seq<u8>) -> bool {
    &&& b.len() == SIZE
    &&& 0 <= num_shifted_of(b) <= num_records_of(b) <= NUM_WORDS - INDEX_OFFSETS
    &&& HEAD_INIT <= head_of(b) <= SIZE
}

/// The end of the last record, or where the records begin when there is none.
pub open spec fn last_end(b: Seq<u8>) -> int {
    if num_records_of(b) == 0 {
        HEAD_INIT as int
    } else {
        end_of(b, num_records_of(b) - 1)
    }
}

/// The buffer holds at most `MAX_RECORDS` records, laid out one after the other
/// from `HEAD_INIT` up to the head.
pub open spec fn queue_sound(b: Seq<u8>) -> bool {
    &&& queue_wf(b)
    &&& num_records_of(b) <= MAX_RECORDS
    &&& head_of(b) == last_end(b)
    &&& forall|k: int|
        0 <= k < num_records_of(b) ==> HEAD_INIT <= #[trigger] offset_of(b, k) <= end_of(b, k)
            <= head_of(b)
}

/// A record of `len` bytes fits between the head and the end of the buffer.
pub open spec fn fits(b: Seq<u8>, len: int) -> bool {
    head_of(b) + len <= b.len()
}

/// `b` with `r` written over the bytes from `off` on.
pub open spec fn splice(b: Seq<u8>, off: int, r: Seq<u8>) -> Seq<u8> {
    b.subrange(0, off) + r + b.subrange(off + r.len(), b.len() as int)
}

/// The buffer after a successful push of `r`: the new end goes into the offset
/// table, the record at the head, then the count and the head are updated.
#[verifier::opaque]
pub open spec fn pushed(b: Seq<u8>, r: Seq<u8>) -> Seq<u8> {
    let off: int = head_of(b);
    let end: int = off + r.len();
    let n: int = num_records_of(b);
    let b1 = put_word(b, INDEX_OFFSETS + n, end);
    let b2 = splice(b1, off, r);
    let b3 = put_word(b2, INDEX_NUM_RECORDS as int, n + 1);
    put_word(b3, INDEX_HEAD as int, end)
}

/// The buffer after a successful shift: the shifted count goes up by one.
pub open spec fn shifted(b: Seq<u8>) -> Seq<u8> {
    put_word(b, INDEX_NUM_SHIFTED_OFF as int, num_shifted_of(b) + 1)
}

/// The buffer after a reset: the header and offset table are zeroed, the head
/// is set to `HEAD_INIT`, and the record area keeps its bytes.
pub open spec fn reset_bytes(b: Seq<u8>) -> Seq<u8> {
    put_word(
        Seq::new(b.len(), |p: int| if p < HEAD_INIT { 0u8 } else { b[p] }),
        INDEX_HEAD as int,
        HEAD_INIT as int,
    )
}

/// The buffer of a new queue.
pub open spec fn initial_bytes() -> Seq<u8> {
    reset_bytes(Seq::new(SIZE as nat, |p: int| 0u8))
}

/// A shift would read its record within the buffer.
pub open spec fn shift_in_bounds(b: Seq<u8>) -> bool {
    let i: int = num_shifted_of(b);
    i < num_records_of(b) ==> 0 <= offset_of(b, i) <= end_of(b, i) <= b.len()
}


// ---------------------------------------------------------------------------
// Facts about the model, and the laws of the queue.
// ---------------------------------------------------------------------------

/// A reset buffer is a sound, empty queue with the head at `HEAD_INIT`.
proof fn lemma_reset(b: Seq<u8>)
    requires
        b.len() == SIZE,
    ensures
        queue_wf(reset_bytes(b)),
        queue_sound(reset_bytes(b)),
        num_records_of(reset_bytes(b)) == 0,
        num_shifted_of(reset_bytes(b)) == 0,
        head_of(reset_bytes(b)) == HEAD_INIT,
        pending(reset_bytes(b)).len() == 0,
{
    let z = Seq::new(b.len(), |p: int| if p < HEAD_INIT { 0u8 } else { b[p] });
    lemma_put_word(z, INDEX_HEAD as int, HEAD_INIT as int);
    lemma_put_word_other(z, INDEX_HEAD as int, HEAD_INIT as int, INDEX_NUM_RECORDS as int);
    lemma_put_word_other(z, INDEX_HEAD as int, HEAD_INIT as int, INDEX_NUM_SHIFTED_OFF as int);
}

/// Byte by byte, what a push changes.
proof fn lemma_pushed_bytes(b: Seq<u8>, r: Seq<u8>)
    requires
        queue_wf(b),
        fits(b, r.len() as int),
        num_records_of(b) < NUM_WORDS - INDEX_OFFSETS,
    ensures
        pushed(b, r).len() == b.len(),
        forall|p: int|
            0 <= p < r.len() ==> #[trigger] pushed(b, r)[head_of(b) + p] == r[p],
        forall|p: int|
            12 <= p < b.len() && !(4 * (INDEX_OFFSETS + num_records_of(b)) <= p < 4 * (INDEX_OFFSETS
                + num_records_of(b)) + 4) && !(head_of(b) <= p < head_of(b) + r.len())
                ==> #[trigger] pushed(b, r)[p] == b[p],
        word(pushed(b, r), INDEX_NUM_RECORDS as int) == num_records_of(b) + 1,
        word(pushed(b, r), INDEX_NUM_SHIFTED_OFF as int) == num_shifted_of(b),
        word(pushed(b, r), INDEX_HEAD as int) == head_of(b) + r.len(),
        queue_wf(pushed(b, r)),
        num_records_of(b) < MAX_RECORDS ==> end_of(pushed(b, r), num_records_of(b)) == head_of(b) + r.len(),
{
    reveal(pushed);
    let off: int = head_of(b);
    let end: int = off + r.len();
    let n: int = num_records_of(b);
    let b1 = put_word(b, INDEX_OFFSETS + n, end);
    let b2 = splice(b1, off, r);
    let b3 = put_word(b2, INDEX_NUM_RECORDS as int, n + 1);
    let b4 = put_word(b3, INDEX_HEAD as int, end);
    lemma_put_word(b, INDEX_OFFSETS + n, end);
    lemma_put_word_other(b, INDEX_OFFSETS + n, end, INDEX_NUM_SHIFTED_OFF as int);
    lemma_put_word_other(b, INDEX_OFFSETS + n, end, INDEX_NUM_RECORDS as int);
    lemma_put_word_other(b, INDEX_OFFSETS + n, end, INDEX_HEAD as int);
    assert(b2.len() == b1.len());
    assert forall|p: int| 0 <= p < off implies #[trigger] b2[p] == b1[p] by {}
    assert forall|p: int| 0 <= p < r.len() implies #[trigger] b2[off + p] == r[p] by {}
    assert forall|p: int| end <= p < b1.len() implies #[trigger] b2[p] == b1[p] by {}
    lemma_word_same(b2, b1, INDEX_NUM_SHIFTED_OFF as int);
    lemma_word_same(b2, b1, INDEX_NUM_RECORDS as int);
    lemma_word_same(b2, b1, INDEX_HEAD as int);
    lemma_put_word(b2, INDEX_NUM_RECORDS as int, n + 1);
    lemma_put_word_other(b2, INDEX_NUM_RECORDS as int, n + 1, INDEX_NUM_SHIFTED_OFF as int);
    lemma_put_word(b3, INDEX_HEAD as int, end);
    lemma_put_word_other(b3, INDEX_HEAD as int, end, INDEX_NUM_SHIFTED_OFF as int);
    lemma_put_word_other(b3, INDEX_HEAD as int, end, INDEX_NUM_RECORDS as int);
    assert forall|p: int| 0 <= p < r.len() implies #[trigger] b4[off + p] == r[p] by {
        assert(b4[off + p] == b3[off + p]);
        assert(b3[off + p] == b2[off + p]);
    }
    if n < MAX_RECORDS {
        let i: int = INDEX_OFFSETS + n;
        assert forall|p: int| 4 * i <= p < 4 * i + 4 implies #[trigger] b4[p] == b1[p] by {
            assert(b2[p] == b1[p]);
        }
        lemma_word_same(b4, b1, i);
    }
}


/// Pushing onto a sound queue that holds fewer than `MAX_RECORDS` records keeps
/// it sound and adds the record at the back of the pending records; a push that
/// does not fit changes nothing (see `SharedQueue::push`).
pub proof fn law_push_appends(b: Seq<u8>, r: Seq<u8>)
    requires
        queue_sound(b),
        num_records_of(b) < MAX_RECORDS,
        fits(b, r.len() as int),
    ensures
        queue_sound(pushed(b, r)),
        pending(pushed(b, r)) == pending(b).push(r),
        head_of(pushed(b, r)) == head_of(b) + r.len(),
        num_records_of(pushed(b, r)) == num_records_of(b) + 1,
{
    let off: int = head_of(b);
    let end: int = off + r.len();
    let n: int = num_records_of(b);
    let c = pushed(b, r);
    lemma_pushed_bytes(b, r);
    // The offset table entries below `n` lie before `HEAD_INIT` and are untouched.
    assert forall|k: int| 0 <= k < n implies #[trigger] end_of(c, k) == end_of(b, k) by {
        lemma_word_same(c, b, INDEX_OFFSETS + k);
    }
    assert forall|k: int| 0 <= k < n implies #[trigger] offset_of(c, k) == offset_of(b, k) by {
        if k > 0 {
            assert(end_of(c, k - 1) == end_of(b, k - 1));
        }
    }
    assert(offset_of(c, n) == off) by {
        if n > 0 {
            assert(end_of(c, n - 1) == end_of(b, n - 1));
        }
    }
    assert forall|k: int| 0 <= k < n implies #[trigger] record_of(c, k) == record_of(b, k) by {
        assert(HEAD_INIT <= offset_of(b, k) <= end_of(b, k) <= head_of(b));
        assert forall|p: int| offset_of(b, k) <= p < end_of(b, k) implies #[trigger] c[p] == b[p] by {}
        assert(record_of(c, k) =~= record_of(b, k));
    }
    assert(record_of(c, n) =~= r) by {
        assert forall|p: int| 0 <= p < r.len() implies #[trigger] record_of(c, n)[p] == r[p] by {
            assert(c[off + p] == r[p]);
        }
    }
    assert forall|k: int| 0 <= k < n + 1 implies HEAD_INIT <= #[trigger] offset_of(c, k) <= end_of(c, k)
        <= head_of(c) by {
        if k < n {
            assert(HEAD_INIT <= offset_of(b, k) <= end_of(b, k) <= head_of(b));
        }
    }
    let s: int = num_shifted_of(b);
    assert(pending(c) =~= pending(b).push(r)) by {
        assert forall|j: int| 0 <= j < pending(c).len() implies #[trigger] pending(c)[j] == pending(b).push(r)[j] by {
            if s + j < n {
                assert(record_of(c, s + j) == record_of(b, s + j));
            }
        }
    }
}


/// Byte by byte, what a shift changes: only the shifted count.
proof fn lemma_shifted_bytes(b: Seq<u8>)
    requires
        queue_wf(b),
        num_shifted_of(b) < num_records_of(b),
    ensures
        shifted(b).len() == b.len(),
        forall|p: int| 0 <= p < b.len() && !(4 <= p < 8) ==> #[trigger] shifted(b)[p] == b[p],
        num_shifted_of(shifted(b)) == num_shifted_of(b) + 1,
        num_records_of(shifted(b)) == num_records_of(b),
        head_of(shifted(b)) == head_of(b),
        forall|k: int| 0 <= k && INDEX_OFFSETS + k < NUM_WORDS ==> #[trigger] end_of(shifted(b), k) == end_of(b, k),
        queue_wf(shifted(b)),
{
    let s: int = num_shifted_of(b);
    lemma_put_word(b, INDEX_NUM_SHIFTED_OFF as int, s + 1);
    lemma_put_word_other(b, INDEX_NUM_SHIFTED_OFF as int, s + 1, INDEX_NUM_RECORDS as int);
    lemma_put_word_other(b, INDEX_NUM_SHIFTED_OFF as int, s + 1, INDEX_HEAD as int);
    assert forall|k: int| 0 <= k && INDEX_OFFSETS + k < NUM_WORDS implies #[trigger] end_of(shifted(b), k) == end_of(b, k) by {
        lemma_put_word_other(b, INDEX_NUM_SHIFTED_OFF as int, s + 1, INDEX_OFFSETS + k);
    }
}

/// Shifting a sound queue that has pending records hands out the oldest one,
/// removes it from the front of the pending records, and keeps the queue sound.
pub proof fn law_shift_takes_front(b: Seq<u8>)
    requires
        queue_sound(b),
        pending(b).len() > 0,
    ensures
        shift_in_bounds(b),
        record_of(b, num_shifted_of(b)) == pending(b)[0],
        queue_sound(shifted(b)),
        pending(shifted(b)) == pending(b).drop_first(),
        head_of(shifted(b)) == head_of(b),
        num_records_of(shifted(b)) == num_records_of(b),
{
    let c = shifted(b);
    let n: int = num_records_of(b);
    let s: int = num_shifted_of(b);
    lemma_shifted_bytes(b);
    assert forall|k: int| 0 <= k < n implies #[trigger] offset_of(c, k) == offset_of(b, k) by {
        if k > 0 {
            assert(end_of(c, k - 1) == end_of(b, k - 1));
        }
    }
    assert forall|k: int| 0 <= k < n implies #[trigger] record_of(c, k) == record_of(b, k) by {
        assert(HEAD_INIT <= offset_of(b, k) <= end_of(b, k) <= head_of(b));
        assert(end_of(c, k) == end_of(b, k));
        assert(record_of(c, k) =~= record_of(b, k));
    }
    assert(last_end(c) == last_end(b)) by {
        if n > 0 {
            assert(end_of(c, n - 1) == end_of(b, n - 1));
        }
    }
    assert forall|k: int| 0 <= k < n implies HEAD_INIT <= #[trigger] offset_of(c, k) <= end_of(c, k)
        <= head_of(c) by {
        assert(HEAD_INIT <= offset_of(b, k) <= end_of(b, k) <= head_of(b));
        assert(end_of(c, k) == end_of(b, k));
    }
    assert(HEAD_INIT <= offset_of(b, s) <= end_of(b, s) <= head_of(b));
    assert(pending(c) =~= pending(b).drop_first()) by {
        assert forall|j: int| 0 <= j < pending(c).len() implies #[trigger] pending(c)[j] == pending(b).drop_first()[j] by {
            assert(record_of(c, s + 1 + j) == record_of(b, s + 1 + j));
        }
    }
}


/// What a shift gives back of a push: on a sound queue with nothing pending and
/// room in the offset table, a record that fits is pushed and the next shift
/// hands exactly that record back.
pub proof fn law_shift_returns_pushed_record(b: Seq<u8>, r: Seq<u8>)
    requires
        queue_sound(b),
        pending(b).len() == 0,
        num_records_of(b) < MAX_RECORDS,
        fits(b, r.len() as int),
    ensures
        pending(pushed(b, r)).len() == 1,
        record_of(pushed(b, r), num_shifted_of(pushed(b, r))) == r,
        pending(shifted(pushed(b, r))).len() == 0,
{
    law_push_appends(b, r);
    law_shift_takes_front(pushed(b, r));
}


/// The total length of records `0` to `m - 1`.
pub open spec fn records_len(b: Seq<u8>, m: nat) -> int
    decreases m,
{
    if m == 0 {
        0
    } else {
        records_len(b, (m - 1) as nat) + record_of(b, m - 1).len()
    }
}

proof fn lemma_records_len_prefix(b: Seq<u8>, m: nat)
    requires
        queue_sound(b),
        m <= num_records_of(b),
    ensures
        HEAD_INIT + records_len(b, m) == (if m == 0 {
            HEAD_INIT as int
        } else {
            end_of(b, m - 1)
        }),
    decreases m,
{
    if m > 0 {
        lemma_records_len_prefix(b, (m - 1) as nat);
        assert(HEAD_INIT <= offset_of(b, m - 1) <= end_of(b, m - 1) <= head_of(b));
    }
}

/// The head is the number of initialized bytes: in a sound queue it is
/// `HEAD_INIT` plus the lengths of all records pushed since the last reset.
pub proof fn law_head_counts_record_bytes(b: Seq<u8>)
    requires
        queue_sound(b),
    ensures
        head_of(b) == HEAD_INIT + records_len(b, num_records_of(b) as nat),
{
    lemma_records_len_prefix(b, num_records_of(b) as nat);
}


/// `a` and `b` have the same length and agree on their first `h` bytes.
pub open spec fn agree_below(a: Seq<u8>, b: Seq<u8>, h: int) -> bool {
    &&& a.len() == b.len()
    &&& 0 <= h <= a.len()
    &&& forall|p: int| 0 <= p < h ==> #[trigger] a[p] == b[p]
}

/// The end of the part of the buffer written since the last reset: the record
/// bytes below the head, and the offset table up to the last record's entry
/// (which, past `MAX_RECORDS` records, reaches into the record area).
pub open spec fn written_end(b: Seq<u8>) -> int {
    let table_end = 4 * (INDEX_OFFSETS + num_records_of(b));
    if head_of(b) >= table_end {
        head_of(b)
    } else {
        table_end
    }
}

/// Two buffers that agree on every byte written since the last reset.
pub open spec fn same_written(a: Seq<u8>, b: Seq<u8>) -> bool {
    agree_below(a, b, written_end(a))
}

proof fn lemma_agree_put_word(a: Seq<u8>, b: Seq<u8>, h: int, i: int, v: int)
    requires
        agree_below(a, b, h),
        0 <= i,
        4 * i + 4 <= a.len(),
        0 <= v < 0x1_0000_0000,
    ensures
        agree_below(put_word(a, i, v), put_word(b, i, v), h),
        4 * i <= h ==> agree_below(
            put_word(a, i, v),
            put_word(b, i, v),
            if h >= 4 * i + 4 {
                h
            } else {
                4 * i + 4
            },
        ),
{
    lemma_put_word(a, i, v);
    lemma_put_word(b, i, v);
    assert forall|p: int| 4 * i <= p < 4 * i + 4 implies #[trigger] put_word(a, i, v)[p]
        == put_word(b, i, v)[p] by {}
}

proof fn lemma_agree_splice(a: Seq<u8>, b: Seq<u8>, h: int, off: int, r: Seq<u8>)
    requires
        agree_below(a, b, h),
        0 <= off <= h,
        off + r.len() <= a.len(),
    ensures
        agree_below(
            splice(a, off, r),
            splice(b, off, r),
            if h >= off + r.len() {
                h
            } else {
                off + r.len()
            },
        ),
{
    let e = if h >= off + r.len() {
        h
    } else {
        off + r.len()
    };
    assert forall|p: int| 0 <= p < e implies #[trigger] splice(a, off, r)[p] == splice(b, off, r)[p] by {
        if p < off {
            assert(splice(a, off, r)[p] == a[p]);
            assert(splice(b, off, r)[p] == b[p]);
        } else if p < off + r.len() {
            assert(splice(a, off, r)[p] == r[p - off]);
            assert(splice(b, off, r)[p] == r[p - off]);
        } else {
            assert(splice(a, off, r)[p] == a[p]);
            assert(splice(b, off, r)[p] == b[p]);
        }
    }
}

/// What the queue reads of two buffers that agree on the bytes written since
/// the last reset is the same: the counts, the head, the offset table, whether a
/// shift stays in bounds, and every record that lies within the written part;
/// for a sound buffer that is every pending record.
pub proof fn law_same_written_reads_alike(a: Seq<u8>, b: Seq<u8>)
    requires
        queue_wf(a),
        same_written(a, b),
    ensures
        queue_wf(b),
        num_records_of(b) == num_records_of(a),
        num_shifted_of(b) == num_shifted_of(a),
        head_of(b) == head_of(a),
        written_end(b) == written_end(a),
        forall|k: int| 0 <= k < num_records_of(a) ==> #[trigger] end_of(b, k) == end_of(a, k),
        forall|k: int|
            0 <= k < num_records_of(a) ==> #[trigger] offset_of(b, k) == offset_of(a, k),
        shift_in_bounds(b) == shift_in_bounds(a),
        forall|k: int|
            0 <= k < num_records_of(a) && offset_of(a, k) <= end_of(a, k) <= written_end(a)
                ==> #[trigger] record_of(b, k) == record_of(a, k),
        queue_sound(a) ==> queue_sound(b) && pending(b) == pending(a),
{
    let n = num_records_of(a);
    lemma_word_same(a, b, INDEX_NUM_RECORDS as int);
    lemma_word_same(a, b, INDEX_NUM_SHIFTED_OFF as int);
    lemma_word_same(a, b, INDEX_HEAD as int);
    assert forall|k: int| 0 <= k < n implies #[trigger] end_of(b, k) == end_of(a, k) by {
        lemma_word_same(a, b, INDEX_OFFSETS + k);
    }
    assert forall|k: int| 0 <= k < n implies #[trigger] offset_of(b, k) == offset_of(a, k) by {
        if k > 0 {
            assert(end_of(b, k - 1) == end_of(a, k - 1));
        }
    }
    assert forall|k: int|
        0 <= k < n && offset_of(a, k) <= end_of(a, k) <= written_end(a) implies #[trigger] record_of(
        b,
        k,
    ) == record_of(a, k) by {
        assert(end_of(b, k) == end_of(a, k));
        assert(offset_of(b, k) == offset_of(a, k));
        assert(record_of(b, k) =~= record_of(a, k));
    }
    let s = num_shifted_of(a);
    if s < n {
        assert(end_of(b, s) == end_of(a, s));
        assert(offset_of(b, s) == offset_of(a, s));
    }
    if queue_sound(a) {
        assert(last_end(b) == last_end(a)) by {
            if n > 0 {
                assert(end_of(b, n - 1) == end_of(a, n - 1));
            }
        }
        assert forall|k: int| 0 <= k < n implies HEAD_INIT <= #[trigger] offset_of(b, k) <= end_of(
            b,
            k,
        ) <= head_of(b) by {
            assert(HEAD_INIT <= offset_of(a, k) <= end_of(a, k) <= head_of(a));
            assert(end_of(b, k) == end_of(a, k));
            assert(offset_of(b, k) == offset_of(a, k));
        }
        assert(pending(b) =~= pending(a)) by {
            assert forall|j: int| 0 <= j < pending(b).len() implies #[trigger] pending(b)[j]
                == pending(a)[j] by {
                let k = s + j;
                assert(HEAD_INIT <= offset_of(a, k) <= end_of(a, k) <= head_of(a));
                assert(record_of(b, k) == record_of(a, k));
            }
        }
    }
}

/// Pushing the same record onto two buffers that agree on what was written
/// since the last reset gives buffers that again agree on what was written.
pub proof fn law_same_written_push(a: Seq<u8>, b: Seq<u8>, r: Seq<u8>)
    requires
        queue_wf(a),
        same_written(a, b),
        fits(a, r.len() as int),
        num_records_of(a) < NUM_WORDS - INDEX_OFFSETS,
    ensures
        fits(b, r.len() as int),
        same_written(pushed(a, r), pushed(b, r)),
{
    law_same_written_reads_alike(a, b);
    lemma_pushed_bytes(a, r);
    lemma_pushed_bytes(b, r);
    reveal(pushed);
    let off: int = head_of(a);
    let end: int = off + r.len();
    let n: int = num_records_of(a);
    let w: int = written_end(a);
    let t: int = 4 * (INDEX_OFFSETS + n) + 4;
    let w1: int = if w >= t {
        w
    } else {
        t
    };
    let w2: int = if w1 >= end {
        w1
    } else {
        end
    };
    let a1 = put_word(a, INDEX_OFFSETS + n, end);
    let b1 = put_word(b, INDEX_OFFSETS + n, end);
    lemma_agree_put_word(a, b, w, INDEX_OFFSETS + n, end);
    assert(agree_below(a1, b1, w1));
    lemma_agree_splice(a1, b1, w1, off, r);
    let a2 = splice(a1, off, r);
    let b2 = splice(b1, off, r);
    assert(agree_below(a2, b2, w2));
    lemma_agree_put_word(a2, b2, w2, INDEX_NUM_RECORDS as int, n + 1);
    let a3 = put_word(a2, INDEX_NUM_RECORDS as int, n + 1);
    let b3 = put_word(b2, INDEX_NUM_RECORDS as int, n + 1);
    lemma_agree_put_word(a3, b3, w2, INDEX_HEAD as int, end);
    assert(written_end(pushed(a, r)) == w2);
}

/// Shifting two buffers that agree on what was written since the last reset
/// gives buffers that again agree on what was written.
pub proof fn law_same_written_shift(a: Seq<u8>, b: Seq<u8>)
    requires
        queue_wf(a),
        same_written(a, b),
        num_shifted_of(a) < num_records_of(a),
    ensures
        num_shifted_of(b) < num_records_of(b),
        same_written(shifted(a), shifted(b)),
{
    law_same_written_reads_alike(a, b);
    lemma_shifted_bytes(a);
    lemma_shifted_bytes(b);
    lemma_agree_put_word(a, b, written_end(a), INDEX_NUM_SHIFTED_OFF as int, num_shifted_of(a) + 1);
}

/// A reset queue is as good as a new one: the reset buffer and the buffer of a
/// new queue agree on everything written since the reset (the header and the
/// offset table), so by the laws above every later sequence of pushes and shifts
/// reads the same from both, as long as each record it reads lies within what
/// was written.
pub proof fn law_reset_as_new(b: Seq<u8>)
    requires
        b.len() == SIZE,
    ensures
        same_written(reset_bytes(b), initial_bytes()),
        queue_sound(reset_bytes(b)),
        queue_sound(initial_bytes()),
{
    let zero = Seq::new(SIZE as nat, |p: int| 0u8);
    lemma_reset(b);
    lemma_reset(zero);
    let zb = Seq::new(b.len(), |p: int| if p < HEAD_INIT { 0u8 } else { b[p] });
    let zz = Seq::new(zero.len(), |p: int| if p < HEAD_INIT { 0u8 } else { zero[p] });
    assert(agree_below(zb, zz, HEAD_INIT as int));
    lemma_agree_put_word(zb, zz, HEAD_INIT as int, INDEX_HEAD as int, HEAD_INIT as int);
}

/// An operation on the queue, as a step of a history.
pub enum QueueOp {
    Push(Seq<u8>),
    Shift,
}

/// The buffer after one operation, as `push` and `shift` change it: a push that
/// fits and a shift with a record pending take effect, the others change nothing.
pub open spec fn step(b: Seq<u8>, op: QueueOp) -> Seq<u8> {
    match op {
        QueueOp::Push(r) => if fits(b, r.len() as int) {
            pushed(b, r)
        } else {
            b
        },
        QueueOp::Shift => if num_shifted_of(b) < num_records_of(b) {
            shifted(b)
        } else {
            b
        },
    }
}

/// The buffer after a history of operations.
pub open spec fn run(b: Seq<u8>, ops: Seq<QueueOp>) -> Seq<u8>
    decreases ops.len(),
{
    if ops.len() == 0 {
        b
    } else {
        step(run(b, ops.drop_last()), ops.last())
    }
}

/// The records of the pushes in a history that took effect, in order.
pub open spec fn pushes_taken(b: Seq<u8>, ops: Seq<QueueOp>) -> Seq<Seq<u8>>
    decreases ops.len(),
{
    if ops.len() == 0 {
        Seq::empty()
    } else {
        let before = pushes_taken(b, ops.drop_last());
        let cur = run(b, ops.drop_last());
        match ops.last() {
            QueueOp::Push(r) => if fits(cur, r.len() as int) {
                before.push(r)
            } else {
                before
            },
            QueueOp::Shift => before,
        }
    }
}

/// The number of shifts in a history that handed out a record.
pub open spec fn shifts_taken(b: Seq<u8>, ops: Seq<QueueOp>) -> nat
    decreases ops.len(),
{
    if ops.len() == 0 {
        0
    } else {
        let before = shifts_taken(b, ops.drop_last());
        let cur = run(b, ops.drop_last());
        match ops.last() {
            QueueOp::Push(_) => before,
            QueueOp::Shift => if num_shifted_of(cur) < num_records_of(cur) {
                before + 1
            } else {
                before
            },
        }
    }
}

/// The total length of a list of records.
pub open spec fn total_len(rs: Seq<Seq<u8>>) -> int
    decreases rs.len(),
{
    if rs.len() == 0 {
        0
    } else {
        total_len(rs.drop_last()) + rs.last().len()
    }
}

/// Over any history of pushes and shifts from a sound buffer in which the
/// records pushed keep within `MAX_RECORDS` (shifts are not counted), the
/// queue stays sound and behaves as a first-in
/// first-out queue: the pending records are those pending before followed by
/// the records of the pushes that took effect, less as many from the front as
/// shifts handed out; the record count grows by the pushes that took effect,
/// the shifted count by the shifts that handed out a record, and the head by
/// the bytes pushed.
pub proof fn law_history(b: Seq<u8>, ops: Seq<QueueOp>)
    requires
        queue_sound(b),
        num_records_of(b) + pushes_taken(b, ops).len() <= MAX_RECORDS,
    ensures
        queue_sound(run(b, ops)),
        shifts_taken(b, ops) <= pending(b).len() + pushes_taken(b, ops).len(),
        pending(run(b, ops)) == (pending(b) + pushes_taken(b, ops)).skip(shifts_taken(b, ops) as int),
        num_records_of(run(b, ops)) == num_records_of(b) + pushes_taken(b, ops).len(),
        num_shifted_of(run(b, ops)) == num_shifted_of(b) + shifts_taken(b, ops),
        head_of(run(b, ops)) == head_of(b) + total_len(pushes_taken(b, ops)),
        pushes_taken(b, ops).len() <= ops.len(),
    decreases ops.len(),
{
    if ops.len() > 0 {
        let prev = ops.drop_last();
        law_history(b, prev);
        let cur = run(b, prev);
        let all = pending(b) + pushes_taken(b, prev);
        let k = shifts_taken(b, prev) as int;
        match ops.last() {
            QueueOp::Push(r) => {
                if fits(cur, r.len() as int) {
                    law_push_appends(cur, r);
                    assert((pending(b) + pushes_taken(b, prev).push(r)).skip(k) =~= all.skip(k).push(r));
                    assert(pushes_taken(b, ops).drop_last() =~= pushes_taken(b, prev));
                } else {
                    assert(pushes_taken(b, ops) == pushes_taken(b, prev));
                }
            },
            QueueOp::Shift => {
                if num_shifted_of(cur) < num_records_of(cur) {
                    law_shift_takes_front(cur);
                    assert(all.skip(k + 1) =~= all.skip(k).drop_first());
                }
            },
        }
    }
}


/// The counts over any history of pushes and shifts from any buffer the queue
/// can be in, for as long as the offset table's words fit in the buffer: the
/// record count grows by the pushes that took effect, the shifted count by the
/// shifts that handed out a record, never past the record count, and the head
/// by the bytes pushed, so it never falls.
pub proof fn law_history_counts(b: Seq<u8>, ops: Seq<QueueOp>)
    requires
        queue_wf(b),
        num_records_of(b) + pushes_taken(b, ops).len() <= NUM_WORDS - INDEX_OFFSETS,
    ensures
        queue_wf(run(b, ops)),
        num_records_of(run(b, ops)) == num_records_of(b) + pushes_taken(b, ops).len(),
        num_shifted_of(run(b, ops)) == num_shifted_of(b) + shifts_taken(b, ops),
        num_shifted_of(run(b, ops)) <= num_records_of(run(b, ops)),
        head_of(run(b, ops)) == head_of(b) + total_len(pushes_taken(b, ops)),
        head_of(run(b, ops)) >= head_of(b),
    decreases ops.len(),
{
    if ops.len() > 0 {
        let prev = ops.drop_last();
        law_history_counts(b, prev);
        let cur = run(b, prev);
        match ops.last() {
            QueueOp::Push(r) => {
                if fits(cur, r.len() as int) {
                    lemma_pushed_bytes(cur, r);
                    assert(pushes_taken(b, ops).drop_last() =~= pushes_taken(b, prev));
                } else {
                    assert(pushes_taken(b, ops) == pushes_taken(b, prev));
                }
            },
            QueueOp::Shift => {
                if num_shifted_of(cur) < num_records_of(cur) {
                    lemma_shifted_bytes(cur);
                }
            },
        }
    }
}

// ---------------------------------------------------------------------------
// The queue.
// ---------------------------------------------------------------------------

/// A queue of byte records kept in one fixed-size buffer that another party
/// (the JavaScript side) can read as 32-bit words: a header of three words
/// (records added, records shifted off, head), a table of record end offsets,
/// then the record bytes. Words are little-endian.
pub struct SharedQueue {
    bytes: Vec<u8>,
}

impl View for SharedQueue {
    type V = Seq<u8>;

    closed spec fn view(&self) -> Seq<u8> {
        self.bytes@
    }
}

/// Hands out a vector's contents as a boxed slice.
#[verifier::external_body]
fn into_boxed(v: Vec<u8>) -> (b: Box<[u8]>)
    ensures
        b@ == v@,
{
    v.into_boxed_slice()
}

impl SharedQueue {
    /// A new, empty queue over a zeroed buffer of `SIZE` bytes.
    pub fn new() -> (q: Self)
        ensures
            q@ == initial_bytes(),
            queue_wf(q@),
            queue_sound(q@),
            pending(q@).len() == 0,
            num_records_of(q@) == 0,
            head_of(q@) == HEAD_INIT,
    {
        let mut bytes: Vec<u8> = Vec::new();
        bytes.resize(SIZE, 0u8);
        proof {
            assert(bytes@ =~= Seq::new(SIZE as nat, |p: int| 0u8));
        }
        let mut q = SharedQueue { bytes };
        q.reset();
        q
    }

    /// Clears the shared buffer: no records, the head back at `HEAD_INIT`.
    pub fn reset(&mut self)
        requires
            old(self)@.len() == SIZE,
        ensures
            final(self)@ == reset_bytes(old(self)@),
            queue_wf(final(self)@),
            queue_sound(final(self)@),
            pending(final(self)@).len() == 0,
            num_records_of(final(self)@) == 0,
            num_shifted_of(final(self)@) == 0,
            head_of(final(self)@) == HEAD_INIT,
    {
        let ghost b = self.bytes@;
        let mut i: usize = 0;
        while i < INDEX_RECORDS
            invariant
                i <= INDEX_RECORDS,
                b.len() == SIZE,
                self.bytes@ =~= Seq::new(b.len(), |p: int| if p < 4 * i { 0u8 } else { b[p] }),
            decreases INDEX_RECORDS - i,
        {
            write_word(&mut self.bytes, i, 0);
            i = i + 1;
        }
        write_word(&mut self.bytes, INDEX_HEAD, HEAD_INIT as u32);
        proof {
            lemma_reset(b);
        }
    }

    /// Number of records pushed and not yet shifted off.
    pub fn len(&self) -> (r: usize)
        requires
            queue_wf(self@),
        ensures
            r == num_records_of(self@) - num_shifted_of(self@),
            r == pending(self@).len(),
    {
        let n: u32 = read_word(&self.bytes, INDEX_NUM_RECORDS);
        let s: u32 = read_word(&self.bytes, INDEX_NUM_SHIFTED_OFF);
        (n - s) as usize
    }

    /// Total number of records pushed since the last reset.
    pub fn num_records(&self) -> (r: usize)
        requires
            queue_wf(self@),
        ensures
            r == num_records_of(self@),
    {
        read_word(&self.bytes, INDEX_NUM_RECORDS) as usize
    }

    /// The byte offset where the next record goes.
    pub fn head(&self) -> (r: usize)
        requires
            queue_wf(self@),
        ensures
            r == head_of(self@),
    {
        read_word(&self.bytes, INDEX_HEAD) as usize
    }

    /// Records `end` (cut to 32 bits) as the end offset of record `index`.
    fn set_end(&mut self, index: usize, end: usize)
        requires
            INDEX_OFFSETS + index < old(self)@.len() / 4,
        ensures
            final(self)@ == put_word(old(self)@, INDEX_OFFSETS + index, (end as u32) as int),
    {
        assert(self.bytes@.len() == self.bytes.len());
        write_word(&mut self.bytes, INDEX_OFFSETS + index, #[verifier::truncate] (end as u32));
    }

    /// The end offset of record `index`, if that record was pushed.
    pub fn get_end(&self, index: usize) -> (r: Option<usize>)
        requires
            queue_wf(self@),
        ensures
            r == (if index < num_records_of(self@) {
                Some(end_of(self@, index as int) as usize)
            } else {
                None
            }),
    {
        if index < self.num_records() {
            Some(read_word(&self.bytes, INDEX_OFFSETS + index) as usize)
        } else {
            None
        }
    }

    /// The start offset of record `index`, if that record was pushed.
    pub fn get_offset(&self, index: usize) -> (r: Option<usize>)
        requires
            queue_wf(self@),
        ensures
            r == (if index < num_records_of(self@) {
                Some(offset_of(self@, index as int) as usize)
            } else {
                None
            }),
    {
        if index < self.num_records() {
            Some(
                if index == 0 {
                    HEAD_INIT
                } else {
                    read_word(&self.bytes, INDEX_OFFSETS + index - 1) as usize
                },
            )
        } else {
            None
        }
    }
    /// Whether a shift would read its record within the buffer: true when no
    /// record is pending, and otherwise when the record's stored start and end
    /// lie in order inside the buffer. A shift may be made exactly when this holds.
    pub fn shift_reads_in_bounds(&self) -> (b: bool)
        requires
            queue_wf(self@),
        ensures
            b == shift_in_bounds(self@),
    {
        let i: usize = read_word(&self.bytes, INDEX_NUM_SHIFTED_OFF) as usize;
        if i >= self.num_records() {
            return true;
        }
        let off: usize = self.get_offset(i).unwrap();
        let end: usize = self.get_end(i).unwrap();
        off <= end && end <= self.bytes.len()
    }

    /// Takes the oldest pending record off the queue; `None` when there is none.
    pub fn shift(&mut self) -> (r: Option<Box<[u8]>>)
        requires
            queue_wf(old(self)@),
            shift_in_bounds(old(self)@),
        ensures
            r.is_some() <==> num_shifted_of(old(self)@) < num_records_of(old(self)@),
            r matches Some(v) ==> v@ == record_of(old(self)@, num_shifted_of(old(self)@)),
            r.is_some() ==> final(self)@ == shifted(old(self)@),
            r.is_none() ==> final(self)@ == old(self)@,
            queue_wf(final(self)@),
            head_of(final(self)@) == head_of(old(self)@),
            num_records_of(final(self)@) == num_records_of(old(self)@),
            queue_sound(old(self)@) ==> {
                &&& queue_sound(final(self)@)
                &&& r matches Some(v) ==> v@ == pending(old(self)@)[0]
                &&& r.is_some() ==> pending(final(self)@) == pending(old(self)@).drop_first()
            },
    {
        let i: usize = read_word(&self.bytes, INDEX_NUM_SHIFTED_OFF) as usize;
        if i >= self.num_records() {
            return None;
        }
        let off: usize = self.get_offset(i).unwrap();
        let end: usize = self.get_end(i).unwrap();
        let mut v: Vec<u8> = Vec::new();
        let mut j: usize = off;
        while j < end
            invariant
                off <= j <= end,
                end <= self.bytes@.len(),
                v@ =~= self.bytes@.subrange(off as int, j as int),
            decreases end - j,
        {
            v.push(self.bytes[j]);
            j = j + 1;
        }
        proof {
            lemma_shifted_bytes(self.bytes@);
            if queue_sound(self.bytes@) {
                law_shift_takes_front(self.bytes@);
            }
        }
        write_word(&mut self.bytes, INDEX_NUM_SHIFTED_OFF, (i + 1) as u32);
        Some(into_boxed(v))
    }

    /// Appends `record` at the head if it fits in the buffer; returns whether it did.
    pub fn push(&mut self, record: Box<[u8]>) -> (ok: bool)
        requires
            queue_wf(old(self)@),
            fits(old(self)@, record@.len() as int) ==> num_records_of(old(self)@) < NUM_WORDS
                - INDEX_OFFSETS,
        ensures
            ok == fits(old(self)@, record@.len() as int),
            ok ==> final(self)@ == pushed(old(self)@, record@),
            ok ==> num_records_of(final(self)@) == num_records_of(old(self)@) + 1,
            ok ==> head_of(final(self)@) == head_of(old(self)@) + record@.len(),
            !ok ==> final(self)@ == old(self)@,
            queue_wf(final(self)@),
            head_of(final(self)@) >= head_of(old(self)@),
            num_shifted_of(final(self)@) == num_shifted_of(old(self)@),
            queue_sound(old(self)@) && num_records_of(old(self)@) < MAX_RECORDS ==> {
                &&& queue_sound(final(self)@)
                &&& ok ==> pending(final(self)@) == pending(old(self)@).push(record@)
            },
    {
        let record = record.into_vec();
        let off: usize = self.head();
        let index: usize = self.num_records();
        if record.len() > self.bytes.len() - off {
            return false;
        }
        let end: usize = off + record.len();
        let ghost b = self.bytes@;
        self.set_end(index, end);
        let ghost b1 = self.bytes@;
        let mut j: usize = 0;
        while j < record.len()
            invariant
                j <= record.len(),
                off + record.len() == end,
                end <= b1.len(),
                self.bytes@ =~= b1.subrange(0, off as int) + record@.subrange(0, j as int)
                    + b1.subrange(off + j, b1.len() as int),
            decreases record.len() - j,
        {
            self.bytes.set(off + j, record[j]);
            j = j + 1;
        }
        proof {
            assert(self.bytes@ =~= splice(b1, off as int, record@));
        }
        write_word(&mut self.bytes, INDEX_NUM_RECORDS, (index + 1) as u32);
        write_word(&mut self.bytes, INDEX_HEAD, end as u32);
        proof {
            reveal(pushed);
            lemma_pushed_bytes(b, record@);
            if queue_sound(b) && num_records_of(b) < MAX_RECORDS {
                law_push_appends(b, record@);
            }
        }
        true
    }

}


} // verus!
