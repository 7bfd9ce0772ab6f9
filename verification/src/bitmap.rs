//! Bitmap pages: allocation state of a contiguous range of page ids.
//!
//! One bitmap page manages BITMAP_PAGE_COUNT consecutive page ids, one bit
//! per id. It keeps a persistent floor (`first_free_page_idx`, the least
//! clear index) and a transient forward-only search cursor
//! (`current_first_free_page_idx`). A caller-supplied filter can reject ids
//! the bitmap believes free; rejected ids are skipped, never marked.

use vstd::prelude::*;
use crate::bits::{
    PAGE_SIZE, PAGE_HEADER_SIZE, BITMAP_PAYLOAD_SIZE, BITMAP_PAGE_COUNT, NO_FREE_INDEX,
    u16_of, u32_of, u16_le_bytes, u32_le_bytes, put_u16, put_u32, lemma_u32_le_round_trip,
    payload_of, bit_set, set_bit_spec, clear_bit_spec, count_free, count_free_upto,
    first_clear_from, free_index_sentinel, least_clear_index,
    get_bit, set_bit, clear_bit,
    lemma_set_bit, lemma_clear_bit, lemma_clear_bit_noop, lemma_count_free_agree,
    lemma_count_free_bounds, lemma_first_clear_from, lemma_first_clear_from_is,
    lemma_full_byte_no_clear,
};
use crate::filter::{PageFilter, AcceptAll, RejectAll};
use crate::store::{MemoryPage, PageStore, StoreError, StoreView, store_after_write};

verus! {

/// Page type tag of a bitmap page.
pub const BITMAP_PAGE_TYPE: u32 = 1;

/// The mathematical model of an in-memory bitmap page.
pub struct BitmapView {
    /// Where the page currently lives (bitmaps relocate).
    pub page_id: u32,
    /// The smallest page id this bitmap tracks.
    pub first_managed_page_id: u32,
    /// Transient forward-only search cursor (`current_first_free_page_idx`).
    pub cursor: u16,
    /// Persistent least clear index (`first_free_page_idx`).
    pub floor: u16,
    /// Number of clear bits in the payload (`free_page_count`).
    pub free_count: u16,
    /// The 4080-byte bit payload.
    pub payload: Seq<u8>,
}

impl BitmapView {
    /// The largest page id this bitmap tracks.
    pub open spec fn last_managed_page_id(self) -> u32 {
        (self.first_managed_page_id + BITMAP_PAGE_COUNT - 1) as u32
    }

    /// Whether `page_id` falls in the managed range.
    pub open spec fn contains_id(self, page_id: u32) -> bool {
        self.first_managed_page_id <= page_id <= self.last_managed_page_id()
    }

    /// Well-formedness: counters and indices agree with the payload.
    pub open spec fn wf(self) -> bool {
        &&& self.payload.len() == BITMAP_PAYLOAD_SIZE as int
        &&& self.first_managed_page_id as int + BITMAP_PAGE_COUNT as int - 1 <= u32::MAX as int
        &&& self.free_count as int == count_free(self.payload)
        &&& self.floor == least_clear_index(self.payload)
        &&& (self.cursor == NO_FREE_INDEX || (self.cursor < BITMAP_PAGE_COUNT && !bit_set(
            self.payload,
            self.cursor as int,
        ) && self.floor <= self.cursor))
    }
}

/// An all-zero bit payload.
pub open spec fn zero_payload() -> Seq<u8> {
    Seq::new(BITMAP_PAYLOAD_SIZE as nat, |i: int| 0u8)
}

/// The model of a fresh bitmap at `first`: only its own bit is set, and both
/// cursors stand just past it.
pub open spec fn new_bitmap_view(first: u32) -> BitmapView {
    BitmapView {
        page_id: first,
        first_managed_page_id: first,
        cursor: 1,
        floor: 1,
        free_count: (BITMAP_PAGE_COUNT - 1) as u16,
        payload: set_bit_spec(zero_payload(), 0),
    }
}

/// Index `i` is clear and its absolute page id passes the filter.
pub open spec fn is_candidate<F: PageFilter>(payload: Seq<u8>, first: u32, f: F, i: int) -> bool {
    &&& 0 <= i < BITMAP_PAGE_COUNT as int
    &&& !bit_set(payload, i)
    &&& f.accepts((first + i) as u32)
}

/// The smallest candidate index at or after `from`, or BITMAP_PAGE_COUNT if
/// none.
pub open spec fn first_candidate_from<F: PageFilter>(
    payload: Seq<u8>,
    first: u32,
    f: F,
    from: int,
) -> int
    decreases BITMAP_PAGE_COUNT as int - from,
{
    if from >= BITMAP_PAGE_COUNT as int {
        BITMAP_PAGE_COUNT as int
    } else if is_candidate(payload, first, f, from) {
        from
    } else {
        first_candidate_from(payload, first, f, from + 1)
    }
}

/// Characterization of `first_candidate_from`.
pub proof fn lemma_first_candidate_from<F: PageFilter>(payload: Seq<u8>, first: u32, f: F, from: int)
    requires
        0 <= from,
    ensures
        ({
            let r = first_candidate_from(payload, first, f, from);
            &&& r <= BITMAP_PAGE_COUNT as int
            &&& (from <= BITMAP_PAGE_COUNT as int ==> from <= r)
            &&& (r < BITMAP_PAGE_COUNT as int ==> is_candidate(payload, first, f, r))
            &&& forall|j: int| from <= j < r ==> !is_candidate(payload, first, f, j)
        }),
    decreases BITMAP_PAGE_COUNT as int - from,
{
    let r = first_candidate_from(payload, first, f, from);
    if from < BITMAP_PAGE_COUNT as int && !is_candidate(payload, first, f, from) {
        lemma_first_candidate_from(payload, first, f, from + 1);
        assert forall|j: int| from <= j < r implies !is_candidate(payload, first, f, j) by {
            if j != from {
                assert(from + 1 <= j < r);
            }
        }
    }
}

/// A witness pins `first_candidate_from` down exactly.
pub proof fn lemma_first_candidate_from_is<F: PageFilter>(
    payload: Seq<u8>,
    first: u32,
    f: F,
    from: int,
    c: int,
)
    requires
        0 <= from <= c <= BITMAP_PAGE_COUNT as int,
        c < BITMAP_PAGE_COUNT as int ==> is_candidate(payload, first, f, c),
        forall|j: int| from <= j < c ==> !is_candidate(payload, first, f, j),
    ensures
        first_candidate_from(payload, first, f, from) == c,
    decreases c - from,
{
    if from < c {
        lemma_first_candidate_from_is(payload, first, f, from + 1, c);
    }
}

/// With the all-accepting filter a candidate is simply a clear bit.
pub proof fn lemma_candidate_unfiltered(payload: Seq<u8>, first: u32, from: int)
    requires
        0 <= from,
    ensures
        first_candidate_from(payload, first, AcceptAll, from) == first_clear_from(payload, from),
    decreases BITMAP_PAGE_COUNT as int - from,
{
    if from < BITMAP_PAGE_COUNT as int && bit_set(payload, from) {
        lemma_candidate_unfiltered(payload, first, from + 1);
    }
}

/// The effect of marking the clear index `idx` allocated: the bit is set, the
/// count drops, and each cursor standing exactly at `idx` advances to the
/// next admissible index (the search cursor honours the filter, the floor
/// does not).
pub open spec fn mark_used_spec<F: PageFilter>(v: BitmapView, idx: int, f: F) -> BitmapView {
    let p2 = set_bit_spec(v.payload, idx);
    BitmapView {
        payload: p2,
        free_count: (v.free_count - 1) as u16,
        cursor: if idx == v.cursor as int {
            free_index_sentinel(first_candidate_from(p2, v.first_managed_page_id, f, idx + 1))
        } else {
            v.cursor
        },
        floor: if idx == v.floor as int {
            free_index_sentinel(first_clear_from(p2, idx + 1))
        } else {
            v.floor
        },
        ..v
    }
}

/// The effect of clearing index `idx`: the bit is cleared, the count grows if
/// the bit was set, and the floor is lowered to `idx` if smaller. The search
/// cursor is never lowered.
pub open spec fn clear_index_spec(v: BitmapView, idx: int) -> BitmapView {
    BitmapView {
        payload: clear_bit_spec(v.payload, idx),
        free_count: (v.free_count + if bit_set(v.payload, idx) {
            1int
        } else {
            0int
        }) as u16,
        floor: if idx < v.floor as int {
            idx as u16
        } else {
            v.floor
        },
        ..v
    }
}

/// The effect of `free(page_id)`: a no-op outside the managed range.
pub open spec fn free_spec(v: BitmapView, page_id: u32) -> BitmapView {
    if v.contains_id(page_id) {
        clear_index_spec(v, page_id - v.first_managed_page_id)
    } else {
        v
    }
}

/// The effect of `allocate(f)`: take the first candidate at or after the
/// cursor; with no candidate the cursor parks at the sentinel.
pub open spec fn allocate_spec<F: PageFilter>(v: BitmapView, f: F) -> (BitmapView, Option<u32>) {
    let c = first_candidate_from(v.payload, v.first_managed_page_id, f, v.cursor as int);
    if c == BITMAP_PAGE_COUNT as int {
        (BitmapView { cursor: NO_FREE_INDEX, ..v }, None)
    } else {
        let v1 = BitmapView { cursor: c as u16, ..v };
        (mark_used_spec(v1, c, f), Some((v.first_managed_page_id + c) as u32))
    }
}

/// Marking a clear index preserves well-formedness; the new cursor and floor
/// still bound each other.
pub proof fn lemma_mark_used_spec_wf<F: PageFilter>(v: BitmapView, idx: int, f: F)
    requires
        v.wf(),
        0 <= idx < BITMAP_PAGE_COUNT as int,
        !bit_set(v.payload, idx),
    ensures
        mark_used_spec(v, idx, f).wf(),
        mark_used_spec(v, idx, f).free_count as int == v.free_count - 1,
{
    let p = v.payload;
    let p2 = set_bit_spec(p, idx);
    let v2 = mark_used_spec(v, idx, f);
    lemma_set_bit(p, idx);
    lemma_count_free_bounds(p, idx as int);
    // The count drops by exactly one.
    lemma_count_free_agree(p, p2, idx, BITMAP_PAGE_COUNT as int);
    assert(count_free(p2) == count_free(p) - 1);
    assert(v.free_count as int >= 1) by {
        lemma_count_free_at_least_one(p, idx);
    }
    // The old floor is the least clear index of p.
    lemma_first_clear_from(p, 0);
    lemma_first_clear_from(p2, 0);
    let fc = first_clear_from(p, 0);
    assert(idx >= fc);
    if idx == v.floor as int {
        // Everything below idx is set in p, hence in p2, and idx is now set.
        let r2 = first_clear_from(p2, idx + 1);
        lemma_first_clear_from(p2, idx + 1);
        assert forall|j: int| 0 <= j < r2 implies bit_set(p2, j) by {
            if j < idx {
                assert(bit_set(p, j));
            } else if j == idx {
                assert(bit_set(p2, idx));
            }
        }
        lemma_first_clear_from_is(p2, 0, r2);
        assert(v2.floor == least_clear_index(p2));
    } else {
        // The old floor stays the least clear index: idx > floor.
        assert(fc == v.floor as int);
        assert(idx != fc);
        assert forall|j: int| 0 <= j < fc implies bit_set(p2, j) by {
            assert(bit_set(p, j));
        }
        assert(!bit_set(p2, fc));
        lemma_first_clear_from_is(p2, 0, fc);
        assert(v2.floor == least_clear_index(p2));
    }
    // Cursor clause.
    if idx == v.cursor as int {
        let c2 = first_candidate_from(p2, v.first_managed_page_id, f, idx + 1);
        lemma_first_candidate_from(p2, v.first_managed_page_id, f, idx + 1);
        if c2 < BITMAP_PAGE_COUNT as int {
            assert(!bit_set(p2, c2));
            // The new floor is at most any clear index.
            lemma_first_clear_from(p2, 0);
            assert(v2.floor as int <= c2) by {
                if v2.floor as int > c2 {
                    assert(bit_set(p2, c2));
                }
            }
        }
    } else {
        if v.cursor != NO_FREE_INDEX {
            assert(!bit_set(p2, v.cursor as int));
            assert(v2.floor as int <= v.cursor as int) by {
                if v2.floor as int > v.cursor as int {
                    assert(bit_set(p2, v.cursor as int));
                }
            }
        }
    }
}

/// A payload with a clear bit has at least one free slot.
proof fn lemma_count_free_at_least_one(p: Seq<u8>, idx: int)
    requires
        0 <= idx < BITMAP_PAGE_COUNT as int,
        !bit_set(p, idx),
    ensures
        count_free(p) >= 1,
{
    lemma_count_free_mono(p, idx + 1, BITMAP_PAGE_COUNT as int);
    lemma_count_free_bounds(p, idx);
}

/// `count_free_upto` is monotone in the bound.
proof fn lemma_count_free_mono(p: Seq<u8>, m: int, n: int)
    requires
        0 <= m <= n,
    ensures
        count_free_upto(p, m) <= count_free_upto(p, n),
    decreases n - m,
{
    if m < n {
        lemma_count_free_mono(p, m, n - 1);
    }
}

/// Clearing an index preserves well-formedness.
pub proof fn lemma_clear_index_spec_wf(v: BitmapView, idx: int)
    requires
        v.wf(),
        0 <= idx < BITMAP_PAGE_COUNT as int,
    ensures
        clear_index_spec(v, idx).wf(),
        clear_index_spec(v, idx).floor <= v.floor,
{
    let p = v.payload;
    let p2 = clear_bit_spec(p, idx);
    let v2 = clear_index_spec(v, idx);
    lemma_clear_bit(p, idx);
    lemma_count_free_agree(p, p2, idx, BITMAP_PAGE_COUNT as int);
    lemma_count_free_bounds(p2, BITMAP_PAGE_COUNT as int);
    lemma_first_clear_from(p, 0);
    let fc = first_clear_from(p, 0);
    if !bit_set(p, idx) {
        lemma_clear_bit_noop(p, idx);
        assert(idx >= fc);
        lemma_first_clear_from_is(p2, 0, fc);
    } else {
        if idx < v.floor as int {
            // idx becomes the least clear index.
            assert forall|j: int| 0 <= j < idx implies bit_set(p2, j) by {
                assert(bit_set(p, j));
            }
            lemma_first_clear_from_is(p2, 0, idx);
        } else {
            // The old least clear index survives; idx > floor since the floor
            // bit is clear and idx's was set.
            assert(fc == v.floor as int);
            assert(idx != fc);
            assert forall|j: int| 0 <= j < fc implies bit_set(p2, j) by {
                assert(bit_set(p, j));
            }
            assert(!bit_set(p2, fc));
            lemma_first_clear_from_is(p2, 0, fc);
        }
    }
    if v.cursor != NO_FREE_INDEX {
        assert(!bit_set(p2, v.cursor as int));
    }
}

/// Allocation preserves well-formedness; a returned id is a filtered free id
/// at or after the old cursor, and the new cursor moves strictly past it.
pub proof fn lemma_allocate_spec<F: PageFilter>(v: BitmapView, f: F)
    requires
        v.wf(),
    ensures
        ({
            let (v2, r) = allocate_spec(v, f);
            &&& v2.wf()
            &&& v2.page_id == v.page_id
            &&& v2.first_managed_page_id == v.first_managed_page_id
            &&& match r {
                Option::None => v2 == (BitmapView { cursor: NO_FREE_INDEX, ..v })
                    && forall|j: int|
                        v.cursor as int <= j < BITMAP_PAGE_COUNT as int ==> !is_candidate(
                            v.payload,
                            v.first_managed_page_id,
                            f,
                            j,
                        ),
                Option::Some(id) => {
                    let c = first_candidate_from(
                        v.payload,
                        v.first_managed_page_id,
                        f,
                        v.cursor as int,
                    );
                    &&& v.cursor as int <= c < BITMAP_PAGE_COUNT as int
                    &&& id == v.first_managed_page_id + c
                    &&& is_candidate(v.payload, v.first_managed_page_id, f, c)
                    &&& forall|j: int|
                        v.cursor as int <= j < c ==> !is_candidate(
                            v.payload,
                            v.first_managed_page_id,
                            f,
                            j,
                        )
                    &&& v2.free_count as int == v.free_count - 1
                    &&& (v2.cursor == NO_FREE_INDEX || v2.cursor as int > c)
                },
            }
        }),
{
    let first = v.first_managed_page_id;
    let c = first_candidate_from(v.payload, first, f, v.cursor as int);
    lemma_first_candidate_from(v.payload, first, f, v.cursor as int);
    if c == BITMAP_PAGE_COUNT as int {
    } else {
        let v1 = BitmapView { cursor: c as u16, ..v };
        assert(v1.wf()) by {
            lemma_first_clear_from(v.payload, 0);
            if v1.floor as int > c {
                assert(bit_set(v.payload, c));
            }
        }
        lemma_mark_used_spec_wf(v1, c, f);
        let v2 = mark_used_spec(v1, c, f);
        lemma_first_candidate_from(v2.payload, first, f, c + 1);
    }
}

proof fn lemma_bv_bit_is_01(b: u8, k: u8)
    by (bit_vector)
    ensures
        (b >> k) & 1u8 == 0u8 || (b >> k) & 1u8 == 1u8,
{
}

proof fn lemma_bv_zero_byte(k: u8)
    by (bit_vector)
    requires
        k < 8,
    ensures
        (0u8 >> k) & 1u8 != 1u8,
{
}

/// Every bit of the all-zero payload is clear.
pub proof fn lemma_zero_payload_clear()
    ensures
        forall|i: int| 0 <= i < BITMAP_PAGE_COUNT as int ==> !bit_set(zero_payload(), i),
{
    assert forall|i: int| 0 <= i < BITMAP_PAGE_COUNT as int implies !bit_set(
        zero_payload(),
        i,
    ) by {
        lemma_bv_zero_byte((i % 8) as u8);
    }
}

/// A payload whose first `n` bits are clear has `n` free slots below `n`.
proof fn lemma_count_free_all_clear(p: Seq<u8>, n: int)
    requires
        0 <= n <= BITMAP_PAGE_COUNT as int,
        forall|i: int| 0 <= i < n ==> !bit_set(p, i),
    ensures
        count_free_upto(p, n) == n,
    decreases n,
{
    if n > 0 {
        lemma_count_free_all_clear(p, n - 1);
    }
}

/// Payload byte `bi` covers exactly the bit indices `[8 * bi, 8 * bi + 8)`.
proof fn lemma_bit_byte_index(j: int, bi: int)
    requires
        0 <= bi,
        8 * bi <= j < 8 * bi + 8,
    ensures
        j / 8 == bi,
        j % 8 == j - 8 * bi,
{
    assert(j / 8 == bi && j % 8 == j - 8 * bi) by (nonlinear_arith)
        requires
            0 <= bi,
            8 * bi <= j < 8 * bi + 8,
    ;
}

/// Scans bits `from_bit..8` of payload byte `bi` for a candidate. A byte
/// with all bits set is dismissed without inspecting individual bits.
fn scan_byte<F: PageFilter>(buffer: &Vec<u8>, bi: usize, from_bit: u16, first: u32, f: &F) -> (r:
    Option<u16>)
    requires
        buffer.len() == PAGE_SIZE,
        bi < BITMAP_PAYLOAD_SIZE,
        from_bit <= 8,
        first as int + BITMAP_PAGE_COUNT as int - 1 <= u32::MAX as int,
    ensures
        ({
            let payload = payload_of(buffer@);
            let lo = 8 * bi as int + from_bit as int;
            let hi = 8 * bi as int + 8;
            match r {
                Option::Some(c) => {
                    &&& lo <= c as int
                    &&& (c as int) < hi
                    &&& is_candidate(payload, first, *f, c as int)
                    &&& forall|j: int| lo <= j < c as int ==> !is_candidate(payload, first, *f, j)
                },
                Option::None => forall|j: int| lo <= j < hi ==> !is_candidate(payload, first, *f, j),
            }
        }),
{
    let ghost payload = payload_of(buffer@);
    let b = buffer[PAGE_HEADER_SIZE + bi];
    assert(b == payload[bi as int]);
    proof {
        assert(8 * bi as int + 8 <= BITMAP_PAGE_COUNT as int) by (nonlinear_arith)
            requires
                (bi as int) < (BITMAP_PAYLOAD_SIZE as int),
        ;
    }
    if b == 0xFF {
        proof {
            assert forall|j: int|
                8 * bi as int + from_bit as int <= j < 8 * bi as int + 8 implies !is_candidate(
                payload,
                first,
                *f,
                j,
            ) by {
                lemma_bit_byte_index(j, bi as int);
                lemma_full_byte_no_clear(payload, j);
            }
        }
        return None;
    }
    let mut bit: u16 = from_bit;
    while bit < 8
        invariant
            from_bit <= bit <= 8,
            bi < BITMAP_PAYLOAD_SIZE,
            buffer.len() == PAGE_SIZE,
            payload == payload_of(buffer@),
            b == payload[bi as int],
            first as int + BITMAP_PAGE_COUNT as int - 1 <= u32::MAX as int,
            forall|j: int|
                8 * bi as int + from_bit as int <= j < 8 * bi as int + bit as int
                    ==> !is_candidate(payload, first, *f, j),
        decreases 8 - bit,
    {
        let c: u16 = (bi as u16) * 8 + bit;
        proof {
            lemma_bit_byte_index(c as int, bi as int);
            assert(bit_set(payload, c as int) == ((b >> (bit as u8)) & 1u8 == 1u8));
        }
        if (b >> (bit as u8)) & 1u8 == 0u8 {
            if f.check(first + c as u32) {
                return Some(c);
            }
            proof {
                assert(!(*f).accepts((first + c as int) as u32));
            }
        }
        proof {
            lemma_bv_bit_is_01(b, bit as u8);
            assert(!is_candidate(payload, first, *f, c as int));
            assert forall|j: int|
                8 * bi as int + from_bit as int <= j < 8 * bi as int + bit as int + 1
                    implies !is_candidate(payload, first, *f, j) by {
                if j == c as int {
                } else {
                    assert(8 * bi as int + from_bit as int <= j < 8 * bi as int + bit as int);
                }
            }
        }
        bit += 1;
    }
    None
}

/// Finds the first clear index at or after `offset` whose absolute page id
/// passes the filter. Whole bytes of set bits are skipped cheaply.
pub(crate) fn find_clear_filtered<F: PageFilter>(buffer: &Vec<u8>, offset: u16, first: u32, f: &F) -> (r:
    Option<u16>)
    requires
        buffer.len() == PAGE_SIZE,
        first as int + BITMAP_PAGE_COUNT as int - 1 <= u32::MAX as int,
    ensures
        ({
            let c = first_candidate_from(payload_of(buffer@), first, *f, offset as int);
            match r {
                Option::Some(i) => i as int == c && c < BITMAP_PAGE_COUNT as int,
                Option::None => c == BITMAP_PAGE_COUNT as int,
            }
        }),
{
    let ghost payload = payload_of(buffer@);
    let byte_start = (offset / 8) as usize;
    proof {
        assert(offset as int == 8 * (offset as int / 8) + offset as int % 8) by (nonlinear_arith);
    }
    if byte_start >= BITMAP_PAYLOAD_SIZE {
        proof {
            assert(offset as int >= BITMAP_PAGE_COUNT as int);
        }
        return None;
    }
    match scan_byte(buffer, byte_start, offset % 8, first, f) {
        Some(c) => {
            proof {
                lemma_first_candidate_from_is(payload, first, *f, offset as int, c as int);
            }
            return Some(c);
        },
        None => {},
    }
    let mut bi = byte_start + 1;
    while bi < BITMAP_PAYLOAD_SIZE
        invariant
            byte_start + 1 <= bi <= BITMAP_PAYLOAD_SIZE,
            buffer.len() == PAGE_SIZE,
            payload == payload_of(buffer@),
            first as int + BITMAP_PAGE_COUNT as int - 1 <= u32::MAX as int,
            offset as int <= 8 * (byte_start + 1),
            forall|j: int| offset as int <= j < 8 * bi ==> !is_candidate(payload, first, *f, j),
        decreases BITMAP_PAYLOAD_SIZE - bi,
    {
        match scan_byte(buffer, bi, 0, first, f) {
            Some(c) => {
                proof {
                    lemma_first_candidate_from_is(payload, first, *f, offset as int, c as int);
                }
                return Some(c);
            },
            None => {},
        }
        bi += 1;
    }
    proof {
        lemma_first_candidate_from_is(
            payload,
            first,
            *f,
            offset as int,
            BITMAP_PAGE_COUNT as int,
        );
    }
    None
}

/// Recomputes the free count and least clear index of a page buffer.
fn payload_stats(buffer: &Vec<u8>) -> (r: (u16, u16))
    requires
        buffer.len() == PAGE_SIZE,
    ensures
        r.0 as int == count_free(payload_of(buffer@)),
        r.1 == least_clear_index(payload_of(buffer@)),
{
    let ghost payload = payload_of(buffer@);
    let mut count: u16 = 0;
    let mut first_clear: u16 = NO_FREE_INDEX;
    let mut i: u16 = 0;
    while i < BITMAP_PAGE_COUNT
        invariant
            i <= BITMAP_PAGE_COUNT,
            buffer.len() == PAGE_SIZE,
            payload == payload_of(buffer@),
            count as int == count_free_upto(payload, i as int),
            (first_clear == NO_FREE_INDEX && forall|j: int|
                0 <= j < i as int ==> bit_set(payload, j)) || (first_clear < i && !bit_set(
                payload,
                first_clear as int,
            ) && forall|j: int| 0 <= j < first_clear as int ==> bit_set(payload, j)),
        decreases BITMAP_PAGE_COUNT - i,
    {
        proof {
            lemma_count_free_bounds(payload, i as int);
        }
        if !get_bit(buffer, i) {
            count += 1;
            if first_clear == NO_FREE_INDEX {
                first_clear = i;
            }
        }
        i += 1;
    }
    proof {
        if first_clear == NO_FREE_INDEX {
            lemma_first_clear_from_is(payload, 0, BITMAP_PAGE_COUNT as int);
        } else {
            lemma_first_clear_from_is(payload, 0, first_clear as int);
        }
    }
    (count, first_clear)
}

/// A page buffer of zeroes.
pub(crate) fn zero_page_buffer() -> (r: Vec<u8>)
    ensures
        r@ == zero_payload_page(),
{
    let mut buffer: Vec<u8> = Vec::new();
    let mut k: usize = 0;
    while k < PAGE_SIZE
        invariant
            k <= PAGE_SIZE,
            buffer.len() == k,
            forall|j: int| 0 <= j < k ==> buffer@[j] == 0u8,
        decreases PAGE_SIZE - k,
    {
        buffer.push(0u8);
        k += 1;
    }
    proof {
        assert(buffer@ =~= zero_payload_page());
    }
    buffer
}

/// An all-zero page image.
pub open spec fn zero_payload_page() -> Seq<u8> {
    Seq::new(PAGE_SIZE as nat, |i: int| 0u8)
}

/// Copies a page worth of bytes into an owned buffer.
pub(crate) fn copy_page_bytes(src: &Vec<u8>) -> (r: Vec<u8>)
    requires
        src.len() == PAGE_SIZE,
    ensures
        r@ == src@,
{
    let mut buffer: Vec<u8> = Vec::new();
    let mut k: usize = 0;
    while k < PAGE_SIZE
        invariant
            k <= PAGE_SIZE,
            src.len() == PAGE_SIZE,
            buffer.len() == k,
            forall|j: int| 0 <= j < k ==> buffer@[j] == src@[j],
        decreases PAGE_SIZE - k,
    {
        buffer.push(src[k]);
        k += 1;
    }
    proof {
        assert(buffer@ =~= src@);
    }
    buffer
}

/// An in-memory bitmap page.
pub struct BitmapPage {
    page_id: u32,
    first_managed_page_id: u32,
    current_first_free_page_idx: u16,
    first_free_page_idx: u16,
    free_page_count: u16,
    buffer: Vec<u8>,
}

impl View for BitmapPage {
    type V = BitmapView;

    closed spec fn view(&self) -> BitmapView {
        BitmapView {
            page_id: self.page_id,
            first_managed_page_id: self.first_managed_page_id,
            cursor: self.current_first_free_page_idx,
            floor: self.first_free_page_idx,
            free_count: self.free_page_count,
            payload: payload_of(self.buffer@),
        }
    }
}

impl BitmapPage {
    /// Structural invariant: the buffer holds exactly one page.
    pub closed spec fn inv(&self) -> bool {
        self.buffer@.len() == PAGE_SIZE as int
    }

    /// Well-formedness of the page and its model.
    pub open spec fn wf(&self) -> bool {
        self.inv() && self@.wf()
    }

    /// Marks the clear index `idx` allocated and advances whichever cursors
    /// stood exactly there.
    fn mark_used<F: PageFilter>(&mut self, idx: u16, f: &F)
        requires
            old(self).wf(),
            idx < BITMAP_PAGE_COUNT,
            !bit_set(old(self)@.payload, idx as int),
        ensures
            final(self).wf(),
            final(self)@ == mark_used_spec(old(self)@, idx as int, *f),
    {
        proof {
            lemma_mark_used_spec_wf(old(self)@, idx as int, *f);
            lemma_count_free_at_least_one(old(self)@.payload, idx as int);
        }
        let _ = set_bit(&mut self.buffer, idx);
        self.free_page_count = self.free_page_count - 1;
        if idx == self.current_first_free_page_idx {
            let next: u16 = match find_clear_filtered(
                &self.buffer,
                idx + 1,
                self.first_managed_page_id,
                f,
            ) {
                Some(i) => i,
                None => NO_FREE_INDEX,
            };
            self.current_first_free_page_idx = next;
        }
        if idx == self.first_free_page_idx {
            let all = AcceptAll;
            let next: u16 = match find_clear_filtered(
                &self.buffer,
                idx + 1,
                self.first_managed_page_id,
                &all,
            ) {
                Some(i) => i,
                None => NO_FREE_INDEX,
            };
            proof {
                lemma_candidate_unfiltered(
                    payload_of(self.buffer@),
                    self.first_managed_page_id,
                    idx as int + 1,
                );
            }
            self.first_free_page_idx = next;
        }
    }

    /// A fresh bitmap at `first_managed_page_id`: every id free except the
    /// bitmap's own page, which lives at the first id it manages.
    pub fn new(first_managed_page_id: u32) -> (r: BitmapPage)
        requires
            first_managed_page_id as int + BITMAP_PAGE_COUNT as int - 1 <= u32::MAX as int,
        ensures
            r.wf(),
            r@.page_id == first_managed_page_id,
            r@.first_managed_page_id == first_managed_page_id,
            r@.free_count == BITMAP_PAGE_COUNT - 1,
            r@.floor == 1,
            r@.cursor == 1,
            r@.payload == set_bit_spec(zero_payload(), 0),
            bit_set(r@.payload, 0),
            forall|i: int| 1 <= i < BITMAP_PAGE_COUNT as int ==> !bit_set(r@.payload, i),
            r@ == new_bitmap_view(first_managed_page_id),
    {
        let buffer = zero_page_buffer();
        let mut page = BitmapPage {
            page_id: first_managed_page_id,
            first_managed_page_id,
            current_first_free_page_idx: 0,
            first_free_page_idx: 0,
            free_page_count: BITMAP_PAGE_COUNT,
            buffer,
        };
        proof {
            assert(page@.payload =~= zero_payload());
            lemma_zero_payload_clear();
            lemma_count_free_all_clear(page@.payload, BITMAP_PAGE_COUNT as int);
            assert(page.wf());
        }
        let all = AcceptAll;
        page.mark_used(0, &all);
        proof {
            let p2 = set_bit_spec(zero_payload(), 0);
            lemma_zero_payload_clear();
            lemma_set_bit(zero_payload(), 0);
            assert(!bit_set(zero_payload(), 1));
            assert(!bit_set(p2, 1));
            lemma_candidate_unfiltered(p2, first_managed_page_id, 1);
            assert(first_clear_from(p2, 1) == 1);
            assert forall|i: int| 1 <= i < BITMAP_PAGE_COUNT as int implies !bit_set(
                page@.payload,
                i,
            ) by {
                assert(!bit_set(zero_payload(), i));
                assert(bit_set(p2, i) == bit_set(zero_payload(), i));
            }
        }
        page
    }

    /// Whether `page_id` falls in this bitmap's managed range.
    pub fn contains(&self, page_id: u32) -> (r: bool)
        requires
            self.wf(),
        ensures
            r == self@.contains_id(page_id),
    {
        let last = self.first_managed_page_id + (BITMAP_PAGE_COUNT as u32 - 1);
        page_id >= self.first_managed_page_id && page_id <= last
    }

    /// Allocates the first free id at or after the cursor whose absolute id
    /// passes the filter; None, parking the cursor, when there is none.
    pub fn allocate<F: PageFilter>(&mut self, f: &F) -> (r: Option<u32>)
        requires
            old(self).wf(),
        ensures
            final(self).wf(),
            final(self)@ == allocate_spec(old(self)@, *f).0,
            r == allocate_spec(old(self)@, *f).1,
    {
        proof {
            lemma_allocate_spec(old(self)@, *f);
            lemma_first_candidate_from(
                old(self)@.payload,
                old(self)@.first_managed_page_id,
                *f,
                old(self)@.cursor as int,
            );
        }
        let found = find_clear_filtered(
            &self.buffer,
            self.current_first_free_page_idx,
            self.first_managed_page_id,
            f,
        );
        match found {
            Some(idx) => {
                self.current_first_free_page_idx = idx;
                proof {
                    // The struct with the cursor moved onto the candidate is
                    // still well-formed.
                    lemma_first_clear_from(self@.payload, 0);
                    if self@.floor as int > idx as int {
                        assert(bit_set(self@.payload, idx as int));
                    }
                }
                let id = self.first_managed_page_id + idx as u32;
                self.mark_used(idx, f);
                Some(id)
            },
            None => {
                self.current_first_free_page_idx = NO_FREE_INDEX;
                None
            },
        }
    }

    /// Frees `page_id` if this bitmap manages it; reports whether it does.
    /// The floor may drop; the search cursor never does.
    pub fn free(&mut self, page_id: u32) -> (r: bool)
        requires
            old(self).wf(),
        ensures
            final(self).wf(),
            r == old(self)@.contains_id(page_id),
            final(self)@ == free_spec(old(self)@, page_id),
    {
        let in_range = self.contains(page_id);
        if in_range {
            let idx = (page_id - self.first_managed_page_id) as u16;
            self.mark_free(idx);
        }
        in_range
    }

    /// Serializes the header fields into the buffer, making it the exact
    /// on-disk image of this bitmap.
    fn update_header(&mut self)
        requires
            old(self).inv(),
        ensures
            final(self).inv(),
            final(self)@ == old(self)@,
            final(self).buffer@ == bitmap_image(old(self)@),
    {
        put_u32(&mut self.buffer, 0, self.page_id);
        put_u32(&mut self.buffer, 4, BITMAP_PAGE_TYPE);
        put_u32(&mut self.buffer, 8, self.first_managed_page_id);
        put_u16(&mut self.buffer, 12, self.free_page_count);
        put_u16(&mut self.buffer, 14, self.first_free_page_idx);
        proof {
            assert(payload_of(final(self).buffer@) =~= payload_of(old(self).buffer@));
            assert(final(self).buffer@ =~= bitmap_image(old(self)@));
        }
    }

    /// Writes this bitmap's image to its current page id in the store.
    pub fn persist(&mut self, store: &mut PageStore) -> (r: Result<(), StoreError>)
        requires
            old(self).wf(),
            old(store).wf(),
        ensures
            final(self).wf(),
            final(self)@ == old(self)@,
            final(store).wf(),
            final(store)@.max_size == old(store)@.max_size,
            match r {
                Result::Ok(_) => {
                    &&& (old(self)@.page_id as int + 1) * PAGE_SIZE as int <= old(
                        store,
                    )@.max_size
                    &&& final(store)@ == store_after_write(
                        old(store)@,
                        old(self)@.page_id as int * PAGE_SIZE as int,
                        bitmap_image(old(self)@),
                    )
                },
                Result::Err(e) => {
                    &&& (old(self)@.page_id as int + 1) * PAGE_SIZE as int > old(store)@.max_size
                    &&& e == (StoreError::PageBeyondMaxSize {
                        max_size: (old(store)@.max_size as usize),
                    })
                    &&& final(store)@ == old(store)@
                },
            },
    {
        self.update_header();
        store.write_page(self.page_id as usize, &self.buffer)
    }

    /// Loads a bitmap from a persisted page image, relocating it to the
    /// first filtered free slot and reserving a second one for the next
    /// relocation; the old location is freed. Refuses images whose header
    /// does not agree with the payload.
    pub fn load<F: PageFilter>(page: &MemoryPage, f: &F) -> (r: Option<BitmapPage>)
        requires
            page.wf(),
        ensures
            match r {
                Option::Some(b) => b.wf() && load_spec(page@, *f) == Option::Some(b@),
                Option::None => load_spec(page@, *f) is None,
            },
    {
        let first_managed_page_id = page.get_u32(8);
        let free_page_count = page.get_u16(12);
        let first_free_page_idx = page.get_u16(14);
        if first_managed_page_id > u32::MAX - (BITMAP_PAGE_COUNT as u32 - 1) {
            return None;
        }
        let buffer = copy_page_bytes(page.content());
        let stats = payload_stats(&buffer);
        if free_page_count != stats.0 || first_free_page_idx != stats.1 {
            return None;
        }
        proof {
            assert(valid_bitmap_image(page@));
        }
        let current_idx = match find_clear_filtered(
            &buffer,
            first_free_page_idx,
            first_managed_page_id,
            f,
        ) {
            Some(c) => c,
            None => {
                return None;
            },
        };
        let next_idx = match find_clear_filtered(
            &buffer,
            current_idx + 1,
            first_managed_page_id,
            f,
        ) {
            Some(n) => n,
            None => {
                return None;
            },
        };
        let page_id = first_managed_page_id + current_idx as u32;
        let mut bm = BitmapPage {
            page_id,
            first_managed_page_id,
            current_first_free_page_idx: next_idx,
            first_free_page_idx,
            free_page_count,
            buffer,
        };
        proof {
            let payload = payload_of(page@);
            lemma_first_candidate_from(payload, first_managed_page_id, *f, first_free_page_idx as int);
            lemma_first_candidate_from(payload, first_managed_page_id, *f, current_idx as int + 1);
            lemma_first_clear_from(payload, 0);
            if bm@.floor as int > next_idx as int {
                assert(bit_set(payload, next_idx as int));
            }
            assert(bm.wf());
        }
        bm.mark_used(current_idx, f);
        let old_page_id = page.page_id();
        let _ = bm.free(old_page_id);
        Some(bm)
    }

    /// Loads a bitmap from a persisted page image at a caller-chosen page id
    /// (one the caller has already reserved elsewhere); the old location is
    /// freed. Refuses images whose header does not agree with the payload.
    pub fn load_into(page: &MemoryPage, page_id: u32) -> (r: Option<BitmapPage>)
        requires
            page.wf(),
        ensures
            match r {
                Option::Some(b) => b.wf() && load_into_spec(page@, page_id) == Option::Some(b@),
                Option::None => load_into_spec(page@, page_id) is None,
            },
    {
        let first_managed_page_id = page.get_u32(8);
        let free_page_count = page.get_u16(12);
        let first_free_page_idx = page.get_u16(14);
        if first_managed_page_id > u32::MAX - (BITMAP_PAGE_COUNT as u32 - 1) {
            return None;
        }
        let buffer = copy_page_bytes(page.content());
        let stats = payload_stats(&buffer);
        if free_page_count != stats.0 || first_free_page_idx != stats.1 {
            return None;
        }
        proof {
            assert(valid_bitmap_image(page@));
        }
        let mut bm = BitmapPage {
            page_id,
            first_managed_page_id,
            current_first_free_page_idx: first_free_page_idx,
            first_free_page_idx,
            free_page_count,
            buffer,
        };
        proof {
            lemma_first_clear_from(payload_of(page@), 0);
            assert(bm.wf());
        }
        let old_page_id = page.page_id();
        let _ = bm.free(old_page_id);
        Some(bm)
    }

    /// Clears index `idx`, raising the free count and lowering the floor as
    /// appropriate; the search cursor is never lowered.
    fn mark_free(&mut self, idx: u16)
        requires
            old(self).wf(),
            idx < BITMAP_PAGE_COUNT,
        ensures
            final(self).wf(),
            final(self)@ == clear_index_spec(old(self)@, idx as int),
    {
        proof {
            lemma_clear_index_spec_wf(old(self)@, idx as int);
            lemma_count_free_bounds(old(self)@.payload, BITMAP_PAGE_COUNT as int);
        }
        let was_set = clear_bit(&mut self.buffer, idx);
        if was_set {
            self.free_page_count = self.free_page_count + 1;
            if idx < self.first_free_page_idx {
                self.first_free_page_idx = idx;
            }
        } else {
            proof {
                // A clear bit lies at or above the floor, so no update is due.
                lemma_first_clear_from(old(self)@.payload, 0);
                if idx < old(self)@.floor as int {
                    assert(bit_set(old(self)@.payload, idx as int));
                }
            }
        }
    }
}

/// Freeing preserves well-formedness and never moves the search cursor.
pub proof fn lemma_free_spec_wf(v: BitmapView, page_id: u32)
    requires
        v.wf(),
    ensures
        free_spec(v, page_id).wf(),
        free_spec(v, page_id).cursor == v.cursor,
        free_spec(v, page_id).page_id == v.page_id,
        free_spec(v, page_id).first_managed_page_id == v.first_managed_page_id,
{
    if v.contains_id(page_id) {
        lemma_clear_index_spec_wf(v, page_id - v.first_managed_page_id);
    }
}

/// Law: with one fixed filter, two consecutive successful allocations hand
/// out strictly increasing page ids.
pub proof fn lemma_monotone_allocation<F: PageFilter>(v0: BitmapView, f: F, id1: u32, id2: u32)
    requires
        v0.wf(),
        allocate_spec(v0, f).1 == Option::Some(id1),
        allocate_spec(allocate_spec(v0, f).0, f).1 == Option::Some(id2),
    ensures
        id2 > id1,
{
    lemma_allocate_spec(v0, f);
    let v1 = allocate_spec(v0, f).0;
    lemma_allocate_spec(v1, f);
    let c1 = first_candidate_from(v0.payload, v0.first_managed_page_id, f, v0.cursor as int);
    let c2 = first_candidate_from(v1.payload, v1.first_managed_page_id, f, v1.cursor as int);
    assert(v1.cursor != NO_FREE_INDEX);
    assert(c2 >= v1.cursor as int) by {
        lemma_first_candidate_from(v1.payload, v1.first_managed_page_id, f, v1.cursor as int);
    }
}

/// Law: freeing an id at or below the last allocation between two
/// allocations does not rewind the sweep; the next allocation still returns
/// a strictly greater id. Only the floor is lowered by a free, never the
/// search cursor.
pub proof fn lemma_free_does_not_rewind<F: PageFilter>(
    v0: BitmapView,
    f: F,
    id1: u32,
    freed: u32,
    id2: u32,
)
    requires
        v0.wf(),
        allocate_spec(v0, f).1 == Option::Some(id1),
        freed <= id1,
        allocate_spec(free_spec(allocate_spec(v0, f).0, freed), f).1 == Option::Some(id2),
    ensures
        id2 > id1,
{
    lemma_allocate_spec(v0, f);
    let v1 = allocate_spec(v0, f).0;
    lemma_free_spec_wf(v1, freed);
    let v2 = free_spec(v1, freed);
    lemma_allocate_spec(v2, f);
    let c1 = first_candidate_from(v0.payload, v0.first_managed_page_id, f, v0.cursor as int);
    let c2 = first_candidate_from(v2.payload, v2.first_managed_page_id, f, v2.cursor as int);
    assert(v2.cursor == v1.cursor);
    assert(v1.cursor != NO_FREE_INDEX);
    assert(c2 >= v2.cursor as int) by {
        lemma_first_candidate_from(v2.payload, v2.first_managed_page_id, f, v2.cursor as int);
    }
}

/// The exact on-disk image of a bitmap page: the serialized header followed
/// by the bit payload.
pub open spec fn bitmap_image(v: BitmapView) -> Seq<u8> {
    Seq::new(
        PAGE_SIZE as nat,
        |i: int|
            if i < 4 {
                u32_le_bytes(v.page_id)[i]
            } else if i < 8 {
                u32_le_bytes(BITMAP_PAGE_TYPE)[i - 4]
            } else if i < 12 {
                u32_le_bytes(v.first_managed_page_id)[i - 8]
            } else if i < 14 {
                u16_le_bytes(v.free_count)[i - 12]
            } else if i < 16 {
                u16_le_bytes(v.floor)[i - 14]
            } else {
                v.payload[i - 16]
            },
    )
}

/// A persisted bitmap page image whose header agrees with its payload: the
/// recorded free count and first free index are the actual ones, and the
/// managed range fits in the page id space.
pub open spec fn valid_bitmap_image(img: Seq<u8>) -> bool {
    &&& img.len() == PAGE_SIZE as int
    &&& u32_of(img, 8) as int + BITMAP_PAGE_COUNT as int - 1 <= u32::MAX as int
    &&& u16_of(img, 12) as int == count_free(payload_of(img))
    &&& u16_of(img, 14) == least_clear_index(payload_of(img))
}

/// The in-memory bitmap read off an image, before any relocation bookkeeping.
pub open spec fn header_view(img: Seq<u8>, page_id: u32, cursor: u16) -> BitmapView {
    BitmapView {
        page_id,
        first_managed_page_id: u32_of(img, 8),
        cursor,
        floor: u16_of(img, 14),
        free_count: u16_of(img, 12),
        payload: payload_of(img),
    }
}

/// What `BitmapPage::load` produces from a page image: the bitmap relocated
/// to the first filtered free slot, with a second such slot reserved as the
/// new cursor, and the old location freed. None when the image is invalid or
/// fewer than two filtered free slots exist.
pub open spec fn load_spec<F: PageFilter>(img: Seq<u8>, f: F) -> Option<BitmapView> {
    if !valid_bitmap_image(img) {
        Option::None
    } else {
        let first = u32_of(img, 8);
        let payload = payload_of(img);
        let c = first_candidate_from(payload, first, f, u16_of(img, 14) as int);
        if c == BITMAP_PAGE_COUNT as int {
            Option::None
        } else {
            let n = first_candidate_from(payload, first, f, c + 1);
            if n == BITMAP_PAGE_COUNT as int {
                Option::None
            } else {
                let v0 = header_view(img, (first + c) as u32, n as u16);
                Option::Some(free_spec(mark_used_spec(v0, c, f), u32_of(img, 0)))
            }
        }
    }
}

/// What `BitmapPage::load_into` produces: the bitmap installed at the
/// caller-chosen page id, with the old location freed. None when the image
/// is invalid.
pub open spec fn load_into_spec(img: Seq<u8>, page_id: u32) -> Option<BitmapView> {
    if !valid_bitmap_image(img) {
        Option::None
    } else {
        Option::Some(free_spec(header_view(img, page_id, u16_of(img, 14)), u32_of(img, 0)))
    }
}

/// A freshly loaded bitmap still has a filtered free slot at its cursor:
/// `load` reserved a second candidate exactly so that the next relocation
/// cannot starve.
pub proof fn lemma_load_spec_candidate<F: PageFilter>(img: Seq<u8>, f: F)
    ensures
        load_spec(img, f) matches Option::Some(b) ==> b.cursor < BITMAP_PAGE_COUNT
            && is_candidate(b.payload, b.first_managed_page_id, f, b.cursor as int),
{
    if load_spec(img, f) is Some {
        let first = u32_of(img, 8);
        let payload = payload_of(img);
        let c = first_candidate_from(payload, first, f, u16_of(img, 14) as int);
        let n = first_candidate_from(payload, first, f, c + 1);
        lemma_first_candidate_from(payload, first, f, u16_of(img, 14) as int);
        lemma_first_candidate_from(payload, first, f, c + 1);
        let v0 = header_view(img, (first + c) as u32, n as u16);
        let v1 = mark_used_spec(v0, c, f);
        lemma_set_bit(payload, c);
        let b = free_spec(v1, u32_of(img, 0));
        assert(v1.cursor == n as u16);
        assert(!bit_set(v1.payload, n));
        if v1.contains_id(u32_of(img, 0)) {
            lemma_clear_bit(v1.payload, u32_of(img, 0) - first);
        }
        assert(!bit_set(b.payload, n));
    }
}

/// Law: a persisted bitmap page echoes its own location: the u32 at byte
/// offset 0 of the page written by `persist` equals the page id the page
/// lives at.
pub proof fn lemma_persisted_bitmap_echoes_id(v: BitmapView, s: StoreView)
    ensures
        u32_of(
            store_after_write(s, v.page_id as int * PAGE_SIZE as int, bitmap_image(v)).page(
                v.page_id as int,
            ),
            0,
        ) == v.page_id,
{
    crate::store::lemma_store_after_write_page(s, v.page_id as int, bitmap_image(v));
    lemma_u32_le_round_trip(v.page_id);
    assert(u32_of(bitmap_image(v), 0) == u32_of(u32_le_bytes(v.page_id), 0)) by {
        assert(bitmap_image(v)[0] == u32_le_bytes(v.page_id)[0]);
        assert(bitmap_image(v)[1] == u32_le_bytes(v.page_id)[1]);
        assert(bitmap_image(v)[2] == u32_le_bytes(v.page_id)[2]);
        assert(bitmap_image(v)[3] == u32_le_bytes(v.page_id)[3]);
    }
}

/// Law: a bitmap loads only when at least two distinct filtered free slots
/// exist — one for its new location, one held in reserve for the next
/// relocation. Without the reserve the allocator could deadlock on its own
/// metadata.
pub proof fn lemma_load_needs_two_candidates<F: PageFilter>(img: Seq<u8>, f: F)
    ensures
        load_spec(img, f) is Some ==> exists|i: int, j: int|
            #![auto]
            i < j && is_candidate(payload_of(img), u32_of(img, 8), f, i) && is_candidate(
                payload_of(img),
                u32_of(img, 8),
                f,
                j,
            ),
{
    if load_spec(img, f) is Some {
        let first = u32_of(img, 8);
        let payload = payload_of(img);
        let c = first_candidate_from(payload, first, f, u16_of(img, 14) as int);
        let n = first_candidate_from(payload, first, f, c + 1);
        lemma_first_candidate_from(payload, first, f, u16_of(img, 14) as int);
        lemma_first_candidate_from(payload, first, f, c + 1);
        assert(c < n && is_candidate(payload, first, f, c) && is_candidate(payload, first, f, n));
    }
}

/// Law: a fully allocated bitmap page cannot be loaded.
pub proof fn lemma_load_full_refused<F: PageFilter>(img: Seq<u8>, f: F)
    requires
        forall|i: int| 0 <= i < BITMAP_PAGE_COUNT as int ==> bit_set(payload_of(img), i),
    ensures
        load_spec(img, f) is None,
{
    lemma_load_needs_two_candidates(img, f);
}

/// Law: a bitmap page with exactly one free slot cannot be loaded, whatever
/// the filter: relocation demands a second free slot in reserve.
pub proof fn lemma_load_single_slot_refused<F: PageFilter>(img: Seq<u8>, f: F, s: int)
    requires
        forall|i: int|
            0 <= i < BITMAP_PAGE_COUNT as int && i != s ==> bit_set(payload_of(img), i),
    ensures
        load_spec(img, f) is None,
{
    lemma_load_needs_two_candidates(img, f);
}

/// Law: no bitmap page loads under the filter that rejects every id.
pub proof fn lemma_load_filter_blocked(img: Seq<u8>)
    ensures
        load_spec(img, RejectAll) is None,
{
    lemma_load_needs_two_candidates(img, RejectAll);
}

/// Read access to the header fields of anything carrying a bitmap header:
/// an in-memory bitmap page, or a raw page view of a persisted one.
pub trait BitmapHeader {
    /// The page id the header records.
    spec fn header_page_id(&self) -> u32;

    /// The first managed page id the header records.
    spec fn header_first_managed(&self) -> u32;

    /// The free page count the header records.
    spec fn header_free_count(&self) -> u16;

    /// The first free page index the header records.
    spec fn header_floor(&self) -> u16;

    /// What the accessors need of the carrier.
    spec fn header_wf(&self) -> bool;

    /// The page id.
    fn page_id(&self) -> (r: u32)
        requires
            self.header_wf(),
        ensures
            r == self.header_page_id(),
    ;

    /// The first managed page id.
    fn first_managed_page_id(&self) -> (r: u32)
        requires
            self.header_wf(),
        ensures
            r == self.header_first_managed(),
    ;

    /// The free page count.
    fn free_page_count(&self) -> (r: u16)
        requires
            self.header_wf(),
        ensures
            r == self.header_free_count(),
    ;

    /// The first free page index.
    fn first_free_page_index(&self) -> (r: u16)
        requires
            self.header_wf(),
        ensures
            r == self.header_floor(),
    ;
}

impl BitmapHeader for BitmapPage {
    open spec fn header_page_id(&self) -> u32 {
        self@.page_id
    }

    open spec fn header_first_managed(&self) -> u32 {
        self@.first_managed_page_id
    }

    open spec fn header_free_count(&self) -> u16 {
        self@.free_count
    }

    open spec fn header_floor(&self) -> u16 {
        self@.floor
    }

    open spec fn header_wf(&self) -> bool {
        true
    }

    fn page_id(&self) -> (r: u32) {
        self.page_id
    }

    fn first_managed_page_id(&self) -> (r: u32) {
        self.first_managed_page_id
    }

    fn free_page_count(&self) -> (r: u16) {
        self.free_page_count
    }

    fn first_free_page_index(&self) -> (r: u16) {
        self.first_free_page_idx
    }
}

impl BitmapHeader for MemoryPage {
    open spec fn header_page_id(&self) -> u32 {
        u32_of(self@, 0)
    }

    open spec fn header_first_managed(&self) -> u32 {
        u32_of(self@, 8)
    }

    open spec fn header_free_count(&self) -> u16 {
        u16_of(self@, 12)
    }

    open spec fn header_floor(&self) -> u16 {
        u16_of(self@, 14)
    }

    open spec fn header_wf(&self) -> bool {
        self.wf()
    }

    fn page_id(&self) -> (r: u32) {
        self.get_u32(0)
    }

    fn first_managed_page_id(&self) -> (r: u32) {
        self.get_u32(8)
    }

    fn free_page_count(&self) -> (r: u16) {
        self.get_u16(12)
    }

    fn first_free_page_index(&self) -> (r: u16) {
        self.get_u16(14)
    }
}

} // verus!
