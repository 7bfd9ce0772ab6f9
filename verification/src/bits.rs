//! Little-endian field access and single-bit operations on page buffers.
//!
//! A page is 4096 bytes; a bitmap page keeps a 16-byte header followed by a
//! 4080-byte payload in which bit `i` (LSB-first within each byte) records
//! whether page `first_managed_page_id + i` is allocated.

use vstd::prelude::*;

verus! {

/// Size of one page in bytes.
pub const PAGE_SIZE: usize = 4096;

/// Size of the header of a structured page, in bytes.
pub const PAGE_HEADER_SIZE: usize = 16;

/// Size of the bit payload of a bitmap page: PAGE_SIZE - PAGE_HEADER_SIZE.
pub const BITMAP_PAYLOAD_SIZE: usize = 4080;

/// Number of page ids one bitmap page tracks: one bit per id over the payload,
/// (PAGE_SIZE - PAGE_HEADER_SIZE) * 8.
pub const BITMAP_PAGE_COUNT: u16 = 32640;

/// Sentinel index meaning "no free slot".
pub const NO_FREE_INDEX: u16 = 0xFFFF;

/// The u16 stored little-endian at byte offset `i` of `s`.
pub open spec fn u16_of(s: Seq<u8>, i: int) -> u16 {
    (s[i] as int + s[i + 1] as int * 0x100) as u16
}

/// The u32 stored little-endian at byte offset `i` of `s`.
pub open spec fn u32_of(s: Seq<u8>, i: int) -> u32 {
    (s[i] as int + s[i + 1] as int * 0x100 + s[i + 2] as int * 0x10000 + s[i + 3] as int
        * 0x1000000) as u32
}

/// The two little-endian bytes of `x`.
pub open spec fn u16_le_bytes(x: u16) -> Seq<u8> {
    seq![(x as int % 0x100) as u8, (x as int / 0x100) as u8]
}

/// The four little-endian bytes of `x`.
pub open spec fn u32_le_bytes(x: u32) -> Seq<u8> {
    seq![
        (x as int % 0x100) as u8,
        (x as int / 0x100 % 0x100) as u8,
        (x as int / 0x10000 % 0x100) as u8,
        (x as int / 0x1000000) as u8,
    ]
}

pub proof fn lemma_u16_le_round_trip(x: u16)
    ensures
        u16_of(u16_le_bytes(x), 0) == x,
{
    assert(x as int % 0x100 + (x as int / 0x100) * 0x100 == x as int);
}

pub proof fn lemma_u32_le_round_trip(x: u32)
    ensures
        u32_of(u32_le_bytes(x), 0) == x,
{
    assert(x as int % 0x100 + (x as int / 0x100 % 0x100) * 0x100 + (x as int / 0x10000 % 0x100)
        * 0x10000 + (x as int / 0x1000000) * 0x1000000 == x as int) by (nonlinear_arith);
}

/// Reads the little-endian u32 at byte offset `idx` of `buffer`.
pub fn get_u32(buffer: &Vec<u8>, idx: usize) -> (r: u32)
    requires
        idx + 4 <= buffer.len(),
    ensures
        r == u32_of(buffer@, idx as int),
{
    let b0 = buffer[idx] as u32;
    let b1 = buffer[idx + 1] as u32;
    let b2 = buffer[idx + 2] as u32;
    let b3 = buffer[idx + 3] as u32;
    b0 + b1 * 0x100 + b2 * 0x10000 + b3 * 0x1000000
}

/// Reads the little-endian u16 at byte offset `idx` of `buffer`.
pub fn get_u16(buffer: &Vec<u8>, idx: usize) -> (r: u16)
    requires
        idx + 2 <= buffer.len(),
    ensures
        r == u16_of(buffer@, idx as int),
{
    let b0 = buffer[idx] as u16;
    let b1 = buffer[idx + 1] as u16;
    b0 + b1 * 0x100
}

/// Writes `value` little-endian at byte offset `idx` of `buffer`.
pub(crate) fn put_u32(buffer: &mut Vec<u8>, idx: usize, value: u32)
    requires
        idx + 4 <= old(buffer).len(),
    ensures
        final(buffer).len() == old(buffer).len(),
        final(buffer)@.subrange(idx as int, idx as int + 4) == u32_le_bytes(value),
        forall|j: int|
            0 <= j < old(buffer).len() && !(idx <= j < idx + 4) ==> final(buffer)@[j] == old(
                buffer,
            )@[j],
        u32_of(final(buffer)@, idx as int) == value,
{
    buffer[idx] = (value % 0x100) as u8;
    buffer[idx + 1] = (value / 0x100 % 0x100) as u8;
    buffer[idx + 2] = (value / 0x10000 % 0x100) as u8;
    buffer[idx + 3] = (value / 0x1000000) as u8;
    proof {
        lemma_u32_le_round_trip(value);
        assert(final(buffer)@.subrange(idx as int, idx as int + 4) =~= u32_le_bytes(value));
    }
}

/// Writes `value` little-endian at byte offset `idx` of `buffer`.
pub(crate) fn put_u16(buffer: &mut Vec<u8>, idx: usize, value: u16)
    requires
        idx + 2 <= old(buffer).len(),
    ensures
        final(buffer).len() == old(buffer).len(),
        final(buffer)@.subrange(idx as int, idx as int + 2) == u16_le_bytes(value),
        forall|j: int|
            0 <= j < old(buffer).len() && !(idx <= j < idx + 2) ==> final(buffer)@[j] == old(
                buffer,
            )@[j],
        u16_of(final(buffer)@, idx as int) == value,
{
    buffer[idx] = (value % 0x100) as u8;
    buffer[idx + 1] = (value / 0x100) as u8;
    proof {
        lemma_u16_le_round_trip(value);
        assert(final(buffer)@.subrange(idx as int, idx as int + 2) =~= u16_le_bytes(value));
    }
}

/// Serializing the u32 read at offset `i` reproduces the original bytes.
pub proof fn lemma_u32_le_of(s: Seq<u8>, i: int)
    requires
        0 <= i,
        i + 4 <= s.len(),
    ensures
        u32_le_bytes(u32_of(s, i)) == seq![s[i], s[i + 1], s[i + 2], s[i + 3]],
{
    let x = s[i] as int + s[i + 1] as int * 0x100 + s[i + 2] as int * 0x10000 + s[i + 3] as int
        * 0x1000000;
    assert(x % 0x100 == s[i] as int && x / 0x100 % 0x100 == s[i + 1] as int && x / 0x10000 % 0x100
        == s[i + 2] as int && x / 0x1000000 == s[i + 3] as int) by (nonlinear_arith)
        requires
            x == s[i] as int + s[i + 1] as int * 0x100 + s[i + 2] as int * 0x10000 + s[i
                + 3] as int * 0x1000000,
            0 <= s[i] as int,
            (s[i] as int) < 0x100,
            0 <= s[i + 1] as int,
            (s[i + 1] as int) < 0x100,
            0 <= s[i + 2] as int,
            (s[i + 2] as int) < 0x100,
            0 <= s[i + 3] as int,
            (s[i + 3] as int) < 0x100,
    ;
    assert(u32_le_bytes(u32_of(s, i)) =~= seq![s[i], s[i + 1], s[i + 2], s[i + 3]]);
}

/// The bit payload of a bitmap page image: everything after the header.
pub open spec fn payload_of(img: Seq<u8>) -> Seq<u8> {
    img.subrange(PAGE_HEADER_SIZE as int, PAGE_SIZE as int)
}

/// Whether bit `i` of the payload is set, LSB-first within each byte.
pub open spec fn bit_set(payload: Seq<u8>, i: int) -> bool {
    (payload[i / 8] >> ((i % 8) as u8)) & 1u8 == 1u8
}

/// The payload with bit `i` set.
pub open spec fn set_bit_spec(payload: Seq<u8>, i: int) -> Seq<u8> {
    payload.update(i / 8, payload[i / 8] | (1u8 << ((i % 8) as u8)))
}

/// The payload with bit `i` cleared.
pub open spec fn clear_bit_spec(payload: Seq<u8>, i: int) -> Seq<u8> {
    payload.update(i / 8, payload[i / 8] & !(1u8 << ((i % 8) as u8)))
}

/// Number of clear bits among payload indices `[0, n)`.
pub open spec fn count_free_upto(payload: Seq<u8>, n: int) -> int
    decreases n,
{
    if n <= 0 {
        0
    } else {
        count_free_upto(payload, n - 1) + if bit_set(payload, n - 1) {
            0int
        } else {
            1int
        }
    }
}

/// Number of clear bits in the whole payload.
pub open spec fn count_free(payload: Seq<u8>) -> int {
    count_free_upto(payload, BITMAP_PAGE_COUNT as int)
}

/// The smallest clear index at or after `from`, or BITMAP_PAGE_COUNT if none.
pub open spec fn first_clear_from(payload: Seq<u8>, from: int) -> int
    decreases BITMAP_PAGE_COUNT as int - from,
{
    if from >= BITMAP_PAGE_COUNT as int {
        BITMAP_PAGE_COUNT as int
    } else if !bit_set(payload, from) {
        from
    } else {
        first_clear_from(payload, from + 1)
    }
}

/// Maps an index in `[0, BITMAP_PAGE_COUNT]` to the on-disk sentinel form.
pub open spec fn free_index_sentinel(c: int) -> u16 {
    if c == BITMAP_PAGE_COUNT as int {
        NO_FREE_INDEX
    } else {
        c as u16
    }
}

/// The smallest clear index of the payload in sentinel form.
pub open spec fn least_clear_index(payload: Seq<u8>) -> u16 {
    free_index_sentinel(first_clear_from(payload, 0))
}

proof fn lemma_bv_bit_test(b: u8, k: u8)
    by (bit_vector)
    requires
        k < 8,
    ensures
        (b & (1u8 << k) == 0) <==> ((b >> k) & 1u8 != 1u8),
        (b & (1u8 << k) == (1u8 << k)) <==> ((b >> k) & 1u8 == 1u8),
{
}

proof fn lemma_bv_or_same(b: u8, k: u8)
    by (bit_vector)
    requires
        k < 8,
    ensures
        ((b | (1u8 << k)) >> k) & 1u8 == 1u8,
{
}

proof fn lemma_bv_or_other(b: u8, k: u8, m: u8)
    by (bit_vector)
    requires
        k < 8,
        m < 8,
        k != m,
    ensures
        ((b | (1u8 << k)) >> m) & 1u8 == (b >> m) & 1u8,
{
}

proof fn lemma_bv_and_not_same(b: u8, k: u8)
    by (bit_vector)
    requires
        k < 8,
    ensures
        ((b & !(1u8 << k)) >> k) & 1u8 != 1u8,
{
}

proof fn lemma_bv_and_not_other(b: u8, k: u8, m: u8)
    by (bit_vector)
    requires
        k < 8,
        m < 8,
        k != m,
    ensures
        ((b & !(1u8 << k)) >> m) & 1u8 == (b >> m) & 1u8,
{
}

proof fn lemma_bv_clear_noop(b: u8, k: u8)
    by (bit_vector)
    requires
        k < 8,
        (b >> k) & 1u8 != 1u8,
    ensures
        b & !(1u8 << k) == b,
{
}

proof fn lemma_bv_full_byte(k: u8)
    by (bit_vector)
    requires
        k < 8,
    ensures
        (0xFFu8 >> k) & 1u8 == 1u8,
{
}

/// A byte with all bits set admits no clear bit.
pub proof fn lemma_full_byte_no_clear(payload: Seq<u8>, i: int)
    requires
        0 <= i < BITMAP_PAGE_COUNT as int,
        payload[i / 8] == 0xFFu8,
    ensures
        bit_set(payload, i),
{
    lemma_bv_full_byte((i % 8) as u8);
}

/// Setting bit `i` sets it and leaves every other bit unchanged.
pub proof fn lemma_set_bit(payload: Seq<u8>, i: int)
    requires
        payload.len() == BITMAP_PAYLOAD_SIZE as int,
        0 <= i < BITMAP_PAGE_COUNT as int,
    ensures
        set_bit_spec(payload, i).len() == payload.len(),
        bit_set(set_bit_spec(payload, i), i),
        forall|j: int|
            0 <= j < BITMAP_PAGE_COUNT as int && j != i ==> bit_set(set_bit_spec(payload, i), j)
                == bit_set(payload, j),
{
    let p2 = set_bit_spec(payload, i);
    lemma_bv_or_same(payload[i / 8], (i % 8) as u8);
    assert forall|j: int|
        0 <= j < BITMAP_PAGE_COUNT as int && j != i implies bit_set(p2, j) == bit_set(
        payload,
        j,
    ) by {
        if j / 8 == i / 8 {
            assert(j % 8 != i % 8);
            lemma_bv_or_other(payload[i / 8], (i % 8) as u8, (j % 8) as u8);
        }
    }
}

/// Clearing bit `i` clears it and leaves every other bit unchanged.
pub proof fn lemma_clear_bit(payload: Seq<u8>, i: int)
    requires
        payload.len() == BITMAP_PAYLOAD_SIZE as int,
        0 <= i < BITMAP_PAGE_COUNT as int,
    ensures
        clear_bit_spec(payload, i).len() == payload.len(),
        !bit_set(clear_bit_spec(payload, i), i),
        forall|j: int|
            0 <= j < BITMAP_PAGE_COUNT as int && j != i ==> bit_set(clear_bit_spec(payload, i), j)
                == bit_set(payload, j),
{
    let p2 = clear_bit_spec(payload, i);
    lemma_bv_and_not_same(payload[i / 8], (i % 8) as u8);
    assert forall|j: int|
        0 <= j < BITMAP_PAGE_COUNT as int && j != i implies bit_set(p2, j) == bit_set(
        payload,
        j,
    ) by {
        if j / 8 == i / 8 {
            assert(j % 8 != i % 8);
            lemma_bv_and_not_other(payload[i / 8], (i % 8) as u8, (j % 8) as u8);
        }
    }
}

/// Clearing a bit that is already clear leaves the payload unchanged.
pub proof fn lemma_clear_bit_noop(payload: Seq<u8>, i: int)
    requires
        payload.len() == BITMAP_PAYLOAD_SIZE as int,
        0 <= i < BITMAP_PAGE_COUNT as int,
        !bit_set(payload, i),
    ensures
        clear_bit_spec(payload, i) == payload,
{
    lemma_bv_clear_noop(payload[i / 8], (i % 8) as u8);
    assert(clear_bit_spec(payload, i) =~= payload);
}

/// How the count of clear bits below `n` changes when only bit `i` may differ.
pub proof fn lemma_count_free_agree(p1: Seq<u8>, p2: Seq<u8>, i: int, n: int)
    requires
        0 <= i < BITMAP_PAGE_COUNT as int,
        0 <= n <= BITMAP_PAGE_COUNT as int,
        forall|j: int|
            0 <= j < BITMAP_PAGE_COUNT as int && j != i ==> bit_set(p2, j) == bit_set(p1, j),
    ensures
        count_free_upto(p2, n) == count_free_upto(p1, n) + if i < n {
            (if bit_set(p1, i) {
                1int
            } else {
                0int
            }) - (if bit_set(p2, i) {
                1int
            } else {
                0int
            })
        } else {
            0int
        },
    decreases n,
{
    if n > 0 {
        lemma_count_free_agree(p1, p2, i, n - 1);
    }
}

/// The count of clear bits below `n` lies in `[0, n]`.
pub proof fn lemma_count_free_bounds(payload: Seq<u8>, n: int)
    requires
        0 <= n,
    ensures
        0 <= count_free_upto(payload, n) <= n,
    decreases n,
{
    if n > 0 {
        lemma_count_free_bounds(payload, n - 1);
    }
}

/// Characterization of `first_clear_from`: the result is the least clear index
/// at or after `from`, with BITMAP_PAGE_COUNT meaning that none exists.
pub proof fn lemma_first_clear_from(payload: Seq<u8>, from: int)
    requires
        0 <= from,
    ensures
        ({
            let r = first_clear_from(payload, from);
            &&& r <= BITMAP_PAGE_COUNT as int
            &&& (from <= BITMAP_PAGE_COUNT as int ==> from <= r)
            &&& (r < BITMAP_PAGE_COUNT as int ==> !bit_set(payload, r))
            &&& forall|j: int| from <= j < r ==> bit_set(payload, j)
        }),
    decreases BITMAP_PAGE_COUNT as int - from,
{
    let r = first_clear_from(payload, from);
    if from < BITMAP_PAGE_COUNT as int && bit_set(payload, from) {
        lemma_first_clear_from(payload, from + 1);
        assert(r == first_clear_from(payload, from + 1));
        assert forall|j: int| from <= j < r implies bit_set(payload, j) by {
            if j != from {
                assert(from + 1 <= j < r);
            }
        }
    }
}

/// A witness pins `first_clear_from` down exactly.
pub proof fn lemma_first_clear_from_is(payload: Seq<u8>, from: int, c: int)
    requires
        0 <= from <= c <= BITMAP_PAGE_COUNT as int,
        c < BITMAP_PAGE_COUNT as int ==> !bit_set(payload, c),
        forall|j: int| from <= j < c ==> bit_set(payload, j),
    ensures
        first_clear_from(payload, c) == c,
        first_clear_from(payload, from) == c,
    decreases c - from,
{
    if from < c {
        lemma_first_clear_from_is(payload, from + 1, c);
    }
}

/// Reads bit `i` of the payload of a page buffer.
pub(crate) fn get_bit(buffer: &Vec<u8>, i: u16) -> (r: bool)
    requires
        buffer.len() == PAGE_SIZE,
        i < BITMAP_PAGE_COUNT,
    ensures
        r == bit_set(payload_of(buffer@), i as int),
{
    let byte: u8 = buffer[PAGE_HEADER_SIZE + (i / 8) as usize];
    assert(byte == payload_of(buffer@)[i as int / 8]);
    (byte >> (i % 8) as u8) & 1u8 == 1u8
}

/// Sets bit `i` of the payload of a page buffer; reports whether it was clear.
pub(crate) fn set_bit(buffer: &mut Vec<u8>, i: u16) -> (was_clear: bool)
    requires
        old(buffer).len() == PAGE_SIZE,
        i < BITMAP_PAGE_COUNT,
    ensures
        final(buffer).len() == PAGE_SIZE,
        payload_of(final(buffer)@) == set_bit_spec(payload_of(old(buffer)@), i as int),
        forall|j: int| 0 <= j < PAGE_HEADER_SIZE ==> final(buffer)@[j] == old(buffer)@[j],
        was_clear == !bit_set(payload_of(old(buffer)@), i as int),
{
    let idx = PAGE_HEADER_SIZE + (i / 8) as usize;
    let byte: u8 = buffer[idx];
    let mask: u8 = 1u8 << (i % 8) as u8;
    let was_clear = byte & mask == 0;
    buffer[idx] = byte | mask;
    proof {
        lemma_bv_bit_test(byte, (i % 8) as u8);
        assert(payload_of(final(buffer)@) =~= set_bit_spec(payload_of(old(buffer)@), i as int));
    }
    was_clear
}

/// Clears bit `i` of the payload of a page buffer; reports whether it was set.
pub(crate) fn clear_bit(buffer: &mut Vec<u8>, i: u16) -> (was_set: bool)
    requires
        old(buffer).len() == PAGE_SIZE,
        i < BITMAP_PAGE_COUNT,
    ensures
        final(buffer).len() == PAGE_SIZE,
        payload_of(final(buffer)@) == clear_bit_spec(payload_of(old(buffer)@), i as int),
        forall|j: int| 0 <= j < PAGE_HEADER_SIZE ==> final(buffer)@[j] == old(buffer)@[j],
        was_set == bit_set(payload_of(old(buffer)@), i as int),
{
    let idx = PAGE_HEADER_SIZE + (i / 8) as usize;
    let byte: u8 = buffer[idx];
    let mask: u8 = 1u8 << (i % 8) as u8;
    let was_set = byte & mask == mask;
    buffer[idx] = byte & !mask;
    proof {
        lemma_bv_bit_test(byte, (i % 8) as u8);
        assert(payload_of(final(buffer)@) =~= clear_bit_spec(payload_of(old(buffer)@), i as int));
    }
    was_set
}

} // verus!
