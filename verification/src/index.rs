//! Index pages: coordination of many bitmap pages.
//!
//! An index page holds an 8-byte slot per bitmap (its current page id and
//! free count), routes allocate and free to the right bitmap, lazily loads
//! or grows bitmaps, and relocates itself on every load so the on-disk
//! snapshot always keeps a free slot for the next update.

use vstd::prelude::*;
use vstd::pervasive::VecAdditionalExecFns;
use crate::bits::{
    PAGE_SIZE, PAGE_HEADER_SIZE, BITMAP_PAGE_COUNT, u16_of, u32_of, u16_le_bytes, u32_le_bytes,
    get_u32, put_u16, put_u32, lemma_u32_le_of, lemma_u32_le_round_trip,
};
use crate::filter::{PageFilter, AcceptAll};
use crate::bitmap::{
    BitmapPage, BitmapView, BitmapHeader, allocate_spec, free_spec, load_spec, load_into_spec,
    bitmap_image, new_bitmap_view, lemma_allocate_spec, lemma_first_candidate_from_is,
    lemma_free_spec_wf, zero_page_buffer, copy_page_bytes,
};
use crate::store::{
    MemoryPage, PageStore, StoreError, StoreView, store_after_write, read_page_spec,
};

verus! {

/// Page type tag of an index page.
pub const INDEX_PAGE_TYPE: u32 = 2;

/// Number of bitmap slots one index page can hold: (4096 - 16) / 8.
pub const INDEX_BITMAP_COUNT: u16 = 510;

/// The slot table encoded in an index page image: one (bitmap page id,
/// free count) pair per 8-byte slot.
pub open spec fn slots_of(img: Seq<u8>) -> Seq<(u32, u32)> {
    Seq::new(
        INDEX_BITMAP_COUNT as nat,
        |k: int|
            (
                u32_of(img, PAGE_HEADER_SIZE as int + 8 * k),
                u32_of(img, PAGE_HEADER_SIZE as int + 8 * k + 4),
            ),
    )
}

/// The mathematical model of an in-memory index page.
pub struct IndexView {
    /// Where the index page currently lives.
    pub page_id: u32,
    /// The first page id of slot 0's bitmap.
    pub first_managed_page_id: u32,
    /// Number of bitmaps referenced (`current_bitmap_count`).
    pub bitmap_count: u16,
    /// Search cursor over slots (`current_bitmap_idx`).
    pub current_idx: u16,
    /// Smallest slot with recorded free capacity (`first_free_bitmap_idx`).
    pub first_free_idx: u16,
    /// All slot entries: (bitmap page id, recorded free count).
    pub slots: Seq<(u32, u32)>,
    /// The in-memory bitmap held dirty for each slot, if any.
    pub dirty: Seq<Option<BitmapView>>,
}

impl IndexView {
    /// The first page id covered by slot `k`.
    pub open spec fn slot_first_id(self, k: int) -> u32 {
        (self.first_managed_page_id + k * BITMAP_PAGE_COUNT as int) as u32
    }

    /// The slot whose bitmap covers `page_id`.
    pub open spec fn slot_of(self, page_id: u32) -> int {
        (page_id - self.first_managed_page_id) / (BITMAP_PAGE_COUNT as int)
    }

    /// Counters, slot table and the first-free-slot index agree.
    pub open spec fn wf_slots(self) -> bool {
        &&& self.slots.len() == INDEX_BITMAP_COUNT as int
        &&& self.dirty.len() == INDEX_BITMAP_COUNT as int
        &&& 1 <= self.bitmap_count <= INDEX_BITMAP_COUNT
        &&& self.first_managed_page_id as int + (INDEX_BITMAP_COUNT as int)
            * (BITMAP_PAGE_COUNT as int) - 1 <= u32::MAX as int
        &&& self.first_free_idx <= self.bitmap_count
        &&& forall|k: int| 0 <= k < self.first_free_idx as int ==> self.slots[k].1 == 0
        &&& (self.first_free_idx < self.bitmap_count ==> self.slots[self.first_free_idx as int].1
            > 0)
    }

    /// Every dirty bitmap is well-formed, covers its slot's range, and its
    /// slot entry mirrors its current location and free count.
    pub open spec fn dirty_ok(self) -> bool {
        forall|k: int|
            0 <= k < INDEX_BITMAP_COUNT as int ==> match #[trigger] self.dirty[k] {
                Option::Some(b) => {
                    &&& k < self.bitmap_count as int
                    &&& b.wf()
                    &&& b.first_managed_page_id == self.slot_first_id(k)
                    &&& self.slots[k] == (b.page_id, b.free_count as u32)
                },
                Option::None => true,
            }
    }

    /// Full well-formedness: additionally the slot under the search cursor
    /// holds a dirty bitmap, ready to allocate from.
    pub open spec fn wf(self) -> bool {
        &&& self.wf_slots()
        &&& self.dirty_ok()
        &&& self.current_idx < self.bitmap_count
        &&& self.dirty[self.current_idx as int] is Some
    }
}

/// The smallest slot in `[from, count)` with recorded free capacity, or
/// `count` if none.
pub open spec fn next_positive(slots: Seq<(u32, u32)>, from: int, count: int) -> u16
    decreases count - from,
{
    if from < 0 || from >= count {
        count as u16
    } else if slots[from].1 > 0 {
        from as u16
    } else {
        next_positive(slots, from + 1, count)
    }
}

/// Characterization of `next_positive`.
pub proof fn lemma_next_positive(slots: Seq<(u32, u32)>, from: int, count: int)
    requires
        0 <= from,
        from <= count,
        count <= slots.len(),
        count <= INDEX_BITMAP_COUNT as int,
    ensures
        ({
            let r = next_positive(slots, from, count);
            &&& from <= r as int <= count
            &&& ((r as int) < count ==> slots[r as int].1 > 0)
            &&& forall|j: int| from <= j < r as int ==> slots[j].1 == 0
        }),
    decreases count - from,
{
    let r = next_positive(slots, from, count);
    if from < count && !(slots[from].1 > 0) {
        lemma_next_positive(slots, from + 1, count);
        assert forall|j: int| from <= j < r as int implies slots[j].1 == 0 by {
            if j != from {
                assert(from + 1 <= j < r as int);
            }
        }
    }
}

/// A witness pins `next_positive` down exactly.
pub proof fn lemma_next_positive_is(slots: Seq<(u32, u32)>, from: int, count: int, c: int)
    requires
        0 <= from <= c <= count,
        count <= slots.len(),
        count <= INDEX_BITMAP_COUNT as int,
        c < count ==> slots[c].1 > 0,
        forall|j: int| from <= j < c ==> slots[j].1 == 0,
    ensures
        next_positive(slots, from, count) == c as u16,
    decreases c - from,
{
    if from < c {
        lemma_next_positive_is(slots, from + 1, count, c);
    }
}

/// The effect of `update_bitmap_data(k, page_id, free_count)`: the slot entry
/// is rewritten and `first_free_idx` is lowered or advanced as the recorded
/// capacity demands.
pub open spec fn update_slot_spec(v: IndexView, k: int, page_id: u32, free_count: u32) -> IndexView {
    let slots2 = v.slots.update(k, (page_id, free_count));
    let ffi2 = if k < v.first_free_idx as int && free_count > 0 {
        k as u16
    } else if k == v.first_free_idx as int && free_count == 0 {
        next_positive(slots2, k + 1, v.bitmap_count as int)
    } else {
        v.first_free_idx
    };
    IndexView { slots: slots2, first_free_idx: ffi2, ..v }
}

/// Updating a slot keeps the slot table well-formed in both directions: a
/// slot regaining capacity lowers `first_free_idx`, one losing its last page
/// advances it.
pub proof fn lemma_update_slot_wf(v: IndexView, k: int, page_id: u32, free_count: u32)
    requires
        v.wf_slots(),
        0 <= k < v.bitmap_count as int,
    ensures
        update_slot_spec(v, k, page_id, free_count).wf_slots(),
{
    let v2 = update_slot_spec(v, k, page_id, free_count);
    let slots2 = v2.slots;
    if k < v.first_free_idx as int && free_count > 0 {
    } else if k == v.first_free_idx as int && free_count == 0 {
        lemma_next_positive(slots2, k + 1, v.bitmap_count as int);
    } else {
    }
}

/// The effect of `grow_next_bitmap` when a slot is still free: a fresh
/// bitmap covering the next range enters the table and the dirty map, and
/// the slot cursor moves onto it.
pub open spec fn grow_next_spec(v: IndexView) -> IndexView {
    let k = v.bitmap_count as int;
    let nb = new_bitmap_view(v.slot_first_id(k));
    let v1 = update_slot_spec(v, k, nb.page_id, nb.free_count as u32);
    IndexView {
        dirty: v1.dirty.update(k, Option::Some(nb)),
        current_idx: k as u16,
        bitmap_count: (v.bitmap_count + 1) as u16,
        ..v1
    }
}

/// The exact on-disk image of an index page: the serialized header followed
/// by the slot table.
#[verifier::opaque]
pub open spec fn index_image(v: IndexView) -> Seq<u8> {
    Seq::new(
        PAGE_SIZE as nat,
        |i: int|
            if i < 4 {
                u32_le_bytes(v.page_id)[i]
            } else if i < 8 {
                u32_le_bytes(INDEX_PAGE_TYPE)[i - 4]
            } else if i < 12 {
                u32_le_bytes(v.first_managed_page_id)[i - 8]
            } else if i < 14 {
                u16_le_bytes(v.bitmap_count)[i - 12]
            } else if i < 16 {
                u16_le_bytes(v.first_free_idx)[i - 14]
            } else if (i - 16) % 8 < 4 {
                u32_le_bytes(v.slots[(i - 16) / 8].0)[(i - 16) % 8]
            } else {
                u32_le_bytes(v.slots[(i - 16) / 8].1)[(i - 16) % 8 - 4]
            },
    )
}

/// An in-memory index page.
pub struct IndexPage {
    page_id: u32,
    first_managed_page_id: u32,
    current_bitmap_count: u16,
    current_bitmap_idx: u16,
    first_free_bitmap_idx: u16,
    dirty_bitmaps: Vec<Option<BitmapPage>>,
    buffer: Vec<u8>,
}

impl View for IndexPage {
    type V = IndexView;

    closed spec fn view(&self) -> IndexView {
        IndexView {
            page_id: self.page_id,
            first_managed_page_id: self.first_managed_page_id,
            bitmap_count: self.current_bitmap_count,
            current_idx: self.current_bitmap_idx,
            first_free_idx: self.first_free_bitmap_idx,
            slots: slots_of(self.buffer@),
            dirty: Seq::new(
                INDEX_BITMAP_COUNT as nat,
                |k: int|
                    match self.dirty_bitmaps@[k] {
                        Option::Some(b) => Option::Some(b@),
                        Option::None => Option::None,
                    },
            ),
        }
    }
}

impl IndexPage {
    /// Structural invariant: one page of buffer, one option per slot, and
    /// every held bitmap page structurally sound.
    pub closed spec fn inv(&self) -> bool {
        &&& self.buffer@.len() == PAGE_SIZE as int
        &&& self.dirty_bitmaps@.len() == INDEX_BITMAP_COUNT as int
        &&& forall|k: int|
            0 <= k < INDEX_BITMAP_COUNT as int ==> match #[trigger] self.dirty_bitmaps@[k] {
                Option::Some(b) => b.inv(),
                Option::None => true,
            }
    }

    /// Well-formedness of the page and its model.
    pub open spec fn wf(&self) -> bool {
        self.inv() && self@.wf()
    }

    /// The current location of the index page.
    pub fn page_id(&self) -> (r: u32)
        ensures
            r == self@.page_id,
    {
        self.page_id
    }

    /// The first page id of slot 0's bitmap.
    pub fn first_managed_page_id(&self) -> (r: u32)
        ensures
            r == self@.first_managed_page_id,
    {
        self.first_managed_page_id
    }

    /// The number of bitmaps referenced.
    pub fn current_bitmap_count(&self) -> (r: u16)
        ensures
            r == self@.bitmap_count,
    {
        self.current_bitmap_count
    }

    /// The slot the allocation sweep currently works from.
    pub fn current_bitmap_idx(&self) -> (r: u16)
        ensures
            r == self@.current_idx,
    {
        self.current_bitmap_idx
    }

    /// The smallest slot with recorded free capacity.
    pub fn first_free_bitmap_idx(&self) -> (r: u16)
        ensures
            r == self@.first_free_idx,
    {
        self.first_free_bitmap_idx
    }

    /// How many bitmaps are currently held dirty in memory.
    pub fn dirty_bitmap_count(&self) -> (r: usize)
        requires
            self.inv(),
        ensures
            r as int == count_dirty(self@.dirty, INDEX_BITMAP_COUNT as int),
    {
        let mut n: usize = 0;
        let mut k: usize = 0;
        while k < INDEX_BITMAP_COUNT as usize
            invariant
                0 <= k <= INDEX_BITMAP_COUNT as int,
                self.inv(),
                n as int == count_dirty(self@.dirty, k as int),
                n <= k,
            decreases INDEX_BITMAP_COUNT as int - k,
        {
            if self.dirty_bitmaps[k].is_some() {
                n += 1;
            }
            k += 1;
        }
        n
    }

    /// Rewrites slot `bitmap_idx` and maintains `first_free_bitmap_idx` in
    /// both directions.
    #[verifier::loop_isolation(false)]
    fn update_bitmap_data(&mut self, bitmap_idx: u16, page_id: u32, free_page_count: u16)
        requires
            old(self).inv(),
            bitmap_idx < INDEX_BITMAP_COUNT,
            bitmap_idx <= old(self).current_bitmap_count,
            old(self).current_bitmap_count <= INDEX_BITMAP_COUNT,
        ensures
            final(self).inv(),
            final(self)@ == update_slot_spec(
                old(self)@,
                bitmap_idx as int,
                page_id,
                free_page_count as u32,
            ),
    {
        let ghost v = self@;
        let offset = PAGE_HEADER_SIZE + 8 * (bitmap_idx as usize);
        put_u32(&mut self.buffer, offset, page_id);
        put_u32(&mut self.buffer, offset + 4, free_page_count as u32);
        proof {
            lemma_slot_view_update(old(self).buffer@, self.buffer@, bitmap_idx as int, page_id,
                free_page_count as u32);
        }
        let ghost mid = self@;
        let ghost slots2 = self@.slots;
        if bitmap_idx < self.first_free_bitmap_idx && free_page_count > 0 {
            self.first_free_bitmap_idx = bitmap_idx;
        } else if bitmap_idx == self.first_free_bitmap_idx && free_page_count == 0 {
            let mut idx = bitmap_idx + 1;
            while idx < self.current_bitmap_count
                invariant
                    bitmap_idx as int + 1 <= idx as int,
                    idx as int <= self.current_bitmap_count as int || idx as int == bitmap_idx
                        as int + 1,
                    self.inv(),
                    self@ == mid,
                    slots2 == mid.slots,
                    bitmap_idx < INDEX_BITMAP_COUNT,
                    self.current_bitmap_count <= INDEX_BITMAP_COUNT,
                    forall|j: int| bitmap_idx as int + 1 <= j < idx as int ==> slots2[j].1 == 0,
                decreases self.current_bitmap_count as int - idx as int,
            {
                let page_count = get_u32(&self.buffer, PAGE_HEADER_SIZE + 8 * (idx as usize) + 4);
                proof {
                    assert(page_count == slots2[idx as int].1);
                }
                if page_count > 0 {
                    proof {
                        lemma_next_positive_is(
                            slots2,
                            bitmap_idx as int + 1,
                            mid.bitmap_count as int,
                            idx as int,
                        );
                    }
                    self.first_free_bitmap_idx = idx;
                    return ;
                }
                idx += 1;
            }
            proof {
                if bitmap_idx as int + 1 <= mid.bitmap_count as int {
                    lemma_next_positive_is(
                        slots2,
                        bitmap_idx as int + 1,
                        mid.bitmap_count as int,
                        mid.bitmap_count as int,
                    );
                }
            }
            self.first_free_bitmap_idx = self.current_bitmap_count;
        }
    }

    /// Introduces a fresh bitmap covering the next managed range, if a slot
    /// is still free, and moves the slot cursor onto it.
    fn grow_next_bitmap(&mut self) -> (r: bool)
        requires
            old(self).inv(),
            old(self)@.wf_slots(),
            old(self)@.dirty_ok(),
        ensures
            final(self).inv(),
            r == (old(self)@.bitmap_count < INDEX_BITMAP_COUNT),
            r ==> final(self)@ == grow_next_spec(old(self)@),
            r ==> final(self)@.wf_slots() && final(self)@.dirty_ok() && final(self)@.current_idx
                < final(self)@.bitmap_count && final(self)@.dirty[final(self)@.current_idx as int]
                is Some,
            !r ==> final(self)@ == old(self)@,
    {
        if self.current_bitmap_count >= INDEX_BITMAP_COUNT {
            return false;
        }
        let ghost v = self@;
        let k = self.current_bitmap_count;
        proof {
            assert((k as int) * (BITMAP_PAGE_COUNT as int) <= 509 * (BITMAP_PAGE_COUNT as int));
        }
        let range_first = self.first_managed_page_id + (k as u32) * (BITMAP_PAGE_COUNT as u32);
        let bitmap = BitmapPage::new(range_first);
        let pid = bitmap.page_id();
        let cnt = bitmap.free_page_count();
        self.update_bitmap_data(k, pid, cnt);
        self.dirty_bitmaps[k as usize] = Option::Some(bitmap);
        self.current_bitmap_idx = k;
        self.current_bitmap_count = k + 1;
        proof {
            let v2 = grow_next_spec(v);
            assert(self@.dirty =~= v2.dirty);
            assert(self@ == v2);
            // The slot table stays well-formed: the first free slot is
            // unchanged, and the new slot records free capacity.
            assert(v2.wf_slots()) by {
                assert(v2.slots[k as int].1 > 0);
                assert(forall|m: int|
                    0 <= m < v2.first_free_idx as int ==> v2.slots[m] == v.slots[m]);
            }
            assert(v2.dirty_ok()) by {
                assert forall|m: int|
                    0 <= m < INDEX_BITMAP_COUNT as int implies match #[trigger] v2.dirty[m] {
                    Option::Some(b) => {
                        &&& m < v2.bitmap_count as int
                        &&& b.wf()
                        &&& b.first_managed_page_id == v2.slot_first_id(m)
                        &&& v2.slots[m] == (b.page_id, b.free_count as u32)
                    },
                    Option::None => true,
                } by {
                    if m != k as int {
                        assert(v2.dirty[m] == v.dirty[m]);
                        assert(v2.slots[m] == v.slots[m]);
                    }
                }
            }
        }
        true
    }

    /// Builds an index over an existing first bitmap: a fresh second bitmap
    /// covering the next range is created, one page of it is allocated as
    /// the index page's own location, and both bitmaps enter the dirty map.
    pub fn grow(bitmap: BitmapPage) -> (r: IndexPage)
        requires
            bitmap.wf(),
            bitmap@.first_managed_page_id as int + (INDEX_BITMAP_COUNT as int)
                * (BITMAP_PAGE_COUNT as int) - 1 <= u32::MAX as int,
        ensures
            r.wf(),
            r@ == grow_spec(bitmap@),
            r@.page_id == bitmap@.first_managed_page_id + BITMAP_PAGE_COUNT + 1,
            r@.first_managed_page_id == bitmap@.first_managed_page_id,
            r@.bitmap_count == 2,
            r@.current_idx == 1,
            r@.first_free_idx == (if bitmap@.free_count > 0 {
                0u16
            } else {
                1u16
            }),
            r@.dirty[0] == Option::Some(bitmap@),
            count_dirty(r@.dirty, INDEX_BITMAP_COUNT as int) == 2,
    {
        let ghost b = bitmap@;
        let first = bitmap.first_managed_page_id();
        let slot0_pid = bitmap.page_id();
        let slot0_cnt = bitmap.free_page_count();
        let mut second = BitmapPage::new(first + BITMAP_PAGE_COUNT as u32);
        let all = AcceptAll;
        proof {
            lemma_allocate_spec(second@, AcceptAll);
            lemma_first_candidate_from_is(second@.payload, second@.first_managed_page_id,
                AcceptAll, 1, 1);
        }
        let page_id = match second.allocate(&all) {
            Some(id) => id,
            None => {
                proof {
                    assert(false);
                }
                0
            },
        };
        let mut index = IndexPage {
            page_id,
            first_managed_page_id: first,
            current_bitmap_count: 2,
            current_bitmap_idx: 1,
            first_free_bitmap_idx: if slot0_cnt > 0 {
                0
            } else {
                1
            },
            dirty_bitmaps: none_slot_vec(),
            buffer: zero_page_buffer(),
        };
        proof {
            assert forall|k: int| 0 <= k < INDEX_BITMAP_COUNT as int implies index@.slots[k]
                == (0u32, 0u32) by {
                assert(index.buffer@[PAGE_HEADER_SIZE as int + 8 * k] == 0u8);
            }
            assert(index@.slots =~= zero_slots());
            assert(index@.dirty =~= none_dirty());
        }
        index.update_bitmap_data(0, slot0_pid, slot0_cnt);
        index.update_bitmap_data(1, second.page_id(), second.free_page_count());
        index.dirty_bitmaps[0] = Option::Some(bitmap);
        index.dirty_bitmaps[1] = Option::Some(second);
        proof {
            let g = grow_spec(b);
            assert(index@.dirty =~= g.dirty);
            assert(index@.slots =~= g.slots);
            assert(index@ == g);
            lemma_count_dirty_two(g.dirty);
            assert(index@.wf()) by {
                assert(g.slots[0] == (b.page_id, b.free_count as u32));
                assert forall|m: int|
                    0 <= m < INDEX_BITMAP_COUNT as int implies match #[trigger] g.dirty[m] {
                    Option::Some(bm) => {
                        &&& m < g.bitmap_count as int
                        &&& bm.wf()
                        &&& bm.first_managed_page_id == g.slot_first_id(m)
                        &&& g.slots[m] == (bm.page_id, bm.free_count as u32)
                    },
                    Option::None => true,
                } by {
                    if m == 1 {
                        lemma_allocate_spec(new_bitmap_view((b.first_managed_page_id
                            + BITMAP_PAGE_COUNT) as u32), AcceptAll);
                    }
                }
            }
        }
        index
    }

    /// Reads the cold bitmap recorded in slot `j` back in at the reserved
    /// page id `new_pid`, frees `page_id` on it, and records it dirty.
    fn relocate_slot(&mut self, j: u16, page_id: u32, new_pid: u32, store: &PageStore) -> (r:
        Option<bool>)
        requires
            old(self).inv(),
            old(self)@.wf_slots(),
            old(self)@.dirty_ok(),
            store.wf(),
            j < old(self)@.bitmap_count,
        ensures
            final(self).inv(),
            final(self)@.wf_slots(),
            final(self)@.dirty_ok(),
            (final(self)@, r) == relocate_spec(old(self)@, store@, j as int, page_id, new_pid),
            final(self)@.bitmap_count == old(self)@.bitmap_count,
            final(self)@.current_idx == old(self)@.current_idx,
            final(self)@.page_id == old(self)@.page_id,
            final(self)@.first_managed_page_id == old(self)@.first_managed_page_id,
            forall|m: int|
                0 <= m < INDEX_BITMAP_COUNT as int && m != j as int ==> final(self)@.dirty[m]
                    == old(self)@.dirty[m],
    {
        let ghost v = self@;
        let old_pid = get_u32(&self.buffer, PAGE_HEADER_SIZE + 8 * (j as usize));
        let page = match store.read_page(old_pid as usize) {
            Result::Ok(p) => p,
            Result::Err(_) => {
                return Option::None;
            },
        };
        let mut b = match BitmapPage::load_into(&page, new_pid) {
            Option::Some(b) => b,
            Option::None => {
                return Option::None;
            },
        };
        proof {
            assert((j as int) * (BITMAP_PAGE_COUNT as int) <= 509 * (BITMAP_PAGE_COUNT as int));
        }
        let expected = self.first_managed_page_id + (j as u32) * (BITMAP_PAGE_COUNT as u32);
        if b.first_managed_page_id() != expected {
            return Option::None;
        }
        proof {
            lemma_free_spec_wf(b@, page_id);
        }
        let freed = b.free(page_id);
        let pid2 = b.page_id();
        let cnt2 = b.free_page_count();
        self.dirty_bitmaps[j as usize] = Option::Some(b);
        proof {
            assert(self@.dirty =~= v.dirty.update(j as int, Option::Some(free_spec(
                load_into_spec(page@, new_pid)->Some_0, page_id))));
        }
        self.update_bitmap_data(j, pid2, cnt2);
        proof {
            lemma_update_slot_wf(
                IndexView { dirty: v.dirty.update(j as int, self@.dirty[j as int]), ..v },
                j as int,
                pid2,
                cnt2 as u32,
            );
            assert(self@.dirty_ok()) by {
                assert forall|m: int|
                    0 <= m < INDEX_BITMAP_COUNT as int implies match #[trigger] self@.dirty[m] {
                    Option::Some(bm) => {
                        &&& m < self@.bitmap_count as int
                        &&& bm.wf()
                        &&& bm.first_managed_page_id == self@.slot_first_id(m)
                        &&& self@.slots[m] == (bm.page_id, bm.free_count as u32)
                    },
                    Option::None => true,
                } by {
                    if m != j as int {
                        assert(self@.dirty[m] == v.dirty[m]);
                        assert(self@.slots[m] == v.slots[m]);
                    }
                }
            }
        }
        Option::Some(freed)
    }

    /// Frees `page_id` while activating a bitmap: directly when its owning
    /// bitmap is dirty; through a copy-on-write relocation, paid for by an
    /// allocation from the freshly activated bitmap, when it is cold.
    fn reclaim_cold<F: PageFilter>(&mut self, page_id: u32, store: &PageStore, f: &F) -> (r: bool)
        requires
            old(self).inv(),
            old(self)@.wf_slots(),
            old(self)@.dirty_ok(),
            store.wf(),
            old(self)@.current_idx < old(self)@.bitmap_count,
            old(self)@.dirty[old(self)@.current_idx as int] is Some,
        ensures
            final(self).inv(),
            final(self)@.wf_slots(),
            final(self)@.dirty_ok(),
            (final(self)@, r) == reclaim_spec(old(self)@, store@, page_id, *f),
            final(self)@.bitmap_count == old(self)@.bitmap_count,
            final(self)@.current_idx == old(self)@.current_idx,
            final(self)@.page_id == old(self)@.page_id,
            final(self)@.first_managed_page_id == old(self)@.first_managed_page_id,
            final(self)@.dirty[final(self)@.current_idx as int] is Some,
    {
        let ghost v = self@;
        if page_id < self.first_managed_page_id {
            return true;
        }
        let j32 = (page_id - self.first_managed_page_id) / (BITMAP_PAGE_COUNT as u32);
        if j32 >= self.current_bitmap_count as u32 {
            return true;
        }
        let j = j32 as u16;
        proof {
            assert(j as int == v.slot_of(page_id));
        }
        if self.dirty_bitmaps[j as usize].is_some() {
            // The owning bitmap is already in memory: free directly.
            let mut taken: Option<BitmapPage> = Option::None;
            self.dirty_bitmaps.set_and_swap(j as usize, &mut taken);
            let mut b = match taken {
                Option::Some(b) => b,
                Option::None => {
                    proof {
                        assert(false);
                    }
                    return false;
                },
            };
            proof {
                lemma_free_spec_wf(b@, page_id);
            }
            let _ = b.free(page_id);
            let pid2 = b.page_id();
            let cnt2 = b.free_page_count();
            self.dirty_bitmaps[j as usize] = Option::Some(b);
            proof {
                assert(self@.dirty =~= v.dirty.update(j as int, self@.dirty[j as int]));
            }
            self.update_bitmap_data(j, pid2, cnt2);
            proof {
                lemma_update_slot_wf(
                    IndexView { dirty: self@.dirty, ..v },
                    j as int,
                    pid2,
                    cnt2 as u32,
                );
                assert(self@.dirty_ok()) by {
                    assert forall|m: int|
                        0 <= m < INDEX_BITMAP_COUNT as int implies match #[trigger] self@.dirty[m] {
                        Option::Some(bm) => {
                            &&& m < self@.bitmap_count as int
                            &&& bm.wf()
                            &&& bm.first_managed_page_id == self@.slot_first_id(m)
                            &&& self@.slots[m] == (bm.page_id, bm.free_count as u32)
                        },
                        Option::None => true,
                    } by {
                        if m != j as int {
                            assert(self@.dirty[m] == v.dirty[m]);
                            assert(self@.slots[m] == v.slots[m]);
                        }
                    }
                }
            }
            true
        } else {
            // The owner is cold: reserve a fresh page from the bitmap under
            // the cursor, then relocate the cold bitmap onto it.
            let cur = self.current_bitmap_idx;
            let mut taken: Option<BitmapPage> = Option::None;
            self.dirty_bitmaps.set_and_swap(cur as usize, &mut taken);
            let mut cb = match taken {
                Option::Some(b) => b,
                Option::None => {
                    proof {
                        assert(false);
                    }
                    return false;
                },
            };
            proof {
                lemma_allocate_spec(cb@, *f);
            }
            let rr = cb.allocate(f);
            let pid2 = cb.page_id();
            let cnt2 = cb.free_page_count();
            self.dirty_bitmaps[cur as usize] = Option::Some(cb);
            proof {
                assert(self@.dirty =~= v.dirty.update(cur as int, self@.dirty[cur as int]));
            }
            self.update_bitmap_data(cur, pid2, cnt2);
            proof {
                lemma_update_slot_wf(
                    IndexView { dirty: self@.dirty, ..v },
                    cur as int,
                    pid2,
                    cnt2 as u32,
                );
                assert(self@.dirty_ok()) by {
                    assert forall|m: int|
                        0 <= m < INDEX_BITMAP_COUNT as int implies match #[trigger] self@.dirty[m] {
                        Option::Some(bm) => {
                            &&& m < self@.bitmap_count as int
                            &&& bm.wf()
                            &&& bm.first_managed_page_id == self@.slot_first_id(m)
                            &&& self@.slots[m] == (bm.page_id, bm.free_count as u32)
                        },
                        Option::None => true,
                    } by {
                        if m != cur as int {
                            assert(self@.dirty[m] == v.dirty[m]);
                            assert(self@.slots[m] == v.slots[m]);
                        }
                    }
                }
            }
            match rr {
                Option::None => false,
                Option::Some(new_pid) => self.relocate_slot(j, page_id, new_pid, store).is_some(),
            }
        }
    }

    /// Scans the slots from `bitmap_idx` on for a bitmap that loads under
    /// the filter; activates the first one, reclaiming its old location when
    /// the relocation left it behind. With no loadable slot, grows a fresh
    /// bitmap instead.
    fn activate_next_bitmap<F: PageFilter>(
        &mut self,
        store: &PageStore,
        bitmap_idx: u16,
        f: &F,
    ) -> (r: bool)
        requires
            old(self).inv(),
            old(self)@.wf_slots(),
            old(self)@.dirty_ok(),
            store.wf(),
            bitmap_idx <= old(self)@.bitmap_count,
        ensures
            final(self).inv(),
            final(self)@.wf_slots(),
            final(self)@.dirty_ok(),
            (final(self)@, r) == activate_spec(old(self)@, store@, bitmap_idx as int, *f),
            final(self)@.page_id == old(self)@.page_id,
            final(self)@.first_managed_page_id == old(self)@.first_managed_page_id,
            final(self)@.bitmap_count >= old(self)@.bitmap_count,
            r ==> final(self)@.current_idx < final(self)@.bitmap_count
                && final(self)@.dirty[final(self)@.current_idx as int] is Some && bitmap_idx
                <= final(self)@.current_idx,
            old(self)@.current_idx < old(self)@.bitmap_count && old(self)@.dirty[old(
                self,
            )@.current_idx as int] is Some ==> final(self)@.current_idx
                < final(self)@.bitmap_count && final(self)@.dirty[final(self)@.current_idx as int]
                is Some,
        decreases INDEX_BITMAP_COUNT as int + 1 - bitmap_idx as int,
    {
        if bitmap_idx >= self.current_bitmap_count {
            return self.grow_next_bitmap();
        }
        let ghost v = self@;
        let pid = get_u32(&self.buffer, PAGE_HEADER_SIZE + 8 * (bitmap_idx as usize));
        let page = match store.read_page(pid as usize) {
            Result::Ok(p) => p,
            Result::Err(_) => {
                return self.activate_next_bitmap(store, bitmap_idx + 1, f);
            },
        };
        let b = match BitmapPage::load(&page, f) {
            Option::Some(b) => b,
            Option::None => {
                return self.activate_next_bitmap(store, bitmap_idx + 1, f);
            },
        };
        proof {
            assert((bitmap_idx as int) * (BITMAP_PAGE_COUNT as int) <= 509 * (
            BITMAP_PAGE_COUNT as int));
        }
        let expected = self.first_managed_page_id + (bitmap_idx as u32) * (BITMAP_PAGE_COUNT
            as u32);
        if b.first_managed_page_id() != expected {
            return self.activate_next_bitmap(store, bitmap_idx + 1, f);
        }
        let freed = b.contains(pid);
        let bpid = b.page_id();
        let bcnt = b.free_page_count();
        self.update_bitmap_data(bitmap_idx, bpid, bcnt);
        self.current_bitmap_idx = bitmap_idx;
        self.dirty_bitmaps[bitmap_idx as usize] = Option::Some(b);
        proof {
            lemma_update_slot_wf(v, bitmap_idx as int, bpid, bcnt as u32);
            let v1 = update_slot_spec(v, bitmap_idx as int, bpid, bcnt as u32);
            assert(self@.dirty =~= v1.dirty.update(bitmap_idx as int, self@.dirty[bitmap_idx
                as int]));
            assert(self@.dirty_ok()) by {
                assert forall|m: int|
                    0 <= m < INDEX_BITMAP_COUNT as int implies match #[trigger] self@.dirty[m] {
                    Option::Some(bm) => {
                        &&& m < self@.bitmap_count as int
                        &&& bm.wf()
                        &&& bm.first_managed_page_id == self@.slot_first_id(m)
                        &&& self@.slots[m] == (bm.page_id, bm.free_count as u32)
                    },
                    Option::None => true,
                } by {
                    if m != bitmap_idx as int {
                        assert(self@.dirty[m] == v.dirty[m]);
                        assert(self@.slots[m] == v.slots[m]);
                    }
                }
            }
        }
        if freed {
            true
        } else {
            self.reclaim_cold(pid, store, f)
        }
    }

    /// Allocates one page id: from the bitmap under the slot cursor, or,
    /// once that is exhausted under the filter, from the next slot that can
    /// be activated or grown. None when every slot is exhausted or unusable.
    pub fn allocate<F: PageFilter>(&mut self, store: &PageStore, f: &F) -> (r: Option<u32>)
        requires
            old(self).wf(),
            store.wf(),
        ensures
            final(self).wf(),
            (final(self)@, r) == index_allocate_spec(old(self)@, store@, *f),
            final(self)@.first_managed_page_id == old(self)@.first_managed_page_id,
            final(self)@.page_id == old(self)@.page_id,
            final(self)@.bitmap_count >= old(self)@.bitmap_count,
            r matches Option::Some(id) ==> f.accepts(id) && ({
                let s = final(self)@.slot_of(id);
                &&& 0 <= s < final(self)@.bitmap_count as int
                &&& final(self)@.dirty[s] matches Option::Some(b) && b.contains_id(id)
            }),
        decreases INDEX_BITMAP_COUNT as int + 1 - old(self)@.current_idx as int,
    {
        let ghost v = self@;
        let cur = self.current_bitmap_idx;
        let mut taken: Option<BitmapPage> = Option::None;
        self.dirty_bitmaps.set_and_swap(cur as usize, &mut taken);
        let mut b = match taken {
            Option::Some(b) => b,
            Option::None => {
                proof {
                    assert(false);
                }
                return Option::None;
            },
        };
        proof {
            lemma_allocate_spec(b@, *f);
        }
        let rr = b.allocate(f);
        let pid2 = b.page_id();
        let cnt2 = b.free_page_count();
        self.dirty_bitmaps[cur as usize] = Option::Some(b);
        proof {
            assert(self@.dirty =~= v.dirty.update(cur as int, self@.dirty[cur as int]));
        }
        self.update_bitmap_data(cur, pid2, cnt2);
        proof {
            lemma_update_slot_wf(IndexView { dirty: self@.dirty, ..v }, cur as int, pid2,
                cnt2 as u32);
            assert(self@.dirty_ok()) by {
                assert forall|m: int|
                    0 <= m < INDEX_BITMAP_COUNT as int implies match #[trigger] self@.dirty[m] {
                    Option::Some(bm) => {
                        &&& m < self@.bitmap_count as int
                        &&& bm.wf()
                        &&& bm.first_managed_page_id == self@.slot_first_id(m)
                        &&& self@.slots[m] == (bm.page_id, bm.free_count as u32)
                    },
                    Option::None => true,
                } by {
                    if m != cur as int {
                        assert(self@.dirty[m] == v.dirty[m]);
                        assert(self@.slots[m] == v.slots[m]);
                    }
                }
            }
        }
        match rr {
            Option::Some(id) => {
                proof {
                    lemma_slot_contains(self@, cur as int, id);
                }
                Option::Some(id)
            },
            Option::None => {
                if !self.activate_next_bitmap(store, cur + 1, f) {
                    Option::None
                } else {
                    self.allocate(store, f)
                }
            },
        }
    }

    /// Marks `page_id` free again. When its owning bitmap is cold this first
    /// allocates a fresh location and relocates the bitmap there, so the
    /// on-disk copy is never modified in place. None on exhaustion or when
    /// the owning bitmap cannot be read back; Some(false) for an id no slot
    /// manages.
    pub fn free<F: PageFilter>(&mut self, page_id: u32, store: &PageStore, f: &F) -> (r: Option<
        bool,
    >)
        requires
            old(self).wf(),
            store.wf(),
        ensures
            final(self).wf(),
            (final(self)@, r) == index_free_spec(old(self)@, store@, page_id, *f),
    {
        let ghost v = self@;
        if page_id < self.first_managed_page_id {
            return Option::Some(false);
        }
        let j32 = (page_id - self.first_managed_page_id) / (BITMAP_PAGE_COUNT as u32);
        if j32 >= self.current_bitmap_count as u32 {
            return Option::Some(false);
        }
        let j = j32 as u16;
        proof {
            assert(j as int == v.slot_of(page_id));
        }
        if self.dirty_bitmaps[j as usize].is_some() {
            let mut taken: Option<BitmapPage> = Option::None;
            self.dirty_bitmaps.set_and_swap(j as usize, &mut taken);
            let mut b = match taken {
                Option::Some(b) => b,
                Option::None => {
                    proof {
                        assert(false);
                    }
                    return Option::None;
                },
            };
            proof {
                lemma_free_spec_wf(b@, page_id);
            }
            let freed = b.free(page_id);
            let pid2 = b.page_id();
            let cnt2 = b.free_page_count();
            self.dirty_bitmaps[j as usize] = Option::Some(b);
            proof {
                assert(self@.dirty =~= v.dirty.update(j as int, self@.dirty[j as int]));
            }
            self.update_bitmap_data(j, pid2, cnt2);
            proof {
                lemma_update_slot_wf(IndexView { dirty: self@.dirty, ..v }, j as int, pid2,
                    cnt2 as u32);
                assert(self@.dirty_ok()) by {
                    assert forall|m: int|
                        0 <= m < INDEX_BITMAP_COUNT as int implies match #[trigger] self@.dirty[m] {
                        Option::Some(bm) => {
                            &&& m < self@.bitmap_count as int
                            &&& bm.wf()
                            &&& bm.first_managed_page_id == self@.slot_first_id(m)
                            &&& self@.slots[m] == (bm.page_id, bm.free_count as u32)
                        },
                        Option::None => true,
                    } by {
                        if m != j as int {
                            assert(self@.dirty[m] == v.dirty[m]);
                            assert(self@.slots[m] == v.slots[m]);
                        }
                    }
                }
            }
            Option::Some(freed)
        } else {
            let new_pid = match self.allocate(store, f) {
                Option::Some(p) => p,
                Option::None => {
                    return Option::None;
                },
            };
            self.relocate_slot(j, page_id, new_pid, store)
        }
    }

    /// Serializes the header fields into the buffer, making it the exact
    /// on-disk image of this index page.
    fn update_header(&mut self)
        requires
            old(self).inv(),
        ensures
            final(self).inv(),
            final(self)@ == old(self)@,
            final(self).buffer@ == index_image(old(self)@),
    {
        proof {
            reveal(index_image);
        }
        let ghost v = self@;
        put_u32(&mut self.buffer, 0, self.page_id);
        put_u32(&mut self.buffer, 4, INDEX_PAGE_TYPE);
        put_u32(&mut self.buffer, 8, self.first_managed_page_id);
        put_u16(&mut self.buffer, 12, self.current_bitmap_count);
        put_u16(&mut self.buffer, 14, self.first_free_bitmap_idx);
        proof {
            assert forall|k: int| 0 <= k < INDEX_BITMAP_COUNT as int implies slots_of(
                self.buffer@,
            )[k] == v.slots[k] by {
                assert forall|i: int|
                    PAGE_HEADER_SIZE as int + 8 * k <= i < PAGE_HEADER_SIZE as int + 8 * k
                        + 8 implies self.buffer@[i] == old(self).buffer@[i] by {
                    assert(i >= 16);
                }
            }
            assert(slots_of(self.buffer@) =~= v.slots);
            assert(self@ == v);
            assert forall|i: int| 0 <= i < PAGE_SIZE as int implies self.buffer@[i] == index_image(
                v,
            )[i] by {
                if i >= 16 {
                    let k = (i - 16) / 8;
                    let m = (i - 16) % 8;
                    assert(0 <= m < 8 && i == 16 + 8 * k + m && 0 <= k
                        < INDEX_BITMAP_COUNT as int) by (nonlinear_arith)
                        requires
                            16 <= i,
                            i < PAGE_SIZE as int,
                            PAGE_SIZE == 4096,
                            k == (i - 16) / 8,
                            m == (i - 16) % 8,
                            INDEX_BITMAP_COUNT == 510,
                    ;
                    lemma_u32_le_of(self.buffer@, 16 + 8 * k);
                    lemma_u32_le_of(self.buffer@, 16 + 8 * k + 4);
                }
            }
            assert(self.buffer@ =~= index_image(v));
        }
    }

    /// Writes the dirty bitmap of slot `k`, if any, to its current page id.
    fn persist_slot(&mut self, store: &mut PageStore, k: usize) -> (r: Result<(), StoreError>)
        requires
            old(self).inv(),
            k < INDEX_BITMAP_COUNT as usize,
            old(store).wf(),
            (match old(self)@.dirty[k as int] {
                Option::Some(b) => b.wf(),
                Option::None => true,
            }),
        ensures
            final(self).inv(),
            final(self)@ == old(self)@,
            final(store).wf(),
            final(store)@.max_size == old(store)@.max_size,
            (match old(self)@.dirty[k as int] {
                Option::None => final(store)@ == old(store)@ && r is Ok,
                Option::Some(b) => if (b.page_id as int + 1) * PAGE_SIZE as int <= old(
                    store,
                )@.max_size {
                    final(store)@ == store_after_write(
                        old(store)@,
                        b.page_id as int * PAGE_SIZE as int,
                        bitmap_image(b),
                    ) && r is Ok
                } else {
                    final(store)@ == old(store)@ && r == Result::<(), StoreError>::Err(
                        StoreError::PageBeyondMaxSize {
                            max_size: (old(store)@.max_size as usize),
                        },
                    )
                },
            }),
    {
        let ghost v = self@;
        proof {
            assert(v.dirty[k as int] == (match self.dirty_bitmaps@[k as int] {
                Option::Some(bb) => Option::Some(bb@),
                Option::None => Option::<BitmapView>::None,
            }));
            match self.dirty_bitmaps@[k as int] {
                Option::Some(bb) => {
                    assert(bb.inv());
                },
                Option::None => {},
            }
        }
        let mut taken: Option<BitmapPage> = Option::None;
        self.dirty_bitmaps.set_and_swap(k, &mut taken);
        match taken {
            Option::None => {
                proof {
                    assert(self@.dirty =~= v.dirty);
                    assert(self@ == v);
                }
                Result::Ok(())
            },
            Option::Some(mut b) => {
                let res = b.persist(store);
                let mut put: Option<BitmapPage> = Option::Some(b);
                self.dirty_bitmaps.set_and_swap(k, &mut put);
                proof {
                    assert(self@.dirty =~= v.dirty);
                    assert(self@ == v);
                }
                res
            },
        }
    }

    /// Writes the dirty bitmaps from slot `k` on, in slot order, each to
    /// its current page id, stopping at the first page that does not fit.
    fn persist_from(&mut self, store: &mut PageStore, k: usize) -> (r: Result<(), StoreError>)
        requires
            old(self).inv(),
            k <= INDEX_BITMAP_COUNT as usize,
            old(store).wf(),
            forall|m: int|
                0 <= m < INDEX_BITMAP_COUNT as int ==> (match #[trigger] old(self)@.dirty[m] {
                    Option::Some(b) => b.wf(),
                    Option::None => true,
                }),
        ensures
            final(self).inv(),
            final(self)@ == old(self)@,
            final(store).wf(),
            final(store)@.max_size == old(store)@.max_size,
            ({
                let pd = persist_dirty_from(old(store)@, old(self)@.dirty, k as int);
                &&& final(store)@ == pd.0
                &&& r == (if pd.1 {
                    Result::<(), StoreError>::Ok(())
                } else {
                    Result::<(), StoreError>::Err(
                        StoreError::PageBeyondMaxSize {
                            max_size: (old(store)@.max_size as usize),
                        },
                    )
                })
            }),
        decreases INDEX_BITMAP_COUNT as int - k as int,
    {
        proof {
            reveal_with_fuel(persist_dirty_from, 2);
        }
        if k >= INDEX_BITMAP_COUNT as usize {
            return Result::Ok(());
        }
        let res = self.persist_slot(store, k);
        if let Result::Err(e) = res {
            return Result::Err(e);
        }
        self.persist_from(store, k + 1)
    }

    /// Writes every dirty bitmap to its current page id, then the index
    /// page's own image; the first write that does not fit under the
    /// maximum file size stops the work and is reported.
    pub fn persist(&mut self, store: &mut PageStore) -> (r: Result<(), StoreError>)
        requires
            old(self).wf(),
            old(store).wf(),
        ensures
            final(self).wf(),
            final(self)@ == old(self)@,
            final(store).wf(),
            final(store)@.max_size == old(store)@.max_size,
            final(store)@ == index_persist_spec(old(self)@, old(store)@).0,
            r == index_persist_spec(old(self)@, old(store)@).1,
    {
        let ghost v = self@;
        let ghost s0 = store@;
        let ghost pd = persist_dirty_from(s0, v.dirty, 0);
        let res = self.persist_from(store, 0);
        if let Result::Err(e) = res {
            proof {
                assert(!pd.1 && store@ == pd.0);
                assert(index_persist_spec(v, s0).0 == pd.0);
                assert(index_persist_spec(v, s0).1 == res);
            }
            return Result::Err(e);
        }
        proof {
            assert(pd.1 && store@ == pd.0);
        }
        self.update_header();
        let r = store.write_page(self.page_id as usize, &self.buffer);
        proof {
            if (v.page_id as int + 1) * PAGE_SIZE as int <= s0.max_size {
                assert(r is Ok);
                assert(store@ == store_after_write(pd.0, v.page_id as int * PAGE_SIZE as int,
                    index_image(v)));
                assert(index_persist_spec(v, s0).0 == store@);
                match r {
                    Result::Ok(u) => {
                        assert(u == ());
                        assert(r == Result::<(), StoreError>::Ok(()));
                    },
                    Result::Err(_) => {
                        assert(false);
                    },
                }
                assert(index_persist_spec(v, s0).1 == r);
            } else {
                assert(store@ == pd.0);
                assert(index_persist_spec(v, s0).0 == store@);
                assert(index_persist_spec(v, s0).1 == r);
            }
        }
        r
    }

    /// Loads an index from a persisted page image: a bitmap is activated
    /// starting at the recorded first free slot, a fresh location is
    /// allocated for the index page itself, and its old location is freed.
    /// Refuses images whose header does not agree with the slot table.
    pub fn load<F: PageFilter>(memory: &MemoryPage, page_store: &PageStore, f: &F) -> (r: Option<
        IndexPage,
    >)
        requires
            memory.wf(),
            page_store.wf(),
        ensures
            match r {
                Option::Some(ix) => ix.wf() && index_load_spec(memory@, page_store@, *f)
                    == Option::Some(ix@),
                Option::None => index_load_spec(memory@, page_store@, *f) is None,
            },
    {
        let old_page_id = memory.page_id();
        let first_managed_page_id = memory.get_u32(8);
        let current_bitmap_count = memory.get_u16(12);
        let first_free_bitmap_idx = memory.get_u16(14);
        if current_bitmap_count < 1 || current_bitmap_count > INDEX_BITMAP_COUNT {
            return Option::None;
        }
        if first_managed_page_id > u32::MAX - ((INDEX_BITMAP_COUNT as u32) * (BITMAP_PAGE_COUNT
            as u32) - 1) {
            return Option::None;
        }
        let buffer = copy_page_bytes(memory.content());
        let computed = first_positive_slot(&buffer, current_bitmap_count);
        if first_free_bitmap_idx != computed {
            return Option::None;
        }
        proof {
            assert(slots_of(buffer@) =~= slots_of(memory@));
            assert(valid_index_image(memory@));
        }
        let mut index = IndexPage {
            page_id: 0xFFFFFFFFu32,
            first_managed_page_id,
            current_bitmap_count,
            current_bitmap_idx: first_free_bitmap_idx,
            first_free_bitmap_idx,
            dirty_bitmaps: none_slot_vec(),
            buffer,
        };
        proof {
            lemma_next_positive(slots_of(memory@), 0, current_bitmap_count as int);
            assert(index@.dirty =~= none_dirty());
            assert(index@.wf_slots());
            assert(index@.dirty_ok());
        }
        if !index.activate_next_bitmap(page_store, first_free_bitmap_idx, f) {
            return Option::None;
        }
        let new_id = match index.allocate(page_store, f) {
            Option::Some(id) => id,
            Option::None => {
                return Option::None;
            },
        };
        index.page_id = new_id;
        match index.free(old_page_id, page_store, f) {
            Option::None => Option::None,
            Option::Some(_) => Option::Some(index),
        }
    }
}

/// The first slot among the first `count` whose recorded free count is
/// positive, or `count` if none.
fn first_positive_slot(buffer: &Vec<u8>, count: u16) -> (r: u16)
    requires
        buffer.len() == PAGE_SIZE,
        count <= INDEX_BITMAP_COUNT,
    ensures
        r == next_positive(slots_of(buffer@), 0, count as int),
{
    let ghost slots = slots_of(buffer@);
    let mut probe: u16 = 0;
    while probe < count
        invariant
            0 <= probe <= count,
            count <= INDEX_BITMAP_COUNT,
            buffer.len() == PAGE_SIZE,
            slots == slots_of(buffer@),
            forall|j: int| 0 <= j < probe as int ==> slots[j].1 == 0,
        decreases count - probe,
    {
        let cnt = get_u32(&buffer, PAGE_HEADER_SIZE + 8 * (probe as usize) + 4);
        if cnt > 0 {
            proof {
                lemma_next_positive_is(slots, 0, count as int, probe as int);
            }
            return probe;
        }
        probe += 1;
    }
    proof {
        lemma_next_positive_is(slots, 0, count as int, count as int);
    }
    count
}

/// Law: a page id just handed out by `allocate` can be freed again, and the
/// free reports success. `allocate` ensures exactly the hypotheses: the
/// owning slot is dirty and its bitmap covers the id.
pub proof fn lemma_allocate_then_free<F: PageFilter>(v: IndexView, store: StoreView, f: F, p: u32)
    requires
        v.wf(),
        0 <= v.slot_of(p) < v.bitmap_count as int,
        v.dirty[v.slot_of(p)] matches Option::Some(b) && b.contains_id(p),
    ensures
        index_free_spec(v, store, p, f).1 == Option::Some(true),
{
    let j = v.slot_of(p);
    let b = v.dirty[j]->Some_0;
    assert(p >= b.first_managed_page_id);
    assert(b.first_managed_page_id == v.slot_first_id(j));
    assert(p >= v.first_managed_page_id) by (nonlinear_arith)
        requires
            p as int >= v.first_managed_page_id as int + j * BITMAP_PAGE_COUNT as int,
            j >= 0,
            BITMAP_PAGE_COUNT as int == 32640,
    ;
}

/// A page id handed out by a dirty bitmap falls in that bitmap's slot.
proof fn lemma_slot_contains(v: IndexView, s: int, id: u32)
    requires
        v.wf_slots(),
        v.dirty_ok(),
        0 <= s < v.bitmap_count as int,
        v.dirty[s] is Some,
        ({
            let b = v.dirty[s]->Some_0;
            b.contains_id(id)
        }),
    ensures
        v.slot_of(id) == s,
{
    let b = v.dirty[s]->Some_0;
    let first = v.first_managed_page_id as int;
    let bfirst = b.first_managed_page_id as int;
    assert(bfirst == first + s * BITMAP_PAGE_COUNT as int);
    assert(bfirst <= id as int <= bfirst + BITMAP_PAGE_COUNT as int - 1);
    assert((id as int - first) / (BITMAP_PAGE_COUNT as int) == s) by (nonlinear_arith)
        requires
            first + s * BITMAP_PAGE_COUNT as int <= id as int,
            id as int <= first + s * BITMAP_PAGE_COUNT as int + BITMAP_PAGE_COUNT as int - 1,
            s >= 0,
            BITMAP_PAGE_COUNT as int == 32640,
    ;
}

/// The slot table of a blank index page.
pub open spec fn zero_slots() -> Seq<(u32, u32)> {
    Seq::new(INDEX_BITMAP_COUNT as nat, |k: int| (0u32, 0u32))
}

/// The dirty map of a blank index page.
pub open spec fn none_dirty() -> Seq<Option<BitmapView>> {
    Seq::new(INDEX_BITMAP_COUNT as nat, |k: int| Option::<BitmapView>::None)
}

/// What `IndexPage::grow` produces from an existing first bitmap: a second
/// fresh bitmap covering the next range, one page allocated from it for the
/// index page itself, and both bitmaps held dirty.
pub open spec fn grow_spec(b: BitmapView) -> IndexView {
    let first = b.first_managed_page_id;
    let second = allocate_spec(
        new_bitmap_view((first + BITMAP_PAGE_COUNT) as u32),
        AcceptAll,
    ).0;
    IndexView {
        page_id: (first + BITMAP_PAGE_COUNT + 1) as u32,
        first_managed_page_id: first,
        bitmap_count: 2,
        current_idx: 1,
        first_free_idx: if b.free_count > 0 {
            0u16
        } else {
            1u16
        },
        slots: zero_slots().update(0, (b.page_id, b.free_count as u32)).update(
            1,
            (second.page_id, second.free_count as u32),
        ),
        dirty: none_dirty().update(0, Option::Some(b)).update(1, Option::Some(second)),
    }
}

/// What reading a cold bitmap back in at a fresh location and freeing one of
/// its pages does: the slot's recorded page is fetched, installed at
/// `new_pid`, the page is freed, and the bitmap turns dirty. Failure leaves
/// the index unchanged (beyond what the caller already did).
pub open spec fn relocate_spec(
    v: IndexView,
    store: StoreView,
    j: int,
    page_id: u32,
    new_pid: u32,
) -> (IndexView, Option<bool>) {
    let old_pid = v.slots[j].0;
    match read_page_spec(store, old_pid as int) {
        Option::None => (v, Option::None),
        Option::Some(img) => match load_into_spec(img, new_pid) {
            Option::None => (v, Option::None),
            Option::Some(b) => if b.first_managed_page_id == v.slot_first_id(j) {
                let b2 = free_spec(b, page_id);
                (
                    update_slot_spec(
                        IndexView { dirty: v.dirty.update(j, Option::Some(b2)), ..v },
                        j,
                        b2.page_id,
                        b2.free_count as u32,
                    ),
                    Option::Some(b.contains_id(page_id)),
                )
            } else {
                (v, Option::None)
            },
        },
    }
}

/// What reclaiming a page id during activation does. A dirty owner frees it
/// directly; a cold owner is first relocated to a page allocated from the
/// freshly activated bitmap (copy-on-write); an unmanaged id needs nothing.
pub open spec fn reclaim_spec<F: PageFilter>(
    v: IndexView,
    store: StoreView,
    page_id: u32,
    f: F,
) -> (IndexView, bool) {
    if page_id < v.first_managed_page_id || v.slot_of(page_id) >= v.bitmap_count as int {
        (v, true)
    } else {
        let j = v.slot_of(page_id);
        match v.dirty[j] {
            Option::Some(b) => {
                let b2 = free_spec(b, page_id);
                (
                    update_slot_spec(
                        IndexView { dirty: v.dirty.update(j, Option::Some(b2)), ..v },
                        j,
                        b2.page_id,
                        b2.free_count as u32,
                    ),
                    true,
                )
            },
            Option::None => match v.dirty[v.current_idx as int] {
                Option::None => (v, false),
                Option::Some(cb) => {
                    let pair = allocate_spec(cb, f);
                    let v1 = update_slot_spec(
                        IndexView {
                            dirty: v.dirty.update(v.current_idx as int, Option::Some(pair.0)),
                            ..v
                        },
                        v.current_idx as int,
                        pair.0.page_id,
                        pair.0.free_count as u32,
                    );
                    match pair.1 {
                        Option::None => (v1, false),
                        Option::Some(new_pid) => {
                            let rel = relocate_spec(v1, store, j, page_id, new_pid);
                            (rel.0, rel.1 is Some)
                        },
                    }
                },
            },
        }
    }
}

/// What `activate_next_bitmap` does: scan the slots from `k` on for one
/// whose persisted bitmap loads under the filter; on success record it
/// dirty, move the slot cursor there, and reclaim its old location if the
/// relocation left that behind; with no loadable slot, grow a fresh bitmap.
pub open spec fn activate_spec<F: PageFilter>(
    v: IndexView,
    store: StoreView,
    k: int,
    f: F,
) -> (IndexView, bool)
    decreases INDEX_BITMAP_COUNT as int + 1 - k,
{
    if k < 0 || k > INDEX_BITMAP_COUNT as int {
        (v, false)
    } else if k >= v.bitmap_count as int {
        if v.bitmap_count < INDEX_BITMAP_COUNT {
            (grow_next_spec(v), true)
        } else {
            (v, false)
        }
    } else {
        let pid = v.slots[k].0;
        let loaded = match read_page_spec(store, pid as int) {
            Option::Some(img) => load_spec(img, f),
            Option::None => Option::None,
        };
        match loaded {
            Option::Some(b) => if b.first_managed_page_id == v.slot_first_id(k) {
                let v1 = update_slot_spec(v, k, b.page_id, b.free_count as u32);
                let v2 = IndexView {
                    dirty: v1.dirty.update(k, Option::Some(b)),
                    current_idx: k as u16,
                    ..v1
                };
                if b.contains_id(pid) {
                    (v2, true)
                } else {
                    reclaim_spec(v2, store, pid, f)
                }
            } else {
                activate_spec(v, store, k + 1, f)
            },
            Option::None => activate_spec(v, store, k + 1, f),
        }
    }
}

/// What `IndexPage::allocate` does: allocate from the bitmap under the slot
/// cursor; when that bitmap is exhausted under the filter, activate the next
/// usable slot (loading or growing as needed) and try again.
pub open spec fn index_allocate_spec<F: PageFilter>(v: IndexView, store: StoreView, f: F) -> (
    IndexView,
    Option<u32>,
)
    decreases INDEX_BITMAP_COUNT as int + 1 - v.current_idx as int,
{
    if !(v.current_idx < v.bitmap_count && v.bitmap_count <= INDEX_BITMAP_COUNT
        && v.dirty[v.current_idx as int] is Some) {
        (v, Option::None)
    } else {
        match v.dirty[v.current_idx as int] {
            Option::None => (v, Option::None),
            Option::Some(b) => {
                let pair = allocate_spec(b, f);
                let v1 = update_slot_spec(
                    IndexView {
                        dirty: v.dirty.update(v.current_idx as int, Option::Some(pair.0)),
                        ..v
                    },
                    v.current_idx as int,
                    pair.0.page_id,
                    pair.0.free_count as u32,
                );
                match pair.1 {
                    Option::Some(id) => (v1, Option::Some(id)),
                    Option::None => {
                        let act = activate_spec(v1, store, v.current_idx as int + 1, f);
                        if act.1 && v.current_idx < act.0.current_idx
                            && act.0.current_idx <= INDEX_BITMAP_COUNT {
                            index_allocate_spec(act.0, store, f)
                        } else {
                            (act.0, Option::None)
                        }
                    },
                }
            },
        }
    }
}

/// What `IndexPage::free` does: route the free to the owning bitmap when it
/// is dirty; otherwise first allocate a fresh page id, relocate the cold
/// bitmap there (copy-on-write), and free on the relocated copy. An id no
/// slot manages is reported unfreed.
pub open spec fn index_free_spec<F: PageFilter>(
    v: IndexView,
    store: StoreView,
    page_id: u32,
    f: F,
) -> (IndexView, Option<bool>) {
    if page_id < v.first_managed_page_id || v.slot_of(page_id) >= v.bitmap_count as int {
        (v, Option::Some(false))
    } else {
        let j = v.slot_of(page_id);
        match v.dirty[j] {
            Option::Some(b) => {
                let b2 = free_spec(b, page_id);
                (
                    update_slot_spec(
                        IndexView { dirty: v.dirty.update(j, Option::Some(b2)), ..v },
                        j,
                        b2.page_id,
                        b2.free_count as u32,
                    ),
                    Option::Some(b.contains_id(page_id)),
                )
            },
            Option::None => {
                let pair = index_allocate_spec(v, store, f);
                match pair.1 {
                    Option::None => (pair.0, Option::None),
                    Option::Some(new_pid) => relocate_spec(pair.0, store, j, page_id, new_pid),
                }
            },
        }
    }
}

/// The store after persisting, in slot order, the dirty bitmaps from slot
/// `k` on; false once a bitmap's page does not fit under the maximum file
/// size, at which point later writes do not happen.
#[verifier::opaque]
pub open spec fn persist_dirty_from(store: StoreView, dirty: Seq<Option<BitmapView>>, k: int) -> (
    StoreView,
    bool,
)
    decreases INDEX_BITMAP_COUNT as int - k,
{
    if k < 0 || k >= INDEX_BITMAP_COUNT as int {
        (store, true)
    } else {
        match dirty[k] {
            Option::None => persist_dirty_from(store, dirty, k + 1),
            Option::Some(b) => if (b.page_id as int + 1) * PAGE_SIZE as int <= store.max_size {
                persist_dirty_from(
                    store_after_write(store, b.page_id as int * PAGE_SIZE as int, bitmap_image(b)),
                    dirty,
                    k + 1,
                )
            } else {
                (store, false)
            },
        }
    }
}

/// What `IndexPage::persist` does: write every dirty bitmap, then the index
/// page's own image; the first page that does not fit stops the work with
/// an error.
pub open spec fn index_persist_spec(v: IndexView, store: StoreView) -> (
    StoreView,
    Result<(), StoreError>,
) {
    let pd = persist_dirty_from(store, v.dirty, 0);
    let err = Result::<(), StoreError>::Err(
        StoreError::PageBeyondMaxSize { max_size: store.max_size as usize },
    );
    if !pd.1 {
        (pd.0, err)
    } else if (v.page_id as int + 1) * PAGE_SIZE as int <= store.max_size {
        (
            store_after_write(pd.0, v.page_id as int * PAGE_SIZE as int, index_image(v)),
            Result::Ok(()),
        )
    } else {
        (pd.0, err)
    }
}

/// A persisted index page image whose header agrees with its slot table:
/// the slot count is in range, the managed space fits in the page id space,
/// and the recorded first free slot is the actual one.
pub open spec fn valid_index_image(img: Seq<u8>) -> bool {
    &&& img.len() == PAGE_SIZE as int
    &&& 1 <= u16_of(img, 12) <= INDEX_BITMAP_COUNT
    &&& u32_of(img, 8) as int + (INDEX_BITMAP_COUNT as int) * (BITMAP_PAGE_COUNT as int) - 1
        <= u32::MAX as int
    &&& u16_of(img, 14) == next_positive(slots_of(img), 0, u16_of(img, 12) as int)
}

/// What `IndexPage::load` produces: the header is read back, a bitmap is
/// activated starting from the recorded first free slot, a fresh page id is
/// allocated for the index page itself, and its old location is freed. None
/// when the image is invalid or any of those steps starves or fails.
pub open spec fn index_load_spec<F: PageFilter>(img: Seq<u8>, store: StoreView, f: F) -> Option<
    IndexView,
> {
    if !valid_index_image(img) {
        Option::None
    } else {
        let v0 = IndexView {
            page_id: 0xFFFFFFFFu32,
            first_managed_page_id: u32_of(img, 8),
            bitmap_count: u16_of(img, 12),
            current_idx: u16_of(img, 14),
            first_free_idx: u16_of(img, 14),
            slots: slots_of(img),
            dirty: none_dirty(),
        };
        let act = activate_spec(v0, store, u16_of(img, 14) as int, f);
        if !act.1 {
            Option::None
        } else {
            let pair = index_allocate_spec(act.0, store, f);
            match pair.1 {
                Option::None => Option::None,
                Option::Some(new_id) => {
                    let v3 = IndexView { page_id: new_id, ..pair.0 };
                    let fr = index_free_spec(v3, store, u32_of(img, 0), f);
                    match fr.1 {
                        Option::None => Option::None,
                        Option::Some(_) => Option::Some(fr.0),
                    }
                },
            }
        }
    }
}

/// Law: a persisted index page echoes its own location: the u32 at byte
/// offset 0 of the page written by `persist` equals the page id the page
/// lives at.
pub proof fn lemma_persisted_index_echoes_id(v: IndexView, s: StoreView)
    ensures
        u32_of(
            store_after_write(s, v.page_id as int * PAGE_SIZE as int, index_image(v)).page(
                v.page_id as int,
            ),
            0,
        ) == v.page_id,
{
    reveal(index_image);
    crate::store::lemma_store_after_write_page(s, v.page_id as int, index_image(v));
    lemma_u32_le_round_trip(v.page_id);
    assert(u32_of(index_image(v), 0) == u32_of(u32_le_bytes(v.page_id), 0)) by {
        assert(index_image(v)[0] == u32_le_bytes(v.page_id)[0]);
        assert(index_image(v)[1] == u32_le_bytes(v.page_id)[1]);
        assert(index_image(v)[2] == u32_le_bytes(v.page_id)[2]);
        assert(index_image(v)[3] == u32_le_bytes(v.page_id)[3]);
    }
}

/// Number of slots holding a dirty bitmap among the first `n`.
pub open spec fn count_dirty(dirty: Seq<Option<BitmapView>>, n: int) -> int
    decreases n,
{
    if n <= 0 {
        0
    } else {
        count_dirty(dirty, n - 1) + if dirty[n - 1] is Some {
            1int
        } else {
            0int
        }
    }
}

/// A vector of empty dirty slots.
fn none_slot_vec() -> (r: Vec<Option<BitmapPage>>)
    ensures
        r@.len() == INDEX_BITMAP_COUNT as int,
        forall|k: int| 0 <= k < INDEX_BITMAP_COUNT as int ==> r@[k] is None,
{
    let mut v: Vec<Option<BitmapPage>> = Vec::new();
    let mut k: usize = 0;
    while k < INDEX_BITMAP_COUNT as usize
        invariant
            0 <= k <= INDEX_BITMAP_COUNT as int,
            v@.len() == k,
            forall|j: int| 0 <= j < k ==> v@[j] is None,
        decreases INDEX_BITMAP_COUNT as int - k,
    {
        v.push(Option::None);
        k += 1;
    }
    v
}

/// A dirty map with entries exactly at slots 0 and 1 holds two bitmaps.
proof fn lemma_count_dirty_two(dirty: Seq<Option<BitmapView>>)
    requires
        dirty.len() == INDEX_BITMAP_COUNT as int,
        dirty[0] is Some,
        dirty[1] is Some,
        forall|k: int| 2 <= k < INDEX_BITMAP_COUNT as int ==> dirty[k] is None,
    ensures
        count_dirty(dirty, INDEX_BITMAP_COUNT as int) == 2,
{
    lemma_count_dirty_none_above(dirty, 2, INDEX_BITMAP_COUNT as int);
    assert(count_dirty(dirty, 0) == 0);
    assert(count_dirty(dirty, 1) == 1);
    assert(count_dirty(dirty, 2) == 2);
}

/// `count_dirty` is unchanged across a suffix of empty slots.
proof fn lemma_count_dirty_none_above(dirty: Seq<Option<BitmapView>>, m: int, n: int)
    requires
        0 <= m <= n,
        forall|k: int| m <= k < n ==> dirty[k] is None,
    ensures
        count_dirty(dirty, n) == count_dirty(dirty, m),
    decreases n - m,
{
    if m < n {
        lemma_count_dirty_none_above(dirty, m, n - 1);
    }
}

/// Rewriting one 8-byte slot entry changes exactly that entry of the slot
/// table view.
proof fn lemma_slot_view_update(
    buf1: Seq<u8>,
    buf2: Seq<u8>,
    k: int,
    page_id: u32,
    free_count: u32,
)
    requires
        buf1.len() == PAGE_SIZE as int,
        buf2.len() == PAGE_SIZE as int,
        0 <= k < INDEX_BITMAP_COUNT as int,
        u32_of(buf2, PAGE_HEADER_SIZE as int + 8 * k) == page_id,
        u32_of(buf2, PAGE_HEADER_SIZE as int + 8 * k + 4) == free_count,
        forall|j: int|
            0 <= j < PAGE_SIZE as int && !(PAGE_HEADER_SIZE as int + 8 * k <= j
                < PAGE_HEADER_SIZE as int + 8 * k + 8) ==> buf2[j] == buf1[j],
    ensures
        slots_of(buf2) == slots_of(buf1).update(k, (page_id, free_count)),
{
    let s2 = slots_of(buf2);
    let s1u = slots_of(buf1).update(k, (page_id, free_count));
    assert forall|m: int| 0 <= m < INDEX_BITMAP_COUNT as int implies s2[m] == s1u[m] by {
        if m != k {
            assert(8 * m + 8 <= 8 * k || 8 * k + 8 <= 8 * m);
        }
    }
    assert(s2 =~= s1u);
}

} // verus!
