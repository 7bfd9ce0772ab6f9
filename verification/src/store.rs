//! The page store: fixed-size page I/O over the byte image of one file.
//!
//! The store holds the image of the backing file and translates page ids into
//! byte offsets, growing the image on demand up to a configured maximum size.
//! Reads hand out an owned copy of one page, so a view stays valid however
//! the store grows afterwards. Binding the image to an actual file on disk is
//! the embedding program's concern.

use vstd::prelude::*;
use crate::bits::{PAGE_SIZE, u16_of, u32_of, get_u16, get_u32};

verus! {

/// An error of the page store.
#[derive(Debug, Clone, Copy, PartialEq, Eq, Structural)]
pub enum StoreError {
    /// The page would end beyond the configured maximum file size.
    PageBeyondMaxSize { max_size: usize },
    /// The page lies beyond the current end of the file.
    PageBeyondCurrentSize { current_size: usize },
    /// `write_page` needs a buffer of exactly one page.
    WrongBufferLength,
    /// The offset and length together would overrun the page.
    WriteOverrunsPage,
}

/// The mathematical model of a page store: the file image and the size cap.
pub struct StoreView {
    pub content: Seq<u8>,
    pub max_size: int,
}

impl StoreView {
    /// The current size of the file image.
    pub open spec fn len(self) -> int {
        self.content.len() as int
    }

    /// Well-formedness: the image ends on a page boundary, within the cap.
    pub open spec fn wf(self) -> bool {
        &&& self.len() % PAGE_SIZE as int == 0
        &&& self.len() <= self.max_size
    }

    /// The image of page `id`.
    pub open spec fn page(self, id: int) -> Seq<u8> {
        self.content.subrange(id * PAGE_SIZE as int, (id + 1) * PAGE_SIZE as int)
    }
}

/// `content` zero-extended to `size` (unchanged if already at least as long).
pub open spec fn grown_to(content: Seq<u8>, size: int) -> Seq<u8> {
    if content.len() >= size {
        content
    } else {
        content + Seq::new((size - content.len()) as nat, |i: int| 0u8)
    }
}

/// `content` with the bytes from `pos` on replaced by `data`.
pub open spec fn write_at(content: Seq<u8>, pos: int, data: Seq<u8>) -> Seq<u8> {
    content.subrange(0, pos) + data + content.subrange(
        pos + data.len(),
        content.len() as int,
    )
}

/// The end offset of the page containing byte offset `pos`.
pub open spec fn page_end_of(pos: int) -> int {
    (pos / PAGE_SIZE as int) * PAGE_SIZE as int + PAGE_SIZE as int
}

/// The store after a successful raw write of `data` at offset `pos`:
/// the image grows with zeroes to the end of the page holding `pos`,
/// then the bytes from `pos` on are replaced.
pub open spec fn store_after_write(s: StoreView, pos: int, data: Seq<u8>) -> StoreView {
    StoreView { content: write_at(grown_to(s.content, page_end_of(pos)), pos, data), ..s }
}

/// What `read_page` yields for page `id`: its image, when the page lies
/// within the current file image.
pub open spec fn read_page_spec(s: StoreView, id: int) -> Option<Seq<u8>> {
    if 0 <= id && (id + 1) * PAGE_SIZE as int <= s.len() {
        Option::Some(s.page(id))
    } else {
        Option::None
    }
}

/// Writing one full page puts exactly those bytes at that page.
pub proof fn lemma_store_after_write_page(s: StoreView, id: int, data: Seq<u8>)
    requires
        0 <= id,
        data.len() == PAGE_SIZE as int,
    ensures
        store_after_write(s, id * PAGE_SIZE as int, data).page(id) == data,
{
    let pos = id * PAGE_SIZE as int;
    assert(pos / PAGE_SIZE as int == id) by (nonlinear_arith)
        requires
            id >= 0,
            pos == id * PAGE_SIZE as int,
            PAGE_SIZE == 4096,
    ;
    let grown = grown_to(s.content, page_end_of(pos));
    assert(grown.len() >= pos + PAGE_SIZE as int);
    let w = store_after_write(s, pos, data);
    assert forall|k: int| 0 <= k < PAGE_SIZE as int implies w.content[pos + k] == data[k] by {
        assert(w.content[pos + k] == (grown.subrange(0, pos) + data + grown.subrange(
            pos + data.len(),
            grown.len() as int,
        ))[pos + k]);
    }
    assert(w.page(id) =~= data);
}

/// `(id + 1) * PAGE_SIZE > size` decided without overflow.
fn page_end_exceeds(id: usize, size: usize) -> (r: bool)
    ensures
        r == ((id as int + 1) * PAGE_SIZE as int > size as int),
{
    proof {
        assert((id as int >= size as int / PAGE_SIZE as int) == ((id as int + 1) * PAGE_SIZE as int
            > size as int)) by (nonlinear_arith);
    }
    id >= size / PAGE_SIZE
}

/// A borrowed view of one page: an owned copy of its bytes.
pub struct MemoryPage {
    data: Vec<u8>,
}

impl View for MemoryPage {
    type V = Seq<u8>;

    closed spec fn view(&self) -> Seq<u8> {
        self.data@
    }
}

impl MemoryPage {
    /// Well-formedness: the view holds exactly one page.
    pub open spec fn wf(&self) -> bool {
        self@.len() == PAGE_SIZE as int
    }

    /// The page id echoed in the page header.
    pub fn page_id(&self) -> (r: u32)
        requires
            self.wf(),
        ensures
            r == u32_of(self@, 0),
    {
        get_u32(&self.data, 0)
    }

    /// The page type tag of the page header.
    pub fn page_type(&self) -> (r: u32)
        requires
            self.wf(),
        ensures
            r == u32_of(self@, 4),
    {
        get_u32(&self.data, 4)
    }

    /// The little-endian u32 at byte offset `idx` of the page.
    pub fn get_u32(&self, idx: usize) -> (r: u32)
        requires
            self.wf(),
            idx + 4 <= PAGE_SIZE,
        ensures
            r == u32_of(self@, idx as int),
    {
        get_u32(&self.data, idx)
    }

    /// The little-endian u16 at byte offset `idx` of the page.
    pub fn get_u16(&self, idx: usize) -> (r: u16)
        requires
            self.wf(),
            idx + 2 <= PAGE_SIZE,
        ensures
            r == u16_of(self@, idx as int),
    {
        get_u16(&self.data, idx)
    }

    /// The full page content.
    pub fn content(&self) -> (r: &Vec<u8>)
        ensures
            r@ == self@,
    {
        &self.data
    }

    /// Wraps one page worth of bytes as a view, for images obtained outside
    /// the store.
    pub fn from_bytes(data: Vec<u8>) -> (r: MemoryPage)
        requires
            data.len() == PAGE_SIZE,
        ensures
            r@ == data@,
            r.wf(),
    {
        MemoryPage { data }
    }
}

/// Fixed-size page I/O over the in-memory image of one file.
pub struct PageStore {
    content: Vec<u8>,
    max_size: usize,
}

impl View for PageStore {
    type V = StoreView;

    closed spec fn view(&self) -> StoreView {
        StoreView { content: self.content@, max_size: self.max_size as int }
    }
}

impl PageStore {
    /// Well-formedness of the store.
    pub open spec fn wf(&self) -> bool {
        self@.wf()
    }

    /// A store over an empty file image, capped at `max_size` bytes.
    pub fn new(max_size: usize) -> (s: PageStore)
        ensures
            s.wf(),
            s@.content.len() == 0,
            s@.max_size == max_size as int,
    {
        PageStore { content: Vec::new(), max_size }
    }

    /// A store over an existing file image, capped at `max_size` bytes.
    /// Refused unless the image ends on a page boundary within the cap.
    pub fn from_bytes(bytes: Vec<u8>, max_size: usize) -> (r: Result<PageStore, StoreError>)
        ensures
            match r {
                Ok(s) => {
                    &&& bytes.len() % PAGE_SIZE == 0
                    &&& bytes.len() <= max_size
                    &&& s.wf()
                    &&& s@.content == bytes@
                    &&& s@.max_size == max_size as int
                },
                Err(e) => {
                    &&& !(bytes.len() % PAGE_SIZE == 0 && bytes.len() <= max_size)
                    &&& e == (StoreError::WrongBufferLength)
                },
            },
    {
        if bytes.len() % PAGE_SIZE == 0 && bytes.len() <= max_size {
            Ok(PageStore { content: bytes, max_size })
        } else {
            Err(StoreError::WrongBufferLength)
        }
    }

    /// The current size of the file image in bytes.
    pub fn current_size(&self) -> (r: usize)
        ensures
            r as int == self@.len(),
    {
        self.content.len()
    }

    /// The configured maximum file size in bytes.
    pub fn max_size(&self) -> (r: usize)
        ensures
            r as int == self@.max_size,
    {
        self.max_size
    }

    /// The full file image, for the embedding program to write back to disk.
    pub fn bytes(&self) -> (r: &Vec<u8>)
        ensures
            r@ == self@.content,
    {
        &self.content
    }

    /// Nothing is buffered outside the image, so there is nothing to flush;
    /// the embedding program syncs the image to disk as it sees fit.
    pub fn flush(&mut self) -> (r: Result<(), StoreError>)
        ensures
            final(self)@ == old(self)@,
            r is Ok,
    {
        Ok(())
    }

    /// A view of page `id`, copied out of the image.
    pub fn read_page(&self, id: usize) -> (r: Result<MemoryPage, StoreError>)
        requires
            self.wf(),
        ensures
            match r {
                Ok(page) => {
                    &&& (id as int + 1) * PAGE_SIZE as int <= self@.len()
                    &&& page.wf()
                    &&& page@ == self@.page(id as int)
                },
                Err(e) => {
                    &&& (id as int + 1) * PAGE_SIZE as int > self@.len()
                    &&& e == (if (id as int + 1) * PAGE_SIZE as int > self@.max_size {
                        StoreError::PageBeyondMaxSize { max_size: (self@.max_size as usize) }
                    } else {
                        StoreError::PageBeyondCurrentSize {
                            current_size: (self@.len() as usize),
                        }
                    })
                },
            },
    {
        if page_end_exceeds(id, self.content.len()) {
            if page_end_exceeds(id, self.max_size) {
                Err(StoreError::PageBeyondMaxSize { max_size: self.max_size })
            } else {
                Err(StoreError::PageBeyondCurrentSize { current_size: self.content.len() })
            }
        } else {
            let offset = id * PAGE_SIZE;
            proof {
                assert(id as int * PAGE_SIZE as int + PAGE_SIZE as int == (id as int + 1)
                    * PAGE_SIZE as int) by (nonlinear_arith);
            }
            let mut data: Vec<u8> = Vec::new();
            let mut k: usize = 0;
            while k < PAGE_SIZE
                invariant
                    0 <= k <= PAGE_SIZE,
                    offset == id * PAGE_SIZE,
                    offset + PAGE_SIZE <= self.content.len(),
                    data.len() == k,
                    forall|j: int| 0 <= j < k ==> data@[j] == self.content@[offset + j],
                decreases PAGE_SIZE - k,
            {
                data.push(self.content[offset + k]);
                k += 1;
            }
            proof {
                assert(data@ =~= self@.page(id as int));
            }
            Ok(MemoryPage { data })
        }
    }

    /// Writes `buf` at byte offset `pos`, growing the image to the end of the
    /// page containing `pos` first. The write must stay within that page.
    fn write_buf_at(&mut self, buf: &Vec<u8>, pos: usize) -> (r: Result<(), StoreError>)
        requires
            old(self).wf(),
            page_end_of(pos as int) <= usize::MAX as int,
            pos as int + buf.len() <= page_end_of(pos as int),
        ensures
            final(self).wf(),
            final(self)@.max_size == old(self)@.max_size,
            match r {
                Ok(_) => {
                    &&& page_end_of(pos as int) <= old(self)@.max_size
                    &&& final(self)@ == store_after_write(old(self)@, pos as int, buf@)
                },
                Err(e) => {
                    &&& page_end_of(pos as int) > old(self)@.max_size
                    &&& e == (StoreError::PageBeyondMaxSize {
                        max_size: (old(self)@.max_size as usize),
                    })
                    &&& final(self)@ == old(self)@
                },
            },
    {
        let page_start = pos / PAGE_SIZE * PAGE_SIZE;
        proof {
            assert(pos as int / PAGE_SIZE as int * PAGE_SIZE as int <= pos as int
                && (pos as int / PAGE_SIZE as int * PAGE_SIZE as int) % PAGE_SIZE as int == 0
                && (pos as int / PAGE_SIZE as int * PAGE_SIZE as int + PAGE_SIZE as int)
                % PAGE_SIZE as int == 0) by (nonlinear_arith);
        }
        let new_size = page_start + PAGE_SIZE;
        assert(new_size as int == page_end_of(pos as int));
        assert(new_size as int % PAGE_SIZE as int == 0);
        if new_size > self.max_size {
            return Err(StoreError::PageBeyondMaxSize { max_size: self.max_size });
        }
        let ghost grown = grown_to(old(self)@.content, page_end_of(pos as int));
        if new_size > self.content.len() {
            self.content.resize(new_size, 0u8);
            proof {
                assert forall|i: int| old(self)@.len() <= i < new_size implies self.content@[i]
                    == 0u8 by {
                    assert(cloned::<u8>(0u8, self.content@[i]));
                }
                assert(self.content@ =~= grown);
            }
        } else {
            proof {
                assert(self.content@ =~= grown);
            }
        }
        proof {
            assert(self.content@.len() as int % PAGE_SIZE as int == 0);
            assert(self.content@.len() <= self.max_size);
        }
        let ghost mid = self.content@;
        let n = buf.len();
        let mut k: usize = 0;
        while k < n
            invariant
                0 <= k <= n,
                n == buf.len(),
                pos as int + n <= mid.len(),
                mid.len() <= usize::MAX as int,
                self.content@.len() == mid.len(),
                self.max_size == old(self).max_size,
                forall|j: int|
                    0 <= j < mid.len() && !(pos <= j < pos + k) ==> self.content@[j] == mid[j],
                forall|j: int| 0 <= j < k ==> self.content@[pos + j] == buf@[j],
            decreases n - k,
        {
            self.content[pos + k] = buf[k];
            k += 1;
        }
        proof {
            assert(self.content@ =~= write_at(grown, pos as int, buf@));
            assert(mid.len() as int % PAGE_SIZE as int == 0);
            assert(final(self)@.wf());
        }
        Ok(())
    }

    /// Writes one full page `buf` at page `id`.
    pub fn write_page(&mut self, id: usize, buf: &Vec<u8>) -> (r: Result<(), StoreError>)
        requires
            old(self).wf(),
        ensures
            final(self).wf(),
            final(self)@.max_size == old(self)@.max_size,
            match r {
                Ok(_) => {
                    &&& buf.len() == PAGE_SIZE
                    &&& (id as int + 1) * PAGE_SIZE as int <= old(self)@.max_size
                    &&& final(self)@ == store_after_write(
                        old(self)@,
                        id as int * PAGE_SIZE as int,
                        buf@,
                    )
                },
                Err(e) => {
                    &&& final(self)@ == old(self)@
                    &&& e == (if buf.len() != PAGE_SIZE {
                        StoreError::WrongBufferLength
                    } else {
                        StoreError::PageBeyondMaxSize { max_size: (old(self)@.max_size as usize) }
                    })
                    &&& (buf.len() == PAGE_SIZE ==> (id as int + 1) * PAGE_SIZE as int > old(
                        self,
                    )@.max_size)
                },
            },
    {
        if buf.len() != PAGE_SIZE {
            return Err(StoreError::WrongBufferLength);
        }
        if page_end_exceeds(id, self.max_size) {
            return Err(StoreError::PageBeyondMaxSize { max_size: self.max_size });
        }
        proof {
            assert((id as int + 1) * PAGE_SIZE as int <= usize::MAX ==> id as int * PAGE_SIZE as int
                <= usize::MAX - PAGE_SIZE) by (nonlinear_arith);
            assert(id as int * PAGE_SIZE as int / PAGE_SIZE as int == id as int)
                by (nonlinear_arith);
            assert(page_end_of(id as int * PAGE_SIZE as int) == (id as int + 1)
                * PAGE_SIZE as int) by (nonlinear_arith);
        }
        let pos = id * PAGE_SIZE;
        let r = self.write_buf_at(buf, pos);
        proof {
            assert(r is Ok);
        }
        r
    }

    /// Writes `buf` inside page `id` starting at byte `offset` of the page.
    pub fn write_page_range(&mut self, id: usize, offset: usize, buf: &Vec<u8>) -> (r: Result<
        (),
        StoreError,
    >)
        requires
            old(self).wf(),
        ensures
            final(self).wf(),
            final(self)@.max_size == old(self)@.max_size,
            match r {
                Ok(_) => {
                    &&& offset + buf.len() <= PAGE_SIZE
                    &&& page_end_of(id as int * PAGE_SIZE as int + offset as int) <= old(
                        self,
                    )@.max_size
                    &&& final(self)@ == store_after_write(
                        old(self)@,
                        id as int * PAGE_SIZE as int + offset as int,
                        buf@,
                    )
                },
                Err(e) => {
                    &&& final(self)@ == old(self)@
                    &&& e == (if offset + buf.len() > PAGE_SIZE {
                        StoreError::WriteOverrunsPage
                    } else {
                        StoreError::PageBeyondMaxSize { max_size: (old(self)@.max_size as usize) }
                    })
                    &&& (offset + buf.len() <= PAGE_SIZE ==> page_end_of(
                        id as int * PAGE_SIZE as int + offset as int,
                    ) > old(self)@.max_size)
                },
            },
    {
        if offset > PAGE_SIZE || buf.len() > PAGE_SIZE - offset {
            return Err(StoreError::WriteOverrunsPage);
        }
        // The page that byte `id * PAGE_SIZE + offset` falls in: page id
        // itself, or the one after it when offset equals PAGE_SIZE.
        let bump: usize = if offset == PAGE_SIZE {
            1
        } else {
            0
        };
        if page_end_exceeds(id, usize::MAX) {
            // Such a page cannot fit under any representable maximum size.
            proof {
                lemma_huge_id_exceeds(id as int, offset as int, self@.max_size);
            }
            return Err(StoreError::PageBeyondMaxSize { max_size: self.max_size });
        }
        proof {
            assert(id as int + 1 <= usize::MAX as int && id as int * PAGE_SIZE as int
                + PAGE_SIZE as int <= usize::MAX as int) by (nonlinear_arith)
                requires
                    (id as int + 1) * PAGE_SIZE as int <= usize::MAX as int,
                    id >= 0,
            ;
        }
        if page_end_exceeds(id + bump, self.max_size) {
            proof {
                lemma_page_end_with_offset(id as int, offset as int, bump as int);
            }
            return Err(StoreError::PageBeyondMaxSize { max_size: self.max_size });
        }
        proof {
            lemma_page_end_with_offset(id as int, offset as int, bump as int);
        }
        let pos = id * PAGE_SIZE + offset;
        let r = self.write_buf_at(buf, pos);
        proof {
            assert(r is Ok);
        }
        r
    }
}

/// For ids this large the end of the written page exceeds any usize maximum.
proof fn lemma_huge_id_exceeds(id: int, offset: int, max_size: int)
    requires
        (id + 1) * PAGE_SIZE as int > usize::MAX as int,
        0 <= offset <= PAGE_SIZE as int,
        max_size <= usize::MAX as int,
        id >= 0,
    ensures
        page_end_of(id * PAGE_SIZE as int + offset) > max_size,
{
    let p = PAGE_SIZE as int;
    assert((id * p + offset) / p >= id) by (nonlinear_arith)
        requires
            id >= 0,
            offset >= 0,
            p == 4096,
    ;
    assert(page_end_of(id * p + offset) >= (id + 1) * p) by (nonlinear_arith)
        requires
            (id * p + offset) / p >= id,
            p == 4096,
    ;
}

/// The page containing `id * PAGE_SIZE + offset` is `id + bump`.
proof fn lemma_page_end_with_offset(id: int, offset: int, bump: int)
    requires
        id >= 0,
        0 <= offset <= PAGE_SIZE as int,
        bump == (if offset == PAGE_SIZE as int {
            1int
        } else {
            0int
        }),
    ensures
        page_end_of(id * PAGE_SIZE as int + offset) == (id + bump + 1) * PAGE_SIZE as int,
{
    let p = PAGE_SIZE as int;
    if offset == p {
        assert((id * p + p) / p == id + 1) by (nonlinear_arith)
            requires
                id >= 0,
                p == 4096,
        ;
    } else {
        assert((id * p + offset) / p == id) by (nonlinear_arith)
            requires
                id >= 0,
                0 <= offset < p,
                p == 4096,
        ;
    }
}

} // verus!
