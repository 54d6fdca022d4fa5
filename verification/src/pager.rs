//! The page store: fixed-size pages over one flat run of bytes.
//!
//! Page `n` occupies bytes `n * PAGE_SIZE .. (n + 1) * PAGE_SIZE` of the
//! store. There is no header and no allocation map: what was never written
//! reads as zero, so the length of the store says nothing of the highest page
//! in use.

use vstd::prelude::*;
use crate::bytes::{append_zeros, zeros};

verus! {

/// Size in bytes of every page.
pub const PAGE_SIZE: usize = 4096;

/// Whether page `page_id` ends within the largest store that can be held.
pub open spec fn page_in_range(page_id: usize) -> bool {
    (page_id + 1) * PAGE_SIZE <= isize::MAX
}

/// The bytes of page `page_id` in `store`: what the store holds there, and
/// zero wherever the store has ended.
pub open spec fn page_at(store: Seq<u8>, page_id: int) -> Seq<u8> {
    Seq::new(
        PAGE_SIZE as nat,
        |k: int|
            if page_id * PAGE_SIZE + k < store.len() {
                store[page_id * PAGE_SIZE + k]
            } else {
                0u8
            },
    )
}

/// The store after `page` is written as page `page_id`: it reaches at least
/// to the end of that page, holds `page` there, zero in any gap that the
/// write opened, and what it held everywhere else.
pub open spec fn store_with_page(store: Seq<u8>, page_id: int, page: Seq<u8>) -> Seq<u8> {
    let start = page_id * PAGE_SIZE;
    let end = start + PAGE_SIZE;
    let len = if store.len() < end {
        end
    } else {
        store.len() as int
    };
    Seq::new(
        len as nat,
        |k: int|
            if start <= k < end {
                page[k - start]
            } else if k < store.len() {
                store[k]
            } else {
                0u8
            },
    )
}

/// The byte offset at which page `page_id` starts in the store; `None` when
/// it does not fit in 64 bits.
pub fn page_offset(page_id: usize) -> (offset: Option<u64>)
    ensures
        offset is Some <==> page_id * PAGE_SIZE <= u64::MAX,
        offset matches Some(at) ==> at == page_id * PAGE_SIZE,
{
    (page_id as u64).checked_mul(PAGE_SIZE as u64)
}

/// Why a page could not be written.
#[derive(Clone, Copy, Debug, PartialEq, Eq, Structural)]
pub enum PagerError {
    /// The page lies beyond the largest store that can be held.
    OutOfRange,
}

/// A page store, held as the bytes of the store file.
pub struct Pager {
    data: Vec<u8>,
}

impl View for Pager {
    type V = Seq<u8>;

    closed spec fn view(&self) -> Seq<u8> {
        self.data@
    }
}

impl Pager {
    /// Opens the store whose bytes are `data`; an empty vector is a new
    /// store.
    pub fn open(data: Vec<u8>) -> (pager: Pager)
        ensures
            pager@ == data@,
    {
        Pager { data }
    }

    /// The bytes of the store.
    pub fn as_bytes(&self) -> (bytes: &[u8])
        ensures
            bytes@ == self@,
    {
        self.data.as_slice()
    }

    /// Gives up the store for its bytes.
    pub fn into_bytes(self) -> (bytes: Vec<u8>)
        ensures
            bytes@ == self@,
    {
        self.data
    }

    /// Reads page `page_id`. Whatever lies beyond the end of the store reads
    /// as zero.
    pub fn read_page(&self, page_id: usize) -> (page: [u8; PAGE_SIZE])
        ensures
            page@ == page_at(self@, page_id as int),
    {
        let mut page = [0u8;PAGE_SIZE];
        let len: usize = self.data.len();
        if page_id > len / PAGE_SIZE {
            return page;
        }
        let start: usize = page_id * PAGE_SIZE;
        let mut k: usize = 0;
        while k < PAGE_SIZE && k < len - start
            invariant
                k <= PAGE_SIZE,
                k <= len - start,
                start == page_id * PAGE_SIZE,
                start <= len,
                len == self.data@.len(),
                forall|j: int| 0 <= j < k ==> page@[j] == self.data@[start + j],
                forall|j: int| k <= j < PAGE_SIZE ==> page@[j] == 0u8,
            decreases PAGE_SIZE - k,
        {
            page[k] = self.data[start + k];
            k = k + 1;
        }
        page
    }

    /// Writes `data` as page `page_id`, growing the store with zeros where
    /// it ends before the page does.
    ///
    /// Fails, and leaves the store as it was, when the page is out of range.
    pub fn write_page(&mut self, page_id: usize, data: &[u8; PAGE_SIZE]) -> (result: Result<
        (),
        PagerError,
    >)
        ensures
            result is Ok <==> page_in_range(page_id),
            result is Ok ==> final(self)@ == store_with_page(old(self)@, page_id as int, data@),
            result is Err ==> final(self)@ == old(self)@,
    {
        if page_id >= isize::MAX as usize / PAGE_SIZE {
            return Err(PagerError::OutOfRange);
        }
        let start: usize = page_id * PAGE_SIZE;
        let end: usize = start + PAGE_SIZE;
        let ghost before = self.data@;
        if self.data.len() < end {
            let missing: usize = end - self.data.len();
            append_zeros(&mut self.data, missing);
        }
        let mut k: usize = 0;
        while k < PAGE_SIZE
            invariant
                k <= PAGE_SIZE,
                end == start + PAGE_SIZE,
                start == page_id * PAGE_SIZE,
                self.data@.len() == store_with_page(before, page_id as int, data@).len(),
                forall|j: int|
                    0 <= j < self.data@.len() ==> self.data@[j] == (if start <= j < start + k {
                        data@[j - start]
                    } else if j < before.len() {
                        before[j]
                    } else {
                        0u8
                    }),
            decreases PAGE_SIZE - k,
        {
            self.data.set(start + k, data[k]);
            k = k + 1;
        }
        Ok(())
    }
}

/// A store that holds nothing reads as zero everywhere.
pub proof fn lemma_empty_store_reads_zero(page_id: int)
    requires
        0 <= page_id,
    ensures
        page_at(Seq::<u8>::empty(), page_id) == zeros(PAGE_SIZE as int),
{
}

/// A page that was written reads back as written.
pub proof fn lemma_write_then_read(store: Seq<u8>, page_id: int, page: Seq<u8>)
    requires
        0 <= page_id,
        page.len() == PAGE_SIZE,
    ensures
        page_at(store_with_page(store, page_id, page), page_id) == page,
{
}

/// Writing a page leaves every other page as it was.
pub proof fn lemma_write_keeps_other_pages(
    store: Seq<u8>,
    page_id: int,
    page: Seq<u8>,
    other: int,
)
    requires
        0 <= page_id,
        0 <= other,
        other != page_id,
        page.len() == PAGE_SIZE,
    ensures
        page_at(store_with_page(store, page_id, page), other) == page_at(store, other),
{
}

} // verus!
