//! A write-back cache of pages over a page store.
//!
//! The cache keeps its entries in order of use, least recently used first.
//! A page enters the cache clean, on the first request for it; it becomes
//! dirty only when the caller says so and clean again only by a flush. When a
//! new entry takes the cache over its capacity, the least recently used clean
//! entries leave; a dirty entry never leaves, so the capacity is a soft limit.
//!
//! The cache owns the page buffers. A caller holds a `PageHandle`, which
//! names a page, and reads and writes the buffer through the cache: all
//! handles for one page reach the same buffer. A handle reaches nothing once
//! its page has left the cache.

use vstd::prelude::*;
use crate::pager::{page_at, page_in_range, store_with_page, Pager, PagerError, PAGE_SIZE};

verus! {

/// A cache entry as a mathematical value.
pub struct EntryView {
    pub page_id: usize,
    pub data: Seq<u8>,
    pub dirty: bool,
}

/// A cache as a mathematical value.
pub struct CacheView {
    /// The bytes of the store under the cache.
    pub store: Seq<u8>,
    /// The entries, least recently used first.
    pub entries: Seq<EntryView>,
    /// The number of entries above which clean entries leave.
    pub capacity: usize,
}

/// Number of entries before the first one whose dirty flag is `dirty`: its
/// index, or the number of entries when there is none.
pub open spec fn first_flagged(entries: Seq<EntryView>, dirty: bool) -> int
    decreases entries.len(),
{
    if entries.len() == 0 {
        0
    } else if entries[0].dirty == dirty {
        0
    } else {
        1 + first_flagged(entries.drop_first(), dirty)
    }
}

/// Index of the least recently used clean entry, or the number of entries
/// when all are dirty.
pub open spec fn first_clean(entries: Seq<EntryView>) -> int {
    first_flagged(entries, false)
}

/// Index of the least recently used dirty entry, or the number of entries
/// when all are clean.
pub open spec fn first_dirty(entries: Seq<EntryView>) -> int {
    first_flagged(entries, true)
}

/// The entries that stay when `entries` must come down to `capacity`.
///
/// While there are more entries than `capacity`, the dirty entries in front
/// of the first clean one go to the back, in order, and that clean entry
/// leaves. Where every entry is dirty nothing leaves and the order stays.
pub open spec fn evict(entries: Seq<EntryView>, capacity: nat) -> Seq<EntryView>
    decreases entries.len(),
{
    let c = first_clean(entries);
    if entries.len() <= capacity || c < 0 || c >= entries.len() {
        entries
    } else {
        evict(entries.subrange(c + 1, entries.len() as int) + entries.subrange(0, c), capacity)
    }
}

/// `data` with `bytes` written over it from `offset` on.
pub open spec fn splice(data: Seq<u8>, offset: int, bytes: Seq<u8>) -> Seq<u8> {
    data.subrange(0, offset) + bytes + data.subrange(offset + bytes.len(), data.len() as int)
}

/// `entry`, clean.
pub open spec fn cleaned(entry: EntryView) -> EntryView {
    EntryView { page_id: entry.page_id, data: entry.data, dirty: false }
}

/// What a flush does from entry `i` on: the store, the entries and whether
/// the flush got through.
///
/// Each dirty entry in turn is written to the store and becomes clean. The
/// flush stops at the first dirty entry whose page is out of range, and
/// leaves that entry and those behind it as they were.
pub open spec fn flush_from(store: Seq<u8>, entries: Seq<EntryView>, i: int) -> (
    Seq<u8>,
    Seq<EntryView>,
    bool,
)
    decreases entries.len() - i,
{
    if i < 0 || i >= entries.len() {
        (store, entries, true)
    } else if !entries[i].dirty {
        flush_from(store, entries, i + 1)
    } else if page_in_range(entries[i].page_id) {
        flush_from(
            store_with_page(store, entries[i].page_id as int, entries[i].data),
            entries.update(i, cleaned(entries[i])),
            i + 1,
        )
    } else {
        (store, entries, false)
    }
}

/// No page has two entries among `entries`, and every buffer holds one
/// page.
pub open spec fn distinct_pages(entries: Seq<EntryView>) -> bool {
    &&& forall|i: int, j: int|
        0 <= i < j < entries.len() ==> (#[trigger] entries[i]).page_id != (
        #[trigger] entries[j]).page_id
    &&& forall|i: int| 0 <= i < entries.len() ==> (#[trigger] entries[i]).data.len() == PAGE_SIZE
}

impl CacheView {
    /// No page has two entries, and every buffer holds one page.
    pub open spec fn wf(self) -> bool {
        distinct_pages(self.entries)
    }

    /// Whether the page is cached.
    pub open spec fn contains(self, page_id: usize) -> bool {
        exists|i: int|
            0 <= i < self.entries.len() && (#[trigger] self.entries[i]).page_id == page_id
    }

    /// The index of the entry of a cached page.
    pub open spec fn position(self, page_id: usize) -> int {
        choose|i: int|
            0 <= i < self.entries.len() && (#[trigger] self.entries[i]).page_id == page_id
    }

    /// The buffer of the page, if it is cached.
    pub open spec fn page(self, page_id: usize) -> Option<Seq<u8>> {
        if self.contains(page_id) {
            Some(self.entries[self.position(page_id)].data)
        } else {
            None
        }
    }

    /// Whether the page is cached and dirty.
    pub open spec fn is_dirty(self, page_id: usize) -> bool {
        self.contains(page_id) && self.entries[self.position(page_id)].dirty
    }

    /// The cache after a cached page is used: its entry becomes the most
    /// recently used. As before when the page is not cached.
    pub open spec fn promoted(self, page_id: usize) -> CacheView {
        if self.contains(page_id) {
            let i = self.position(page_id);
            CacheView {
                store: self.store,
                entries: self.entries.remove(i).push(self.entries[i]),
                capacity: self.capacity,
            }
        } else {
            self
        }
    }

    /// The cache after a request for the page, whose bytes in the store are
    /// `data`.
    ///
    /// A cached page becomes the most recently used and keeps its buffer.
    /// Any other page enters with `data` as a new clean entry, the most
    /// recently used, and then the cache comes down to its capacity as far as
    /// it can.
    pub open spec fn installed(self, page_id: usize, data: Seq<u8>) -> CacheView {
        if self.contains(page_id) {
            self.promoted(page_id)
        } else {
            CacheView {
                store: self.store,
                entries: evict(
                    self.entries.push(EntryView { page_id, data, dirty: false }),
                    self.capacity as nat,
                ),
                capacity: self.capacity,
            }
        }
    }

    /// The cache after a request for the page: as `installed`, with what the
    /// store under the cache holds of the page.
    pub open spec fn touched(self, page_id: usize) -> CacheView {
        self.installed(page_id, page_at(self.store, page_id as int))
    }

    /// The least recently used dirty page and its buffer, if any page is
    /// dirty.
    pub open spec fn next_dirty(self) -> Option<(usize, Seq<u8>)> {
        let i = first_dirty(self.entries);
        if 0 <= i < self.entries.len() {
            Some((self.entries[i].page_id, self.entries[i].data))
        } else {
            None
        }
    }

    /// The cache after the page is marked clean: as before when the page is
    /// not cached.
    pub open spec fn marked_clean(self, page_id: usize) -> CacheView {
        if self.contains(page_id) {
            let i = self.position(page_id);
            CacheView {
                store: self.store,
                entries: self.entries.update(i, cleaned(self.entries[i])),
                capacity: self.capacity,
            }
        } else {
            self
        }
    }

    /// The cache after the page is marked dirty: as before when the page is
    /// not cached.
    pub open spec fn marked_dirty(self, page_id: usize) -> CacheView {
        if self.contains(page_id) {
            let i = self.position(page_id);
            let entry = self.entries[i];
            CacheView {
                store: self.store,
                entries: self.entries.update(
                    i,
                    EntryView { page_id: entry.page_id, data: entry.data, dirty: true },
                ),
                capacity: self.capacity,
            }
        } else {
            self
        }
    }

    /// Whether `len` bytes can be written at `offset` of the page's buffer:
    /// the page is cached and the bytes end within the page.
    pub open spec fn writable(self, page_id: usize, offset: int, len: int) -> bool {
        self.contains(page_id) && 0 <= offset && offset + len <= PAGE_SIZE
    }

    /// The cache after `bytes` are written at `offset` of the page's buffer:
    /// as before when they cannot be.
    pub open spec fn written(self, page_id: usize, offset: int, bytes: Seq<u8>) -> CacheView {
        if self.writable(page_id, offset, bytes.len() as int) {
            let i = self.position(page_id);
            let entry = self.entries[i];
            CacheView {
                store: self.store,
                entries: self.entries.update(
                    i,
                    EntryView {
                        page_id: entry.page_id,
                        data: splice(entry.data, offset, bytes),
                        dirty: entry.dirty,
                    },
                ),
                capacity: self.capacity,
            }
        } else {
            self
        }
    }
}

/// Names a page whose buffer is reached through the cache.
#[derive(Clone, Copy, Debug, PartialEq, Eq, Structural)]
pub struct PageHandle {
    pub page_id: usize,
}

/// One cached page.
struct CacheEntry {
    page_id: usize,
    data: [u8; PAGE_SIZE],
    dirty: bool,
}

impl View for CacheEntry {
    type V = EntryView;

    closed spec fn view(&self) -> EntryView {
        EntryView { page_id: self.page_id, data: self.data@, dirty: self.dirty }
    }
}

/// The views of a vector of entries.
spec fn entry_views(entries: Seq<CacheEntry>) -> Seq<EntryView> {
    Seq::new(entries.len(), |i: int| entries[i]@)
}

/// A page cache over a page store.
pub struct PageCache {
    pager: Pager,
    entries: Vec<CacheEntry>,
    capacity: usize,
}

impl View for PageCache {
    type V = CacheView;

    closed spec fn view(&self) -> CacheView {
        CacheView {
            store: self.pager@,
            entries: entry_views(self.entries@),
            capacity: self.capacity,
        }
    }
}

/// The first entry with a given dirty flag is the one with no such entry in
/// front of it.
pub proof fn lemma_first_flagged_is(entries: Seq<EntryView>, dirty: bool, c: int)
    requires
        0 <= c <= entries.len(),
        forall|j: int| 0 <= j < c ==> (#[trigger] entries[j]).dirty != dirty,
        c < entries.len() ==> entries[c].dirty == dirty,
    ensures
        first_flagged(entries, dirty) == c,
    decreases c,
{
    if c > 0 {
        lemma_first_flagged_is(entries.drop_first(), dirty, c - 1);
    }
}

/// Moving one entry to the back keeps the page indices distinct.
pub proof fn lemma_promoted_distinct(entries: Seq<EntryView>, i: int)
    requires
        0 <= i < entries.len(),
        distinct_pages(entries),
    ensures
        distinct_pages(entries.remove(i).push(entries[i])),
{
    let after = entries.remove(i).push(entries[i]);
    assert forall|a: int| 0 <= a < after.len() implies (#[trigger] after[a]) == entries[if a
        == after.len() - 1 {
        i
    } else if a < i {
        a
    } else {
        a + 1
    }] by {}
}

impl PageCache {
    /// An empty cache of the given capacity over `pager`.
    pub fn new(pager: Pager, capacity: usize) -> (cache: PageCache)
        ensures
            cache@ == (CacheView { store: pager@, entries: Seq::empty(), capacity }),
            cache@.wf(),
    {
        let cache = PageCache { pager, entries: Vec::new(), capacity };
        assert(entry_views(cache.entries@) == Seq::<EntryView>::empty());
        cache
    }

    /// The index of the entry of `page_id`, if the page is cached.
    fn find(&self, page_id: usize) -> (found: Option<usize>)
        requires
            self@.wf(),
        ensures
            found is Some <==> self@.contains(page_id),
            found matches Some(i) ==> i == self@.position(page_id) && i < self.entries@.len(),
    {
        let mut i: usize = 0;
        while i < self.entries.len()
            invariant
                i <= self.entries@.len(),
                self@.wf(),
                forall|j: int| 0 <= j < i ==> (#[trigger] self@.entries[j]).page_id != page_id,
            decreases self.entries@.len() - i,
        {
            if self.entries[i].page_id == page_id {
                assert(self@.entries[i as int].page_id == page_id);
                return Some(i);
            }
            i = i + 1;
        }
        None
    }

    /// Brings the cache down to its capacity as far as clean entries allow.
    fn evict_if_necessary(&mut self)
        requires
            old(self)@.wf(),
        ensures
            final(self)@ == (CacheView {
                store: old(self)@.store,
                entries: evict(old(self)@.entries, old(self)@.capacity as nat),
                capacity: old(self)@.capacity,
            }),
            final(self)@.wf(),
    {
        let ghost mut base = self@.entries;
        let mut scanned: usize = 0;
        while self.entries.len() > self.capacity && scanned < self.entries.len()
            invariant
                self@.wf(),
                self@.store == old(self)@.store,
                self.capacity == old(self).capacity,
                base.len() == self.entries@.len(),
                scanned <= base.len(),
                scanned > 0 ==> base.len() > self.capacity,
                self@.entries == base.subrange(scanned as int, base.len() as int) + base.subrange(
                    0,
                    scanned as int,
                ),
                forall|j: int| 0 <= j < scanned ==> (#[trigger] base[j]).dirty,
                evict(base, self.capacity as nat) == evict(
                    old(self)@.entries,
                    old(self)@.capacity as nat,
                ),
            decreases self.entries@.len(), self.entries@.len() - scanned,
        {
            let ghost before = self@.entries;
            let victim = self.entries.remove(0);
            assert(victim@ == before[0]);
            assert(entry_views(self.entries@) == before.remove(0));
            if victim.dirty {
                self.entries.push(victim);
                assert(self@.entries == before.remove(0).push(before[0]));
                scanned = scanned + 1;
            } else {
                proof {
                    lemma_first_flagged_is(base, false, scanned as int);
                    base = base.subrange(scanned + 1, base.len() as int) + base.subrange(
                        0,
                        scanned as int,
                    );
                }
                scanned = 0;
            }
        }
        proof {
            // Either the cache is within its capacity, or one whole turn has
            // found every entry dirty and left the order as it was.
            assert(self@.entries == base);
            if scanned > 0 {
                lemma_first_flagged_is(base, false, base.len() as int);
            }
        }
    }

    /// Uses the page if it is cached: makes it the most recently used and
    /// returns its handle. `None`, and nothing changed, when it is not
    /// cached.
    pub fn lookup(&mut self, page_id: usize) -> (handle: Option<PageHandle>)
        requires
            old(self)@.wf(),
        ensures
            handle is Some <==> old(self)@.contains(page_id),
            handle matches Some(h) ==> h.page_id == page_id,
            final(self)@ == old(self)@.promoted(page_id),
            final(self)@.wf(),
    {
        match self.find(page_id) {
            Some(i) => {
                let ghost before = self@.entries;
                let entry = self.entries.remove(i);
                self.entries.push(entry);
                assert(self@.entries == before.remove(i as int).push(before[i as int]));
                proof {
                    lemma_promoted_distinct(before, i as int);
                }
                Some(PageHandle { page_id })
            },
            None => None,
        }
    }

    /// Takes in the page, read from the store as `data`, and returns its
    /// handle.
    ///
    /// A page that is cached already keeps its buffer and becomes the most
    /// recently used. Any other enters clean, as the most recently used, and
    /// the cache then comes down to its capacity as far as it can.
    pub fn install(&mut self, page_id: usize, data: [u8; PAGE_SIZE]) -> (handle: PageHandle)
        requires
            old(self)@.wf(),
        ensures
            handle.page_id == page_id,
            final(self)@ == old(self)@.installed(page_id, data@),
            final(self)@.wf(),
    {
        match self.lookup(page_id) {
            Some(handle) => handle,
            None => {
                let ghost before = self@.entries;
                self.entries.push(CacheEntry { page_id, data, dirty: false });
                assert(self@.entries == before.push(
                    EntryView { page_id, data: data@, dirty: false },
                ));
                self.evict_if_necessary();
                PageHandle { page_id }
            },
        }
    }

    /// Requests the page: makes it the most recently used, reading it from
    /// the store under the cache if it is not cached, and returns its handle.
    pub fn get_page(&mut self, page_id: usize) -> (handle: PageHandle)
        requires
            old(self)@.wf(),
        ensures
            handle.page_id == page_id,
            final(self)@ == old(self)@.touched(page_id),
            final(self)@.wf(),
    {
        match self.lookup(page_id) {
            Some(handle) => handle,
            None => {
                let data = self.pager.read_page(page_id);
                self.install(page_id, data)
            },
        }
    }

    /// Marks the page dirty. Does nothing when the page is not cached.
    pub fn mark_dirty(&mut self, page_id: usize)
        requires
            old(self)@.wf(),
        ensures
            final(self)@ == old(self)@.marked_dirty(page_id),
            final(self)@.wf(),
    {
        match self.find(page_id) {
            Some(i) => {
                let ghost before = self@.entries;
                self.entries[i].dirty = true;
                assert(self@.entries == before.update(
                    i as int,
                    EntryView {
                        page_id: before[i as int].page_id,
                        data: before[i as int].data,
                        dirty: true,
                    },
                ));
            },
            None => {},
        }
    }

    /// The least recently used dirty page and a copy of its buffer; `None`
    /// when no page is dirty.
    pub fn next_dirty(&self) -> (next: Option<(usize, [u8; PAGE_SIZE])>)
        ensures
            next is Some <==> self@.next_dirty() is Some,
            next matches Some((page_id, data)) ==> self@.next_dirty() == Some((page_id, data@)),
    {
        let mut i: usize = 0;
        while i < self.entries.len()
            invariant
                i <= self.entries@.len(),
                forall|j: int| 0 <= j < i ==> !(#[trigger] self@.entries[j]).dirty,
            decreases self.entries@.len() - i,
        {
            if self.entries[i].dirty {
                proof {
                    lemma_first_flagged_is(self@.entries, true, i as int);
                }
                return Some((self.entries[i].page_id, self.entries[i].data));
            }
            i = i + 1;
        }
        proof {
            lemma_first_flagged_is(self@.entries, true, i as int);
        }
        None
    }

    /// Marks the page clean. Does nothing when the page is not cached.
    pub fn mark_clean(&mut self, page_id: usize)
        requires
            old(self)@.wf(),
        ensures
            final(self)@ == old(self)@.marked_clean(page_id),
            final(self)@.wf(),
    {
        match self.find(page_id) {
            Some(i) => {
                let ghost before = self@.entries;
                self.entries[i].dirty = false;
                assert(self@.entries == before.update(i as int, cleaned(before[i as int])));
            },
            None => {},
        }
    }

    /// Writes every dirty page to the store, least recently used first, and
    /// marks it clean.
    ///
    /// Stops at the first page that the store refuses and returns its error;
    /// the pages written before it are clean, that page and the rest are as
    /// they were.
    pub fn flush(&mut self) -> (result: Result<(), PagerError>)
        requires
            old(self)@.wf(),
        ensures
            (final(self)@.store, final(self)@.entries, result is Ok) == flush_from(
                old(self)@.store,
                old(self)@.entries,
                0,
            ),
            final(self)@.capacity == old(self)@.capacity,
            final(self)@.wf(),
    {
        let mut i: usize = 0;
        while i < self.entries.len()
            invariant
                i <= self.entries@.len(),
                self@.wf(),
                self.capacity == old(self).capacity,
                flush_from(self@.store, self@.entries, i as int) == flush_from(
                    old(self)@.store,
                    old(self)@.entries,
                    0,
                ),
            decreases self.entries@.len() - i,
        {
            if self.entries[i].dirty {
                let ghost before = self@.entries;
                match self.pager.write_page(self.entries[i].page_id, &self.entries[i].data) {
                    Ok(()) => {
                        self.entries[i].dirty = false;
                        assert(self@.entries == before.update(i as int, cleaned(before[i as int])));
                    },
                    Err(e) => {
                        return Err(e);
                    },
                }
            }
            i = i + 1;
        }
        Ok(())
    }

    /// A copy of the buffer that the handle reaches; `None` when its page is
    /// not cached.
    pub fn read(&self, handle: PageHandle) -> (page: Option<[u8; PAGE_SIZE]>)
        requires
            self@.wf(),
        ensures
            page is Some <==> self@.contains(handle.page_id),
            page matches Some(bytes) ==> Some(bytes@) == self@.page(handle.page_id),
    {
        match self.find(handle.page_id) {
            Some(i) => Some(self.entries[i].data),
            None => None,
        }
    }

    /// Writes `bytes` at `offset` of the buffer that the handle reaches.
    ///
    /// Returns whether it did: it does not, and changes nothing, when the
    /// page is not cached or the bytes would end beyond the page.
    pub fn write(&mut self, handle: PageHandle, offset: usize, bytes: &[u8]) -> (done: bool)
        requires
            old(self)@.wf(),
        ensures
            done == old(self)@.writable(handle.page_id, offset as int, bytes@.len() as int),
            final(self)@ == old(self)@.written(handle.page_id, offset as int, bytes@),
            final(self)@.wf(),
    {
        if offset > PAGE_SIZE || bytes.len() > PAGE_SIZE - offset {
            return false;
        }
        match self.find(handle.page_id) {
            Some(i) => {
                let ghost before = self@.entries;
                let ghost entry = before[i as int];
                assert(splice(entry.data, offset as int, bytes@.subrange(0, 0)) =~= entry.data);
                let mut k: usize = 0;
                while k < bytes.len()
                    invariant
                        k <= bytes@.len(),
                        offset + bytes@.len() <= PAGE_SIZE,
                        i < self.entries@.len(),
                        before.len() == self.entries@.len(),
                        entry == before[i as int],
                        entry.data.len() == PAGE_SIZE,
                        self.pager == old(self).pager,
                        self.capacity == old(self).capacity,
                        self@.entries == before.update(
                            i as int,
                            EntryView {
                                page_id: entry.page_id,
                                data: splice(
                                    entry.data,
                                    offset as int,
                                    bytes@.subrange(0, k as int),
                                ),
                                dirty: entry.dirty,
                            },
                        ),
                    decreases bytes@.len() - k,
                {
                    let ghost held = self.entries@;
                    let ghost current = self@.entries;
                    let ghost data = current[i as int].data;
                    self.entries[i].data[offset + k] = bytes[k];
                    let ghost target = before.update(
                        i as int,
                        EntryView {
                            page_id: entry.page_id,
                            data: splice(entry.data, offset as int, bytes@.subrange(0, k + 1)),
                            dirty: entry.dirty,
                        },
                    );
                    assert(data.update(offset + k, bytes@[k as int]) =~= target[i as int].data);
                    assert forall|j: int| 0 <= j < target.len() implies self@.entries[j]
                        == target[j] by {
                        assert(current[j] == held[j]@);
                    }
                    k = k + 1;
                }
                assert(bytes@.subrange(0, k as int) == bytes@);
                true
            },
            None => false,
        }
    }

    /// Whether the page is cached.
    pub fn contains(&self, page_id: usize) -> (cached: bool)
        requires
            self@.wf(),
        ensures
            cached == self@.contains(page_id),
    {
        self.find(page_id).is_some()
    }

    /// Whether the page is cached and dirty.
    pub fn is_dirty(&self, page_id: usize) -> (dirty: bool)
        requires
            self@.wf(),
        ensures
            dirty == self@.is_dirty(page_id),
    {
        match self.find(page_id) {
            Some(i) => self.entries[i].dirty,
            None => false,
        }
    }

    /// Number of cached pages.
    pub fn len(&self) -> (n: usize)
        ensures
            n == self@.entries.len(),
    {
        self.entries.len()
    }

    /// The number of entries above which clean entries leave.
    pub fn capacity(&self) -> (n: usize)
        ensures
            n == self@.capacity,
    {
        self.capacity
    }

    /// The store under the cache.
    pub fn pager(&self) -> (pager: &Pager)
        ensures
            pager@ == self@.store,
    {
        &self.pager
    }

    /// Gives up the cache for the store under it. What is dirty and was not
    /// flushed is lost.
    pub fn into_pager(self) -> (pager: Pager)
        ensures
            pager@ == self@.store,
    {
        self.pager
    }
}

} // verus!
