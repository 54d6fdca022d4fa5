//! What holds of every cache: handles for one page reach one buffer, a flush
//! makes dirty pages durable, and eviction takes the least recently used
//! clean entries and never a dirty one.

use vstd::prelude::*;
use crate::page_cache::{
    cleaned, distinct_pages, evict, first_clean, first_dirty, first_flagged, flush_from,
    lemma_promoted_distinct, splice, CacheView, EntryView,
};
use crate::pager::{
    lemma_write_keeps_other_pages, lemma_write_then_read, page_at, page_in_range, store_with_page,
    PAGE_SIZE,
};

verus! {

/// In a well-formed cache the entry of a page is the only one with its page
/// index.
pub proof fn lemma_position_is(cache: CacheView, page_id: usize, i: int)
    requires
        cache.wf(),
        0 <= i < cache.entries.len(),
        cache.entries[i].page_id == page_id,
    ensures
        cache.contains(page_id),
        cache.position(page_id) == i,
{
}

/// A request for a cached page moves its entry to the most recently used
/// place and changes neither the entry nor the set of cached pages.
pub proof fn lemma_touched_hit(cache: CacheView, page_id: usize)
    requires
        cache.wf(),
        cache.contains(page_id),
    ensures
        cache.touched(page_id).wf(),
        cache.touched(page_id).entries.len() == cache.entries.len(),
        cache.touched(page_id).entries.last() == cache.entries[cache.position(page_id)],
        cache.touched(page_id).page(page_id) == cache.page(page_id),
        cache.touched(page_id).is_dirty(page_id) == cache.is_dirty(page_id),
{
    lemma_promoted_distinct(cache.entries, cache.position(page_id));
    lemma_position_is(cache.touched(page_id), page_id, cache.entries.len() - 1);
}

/// What is written through a handle is what any handle for the same page
/// reads, also one handed out by a later request for the page.
pub proof fn lemma_handles_share_buffer(
    cache: CacheView,
    page_id: usize,
    offset: int,
    bytes: Seq<u8>,
)
    requires
        cache.wf(),
        cache.contains(page_id),
        0 <= offset,
        offset + bytes.len() <= PAGE_SIZE,
    ensures
        cache.written(page_id, offset, bytes).wf(),
        cache.written(page_id, offset, bytes).page(page_id) == Some(
            splice(cache.page(page_id)->0, offset, bytes),
        ),
        cache.written(page_id, offset, bytes).touched(page_id).page(page_id) == Some(
            splice(cache.page(page_id)->0, offset, bytes),
        ),
{
    let after = cache.written(page_id, offset, bytes);
    lemma_position_is(after, page_id, cache.position(page_id));
    lemma_touched_hit(after, page_id);
}

/// Writing through the handle of one page leaves the buffer of every other
/// page as it was.
pub proof fn lemma_write_keeps_other_buffers(
    cache: CacheView,
    page_id: usize,
    offset: int,
    bytes: Seq<u8>,
    other: usize,
)
    requires
        cache.wf(),
        other != page_id,
    ensures
        cache.written(page_id, offset, bytes).page(other) == cache.page(other),
{
    let after = cache.written(page_id, offset, bytes);
    if cache.writable(page_id, offset, bytes.len() as int) {
        if cache.contains(other) {
            let at = cache.position(other);
            assert(after.entries[at] == cache.entries[at]);
            lemma_position_is(cache, other, after.position(other));
        } else if after.contains(other) {
            assert(cache.entries[after.position(other)].page_id == other);
        }
    }
}

/// A flush that gets through leaves every entry clean and otherwise as it
/// was, and leaves in the store, for each page that was dirty, the bytes of
/// its buffer: a store opened afresh on those bytes reads them.
pub proof fn lemma_flush_makes_dirty_pages_durable(cache: CacheView)
    requires
        cache.wf(),
        flush_from(cache.store, cache.entries, 0).2,
    ensures
        flush_from(cache.store, cache.entries, 0).1.len() == cache.entries.len(),
        forall|j: int|
            0 <= j < cache.entries.len() ==> #[trigger] flush_from(
                cache.store,
                cache.entries,
                0,
            ).1[j] == cleaned(cache.entries[j]),
        forall|j: int|
            0 <= j < cache.entries.len() && (#[trigger] cache.entries[j]).dirty ==> page_at(
                flush_from(cache.store, cache.entries, 0).0,
                cache.entries[j].page_id as int,
            ) == cache.entries[j].data,
{
    lemma_flush_from(cache.store, cache.entries, 0);
}

/// A flush leaves in the store what it held of every page that is not cached
/// dirty.
pub proof fn lemma_flush_keeps_other_pages(cache: CacheView, page_id: usize)
    requires
        cache.wf(),
        !cache.is_dirty(page_id),
    ensures
        page_at(flush_from(cache.store, cache.entries, 0).0, page_id as int) == page_at(
            cache.store,
            page_id as int,
        ),
{
    assert forall|j: int| 0 <= j < cache.entries.len() && (#[trigger] cache.entries[j]).dirty
        implies cache.entries[j].page_id != page_id by {
        if cache.entries[j].page_id == page_id {
            lemma_position_is(cache, page_id, j);
        }
    }
    lemma_flush_from_keeps(cache.store, cache.entries, 0, page_id);
}

/// A flush from entry `i` on does not touch the pages of the store that no
/// dirty entry from `i` on holds.
proof fn lemma_flush_from_keeps(store: Seq<u8>, entries: Seq<EntryView>, i: int, page_id: usize)
    requires
        0 <= i,
        distinct_pages(entries),
        forall|j: int|
            i <= j < entries.len() && (#[trigger] entries[j]).dirty ==> entries[j].page_id
                != page_id,
    ensures
        page_at(flush_from(store, entries, i).0, page_id as int) == page_at(
            store,
            page_id as int,
        ),
    decreases entries.len() - i,
{
    if i < entries.len() {
        if !entries[i].dirty {
            lemma_flush_from_keeps(store, entries, i + 1, page_id);
        } else if page_in_range(entries[i].page_id) {
            let next_store = store_with_page(store, entries[i].page_id as int, entries[i].data);
            let next = entries.update(i, cleaned(entries[i]));
            lemma_cleaned_keeps_distinct(entries, i);
            lemma_flush_from_keeps(next_store, next, i + 1, page_id);
            lemma_write_keeps_other_pages(
                store,
                entries[i].page_id as int,
                entries[i].data,
                page_id as int,
            );
        }
    }
}

/// Marking one entry clean keeps the page indices distinct.
proof fn lemma_cleaned_keeps_distinct(entries: Seq<EntryView>, i: int)
    requires
        0 <= i < entries.len(),
        distinct_pages(entries),
    ensures
        distinct_pages(entries.update(i, cleaned(entries[i]))),
{
}

/// What a flush from entry `i` on leaves, when it gets through: the entries
/// before `i` as they were, those from `i` on clean, and in the store the
/// buffer of each of those that was dirty.
proof fn lemma_flush_from(store: Seq<u8>, entries: Seq<EntryView>, i: int)
    requires
        0 <= i,
        distinct_pages(entries),
        flush_from(store, entries, i).2,
    ensures
        flush_from(store, entries, i).1.len() == entries.len(),
        forall|j: int|
            0 <= j < i && j < entries.len() ==> #[trigger] flush_from(store, entries, i).1[j]
                == entries[j],
        forall|j: int|
            i <= j < entries.len() ==> #[trigger] flush_from(store, entries, i).1[j] == cleaned(
                entries[j],
            ),
        forall|j: int|
            i <= j < entries.len() && (#[trigger] entries[j]).dirty ==> page_at(
                flush_from(store, entries, i).0,
                entries[j].page_id as int,
            ) == entries[j].data,
    decreases entries.len() - i,
{
    if i < entries.len() {
        if !entries[i].dirty {
            lemma_flush_from(store, entries, i + 1);
        } else {
            let id = entries[i].page_id;
            let next_store = store_with_page(store, id as int, entries[i].data);
            let next = entries.update(i, cleaned(entries[i]));
            lemma_cleaned_keeps_distinct(entries, i);
            lemma_flush_from(next_store, next, i + 1);
            // No later write touches the page of entry `i`.
            lemma_flush_from_keeps(next_store, next, i + 1, id);
            lemma_write_then_read(store, id as int, entries[i].data);
            assert forall|j: int|
                i < j < entries.len() && (#[trigger] entries[j]).dirty implies page_at(
                flush_from(store, entries, i).0,
                entries[j].page_id as int,
            ) == entries[j].data by {
                assert(next[j] == entries[j]);
            }
        }
    }
}

/// The index of the first entry with a given dirty flag lies within the
/// entries or just past them; the entries before it have the other flag and
/// the one at it has the given one.
pub proof fn lemma_first_flagged(entries: Seq<EntryView>, dirty: bool)
    ensures
        0 <= first_flagged(entries, dirty) <= entries.len(),
        forall|j: int|
            0 <= j < first_flagged(entries, dirty) ==> (#[trigger] entries[j]).dirty != dirty,
        first_flagged(entries, dirty) < entries.len() ==> entries[first_flagged(
            entries,
            dirty,
        )].dirty == dirty,
    decreases entries.len(),
{
    if entries.len() > 0 && entries[0].dirty != dirty {
        let rest = entries.drop_first();
        lemma_first_flagged(rest, dirty);
        assert forall|j: int| 0 <= j < first_flagged(entries, dirty) implies (
        #[trigger] entries[j]).dirty != dirty by {
            if j > 0 {
                assert(entries[j] == rest[j - 1]);
            }
        }
    }
}

/// Eviction never takes a dirty entry: each dirty entry is among those that
/// stay.
pub proof fn lemma_evict_keeps_dirty(entries: Seq<EntryView>, capacity: nat, j: int)
    requires
        0 <= j < entries.len(),
        entries[j].dirty,
    ensures
        evict(entries, capacity).contains(entries[j]),
    decreases entries.len(),
{
    lemma_first_flagged(entries, false);
    let c = first_clean(entries);
    if entries.len() > capacity && c < entries.len() {
        // Entry `j` is not the one that leaves; it moves with the others.
        let rest = entries.subrange(c + 1, entries.len() as int) + entries.subrange(0, c);
        let moved = if j > c {
            j - c - 1
        } else {
            entries.len() - c - 1 + j
        };
        lemma_evict_keeps_dirty(rest, capacity, moved);
    }
}

/// Eviction takes entries away and adds none: each entry that stays was
/// there before.
pub proof fn lemma_evict_takes_only(entries: Seq<EntryView>, capacity: nat, k: int)
    requires
        0 <= k < evict(entries, capacity).len(),
    ensures
        entries.contains(evict(entries, capacity)[k]),
    decreases entries.len(),
{
    lemma_first_flagged(entries, false);
    let c = first_clean(entries);
    if entries.len() > capacity && c < entries.len() {
        let rest = entries.subrange(c + 1, entries.len() as int) + entries.subrange(0, c);
        lemma_evict_takes_only(rest, capacity, k);
    }
}

/// The capacity is a soft limit: after eviction the entries are within the
/// capacity, or all of them are dirty.
pub proof fn lemma_evict_soft_limit(entries: Seq<EntryView>, capacity: nat)
    ensures
        evict(entries, capacity).len() <= capacity || forall|k: int|
            0 <= k < evict(entries, capacity).len() ==> (#[trigger] evict(
                entries,
                capacity,
            )[k]).dirty,
        evict(entries, capacity).len() <= entries.len(),
    decreases entries.len(),
{
    lemma_first_flagged(entries, false);
    let c = first_clean(entries);
    if entries.len() > capacity && c < entries.len() {
        let rest = entries.subrange(c + 1, entries.len() as int) + entries.subrange(0, c);
        lemma_evict_soft_limit(rest, capacity);
    }
}

/// A cache that is one clean entry over its capacity, with its least
/// recently used entry clean, loses exactly that entry.
pub proof fn lemma_evict_one_over(entries: Seq<EntryView>, capacity: nat)
    requires
        entries.len() == capacity + 1,
        !entries[0].dirty,
    ensures
        evict(entries, capacity) == entries.drop_first(),
{
    // The first entry is clean, so it is the one that leaves; what is left
    // is within the capacity.
    let rest = entries.subrange(1, entries.len() as int) + entries.subrange(0, 0);
    assert(rest == entries.drop_first());
    assert(evict(rest, capacity) == rest);
}

/// A full cache whose least recently used page is clean loses exactly that
/// page to a request for a page that it does not hold: the others stay in
/// their order and the new page is the most recently used.
pub proof fn lemma_request_evicts_least_recently_used(
    cache: CacheView,
    page_id: usize,
    data: Seq<u8>,
)
    requires
        cache.entries.len() == cache.capacity,
        cache.entries.len() > 0,
        !cache.entries[0].dirty,
        !cache.contains(page_id),
    ensures
        cache.installed(page_id, data).entries == cache.entries.drop_first().push(
            EntryView { page_id, data, dirty: false },
        ),
{
    lemma_evict_one_over(
        cache.entries.push(EntryView { page_id, data, dirty: false }),
        cache.capacity as nat,
    );
}

/// A cache with room left takes in a page that it does not hold, as the most
/// recently used, and loses none.
pub proof fn lemma_request_within_capacity(cache: CacheView, page_id: usize, data: Seq<u8>)
    requires
        cache.entries.len() < cache.capacity,
        !cache.contains(page_id),
    ensures
        cache.installed(page_id, data).entries == cache.entries.push(
            EntryView { page_id, data, dirty: false },
        ),
{
}

/// The clean entry that a request for an uncached page reads from the
/// store.
pub open spec fn fresh_entry(store: Seq<u8>, page_id: usize) -> EntryView {
    EntryView { page_id, data: page_at(store, page_id as int), dirty: false }
}

/// The clean entries of the given pages, in order.
pub open spec fn fresh_entries(store: Seq<u8>, pages: Seq<usize>) -> Seq<EntryView> {
    Seq::new(pages.len(), |i: int| fresh_entry(store, pages[i]))
}

/// The cache after requests for the given pages, in order.
pub open spec fn after_requests(cache: CacheView, pages: Seq<usize>) -> CacheView
    decreases pages.len(),
{
    if pages.len() == 0 {
        cache
    } else {
        after_requests(cache, pages.drop_last()).touched(pages.last())
    }
}

/// The cache of the given capacity over `store` that holds nothing.
pub open spec fn empty_cache(store: Seq<u8>, capacity: usize) -> CacheView {
    CacheView { store, entries: Seq::empty(), capacity }
}

/// An empty cache that is asked for distinct pages, none ever marked dirty,
/// holds all of them in order of request while they are no more than its
/// capacity.
pub proof fn lemma_requests_within_capacity(store: Seq<u8>, capacity: usize, pages: Seq<usize>)
    requires
        pages.len() <= capacity,
        pages.no_duplicates(),
    ensures
        after_requests(empty_cache(store, capacity), pages).entries == fresh_entries(store, pages),
        after_requests(empty_cache(store, capacity), pages).store == store,
        after_requests(empty_cache(store, capacity), pages).capacity == capacity,
    decreases pages.len(),
{
    if pages.len() > 0 {
        let head = pages.drop_last();
        let page_id = pages.last();
        lemma_requests_within_capacity(store, capacity, head);
        // The page is not among those asked for before it, so it enters,
        // and within the capacity nothing leaves.
        let before = after_requests(empty_cache(store, capacity), head);
        assert(!before.contains(page_id)) by {
            if before.contains(page_id) {
                assert(head[before.position(page_id)] == page_id);
            }
        }
    }
}

/// An empty cache of capacity `n` that is asked for `n + 1` distinct pages,
/// none ever marked dirty, ends with all of them but the first: the one
/// request over its capacity evicts exactly the least recently used page.
pub proof fn lemma_one_request_over_capacity(store: Seq<u8>, capacity: usize, pages: Seq<usize>)
    requires
        pages.len() == capacity + 1,
        pages.no_duplicates(),
    ensures
        after_requests(empty_cache(store, capacity), pages).entries == fresh_entries(
            store,
            pages.drop_first(),
        ),
{
    let head = pages.drop_last();
    let page_id = pages.last();
    lemma_requests_within_capacity(store, capacity, head);
    // The cache is full of clean pages and the last page is not among them:
    // it enters and the least recently used one leaves.
    let before = after_requests(empty_cache(store, capacity), head);
    assert(!before.contains(page_id)) by {
        if before.contains(page_id) {
            assert(head[before.position(page_id)] == page_id);
        }
    }
    lemma_evict_one_over(before.entries.push(fresh_entry(store, page_id)), capacity as nat);
}

/// A flush passes over clean entries: from entry `i` on it does what it does
/// from entry `j` on, when the entries between them are clean.
proof fn lemma_flush_skips_clean(store: Seq<u8>, entries: Seq<EntryView>, i: int, j: int)
    requires
        0 <= i <= j <= entries.len(),
        forall|k: int| i <= k < j ==> !(#[trigger] entries[k]).dirty,
    ensures
        flush_from(store, entries, i) == flush_from(store, entries, j),
    decreases j - i,
{
    if i < j {
        lemma_flush_skips_clean(store, entries, i + 1, j);
    }
}

/// A flush is a run of single steps: while a page is dirty, the least
/// recently used dirty page is written to the store and marked clean; the
/// flush fails, with nothing more changed, at the first such page that the
/// store refuses.
pub proof fn lemma_flush_by_steps(cache: CacheView)
    requires
        cache.wf(),
    ensures
        match cache.next_dirty() {
            None => flush_from(cache.store, cache.entries, 0) == (
                cache.store,
                cache.entries,
                true,
            ),
            Some((page_id, data)) => if page_in_range(page_id) {
                flush_from(cache.store, cache.entries, 0) == flush_from(
                    store_with_page(cache.store, page_id as int, data),
                    cache.marked_clean(page_id).entries,
                    0,
                )
            } else {
                flush_from(cache.store, cache.entries, 0) == (cache.store, cache.entries, false)
            },
        },
{
    let entries = cache.entries;
    let at = first_dirty(entries);
    lemma_first_flagged(entries, true);
    lemma_flush_skips_clean(cache.store, entries, 0, at);
    if at < entries.len() {
        let page_id = entries[at].page_id;
        lemma_position_is(cache, page_id, at);
        if page_in_range(page_id) {
            // Once the page is clean, so are all entries up to it.
            let next = entries.update(at, cleaned(entries[at]));
            let next_store = store_with_page(cache.store, page_id as int, entries[at].data);
            lemma_flush_skips_clean(next_store, next, 0, at + 1);
        }
    }
}

/// Eviction keeps the page indices distinct.
pub proof fn lemma_evict_keeps_distinct(entries: Seq<EntryView>, capacity: nat)
    requires
        distinct_pages(entries),
    ensures
        distinct_pages(evict(entries, capacity)),
    decreases entries.len(),
{
    lemma_first_flagged(entries, false);
    let c = first_clean(entries);
    if entries.len() > capacity && c < entries.len() {
        let rest = entries.subrange(c + 1, entries.len() as int) + entries.subrange(0, c);
        assert forall|a: int| 0 <= a < rest.len() implies (#[trigger] rest[a]) == entries[if a
            < entries.len() - c - 1 {
            a + c + 1
        } else {
            a - (entries.len() - c - 1)
        }] by {}
        lemma_evict_keeps_distinct(rest, capacity);
    }
}

/// A request leaves the cache well-formed.
pub proof fn lemma_installed_wf(cache: CacheView, page_id: usize, data: Seq<u8>)
    requires
        cache.wf(),
        data.len() == PAGE_SIZE,
    ensures
        cache.installed(page_id, data).wf(),
{
    if cache.contains(page_id) {
        lemma_promoted_distinct(cache.entries, cache.position(page_id));
    } else {
        let pushed = cache.entries.push(EntryView { page_id, data, dirty: false });
        lemma_evict_keeps_distinct(pushed, cache.capacity as nat);
    }
}

/// A request for any page evicts no dirty page: a page that is cached and
/// dirty before the request is so after it, with its buffer as it was.
pub proof fn lemma_request_keeps_dirty_pages(
    cache: CacheView,
    page_id: usize,
    data: Seq<u8>,
    dirty_page: usize,
)
    requires
        cache.wf(),
        data.len() == PAGE_SIZE,
        cache.is_dirty(dirty_page),
    ensures
        cache.installed(page_id, data).is_dirty(dirty_page),
        cache.installed(page_id, data).page(dirty_page) == cache.page(dirty_page),
{
    let after = cache.installed(page_id, data);
    let at = cache.position(dirty_page);
    let entry = cache.entries[at];
    lemma_installed_wf(cache, page_id, data);
    if cache.contains(page_id) {
        // The entry moves with the others, or to the back.
        let i = cache.position(page_id);
        let to = if at == i {
            cache.entries.len() - 1
        } else if at < i {
            at
        } else {
            at - 1
        };
        lemma_position_is(after, dirty_page, to);
    } else {
        // The entry is dirty, so eviction keeps it.
        let pushed = cache.entries.push(EntryView { page_id, data, dirty: false });
        lemma_evict_keeps_dirty(pushed, cache.capacity as nat, at);
        let to = choose|to: int| 0 <= to < after.entries.len() && after.entries[to] == entry;
        lemma_position_is(after, dirty_page, to);
    }
}

} // verus!
