//! When the storage is full.
//!
//! Where every item on the flash is in effect, rotating the pages frees no
//! room: the items only move. An item that does not fit beside them is
//! refused, after every page has had its turn, because the storage is full.

use crate::consistency::{
    lemma_fits,
    bounded, consistent, lemma_appended, lemma_blank_zone, lemma_closed, lemma_copy_extends,
    lemma_mark_first, lemma_migrate_step, lemma_page_of, lemma_promoted, lemma_same_elsewhere,
    lemma_same_elsewhere_twice, lemma_write_in_zone, page_consistent, room_limit, same_elsewhere,
};
use crate::flash::{
    is_erased, programmed,
};
use crate::map::{
    appended, blank, end_of_items, left, lemma_item_advances, migrated, newest_item, next_record,
    promoted, round_up, store_from, zone_start, Cursor, Fault, Located, MAX_STORAGE_ITEM_SIZE,
    Step, StorageItem, StorageItemError,
};
use crate::page::{
    lemma_page_bounds, marker_word, Layout, PageState,
};
use crate::ring::{
    all_open, closed_ring, lemma_behind_next, lemma_newest_all_open, lemma_newest_in_ring, ring,
};
use crate::rotation::{
    closed_after, lemma_capacity, lemma_first_page, lemma_lookup_steady, lemma_ring_same_states,
    lemma_rotated, lemma_rotated_ring, lemma_shut, lemma_spare_last, load, orderly, page_load,
    stands_in,
};
use crate::zone::{
    lemma_end_aligned,
    equivalent_keys, lawful, lemma_end_not_before, lemma_next_used, lemma_reads_end,
    lemma_reads_same, lemma_zone_alike, lemma_zone_search_succeeds, shifted,
};
use vstd::prelude::*;

verus! {

/// The item takes `n` bytes when it is serialized: given a buffer of at least
/// that length the codec writes it, and given a shorter one it reports that
/// the buffer is too small.
pub open spec fn takes<I: StorageItem>(item: I, n: int) -> bool {
    &&& 1 <= n <= MAX_STORAGE_ITEM_SIZE
    &&& forall|limit: int|
        0 <= limit <= MAX_STORAGE_ITEM_SIZE ==> match (#[trigger] item.serialized(
            blank(limit),
        )).0 {
            Ok(written) => limit >= n && written == n,
            Err(e) => limit < n && e.buffer_too_small(),
        }
}

/// Every item that a reader at `at` still reads from `page` is the item in
/// effect for its key.
pub open spec fn all_live<I: StorageItem>(l: Layout, mem: Seq<u8>, page: int, at: Cursor) -> bool
    decreases left(l.zone(mem, page).len() as int, at.offset),
{
    if at.used < 0 {
        true
    } else {
        match next_record::<I>(l.zone(mem, page), l.word_size, at) {
            Step::Item { item, offset, len, next } => {
                proof {
                    lemma_item_advances::<I>(l.zone(mem, page), l.word_size, at);
                }
                &&& newest_item::<I>(l, mem, item.key_of()) == Ok::<
                    Option<Located<I>>,
                    Fault<I::Error>,
                >(Some(Located { item, address: l.data_start(page) + offset, len }))
                &&& all_live::<I>(l, mem, page, next)
            },
            _ => true,
        }
    }
}

/// Every item on the flash is in effect: no key has an older item left.
pub open spec fn compact<I: StorageItem>(l: Layout, mem: Seq<u8>) -> bool {
    forall|page: int| l.has(page) ==> #[trigger] all_live::<I>(l, mem, page, zone_start())
}

/// Where two memories load all pages alike but two, the loads of the first
/// pages differ by what the loads of these two differ.
pub proof fn lemma_load_differs<I: StorageItem>(
    l: Layout,
    a: Seq<u8>,
    b: Seq<u8>,
    pages: int,
    p: int,
    q: int,
)
    requires
        0 <= pages,
        p != q,
        forall|i: int|
            0 <= i < pages && i != p && i != q ==> #[trigger] page_load::<I>(l, a, i)
                == page_load::<I>(l, b, i),
    ensures
        load::<I>(l, a, pages) - load::<I>(l, b, pages) == (if 0 <= p < pages {
            page_load::<I>(l, a, p) - page_load::<I>(l, b, p)
        } else {
            0
        }) + (if 0 <= q < pages {
            page_load::<I>(l, a, q) - page_load::<I>(l, b, q)
        } else {
            0
        }),
    decreases pages,
{
    if pages > 0 {
        lemma_load_differs::<I>(l, a, b, pages - 1, p, q);
        if pages - 1 != p && pages - 1 != q {
            assert(page_load::<I>(l, a, pages - 1) == page_load::<I>(l, b, pages - 1));
        }
    }
}

/// Where the items on the flash and the item on top take more than all pages
/// but one hold, the item is not appended: it finds the room that is left in
/// the page too small.
pub proof fn lemma_append_refused<I: StorageItem>(
    l: Layout,
    mem: Seq<u8>,
    item: I,
    n: int,
    tail: int,
    closed: int,
)
    requires
        lawful::<I>(),
        consistent::<I>(l, mem),
        ring(l, mem, tail, closed),
        l.first_in_state(mem, 0, PageState::PartialOpen, 0) == Ok::<Option<int>, ()>(Some(tail)),
        takes(item, n),
        load::<I>(l, mem, l.pages) + round_up(n, l.word_size) > (l.pages - 1) * l.data_len(),
    ensures
        appended::<I>(l, mem, item, tail) is None,
{
    assert(page_consistent::<I>(l, mem, tail));
    let limit = room_limit::<I>(l, mem, tail);
    assert(0 <= limit <= MAX_STORAGE_ITEM_SIZE);
    let written = item.serialized(blank(limit)).0;
    if written is Ok {
        let end = end_of_items::<I>(l.zone(mem, tail), l.word_size, zone_start(), 0)->Ok_0;
        lemma_end_aligned::<I>(l.zone(mem, tail), l.word_size, zone_start());
        lemma_end_not_before::<I>(l.zone(mem, tail), l.word_size, zone_start());
        lemma_fits(n, l.data_len() - end, end, l.data_len(), l.word_size, l.page_size);
        let after = appended::<I>(l, mem, item, tail)->0.mem;
        lemma_appended::<I>(l, mem, item, tail);
        lemma_ring_same_states(l, mem, after, tail, closed);
        lemma_capacity::<I>(l, after);
        assert forall|i: int|
            0 <= i < l.pages && i != tail && i != l.next(tail) implies #[trigger] page_load::<I>(
            l,
            after,
            i,
        ) == page_load::<I>(l, mem, i) by {
            assert(l.zone(after, i) == l.zone(mem, i));
        }
        assert(l.has(l.next(tail)) && l.next(tail) != tail);
        assert(l.zone(after, l.next(tail)) == l.zone(mem, l.next(tail)));
        lemma_load_differs::<I>(l, after, mem, l.pages, tail, l.next(tail));
    }
}

/// Carrying forward the items of a page of which every item is in effect:
/// every one of them is copied, once and to the offset that it has, so that
/// the target holds in the end what the page holds, as far as its items
/// reach.
pub proof fn lemma_migrated_exact<I: StorageItem>(
    l: Layout,
    shut: Seq<u8>,
    mem: Seq<u8>,
    tail: int,
    at: Cursor,
    end: int,
)
    requires
        lawful::<I>(),
        l.wf(),
        l.page_size % l.word_size == 0,
        l.start + l.pages * l.page_size <= shut.len(),
        closed_ring(l, shut, tail),
        same_elsewhere(l, shut, mem, l.next(tail)),
        l.state(mem, l.next(tail)) == l.state(shut, l.next(tail)),
        0 <= at.used,
        0 <= at.offset,
        bounded::<I>(l.zone(shut, l.next(l.next(tail))), l.word_size),
        all_live::<I>(l, shut, l.next(l.next(tail)), at),
        end_of_items::<I>(l.zone(shut, l.next(l.next(tail))), l.word_size, at, at.offset) == Ok::<
            int,
            Fault<I::Error>,
        >(end),
        end <= l.data_len(),
        end_of_items::<I>(l.zone(mem, l.next(tail)), l.word_size, zone_start(), 0) == Ok::<
            int,
            Fault<I::Error>,
        >(at.offset),
        is_erased(l.zone(mem, l.next(tail)), at.offset, l.data_len() - at.offset),
        forall|i: int|
            0 <= i < at.offset ==> #[trigger] l.zone(mem, l.next(tail))[i] == l.zone(
                shut,
                l.next(l.next(tail)),
            )[i],
    ensures
        ({
            let target = l.next(tail);
            let spare = l.next(target);
            let (result, after) = migrated::<I>(l, mem, spare, target, at, at.offset);
            &&& result is Ok
            &&& same_elsewhere(l, shut, after, target)
            &&& l.state(after, target) == l.state(shut, target)
            &&& end_of_items::<I>(l.zone(after, target), l.word_size, zone_start(), 0) == Ok::<
                int,
                Fault<I::Error>,
            >(end)
            &&& is_erased(l.zone(after, target), end, l.data_len() - end)
            &&& forall|i: int|
                0 <= i < end ==> #[trigger] l.zone(after, target)[i] == l.zone(shut, spare)[i]
        }),
    decreases left(l.zone(mem, l.next(l.next(tail))).len() as int, at.offset),
{
    let target = l.next(tail);
    let spare = l.next(target);
    let word = l.word_size;
    lemma_behind_next(l, tail, tail);
    lemma_behind_next(l, tail, target);
    lemma_page_bounds(l, spare);
    lemma_page_bounds(l, target);
    lemma_same_elsewhere(l, shut, mem, target, spare);
    let source = l.zone(shut, spare);
    assert(l.zone(mem, spare) == source);
    match next_record::<I>(source, word, at) {
        Step::Item { item, offset, len, next } => {
            lemma_item_advances::<I>(source, word, at);
            lemma_next_used::<I>(source, word, at);
            lemma_end_not_before::<I>(source, word, next);
            let key = item.key_of();
            lemma_lookup_steady::<I>(l, shut, mem, tail, key);
            let address = l.data_start(spare) + offset;
            lemma_page_of(l, spare, address);
            let copy = mem.subrange(address, address + len);
            let next_mem = programmed(mem, l.data_start(target) + offset, copy);
            lemma_migrate_step::<I>(l, mem, spare, target, key, offset, key);
            lemma_copy_extends(l, mem, target, offset, copy);
            lemma_write_in_zone(l, mem, target, offset, copy);
            lemma_same_elsewhere_twice(l, shut, mem, next_mem, target);
            assert forall|i: int| 0 <= i < next.offset implies #[trigger] l.zone(
                next_mem,
                target,
            )[i] == source[i] by {
                if i >= offset {
                    assert(l.zone(next_mem, target)[offset + (i - offset)] == copy[i - offset]);
                    assert(l.zone(mem, spare)[i] == mem[l.data_start(spare) + i]);
                } else {
                    assert(l.zone(mem, target)[i] == source[i]);
                }
            }
            lemma_migrated_exact::<I>(l, shut, next_mem, tail, next, end);
        },
        _ => {},
    }
}

/// A page of which every item is in effect keeps that where its data stay
/// and the items in effect that stand in it stay in effect where they stand.
pub proof fn lemma_all_live_kept<I: StorageItem>(
    l: Layout,
    a: Seq<u8>,
    b: Seq<u8>,
    page: int,
    at: Cursor,
)
    requires
        l.wf(),
        l.has(page),
        0 <= at.used,
        0 <= at.offset,
        l.zone(b, page) == l.zone(a, page),
        all_live::<I>(l, a, page, at),
        forall|key: I::Key|
            stands_in(l, newest_item::<I>(l, a, key), page) ==> #[trigger] newest_item::<I>(
                l,
                b,
                key,
            ) == newest_item::<I>(l, a, key),
    ensures
        all_live::<I>(l, b, page, at),
    decreases left(l.zone(a, page).len() as int, at.offset),
{
    let zone = l.zone(a, page);
    match next_record::<I>(zone, l.word_size, at) {
        Step::Item { item, offset, len, next } => {
            lemma_item_advances::<I>(zone, l.word_size, at);
            lemma_next_used::<I>(zone, l.word_size, at);
            lemma_page_bounds(l, page);
            lemma_page_of(l, page, l.data_start(page) + offset);
            let key = item.key_of();
            assert(stands_in(l, newest_item::<I>(l, a, key), page));
            assert(newest_item::<I>(l, b, key) == newest_item::<I>(l, a, key));
            lemma_all_live_kept::<I>(l, a, b, page, next);
        },
        _ => {},
    }
}

/// A blank page holds no item.
pub proof fn lemma_all_live_blank<I: StorageItem>(l: Layout, mem: Seq<u8>, page: int)
    requires
        is_erased(l.zone(mem, page), 0, l.zone(mem, page).len() as int),
    ensures
        all_live::<I>(l, mem, page, zone_start()),
{
    lemma_reads_end::<I>(l.zone(mem, page), l.word_size, zone_start());
}

/// Closing the page in use and making the next one ready, where the spare
/// page holds items: an item that was in effect and stood in the spare page
/// is in effect afterwards and stands in the page that takes over, at the
/// offset that it had.
proof fn lemma_moved_lookup<I: StorageItem>(
    l: Layout,
    mem: Seq<u8>,
    tail: int,
    key: I::Key,
    end: int,
)
    requires
        lawful::<I>(),
        equivalent_keys::<I>(),
        consistent::<I>(l, mem),
        ring(l, mem, tail, l.pages - 2),
        promoted::<I>(
            l,
            programmed(mem, l.data_end(tail), marker_word(l.word_size)),
            l.next(tail),
        ).result is Ok,
        stands_in(l, newest_item::<I>(l, mem, key), l.next(l.next(tail))),
        end <= l.data_len(),
        end_of_items::<I>(l.zone(mem, l.next(l.next(tail))), l.word_size, zone_start(), 0)
            == Ok::<int, Fault<I::Error>>(end),
        is_erased(
            l.zone(
                promoted::<I>(
                    l,
                    programmed(mem, l.data_end(tail), marker_word(l.word_size)),
                    l.next(tail),
                ).mem,
                l.next(tail),
            ),
            end,
            l.data_len() - end,
        ),
        forall|i: int|
            0 <= i < end ==> #[trigger] l.zone(
                promoted::<I>(
                    l,
                    programmed(mem, l.data_end(tail), marker_word(l.word_size)),
                    l.next(tail),
                ).mem,
                l.next(tail),
            )[i] == l.zone(mem, l.next(l.next(tail)))[i],
    ensures
        newest_item::<I>(
            l,
            promoted::<I>(
                l,
                programmed(mem, l.data_end(tail), marker_word(l.word_size)),
                l.next(tail),
            ).mem,
            key,
        ) == Ok::<Option<Located<I>>, Fault<I::Error>>(
            shifted(
                newest_item::<I>(l, mem, key)->Ok_0,
                l.data_start(l.next(tail)) - l.data_start(l.next(l.next(tail))),
            ),
        ),
{
    let shut = programmed(mem, l.data_end(tail), marker_word(l.word_size));
    let target = l.next(tail);
    let spare = l.next(target);
    let ready = promoted::<I>(l, shut, target).mem;
    let word = l.word_size;
    let source = l.zone(mem, spare);
    let moved = l.zone(ready, target);
    lemma_behind_next(l, tail, tail);
    lemma_behind_next(l, tail, target);
    // What is looked up afterwards is what the target holds.
    lemma_rotated::<I>(l, mem, tail, l.pages - 2, key);
    // Before, it was what the spare page held.
    lemma_shut::<I>(l, mem, tail, key);
    assert(l.zone(shut, spare) == source) by {
        lemma_closed::<I>(l, mem, tail);
        if spare != tail {
            lemma_same_elsewhere(l, mem, shut, tail, spare);
        }
    }
    lemma_zone_search_succeeds::<I>(source, word, l.data_start(spare), key, zone_start(), None, 0);
    lemma_spare_last::<I>(l, shut, tail, key);
    // And the target holds what the spare page held.
    lemma_zone_alike::<I>(
        source,
        moved,
        word,
        l.data_start(spare),
        l.data_start(target) - l.data_start(spare),
        key,
        zone_start(),
        None,
        end,
    );
}

/// Closing the page in use and making the next one ready, where every item
/// on the flash is in effect and the spare page holds items: every item of
/// the page that takes over is in effect.
pub proof fn lemma_all_live_moved<I: StorageItem>(
    l: Layout,
    mem: Seq<u8>,
    tail: int,
    at: Cursor,
    end: int,
)
    requires
        lawful::<I>(),
        equivalent_keys::<I>(),
        consistent::<I>(l, mem),
        ring(l, mem, tail, l.pages - 2),
        promoted::<I>(
            l,
            programmed(mem, l.data_end(tail), marker_word(l.word_size)),
            l.next(tail),
        ).result is Ok,
        0 <= at.used,
        0 <= at.offset,
        all_live::<I>(l, mem, l.next(l.next(tail)), at),
        end <= l.data_len(),
        end_of_items::<I>(l.zone(mem, l.next(l.next(tail))), l.word_size, zone_start(), 0)
            == Ok::<int, Fault<I::Error>>(end),
        end_of_items::<I>(l.zone(mem, l.next(l.next(tail))), l.word_size, at, at.offset) == Ok::<
            int,
            Fault<I::Error>,
        >(end),
        is_erased(
            l.zone(
                promoted::<I>(
                    l,
                    programmed(mem, l.data_end(tail), marker_word(l.word_size)),
                    l.next(tail),
                ).mem,
                l.next(tail),
            ),
            end,
            l.data_len() - end,
        ),
        forall|i: int|
            0 <= i < end ==> #[trigger] l.zone(
                promoted::<I>(
                    l,
                    programmed(mem, l.data_end(tail), marker_word(l.word_size)),
                    l.next(tail),
                ).mem,
                l.next(tail),
            )[i] == l.zone(mem, l.next(l.next(tail)))[i],
    ensures
        all_live::<I>(
            l,
            promoted::<I>(
                l,
                programmed(mem, l.data_end(tail), marker_word(l.word_size)),
                l.next(tail),
            ).mem,
            l.next(tail),
            at,
        ),
    decreases left(l.zone(mem, l.next(l.next(tail))).len() as int, at.offset),
{
    let target = l.next(tail);
    let spare = l.next(target);
    let word = l.word_size;
    let source = l.zone(mem, spare);
    let ready = promoted::<I>(
        l,
        programmed(mem, l.data_end(tail), marker_word(l.word_size)),
        target,
    ).mem;
    let moved = l.zone(ready, target);
    lemma_behind_next(l, tail, tail);
    lemma_behind_next(l, tail, target);
    lemma_page_bounds(l, spare);
    match next_record::<I>(source, word, at) {
        Step::Item { item, offset, len, next } => {
            lemma_item_advances::<I>(source, word, at);
            lemma_next_used::<I>(source, word, at);
            lemma_end_not_before::<I>(source, word, next);
            lemma_reads_same::<I>(source, moved, word, at, end);
            lemma_page_of(l, spare, l.data_start(spare) + offset);
            lemma_moved_lookup::<I>(l, mem, tail, item.key_of(), end);
            lemma_all_live_moved::<I>(l, mem, tail, next, end);
        },
        _ => {},
    }
}

/// Making the next page ready where the spare page is blank, with every item
/// on the flash in effect: that stays so, and the pages are loaded as before.
proof fn lemma_rotated_blank_spare<I: StorageItem>(l: Layout, mem: Seq<u8>, tail: int, closed: int)
    requires
        lawful::<I>(),
        equivalent_keys::<I>(),
        consistent::<I>(l, mem),
        ring(l, mem, tail, closed),
        closed < l.pages - 2,
        compact::<I>(l, mem),
    ensures
        ({
            let ready = promoted::<I>(
                l,
                programmed(mem, l.data_end(tail), marker_word(l.word_size)),
                l.next(tail),
            );
            &&& ready.result is Ok
            &&& compact::<I>(l, ready.mem)
            &&& load::<I>(l, ready.mem, l.pages) == load::<I>(l, mem, l.pages)
        }),
{
    let shut = programmed(mem, l.data_end(tail), marker_word(l.word_size));
    let target = l.next(tail);
    let spare = l.next(target);
    let ready = promoted::<I>(l, shut, target).mem;
    lemma_closed::<I>(l, mem, tail);
    lemma_behind_next(l, tail, tail);
    lemma_behind_next(l, tail, target);
    assert(l.state(mem, spare) == Some(PageState::Open));
    assert(l.state(mem, target) == Some(PageState::Open));
    lemma_same_elsewhere(l, mem, shut, tail, spare);
    lemma_same_elsewhere(l, mem, shut, tail, target);
    lemma_promoted::<I>(l, shut, target);
    lemma_rotated_ring::<I>(l, mem, tail, closed);
    assert forall|key: I::Key| #[trigger]
        newest_item::<I>(l, ready, key) == newest_item::<I>(l, mem, key) by {
        lemma_rotated::<I>(l, mem, tail, closed, key);
    }
    assert(page_consistent::<I>(l, ready, spare));
    assert(page_consistent::<I>(l, mem, spare));
    lemma_blank_zone::<I>(l.zone(ready, spare), l.word_size);
    lemma_blank_zone::<I>(l.zone(mem, spare), l.word_size);
    assert forall|q: int| l.has(q) && q != spare implies #[trigger] l.zone(ready, q) == l.zone(
        mem,
        q,
    ) by {
        if q != tail {
            lemma_same_elsewhere(l, mem, shut, tail, q);
        }
        if q != target {
            assert(l.state(ready, q) == l.state(shut, q));
        }
    }
    assert forall|q: int| l.has(q) implies #[trigger] all_live::<I>(l, ready, q, zone_start()) by {
        if q == spare {
            lemma_all_live_blank::<I>(l, ready, q);
        } else {
            assert(all_live::<I>(l, mem, q, zone_start()));
            lemma_all_live_kept::<I>(l, mem, ready, q, zone_start());
        }
    }
    assert forall|i: int|
        0 <= i < l.pages && i != target && i != spare implies #[trigger] page_load::<I>(
        l,
        ready,
        i,
    ) == page_load::<I>(l, mem, i) by {
        assert(l.zone(ready, i) == l.zone(mem, i));
    }
    assert(l.zone(ready, target) == l.zone(mem, target));
    lemma_load_differs::<I>(l, ready, mem, l.pages, target, spare);
}

/// Making the next page ready where the spare page holds items, with every
/// item on the flash in effect: every item of the spare page is carried
/// forward, every item on the flash is in effect afterwards, and the pages
/// are loaded as before.
proof fn lemma_rotated_all_live<I: StorageItem>(l: Layout, mem: Seq<u8>, tail: int)
    requires
        lawful::<I>(),
        equivalent_keys::<I>(),
        consistent::<I>(l, mem),
        ring(l, mem, tail, l.pages - 2),
        compact::<I>(l, mem),
    ensures
        ({
            let ready = promoted::<I>(
                l,
                programmed(mem, l.data_end(tail), marker_word(l.word_size)),
                l.next(tail),
            );
            &&& ready.result is Ok
            &&& compact::<I>(l, ready.mem)
            &&& load::<I>(l, ready.mem, l.pages) == load::<I>(l, mem, l.pages)
        }),
{
    let shut = programmed(mem, l.data_end(tail), marker_word(l.word_size));
    let target = l.next(tail);
    let spare = l.next(target);
    let ready = promoted::<I>(l, shut, target).mem;
    let word = l.word_size;
    lemma_carried_whole::<I>(l, mem, tail);
    lemma_closed::<I>(l, mem, tail);
    lemma_promoted::<I>(l, shut, target);
    lemma_rotated_ring::<I>(l, mem, tail, l.pages - 2);
    lemma_behind_next(l, tail, tail);
    lemma_behind_next(l, tail, target);
    let end = end_of_items::<I>(l.zone(mem, spare), word, zone_start(), 0)->Ok_0;
    assert(page_consistent::<I>(l, ready, spare));
    assert(page_consistent::<I>(l, mem, target));
    lemma_blank_zone::<I>(l.zone(ready, spare), word);
    lemma_blank_zone::<I>(l.zone(mem, target), word);
    assert forall|q: int| l.has(q) && q != spare && q != target implies #[trigger] l.zone(
        ready,
        q,
    ) == l.zone(mem, q) by {
        if q != tail {
            lemma_same_elsewhere(l, mem, shut, tail, q);
        }
        assert(l.state(ready, q) == l.state(shut, q));
    }
    assert forall|q: int| l.has(q) implies #[trigger] all_live::<I>(l, ready, q, zone_start()) by {
        if q == spare {
            lemma_all_live_blank::<I>(l, ready, q);
        } else if q == target {
            assert(all_live::<I>(l, mem, spare, zone_start()));
            lemma_all_live_moved::<I>(l, mem, tail, zone_start(), end);
        } else {
            assert(all_live::<I>(l, mem, q, zone_start()));
            assert forall|key: I::Key|
                stands_in(l, newest_item::<I>(l, mem, key), q) implies #[trigger] newest_item::<I>(
                l,
                ready,
                key,
            ) == newest_item::<I>(l, mem, key) by {
                lemma_rotated::<I>(l, mem, tail, l.pages - 2, key);
            }
            lemma_all_live_kept::<I>(l, mem, ready, q, zone_start());
        }
    }
    assert forall|i: int|
        0 <= i < l.pages && i != target && i != spare implies #[trigger] page_load::<I>(
        l,
        ready,
        i,
    ) == page_load::<I>(l, mem, i) by {
        assert(l.zone(ready, i) == l.zone(mem, i));
    }
    lemma_load_differs::<I>(l, ready, mem, l.pages, target, spare);
}

/// Where every item of the spare page is in effect, all of them are carried
/// forward: the page that takes over holds in the end what the spare page
/// held, as far as its items reach, and nothing but erased bytes behind.
proof fn lemma_carried_whole<I: StorageItem>(l: Layout, mem: Seq<u8>, tail: int)
    requires
        lawful::<I>(),
        equivalent_keys::<I>(),
        consistent::<I>(l, mem),
        ring(l, mem, tail, l.pages - 2),
        compact::<I>(l, mem),
    ensures
        ({
            let shut = programmed(mem, l.data_end(tail), marker_word(l.word_size));
            let target = l.next(tail);
            let spare = l.next(target);
            let ready = promoted::<I>(l, shut, target);
            let end = end_of_items::<I>(l.zone(mem, spare), l.word_size, zone_start(), 0);
            &&& ready.result is Ok
            &&& end matches Ok(e) && e <= l.data_len() && end_of_items::<I>(
                l.zone(ready.mem, target),
                l.word_size,
                zone_start(),
                0,
            ) == end && is_erased(l.zone(ready.mem, target), e, l.data_len() - e) && (forall|
                i: int,
            |
                0 <= i < e ==> #[trigger] l.zone(ready.mem, target)[i] == l.zone(mem, spare)[i])
        }),
{
    let shut = programmed(mem, l.data_end(tail), marker_word(l.word_size));
    let target = l.next(tail);
    let spare = l.next(target);
    let word = l.word_size;
    lemma_behind_next(l, tail, tail);
    lemma_behind_next(l, tail, target);
    lemma_closed::<I>(l, mem, tail);
    let some_key = arbitrary::<I::Key>();
    lemma_shut::<I>(l, mem, tail, some_key);
    assert(l.zone(shut, spare) == l.zone(mem, spare)) by {
        if spare != tail {
            lemma_same_elsewhere(l, mem, shut, tail, spare);
        }
    }
    assert(all_live::<I>(l, mem, spare, zone_start()));
    assert forall|key: I::Key|
        stands_in(l, newest_item::<I>(l, mem, key), spare) implies #[trigger] newest_item::<I>(
        l,
        shut,
        key,
    ) == newest_item::<I>(l, mem, key) by {
        lemma_shut::<I>(l, mem, tail, key);
    }
    lemma_all_live_kept::<I>(l, mem, shut, spare, zone_start());
    let end = end_of_items::<I>(l.zone(shut, spare), word, zone_start(), 0)->Ok_0;
    lemma_blank_zone::<I>(l.zone(shut, target), word);
    lemma_migrated_exact::<I>(l, shut, shut, tail, zone_start(), end);
    lemma_promoted::<I>(l, shut, target);
}

/// The storage is full: where every item on the flash is in effect, and they
/// and the item on top take more than all pages but one hold, the item is
/// refused because the storage is full, once every page has had its turn.
/// On the way nothing is lost: the items are carried from page to page.
pub proof fn lemma_full<I: StorageItem>(l: Layout, mem: Seq<u8>, item: I, n: int, level: int)
    requires
        lawful::<I>(),
        equivalent_keys::<I>(),
        orderly::<I>(l, mem),
        compact::<I>(l, mem),
        takes(item, n),
        load::<I>(l, mem, l.pages) + round_up(n, l.word_size) > (l.pages - 1) * l.data_len(),
        0 <= level,
    ensures
        store_from::<I>(l, mem, item, level).result == Err::<(), Fault<I::Error>>(
            Fault::FullStorage,
        ),
    decreases l.pages - level,
{
    let key = item.key_of();
    if level < l.pages {
        if all_open(l, mem) {
            lemma_newest_all_open::<I>(l, mem, key);
            lemma_first_page::<I>(l, mem, key);
            let marked = programmed(mem, l.page_start(0), marker_word(l.word_size));
            assert(l.has(0) && l.has(l.next(0)));
            assert(promoted::<I>(l, mem, 0).mem == marked);
            lemma_first_page_all_live::<I>(l, mem);
            lemma_full::<I>(l, marked, item, n, level + 1);
        } else {
            let (tail, closed) = choose|tail: int, closed: int| #[trigger]
                ring(l, mem, tail, closed);
            lemma_newest_in_ring::<I>(l, mem, key, tail, closed);
            lemma_append_refused::<I>(l, mem, item, n, tail, closed);
            let shut = programmed(mem, l.data_end(tail), marker_word(l.word_size));
            if closed < l.pages - 2 {
                lemma_rotated_blank_spare::<I>(l, mem, tail, closed);
            } else {
                lemma_rotated_all_live::<I>(l, mem, tail);
            }
            lemma_rotated_ring::<I>(l, mem, tail, closed);
            let ready = promoted::<I>(l, shut, l.next(tail));
            assert(ring(l, ready.mem, l.next(tail), closed_after(l, closed)));
            lemma_full::<I>(l, ready.mem, item, n, level + 1);
        }
    }
}

/// Where all pages are blank, writing the first marker of the first page
/// leaves no item on the flash.
proof fn lemma_first_page_all_live<I: StorageItem>(l: Layout, mem: Seq<u8>)
    requires
        consistent::<I>(l, mem),
        all_open(l, mem),
    ensures
        compact::<I>(l, programmed(mem, l.page_start(0), marker_word(l.word_size))),
        load::<I>(l, programmed(mem, l.page_start(0), marker_word(l.word_size)), l.pages)
            == load::<I>(l, mem, l.pages),
{
    let marked = programmed(mem, l.page_start(0), marker_word(l.word_size));
    assert(l.has(0) && l.has(1));
    assert(page_consistent::<I>(l, mem, 0));
    lemma_blank_zone::<I>(l.zone(mem, 0), l.word_size);
    lemma_mark_first::<I>(l, mem, 0);
    assert forall|q: int| l.has(q) implies #[trigger] l.zone(marked, q) == l.zone(mem, q) by {
        if q != 0 {
            lemma_same_elsewhere(l, mem, marked, 0, q);
        }
    }
    assert forall|q: int| l.has(q) implies #[trigger] all_live::<I>(l, marked, q, zone_start()) by {
        assert(page_consistent::<I>(l, mem, q));
        assert(l.zone(marked, q) == l.zone(mem, q));
        lemma_all_live_blank::<I>(l, marked, q);
    }
    assert forall|i: int| 0 <= i < l.pages && i != 0 && i != 1 implies #[trigger] page_load::<I>(
        l,
        marked,
        i,
    ) == page_load::<I>(l, mem, i) by {
        assert(l.zone(marked, i) == l.zone(mem, i));
    }
    assert(l.zone(marked, 0) == l.zone(mem, 0));
    assert(l.zone(marked, 1) == l.zone(mem, 1));
    lemma_load_differs::<I>(l, marked, mem, l.pages, 0, 1);
}

/// An item that fits is stored: where a page is in use and the item takes no
/// more than the room that is left in it, the store succeeds, and erases
/// nothing.
pub proof fn lemma_store_with_room<I: StorageItem>(
    l: Layout,
    mem: Seq<u8>,
    item: I,
    n: int,
    tail: int,
    closed: int,
    level: int,
)
    requires
        consistent::<I>(l, mem),
        ring(l, mem, tail, closed),
        takes(item, n),
        page_load::<I>(l, mem, tail) + round_up(n, l.word_size) <= l.data_len(),
        0 <= level < l.pages,
    ensures
        store_from::<I>(l, mem, item, level).result is Ok,
        !store_from::<I>(l, mem, item, level).erased,
{
    lemma_newest_in_ring::<I>(l, mem, item.key_of(), tail, closed);
    assert(page_consistent::<I>(l, mem, tail));
    lemma_end_not_before::<I>(l.zone(mem, tail), l.word_size, zone_start());
    let limit = room_limit::<I>(l, mem, tail);
    assert(0 <= limit <= MAX_STORAGE_ITEM_SIZE);
    assert(round_up(n, l.word_size) >= n);
    let written = item.serialized(blank(limit)).0;
    assert(written is Ok);
}

/// The first item is stored if a page holds it: where all pages are blank and
/// the item takes no more than the data zone of a page, the store succeeds,
/// and erases nothing.
pub proof fn lemma_first_store<I: StorageItem>(l: Layout, mem: Seq<u8>, item: I, n: int)
    requires
        consistent::<I>(l, mem),
        all_open(l, mem),
        takes(item, n),
        round_up(n, l.word_size) <= l.data_len(),
    ensures
        store_from::<I>(l, mem, item, 0).result is Ok,
        !store_from::<I>(l, mem, item, 0).erased,
{
    let key = item.key_of();
    lemma_newest_all_open::<I>(l, mem, key);
    lemma_first_page::<I>(l, mem, key);
    let marked = programmed(mem, l.page_start(0), marker_word(l.word_size));
    assert(l.has(0) && l.has(l.next(0)));
    assert(promoted::<I>(l, mem, 0).mem == marked);
    assert(!promoted::<I>(l, mem, 0).erased);
    assert(page_consistent::<I>(l, mem, 0));
    lemma_blank_zone::<I>(l.zone(mem, 0), l.word_size);
    lemma_mark_first::<I>(l, mem, 0);
    lemma_store_with_room::<I>(l, marked, item, n, 0, 0, 1);
}

} // verus!
