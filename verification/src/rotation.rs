//! What the rotation of the pages keeps: when a full page is closed and the
//! next one takes over, after the items still in effect have been carried
//! forward from the page that is erased, every key has the item in effect
//! that it had before.
//!
//! With that, the store is a map: what is fetched for a key is what was
//! stored last for it. And one page is always blank, which bounds what the
//! region holds.
//!
//! A store can also be refused while it carries items forward, after it has
//! closed its page. The region is stalled then: no page is in use, and every
//! further store is refused in the same way and changes nothing, so that
//! nothing is ever stored without a spare page.

use crate::consistency::{
    bounded, consistent, lemma_copy_extends, lemma_erased_is_consistent, lemma_newest_copy,
    lemma_stored, lemma_write_in_zone, stored_all, lemma_appended, lemma_blank_zone, lemma_closed,
    lemma_mark_first, lemma_migrate_step, lemma_newest_found, lemma_page_of, lemma_promoted,
    lemma_same_elsewhere, lemma_same_elsewhere_twice, newest_of_page, page_consistent,
    same_elsewhere, same_states,
};
use crate::flash::{is_erased, programmed, same_in};
use crate::map::{
    appended, end_of_items, in_effect, last_used_page, left, lemma_item_advances,
    lemma_newest_in_zone_place, migrated, newest_in_zone, newest_item, next_record, promoted,
    search_back, store_from, zone_start, Cursor, Fault, Located, Step, StorageItem,
};
use crate::page::{
    lemma_page_bounds, lemma_pages_apart, lemma_state_same, marker_word,
    Layout, PageState,
};
use crate::ring::{
    all_open, behind, closed_ring, lemma_behind_next, lemma_behind_previous,
    lemma_newest_all_open, lemma_newest_in_closed_ring, lemma_newest_in_ring, lemma_ring_pages,
    newest_among, ring, shaped,
};
use crate::zone::{
    equivalent_keys, lawful, lemma_end_not_before, lemma_newest_before_end, lemma_next_used,
    lemma_zone_equal_keys, lemma_zone_found_matches, lemma_zone_search_succeeds,
};
use vstd::prelude::*;
use vstd::std_specs::cmp::PartialEqSpec;

verus! {

/// The search through pages that hold the same data comes to the same.
pub proof fn lemma_among_same<I: StorageItem>(
    l: Layout,
    a: Seq<u8>,
    b: Seq<u8>,
    key: I::Key,
    tail: int,
    page: int,
    count: int,
    bound: int,
)
    requires
        l.wf(),
        l.has(tail),
        l.has(page),
        0 <= count,
        behind(l, tail, page) + count <= bound <= l.pages,
        forall|q: int|
            l.has(q) && behind(l, tail, q) < bound ==> #[trigger] l.zone(a, q) == l.zone(b, q),
    ensures
        newest_among::<I>(l, a, key, page, count) == newest_among::<I>(l, b, key, page, count),
    decreases count,
{
    if count > 0 {
        lemma_behind_previous(l, tail, page);
        assert(l.zone(a, page) == l.zone(b, page));
        if count > 1 {
            lemma_among_same::<I>(l, a, b, key, tail, l.previous(page), count - 1, bound);
        } else {
            assert(newest_among::<I>(l, a, key, l.previous(page), 0) == newest_among::<I>(
                l,
                b,
                key,
                l.previous(page),
                0,
            ));
        }
    }
}

/// The page that lies `steps` steps behind `page`.
pub open spec fn back(l: Layout, page: int, steps: int) -> int
    decreases steps,
{
    if steps <= 0 {
        page
    } else {
        back(l, l.previous(page), steps - 1)
    }
}

/// A page that lies some steps behind another lies that much further behind
/// the tail.
pub proof fn lemma_back(l: Layout, tail: int, page: int, steps: int)
    requires
        l.wf(),
        l.has(tail),
        l.has(page),
        0 <= steps,
        behind(l, tail, page) + steps < l.pages,
    ensures
        l.has(back(l, page, steps)),
        behind(l, tail, back(l, page, steps)) == behind(l, tail, page) + steps,
    decreases steps,
{
    if steps > 0 {
        lemma_behind_previous(l, tail, page);
        lemma_back(l, tail, l.previous(page), steps - 1);
    }
}

/// The search through one page more looks at that page last.
pub proof fn lemma_among_split<I: StorageItem>(
    l: Layout,
    mem: Seq<u8>,
    key: I::Key,
    page: int,
    count: int,
)
    requires
        0 <= count,
    ensures
        newest_among::<I>(l, mem, key, page, count + 1) == match newest_among::<I>(
            l,
            mem,
            key,
            page,
            count,
        ) {
            Err(fault) => Err(fault),
            Ok(Some(found)) => Ok(Some(found)),
            Ok(None) => match newest_in_zone::<I>(
                l.zone(mem, back(l, page, count)),
                l.word_size,
                l.data_start(back(l, page, count)),
                key,
                zone_start(),
                None,
            ) {
                Err(fault) => Err(fault),
                Ok(found) => Ok(found),
            },
        },
    decreases count,
{
    if count > 0 {
        lemma_among_split::<I>(l, mem, key, l.previous(page), count - 1);
    } else {
        assert(newest_among::<I>(l, mem, key, l.previous(page), 0) == Ok::<
            Option<Located<I>>,
            Fault<I::Error>,
        >(None));
    }
}

/// What the search through some pages finds is the newest item of one of
/// them.
pub proof fn lemma_among_found<I: StorageItem>(
    l: Layout,
    mem: Seq<u8>,
    key: I::Key,
    tail: int,
    page: int,
    count: int,
)
    requires
        l.wf(),
        l.has(tail),
        l.has(page),
        0 <= count,
        behind(l, tail, page) + count <= l.pages,
    ensures
        newest_among::<I>(l, mem, key, page, count) matches Ok(Some(found)) ==> {
            let q = l.page_of(found.address);
            &&& newest_of_page::<I>(l, mem, key, q, found)
            &&& behind(l, tail, page) <= behind(l, tail, q) < behind(l, tail, page) + count
        },
    decreases count,
{
    if count > 0 {
        lemma_behind_previous(l, tail, page);
        match newest_in_zone::<I>(
            l.zone(mem, page),
            l.word_size,
            l.data_start(page),
            key,
            zone_start(),
            None,
        ) {
            Ok(Some(found)) => {
                lemma_page_bounds(l, page);
                lemma_newest_in_zone_place::<I>(
                    l.zone(mem, page),
                    l.word_size,
                    l.data_start(page),
                    key,
                    zone_start(),
                    None,
                );
                lemma_page_of(l, page, found.address);
            },
            Ok(None) => {
                if count > 1 {
                    lemma_among_found::<I>(l, mem, key, tail, l.previous(page), count - 1);
                }
            },
            Err(_) => {},
        }
    }
}

/// Keys that are equal have the same item in effect.
pub proof fn lemma_search_equal_keys<I: StorageItem>(
    l: Layout,
    mem: Seq<u8>,
    key: I::Key,
    other: I::Key,
    page: int,
    visited: int,
)
    requires
        equivalent_keys::<I>(),
        key.eq_spec(&other),
    ensures
        search_back::<I>(l, mem, key, page, visited) == search_back::<I>(
            l,
            mem,
            other,
            page,
            visited,
        ),
    decreases l.pages - visited,
{
    lemma_zone_equal_keys::<I>(
        l.zone(mem, page),
        l.word_size,
        l.data_start(page),
        key,
        other,
        zone_start(),
        None,
    );
    if visited < l.pages {
        lemma_search_equal_keys::<I>(l, mem, key, other, l.previous(page), visited + 1);
    }
}

/// Keys that are equal have the same item in effect.
pub proof fn lemma_newest_equal_keys<I: StorageItem>(
    l: Layout,
    mem: Seq<u8>,
    key: I::Key,
    other: I::Key,
)
    requires
        equivalent_keys::<I>(),
        key.eq_spec(&other),
    ensures
        newest_item::<I>(l, mem, key) == newest_item::<I>(l, mem, other),
{
    match last_used_page(l, mem) {
        Ok(Some(page)) => {
            lemma_search_equal_keys::<I>(l, mem, key, other, page, 1);
        },
        _ => {},
    }
}

/// The item in effect for a key has a key equal to it.
pub proof fn lemma_newest_matches<I: StorageItem>(l: Layout, mem: Seq<u8>, key: I::Key)
    requires
        l.wf(),
    ensures
        newest_item::<I>(l, mem, key) matches Ok(Some(found)) ==> found.item.key_of().eq_spec(
            &key,
        ),
{
    match newest_item::<I>(l, mem, key) {
        Ok(Some(found)) => {
            lemma_newest_found::<I>(l, mem, key);
            let q = choose|q: int| #[trigger] newest_of_page::<I>(l, mem, key, q, found);
            lemma_zone_found_matches::<I>(
                l.zone(mem, q),
                l.word_size,
                l.data_start(q),
                key,
                zone_start(),
                None,
            );
        },
        _ => {},
    }
}

/// While items are carried forward, what is looked up does not change: the
/// page they are carried to is not looked at.
pub proof fn lemma_lookup_steady<I: StorageItem>(
    l: Layout,
    before: Seq<u8>,
    mem: Seq<u8>,
    tail: int,
    key: I::Key,
)
    requires
        l.wf(),
        l.start + l.pages * l.page_size <= before.len(),
        closed_ring(l, before, tail),
        same_elsewhere(l, before, mem, l.next(tail)),
        l.state(mem, l.next(tail)) == l.state(before, l.next(tail)),
    ensures
        closed_ring(l, mem, tail),
        newest_item::<I>(l, mem, key) == newest_item::<I>(l, before, key),
        newest_item::<I>(l, before, key) == newest_among::<I>(l, before, key, tail, l.pages - 1),
{
    let target = l.next(tail);
    lemma_behind_next(l, tail, tail);
    assert forall|q: int| l.has(q) && q != target implies #[trigger] l.state(mem, q) == l.state(
        before,
        q,
    ) && l.zone(mem, q) == l.zone(before, q) by {
        lemma_same_elsewhere(l, before, mem, target, q);
    }
    assert(closed_ring(l, mem, tail)) by {
        assert forall|q: int|
            l.has(q) && 1 <= behind(l, tail, q) <= l.pages - 2 implies #[trigger] l.state(mem, q)
            == Some(PageState::Closed) by {
            assert(l.state(before, q) == Some(PageState::Closed));
        }
        assert forall|q: int|
            l.has(q) && behind(l, tail, q) == l.pages - 2 + 1 implies #[trigger] l.state(mem, q)
            == Some(PageState::Open) by {
            assert(l.state(before, q) == Some(PageState::Open));
        }
    }
    lemma_newest_in_closed_ring::<I>(l, before, key, tail);
    lemma_newest_in_closed_ring::<I>(l, mem, key, tail);
    assert forall|q: int| l.has(q) && behind(l, tail, q) < l.pages - 1 implies #[trigger] l.zone(
        before,
        q,
    ) == l.zone(mem, q) by {
        assert(l.state(mem, q) == l.state(before, q));
    }
    lemma_among_same::<I>(l, before, mem, key, tail, tail, l.pages - 1, l.pages - 1);
}

/// Whether an item was found, and in the page `page`.
pub open spec fn stands_in<I, E>(
    l: Layout,
    newest: Result<Option<Located<I>>, Fault<E>>,
    page: int,
) -> bool {
    match newest {
        Ok(Some(found)) => l.page_of(found.address) == page,
        _ => false,
    }
}

/// What the page that items are carried to holds for `key`: a copy of the
/// item in effect for the key, exactly if that item stands in the page that
/// the items come from and an item with such a key has been passed there.
pub open spec fn carried<I: StorageItem>(
    l: Layout,
    mem: Seq<u8>,
    to: int,
    key: I::Key,
    newest: Result<Option<Located<I>>, Fault<I::Error>>,
    passed: bool,
    from: int,
) -> bool {
    match newest_in_zone::<I>(
        l.zone(mem, to),
        l.word_size,
        l.data_start(to),
        key,
        zone_start(),
        None,
    ) {
        Ok(Some(copy)) => passed && stands_in(l, newest, from) && copy.item
            == newest->Ok_0->0.item,
        Ok(None) => !(passed && stands_in(l, newest, from)),
        Err(_) => false,
    }
}

/// Carrying items forward, seen from one key: in the end the target holds a
/// copy of the item in effect for the key exactly if that item stood in the
/// page that the items come from.
pub proof fn lemma_migrated_key<I: StorageItem>(
    l: Layout,
    before: Seq<u8>,
    mem: Seq<u8>,
    tail: int,
    from: int,
    at: Cursor,
    write_at: int,
    key: I::Key,
    best: Option<Located<I>>,
)
    requires
        lawful::<I>(),
        equivalent_keys::<I>(),
        l.wf(),
        l.page_size % l.word_size == 0,
        l.start + l.pages * l.page_size <= before.len(),
        closed_ring(l, before, tail),
        same_elsewhere(l, before, mem, l.next(tail)),
        l.state(mem, l.next(tail)) == l.state(before, l.next(tail)),
        l.has(from),
        from != l.next(tail),
        0 <= at.used,
        0 <= at.offset,
        0 <= write_at <= l.data_len(),
        bounded::<I>(l.zone(before, from), l.word_size),
        end_of_items::<I>(l.zone(mem, l.next(tail)), l.word_size, zone_start(), 0) == Ok::<
            int,
            Fault<I::Error>,
        >(write_at),
        is_erased(l.zone(mem, l.next(tail)), write_at, l.data_len() - write_at),
        migrated::<I>(l, mem, from, l.next(tail), at, write_at).0 is Ok,
        newest_in_zone::<I>(
            l.zone(before, from),
            l.word_size,
            l.data_start(from),
            key,
            zone_start(),
            None,
        ) == newest_in_zone::<I>(
            l.zone(before, from),
            l.word_size,
            l.data_start(from),
            key,
            at,
            best,
        ),
        carried::<I>(
            l,
            mem,
            l.next(tail),
            key,
            newest_item::<I>(l, before, key),
            best is Some,
            from,
        ),
    ensures
        carried::<I>(
            l,
            migrated::<I>(l, mem, from, l.next(tail), at, write_at).1,
            l.next(tail),
            key,
            newest_item::<I>(l, before, key),
            newest_in_zone::<I>(
                l.zone(before, from),
                l.word_size,
                l.data_start(from),
                key,
                zone_start(),
                None,
            ) matches Ok(Some(_)),
            from,
        ),
    decreases left(l.zone(mem, from).len() as int, at.offset),
{
    let to = l.next(tail);
    let word = l.word_size;
    lemma_behind_next(l, tail, tail);
    lemma_same_elsewhere(l, before, mem, to, from);
    let source = l.zone(mem, from);
    assert(source == l.zone(before, from));
    match next_record::<I>(source, word, at) {
        Step::Item { item, offset, len, next } => {
            lemma_item_advances::<I>(source, word, at);
            lemma_next_used::<I>(source, word, at);
            let own = item.key_of();
            let better = if own.eq_spec(&key) {
                Some(Located { item, address: l.data_start(from) + offset, len })
            } else {
                best
            };
            lemma_lookup_steady::<I>(l, before, mem, tail, own);
            let newest = newest_item::<I>(l, mem, own)->Ok_0->0;
            lemma_newest_matches::<I>(l, before, own);
            if own.eq_spec(&key) {
                lemma_newest_equal_keys::<I>(l, before, own, key);
            }
            if l.page_of(newest.address) == from {
                let after = programmed(
                    mem,
                    l.data_start(to) + write_at,
                    mem.subrange(newest.address, newest.address + newest.len),
                );
                lemma_migrate_step::<I>(l, mem, from, to, own, write_at, key);
                lemma_same_elsewhere_twice(l, before, mem, after, to);
                lemma_migrated_key::<I>(
                    l,
                    before,
                    after,
                    tail,
                    from,
                    next,
                    write_at + newest.len,
                    key,
                    better,
                );
            } else {
                lemma_migrated_key::<I>(l, before, mem, tail, from, next, write_at, key, better);
            }
        },
        _ => {},
    }
}

/// The number of closed pages behind the page that takes over, when the page
/// with `closed` closed pages behind it has been closed.
pub open spec fn closed_after(l: Layout, closed: int) -> int {
    if closed < l.pages - 2 {
        closed + 1
    } else {
        closed
    }
}

/// Closing the page that items are appended to and making the next one ready
/// keeps the ring a ring.
pub proof fn lemma_rotated_ring<I: StorageItem>(l: Layout, mem: Seq<u8>, tail: int, closed: int)
    requires
        lawful::<I>(),
        consistent::<I>(l, mem),
        ring(l, mem, tail, closed),
        promoted::<I>(
            l,
            programmed(mem, l.data_end(tail), marker_word(l.word_size)),
            l.next(tail),
        ).result is Ok,
    ensures
        consistent::<I>(
            l,
            promoted::<I>(
                l,
                programmed(mem, l.data_end(tail), marker_word(l.word_size)),
                l.next(tail),
            ).mem,
        ),
        ring(
            l,
            promoted::<I>(
                l,
                programmed(mem, l.data_end(tail), marker_word(l.word_size)),
                l.next(tail),
            ).mem,
            l.next(tail),
            closed_after(l, closed),
        ),
{
    let shut = programmed(mem, l.data_end(tail), marker_word(l.word_size));
    let target = l.next(tail);
    let spare = l.next(target);
    let ready = promoted::<I>(l, shut, target).mem;
    lemma_closed::<I>(l, mem, tail);
    lemma_behind_next(l, tail, tail);
    lemma_behind_next(l, tail, target);
    lemma_promoted::<I>(l, shut, target);
    assert forall|q: int| l.has(q) && q != tail implies #[trigger] l.state(shut, q) == l.state(
        mem,
        q,
    ) by {
        lemma_same_elsewhere(l, mem, shut, tail, q);
    }
    assert forall|q: int|
        l.has(q) && 1 <= behind(l, target, q) <= closed_after(l, closed) implies #[trigger] l.state(
        ready,
        q,
    ) == Some(PageState::Closed) by {
        lemma_behind_next(l, tail, q);
        assert(q != target && q != spare);
        assert(l.state(ready, q) == l.state(shut, q));
        if q != tail {
            assert(l.state(shut, q) == l.state(mem, q));
        }
    }
    assert forall|q: int|
        l.has(q) && closed_after(l, closed) < behind(l, target, q) implies #[trigger] l.state(
        ready,
        q,
    ) == Some(PageState::Open) by {
        lemma_behind_next(l, tail, q);
        if q != spare {
            assert(q != target && q != tail);
            assert(l.state(ready, q) == l.state(shut, q));
            assert(l.state(shut, q) == l.state(mem, q));
        }
    }
}

/// Closing the page that items are appended to and making the next one ready
/// keeps, for every key, the item that is in effect.
pub proof fn lemma_rotated<I: StorageItem>(
    l: Layout,
    mem: Seq<u8>,
    tail: int,
    closed: int,
    key: I::Key,
)
    requires
        lawful::<I>(),
        equivalent_keys::<I>(),
        consistent::<I>(l, mem),
        ring(l, mem, tail, closed),
        promoted::<I>(
            l,
            programmed(mem, l.data_end(tail), marker_word(l.word_size)),
            l.next(tail),
        ).result is Ok,
    ensures
        in_effect::<I>(
            l,
            promoted::<I>(
                l,
                programmed(mem, l.data_end(tail), marker_word(l.word_size)),
                l.next(tail),
            ).mem,
            key,
        ) == in_effect::<I>(l, mem, key),
        newest_item::<I>(
            l,
            promoted::<I>(
                l,
                programmed(mem, l.data_end(tail), marker_word(l.word_size)),
                l.next(tail),
            ).mem,
            key,
        ) == if closed == l.pages - 2 && stands_in(
            l,
            newest_item::<I>(l, mem, key),
            l.next(l.next(tail)),
        ) {
            newest_in_zone::<I>(
                l.zone(
                    promoted::<I>(
                        l,
                        programmed(mem, l.data_end(tail), marker_word(l.word_size)),
                        l.next(tail),
                    ).mem,
                    l.next(tail),
                ),
                l.word_size,
                l.data_start(l.next(tail)),
                key,
                zone_start(),
                None,
            )
        } else {
            newest_item::<I>(l, mem, key)
        },
{
    let shut = programmed(mem, l.data_end(tail), marker_word(l.word_size));
    let target = l.next(tail);
    let spare = l.next(target);
    let ready = promoted::<I>(l, shut, target).mem;
    let word = l.word_size;
    lemma_closed::<I>(l, mem, tail);
    lemma_behind_next(l, tail, tail);
    lemma_behind_next(l, tail, target);
    lemma_promoted::<I>(l, shut, target);
    lemma_rotated_ring::<I>(l, mem, tail, closed);
    assert forall|q: int| l.has(q) implies #[trigger] l.zone(shut, q) == l.zone(mem, q) by {
        if q != tail {
            lemma_same_elsewhere(l, mem, shut, tail, q);
        }
    }
    assert forall|q: int| l.has(q) && q != tail implies #[trigger] l.state(shut, q) == l.state(
        mem,
        q,
    ) by {
        lemma_same_elsewhere(l, mem, shut, tail, q);
    }
    // Before and after, the search goes along the ring.
    lemma_newest_in_ring::<I>(l, mem, key, tail, closed);
    lemma_newest_in_ring::<I>(l, ready, key, target, closed_after(l, closed));
    assert(l.previous(target) == tail);
    assert(page_consistent::<I>(l, shut, target));
    assert(page_consistent::<I>(l, shut, spare));
    lemma_blank_zone::<I>(l.zone(shut, target), word);
    if closed < l.pages - 2 {
        // The spare page is blank: nothing is carried forward.
        assert(l.state(mem, spare) == Some(PageState::Open));
        assert(spare != tail);
        assert forall|q: int| l.has(q) && behind(l, tail, q) < closed + 1 implies #[trigger] l.zone(
            mem,
            q,
        ) == l.zone(ready, q) by {
            assert(q != target && q != spare);
            assert(l.state(ready, q) == l.state(shut, q));
            assert(l.zone(shut, q) == l.zone(mem, q));
        }
        lemma_among_same::<I>(l, mem, ready, key, tail, tail, closed + 1, closed + 1);
    } else {
        lemma_rotated_with_items::<I>(l, mem, tail, key);
    }
}

/// In a closed ring the search looks at the spare page last: the item in
/// effect for a key stands in the spare page exactly if the pages before it
/// hold none for the key and the spare page does.
pub proof fn lemma_spare_last<I: StorageItem>(l: Layout, shut: Seq<u8>, tail: int, key: I::Key)
    requires
        l.wf(),
        closed_ring(l, shut, tail),
        newest_in_zone::<I>(
            l.zone(shut, l.next(l.next(tail))),
            l.word_size,
            l.data_start(l.next(l.next(tail))),
            key,
            zone_start(),
            None,
        ) is Ok,
    ensures
        ({
            let spare = l.next(l.next(tail));
            let newer = newest_among::<I>(l, shut, key, tail, l.pages - 2);
            let oldest = newest_in_zone::<I>(
                l.zone(shut, spare),
                l.word_size,
                l.data_start(spare),
                key,
                zone_start(),
                None,
            );
            &&& newest_item::<I>(l, shut, key) == match newer {
                Ok(None) => oldest,
                _ => newer,
            }
            &&& stands_in(l, newest_item::<I>(l, shut, key), spare) == (newer == Ok::<
                Option<Located<I>>,
                Fault<I::Error>,
            >(None) && oldest matches Ok(Some(_)))
        }),
{
    let target = l.next(tail);
    let spare = l.next(target);
    let count = l.pages - 2;
    let word = l.word_size;
    lemma_behind_next(l, tail, tail);
    lemma_behind_next(l, tail, target);
    lemma_newest_in_closed_ring::<I>(l, shut, key, tail);
    lemma_among_split::<I>(l, shut, key, tail, count);
    lemma_back(l, tail, tail, count);
    assert(back(l, tail, count) == spare);
    lemma_among_found::<I>(l, shut, key, tail, tail, count);
    lemma_page_bounds(l, spare);
    lemma_newest_in_zone_place::<I>(
        l.zone(shut, spare),
        word,
        l.data_start(spare),
        key,
        zone_start(),
        None,
    );
    match newest_in_zone::<I>(
        l.zone(shut, spare),
        word,
        l.data_start(spare),
        key,
        zone_start(),
        None,
    ) {
        Ok(Some(found)) => {
            lemma_page_of(l, spare, found.address);
        },
        _ => {},
    }
}

/// What is in effect after the rotation, from what the target holds for the
/// key and what the pages before it hold.
proof fn lemma_after_rotation<I: StorageItem>(
    l: Layout,
    ready: Seq<u8>,
    tail: int,
    key: I::Key,
    newest: Result<Option<Located<I>>, Fault<I::Error>>,
    newer: Result<Option<Located<I>>, Fault<I::Error>>,
    oldest: Result<Option<Located<I>>, Fault<I::Error>>,
    moved: Seq<u8>,
)
    requires
        l.wf(),
        l.has(tail),
        ring(l, ready, l.next(tail), l.pages - 2),
        newest_among::<I>(l, ready, key, tail, l.pages - 2) == newer,
        l.zone(ready, l.next(tail)) == l.zone(moved, l.next(tail)),
        oldest is Ok,
        newest == match newer {
            Ok(None) => oldest,
            _ => newer,
        },
        stands_in(l, newest, l.next(l.next(tail))) == (newer == Ok::<
            Option<Located<I>>,
            Fault<I::Error>,
        >(None) && oldest matches Ok(Some(_))),
        carried::<I>(
            l,
            moved,
            l.next(tail),
            key,
            newest,
            oldest matches Ok(Some(_)),
            l.next(l.next(tail)),
        ),
    ensures
        in_effect::<I>(l, ready, key) == match newest {
            Ok(Some(found)) => Ok::<Option<I>, Fault<I::Error>>(Some(found.item)),
            Ok(None) => Ok(None),
            Err(fault) => Err(fault),
        },
        newest_item::<I>(l, ready, key) == if stands_in(l, newest, l.next(l.next(tail))) {
            newest_in_zone::<I>(
                l.zone(ready, l.next(tail)),
                l.word_size,
                l.data_start(l.next(tail)),
                key,
                zone_start(),
                None,
            )
        } else {
            newest
        },
{
    let target = l.next(tail);
    lemma_behind_next(l, tail, tail);
    lemma_newest_in_ring::<I>(l, ready, key, target, l.pages - 2);
    assert(l.previous(target) == tail);
}

/// Closing the page that items are appended to, in a ring without a blank
/// spare page: the pages form a closed ring, and what is looked up stays the
/// same.
pub proof fn lemma_shut<I: StorageItem>(l: Layout, mem: Seq<u8>, tail: int, key: I::Key)
    requires
        consistent::<I>(l, mem),
        ring(l, mem, tail, l.pages - 2),
    ensures
        ({
            let shut = programmed(mem, l.data_end(tail), marker_word(l.word_size));
            let target = l.next(tail);
            let spare = l.next(target);
            &&& consistent::<I>(l, shut)
            &&& closed_ring(l, shut, tail)
            &&& newest_item::<I>(l, shut, key) == newest_item::<I>(l, mem, key)
            &&& l.has(spare)
            &&& l.has(target)
            &&& spare != target
            &&& l.state(shut, spare) == Some(PageState::Closed)
            &&& is_erased(l.zone(shut, target), 0, l.data_len())
            &&& bounded::<I>(l.zone(shut, spare), l.word_size)
        }),
{
    let shut = programmed(mem, l.data_end(tail), marker_word(l.word_size));
    let target = l.next(tail);
    let spare = l.next(target);
    let count = l.pages - 2;
    lemma_closed::<I>(l, mem, tail);
    lemma_behind_next(l, tail, tail);
    lemma_behind_next(l, tail, target);
    assert forall|q: int| l.has(q) implies #[trigger] l.zone(shut, q) == l.zone(mem, q) by {
        if q != tail {
            lemma_same_elsewhere(l, mem, shut, tail, q);
        }
    }
    assert forall|q: int| l.has(q) && q != tail implies #[trigger] l.state(shut, q) == l.state(
        mem,
        q,
    ) by {
        lemma_same_elsewhere(l, mem, shut, tail, q);
    }
    assert(page_consistent::<I>(l, shut, target));
    assert(page_consistent::<I>(l, shut, spare));
    assert(closed_ring(l, shut, tail));
    lemma_newest_in_ring::<I>(l, mem, key, tail, count);
    lemma_newest_in_closed_ring::<I>(l, shut, key, tail);
    lemma_among_same::<I>(l, mem, shut, key, tail, tail, l.pages - 1, l.pages - 1);
}

/// After the rotation the pages between the target and the spare page hold
/// what they held.
proof fn lemma_between<I: StorageItem>(l: Layout, shut: Seq<u8>, tail: int, key: I::Key)
    requires
        lawful::<I>(),
        consistent::<I>(l, shut),
        l.has(tail),
        promoted::<I>(l, shut, l.next(tail)).result is Ok,
    ensures
        newest_among::<I>(l, promoted::<I>(l, shut, l.next(tail)).mem, key, tail, l.pages - 2)
            == newest_among::<I>(l, shut, key, tail, l.pages - 2),
{
    let target = l.next(tail);
    let spare = l.next(target);
    let ready = promoted::<I>(l, shut, target).mem;
    let count = l.pages - 2;
    lemma_behind_next(l, tail, tail);
    lemma_behind_next(l, tail, target);
    lemma_promoted::<I>(l, shut, target);
    assert forall|q: int| l.has(q) && behind(l, tail, q) < count implies #[trigger] l.zone(
        shut,
        q,
    ) == l.zone(ready, q) by {
        assert(q != target && q != spare);
        assert(l.state(ready, q) == l.state(shut, q));
    }
    lemma_among_same::<I>(l, shut, ready, key, tail, tail, count, count);
}

/// The case of `lemma_rotated` in which the spare page holds items.
proof fn lemma_rotated_with_items<I: StorageItem>(l: Layout, mem: Seq<u8>, tail: int, key: I::Key)
    requires
        lawful::<I>(),
        equivalent_keys::<I>(),
        consistent::<I>(l, mem),
        ring(l, mem, tail, l.pages - 2),
        promoted::<I>(
            l,
            programmed(mem, l.data_end(tail), marker_word(l.word_size)),
            l.next(tail),
        ).result is Ok,
    ensures
        in_effect::<I>(
            l,
            promoted::<I>(
                l,
                programmed(mem, l.data_end(tail), marker_word(l.word_size)),
                l.next(tail),
            ).mem,
            key,
        ) == in_effect::<I>(l, mem, key),
        newest_item::<I>(
            l,
            promoted::<I>(
                l,
                programmed(mem, l.data_end(tail), marker_word(l.word_size)),
                l.next(tail),
            ).mem,
            key,
        ) == if stands_in(
            l,
            newest_item::<I>(l, mem, key),
            l.next(l.next(tail)),
        ) {
            newest_in_zone::<I>(
                l.zone(
                    promoted::<I>(
                        l,
                        programmed(mem, l.data_end(tail), marker_word(l.word_size)),
                        l.next(tail),
                    ).mem,
                    l.next(tail),
                ),
                l.word_size,
                l.data_start(l.next(tail)),
                key,
                zone_start(),
                None,
            )
        } else {
            newest_item::<I>(l, mem, key)
        },
{
    let shut = programmed(mem, l.data_end(tail), marker_word(l.word_size));
    let target = l.next(tail);
    let spare = l.next(target);
    let ready = promoted::<I>(l, shut, target).mem;
    let word = l.word_size;
    let count = l.pages - 2;
    lemma_shut::<I>(l, mem, tail, key);
    lemma_promoted::<I>(l, shut, target);
    lemma_rotated_ring::<I>(l, mem, tail, count);
    lemma_blank_zone::<I>(l.zone(shut, target), word);
    let newest = newest_item::<I>(l, shut, key);
    let newer = newest_among::<I>(l, shut, key, tail, count);
    let oldest = newest_in_zone::<I>(
        l.zone(shut, spare),
        word,
        l.data_start(spare),
        key,
        zone_start(),
        None,
    );
    lemma_zone_search_succeeds::<I>(
        l.zone(shut, spare),
        word,
        l.data_start(spare),
        key,
        zone_start(),
        None,
        0,
    );
    lemma_spare_last::<I>(l, shut, tail, key);
    lemma_migrated_key::<I>(l, shut, shut, tail, spare, zone_start(), 0, key, None);
    let moved = migrated::<I>(l, shut, spare, target, zone_start(), 0).1;
    lemma_between::<I>(l, shut, tail, key);
    lemma_after_rotation::<I>(l, ready, tail, key, newest, newer, oldest, moved);
}

/// Reading a zone never reports that the storage is full.
pub proof fn lemma_zone_never_full<I: StorageItem>(
    zone: Seq<u8>,
    word: int,
    base: int,
    key: I::Key,
    at: Cursor,
    best: Option<Located<I>>,
    end: int,
)
    ensures
        newest_in_zone::<I>(zone, word, base, key, at, best) != Err::<
            Option<Located<I>>,
            Fault<I::Error>,
        >(Fault::FullStorage),
        end_of_items::<I>(zone, word, at, end) != Err::<int, Fault<I::Error>>(Fault::FullStorage),
    decreases left(zone.len() as int, at.offset),
{
    if at.used >= 0 {
        match next_record::<I>(zone, word, at) {
            Step::Item { item, offset, len, next } => {
                lemma_item_advances::<I>(zone, word, at);
                let better = if item.key_of().eq_spec(&key) {
                    Some(Located { item, address: base + offset, len })
                } else {
                    best
                };
                lemma_zone_never_full::<I>(zone, word, base, key, next, better, offset + len);
            },
            _ => {},
        }
    }
}

/// The search through the pages never reports that the storage is full.
pub proof fn lemma_search_never_full<I: StorageItem>(
    l: Layout,
    mem: Seq<u8>,
    key: I::Key,
    page: int,
    visited: int,
)
    ensures
        search_back::<I>(l, mem, key, page, visited) != Err::<
            Option<Located<I>>,
            Fault<I::Error>,
        >(Fault::FullStorage),
    decreases l.pages - visited,
{
    lemma_zone_never_full::<I>(
        l.zone(mem, page),
        l.word_size,
        l.data_start(page),
        key,
        zone_start(),
        None,
        0,
    );
    if visited < l.pages {
        lemma_search_never_full::<I>(l, mem, key, l.previous(page), visited + 1);
    }
}

/// Looking up an item never reports that the storage is full.
pub proof fn lemma_newest_never_full<I: StorageItem>(l: Layout, mem: Seq<u8>, key: I::Key)
    ensures
        newest_item::<I>(l, mem, key) != Err::<Option<Located<I>>, Fault<I::Error>>(
            Fault::FullStorage,
        ),
{
    match last_used_page(l, mem) {
        Ok(Some(tail)) => {
            lemma_search_never_full::<I>(l, mem, key, tail, 1);
        },
        _ => {},
    }
}

/// Carrying items forward never reports that the storage is full.
pub proof fn lemma_migrated_never_full<I: StorageItem>(
    l: Layout,
    mem: Seq<u8>,
    from: int,
    to: int,
    at: Cursor,
    write_at: int,
)
    ensures
        migrated::<I>(l, mem, from, to, at, write_at).0 != Err::<(), Fault<I::Error>>(
            Fault::FullStorage,
        ),
    decreases left(l.zone(mem, from).len() as int, at.offset),
{
    if at.used >= 0 {
        match next_record::<I>(l.zone(mem, from), l.word_size, at) {
            Step::Item { item, offset, len, next } => {
                lemma_item_advances::<I>(l.zone(mem, from), l.word_size, at);
                lemma_newest_never_full::<I>(l, mem, item.key_of());
                match newest_item::<I>(l, mem, item.key_of()) {
                    Ok(Some(newest)) => {
                        if l.page_of(newest.address) == from {
                            if write_at + newest.len <= l.data_len() {
                                lemma_migrated_never_full::<I>(
                                    l,
                                    programmed(
                                        mem,
                                        l.data_start(to) + write_at,
                                        mem.subrange(newest.address, newest.address + newest.len),
                                    ),
                                    from,
                                    to,
                                    next,
                                    write_at + newest.len,
                                );
                            }
                        } else {
                            lemma_migrated_never_full::<I>(l, mem, from, to, next, write_at);
                        }
                    },
                    _ => {},
                }
            },
            _ => {},
        }
    }
}

/// The storage is reported as full only when every page has had its turn:
/// neither appending an item nor making a page ready reports it.
pub proof fn lemma_steps_never_full<I: StorageItem>(l: Layout, mem: Seq<u8>, item: I, page: int)
    ensures
        appended::<I>(l, mem, item, page) matches Some(outcome) ==> outcome.result != Err::<
            (),
            Fault<I::Error>,
        >(Fault::FullStorage),
        promoted::<I>(l, mem, page).result != Err::<(), Fault<I::Error>>(Fault::FullStorage),
{
    lemma_zone_never_full::<I>(
        l.zone(mem, page),
        l.word_size,
        0,
        item.key_of(),
        zone_start(),
        None,
        0,
    );
    lemma_migrated_never_full::<I>(l, mem, l.next(page), page, zone_start(), 0);
}

/// The region is consistent and its pages are all blank or form a ring: the
/// state of a region in regular use.
pub open spec fn orderly<I: StorageItem>(l: Layout, mem: Seq<u8>) -> bool {
    consistent::<I>(l, mem) && shaped(l, mem)
}

/// An erased region is in regular use, and nothing is stored in it.
pub proof fn lemma_erased_is_orderly<I: StorageItem>(l: Layout, mem: Seq<u8>, key: I::Key)
    requires
        l.wf(),
        l.page_size % l.word_size == 0,
        l.start + l.pages * l.page_size <= mem.len(),
        is_erased(mem, l.start, l.pages * l.page_size),
    ensures
        orderly::<I>(l, mem),
        in_effect::<I>(l, mem, key) == Ok::<Option<I>, Fault<I::Error>>(None),
{
    lemma_erased_is_consistent::<I>(l, mem);
    lemma_newest_all_open::<I>(l, mem, key);
}

/// In a region in regular use, items are appended to one page at most, and at
/// least one page is blank.
pub proof fn lemma_orderly_pages<I: StorageItem>(l: Layout, mem: Seq<u8>)
    requires
        orderly::<I>(l, mem),
    ensures
        forall|p: int, q: int|
            l.has(p) && l.has(q) && #[trigger] l.state(mem, p) == Some(PageState::PartialOpen)
                && #[trigger] l.state(mem, q) == Some(PageState::PartialOpen) ==> p == q,
        exists|q: int| l.has(q) && #[trigger] l.state(mem, q) == Some(PageState::Open),
{
    if all_open(l, mem) {
        assert(l.has(0) && l.state(mem, 0) == Some(PageState::Open));
    } else {
        let (tail, closed) = choose|tail: int, closed: int| #[trigger] ring(l, mem, tail, closed);
        lemma_behind_next(l, tail, tail);
        assert(l.state(mem, l.next(tail)) == Some(PageState::Open));
        assert forall|p: int, q: int|
            l.has(p) && l.has(q) && #[trigger] l.state(mem, p) == Some(PageState::PartialOpen)
                && #[trigger] l.state(mem, q) == Some(PageState::PartialOpen) implies p == q by {
            lemma_behind_previous(l, tail, p);
            lemma_behind_previous(l, tail, q);
        }
    }
}

/// A ring stays a ring where no page changes its state.
pub proof fn lemma_ring_same_states(l: Layout, a: Seq<u8>, b: Seq<u8>, tail: int, closed: int)
    requires
        ring(l, a, tail, closed),
        same_states(l, a, b),
    ensures
        ring(l, b, tail, closed),
{
    assert forall|q: int|
        l.has(q) && 1 <= behind(l, tail, q) <= closed implies #[trigger] l.state(b, q) == Some(
        PageState::Closed,
    ) by {
        assert(l.state(a, q) == l.state(b, q));
    }
    assert forall|q: int| l.has(q) && closed < behind(l, tail, q) implies #[trigger] l.state(b, q)
        == Some(PageState::Open) by {
        assert(l.state(a, q) == l.state(b, q));
    }
    assert(l.state(a, tail) == l.state(b, tail));
}

/// The first item goes to the first page: where all pages are blank, writing
/// the first marker of the first page makes a ring, in which nothing is
/// stored yet.
pub proof fn lemma_first_page<I: StorageItem>(l: Layout, mem: Seq<u8>, key: I::Key)
    requires
        consistent::<I>(l, mem),
        all_open(l, mem),
    ensures
        consistent::<I>(l, programmed(mem, l.page_start(0), marker_word(l.word_size))),
        ring(l, programmed(mem, l.page_start(0), marker_word(l.word_size)), 0, 0),
        in_effect::<I>(l, programmed(mem, l.page_start(0), marker_word(l.word_size)), key)
            == in_effect::<I>(l, mem, key),
{
    let marked = programmed(mem, l.page_start(0), marker_word(l.word_size));
    assert(l.has(0));
    assert(page_consistent::<I>(l, mem, 0));
    lemma_blank_zone::<I>(l.zone(mem, 0), l.word_size);
    lemma_mark_first::<I>(l, mem, 0);
    assert forall|q: int| l.has(q) && 0 < behind(l, 0, q) implies #[trigger] l.state(marked, q)
        == Some(PageState::Open) by {
        lemma_same_elsewhere(l, mem, marked, 0, q);
        assert(l.state(mem, q) == Some(PageState::Open));
    }
    lemma_newest_all_open::<I>(l, mem, key);
    lemma_newest_in_ring::<I>(l, marked, key, 0, 0);
    assert(newest_among::<I>(l, marked, key, l.previous(0), 0) == Ok::<
        Option<Located<I>>,
        Fault<I::Error>,
    >(None));
}

/// Storing an item in a region in regular use, with a well-behaved codec and
/// keys whose equality is an equivalence: whether the item is stored or the
/// storage is found full, the region stays in regular use; a key that is not
/// equal to the key of the item keeps the item that is in effect for it; and
/// where the storage is found full, every key does.
pub proof fn lemma_store_keeps_others<I: StorageItem>(
    l: Layout,
    mem: Seq<u8>,
    item: I,
    level: int,
    key: I::Key,
)
    requires
        lawful::<I>(),
        equivalent_keys::<I>(),
        orderly::<I>(l, mem),
        0 <= level,
        store_from::<I>(l, mem, item, level).result is Ok || store_from::<I>(
            l,
            mem,
            item,
            level,
        ).result == Err::<(), Fault<I::Error>>(Fault::FullStorage),
    ensures
        orderly::<I>(l, store_from::<I>(l, mem, item, level).mem),
        !item.key_of().eq_spec(&key) || store_from::<I>(l, mem, item, level).result is Err
            ==> in_effect::<I>(l, store_from::<I>(l, mem, item, level).mem, key) == in_effect::<I>(
            l,
            mem,
            key,
        ),
    decreases l.pages - level,
{
    if level < l.pages {
        if all_open(l, mem) {
            lemma_newest_all_open::<I>(l, mem, key);
            lemma_first_page::<I>(l, mem, key);
            let marked = programmed(mem, l.page_start(0), marker_word(l.word_size));
            assert(ring(l, marked, 0, 0));
            lemma_store_keeps_others::<I>(l, marked, item, level + 1, key);
        } else {
            let (tail, closed) = choose|tail: int, closed: int| #[trigger]
                ring(l, mem, tail, closed);
            lemma_newest_in_ring::<I>(l, mem, key, tail, closed);
            lemma_steps_never_full::<I>(l, mem, item, tail);
            match appended::<I>(l, mem, item, tail) {
                Some(outcome) => {
                    lemma_appended::<I>(l, mem, item, tail);
                    lemma_ring_same_states(l, mem, outcome.mem, tail, closed);
                },
                None => {
                    let shut = programmed(mem, l.data_end(tail), marker_word(l.word_size));
                    lemma_steps_never_full::<I>(l, shut, item, l.next(tail));
                    lemma_rotated_ring::<I>(l, mem, tail, closed);
                    lemma_rotated::<I>(l, mem, tail, closed, key);
                    let ready = promoted::<I>(l, shut, l.next(tail)).mem;
                    assert(ring(l, ready, l.next(tail), closed_after(l, closed)));
                    lemma_store_keeps_others::<I>(l, ready, item, level + 1, key);
                },
            }
        }
    }
}

/// The item with a key equal to `key` that comes last in `items`, if there
/// is one.
pub open spec fn last_with_key<I: StorageItem>(items: Seq<I>, key: I::Key) -> Option<I>
    decreases items.len(),
{
    if items.len() == 0 {
        None
    } else if items.last().key_of().eq_spec(&key) {
        Some(items.last())
    } else {
        last_with_key(items.drop_last(), key)
    }
}

/// The store is a map: after any number of items have been stored in a
/// region in regular use, with a well-behaved codec and keys whose equality
/// is an equivalence, the item in effect for a key is the last of them with
/// a key equal to it, or where there is none among them, the item that was in
/// effect before.
pub proof fn lemma_store_is_a_map<I: StorageItem>(
    l: Layout,
    mem: Seq<u8>,
    items: Seq<I>,
    key: I::Key,
)
    requires
        lawful::<I>(),
        equivalent_keys::<I>(),
        orderly::<I>(l, mem),
        stored_all(l, mem, items) is Some,
    ensures
        orderly::<I>(l, stored_all(l, mem, items)->0),
        in_effect::<I>(l, stored_all(l, mem, items)->0, key) == match last_with_key(items, key) {
            Some(item) => Ok(Some(item)),
            None => in_effect::<I>(l, mem, key),
        },
    decreases items.len(),
{
    if items.len() > 0 {
        let so_far = stored_all(l, mem, items.drop_last())->0;
        lemma_store_is_a_map(l, mem, items.drop_last(), key);
        lemma_store_keeps_others::<I>(l, so_far, items.last(), 0, key);
        lemma_stored::<I>(l, so_far, items.last(), 0);
    }
}

/// The number of bytes that the items of a page take.
pub open spec fn page_load<I: StorageItem>(l: Layout, mem: Seq<u8>, page: int) -> int {
    match end_of_items::<I>(l.zone(mem, page), l.word_size, zone_start(), 0) {
        Ok(end) => end,
        Err(_) => 0,
    }
}

/// The number of bytes that the items of the first `pages` pages take.
pub open spec fn load<I: StorageItem>(l: Layout, mem: Seq<u8>, pages: int) -> int
    decreases pages,
{
    if pages <= 0 {
        0
    } else {
        load::<I>(l, mem, pages - 1) + page_load::<I>(l, mem, pages - 1)
    }
}

/// In a region in regular use the items of every page end within the page.
proof fn lemma_page_load<I: StorageItem>(l: Layout, mem: Seq<u8>, page: int)
    requires
        orderly::<I>(l, mem),
        l.has(page),
    ensures
        end_of_items::<I>(l.zone(mem, page), l.word_size, zone_start(), 0) is Ok,
        0 <= page_load::<I>(l, mem, page) <= l.data_len(),
        l.state(mem, page) == Some(PageState::Open) ==> page_load::<I>(l, mem, page) == 0,
{
    assert(page_consistent::<I>(l, mem, page));
    assert(l.state(mem, page) is Some) by {
        if !all_open(l, mem) {
            let (tail, closed) = choose|tail: int, closed: int| #[trigger]
                ring(l, mem, tail, closed);
            lemma_behind_previous(l, tail, page);
        }
    }
    lemma_end_not_before::<I>(l.zone(mem, page), l.word_size, zone_start());
    if l.state(mem, page) == Some(PageState::Open) {
        lemma_blank_zone::<I>(l.zone(mem, page), l.word_size);
    }
}

/// The items of the first `pages` pages take no more than these pages hold,
/// and less by a page where a blank page is among them.
proof fn lemma_load<I: StorageItem>(l: Layout, mem: Seq<u8>, pages: int, blank: int)
    requires
        orderly::<I>(l, mem),
        0 <= pages <= l.pages,
        l.has(blank),
        l.state(mem, blank) == Some(PageState::Open),
    ensures
        0 <= load::<I>(l, mem, pages),
        load::<I>(l, mem, pages) <= if blank < pages {
            (pages - 1) * l.data_len()
        } else {
            pages * l.data_len()
        },
    decreases pages,
{
    if pages > 0 {
        let page = pages - 1;
        lemma_load::<I>(l, mem, page, blank);
        lemma_page_load::<I>(l, mem, page);
        assert(0 <= page_load::<I>(l, mem, page) <= l.data_len());
        assert(page == blank ==> page_load::<I>(l, mem, page) == 0);
        assert((page - 1) * l.data_len() + l.data_len() == (pages - 1) * l.data_len())
            by (nonlinear_arith)
            requires
                page == pages - 1,
        ;
        assert(page * l.data_len() + l.data_len() == pages * l.data_len()) by (nonlinear_arith)
            requires
                page == pages - 1,
        ;
    }
}

/// The capacity of a region in regular use: one page is always blank, so the
/// items on the flash never take more than what all pages but one hold.
pub proof fn lemma_capacity<I: StorageItem>(l: Layout, mem: Seq<u8>)
    requires
        orderly::<I>(l, mem),
    ensures
        0 <= load::<I>(l, mem, l.pages) <= (l.pages - 1) * l.data_len(),
{
    lemma_orderly_pages::<I>(l, mem);
    let blank = choose|q: int| l.has(q) && #[trigger] l.state(mem, q) == Some(PageState::Open);
    lemma_load::<I>(l, mem, l.pages, blank);
}

/// The item in effect for a key is among the items that its page is loaded
/// with: it stands in the data zone of a page, and ends where the items of
/// that page end, or before.
pub proof fn lemma_in_effect_is_loaded<I: StorageItem>(l: Layout, mem: Seq<u8>, key: I::Key)
    requires
        orderly::<I>(l, mem),
    ensures
        newest_item::<I>(l, mem, key) matches Ok(Some(found)) ==> {
            let page = l.page_of(found.address);
            &&& l.has(page)
            &&& l.data_start(page) <= found.address
            &&& found.address + found.len <= l.data_start(page) + page_load::<I>(l, mem, page)
            &&& page_load::<I>(l, mem, page) <= l.data_len()
        },
{
    match newest_item::<I>(l, mem, key) {
        Ok(Some(found)) => {
            lemma_newest_found::<I>(l, mem, key);
            let q = choose|q: int| #[trigger] newest_of_page::<I>(l, mem, key, q, found);
            lemma_page_bounds(l, q);
            lemma_newest_in_zone_place::<I>(
                l.zone(mem, q),
                l.word_size,
                l.data_start(q),
                key,
                zone_start(),
                None,
            );
            lemma_page_of(l, q, found.address);
            lemma_page_load::<I>(l, mem, q);
            lemma_newest_before_end::<I>(
                l.zone(mem, q),
                l.word_size,
                l.data_start(q),
                key,
                zone_start(),
                None,
            );
        },
        _ => {},
    }
}

/// The memory `after` holds what `before` holds, but for the data zone of
/// the page `to` from the offset `from` on.
pub open spec fn same_below(
    l: Layout,
    before: Seq<u8>,
    after: Seq<u8>,
    to: int,
    from: int,
) -> bool {
    &&& before.len() == after.len()
    &&& same_in(before, after, 0, l.data_start(to) + from)
    &&& same_in(before, after, l.data_end(to), before.len() as int)
}

/// Writing bytes over themselves changes nothing.
proof fn lemma_written_again(mem: Seq<u8>, at: int, data: Seq<u8>)
    requires
        0 <= at,
        at + data.len() <= mem.len(),
        forall|i: int| 0 <= i < data.len() ==> #[trigger] mem[at + i] == data[i],
    ensures
        programmed(mem, at, data) == mem,
{
    let after = programmed(mem, at, data);
    assert forall|i: int| 0 <= i < mem.len() implies after[i] == mem[i] by {
        if at <= i < at + data.len() {
            let byte = data[i - at];
            assert(mem[at + (i - at)] == byte);
            assert(byte & byte == byte) by (bit_vector);
        }
    }
    assert(after =~= mem);
}

/// Carrying items forward again changes nothing: where the items of a page
/// have been carried forward as far as that went, doing the same once more on
/// what that left comes to the same end and leaves every byte as it is.
pub proof fn lemma_replay<I: StorageItem>(
    l: Layout,
    mem: Seq<u8>,
    tail: int,
    from: int,
    at: Cursor,
    write_at: int,
)
    requires
        lawful::<I>(),
        l.wf(),
        l.start + l.pages * l.page_size <= mem.len(),
        closed_ring(l, mem, tail),
        l.has(from),
        from != l.next(tail),
        0 <= at.used,
        0 <= at.offset,
        0 <= write_at <= l.data_len(),
        bounded::<I>(l.zone(mem, from), l.word_size),
        is_erased(l.zone(mem, l.next(tail)), write_at, l.data_len() - write_at),
    ensures
        ({
            let to = l.next(tail);
            let (end, left_mem) = migrated::<I>(l, mem, from, to, at, write_at);
            &&& migrated::<I>(l, left_mem, from, to, at, write_at) == (end, left_mem)
            &&& same_below(l, mem, left_mem, to, write_at)
            &&& l.state(left_mem, to) == l.state(mem, to)
        }),
    decreases left(l.zone(mem, from).len() as int, at.offset),
{
    let to = l.next(tail);
    let word = l.word_size;
    let source = l.zone(mem, from);
    let (end, left_mem) = migrated::<I>(l, mem, from, to, at, write_at);
    lemma_behind_next(l, tail, tail);
    lemma_page_bounds(l, from);
    lemma_page_bounds(l, to);
    lemma_state_same(l, mem, mem, to);
    match next_record::<I>(source, word, at) {
        Step::Item { item, offset, len, next } => {
            lemma_item_advances::<I>(source, word, at);
            lemma_next_used::<I>(source, word, at);
            let key = item.key_of();
            match newest_item::<I>(l, mem, key) {
                Ok(Some(newest)) => {
                    if l.page_of(newest.address) == from {
                        if write_at + newest.len <= l.data_len() {
                            let copy = mem.subrange(newest.address, newest.address + newest.len);
                            let next_mem = programmed(mem, l.data_start(to) + write_at, copy);
                            lemma_newest_copy::<I>(l, mem, key, from);
                            lemma_copy_extends(l, mem, to, write_at, copy);
                            lemma_write_in_zone(l, mem, to, write_at, copy);
                            lemma_same_elsewhere(l, mem, next_mem, to, from);
                            lemma_lookup_steady::<I>(l, mem, next_mem, tail, key);
                            lemma_replay::<I>(l, next_mem, tail, from, next, write_at + newest.len);
                            assert(same_below(l, mem, next_mem, to, write_at));
                            lemma_replay_step::<I>(
                                l,
                                mem,
                                next_mem,
                                left_mem,
                                tail,
                                from,
                                key,
                                write_at,
                            );
                            assert(l.zone(left_mem, from) == source);
                        }
                    } else {
                        lemma_replay::<I>(l, mem, tail, from, next, write_at);
                        let (end2, left2) = migrated::<I>(l, mem, from, to, next, write_at);
                        assert(same_elsewhere(l, mem, left2, to));
                        lemma_same_elsewhere(l, mem, left2, to, from);
                        lemma_lookup_steady::<I>(l, mem, left2, tail, key);
                    }
                },
                _ => {},
            }
        },
        _ => {},
    }
}

/// What is written over erased bytes stands there, and still does where
/// nothing before its end has changed since.
proof fn lemma_copy_stands(
    mem: Seq<u8>,
    next_mem: Seq<u8>,
    left_mem: Seq<u8>,
    at: int,
    copy: Seq<u8>,
)
    requires
        0 <= at,
        at + copy.len() <= mem.len(),
        mem.len() == left_mem.len(),
        is_erased(mem, at, copy.len() as int),
        next_mem == programmed(mem, at, copy),
        same_in(next_mem, left_mem, 0, at + copy.len()),
    ensures
        forall|i: int| 0 <= i < copy.len() ==> #[trigger] left_mem[at + i] == copy[i],
{
    assert forall|i: int| 0 <= i < copy.len() implies #[trigger] left_mem[at + i] == copy[i] by {
        let byte = copy[i];
        assert(mem[at + i] == 0xFFu8);
        assert(0xFFu8 & byte == byte) by (bit_vector);
        assert(next_mem[at + i] == byte);
    }
}

/// Where the data zone of a page is erased from an offset on, the memory is.
proof fn lemma_zone_erased(l: Layout, mem: Seq<u8>, page: int, from: int, len: int)
    requires
        l.wf(),
        l.has(page),
        0 <= from,
        0 <= len,
        from + len <= l.data_len(),
        is_erased(l.zone(mem, page), from, l.data_len() - from),
    ensures
        is_erased(mem, l.data_start(page) + from, len),
{
    assert forall|i: int|
        l.data_start(page) + from <= i < l.data_start(page) + from + len implies #[trigger] mem[i]
        == 0xFFu8 by {
        assert(l.zone(mem, page)[i - l.data_start(page)] == 0xFFu8);
    }
}

/// Two changes that leave the memory as it is outside the data zone of a
/// page, the second one from a later offset on, do so together.
proof fn lemma_same_below_twice(
    l: Layout,
    a: Seq<u8>,
    b: Seq<u8>,
    c: Seq<u8>,
    to: int,
    from: int,
    later: int,
)
    requires
        from <= later,
        same_below(l, a, b, to, from),
        same_below(l, b, c, to, later),
    ensures
        same_below(l, a, c, to, from),
{
}

/// The bytes of a range that two memories both hold the same are the same.
proof fn lemma_same_range(a: Seq<u8>, b: Seq<u8>, from: int, to: int)
    requires
        0 <= from <= to <= a.len(),
        a.len() == b.len(),
        same_in(a, b, from, to),
    ensures
        a.subrange(from, to) == b.subrange(from, to),
{
    assert(a.subrange(from, to) =~= b.subrange(from, to));
}

/// One step of `lemma_replay`: what was copied at this step still stands
/// where it was put, so that copying it again changes nothing, and what is
/// looked up is the same as at the first time.
proof fn lemma_replay_step<I: StorageItem>(
    l: Layout,
    mem: Seq<u8>,
    next_mem: Seq<u8>,
    left_mem: Seq<u8>,
    tail: int,
    from: int,
    key: I::Key,
    write_at: int,
)
    requires
        lawful::<I>(),
        l.wf(),
        l.start + l.pages * l.page_size <= mem.len(),
        closed_ring(l, mem, tail),
        l.has(from),
        from != l.next(tail),
        0 <= write_at <= l.data_len(),
        bounded::<I>(l.zone(mem, from), l.word_size),
        is_erased(l.zone(mem, l.next(tail)), write_at, l.data_len() - write_at),
        newest_item::<I>(l, mem, key) matches Ok(Some(newest)) && l.page_of(newest.address)
            == from && write_at + newest.len <= l.data_len() && next_mem == programmed(
            mem,
            l.data_start(l.next(tail)) + write_at,
            mem.subrange(newest.address, newest.address + newest.len),
        ) && same_below(l, next_mem, left_mem, l.next(tail), write_at + newest.len),
        same_below(l, mem, next_mem, l.next(tail), write_at),
        l.state(next_mem, l.next(tail)) == l.state(mem, l.next(tail)),
        l.state(left_mem, l.next(tail)) == l.state(next_mem, l.next(tail)),
    ensures
        ({
            let newest = newest_item::<I>(l, mem, key)->Ok_0->0;
            &&& newest_item::<I>(l, left_mem, key) == newest_item::<I>(l, mem, key)
            &&& l.zone(left_mem, from) == l.zone(mem, from)
            &&& programmed(
                left_mem,
                l.data_start(l.next(tail)) + write_at,
                left_mem.subrange(newest.address, newest.address + newest.len),
            ) == left_mem
            &&& same_below(l, mem, left_mem, l.next(tail), write_at)
            &&& l.state(left_mem, l.next(tail)) == l.state(mem, l.next(tail))
        }),
{
    let to = l.next(tail);
    let newest = newest_item::<I>(l, mem, key)->Ok_0->0;
    let copy = mem.subrange(newest.address, newest.address + newest.len);
    let at = l.data_start(to) + write_at;
    lemma_behind_next(l, tail, tail);
    lemma_page_bounds(l, from);
    lemma_page_bounds(l, to);
    lemma_newest_copy::<I>(l, mem, key, from);
    lemma_same_below_twice(l, mem, next_mem, left_mem, to, write_at, write_at + newest.len);
    lemma_below_is_elsewhere(l, mem, left_mem, to, write_at);
    lemma_same_elsewhere(l, mem, left_mem, to, from);
    lemma_lookup_steady::<I>(l, mem, left_mem, tail, key);
    lemma_source_same(l, mem, left_mem, to, from, newest.address, newest.len);
    lemma_zone_erased(l, mem, to, write_at, newest.len);
    lemma_copy_stands(mem, next_mem, left_mem, at, copy);
    lemma_written_again(left_mem, at, copy);
}

/// What is left as it is below an offset of the data zone of a page is left
/// as it is outside that page.
proof fn lemma_below_is_elsewhere(l: Layout, a: Seq<u8>, b: Seq<u8>, to: int, from: int)
    requires
        l.wf(),
        l.has(to),
        0 <= from,
        same_below(l, a, b, to, from),
    ensures
        same_elsewhere(l, a, b, to),
{
    lemma_page_bounds(l, to);
}

/// A range of bytes in one page reads the same in two memories that differ
/// in another page only.
proof fn lemma_source_same(
    l: Layout,
    a: Seq<u8>,
    b: Seq<u8>,
    to: int,
    from: int,
    address: int,
    len: int,
)
    requires
        l.wf(),
        l.has(to),
        l.has(from),
        from != to,
        same_elsewhere(l, a, b, to),
        0 <= len,
        l.data_start(from) <= address,
        address + len <= l.data_end(from),
        address + len <= a.len(),
    ensures
        a.subrange(address, address + len) == b.subrange(address, address + len),
{
    lemma_page_bounds(l, from);
    lemma_page_bounds(l, to);
    if from < to {
        lemma_pages_apart(l, from, to);
    } else {
        lemma_pages_apart(l, to, from);
    }
    assert(same_in(a, b, address, address + len));
    lemma_same_range(a, b, address, address + len);
}

/// The region `mem` is what is left where, after the page `tail` was closed
/// in the consistent region `shut`, carrying the items of the spare page
/// forward was broken off.
pub open spec fn broken_off<I: StorageItem>(
    l: Layout,
    shut: Seq<u8>,
    tail: int,
    mem: Seq<u8>,
) -> bool {
    &&& consistent::<I>(l, shut)
    &&& closed_ring(l, shut, tail)
    &&& migrated::<I>(l, shut, l.next(l.next(tail)), l.next(tail), zone_start(), 0).0 is Err
    &&& mem == migrated::<I>(l, shut, l.next(l.next(tail)), l.next(tail), zone_start(), 0).1
}

/// No page is in use, because a store closed its page and then could not
/// carry the items of the spare page forward: the page that was to take over
/// is blank by its markers and holds what was carried forward until then.
pub open spec fn stalled<I: StorageItem>(l: Layout, mem: Seq<u8>) -> bool {
    exists|shut: Seq<u8>, tail: int| #[trigger] broken_off::<I>(l, shut, tail, mem)
}

/// The region is in regular use or stalled: what an erased region comes to by
/// storing, as long as no fault of the flash driver and no loss of power comes
/// between.
pub open spec fn reached<I: StorageItem>(l: Layout, mem: Seq<u8>) -> bool {
    orderly::<I>(l, mem) || stalled::<I>(l, mem)
}

/// A stalled region stays as it is: every store carries the same items forward
/// again, over what the blank page holds of them, is broken off where the
/// first one was, and changes no byte. Nothing is stored without a spare page.
pub proof fn lemma_stalled_stays<I: StorageItem>(l: Layout, mem: Seq<u8>, item: I, level: int)
    requires
        lawful::<I>(),
        stalled::<I>(l, mem),
        0 <= level,
    ensures
        store_from::<I>(l, mem, item, level).result is Err,
        store_from::<I>(l, mem, item, level).mem == mem,
        !store_from::<I>(l, mem, item, level).erased,
{
    let (shut, tail) = choose|shut: Seq<u8>, tail: int| #[trigger]
        broken_off::<I>(l, shut, tail, mem);
    let target = l.next(tail);
    let spare = l.next(target);
    lemma_behind_next(l, tail, tail);
    lemma_behind_next(l, tail, target);
    assert(l.state(shut, target) == Some(PageState::Open));
    assert(l.state(shut, spare) == Some(PageState::Closed));
    assert(page_consistent::<I>(l, shut, target));
    assert(page_consistent::<I>(l, shut, spare));
    lemma_replay::<I>(l, shut, tail, spare, zone_start(), 0);
    lemma_below_is_elsewhere(l, shut, mem, target, 0);
    lemma_lookup_steady::<I>(l, shut, mem, tail, item.key_of());
    lemma_newest_in_closed_ring::<I>(l, mem, item.key_of(), tail);
    lemma_same_elsewhere(l, shut, mem, target, spare);
}

/// Storing in a region in regular use, whatever comes of it: the region stays
/// in regular use, or it stalls. Where the item is stored, the region is
/// consistent and its pages form a ring, and the item stands in the page of
/// the ring that items are appended to.
proof fn lemma_store_from_orderly<I: StorageItem>(l: Layout, mem: Seq<u8>, item: I, level: int)
    requires
        lawful::<I>(),
        equivalent_keys::<I>(),
        orderly::<I>(l, mem),
        0 <= level,
    ensures
        reached::<I>(l, store_from::<I>(l, mem, item, level).mem),
        store_from::<I>(l, mem, item, level).result is Ok ==> stored_in_ring::<I>(
            l,
            store_from::<I>(l, mem, item, level).mem,
            item,
        ),
    decreases l.pages - level,
{
    let key = item.key_of();
    if level < l.pages {
        if all_open(l, mem) {
            lemma_newest_all_open::<I>(l, mem, key);
            lemma_first_page::<I>(l, mem, key);
            let marked = programmed(mem, l.page_start(0), marker_word(l.word_size));
            assert(l.has(l.next(0)));
            assert(promoted::<I>(l, mem, 0).mem == marked);
            lemma_store_from_orderly::<I>(l, marked, item, level + 1);
        } else {
            let (tail, closed) = choose|tail: int, closed: int| #[trigger]
                ring(l, mem, tail, closed);
            lemma_newest_in_ring::<I>(l, mem, key, tail, closed);
            match appended::<I>(l, mem, item, tail) {
                Some(outcome) => {
                    if outcome.result is Ok {
                        lemma_appended::<I>(l, mem, item, tail);
                        lemma_ring_same_states(l, mem, outcome.mem, tail, closed);
                        assert(key.eq_spec(&key));
                        assert(in_ring::<I>(l, outcome.mem, item, tail, closed));
                    }
                },
                None => {
                    let shut = programmed(mem, l.data_end(tail), marker_word(l.word_size));
                    let ready = promoted::<I>(l, shut, l.next(tail));
                    if ready.result is Ok {
                        lemma_rotated_ring::<I>(l, mem, tail, closed);
                        assert(ring(l, ready.mem, l.next(tail), closed_after(l, closed)));
                        lemma_store_from_orderly::<I>(l, ready.mem, item, level + 1);
                    } else {
                        lemma_stalls::<I>(l, mem, tail, closed, key);
                    }
                },
            }
        }
    }
}

/// The pages form the ring with the page `tail` in use, and `item` is the
/// item in effect for its key and stands in that page.
pub open spec fn in_ring<I: StorageItem>(
    l: Layout,
    mem: Seq<u8>,
    item: I,
    tail: int,
    closed: int,
) -> bool {
    &&& ring(l, mem, tail, closed)
    &&& newest_item::<I>(l, mem, item.key_of()) matches Ok(Some(found)) && found.item == item
        && l.page_of(found.address) == tail
}

/// The region is consistent, its pages form a ring, and `item` is the item
/// in effect for its key and stands in the page that items are appended to.
pub open spec fn stored_in_ring<I: StorageItem>(l: Layout, mem: Seq<u8>, item: I) -> bool {
    &&& consistent::<I>(l, mem)
    &&& exists|tail: int, closed: int| #[trigger] in_ring::<I>(l, mem, item, tail, closed)
}

/// Where making the next page ready fails after the page in use has been
/// closed, the region stalls.
proof fn lemma_stalls<I: StorageItem>(
    l: Layout,
    mem: Seq<u8>,
    tail: int,
    closed: int,
    key: I::Key,
)
    requires
        consistent::<I>(l, mem),
        ring(l, mem, tail, closed),
        promoted::<I>(
            l,
            programmed(mem, l.data_end(tail), marker_word(l.word_size)),
            l.next(tail),
        ).result is Err,
    ensures
        stalled::<I>(
            l,
            promoted::<I>(
                l,
                programmed(mem, l.data_end(tail), marker_word(l.word_size)),
                l.next(tail),
            ).mem,
        ),
{
    let shut = programmed(mem, l.data_end(tail), marker_word(l.word_size));
    let target = l.next(tail);
    let spare = l.next(target);
    lemma_closed::<I>(l, mem, tail);
    lemma_behind_next(l, tail, tail);
    lemma_behind_next(l, tail, target);
    lemma_same_elsewhere(l, mem, shut, tail, target);
    assert(l.state(mem, target) == Some(PageState::Open));
    if spare != tail {
        lemma_same_elsewhere(l, mem, shut, tail, spare);
    }
    assert(closed == l.pages - 2) by {
        if closed < l.pages - 2 {
            assert(l.state(mem, spare) == Some(PageState::Open));
        }
    }
    lemma_shut::<I>(l, mem, tail, key);
    let left_mem = promoted::<I>(l, shut, target).mem;
    assert(broken_off::<I>(l, shut, tail, left_mem));
}

/// Storing keeps what an erased region comes to by storing: a region that is
/// in regular use or stalled is so afterwards, whatever comes of the store.
/// Where the item is stored, the region is in regular use: it is consistent,
/// its pages form a ring, so that a blank page lies behind the page in use,
/// and the item stands in the page in use.
pub proof fn lemma_store_reached<I: StorageItem>(l: Layout, mem: Seq<u8>, item: I)
    requires
        lawful::<I>(),
        equivalent_keys::<I>(),
        reached::<I>(l, mem),
    ensures
        reached::<I>(l, store_from::<I>(l, mem, item, 0).mem),
        store_from::<I>(l, mem, item, 0).result is Ok ==> {
            &&& orderly::<I>(l, store_from::<I>(l, mem, item, 0).mem)
            &&& stored_in_ring::<I>(l, store_from::<I>(l, mem, item, 0).mem, item)
        },
{
    if stalled::<I>(l, mem) {
        lemma_stalled_stays::<I>(l, mem, item, 0);
    } else {
        lemma_store_from_orderly::<I>(l, mem, item, 0);
        let after = store_from::<I>(l, mem, item, 0).mem;
        if store_from::<I>(l, mem, item, 0).result is Ok {
            let (tail, closed) = choose|tail: int, closed: int| #[trigger]
                in_ring::<I>(l, after, item, tail, closed);
            assert(ring(l, after, tail, closed));
        }
    }
}

/// A store that succeeds leaves a blank page: where an item has been stored in
/// a region that an erased region has come to by storing, items are appended
/// to exactly one page, the page behind it on the ring is blank, every other
/// page is blank or closed, and the item is in effect for its key and stands
/// in the data zone of the page that items are appended to.
pub proof fn lemma_store_leaves_blank_page<I: StorageItem>(l: Layout, mem: Seq<u8>, item: I)
    requires
        lawful::<I>(),
        equivalent_keys::<I>(),
        reached::<I>(l, mem),
        store_from::<I>(l, mem, item, 0).result is Ok,
    ensures
        ({
            let after = store_from::<I>(l, mem, item, 0).mem;
            exists|tail: int|
                {
                    &&& l.has(tail)
                    &&& #[trigger] l.state(after, tail) == Some(PageState::PartialOpen)
                    &&& l.state(after, l.next(tail)) == Some(PageState::Open)
                    &&& forall|q: int|
                        l.has(q) && q != tail ==> #[trigger] l.state(after, q) == Some(
                            PageState::Open,
                        ) || l.state(after, q) == Some(PageState::Closed)
                    &&& newest_item::<I>(l, after, item.key_of()) matches Ok(Some(found))
                        && found.item == item && l.data_start(tail) <= found.address
                        && found.address + found.len <= l.data_end(tail)
                }
        }),
{
    let after = store_from::<I>(l, mem, item, 0).mem;
    lemma_store_reached::<I>(l, mem, item);
    let (tail, closed) = choose|tail: int, closed: int| #[trigger]
        in_ring::<I>(l, after, item, tail, closed);
    lemma_ring_pages(l, after, tail, closed);
    lemma_in_effect_is_loaded::<I>(l, after, item.key_of());
    lemma_page_bounds(l, tail);
    assert(l.state(after, tail) == Some(PageState::PartialOpen));
}

/// The contents of the flash after one store of each of `items` has been
/// tried, one after the other, whatever came of each.
pub open spec fn after_stores<I: StorageItem>(l: Layout, mem: Seq<u8>, items: Seq<I>) -> Seq<u8>
    decreases items.len(),
{
    if items.len() == 0 {
        mem
    } else {
        store_from::<I>(l, after_stores(l, mem, items.drop_last()), items.last(), 0).mem
    }
}

/// Whatever is stored in an erased region, and whatever comes of each store,
/// the region is in regular use or stalled afterwards.
pub proof fn lemma_stores_reached<I: StorageItem>(l: Layout, mem: Seq<u8>, items: Seq<I>)
    requires
        lawful::<I>(),
        equivalent_keys::<I>(),
        reached::<I>(l, mem),
    ensures
        reached::<I>(l, after_stores(l, mem, items)),
    decreases items.len(),
{
    if items.len() > 0 {
        lemma_stores_reached(l, mem, items.drop_last());
        lemma_store_reached::<I>(l, after_stores(l, mem, items.drop_last()), items.last());
    }
}

} // verus!
