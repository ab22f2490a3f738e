//! The state that the store keeps the flash in, and what follows from it.
//!
//! A region is consistent where every blank page is erased throughout, the
//! page that items are appended to holds nothing but erased bytes behind its
//! last item, and the items of the other pages do not reach beyond their data
//! zone. An erased region is consistent, and storing keeps a consistent
//! region so.

use crate::flash::{is_erased, programmed, wiped, NorFlash, ERASED_BYTE, same_in};
use crate::map::{
    agrees, appended, blank, end_of_items, in_effect, last_used_page, left, lemma_item_advances,
    lemma_newest_in_zone_place, migrated, newest_in_zone, newest_item, next_record, promoted,
    record_bytes, round_up, search_back, store_from, zone_start, Cursor, Fault, Located, MapError,
    MAX_STORAGE_ITEM_SIZE, Step, StorageItem,
};
use crate::page::{
    layout_of, lemma_first_in_state, lemma_page_bounds, lemma_pages_apart, lemma_state_same,
    lemma_zone_same, marker_word, Layout, PageState, };
use crate::zone::{
    extended, holds, lawful, lemma_end_aligned, lemma_end_extended, lemma_newest_extended,
    lemma_newest_stands, lemma_next_used, lemma_reads_end, lemma_round_up, stands_at,
};
use core::ops::Range;
use vstd::prelude::*;
use vstd::std_specs::cmp::PartialEqSpec;

verus! {

/// The items of the zone end within the zone.
pub open spec fn bounded<I: StorageItem>(zone: Seq<u8>, word: int) -> bool {
    end_of_items::<I>(zone, word, zone_start(), 0) matches Ok(end) && end <= zone.len()
}

/// The items of the zone end within the zone, and only erased bytes follow
/// them.
pub open spec fn settled<I: StorageItem>(zone: Seq<u8>, word: int) -> bool {
    end_of_items::<I>(zone, word, zone_start(), 0) matches Ok(end) && end <= zone.len()
        && is_erased(zone, end, zone.len() - end)
}

/// What the state of a page demands of its data zone.
pub open spec fn page_consistent<I: StorageItem>(l: Layout, mem: Seq<u8>, page: int) -> bool {
    match l.state(mem, page) {
        Some(PageState::Open) => is_erased(l.zone(mem, page), 0, l.data_len()),
        Some(PageState::PartialOpen) => settled::<I>(l.zone(mem, page), l.word_size),
        Some(PageState::Closed) => bounded::<I>(l.zone(mem, page), l.word_size),
        None => true,
    }
}

/// The region lies within the flash, its pages are made of whole words, and
/// each page holds what its state demands.
pub open spec fn consistent<I: StorageItem>(l: Layout, mem: Seq<u8>) -> bool {
    &&& l.wf()
    &&& l.page_size % l.word_size == 0
    &&& l.start + l.pages * l.page_size <= mem.len()
    &&& forall|page: int| l.has(page) ==> #[trigger] page_consistent::<I>(l, mem, page)
}

/// The key of an item is equal to itself.
pub open spec fn reflexive_keys<I: StorageItem>() -> bool {
    forall|key: I::Key| #[trigger] key.eq_spec(&key)
}

/// The two memories give every page the same state.
pub open spec fn same_states(l: Layout, a: Seq<u8>, b: Seq<u8>) -> bool {
    forall|page: int| l.has(page) ==> #[trigger] l.state(a, page) == l.state(b, page)
}

/// A zone of erased bytes holds no item.
pub proof fn lemma_blank_zone<I: StorageItem>(zone: Seq<u8>, word: int)
    requires
        is_erased(zone, 0, zone.len() as int),
    ensures
        settled::<I>(zone, word),
        end_of_items::<I>(zone, word, zone_start(), 0) == Ok::<int, Fault<I::Error>>(0),
        forall|base: int, key: I::Key|
            #[trigger] newest_in_zone::<I>(zone, word, base, key, zone_start(), None) == Ok::<
                Option<Located<I>>,
                Fault<I::Error>,
            >(None),
{
    lemma_reads_end::<I>(zone, word, zone_start());
}

/// An erased region is consistent.
pub proof fn lemma_erased_is_consistent<I: StorageItem>(l: Layout, mem: Seq<u8>)
    requires
        l.wf(),
        l.page_size % l.word_size == 0,
        l.start + l.pages * l.page_size <= mem.len(),
        is_erased(mem, l.start, l.pages * l.page_size),
    ensures
        consistent::<I>(l, mem),
        forall|page: int| l.has(page) ==> #[trigger] l.state(mem, page) == Some(PageState::Open),
{
    assert forall|page: int| l.has(page) implies #[trigger] l.state(mem, page) == Some(
        PageState::Open,
    ) by {
        lemma_page_bounds(l, page);
        assert(is_erased(mem, l.page_start(page), l.word_size));
        assert(is_erased(mem, l.data_end(page), l.word_size));
    }
    assert forall|page: int| l.has(page) implies #[trigger] page_consistent::<I>(
        l,
        mem,
        page,
    ) by {
        lemma_page_bounds(l, page);
        assert(l.state(mem, page) == Some(PageState::Open));
        assert(is_erased(l.zone(mem, page), 0, l.data_len()));
    }
}

/// Pages in the same states are found the same.
pub proof fn lemma_first_in_same_states(
    l: Layout,
    a: Seq<u8>,
    b: Seq<u8>,
    from: int,
    want: PageState,
    skip: int,
)
    requires
        l.wf(),
        0 <= from,
        0 <= skip,
        same_states(l, a, b),
    ensures
        l.first_in_state(a, from, want, skip) == l.first_in_state(b, from, want, skip),
    decreases l.pages - skip,
{
    if skip < l.pages {
        let page = (from + skip) % l.pages;
        assert(l.has(page));
        lemma_first_in_same_states(l, a, b, from, want, skip + 1);
    }
}

/// The page used last is a matter of the states of the pages alone.
pub proof fn lemma_last_used_same_states(l: Layout, a: Seq<u8>, b: Seq<u8>)
    requires
        l.wf(),
        same_states(l, a, b),
    ensures
        last_used_page(l, a) == last_used_page(l, b),
{
    lemma_first_in_same_states(l, a, b, 0, PageState::PartialOpen, 0);
    lemma_first_in_same_states(l, a, b, 0, PageState::Open, 0);
    match l.first_in_state(a, 0, PageState::Open, 0) {
        Ok(Some(first_open)) => {
            lemma_first_in_state(l, a, 0, PageState::Open, 0);
            assert(l.has(l.previous(first_open)));
        },
        _ => {},
    }
}

/// The two memories hold the same bytes in every page but `page`.
pub open spec fn same_elsewhere(l: Layout, a: Seq<u8>, b: Seq<u8>, page: int) -> bool {
    &&& a.len() == b.len()
    &&& same_in(a, b, 0, l.page_start(page))
    &&& same_in(a, b, l.page_end(page), a.len() as int)
}

/// Pages that hold the same bytes are in the same state and hold the same
/// data.
pub proof fn lemma_same_elsewhere(l: Layout, a: Seq<u8>, b: Seq<u8>, page: int, other: int)
    requires
        l.wf(),
        l.has(page),
        l.has(other),
        other != page,
        same_elsewhere(l, a, b, page),
        l.start + l.pages * l.page_size <= a.len(),
    ensures
        l.state(a, other) == l.state(b, other),
        l.zone(a, other) == l.zone(b, other),
{
    lemma_page_bounds(l, page);
    lemma_page_bounds(l, other);
    if other < page {
        lemma_pages_apart(l, other, page);
    } else {
        lemma_pages_apart(l, page, other);
    }
    lemma_state_same(l, a, b, other);
    lemma_zone_same(l, a, b, other);
}

/// Writing into the data zone of a page leaves the states of all pages and
/// the data of the other pages as they are.
pub proof fn lemma_write_in_zone(l: Layout, mem: Seq<u8>, page: int, offset: int, data: Seq<u8>)
    requires
        l.wf(),
        l.has(page),
        0 <= offset,
        offset + data.len() <= l.data_len(),
        l.start + l.pages * l.page_size <= mem.len(),
    ensures
        same_states(l, mem, programmed(mem, l.data_start(page) + offset, data)),
        same_elsewhere(l, mem, programmed(mem, l.data_start(page) + offset, data), page),
        forall|i: int|
            0 <= i < l.data_len() ==> #[trigger] l.zone(
                programmed(mem, l.data_start(page) + offset, data),
                page,
            )[i] == if offset <= i < offset + data.len() {
                l.zone(mem, page)[i] & data[i - offset]
            } else {
                l.zone(mem, page)[i]
            },
{
    let after = programmed(mem, l.data_start(page) + offset, data);
    lemma_page_bounds(l, page);
    assert forall|other: int| l.has(other) implies #[trigger] l.state(mem, other) == l.state(
        after,
        other,
    ) by {
        if other == page {
            lemma_state_same(l, mem, after, page);
        } else {
            lemma_same_elsewhere(l, mem, after, page, other);
        }
    }
}

/// Where the newest item of every page for a key is the same in two memories
/// that give every page the same state, the search for the key comes to the
/// same.
pub proof fn lemma_search_same<I: StorageItem>(
    l: Layout,
    a: Seq<u8>,
    b: Seq<u8>,
    key: I::Key,
    page: int,
    visited: int,
)
    requires
        l.wf(),
        l.has(page),
        same_states(l, a, b),
        forall|q: int|
            l.has(q) ==> #[trigger] newest_in_zone::<I>(
                l.zone(a, q),
                l.word_size,
                l.data_start(q),
                key,
                zone_start(),
                None,
            ) == newest_in_zone::<I>(
                l.zone(b, q),
                l.word_size,
                l.data_start(q),
                key,
                zone_start(),
                None,
            ),
    ensures
        search_back::<I>(l, a, key, page, visited) == search_back::<I>(l, b, key, page, visited),
    decreases l.pages - visited,
{
    assert(l.has(l.previous(page)));
    if visited < l.pages {
        lemma_search_same::<I>(l, a, b, key, l.previous(page), visited + 1);
    }
}

/// The length of the buffer that the codec is given when an item is appended
/// to `page`: the room that is left in the page, but no more than an item may
/// take.
pub open spec fn room_limit<I: StorageItem>(l: Layout, mem: Seq<u8>, page: int) -> int {
    let end = end_of_items::<I>(l.zone(mem, page), l.word_size, zone_start(), 0)->Ok_0;
    if l.data_len() - end < MAX_STORAGE_ITEM_SIZE {
        l.data_len() - end
    } else {
        MAX_STORAGE_ITEM_SIZE as int
    }
}

/// Appending an item to the page that items are appended to, in a consistent
/// region: the region stays consistent, the item is the newest one for every
/// key equal to its own, and for every other key the newest item is the one
/// it was. The items of the page end later by what the item takes, and the
/// other pages hold what they held.
pub proof fn lemma_appended<I: StorageItem>(l: Layout, mem: Seq<u8>, item: I, page: int)
    requires
        lawful::<I>(),
        consistent::<I>(l, mem),
        l.first_in_state(mem, 0, PageState::PartialOpen, 0) == Ok::<Option<int>, ()>(Some(page)),
        appended::<I>(l, mem, item, page) matches Some(outcome) && outcome.result is Ok,
    ensures
        consistent::<I>(l, appended::<I>(l, mem, item, page)->0.mem),
        same_states(l, mem, appended::<I>(l, mem, item, page)->0.mem),
        forall|q: int|
            l.has(q) && q != page ==> #[trigger] l.zone(
                appended::<I>(l, mem, item, page)->0.mem,
                q,
            ) == l.zone(mem, q),
        end_of_items::<I>(l.zone(mem, page), l.word_size, zone_start(), 0) is Ok,
        end_of_items::<I>(
            l.zone(appended::<I>(l, mem, item, page)->0.mem, page),
            l.word_size,
            zone_start(),
            0,
        ) == Ok::<int, Fault<I::Error>>(
            end_of_items::<I>(l.zone(mem, page), l.word_size, zone_start(), 0)->Ok_0 + round_up(
                item.serialized(blank(room_limit::<I>(l, mem, page))).0->Ok_0 as int,
                l.word_size,
            ),
        ),
        forall|key: I::Key|
            #![trigger newest_item::<I>(l, appended::<I>(l, mem, item, page)->0.mem, key)]
            if item.key_of().eq_spec(&key) {
                newest_item::<I>(l, appended::<I>(l, mem, item, page)->0.mem, key) matches Ok(
                    Some(found),
                ) && found.item == item && l.page_of(found.address) == page
            } else {
                newest_item::<I>(l, appended::<I>(l, mem, item, page)->0.mem, key)
                    == newest_item::<I>(l, mem, key)
            },
{
    let word = l.word_size;
    let zone = l.zone(mem, page);
    let after_mem = appended::<I>(l, mem, item, page)->0.mem;
    lemma_first_in_state(l, mem, 0, PageState::PartialOpen, 0);
    lemma_page_bounds(l, page);
    assert(page_consistent::<I>(l, mem, page));
    let end = end_of_items::<I>(zone, word, zone_start(), 0)->Ok_0;
    let room = l.data_len() - end;
    let limit = if room < MAX_STORAGE_ITEM_SIZE {
        room
    } else {
        MAX_STORAGE_ITEM_SIZE as int
    };
    let (written, scratch) = item.serialized(blank(limit));
    let n = written->Ok_0 as int;
    let len = round_up(n, word);
    let record = record_bytes(scratch, len);
    // The record fits the room that is left, which is a whole number of words.
    lemma_end_aligned::<I>(zone, word, zone_start());
    lemma_round_up(n, word);
    assert(len <= room) by {
        lemma_fits(n, room, end, l.data_len(), word, l.page_size);
    }
    assert(after_mem == programmed(mem, l.data_start(page) + end, record));
    lemma_write_in_zone(l, mem, page, end, record);
    let after = l.zone(after_mem, page);
    assert(holds(record, item, n, word)) by {
        assert(record.subrange(0, n) =~= scratch.subrange(0, n));
    }
    lemma_copy_extends(l, mem, page, end, record);
    lemma_end_extended::<I>(zone, after, word, zone_start(), end, record, item, n);
    // Every page still holds what its state demands.
    assert forall|q: int| l.has(q) implies #[trigger] page_consistent::<I>(l, after_mem, q) by {
        assert(page_consistent::<I>(l, mem, q));
        assert(l.state(mem, q) == l.state(after_mem, q));
        if q != page {
            lemma_same_elsewhere(l, mem, after_mem, page, q);
        }
    }
    assert forall|q: int| l.has(q) && q != page implies #[trigger] l.zone(after_mem, q)
        == l.zone(mem, q) by {
        lemma_same_elsewhere(l, mem, after_mem, page, q);
    }
    // The search starts at the same page as before.
    lemma_last_used_same_states(l, mem, after_mem);
    assert forall|key: I::Key|
        #![trigger newest_item::<I>(l, after_mem, key)]
        if item.key_of().eq_spec(&key) {
            newest_item::<I>(l, after_mem, key) matches Ok(Some(found)) && found.item == item
                && l.page_of(found.address) == page
        } else {
            newest_item::<I>(l, after_mem, key) == newest_item::<I>(l, mem, key)
        } by {
        lemma_page_of(l, page, l.data_start(page) + end);
        lemma_newest_extended::<I>(
            zone,
            after,
            word,
            l.data_start(page),
            key,
            zone_start(),
            None,
            end,
            record,
            item,
            n,
        );
        if !item.key_of().eq_spec(&key) {
            assert forall|q: int| l.has(q) implies #[trigger] newest_in_zone::<I>(
                l.zone(mem, q),
                l.word_size,
                l.data_start(q),
                key,
                zone_start(),
                None,
            ) == newest_in_zone::<I>(
                l.zone(after_mem, q),
                l.word_size,
                l.data_start(q),
                key,
                zone_start(),
                None,
            ) by {
                if q != page {
                    lemma_same_elsewhere(l, mem, after_mem, page, q);
                }
            }
            lemma_search_same::<I>(l, mem, after_mem, key, page, 1);
        }
    }
}

/// What is rounded up to whole words fits a room of whole words that the
/// bytes themselves fit.
pub proof fn lemma_fits(n: int, room: int, end: int, data_len: int, word: int, page_size: int)
    requires
        0 <= n <= room,
        room == data_len - end,
        data_len == page_size - 2 * word,
        0 < word,
        page_size % word == 0,
        end % word == 0,
    ensures
        round_up(n, word) <= room,
{
    vstd::arithmetic::div_mod::lemma_fundamental_div_mod(page_size, word);
    vstd::arithmetic::div_mod::lemma_fundamental_div_mod(end, word);
    vstd::arithmetic::div_mod::lemma_fundamental_div_mod(n, word);
    let q = page_size / word - 2 - end / word;
    assert(room == q * word) by (nonlinear_arith)
        requires
            room == page_size - 2 * word - end,
            page_size == word * (page_size / word),
            end == word * (end / word),
            q == page_size / word - 2 - end / word,
    ;
    if n % word > 0 {
        let k = n / word;
        assert(k < q) by (nonlinear_arith)
            requires
                n == word * k + n % word,
                n % word > 0,
                n <= q * word,
                word > 0,
        ;
        assert(n + word - n % word <= q * word) by (nonlinear_arith)
            requires
                n == word * k + n % word,
                k + 1 <= q,
                word > 0,
        ;
    }
}

/// Every page but `page` holds what its state demands.
pub open spec fn consistent_but<I: StorageItem>(l: Layout, mem: Seq<u8>, page: int) -> bool {
    &&& l.wf()
    &&& l.page_size % l.word_size == 0
    &&& l.start + l.pages * l.page_size <= mem.len()
    &&& forall|q: int| l.has(q) && q != page ==> #[trigger] page_consistent::<I>(l, mem, q)
}

/// Where a marker has been written, the word is no longer erased.
pub proof fn lemma_marked(mem: Seq<u8>, at: int, len: int)
    requires
        0 <= at,
        1 <= len,
        at + len <= mem.len(),
    ensures
        !is_erased(programmed(mem, at, marker_word(len)), at, len),
{
    let after = programmed(mem, at, marker_word(len));
    let byte = mem[at];
    assert(byte & 0u8 == 0u8) by (bit_vector);
    assert(after[at] == 0u8);
}

/// Writing the first marker of a blank page whose data is settled makes it
/// the page that items are appended to, and a region that was consistent but
/// for this page consistent.
pub proof fn lemma_mark_first<I: StorageItem>(l: Layout, mem: Seq<u8>, page: int)
    requires
        consistent_but::<I>(l, mem, page),
        l.has(page),
        l.state(mem, page) == Some(PageState::Open),
        settled::<I>(l.zone(mem, page), l.word_size),
    ensures
        consistent::<I>(l, programmed(mem, l.page_start(page), marker_word(l.word_size))),
        l.state(programmed(mem, l.page_start(page), marker_word(l.word_size)), page) == Some(
            PageState::PartialOpen,
        ),
        same_elsewhere(
            l,
            mem,
            programmed(mem, l.page_start(page), marker_word(l.word_size)),
            page,
        ),
        l.zone(programmed(mem, l.page_start(page), marker_word(l.word_size)), page) == l.zone(
            mem,
            page,
        ),
{
    let after = programmed(mem, l.page_start(page), marker_word(l.word_size));
    lemma_page_bounds(l, page);
    lemma_marked(mem, l.page_start(page), l.word_size);
    lemma_zone_same(l, mem, after, page);
    assert(is_erased(after, l.data_end(page), l.word_size)) by {
        assert forall|i: int|
            l.data_end(page) <= i < l.data_end(page) + l.word_size implies #[trigger] after[i]
            == ERASED_BYTE by {
            assert(mem[i] == ERASED_BYTE);
        }
    }
    assert forall|q: int| l.has(q) implies #[trigger] page_consistent::<I>(l, after, q) by {
        if q != page {
            assert(page_consistent::<I>(l, mem, q));
            lemma_same_elsewhere(l, mem, after, page, q);
        }
    }
}

/// Writing the second marker of the page that items are appended to closes
/// it, and leaves a consistent region consistent.
pub proof fn lemma_closed<I: StorageItem>(l: Layout, mem: Seq<u8>, page: int)
    requires
        consistent::<I>(l, mem),
        l.has(page),
        l.state(mem, page) == Some(PageState::PartialOpen),
    ensures
        consistent::<I>(l, programmed(mem, l.data_end(page), marker_word(l.word_size))),
        l.state(programmed(mem, l.data_end(page), marker_word(l.word_size)), page) == Some(
            PageState::Closed,
        ),
        same_elsewhere(l, mem, programmed(mem, l.data_end(page), marker_word(l.word_size)), page),
        l.zone(programmed(mem, l.data_end(page), marker_word(l.word_size)), page) == l.zone(
            mem,
            page,
        ),
{
    let after = programmed(mem, l.data_end(page), marker_word(l.word_size));
    lemma_page_bounds(l, page);
    lemma_marked(mem, l.data_end(page), l.word_size);
    lemma_zone_same(l, mem, after, page);
    assert(!is_erased(after, l.page_start(page), l.word_size)) by {
        if is_erased(after, l.page_start(page), l.word_size) {
            assert forall|i: int|
                l.page_start(page) <= i < l.page_start(page) + l.word_size implies #[trigger] mem[i]
                == ERASED_BYTE by {
                assert(after[i] == ERASED_BYTE);
            }
        }
    }
    assert forall|q: int| l.has(q) implies #[trigger] page_consistent::<I>(l, after, q) by {
        assert(page_consistent::<I>(l, mem, q));
        if q != page {
            lemma_same_elsewhere(l, mem, after, page, q);
        }
    }
}

/// Erasing a page makes it blank and leaves the other pages as they are.
pub proof fn lemma_wiped(l: Layout, mem: Seq<u8>, page: int)
    requires
        l.wf(),
        l.has(page),
        l.start + l.pages * l.page_size <= mem.len(),
    ensures
        l.state(wiped(mem, l.page_start(page), l.page_end(page)), page) == Some(PageState::Open),
        is_erased(l.zone(wiped(mem, l.page_start(page), l.page_end(page)), page), 0, l.data_len()),
        same_elsewhere(l, mem, wiped(mem, l.page_start(page), l.page_end(page)), page),
{
    let after = wiped(mem, l.page_start(page), l.page_end(page));
    lemma_page_bounds(l, page);
    assert(is_erased(after, l.page_start(page), l.word_size));
    assert(is_erased(after, l.data_end(page), l.word_size));
}

/// An address in the data zone of a page lies in that page.
pub proof fn lemma_page_of(l: Layout, page: int, address: int)
    requires
        l.wf(),
        l.has(page),
        l.data_start(page) <= address < l.data_end(page),
    ensures
        l.page_of(address) == page,
{
    lemma_page_bounds(l, page);
    let rest = address - l.start - page * l.page_size;
    vstd::arithmetic::div_mod::lemma_fundamental_div_mod_converse(
        address - l.start,
        l.page_size,
        page,
        rest,
    );
}

/// The page of `q` holds `found` as its newest item for `key`.
pub open spec fn newest_of_page<I: StorageItem>(
    l: Layout,
    mem: Seq<u8>,
    key: I::Key,
    q: int,
    found: Located<I>,
) -> bool {
    &&& l.has(q)
    &&& newest_in_zone::<I>(
        l.zone(mem, q),
        l.word_size,
        l.data_start(q),
        key,
        zone_start(),
        None,
    ) == Ok::<Option<Located<I>>, Fault<I::Error>>(Some(found))
}

/// What the search through the pages finds is the newest item of some page.
pub proof fn lemma_search_found<I: StorageItem>(
    l: Layout,
    mem: Seq<u8>,
    key: I::Key,
    page: int,
    visited: int,
)
    requires
        l.wf(),
        l.has(page),
    ensures
        search_back::<I>(l, mem, key, page, visited) matches Ok(Some(found)) ==> exists|q: int|
            #[trigger] newest_of_page::<I>(l, mem, key, q, found),
    decreases l.pages - visited,
{
    match search_back::<I>(l, mem, key, page, visited) {
        Ok(Some(found)) => {
            match newest_in_zone::<I>(
                l.zone(mem, page),
                l.word_size,
                l.data_start(page),
                key,
                zone_start(),
                None,
            ) {
                Ok(Some(here)) => {
                    assert(newest_of_page::<I>(l, mem, key, page, found));
                },
                _ => {
                    assert(l.has(l.previous(page)));
                    lemma_search_found::<I>(l, mem, key, l.previous(page), visited + 1);
                },
            }
        },
        _ => {},
    }
}

/// The item in effect for a key is the newest item of some page.
pub proof fn lemma_newest_found<I: StorageItem>(l: Layout, mem: Seq<u8>, key: I::Key)
    requires
        l.wf(),
    ensures
        newest_item::<I>(l, mem, key) matches Ok(Some(found)) ==> exists|q: int|
            #[trigger] newest_of_page::<I>(l, mem, key, q, found),
{
    lemma_first_in_state(l, mem, 0, PageState::PartialOpen, 0);
    lemma_first_in_state(l, mem, 0, PageState::Open, 0);
    match last_used_page(l, mem) {
        Ok(Some(page)) => {
            match l.first_in_state(mem, 0, PageState::Open, 0) {
                Ok(Some(first_open)) => {
                    assert(l.has(l.previous(first_open)));
                },
                _ => {},
            }
            lemma_search_found::<I>(l, mem, key, page, 1);
        },
        _ => {},
    }
}

/// The newest item for a key, where it stands in a page whose items end
/// within the page: the bytes it takes on the flash are what stands there for
/// it.
pub proof fn lemma_newest_copy<I: StorageItem>(l: Layout, mem: Seq<u8>, key: I::Key, from: int)
    requires
        lawful::<I>(),
        l.wf(),
        l.start + l.pages * l.page_size <= mem.len(),
        l.has(from),
        bounded::<I>(l.zone(mem, from), l.word_size),
        newest_item::<I>(l, mem, key) matches Ok(Some(newest)) && l.page_of(newest.address)
            == from,
    ensures
        ({
            let newest = newest_item::<I>(l, mem, key)->Ok_0->0;
            &&& 0 < newest.len
            &&& l.data_start(from) <= newest.address
            &&& newest.address + newest.len <= l.data_end(from)
            &&& newest.address + newest.len <= mem.len()
            &&& exists|n: int| #[trigger]
                holds(
                    mem.subrange(newest.address, newest.address + newest.len),
                    newest.item,
                    n,
                    l.word_size,
                )
        }),
{
    let word = l.word_size;
    let source = l.zone(mem, from);
    let newest = newest_item::<I>(l, mem, key)->Ok_0->0;
    lemma_page_bounds(l, from);
    lemma_newest_found::<I>(l, mem, key);
    let q = choose|q: int| #[trigger] newest_of_page::<I>(l, mem, key, q, newest);
    lemma_page_bounds(l, q);
    lemma_newest_in_zone_place::<I>(
        l.zone(mem, q),
        word,
        l.data_start(q),
        key,
        zone_start(),
        None,
    );
    assert(l.zone(mem, q).len() == l.data_len());
    lemma_page_of(l, q, newest.address);
    assert(q == from);
    lemma_newest_stands::<I>(source, word, l.data_start(from), key, zone_start(), None);
    let place = newest.address - l.data_start(from);
    assert(stands_at(source, word, place, newest.len, newest.item));
    let copy = mem.subrange(newest.address, newest.address + newest.len);
    assert(copy =~= source.subrange(place, place + newest.len));
}

/// Writing over the erased end of a data zone puts what is written there and
/// leaves erased what follows.
pub proof fn lemma_copy_extends(l: Layout, mem: Seq<u8>, to: int, write_at: int, copy: Seq<u8>)
    requires
        l.wf(),
        l.has(to),
        l.start + l.pages * l.page_size <= mem.len(),
        0 <= write_at,
        write_at + copy.len() <= l.data_len(),
        is_erased(l.zone(mem, to), write_at, l.data_len() - write_at),
    ensures
        extended(
            l.zone(mem, to),
            l.zone(programmed(mem, l.data_start(to) + write_at, copy), to),
            write_at,
            copy,
        ),
{
    let target = l.zone(mem, to);
    let after = l.zone(programmed(mem, l.data_start(to) + write_at, copy), to);
    lemma_write_in_zone(l, mem, to, write_at, copy);
    assert forall|i: int| 0 <= i < copy.len() implies #[trigger] after[write_at + i]
        == copy[i] by {
        let byte = copy[i];
        assert(target[write_at + i] == ERASED_BYTE);
        assert(0xFFu8 & byte == byte) by (bit_vector);
    }
    assert forall|i: int| write_at + copy.len() <= i < after.len() implies #[trigger] after[i]
        == ERASED_BYTE by {
        assert(target[i] == ERASED_BYTE);
    }
}

/// Two steps that change nothing outside a page change nothing outside it
/// together.
pub proof fn lemma_same_elsewhere_twice(
    l: Layout,
    a: Seq<u8>,
    b: Seq<u8>,
    c: Seq<u8>,
    page: int,
)
    requires
        same_elsewhere(l, a, b, page),
        same_elsewhere(l, b, c, page),
    ensures
        same_elsewhere(l, a, c, page),
{
}

/// One step of carrying items forward: the newest item for `key`, which
/// stands in the page `from`, is copied behind what the data zone of `to`
/// holds already.
pub proof fn lemma_migrate_step<I: StorageItem>(
    l: Layout,
    mem: Seq<u8>,
    from: int,
    to: int,
    key: I::Key,
    write_at: int,
    watch: I::Key,
)
    requires
        lawful::<I>(),
        l.wf(),
        l.page_size % l.word_size == 0,
        l.start + l.pages * l.page_size <= mem.len(),
        l.has(from),
        l.has(to),
        from != to,
        0 <= write_at <= l.data_len(),
        bounded::<I>(l.zone(mem, from), l.word_size),
        end_of_items::<I>(l.zone(mem, to), l.word_size, zone_start(), 0) == Ok::<
            int,
            Fault<I::Error>,
        >(write_at),
        is_erased(l.zone(mem, to), write_at, l.data_len() - write_at),
        newest_item::<I>(l, mem, key) matches Ok(Some(newest)) && l.page_of(newest.address)
            == from && write_at + newest.len <= l.data_len(),
    ensures
        ({
            let newest = newest_item::<I>(l, mem, key)->Ok_0->0;
            let after = programmed(
                mem,
                l.data_start(to) + write_at,
                mem.subrange(newest.address, newest.address + newest.len),
            );
            &&& 0 < newest.len
            &&& same_elsewhere(l, mem, after, to)
            &&& l.state(after, to) == l.state(mem, to)
            &&& l.zone(after, from) == l.zone(mem, from)
            &&& end_of_items::<I>(l.zone(after, to), l.word_size, zone_start(), 0) == Ok::<
                int,
                Fault<I::Error>,
            >(write_at + newest.len)
            &&& is_erased(
                l.zone(after, to),
                write_at + newest.len,
                l.data_len() - write_at - newest.len,
            )
            &&& newest_in_zone::<I>(
                l.zone(mem, to),
                l.word_size,
                l.data_start(to),
                watch,
                zone_start(),
                None,
            ) is Ok
            &&& newest_in_zone::<I>(
                l.zone(after, to),
                l.word_size,
                l.data_start(to),
                watch,
                zone_start(),
                None,
            ) == Ok::<Option<Located<I>>, Fault<I::Error>>(
                if newest.item.key_of().eq_spec(&watch) {
                    Some(
                        Located {
                            item: newest.item,
                            address: l.data_start(to) + write_at,
                            len: newest.len,
                        },
                    )
                } else {
                    newest_in_zone::<I>(
                        l.zone(mem, to),
                        l.word_size,
                        l.data_start(to),
                        watch,
                        zone_start(),
                        None,
                    )->Ok_0
                },
            )
        }),
{
    let word = l.word_size;
    let newest = newest_item::<I>(l, mem, key)->Ok_0->0;
    let copy = mem.subrange(newest.address, newest.address + newest.len);
    let after = programmed(mem, l.data_start(to) + write_at, copy);
    lemma_newest_copy::<I>(l, mem, key, from);
    let n = choose|n: int| #[trigger] holds(copy, newest.item, n, word);
    lemma_copy_extends(l, mem, to, write_at, copy);
    lemma_write_in_zone(l, mem, to, write_at, copy);
    lemma_end_extended::<I>(
        l.zone(mem, to),
        l.zone(after, to),
        word,
        zone_start(),
        write_at,
        copy,
        newest.item,
        n,
    );
    lemma_newest_extended::<I>(
        l.zone(mem, to),
        l.zone(after, to),
        word,
        l.data_start(to),
        watch,
        zone_start(),
        None,
        write_at,
        copy,
        newest.item,
        n,
    );
    lemma_same_elsewhere(l, mem, after, to, from);
    assert(l.has(to));
}

/// Carrying items forward to a blank page, in a region where the items of the
/// page they come from end within it: nothing changes outside the target, the
/// target stays in its state, and its data stays settled.
pub proof fn lemma_migrated<I: StorageItem>(
    l: Layout,
    mem: Seq<u8>,
    from: int,
    to: int,
    at: Cursor,
    write_at: int,
)
    requires
        lawful::<I>(),
        l.wf(),
        l.page_size % l.word_size == 0,
        l.start + l.pages * l.page_size <= mem.len(),
        l.has(from),
        l.has(to),
        from != to,
        0 <= at.used,
        0 <= at.offset,
        0 <= write_at <= l.data_len(),
        bounded::<I>(l.zone(mem, from), l.word_size),
        end_of_items::<I>(l.zone(mem, to), l.word_size, zone_start(), 0) == Ok::<
            int,
            Fault<I::Error>,
        >(write_at),
        is_erased(l.zone(mem, to), write_at, l.data_len() - write_at),
        migrated::<I>(l, mem, from, to, at, write_at).0 is Ok,
    ensures
        same_elsewhere(l, mem, migrated::<I>(l, mem, from, to, at, write_at).1, to),
        l.state(migrated::<I>(l, mem, from, to, at, write_at).1, to) == l.state(mem, to),
        settled::<I>(l.zone(migrated::<I>(l, mem, from, to, at, write_at).1, to), l.word_size),
    decreases left(l.zone(mem, from).len() as int, at.offset),
{
    let word = l.word_size;
    let source = l.zone(mem, from);
    match next_record::<I>(source, word, at) {
        Step::Item { item, offset, len, next } => {
            lemma_item_advances::<I>(source, word, at);
            lemma_next_used::<I>(source, word, at);
            let key = item.key_of();
            let newest = newest_item::<I>(l, mem, key)->Ok_0->0;
            if l.page_of(newest.address) == from {
                let after = programmed(
                    mem,
                    l.data_start(to) + write_at,
                    mem.subrange(newest.address, newest.address + newest.len),
                );
                lemma_migrate_step::<I>(l, mem, from, to, key, write_at, key);
                lemma_migrated::<I>(l, after, from, to, next, write_at + newest.len);
                let last = migrated::<I>(l, after, from, to, next, write_at + newest.len).1;
                lemma_same_elsewhere_twice(l, mem, after, last, to);
            } else {
                lemma_migrated::<I>(l, mem, from, to, next, write_at);
            }
        },
        _ => {},
    }
}

/// Making a blank page the page that items are appended to keeps a
/// consistent region consistent.
pub proof fn lemma_promoted<I: StorageItem>(l: Layout, mem: Seq<u8>, target: int)
    requires
        lawful::<I>(),
        consistent::<I>(l, mem),
        l.has(target),
        promoted::<I>(l, mem, target).result is Ok,
    ensures
        consistent::<I>(l, promoted::<I>(l, mem, target).mem),
        l.state(mem, target) == Some(PageState::Open),
        l.state(promoted::<I>(l, mem, target).mem, target) == Some(PageState::PartialOpen),
        l.state(promoted::<I>(l, mem, target).mem, l.next(target)) == Some(PageState::Open),
        forall|q: int|
            l.has(q) && q != target && q != l.next(target) ==> {
                &&& #[trigger] l.state(promoted::<I>(l, mem, target).mem, q) == l.state(mem, q)
                &&& l.zone(promoted::<I>(l, mem, target).mem, q) == l.zone(mem, q)
            },
        l.zone(promoted::<I>(l, mem, target).mem, target) == if l.state(mem, l.next(target))
            == Some(PageState::Open) {
            l.zone(mem, target)
        } else {
            l.zone(migrated::<I>(l, mem, l.next(target), target, zone_start(), 0).1, target)
        },
{
    let word = l.word_size;
    let spare = l.next(target);
    assert(l.has(spare) && spare != target);
    assert(page_consistent::<I>(l, mem, target));
    assert(page_consistent::<I>(l, mem, spare));
    lemma_blank_zone::<I>(l.zone(mem, target), word);
    if l.state(mem, spare) == Some(PageState::Open) {
        lemma_mark_first::<I>(l, mem, target);
        let ready = promoted::<I>(l, mem, target).mem;
        assert forall|q: int| l.has(q) && q != target implies #[trigger] l.state(ready, q)
            == l.state(mem, q) && l.zone(ready, q) == l.zone(mem, q) by {
            lemma_same_elsewhere(l, mem, ready, target, q);
        }
    } else {
        let moved = migrated::<I>(l, mem, spare, target, zone_start(), 0).1;
        lemma_migrated::<I>(l, mem, spare, target, zone_start(), 0);
        let erased = wiped(moved, l.page_start(spare), l.page_end(spare));
        lemma_wiped(l, moved, spare);
        lemma_same_elsewhere(l, moved, erased, spare, target);
        assert forall|q: int| l.has(q) && q != target implies #[trigger] page_consistent::<I>(
            l,
            erased,
            q,
        ) by {
            if q != spare {
                assert(page_consistent::<I>(l, mem, q));
                lemma_same_elsewhere(l, mem, moved, target, q);
                lemma_same_elsewhere(l, moved, erased, spare, q);
            }
        }
        lemma_mark_first::<I>(l, erased, target);
        let ready = promoted::<I>(l, mem, target).mem;
        lemma_same_elsewhere(l, erased, ready, target, spare);
        assert forall|q: int| l.has(q) && q != target && q != spare implies #[trigger] l.state(
            ready,
            q,
        ) == l.state(mem, q) && l.zone(ready, q) == l.zone(mem, q) by {
            lemma_same_elsewhere(l, mem, moved, target, q);
            lemma_same_elsewhere(l, moved, erased, spare, q);
            lemma_same_elsewhere(l, erased, ready, target, q);
        }
    }
}

/// Storing an item in a consistent region, with a well-behaved codec: the
/// region stays consistent, and the item is the one in effect for every key
/// equal to its own.
pub proof fn lemma_stored<I: StorageItem>(l: Layout, mem: Seq<u8>, item: I, level: int)
    requires
        lawful::<I>(),
        consistent::<I>(l, mem),
        0 <= level,
        store_from::<I>(l, mem, item, level).result is Ok,
    ensures
        consistent::<I>(l, store_from::<I>(l, mem, item, level).mem),
        forall|key: I::Key|
            item.key_of().eq_spec(&key) ==> (#[trigger] newest_item::<I>(
                l,
                store_from::<I>(l, mem, item, level).mem,
                key,
            ) matches Ok(Some(found)) && found.item == item),
    decreases l.pages - level,
{
    lemma_first_in_state(l, mem, 0, PageState::PartialOpen, 0);
    lemma_first_in_state(l, mem, 0, PageState::Open, 0);
    match l.first_in_state(mem, 0, PageState::PartialOpen, 0) {
        Ok(Some(page)) => {
            match appended::<I>(l, mem, item, page) {
                Some(outcome) => {
                    lemma_appended::<I>(l, mem, item, page);
                },
                None => {
                    let closed = programmed(mem, l.data_end(page), marker_word(l.word_size));
                    lemma_closed::<I>(l, mem, page);
                    assert(l.has(l.next(page)));
                    lemma_promoted::<I>(l, closed, l.next(page));
                    let ready = promoted::<I>(l, closed, l.next(page));
                    lemma_stored::<I>(l, ready.mem, item, level + 1);
                },
            }
        },
        Ok(None) => {
            match l.first_in_state(mem, 0, PageState::Open, 0) {
                Ok(Some(first_open)) => {
                    lemma_promoted::<I>(l, mem, first_open);
                    let ready = promoted::<I>(l, mem, first_open);
                    lemma_stored::<I>(l, ready.mem, item, level + 1);
                },
                _ => {},
            }
        },
        Err(_) => {},
    }
}

/// What was stored is what is fetched: after an item has been stored in a
/// consistent region, with a well-behaved codec, it is the item in effect for
/// its own key.
pub proof fn lemma_read_your_writes<I: StorageItem>(l: Layout, mem: Seq<u8>, item: I)
    requires
        lawful::<I>(),
        reflexive_keys::<I>(),
        consistent::<I>(l, mem),
        store_from::<I>(l, mem, item, 0).result is Ok,
    ensures
        newest_item::<I>(l, store_from::<I>(l, mem, item, 0).mem, item.key_of()) matches Ok(
            Some(found),
        ) && found.item == item,
{
    lemma_stored::<I>(l, mem, item, 0);
    assert(item.key_of().eq_spec(&item.key_of()));
}

/// The contents of the flash after `items` have been stored one after the
/// other, or nothing where one of them could not be stored.
pub open spec fn stored_all<I: StorageItem>(l: Layout, mem: Seq<u8>, items: Seq<I>) -> Option<
    Seq<u8>,
>
    decreases items.len(),
{
    if items.len() == 0 {
        Some(mem)
    } else {
        match stored_all(l, mem, items.drop_last()) {
            None => None,
            Some(so_far) => {
                let outcome = store_from::<I>(l, so_far, items.last(), 0);
                if outcome.result is Ok {
                    Some(outcome.mem)
                } else {
                    None
                }
            },
        }
    }
}

/// Storing any number of items keeps a consistent region consistent.
pub proof fn lemma_stored_all_consistent<I: StorageItem>(l: Layout, mem: Seq<u8>, items: Seq<I>)
    requires
        lawful::<I>(),
        consistent::<I>(l, mem),
        stored_all(l, mem, items) is Some,
    ensures
        consistent::<I>(l, stored_all(l, mem, items)->0),
    decreases items.len(),
{
    if items.len() > 0 {
        lemma_stored_all_consistent(l, mem, items.drop_last());
        lemma_stored::<I>(l, stored_all(l, mem, items.drop_last())->0, items.last(), 0);
    }
}

/// The latest wins: after any number of items have been stored, the one
/// stored last is the item in effect for every key equal to its own.
pub proof fn lemma_latest_wins<I: StorageItem>(
    l: Layout,
    mem: Seq<u8>,
    items: Seq<I>,
    key: I::Key,
)
    requires
        lawful::<I>(),
        consistent::<I>(l, mem),
        items.len() > 0,
        stored_all(l, mem, items) is Some,
        items.last().key_of().eq_spec(&key),
    ensures
        newest_item::<I>(l, stored_all(l, mem, items)->0, key) matches Ok(Some(found))
            && found.item == items.last(),
{
    lemma_stored_all_consistent(l, mem, items.drop_last());
    lemma_stored::<I>(l, stored_all(l, mem, items.drop_last())->0, items.last(), 0);
}

/// An item that fits the page that items are appended to is stored without
/// any page being erased.
pub proof fn lemma_no_erase_with_room<I: StorageItem>(
    l: Layout,
    mem: Seq<u8>,
    item: I,
    page: int,
)
    requires
        0 < l.pages,
        l.first_in_state(mem, 0, PageState::PartialOpen, 0) == Ok::<Option<int>, ()>(Some(page)),
        appended::<I>(l, mem, item, page) is Some,
    ensures
        !store_from::<I>(l, mem, item, 0).erased,
        store_from::<I>(l, mem, item, 0) == appended::<I>(l, mem, item, page)->0,
{
}

/// What is fetched is a matter of the bytes on the flash alone: where the
/// flash driver reports no fault, a fetch from a driver that has been built
/// anew over the same bytes returns what a fetch from the old one returns.
pub proof fn lemma_same_bytes_same_fetch<I: StorageItem, S: NorFlash>(
    flash: S,
    rebuilt: S,
    flash_range: Range<u32>,
    key: I::Key,
    r1: Result<Option<I>, MapError<I::Error, S::Error>>,
    r2: Result<Option<I>, MapError<I::Error, S::Error>>,
)
    requires
        flash.bytes() == rebuilt.bytes(),
        agrees(r1, in_effect::<I>(layout_of::<S>(flash_range), flash.bytes(), key)),
        agrees(r2, in_effect::<I>(layout_of::<S>(flash_range), rebuilt.bytes(), key)),
    ensures
        r1 == r2,
{
}

} // verus!
