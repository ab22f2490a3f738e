//! The shape of the log on the ring of pages.
//!
//! In regular use the pages form a chain: the page that items are appended
//! to, before it a run of closed pages, and before those at least one blank
//! page. The search for an item walks this chain backwards.

use crate::map::{
    newest_in_zone, newest_item, search_back, zone_start, Fault, Located,
    StorageItem,
};
use crate::page::{Layout, PageState};
use vstd::prelude::*;

verus! {

/// How many steps behind `tail` on the ring the page `page` lies.
pub open spec fn behind(l: Layout, tail: int, page: int) -> int {
    if page <= tail {
        tail - page
    } else {
        tail - page + l.pages
    }
}

/// Every page is blank.
pub open spec fn all_open(l: Layout, mem: Seq<u8>) -> bool {
    forall|q: int| l.has(q) ==> #[trigger] l.state(mem, q) == Some(PageState::Open)
}

/// The `closed` pages behind `tail` are closed, and the page behind them is
/// blank.
pub open spec fn chain(l: Layout, mem: Seq<u8>, tail: int, closed: int) -> bool {
    &&& l.has(tail)
    &&& 0 <= closed <= l.pages - 2
    &&& forall|q: int|
        l.has(q) && 1 <= behind(l, tail, q) <= closed ==> #[trigger] l.state(mem, q) == Some(
            PageState::Closed,
        )
    &&& forall|q: int|
        l.has(q) && behind(l, tail, q) == closed + 1 ==> #[trigger] l.state(mem, q) == Some(
            PageState::Open,
        )
}

/// Items are appended to `tail`, the `closed` pages behind it are closed, and
/// all other pages are blank.
pub open spec fn ring(l: Layout, mem: Seq<u8>, tail: int, closed: int) -> bool {
    &&& l.has(tail)
    &&& 0 <= closed <= l.pages - 2
    &&& l.state(mem, tail) == Some(PageState::PartialOpen)
    &&& forall|q: int|
        l.has(q) && 1 <= behind(l, tail, q) <= closed ==> #[trigger] l.state(mem, q) == Some(
            PageState::Closed,
        )
    &&& forall|q: int|
        l.has(q) && closed < behind(l, tail, q) ==> #[trigger] l.state(mem, q) == Some(
            PageState::Open,
        )
}

/// The page `tail` and all pages behind it but one are closed, and that one
/// is blank: the state between closing a page and making the next one ready.
pub open spec fn closed_ring(l: Layout, mem: Seq<u8>, tail: int) -> bool {
    &&& l.has(tail)
    &&& l.state(mem, tail) == Some(PageState::Closed)
    &&& chain(l, mem, tail, l.pages - 2)
}

/// The pages are all blank, or they form a ring.
pub open spec fn shaped(l: Layout, mem: Seq<u8>) -> bool {
    all_open(l, mem) || exists|tail: int, closed: int| #[trigger] ring(l, mem, tail, closed)
}

/// The newest item for `key` in the `count` pages from `page` backwards,
/// whatever their states.
pub open spec fn newest_among<I: StorageItem>(
    l: Layout,
    mem: Seq<u8>,
    key: I::Key,
    page: int,
    count: int,
) -> Result<Option<Located<I>>, Fault<I::Error>>
    decreases count,
{
    if count <= 0 {
        Ok(None)
    } else {
        match newest_in_zone::<I>(
            l.zone(mem, page),
            l.word_size,
            l.data_start(page),
            key,
            zone_start(),
            None,
        ) {
            Err(fault) => Err(fault),
            Ok(Some(found)) => Ok(Some(found)),
            Ok(None) => newest_among::<I>(l, mem, key, l.previous(page), count - 1),
        }
    }
}

/// The page before a page lies one step further behind, until the ring
/// closes.
pub proof fn lemma_behind_previous(l: Layout, tail: int, page: int)
    requires
        l.wf(),
        l.has(tail),
        l.has(page),
    ensures
        l.has(l.previous(page)),
        0 <= behind(l, tail, page) < l.pages,
        behind(l, tail, l.previous(page)) == if behind(l, tail, page) + 1 < l.pages {
            behind(l, tail, page) + 1
        } else {
            0
        },
{
}

/// The page after a page lies one step less far behind.
pub proof fn lemma_behind_next(l: Layout, tail: int, page: int)
    requires
        l.wf(),
        l.has(tail),
        l.has(page),
    ensures
        l.has(l.next(page)),
        behind(l, tail, l.next(page)) == if behind(l, tail, page) >= 1 {
            behind(l, tail, page) - 1
        } else {
            l.pages - 1
        },
        page != l.next(page),
        behind(l, l.next(tail), page) == if page == l.next(tail) {
            0
        } else {
            behind(l, tail, page) + 1
        },
{
}

/// The first page in a state is the one with the lowest index.
pub proof fn lemma_first_is_lowest(l: Layout, mem: Seq<u8>, want: PageState, lowest: int, skip: int)
    requires
        l.wf(),
        l.has(lowest),
        0 <= skip <= lowest,
        l.state(mem, lowest) == Some(want),
        forall|q: int| 0 <= q < lowest ==> #[trigger] l.state(mem, q) is Some && l.state(mem, q)
            != Some(want),
    ensures
        l.first_in_state(mem, 0, want, skip) == Ok::<Option<int>, ()>(Some(lowest)),
    decreases lowest - skip,
{
    vstd::arithmetic::div_mod::lemma_small_mod(skip as nat, l.pages as nat);
    if skip < lowest {
        assert(l.state(mem, skip) is Some);
        lemma_first_is_lowest(l, mem, want, lowest, skip + 1);
    }
}

/// Where no page is in a state, none is found.
pub proof fn lemma_first_none(l: Layout, mem: Seq<u8>, want: PageState, skip: int)
    requires
        l.wf(),
        0 <= skip,
        forall|q: int| l.has(q) ==> #[trigger] l.state(mem, q) is Some && l.state(mem, q) != Some(
            want,
        ),
    ensures
        l.first_in_state(mem, 0, want, skip) == Ok::<Option<int>, ()>(None),
    decreases l.pages - skip,
{
    if skip < l.pages {
        vstd::arithmetic::div_mod::lemma_small_mod(skip as nat, l.pages as nat);
        assert(l.state(mem, skip) is Some);
        lemma_first_none(l, mem, want, skip + 1);
    }
}

/// Along a chain, the search through the pages looks at the pages of the
/// chain one after the other.
pub proof fn lemma_search_is_among<I: StorageItem>(
    l: Layout,
    mem: Seq<u8>,
    key: I::Key,
    tail: int,
    closed: int,
    page: int,
    visited: int,
)
    requires
        l.wf(),
        chain(l, mem, tail, closed),
        l.has(page),
        behind(l, tail, page) <= closed,
        1 <= visited,
        visited + closed - behind(l, tail, page) < l.pages,
    ensures
        search_back::<I>(l, mem, key, page, visited) == newest_among::<I>(
            l,
            mem,
            key,
            page,
            closed - behind(l, tail, page) + 1,
        ),
    decreases closed - behind(l, tail, page),
{
    lemma_behind_previous(l, tail, page);
    let before = l.previous(page);
    if behind(l, tail, page) < closed {
        assert(l.state(mem, before) == Some(PageState::Closed));
        lemma_search_is_among::<I>(l, mem, key, tail, closed, before, visited + 1);
    } else {
        assert(l.state(mem, before) == Some(PageState::Open));
        assert(newest_among::<I>(l, mem, key, before, 0) == Ok::<
            Option<Located<I>>,
            Fault<I::Error>,
        >(None));
    }
}

/// In a ring the search starts at the page that items are appended to and
/// goes through the closed pages behind it.
pub proof fn lemma_newest_in_ring<I: StorageItem>(
    l: Layout,
    mem: Seq<u8>,
    key: I::Key,
    tail: int,
    closed: int,
)
    requires
        l.wf(),
        ring(l, mem, tail, closed),
    ensures
        l.first_in_state(mem, 0, PageState::PartialOpen, 0) == Ok::<Option<int>, ()>(Some(tail)),
        newest_item::<I>(l, mem, key) == newest_among::<I>(l, mem, key, tail, closed + 1),
{
    assert forall|q: int| 0 <= q < tail implies #[trigger] l.state(mem, q) is Some && l.state(
        mem,
        q,
    ) != Some(PageState::PartialOpen) by {
        lemma_behind_previous(l, tail, q);
    }
    lemma_first_is_lowest(l, mem, PageState::PartialOpen, tail, 0);
    assert(chain(l, mem, tail, closed));
    lemma_search_is_among::<I>(l, mem, key, tail, closed, tail, 1);
}

/// Where all pages are blank there is no item.
pub proof fn lemma_newest_all_open<I: StorageItem>(l: Layout, mem: Seq<u8>, key: I::Key)
    requires
        l.wf(),
        all_open(l, mem),
    ensures
        l.first_in_state(mem, 0, PageState::PartialOpen, 0) == Ok::<Option<int>, ()>(None),
        l.first_in_state(mem, 0, PageState::Open, 0) == Ok::<Option<int>, ()>(Some(0)),
        newest_item::<I>(l, mem, key) == Ok::<Option<Located<I>>, Fault<I::Error>>(None),
{
    lemma_first_none(l, mem, PageState::PartialOpen, 0);
    assert(l.has(0));
    lemma_first_is_lowest(l, mem, PageState::Open, 0, 0);
    assert(l.has(l.previous(0)));
}

/// Between closing a page and making the next one ready, the search starts at
/// the page that was closed and goes through all pages but the blank one.
pub proof fn lemma_newest_in_closed_ring<I: StorageItem>(
    l: Layout,
    mem: Seq<u8>,
    key: I::Key,
    tail: int,
)
    requires
        l.wf(),
        closed_ring(l, mem, tail),
    ensures
        l.first_in_state(mem, 0, PageState::PartialOpen, 0) == Ok::<Option<int>, ()>(None),
        l.first_in_state(mem, 0, PageState::Open, 0) == Ok::<Option<int>, ()>(
            Some(l.next(tail)),
        ),
        newest_item::<I>(l, mem, key) == newest_among::<I>(l, mem, key, tail, l.pages - 1),
{
    let target = l.next(tail);
    lemma_behind_next(l, tail, tail);
    assert(behind(l, tail, target) == l.pages - 1);
    assert forall|q: int| l.has(q) implies #[trigger] l.state(mem, q) is Some && l.state(mem, q)
        != Some(PageState::PartialOpen) by {
        lemma_behind_previous(l, tail, q);
    }
    lemma_first_none(l, mem, PageState::PartialOpen, 0);
    assert forall|q: int| 0 <= q < target implies #[trigger] l.state(mem, q) is Some && l.state(
        mem,
        q,
    ) != Some(PageState::Open) by {
        lemma_behind_previous(l, tail, q);
    }
    lemma_first_is_lowest(l, mem, PageState::Open, target, 0);
    assert(l.previous(target) == tail);
    lemma_search_is_among::<I>(l, mem, key, tail, l.pages - 2, tail, 1);
}

/// In a ring items are appended to one page and no other, the page behind it
/// is blank, and every page is in one of the three states.
pub proof fn lemma_ring_pages(l: Layout, mem: Seq<u8>, tail: int, closed: int)
    requires
        l.wf(),
        ring(l, mem, tail, closed),
    ensures
        l.state(mem, tail) == Some(PageState::PartialOpen),
        l.has(l.next(tail)),
        l.state(mem, l.next(tail)) == Some(PageState::Open),
        forall|q: int|
            l.has(q) && q != tail ==> #[trigger] l.state(mem, q) == Some(PageState::Open)
                || l.state(mem, q) == Some(PageState::Closed),
{
    lemma_behind_next(l, tail, tail);
    assert forall|q: int| l.has(q) && q != tail implies #[trigger] l.state(mem, q) == Some(
        PageState::Open,
    ) || l.state(mem, q) == Some(PageState::Closed) by {
        lemma_behind_previous(l, tail, q);
    }
}

} // verus!
