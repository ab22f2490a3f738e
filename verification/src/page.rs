//! The ring of pages and the two marker words that give each page its state.
//!
//! A region `[start, end)` of flash is divided into pages of one erase unit
//! each. The first and the last word of a page are markers; the bytes between
//! them are the page's data zone.

use crate::flash::{
    fault_in, filled, is_erased, programmed, same_in, with_fault, NorFlash, ERASED_BYTE,
};
use core::ops::Range;
use vstd::prelude::*;

verus! {

/// What is written into a marker word, in each of its bytes.
pub const MARKER: u8 = 0;

/// The errors of the page layer.
#[non_exhaustive]
#[derive(Debug, PartialEq, Eq)]
pub enum Error<S> {
    /// The flash driver reported a fault.
    Storage(S),
    /// Nothing can be stored any more because the storage is full.
    FullStorage,
    /// The markers found on the flash cannot be the result of regular use.
    Corrupted,
    /// A buffer handed in was too big.
    BufferTooBig,
    /// A buffer handed in was too small.
    BufferTooSmall,
}

/// The state of a page, as its two markers give it.
#[derive(Debug, Clone, Copy, PartialEq, Eq, Structural)]
pub enum PageState {
    /// Both markers are written: the page is full and stays as it is until it
    /// is erased.
    Closed,
    /// Only the first marker is written: items are being appended.
    PartialOpen,
    /// No marker is written: the page is blank.
    Open,
}

impl PageState {
    /// Whether the state is `Closed`.
    pub fn is_closed(&self) -> (r: bool)
        ensures
            r == (*self == PageState::Closed),
    {
        matches!(self, PageState::Closed)
    }

    /// Whether the state is `Open`.
    pub fn is_open(&self) -> (r: bool)
        ensures
            r == (*self == PageState::Open),
    {
        matches!(self, PageState::Open)
    }
}

/// How a region of flash is divided: `pages` pages of `page_size` bytes each
/// from address `start` on, written in words of `word_size` bytes.
pub struct Layout {
    /// The address of the first byte of the region.
    pub start: int,
    /// The number of pages.
    pub pages: int,
    /// The number of bytes of a page.
    pub page_size: int,
    /// The number of bytes of a word.
    pub word_size: int,
}

impl Layout {
    /// At least two pages, each with room for the two markers and at least
    /// one word of data, all within the range of 32-bit addresses.
    pub open spec fn wf(self) -> bool {
        &&& 0 <= self.start
        &&& 2 <= self.pages
        &&& 1 <= self.word_size
        &&& 3 * self.word_size <= self.page_size
        &&& self.start + self.pages * self.page_size <= u32::MAX
    }

    /// Whether `page` is an index of the ring.
    pub open spec fn has(self, page: int) -> bool {
        0 <= page < self.pages
    }

    /// The address of the first byte of `page`.
    pub open spec fn page_start(self, page: int) -> int {
        self.start + page * self.page_size
    }

    /// The address just behind the last byte of `page`.
    pub open spec fn page_end(self, page: int) -> int {
        self.start + (page + 1) * self.page_size
    }

    /// The address of the first byte of the data zone of `page`.
    pub open spec fn data_start(self, page: int) -> int {
        self.page_start(page) + self.word_size
    }

    /// The address just behind the data zone of `page`.
    pub open spec fn data_end(self, page: int) -> int {
        self.page_end(page) - self.word_size
    }

    /// The number of bytes in the data zone of a page.
    pub open spec fn data_len(self) -> int {
        self.page_size - 2 * self.word_size
    }

    /// The successor of `page` on the ring.
    pub open spec fn next(self, page: int) -> int {
        if page + 1 >= self.pages {
            0
        } else {
            page + 1
        }
    }

    /// The predecessor of `page` on the ring.
    pub open spec fn previous(self, page: int) -> int {
        if page <= 0 {
            self.pages - 1
        } else {
            page - 1
        }
    }

    /// The page that the address `address` lies in.
    pub open spec fn page_of(self, address: int) -> int {
        (address - self.start) / self.page_size
    }

    /// The data zone of `page` as it stands in `mem`.
    pub open spec fn zone(self, mem: Seq<u8>, page: int) -> Seq<u8> {
        Seq::new(self.data_len() as nat, |i: int| mem[self.data_start(page) + i])
    }

    /// The state of `page` as the markers in `mem` give it, or nothing where
    /// the second marker is written and the first is not.
    pub open spec fn state(self, mem: Seq<u8>, page: int) -> Option<PageState> {
        let first_blank = is_erased(mem, self.page_start(page), self.word_size);
        let last_blank = is_erased(mem, self.data_end(page), self.word_size);
        if first_blank && last_blank {
            Some(PageState::Open)
        } else if !first_blank && last_blank {
            Some(PageState::PartialOpen)
        } else if !first_blank && !last_blank {
            Some(PageState::Closed)
        } else {
            None
        }
    }

    /// The first page in state `want` among the `self.pages - skip` last pages
    /// of the walk that starts at `from` and goes once around the ring.
    /// `Err` where a page whose markers contradict each other comes before
    /// one.
    pub open spec fn first_in_state(
        self,
        mem: Seq<u8>,
        from: int,
        want: PageState,
        skip: int,
    ) -> Result<Option<int>, ()>
        decreases self.pages - skip,
    {
        if skip >= self.pages || skip < 0 {
            Ok(None)
        } else {
            let page = (from + skip) % self.pages;
            match self.state(mem, page) {
                None => Err(()),
                Some(state) => if state == want {
                    Ok(Some(page))
                } else {
                    self.first_in_state(mem, from, want, skip + 1)
                },
            }
        }
    }
}

/// The layout of the region `range` on a flash of type `S`.
pub open spec fn layout_of<S: NorFlash>(range: Range<u32>) -> Layout {
    Layout {
        start: range.start as int,
        pages: (range.end - range.start) / (S::ERASE_SIZE as int),
        page_size: S::ERASE_SIZE as int,
        word_size: S::WRITE_SIZE as int,
    }
}

/// What a region must be like to hold a store: both ends are multiples of the
/// page size, it spans at least two pages, a page holds at least three words,
/// and the flash can be read byte by byte.
pub open spec fn valid_region<S: NorFlash>(range: Range<u32>) -> bool {
    &&& S::READ_SIZE == 1
    &&& S::WRITE_SIZE >= 1
    &&& S::ERASE_SIZE >= 3 * S::WRITE_SIZE
    &&& range.start as int % S::ERASE_SIZE as int == 0
    &&& range.end as int % S::ERASE_SIZE as int == 0
    &&& range.end - range.start >= 2 * S::ERASE_SIZE
}

/// A valid region is divided into whole pages, and its layout is well formed.
pub proof fn lemma_valid_region<S: NorFlash>(range: Range<u32>)
    requires
        valid_region::<S>(range),
    ensures
        layout_of::<S>(range).wf(),
        layout_of::<S>(range).pages * S::ERASE_SIZE == range.end - range.start,
{
    let e = S::ERASE_SIZE as int;
    let a = range.start as int;
    let b = range.end as int;
    vstd::arithmetic::div_mod::lemma_fundamental_div_mod(a, e);
    vstd::arithmetic::div_mod::lemma_fundamental_div_mod(b, e);
    let q = b / e - a / e;
    assert(b - a == q * e) by (nonlinear_arith)
        requires
            a == e * (a / e),
            b == e * (b / e),
            q == b / e - a / e,
    ;
    vstd::arithmetic::div_mod::lemma_fundamental_div_mod_converse(b - a, e, q, 0);
    assert(q >= 2) by (nonlinear_arith)
        requires
            q * e >= 2 * e,
            e >= 3,
    ;
}

/// The pages of a layout lie one after the other within the region.
pub proof fn lemma_page_bounds(l: Layout, page: int)
    requires
        l.wf(),
        l.has(page),
    ensures
        l.start <= l.page_start(page),
        l.page_start(page) + l.page_size == l.page_end(page),
        l.page_end(page) <= l.start + l.pages * l.page_size,
        l.page_start(page) < l.data_start(page) < l.data_end(page) < l.page_end(page),
        l.data_end(page) - l.data_start(page) == l.data_len(),
        l.page_of(l.page_start(page)) == page,
{
    let e = l.page_size;
    let n = l.pages;
    assert(page * e >= 0 && (page + 1) * e == page * e + e && (page + 1) * e <= n * e
        && (page * e) / e == page) by (nonlinear_arith)
        requires
            0 <= page < n,
            e >= 3,
    ;
}

/// The number of pages of the region.
pub fn page_count<S: NorFlash>(flash_range: &Range<u32>) -> (count: usize)
    requires
        valid_region::<S>(*flash_range),
    ensures
        count == layout_of::<S>(*flash_range).pages,
{
    (flash_range.end - flash_range.start) as usize / S::ERASE_SIZE
}

/// The address of the first byte of a page.
pub fn calculate_page_address<S: NorFlash>(flash_range: &Range<u32>, page_index: usize) -> (address:
    u32)
    requires
        valid_region::<S>(*flash_range),
        layout_of::<S>(*flash_range).has(page_index as int),
    ensures
        address == layout_of::<S>(*flash_range).page_start(page_index as int),
{
    proof {
        lemma_valid_region::<S>(*flash_range);
        lemma_page_bounds(layout_of::<S>(*flash_range), page_index as int);
        assert(S::ERASE_SIZE * page_index == page_index * S::ERASE_SIZE) by (nonlinear_arith);
    }
    flash_range.start + (S::ERASE_SIZE * page_index) as u32
}

/// The address just behind the last byte of a page.
pub fn calculate_page_end_address<S: NorFlash>(
    flash_range: &Range<u32>,
    page_index: usize,
) -> (address: u32)
    requires
        valid_region::<S>(*flash_range),
        layout_of::<S>(*flash_range).has(page_index as int),
    ensures
        address == layout_of::<S>(*flash_range).page_end(page_index as int),
{
    proof {
        lemma_valid_region::<S>(*flash_range);
        lemma_page_bounds(layout_of::<S>(*flash_range), page_index as int);
        assert(S::ERASE_SIZE * (page_index + 1) == (page_index + 1) * S::ERASE_SIZE)
            by (nonlinear_arith);
    }
    flash_range.start + (S::ERASE_SIZE * (page_index + 1)) as u32
}

/// The page that an address of the region lies in.
pub fn calculate_page_index<S: NorFlash>(flash_range: &Range<u32>, address: u32) -> (page_index:
    usize)
    requires
        valid_region::<S>(*flash_range),
        flash_range.start <= address,
    ensures
        page_index == layout_of::<S>(*flash_range).page_of(address as int),
{
    (address - flash_range.start) as usize / S::ERASE_SIZE
}

/// A walk once around the ring of `count` pages, which starts at the page
/// `start` and has passed `taken` pages so far.
pub struct PageWalk {
    /// The number of pages of the ring.
    pub count: usize,
    /// The page that the walk starts at.
    pub start: usize,
    /// The number of pages passed so far.
    pub taken: usize,
}

impl PageWalk {
    /// The walk starts on the ring and has not gone further than once around
    /// it.
    pub open spec fn wf(&self) -> bool {
        &&& self.start < self.count
        &&& self.taken <= self.count
        &&& 2 * self.count <= usize::MAX
    }

    /// The pages that the walk has still to pass, in order.
    pub open spec fn remaining(&self) -> Seq<int> {
        Seq::new(
            (self.count - self.taken) as nat,
            |i: int| (self.start + self.taken + i) % self.count as int,
        )
    }

    /// The next page of the walk, or nothing when it has gone around the
    /// ring.
    pub fn next(&mut self) -> (page: Option<usize>)
        requires
            old(self).wf(),
        ensures
            final(self).wf(),
            final(self).count == old(self).count,
            final(self).start == old(self).start,
            match page {
                Some(index) => {
                    &&& old(self).taken < old(self).count
                    &&& final(self).taken == old(self).taken + 1
                    &&& index == (old(self).start + old(self).taken) % old(self).count as int
                    &&& index < old(self).count
                    &&& old(self).remaining() == seq![index as int] + final(self).remaining()
                },
                None => {
                    &&& old(self).taken == old(self).count
                    &&& final(self).taken == old(self).taken
                    &&& old(self).remaining() == Seq::<int>::empty()
                },
            },
    {
        if self.taken >= self.count {
            assert(self.remaining() =~= Seq::<int>::empty());
            return None;
        }
        let index = (self.start + self.taken) % self.count;
        let ghost before = *self;
        self.taken = self.taken + 1;
        assert(before.remaining() =~= seq![index as int] + self.remaining());
        Some(index)
    }
}

/// The walk over all pages of the region that starts at
/// `starting_page_index`.
pub fn get_pages<S: NorFlash>(flash_range: &Range<u32>, starting_page_index: usize) -> (pages:
    PageWalk)
    requires
        valid_region::<S>(*flash_range),
        layout_of::<S>(*flash_range).has(starting_page_index as int),
    ensures
        pages.wf(),
        pages.count == layout_of::<S>(*flash_range).pages,
        pages.start == starting_page_index,
        pages.taken == 0,
{
    proof {
        lemma_valid_region::<S>(*flash_range);
        let l = layout_of::<S>(*flash_range);
        assert(l.pages <= u32::MAX / 3) by (nonlinear_arith)
            requires
                l.pages * l.page_size <= u32::MAX,
                l.page_size >= 3,
                l.pages >= 0,
        ;
    }
    PageWalk { count: page_count::<S>(flash_range), start: starting_page_index, taken: 0 }
}

/// The page after `page_index` on the ring.
pub fn next_page<S: NorFlash>(flash_range: &Range<u32>, page_index: usize) -> (next: usize)
    requires
        valid_region::<S>(*flash_range),
        layout_of::<S>(*flash_range).has(page_index as int),
    ensures
        next == layout_of::<S>(*flash_range).next(page_index as int),
        layout_of::<S>(*flash_range).has(next as int),
{
    let count = page_count::<S>(flash_range);
    if page_index + 1 >= count {
        0
    } else {
        page_index + 1
    }
}

/// The page before `page_index` on the ring.
pub fn previous_page<S: NorFlash>(flash_range: &Range<u32>, page_index: usize) -> (previous: usize)
    requires
        valid_region::<S>(*flash_range),
        layout_of::<S>(*flash_range).has(page_index as int),
    ensures
        previous == layout_of::<S>(*flash_range).previous(page_index as int),
        layout_of::<S>(*flash_range).has(previous as int),
{
    let count = page_count::<S>(flash_range);
    if page_index == 0 {
        count - 1
    } else {
        page_index - 1
    }
}

impl<S> Error<S> {
    /// The fault of the flash driver that the error hands on, if it is one.
    pub open spec fn driver_fault(self) -> Option<S> {
        match self {
            Error::Storage(e) => Some(e),
            _ => None,
        }
    }
}

/// The fault of the flash driver that the result hands on, if it does.
pub open spec fn page_fault<V, S>(r: Result<V, Error<S>>) -> Option<S> {
    match r {
        Err(e) => e.driver_fault(),
        Ok(_) => None,
    }
}

/// The store meets no fault of the driver on this flash: the device can be
/// depended on, the region lies within it, and a page is a whole number of
/// words.
pub open spec fn faultless<S: NorFlash>(flash: S, range: Range<u32>) -> bool {
    &&& flash.dependable()
    &&& range.end <= flash.bytes().len()
    &&& S::ERASE_SIZE as int % S::WRITE_SIZE as int == 0
}

/// Where the region starts at a multiple of the page size and a page is a
/// whole number of words, the pages and their data zones start and end at
/// multiples of the word size, and the pages at multiples of the page size.
pub proof fn lemma_aligned(l: Layout, page: int)
    requires
        l.wf(),
        l.has(page),
        l.start % l.page_size == 0,
        l.page_size % l.word_size == 0,
    ensures
        l.page_start(page) % l.page_size == 0,
        l.page_end(page) % l.page_size == 0,
        l.page_start(page) % l.word_size == 0,
        l.page_end(page) % l.word_size == 0,
        l.data_start(page) % l.word_size == 0,
        l.data_end(page) % l.word_size == 0,
        l.data_len() % l.word_size == 0,
{
    let e = l.page_size;
    let w = l.word_size;
    vstd::arithmetic::div_mod::lemma_fundamental_div_mod(l.start, e);
    vstd::arithmetic::div_mod::lemma_fundamental_div_mod(e, w);
    let a = l.start / e;
    let b = e / w;
    assert(l.page_start(page) == (a + page) * e && l.page_end(page) == (a + page + 1) * e)
        by (nonlinear_arith)
        requires
            l.start == e * a,
            l.page_start(page) == l.start + page * e,
            l.page_end(page) == l.start + (page + 1) * e,
    ;
    vstd::arithmetic::div_mod::lemma_mod_multiples_basic(a + page, e);
    vstd::arithmetic::div_mod::lemma_mod_multiples_basic(a + page + 1, e);
    assert(l.page_start(page) == ((a + page) * b) * w && l.page_end(page) == ((a + page + 1) * b)
        * w && l.data_start(page) == ((a + page) * b + 1) * w && l.data_end(page) == ((a + page
        + 1) * b - 1) * w && l.data_len() == (b - 2) * w) by (nonlinear_arith)
        requires
            e == w * b,
            l.page_start(page) == (a + page) * e,
            l.page_end(page) == (a + page + 1) * e,
            l.data_start(page) == l.page_start(page) + w,
            l.data_end(page) == l.page_end(page) - w,
            l.data_len() == e - 2 * w,
    ;
    vstd::arithmetic::div_mod::lemma_mod_multiples_basic((a + page) * b, w);
    vstd::arithmetic::div_mod::lemma_mod_multiples_basic((a + page + 1) * b, w);
    vstd::arithmetic::div_mod::lemma_mod_multiples_basic((a + page) * b + 1, w);
    vstd::arithmetic::div_mod::lemma_mod_multiples_basic((a + page + 1) * b - 1, w);
    vstd::arithmetic::div_mod::lemma_mod_multiples_basic(b - 2, w);
}

/// Whether every byte of `bytes` from index `from` on holds the erased value.
pub fn all_erased(bytes: &[u8], from: usize) -> (r: bool)
    requires
        from <= bytes@.len(),
    ensures
        r == is_erased(bytes@, from as int, bytes@.len() - from),
{
    let mut i: usize = from;
    while i < bytes.len()
        invariant
            from <= i <= bytes@.len(),
            is_erased(bytes@, from as int, i - from),
        decreases bytes@.len() - i,
    {
        if bytes[i] != ERASED_BYTE {
            return false;
        }
        i += 1;
    }
    true
}

/// What a read comes to, once the driver has answered: the buffer that it
/// filled, or else the fault that it reported, as it is.
pub fn read_outcome<E>(answer: Result<(), E>, buffer: Vec<u8>) -> (r: Result<Vec<u8>, E>)
    ensures
        r == (match answer {
            Ok(()) => Ok::<Vec<u8>, E>(buffer),
            Err(e) => Err::<Vec<u8>, E>(e),
        }),
{
    match answer {
        Ok(()) => Ok(buffer),
        Err(e) => Err(e),
    }
}

/// Reads `count` bytes at `address`. The driver is asked for exactly these
/// bytes, and it is the driver that decides whether they are had.
pub fn read_bytes<S: NorFlash>(flash: &mut S, address: u32, count: usize) -> (r: Result<
    Vec<u8>,
    S::Error,
>)
    ensures
        final(flash).dependable() == old(flash).dependable(),
        final(flash).faults() == with_fault(old(flash).faults(), fault_in(r)),
        old(flash).dependable() && address + count <= old(flash).bytes().len() ==> r is Ok,
        final(flash).bytes() == old(flash).bytes(),
        final(flash).erase_count() == old(flash).erase_count(),
        r matches Ok(read) ==> {
            &&& address + count <= old(flash).bytes().len()
            &&& read@ == old(flash).bytes().subrange(address as int, address + count)
        },
{
    let mut buffer = filled(count, ERASED_BYTE);
    let answer = flash.read(address, buffer.as_mut_slice());
    read_outcome(answer, buffer)
}

/// A word read from `mem` at `at` is erased exactly if `mem` is erased there.
pub proof fn lemma_word_erased(mem: Seq<u8>, at: int, len: int)
    requires
        0 <= at,
        0 <= len,
        at + len <= mem.len(),
    ensures
        is_erased(mem.subrange(at, at + len), 0, len) == is_erased(mem, at, len),
{
    let word = mem.subrange(at, at + len);
    if is_erased(mem, at, len) {
        assert forall|i: int| 0 <= i < len implies #[trigger] word[i] == ERASED_BYTE by {
            assert(mem[at + i] == ERASED_BYTE);
        }
    }
    if is_erased(word, 0, len) {
        assert forall|i: int| at <= i < at + len implies #[trigger] mem[i] == ERASED_BYTE by {
            assert(word[i - at] == ERASED_BYTE);
        }
    }
}

/// Reads the two markers of a page and gives the state they stand for.
/// `Corrupted` where the second marker is written and the first is not.
pub fn get_page_state<S: NorFlash>(
    flash: &mut S,
    flash_range: &Range<u32>,
    page_index: usize,
) -> (r: Result<PageState, Error<S::Error>>)
    requires
        valid_region::<S>(*flash_range),
        layout_of::<S>(*flash_range).has(page_index as int),
    ensures
        final(flash).dependable() == old(flash).dependable(),
        final(flash).faults() == with_fault(old(flash).faults(), page_fault(r)),
        faultless(*old(flash), *flash_range) ==> !(r matches Err(Error::Storage(_))),
        final(flash).bytes() == old(flash).bytes(),
        final(flash).erase_count() == old(flash).erase_count(),
        match r {
            Ok(state) => layout_of::<S>(*flash_range).state(old(flash).bytes(), page_index as int)
                == Some(state),
            Err(Error::Corrupted) => layout_of::<S>(*flash_range).state(
                old(flash).bytes(),
                page_index as int,
            ) is None,
            Err(Error::Storage(_)) => true,
            Err(_) => false,
        },
        !(r matches Err(Error::Storage(_))) ==> layout_of::<S>(*flash_range).page_end(
            page_index as int,
        ) <= old(flash).bytes().len(),
{
    let ghost l = layout_of::<S>(*flash_range);
    let ghost mem = flash.bytes();
    proof {
        lemma_valid_region::<S>(*flash_range);
        lemma_page_bounds(l, page_index as int);
    }
    let first_address = calculate_page_address::<S>(flash_range, page_index);
    let last_address = calculate_page_end_address::<S>(flash_range, page_index) - S::WRITE_SIZE
        as u32;
    let first = match read_bytes(flash, first_address, S::WRITE_SIZE) {
        Ok(word) => word,
        Err(e) => {
            return Err(Error::Storage(e));
        },
    };
    let last = match read_bytes(flash, last_address, S::WRITE_SIZE) {
        Ok(word) => word,
        Err(e) => {
            return Err(Error::Storage(e));
        },
    };
    proof {
        lemma_word_erased(mem, first_address as int, S::WRITE_SIZE as int);
        lemma_word_erased(mem, last_address as int, S::WRITE_SIZE as int);
    }
    let first_blank = all_erased(first.as_slice(), 0);
    let last_blank = all_erased(last.as_slice(), 0);
    if first_blank && last_blank {
        Ok(PageState::Open)
    } else if !first_blank && last_blank {
        Ok(PageState::PartialOpen)
    } else if !first_blank && !last_blank {
        Ok(PageState::Closed)
    } else {
        Err(Error::Corrupted)
    }
}

/// Where `first_in_state` finds a page, the page is on the ring and in the
/// state asked for.
pub proof fn lemma_first_in_state(l: Layout, mem: Seq<u8>, from: int, want: PageState, skip: int)
    requires
        l.wf(),
        0 <= from,
        0 <= skip,
    ensures
        l.first_in_state(mem, from, want, skip) matches Ok(Some(page)) ==> l.has(page) && l.state(
            mem,
            page,
        ) == Some(want),
    decreases l.pages - skip,
{
    if skip < l.pages {
        lemma_first_in_state(l, mem, from, want, skip + 1);
    }
}

/// Looks for the first page in the state `page_state`, going once around the
/// ring from `starting_page_index`.
pub fn find_first_page<S: NorFlash>(
    flash: &mut S,
    flash_range: &Range<u32>,
    starting_page_index: usize,
    page_state: PageState,
) -> (r: Result<Option<usize>, Error<S::Error>>)
    requires
        valid_region::<S>(*flash_range),
        layout_of::<S>(*flash_range).has(starting_page_index as int),
    ensures
        final(flash).dependable() == old(flash).dependable(),
        final(flash).faults() == with_fault(old(flash).faults(), page_fault(r)),
        faultless(*old(flash), *flash_range) ==> !(r matches Err(Error::Storage(_))),
        final(flash).bytes() == old(flash).bytes(),
        final(flash).erase_count() == old(flash).erase_count(),
        match r {
            Ok(Some(page)) => {
                &&& layout_of::<S>(*flash_range).first_in_state(
                    old(flash).bytes(),
                    starting_page_index as int,
                    page_state,
                    0,
                ) == Ok::<Option<int>, ()>(Some(page as int))
                &&& layout_of::<S>(*flash_range).has(page as int)
                &&& layout_of::<S>(*flash_range).state(old(flash).bytes(), page as int) == Some(
                    page_state,
                )
                &&& layout_of::<S>(*flash_range).page_end(page as int) <= old(flash).bytes().len()
            },
            Ok(None) => layout_of::<S>(*flash_range).first_in_state(
                old(flash).bytes(),
                starting_page_index as int,
                page_state,
                0,
            ) == Ok::<Option<int>, ()>(None),
            Err(Error::Corrupted) => layout_of::<S>(*flash_range).first_in_state(
                old(flash).bytes(),
                starting_page_index as int,
                page_state,
                0,
            ) is Err,
            Err(Error::Storage(_)) => true,
            Err(_) => false,
        },
{
    let ghost l = layout_of::<S>(*flash_range);
    let ghost mem = flash.bytes();
    proof {
        lemma_valid_region::<S>(*flash_range);
    }
    let mut pages = get_pages::<S>(flash_range, starting_page_index);
    loop
        invariant
            valid_region::<S>(*flash_range),
            l == layout_of::<S>(*flash_range),
            l.wf(),
            pages.wf(),
            pages.count == l.pages,
            pages.start == starting_page_index,
            flash.bytes() == mem,
            mem == old(flash).bytes(),
            flash.erase_count() == old(flash).erase_count(),
            flash.dependable() == old(flash).dependable(),
            flash.faults() == old(flash).faults(),
            l.first_in_state(mem, starting_page_index as int, page_state, 0) == l.first_in_state(
                mem,
                starting_page_index as int,
                page_state,
                pages.taken as int,
            ),
        decreases pages.count - pages.taken,
    {
        let Some(page_index) = pages.next() else {
            return Ok(None);
        };
        match get_page_state(flash, flash_range, page_index) {
            Ok(state) => {
                if state == page_state {
                    return Ok(Some(page_index));
                }
            },
            Err(Error::Storage(e)) => {
                return Err(Error::Storage(e));
            },
            Err(_) => {
                return Err(Error::Corrupted);
            },
        }
    }
}

/// `len` bytes of marker.
pub open spec fn marker_word(len: int) -> Seq<u8> {
    Seq::new(len as nat, |i: int| MARKER)
}

/// Writes the first marker of a blank page, which makes it the page that
/// items are appended to.
pub fn partial_close_page<S: NorFlash>(
    flash: &mut S,
    flash_range: &Range<u32>,
    page_index: usize,
) -> (r: Result<(), Error<S::Error>>)
    requires
        valid_region::<S>(*flash_range),
        layout_of::<S>(*flash_range).has(page_index as int),
        layout_of::<S>(*flash_range).state(old(flash).bytes(), page_index as int) == Some(
            PageState::Open,
        ),
    ensures
        final(flash).dependable() == old(flash).dependable(),
        final(flash).faults() == with_fault(old(flash).faults(), page_fault(r)),
        faultless(*old(flash), *flash_range) ==> !(r matches Err(Error::Storage(_))),
        same_in(
            old(flash).bytes(),
            final(flash).bytes(),
            0,
            layout_of::<S>(*flash_range).page_start(page_index as int),
        ),
        same_in(
            old(flash).bytes(),
            final(flash).bytes(),
            layout_of::<S>(*flash_range).data_start(page_index as int),
            old(flash).bytes().len() as int,
        ),
        final(flash).bytes().len() == old(flash).bytes().len(),
        final(flash).erase_count() == old(flash).erase_count(),
        r is Err ==> r matches Err(Error::Storage(_)),
        r is Ok ==> final(flash).bytes() == programmed(
            old(flash).bytes(),
            layout_of::<S>(*flash_range).page_start(page_index as int),
            marker_word(S::WRITE_SIZE as int),
        ),
{
    proof {
        lemma_valid_region::<S>(*flash_range);
        lemma_page_bounds(layout_of::<S>(*flash_range), page_index as int);
        if S::ERASE_SIZE as int % S::WRITE_SIZE as int == 0 {
            lemma_aligned(layout_of::<S>(*flash_range), page_index as int);
        }
    }
    let address = calculate_page_address::<S>(flash_range, page_index);
    write_marker::<S>(flash, flash_range, page_index, address)
}

/// Writes the second marker of the page that items are appended to, which
/// closes it.
pub fn close_page<S: NorFlash>(flash: &mut S, flash_range: &Range<u32>, page_index: usize) -> (r:
    Result<(), Error<S::Error>>)
    requires
        valid_region::<S>(*flash_range),
        layout_of::<S>(*flash_range).has(page_index as int),
        layout_of::<S>(*flash_range).state(old(flash).bytes(), page_index as int) == Some(
            PageState::PartialOpen,
        ),
    ensures
        final(flash).dependable() == old(flash).dependable(),
        final(flash).faults() == with_fault(old(flash).faults(), page_fault(r)),
        faultless(*old(flash), *flash_range) ==> !(r matches Err(Error::Storage(_))),
        same_in(
            old(flash).bytes(),
            final(flash).bytes(),
            0,
            layout_of::<S>(*flash_range).data_end(page_index as int),
        ),
        same_in(
            old(flash).bytes(),
            final(flash).bytes(),
            layout_of::<S>(*flash_range).page_end(page_index as int),
            old(flash).bytes().len() as int,
        ),
        final(flash).bytes().len() == old(flash).bytes().len(),
        final(flash).erase_count() == old(flash).erase_count(),
        r is Err ==> r matches Err(Error::Storage(_)),
        r is Ok ==> final(flash).bytes() == programmed(
            old(flash).bytes(),
            layout_of::<S>(*flash_range).data_end(page_index as int),
            marker_word(S::WRITE_SIZE as int),
        ),
{
    proof {
        lemma_valid_region::<S>(*flash_range);
        lemma_page_bounds(layout_of::<S>(*flash_range), page_index as int);
        if S::ERASE_SIZE as int % S::WRITE_SIZE as int == 0 {
            lemma_aligned(layout_of::<S>(*flash_range), page_index as int);
        }
    }
    let address = calculate_page_end_address::<S>(flash_range, page_index) - S::WRITE_SIZE as u32;
    write_marker::<S>(flash, flash_range, page_index, address)
}

/// Writes one marker word at `address`, which lies in the page `page_index`.
fn write_marker<S: NorFlash>(
    flash: &mut S,
    flash_range: &Range<u32>,
    page_index: usize,
    address: u32,
) -> (r: Result<(), Error<S::Error>>)
    requires
        valid_region::<S>(*flash_range),
        layout_of::<S>(*flash_range).has(page_index as int),
        layout_of::<S>(*flash_range).page_start(page_index as int) <= address,
        address + S::WRITE_SIZE <= layout_of::<S>(*flash_range).page_end(page_index as int),
    ensures
        final(flash).dependable() == old(flash).dependable(),
        final(flash).faults() == with_fault(old(flash).faults(), page_fault(r)),
        faultless(*old(flash), *flash_range) && address as int % S::WRITE_SIZE as int == 0 ==> r
            is Ok,
        same_in(old(flash).bytes(), final(flash).bytes(), 0, address as int),
        same_in(
            old(flash).bytes(),
            final(flash).bytes(),
            address + S::WRITE_SIZE,
            old(flash).bytes().len() as int,
        ),
        final(flash).bytes().len() == old(flash).bytes().len(),
        final(flash).erase_count() == old(flash).erase_count(),
        r is Err ==> r matches Err(Error::Storage(_)),
        r is Ok ==> address + S::WRITE_SIZE <= old(flash).bytes().len(),
        r is Ok ==> final(flash).bytes() == programmed(
            old(flash).bytes(),
            address as int,
            marker_word(S::WRITE_SIZE as int),
        ),
{
    proof {
        lemma_valid_region::<S>(*flash_range);
        lemma_page_bounds(layout_of::<S>(*flash_range), page_index as int);
    }
    let word = filled(S::WRITE_SIZE, MARKER);
    assert(word@ =~= marker_word(S::WRITE_SIZE as int));
    match flash.write(address, word.as_slice()) {
        Ok(()) => Ok(()),
        Err(e) => Err(Error::Storage(e)),
    }
}

/// The two memories hold the same bytes in the page `page`.
pub open spec fn page_kept(l: Layout, a: Seq<u8>, b: Seq<u8>, page: int) -> bool {
    same_in(a, b, l.page_start(page), l.page_end(page))
}

/// The two memories hold the same bytes everywhere but in the pages `p` and
/// `q`.
pub open spec fn kept_but(l: Layout, a: Seq<u8>, b: Seq<u8>, p: int, q: int) -> bool {
    forall|i: int|
        #![trigger a[i]]
        #![trigger b[i]]
        0 <= i < a.len() && !(l.page_start(p) <= i < l.page_end(p)) && !(l.page_start(q) <= i
            < l.page_end(q)) ==> a[i] == b[i]
}

/// The state of a page is a matter of its two marker words alone.
pub proof fn lemma_state_same(l: Layout, a: Seq<u8>, b: Seq<u8>, page: int)
    requires
        same_in(a, b, l.page_start(page), l.data_start(page)),
        same_in(a, b, l.data_end(page), l.page_end(page)),
    ensures
        l.state(a, page) == l.state(b, page),
{
    assert(l.data_end(page) + l.word_size == l.page_end(page)) by (nonlinear_arith)
        requires
            l.data_end(page) == l.start + (page + 1) * l.page_size - l.word_size,
            l.page_end(page) == l.start + (page + 1) * l.page_size,
    ;
}

/// The data zone of a page is a matter of the bytes between its two marker
/// words alone.
pub proof fn lemma_zone_same(l: Layout, a: Seq<u8>, b: Seq<u8>, page: int)
    requires
        l.wf(),
        same_in(a, b, l.data_start(page), l.data_end(page)),
    ensures
        l.zone(a, page) == l.zone(b, page),
{
    assert(l.data_start(page) + l.data_len() == l.data_end(page)) by (nonlinear_arith)
        requires
            l.data_start(page) == l.start + page * l.page_size + l.word_size,
            l.data_end(page) == l.start + (page + 1) * l.page_size - l.word_size,
            l.data_len() == l.page_size - 2 * l.word_size,
    ;
    assert(l.zone(a, page) =~= l.zone(b, page));
}

/// Different pages do not overlap.
pub proof fn lemma_pages_apart(l: Layout, p: int, q: int)
    requires
        l.wf(),
        p < q,
    ensures
        l.page_end(p) <= l.page_start(q),
{
    assert((p + 1) * l.page_size <= q * l.page_size) by (nonlinear_arith)
        requires
            p + 1 <= q,
            l.page_size >= 0,
    ;
}

/// Every page that is closed in `a` and is not among `recycled` holds the same
/// bytes in `b`.
pub open spec fn closed_kept(l: Layout, a: Seq<u8>, b: Seq<u8>, recycled: Set<int>) -> bool {
    forall|q: int|
        l.has(q) && l.page_end(q) <= a.len() && #[trigger] l.state(a, q) == Some(
            PageState::Closed,
        ) && !recycled.contains(q) ==> page_kept(l, a, b, q)
}

/// The two memories hold the same bytes outside the region.
pub open spec fn outside_kept(l: Layout, a: Seq<u8>, b: Seq<u8>) -> bool {
    forall|i: int|
        #![trigger a[i]]
        #![trigger b[i]]
        0 <= i < a.len() && !(l.start <= i < l.start + l.pages * l.page_size) ==> a[i] == b[i]
}

/// A change within one page that is not closed, and within another that is
/// recycled, keeps the closed pages and what lies outside the region.
pub proof fn lemma_kept_step(
    l: Layout,
    a: Seq<u8>,
    b: Seq<u8>,
    p: int,
    q: int,
    recycled: Set<int>,
)
    requires
        l.wf(),
        l.has(p),
        l.has(q),
        a.len() == b.len(),
        kept_but(l, a, b, p, q),
        l.state(a, p) != Some(PageState::Closed),
        q == p || recycled.contains(q),
    ensures
        closed_kept(l, a, b, recycled),
        outside_kept(l, a, b),
{
    lemma_page_bounds(l, p);
    lemma_page_bounds(l, q);
    assert forall|r: int|
        l.has(r) && l.page_end(r) <= a.len() && #[trigger] l.state(a, r) == Some(
            PageState::Closed,
        ) && !recycled.contains(r) implies page_kept(l, a, b, r) by {
        lemma_page_bounds(l, r);
        if r < p {
            lemma_pages_apart(l, r, p);
        } else if p < r {
            lemma_pages_apart(l, p, r);
        }
        if r < q {
            lemma_pages_apart(l, r, q);
        } else if q < r {
            lemma_pages_apart(l, q, r);
        }
    }
}

/// A change at the one end of a page's data zone or the other, or between,
/// is a change within the page.
pub proof fn lemma_kept_in_page(l: Layout, a: Seq<u8>, b: Seq<u8>, page: int, from: int, to: int)
    requires
        l.wf(),
        l.has(page),
        a.len() == b.len(),
        l.page_start(page) <= from,
        to <= l.page_end(page),
        same_in(a, b, 0, from),
        same_in(a, b, to, a.len() as int),
    ensures
        kept_but(l, a, b, page, page),
{
}

/// Two changes that keep the closed pages, one after the other, keep them
/// together, but for the pages that the one or the other recycles.
pub proof fn lemma_kept_twice(
    l: Layout,
    a: Seq<u8>,
    b: Seq<u8>,
    c: Seq<u8>,
    first: Set<int>,
    second: Set<int>,
    both: Set<int>,
)
    requires
        l.wf(),
        closed_kept(l, a, b, first),
        closed_kept(l, b, c, second),
        outside_kept(l, a, b),
        outside_kept(l, b, c),
        a.len() == b.len(),
        forall|q: int| first.contains(q) || second.contains(q) ==> both.contains(q),
    ensures
        closed_kept(l, a, c, both),
        outside_kept(l, a, c),
{
    assert forall|q: int|
        l.has(q) && l.page_end(q) <= a.len() && #[trigger] l.state(a, q) == Some(
            PageState::Closed,
        ) && !both.contains(q) implies page_kept(l, a, c, q) by {
        assert(page_kept(l, a, b, q));
        lemma_page_bounds(l, q);
        lemma_state_same(l, a, b, q);
        assert(l.state(b, q) == Some(PageState::Closed));
        assert(page_kept(l, b, c, q));
    }
}

} // verus!
