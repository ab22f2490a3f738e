//! A map from keys to items, kept in flash.
//!
//! Items are appended to a log; of the items with one key, the one stored
//! last is the one in effect.

use crate::flash::{
    fault_in, filled, is_erased, programmed, same_in, wiped, with_fault, NorFlash, ERASED_BYTE,
};
use crate::page::{
    all_erased, calculate_page_address, calculate_page_end_address, calculate_page_index,
    close_page, closed_kept, faultless, find_first_page, get_page_state, kept_but, layout_of,
    lemma_aligned, lemma_kept_in_page, lemma_kept_step, lemma_kept_twice, lemma_page_bounds,
    lemma_pages_apart, lemma_state_same, lemma_valid_region, lemma_word_erased, lemma_zone_same,
    marker_word, next_page, outside_kept, page_count, partial_close_page, previous_page,
    read_bytes, valid_region, Error, Layout, PageState,
};
use crate::zone::{lemma_end_aligned, lemma_next_used, lemma_round_up};
use core::fmt::Debug;
use core::ops::Range;
use vstd::prelude::*;
use vstd::std_specs::cmp::PartialEqSpec;
use vstd::std_specs::convert::FromSpecImpl;

verus! {

/// The largest number of bytes an item may take when it is serialized.
pub const MAX_STORAGE_ITEM_SIZE: usize = 512;

/// What the error of an item codec must offer.
///
/// The default of the specification function leaves it unspecified: an error
/// type written outside verified code is taken to answer by some fixed
/// function of the error.
pub trait StorageItemError: Debug + Sized {
    /// What `is_buffer_too_small` answers.
    open spec fn buffer_too_small(&self) -> bool {
        arbitrary::<spec_fn(Self) -> bool>()(*self)
    }

    /// Whether the error says that the buffer was too small for the item.
    fn is_buffer_too_small(&self) -> (r: bool)
        ensures
            r == self.buffer_too_small(),
    ;
}

/// How items are turned into bytes and back.
///
/// A serialized item must not consist of `0xFF` bytes only, and such bytes
/// must not deserialize to an item. The buffers handed to the two functions
/// are never longer than [`MAX_STORAGE_ITEM_SIZE`].
///
/// The specification functions name what the methods return. Their defaults
/// leave them unspecified: a codec written outside verified code is taken to
/// compute some fixed function of its arguments.
pub trait StorageItem: Sized {
    /// The key of the key-value pair.
    type Key: Eq;

    /// The error of both directions.
    type Error: StorageItemError;

    /// What `serialize_into` returns and leaves in a buffer that held
    /// `buffer` before.
    open spec fn serialized(&self, buffer: Seq<u8>) -> (Result<usize, Self::Error>, Seq<u8>) {
        arbitrary::<spec_fn(Self, Seq<u8>) -> (Result<usize, Self::Error>, Seq<u8>)>()(
            *self,
            buffer,
        )
    }

    /// What `deserialize_from` returns on `buffer`.
    open spec fn deserialized(buffer: Seq<u8>) -> Result<(Self, usize), Self::Error> {
        arbitrary::<spec_fn(Seq<u8>) -> Result<(Self, usize), Self::Error>>()(buffer)
    }

    /// What `key` returns.
    open spec fn key_of(&self) -> Self::Key {
        arbitrary::<spec_fn(Self) -> Self::Key>()(*self)
    }

    /// Writes the item into the start of `buffer` and returns the number of
    /// bytes written.
    fn serialize_into(&self, buffer: &mut [u8]) -> (r: Result<usize, Self::Error>)
        ensures
            final(buffer)@.len() == old(buffer)@.len(),
            (r, final(buffer)@) == self.serialized(old(buffer)@),
    ;

    /// Reads an item from the start of `buffer`, which is likely longer than
    /// the item, and returns it with the number of bytes it took.
    fn deserialize_from(buffer: &[u8]) -> (r: Result<(Self, usize), Self::Error>)
        ensures
            r == Self::deserialized(buffer@),
    ;

    /// The key of the item.
    fn key(&self) -> (k: Self::Key)
        ensures
            k == self.key_of(),
    ;
}

/// The errors of the map.
#[non_exhaustive]
#[derive(Debug, PartialEq, Eq)]
pub enum MapError<I, S> {
    /// The item codec reported an error.
    Item(I),
    /// The flash driver reported a fault.
    Storage(S),
    /// The item cannot be stored because the storage is full.
    FullStorage,
    /// What was found on the flash cannot be the result of regular use.
    /// Erasing the region makes it usable again.
    Corrupted,
    /// A buffer handed in was too big.
    BufferTooBig,
    /// A buffer handed in was too small.
    BufferTooSmall,
}

impl<S, I> From<Error<S>> for MapError<I, S> {
    /// The error of the map that stands for an error of the page layer.
    fn from(value: Error<S>) -> (r: Self) {
        match value {
            Error::Storage(e) => MapError::Storage(e),
            Error::FullStorage => MapError::FullStorage,
            Error::Corrupted => MapError::Corrupted,
            Error::BufferTooBig => MapError::BufferTooBig,
            Error::BufferTooSmall => MapError::BufferTooSmall,
        }
    }
}

impl<S, I> FromSpecImpl<Error<S>> for MapError<I, S> {
    open spec fn obeys_from_spec() -> bool {
        true
    }

    open spec fn from_spec(value: Error<S>) -> Self {
        match value {
            Error::Storage(e) => MapError::Storage(e),
            Error::FullStorage => MapError::FullStorage,
            Error::Corrupted => MapError::Corrupted,
            Error::BufferTooBig => MapError::BufferTooBig,
            Error::BufferTooSmall => MapError::BufferTooSmall,
        }
    }
}

/// What can go wrong in the map apart from a fault of the flash driver.
pub enum Fault<E> {
    /// The item codec reported the error.
    Item(E),
    /// The storage is full.
    FullStorage,
    /// What was found on the flash cannot be the result of regular use.
    Corrupted,
}

impl<I, S> MapError<I, S> {
    /// The fault of the flash driver that the error hands on, if it is one.
    pub open spec fn driver_fault(self) -> Option<S> {
        match self {
            MapError::Storage(e) => Some(e),
            _ => None,
        }
    }

    /// The fault that the error reports, or nothing where the error is not
    /// one that the map itself gives.
    pub open spec fn fault(self) -> Option<Fault<I>> {
        match self {
            MapError::Item(e) => Some(Fault::Item(e)),
            MapError::FullStorage => Some(Fault::FullStorage),
            MapError::Corrupted => Some(Fault::Corrupted),
            _ => None,
        }
    }
}

/// The fault of the flash driver that the result hands on, if it does.
pub open spec fn map_fault<V, I, S>(r: Result<V, MapError<I, S>>) -> Option<S> {
    match r {
        Err(e) => e.driver_fault(),
        Ok(_) => None,
    }
}

/// Where a reader stands in a data zone: the next item starts at `offset`,
/// and `used` bytes of the window lie before it.
pub struct Cursor {
    /// The offset in the zone at which the next item starts.
    pub offset: int,
    /// The number of bytes of the window that lie before the next item.
    pub used: int,
}

/// What reading one item from a data zone gives.
pub enum Step<I, E> {
    /// Only erased bytes are left in the window.
    End,
    /// An item, which starts at `offset` in the zone and takes `len` bytes
    /// there; the reader goes on at `next`.
    Item { item: I, offset: int, len: int, next: Cursor },
    /// The reading fails.
    Fault(E),
}

/// The start of a data zone, before anything has been read.
pub open spec fn zone_start() -> Cursor {
    Cursor { offset: 0, used: 0 }
}

/// The byte at index `i` of a data zone. What lies behind the end of the zone
/// reads as erased.
pub open spec fn padded(zone: Seq<u8>, i: int) -> u8 {
    if 0 <= i < zone.len() {
        zone[i]
    } else {
        ERASED_BYTE
    }
}

/// The part of the window that has not been used yet.
pub open spec fn unread(zone: Seq<u8>, at: Cursor) -> Seq<u8> {
    Seq::new((MAX_STORAGE_ITEM_SIZE - at.used) as nat, |i: int| padded(zone, at.offset + i))
}

/// `n` rounded up to a multiple of `word`.
pub open spec fn round_up(n: int, word: int) -> int {
    if word > 0 && n % word > 0 {
        n + word - n % word
    } else {
        n
    }
}

/// The number of bytes of a zone of `zone_len` bytes that lie at or behind
/// `offset`.
pub open spec fn left(zone_len: int, offset: int) -> int {
    if offset < zone_len {
        zone_len - offset
    } else {
        0
    }
}

/// The step for an item that the codec read from `visible` bytes at `at`,
/// taking `n` of them. A codec that claims to have taken no byte, or more than
/// it was given, is not believed.
pub open spec fn taken<I, E>(item: I, n: int, visible: int, word: int, at: Cursor) -> Step<
    I,
    Fault<E>,
> {
    if n <= 0 || n > visible {
        Step::Fault(Fault::Corrupted)
    } else {
        let len = round_up(n, word);
        Step::Item {
            item,
            offset: at.offset,
            len,
            next: Cursor { offset: at.offset + len, used: at.used + len },
        }
    }
}

/// Reads one item of a data zone at `at`, as the reader does it with its
/// window of [`MAX_STORAGE_ITEM_SIZE`] bytes.
///
/// A window that is used up is filled again first. Where only erased bytes are
/// left in the window, the items have come to an end. Else the codec reads
/// from what is left of the window; where that is too small for it and part of
/// the window was used, the window is filled again and the codec reads once
/// more.
pub open spec fn next_record<I: StorageItem>(zone: Seq<u8>, word: int, at: Cursor) -> Step<
    I,
    Fault<I::Error>,
> {
    let at = if at.used >= MAX_STORAGE_ITEM_SIZE {
        Cursor { offset: at.offset, used: 0 }
    } else {
        at
    };
    let window = unread(zone, at);
    if is_erased(window, 0, window.len() as int) {
        Step::End
    } else {
        match I::deserialized(window) {
            Ok((item, n)) => taken(item, n as int, window.len() as int, word, at),
            Err(e) => if e.buffer_too_small() && at.used > 0 {
                let at = Cursor { offset: at.offset, used: 0 };
                match I::deserialized(unread(zone, at)) {
                    Ok((item, n)) => taken(item, n as int, MAX_STORAGE_ITEM_SIZE as int, word, at),
                    Err(e) => Step::Fault(Fault::Item(e)),
                }
            } else {
                Step::Fault(Fault::Item(e))
            },
        }
    }
}

/// Behind the end of the zone a window holds erased bytes only.
pub proof fn lemma_unread_behind_end(zone: Seq<u8>, at: Cursor)
    requires
        at.offset >= zone.len(),
        0 <= at.used <= MAX_STORAGE_ITEM_SIZE,
    ensures
        is_erased(unread(zone, at), 0, unread(zone, at).len() as int),
{
}

/// An item is read only before the end of the zone, and the reader advances
/// past it.
pub proof fn lemma_item_advances<I: StorageItem>(zone: Seq<u8>, word: int, at: Cursor)
    requires
        0 <= at.used,
    ensures
        next_record::<I>(zone, word, at) matches Step::Item { item, offset, len, next } ==> {
            &&& offset == at.offset
            &&& offset < zone.len()
            &&& 0 < len
            &&& next.offset == offset + len
            &&& left(zone.len() as int, next.offset) < left(zone.len() as int, at.offset)
        },
{
    let fresh = if at.used >= MAX_STORAGE_ITEM_SIZE {
        Cursor { offset: at.offset, used: 0 }
    } else {
        at
    };
    if at.offset >= zone.len() {
        lemma_unread_behind_end(zone, fresh);
    }
}

/// `n` rounded up to a multiple of `word`.
fn round_up_to_word(n: usize, word: usize) -> (r: usize)
    requires
        1 <= word,
        n + word <= usize::MAX,
    ensures
        r == round_up(n as int, word as int),
        n <= r < n + word,
{
    if n % word > 0 {
        n + (word - n % word)
    } else {
        n
    }
}

/// A reader of the items of one page, which keeps a window of
/// [`MAX_STORAGE_ITEM_SIZE`] bytes of the page's data zone in memory.
pub struct PageReader {
    window: Vec<u8>,
    used: usize,
    offset: usize,
    data_start: u32,
    data_len: usize,
    word: usize,
}

impl PageReader {
    /// Where the reader stands.
    pub closed spec fn cursor(&self) -> Cursor {
        Cursor { offset: self.offset as int, used: self.used as int }
    }

    /// The address of the first byte of the data zone that is read.
    pub closed spec fn zone_address(&self) -> int {
        self.data_start as int
    }

    /// The number of bytes of the data zone that is read.
    pub closed spec fn zone_len(&self) -> int {
        self.data_len as int
    }

    /// The bytes that are read from the flash when the window is filled
    /// again, by the address of the first and their number: what the window
    /// lacks behind what is left of it, as far as the data zone reaches.
    pub open spec fn asked(&self) -> (int, int) {
        let at = self.cursor();
        let kept = if at.used >= MAX_STORAGE_ITEM_SIZE {
            0
        } else {
            MAX_STORAGE_ITEM_SIZE - at.used
        };
        let from = at.offset + kept;
        let count = if from >= self.zone_len() {
            0
        } else if self.zone_len() - from < MAX_STORAGE_ITEM_SIZE - kept {
            self.zone_len() - from
        } else {
            MAX_STORAGE_ITEM_SIZE - kept
        };
        (self.zone_address() + from, count)
    }

    /// What is read from the flash lies in the data zone.
    pub proof fn lemma_asked_in_zone(&self)
        requires
            self.cursor().offset >= 0,
            self.cursor().used >= 0,
        ensures
            self.asked().1 >= 0,
            self.asked().1 > 0 ==> self.zone_address() <= self.asked().0 && self.asked().0
                + self.asked().1 <= self.zone_address() + self.zone_len(),
    {
    }

    /// The size of a word of the flash that is read.
    pub closed spec fn word_size(&self) -> int {
        self.word as int
    }

    /// The data zone that is read, as it stands in `mem`.
    pub closed spec fn zone(&self, mem: Seq<u8>) -> Seq<u8> {
        Seq::new(self.data_len as nat, |i: int| mem[self.data_start + i])
    }

    /// The reader reads the data zone of `page`.
    pub closed spec fn reads(&self, l: Layout, page: int) -> bool {
        &&& self.data_start == l.data_start(page)
        &&& self.data_len == l.data_len()
        &&& self.word == l.word_size
    }

    /// The numbers of the reader are within their bounds.
    closed spec fn bounded(&self) -> bool {
        &&& 1 <= self.word
        &&& self.data_start + self.data_len <= u32::MAX
        &&& self.data_len + 2 * self.word + 2 * MAX_STORAGE_ITEM_SIZE <= u32::MAX
        &&& self.offset <= self.data_len + self.word + MAX_STORAGE_ITEM_SIZE
        &&& self.used < MAX_STORAGE_ITEM_SIZE ==> self.used <= self.offset
        &&& self.used <= self.word + 2 * MAX_STORAGE_ITEM_SIZE
        &&& self.window@.len() == MAX_STORAGE_ITEM_SIZE
    }

    /// The window holds what stands in `mem` around the place of the reader.
    pub closed spec fn wf(&self, mem: Seq<u8>) -> bool {
        &&& self.bounded()
        &&& self.data_start + self.data_len <= mem.len()
        &&& forall|i: int|
            self.used <= i < MAX_STORAGE_ITEM_SIZE ==> #[trigger] self.window@[i] == padded(
                self.zone(mem),
                self.offset - self.used + i,
            )
    }

    /// The offset in the data zone at which the next item starts. It is where
    /// the item before it ends.
    pub fn position(&self) -> (offset: usize)
        ensures
            offset == self.cursor().offset,
    {
        self.offset
    }

    /// A reader of a page reads the data zone of that page.
    pub proof fn lemma_zone(&self, l: Layout, page: int, mem: Seq<u8>)
        requires
            self.reads(l, page),
        ensures
            self.zone(mem) == l.zone(mem, page),
            self.zone_address() == l.data_start(page),
            self.word_size() == l.word_size,
    {
        assert(self.zone(mem) =~= l.zone(mem, page));
    }

    /// A reader stays valid where the flash changes outside its data zone.
    pub proof fn lemma_moves(&self, a: Seq<u8>, b: Seq<u8>)
        requires
            self.wf(a),
            self.zone(a) == self.zone(b),
            a.len() == b.len(),
        ensures
            self.wf(b),
    {
    }

    /// The number of bytes at the end of the window that have not been used
    /// yet: they stay in the window when it is filled again.
    closed spec fn kept(&self) -> int {
        if self.used >= MAX_STORAGE_ITEM_SIZE {
            0
        } else {
            MAX_STORAGE_ITEM_SIZE - self.used
        }
    }

    /// The number of bytes that have to be read from the flash to fill the
    /// window again: what the window lacks, as far as the data zone reaches.
    closed spec fn missing(&self) -> int {
        let from = self.offset + self.kept();
        if from >= self.data_len {
            0
        } else if self.data_len - from < MAX_STORAGE_ITEM_SIZE - self.kept() {
            self.data_len - from
        } else {
            MAX_STORAGE_ITEM_SIZE - self.kept()
        }
    }

    /// Where the bytes that the window lacks stand in the data zone, and how
    /// many of them there are.
    fn missing_range(&self) -> (range: (usize, usize))
        requires
            self.bounded(),
        ensures
            range.0 == self.offset + self.kept(),
            range.1 == self.missing(),
            range.1 > 0 ==> range.0 + range.1 <= self.data_len,
    {
        let keep: usize = if self.used >= MAX_STORAGE_ITEM_SIZE {
            0
        } else {
            MAX_STORAGE_ITEM_SIZE - self.used
        };
        let from: usize = self.offset + keep;
        let count: usize = if from >= self.data_len {
            0
        } else if self.data_len - from < MAX_STORAGE_ITEM_SIZE - keep {
            self.data_len - from
        } else {
            MAX_STORAGE_ITEM_SIZE - keep
        };
        (from, count)
    }

    /// Puts the window together anew, so that it starts where the next item
    /// does: first what was left of it, then `bytes`, which are the bytes
    /// that were read from the flash for what it lacked, then erased bytes
    /// for what lies behind the end of the data zone.
    fn refill(&mut self, bytes: &Vec<u8>, mem: Ghost<Seq<u8>>)
        requires
            old(self).bounded(),
            old(self).data_start + old(self).data_len <= mem@.len(),
            old(self).used < MAX_STORAGE_ITEM_SIZE ==> old(self).wf(mem@),
            bytes@.len() == old(self).missing(),
            old(self).missing() > 0 ==> bytes@ == mem@.subrange(
                old(self).data_start + old(self).offset + old(self).kept(),
                old(self).data_start + old(self).offset + old(self).kept() + old(self).missing(),
            ),
        ensures
            final(self).wf(mem@),
            final(self).cursor() == (Cursor { offset: old(self).offset as int, used: 0 }),
            final(self).data_start == old(self).data_start,
            final(self).data_len == old(self).data_len,
            final(self).word == old(self).word,
    {
        let ghost zone = self.zone(mem@);
        let (from, count) = self.missing_range();
        let keep: usize = from - self.offset;
        let mut fresh: Vec<u8> = Vec::new();
        while fresh.len() < keep
            invariant
                self.bounded(),
                self == old(self),
                keep == self.kept(),
                keep > 0 ==> self.wf(mem@),
                zone == self.zone(mem@),
                fresh.len() <= keep,
                forall|i: int| 0 <= i < fresh.len() ==> fresh[i] == padded(zone, self.offset + i),
            decreases keep - fresh.len(),
        {
            let byte = self.window[self.used + fresh.len()];
            fresh.push(byte);
        }
        let mut j: usize = 0;
        while j < count
            invariant
                self.bounded(),
                self == old(self),
                j <= count,
                count == bytes@.len(),
                count == self.missing(),
                keep == self.kept(),
                fresh.len() == keep + j,
                from == self.offset + keep,
                count > 0 ==> from + count <= self.data_len,
                self.data_start + self.data_len <= mem@.len(),
                zone == self.zone(mem@),
                count > 0 ==> bytes@ == mem@.subrange(
                    self.data_start + from,
                    self.data_start + from + count,
                ),
                forall|i: int| 0 <= i < fresh.len() ==> fresh[i] == padded(zone, self.offset + i),
            decreases count - j,
        {
            fresh.push(bytes[j]);
            j += 1;
        }
        while fresh.len() < MAX_STORAGE_ITEM_SIZE
            invariant
                self.bounded(),
                self == old(self),
                keep == self.kept(),
                count == self.missing(),
                keep + count <= fresh.len() <= MAX_STORAGE_ITEM_SIZE,
                zone == self.zone(mem@),
                zone.len() == self.data_len,
                forall|i: int| 0 <= i < fresh.len() ==> fresh[i] == padded(zone, self.offset + i),
            decreases MAX_STORAGE_ITEM_SIZE - fresh.len(),
        {
            fresh.push(ERASED_BYTE);
        }
        self.window = fresh;
        self.used = 0;
    }

    /// Fills the window again, so that it starts where the next item does.
    ///
    /// What the window lacks is read from the flash. Where it lacks nothing
    /// that the data zone holds, the flash is not asked and the window is
    /// filled in any case; where the driver reports a fault, the reader is
    /// left as it was.
    fn replenish<S: NorFlash>(&mut self, flash: &mut S) -> (r: Result<(), S::Error>)
        requires
            old(self).bounded(),
            old(self).data_start + old(self).data_len <= old(flash).bytes().len(),
            old(self).used < MAX_STORAGE_ITEM_SIZE ==> old(self).wf(old(flash).bytes()),
        ensures
            final(flash).bytes() == old(flash).bytes(),
            final(flash).erase_count() == old(flash).erase_count(),
            final(self).data_start == old(self).data_start,
            final(self).data_len == old(self).data_len,
            final(self).word == old(self).word,
            final(flash).dependable() == old(flash).dependable(),
            final(flash).faults() == with_fault(old(flash).faults(), fault_in(r)),
            old(self).missing() == 0 ==> r is Ok,
            old(flash).dependable() ==> r is Ok,
            old(self).missing() == old(self).asked().1,
            r is Err ==> *final(self) == *old(self),
            r is Ok ==> {
                &&& final(self).wf(old(flash).bytes())
                &&& final(self).cursor() == Cursor { offset: old(self).offset as int, used: 0 }
            },
    {
        let ghost mem = flash.bytes();
        let (from, count) = self.missing_range();
        let bytes = if count > 0 {
            match read_bytes(flash, self.data_start + from as u32, count) {
                Ok(bytes) => bytes,
                Err(e) => {
                    return Err(e);
                },
            }
        } else {
            Vec::new()
        };
        self.refill(&bytes, Ghost(mem));
        Ok(())
    }

    /// Whether reading the next item takes a reading from the flash: it does
    /// where the window is used up, and where what is left of the window holds
    /// more than erased bytes and the codec finds it too small.
    pub open spec fn asks_flash<I: StorageItem>(&self, mem: Seq<u8>) -> bool {
        let at = self.cursor();
        let window = unread(self.zone(mem), at);
        ||| at.used >= MAX_STORAGE_ITEM_SIZE
        ||| {
            &&& !is_erased(window, 0, MAX_STORAGE_ITEM_SIZE - at.used)
            &&& at.used > 0
            &&& I::deserialized(window) matches Err(e) && e.buffer_too_small()
        }
    }

    /// Reads the next item of the page. Gives the item, the address it
    /// starts at and the number of bytes it takes on the flash; or nothing
    /// where only erased bytes follow.
    ///
    /// The flash is read only where [`Self::asks_flash`] says so; else the
    /// item comes from the window, and no fault of the driver can come.
    pub fn next_item<I: StorageItem, S: NorFlash>(&mut self, flash: &mut S) -> (r: Option<
        Result<(I, u32, usize), MapError<I::Error, S::Error>>,
    >)
        requires
            old(self).wf(old(flash).bytes()),
        ensures
            final(flash).bytes() == old(flash).bytes(),
            final(flash).erase_count() == old(flash).erase_count(),
            final(self).zone_address() == old(self).zone_address(),
            final(self).word_size() == old(self).word_size(),
            final(self).zone(old(flash).bytes()) == old(self).zone(old(flash).bytes()),
            forall|l: Layout, page: int|
                old(self).reads(l, page) ==> #[trigger] final(self).reads(l, page),
            final(flash).dependable() == old(flash).dependable(),
            final(flash).faults() == with_fault(
                old(flash).faults(),
                match r {
                    Some(Err(e)) => e.driver_fault(),
                    _ => None,
                },
            ),
            !old(self).asks_flash::<I>(old(flash).bytes()) ==> !(r matches Some(
                Err(MapError::Storage(_)),
            )),
            old(flash).dependable() && old(self).asked().0 + old(self).asked().1 <= old(
                flash,
            ).bytes().len() ==> !(r matches Some(Err(MapError::Storage(_)))),
            old(self).asked().1 == 0 ==> !(r matches Some(Err(MapError::Storage(_)))),
            match r {
                None => {
                    &&& final(self).cursor().offset == old(self).cursor().offset
                    &&& next_record::<I>(
                        old(self).zone(old(flash).bytes()),
                        old(self).word_size(),
                        old(self).cursor(),
                    ) == Step::<I, Fault<I::Error>>::End
                },
                Some(Ok((item, address, len))) => {
                    &&& final(self).wf(old(flash).bytes())
                    &&& next_record::<I>(
                        old(self).zone(old(flash).bytes()),
                        old(self).word_size(),
                        old(self).cursor(),
                    ) == (Step::<I, Fault<I::Error>>::Item {
                        item,
                        offset: address - old(self).zone_address(),
                        len: len as int,
                        next: final(self).cursor(),
                    })
                },
                Some(Err(MapError::Storage(_))) => true,
                Some(Err(e)) => e.fault() matches Some(fault) && next_record::<I>(
                    old(self).zone(old(flash).bytes()),
                    old(self).word_size(),
                    old(self).cursor(),
                ) == Step::<I, Fault<I::Error>>::Fault(fault),
            },
    {
        let ghost mem = flash.bytes();
        let ghost zone = self.zone(mem);
        if self.used >= MAX_STORAGE_ITEM_SIZE {
            match self.replenish(flash) {
                Ok(()) => {},
                Err(e) => {
                    return Some(Err(MapError::Storage(e)));
                },
            }
        }
        let ghost at = self.cursor();
        assert(self.window@.subrange(self.used as int, MAX_STORAGE_ITEM_SIZE as int) =~= unread(
            zone,
            at,
        ));
        proof {
            lemma_word_erased(
                self.window@,
                self.used as int,
                MAX_STORAGE_ITEM_SIZE - self.used,
            );
        }
        if all_erased(self.window.as_slice(), self.used) {
            return None;
        }
        proof {
            if self.offset >= self.data_len {
                lemma_unread_behind_end(zone, at);
            }
        }
        let visible: usize = MAX_STORAGE_ITEM_SIZE - self.used;
        let first = I::deserialize_from(
            vstd::slice::slice_subrange(self.window.as_slice(), self.used, MAX_STORAGE_ITEM_SIZE),
        );
        let (item, n, visible) = match first {
            Ok((item, n)) => (item, n, visible),
            Err(e) => {
                if e.is_buffer_too_small() && self.used > 0 {
                    match self.replenish(flash) {
                        Ok(()) => {},
                        Err(e) => {
                            return Some(Err(MapError::Storage(e)));
                        },
                    }
                    assert(self.window@.subrange(0, MAX_STORAGE_ITEM_SIZE as int) =~= unread(
                        zone,
                        self.cursor(),
                    ));
                    match I::deserialize_from(
                        vstd::slice::slice_subrange(
                            self.window.as_slice(),
                            0,
                            MAX_STORAGE_ITEM_SIZE,
                        ),
                    ) {
                        Ok((item, n)) => (item, n, MAX_STORAGE_ITEM_SIZE),
                        Err(e) => {
                            return Some(Err(MapError::Item(e)));
                        },
                    }
                } else {
                    return Some(Err(MapError::Item(e)));
                }
            },
        };
        if n == 0 || n > visible {
            return Some(Err(MapError::Corrupted));
        }
        let len = round_up_to_word(n, self.word);
        let address = self.data_start + self.offset as u32;
        self.offset = self.offset + len;
        self.used = self.used + len;
        Some(Ok((item, address, len)))
    }
}

/// The bytes that are read from the flash when the reading of a page starts,
/// by the address of the first and their number: the start of the data zone,
/// as far as one window reaches.
pub open spec fn first_window(l: Layout, page: int) -> (int, int) {
    (
        l.data_start(page),
        if l.data_len() < MAX_STORAGE_ITEM_SIZE {
            l.data_len()
        } else {
            MAX_STORAGE_ITEM_SIZE as int
        },
    )
}

/// Starts reading the items of a page: fills the window from the start of the
/// page's data zone. The driver is asked once, for the bytes of
/// [`first_window`]; on a device that can be depended on they are had.
pub fn read_page_items<S: NorFlash>(
    flash: &mut S,
    flash_range: &Range<u32>,
    page_index: usize,
) -> (r: Result<PageReader, S::Error>)
    requires
        valid_region::<S>(*flash_range),
        layout_of::<S>(*flash_range).has(page_index as int),
        layout_of::<S>(*flash_range).page_end(page_index as int) <= old(flash).bytes().len(),
    ensures
        final(flash).bytes() == old(flash).bytes(),
        final(flash).erase_count() == old(flash).erase_count(),
        final(flash).dependable() == old(flash).dependable(),
        final(flash).faults() == with_fault(old(flash).faults(), fault_in(r)),
        first_window(layout_of::<S>(*flash_range), page_index as int).0 + first_window(
            layout_of::<S>(*flash_range),
            page_index as int,
        ).1 <= layout_of::<S>(*flash_range).data_end(page_index as int),
        old(flash).dependable() && first_window(
            layout_of::<S>(*flash_range),
            page_index as int,
        ).0 + first_window(layout_of::<S>(*flash_range), page_index as int).1 <= old(
            flash,
        ).bytes().len() ==> r is Ok,
        r matches Ok(reader) ==> {
            &&& reader.wf(old(flash).bytes())
            &&& reader.reads(layout_of::<S>(*flash_range), page_index as int)
            &&& reader.cursor() == zone_start()
        },
{
    proof {
        lemma_valid_region::<S>(*flash_range);
        lemma_page_bounds(layout_of::<S>(*flash_range), page_index as int);
    }
    let page_start = calculate_page_address::<S>(flash_range, page_index);
    let mut reader = PageReader {
        window: filled(MAX_STORAGE_ITEM_SIZE, ERASED_BYTE),
        used: MAX_STORAGE_ITEM_SIZE,
        offset: 0,
        data_start: page_start + S::WRITE_SIZE as u32,
        data_len: S::ERASE_SIZE - 2 * S::WRITE_SIZE,
        word: S::WRITE_SIZE,
    };
    match reader.replenish(flash) {
        Ok(()) => Ok(reader),
        Err(e) => Err(e),
    }
}

/// An item as it was found on the flash: `len` bytes from `address` on hold
/// it.
pub struct Located<I> {
    /// The item.
    pub item: I,
    /// The address of its first byte.
    pub address: int,
    /// The number of bytes it takes, a whole number of words.
    pub len: int,
}

/// What `found` says, with mathematical integers.
pub open spec fn located<I>(found: Option<(I, u32, usize)>) -> Option<Located<I>> {
    match found {
        Some((item, address, len)) => Some(
            Located { item, address: address as int, len: len as int },
        ),
        None => None,
    }
}

/// The last item with a key equal to `key` among the items that a reader at
/// `at` still reads from `zone`, or `best` if there is none. `base` is the
/// address of the zone.
pub open spec fn newest_in_zone<I: StorageItem>(
    zone: Seq<u8>,
    word: int,
    base: int,
    key: I::Key,
    at: Cursor,
    best: Option<Located<I>>,
) -> Result<Option<Located<I>>, Fault<I::Error>>
    decreases left(zone.len() as int, at.offset),
{
    if at.used < 0 {
        Ok(best)
    } else {
        match next_record::<I>(zone, word, at) {
            Step::End => Ok(best),
            Step::Fault(fault) => Err(fault),
            Step::Item { item, offset, len, next } => {
                proof {
                    lemma_item_advances::<I>(zone, word, at);
                }
                newest_in_zone(
                    zone,
                    word,
                    base,
                    key,
                    next,
                    if item.key_of().eq_spec(&key) {
                        Some(Located { item, address: base + offset, len })
                    } else {
                        best
                    },
                )
            },
        }
    }
}

/// An item that is found in a zone starts within the zone.
pub proof fn lemma_newest_in_zone_place<I: StorageItem>(
    zone: Seq<u8>,
    word: int,
    base: int,
    key: I::Key,
    at: Cursor,
    best: Option<Located<I>>,
)
    requires
        0 <= at.offset,
        0 <= at.used,
        best matches Some(b) ==> base <= b.address < base + zone.len(),
    ensures
        newest_in_zone::<I>(zone, word, base, key, at, best) matches Ok(Some(found)) ==> base
            <= found.address < base + zone.len(),
    decreases left(zone.len() as int, at.offset),
{
    match next_record::<I>(zone, word, at) {
        Step::Item { item, offset, len, next } => {
            lemma_item_advances::<I>(zone, word, at);
            let better = if item.key_of().eq_spec(&key) {
                Some(Located { item, address: base + offset, len })
            } else {
                best
            };
            lemma_newest_in_zone_place::<I>(zone, word, base, key, next, better);
        },
        _ => {},
    }
}

/// The page that was written to last: the one that items are appended to,
/// or else the closed page before the first blank one. Nothing where all
/// pages are blank; `Err` where the markers cannot be the result of regular
/// use.
pub open spec fn last_used_page(l: Layout, mem: Seq<u8>) -> Result<Option<int>, ()> {
    match l.first_in_state(mem, 0, PageState::PartialOpen, 0) {
        Err(_) => Err(()),
        Ok(Some(page)) => Ok(Some(page)),
        Ok(None) => match l.first_in_state(mem, 0, PageState::Open, 0) {
            Err(_) => Err(()),
            Ok(None) => Err(()),
            Ok(Some(blank)) => match l.state(mem, l.previous(blank)) {
                None => Err(()),
                Some(PageState::Closed) => Ok(Some(l.previous(blank))),
                Some(_) => Ok(None),
            },
        },
    }
}

/// The newest item with a key equal to `key` in `page` or, where it holds
/// none, in the closed pages that come before it on the ring. `visited`
/// counts the pages looked at, this one included; no page is looked at twice.
pub open spec fn search_back<I: StorageItem>(
    l: Layout,
    mem: Seq<u8>,
    key: I::Key,
    page: int,
    visited: int,
) -> Result<Option<Located<I>>, Fault<I::Error>>
    decreases l.pages - visited,
{
    match newest_in_zone::<I>(
        l.zone(mem, page),
        l.word_size,
        l.data_start(page),
        key,
        zone_start(),
        None,
    ) {
        Err(fault) => Err(fault),
        Ok(Some(found)) => Ok(Some(found)),
        Ok(None) => match l.state(mem, l.previous(page)) {
            None => Err(Fault::Corrupted),
            Some(PageState::Closed) => if visited >= l.pages {
                Ok(None)
            } else {
                search_back(l, mem, key, l.previous(page), visited + 1)
            },
            Some(_) => Ok(None),
        },
    }
}

/// The item that is in effect for `key`: the newest item with a key equal to
/// it, with the place where it stands.
pub open spec fn newest_item<I: StorageItem>(l: Layout, mem: Seq<u8>, key: I::Key) -> Result<
    Option<Located<I>>,
    Fault<I::Error>,
> {
    match last_used_page(l, mem) {
        Err(_) => Err(Fault::Corrupted),
        Ok(None) => Ok(None),
        Ok(Some(page)) => search_back(l, mem, key, page, 1),
    }
}

/// The item in effect for `key`, without the place where it stands.
pub open spec fn in_effect<I: StorageItem>(l: Layout, mem: Seq<u8>, key: I::Key) -> Result<
    Option<I>,
    Fault<I::Error>,
> {
    match newest_item::<I>(l, mem, key) {
        Ok(Some(newest)) => Ok(Some(newest.item)),
        Ok(None) => Ok(None),
        Err(fault) => Err(fault),
    }
}

/// Whether `r` is what the map returns where the flash driver reports no
/// fault and `expected` is due.
pub open spec fn agrees<V, IE, SE>(
    r: Result<V, MapError<IE, SE>>,
    expected: Result<V, Fault<IE>>,
) -> bool {
    match r {
        Ok(value) => expected == Ok::<V, Fault<IE>>(value),
        Err(e) => e.fault() matches Some(fault) && expected == Err::<V, Fault<IE>>(fault),
    }
}

/// The last item of a page with a key equal to `search_key`.
fn newest_in_page<I: StorageItem, S: NorFlash>(
    flash: &mut S,
    flash_range: &Range<u32>,
    page_index: usize,
    search_key: &I::Key,
) -> (r: Result<Option<(I, u32, usize)>, MapError<I::Error, S::Error>>)
    requires
        valid_region::<S>(*flash_range),
        layout_of::<S>(*flash_range).has(page_index as int),
        layout_of::<S>(*flash_range).page_end(page_index as int) <= old(flash).bytes().len(),
        I::Key::obeys_eq_spec(),
    ensures
        r matches Ok(Some((_, _, len))) ==> 0 < len && len as int % S::WRITE_SIZE as int == 0,
        final(flash).dependable() == old(flash).dependable(),
        final(flash).faults() == with_fault(old(flash).faults(), map_fault(r)),
        faultless(*old(flash), *flash_range) ==> !(r matches Err(MapError::Storage(_))),
        final(flash).bytes() == old(flash).bytes(),
        final(flash).erase_count() == old(flash).erase_count(),
        r matches Err(MapError::Storage(_)) || found_as(
            r,
            newest_in_zone::<I>(
                layout_of::<S>(*flash_range).zone(old(flash).bytes(), page_index as int),
                S::WRITE_SIZE as int,
                layout_of::<S>(*flash_range).data_start(page_index as int),
                *search_key,
                zone_start(),
                None,
            ),
        ),
        r matches Ok(Some((_, address, _))) ==> layout_of::<S>(*flash_range).data_start(
            page_index as int,
        ) <= address < layout_of::<S>(*flash_range).data_end(page_index as int),
{
    let ghost l = layout_of::<S>(*flash_range);
    let ghost mem = flash.bytes();
    let ghost zone = l.zone(mem, page_index as int);
    let ghost base = l.data_start(page_index as int);
    let ghost word = S::WRITE_SIZE as int;
    let mut reader = match read_page_items(flash, flash_range, page_index) {
        Ok(reader) => reader,
        Err(e) => {
            return Err(MapError::Storage(e));
        },
    };
    let mut newest: Option<(I, u32, usize)> = None;
    proof {
        lemma_valid_region::<S>(*flash_range);
        lemma_page_bounds(l, page_index as int);
    }
    loop
        invariant
            I::Key::obeys_eq_spec(),
            flash.bytes() == mem,
            mem == old(flash).bytes(),
            flash.erase_count() == old(flash).erase_count(),
            flash.dependable() == old(flash).dependable(),
            flash.faults() == old(flash).faults(),
            l == layout_of::<S>(*flash_range),
            l.wf(),
            l.has(page_index as int),
            l.page_end(page_index as int) <= mem.len(),
            zone == l.zone(mem, page_index as int),
            base == l.data_start(page_index as int),
            word == S::WRITE_SIZE,
            reader.wf(mem),
            reader.reads(l, page_index as int),
            zone == reader.zone(mem),
            base == reader.zone_address(),
            word == reader.word_size(),
            word == l.word_size,
            reader.cursor().used >= 0,
            newest matches Some((_, _, len)) ==> 0 < len && len as int % word == 0,
            newest_in_zone::<I>(zone, word, base, *search_key, zone_start(), None)
                == newest_in_zone::<I>(
                zone,
                word,
                base,
                *search_key,
                reader.cursor(),
                located(newest),
            ),
        decreases left(zone.len() as int, reader.cursor().offset),
    {
        let ghost at = reader.cursor();
        proof {
            lemma_item_advances::<I>(zone, word, at);
            lemma_next_used::<I>(zone, word, at);
        }
        match reader.next_item::<I, S>(flash) {
            None => {
                proof {
                    lemma_page_bounds(l, page_index as int);
                    lemma_newest_in_zone_place::<I>(
                        zone,
                        word,
                        base,
                        *search_key,
                        zone_start(),
                        None,
                    );
                }
                return Ok(newest);
            },
            Some(Err(e)) => {
                return Err(e);
            },
            Some(Ok(found)) => {
                if found.0.key() == *search_key {
                    newest = Some(found);
                }
            },
        }
    }
}

/// Whether `r` is what is due where the newest item is `expected` and the
/// flash driver reports no fault.
pub open spec fn found_as<I, IE, SE>(
    r: Result<Option<(I, u32, usize)>, MapError<IE, SE>>,
    expected: Result<Option<Located<I>>, Fault<IE>>,
) -> bool {
    match r {
        Ok(found) => expected == Ok::<Option<Located<I>>, Fault<IE>>(located(found)),
        Err(e) => e.fault() matches Some(fault) && expected == Err::<
            Option<Located<I>>,
            Fault<IE>,
        >(fault),
    }
}

/// Looks for the newest item with a key equal to `search_key`, and gives it
/// with its address and the number of bytes it takes on the flash.
pub fn fetch_item_with_location<I: StorageItem, S: NorFlash>(
    flash: &mut S,
    flash_range: &Range<u32>,
    search_key: &I::Key,
) -> (r: Result<Option<(I, u32, usize)>, MapError<I::Error, S::Error>>)
    requires
        valid_region::<S>(*flash_range),
        I::Key::obeys_eq_spec(),
    ensures
        final(flash).dependable() == old(flash).dependable(),
        final(flash).faults() == with_fault(old(flash).faults(), map_fault(r)),
        faultless(*old(flash), *flash_range) ==> !(r matches Err(MapError::Storage(_))),
        r matches Ok(Some((_, _, len))) ==> 0 < len && len as int % S::WRITE_SIZE as int == 0,
        final(flash).bytes() == old(flash).bytes(),
        final(flash).erase_count() == old(flash).erase_count(),
        r matches Err(MapError::Storage(_)) || found_as(
            r,
            newest_item::<I>(layout_of::<S>(*flash_range), old(flash).bytes(), *search_key),
        ),
        r matches Ok(Some((_, address, _))) ==> flash_range.start <= address,
{
    let ghost l = layout_of::<S>(*flash_range);
    let ghost mem = flash.bytes();
    proof {
        lemma_valid_region::<S>(*flash_range);
    }
    // The page that was used last is the one that items are appended to.
    let mut last_used_page = match find_first_page(flash, flash_range, 0, PageState::PartialOpen) {
        Ok(page) => page,
        Err(e) => {
            return Err(MapError::from(e));
        },
    };
    if last_used_page.is_none() {
        // All pages are blank, or the page used last has just been closed:
        // then it is the closed page before the first blank one.
        match find_first_page(flash, flash_range, 0, PageState::Open) {
            Ok(Some(first_open_page)) => {
                let previous_page = previous_page::<S>(flash_range, first_open_page);
                match get_page_state(flash, flash_range, previous_page) {
                    Ok(state) => {
                        if state.is_closed() {
                            last_used_page = Some(previous_page);
                        } else {
                            return Ok(None);
                        }
                    },
                    Err(e) => {
                        return Err(MapError::from(e));
                    },
                }
            },
            Ok(None) => {
                return Err(MapError::Corrupted);
            },
            Err(e) => {
                return Err(MapError::from(e));
            },
        }
    }
    let Some(mut current_page_to_check) = last_used_page else {
        return Ok(None);
    };
    let count = page_count::<S>(flash_range);
    let mut visited: usize = 1;
    loop
        invariant
            valid_region::<S>(*flash_range),
            I::Key::obeys_eq_spec(),
            l == layout_of::<S>(*flash_range),
            l.wf(),
            count == l.pages,
            flash.bytes() == mem,
            mem == old(flash).bytes(),
            flash.erase_count() == old(flash).erase_count(),
            flash.dependable() == old(flash).dependable(),
            flash.faults() == old(flash).faults(),
            l.has(current_page_to_check as int),
            l.page_end(current_page_to_check as int) <= mem.len(),
            1 <= visited <= count,
            newest_item::<I>(l, mem, *search_key) == search_back::<I>(
                l,
                mem,
                *search_key,
                current_page_to_check as int,
                visited as int,
            ),
        decreases count - visited,
    {
        proof {
            lemma_page_bounds(l, current_page_to_check as int);
        }
        match newest_in_page::<I, S>(flash, flash_range, current_page_to_check, search_key) {
            Ok(Some(found)) => {
                return Ok(Some(found));
            },
            Ok(None) => {},
            Err(e) => {
                return Err(e);
            },
        }
        // Nothing in this page: the page before it is next, if it holds items.
        let previous_page = previous_page::<S>(flash_range, current_page_to_check);
        match get_page_state(flash, flash_range, previous_page) {
            Ok(state) => {
                if !state.is_closed() {
                    return Ok(None);
                }
            },
            Err(e) => {
                return Err(MapError::from(e));
            },
        }
        if visited >= count {
            return Ok(None);
        }
        current_page_to_check = previous_page;
        visited += 1;
    }
}

/// Gets the item that was stored last with a key equal to `search_key`, or
/// nothing where no item with such a key is stored.
///
/// The flash is left as it is. Where the driver reports no fault, what is
/// returned is a matter of the bytes on the flash alone: it is [`in_effect`]
/// of them. That this is the item stored last is shown in
/// [`crate::rotation::lemma_store_is_a_map`].
///
/// A fault of the driver ends the fetch: it is handed on as it was reported,
/// and the driver is not asked again. On a flash that is [`faultless`] for the
/// region none comes.
pub fn fetch_item<I: StorageItem, S: NorFlash>(
    flash: &mut S,
    flash_range: Range<u32>,
    search_key: I::Key,
) -> (r: Result<Option<I>, MapError<I::Error, S::Error>>)
    requires
        valid_region::<S>(flash_range),
        I::Key::obeys_eq_spec(),
    ensures
        final(flash).dependable() == old(flash).dependable(),
        final(flash).faults() == with_fault(old(flash).faults(), map_fault(r)),
        faultless(*old(flash), flash_range) ==> !(r matches Err(MapError::Storage(_))),
        final(flash).bytes() == old(flash).bytes(),
        final(flash).erase_count() == old(flash).erase_count(),
        r matches Err(MapError::Storage(_)) || agrees(
            r,
            in_effect::<I>(layout_of::<S>(flash_range), old(flash).bytes(), search_key),
        ),
{
    match fetch_item_with_location::<I, S>(flash, &flash_range, &search_key) {
        Ok(Some((item, _, _))) => Ok(Some(item)),
        Ok(None) => Ok(None),
        Err(e) => Err(e),
    }
}

/// What storing an item comes to: what is returned where the flash driver
/// reports no fault, the contents of the flash afterwards, and whether a page
/// was erased on the way.
pub struct Outcome<E> {
    /// What is returned.
    pub result: Result<(), Fault<E>>,
    /// The contents of the flash afterwards.
    pub mem: Seq<u8>,
    /// Whether a page was erased.
    pub erased: bool,
}

/// The outcome of giving up with `fault` before any page was erased.
pub open spec fn failed<E>(fault: Fault<E>, mem: Seq<u8>) -> Outcome<E> {
    Outcome { result: Err(fault), mem, erased: false }
}

/// `len` erased bytes.
pub open spec fn blank(len: int) -> Seq<u8> {
    Seq::new(len as nat, |i: int| ERASED_BYTE)
}

/// The `len` bytes that are written for an item: what the codec left in the
/// scratch buffer, followed by erased bytes where that is shorter.
pub open spec fn record_bytes(scratch: Seq<u8>, len: int) -> Seq<u8> {
    Seq::new(len as nat, |i: int| padded(scratch, i))
}

/// Where the items end that a reader at `at` still reads from `zone`: the
/// offset just behind the last of them, or `end` if there is none.
pub open spec fn end_of_items<I: StorageItem>(
    zone: Seq<u8>,
    word: int,
    at: Cursor,
    end: int,
) -> Result<int, Fault<I::Error>>
    decreases left(zone.len() as int, at.offset),
{
    if at.used < 0 {
        Ok(end)
    } else {
        match next_record::<I>(zone, word, at) {
            Step::End => Ok(end),
            Step::Fault(fault) => Err(fault),
            Step::Item { item, offset, len, next } => {
                proof {
                    lemma_item_advances::<I>(zone, word, at);
                }
                end_of_items::<I>(zone, word, next, offset + len)
            },
        }
    }
}

/// Appending `item` to `page`, the page that items are appended to. Nothing
/// where the codec finds the room that is left in the page too small.
///
/// The codec is given a buffer of erased bytes, as long as the room that is
/// left but no longer than [`MAX_STORAGE_ITEM_SIZE`]. What it writes is put
/// behind the last item of the page, as a whole number of words. Nothing is
/// written where that would reach beyond the data zone of the page.
pub open spec fn appended<I: StorageItem>(l: Layout, mem: Seq<u8>, item: I, page: int) -> Option<
    Outcome<I::Error>,
> {
    match end_of_items::<I>(l.zone(mem, page), l.word_size, zone_start(), 0) {
        Err(fault) => Some(failed(fault, mem)),
        Ok(end) => if end > l.data_len() {
            Some(failed(Fault::Corrupted, mem))
        } else {
            let room = l.data_len() - end;
            let limit = if room < MAX_STORAGE_ITEM_SIZE {
                room
            } else {
                MAX_STORAGE_ITEM_SIZE as int
            };
            let (written, scratch) = item.serialized(blank(limit));
            match written {
                Ok(n) => if n > MAX_STORAGE_ITEM_SIZE || round_up(n as int, l.word_size) > room {
                    Some(failed(Fault::Corrupted, mem))
                } else {
                    Some(
                        Outcome {
                            result: Ok(()),
                            mem: programmed(
                                mem,
                                l.data_start(page) + end,
                                record_bytes(scratch, round_up(n as int, l.word_size)),
                            ),
                            erased: false,
                        },
                    )
                },
                Err(e) => if e.buffer_too_small() {
                    None
                } else {
                    Some(failed(Fault::Item(e), mem))
                },
            }
        },
    }
}

/// Carrying forward the items of the page `from` that are still in effect,
/// from where a reader of that page stands at `at`: each item that is read
/// and whose key has its newest item in `from` has that newest item copied to
/// the data zone of `to`, the first one to the offset `write_at` and each
/// behind the one before. Nothing is read or written beyond the data zone of
/// a page: an item that reaches beyond it, or a copy that would, ends the
/// carrying forward. Gives what is returned and the contents afterwards.
pub open spec fn migrated<I: StorageItem>(
    l: Layout,
    mem: Seq<u8>,
    from: int,
    to: int,
    at: Cursor,
    write_at: int,
) -> (Result<(), Fault<I::Error>>, Seq<u8>)
    decreases left(l.zone(mem, from).len() as int, at.offset),
{
    if at.used < 0 {
        (Ok(()), mem)
    } else {
        match next_record::<I>(l.zone(mem, from), l.word_size, at) {
            Step::End => (Ok(()), mem),
            Step::Fault(fault) => (Err(fault), mem),
            Step::Item { item, offset, len, next } => {
                proof {
                    lemma_item_advances::<I>(l.zone(mem, from), l.word_size, at);
                }
                match newest_item::<I>(l, mem, item.key_of()) {
                    Err(fault) => (Err(fault), mem),
                    Ok(None) => (Err(Fault::Corrupted), mem),
                    Ok(Some(newest)) => if l.page_of(newest.address) == from {
                        if write_at + newest.len > l.data_len() || newest.address + newest.len
                            > l.data_end(from) {
                            (Err(Fault::Corrupted), mem)
                        } else {
                            migrated::<I>(
                                l,
                                programmed(
                                    mem,
                                    l.data_start(to) + write_at,
                                    mem.subrange(newest.address, newest.address + newest.len),
                                ),
                                from,
                                to,
                                next,
                                write_at + newest.len,
                            )
                        }
                    } else {
                        migrated::<I>(l, mem, from, to, next, write_at)
                    },
                }
            },
        }
    }
}

/// Making the blank page `target` the page that items are appended to. The
/// page behind it becomes the spare page: where that one is not blank, its
/// items that are still in effect are carried forward to `target` and then it
/// is erased.
///
/// A page is blank by its markers. Where `target` holds data all the same,
/// left there when items were carried forward to it before and that was broken
/// off, the items are written over what it holds, from the start of its data
/// zone on: a byte keeps the bits that are set both in what was there and in
/// what is written. Where the same items are carried forward again, that
/// changes nothing.
pub open spec fn promoted<I: StorageItem>(l: Layout, mem: Seq<u8>, target: int) -> Outcome<
    I::Error,
> {
    match l.state(mem, target) {
        Some(PageState::Open) => {
            let spare = l.next(target);
            match l.state(mem, spare) {
                None => failed(Fault::Corrupted, mem),
                Some(PageState::Open) => Outcome {
                    result: Ok(()),
                    mem: programmed(mem, l.page_start(target), marker_word(l.word_size)),
                    erased: false,
                },
                Some(_) => {
                    let (moved, mem) = migrated::<I>(l, mem, spare, target, zone_start(), 0);
                    match moved {
                        Err(fault) => failed(fault, mem),
                        Ok(()) => Outcome {
                            result: Ok(()),
                            mem: programmed(
                                wiped(mem, l.page_start(spare), l.page_end(spare)),
                                l.page_start(target),
                                marker_word(l.word_size),
                            ),
                            erased: true,
                        },
                    }
                },
            }
        },
        _ => failed(Fault::Corrupted, mem),
    }
}

/// Storing `item`, at the depth `level` of the search for room.
///
/// Where a page is there that items are appended to, the item is appended to
/// it if there is room. If not, that page is closed and the page behind it
/// takes over; where no such page was there, the first blank page does.
/// Either way the page that takes over is made ready as [`promoted`] says, so
/// that a blank page is left behind it. Then the item is stored at the next
/// depth. At the depth of the number of pages the storage is full.
pub open spec fn store_from<I: StorageItem>(
    l: Layout,
    mem: Seq<u8>,
    item: I,
    level: int,
) -> Outcome<I::Error>
    decreases l.pages - level,
{
    if level >= l.pages {
        failed(Fault::FullStorage, mem)
    } else {
        match l.first_in_state(mem, 0, PageState::PartialOpen, 0) {
            Err(_) => failed(Fault::Corrupted, mem),
            Ok(Some(page)) => match appended::<I>(l, mem, item, page) {
                Some(outcome) => outcome,
                None => {
                    let closed = programmed(mem, l.data_end(page), marker_word(l.word_size));
                    let ready = promoted::<I>(l, closed, l.next(page));
                    match ready.result {
                        Err(_) => ready,
                        Ok(()) => {
                            let rest = store_from::<I>(l, ready.mem, item, level + 1);
                            Outcome { erased: ready.erased || rest.erased, ..rest }
                        },
                    }
                },
            },
            Ok(None) => match l.first_in_state(mem, 0, PageState::Open, 0) {
                Ok(Some(first_open)) => {
                    let ready = promoted::<I>(l, mem, first_open);
                    match ready.result {
                        Err(_) => ready,
                        Ok(()) => {
                            let rest = store_from::<I>(l, ready.mem, item, level + 1);
                            Outcome { erased: ready.erased || rest.erased, ..rest }
                        },
                    }
                },
                _ => failed(Fault::Corrupted, mem),
            },
        }
    }
}

/// The page that is erased when `target` is made ready, if one is.
pub open spec fn spare_erased<I: StorageItem>(l: Layout, mem: Seq<u8>, target: int) -> Set<int> {
    if promoted::<I>(l, mem, target).erased {
        set![l.next(target)]
    } else {
        Set::empty()
    }
}

/// The pages that are erased when `item` is stored, at the depth `level` of
/// the search for room: the spare pages of the pages that take over.
pub open spec fn recycled<I: StorageItem>(l: Layout, mem: Seq<u8>, item: I, level: int) -> Set<
    int,
>
    decreases l.pages - level,
{
    if level >= l.pages {
        Set::empty()
    } else {
        match l.first_in_state(mem, 0, PageState::PartialOpen, 0) {
            Err(_) => Set::empty(),
            Ok(Some(page)) => match appended::<I>(l, mem, item, page) {
                Some(_) => Set::empty(),
                None => {
                    let closed = programmed(mem, l.data_end(page), marker_word(l.word_size));
                    let ready = promoted::<I>(l, closed, l.next(page));
                    spare_erased::<I>(l, closed, l.next(page)).union(
                        if ready.result is Ok {
                            recycled::<I>(l, ready.mem, item, level + 1)
                        } else {
                            Set::empty()
                        },
                    )
                },
            },
            Ok(None) => match l.first_in_state(mem, 0, PageState::Open, 0) {
                Ok(Some(first_open)) => {
                    let ready = promoted::<I>(l, mem, first_open);
                    spare_erased::<I>(l, mem, first_open).union(
                        if ready.result is Ok {
                            recycled::<I>(l, ready.mem, item, level + 1)
                        } else {
                            Set::empty()
                        },
                    )
                },
                _ => Set::empty(),
            },
        }
    }
}

/// Finds where the items of a page end: the offset in its data zone just
/// behind the last item.
fn end_of_page_items<I: StorageItem, S: NorFlash>(
    flash: &mut S,
    flash_range: &Range<u32>,
    page_index: usize,
) -> (r: Result<usize, MapError<I::Error, S::Error>>)
    requires
        valid_region::<S>(*flash_range),
        layout_of::<S>(*flash_range).has(page_index as int),
        layout_of::<S>(*flash_range).page_end(page_index as int) <= old(flash).bytes().len(),
    ensures
        final(flash).dependable() == old(flash).dependable(),
        final(flash).faults() == with_fault(old(flash).faults(), map_fault(r)),
        faultless(*old(flash), *flash_range) ==> !(r matches Err(MapError::Storage(_))),
        final(flash).bytes() == old(flash).bytes(),
        final(flash).erase_count() == old(flash).erase_count(),
        r matches Err(MapError::Storage(_)) || match r {
            Ok(end) => end_of_items::<I>(
                layout_of::<S>(*flash_range).zone(old(flash).bytes(), page_index as int),
                S::WRITE_SIZE as int,
                zone_start(),
                0,
            ) == Ok::<int, Fault<I::Error>>(end as int),
            Err(e) => e.fault() matches Some(fault) && end_of_items::<I>(
                layout_of::<S>(*flash_range).zone(old(flash).bytes(), page_index as int),
                S::WRITE_SIZE as int,
                zone_start(),
                0,
            ) == Err::<int, Fault<I::Error>>(fault),
        },
{
    let ghost l = layout_of::<S>(*flash_range);
    let ghost mem = flash.bytes();
    let ghost zone = l.zone(mem, page_index as int);
    let ghost word = S::WRITE_SIZE as int;
    let mut reader = match read_page_items(flash, flash_range, page_index) {
        Ok(reader) => reader,
        Err(e) => {
            return Err(MapError::Storage(e));
        },
    };
    proof {
        lemma_valid_region::<S>(*flash_range);
        lemma_page_bounds(l, page_index as int);
    }
    loop
        invariant
            flash.bytes() == mem,
            mem == old(flash).bytes(),
            flash.erase_count() == old(flash).erase_count(),
            flash.dependable() == old(flash).dependable(),
            flash.faults() == old(flash).faults(),
            l == layout_of::<S>(*flash_range),
            zone == l.zone(mem, page_index as int),
            word == S::WRITE_SIZE,
            reader.wf(mem),
            reader.reads(l, page_index as int),
            zone == reader.zone(mem),
            word == reader.word_size(),
            reader.cursor().used >= 0,
            end_of_items::<I>(zone, word, zone_start(), 0) == end_of_items::<I>(
                zone,
                word,
                reader.cursor(),
                reader.cursor().offset,
            ),
        decreases left(zone.len() as int, reader.cursor().offset),
    {
        proof {
            lemma_item_advances::<I>(zone, word, reader.cursor());
        }
        match reader.next_item::<I, S>(flash) {
            None => {
                return Ok(reader.position());
            },
            Some(Err(e)) => {
                return Err(e);
            },
            Some(Ok(_)) => {},
        }
    }
}

/// The bytes that are written for an item: the first `len` bytes of
/// `scratch`, followed by erased bytes where `scratch` is shorter.
fn record_of(scratch: &Vec<u8>, len: usize) -> (record: Vec<u8>)
    ensures
        record@ == record_bytes(scratch@, len as int),
{
    let mut record: Vec<u8> = Vec::new();
    while record.len() < len
        invariant
            record.len() <= len,
            forall|i: int| 0 <= i < record.len() ==> record[i] == padded(scratch@, i),
        decreases len - record.len(),
    {
        let i = record.len();
        let byte = if i < scratch.len() {
            scratch[i]
        } else {
            ERASED_BYTE
        };
        record.push(byte);
    }
    assert(record@ =~= record_bytes(scratch@, len as int));
    record
}

/// Appends `item` to the page that items are appended to, if the room that
/// is left in it is enough. Returns whether it was.
fn append_item<I: StorageItem, S: NorFlash>(
    flash: &mut S,
    flash_range: &Range<u32>,
    page_index: usize,
    item: &I,
) -> (r: Result<bool, MapError<I::Error, S::Error>>)
    requires
        valid_region::<S>(*flash_range),
        layout_of::<S>(*flash_range).has(page_index as int),
        layout_of::<S>(*flash_range).page_end(page_index as int) <= old(flash).bytes().len(),
    ensures
        same_in(
            old(flash).bytes(),
            final(flash).bytes(),
            0,
            layout_of::<S>(*flash_range).data_start(page_index as int),
        ),
        same_in(
            old(flash).bytes(),
            final(flash).bytes(),
            layout_of::<S>(*flash_range).data_end(page_index as int),
            old(flash).bytes().len() as int,
        ),
        final(flash).dependable() == old(flash).dependable(),
        final(flash).faults() == with_fault(old(flash).faults(), map_fault(r)),
        faultless(*old(flash), *flash_range) ==> !(r matches Err(MapError::Storage(_))),
        final(flash).bytes().len() == old(flash).bytes().len(),
        final(flash).erase_count() == old(flash).erase_count(),
        r matches Err(MapError::Storage(_)) || match appended::<I>(
            layout_of::<S>(*flash_range),
            old(flash).bytes(),
            *item,
            page_index as int,
        ) {
            None => r == Ok::<bool, MapError<I::Error, S::Error>>(false) && final(flash).bytes()
                == old(flash).bytes(),
            Some(outcome) => {
                &&& final(flash).bytes() == outcome.mem
                &&& match r {
                    Ok(stored) => stored && outcome.result is Ok,
                    Err(e) => e.fault() matches Some(fault) && outcome.result == Err::<
                        (),
                        Fault<I::Error>,
                    >(fault),
                }
            },
        },
{
    let ghost l = layout_of::<S>(*flash_range);
    proof {
        lemma_valid_region::<S>(*flash_range);
        lemma_page_bounds(l, page_index as int);
    }
    let end = match end_of_page_items::<I, S>(flash, flash_range, page_index) {
        Ok(end) => end,
        Err(e) => {
            return Err(e);
        },
    };
    let data_len: usize = S::ERASE_SIZE - 2 * S::WRITE_SIZE;
    if end > data_len {
        return Err(MapError::Corrupted);
    }
    let room: usize = data_len - end;
    let limit: usize = if room < MAX_STORAGE_ITEM_SIZE {
        room
    } else {
        MAX_STORAGE_ITEM_SIZE
    };
    let mut scratch = filled(limit, ERASED_BYTE);
    assert(scratch@ =~= blank(limit as int));
    match item.serialize_into(scratch.as_mut_slice()) {
        Ok(used_bytes) => {
            if used_bytes > MAX_STORAGE_ITEM_SIZE {
                return Err(MapError::Corrupted);
            }
            // Only whole words can be written.
            let len = round_up_to_word(used_bytes, S::WRITE_SIZE);
            if len > room {
                return Err(MapError::Corrupted);
            }
            let record = record_of(&scratch, len);
            let address = calculate_page_address::<S>(flash_range, page_index) + S::WRITE_SIZE
                as u32 + end as u32;
            proof {
                lemma_round_up(used_bytes as int, S::WRITE_SIZE as int);
                if S::ERASE_SIZE as int % S::WRITE_SIZE as int == 0 {
                    lemma_aligned(l, page_index as int);
                    lemma_end_aligned::<I>(
                        l.zone(old(flash).bytes(), page_index as int),
                        S::WRITE_SIZE as int,
                        zone_start(),
                    );
                    vstd::arithmetic::div_mod::lemma_add_mod_noop(
                        l.data_start(page_index as int),
                        end as int,
                        S::WRITE_SIZE as int,
                    );
                }
            }
            match flash.write(address, record.as_slice()) {
                Ok(()) => Ok(true),
                Err(e) => Err(MapError::Storage(e)),
            }
        },
        Err(e) => {
            if e.is_buffer_too_small() {
                Ok(false)
            } else {
                Err(MapError::Item(e))
            }
        },
    }
}

/// Carries the items of the page `from` that are still in effect forward
/// to the data zone of the blank page `to`.
fn migrate_items<I: StorageItem, S: NorFlash>(
    flash: &mut S,
    flash_range: &Range<u32>,
    from: usize,
    to: usize,
) -> (r: Result<(), MapError<I::Error, S::Error>>)
    requires
        valid_region::<S>(*flash_range),
        layout_of::<S>(*flash_range).has(from as int),
        layout_of::<S>(*flash_range).has(to as int),
        from != to,
        layout_of::<S>(*flash_range).page_end(from as int) <= old(flash).bytes().len(),
        I::Key::obeys_eq_spec(),
    ensures
        final(flash).dependable() == old(flash).dependable(),
        final(flash).faults() == with_fault(old(flash).faults(), map_fault(r)),
        faultless(*old(flash), *flash_range) ==> !(r matches Err(MapError::Storage(_))),
        final(flash).bytes().len() == old(flash).bytes().len(),
        final(flash).erase_count() == old(flash).erase_count(),
        !(r matches Err(MapError::Storage(_))) ==> {
            &&& final(flash).bytes() == migrated::<I>(
                layout_of::<S>(*flash_range),
                old(flash).bytes(),
                from as int,
                to as int,
                zone_start(),
                0,
            ).1
            &&& agrees(
                r,
                migrated::<I>(
                    layout_of::<S>(*flash_range),
                    old(flash).bytes(),
                    from as int,
                    to as int,
                    zone_start(),
                    0,
                ).0,
            )
        },
        same_in(
            old(flash).bytes(),
            final(flash).bytes(),
            0,
            layout_of::<S>(*flash_range).data_start(to as int),
        ),
        same_in(
            old(flash).bytes(),
            final(flash).bytes(),
            layout_of::<S>(*flash_range).data_end(to as int),
            old(flash).bytes().len() as int,
        ),
{
    let ghost l = layout_of::<S>(*flash_range);
    let ghost mem0 = flash.bytes();
    proof {
        lemma_valid_region::<S>(*flash_range);
        lemma_page_bounds(l, from as int);
        lemma_page_bounds(l, to as int);
    }
    let mut reader = match read_page_items(flash, flash_range, from) {
        Ok(reader) => reader,
        Err(e) => {
            return Err(MapError::Storage(e));
        },
    };
    let data_len: usize = S::ERASE_SIZE - 2 * S::WRITE_SIZE;
    let target_start: u32 = calculate_page_address::<S>(flash_range, to) + S::WRITE_SIZE as u32;
    let source_end: u32 = calculate_page_end_address::<S>(flash_range, from) - S::WRITE_SIZE
        as u32;
    let mut write_at: usize = 0;
    assert(0int % S::WRITE_SIZE as int == 0) by (nonlinear_arith)
        requires
            S::WRITE_SIZE as int > 0,
    ;
    loop
        invariant
            valid_region::<S>(*flash_range),
            I::Key::obeys_eq_spec(),
            l == layout_of::<S>(*flash_range),
            l.wf(),
            l.has(from as int),
            l.has(to as int),
            from != to,
            mem0 == old(flash).bytes(),
            flash.bytes().len() == mem0.len(),
            flash.erase_count() == old(flash).erase_count(),
            flash.dependable() == old(flash).dependable(),
            flash.faults() == old(flash).faults(),
            source_end == l.data_end(from as int),
            write_at as int % S::WRITE_SIZE as int == 0,
            l.pages * S::ERASE_SIZE == flash_range.end - flash_range.start,
            l.page_end(from as int) <= mem0.len(),
            data_len == l.data_len(),
            target_start == l.data_start(to as int),
            write_at <= data_len,
            same_in(mem0, flash.bytes(), 0, l.data_start(to as int)),
            same_in(mem0, flash.bytes(), l.data_end(to as int), mem0.len() as int),
            reader.wf(flash.bytes()),
            reader.reads(l, from as int),
            reader.cursor().used >= 0,
            migrated::<I>(l, mem0, from as int, to as int, zone_start(), 0) == migrated::<I>(
                l,
                flash.bytes(),
                from as int,
                to as int,
                reader.cursor(),
                write_at as int,
            ),
        decreases left(l.data_len(), reader.cursor().offset),
    {
        let ghost mem = flash.bytes();
        let ghost at = reader.cursor();
        proof {
            reader.lemma_zone(l, from as int, mem);
            lemma_item_advances::<I>(l.zone(mem, from as int), l.word_size, at);
            lemma_page_bounds(l, from as int);
            lemma_page_bounds(l, to as int);
        }
        let old_item = match reader.next_item::<I, S>(flash) {
            None => {
                return Ok(());
            },
            Some(Err(e)) => {
                return Err(e);
            },
            Some(Ok((old_item, _, _))) => old_item,
        };
        let key = old_item.key();
        let (newest_version_address, newest_version_len) = match fetch_item_with_location::<I, S>(
            flash,
            flash_range,
            &key,
        ) {
            Ok(Some((_, address, len))) => (address, len),
            Ok(None) => {
                // An item that was read a moment ago must be found again.
                return Err(MapError::Corrupted);
            },
            Err(e) => {
                return Err(e);
            },
        };
        let newest_old_item_page = calculate_page_index::<S>(flash_range, newest_version_address);
        if newest_old_item_page == from {
            // The newest item with this key stands in the page that is about
            // to be erased: it has to move.
            if newest_version_len > data_len - write_at || newest_version_address > source_end
                || newest_version_len > (source_end - newest_version_address) as usize {
                return Err(MapError::Corrupted);
            }
            let bytes = match read_bytes(flash, newest_version_address, newest_version_len) {
                Ok(bytes) => bytes,
                Err(e) => {
                    return Err(MapError::Storage(e));
                },
            };
            proof {
                if S::ERASE_SIZE as int % S::WRITE_SIZE as int == 0 {
                    lemma_aligned(l, to as int);
                    vstd::arithmetic::div_mod::lemma_add_mod_noop(
                        l.data_start(to as int),
                        write_at as int,
                        S::WRITE_SIZE as int,
                    );
                }
                vstd::arithmetic::div_mod::lemma_add_mod_noop(
                    write_at as int,
                    newest_version_len as int,
                    S::WRITE_SIZE as int,
                );
            }
            match flash.write(target_start + write_at as u32, bytes.as_slice()) {
                Ok(()) => {},
                Err(e) => {
                    return Err(MapError::Storage(e));
                },
            }
            proof {
                let now = flash.bytes();
                if from < to {
                    lemma_pages_apart(l, from as int, to as int);
                } else {
                    lemma_pages_apart(l, to as int, from as int);
                }
                assert(same_in(mem, now, 0, l.data_start(to as int)));
                assert(same_in(mem, now, l.data_end(to as int), mem0.len() as int));
                lemma_zone_same(l, mem, now, from as int);
                reader.lemma_zone(l, from as int, mem);
                reader.lemma_zone(l, from as int, now);
                reader.lemma_moves(mem, now);
            }
            write_at = write_at + newest_version_len;
        }
    }
}

/// Makes the blank page `target` the page that items are appended to. The
/// page behind it becomes the spare page: where it holds items, those that
/// are still in effect are carried forward to `target`, and then it is
/// erased.
fn promote_page<I: StorageItem, S: NorFlash>(
    flash: &mut S,
    flash_range: &Range<u32>,
    target: usize,
) -> (r: Result<(), MapError<I::Error, S::Error>>)
    requires
        valid_region::<S>(*flash_range),
        layout_of::<S>(*flash_range).has(target as int),
        I::Key::obeys_eq_spec(),
    ensures
        layout_of::<S>(*flash_range).state(old(flash).bytes(), target as int) != Some(
            PageState::Open,
        ) ==> final(flash).bytes() == old(flash).bytes(),
        kept_but(
            layout_of::<S>(*flash_range),
            old(flash).bytes(),
            final(flash).bytes(),
            target as int,
            if promoted::<I>(
                layout_of::<S>(*flash_range),
                old(flash).bytes(),
                target as int,
            ).erased {
                layout_of::<S>(*flash_range).next(target as int)
            } else {
                target as int
            },
        ),
        final(flash).dependable() == old(flash).dependable(),
        final(flash).faults() == with_fault(old(flash).faults(), map_fault(r)),
        faultless(*old(flash), *flash_range) ==> !(r matches Err(MapError::Storage(_))),
        final(flash).bytes().len() == old(flash).bytes().len(),
        !promoted::<I>(layout_of::<S>(*flash_range), old(flash).bytes(), target as int).erased
            ==> final(flash).erase_count() == old(flash).erase_count(),
        !(r matches Err(MapError::Storage(_))) ==> {
            &&& final(flash).bytes() == promoted::<I>(
                layout_of::<S>(*flash_range),
                old(flash).bytes(),
                target as int,
            ).mem
            &&& agrees(
                r,
                promoted::<I>(
                    layout_of::<S>(*flash_range),
                    old(flash).bytes(),
                    target as int,
                ).result,
            )
        },
{
    let ghost l = layout_of::<S>(*flash_range);
    let ghost mem0 = flash.bytes();
    proof {
        lemma_valid_region::<S>(*flash_range);
        lemma_page_bounds(l, target as int);
    }
    match get_page_state(flash, flash_range, target) {
        Ok(state) => {
            if !state.is_open() {
                // The page that was kept as the spare page is not blank.
                return Err(MapError::Corrupted);
            }
        },
        Err(e) => {
            return Err(MapError::from(e));
        },
    }
    let next_buffer_page = next_page::<S>(flash_range, target);
    let next_buffer_page_state = match get_page_state(flash, flash_range, next_buffer_page) {
        Ok(state) => state,
        Err(e) => {
            return Err(MapError::from(e));
        },
    };
    if !next_buffer_page_state.is_open() {
        match migrate_items::<I, S>(flash, flash_range, next_buffer_page, target) {
            Ok(()) => {},
            Err(e) => {
                return Err(e);
            },
        }
        let ghost moved = flash.bytes();
        let from = calculate_page_address::<S>(flash_range, next_buffer_page);
        let to = calculate_page_end_address::<S>(flash_range, next_buffer_page);
        proof {
            lemma_page_bounds(l, next_buffer_page as int);
            if S::ERASE_SIZE as int % S::WRITE_SIZE as int == 0 {
                lemma_aligned(l, next_buffer_page as int);
            }
        }
        match flash.erase(from, to) {
            Ok(()) => {},
            Err(e) => {
                return Err(MapError::Storage(e));
            },
        }
        proof {
            let now = flash.bytes();
            lemma_page_bounds(l, next_buffer_page as int);
            if (next_buffer_page as int) < target as int {
                lemma_pages_apart(l, next_buffer_page as int, target as int);
            } else {
                lemma_pages_apart(l, target as int, next_buffer_page as int);
            }
            assert(same_in(mem0, now, l.page_start(target as int), l.data_start(target as int)));
            assert(same_in(mem0, now, l.data_end(target as int), l.page_end(target as int)));
            lemma_state_same(l, mem0, now, target as int);
        }
    }
    match partial_close_page(flash, flash_range, target) {
        Ok(()) => Ok(()),
        Err(e) => Err(MapError::from(e)),
    }
}

/// Stores `item`, at the depth `recursion_level` of the search for room.
fn store_item_inner<I: StorageItem, S: NorFlash>(
    flash: &mut S,
    flash_range: &Range<u32>,
    item: &I,
    recursion_level: usize,
) -> (r: Result<(), MapError<I::Error, S::Error>>)
    requires
        valid_region::<S>(*flash_range),
        I::Key::obeys_eq_spec(),
        recursion_level <= layout_of::<S>(*flash_range).pages,
    ensures
        outside_kept(layout_of::<S>(*flash_range), old(flash).bytes(), final(flash).bytes()),
        closed_kept(
            layout_of::<S>(*flash_range),
            old(flash).bytes(),
            final(flash).bytes(),
            recycled::<I>(
                layout_of::<S>(*flash_range),
                old(flash).bytes(),
                *item,
                recursion_level as int,
            ),
        ),
        final(flash).dependable() == old(flash).dependable(),
        final(flash).faults() == with_fault(old(flash).faults(), map_fault(r)),
        faultless(*old(flash), *flash_range) ==> !(r matches Err(MapError::Storage(_))),
        final(flash).bytes().len() == old(flash).bytes().len(),
        !store_from::<I>(
            layout_of::<S>(*flash_range),
            old(flash).bytes(),
            *item,
            recursion_level as int,
        ).erased ==> final(flash).erase_count() == old(flash).erase_count(),
        !(r matches Err(MapError::Storage(_))) ==> {
            &&& final(flash).bytes() == store_from::<I>(
                layout_of::<S>(*flash_range),
                old(flash).bytes(),
                *item,
                recursion_level as int,
            ).mem
            &&& agrees(
                r,
                store_from::<I>(
                    layout_of::<S>(*flash_range),
                    old(flash).bytes(),
                    *item,
                    recursion_level as int,
                ).result,
            )
        },
    decreases layout_of::<S>(*flash_range).pages - recursion_level,
{
    let ghost l = layout_of::<S>(*flash_range);
    let ghost mem0 = flash.bytes();
    let ghost all = recycled::<I>(l, mem0, *item, recursion_level as int);
    let ghost none = Set::<int>::empty();
    proof {
        lemma_valid_region::<S>(*flash_range);
    }
    // Once every page has had its turn there is no room anywhere.
    if recursion_level >= page_count::<S>(flash_range) {
        return Err(MapError::FullStorage);
    }
    let partial_open_page = match find_first_page(
        flash,
        flash_range,
        0,
        PageState::PartialOpen,
    ) {
        Ok(page) => page,
        Err(e) => {
            return Err(MapError::from(e));
        },
    };
    let next_page_to_use = match partial_open_page {
        Some(partial_open_page) => {
            proof {
                lemma_page_bounds(l, partial_open_page as int);
            }
            // The item goes to the page that items are appended to, if it
            // fits.
            let appended = append_item::<I, S>(flash, flash_range, partial_open_page, item);
            proof {
                lemma_kept_in_page(
                    l,
                    mem0,
                    flash.bytes(),
                    partial_open_page as int,
                    l.data_start(partial_open_page as int),
                    l.data_end(partial_open_page as int),
                );
                lemma_kept_step(
                    l,
                    mem0,
                    flash.bytes(),
                    partial_open_page as int,
                    partial_open_page as int,
                    all,
                );
            }
            match appended {
                Ok(true) => {
                    return Ok(());
                },
                Ok(false) => {},
                Err(e) => {
                    return Err(e);
                },
            }
            // It does not fit: the page is closed and the next one takes
            // over.
            let closed = close_page(flash, flash_range, partial_open_page);
            proof {
                lemma_kept_in_page(
                    l,
                    mem0,
                    flash.bytes(),
                    partial_open_page as int,
                    l.data_end(partial_open_page as int),
                    l.page_end(partial_open_page as int),
                );
                lemma_kept_step(
                    l,
                    mem0,
                    flash.bytes(),
                    partial_open_page as int,
                    partial_open_page as int,
                    all,
                );
                lemma_kept_step(
                    l,
                    mem0,
                    flash.bytes(),
                    partial_open_page as int,
                    partial_open_page as int,
                    none,
                );
            }
            match closed {
                Ok(()) => {},
                Err(e) => {
                    return Err(MapError::from(e));
                },
            }
            next_page::<S>(flash_range, partial_open_page)
        },
        None => {
            // No page is in use: the first blank page takes over, and the
            // page behind it is made the spare page.
            match find_first_page(flash, flash_range, 0, PageState::Open) {
                Ok(Some(page)) => page,
                Ok(None) => {
                    return Err(MapError::Corrupted);
                },
                Err(e) => {
                    return Err(MapError::from(e));
                },
            }
        },
    };
    let ghost shut = flash.bytes();
    let ghost spare = spare_erased::<I>(l, shut, next_page_to_use as int);
    let promoted = promote_page::<I, S>(flash, flash_range, next_page_to_use);
    let ghost ready = flash.bytes();
    proof {
        if l.state(shut, next_page_to_use as int) == Some(PageState::Open) {
            lemma_kept_step(
                l,
                shut,
                ready,
                next_page_to_use as int,
                if spare.contains(l.next(next_page_to_use as int)) {
                    l.next(next_page_to_use as int)
                } else {
                    next_page_to_use as int
                },
                spare,
            );
        }
        lemma_kept_twice(l, mem0, shut, ready, none, spare, all);
    }
    match promoted {
        Ok(()) => {},
        Err(e) => {
            return Err(e);
        },
    }
    // A page has just been made ready, so this time the item should fit.
    let stored = store_item_inner::<I, S>(flash, flash_range, item, recursion_level + 1);
    proof {
        lemma_kept_twice(
            l,
            mem0,
            ready,
            flash.bytes(),
            all,
            recycled::<I>(l, ready, *item, recursion_level + 1),
            all,
        );
    }
    stored
}

/// Stores an item. From then on it is the item in effect for its key.
///
/// Where the driver reports no fault, what is returned and what the flash
/// holds afterwards is [`store_from`] of the bytes it held before. No page is
/// erased where the item fits the page that items are appended to. A page
/// takes over only after the page behind it has been made the blank spare
/// page, so that a store that succeeds leaves a blank page.
/// What that comes to in a region in regular use is shown in
/// [`crate::consistency`], [`crate::rotation`] and [`crate::capacity`].
///
/// A fault of the driver ends the store: it is handed on as it was reported,
/// and the driver is not asked again. On a flash that is [`faultless`] for the
/// region none comes. Whatever comes back, nothing outside the region has
/// changed, and every page that was closed holds what it held, but for the
/// pages that are [`recycled`].
pub fn store_item<I: StorageItem, S: NorFlash>(
    flash: &mut S,
    flash_range: Range<u32>,
    item: I,
) -> (r: Result<(), MapError<I::Error, S::Error>>)
    requires
        valid_region::<S>(flash_range),
        I::Key::obeys_eq_spec(),
    ensures
        outside_kept(layout_of::<S>(flash_range), old(flash).bytes(), final(flash).bytes()),
        closed_kept(
            layout_of::<S>(flash_range),
            old(flash).bytes(),
            final(flash).bytes(),
            recycled::<I>(layout_of::<S>(flash_range), old(flash).bytes(), item, 0),
        ),
        final(flash).dependable() == old(flash).dependable(),
        final(flash).faults() == with_fault(old(flash).faults(), map_fault(r)),
        faultless(*old(flash), flash_range) ==> !(r matches Err(MapError::Storage(_))),
        final(flash).bytes().len() == old(flash).bytes().len(),
        !store_from::<I>(layout_of::<S>(flash_range), old(flash).bytes(), item, 0).erased
            ==> final(flash).erase_count() == old(flash).erase_count(),
        !(r matches Err(MapError::Storage(_))) ==> {
            &&& final(flash).bytes() == store_from::<I>(
                layout_of::<S>(flash_range),
                old(flash).bytes(),
                item,
                0,
            ).mem
            &&& agrees(
                r,
                store_from::<I>(layout_of::<S>(flash_range), old(flash).bytes(), item, 0).result,
            )
        },
{
    proof {
        lemma_valid_region::<S>(flash_range);
    }
    store_item_inner::<I, S>(flash, &flash_range, &item, 0)
}

} // verus!
