//! The interface of a NOR flash driver, with a model of the medium.
//!
//! The medium is modelled as a sequence of bytes indexed by address. Erasing
//! sets bytes to `0xFF`; writing can only clear bits, so a written byte is the
//! bitwise and of what was there and what is written. An operation that fails
//! leaves the bytes outside its range as they were.
//!
//! A driver also has a record of the faults it has reported, so that the
//! contracts can say which fault is handed on, and it may declare that it can
//! be depended on, so that they can say when none comes.

use vstd::prelude::*;

verus! {

/// The value of every byte of an erased region.
pub const ERASED_BYTE: u8 = 0xFF;

/// The bytes `[from, from + len)` of `mem` all hold the erased value.
pub open spec fn is_erased(mem: Seq<u8>, from: int, len: int) -> bool {
    forall|i: int| from <= i < from + len ==> #[trigger] mem[i] == ERASED_BYTE
}

/// The memory after `data` has been written at address `at`: inside the
/// written range each byte keeps only the bits that are set in both the old
/// byte and the written one, outside it nothing changes.
pub open spec fn programmed(mem: Seq<u8>, at: int, data: Seq<u8>) -> Seq<u8> {
    Seq::new(
        mem.len(),
        |i: int|
            if at <= i < at + data.len() {
                mem[i] & data[i - at]
            } else {
                mem[i]
            },
    )
}

/// The memory after the bytes `[from, to)` have been erased.
pub open spec fn wiped(mem: Seq<u8>, from: int, to: int) -> Seq<u8> {
    Seq::new(
        mem.len(),
        |i: int|
            if from <= i < to {
                ERASED_BYTE
            } else {
                mem[i]
            },
    )
}

/// `count` bytes, each `value`.
pub fn filled(count: usize, value: u8) -> (v: Vec<u8>)
    ensures
        v@ == Seq::new(count as nat, |i: int| value),
{
    let mut v: Vec<u8> = Vec::new();
    while v.len() < count
        invariant
            v.len() <= count,
            forall|i: int| 0 <= i < v.len() ==> v[i] == value,
        decreases count - v.len(),
    {
        v.push(value);
    }
    assert(v@ =~= Seq::new(count as nat, |i: int| value));
    v
}

/// Copies the bytes of `src` to `dest`, which is as long.
pub fn copy_into(dest: &mut [u8], src: &[u8])
    requires
        old(dest)@.len() == src@.len(),
    ensures
        final(dest)@ == src@,
{
    let count = src.len();
    let mut i: usize = 0;
    while i < count
        invariant
            i <= count,
            count == src@.len(),
            dest@.len() == count,
            forall|j: int| 0 <= j < i ==> dest@[j] == src@[j],
        decreases count - i,
    {
        dest[i] = src[i];
        i += 1;
    }
    assert(dest@ =~= src@);
}

/// The two memories hold the same bytes at the addresses `[from, to)`.
pub open spec fn same_in(a: Seq<u8>, b: Seq<u8>, from: int, to: int) -> bool {
    forall|i: int|
        #![trigger a[i]]
        #![trigger b[i]]
        from <= i < to ==> a[i] == b[i]
}

/// The faults reported so far, after an operation that reported `fault` or
/// none.
pub open spec fn with_fault<E>(log: Seq<E>, fault: Option<E>) -> Seq<E> {
    match fault {
        Some(e) => log.push(e),
        None => log,
    }
}

/// The fault that an operation of the driver reported, if it did.
pub open spec fn fault_in<V, E>(r: Result<V, E>) -> Option<E> {
    match r {
        Ok(_) => None,
        Err(e) => Some(e),
    }
}

/// A NOR flash driver.
///
/// The specification functions are the model of the device that the contracts
/// of the operations speak of: its contents, a count of the erases, whether
/// it can be depended on, and the faults it has reported. The defaults leave
/// contents, count and faults unspecified, and take the device as one that
/// cannot be depended on: a driver written outside verified code is taken to
/// behave as the contracts say for some contents, some count and some record
/// of its faults.
pub trait NorFlash: Sized {
    /// The error a failed operation reports.
    type Error;

    /// The smallest number of bytes that can be read.
    const READ_SIZE: usize;

    /// The size of a word, the unit of writing.
    const WRITE_SIZE: usize;

    /// The size of a page, the unit of erasing.
    const ERASE_SIZE: usize;

    /// The contents of the device, indexed by address.
    open spec fn bytes(&self) -> Seq<u8> {
        arbitrary::<spec_fn(Self) -> Seq<u8>>()(*self)
    }

    /// A count of the times the device has been asked to erase: it changes
    /// with every erase, and with nothing else.
    open spec fn erase_count(&self) -> nat {
        arbitrary::<spec_fn(Self) -> nat>()(*self)
    }

    /// Whether the device can be depended on: such a device reports no fault
    /// on a request that lies within it and, for writing and erasing, starts
    /// and ends at a multiple of the unit. Nothing is taken for granted of a
    /// device unless its driver says so.
    open spec fn dependable(&self) -> bool {
        false
    }

    /// The faults that the device has reported so far, in the order in which
    /// it reported them.
    open spec fn faults(&self) -> Seq<Self::Error> {
        arbitrary::<spec_fn(Self) -> Seq<Self::Error>>()(*self)
    }

    /// Reads `bytes.len()` bytes starting at `offset`. The device is left as
    /// it was, whether or not the read succeeds.
    fn read(&mut self, offset: u32, bytes: &mut [u8]) -> (r: Result<(), Self::Error>)
        ensures
            final(self).bytes() == old(self).bytes(),
            final(self).erase_count() == old(self).erase_count(),
            final(self).dependable() == old(self).dependable(),
            final(self).faults() == with_fault(old(self).faults(), fault_in(r)),
            final(bytes)@.len() == old(bytes)@.len(),
            r is Ok ==> offset + old(bytes)@.len() <= old(self).bytes().len(),
            r is Ok ==> final(bytes)@ == old(self).bytes().subrange(
                offset as int,
                offset + old(bytes)@.len(),
            ),
            old(self).dependable() && offset + old(bytes)@.len() <= old(self).bytes().len()
                ==> r is Ok,
    ;

    /// Writes `bytes` at `offset`. A write can only clear bits. After a
    /// failed write nothing is known of the bytes that were to be written
    /// but that they are there; all other bytes are as they were.
    fn write(&mut self, offset: u32, bytes: &[u8]) -> (r: Result<(), Self::Error>)
        ensures
            final(self).bytes().len() == old(self).bytes().len(),
            final(self).erase_count() == old(self).erase_count(),
            final(self).dependable() == old(self).dependable(),
            final(self).faults() == with_fault(old(self).faults(), fault_in(r)),
            r is Ok ==> offset + bytes@.len() <= old(self).bytes().len(),
            r is Ok ==> final(self).bytes() == programmed(
                old(self).bytes(),
                offset as int,
                bytes@,
            ),
            same_in(old(self).bytes(), final(self).bytes(), 0, offset as int),
            same_in(
                old(self).bytes(),
                final(self).bytes(),
                offset + bytes@.len(),
                old(self).bytes().len() as int,
            ),
            old(self).dependable() && Self::WRITE_SIZE > 0 && offset + bytes@.len() <= old(
                self,
            ).bytes().len() && offset as int % Self::WRITE_SIZE as int == 0 && bytes@.len() as int
                % Self::WRITE_SIZE as int == 0 ==> r is Ok,
    ;

    /// Erases the bytes `[from, to)`. After a failed erase nothing is known
    /// of these bytes but that they are there; all other bytes are as they
    /// were. Whether it succeeds or not, the device has been asked to erase,
    /// and its count shows it.
    fn erase(&mut self, from: u32, to: u32) -> (r: Result<(), Self::Error>)
        ensures
            final(self).bytes().len() == old(self).bytes().len(),
            final(self).erase_count() != old(self).erase_count(),
            final(self).dependable() == old(self).dependable(),
            final(self).faults() == with_fault(old(self).faults(), fault_in(r)),
            r is Ok ==> from <= to <= old(self).bytes().len(),
            r is Ok ==> final(self).bytes() == wiped(old(self).bytes(), from as int, to as int),
            same_in(old(self).bytes(), final(self).bytes(), 0, from as int),
            same_in(
                old(self).bytes(),
                final(self).bytes(),
                to as int,
                old(self).bytes().len() as int,
            ),
            old(self).dependable() && Self::ERASE_SIZE > 0 && from <= to <= old(
                self,
            ).bytes().len() && from as int % Self::ERASE_SIZE as int == 0 && to as int
                % Self::ERASE_SIZE as int == 0 ==> r is Ok,
    ;
}

} // verus!
