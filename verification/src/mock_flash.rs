//! A NOR flash kept in memory, for tests and experiments.

use crate::flash::{copy_into, filled, programmed, wiped, NorFlash, ERASED_BYTE};
use vstd::prelude::*;

verus! {

/// Why an operation on a [`MockFlashBase`] was refused.
#[derive(Debug, PartialEq, Eq, Clone, Copy)]
pub enum MockFlashError {
    /// The range of the operation does not lie within the device.
    OutOfBounds,
    /// The address or the length is not a multiple of the unit of the
    /// operation.
    NotAligned,
}

/// A flash of `PAGES` pages of `PAGE_WORDS` words of `BYTES_PER_WORD` bytes
/// each, which counts the operations it is asked for.
pub struct MockFlashBase<const PAGES: usize, const BYTES_PER_WORD: usize, const PAGE_WORDS: usize> {
    /// The contents, one byte for each address.
    pub data: Vec<u8>,
    /// The number of erase operations asked for so far.
    pub erases: u32,
    /// The number of read operations asked for so far.
    pub reads: u32,
    /// The number of write operations asked for so far.
    pub writes: u32,
    /// The faults reported so far.
    pub faulted: Ghost<Seq<MockFlashError>>,
}

impl<const PAGES: usize, const BYTES_PER_WORD: usize, const PAGE_WORDS: usize> MockFlashBase<
    PAGES,
    BYTES_PER_WORD,
    PAGE_WORDS,
> {
    /// The size of the device in bytes.
    pub open spec fn capacity_bytes() -> int {
        PAGES * PAGE_WORDS * BYTES_PER_WORD
    }

    /// A fully erased flash on which nothing has been counted yet.
    pub fn new() -> (flash: Self)
        requires
            Self::capacity_bytes() <= usize::MAX,
        ensures
            flash.bytes() == Seq::new(Self::capacity_bytes() as nat, |i: int| ERASED_BYTE),
            flash.erases == 0,
            flash.reads == 0,
            flash.writes == 0,
            flash.faults() == Seq::<MockFlashError>::empty(),
    {
        let size = if PAGES == 0 || PAGE_WORDS == 0 || BYTES_PER_WORD == 0 {
            assert(Self::capacity_bytes() == 0) by (nonlinear_arith)
                requires
                    PAGES == 0 || PAGE_WORDS == 0 || BYTES_PER_WORD == 0,
                    Self::capacity_bytes() == PAGES * PAGE_WORDS * BYTES_PER_WORD,
            ;
            0
        } else {
            assert(PAGES * PAGE_WORDS <= PAGES * PAGE_WORDS * BYTES_PER_WORD) by (nonlinear_arith)
                requires
                    PAGES >= 1,
                    PAGE_WORDS >= 1,
                    BYTES_PER_WORD >= 1,
            ;
            PAGES * PAGE_WORDS * BYTES_PER_WORD
        };
        Self::with_bytes(filled(size, ERASED_BYTE))
    }

    /// A flash over the given bytes, on which nothing has been counted yet:
    /// what a driver is when it is built anew over what the flash holds.
    pub fn with_bytes(data: Vec<u8>) -> (flash: Self)
        ensures
            flash.bytes() == data@,
            flash.erases == 0,
            flash.reads == 0,
            flash.writes == 0,
            flash.faults() == Seq::<MockFlashError>::empty(),
    {
        MockFlashBase { data, erases: 0, reads: 0, writes: 0, faulted: Ghost(Seq::empty()) }
    }

    /// The sizes of the units of reading, writing and erasing.
    pub proof fn lemma_sizes()
        ensures
            Self::READ_SIZE == 1,
            Self::WRITE_SIZE == BYTES_PER_WORD,
            BYTES_PER_WORD * PAGE_WORDS <= usize::MAX ==> Self::ERASE_SIZE == BYTES_PER_WORD
                * PAGE_WORDS,
    {
    }

    /// Reports `fault` and puts it on record.
    fn refuse(&mut self, fault: MockFlashError) -> (r: Result<(), MockFlashError>)
        ensures
            r == Err::<(), MockFlashError>(fault),
            final(self).faulted@ == old(self).faulted@.push(fault),
            final(self).data == old(self).data,
            final(self).erases == old(self).erases,
            final(self).reads == old(self).reads,
            final(self).writes == old(self).writes,
    {
        self.faulted = Ghost(self.faulted@.push(fault));
        Err(fault)
    }

    /// Whether `len` bytes at `offset` lie within `size` bytes.
    fn in_bounds(size: usize, offset: u32, len: usize) -> (ok: bool)
        ensures
            ok <==> offset + len <= size,
    {
        offset as usize <= size && len <= size - offset as usize
    }
}

impl<
    const PAGES: usize,
    const BYTES_PER_WORD: usize,
    const PAGE_WORDS: usize,
> NorFlash for MockFlashBase<PAGES, BYTES_PER_WORD, PAGE_WORDS> {
    type Error = MockFlashError;

    const READ_SIZE: usize = 1;

    const WRITE_SIZE: usize = BYTES_PER_WORD;

    const ERASE_SIZE: usize = BYTES_PER_WORD * PAGE_WORDS;

    open spec fn bytes(&self) -> Seq<u8> {
        self.data@
    }

    open spec fn erase_count(&self) -> nat {
        self.erases as nat
    }

    open spec fn dependable(&self) -> bool {
        true
    }

    open spec fn faults(&self) -> Seq<MockFlashError> {
        self.faulted@
    }

    fn read(&mut self, offset: u32, bytes: &mut [u8]) -> (r: Result<(), MockFlashError>)
        ensures
            r is Ok <==> offset + old(bytes)@.len() <= old(self).bytes().len(),
            r matches Err(e) ==> e == MockFlashError::OutOfBounds,
            !(r is Ok) ==> final(bytes)@ == old(bytes)@,
            final(self).reads == old(self).reads.wrapping_add(1),
            final(self).writes == old(self).writes,
            final(self).erases == old(self).erases,
    {
        self.reads = self.reads.wrapping_add(1);
        let len = bytes.len();
        if !Self::in_bounds(self.data.len(), offset, len) {
            return self.refuse(MockFlashError::OutOfBounds);
        }
        let from = offset as usize;
        let source = vstd::slice::slice_subrange(self.data.as_slice(), from, from + len);
        copy_into(bytes, source);
        Ok(())
    }

    fn write(&mut self, offset: u32, bytes: &[u8]) -> (r: Result<(), MockFlashError>)
        ensures
            r is Ok <==> {
                &&& offset + bytes@.len() <= old(self).bytes().len()
                &&& BYTES_PER_WORD > 0
                &&& offset as int % BYTES_PER_WORD as int == 0
                &&& bytes@.len() as int % BYTES_PER_WORD as int == 0
            },
            r matches Err(e) ==> e == if offset + bytes@.len() <= old(self).bytes().len() {
                MockFlashError::NotAligned
            } else {
                MockFlashError::OutOfBounds
            },
            !(r is Ok) ==> final(self).bytes() == old(self).bytes(),
            final(self).writes == old(self).writes.wrapping_add(1),
            final(self).reads == old(self).reads,
            final(self).erases == old(self).erases,
    {
        self.writes = self.writes.wrapping_add(1);
        let len = bytes.len();
        if !Self::in_bounds(self.data.len(), offset, len) {
            return self.refuse(MockFlashError::OutOfBounds);
        }
        let from = offset as usize;
        if BYTES_PER_WORD == 0 || from % BYTES_PER_WORD != 0 || len % BYTES_PER_WORD != 0 {
            return self.refuse(MockFlashError::NotAligned);
        }
        let ghost before = self.data@;
        let mut i: usize = 0;
        while i < len
            invariant
                i <= len,
                len == bytes@.len(),
                from + len <= self.data@.len() <= usize::MAX,
                self.data@.len() == before.len(),
                self.reads == old(self).reads,
                self.erases == old(self).erases,
                self.writes == old(self).writes.wrapping_add(1),
                self.faulted == old(self).faulted,
                forall|j: int|
                    0 <= j < from + i ==> self.data@[j] == programmed(
                        before,
                        from as int,
                        bytes@,
                    )[j],
                forall|j: int| from + i <= j < before.len() ==> self.data@[j] == before[j],
            decreases len - i,
        {
            let old_byte = self.data[from + i];
            self.data[from + i] = old_byte & bytes[i];
            i += 1;
        }
        assert(self.data@ =~= programmed(before, from as int, bytes@));
        Ok(())
    }

    fn erase(&mut self, from: u32, to: u32) -> (r: Result<(), MockFlashError>)
        ensures
            r is Ok <==> {
                &&& from <= to <= old(self).bytes().len()
                &&& Self::ERASE_SIZE > 0
                &&& from as int % Self::ERASE_SIZE as int == 0
                &&& to as int % Self::ERASE_SIZE as int == 0
            },
            r matches Err(e) ==> e == if from <= to <= old(self).bytes().len() {
                MockFlashError::NotAligned
            } else {
                MockFlashError::OutOfBounds
            },
            !(r is Ok) ==> final(self).bytes() == old(self).bytes(),
            final(self).erases == old(self).erases.wrapping_add(1),
            final(self).reads == old(self).reads,
            final(self).writes == old(self).writes,
    {
        self.erases = self.erases.wrapping_add(1);
        if from > to || to as usize > self.data.len() {
            return self.refuse(MockFlashError::OutOfBounds);
        }
        let page = Self::ERASE_SIZE;
        if page == 0 || from as usize % page != 0 || to as usize % page != 0 {
            return self.refuse(MockFlashError::NotAligned);
        }
        let ghost before = self.data@;
        let end = to as usize;
        let mut i: usize = from as usize;
        while i < end
            invariant
                from <= i <= end,
                end == to,
                end <= self.data@.len(),
                self.data@.len() == before.len(),
                self.reads == old(self).reads,
                self.writes == old(self).writes,
                self.erases == old(self).erases.wrapping_add(1),
                self.faulted == old(self).faulted,
                forall|j: int|
                    0 <= j < i ==> self.data@[j] == wiped(before, from as int, to as int)[j],
                forall|j: int| i <= j < before.len() ==> self.data@[j] == before[j],
            decreases end - i,
        {
            self.data[i] = ERASED_BYTE;
            i += 1;
        }
        assert(self.data@ =~= wiped(before, from as int, to as int));
        Ok(())
    }
}

} // verus!
