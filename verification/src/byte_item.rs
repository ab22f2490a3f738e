//! The smallest item there is: one byte of value under one byte of key.
//!
//! Its codec shows what the map asks of a codec, and that it can be had: it
//! is well behaved in the sense the guarantees of the map rest on.

use crate::capacity::takes;
use crate::flash::{copy_into, ERASED_BYTE};
use crate::map::{blank, StorageItem, StorageItemError};
use crate::zone::{equivalent_keys, lawful};
use vstd::prelude::*;
use vstd::std_specs::cmp::PartialEqSpec;

verus! {

/// A byte of value under a byte of key. On the flash it is the key followed
/// by the value.
#[derive(Debug, Clone, Copy, PartialEq, Eq)]
pub struct ByteItem {
    /// The key, which must not be `0xFF`: an item must not start like erased
    /// flash.
    pub key: u8,
    /// The value.
    pub value: u8,
}

/// Why a [`ByteItem`] could not be written or read.
#[derive(Debug, Clone, Copy, PartialEq, Eq)]
pub enum ByteItemError {
    /// The buffer has fewer than two bytes.
    BufferTooSmall,
    /// The key is `0xFF`.
    InvalidKey,
}

impl StorageItemError for ByteItemError {
    open spec fn buffer_too_small(&self) -> bool {
        *self == ByteItemError::BufferTooSmall
    }

    fn is_buffer_too_small(&self) -> (r: bool) {
        matches!(self, ByteItemError::BufferTooSmall)
    }
}

impl StorageItem for ByteItem {
    type Key = u8;

    type Error = ByteItemError;

    open spec fn serialized(&self, buffer: Seq<u8>) -> (Result<usize, ByteItemError>, Seq<u8>) {
        if buffer.len() < 2 {
            (Err(ByteItemError::BufferTooSmall), buffer)
        } else if self.key == ERASED_BYTE {
            (Err(ByteItemError::InvalidKey), buffer)
        } else {
            (Ok(2), seq![self.key, self.value] + buffer.subrange(2, buffer.len() as int))
        }
    }

    open spec fn deserialized(buffer: Seq<u8>) -> Result<(Self, usize), ByteItemError> {
        if buffer.len() < 2 {
            Err(ByteItemError::BufferTooSmall)
        } else if buffer[0] == ERASED_BYTE {
            Err(ByteItemError::InvalidKey)
        } else {
            Ok((ByteItem { key: buffer[0], value: buffer[1] }, 2))
        }
    }

    open spec fn key_of(&self) -> u8 {
        self.key
    }

    fn serialize_into(&self, buffer: &mut [u8]) -> (r: Result<usize, ByteItemError>) {
        if buffer.len() < 2 {
            return Err(ByteItemError::BufferTooSmall);
        }
        if self.key == ERASED_BYTE {
            return Err(ByteItemError::InvalidKey);
        }
        let mut bytes: Vec<u8> = Vec::new();
        bytes.push(self.key);
        bytes.push(self.value);
        let (head, _) = buffer.split_at_mut(2);
        copy_into(head, bytes.as_slice());
        assert(bytes@ =~= seq![self.key, self.value]);
        Ok(2)
    }

    fn deserialize_from(buffer: &[u8]) -> (r: Result<(Self, usize), ByteItemError>) {
        if buffer.len() < 2 {
            return Err(ByteItemError::BufferTooSmall);
        }
        if buffer[0] == ERASED_BYTE {
            return Err(ByteItemError::InvalidKey);
        }
        Ok((ByteItem { key: buffer[0], value: buffer[1] }, 2))
    }

    fn key(&self) -> (k: u8) {
        self.key
    }
}

/// The codec of [`ByteItem`] is well behaved, and the equality of its keys is
/// an equivalence.
pub proof fn lemma_byte_item_lawful()
    ensures
        lawful::<ByteItem>(),
        equivalent_keys::<ByteItem>(),
{
    assert forall|b: Seq<u8>, c: Seq<u8>|
        (#[trigger] ByteItem::deserialized(b) matches Ok((_, n)) && c.len() >= n && c.subrange(
            0,
            n as int,
        ) == b.subrange(0, n as int)) implies #[trigger] ByteItem::deserialized(c)
        == ByteItem::deserialized(b) by {
        assert(c[0] == c.subrange(0, 2)[0]);
        assert(c[1] == c.subrange(0, 2)[1]);
        assert(b[0] == b.subrange(0, 2)[0]);
        assert(b[1] == b.subrange(0, 2)[1]);
    }
    assert forall|item: ByteItem, b: Seq<u8>| #[trigger]
        item.serialized(b).0 matches Ok(n) ==> {
            &&& 1 <= n <= b.len()
            &&& item.serialized(b).1.len() == b.len()
            &&& ByteItem::deserialized(item.serialized(b).1.subrange(0, n as int)) == Ok::<
                (ByteItem, usize),
                ByteItemError,
            >((item, n))
        } by {
        let written = item.serialized(b).1;
        if item.serialized(b).0 is Ok {
            assert(written.subrange(0, 2) =~= seq![item.key, item.value]);
        }
    }
}

/// A [`ByteItem`] whose key is not the erased byte takes two bytes.
pub proof fn lemma_byte_item_takes(item: ByteItem)
    requires
        item.key != ERASED_BYTE,
    ensures
        takes(item, 2),
{
    assert forall|limit: int| 0 <= limit <= 512 implies match (#[trigger] item.serialized(
        blank(limit),
    )).0 {
        Ok(written) => limit >= 2 && written == 2,
        Err(e) => limit < 2 && e.buffer_too_small(),
    } by {
        assert(blank(limit).len() == limit);
    }
}

} // verus!
