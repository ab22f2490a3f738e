//! What holds of reading a data zone when the item codec keeps its side of
//! the bargain.
//!
//! The reader looks at a zone through a window, so what it reads of an item
//! could depend on the bytes that follow the item. With a well-behaved codec
//! it does not: appending to a zone leaves the items before untouched.

use crate::flash::{is_erased, ERASED_BYTE};
use crate::map::{
    end_of_items, left, lemma_item_advances, newest_in_zone, next_record, round_up,
    unread, Cursor, Fault, Located, Step, StorageItem, StorageItemError,
    MAX_STORAGE_ITEM_SIZE,
};
use vstd::prelude::*;
use vstd::std_specs::cmp::PartialEqSpec;

verus! {

/// The codec of `I` is well behaved:
/// - an item that is read takes at least one byte and no more than it was
///   given, and its first byte is not an erased one;
/// - what is read depends on the bytes of the item alone, not on what
///   follows them;
/// - from a buffer that holds only a part of an item, the codec reports that
///   the buffer is too small;
/// - what is written for an item fits the buffer and reads back as the item.
pub open spec fn lawful<I: StorageItem>() -> bool {
    &&& forall|b: Seq<u8>| #[trigger]
        I::deserialized(b) matches Ok((_, n)) ==> 1 <= n <= b.len() && b[0] != ERASED_BYTE
    &&& forall|b: Seq<u8>, c: Seq<u8>|
        (#[trigger] I::deserialized(b) matches Ok((_, n)) && c.len() >= n && c.subrange(
            0,
            n as int,
        ) == b.subrange(0, n as int)) ==> #[trigger] I::deserialized(c) == I::deserialized(b)
    &&& forall|b: Seq<u8>, m: int|
        (I::deserialized(b) matches Ok((_, n)) && 0 <= m < n) ==> (#[trigger] I::deserialized(
            b.subrange(0, m),
        ) matches Err(e) && e.buffer_too_small())
    &&& forall|item: I, b: Seq<u8>| #[trigger]
        item.serialized(b).0 matches Ok(n) ==> {
            &&& 1 <= n <= b.len()
            &&& item.serialized(b).1.len() == b.len()
            &&& I::deserialized(item.serialized(b).1.subrange(0, n as int)) == Ok::<
                (I, usize),
                I::Error,
            >((item, n))
        }
}

/// The bytes `record` are what stands on the flash for the item `item`: the
/// first `n` of them read as the item, and they are `n` bytes rounded up to
/// whole words.
pub open spec fn holds<I: StorageItem>(record: Seq<u8>, item: I, n: int, word: int) -> bool {
    &&& 1 <= n <= MAX_STORAGE_ITEM_SIZE
    &&& n <= record.len()
    &&& record.len() == round_up(n, word)
    &&& I::deserialized(record.subrange(0, n)) == Ok::<(I, usize), I::Error>((item, n as usize))
}

/// The zone `after` is the zone `before` with `record` put at `end` and
/// nothing but erased bytes behind it.
pub open spec fn extended(before: Seq<u8>, after: Seq<u8>, end: int, record: Seq<u8>) -> bool {
    &&& before.len() == after.len()
    &&& 0 <= end
    &&& end + record.len() <= before.len()
    &&& forall|i: int| 0 <= i < end ==> #[trigger] after[i] == before[i]
    &&& forall|i: int| 0 <= i < record.len() ==> #[trigger] after[end + i] == record[i]
    &&& is_erased(after, end + record.len(), after.len() - end - record.len())
}

/// A reader that stands where only erased bytes follow has come to the end.
pub proof fn lemma_reads_end<I: StorageItem>(zone: Seq<u8>, word: int, at: Cursor)
    requires
        0 <= at.used,
        0 <= at.offset,
        is_erased(zone, at.offset, zone.len() - at.offset),
    ensures
        next_record::<I>(zone, word, at) == Step::<I, Fault<I::Error>>::End,
{
    let fresh = if at.used >= MAX_STORAGE_ITEM_SIZE {
        Cursor { offset: at.offset, used: 0 }
    } else {
        at
    };
    let window = unread(zone, fresh);
    assert forall|i: int| 0 <= i < window.len() implies #[trigger] window[i] == ERASED_BYTE by {
        if at.offset + i < zone.len() {
            assert(zone[at.offset + i] == ERASED_BYTE);
        }
    }
}

/// A reader that stands at a record reads the item that the record holds.
pub proof fn lemma_reads_record<I: StorageItem>(
    zone: Seq<u8>,
    word: int,
    at: Cursor,
    record: Seq<u8>,
    item: I,
    n: int,
)
    requires
        lawful::<I>(),
        holds(record, item, n, word),
        0 <= at.used,
        0 <= at.offset,
        at.offset + record.len() <= zone.len(),
        forall|i: int| 0 <= i < record.len() ==> #[trigger] zone[at.offset + i] == record[i],
    ensures
        next_record::<I>(zone, word, at) matches Step::Item { item: read, offset, len, next } && {
            &&& read == item
            &&& offset == at.offset
            &&& len == record.len()
            &&& next.offset == at.offset + record.len()
            &&& next.used >= 0
        },
{
    let fresh = if at.used >= MAX_STORAGE_ITEM_SIZE {
        Cursor { offset: at.offset, used: 0 }
    } else {
        at
    };
    let window = unread(zone, fresh);
    let visible = window.len() as int;
    let encoding = record.subrange(0, n);
    assert(encoding.subrange(0, n) =~= encoding);
    assert(encoding[0] != ERASED_BYTE);
    assert(window[0] == zone[at.offset + 0]);
    assert(window[0] == record[0]);
    assert(!is_erased(window, 0, visible));
    let full = unread(zone, Cursor { offset: at.offset, used: 0 });
    assert(full.subrange(0, n) =~= encoding) by {
        assert forall|i: int| 0 <= i < n implies full.subrange(0, n)[i] == encoding[i] by {
            assert(zone[at.offset + i] == record[i]);
        }
    }
    assert(I::deserialized(full) == I::deserialized(encoding));
    if visible >= n {
        assert(window.subrange(0, n) =~= encoding) by {
            assert forall|i: int| 0 <= i < n implies window.subrange(0, n)[i] == encoding[i] by {
                assert(zone[at.offset + i] == record[i]);
            }
        }
        assert(I::deserialized(window) == I::deserialized(encoding));
    } else {
        assert(window =~= encoding.subrange(0, visible)) by {
            assert forall|i: int| 0 <= i < visible implies window[i] == encoding.subrange(
                0,
                visible,
            )[i] by {
                assert(zone[at.offset + i] == record[i]);
            }
        }
    }
}

/// An item is read the same whatever follows it: where two zones hold the
/// same bytes before `end` and an item is read from the one that ends no
/// later than `end`, the same is read from the other.
pub proof fn lemma_reads_same<I: StorageItem>(
    zone: Seq<u8>,
    other: Seq<u8>,
    word: int,
    at: Cursor,
    end: int,
)
    requires
        lawful::<I>(),
        0 <= at.used,
        0 <= at.offset,
        zone.len() == other.len(),
        end <= zone.len(),
        forall|i: int| 0 <= i < end ==> #[trigger] other[i] == zone[i],
        next_record::<I>(zone, word, at) matches Step::Item { next, .. } && next.offset <= end,
    ensures
        next_record::<I>(other, word, at) == next_record::<I>(zone, word, at),
{
    let fresh = if at.used >= MAX_STORAGE_ITEM_SIZE {
        Cursor { offset: at.offset, used: 0 }
    } else {
        at
    };
    let restart = Cursor { offset: at.offset, used: 0 };
    let window = unread(zone, fresh);
    let window2 = unread(other, fresh);
    let full = unread(zone, restart);
    let full2 = unread(other, restart);
    let visible = window.len() as int;
    match I::deserialized(window) {
        Ok((item, n)) => {
            assert(round_up(n as int, word) >= n);
            assert(window2.subrange(0, n as int) =~= window.subrange(0, n as int)) by {
                assert forall|i: int| 0 <= i < n implies window2.subrange(0, n as int)[i]
                    == window.subrange(0, n as int)[i] by {
                    assert(other[at.offset + i] == zone[at.offset + i]);
                }
            }
            assert(I::deserialized(window2) == I::deserialized(window));
            assert(window2[0] == window2.subrange(0, n as int)[0]);
            assert(window[0] == window.subrange(0, n as int)[0]);
            assert(window2[0] != ERASED_BYTE);
        },
        Err(e) => {
            match I::deserialized(full) {
                Ok((item, n)) => {
                    assert(round_up(n as int, word) >= n);
                    assert(full2.subrange(0, n as int) =~= full.subrange(0, n as int)) by {
                        assert forall|i: int| 0 <= i < n implies full2.subrange(0, n as int)[i]
                            == full.subrange(0, n as int)[i] by {
                            assert(other[at.offset + i] == zone[at.offset + i]);
                        }
                    }
                    assert(I::deserialized(full2) == I::deserialized(full));
                    if visible >= n {
                        assert(window.subrange(0, n as int) =~= full.subrange(0, n as int));
                        assert(I::deserialized(window) == I::deserialized(full));
                    }
                    assert(window2 =~= window) by {
                        assert forall|i: int| 0 <= i < visible implies window2[i]
                            == window[i] by {
                            assert(other[at.offset + i] == zone[at.offset + i]);
                        }
                    }
                },
                Err(_) => {},
            }
        },
    }
}

/// The reader never steps backwards: the items end no earlier than where the
/// reader stands.
pub proof fn lemma_end_not_before<I: StorageItem>(zone: Seq<u8>, word: int, at: Cursor)
    requires
        0 <= at.used,
    ensures
        end_of_items::<I>(zone, word, at, at.offset) matches Ok(end) ==> at.offset <= end,
    decreases left(zone.len() as int, at.offset),
{
    match next_record::<I>(zone, word, at) {
        Step::Item { item, offset, len, next } => {
            lemma_item_advances::<I>(zone, word, at);
            assert(next.used >= 0) by {
                lemma_next_used::<I>(zone, word, at);
            }
            lemma_end_not_before::<I>(zone, word, next);
        },
        _ => {},
    }
}

/// After an item the count of used bytes of the window is not negative, and
/// the item takes a whole number of words.
pub proof fn lemma_next_used<I: StorageItem>(zone: Seq<u8>, word: int, at: Cursor)
    requires
        0 <= at.used,
    ensures
        next_record::<I>(zone, word, at) matches Step::Item { next, len, .. } ==> {
            &&& next.used >= 0
            &&& word > 0 ==> len % word == 0
        },
{
    let fresh = if at.used >= MAX_STORAGE_ITEM_SIZE {
        Cursor { offset: at.offset, used: 0 }
    } else {
        at
    };
    match I::deserialized(unread(zone, fresh)) {
        Ok((_, n)) => {
            if n >= 0 {
                lemma_round_up(n as int, word);
            }
        },
        Err(_) => {
            match I::deserialized(unread(zone, Cursor { offset: at.offset, used: 0 })) {
                Ok((_, n)) => {
                    if n >= 0 {
                        lemma_round_up(n as int, word);
                    }
                },
                Err(_) => {},
            }
        },
    }
}

/// Rounding up gives a multiple of the word size that is not smaller.
pub proof fn lemma_round_up(n: int, word: int)
    requires
        0 <= n,
    ensures
        n <= round_up(n, word),
        word > 0 ==> round_up(n, word) % word == 0,
        round_up(round_up(n, word), word) == round_up(n, word),
{
    if word > 0 {
        vstd::arithmetic::div_mod::lemma_fundamental_div_mod(n, word);
        if n % word > 0 {
            let q = n / word;
            assert(n + word - n % word == (q + 1) * word) by (nonlinear_arith)
                requires
                    n == word * q + n % word,
            ;
            vstd::arithmetic::div_mod::lemma_fundamental_div_mod_converse(
                n + word - n % word,
                word,
                q + 1,
                0,
            );
        }
    }
}

/// The items of a zone end at a multiple of the word size.
pub proof fn lemma_end_aligned<I: StorageItem>(zone: Seq<u8>, word: int, at: Cursor)
    requires
        0 <= at.used,
        0 <= at.offset,
        0 < word,
        at.offset % word == 0,
    ensures
        end_of_items::<I>(zone, word, at, at.offset) matches Ok(end) ==> end % word == 0,
    decreases left(zone.len() as int, at.offset),
{
    match next_record::<I>(zone, word, at) {
        Step::Item { item, offset, len, next } => {
            lemma_item_advances::<I>(zone, word, at);
            lemma_next_used::<I>(zone, word, at);
            vstd::arithmetic::div_mod::lemma_add_mod_noop(offset, len, word);
            assert(0int % word == 0) by (nonlinear_arith)
                requires
                    word > 0,
            ;
            lemma_end_aligned::<I>(zone, word, next);
        },
        _ => {},
    }
}

/// Appending a record moves the end of the items behind the record.
pub proof fn lemma_end_extended<I: StorageItem>(
    before: Seq<u8>,
    after: Seq<u8>,
    word: int,
    at: Cursor,
    end: int,
    record: Seq<u8>,
    item: I,
    n: int,
)
    requires
        lawful::<I>(),
        holds(record, item, n, word),
        extended(before, after, end, record),
        0 <= at.used,
        0 <= at.offset,
        end_of_items::<I>(before, word, at, at.offset) == Ok::<int, Fault<I::Error>>(end),
    ensures
        end_of_items::<I>(after, word, at, at.offset) == Ok::<int, Fault<I::Error>>(
            end + record.len(),
        ),
    decreases left(before.len() as int, at.offset),
{
    match next_record::<I>(before, word, at) {
        Step::Item { item: read, offset, len, next } => {
            lemma_item_advances::<I>(before, word, at);
            lemma_next_used::<I>(before, word, at);
            lemma_end_not_before::<I>(before, word, next);
            lemma_reads_same::<I>(before, after, word, at, end);
            lemma_end_extended::<I>(before, after, word, next, end, record, item, n);
        },
        Step::End => {
            assert(end == at.offset);
            lemma_reads_record::<I>(after, word, at, record, item, n);
            let next = next_record::<I>(after, word, at)->next;
            lemma_reads_end::<I>(after, word, next);
            assert(end_of_items::<I>(after, word, next, next.offset) == Ok::<
                int,
                Fault<I::Error>,
            >(next.offset));
        },
        Step::Fault(_) => {},
    }
}

/// Appending a record makes its item the newest one for the keys equal to its
/// own, and leaves the newest item for every other key as it was.
pub proof fn lemma_newest_extended<I: StorageItem>(
    before: Seq<u8>,
    after: Seq<u8>,
    word: int,
    base: int,
    key: I::Key,
    at: Cursor,
    best: Option<Located<I>>,
    end: int,
    record: Seq<u8>,
    item: I,
    n: int,
)
    requires
        lawful::<I>(),
        holds(record, item, n, word),
        extended(before, after, end, record),
        0 <= at.used,
        0 <= at.offset,
        end_of_items::<I>(before, word, at, at.offset) == Ok::<int, Fault<I::Error>>(end),
    ensures
        newest_in_zone::<I>(before, word, base, key, at, best) is Ok,
        newest_in_zone::<I>(after, word, base, key, at, best) == Ok::<
            Option<Located<I>>,
            Fault<I::Error>,
        >(
            if item.key_of().eq_spec(&key) {
                Some(Located { item, address: base + end, len: record.len() as int })
            } else {
                newest_in_zone::<I>(before, word, base, key, at, best)->Ok_0
            },
        ),
    decreases left(before.len() as int, at.offset),
{
    match next_record::<I>(before, word, at) {
        Step::Item { item: read, offset, len, next } => {
            lemma_item_advances::<I>(before, word, at);
            lemma_next_used::<I>(before, word, at);
            lemma_end_not_before::<I>(before, word, next);
            lemma_reads_same::<I>(before, after, word, at, end);
            let better = if read.key_of().eq_spec(&key) {
                Some(Located { item: read, address: base + offset, len })
            } else {
                best
            };
            lemma_newest_extended::<I>(
                before,
                after,
                word,
                base,
                key,
                next,
                better,
                end,
                record,
                item,
                n,
            );
        },
        Step::End => {
            assert(end == at.offset);
            lemma_reads_record::<I>(after, word, at, record, item, n);
            let next = next_record::<I>(after, word, at)->next;
            lemma_reads_end::<I>(after, word, next);
            let better = if item.key_of().eq_spec(&key) {
                Some(Located { item, address: base + end, len: record.len() as int })
            } else {
                best
            };
            assert(newest_in_zone::<I>(after, word, base, key, next, better) == Ok::<
                Option<Located<I>>,
                Fault<I::Error>,
            >(better));
        },
        Step::Fault(_) => {},
    }
}

/// The `len` bytes at `offset` of the zone are what stands there for `item`.
pub open spec fn stands_at<I: StorageItem>(
    zone: Seq<u8>,
    word: int,
    offset: int,
    len: int,
    item: I,
) -> bool {
    &&& 0 <= offset
    &&& 0 < len
    &&& offset + len <= zone.len()
    &&& exists|n: int| #[trigger] holds(zone.subrange(offset, offset + len), item, n, word)
}

/// An item that is read and does not reach beyond the zone stands where it
/// was read.
pub proof fn lemma_item_stands<I: StorageItem>(zone: Seq<u8>, word: int, at: Cursor)
    requires
        lawful::<I>(),
        0 <= at.used,
        0 <= at.offset,
        next_record::<I>(zone, word, at) matches Step::Item { next, .. } && next.offset
            <= zone.len(),
    ensures
        next_record::<I>(zone, word, at) matches Step::Item { item, offset, len, .. } && stands_at(
            zone,
            word,
            offset,
            len,
            item,
        ),
{
    let fresh = if at.used >= MAX_STORAGE_ITEM_SIZE {
        Cursor { offset: at.offset, used: 0 }
    } else {
        at
    };
    let window = match I::deserialized(unread(zone, fresh)) {
        Ok(_) => unread(zone, fresh),
        Err(_) => unread(zone, Cursor { offset: at.offset, used: 0 }),
    };
    let (item, n) = I::deserialized(window)->Ok_0;
    let n = n as int;
    let len = round_up(n, word);
    lemma_round_up(n, word);
    let record = zone.subrange(at.offset, at.offset + len);
    let encoding = record.subrange(0, n);
    assert(encoding =~= window.subrange(0, n));
    assert(encoding.subrange(0, n) =~= encoding);
    assert(I::deserialized(encoding) == I::deserialized(window));
    assert(holds(record, item, n, word));
}

/// Where the items of a zone end within it, the newest item for a key stands
/// where it was found.
pub proof fn lemma_newest_stands<I: StorageItem>(
    zone: Seq<u8>,
    word: int,
    base: int,
    key: I::Key,
    at: Cursor,
    best: Option<Located<I>>,
)
    requires
        lawful::<I>(),
        0 <= at.used,
        0 <= at.offset,
        end_of_items::<I>(zone, word, at, at.offset) matches Ok(end) && end <= zone.len(),
        best matches Some(b) ==> stands_at(zone, word, b.address - base, b.len, b.item),
    ensures
        newest_in_zone::<I>(zone, word, base, key, at, best) matches Ok(Some(found))
            ==> stands_at(zone, word, found.address - base, found.len, found.item),
    decreases left(zone.len() as int, at.offset),
{
    match next_record::<I>(zone, word, at) {
        Step::Item { item, offset, len, next } => {
            lemma_item_advances::<I>(zone, word, at);
            lemma_next_used::<I>(zone, word, at);
            lemma_end_not_before::<I>(zone, word, next);
            lemma_item_stands::<I>(zone, word, at);
            let better = if item.key_of().eq_spec(&key) {
                Some(Located { item, address: base + offset, len })
            } else {
                best
            };
            lemma_newest_stands::<I>(zone, word, base, key, next, better);
        },
        _ => {},
    }
}

/// Equality of keys is an equivalence relation.
pub open spec fn equivalent_keys<I: StorageItem>() -> bool {
    &&& forall|a: I::Key| #[trigger] a.eq_spec(&a)
    &&& forall|a: I::Key, b: I::Key| #[trigger] a.eq_spec(&b) ==> b.eq_spec(&a)
    &&& forall|a: I::Key, b: I::Key, c: I::Key|
        #[trigger] a.eq_spec(&b) && #[trigger] b.eq_spec(&c) ==> a.eq_spec(&c)
}

/// Keys that are equal find the same items.
pub proof fn lemma_zone_equal_keys<I: StorageItem>(
    zone: Seq<u8>,
    word: int,
    base: int,
    key: I::Key,
    other: I::Key,
    at: Cursor,
    best: Option<Located<I>>,
)
    requires
        equivalent_keys::<I>(),
        key.eq_spec(&other),
    ensures
        newest_in_zone::<I>(zone, word, base, key, at, best) == newest_in_zone::<I>(
            zone,
            word,
            base,
            other,
            at,
            best,
        ),
    decreases left(zone.len() as int, at.offset),
{
    if at.used >= 0 {
        match next_record::<I>(zone, word, at) {
            Step::Item { item, offset, len, next } => {
                lemma_item_advances::<I>(zone, word, at);
                assert(other.eq_spec(&key));
                assert(item.key_of().eq_spec(&key) == item.key_of().eq_spec(&other));
                let better = if item.key_of().eq_spec(&key) {
                    Some(Located { item, address: base + offset, len })
                } else {
                    best
                };
                lemma_zone_equal_keys::<I>(zone, word, base, key, other, next, better);
            },
            _ => {},
        }
    }
}

/// An item that is found for a key has a key equal to it.
pub proof fn lemma_zone_found_matches<I: StorageItem>(
    zone: Seq<u8>,
    word: int,
    base: int,
    key: I::Key,
    at: Cursor,
    best: Option<Located<I>>,
)
    requires
        best matches Some(b) ==> b.item.key_of().eq_spec(&key),
    ensures
        newest_in_zone::<I>(zone, word, base, key, at, best) matches Ok(Some(found))
            ==> found.item.key_of().eq_spec(&key),
    decreases left(zone.len() as int, at.offset),
{
    if at.used >= 0 {
        match next_record::<I>(zone, word, at) {
            Step::Item { item, offset, len, next } => {
                lemma_item_advances::<I>(zone, word, at);
                let better = if item.key_of().eq_spec(&key) {
                    Some(Located { item, address: base + offset, len })
                } else {
                    best
                };
                lemma_zone_found_matches::<I>(zone, word, base, key, next, better);
            },
            _ => {},
        }
    }
}

/// Where the items of a zone can be read to their end, the search for a key
/// in the zone does not fail.
pub proof fn lemma_zone_search_succeeds<I: StorageItem>(
    zone: Seq<u8>,
    word: int,
    base: int,
    key: I::Key,
    at: Cursor,
    best: Option<Located<I>>,
    end: int,
)
    requires
        end_of_items::<I>(zone, word, at, end) is Ok,
    ensures
        newest_in_zone::<I>(zone, word, base, key, at, best) is Ok,
    decreases left(zone.len() as int, at.offset),
{
    if at.used >= 0 {
        match next_record::<I>(zone, word, at) {
            Step::Item { item, offset, len, next } => {
                lemma_item_advances::<I>(zone, word, at);
                let better = if item.key_of().eq_spec(&key) {
                    Some(Located { item, address: base + offset, len })
                } else {
                    best
                };
                lemma_zone_search_succeeds::<I>(zone, word, base, key, next, better, offset + len);
            },
            _ => {},
        }
    }
}

/// The newest item for a key ends where the items of the zone end, or before.
pub proof fn lemma_newest_before_end<I: StorageItem>(
    zone: Seq<u8>,
    word: int,
    base: int,
    key: I::Key,
    at: Cursor,
    best: Option<Located<I>>,
)
    requires
        0 <= at.used,
        best matches Some(b) ==> b.address - base + b.len <= at.offset,
    ensures
        (newest_in_zone::<I>(zone, word, base, key, at, best) matches Ok(Some(found))
            && end_of_items::<I>(zone, word, at, at.offset) matches Ok(end)) ==> {
            let found = newest_in_zone::<I>(zone, word, base, key, at, best)->Ok_0->0;
            let end = end_of_items::<I>(zone, word, at, at.offset)->Ok_0;
            found.address - base + found.len <= end
        },
    decreases left(zone.len() as int, at.offset),
{
    lemma_end_not_before::<I>(zone, word, at);
    match next_record::<I>(zone, word, at) {
        Step::Item { item, offset, len, next } => {
            lemma_item_advances::<I>(zone, word, at);
            lemma_next_used::<I>(zone, word, at);
            let better = if item.key_of().eq_spec(&key) {
                Some(Located { item, address: base + offset, len })
            } else {
                best
            };
            lemma_newest_before_end::<I>(zone, word, base, key, next, better);
        },
        _ => {},
    }
}

/// What was found, at an address that lies `by` bytes further on.
pub open spec fn shifted<I>(found: Option<Located<I>>, by: int) -> Option<Located<I>> {
    match found {
        Some(f) => Some(Located { item: f.item, address: f.address + by, len: f.len }),
        None => None,
    }
}

/// A zone that holds the items of another zone and nothing but erased bytes
/// behind them reads like the other one: its items end at the same place,
/// and the same items are found in it, each at the same offset.
pub proof fn lemma_zone_alike<I: StorageItem>(
    zone: Seq<u8>,
    other: Seq<u8>,
    word: int,
    base: int,
    by: int,
    key: I::Key,
    at: Cursor,
    best: Option<Located<I>>,
    end: int,
)
    requires
        lawful::<I>(),
        0 <= at.used,
        0 <= at.offset,
        zone.len() == other.len(),
        end <= zone.len(),
        forall|i: int| 0 <= i < end ==> #[trigger] other[i] == zone[i],
        end_of_items::<I>(zone, word, at, at.offset) == Ok::<int, Fault<I::Error>>(end),
        is_erased(other, end, other.len() - end),
    ensures
        end_of_items::<I>(other, word, at, at.offset) == Ok::<int, Fault<I::Error>>(end),
        newest_in_zone::<I>(zone, word, base, key, at, best) is Ok,
        newest_in_zone::<I>(other, word, base + by, key, at, shifted(best, by)) == Ok::<
            Option<Located<I>>,
            Fault<I::Error>,
        >(shifted(newest_in_zone::<I>(zone, word, base, key, at, best)->Ok_0, by)),
    decreases left(zone.len() as int, at.offset),
{
    match next_record::<I>(zone, word, at) {
        Step::Item { item, offset, len, next } => {
            lemma_item_advances::<I>(zone, word, at);
            lemma_next_used::<I>(zone, word, at);
            lemma_end_not_before::<I>(zone, word, next);
            lemma_reads_same::<I>(zone, other, word, at, end);
            let better = if item.key_of().eq_spec(&key) {
                Some(Located { item, address: base + offset, len })
            } else {
                best
            };
            lemma_zone_alike::<I>(zone, other, word, base, by, key, next, better, end);
        },
        Step::End => {
            assert(end == at.offset);
            lemma_reads_end::<I>(other, word, at);
        },
        Step::Fault(_) => {},
    }
}

} // verus!
