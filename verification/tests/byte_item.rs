use sequential_storage::byte_item::{ByteItem, ByteItemError};
use sequential_storage::map::{fetch_item, store_item, MapError, StorageItem, StorageItemError};
use sequential_storage::mock_flash::MockFlashBase;

type Flash = MockFlashBase<4, 4, 256>;

#[test]
fn byte_item_is_written_as_key_and_value() {
    let item = ByteItem { key: 3, value: 200 };
    let mut buffer = [0xFFu8; 5];

    assert_eq!(item.serialize_into(&mut buffer), Ok(2));
    assert_eq!(buffer, [3, 200, 0xFF, 0xFF, 0xFF]);
    assert_eq!(item.key(), 3);
}

#[test]
fn byte_item_is_read_back() {
    assert_eq!(
        ByteItem::deserialize_from(&[3, 200, 0xFF, 0xFF]),
        Ok((ByteItem { key: 3, value: 200 }, 2))
    );
    assert_eq!(
        ByteItem::deserialize_from(&[0, 0xFF]),
        Ok((ByteItem { key: 0, value: 0xFF }, 2))
    );
}

#[test]
fn byte_item_refuses_short_buffers_and_the_erased_key() {
    let mut short = [0xFFu8; 1];

    assert_eq!(
        ByteItem { key: 3, value: 1 }.serialize_into(&mut short),
        Err(ByteItemError::BufferTooSmall)
    );
    assert_eq!(short, [0xFF]);
    assert_eq!(ByteItem::deserialize_from(&[3]), Err(ByteItemError::BufferTooSmall));
    assert_eq!(ByteItem::deserialize_from(&[]), Err(ByteItemError::BufferTooSmall));
    assert_eq!(ByteItem::deserialize_from(&[0xFF, 3]), Err(ByteItemError::InvalidKey));
    let mut buffer = [0u8; 4];
    assert_eq!(
        ByteItem { key: 0xFF, value: 1 }.serialize_into(&mut buffer),
        Err(ByteItemError::InvalidKey)
    );
    assert_eq!(buffer, [0, 0, 0, 0]);

    assert!(ByteItemError::BufferTooSmall.is_buffer_too_small());
    assert!(!ByteItemError::InvalidKey.is_buffer_too_small());
}

#[test]
fn byte_items_are_stored_and_fetched() {
    let mut flash = Flash::new();

    assert_eq!(fetch_item::<ByteItem, _>(&mut flash, 0x000..0x1000, 1), Ok(None));
    for round in 0..3000u32 {
        let key = (round % 7) as u8;
        store_item(&mut flash, 0x000..0x1000, ByteItem { key, value: (round % 251) as u8 })
            .unwrap();
        assert_eq!(
            fetch_item::<ByteItem, _>(&mut flash, 0x000..0x1000, key),
            Ok(Some(ByteItem { key, value: (round % 251) as u8 }))
        );
    }

    // The rounds 2993 to 2999 were the last ones of the keys 4, 5, 6, 0, 1,
    // 2 and 3.
    for (key, round) in [(4u8, 2993u32), (5, 2994), (6, 2995), (0, 2996), (1, 2997), (2, 2998)] {
        assert_eq!(
            fetch_item::<ByteItem, _>(&mut flash, 0x000..0x1000, key),
            Ok(Some(ByteItem { key, value: (round % 251) as u8 }))
        );
    }
    assert_eq!(fetch_item::<ByteItem, _>(&mut flash, 0x000..0x1000, 7), Ok(None));
    assert!(flash.erases > 0);
}

#[test]
fn byte_item_with_the_erased_key_is_not_stored() {
    let mut flash = Flash::new();

    assert_eq!(
        store_item(&mut flash, 0x000..0x1000, ByteItem { key: 0xFF, value: 1 }),
        Err(MapError::Item(ByteItemError::InvalidKey))
    );
    assert_eq!(&flash.data[0..8], &[0, 0, 0, 0, 0xFF, 0xFF, 0xFF, 0xFF]);
}
