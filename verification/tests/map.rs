use sequential_storage::map::{
    fetch_item, store_item, MapError, StorageItem, StorageItemError, MAX_STORAGE_ITEM_SIZE,
};
use sequential_storage::mock_flash::{MockFlashBase, MockFlashError};
use sequential_storage::page::Error;

type MockFlashBig = MockFlashBase<4, 4, 256>;
type MockFlashTiny = MockFlashBase<2, 1, 32>;

#[derive(Debug, PartialEq, Eq)]
struct MockStorageItem {
    key: u8,
    value: Vec<u8>,
}

#[derive(Debug, PartialEq, Eq)]
enum MockStorageItemError {
    BufferTooSmall,
    InvalidKey,
    BufferTooBig,
}

impl StorageItemError for MockStorageItemError {
    fn is_buffer_too_small(&self) -> bool {
        matches!(self, MockStorageItemError::BufferTooSmall)
    }
}

impl StorageItem for MockStorageItem {
    type Key = u8;

    type Error = MockStorageItemError;

    fn serialize_into(&self, buffer: &mut [u8]) -> Result<usize, Self::Error> {
        if buffer.len() < 2 + self.value.len() {
            return Err(MockStorageItemError::BufferTooSmall);
        }

        if self.value.len() > 255 {
            return Err(MockStorageItemError::BufferTooBig);
        }

        // The serialized value must not be all 0xFF
        if self.key == 0xFF {
            return Err(MockStorageItemError::InvalidKey);
        }

        buffer[0] = self.key;
        buffer[1] = self.value.len() as u8;
        buffer[2..][..self.value.len()].copy_from_slice(&self.value);

        Ok(2 + self.value.len())
    }

    fn deserialize_from(buffer: &[u8]) -> Result<(Self, usize), Self::Error>
    where
        Self: Sized,
    {
        if buffer.len() < 2 {
            return Err(MockStorageItemError::BufferTooSmall);
        }

        if buffer[0] == 0xFF {
            return Err(MockStorageItemError::InvalidKey);
        }

        let len = buffer[1];

        if buffer.len() < 2 + len as usize {
            return Err(MockStorageItemError::BufferTooSmall);
        }

        Ok((
            Self {
                key: buffer[0],
                value: buffer[2..][..len as usize].to_vec(),
            },
            2 + len as usize,
        ))
    }

    fn key(&self) -> Self::Key {
        self.key
    }
}

#[test]
fn store_and_fetch() {
    let mut flash = MockFlashBig::new();
    let flash_range = 0x000..0x1000;

    let item = fetch_item::<MockStorageItem, _>(&mut flash, flash_range.clone(), 0).unwrap();
    assert_eq!(item, None);

    let item = fetch_item::<MockStorageItem, _>(&mut flash, flash_range.clone(), 60).unwrap();
    assert_eq!(item, None);

    let item = fetch_item::<MockStorageItem, _>(&mut flash, flash_range.clone(), 0xFF).unwrap();
    assert_eq!(item, None);

    store_item::<_, _>(
        &mut flash,
        flash_range.clone(),
        MockStorageItem {
            key: 0,
            value: vec![5],
        },
    )
    .unwrap();
    store_item::<_, _>(
        &mut flash,
        flash_range.clone(),
        MockStorageItem {
            key: 0,
            value: vec![5, 6],
        },
    )
    .unwrap();

    let item = fetch_item::<MockStorageItem, _>(&mut flash, flash_range.clone(), 0)
        .unwrap()
        .unwrap();
    assert_eq!(item.key, 0);
    assert_eq!(item.value, vec![5, 6]);

    store_item::<_, _>(
        &mut flash,
        flash_range.clone(),
        MockStorageItem {
            key: 1,
            value: vec![2, 2, 2, 2, 2, 2],
        },
    )
    .unwrap();

    let item = fetch_item::<MockStorageItem, _>(&mut flash, flash_range.clone(), 0)
        .unwrap()
        .unwrap();
    assert_eq!(item.key, 0);
    assert_eq!(item.value, vec![5, 6]);

    let item = fetch_item::<MockStorageItem, _>(&mut flash, flash_range.clone(), 1)
        .unwrap()
        .unwrap();
    assert_eq!(item.key, 1);
    assert_eq!(item.value, vec![2, 2, 2, 2, 2, 2]);

    for index in 0..4000 {
        store_item::<_, _>(
            &mut flash,
            flash_range.clone(),
            MockStorageItem {
                key: (index % 10) as u8,
                value: vec![(index % 10) as u8 * 2; index % 10],
            },
        )
        .unwrap();
    }

    for i in 0..10 {
        let item = fetch_item::<MockStorageItem, _>(&mut flash, flash_range.clone(), i)
            .unwrap()
            .unwrap();
        assert_eq!(item.key, i);
        assert_eq!(item.value, vec![(i % 10) as u8 * 2; (i % 10) as usize]);
    }

    for _ in 0..4000 {
        store_item::<_, _>(
            &mut flash,
            flash_range.clone(),
            MockStorageItem {
                key: 11,
                value: vec![0; 10],
            },
        )
        .unwrap();
    }

    for i in 0..10 {
        let item = fetch_item::<MockStorageItem, _>(&mut flash, flash_range.clone(), i)
            .unwrap()
            .unwrap();
        assert_eq!(item.key, i);
        assert_eq!(item.value, vec![(i % 10) as u8 * 2; (i % 10) as usize]);
    }

    println!(
        "Erases: {}, reads: {}, writes: {}",
        flash.erases, flash.reads, flash.writes
    );
}

#[test]
fn store_too_many_items() {
    const UPPER_BOUND: u8 = 6;

    let mut tiny_flash = MockFlashTiny::new();

    for i in 0..UPPER_BOUND {
        let item = MockStorageItem {
            key: i as u8,
            value: vec![i as u8; i as usize],
        };
        println!("Storing {item:?}");

        store_item::<_, _>(&mut tiny_flash, 0x00..0x40, item).unwrap();
    }

    assert_eq!(
        store_item::<_, _>(
            &mut tiny_flash,
            0x00..0x40,
            MockStorageItem {
                key: UPPER_BOUND,
                value: vec![0; UPPER_BOUND as usize],
            },
        ),
        Err(MapError::FullStorage)
    );

    for i in 0..UPPER_BOUND {
        let item = fetch_item::<MockStorageItem, _>(&mut tiny_flash, 0x00..0x40, i as u8)
            .unwrap()
            .unwrap();

        println!("Fetched {item:?}");

        assert_eq!(item.value, vec![i as u8; i as usize]);
    }
}

#[test]
fn store_too_many_items_big() {
    const UPPER_BOUND: u8 = 74;

    let mut big_flash = MockFlashBig::new();

    for i in 0..UPPER_BOUND {
        let item = MockStorageItem {
            key: i as u8,
            value: vec![i as u8; i as usize],
        };
        println!("Storing {item:?}");

        store_item::<_, _>(&mut big_flash, 0x0000..0x1000, item).unwrap();
    }

    assert_eq!(
        store_item::<_, _>(
            &mut big_flash,
            0x0000..0x1000,
            MockStorageItem {
                key: UPPER_BOUND,
                value: vec![0; UPPER_BOUND as usize],
            },
        ),
        Err(MapError::FullStorage)
    );

    for i in 0..UPPER_BOUND {
        let item = fetch_item::<MockStorageItem, _>(&mut big_flash, 0x0000..0x1000, i as u8)
            .unwrap()
            .unwrap();

        println!("Fetched {item:?}");

        assert_eq!(item.value, vec![i as u8; i as usize]);
    }
}

#[test]
fn store_many_items_big() {
    let mut flash = MockFlashBase::<4, 1, 4096>::new();

    const LENGHT_PER_KEY: [usize; 24] = [
        11, 13, 6, 13, 13, 10, 2, 3, 5, 36, 1, 65, 4, 6, 1, 15, 10, 7, 3, 15, 9, 3, 4, 5,
    ];

    for _ in 0..1000 {
        for i in 0..24 {
            let item = MockStorageItem {
                key: i as u8,
                value: vec![i as u8; LENGHT_PER_KEY[i]],
            };

            store_item::<_, _>(&mut flash, 0x0000..0x4000, item).unwrap();
        }
    }

    for i in 0..24 {
        let item = fetch_item::<MockStorageItem, _>(&mut flash, 0x0000..0x4000, i as u8)
            .unwrap()
            .unwrap();

        println!("Fetched {item:?}");

        assert_eq!(item.value, vec![i as u8; LENGHT_PER_KEY[i]]);
    }
}

#[test]
fn item_size_limit_is_512() {
    assert_eq!(MAX_STORAGE_ITEM_SIZE, 512);
}

fn item(key: u8, value: Vec<u8>) -> MockStorageItem {
    MockStorageItem { key, value }
}

#[test]
fn fetch_from_erased_flash_finds_nothing() {
    let mut flash = MockFlashBig::new();

    assert_eq!(fetch_item::<MockStorageItem, _>(&mut flash, 0x000..0x1000, 0), Ok(None));
    assert_eq!(flash.writes, 0);
    assert_eq!(flash.erases, 0);
}

#[test]
fn stored_item_is_fetched() {
    let mut flash = MockFlashBig::new();

    store_item(&mut flash, 0x000..0x1000, item(7, vec![1, 2, 3])).unwrap();

    assert_eq!(
        fetch_item::<MockStorageItem, _>(&mut flash, 0x000..0x1000, 7),
        Ok(Some(item(7, vec![1, 2, 3])))
    );
}

#[test]
fn overwriting_keeps_the_latest() {
    let mut flash = MockFlashBig::new();

    store_item(&mut flash, 0x000..0x1000, item(0, vec![5])).unwrap();
    store_item(&mut flash, 0x000..0x1000, item(0, vec![5, 6])).unwrap();

    assert_eq!(
        fetch_item::<MockStorageItem, _>(&mut flash, 0x000..0x1000, 0),
        Ok(Some(item(0, vec![5, 6])))
    );
}

#[test]
fn keys_do_not_disturb_each_other() {
    let mut flash = MockFlashBig::new();

    store_item(&mut flash, 0x000..0x1000, item(1, vec![2, 2, 2, 2, 2, 2])).unwrap();
    store_item(&mut flash, 0x000..0x1000, item(0, vec![5, 6])).unwrap();

    assert_eq!(
        fetch_item::<MockStorageItem, _>(&mut flash, 0x000..0x1000, 1),
        Ok(Some(item(1, vec![2, 2, 2, 2, 2, 2])))
    );
    assert_eq!(
        fetch_item::<MockStorageItem, _>(&mut flash, 0x000..0x1000, 0),
        Ok(Some(item(0, vec![5, 6])))
    );
    assert_eq!(fetch_item::<MockStorageItem, _>(&mut flash, 0x000..0x1000, 2), Ok(None));
}

#[test]
fn other_keys_survive_the_rotation_of_pages() {
    let mut flash = MockFlashBig::new();

    store_item(&mut flash, 0x000..0x1000, item(200, vec![9, 8, 7])).unwrap();
    // Enough traffic on another key to go around the ring several times.
    for round in 0..2000u32 {
        store_item(&mut flash, 0x000..0x1000, item(1, vec![round as u8; 30])).unwrap();
    }

    assert!(flash.erases > 4);
    assert_eq!(
        fetch_item::<MockStorageItem, _>(&mut flash, 0x000..0x1000, 200),
        Ok(Some(item(200, vec![9, 8, 7])))
    );
    assert_eq!(
        fetch_item::<MockStorageItem, _>(&mut flash, 0x000..0x1000, 1),
        Ok(Some(item(1, vec![(1999u32 % 256) as u8; 30])))
    );
}

#[test]
fn items_survive_a_rebuilt_driver() {
    let mut flash = MockFlashBig::new();
    for key in 0..20u8 {
        store_item(&mut flash, 0x000..0x1000, item(key, vec![key; key as usize])).unwrap();
    }

    // A new driver over the same bytes, with nothing else carried over.
    let mut rebuilt = MockFlashBig::with_bytes(flash.data.clone());

    for key in 0..20u8 {
        assert_eq!(
            fetch_item::<MockStorageItem, _>(&mut rebuilt, 0x000..0x1000, key),
            fetch_item::<MockStorageItem, _>(&mut flash, 0x000..0x1000, key)
        );
        assert_eq!(
            fetch_item::<MockStorageItem, _>(&mut rebuilt, 0x000..0x1000, key),
            Ok(Some(item(key, vec![key; key as usize])))
        );
    }
    store_item(&mut rebuilt, 0x000..0x1000, item(3, vec![1])).unwrap();
    assert_eq!(
        fetch_item::<MockStorageItem, _>(&mut rebuilt, 0x000..0x1000, 3),
        Ok(Some(item(3, vec![1])))
    );
}

#[test]
fn item_that_fits_causes_no_erase() {
    let mut flash = MockFlashBig::new();

    // 1016 bytes of data in a page, 8 bytes for each item.
    for round in 0..127u8 {
        store_item(&mut flash, 0x000..0x1000, item(4, vec![round; 6])).unwrap();
    }

    assert_eq!(flash.erases, 0);
    // The first page is full now: its two markers are written, and the
    // second page has taken over.
    assert_eq!(&flash.data[0..4], &[0, 0, 0, 0]);
    assert_eq!(&flash.data[1020..1024], &[0xFF, 0xFF, 0xFF, 0xFF]);
    store_item(&mut flash, 0x000..0x1000, item(4, vec![127; 6])).unwrap();
    assert_eq!(&flash.data[1020..1024], &[0, 0, 0, 0]);
    assert_eq!(&flash.data[1024..1028], &[0, 0, 0, 0]);
    assert_eq!(flash.erases, 0);
}

#[test]
fn items_are_laid_out_in_whole_words() {
    let mut flash = MockFlashBig::new();

    store_item(&mut flash, 0x000..0x1000, item(1, vec![7])).unwrap();
    store_item(&mut flash, 0x000..0x1000, item(2, vec![8, 9, 10])).unwrap();
    store_item(&mut flash, 0x000..0x1000, item(3, vec![])).unwrap();

    // The marker word, then three bytes rounded up to four, five rounded up
    // to eight, and two rounded up to four.
    assert_eq!(
        &flash.data[0..24],
        &[
            0, 0, 0, 0, 1, 1, 7, 0xFF, 2, 3, 8, 9, 10, 0xFF, 0xFF, 0xFF, 3, 0, 0xFF, 0xFF, 0xFF,
            0xFF, 0xFF, 0xFF
        ]
    );
    assert_eq!(flash.writes, 4);
}

#[test]
fn rotation_carries_items_forward_and_erases_one_page() {
    // Three pages with 30 bytes of data each; every item takes 14 bytes.
    let mut flash = MockFlashBase::<3, 1, 32>::new();

    store_item(&mut flash, 0x00..0x60, item(1, vec![1; 12])).unwrap();
    store_item(&mut flash, 0x00..0x60, item(2, vec![2; 12])).unwrap();
    // The first page is full: the second takes over, the third stays blank.
    store_item(&mut flash, 0x00..0x60, item(1, vec![3; 12])).unwrap();
    store_item(&mut flash, 0x00..0x60, item(3, vec![4; 12])).unwrap();
    assert_eq!(flash.erases, 0);
    // The second page is full: the third takes over and the first becomes
    // the blank one. Key 2 is carried forward from it; key 1 has a newer
    // item in the second page and is not.
    store_item(&mut flash, 0x00..0x60, item(4, vec![5; 12])).unwrap();
    assert_eq!(flash.erases, 1);

    assert!(flash.data[0..32].iter().all(|byte| *byte == 0xFF));
    assert_eq!(flash.data[32], 0);
    assert_eq!(flash.data[63], 0);
    assert_eq!(flash.data[64], 0);
    assert_eq!(&flash.data[65..79], &[2, 12, 2, 2, 2, 2, 2, 2, 2, 2, 2, 2, 2, 2]);
    assert_eq!(&flash.data[79..93], &[4, 12, 5, 5, 5, 5, 5, 5, 5, 5, 5, 5, 5, 5]);
    assert_eq!(&flash.data[93..96], &[0xFF, 0xFF, 0xFF]);
    assert_eq!(
        fetch_item::<MockStorageItem, _>(&mut flash, 0x00..0x60, 1),
        Ok(Some(item(1, vec![3; 12])))
    );
    assert_eq!(
        fetch_item::<MockStorageItem, _>(&mut flash, 0x00..0x60, 2),
        Ok(Some(item(2, vec![2; 12])))
    );
    assert_eq!(
        fetch_item::<MockStorageItem, _>(&mut flash, 0x00..0x60, 3),
        Ok(Some(item(3, vec![4; 12])))
    );
    assert_eq!(
        fetch_item::<MockStorageItem, _>(&mut flash, 0x00..0x60, 4),
        Ok(Some(item(4, vec![5; 12])))
    );
}

#[test]
fn full_storage_leaves_the_items_intact() {
    let mut tiny_flash = MockFlashTiny::new();

    store_item(&mut tiny_flash, 0x00..0x40, item(1, vec![1; 26])).unwrap();
    assert_eq!(
        store_item(&mut tiny_flash, 0x00..0x40, item(2, vec![2; 26])),
        Err(MapError::FullStorage)
    );

    assert_eq!(
        fetch_item::<MockStorageItem, _>(&mut tiny_flash, 0x00..0x40, 1),
        Ok(Some(item(1, vec![1; 26])))
    );
    assert_eq!(fetch_item::<MockStorageItem, _>(&mut tiny_flash, 0x00..0x40, 2), Ok(None));
}

#[test]
fn codec_error_is_reported() {
    let mut flash = MockFlashBig::new();

    assert_eq!(
        store_item(&mut flash, 0x000..0x1000, item(0xFF, vec![1])),
        Err(MapError::Item(MockStorageItemError::InvalidKey))
    );
    assert_eq!(
        store_item(&mut flash, 0x000..0x1000, item(1, vec![0; 300])),
        Err(MapError::Item(MockStorageItemError::BufferTooBig))
    );
    // Bytes that the codec refuses, put where the first item belongs.
    store_item(&mut flash, 0x000..0x1000, item(1, vec![1])).unwrap();
    let mut broken = MockFlashBig::with_bytes(flash.data.clone());
    broken.data[4] = 0xFF;
    assert_eq!(
        fetch_item::<MockStorageItem, _>(&mut broken, 0x000..0x1000, 1),
        Err(MapError::Item(MockStorageItemError::InvalidKey))
    );
}

#[test]
fn driver_fault_is_reported() {
    let mut flash = MockFlashBig::new();

    // The region lies behind the end of the flash.
    assert_eq!(
        fetch_item::<MockStorageItem, _>(&mut flash, 0x1000..0x2000, 1),
        Err(MapError::Storage(MockFlashError::OutOfBounds))
    );
    assert_eq!(
        store_item(&mut flash, 0x1000..0x2000, item(1, vec![1])),
        Err(MapError::Storage(MockFlashError::OutOfBounds))
    );
}

#[test]
fn contradicting_markers_are_reported_as_corruption() {
    let mut flash = MockFlashBig::new();
    // The second marker of the first page is written, the first is not.
    flash.data[1023] = 0;

    assert_eq!(
        fetch_item::<MockStorageItem, _>(&mut flash, 0x000..0x1000, 1),
        Err(MapError::Corrupted)
    );
    assert_eq!(
        store_item(&mut flash, 0x000..0x1000, item(1, vec![1])),
        Err(MapError::Corrupted)
    );
}

#[test]
fn no_blank_page_is_reported_as_corruption() {
    let mut flash = MockFlashBig::new();
    // Every page closed.
    for page in 0..4 {
        flash.data[page * 1024] = 0;
        flash.data[page * 1024 + 1023] = 0;
    }

    assert_eq!(
        fetch_item::<MockStorageItem, _>(&mut flash, 0x000..0x1000, 1),
        Err(MapError::Corrupted)
    );
    assert_eq!(
        store_item(&mut flash, 0x000..0x1000, item(1, vec![1])),
        Err(MapError::Corrupted)
    );
}

/// An item whose codec claims to take no byte at all.
#[derive(Debug, PartialEq, Eq)]
struct Nothing;

impl StorageItem for Nothing {
    type Key = u8;
    type Error = MockStorageItemError;

    fn serialize_into(&self, _buffer: &mut [u8]) -> Result<usize, Self::Error> {
        Ok(0)
    }

    fn deserialize_from(_buffer: &[u8]) -> Result<(Self, usize), Self::Error> {
        Ok((Nothing, 0))
    }

    fn key(&self) -> u8 {
        0
    }
}

#[test]
fn item_that_takes_no_byte_is_reported_as_corruption() {
    let mut flash = MockFlashBig::new();
    store_item(&mut flash, 0x000..0x1000, item(1, vec![1])).unwrap();

    assert_eq!(
        fetch_item::<Nothing, _>(&mut flash, 0x000..0x1000, 0),
        Err(MapError::Corrupted)
    );
}

#[test]
fn page_errors_become_map_errors() {
    let mapped: [MapError<MockStorageItemError, u8>; 5] = [
        MapError::from(Error::Storage(3)),
        MapError::from(Error::FullStorage),
        MapError::from(Error::Corrupted),
        MapError::from(Error::BufferTooBig),
        MapError::from(Error::BufferTooSmall),
    ];

    assert_eq!(
        mapped,
        [
            MapError::Storage(3),
            MapError::FullStorage,
            MapError::Corrupted,
            MapError::BufferTooBig,
            MapError::BufferTooSmall,
        ]
    );
}

#[test]
fn item_longer_than_the_window_is_read_after_a_refill() {
    let mut flash = MockFlashBig::new();

    // Two items of 200 bytes and one of 240: the third starts within the
    // first window of 512 bytes and ends behind it.
    store_item(&mut flash, 0x000..0x1000, item(1, vec![1; 198])).unwrap();
    store_item(&mut flash, 0x000..0x1000, item(2, vec![2; 198])).unwrap();
    store_item(&mut flash, 0x000..0x1000, item(3, vec![3; 238])).unwrap();
    store_item(&mut flash, 0x000..0x1000, item(4, vec![4; 100])).unwrap();

    assert_eq!(
        fetch_item::<MockStorageItem, _>(&mut flash, 0x000..0x1000, 3),
        Ok(Some(item(3, vec![3; 238])))
    );
    assert_eq!(
        fetch_item::<MockStorageItem, _>(&mut flash, 0x000..0x1000, 4),
        Ok(Some(item(4, vec![4; 100])))
    );
    assert_eq!(
        fetch_item::<MockStorageItem, _>(&mut flash, 0x000..0x1000, 1),
        Ok(Some(item(1, vec![1; 198])))
    );
}

#[test]
fn carrying_forward_more_than_a_page_holds_is_refused() {
    // Three pages with 30 bytes of data each.
    let mut flash = MockFlashBase::<3, 1, 32>::new();

    // Nine items of one key fill the first page; the last of them is large.
    for _ in 0..8 {
        store_item(&mut flash, 0x00..0x60, item(1, vec![])).unwrap();
    }
    store_item(&mut flash, 0x00..0x60, item(1, vec![9; 12])).unwrap();
    // Two items of other keys fill the second page.
    store_item(&mut flash, 0x00..0x60, item(2, vec![2; 12])).unwrap();
    store_item(&mut flash, 0x00..0x60, item(3, vec![3; 12])).unwrap();

    // The first page has to be recycled now. The newest item of key 1 is
    // carried forward once for each of the nine items of the key, which is
    // more than the third page holds.
    assert_eq!(
        store_item(&mut flash, 0x00..0x60, item(4, vec![4; 12])),
        Err(MapError::Corrupted)
    );

    // Nothing was erased and nothing was written outside the third page's
    // data, so what was stored is still there.
    assert_eq!(flash.erases, 0);
    assert_eq!(&flash.data[64..65], &[0xFF]);
    assert_eq!(&flash.data[93..96], &[0xFF, 0xFF, 0xFF]);
    assert_eq!(
        fetch_item::<MockStorageItem, _>(&mut flash, 0x00..0x60, 1),
        Ok(Some(item(1, vec![9; 12])))
    );
    assert_eq!(
        fetch_item::<MockStorageItem, _>(&mut flash, 0x00..0x60, 2),
        Ok(Some(item(2, vec![2; 12])))
    );
    assert_eq!(
        fetch_item::<MockStorageItem, _>(&mut flash, 0x00..0x60, 3),
        Ok(Some(item(3, vec![3; 12])))
    );
    assert_eq!(fetch_item::<MockStorageItem, _>(&mut flash, 0x00..0x60, 4), Ok(None));

    // No page is in use now. Another store takes the blank page, carries the
    // same items forward to it again, over what it holds of them, and is
    // refused where the first one was: it does not go on without a spare
    // page.
    let before = flash.data.clone();
    assert_eq!(
        store_item(&mut flash, 0x00..0x60, item(5, vec![])),
        Err(MapError::Corrupted)
    );
    assert_eq!(flash.data, before);
    assert_eq!(flash.erases, 0);
    assert_eq!(
        fetch_item::<MockStorageItem, _>(&mut flash, 0x00..0x60, 1),
        Ok(Some(item(1, vec![9; 12])))
    );
    assert_eq!(fetch_item::<MockStorageItem, _>(&mut flash, 0x00..0x60, 5), Ok(None));
}

#[test]
fn store_without_a_page_in_use_keeps_a_blank_page() {
    // Two pages of 30 bytes of data: the first is closed and holds two items,
    // the second is blank.
    let mut flash = MockFlashTiny::new();
    flash.data[0] = 0;
    flash.data[1..4].copy_from_slice(&[1, 1, 7]);
    flash.data[4..6].copy_from_slice(&[2, 0]);
    flash.data[31] = 0;

    store_item(&mut flash, 0x00..0x40, item(3, vec![9])).unwrap();

    // The second page has taken over. The items of the first were carried
    // forward to it, and the first was erased: it is the blank page now.
    assert_eq!(flash.erases, 1);
    assert!(flash.data[0..32].iter().all(|byte| *byte == 0xFF));
    assert_eq!(&flash.data[32..41], &[0, 1, 1, 7, 2, 0, 3, 1, 9]);
    assert!(flash.data[41..64].iter().all(|byte| *byte == 0xFF));
    assert_eq!(
        fetch_item::<MockStorageItem, _>(&mut flash, 0x00..0x40, 1),
        Ok(Some(item(1, vec![7])))
    );
    assert_eq!(
        fetch_item::<MockStorageItem, _>(&mut flash, 0x00..0x40, 2),
        Ok(Some(item(2, vec![])))
    );
    assert_eq!(
        fetch_item::<MockStorageItem, _>(&mut flash, 0x00..0x40, 3),
        Ok(Some(item(3, vec![9])))
    );

    // The store goes on from there.
    for round in 0..5u8 {
        store_item(&mut flash, 0x00..0x40, item(3, vec![round])).unwrap();
    }
    assert_eq!(flash.erases, 1);
    assert_eq!(
        fetch_item::<MockStorageItem, _>(&mut flash, 0x00..0x40, 3),
        Ok(Some(item(3, vec![4])))
    );
    assert_eq!(
        fetch_item::<MockStorageItem, _>(&mut flash, 0x00..0x40, 1),
        Ok(Some(item(1, vec![7])))
    );
}
