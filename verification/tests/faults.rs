use sequential_storage::byte_item::ByteItem;
use sequential_storage::flash::NorFlash;
use sequential_storage::map::{fetch_item, store_item, MapError};
use sequential_storage::mock_flash::{MockFlashBase, MockFlashError};
use sequential_storage::page::{get_page_state, PageState};

/// A flash of three pages of 32 bytes that refuses one write: the one that
/// comes when `writes_left` has run down to nothing.
struct FaultyFlash {
    flash: MockFlashBase<3, 1, 32>,
    writes_left: Option<u32>,
}

impl NorFlash for FaultyFlash {
    type Error = MockFlashError;

    const READ_SIZE: usize = 1;

    const WRITE_SIZE: usize = 1;

    const ERASE_SIZE: usize = 32;

    fn read(&mut self, offset: u32, bytes: &mut [u8]) -> Result<(), MockFlashError> {
        self.flash.read(offset, bytes)
    }

    fn write(&mut self, offset: u32, bytes: &[u8]) -> Result<(), MockFlashError> {
        match self.writes_left {
            Some(0) => {
                self.writes_left = None;
                Err(MockFlashError::OutOfBounds)
            }
            Some(left) => {
                self.writes_left = Some(left - 1);
                self.flash.write(offset, bytes)
            }
            None => self.flash.write(offset, bytes),
        }
    }

    fn erase(&mut self, from: u32, to: u32) -> Result<(), MockFlashError> {
        self.flash.erase(from, to)
    }
}

fn states(flash: &mut FaultyFlash) -> Vec<PageState> {
    (0..3)
        .map(|page| get_page_state(flash, &(0x00..0x60), page).unwrap())
        .collect()
}

#[test]
fn store_after_a_fault_between_the_markers_keeps_a_blank_page() {
    let mut flash = FaultyFlash {
        flash: MockFlashBase::new(),
        writes_left: None,
    };
    // Fifteen items of two bytes fill the 30 bytes of the first page.
    for value in 0..15u8 {
        store_item(&mut flash, 0x00..0x60, ByteItem { key: 1, value }).unwrap();
    }
    assert_eq!(
        states(&mut flash),
        vec![PageState::PartialOpen, PageState::Open, PageState::Open]
    );

    // The next store closes the first page. The write after that, which is
    // the first marker of the second page, is refused.
    flash.writes_left = Some(1);
    assert_eq!(
        store_item(&mut flash, 0x00..0x60, ByteItem { key: 2, value: 7 }),
        Err(MapError::Storage(MockFlashError::OutOfBounds))
    );
    assert_eq!(
        states(&mut flash),
        vec![PageState::Closed, PageState::Open, PageState::Open]
    );
    assert_eq!(
        fetch_item::<ByteItem, _>(&mut flash, 0x00..0x60, 1),
        Ok(Some(ByteItem { key: 1, value: 14 }))
    );

    // No page is in use now. The store goes on with the first blank page and
    // leaves the page behind it blank.
    store_item(&mut flash, 0x00..0x60, ByteItem { key: 2, value: 7 }).unwrap();
    assert_eq!(
        states(&mut flash),
        vec![PageState::Closed, PageState::PartialOpen, PageState::Open]
    );
    assert_eq!(
        fetch_item::<ByteItem, _>(&mut flash, 0x00..0x60, 2),
        Ok(Some(ByteItem { key: 2, value: 7 }))
    );
    assert_eq!(
        fetch_item::<ByteItem, _>(&mut flash, 0x00..0x60, 1),
        Ok(Some(ByteItem { key: 1, value: 14 }))
    );
}

#[test]
fn store_after_a_fault_with_one_blank_page_recycles_the_oldest() {
    let mut flash = FaultyFlash {
        flash: MockFlashBase::new(),
        writes_left: None,
    };
    // The first page is filled with the keys 1 to 15. The second page is
    // filled with newer items of the keys 1 to 14 and an item of key 20.
    for key in 1..=15u8 {
        store_item(&mut flash, 0x00..0x60, ByteItem { key, value: key }).unwrap();
    }
    for key in 1..=14u8 {
        store_item(&mut flash, 0x00..0x60, ByteItem { key, value: 100 + key }).unwrap();
    }
    store_item(&mut flash, 0x00..0x60, ByteItem { key: 20, value: 1 }).unwrap();
    assert_eq!(
        states(&mut flash),
        vec![PageState::Closed, PageState::PartialOpen, PageState::Open]
    );

    // The next store closes the second page. The write after that, which
    // carries the item of key 15 forward to the third page, is refused.
    flash.writes_left = Some(1);
    assert_eq!(
        store_item(&mut flash, 0x00..0x60, ByteItem { key: 21, value: 9 }),
        Err(MapError::Storage(MockFlashError::OutOfBounds))
    );
    assert_eq!(
        states(&mut flash),
        vec![PageState::Closed, PageState::Closed, PageState::Open]
    );
    assert_eq!(flash.flash.erases, 0);

    // No page is in use now. The store goes on with the blank page: the item
    // of key 15 is carried forward to it, the first page is erased and is the
    // blank page from then on.
    store_item(&mut flash, 0x00..0x60, ByteItem { key: 21, value: 9 }).unwrap();
    assert_eq!(
        states(&mut flash),
        vec![PageState::Open, PageState::Closed, PageState::PartialOpen]
    );
    assert_eq!(flash.flash.erases, 1);
    assert!(flash.flash.data[0..32].iter().all(|byte| *byte == 0xFF));
    assert_eq!(&flash.flash.data[64..69], &[0, 15, 15, 21, 9]);
    assert_eq!(
        fetch_item::<ByteItem, _>(&mut flash, 0x00..0x60, 15),
        Ok(Some(ByteItem { key: 15, value: 15 }))
    );
    assert_eq!(
        fetch_item::<ByteItem, _>(&mut flash, 0x00..0x60, 21),
        Ok(Some(ByteItem { key: 21, value: 9 }))
    );
    assert_eq!(
        fetch_item::<ByteItem, _>(&mut flash, 0x00..0x60, 7),
        Ok(Some(ByteItem { key: 7, value: 107 }))
    );
    assert_eq!(
        fetch_item::<ByteItem, _>(&mut flash, 0x00..0x60, 20),
        Ok(Some(ByteItem { key: 20, value: 1 }))
    );
}
