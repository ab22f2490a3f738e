use sequential_storage::flash::NorFlash;
use sequential_storage::mock_flash::{MockFlashBase, MockFlashError};
use sequential_storage::page::{
    all_erased, calculate_page_address, calculate_page_end_address, calculate_page_index,
    close_page, find_first_page, get_page_state, get_pages, next_page, page_count,
    partial_close_page, previous_page, read_bytes, read_outcome, Error, PageState, MARKER,
};

type Flash = MockFlashBase<4, 4, 256>;

#[test]
fn pages_are_found_by_address_and_index() {
    let range = 0x400..0x1000;

    assert_eq!(page_count::<Flash>(&range), 3);
    assert_eq!(calculate_page_address::<Flash>(&range, 0), 0x400);
    assert_eq!(calculate_page_address::<Flash>(&range, 2), 0xC00);
    assert_eq!(calculate_page_end_address::<Flash>(&range, 0), 0x800);
    assert_eq!(calculate_page_end_address::<Flash>(&range, 2), 0x1000);
    assert_eq!(calculate_page_index::<Flash>(&range, 0x400), 0);
    assert_eq!(calculate_page_index::<Flash>(&range, 0x7FF), 0);
    assert_eq!(calculate_page_index::<Flash>(&range, 0x800), 1);
    assert_eq!(calculate_page_index::<Flash>(&range, 0xFFF), 2);
}

#[test]
fn neighbours_wrap_around_the_ring() {
    let range = 0x000..0x1000;

    assert_eq!(next_page::<Flash>(&range, 0), 1);
    assert_eq!(next_page::<Flash>(&range, 3), 0);
    assert_eq!(previous_page::<Flash>(&range, 3), 2);
    assert_eq!(previous_page::<Flash>(&range, 0), 3);
}

#[test]
fn the_walk_goes_once_around_from_its_start() {
    let range = 0x000..0x1000;
    let mut pages = get_pages::<Flash>(&range, 2);

    assert_eq!(pages.next(), Some(2));
    assert_eq!(pages.next(), Some(3));
    assert_eq!(pages.next(), Some(0));
    assert_eq!(pages.next(), Some(1));
    assert_eq!(pages.next(), None);
    assert_eq!(pages.next(), None);
}

#[test]
fn markers_give_the_state_of_a_page() {
    let range = 0x000..0x1000;
    let mut flash = Flash::new();

    assert_eq!(get_page_state(&mut flash, &range, 1), Ok(PageState::Open));
    assert_eq!(partial_close_page(&mut flash, &range, 1), Ok(()));
    assert_eq!(&flash.data[1024..1028], &[MARKER; 4]);
    assert_eq!(get_page_state(&mut flash, &range, 1), Ok(PageState::PartialOpen));
    assert_eq!(close_page(&mut flash, &range, 1), Ok(()));
    assert_eq!(&flash.data[2044..2048], &[MARKER; 4]);
    assert_eq!(get_page_state(&mut flash, &range, 1), Ok(PageState::Closed));
    assert_eq!(get_page_state(&mut flash, &range, 0), Ok(PageState::Open));
    assert_eq!(get_page_state(&mut flash, &range, 2), Ok(PageState::Open));

    assert!(PageState::Closed.is_closed());
    assert!(!PageState::Closed.is_open());
    assert!(PageState::Open.is_open());
    assert!(!PageState::PartialOpen.is_closed());
}

#[test]
fn a_marker_word_counts_as_written_by_any_of_its_bytes() {
    let range = 0x000..0x1000;
    let mut flash = Flash::new();
    flash.data[3] = 0x7F;

    assert_eq!(get_page_state(&mut flash, &range, 0), Ok(PageState::PartialOpen));
}

#[test]
fn second_marker_without_the_first_is_corruption() {
    let range = 0x000..0x1000;
    let mut flash = Flash::new();
    flash.data[2047] = 0;

    assert_eq!(get_page_state(&mut flash, &range, 1), Err(Error::Corrupted));
    assert_eq!(
        find_first_page(&mut flash, &range, 0, PageState::Closed),
        Err(Error::Corrupted)
    );
    // A page in the state looked for that comes first is still found.
    assert_eq!(find_first_page(&mut flash, &range, 0, PageState::Open), Ok(Some(0)));
    assert_eq!(
        find_first_page(&mut flash, &range, 2, PageState::PartialOpen),
        Err(Error::Corrupted)
    );
}

#[test]
fn the_first_page_in_a_state_is_found_from_the_start_of_the_walk() {
    let range = 0x000..0x1000;
    let mut flash = Flash::new();
    partial_close_page(&mut flash, &range, 1).unwrap();
    partial_close_page(&mut flash, &range, 3).unwrap();

    assert_eq!(find_first_page(&mut flash, &range, 0, PageState::PartialOpen), Ok(Some(1)));
    assert_eq!(find_first_page(&mut flash, &range, 2, PageState::PartialOpen), Ok(Some(3)));
    assert_eq!(find_first_page(&mut flash, &range, 0, PageState::Open), Ok(Some(0)));
    assert_eq!(find_first_page(&mut flash, &range, 1, PageState::Open), Ok(Some(2)));
    assert_eq!(find_first_page(&mut flash, &range, 0, PageState::Closed), Ok(None));
}

#[test]
fn a_fault_of_the_driver_is_handed_on() {
    let range = 0x1000..0x2000;
    let mut flash = Flash::new();

    assert_eq!(
        get_page_state(&mut flash, &range, 0),
        Err(Error::Storage(MockFlashError::OutOfBounds))
    );
    assert_eq!(
        find_first_page(&mut flash, &range, 0, PageState::Open),
        Err(Error::Storage(MockFlashError::OutOfBounds))
    );
    assert_eq!(
        partial_close_page(&mut flash, &range, 0),
        Err(Error::Storage(MockFlashError::OutOfBounds))
    );
    assert_eq!(
        close_page(&mut flash, &range, 0),
        Err(Error::Storage(MockFlashError::OutOfBounds))
    );
}

#[test]
fn bytes_are_read_and_tested_for_being_erased() {
    let mut flash = Flash::new();
    flash.write(8, &[1, 2, 3, 4]).unwrap();

    assert_eq!(read_bytes(&mut flash, 6, 8), Ok(vec![0xFF, 0xFF, 1, 2, 3, 4, 0xFF, 0xFF]));
    assert_eq!(read_bytes(&mut flash, 4090, 8), Err(MockFlashError::OutOfBounds));

    assert!(all_erased(&[0xFF, 0xFF, 0xFF], 0));
    assert!(!all_erased(&[0xFF, 0xFE, 0xFF], 0));
    assert!(all_erased(&[0x00, 0xFF, 0xFF], 1));
    assert!(all_erased(&[0x00, 0x01], 2));
    assert!(all_erased(&[], 0));
}

#[test]
fn the_answer_of_the_driver_is_handed_on() {
    assert_eq!(read_outcome::<MockFlashError>(Ok(()), vec![1, 2, 3]), Ok(vec![1, 2, 3]));
    assert_eq!(read_outcome::<MockFlashError>(Ok(()), vec![]), Ok(vec![]));
    assert_eq!(
        read_outcome(Err(MockFlashError::NotAligned), vec![1, 2, 3]),
        Err(MockFlashError::NotAligned)
    );
    assert_eq!(
        read_outcome(Err(MockFlashError::OutOfBounds), vec![]),
        Err(MockFlashError::OutOfBounds)
    );
}
