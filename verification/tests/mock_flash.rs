use sequential_storage::flash::{filled, NorFlash, ERASED_BYTE};
use sequential_storage::mock_flash::{MockFlashBase, MockFlashError};

type Flash = MockFlashBase<4, 4, 256>;

#[test]
fn sizes_follow_from_the_parameters() {
    assert_eq!(<Flash as NorFlash>::READ_SIZE, 1);
    assert_eq!(<Flash as NorFlash>::WRITE_SIZE, 4);
    assert_eq!(<Flash as NorFlash>::ERASE_SIZE, 1024);
    assert_eq!(<MockFlashBase<2, 1, 32> as NorFlash>::ERASE_SIZE, 32);
}

#[test]
fn new_flash_is_erased() {
    let flash = Flash::new();

    assert_eq!(flash.data.len(), 4096);
    assert!(flash.data.iter().all(|byte| *byte == ERASED_BYTE));
    assert_eq!((flash.erases, flash.reads, flash.writes), (0, 0, 0));
    assert_eq!(ERASED_BYTE, 0xFF);
}

#[test]
fn filled_gives_the_count_and_the_value() {
    assert_eq!(filled(3, 7), vec![7, 7, 7]);
    assert_eq!(filled(0, 7), Vec::<u8>::new());
}

#[test]
fn writing_only_clears_bits() {
    let mut flash = Flash::new();

    assert_eq!(flash.write(4, &[0xF0, 0x0F, 0xAA, 0x00]), Ok(()));
    assert_eq!(&flash.data[4..8], &[0xF0, 0x0F, 0xAA, 0x00]);
    assert_eq!(flash.write(4, &[0x3C, 0xFF, 0x55, 0xFF]), Ok(()));
    assert_eq!(&flash.data[4..8], &[0x30, 0x0F, 0x00, 0x00]);
    assert_eq!(&flash.data[0..4], &[0xFF; 4]);
    assert_eq!(&flash.data[8..12], &[0xFF; 4]);
    assert_eq!(flash.writes, 2);
}

#[test]
fn writes_must_be_whole_words_within_the_flash() {
    let mut flash = Flash::new();

    assert_eq!(flash.write(2, &[0; 4]), Err(MockFlashError::NotAligned));
    assert_eq!(flash.write(4, &[0; 3]), Err(MockFlashError::NotAligned));
    assert_eq!(flash.write(4096, &[0; 4]), Err(MockFlashError::OutOfBounds));
    assert_eq!(flash.write(4092, &[0; 8]), Err(MockFlashError::OutOfBounds));
    assert_eq!(flash.write(4092, &[0; 4]), Ok(()));
    assert_eq!(flash.write(4096, &[]), Ok(()));
    assert!(flash.data[..4092].iter().all(|byte| *byte == 0xFF));
    assert_eq!(flash.writes, 6);
}

#[test]
fn reading_copies_the_bytes() {
    let mut flash = Flash::new();
    flash.write(0, &[1, 2, 3, 4, 5, 6, 7, 8]).unwrap();

    let mut bytes = [0u8; 5];
    assert_eq!(flash.read(3, &mut bytes), Ok(()));
    assert_eq!(bytes, [4, 5, 6, 7, 8]);
    assert_eq!(flash.read(4092, &mut bytes), Err(MockFlashError::OutOfBounds));
    assert_eq!(flash.read(5000, &mut bytes), Err(MockFlashError::OutOfBounds));
    assert_eq!(flash.reads, 3);
    assert_eq!(flash.writes, 1);
}

#[test]
fn erasing_sets_whole_pages_to_the_erased_value() {
    let mut flash = Flash::new();
    flash.write(1020, &[0; 8]).unwrap();
    flash.write(2048, &[0; 4]).unwrap();

    assert_eq!(flash.erase(1024, 2048), Ok(()));
    assert_eq!(&flash.data[1020..1024], &[0; 4]);
    assert_eq!(&flash.data[1024..1028], &[0xFF; 4]);
    assert_eq!(&flash.data[2048..2052], &[0; 4]);
    assert_eq!(flash.erase(0, 4096), Ok(()));
    assert!(flash.data.iter().all(|byte| *byte == 0xFF));
    assert_eq!(flash.erases, 2);
}

#[test]
fn erases_must_be_whole_pages_within_the_flash() {
    let mut flash = Flash::new();

    assert_eq!(flash.erase(4, 1024), Err(MockFlashError::NotAligned));
    assert_eq!(flash.erase(0, 1000), Err(MockFlashError::NotAligned));
    assert_eq!(flash.erase(2048, 1024), Err(MockFlashError::OutOfBounds));
    assert_eq!(flash.erase(4096, 5120), Err(MockFlashError::OutOfBounds));
    assert_eq!(flash.erase(1024, 1024), Ok(()));
    assert_eq!(flash.erases, 5);
}

#[test]
fn a_flash_is_built_anew_over_given_bytes() {
    let mut flash = Flash::with_bytes(vec![1, 2, 3, 4, 0xFF, 0xFF, 0xFF, 0xFF]);

    assert_eq!(flash.data, vec![1, 2, 3, 4, 0xFF, 0xFF, 0xFF, 0xFF]);
    assert_eq!((flash.erases, flash.reads, flash.writes), (0, 0, 0));
    let mut bytes = [0u8; 2];
    assert_eq!(flash.read(2, &mut bytes), Ok(()));
    assert_eq!(bytes, [3, 4]);
    assert_eq!(flash.read(7, &mut bytes), Err(MockFlashError::OutOfBounds));
    assert_eq!(flash.write(4, &[0, 0, 0, 0]), Ok(()));
    assert_eq!(flash.write(8, &[0, 0, 0, 0]), Err(MockFlashError::OutOfBounds));
    assert_eq!(flash.data, vec![1, 2, 3, 4, 0, 0, 0, 0]);
}

#[test]
fn a_refused_operation_is_out_of_bounds_before_it_is_not_aligned() {
    let mut flash = Flash::new();

    assert_eq!(flash.write(4094, &[0; 3]), Err(MockFlashError::OutOfBounds));
    assert_eq!(flash.write(4090, &[0; 3]), Err(MockFlashError::NotAligned));
    assert_eq!(flash.erase(3, 5000), Err(MockFlashError::OutOfBounds));
    assert_eq!(flash.erase(3, 4096), Err(MockFlashError::NotAligned));
    assert!(flash.data.iter().all(|byte| *byte == 0xFF));
}
