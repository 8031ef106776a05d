use gistools::zip::iter_items;
use gistools::CompressError;

const STORED: [u8; 110] = [
    80, 75, 3, 4, 20, 0, 0, 0, 0, 0, 0, 0, 33, 80, 172, 42, 147, 216, 2, 0, 0, 0, 2, 0, 0, 0, 5, 0,
    0, 0, 97, 46, 116, 120, 116, 104, 105, 80, 75, 1, 2, 20, 3, 20, 0, 0, 0, 0, 0, 0, 0, 33, 80,
    172, 42, 147, 216, 2, 0, 0, 0, 2, 0, 0, 0, 5, 0, 0, 0, 0, 0, 0, 0, 0, 0, 0, 0, 128, 1, 0, 0, 0,
    0, 97, 46, 116, 120, 116, 80, 75, 5, 6, 0, 0, 0, 0, 1, 0, 1, 0, 51, 0, 0, 0, 37, 0, 0, 0, 0, 0,
];

const DEFLATED: [u8; 118] = [
    80, 75, 3, 4, 20, 0, 0, 0, 8, 0, 0, 0, 33, 80, 128, 136, 249, 229, 10, 0, 0, 0, 17, 0, 0, 0, 5,
    0, 0, 0, 98, 46, 116, 120, 116, 203, 72, 205, 201, 201, 87, 200, 64, 144, 0, 80, 75, 1, 2, 20,
    3, 20, 0, 0, 0, 8, 0, 0, 0, 33, 80, 128, 136, 249, 229, 10, 0, 0, 0, 17, 0, 0, 0, 5, 0, 0, 0, 0,
    0, 0, 0, 0, 0, 0, 0, 128, 1, 0, 0, 0, 0, 98, 46, 116, 120, 116, 80, 75, 5, 6, 0, 0, 0, 0, 1, 0,
    1, 0, 51, 0, 0, 0, 45, 0, 0, 0, 0, 0,
];

#[test]
fn zip_stored_entry() {
    let items = iter_items(&STORED).unwrap();
    assert_eq!(items.len(), 1);
    assert_eq!(items[0].filename, "a.txt");
    assert_eq!(items[0].comment, "");
    assert_eq!(items[0].read().unwrap(), b"hi".to_vec());
}

#[test]
fn zip_deflated_entry() {
    let items = iter_items(&DEFLATED).unwrap();
    assert_eq!(items.len(), 1);
    assert_eq!(items[0].filename, "b.txt");
    assert_eq!(items[0].read().unwrap(), b"hello hello hello".to_vec());
}

#[test]
fn zip_errors() {
    assert_eq!(iter_items(&[0u8; 10]).err(), Some(CompressError::BadZipFormat));
    assert_eq!(iter_items(&STORED[..80]).err(), Some(CompressError::BadZipFormat));
    let mut multi = STORED;
    multi[98] = 2;
    assert_eq!(iter_items(&multi).err(), Some(CompressError::ZipMultiDiskNotSupported));
    let mut odd = STORED;
    odd[47] = 1;
    odd[48] = 0;
    assert_eq!(iter_items(&odd).unwrap()[0].read().err(), Some(CompressError::InvalidCompressionMethod));
}

#[test]
fn zip_corrupt_deflate_is_read_error() {
    let mut bad = DEFLATED;
    bad[35] = 0xff;
    let items = iter_items(&bad).unwrap();
    assert_eq!(items[0].read().err(), Some(CompressError::ReadError));
}

const TWO: [u8; 205] = [
    80, 75, 3, 4, 20, 0, 0, 0, 0, 0, 0, 0, 33, 80, 172, 42, 147, 216, 2, 0, 0, 0, 2, 0, 0, 0, 5, 0,
    0, 0, 97, 46, 116, 120, 116, 104, 105, 80, 75, 3, 4, 20, 0, 0, 0, 0, 0, 0, 0, 33, 80, 251, 237,
    109, 10, 3, 0, 0, 0, 3, 0, 0, 0, 6, 0, 0, 0, 98, 98, 46, 116, 120, 116, 121, 111, 33, 80, 75, 1,
    2, 20, 3, 20, 0, 0, 0, 0, 0, 0, 0, 33, 80, 172, 42, 147, 216, 2, 0, 0, 0, 2, 0, 0, 0, 5, 0, 0, 0,
    0, 0, 0, 0, 0, 0, 0, 0, 128, 1, 0, 0, 0, 0, 97, 46, 116, 120, 116, 80, 75, 1, 2, 20, 3, 20, 0, 0,
    0, 0, 0, 0, 0, 33, 80, 251, 237, 109, 10, 3, 0, 0, 0, 3, 0, 0, 0, 6, 0, 0, 0, 4, 0, 0, 0, 0, 0, 0,
    0, 128, 1, 37, 0, 0, 0, 98, 98, 46, 116, 120, 116, 110, 111, 116, 101, 80, 75, 5, 6, 0, 0, 0, 0,
    2, 0, 2, 0, 107, 0, 0, 0, 76, 0, 0, 0, 0, 0,
];

#[test]
fn zip_walks_each_record() {
    let items = iter_items(&TWO).unwrap();
    assert_eq!(items.len(), 2);
    assert_eq!(items[0].filename, "a.txt");
    assert_eq!(items[0].read().unwrap(), b"hi".to_vec());
    assert_eq!(items[1].filename, "bb.txt");
    assert_eq!(items[1].comment, "note");
    assert_eq!(items[1].read().unwrap(), b"yo!".to_vec());
}
