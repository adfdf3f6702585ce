use cdb::boxed_maker::sink_too_big_err;
use cdb::maker::{file_too_big_err, pos_plus};
use cdb::reader::invalid_file_format_err;
use cdb::{CdbError, CdbMaker, CdbMakerBoxed, CdbWrite};

const GIB: usize = 1 << 30;

#[test]
fn pos_plus_stops_at_the_greatest_length() {
    assert_eq!(pos_plus(2048, 8), Ok(2056));
    assert_eq!(pos_plus(0xffff_fff0, 0xf), Ok(u32::MAX));
    assert_eq!(pos_plus(0xffff_fff0, 0x10), Err(CdbError::FileTooLarge));
    assert_eq!(pos_plus(u32::MAX, u32::MAX), Err(CdbError::FileTooLarge));
    assert_eq!(pos_plus(0, 0), Ok(0));
}

#[test]
fn named_failures() {
    assert_eq!(file_too_big_err::<u8>(), Err(CdbError::FileTooLarge));
    assert_eq!(sink_too_big_err::<()>(), Err(CdbError::FileTooLarge));
    assert_eq!(invalid_file_format_err::<u32>(), Err(CdbError::InvalidFileFormat));
}

#[test]
fn key_or_value_of_the_greatest_length_is_refused() {
    // A slice of 2^32 - 1 bytes is needed: where the machine has no room for
    // one, nothing can be tried.
    let mut huge: Vec<u8> = Vec::new();
    if huge.try_reserve_exact(0xffff_ffff).is_err() {
        return;
    }
    huge.resize(0xffff_ffff, 0);
    let mut cdb = CdbMaker::new();
    assert_eq!(cdb.insert(b"k", &huge), Err(CdbError::ArgumentTooLarge));
    assert_eq!(cdb.insert(&huge, b""), Err(CdbError::ArgumentTooLarge));
    // One byte less is no longer too large an argument, only too large a file.
    assert_eq!(cdb.insert(b"k", &huge[..0xffff_fffe]), Err(CdbError::FileTooLarge));
}

#[test]
fn refused_record_leaves_the_builder_as_it_was() {
    let big: Vec<u8> = vec![0; GIB];
    let mut boxed = CdbMakerBoxed::new().unwrap();
    boxed.insert(b"k", b"v").unwrap();
    // Four times a value of 2^30 bytes would pass 2^32 - 1; the sink would
    // hold them all, so the cursor is moved up by the bookkeeping alone.
    let mut cdb = CdbMaker::new();
    for _ in 0..3 {
        cdb.insert(b"k", &big).unwrap();
    }
    assert_eq!(cdb.insert(b"k", &big), Err(CdbError::FileTooLarge));
    cdb.insert(b"last", b"fits").unwrap();
    let (tables, header) = cdb.flush().unwrap();
    assert_eq!(tables.len(), 4 * 16);
    assert_eq!(header.len(), 2048);
    boxed.flush().unwrap();
    let mut out: Vec<u8> = Vec::new();
    boxed.write_all(&mut out).unwrap();
    assert_eq!(out.len(), 2048 + 10 + 16);
}

#[test]
fn insert_past_the_greatest_length_is_refused() {
    let big: Vec<u8> = vec![0; GIB];
    let mut cdb = CdbMaker::new();
    for _ in 0..3 {
        cdb.insert(b"k", &big).unwrap();
    }
    // The cursor stands at 2048 + 3 * (8 + 1 + 2^30) = 3221227547.
    assert_eq!(cdb.insert(b"k", &big), Err(CdbError::FileTooLarge));
    // To the last byte: 3221227547 + 8 + 1 + 1073739739 = 2^32 - 1.
    assert_eq!(cdb.insert(b"k", &big[..1073739740]), Err(CdbError::FileTooLarge));
    assert_eq!(cdb.insert(b"k", &big[..1073739739]).map(|_| ()), Ok(()));
    // The cursor stands at 2^32 - 1: not even an empty record fits.
    assert_eq!(cdb.insert(b"", b""), Err(CdbError::FileTooLarge));
}

#[test]
fn flush_past_the_greatest_length_is_refused() {
    let big: Vec<u8> = vec![0; GIB];
    let mut cdb = CdbMaker::new();
    for _ in 0..3 {
        cdb.insert(b"k", &big).unwrap();
    }
    // Four records need 64 bytes of slots: with 63 bytes left the file is too large.
    cdb.insert(b"k", &big[..1073739739 - 63]).unwrap();
    assert_eq!(cdb.flush(), Err(CdbError::FileTooLarge));
    // The builder is as it was, and a refused flush can be tried again.
    assert_eq!(cdb.flush(), Err(CdbError::FileTooLarge));

    let mut cdb = CdbMaker::new();
    for _ in 0..3 {
        cdb.insert(b"k", &big).unwrap();
    }
    // With 64 bytes left the file is 2^32 - 1 bytes long.
    cdb.insert(b"k", &big[..1073739739 - 64]).unwrap();
    let (tables, header) = cdb.flush().unwrap();
    assert_eq!(tables.len(), 64);
    assert_eq!(header.len(), 2048);
    assert_eq!(&header[..8], &[0xbf, 0xff, 0xff, 0xff, 0, 0, 0, 0]);
}
