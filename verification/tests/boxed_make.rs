use cdb::{CdbMakerBoxed, CdbReader, CdbWrite};

#[test]
fn boxed_make() {
    let mut cdb = CdbMakerBoxed::new().unwrap();
    cdb.insert(b"one", b"Hello").unwrap();
    cdb.insert(b"two", b"Goodbye").unwrap();
    cdb.insert(b"one", b", World!").unwrap();
    cdb.insert(b"this key will be split across two reads", b"Got it.").unwrap();
    cdb.flush().unwrap();

    let mut file: Vec<u8> = Vec::new();
    cdb.write_all(&mut file).unwrap();

    let cdb = CdbReader::new(&file).unwrap();
    assert_eq!(cdb.find(b"two").next().unwrap().unwrap(), b"Goodbye");
    assert_eq!(
        cdb.find(b"this key will be split across two reads").next().unwrap().unwrap(),
        b"Got it."
    );
    let mut i = cdb.find(b"one");
    assert_eq!(i.next().unwrap().unwrap(), b"Hello");
    assert_eq!(i.next().unwrap().unwrap(), b", World!");
}

#[test]
fn write_all_appends_behind_what_the_writer_holds() {
    let mut cdb = CdbMakerBoxed::new().unwrap();
    cdb.insert(b"k", b"v").unwrap();
    cdb.flush().unwrap();
    let mut out: Vec<u8> = vec![0xaa, 0xbb];
    cdb.write_all(&mut out).unwrap();
    assert_eq!(&out[..2], &[0xaa, 0xbb]);
    assert_eq!(out.len(), 2 + 2048 + 10 + 16);
    let reader = CdbReader::new(&out[2..]).unwrap();
    assert_eq!(reader.find(b"k").next().unwrap().unwrap(), b"v");
}

#[test]
fn unfinished_builder_holds_reserved_header_and_records() {
    let mut cdb = CdbMakerBoxed::new().unwrap();
    cdb.insert(b"ab", b"xyz").unwrap();
    let mut out: Vec<u8> = Vec::new();
    cdb.write_all(&mut out).unwrap();
    assert_eq!(out.len(), 2048 + 8 + 2 + 3);
    assert!(out[..2048].iter().all(|b| *b == 0));
    assert_eq!(&out[2048..], &[2, 0, 0, 0, 3, 0, 0, 0, b'a', b'b', b'x', b'y', b'z']);
}

#[test]
fn empty_builder_finishes_to_a_bare_header() {
    let mut cdb = CdbMakerBoxed::new().unwrap();
    cdb.flush().unwrap();
    let mut out: Vec<u8> = Vec::new();
    cdb.write_all(&mut out).unwrap();
    assert_eq!(out.len(), 2048);
    for b in 0..256 {
        assert_eq!(&out[b * 8..b * 8 + 8], &[0, 8, 0, 0, 0, 0, 0, 0]);
    }
    assert!(matches!(CdbReader::new(&out), Err(cdb::CdbError::InvalidFileFormat)));
}
