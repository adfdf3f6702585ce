use cdb::{CdbError, CdbMakerBoxed, CdbReader, CdbWrite};

fn test1() -> Vec<u8> {
    let mut cdb = CdbMakerBoxed::new().unwrap();
    cdb.insert(b"one", b"Hello").unwrap();
    cdb.insert(b"two", b"Goodbye").unwrap();
    cdb.insert(b"one", b", World!").unwrap();
    cdb.insert(b"this key will be split across two reads", b"Got it.").unwrap();
    cdb.flush().unwrap();
    let mut file: Vec<u8> = Vec::new();
    cdb.write_all(&mut file).unwrap();
    file
}

#[test]
fn one_read() {
    let file = test1();
    let cdb = CdbReader::new(&file).unwrap();
    let mut i = cdb.find(b"one");
    assert_eq!(i.next().unwrap().unwrap(), b"Hello");
    assert_eq!(i.next().unwrap().unwrap(), b", World!");
}

#[test]
fn two_reads() {
    let file = test1();
    let cdb = CdbReader::new(&file).unwrap();
    assert_eq!(cdb.find(b"two").next().unwrap().unwrap(), b"Goodbye");
    assert_eq!(
        cdb.find(b"this key will be split across two reads").next().unwrap().unwrap(),
        b"Got it."
    );
}

#[test]
fn lookup_ends_after_the_last_value() {
    let file = test1();
    let cdb = CdbReader::new(&file).unwrap();
    let mut i = cdb.find(b"one");
    assert_eq!(i.next().unwrap().unwrap(), b"Hello");
    assert_eq!(i.next().unwrap().unwrap(), b", World!");
    assert!(i.next().is_none());
    assert!(i.next().is_none());
    let mut j = cdb.find(b"two");
    assert_eq!(j.next().unwrap().unwrap(), b"Goodbye");
    assert!(j.next().is_none());
}

#[test]
fn missing_key_ends_at_once() {
    let file = test1();
    let cdb = CdbReader::new(&file).unwrap();
    assert!(cdb.find(b"three").next().is_none());
    assert!(cdb.find(b"").next().is_none());
    assert!(cdb.find(b"on").next().is_none());
    assert!(cdb.find(b"this key will be split across two readz").next().is_none());
}

#[test]
fn duplicate_keys_come_in_insertion_order() {
    let mut cdb = CdbMakerBoxed::new().unwrap();
    cdb.insert(b"k", b"first").unwrap();
    cdb.insert(b"k", b"second").unwrap();
    cdb.flush().unwrap();
    let mut file: Vec<u8> = Vec::new();
    cdb.write_all(&mut file).unwrap();
    let reader = CdbReader::new(&file).unwrap();
    let mut i = reader.find(b"k");
    assert_eq!(i.next().unwrap().unwrap(), b"first");
    assert_eq!(i.next().unwrap().unwrap(), b"second");
    assert!(i.next().is_none());
}

#[test]
fn every_inserted_value_is_found_in_order() {
    let mut cdb = CdbMakerBoxed::new().unwrap();
    let mut model: Vec<(Vec<u8>, Vec<u8>)> = Vec::new();
    for i in 0..3000u32 {
        let key = format!("k{}", (i * 31) % 700).into_bytes();
        let data = format!("d{}", i).into_bytes();
        cdb.insert(&key, &data).unwrap();
        model.push((key, data));
    }
    cdb.flush().unwrap();
    let mut file: Vec<u8> = Vec::new();
    cdb.write_all(&mut file).unwrap();
    let reader = CdbReader::new(&file).unwrap();
    for n in 0..710u32 {
        let key = format!("k{}", n).into_bytes();
        let expected: Vec<&Vec<u8>> =
            model.iter().filter(|r| r.0 == key).map(|r| &r.1).collect();
        let mut i = reader.find(&key);
        for want in expected {
            assert_eq!(&i.next().unwrap().unwrap(), want);
        }
        assert!(i.next().is_none());
    }
}

#[test]
fn keys_of_chunk_lengths_are_compared_whole() {
    let mut cdb = CdbMakerBoxed::new().unwrap();
    let mut keys: Vec<Vec<u8>> = Vec::new();
    for len in [0usize, 1, 31, 32, 33, 63, 64, 65, 100] {
        keys.push((0..len).map(|i| (i % 251) as u8).collect());
    }
    for (n, key) in keys.iter().enumerate() {
        cdb.insert(key, &[n as u8]).unwrap();
    }
    cdb.flush().unwrap();
    let mut file: Vec<u8> = Vec::new();
    cdb.write_all(&mut file).unwrap();
    let reader = CdbReader::new(&file).unwrap();
    for (n, key) in keys.iter().enumerate() {
        assert_eq!(reader.find(key).next().unwrap().unwrap(), vec![n as u8]);
        assert_eq!(reader.match_key(key, 0).is_ok(), true);
    }
    let mut other = keys[8].clone();
    other[99] ^= 1;
    assert!(reader.find(&other).next().is_none());
}

#[test]
fn match_key_compares_with_the_bytes_at_a_position() {
    let file = test1();
    let cdb = CdbReader::new(&file).unwrap();
    // The first record stands at 2048: eight bytes of lengths, then "one".
    assert_eq!(cdb.match_key(b"one", 2056), Ok(true));
    assert_eq!(cdb.match_key(b"two", 2056), Ok(false));
    assert_eq!(cdb.match_key(b"", file.len() as u64 + 5), Ok(true));
    assert_eq!(cdb.match_key(b"one", file.len() as u64 - 2), Err(CdbError::InvalidFileFormat));
    let long = [0u8; 40];
    assert_eq!(cdb.match_key(&long, file.len() as u64 - 20), Err(CdbError::InvalidFileFormat));
    let mut zeros = vec![0u8; 3000];
    zeros[2999] = 1;
    let z = CdbReader::new(&zeros).unwrap();
    // Both chunks lie inside the file, and the last byte differs.
    assert_eq!(z.match_key(&long, 2960), Ok(false));
    // The first chunk of 32 bytes matches, and the second reaches past the end.
    assert_eq!(z.match_key(&long, 2961), Err(CdbError::InvalidFileFormat));
    assert_eq!(z.match_key(&long, 100), Ok(true));
}

#[test]
fn read_copies_or_refuses() {
    let file = test1();
    let cdb = CdbReader::new(&file).unwrap();
    let mut buf = [0u8; 3];
    assert_eq!(cdb.read(&mut buf, 2056), Ok(3));
    assert_eq!(&buf, b"one");
    let end = file.len() as u64;
    assert_eq!(cdb.read(&mut buf, end - 3), Ok(3));
    assert_eq!(cdb.read(&mut buf, end - 2), Err(CdbError::InvalidFileFormat));
    assert_eq!(cdb.read(&mut buf, u64::MAX), Err(CdbError::InvalidFileFormat));
    let mut none = [0u8; 0];
    assert_eq!(cdb.read(&mut none, end), Ok(0));
}

#[test]
fn hash_table_reads_the_descriptor() {
    let file = test1();
    let cdb = CdbReader::new(&file).unwrap();
    let h = cdb::hash(b"two");
    let (hpos, hslots, kpos) = cdb.hash_table(h);
    assert_eq!(hslots, 2);
    assert_eq!(kpos, hpos as u64 + 8 * (((h >> 8) % 2) as u64));
    let none = cdb::hash(b"three");
    let (_, slots, at) = cdb.hash_table(none);
    assert_eq!((slots, at), (0, 0));
}

#[test]
fn sizes_outside_the_limits_are_refused() {
    assert_eq!(CdbReader::check_size(0), Err(CdbError::InvalidFileFormat));
    assert_eq!(CdbReader::check_size(2063), Err(CdbError::InvalidFileFormat));
    assert_eq!(CdbReader::check_size(2064), Ok(()));
    assert_eq!(CdbReader::check_size(0xffff_ffff), Ok(()));
    assert_eq!(CdbReader::check_size(0x1_0000_0000), Err(CdbError::InvalidFileFormat));
}

#[test]
fn reader_refuses_short_files() {
    assert!(matches!(CdbReader::new(&[]), Err(CdbError::InvalidFileFormat)));
    assert!(matches!(CdbReader::new(&vec![0u8; 2063]), Err(CdbError::InvalidFileFormat)));
    assert!(CdbReader::new(&vec![0u8; 2064]).is_ok());
}

#[test]
fn positions_past_the_end_are_reported() {
    let mut file = test1();
    let reader = CdbReader::new(&file).unwrap();
    let h = cdb::hash(b"two");
    let (_, _, kpos) = reader.hash_table(h);
    let kpos = kpos as usize;
    // The record position of the slot of "two" now lies past the end.
    file[kpos + 4..kpos + 8].copy_from_slice(&0xffff_fff0u32.to_le_bytes());
    let reader = CdbReader::new(&file).unwrap();
    let mut i = reader.find(b"two");
    assert_eq!(i.next(), Some(Err(CdbError::InvalidFileFormat)));
    // The slot was passed: the lookup goes on to the empty slot behind it.
    assert_eq!(i.next(), None);

    // A table that lies past the end is reported at each advance.
    let mut file = test1();
    let b = (h & 0xff) as usize;
    file[b * 8..b * 8 + 4].copy_from_slice(&0xffff_ff00u32.to_le_bytes());
    let reader = CdbReader::new(&file).unwrap();
    let mut i = reader.find(b"two");
    assert_eq!(i.next(), Some(Err(CdbError::InvalidFileFormat)));
    assert_eq!(i.next(), Some(Err(CdbError::InvalidFileFormat)));
}

#[test]
fn lookup_passes_no_more_slots_than_the_table_has() {
    // A table of two slots that are both taken by records with other keys.
    let mut file = test1();
    let h = cdb::hash(b"two");
    let reader = CdbReader::new(&file).unwrap();
    let (hpos, hslots, _) = reader.hash_table(h);
    assert_eq!(hslots, 2);
    let hpos = hpos as usize;
    for s in 0..2 {
        file[hpos + 8 * s..hpos + 8 * s + 4].copy_from_slice(&(h ^ 0x100).to_le_bytes());
        file[hpos + 8 * s + 4..hpos + 8 * s + 8].copy_from_slice(&2048u32.to_le_bytes());
    }
    let reader = CdbReader::new(&file).unwrap();
    assert_eq!(reader.find(b"two").next(), None);
}
