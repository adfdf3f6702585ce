use cdb::{CdbMaker, CdbMakerBoxed, CdbReader, CdbWrite};

fn put(maker: &mut CdbMaker, file: &mut Vec<u8>, key: &[u8], data: &[u8]) {
    let prefix = maker.insert(key, data).unwrap();
    file.extend_from_slice(&prefix);
    file.extend_from_slice(key);
    file.extend_from_slice(data);
}

fn finish(maker: &mut CdbMaker, file: &mut Vec<u8>) {
    let (tables, header) = maker.flush().unwrap();
    file.extend_from_slice(&tables);
    assert_eq!(header.len(), 2048);
    file[..2048].copy_from_slice(&header);
}

#[test]
fn make() {
    let mut file: Vec<u8> = vec![0; 2048];
    let mut cdb = CdbMaker::new();
    put(&mut cdb, &mut file, b"one", b"Hello");
    put(&mut cdb, &mut file, b"two", b"Goodbye");
    put(&mut cdb, &mut file, b"one", b", World!");
    put(&mut cdb, &mut file, b"this key will be split across two reads", b"Got it.");
    finish(&mut cdb, &mut file);

    let cdb = CdbReader::new(&file).unwrap();
    assert_eq!(cdb.find(b"two").next().unwrap().unwrap(), b"Goodbye");
    assert_eq!(
        cdb.find(b"this key will be split across two reads").next().unwrap().unwrap(),
        b"Got it."
    );
    let mut i = cdb.find(b"one");
    assert_eq!(i.next().unwrap().unwrap(), b"Hello");
    assert_eq!(i.next().unwrap().unwrap(), b", World!");
}

#[test]
fn both_builders_make_the_same_file() {
    let mut file: Vec<u8> = vec![0; 2048];
    let mut streamed = CdbMaker::new();
    let mut boxed = CdbMakerBoxed::new().unwrap();
    for i in 0..500u32 {
        let key = format!("key-{}", i % 300);
        let data = format!("value number {}", i);
        put(&mut streamed, &mut file, key.as_bytes(), data.as_bytes());
        boxed.insert(key.as_bytes(), data.as_bytes()).unwrap();
    }
    finish(&mut streamed, &mut file);
    boxed.flush().unwrap();
    let mut from_memory: Vec<u8> = Vec::new();
    boxed.write_all(&mut from_memory).unwrap();
    assert_eq!(file, from_memory);
}

#[test]
fn one_record_is_laid_out_byte_for_byte() {
    let mut file: Vec<u8> = vec![0; 2048];
    let mut cdb = CdbMaker::new();
    put(&mut cdb, &mut file, b"a", b"b");
    finish(&mut cdb, &mut file);

    // hash("a") = 177604 = 0x0002b5c4: bucket 0xc4, home slot (177604 >> 8) % 2 = 1.
    let mut expected: Vec<u8> = Vec::new();
    for b in 0..256u32 {
        let (pos, slots): (u32, u32) = if b < 0xc4 {
            (2058, 0)
        } else if b == 0xc4 {
            (2058, 2)
        } else {
            (2074, 0)
        };
        expected.extend_from_slice(&pos.to_le_bytes());
        expected.extend_from_slice(&slots.to_le_bytes());
    }
    expected.extend_from_slice(&[1, 0, 0, 0, 1, 0, 0, 0, b'a', b'b']);
    expected.extend_from_slice(&[0; 8]);
    expected.extend_from_slice(&[0xc4, 0xb5, 0x02, 0x00, 0x00, 0x08, 0x00, 0x00]);
    assert_eq!(file, expected);
}

#[test]
fn insert_start_gives_the_two_lengths() {
    let cdb = CdbMaker::new();
    assert_eq!(cdb.insert_start(3, 0x0102_0304), [3, 0, 0, 0, 4, 3, 2, 1]);
}

#[test]
fn insert_end_lists_the_record_under_its_hash() {
    let mut file: Vec<u8> = vec![0; 2048];
    let mut cdb = CdbMaker::new();
    file.extend_from_slice(&cdb.insert_start(1, 1));
    file.extend_from_slice(b"ab");
    cdb.insert_end(1, 1, cdb::hash(b"a")).unwrap();
    finish(&mut cdb, &mut file);
    let reader = CdbReader::new(&file).unwrap();
    assert_eq!(reader.find(b"a").next().unwrap().unwrap(), b"b");
}

#[test]
fn every_table_has_two_slots_for_each_record_of_its_bucket() {
    let mut file: Vec<u8> = vec![0; 2048];
    let mut cdb = CdbMaker::new();
    let mut counts = [0u32; 256];
    for i in 0..1000u32 {
        let key = format!("{}", i * 7919);
        counts[(cdb::hash(key.as_bytes()) & 0xff) as usize] += 1;
        put(&mut cdb, &mut file, key.as_bytes(), b"");
    }
    let records_end = file.len() as u32;
    finish(&mut cdb, &mut file);
    let mut pos = records_end;
    for b in 0..256 {
        let (hpos, hslots) = cdb::uint32::uint32_unpack2(&file[b * 8..b * 8 + 8]);
        assert_eq!(hpos, pos);
        assert_eq!(hslots, 2 * counts[b]);
        let mut used = 0;
        for s in 0..hslots as usize {
            let at = hpos as usize + 8 * s;
            let (_, rpos) = cdb::uint32::uint32_unpack2(&file[at..at + 8]);
            if rpos != 0 {
                used += 1;
            }
        }
        assert_eq!(used, counts[b]);
        pos += 8 * hslots;
    }
    assert_eq!(pos as usize, file.len());
}
