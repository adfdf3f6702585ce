use cdb::hash;
use cdb::uint32::{uint32_pack2, uint32_unpack2};
use cdb::CdbError;

#[test]
fn hash_of_known_keys() {
    assert_eq!(hash(b""), 5381);
    assert_eq!(hash(b"a"), 177604);
    assert_eq!(hash(b"abc"), 193409669);
    assert_eq!(hash(b"Hello, world!"), 0x564369e8);
}

#[test]
fn hash_is_the_same_each_time() {
    let key: Vec<u8> = (0..=255u8).cycle().take(1000).collect();
    assert_eq!(hash(&key), hash(&key));
    assert_eq!(hash(b"abc"), hash(&[b'a', b'b', b'c']));
}

#[test]
fn hash_wraps_at_32_bits() {
    // Seven steps from 5381 pass 2^32: the product is reduced, never widened.
    let mut h: u64 = 5381;
    for b in b"overflow" {
        h = ((h * 33) & 0xffff_ffff) ^ (*b as u64);
    }
    assert_eq!(hash(b"overflow") as u64, h);
}

#[test]
fn pack2_writes_little_endian() {
    let mut buf = [0xffu8; 8];
    uint32_pack2(&mut buf, 0x0403_0201, 0x0807_0605);
    assert_eq!(buf, [1, 2, 3, 4, 5, 6, 7, 8]);
    uint32_pack2(&mut buf, 2048, 0);
    assert_eq!(buf, [0, 8, 0, 0, 0, 0, 0, 0]);
}

#[test]
fn unpack2_reads_little_endian() {
    assert_eq!(uint32_unpack2(&[1, 2, 3, 4, 5, 6, 7, 8]), (0x0403_0201, 0x0807_0605));
    assert_eq!(uint32_unpack2(&[0xff; 8]), (u32::MAX, u32::MAX));
}

#[test]
fn unpack2_gives_back_what_pack2_wrote() {
    let samples = [0u32, 1, 0xff, 0x100, 0xffff, 0x1_0000, 0x7fff_ffff, 0x8000_0000, u32::MAX];
    for a in samples {
        for b in samples {
            let mut buf = [0u8; 8];
            uint32_pack2(&mut buf, a, b);
            assert_eq!(uint32_unpack2(&buf), (a, b));
        }
    }
}

#[test]
fn errors_describe_themselves() {
    assert_eq!(CdbError::InvalidFileFormat.message(), "Invalid file format");
    assert_eq!(CdbError::ArgumentTooLarge.message(), "Key or data too big");
    assert_eq!(CdbError::FileTooLarge.message(), "File too big");
}
