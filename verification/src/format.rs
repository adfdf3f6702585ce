//! The layout of the file, as a function of what was inserted.
//!
//! ```text
//! offset 0             256 bucket descriptors: (table position, slot count)
//! offset 2048          the records, in insertion order:
//!                      (key length, data length), key, data
//! after the records    the hash tables of buckets 0 to 255, each a run of
//!                      slots (key hash, record position)
//! ```
//!
//! All integers are unsigned, 32 bits wide and little-endian, and the file
//! is at most 2^32 - 1 bytes long.

use vstd::prelude::*;
use crate::hash::spec_hash;
use crate::table::{bucket_table, positions_nonzero};
use crate::uint32::{lemma_pack2_round_trip, spec_pack2};

verus! {

/// The length of the header, and so the position of the first record.
pub const HEADER_SIZE: u32 = 2048;

/// The number of buckets, and of hash tables.
pub const BUCKET_COUNT: usize = 256;

/// The greatest length that a file may have.
pub const MAX_FILE_SIZE: u32 = 0xffff_ffff;

/// A key with its value, as it was inserted.
pub struct Record {
    pub key: Seq<u8>,
    pub data: Seq<u8>,
}

/// What the layout of the file depends on, of one record: the hash of its
/// key and the two lengths.
pub struct Meta {
    pub hash: u32,
    pub klen: u32,
    pub dlen: u32,
}

/// A key or a value of 2^32 - 1 bytes or more is refused.
pub open spec fn acceptable(r: Record) -> bool {
    r.key.len() < 0xffff_ffff && r.data.len() < 0xffff_ffff
}

/// What the layout depends on, of `r`.
pub open spec fn meta_of(r: Record) -> Meta {
    Meta { hash: spec_hash(r.key), klen: r.key.len() as u32, dlen: r.data.len() as u32 }
}

/// What the layout depends on, of each record of `records`.
pub open spec fn metas_of(records: Seq<Record>) -> Seq<Meta> {
    records.map_values(|r: Record| meta_of(r))
}

/// The number of bytes that a record takes in the file.
pub open spec fn record_size(m: Meta) -> int {
    8 + m.klen + m.dlen
}

/// The number of bytes that the records take together.
pub open spec fn records_size(metas: Seq<Meta>) -> int
    decreases metas.len(),
{
    if metas.len() == 0 {
        0
    } else {
        records_size(metas.drop_last()) + record_size(metas.last())
    }
}

/// The position just behind the last record, where the hash tables start.
pub open spec fn end_pos(metas: Seq<Meta>) -> int {
    2048 + records_size(metas)
}

/// The position of record `j`.
pub open spec fn record_pos(metas: Seq<Meta>, j: int) -> int {
    end_pos(metas.take(j))
}

/// The bucket that a hash belongs to: its low eight bits.
pub open spec fn bucket_of(hash: u32) -> int {
    hash as int % 256
}

/// The entries of bucket `b`: for each record whose hash belongs to it, in
/// insertion order, the hash and the record's position.
pub open spec fn bucket(metas: Seq<Meta>, b: int) -> Seq<(u32, u32)>
    decreases metas.len(),
{
    if metas.len() == 0 {
        Seq::empty()
    } else if bucket_of(metas.last().hash) == b {
        bucket(metas.drop_last(), b).push((metas.last().hash, end_pos(metas.drop_last()) as u32))
    } else {
        bucket(metas.drop_last(), b)
    }
}

/// The number of slots in the hash tables of the buckets below `b`.
pub open spec fn slots_before(metas: Seq<Meta>, b: int) -> int
    decreases b,
{
    if b <= 0 {
        0
    } else {
        slots_before(metas, b - 1) + 2 * bucket(metas, b - 1).len()
    }
}

/// The position of the hash table of bucket `b`.
pub open spec fn table_pos(metas: Seq<Meta>, b: int) -> int {
    end_pos(metas) + 8 * slots_before(metas, b)
}

/// The length of the whole file.
pub open spec fn image_size(metas: Seq<Meta>) -> int {
    end_pos(metas) + 16 * metas.len()
}

/// The descriptors of the buckets below `b`: for each the position of its
/// hash table and the number of its slots, twice the number of its entries.
pub open spec fn header_pairs(metas: Seq<Meta>, b: int) -> Seq<(u32, u32)>
    decreases b,
{
    if b <= 0 {
        Seq::empty()
    } else {
        header_pairs(metas, b - 1).push(
            (table_pos(metas, b - 1) as u32, (2 * bucket(metas, b - 1).len()) as u32),
        )
    }
}

/// The slots of the hash tables of the buckets below `b`, one table after
/// the other.
pub open spec fn all_slots(metas: Seq<Meta>, b: int) -> Seq<(u32, u32)>
    decreases b,
{
    if b <= 0 {
        Seq::empty()
    } else {
        all_slots(metas, b - 1) + bucket_table(bucket(metas, b - 1))
    }
}

/// The bytes of a run of pairs, eight for each.
pub open spec fn encode_pairs(pairs: Seq<(u32, u32)>) -> Seq<u8>
    decreases pairs.len(),
{
    if pairs.len() == 0 {
        Seq::empty()
    } else {
        encode_pairs(pairs.drop_last()) + spec_pack2(pairs.last().0, pairs.last().1)
    }
}

/// The 2048 bytes of the header.
pub open spec fn header_bytes(metas: Seq<Meta>) -> Seq<u8> {
    encode_pairs(header_pairs(metas, 256))
}

/// The bytes of the 256 hash tables.
pub open spec fn tables_bytes(metas: Seq<Meta>) -> Seq<u8> {
    encode_pairs(all_slots(metas, 256))
}

/// The bytes of one record: the two lengths, the key, the data.
pub open spec fn record_bytes(r: Record) -> Seq<u8> {
    spec_pack2(r.key.len() as u32, r.data.len() as u32) + r.key + r.data
}

/// The bytes of the record region.
pub open spec fn records_bytes(records: Seq<Record>) -> Seq<u8>
    decreases records.len(),
{
    if records.len() == 0 {
        Seq::empty()
    } else {
        records_bytes(records.drop_last()) + record_bytes(records.last())
    }
}

/// Records that a builder accepts one after the other and can then finish:
/// no key or value is too long, and the file stays within its greatest
/// length.
pub open spec fn valid_records(records: Seq<Record>) -> bool {
    &&& forall|j: int| 0 <= j < records.len() ==> acceptable(#[trigger] records[j])
    &&& image_size(metas_of(records)) <= 0xffff_ffff
}

/// The finished file that holds `records`.
pub open spec fn cdb_image(records: Seq<Record>) -> Seq<u8> {
    header_bytes(metas_of(records)) + records_bytes(records) + tables_bytes(metas_of(records))
}

/// Each record takes at least its eight bytes of lengths, and a prefix of
/// the records takes no more than all of them.
pub proof fn lemma_records_size(metas: Seq<Meta>, j: int)
    requires
        0 <= j <= metas.len(),
    ensures
        8 * j <= records_size(metas.take(j)) <= records_size(metas),
        records_size(metas.take(j)) + 8 * (metas.len() - j) <= records_size(metas),
    decreases metas.len(),
{
    if j == metas.len() {
        assert(metas.take(j) =~= metas);
        if j > 0 {
            lemma_records_size(metas.drop_last(), j - 1);
            assert(metas.drop_last().take(j - 1) =~= metas.drop_last());
            assert(metas.take(j - 1) =~= metas.drop_last());
        }
    } else {
        assert(metas.drop_last().take(j) =~= metas.take(j));
        lemma_records_size(metas.drop_last(), j);
    }
}

/// A bucket has no more entries than there are records, and each entry
/// holds the hash and the position of a record, which is 2048 or more.
pub proof fn lemma_bucket_entries(metas: Seq<Meta>, b: int)
    requires
        end_pos(metas) <= 0xffff_ffff,
    ensures
        bucket(metas, b).len() <= metas.len(),
        forall|i: int|
            0 <= i < bucket(metas, b).len() ==> 2048 <= (#[trigger] bucket(metas, b)[i]).1
                && bucket(metas, b)[i].1 + 8 <= end_pos(metas) && bucket_of(bucket(metas, b)[i].0)
                == b,
        positions_nonzero(bucket(metas, b)),
    decreases metas.len(),
{
    if metas.len() > 0 {
        lemma_records_size(metas, metas.len() - 1);
        assert(metas.take(metas.len() - 1) =~= metas.drop_last());
        lemma_bucket_entries(metas.drop_last(), b);
    }
}

/// One more record adds two slots to the table of its own bucket.
pub proof fn lemma_slots_before_push(metas: Seq<Meta>, m: Meta, b: int)
    requires
        0 <= b <= 256,
    ensures
        slots_before(metas.push(m), b) == slots_before(metas, b) + (if bucket_of(m.hash) < b {
            2int
        } else {
            0int
        }),
    decreases b,
{
    if b > 0 {
        lemma_slots_before_push(metas, m, b - 1);
        assert(metas.push(m).drop_last() =~= metas);
    }
}

/// The tables below a bucket have no more slots than the tables below a
/// later one, and all the tables together have two slots for each record.
pub proof fn lemma_slots_before(metas: Seq<Meta>, b: int, c: int)
    requires
        0 <= b <= c <= 256,
    ensures
        0 <= slots_before(metas, b) <= slots_before(metas, c),
        slots_before(metas, 256) == 2 * metas.len(),
    decreases metas.len(), c - b,
{
    if b < c {
        lemma_slots_before(metas, b, c - 1);
    } else {
        lemma_slots_nonneg(metas, b);
    }
    if metas.len() == 0 {
        lemma_slots_empty(metas, 256);
    } else {
        lemma_slots_before(metas.drop_last(), 0, 256);
        lemma_slots_before_push(metas.drop_last(), metas.last(), 256);
        assert(metas.drop_last().push(metas.last()) =~= metas);
    }
}

proof fn lemma_slots_nonneg(metas: Seq<Meta>, b: int)
    ensures
        0 <= slots_before(metas, b),
    decreases b,
{
    if b > 0 {
        lemma_slots_nonneg(metas, b - 1);
    }
}

proof fn lemma_slots_empty(metas: Seq<Meta>, b: int)
    requires
        metas.len() == 0,
    ensures
        slots_before(metas, b) == 0,
    decreases b,
{
    if b > 0 {
        lemma_slots_empty(metas, b - 1);
    }
}

/// The hash tables end where the file ends.
pub proof fn lemma_table_pos(metas: Seq<Meta>, b: int)
    requires
        0 <= b < 256,
    ensures
        end_pos(metas) <= table_pos(metas, b),
        table_pos(metas, b + 1) == table_pos(metas, b) + 16 * bucket(metas, b).len(),
        table_pos(metas, b + 1) <= table_pos(metas, 256),
        table_pos(metas, 256) == image_size(metas),
{
    lemma_slots_before(metas, 0, b);
    lemma_slots_before(metas, b + 1, 256);
}

/// A run of pairs takes eight bytes for each pair.
pub proof fn lemma_encode_pairs_len(pairs: Seq<(u32, u32)>)
    ensures
        encode_pairs(pairs).len() == 8 * pairs.len(),
    decreases pairs.len(),
{
    if pairs.len() > 0 {
        lemma_encode_pairs_len(pairs.drop_last());
    }
}

/// One more pair adds its eight bytes at the end.
pub proof fn lemma_encode_pairs_push(pairs: Seq<(u32, u32)>, e: (u32, u32))
    ensures
        encode_pairs(pairs.push(e)) == encode_pairs(pairs) + spec_pack2(e.0, e.1),
{
    assert(pairs.push(e).drop_last() =~= pairs);
}

/// The header has a descriptor for each bucket below `b`.
pub proof fn lemma_header_pairs_len(metas: Seq<Meta>, b: int)
    requires
        0 <= b,
    ensures
        header_pairs(metas, b).len() == b,
    decreases b,
{
    if b > 0 {
        lemma_header_pairs_len(metas, b - 1);
    }
}

/// The record region is as long as the sizes of its records add up to.
pub proof fn lemma_records_bytes_len(records: Seq<Record>)
    requires
        forall|j: int| 0 <= j < records.len() ==> acceptable(#[trigger] records[j]),
    ensures
        records_bytes(records).len() == records_size(metas_of(records)),
    decreases records.len(),
{
    if records.len() > 0 {
        lemma_records_bytes_len(records.drop_last());
        assert(metas_of(records).drop_last() =~= metas_of(records.drop_last()));
        lemma_pack2_round_trip(
            records.last().key.len() as u32,
            records.last().data.len() as u32,
        );
    }
}

} // verus!
