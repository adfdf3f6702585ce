//! What stands where in a finished file: the bucket descriptors in the
//! header, each record at its position, each slot in its hash table.

use vstd::prelude::*;
use crate::format::{
    acceptable, all_slots, bucket, bucket_of, cdb_image, encode_pairs, end_pos, header_bytes,
    header_pairs, image_size, lemma_bucket_entries, lemma_encode_pairs_len,
    lemma_header_pairs_len, lemma_records_bytes_len, lemma_records_size, lemma_slots_before,
    lemma_table_pos, metas_of, record_bytes, record_pos, record_size, records_bytes,
    records_size, slots_before, table_pos, tables_bytes, valid_records, Meta, Record,
};
use crate::hash::spec_hash;
use crate::reader::pair_at;
use crate::table::{bucket_table, lemma_fill_inv, lemma_fill_len, occupied};
use crate::uint32::{lemma_pack2_round_trip, spec_pack2};

verus! {

/// The records of bucket `b`: those whose key's hash belongs to it, in
/// insertion order.
pub open spec fn bucket_records(records: Seq<Record>, b: int) -> Seq<Record>
    decreases records.len(),
{
    if records.len() == 0 {
        Seq::empty()
    } else if bucket_of(spec_hash(records.last().key)) == b {
        bucket_records(records.drop_last(), b).push(records.last())
    } else {
        bucket_records(records.drop_last(), b)
    }
}

/// The values inserted under `key`, in insertion order.
pub open spec fn values_for(records: Seq<Record>, key: Seq<u8>) -> Seq<Seq<u8>>
    decreases records.len(),
{
    if records.len() == 0 {
        Seq::empty()
    } else if records.last().key == key {
        values_for(records.drop_last(), key).push(records.last().data)
    } else {
        values_for(records.drop_last(), key)
    }
}

/// The eight bytes of pair `i` in a run of pairs.
pub proof fn lemma_encode_pairs_index(pairs: Seq<(u32, u32)>, i: int)
    requires
        0 <= i < pairs.len(),
    ensures
        encode_pairs(pairs).len() == 8 * pairs.len(),
        encode_pairs(pairs).subrange(8 * i, 8 * i + 8) == spec_pack2(pairs[i].0, pairs[i].1),
    decreases pairs.len(),
{
    lemma_encode_pairs_len(pairs);
    lemma_encode_pairs_len(pairs.drop_last());
    lemma_pack2_round_trip(pairs.last().0, pairs.last().1);
    if i == pairs.len() - 1 {
        assert(encode_pairs(pairs).subrange(8 * i, 8 * i + 8) =~= spec_pack2(
            pairs[i].0,
            pairs[i].1,
        ));
    } else {
        lemma_encode_pairs_index(pairs.drop_last(), i);
        assert(encode_pairs(pairs).subrange(8 * i, 8 * i + 8) =~= encode_pairs(
            pairs.drop_last(),
        ).subrange(8 * i, 8 * i + 8));
    }
}

/// The descriptor of bucket `c` in the header.
pub proof fn lemma_header_pairs_index(metas: Seq<Meta>, b: int, c: int)
    requires
        0 <= c < b,
    ensures
        header_pairs(metas, b).len() == b,
        header_pairs(metas, b)[c] == (
            table_pos(metas, c) as u32,
            (2 * bucket(metas, c).len()) as u32,
        ),
    decreases b,
{
    lemma_header_pairs_len(metas, b);
    lemma_header_pairs_len(metas, b - 1);
    if c < b - 1 {
        lemma_header_pairs_index(metas, b - 1, c);
    }
}

/// The tables of the buckets below `b` have as many slots as
/// `slots_before` says.
pub proof fn lemma_all_slots_len(metas: Seq<Meta>, b: int)
    requires
        0 <= b,
    ensures
        all_slots(metas, b).len() == slots_before(metas, b),
    decreases b,
{
    if b > 0 {
        lemma_all_slots_len(metas, b - 1);
        lemma_fill_len(bucket(metas, b - 1), bucket(metas, b - 1).len() as int);
    }
}

/// Slot `s` of the table of bucket `b` among the slots of all tables.
pub proof fn lemma_all_slots_index(metas: Seq<Meta>, upper: int, b: int, s: int)
    requires
        0 <= b < upper,
        0 <= s < 2 * bucket(metas, b).len(),
    ensures
        0 <= slots_before(metas, b) + s < all_slots(metas, upper).len(),
        all_slots(metas, upper)[slots_before(metas, b) + s] == bucket_table(bucket(metas, b))[s],
    decreases upper,
{
    lemma_all_slots_len(metas, upper);
    lemma_all_slots_len(metas, upper - 1);
    lemma_all_slots_len(metas, b);
    lemma_fill_len(bucket(metas, upper - 1), bucket(metas, upper - 1).len() as int);
    if b < upper - 1 {
        lemma_all_slots_index(metas, upper - 1, b, s);
    }
}

/// The three parts of a finished file have the lengths that the layout
/// gives them.
pub proof fn lemma_image_len(records: Seq<Record>)
    requires
        forall|j: int| 0 <= j < records.len() ==> acceptable(#[trigger] records[j]),
    ensures
        header_bytes(metas_of(records)).len() == 2048,
        records_bytes(records).len() == records_size(metas_of(records)),
        tables_bytes(metas_of(records)).len() == 16 * records.len(),
        cdb_image(records).len() == image_size(metas_of(records)),
{
    let ms = metas_of(records);
    lemma_encode_pairs_len(header_pairs(ms, 256));
    lemma_header_pairs_len(ms, 256);
    lemma_records_bytes_len(records);
    lemma_encode_pairs_len(all_slots(ms, 256));
    lemma_all_slots_len(ms, 256);
    lemma_slots_before(ms, 0, 256);
}

/// The header of a finished file holds, for each bucket, the position of
/// its hash table and the number of its slots.
pub proof fn lemma_descriptor_in_image(records: Seq<Record>, b: int)
    requires
        forall|j: int| 0 <= j < records.len() ==> acceptable(#[trigger] records[j]),
        0 <= b < 256,
    ensures
        pair_at(cdb_image(records), 8 * b) == (
            table_pos(metas_of(records), b) as u32,
            (2 * bucket(metas_of(records), b).len()) as u32,
        ),
{
    let ms = metas_of(records);
    let img = cdb_image(records);
    lemma_image_len(records);
    lemma_header_pairs_index(ms, 256, b);
    lemma_encode_pairs_index(header_pairs(ms, 256), b);
    assert(img.subrange(8 * b, 8 * b + 8) =~= header_bytes(ms).subrange(8 * b, 8 * b + 8));
    let d = header_pairs(ms, 256)[b];
    lemma_pack2_round_trip(d.0, d.1);
}

/// The hash table of each bucket stands in a finished file at the position
/// that the header gives, slot after slot.
pub proof fn lemma_slot_in_image(records: Seq<Record>, b: int, s: int)
    requires
        forall|j: int| 0 <= j < records.len() ==> acceptable(#[trigger] records[j]),
        0 <= b < 256,
        0 <= s < 2 * bucket(metas_of(records), b).len(),
    ensures
        table_pos(metas_of(records), b) + 8 * s + 8 <= cdb_image(records).len(),
        pair_at(cdb_image(records), table_pos(metas_of(records), b) + 8 * s) == bucket_table(
            bucket(metas_of(records), b),
        )[s],
{
    let ms = metas_of(records);
    let img = cdb_image(records);
    let at = slots_before(ms, b) + s;
    lemma_image_len(records);
    lemma_all_slots_index(ms, 256, b, s);
    lemma_encode_pairs_index(all_slots(ms, 256), at);
    lemma_table_pos(ms, b);
    let pos = table_pos(ms, b) + 8 * s;
    assert(pos == end_pos(ms) + 8 * at);
    assert(img.subrange(pos, pos + 8) =~= tables_bytes(ms).subrange(8 * at, 8 * at + 8));
    let e = all_slots(ms, 256)[at];
    lemma_pack2_round_trip(e.0, e.1);
}

/// The bytes of record `j` within the record region.
pub proof fn lemma_record_in_region(records: Seq<Record>, j: int)
    requires
        forall|j: int| 0 <= j < records.len() ==> acceptable(#[trigger] records[j]),
        0 <= j < records.len(),
    ensures
        records_size(metas_of(records).take(j)) + record_size(metas_of(records)[j])
            <= records_size(metas_of(records)),
        0 <= records_size(metas_of(records).take(j)),
        records_bytes(records).len() == records_size(metas_of(records)),
        records_bytes(records).subrange(
            records_size(metas_of(records).take(j)),
            records_size(metas_of(records).take(j)) + record_size(metas_of(records)[j]),
        ) == record_bytes(records[j]),
    decreases records.len(),
{
    let ms = metas_of(records);
    let rest = records.drop_last();
    lemma_records_bytes_len(records);
    lemma_records_bytes_len(rest);
    assert(ms.drop_last() =~= metas_of(rest));
    lemma_pack2_round_trip(records[j].key.len() as u32, records[j].data.len() as u32);
    let off = records_size(ms.take(j));
    let size = record_size(ms[j]);
    if j == records.len() - 1 {
        assert(ms.take(j) =~= ms.drop_last());
        assert(records_bytes(records).subrange(off, off + size) =~= record_bytes(records[j]));
    } else {
        lemma_record_in_region(rest, j);
        assert(metas_of(rest).take(j) =~= ms.take(j));
        lemma_records_size(ms.drop_last(), j + 1);
        assert(ms.drop_last().take(j + 1).drop_last() =~= ms.take(j));
        assert(records_bytes(records).subrange(off, off + size) =~= records_bytes(rest).subrange(
            off,
            off + size,
        ));
    }
}

/// Each record stands in a finished file at its position: its two lengths,
/// then its key, then its data.
pub proof fn lemma_record_in_image(records: Seq<Record>, j: int)
    requires
        forall|j: int| 0 <= j < records.len() ==> acceptable(#[trigger] records[j]),
        0 <= j < records.len(),
    ensures
        ({
            let img = cdb_image(records);
            let pos = record_pos(metas_of(records), j);
            let klen = records[j].key.len();
            let dlen = records[j].data.len();
            &&& 2048 <= pos
            &&& pos + 8 + klen + dlen <= end_pos(metas_of(records)) <= img.len()
            &&& pair_at(img, pos) == (klen as u32, dlen as u32)
            &&& img.subrange(pos + 8, pos + 8 + klen) == records[j].key
            &&& img.subrange(pos + 8 + klen, pos + 8 + klen + dlen) == records[j].data
        }),
{
    let ms = metas_of(records);
    let img = cdb_image(records);
    let pos = record_pos(ms, j);
    let klen = records[j].key.len() as int;
    let dlen = records[j].data.len() as int;
    let off = records_size(ms.take(j));
    lemma_image_len(records);
    lemma_record_in_region(records, j);
    let rb = record_bytes(records[j]);
    lemma_pack2_round_trip(klen as u32, dlen as u32);
    assert(img.subrange(pos, pos + 8 + klen + dlen) =~= records_bytes(records).subrange(
        off,
        off + 8 + klen + dlen,
    ));
    assert(img.subrange(pos, pos + 8) =~= rb.subrange(0, 8));
    assert(rb.subrange(0, 8) =~= spec_pack2(klen as u32, dlen as u32));
    assert(img.subrange(pos + 8, pos + 8 + klen) =~= rb.subrange(8, 8 + klen));
    assert(rb.subrange(8, 8 + klen) =~= records[j].key);
    assert(img.subrange(pos + 8 + klen, pos + 8 + klen + dlen) =~= rb.subrange(
        8 + klen,
        8 + klen + dlen,
    ));
    assert(rb.subrange(8 + klen, 8 + klen + dlen) =~= records[j].data);
}

/// Entry `i` of a bucket stands for one of the records: it holds the hash
/// of that record's key and that record's position. The result is the
/// record's place in the insertion order.
pub proof fn lemma_entry_origin(records: Seq<Record>, b: int, i: int) -> (j: int)
    requires
        valid_records(records),
        0 <= i < bucket(metas_of(records), b).len(),
    ensures
        bucket_records(records, b).len() == bucket(metas_of(records), b).len(),
        0 <= j < records.len(),
        records[j] == bucket_records(records, b)[i],
        bucket(metas_of(records), b)[i] == (
            spec_hash(records[j].key),
            record_pos(metas_of(records), j) as u32,
        ),
        record_pos(metas_of(records), j) <= 0xffff_ffff,
    decreases records.len(),
{
    let ms = metas_of(records);
    let rest = records.drop_last();
    let last = records.len() - 1;
    assert(ms.drop_last() =~= metas_of(rest));
    assert(ms.take(last) =~= ms.drop_last());
    lemma_records_size(ms, last);
    lemma_bucket_records_len(records, b);
    lemma_bucket_records_len(rest, b);
    if bucket_of(ms.last().hash) == b && i == bucket(ms.drop_last(), b).len() {
        last
    } else {
        assert(valid_records(rest)) by {
            assert forall|x: int| 0 <= x < rest.len() implies acceptable(#[trigger] rest[x]) by {
                assert(rest[x] == records[x]);
            }
        }
        let j = lemma_entry_origin(rest, b, i);
        assert(metas_of(rest).take(j) =~= ms.take(j));
        j
    }
}

/// A bucket has an entry for each of its records.
pub proof fn lemma_bucket_records_len(records: Seq<Record>, b: int)
    ensures
        bucket_records(records, b).len() == bucket(metas_of(records), b).len(),
    decreases records.len(),
{
    if records.len() > 0 {
        lemma_bucket_records_len(records.drop_last(), b);
        assert(metas_of(records).drop_last() =~= metas_of(records.drop_last()));
    }
}

/// The values under a key are found among the records of the bucket of the
/// key's hash, in the same order.
pub proof fn lemma_values_in_bucket(records: Seq<Record>, key: Seq<u8>)
    ensures
        values_for(bucket_records(records, bucket_of(spec_hash(key))), key) == values_for(
            records,
            key,
        ),
    decreases records.len(),
{
    if records.len() > 0 {
        let b = bucket_of(spec_hash(key));
        lemma_values_in_bucket(records.drop_last(), key);
        if bucket_of(spec_hash(records.last().key)) == b {
            assert(bucket_records(records.drop_last(), b).push(records.last()).drop_last()
                =~= bucket_records(records.drop_last(), b));
        }
    }
}

/// The load factor: in a finished file the hash table of every bucket has
/// exactly twice as many slots as the bucket has records, and as many of
/// its slots hold an entry as the bucket has records.
pub proof fn lemma_load_factor(records: Seq<Record>, b: int)
    requires
        valid_records(records),
        0 <= b < 256,
    ensures
        pair_at(cdb_image(records), 8 * b).1 == 2 * bucket_records(records, b).len(),
        bucket_table(bucket(metas_of(records), b)).len() == 2 * bucket_records(records, b).len(),
        occupied(bucket_table(bucket(metas_of(records), b))).finite(),
        occupied(bucket_table(bucket(metas_of(records), b))).len() == bucket_records(
            records,
            b,
        ).len(),
{
    let ms = metas_of(records);
    lemma_descriptor_in_image(records, b);
    lemma_bucket_records_len(records, b);
    lemma_records_size(ms, ms.len() as int);
    assert(ms.take(ms.len() as int) =~= ms);
    lemma_bucket_entries(ms, b);
    lemma_fill_inv(bucket(ms, b), bucket(ms, b).len() as int);
}

} // verus!
