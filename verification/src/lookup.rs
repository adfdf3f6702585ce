//! What a lookup yields in a file that a builder finished: for every key
//! the values inserted under it, in insertion order, and then the end.

use vstd::prelude::*;
use crate::error::CdbError;
use crate::format::{
    acceptable, bucket, bucket_of, cdb_image, end_pos, image_size, lemma_bucket_entries,
    lemma_records_size, lemma_table_pos, metas_of, record_pos, table_pos, valid_records, Record,
};
use crate::hash::spec_hash;
use crate::image::{
    bucket_records, lemma_bucket_records_len, lemma_descriptor_in_image, lemma_entry_origin,
    lemma_image_len, lemma_record_in_image, lemma_slot_in_image, lemma_values_in_bucket,
    values_for,
};
use crate::reader::{
    bump, chunk_end, examine, mismatch_at, pair_at, spec_find, spec_match_key, spec_next, Cursor,
    SlotOutcome,
};
use crate::table::{
    bucket_table, dist_of, fill_inv, home_of, home_slot, lemma_fill_inv, lemma_home_slot_in_range,
    lemma_placed_in_order, lemma_probe, lemma_probe_finds_free, lemma_slot_at_in_range,
    lemma_slot_at_injective, lemma_wrap, positions_nonzero, probe, slot_at, slot_of, taken,
};

verus! {

/// Where a lookup of `key` stands after `t` advances.
pub open spec fn cursor_after(data: Seq<u8>, key: Seq<u8>, t: nat) -> Cursor
    decreases t,
{
    if t == 0 {
        spec_find(data, key)
    } else {
        spec_next(data, cursor_after(data, key, (t - 1) as nat)).1
    }
}

/// What advance number `t`, counted from 0, of a lookup of `key` yields.
pub open spec fn nth_item(data: Seq<u8>, key: Seq<u8>, t: nat) -> Option<Result<Seq<u8>, CdbError>> {
    spec_next(data, cursor_after(data, key, t)).0
}

/// The bucket that `key` belongs to.
pub open spec fn key_bucket(key: Seq<u8>) -> int {
    bucket_of(spec_hash(key))
}

/// The entries of the bucket of `key`.
pub open spec fn key_entries(records: Seq<Record>, key: Seq<u8>) -> Seq<(u32, u32)> {
    bucket(metas_of(records), key_bucket(key))
}

/// The records of the bucket of `key`.
pub open spec fn key_peers(records: Seq<Record>, key: Seq<u8>) -> Seq<Record> {
    bucket_records(records, key_bucket(key))
}

/// The number of slots in the hash table of the bucket of `key`.
pub open spec fn key_slots(records: Seq<Record>, key: Seq<u8>) -> int {
    2 * key_entries(records, key).len() as int
}

/// The home slot of `key` in the hash table of its bucket.
pub open spec fn key_home(records: Seq<Record>, key: Seq<u8>) -> int {
    home_slot(spec_hash(key), key_slots(records, key))
}

/// The hash table of the bucket of `key`.
pub open spec fn key_table(records: Seq<Record>, key: Seq<u8>) -> Seq<(u32, u32)> {
    bucket_table(key_entries(records, key))
}

/// The number of slots from the home slot of `key` to the first empty one.
pub open spec fn key_reach(records: Seq<Record>, key: Seq<u8>) -> int {
    probe(key_table(records, key), key_home(records, key), 0)
}

/// Record `x` of the bucket holds `key`.
pub open spec fn is_hit(peers: Seq<Record>, key: Seq<u8>, x: int) -> bool {
    0 <= x < peers.len() && peers[x].key == key
}

/// The cursor of a lookup of `key` that has passed `d` slots of the hash
/// table of its bucket.
pub open spec fn cursor_at(records: Seq<Record>, key: Seq<u8>, d: int) -> Cursor {
    let n = key_slots(records, key);
    let hpos = table_pos(metas_of(records), key_bucket(key));
    Cursor {
        key,
        khash: spec_hash(key),
        kloop: d,
        kpos: if n == 0 {
            0
        } else {
            hpos + 8 * slot_at(key_home(records, key), d, n)
        },
        hpos,
        hslots: n,
    }
}

/// A lookup has passed `d` slots after `t` advances, and with them the
/// first `c` records of the bucket: those that hold the key gave the values
/// yielded so far, and every other record that holds the key lies ahead.
pub open spec fn walk_state(records: Seq<Record>, key: Seq<u8>, t: nat, d: int, c: int) -> bool {
    let peers = key_peers(records, key);
    let entries = key_entries(records, key);
    let values = values_for(peers, key);
    &&& cursor_after(cdb_image(records), key, t) == cursor_at(records, key, d)
    &&& 0 <= d <= key_reach(records, key)
    &&& 0 <= c <= peers.len()
    &&& values_for(peers.take(c), key) == values.take(
        if t < values.len() {
            t as int
        } else {
            values.len() as int
        },
    )
    &&& forall|x: int| #[trigger]
        is_hit(peers, key, x) ==> (dist_of(entries, x) < d <==> x < c)
}

/// A finished file that holds a record is one that a reader takes.
pub proof fn lemma_image_readable(records: Seq<Record>)
    requires
        valid_records(records),
        records.len() > 0,
    ensures
        2064 <= cdb_image(records).len() <= 0xffff_ffff,
{
    let ms = metas_of(records);
    lemma_image_len(records);
    lemma_records_size(ms, ms.len() as int);
    assert(ms.take(ms.len() as int) =~= ms);
}

/// What holds of the bucket of any key in a finished file.
proof fn lemma_setup(records: Seq<Record>, key: Seq<u8>)
    requires
        valid_records(records),
    ensures
        ({
            let ms = metas_of(records);
            let b = key_bucket(key);
            let entries = key_entries(records, key);
            let peers = key_peers(records, key);
            let n = key_slots(records, key);
            let table = key_table(records, key);
            &&& 0 <= b < 256
            &&& 2048 <= end_pos(ms) <= table_pos(ms, b) <= image_size(ms) <= 0xffff_ffff
            &&& cdb_image(records).len() == image_size(ms)
            &&& peers.len() == entries.len()
            &&& n <= 0xffff_ffff
            &&& positions_nonzero(entries)
            &&& fill_inv(entries, entries.len() as int)
            &&& table.len() == n
            &&& n > 0 ==> 0 <= key_home(records, key) < n && 0 <= key_reach(records, key) < n
                && !taken(table, key_home(records, key), key_reach(records, key))
            &&& forall|d: int|
                0 <= d < key_reach(records, key) ==> #[trigger] taken(
                    table,
                    key_home(records, key),
                    d,
                )
        }),
{
    let ms = metas_of(records);
    let b = key_bucket(key);
    let entries = key_entries(records, key);
    let n = key_slots(records, key);
    let table = key_table(records, key);
    lemma_image_len(records);
    lemma_records_size(ms, ms.len() as int);
    assert(ms.take(ms.len() as int) =~= ms);
    lemma_bucket_entries(ms, b);
    lemma_bucket_records_len(records, b);
    lemma_fill_inv(entries, entries.len() as int);
    lemma_table_pos(ms, b);
    if n > 0 {
        lemma_home_slot_in_range(spec_hash(key), n);
        lemma_probe_finds_free(table, key_home(records, key));
    }
    lemma_probe(table, key_home(records, key), 0);
}

/// A record of the bucket that holds the key has the key's hash, and so
/// the key's home slot, and lies before the first empty slot.
proof fn lemma_hit(records: Seq<Record>, key: Seq<u8>, x: int)
    requires
        valid_records(records),
        is_hit(key_peers(records, key), key, x),
    ensures
        key_slots(records, key) > 0,
        home_of(key_entries(records, key), x) == key_home(records, key),
        0 <= dist_of(key_entries(records, key), x) < key_reach(records, key),
{
    let entries = key_entries(records, key);
    let table = key_table(records, key);
    lemma_setup(records, key);
    let j = lemma_entry_origin(records, key_bucket(key), x);
    let dx = dist_of(entries, x);
    if key_reach(records, key) <= dx {
        assert(taken(table, home_of(entries, x), key_reach(records, key)));
    }
}

/// Of two records of the bucket that hold the key, the one inserted first
/// lies fewer slots from the home slot.
proof fn lemma_hits_in_order(records: Seq<Record>, key: Seq<u8>, x: int, y: int)
    requires
        valid_records(records),
        is_hit(key_peers(records, key), key, x),
        is_hit(key_peers(records, key), key, y),
    ensures
        x < y <==> dist_of(key_entries(records, key), x) < dist_of(key_entries(records, key), y),
{
    let entries = key_entries(records, key);
    lemma_setup(records, key);
    lemma_hit(records, key, x);
    lemma_hit(records, key, y);
    if x < y {
        lemma_placed_in_order(entries, x, y);
    } else if y < x {
        lemma_placed_in_order(entries, y, x);
    }
}

/// The bytes at `pos` are compared with a key of the same length as what
/// they are.
proof fn lemma_key_match(img: Seq<u8>, key: Seq<u8>, pos: int, stored: Seq<u8>)
    requires
        0 <= pos,
        pos + stored.len() <= img.len(),
        img.subrange(pos, pos + stored.len()) == stored,
        stored.len() == key.len(),
    ensures
        spec_match_key(img, key, pos) == Ok::<bool, CdbError>(stored == key),
{
    let len = key.len() as int;
    if stored == key {
        assert forall|i: int| !mismatch_at(img, key, pos, i) by {
            if 0 <= i < len {
                assert(img.subrange(pos, pos + len)[i] == img[pos + i]);
            }
        }
    } else {
        if forall|i: int| 0 <= i < len ==> stored[i] == key[i] {
            assert(stored =~= key);
        }
        let i = choose|i: int| 0 <= i < len && stored[i] != key[i];
        assert(img.subrange(pos, pos + len)[i] == img[pos + i]);
        assert(chunk_end(len, i) <= len);
        assert(mismatch_at(img, key, pos, i));
    }
}

/// At the slot of a record of the bucket a lookup finds the record's data
/// if the record holds the key, and passes on if it does not.
proof fn lemma_examine_taken(records: Seq<Record>, key: Seq<u8>, d: int, x: int)
    requires
        valid_records(records),
        0 <= x < key_entries(records, key).len(),
        0 <= d < key_slots(records, key),
        slot_of(key_entries(records, key), x) == slot_at(
            key_home(records, key),
            d,
            key_slots(records, key),
        ),
    ensures
        examine(cdb_image(records), key, spec_hash(key), cursor_at(records, key, d).kpos) == (
        if key_peers(records, key)[x].key == key {
            SlotOutcome::Hit(key_peers(records, key)[x].data)
        } else {
            SlotOutcome::Skip
        }),
{
    let ms = metas_of(records);
    let b = key_bucket(key);
    let entries = key_entries(records, key);
    let n = key_slots(records, key);
    let img = cdb_image(records);
    let s = slot_at(key_home(records, key), d, n);
    lemma_setup(records, key);
    lemma_slot_at_in_range(key_home(records, key), d, n);
    lemma_slot_in_image(records, b, s);
    let j = lemma_entry_origin(records, b, x);
    lemma_record_in_image(records, j);
    let rec = records[j];
    let rp = record_pos(ms, j);
    assert(pair_at(img, table_pos(ms, b) + 8 * s) == entries[x]);
    assert(entries[x] == (spec_hash(rec.key), rp as u32));
    assert(acceptable(rec));
    if spec_hash(rec.key) == spec_hash(key) && rec.key.len() == key.len() {
        lemma_key_match(img, key, rp + 8, rec.key);
    }
}

/// At an empty slot a lookup ends.
proof fn lemma_examine_free(records: Seq<Record>, key: Seq<u8>, d: int)
    requires
        valid_records(records),
        0 <= d < key_slots(records, key),
        !taken(key_table(records, key), key_home(records, key), d),
    ensures
        examine(cdb_image(records), key, spec_hash(key), cursor_at(records, key, d).kpos)
            == SlotOutcome::End,
{
    let n = key_slots(records, key);
    let s = slot_at(key_home(records, key), d, n);
    lemma_setup(records, key);
    lemma_slot_at_in_range(key_home(records, key), d, n);
    lemma_slot_in_image(records, key_bucket(key), s);
}

/// One slot further, the cursor has passed one slot more.
proof fn lemma_bump(records: Seq<Record>, key: Seq<u8>, d: int)
    requires
        valid_records(records),
        0 <= d < key_slots(records, key),
    ensures
        bump(cursor_at(records, key, d)) == cursor_at(records, key, d + 1),
{
    let n = key_slots(records, key);
    let home = key_home(records, key);
    lemma_setup(records, key);
    lemma_slot_at_in_range(home, d, n);
    lemma_wrap(home + d + 1, n);
}

/// A taken slot within reach of the home slot that holds no record with
/// the key is passed.
proof fn lemma_pass(records: Seq<Record>, key: Seq<u8>, d: int)
    requires
        valid_records(records),
        0 <= d < key_slots(records, key),
        taken(key_table(records, key), key_home(records, key), d),
        forall|x: int| #[trigger]
            is_hit(key_peers(records, key), key, x) ==> dist_of(key_entries(records, key), x)
                != d,
    ensures
        spec_next(cdb_image(records), cursor_at(records, key, d)) == spec_next(
            cdb_image(records),
            cursor_at(records, key, d + 1),
        ),
{
    let entries = key_entries(records, key);
    let peers = key_peers(records, key);
    let n = key_slots(records, key);
    let home = key_home(records, key);
    let table = key_table(records, key);
    let s = slot_at(home, d, n);
    lemma_setup(records, key);
    lemma_slot_at_in_range(home, d, n);
    assert(table[s].1 != 0);
    let x = choose|x: int| 0 <= x < entries.len() && s == #[trigger] slot_of(entries, x);
    lemma_examine_taken(records, key, d, x);
    if peers[x].key == key {
        assert(is_hit(peers, key, x));
        lemma_hit(records, key, x);
        lemma_slot_at_injective(home, dist_of(entries, x), d, n);
    }
    lemma_bump(records, key, d);
}

/// From `d` slots on, a lookup passes every slot up to the next record that
/// holds the key, and yields that record's data.
proof fn lemma_walk_to_hit(records: Seq<Record>, key: Seq<u8>, d: int, x: int)
    requires
        valid_records(records),
        is_hit(key_peers(records, key), key, x),
        0 <= d <= dist_of(key_entries(records, key), x),
        forall|y: int| #[trigger]
            is_hit(key_peers(records, key), key, y) ==> !(d <= dist_of(
                key_entries(records, key),
                y,
            ) < dist_of(key_entries(records, key), x)),
    ensures
        spec_next(cdb_image(records), cursor_at(records, key, d)) == (
            Some(Ok::<Seq<u8>, CdbError>(key_peers(records, key)[x].data)),
            cursor_at(records, key, dist_of(key_entries(records, key), x) + 1),
        ),
    decreases dist_of(key_entries(records, key), x) - d,
{
    let entries = key_entries(records, key);
    let peers = key_peers(records, key);
    let n = key_slots(records, key);
    let home = key_home(records, key);
    let table = key_table(records, key);
    lemma_setup(records, key);
    lemma_hit(records, key, x);
    if d == dist_of(entries, x) {
        lemma_examine_taken(records, key, d, x);
        lemma_bump(records, key, d);
    } else {
        assert(taken(table, home_of(entries, x), d));
        lemma_pass(records, key, d);
        lemma_walk_to_hit(records, key, d + 1, x);
    }
}

/// From `d` slots on, a lookup with no further record that holds the key
/// passes every slot up to the first empty one, and ends there.
proof fn lemma_walk_to_end(records: Seq<Record>, key: Seq<u8>, d: int)
    requires
        valid_records(records),
        key_slots(records, key) > 0,
        0 <= d <= key_reach(records, key),
        forall|y: int| #[trigger]
            is_hit(key_peers(records, key), key, y) ==> dist_of(key_entries(records, key), y)
                < d,
    ensures
        spec_next(cdb_image(records), cursor_at(records, key, d)) == (
            None::<Result<Seq<u8>, CdbError>>,
            cursor_at(records, key, key_reach(records, key)),
        ),
    decreases key_reach(records, key) - d,
{
    lemma_setup(records, key);
    if d == key_reach(records, key) {
        lemma_examine_free(records, key, d);
    } else {
        lemma_pass(records, key, d);
        lemma_walk_to_end(records, key, d + 1);
    }
}

/// The values among the first `c + 1` records are those among the first
/// `c`, and the data of record `c` if it holds the key.
proof fn lemma_values_step(peers: Seq<Record>, key: Seq<u8>, c: int)
    requires
        0 <= c < peers.len(),
    ensures
        values_for(peers.take(c + 1), key) == (if peers[c].key == key {
            values_for(peers.take(c), key).push(peers[c].data)
        } else {
            values_for(peers.take(c), key)
        }),
{
    assert(peers.take(c + 1).drop_last() =~= peers.take(c));
}

/// The values among the first `c` records are the first of all the values.
proof fn lemma_values_prefix(peers: Seq<Record>, key: Seq<u8>, c: int)
    requires
        0 <= c <= peers.len(),
    ensures
        values_for(peers.take(c), key).len() <= values_for(peers, key).len(),
        values_for(peers.take(c), key) == values_for(peers, key).take(
            values_for(peers.take(c), key).len() as int,
        ),
    decreases peers.len() - c,
{
    let all = values_for(peers, key);
    let some = values_for(peers.take(c), key);
    if c == peers.len() {
        assert(peers.take(c) =~= peers);
        assert(all.take(all.len() as int) =~= all);
    } else {
        lemma_values_prefix(peers, key, c + 1);
        lemma_values_step(peers, key, c);
        let more = values_for(peers.take(c + 1), key);
        assert(some =~= more.take(some.len() as int));
        assert(some =~= all.take(some.len() as int));
    }
}

/// While values are still missing among the first `c` records, a further
/// record holds the key. The result is the first such record.
proof fn lemma_next_hit(peers: Seq<Record>, key: Seq<u8>, c: int) -> (x: int)
    requires
        0 <= c <= peers.len(),
        values_for(peers.take(c), key).len() < values_for(peers, key).len(),
    ensures
        c <= x,
        is_hit(peers, key, x),
        forall|y: int| c <= y < x ==> !is_hit(peers, key, y),
        values_for(peers.take(x + 1), key) == values_for(peers.take(c), key).push(peers[x].data),
    decreases peers.len() - c,
{
    if c == peers.len() {
        assert(peers.take(c) =~= peers);
        c
    } else {
        lemma_values_step(peers, key, c);
        if peers[c].key == key {
            c
        } else {
            lemma_next_hit(peers, key, c + 1)
        }
    }
}

/// When all the values are found among the first `c` records, no further
/// record holds the key.
proof fn lemma_no_further_hit(peers: Seq<Record>, key: Seq<u8>, c: int, x: int)
    requires
        0 <= c <= x,
        is_hit(peers, key, x),
    ensures
        values_for(peers.take(c), key).len() < values_for(peers, key).len(),
    decreases x - c,
{
    lemma_values_step(peers, key, c);
    if c < x {
        lemma_no_further_hit(peers, key, c + 1, x);
    } else {
        lemma_values_prefix(peers, key, c + 1);
    }
}

/// A lookup starts at the key's home slot in the hash table of the key's
/// bucket.
proof fn lemma_walk_start(records: Seq<Record>, key: Seq<u8>)
    requires
        valid_records(records),
    ensures
        spec_find(cdb_image(records), key) == cursor_at(records, key, 0),
        key_slots(records, key) > 0 ==> walk_state(records, key, 0, 0, 0),
{
    let peers = key_peers(records, key);
    let n = key_slots(records, key);
    lemma_setup(records, key);
    lemma_descriptor_in_image(records, key_bucket(key));
    if n > 0 {
        lemma_wrap(key_home(records, key), n);
        assert(values_for(peers.take(0), key) =~= values_for(peers, key).take(0));
    }
}

/// One advance of a lookup that has yielded the first `t` values of its
/// key: it yields the next value, or ends when there is none.
proof fn lemma_walk_step(records: Seq<Record>, key: Seq<u8>, t: nat, d: int, c: int) -> (r: (
    int,
    int,
))
    requires
        valid_records(records),
        key_slots(records, key) > 0,
        walk_state(records, key, t, d, c),
    ensures
        walk_state(records, key, t + 1, r.0, r.1),
        nth_item(cdb_image(records), key, t) == (if t < values_for(
            key_peers(records, key),
            key,
        ).len() {
            Some(Ok::<Seq<u8>, CdbError>(values_for(key_peers(records, key), key)[t as int]))
        } else {
            None::<Result<Seq<u8>, CdbError>>
        }),
{
    let entries = key_entries(records, key);
    let peers = key_peers(records, key);
    let values = values_for(peers, key);
    let reach = key_reach(records, key);
    lemma_setup(records, key);
    if t < values.len() {
        let x = lemma_next_hit(peers, key, c);
        lemma_hit(records, key, x);
        assert forall|y: int| #[trigger] is_hit(peers, key, y) implies !(d <= dist_of(entries, y)
            < dist_of(entries, x)) by {
            lemma_hits_in_order(records, key, y, x);
        }
        lemma_walk_to_hit(records, key, d, x);
        lemma_values_prefix(peers, key, x + 1);
        assert(values.take(t as int).push(peers[x].data) == values.take(t as int + 1));
        assert(values.take(t as int + 1)[t as int] == values[t as int]);
        assert forall|y: int| #[trigger] is_hit(peers, key, y) implies (dist_of(entries, y)
            < dist_of(entries, x) + 1 <==> y < x + 1) by {
            lemma_hits_in_order(records, key, y, x);
            lemma_hits_in_order(records, key, x, y);
        }
        (dist_of(entries, x) + 1, x + 1)
    } else {
        assert(values.take(values.len() as int) =~= values);
        assert forall|y: int| #[trigger] is_hit(peers, key, y) implies dist_of(entries, y)
            < d by {
            if c <= y {
                lemma_no_further_hit(peers, key, c, y);
            }
        }
        lemma_walk_to_end(records, key, d);
        assert(peers.take(peers.len() as int) =~= peers);
        assert forall|y: int| #[trigger] is_hit(peers, key, y) implies (dist_of(entries, y)
            < reach <==> y < peers.len()) by {
            lemma_hit(records, key, y);
        }
        (reach, peers.len() as int)
    }
}

/// Where a lookup stands after `t` advances.
proof fn lemma_walk(records: Seq<Record>, key: Seq<u8>, t: nat) -> (r: (int, int))
    requires
        valid_records(records),
        key_slots(records, key) > 0,
    ensures
        walk_state(records, key, t, r.0, r.1),
    decreases t,
{
    if t == 0 {
        lemma_walk_start(records, key);
        (0, 0)
    } else {
        let before = lemma_walk(records, key, (t - 1) as nat);
        lemma_walk_step(records, key, (t - 1) as nat, before.0, before.1)
    }
}

/// A lookup in a bucket without records ends at once, and stays there.
proof fn lemma_walk_nowhere(records: Seq<Record>, key: Seq<u8>, t: nat)
    requires
        valid_records(records),
        key_slots(records, key) == 0,
    ensures
        cursor_after(cdb_image(records), key, t) == cursor_at(records, key, 0),
        nth_item(cdb_image(records), key, t) == None::<Result<Seq<u8>, CdbError>>,
    decreases t,
{
    lemma_walk_start(records, key);
    if t > 0 {
        lemma_walk_nowhere(records, key, (t - 1) as nat);
    }
}

/// Insert, then find: in the finished file of any records that a builder
/// accepts, a lookup of any key yields exactly the values inserted under
/// that key, in insertion order, one for each advance, and after them the
/// end, with no failure.
pub proof fn lemma_insert_then_find(records: Seq<Record>, key: Seq<u8>, t: nat)
    requires
        valid_records(records),
    ensures
        nth_item(cdb_image(records), key, t) == (if t < values_for(records, key).len() {
            Some(Ok::<Seq<u8>, CdbError>(values_for(records, key)[t as int]))
        } else {
            None::<Result<Seq<u8>, CdbError>>
        }),
{
    lemma_values_in_bucket(records, key);
    lemma_setup(records, key);
    if key_slots(records, key) == 0 {
        lemma_walk_nowhere(records, key, t);
        assert(key_peers(records, key) =~= Seq::<Record>::empty());
    } else {
        let at = lemma_walk(records, key, t);
        let after = lemma_walk_step(records, key, t, at.0, at.1);
    }
}

/// No record holds the key: there is no value under it.
pub proof fn lemma_no_values(records: Seq<Record>, key: Seq<u8>)
    requires
        forall|j: int| 0 <= j < records.len() ==> (#[trigger] records[j]).key != key,
    ensures
        values_for(records, key) == Seq::<Seq<u8>>::empty(),
    decreases records.len(),
{
    if records.len() > 0 {
        assert(records.last() == records[records.len() - 1]);
        assert forall|j: int| 0 <= j < records.drop_last().len() implies (
        #[trigger] records.drop_last()[j]).key != key by {
            assert(records.drop_last()[j] == records[j]);
        }
        lemma_no_values(records.drop_last(), key);
    }
}

/// A miss: the lookup of a key that was never inserted ends at its first
/// advance, with no failure.
pub proof fn lemma_miss(records: Seq<Record>, key: Seq<u8>)
    requires
        valid_records(records),
        forall|j: int| 0 <= j < records.len() ==> (#[trigger] records[j]).key != key,
    ensures
        nth_item(cdb_image(records), key, 0) == None::<Result<Seq<u8>, CdbError>>,
{
    lemma_no_values(records, key);
    lemma_insert_then_find(records, key, 0);
}

/// Duplicate keys are kept: after a key was inserted with one value and
/// then with another, its lookup yields the first value, then the second,
/// then the end.
pub proof fn lemma_duplicates_kept(key: Seq<u8>, first: Seq<u8>, second: Seq<u8>)
    requires
        valid_records(seq![Record { key, data: first }, Record { key, data: second }]),
    ensures
        ({
            let img = cdb_image(seq![Record { key, data: first }, Record { key, data: second }]);
            &&& nth_item(img, key, 0) == Some(Ok::<Seq<u8>, CdbError>(first))
            &&& nth_item(img, key, 1) == Some(Ok::<Seq<u8>, CdbError>(second))
            &&& nth_item(img, key, 2) == None::<Result<Seq<u8>, CdbError>>
        }),
{
    let records = seq![Record { key, data: first }, Record { key, data: second }];
    let one = records.drop_last();
    let none = one.drop_last();
    assert(none.len() == 0);
    assert(values_for(none, key) =~= Seq::<Seq<u8>>::empty());
    assert(one.len() == 1 && one.last() == Record { key, data: first });
    assert(values_for(one, key) =~= seq![first]);
    assert(records.len() == 2 && records.last() == Record { key, data: second });
    assert(values_for(records, key) =~= seq![first, second]);
    lemma_insert_then_find(records, key, 0);
    lemma_insert_then_find(records, key, 1);
    lemma_insert_then_find(records, key, 2);
}

} // verus!
