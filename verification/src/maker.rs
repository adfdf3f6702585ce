//! The builder's bookkeeping, apart from any sink: which record went where,
//! and from that the hash tables and the header that finish the file.
//!
//! Whoever owns the sink reserves the 2048 bytes of the header, writes for
//! each accepted record the prefix that `insert` returns, then the key and
//! the data, and at the end what `flush` returns: the hash tables behind the
//! last record, the header at offset 0.

use vstd::prelude::*;
use crate::error::CdbError;
use crate::format::{
    acceptable, all_slots, bucket, encode_pairs, end_pos, header_bytes, header_pairs, image_size,
    lemma_bucket_entries, lemma_encode_pairs_push, lemma_records_size, lemma_slots_before,
    lemma_table_pos, meta_of, slots_before, table_pos, tables_bytes, Meta, Record, BUCKET_COUNT,
    HEADER_SIZE, MAX_FILE_SIZE,
};
use crate::hash::hash;
use crate::table::{
    bucket_table, empty_slot, fill, home_of, lemma_fill_has_room, lemma_home_slot_in_range,
    lemma_probe, lemma_probe_skip, lemma_slot_at_in_range, lemma_wrap, place, positions_nonzero,
    probe, slot_at, taken,
};
use crate::uint32::{spec_pack2, uint32_pack2};

verus! {

/// The failure of a file that would grow past its greatest length.
pub fn file_too_big_err<T>() -> (r: Result<T, CdbError>)
    ensures
        r == Err::<T, CdbError>(CdbError::FileTooLarge),
{
    Err(CdbError::FileTooLarge)
}

/// The position `len` bytes behind `pos`, unless it lies past the greatest
/// length of a file.
pub fn pos_plus(pos: u32, len: u32) -> (r: Result<u32, CdbError>)
    ensures
        pos + len <= 0xffff_ffff ==> r == Ok::<u32, CdbError>((pos + len) as u32),
        pos + len > 0xffff_ffff ==> r == Err::<u32, CdbError>(CdbError::FileTooLarge),
{
    if len > MAX_FILE_SIZE - pos {
        file_too_big_err()
    } else {
        Ok(pos + len)
    }
}

/// What a builder has been given so far, and whether it still takes more.
pub struct MakerState {
    /// Of each record accepted so far what the layout depends on.
    pub metas: Seq<Meta>,
    /// Whether records are still accepted: true until `flush` succeeds.
    pub open: bool,
}

/// The bookkeeping of a builder.
pub struct CdbMaker {
    entries: Vec<Vec<(u32, u32)>>,
    pos: u32,
    open: bool,
    metas: Ghost<Seq<Meta>>,
}

impl View for CdbMaker {
    type V = MakerState;

    closed spec fn view(&self) -> MakerState {
        MakerState { metas: self.metas@, open: self.open }
    }
}

impl CdbMaker {
    /// The write cursor: where the next byte of the file goes.
    pub closed spec fn cursor(&self) -> int {
        self.pos as int
    }

    /// The buckets list the records accepted so far, each under the low
    /// eight bits of its hash, and the cursor stands behind what was written.
    pub closed spec fn wf(&self) -> bool {
        &&& self.entries@.len() == 256
        &&& forall|b: int|
            0 <= b < 256 ==> (#[trigger] self.entries@[b])@ == bucket(self.metas@, b)
        &&& end_pos(self.metas@) <= 0xffff_ffff
        &&& self.open ==> self.pos == end_pos(self.metas@)
        &&& !self.open ==> self.pos == image_size(self.metas@)
    }

    /// While records are accepted the cursor stands behind the last record,
    /// and afterwards at the end of the file.
    pub proof fn lemma_cursor(&self)
        requires
            self.wf(),
        ensures
            self@.open ==> self.cursor() == end_pos(self@.metas),
            !self@.open ==> self.cursor() == image_size(self@.metas),
            end_pos(self@.metas) <= 0xffff_ffff,
            0 <= self.cursor() <= 0xffff_ffff,
    {
    }

    /// A builder with no records, its cursor behind the reserved header.
    pub fn new() -> (m: Self)
        ensures
            m.wf(),
            m@.open,
            m@.metas == Seq::<Meta>::empty(),
            m.cursor() == 2048,
    {
        let mut entries: Vec<Vec<(u32, u32)>> = Vec::new();
        while entries.len() < BUCKET_COUNT
            invariant
                entries@.len() <= 256,
                forall|b: int| 0 <= b < entries@.len() ==> (#[trigger] entries@[b])@.len() == 0,
            decreases 256 - entries@.len(),
        {
            entries.push(Vec::new());
        }
        let m = CdbMaker { entries, pos: HEADER_SIZE, open: true, metas: Ghost(Seq::empty()) };
        assert forall|b: int| 0 <= b < 256 implies (#[trigger] m.entries@[b])@ == bucket(
            m.metas@,
            b,
        ) by {
            assert(m.entries@[b]@ =~= bucket(m.metas@, b));
        }
        m
    }

    /// The eight bytes that go before a record's key: the two lengths.
    pub fn insert_start(&self, key_len: u32, data_len: u32) -> (prefix: [u8; 8])
        ensures
            prefix@ == spec_pack2(key_len, data_len),
    {
        let mut buf: [u8; 8] = [0u8; 8];
        uint32_pack2(&mut buf, key_len, data_len);
        buf
    }

    /// Lists a record of the given lengths and hash at the cursor and moves
    /// the cursor behind it; leaves the builder as it was when the cursor
    /// would pass the greatest length of a file.
    pub fn insert_end(&mut self, key_len: u32, data_len: u32, hash: u32) -> (r: Result<
        (),
        CdbError,
    >)
        requires
            old(self).wf(),
            old(self)@.open,
        ensures
            final(self).wf(),
            old(self).cursor() + 8 + key_len + data_len <= 0xffff_ffff ==> r is Ok && final(self)@
                == (MakerState {
                metas: old(self)@.metas.push(Meta { hash: hash, klen: key_len, dlen: data_len }),
                open: true,
            }) && final(self).cursor() == old(self).cursor() + 8 + key_len + data_len,
            old(self).cursor() + 8 + key_len + data_len > 0xffff_ffff ==> r == Err::<(), CdbError>(
                CdbError::FileTooLarge,
            ) && final(self)@ == old(self)@ && final(self).cursor() == old(self).cursor(),
    {
        let after_prefix: u32 = match pos_plus(self.pos, 8) {
            Ok(p) => p,
            Err(e) => {
                return Err(e);
            },
        };
        let after_key: u32 = match pos_plus(after_prefix, key_len) {
            Ok(p) => p,
            Err(e) => {
                return Err(e);
            },
        };
        let after_data: u32 = match pos_plus(after_key, data_len) {
            Ok(p) => p,
            Err(e) => {
                return Err(e);
            },
        };
        let ghost before = self.metas@;
        let ghost m = Meta { hash: hash, klen: key_len, dlen: data_len };
        let b: usize = (hash & 0xff) as usize;
        assert(hash & 0xff == hash % 256) by (bit_vector);
        self.entries[b].push((hash, self.pos));
        self.pos = after_data;
        self.metas = Ghost(before.push(m));
        proof {
            assert(before.push(m).drop_last() =~= before);
            assert forall|c: int| 0 <= c < 256 implies (#[trigger] self.entries@[c])@ == bucket(
                self.metas@,
                c,
            ) by {
                assert(old(self).entries@[c]@ == bucket(before, c));
            }
        }
        Ok(())
    }

    /// Accepts a record and returns the eight bytes that the sink must get
    /// before the key and the data.
    ///
    /// A key or a value of 2^32 - 1 bytes or more is refused as
    /// `ArgumentTooLarge`; a record that would move the cursor past
    /// 2^32 - 1 as `FileTooLarge`. A refused record leaves the builder as it
    /// was.
    pub fn insert(&mut self, key: &[u8], data: &[u8]) -> (r: Result<[u8; 8], CdbError>)
        requires
            old(self).wf(),
            old(self)@.open,
        ensures
            final(self).wf(),
            r is Ok <==> acceptable(Record { key: key@, data: data@ }) && old(self).cursor() + 8
                + key@.len() + data@.len() <= 0xffff_ffff,
            r == Err::<[u8; 8], CdbError>(CdbError::ArgumentTooLarge) <==> !acceptable(
                Record { key: key@, data: data@ },
            ),
            r == Err::<[u8; 8], CdbError>(CdbError::FileTooLarge) <==> acceptable(
                Record { key: key@, data: data@ },
            ) && old(self).cursor() + 8 + key@.len() + data@.len() > 0xffff_ffff,
            r is Err ==> final(self)@ == old(self)@ && final(self).cursor() == old(self).cursor(),
            r is Ok ==> r.unwrap()@ == spec_pack2(key@.len() as u32, data@.len() as u32)
                && final(self)@ == (MakerState {
                metas: old(self)@.metas.push(meta_of(Record { key: key@, data: data@ })),
                open: true,
            }) && final(self).cursor() == old(self).cursor() + 8 + key@.len() + data@.len(),
    {
        if key.len() >= 0xffff_ffff || data.len() >= 0xffff_ffff {
            Err(CdbError::ArgumentTooLarge)
        } else {
            let key_len: u32 = key.len() as u32;
            let data_len: u32 = data.len() as u32;
            let prefix: [u8; 8] = self.insert_start(key_len, data_len);
            match self.insert_end(key_len, data_len, hash(key)) {
                Ok(()) => Ok(prefix),
                Err(e) => Err(e),
            }
        }
    }

    /// Finishes the file: returns the bytes of the 256 hash tables, which go
    /// behind the last record, and the 2048 bytes of the header, which go to
    /// offset 0.
    ///
    /// Fails with `FileTooLarge`, and leaves the builder as it was, exactly
    /// when the finished file would be longer than 2^32 - 1 bytes. After
    /// success the builder takes no more records.
    pub fn flush(&mut self) -> (r: Result<(Vec<u8>, Vec<u8>), CdbError>)
        requires
            old(self).wf(),
            old(self)@.open,
        ensures
            final(self).wf(),
            r is Err <==> image_size(old(self)@.metas) > 0xffff_ffff,
            r is Err ==> r == Err::<(Vec<u8>, Vec<u8>), CdbError>(CdbError::FileTooLarge)
                && final(self)@ == old(self)@ && final(self).cursor() == old(self).cursor(),
            r is Ok ==> r.unwrap().0@ == tables_bytes(old(self)@.metas) && r.unwrap().1@
                == header_bytes(old(self)@.metas) && final(self)@ == (MakerState {
                metas: old(self)@.metas,
                open: false,
            }),
    {
        let ghost ms = self.metas@;
        proof {
            lemma_records_size(ms, ms.len() as int);
            assert(ms.take(ms.len() as int) =~= ms);
        }
        let mut maxsize: usize = 1;
        let mut count: usize = 0;
        let mut i: usize = 0;
        while i < BUCKET_COUNT
            invariant
                self.wf(),
                self.metas@ == ms,
                i <= 256,
                1 <= maxsize,
                maxsize <= 2 * ms.len() || maxsize == 1,
                forall|c: int| 0 <= c < i ==> 2 * bucket(ms, c).len() <= maxsize,
                2 * count == slots_before(ms, i as int),
                8 * ms.len() + 2048 <= 0xffff_ffff,
            decreases 256 - i,
        {
            proof {
                lemma_bucket_entries(ms, i as int);
                lemma_slots_before(ms, i as int + 1, 256);
            }
            let len: usize = self.entries[i].len();
            if len * 2 > maxsize {
                maxsize = len * 2;
            }
            count = count + len;
            i = i + 1;
        }
        proof {
            lemma_slots_before(ms, 0, 256);
        }
        if maxsize + count > 0x2000_0000 {
            return file_too_big_err();
        }
        let mut table: Vec<(u32, u32)> = Vec::new();
        while table.len() < maxsize
            invariant
                table@.len() <= maxsize,
                forall|s: int| 0 <= s < table@.len() ==> table@[s] == empty_slot(),
            decreases maxsize - table@.len(),
        {
            table.push((0u32, 0u32));
        }
        let mut header: Vec<u8> = Vec::new();
        let mut tables: Vec<u8> = Vec::new();
        let mut pos: u32 = self.pos;
        let mut buf: [u8; 8] = [0u8; 8];
        let mut b: usize = 0;
        while b < BUCKET_COUNT
            invariant
                self.wf(),
                self.metas@ == ms,
                self.open,
                *self == *old(self),
                b <= 256,
                table@.len() == maxsize,
                forall|c: int| 0 <= c < 256 ==> 2 * bucket(ms, c).len() <= maxsize,
                forall|s: int| 0 <= s < table@.len() ==> table@[s] == empty_slot(),
                header@ == encode_pairs(header_pairs(ms, b as int)),
                tables@ == encode_pairs(all_slots(ms, b as int)),
                pos == table_pos(ms, b as int),
                8 * ms.len() + 2048 <= 0xffff_ffff,
            decreases 256 - b,
        {
            let ghost entries = bucket(ms, b as int);
            let ghost n = (2 * entries.len()) as int;
            proof {
                lemma_bucket_entries(ms, b as int);
                lemma_table_pos(ms, b as int);
            }
            let count_b: usize = self.entries[b].len();
            let len: usize = count_b * 2;
            uint32_pack2(&mut buf, pos, len as u32);
            header.extend_from_slice(&buf);
            proof {
                lemma_encode_pairs_push(header_pairs(ms, b as int), (pos, len as u32));
                assert(header@ =~= encode_pairs(header_pairs(ms, b as int + 1)));
            }
            let mut k: usize = 0;
            while k < count_b
                invariant
                    self.wf(),
                    self.metas@ == ms,
                    *self == *old(self),
                    b < 256,
                    entries == bucket(ms, b as int),
                    self.entries@[b as int]@ == entries,
                    positions_nonzero(entries),
                    count_b == entries.len(),
                    len == 2 * count_b,
                    n == len,
                    k <= count_b,
                    len <= table@.len() == maxsize,
                    table@.subrange(0, n) == fill(entries, k as int),
                    forall|s: int| n <= s < table@.len() ==> table@[s] == empty_slot(),
                decreases count_b - k,
            {
                let e: (u32, u32) = self.entries[b][k];
                let ghost t = table@.subrange(0, n);
                let ghost start = home_of(entries, k as int);
                let mut wh: usize = ((e.0 >> 8) as usize) % len;
                let ghost mut d: int = 0;
                proof {
                    lemma_home_slot_in_range(e.0, n);
                    lemma_fill_has_room(entries, k as int, start);
                    lemma_wrap(start, n);
                }
                while table[wh].1 != 0
                    invariant
                        0 <= d < n,
                        0 <= start < n,
                        n == len,
                        t.len() == n,
                        len <= table@.len(),
                        t == table@.subrange(0, n),
                        wh == slot_at(start, d, n),
                        wh < len,
                        forall|x: int| 0 <= x < d ==> #[trigger] taken(t, start, x),
                        probe(t, start, 0) < n,
                    decreases n - d,
                {
                    proof {
                        assert(taken(t, start, d));
                        lemma_probe_skip(t, start, 0, d + 1);
                        lemma_probe(t, start, d + 1);
                        lemma_slot_at_in_range(start, d, n);
                        lemma_slot_at_in_range(start, d + 1, n);
                        d = d + 1;
                    }
                    wh = wh + 1;
                    if wh == len {
                        wh = 0;
                    }
                }
                proof {
                    assert(!taken(t, start, d));
                    lemma_probe_skip(t, start, 0, d);
                    assert(probe(t, start, 0) == d);
                }
                table[wh] = e;
                proof {
                    assert(table@.subrange(0, n) =~= place(t, e));
                }
                k = k + 1;
            }
            let ghost filled = bucket_table(entries);
            let mut s: usize = 0;
            while s < len
                invariant
                    s <= len,
                    n == len,
                    len <= table@.len() == maxsize,
                    filled.len() == n,
                    forall|x: int| 0 <= x < s ==> table@[x] == empty_slot(),
                    forall|x: int| s <= x < n ==> table@[x] == filled[x],
                    forall|x: int| n <= x < table@.len() ==> table@[x] == empty_slot(),
                    tables@ == encode_pairs(all_slots(ms, b as int) + filled.take(s as int)),
                    pos == table_pos(ms, b as int) + 8 * s,
                    *self == *old(self),
                    self.wf(),
                    self.metas@ == ms,
                    table_pos(ms, b as int) + 8 * n <= image_size(ms),
                decreases len - s,
            {
                let hp: (u32, u32) = table[s];
                uint32_pack2(&mut buf, hp.0, hp.1);
                tables.extend_from_slice(&buf);
                pos = match pos_plus(pos, 8) {
                    Ok(p) => p,
                    Err(e) => {
                        return Err(e);
                    },
                };
                table[s] = (0u32, 0u32);
                proof {
                    let sofar = all_slots(ms, b as int) + filled.take(s as int);
                    lemma_encode_pairs_push(sofar, hp);
                    assert(sofar.push(hp) =~= all_slots(ms, b as int) + filled.take(s as int + 1));
                }
                s = s + 1;
            }
            proof {
                assert(filled.take(n) =~= filled);
            }
            b = b + 1;
        }
        proof {
            lemma_table_pos(ms, 255);
        }
        self.pos = pos;
        self.open = false;
        Ok((tables, header))
    }
}

} // verus!
