//! Lookup in a finished file: from a key's hash to its bucket's hash table,
//! along the table from the key's home slot, and for each slot with the
//! key's hash to the record, whose key is compared and whose data is handed
//! out.
//!
//! The reader works on the bytes of the file, whatever they are: a position
//! that lies past the end of the file is reported as `InvalidFileFormat`,
//! never followed.

use vstd::prelude::*;
use vstd::slice::{slice_subrange, slice_to_vec};
use crate::error::CdbError;
use crate::hash::{hash, spec_hash};
use crate::table::home_slot;
use crate::uint32::{spec_unpack2, uint32_unpack2};

verus! {

/// The number of key bytes that are compared at a time.
pub const KEY_SIZE: usize = 32;

/// The length of the shortest file that a reader takes: a header and room
/// for one record and its two slots.
pub const MIN_FILE_SIZE: u64 = 2064;

/// The pair of integers held in the eight bytes at `pos`.
pub open spec fn pair_at(data: Seq<u8>, pos: int) -> (u32, u32) {
    spec_unpack2(data.subrange(pos, pos + 8))
}

/// Where a lookup stands: the key it looks for, and its place in the hash
/// table of the key's bucket.
pub struct Cursor {
    /// The key looked for.
    pub key: Seq<u8>,
    /// Its hash.
    pub khash: u32,
    /// The number of slots passed so far.
    pub kloop: int,
    /// The position of the slot to look at next.
    pub kpos: int,
    /// The position of the hash table.
    pub hpos: int,
    /// The number of slots in the hash table.
    pub hslots: int,
}

/// The descriptor of the bucket of `khash`, and the position of the home
/// slot of `khash` in that bucket's table: 0 when the table has no slots.
pub open spec fn spec_hash_table(data: Seq<u8>, khash: u32) -> (u32, u32, int) {
    let (hpos, hslots) = pair_at(data, (khash as int % 256) * 8);
    let kpos = if hslots == 0 {
        0
    } else {
        hpos + home_slot(khash, hslots as int) * 8
    };
    (hpos, hslots, kpos)
}

/// The cursor that a lookup of `key` starts with.
pub open spec fn spec_find(data: Seq<u8>, key: Seq<u8>) -> Cursor {
    let khash = spec_hash(key);
    let (hpos, hslots, kpos) = spec_hash_table(data, khash);
    Cursor { key, khash, kloop: 0, kpos, hpos: hpos as int, hslots: hslots as int }
}

/// The end of the chunk of key bytes that byte `i` is compared in.
pub open spec fn chunk_end(klen: int, i: int) -> int {
    if (i / 32) * 32 + 32 < klen {
        (i / 32) * 32 + 32
    } else {
        klen
    }
}

/// Byte `i` of the key is compared with the file, because its chunk lies
/// inside the file, and differs.
pub open spec fn mismatch_at(data: Seq<u8>, key: Seq<u8>, pos: int, i: int) -> bool {
    &&& 0 <= i < key.len()
    &&& pos + chunk_end(key.len() as int, i) <= data.len()
    &&& data[pos + i] != key[i]
}

/// Whether the bytes at `pos` are `key`, compared in chunks of 32 bytes
/// from the first on: false at the first chunk that differs, a failure at
/// the first chunk that lies past the end of the file.
pub open spec fn spec_match_key(data: Seq<u8>, key: Seq<u8>, pos: int) -> Result<bool, CdbError> {
    if exists|i: int| mismatch_at(data, key, pos, i) {
        Ok(false)
    } else if key.len() > 0 && pos + key.len() > data.len() {
        Err(CdbError::InvalidFileFormat)
    } else {
        Ok(true)
    }
}

/// What a lookup finds at one slot.
pub enum SlotOutcome {
    /// The slot is empty: the lookup is over.
    End,
    /// The slot lies past the end of the file.
    Unreadable,
    /// The slot holds another hash or the record another key.
    Skip,
    /// The slot holds the key's hash, but its record lies past the end of
    /// the file.
    Broken,
    /// The record holds the key, and this is its data.
    Hit(Seq<u8>),
}

/// What a lookup of `key` finds at the slot at `kpos`.
pub open spec fn examine(data: Seq<u8>, key: Seq<u8>, khash: u32, kpos: int) -> SlotOutcome {
    if kpos + 8 > data.len() {
        SlotOutcome::Unreadable
    } else {
        let (h, rpos) = pair_at(data, kpos);
        if rpos == 0 {
            SlotOutcome::End
        } else if h != khash {
            SlotOutcome::Skip
        } else if rpos + 8 > data.len() {
            SlotOutcome::Broken
        } else {
            let (klen, dlen) = pair_at(data, rpos as int);
            if klen != key.len() {
                SlotOutcome::Skip
            } else {
                match spec_match_key(data, key, rpos + 8) {
                    Err(_) => SlotOutcome::Broken,
                    Ok(false) => SlotOutcome::Skip,
                    Ok(true) => if rpos + 8 + klen + dlen > data.len() {
                        SlotOutcome::Broken
                    } else {
                        SlotOutcome::Hit(data.subrange(rpos + 8 + klen, rpos + 8 + klen + dlen))
                    },
                }
            }
        }
    }
}

/// The cursor one slot further, back at the table's first slot behind its
/// last.
pub open spec fn bump(c: Cursor) -> Cursor {
    Cursor {
        kloop: c.kloop + 1,
        kpos: if c.kpos + 8 == c.hpos + 8 * c.hslots {
            c.hpos
        } else {
            c.kpos + 8
        },
        ..c
    }
}

/// One advance of a lookup: what it yields and where it stands afterwards.
///
/// It passes the slots that hold another hash or another key. It ends, and
/// stays where it is, at an empty slot or when it has passed as many slots
/// as the table has. It yields the data of the first record that holds the
/// key and stands behind that record's slot. A slot past the end of the
/// file is reported without passing it; a record past the end of the file
/// is reported and its slot passed.
pub open spec fn spec_next(data: Seq<u8>, c: Cursor) -> (Option<Result<Seq<u8>, CdbError>>, Cursor)
    decreases c.hslots - c.kloop,
{
    if c.kloop >= c.hslots {
        (None, c)
    } else {
        match examine(data, c.key, c.khash, c.kpos) {
            SlotOutcome::End => (None, c),
            SlotOutcome::Unreadable => (Some(Err(CdbError::InvalidFileFormat)), c),
            SlotOutcome::Skip => spec_next(data, bump(c)),
            SlotOutcome::Broken => (Some(Err(CdbError::InvalidFileFormat)), bump(c)),
            SlotOutcome::Hit(v) => (Some(Ok(v)), bump(c)),
        }
    }
}

/// What an advance yields, with the data as a sequence of bytes.
pub open spec fn item_view(r: Option<Result<Vec<u8>, CdbError>>) -> Option<
    Result<Seq<u8>, CdbError>,
> {
    match r {
        None => None,
        Some(Ok(v)) => Some(Ok(v@)),
        Some(Err(e)) => Some(Err(e)),
    }
}

/// The failure of a file that is no constant database.
pub fn invalid_file_format_err<T>() -> (r: Result<T, CdbError>)
    ensures
        r == Err::<T, CdbError>(CdbError::InvalidFileFormat),
{
    Err(CdbError::InvalidFileFormat)
}

/// A reader of the bytes of a finished file.
#[derive(Clone, Copy)]
pub struct CdbReader<'a> {
    data: &'a [u8],
}

impl<'a> View for CdbReader<'a> {
    type V = Seq<u8>;

    closed spec fn view(&self) -> Seq<u8> {
        self.data@
    }
}

impl<'a> CdbReader<'a> {
    /// The file has room for the header, one record and its slots, and is
    /// no longer than 2^32 - 1 bytes.
    pub open spec fn wf(&self) -> bool {
        2064 <= self@.len() <= 0xffff_ffff
    }

    /// Whether a file of `size` bytes can be a constant database: it is
    /// refused when it is shorter than 2048 + 16 bytes or longer than
    /// 2^32 - 1 bytes.
    pub fn check_size(size: u64) -> (r: Result<(), CdbError>)
        ensures
            r is Ok <==> 2064 <= size <= 0xffff_ffff,
            r is Err ==> r == Err::<(), CdbError>(CdbError::InvalidFileFormat),
    {
        if size < MIN_FILE_SIZE || size > 0xffff_ffff {
            return invalid_file_format_err();
        }
        Ok(())
    }

    /// A reader of `data`, unless `data` is shorter than 2048 + 16 bytes or
    /// longer than 2^32 - 1 bytes.
    pub fn new(data: &'a [u8]) -> (r: Result<Self, CdbError>)
        ensures
            r is Ok <==> 2064 <= data@.len() <= 0xffff_ffff,
            r is Err ==> r == Err::<Self, CdbError>(CdbError::InvalidFileFormat),
            r is Ok ==> r.unwrap()@ == data@ && r.unwrap().wf(),
    {
        match Self::check_size(data.len() as u64) {
            Ok(()) => Ok(CdbReader { data }),
            Err(e) => Err(e),
        }
    }

    /// Starts a lookup of all records with the given key.
    pub fn find(&self, key: &[u8]) -> (it: CdbIter<'a>)
        requires
            self.wf(),
        ensures
            it.wf(),
            it.data() == self@,
            it@ == spec_find(self@, key@),
    {
        CdbIter::find(*self, key)
    }

    /// Copies the `n` bytes at `pos` into the front of `buf`, unless they
    /// reach past the end of the file.
    fn read_prefix(&self, buf: &mut [u8], n: usize, pos: u64) -> (r: Result<usize, CdbError>)
        requires
            n <= old(buf)@.len(),
        ensures
            final(buf)@.len() == old(buf)@.len(),
            pos + n > self@.len() ==> r == Err::<usize, CdbError>(CdbError::InvalidFileFormat)
                && final(buf)@ == old(buf)@,
            pos + n <= self@.len() ==> r == Ok::<usize, CdbError>(n) && final(buf)@
                == self@.subrange(pos as int, pos + n) + old(buf)@.skip(n as int),
    {
        let size: usize = self.data.len();
        if n > size || pos > (size - n) as u64 {
            return invalid_file_format_err();
        }
        let start: usize = pos as usize;
        let mut i: usize = 0;
        while i < n
            invariant
                i <= n,
                start + n <= size,
                size == self.data@.len(),
                buf@.len() == old(buf)@.len(),
                n <= buf@.len(),
                forall|j: int| 0 <= j < i ==> buf@[j] == self.data@[start + j],
                forall|j: int| i <= j < buf@.len() ==> buf@[j] == old(buf)@[j],
            decreases n - i,
        {
            buf[i] = self.data[start + i];
            i = i + 1;
        }
        assert(buf@ =~= self@.subrange(pos as int, pos + n) + old(buf)@.skip(n as int));
        Ok(n)
    }

    /// Fills `buf` with the bytes at `pos`, unless they reach past the end
    /// of the file.
    pub fn read(&self, buf: &mut [u8], pos: u64) -> (r: Result<usize, CdbError>)
        ensures
            final(buf)@.len() == old(buf)@.len(),
            pos + old(buf)@.len() > self@.len() ==> r == Err::<usize, CdbError>(
                CdbError::InvalidFileFormat,
            ) && final(buf)@ == old(buf)@,
            pos + old(buf)@.len() <= self@.len() ==> r == Ok::<usize, CdbError>(
                old(buf)@.len() as usize,
            ) && final(buf)@ == self@.subrange(pos as int, pos + old(buf)@.len()),
    {
        let n: usize = buf.len();
        let r = self.read_prefix(buf, n, pos);
        assert(old(buf)@.skip(n as int) =~= Seq::<u8>::empty());
        assert(pos + n <= self@.len() ==> buf@ =~= self@.subrange(pos as int, pos + n));
        r
    }

    /// Reads the descriptor of the bucket of `khash` from the header, and
    /// computes the position of the home slot of `khash`.
    pub fn hash_table(&self, khash: u32) -> (r: (u32, u32, u64))
        requires
            self.wf(),
        ensures
            (r.0, r.1, r.2 as int) == spec_hash_table(self@, khash),
    {
        let x: usize = ((khash % 256) as usize) * 8;
        let (hpos, hslots) = uint32_unpack2(slice_subrange(self.data, x, x + 8));
        let kpos: u64 = if hslots > 0 {
            hpos as u64 + (((khash >> 8) % hslots) as u64) * 8
        } else {
            0
        };
        (hpos, hslots, kpos)
    }

    /// Compares `key` with the bytes at `pos`, 32 bytes at a time.
    pub fn match_key(&self, key: &[u8], pos: u64) -> (r: Result<bool, CdbError>)
        ensures
            r == spec_match_key(self@, key@, pos as int),
    {
        let mut buf: [u8; 32] = [0u8; 32];
        let size: usize = self.data.len();
        let mut len: usize = key.len();
        let mut at: u64 = pos;
        let mut keypos: usize = 0;
        while len > 0
            invariant
                size == self@.len(),
                key@.len() <= usize::MAX,
                keypos + len == key@.len(),
                at == pos + keypos,
                len > 0 ==> keypos % 32 == 0,
                keypos > 0 ==> pos + keypos <= self@.len(),
                forall|i: int| 0 <= i < keypos ==> !mismatch_at(self@, key@, pos as int, i),
            decreases len,
        {
            let n: usize = if len < KEY_SIZE {
                len
            } else {
                KEY_SIZE
            };
            assert forall|i: int| keypos <= i < key@.len() implies chunk_end(key@.len() as int, i)
                >= keypos + n by {
                assert((i / 32) * 32 >= keypos);
            }
            assert forall|i: int| keypos <= i < keypos + n implies chunk_end(key@.len() as int, i)
                == keypos + n by {
                assert((i / 32) * 32 == keypos);
            }
            match self.read_prefix(&mut buf, n, at) {
                Err(e) => {
                    assert(!exists|i: int| mismatch_at(self@, key@, pos as int, i));
                    return Err(e);
                },
                Ok(_) => {},
            }
            let mut j: usize = 0;
            while j < n
                invariant
                    j <= n,
                    n <= 32,
                    key@.len() <= usize::MAX,
                    keypos + n <= key@.len(),
                    buf@.len() == 32,
                    at == pos + keypos,
                    at + n <= self@.len(),
                    forall|x: int| 0 <= x < n ==> buf@[x] == self@[at + x],
                    forall|i: int|
                        keypos <= i < keypos + n ==> chunk_end(key@.len() as int, i) == keypos + n,
                    forall|x: int| 0 <= x < j ==> buf@[x] == key@[keypos + x],
                decreases n - j,
            {
                if buf[j] != key[keypos + j] {
                    assert(buf@[j as int] == self@[at + j]);
                    assert(mismatch_at(self@, key@, pos as int, keypos + j));
                    return Ok(false);
                }
                j = j + 1;
            }
            assert forall|i: int| keypos <= i < keypos + n implies !mismatch_at(
                self@,
                key@,
                pos as int,
                i,
            ) by {
                let x = i - keypos;
                assert(buf@[x] == key@[keypos + x]);
                assert(buf@[x] == self@[at + x]);
            }
            at = at + n as u64;
            keypos = keypos + n;
            len = len - n;
        }
        assert(!exists|i: int| mismatch_at(self@, key@, pos as int, i));
        Ok(true)
    }
}

/// A lookup in progress: each advance yields the data of the next record
/// with the key.
pub struct CdbIter<'a> {
    cdb: CdbReader<'a>,
    key: Vec<u8>,
    khash: u32,
    kloop: u32,
    kpos: u64,
    hpos: u32,
    hslots: u32,
}

impl<'a> View for CdbIter<'a> {
    type V = Cursor;

    closed spec fn view(&self) -> Cursor {
        Cursor {
            key: self.key@,
            khash: self.khash,
            kloop: self.kloop as int,
            kpos: self.kpos as int,
            hpos: self.hpos as int,
            hslots: self.hslots as int,
        }
    }
}

impl<'a> CdbIter<'a> {
    /// The bytes of the file that the lookup reads.
    pub closed spec fn data(&self) -> Seq<u8> {
        self.cdb@
    }

    /// The reader is sound, and the cursor stands on a slot of its table.
    pub closed spec fn wf(&self) -> bool {
        &&& self.cdb.wf()
        &&& self.kloop <= self.hslots
        &&& self.hslots > 0 ==> self.hpos <= self.kpos < self.hpos + 8 * self.hslots && (self.kpos
            - self.hpos) % 8 == 0
    }

    fn find(cdb: CdbReader<'a>, key: &[u8]) -> (it: Self)
        requires
            cdb.wf(),
        ensures
            it.wf(),
            it.data() == cdb@,
            it@ == spec_find(cdb@, key@),
    {
        let khash: u32 = hash(key);
        let (hpos, hslots, kpos) = cdb.hash_table(khash);
        let key: Vec<u8> = slice_to_vec(key);
        proof {
            if hslots > 0 {
                vstd::arithmetic::div_mod::lemma_mod_bound((khash >> 8) as int, hslots as int);
            }
        }
        CdbIter { cdb, key, khash, kloop: 0, kpos, hpos, hslots }
    }

    /// Reads the `dlen` bytes at `dpos`.
    fn read_vec(&self, dpos: u64, dlen: u32) -> (r: Result<Vec<u8>, CdbError>)
        ensures
            dpos + dlen > self.data().len() ==> r == Err::<Vec<u8>, CdbError>(
                CdbError::InvalidFileFormat,
            ),
            dpos + dlen <= self.data().len() ==> r is Ok && r.unwrap()@ == self.data().subrange(
                dpos as int,
                dpos + dlen,
            ),
    {
        let mut result: Vec<u8> = vec![0u8; dlen as usize];
        match self.cdb.read(result.as_mut_slice(), dpos) {
            Err(e) => Err(e),
            Ok(_) => Ok(result),
        }
    }

    /// Advances the lookup: yields the data of the next record that holds
    /// the key, `None` when there is no further one, or the failure of a
    /// position past the end of the file.
    pub fn next(&mut self) -> (r: Option<Result<Vec<u8>, CdbError>>)
        requires
            old(self).wf(),
        ensures
            final(self).wf(),
            final(self).data() == old(self).data(),
            (item_view(r), final(self)@) == spec_next(old(self).data(), old(self)@),
    {
        while self.kloop < self.hslots
            invariant
                self.wf(),
                self.cdb == old(self).cdb,
                spec_next(self.cdb@, self@) == spec_next(old(self).cdb@, old(self)@),
            decreases self.hslots - self.kloop,
        {
            let mut buf: [u8; 8] = [0u8; 8];
            let kpos: u64 = self.kpos;
            match self.cdb.read(&mut buf, kpos) {
                Err(e) => {
                    return Some(Err(e));
                },
                Ok(_) => {},
            }
            let (khash, pos) = uint32_unpack2(&buf);
            if pos == 0 {
                return None;
            }
            let ghost before = self@;
            self.kloop = self.kloop + 1;
            self.kpos = self.kpos + 8;
            if self.kpos == self.hpos as u64 + (self.hslots as u64) * 8 {
                self.kpos = self.hpos as u64;
            }
            assert(self@ == bump(before));
            if khash == self.khash {
                match self.cdb.read(&mut buf, pos as u64) {
                    Err(e) => {
                        return Some(Err(e));
                    },
                    Ok(_) => {},
                }
                let (klen, dlen) = uint32_unpack2(&buf);
                if klen as usize == self.key.len() {
                    match self.cdb.match_key(self.key.as_slice(), pos as u64 + 8) {
                        Err(e) => {
                            return Some(Err(e));
                        },
                        Ok(true) => {
                            return Some(self.read_vec(pos as u64 + 8 + klen as u64, dlen));
                        },
                        Ok(false) => {},
                    }
                }
            }
        }
        None
    }
}

} // verus!
