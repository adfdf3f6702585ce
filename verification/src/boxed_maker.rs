//! A builder whose sink is a byte buffer in memory: it holds the whole file
//! and hands it to a writer when it is finished.

use vstd::prelude::*;
use crate::error::CdbError;
use crate::format::{
    acceptable, cdb_image, header_pairs, lemma_encode_pairs_len, lemma_header_pairs_len,
    lemma_records_bytes_len, meta_of, metas_of, record_bytes, records_bytes, records_size,
    valid_records, Record, HEADER_SIZE,
};
use crate::maker::CdbMaker;

verus! {

/// The failure of a sink that would grow past the greatest length of a file.
pub fn sink_too_big_err<T>() -> (r: Result<T, CdbError>)
    ensures
        r == Err::<T, CdbError>(CdbError::FileTooLarge),
{
    Err(CdbError::FileTooLarge)
}

/// The 2048 zero bytes that stand in the header's place until the file is
/// finished.
pub open spec fn reserved_header() -> Seq<u8> {
    Seq::new(2048, |i: int| 0u8)
}

/// What a builder takes while it is open.
pub trait CdbWrite {
    /// The records accepted so far, in insertion order.
    spec fn records(&self) -> Seq<Record>;

    /// Whether the builder is sound and still takes records: from its
    /// creation until `flush` succeeds.
    spec fn accepting(&self) -> bool;

    /// Adds a record to the file.
    fn insert(&mut self, key: &[u8], data: &[u8]) -> (r: Result<(), CdbError>)
        requires
            old(self).accepting(),
        ensures
            r == Err::<(), CdbError>(CdbError::ArgumentTooLarge) <==> !acceptable(
                Record { key: key@, data: data@ },
            ),
            r is Ok ==> final(self).accepting() && final(self).records() == old(self).records().push(
                Record { key: key@, data: data@ },
            ),
    ;

    /// Finishes the file; the builder then takes no more records.
    fn flush(&mut self) -> (r: Result<(), CdbError>)
        requires
            old(self).accepting(),
        ensures
            r is Ok ==> !final(self).accepting() && final(self).records() == old(self).records(),
    ;
}

/// A builder that keeps the file in memory.
pub struct CdbMakerBoxed {
    maker: CdbMaker,
    sink: Vec<u8>,
    records: Ghost<Seq<Record>>,
}

impl CdbMakerBoxed {
    /// The bytes in the sink.
    pub closed spec fn bytes(&self) -> Seq<u8> {
        self.sink@
    }

    /// Whether records are still accepted: true until `flush` succeeds.
    pub closed spec fn is_open(&self) -> bool {
        self.maker@.open
    }

    /// The write cursor: where the next byte of the file goes.
    pub closed spec fn cursor(&self) -> int {
        self.maker.cursor()
    }

    /// The bookkeeping matches the records, and the sink holds the reserved
    /// header and the records while the builder is open, the finished file
    /// afterwards.
    pub closed spec fn wf(&self) -> bool {
        &&& self.maker.wf()
        &&& self.maker@.metas == metas_of(self.records@)
        &&& forall|j: int| 0 <= j < self.records@.len() ==> acceptable(#[trigger] self.records@[j])
        &&& self.maker@.open ==> self.sink@ == reserved_header() + records_bytes(self.records@)
        &&& !self.maker@.open ==> self.sink@ == cdb_image(self.records@)
    }

    /// What the sink holds, and where the cursor stands.
    pub proof fn lemma_bytes(&self)
        requires
            self.wf(),
        ensures
            self.is_open() ==> self.bytes() == reserved_header() + records_bytes(self.records())
                && self.cursor() == self.bytes().len(),
            !self.is_open() ==> self.bytes() == cdb_image(self.records()) && valid_records(
                self.records(),
            ),
            forall|j: int|
                0 <= j < self.records().len() ==> acceptable(#[trigger] self.records()[j]),
            2048 + records_size(metas_of(self.records())) <= 0xffff_ffff,
    {
        lemma_records_bytes_len(self.records@);
        self.maker.lemma_cursor();
    }

    /// A builder with no records, the header reserved in its sink.
    pub fn new() -> (r: Result<Self, CdbError>)
        ensures
            r is Ok,
            r.unwrap().wf(),
            r.unwrap().is_open(),
            r.unwrap().records() == Seq::<Record>::empty(),
            r.unwrap().bytes() == reserved_header(),
            r.unwrap().cursor() == 2048,
    {
        let mut sink: Vec<u8> = Vec::new();
        while sink.len() < HEADER_SIZE as usize
            invariant
                sink@.len() <= 2048,
                forall|i: int| 0 <= i < sink@.len() ==> sink@[i] == 0u8,
            decreases 2048 - sink@.len(),
        {
            sink.push(0u8);
        }
        let m = CdbMakerBoxed { maker: CdbMaker::new(), sink, records: Ghost(Seq::empty()) };
        proof {
            assert(m.maker@.metas =~= metas_of(m.records@));
            assert(m.sink@ =~= reserved_header() + records_bytes(m.records@));
            assert(m.sink@ =~= reserved_header());
        }
        Ok(m)
    }

    /// Hands the bytes of the sink to `writer`, behind what it holds
    /// already: after `flush`, the finished file.
    pub fn write_all(self, writer: &mut Vec<u8>) -> (r: Result<(), CdbError>)
        ensures
            r is Ok,
            final(writer)@ == old(writer)@ + self.bytes(),
    {
        writer.extend_from_slice(self.sink.as_slice());
        assert(writer@ =~= old(writer)@ + self.sink@);
        Ok(())
    }
}

impl CdbWrite for CdbMakerBoxed {
    closed spec fn records(&self) -> Seq<Record> {
        self.records@
    }

    open spec fn accepting(&self) -> bool {
        self.wf() && self.is_open()
    }

    /// Adds a record to the file: its two lengths, its key and its data go
    /// to the end of the sink.
    ///
    /// A key or a value of 2^32 - 1 bytes or more is refused as
    /// `ArgumentTooLarge`; a record that would move the cursor past
    /// 2^32 - 1 as `FileTooLarge`. A refused record leaves the builder as it
    /// was.
    fn insert(&mut self, key: &[u8], data: &[u8]) -> (r: Result<(), CdbError>)
        ensures
            final(self).wf(),
            r is Ok <==> acceptable(Record { key: key@, data: data@ }) && old(self).cursor() + 8
                + key@.len() + data@.len() <= 0xffff_ffff,
            r == Err::<(), CdbError>(CdbError::FileTooLarge) <==> acceptable(
                Record { key: key@, data: data@ },
            ) && old(self).cursor() + 8 + key@.len() + data@.len() > 0xffff_ffff,
            r is Err ==> final(self).records() == old(self).records() && final(self).bytes() == old(self).bytes() && final(self).is_open() && final(self).cursor() == old(self).cursor(),
            r is Ok ==> final(self).bytes() == old(self).bytes() + record_bytes(
                Record { key: key@, data: data@ },
            ) && final(self).cursor() == old(self).cursor() + 8 + key@.len() + data@.len(),
    {
        let ghost rec = Record { key: key@, data: data@ };
        let ghost before = self.records@;
        match self.maker.insert(key, data) {
            Ok(prefix) => {
                self.sink.extend_from_slice(prefix.as_slice());
                self.sink.extend_from_slice(key);
                self.sink.extend_from_slice(data);
                self.records = Ghost(before.push(rec));
                proof {
                    assert(before.push(rec).drop_last() =~= before);
                    assert(metas_of(before.push(rec)) =~= metas_of(before).push(meta_of(rec)));
                    assert(self.sink@ =~= old(self).sink@ + record_bytes(rec));
                    assert(self.sink@ =~= reserved_header() + records_bytes(self.records@));
                }
                Ok(())
            },
            Err(e) => Err(e),
        }
    }

    /// Finishes the file: the hash tables go behind the last record and the
    /// header replaces the 2048 reserved bytes.
    ///
    /// Fails with `FileTooLarge`, and leaves the builder as it was, exactly
    /// when the finished file would be longer than 2^32 - 1 bytes.
    fn flush(&mut self) -> (r: Result<(), CdbError>)
        ensures
            final(self).wf(),
            r is Err <==> old(self).cursor() + 16 * old(self).records().len() > 0xffff_ffff,
            r is Err ==> r == Err::<(), CdbError>(CdbError::FileTooLarge) && final(self).records()
                == old(self).records() && final(self).bytes() == old(self).bytes() && final(self).is_open(),
            r is Ok ==> final(self).bytes() == cdb_image(old(self).records()) && !final(
                self
            ).is_open() && valid_records(old(self).records()),
    {
        proof {
            self.maker.lemma_cursor();
            lemma_records_bytes_len(self.records@);
        }
        match self.maker.flush() {
            Ok((tables, header)) => {
                let ghost ms = metas_of(self.records@);
                let ghost body = old(self).sink@ + tables@;
                proof {
                    lemma_encode_pairs_len(header_pairs(ms, 256));
                    lemma_header_pairs_len(ms, 256);
                }
                self.sink.extend_from_slice(tables.as_slice());
                assert(self.sink@ =~= body);
                let mut i: usize = 0;
                while i < HEADER_SIZE as usize
                    invariant
                        i <= 2048,
                        header@.len() == 2048,
                        body.len() >= 2048,
                        self.sink@ == header@.take(i as int) + body.skip(i as int),
                        self.maker.wf(),
                        !self.maker@.open,
                        self.maker@.metas == ms,
                        self.records@ == old(self).records@,
                    decreases 2048 - i,
                {
                    self.sink[i] = header[i];
                    assert(self.sink@ =~= header@.take(i as int + 1) + body.skip(i as int + 1));
                    i = i + 1;
                }
                proof {
                    assert(self.sink@ =~= header@ + records_bytes(self.records@) + tables@);
                }
                Ok(())
            },
            Err(e) => Err(e),
        }
    }
}

} // verus!
