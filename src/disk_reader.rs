//! Reading the record log back: records one after the other from the end of
//! the header, each checked against its checksum.
use vstd::prelude::*;
use crate::binary::{lemma_u32_be, lemma_u64_be, u32_be, u32_of_be, u64_be, u64_of_be};
use crate::buf::{crc32, crc32_of};
use crate::disk_writer::{
    meta_bytes,
    after_appends, after_write, fresh_log, lemma_bulk_equals_appends, lemma_meta_len, lemma_round_up,
    log_bytes, log_wf, meta_of, read_u32_at, read_u64_at, record_bytes, round_up, splice, grown,
    OpenError, Record, RecordsFileMeta,
};

verus! {

/// Limits that a reader holds records to.
pub struct DiskReaderOptions {
    pub max_record_size: u64,
}

impl DiskReaderOptions {
    /// A ceiling of 80 MiB per record.
    pub fn create_default() -> (r: DiskReaderOptions)
        ensures
            r.max_record_size == 80 * 1024 * 1024,
    {
        DiskReaderOptions { max_record_size: 80 * 1024 * 1024 }
    }
}

/// Why a record could not be read.
#[derive(Debug, PartialEq, Eq, Clone, Copy)]
pub enum RecordError {
    /// The file ends inside the record.
    Truncated,
    /// The content does not match its checksum.
    Corrupted,
    /// The record declares more content than the reader accepts.
    OversizedRecord(u64),
}

/// The record at `p`: its content, its deleted flag and the bytes it takes.
pub open spec fn parse_record(file: Seq<u8>, p: int, max: u64) -> Result<
    (Seq<u8>, bool, nat),
    RecordError,
> {
    if p < 0 || p + 12 > file.len() {
        Err(RecordError::Truncated)
    } else {
        let len = u64_of_be(file.subrange(p, file.len() as int));
        let crc = u32_of_be(file.subrange(p + 8, file.len() as int));
        if len > max {
            Err(RecordError::OversizedRecord(len))
        } else if p + 13 + len > file.len() {
            Err(RecordError::Truncated)
        } else if crc32_of(file.subrange(p + 12, p + 12 + len)) != crc {
            Err(RecordError::Corrupted)
        } else {
            Ok((file.subrange(p + 12, p + 12 + len), file[p + 12 + len] != 0, (13 + len) as nat))
        }
    }
}

/// The contents of the records from `p` to `end`, stopping at the first
/// record that cannot be read.
pub open spec fn scan(file: Seq<u8>, p: int, end: int, max: u64) -> Seq<Seq<u8>>
    decreases (if p < end {
        end - p
    } else {
        0
    }),
{
    if p >= end {
        Seq::empty()
    } else {
        match parse_record(file, p, max) {
            Ok((c, _, k)) => if k > 0 {
                seq![c] + scan(file, p + k, end, max)
            } else {
                Seq::empty()
            },
            Err(_) => Seq::empty(),
        }
    }
}

proof fn lemma_be_prefix(x: Seq<u8>, y: Seq<u8>)
    requires
        x.len() >= 8,
        y.len() >= 8,
        x.subrange(0, 8) == y.subrange(0, 8),
    ensures
        u64_of_be(x) == u64_of_be(y),
        u32_of_be(x) == u32_of_be(y),
{
    assert forall|i: int| 0 <= i < 8 implies x[i] == y[i] by {
        assert(x.subrange(0, 8)[i] == x[i]);
        assert(y.subrange(0, 8)[i] == y[i]);
    }
}

proof fn lemma_log_bytes_front(cs: Seq<Seq<u8>>)
    requires
        cs.len() > 0,
    ensures
        log_bytes(cs) == record_bytes(cs[0], false) + log_bytes(cs.subrange(1, cs.len() as int)),
    decreases cs.len(),
{
    if cs.len() == 1 {
        assert(cs.drop_last() =~= Seq::<Seq<u8>>::empty());
        assert(cs.subrange(1, 1) =~= Seq::<Seq<u8>>::empty());
        assert(log_bytes(cs) =~= record_bytes(cs[0], false) + log_bytes(cs.subrange(1, 1)));
    } else {
        lemma_log_bytes_front(cs.drop_last());
        assert(cs.drop_last().subrange(1, cs.len() - 1) =~= cs.subrange(1, cs.len() as int).drop_last());
        assert(log_bytes(cs) =~= record_bytes(cs[0], false) + log_bytes(cs.subrange(1, cs.len() as int)));
    }
}

/// The record that the writer lays down at `p` reads back as its content.
proof fn lemma_parse_written(file: Seq<u8>, p: int, c: Seq<u8>, max: u64)
    requires
        0 <= p,
        p + record_bytes(c, false).len() <= file.len(),
        file.subrange(p, p + record_bytes(c, false).len()) == record_bytes(c, false),
        c.len() <= max,
    ensures
        parse_record(file, p, max) == Ok::<(Seq<u8>, bool, nat), RecordError>(
            (c, false, record_bytes(c, false).len()),
        ),
{
    let r = record_bytes(c, false);
    let len = c.len() as u64;
    let n = c.len() as int;
    let crc = crc32_of(c);
    lemma_u64_be(len);
    lemma_u32_be(crc);
    let w = file.subrange(p, p + r.len());
    assert(r.subrange(0, 8) =~= u64_be(len));
    assert(r.subrange(8, 12) =~= u32_be(crc));
    assert(r.subrange(12, 12 + n) =~= c);
    assert(r[12 + n] == 0);
    let x = file.subrange(p, file.len() as int);
    assert(x.subrange(0, 8) =~= w.subrange(0, 8));
    assert(u64_be(len).subrange(0, 8) =~= u64_be(len));
    lemma_be_prefix(x, u64_be(len));
    let y = file.subrange(p + 8, file.len() as int);
    assert forall|i: int| 0 <= i < 4 implies y[i] == u32_be(crc)[i] by {
        assert(y[i] == w[8 + i]);
        assert(r.subrange(8, 12)[i] == r[8 + i]);
    }
    assert(u32_of_be(y) == u32_of_be(u32_be(crc)));
    assert(file.subrange(p + 12, p + 12 + n) =~= w.subrange(12, 12 + n));
    assert(file[p + 12 + n] == w[12 + n]);
}

proof fn lemma_scan_log(file: Seq<u8>, p: int, cs: Seq<Seq<u8>>, max: u64)
    requires
        0 <= p,
        p + log_bytes(cs).len() <= file.len(),
        file.subrange(p, p + log_bytes(cs).len()) == log_bytes(cs),
        forall|i: int| 0 <= i < cs.len() ==> (#[trigger] cs[i]).len() <= max,
    ensures
        scan(file, p, p + log_bytes(cs).len(), max) == cs,
    decreases cs.len(),
{
    if cs.len() == 0 {
        assert(cs =~= Seq::<Seq<u8>>::empty());
    } else {
        let c = cs[0];
        let tail = cs.subrange(1, cs.len() as int);
        lemma_log_bytes_front(cs);
        let r = record_bytes(c, false);
        let end = p + log_bytes(cs).len();
        assert(file.subrange(p, p + r.len()) =~= log_bytes(cs).subrange(0, r.len() as int));
        assert(log_bytes(cs).subrange(0, r.len() as int) =~= r);
        lemma_parse_written(file, p, c, max);
        assert(file.subrange(p + r.len(), p + r.len() + log_bytes(tail).len()) =~= log_bytes(
            cs,
        ).subrange(r.len() as int, log_bytes(cs).len() as int));
        assert(log_bytes(cs).subrange(r.len() as int, log_bytes(cs).len() as int) =~= log_bytes(
            tail,
        ));
        assert forall|i: int| 0 <= i < tail.len() implies (#[trigger] tail[i]).len() <= max by {
            assert(tail[i] == cs[i + 1]);
        }
        lemma_scan_log(file, p + r.len(), tail, max);
        assert(seq![c] + tail =~= cs);
    }
}

/// After records are appended one by one to a new log, reading the log from
/// the start yields their contents in order (each checksum matches), the
/// header counts them, and its position lies past the last one.
#[verifier::rlimit(80)]
pub proof fn lemma_appends_then_scan(page_size: u64, contents: Seq<Seq<u8>>, max: u64)
    requires
        page_size > 0,
        32 + log_bytes(contents).len() <= u64::MAX,
        contents.len() <= u64::MAX,
        forall|i: int| 0 <= i < contents.len() ==> (#[trigger] contents[i]).len() <= max,
    ensures
        ({
            let (f, m) = after_appends(fresh_log(page_size).0, fresh_log(page_size).1, contents);
            &&& scan(f, 32, m.position as int, max) == contents
            &&& m.records_count == contents.len()
            &&& m.position == 32 + log_bytes(contents).len()
            &&& log_wf(f, m)
        }),
{
    let (f0, m0) = fresh_log(page_size);
    lemma_round_up(32, page_size as nat);
    lemma_meta_len(m0);
    assert(f0.subrange(0, 32) =~= meta_bytes(m0));
    lemma_bulk_equals_appends(f0, m0, contents);
    let l = log_bytes(contents);
    let (f, m) = after_write(f0, m0, l, contents.len());
    lemma_meta_len(m);
    let end = (32 + l.len()) as nat;
    lemma_round_up(end, page_size as nat);
    assert(f.subrange(32, (32 + l.len()) as int) =~= l);
    lemma_scan_log(f, 32, contents, max);
    assert(f.subrange(0, 32) =~= meta_bytes(m));
}

/// `f` said no to the `j`-th record (counting from 1) of `records`.
pub open spec fn rejected<F: Fn(&Record, u64) -> bool>(
    f: F,
    records: Seq<(int, Seq<u8>, bool)>,
    j: int,
) -> bool {
    exists|rec: Record| read_as(rec, records[j - 1]) && #[trigger] f.ensures((&rec, j as u64), false)
}

/// `rec` is the `k`-th record (counting from 1) of `records`, `f` said yes
/// to it, and no to every record before it.
pub open spec fn found<F: Fn(&Record, u64) -> bool>(
    f: F,
    records: Seq<(int, Seq<u8>, bool)>,
    rec: Record,
    k: int,
) -> bool {
    &&& 1 <= k <= records.len()
    &&& read_as(rec, records[k - 1])
    &&& f.ensures((&rec, k as u64), true)
    &&& forall|j: int| 1 <= j < k ==> #[trigger] rejected(f, records, j)
}

/// `rec` is the record read at position `e.0`, with content `e.1` and
/// deleted flag `e.2`.
pub open spec fn read_as(rec: Record, e: (int, Seq<u8>, bool)) -> bool {
    &&& rec.position == e.0
    &&& rec.content@ == e.1
    &&& rec.content_size == e.1.len()
    &&& rec.deleted == e.2
    &&& rec.checksum == crc32_of(e.1)
}

/// The records from `p` to `end` (position, content, deleted flag),
/// stopping at the first record that cannot be read.
pub open spec fn scan_records(file: Seq<u8>, p: int, end: int, max: u64) -> Seq<
    (int, Seq<u8>, bool),
>
    decreases (if p < end {
        end - p
    } else {
        0
    }),
{
    if p >= end {
        Seq::empty()
    } else {
        match parse_record(file, p, max) {
            Ok((c, del, k)) => if k > 0 {
                seq![(p, c, del)] + scan_records(file, p + k, end, max)
            } else {
                Seq::empty()
            },
            Err(_) => Seq::empty(),
        }
    }
}

proof fn lemma_scan_records_len(file: Seq<u8>, p: int, end: int, max: u64)
    ensures
        scan_records(file, p, end, max).len() <= if end > p {
            end - p
        } else {
            0
        },
    decreases (if p < end {
        end - p
    } else {
        0
    }),
{
    if p < end {
        match parse_record(file, p, max) {
            Ok((c, _, k)) => {
                if k > 0 {
                    lemma_scan_records_len(file, p + k, end, max);
                }
            },
            Err(_) => {},
        }
    }
}

/// A reader of a log file, holding the file's bytes and a cursor.
pub struct DiskReader {
    pub file_name: String,
    pub file: Vec<u8>,
    pub meta: RecordsFileMeta,
    pub position: u64,
    pub options: DiskReaderOptions,
}

impl DiskReader {
    /// Every record that iteration yields: its position, content and deleted
    /// flag.
    pub open spec fn entries(&self) -> Seq<(int, Seq<u8>, bool)> {
        scan_records(self.file@, 32, self.meta.position as int, self.options.max_record_size)
    }

    /// A reader of the bytes of a log file, with its cursor after the header.
    pub fn new(file_name: &str, options: DiskReaderOptions, file: Vec<u8>) -> (r: Result<
        DiskReader,
        OpenError,
    >)
        ensures
            r is Ok <==> file@.len() >= 32,
            r is Err ==> r->Err_0 == OpenError::Truncated,
            r is Ok ==> {
                let d = r->Ok_0;
                &&& d.file@ == file@
                &&& d.meta == meta_of(file@)
                &&& d.position == 32
                &&& d.options == options
            },
    {
        let meta = match RecordsFileMeta::read_metadata(file.as_slice()) {
            Some(m) => m,
            None => {
                return Err(OpenError::Truncated);
            },
        };
        Ok(DiskReader { file_name: file_name.to_owned(), file, meta, position: 32, options })
    }

    /// Reads the header again.
    pub fn load_metadata(&mut self)
        requires
            old(self).file@.len() >= 32,
        ensures
            final(self).meta == meta_of(old(self).file@),
            final(self).file == old(self).file,
            final(self).position == old(self).position,
            final(self).options == old(self).options,
    {
        match RecordsFileMeta::read_metadata(self.file.as_slice()) {
            Some(m) => {
                self.meta = m;
            },
            None => {},
        }
    }

    /// Moves the cursor to the first record.
    pub fn rewind_to_start(&mut self)
        ensures
            final(self).position == 32,
            final(self).file == old(self).file,
            final(self).meta == old(self).meta,
            final(self).options == old(self).options,
    {
        self.position = 32;
    }

    /// Moves the cursor to `position`.
    pub fn seek_to(&mut self, position: u64)
        ensures
            final(self).position == position,
            final(self).file == old(self).file,
            final(self).meta == old(self).meta,
            final(self).options == old(self).options,
    {
        self.position = position;
    }

    /// Reads the record at the cursor and moves past it; on failure the
    /// cursor stays.
    pub fn read_next_record(&mut self) -> (r: Result<Record, RecordError>)
        ensures
            final(self).file == old(self).file,
            final(self).meta == old(self).meta,
            final(self).options == old(self).options,
            match parse_record(
                old(self).file@,
                old(self).position as int,
                old(self).options.max_record_size,
            ) {
                Ok((c, d, k)) => r is Ok && r->Ok_0.content@ == c && r->Ok_0.deleted == d
                    && r->Ok_0.content_size == c.len() && r->Ok_0.checksum == crc32_of(c)
                    && r->Ok_0.position == old(self).position && final(self).position
                    == old(self).position + k,
                Err(e) => r == Err::<Record, RecordError>(e) && final(self).position == old(
                    self,
                ).position,
            },
    {
        let len_file = self.file.len();
        let p = self.position;
        if p > len_file as u64 || (len_file as u64) - p < 12 {
            return Err(RecordError::Truncated);
        }
        let start = p as usize;
        let len = read_u64_at(self.file.as_slice(), start);
        let hash = read_u32_at(self.file.as_slice(), start + 8);
        proof {
            assert(self.file@.subrange(start + 8, self.file@.len() as int) =~= self.file@.subrange(
                p + 8,
                self.file@.len() as int,
            ));
        }
        if len > self.options.max_record_size {
            return Err(RecordError::OversizedRecord(len));
        }
        if (len_file as u64) - p - 12 <= len {
            return Err(RecordError::Truncated);
        }
        let n = len as usize;
        let mut content: Vec<u8> = Vec::with_capacity(n);
        let mut i: usize = 0;
        while i < n
            invariant
                len_file == self.file@.len(),
                start + 12 + n < self.file@.len(),
                i <= n,
                content@ == self.file@.subrange(start + 12, start + 12 + i),
            decreases n - i,
        {
            content.push(self.file[start + 12 + i]);
            i = i + 1;
            assert(content@ =~= self.file@.subrange(start + 12, start + 12 + i));
        }
        let deleted = self.file[start + 12 + n] != 0;
        let checksum = crc32(content.as_slice());
        if checksum != hash {
            return Err(RecordError::Corrupted);
        }
        self.position = p + 13 + len;
        Ok(Record { position: p, content_size: len, content, deleted, checksum })
    }

    /// The next record, while the cursor is before the header's position;
    /// `None` at the end or at the first record that cannot be read.
    pub fn next(&mut self) -> (r: Option<Record>)
        ensures
            final(self).file == old(self).file,
            final(self).meta == old(self).meta,
            final(self).options == old(self).options,
            old(self).position >= old(self).meta.position ==> r is None && final(self).position
                == old(self).position,
            old(self).position < old(self).meta.position ==> match parse_record(
                old(self).file@,
                old(self).position as int,
                old(self).options.max_record_size,
            ) {
                Ok((c, d, k)) => r is Some && r->0.content@ == c && r->0.deleted == d
                    && r->0.content_size == c.len() && r->0.checksum == crc32_of(c)
                    && r->0.position == old(self).position && final(self).position == old(
                    self,
                ).position + k,
                Err(e) => r is None && final(self).position == old(self).position,
            },
    {
        if self.position < self.meta.position {
            match self.read_next_record() {
                Ok(record) => Some(record),
                Err(_) => None,
            }
        } else {
            None
        }
    }

    /// The first record, counting from 1, for which `f` holds, scanning from
    /// the first record; `None` when no record that can be read satisfies it.
    /// `f` is asked about each record as it was read, in order, until it
    /// says yes.
    pub fn find_record<F: Fn(&Record, u64) -> bool>(&mut self, f: F) -> (r: Option<Record>)
        requires
            forall|rec: &Record, n: u64| #[trigger] f.requires((rec, n)),
        ensures
            final(self).file == old(self).file,
            final(self).meta == old(self).meta,
            final(self).options == old(self).options,
            r is Some ==> exists|k: int| #[trigger] found(f, old(self).entries(), r->0, k),
            r is None ==> forall|j: int|
                1 <= j <= old(self).entries().len() ==> #[trigger] rejected(
                    f,
                    old(self).entries(),
                    j,
                ),
    {
        self.rewind_to_start();
        let ghost all = self.entries();
        let mut current_id: u64 = 0;
        loop
            invariant
                self.file == old(self).file,
                self.meta == old(self).meta,
                self.options == old(self).options,
                all == old(self).entries(),
                forall|rec: &Record, n: u64| #[trigger] f.requires((rec, n)),
                current_id <= all.len(),
                scan_records(
                    self.file@,
                    self.position as int,
                    self.meta.position as int,
                    self.options.max_record_size,
                ) == all.subrange(current_id as int, all.len() as int),
                forall|j: int| 1 <= j <= current_id ==> #[trigger] rejected(f, all, j),
            decreases all.len() - current_id,
        {
            if self.position >= self.meta.position {
                assert(all.subrange(current_id as int, all.len() as int).len() == 0);
                return None;
            }
            let ghost p = self.position as int;
            match self.read_next_record() {
                Err(_) => {
                    assert(all.subrange(current_id as int, all.len() as int).len() == 0);
                    return None;
                },
                Ok(record) => {
                    let ghost rest = all.subrange(current_id as int, all.len() as int);
                    assert(read_as(record, rest[0]));
                    assert(rest.len() > 0);
                    assert(all[current_id as int] == rest[0]);
                    proof {
                        lemma_scan_records_len(
                            self.file@,
                            32,
                            self.meta.position as int,
                            self.options.max_record_size,
                        );
                    }
                    current_id = current_id + 1;
                    if f(&record, current_id) {
                        let ghost kk = current_id as int;
                        let res = Some(record);
                        assert(res->0 == record);
                        assert(found(f, old(self).entries(), res->0, kk));
                        return res;
                    }
                    assert(rejected(f, all, current_id as int));
                    assert(rest.subrange(1, rest.len() as int) =~= all.subrange(
                        current_id as int,
                        all.len() as int,
                    ));
                },
            }
        }
    }
}

} // verus!
