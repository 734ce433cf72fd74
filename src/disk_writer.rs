//! The record log: a file that grows by whole pages, starts with a header,
//! and holds checksummed records one after the other.
//!
//! The writer works on the bytes of the file held in memory; whoever owns the
//! file stores the bytes that each append changed.
use vstd::prelude::*;
use crate::binary::{
    lemma_u32_be, lemma_u64_be, lemma_u64_be_inverse, u32_be, u32_of_be, u64_be, u64_of_be,
};
use crate::binary::BinaryWriter;
use crate::buf::{bytes_to_vec, crc32, crc32_of, freeze};
use vstd::slice::slice_to_vec;

verus! {

/// The header of a log file.
#[derive(Clone, Copy, Debug, PartialEq, Eq)]
pub struct RecordsFileMeta {
    pub version: u64,
    pub records_count: u64,
    pub position: u64,
    pub page_size: u64,
}

/// The header on disk: its four fields as big-endian `u64`s.
pub open spec fn meta_bytes(m: RecordsFileMeta) -> Seq<u8> {
    u64_be(m.version) + u64_be(m.records_count) + u64_be(m.position) + u64_be(m.page_size)
}

/// The header that the first 32 bytes of `s` hold.
pub open spec fn meta_of(s: Seq<u8>) -> RecordsFileMeta {
    RecordsFileMeta {
        version: u64_of_be(s),
        records_count: u64_of_be(s.subrange(8, s.len() as int)),
        position: u64_of_be(s.subrange(16, s.len() as int)),
        page_size: u64_of_be(s.subrange(24, s.len() as int)),
    }
}

/// A record on disk: content length (`u64`), CRC-32 of the content (`u32`),
/// the content, and the deleted flag (one byte).
pub open spec fn record_bytes(content: Seq<u8>, deleted: bool) -> Seq<u8> {
    u64_be(content.len() as u64) + u32_be(crc32_of(content)) + content + seq![
        if deleted {
            1u8
        } else {
            0u8
        },
    ]
}

/// Live records on disk, one after the other.
pub open spec fn log_bytes(contents: Seq<Seq<u8>>) -> Seq<u8>
    decreases contents.len(),
{
    if contents.len() == 0 {
        Seq::empty()
    } else {
        log_bytes(contents.drop_last()) + record_bytes(contents.last(), false)
    }
}

/// `s` with `b` written over it from `pos` on.
pub open spec fn splice(s: Seq<u8>, pos: int, b: Seq<u8>) -> Seq<u8> {
    s.subrange(0, pos) + b + s.subrange(pos + b.len(), s.len() as int)
}

/// `s` grown with zero bytes to `len`, if it is shorter.
pub open spec fn grown(s: Seq<u8>, len: nat) -> Seq<u8> {
    if s.len() < len {
        s + Seq::new((len - s.len()) as nat, |i: int| 0u8)
    } else {
        s
    }
}

/// The smallest multiple of `page` that is at least `end`.
pub open spec fn round_up(end: nat, page: nat) -> nat
    recommends
        page > 0,
{
    if end % page == 0 {
        end
    } else {
        (end / page + 1) * page
    }
}

/// The file after `bytes` were written at the header's position: the file
/// grows to the smallest whole number of pages that holds them, and the
/// header then records `added` more records and the new position.
pub open spec fn after_write(
    file: Seq<u8>,
    m: RecordsFileMeta,
    bytes: Seq<u8>,
    added: nat,
) -> (Seq<u8>, RecordsFileMeta) {
    let end = (m.position + bytes.len()) as nat;
    let m2 = RecordsFileMeta {
        records_count: (m.records_count + added) as u64,
        position: end as u64,
        ..m
    };
    let body = splice(grown(file, round_up(end, m.page_size as nat)), m.position as int, bytes);
    (splice(body, 0, meta_bytes(m2)), m2)
}

/// The file and header after one record is appended.
pub open spec fn after_append(file: Seq<u8>, m: RecordsFileMeta, content: Seq<u8>) -> (
    Seq<u8>,
    RecordsFileMeta,
) {
    after_write(file, m, record_bytes(content, false), 1)
}

/// The file and header after records are appended one at a time.
pub open spec fn after_appends(file: Seq<u8>, m: RecordsFileMeta, contents: Seq<Seq<u8>>) -> (
    Seq<u8>,
    RecordsFileMeta,
)
    decreases contents.len(),
{
    if contents.len() == 0 {
        (file, m)
    } else {
        let (f, m1) = after_appends(file, m, contents.drop_last());
        after_append(f, m1, contents.last())
    }
}

/// A new log file and its header: one page (or as many as the header
/// needs), the header at its start, no records.
pub open spec fn fresh_log(page_size: u64) -> (Seq<u8>, RecordsFileMeta) {
    let m = RecordsFileMeta { version: 1, records_count: 0, position: 32, page_size };
    (splice(grown(Seq::empty(), round_up(32, page_size as nat)), 0, meta_bytes(m)), m)
}

/// A well-formed log file and its header: the file is a whole number of
/// pages, the header sits at its start, and the position lies past the
/// header and within the file.
pub open spec fn log_wf(file: Seq<u8>, m: RecordsFileMeta) -> bool {
    &&& m.page_size > 0
    &&& file.len() % (m.page_size as nat) == 0
    &&& 32 <= m.position <= file.len()
    &&& file.len() >= 32
    &&& file.subrange(0, 32) == meta_bytes(m)
}

/// Why a log file could not be opened.
#[derive(Debug, PartialEq, Eq, Clone, Copy)]
pub enum OpenError {
    /// The file is shorter than its header.
    Truncated,
    /// The header does not describe a log of this version and page size, or
    /// contradicts the file's length.
    Corrupted,
}

/// Grows `v` with zero bytes to `len`, if it is shorter.
fn grow_to(v: &mut Vec<u8>, len: usize)
    ensures
        final(v)@ == grown(old(v)@, len as nat),
{
    let ghost start = v@;
    if v.len() < len {
        while v.len() < len
            invariant
                start.len() < len,
                start.len() <= v@.len() <= len,
                v@ == start + Seq::new((v@.len() - start.len()) as nat, |i: int| 0u8),
            decreases len - v.len(),
        {
            v.push(0u8);
            assert(v@ =~= start + Seq::new((v@.len() - start.len()) as nat, |i: int| 0u8));
        }
    }
}

/// Writes `b` over `v` from `pos` on.
fn write_at(v: &mut Vec<u8>, pos: usize, b: &[u8])
    requires
        pos + b@.len() <= old(v)@.len(),
    ensures
        final(v)@ == splice(old(v)@, pos as int, b@),
{
    let ghost start = v@;
    let n = v.len();
    let mut i: usize = 0;
    while i < b.len()
        invariant
            n == start.len(),
            pos + b@.len() <= start.len(),
            v@.len() == start.len(),
            i <= b@.len(),
            v@ == start.subrange(0, pos as int) + b@.subrange(0, i as int) + start.subrange(
                pos + i,
                start.len() as int,
            ),
        decreases b.len() - i,
    {
        v[pos + i] = b[i];
        i = i + 1;
        assert(v@ =~= start.subrange(0, pos as int) + b@.subrange(0, i as int) + start.subrange(
            pos + i,
            start.len() as int,
        ));
    }
    assert(b@.subrange(0, i as int) =~= b@);
}

impl RecordsFileMeta {
    pub fn size() -> (r: usize)
        ensures
            r == 32,
    {
        8 + 8 + 8 + 8
    }

    pub fn empty() -> (r: RecordsFileMeta)
        ensures
            r == (RecordsFileMeta { version: 1, records_count: 0, position: 32, page_size: 0 }),
    {
        RecordsFileMeta {
            version: 1,
            records_count: 0,
            position: RecordsFileMeta::size() as u64,
            page_size: 0,
        }
    }

    pub fn empty_with_page_size(page_size: u64) -> (r: RecordsFileMeta)
        ensures
            r == (RecordsFileMeta { version: 1, records_count: 0, position: 32, page_size }),
    {
        RecordsFileMeta {
            version: 1,
            records_count: 0,
            position: RecordsFileMeta::size() as u64,
            page_size: page_size,
        }
    }

    /// The header as it is stored.
    pub fn to_bytes(&self) -> (r: Vec<u8>)
        ensures
            r@ == meta_bytes(*self),
    {
        let mut bin = BinaryWriter::with_capacity(RecordsFileMeta::size());
        bin.write_u64(self.version);
        bin.write_u64(self.records_count);
        bin.write_u64(self.position);
        bin.write_u64(self.page_size);
        bytes_to_vec(&freeze(bin.buffer))
    }

    /// Reads the header from the start of a file's bytes.
    pub fn read_metadata(file: &[u8]) -> (r: Option<RecordsFileMeta>)
        ensures
            r is Some <==> file@.len() >= 32,
            r is Some ==> r->0 == meta_of(file@),
    {
        if file.len() < 32 {
            return None;
        }
        Some(
            RecordsFileMeta {
                version: read_u64_at(file, 0),
                records_count: read_u64_at(file, 8),
                position: read_u64_at(file, 16),
                page_size: read_u64_at(file, 24),
            },
        )
    }
}

/// The big-endian `u64` at `pos`.
pub(crate) fn read_u64_at(b: &[u8], pos: usize) -> (r: u64)
    requires
        pos + 8 <= b@.len(),
    ensures
        r == u64_of_be(b@.subrange(pos as int, b@.len() as int)),
{
    ((b[pos] as u64) << 56u64) | ((b[pos + 1] as u64) << 48u64) | ((b[pos + 2] as u64) << 40u64)
        | ((b[pos + 3] as u64) << 32u64) | ((b[pos + 4] as u64) << 24u64) | ((b[pos + 5] as u64)
        << 16u64) | ((b[pos + 6] as u64) << 8u64) | (b[pos + 7] as u64)
}

/// The big-endian `u32` at `pos`.
pub(crate) fn read_u32_at(b: &[u8], pos: usize) -> (r: u32)
    requires
        pos + 4 <= b@.len(),
    ensures
        r == u32_of_be(b@.subrange(pos as int, b@.len() as int)),
{
    ((b[pos] as u32) << 24u32) | ((b[pos + 1] as u32) << 16u32) | ((b[pos + 2] as u32) << 8u32) | (
    b[pos + 3] as u32)
}

/// One record of the log.
#[derive(Debug, Clone)]
pub struct Record {
    /// Where the record starts in the file.
    pub position: u64,
    pub content_size: u64,
    pub content: Vec<u8>,
    pub deleted: bool,
    pub checksum: u32,
}

impl Record {
    /// The number of bytes the record takes on disk.
    pub fn size(&self) -> (r: u64)
        requires
            self.content_size <= u64::MAX - 13,
        ensures
            r == 13 + self.content_size,
    {
        // length prefix + checksum + content + deleted flag
        8 + 4 + self.content_size + 1
    }

    /// The record as it is stored.
    pub fn to_bytes(&self) -> (r: Vec<u8>)
        ensures
            r@ == u64_be(self.content_size) + u32_be(self.checksum) + self.content@ + seq![
                if self.deleted {
                    1u8
                } else {
                    0u8
                },
            ],
    {
        let mut buf = BinaryWriter::with_capacity(self.content.len());
        buf.write_u64(self.content_size);
        buf.write_u32(self.checksum);
        buf.write_bytes(self.content.as_slice());
        buf.write_u8(
            if self.deleted {
                1
            } else {
                0
            },
        );
        bytes_to_vec(&freeze(buf.buffer))
    }
}

/// The single writer of a log file, holding the file's bytes.
pub struct DiskWriter {
    pub file_name: String,
    pub page_size: u64,
    pub file: Vec<u8>,
    pub meta: RecordsFileMeta,
}

impl DiskWriter {
    pub open spec fn wf(&self) -> bool {
        &&& log_wf(self.file@, self.meta)
        &&& self.page_size == self.meta.page_size
    }

    /// A new, empty log: the first page, with the header at its start.
    pub fn new(file_name: &str, page_size: u64) -> (r: DiskWriter)
        requires
            0 < page_size <= usize::MAX - 32,
        ensures
            r.wf(),
            (r.file@, r.meta) == fresh_log(page_size),
    {
        let mut w = DiskWriter {
            file_name: file_name.to_owned(),
            page_size,
            file: Vec::new(),
            meta: RecordsFileMeta::empty_with_page_size(page_size),
        };
        w.allocate_page_if_position_need(32);
        proof {
            lemma_round_up(32, page_size as nat);
        }
        w.write_metadata();
        proof {
            lemma_meta_len(w.meta);
            assert(w.file@.subrange(0, 32) =~= meta_bytes(w.meta));
        }
        w
    }

    /// Takes over the bytes of an existing log file, after checking that its
    /// header describes a log of this version and page size that fits the
    /// file.
    pub fn open(file_name: &str, page_size: u64, file: Vec<u8>) -> (r: Result<DiskWriter, OpenError>)
        ensures
            file@.len() < 32 ==> r == Err::<DiskWriter, OpenError>(OpenError::Truncated),
            file@.len() >= 32 ==> (r is Ok <==> {
                let m = meta_of(file@);
                m.version == 1 && m.page_size == page_size && log_wf(file@, m)
            }),
            r is Ok ==> r->Ok_0.wf() && r->Ok_0.file@ == file@ && r->Ok_0.meta == meta_of(file@),
            r is Err && file@.len() >= 32 ==> r->Err_0 == OpenError::Corrupted,
    {
        let meta = match RecordsFileMeta::read_metadata(file.as_slice()) {
            Some(m) => m,
            None => {
                return Err(OpenError::Truncated);
            },
        };
        let len = file.len() as u64;
        if meta.version != 1 || meta.page_size != page_size || page_size == 0 || len % page_size
            != 0 || meta.position < 32 || meta.position > len {
            return Err(OpenError::Corrupted);
        }
        proof {
            lemma_meta_round_trip(file@);
        }
        Ok(DiskWriter { file_name: file_name.to_owned(), page_size, file, meta })
    }

    /// Reads the header again from the start of the file.
    pub fn load_metadata(&mut self)
        requires
            old(self).wf(),
        ensures
            final(self).meta == meta_of(old(self).file@),
            *final(self) == *old(self),
    {
        match RecordsFileMeta::read_metadata(self.file.as_slice()) {
            Some(m) => {
                proof {
                    lemma_meta_of_bytes(self.meta, self.file@);
                }
                self.meta = m;
            },
            None => {},
        }
    }

    /// Grows the file by one page.
    pub fn allocate_page(&mut self)
        requires
            old(self).wf(),
            old(self).file@.len() + old(self).page_size <= usize::MAX,
        ensures
            final(self).wf(),
            final(self).file@ == grown(old(self).file@, old(self).file@.len() + old(self).page_size as nat),
            final(self).meta == old(self).meta,
            final(self).page_size == old(self).page_size,
            final(self).file_name == old(self).file_name,
    {
        let len = self.file.len();
        grow_to(&mut self.file, len + self.page_size as usize);
        proof {
            let p = self.page_size as int;
            vstd::arithmetic::div_mod::lemma_mod_multiples_vanish(1, len as int, p);
            assert(self.file@.subrange(0, 32) =~= old(self).file@.subrange(0, 32));
        }
    }

    /// Grows the file by one page when the position has reached its end.
    pub fn allocate_page_if_needed(&mut self)
        requires
            old(self).wf(),
            old(self).file@.len() + old(self).page_size <= usize::MAX,
        ensures
            final(self).wf(),
            old(self).meta.position >= old(self).file@.len() ==> final(self).file@ == grown(
                old(self).file@,
                old(self).file@.len() + old(self).page_size as nat,
            ),
            old(self).meta.position < old(self).file@.len() ==> final(self).file@ == old(self).file@,
            final(self).meta == old(self).meta,
            final(self).page_size == old(self).page_size,
            final(self).file_name == old(self).file_name,
    {
        if self.meta.position >= self.file.len() as u64 {
            self.allocate_page();
        }
    }

    /// Writes the header at the start of the file.
    pub fn write_metadata(&mut self)
        requires
            old(self).file@.len() >= 32,
        ensures
            final(self).file@ == splice(old(self).file@, 0, meta_bytes(old(self).meta)),
            final(self).meta == old(self).meta,
            final(self).page_size == old(self).page_size,
            final(self).file_name == old(self).file_name,
    {
        let bytes = self.meta.to_bytes();
        proof {
            lemma_meta_len(self.meta);
        }
        write_at(&mut self.file, 0, bytes.as_slice());
    }

    /// Grows the file to the smallest whole number of pages that reaches
    /// `position`.
    pub fn allocate_page_if_position_need(&mut self, position: u64)
        requires
            old(self).page_size > 0,
            position + old(self).page_size <= usize::MAX,
        ensures
            final(self).file@ == grown(old(self).file@, round_up(position as nat, old(self).page_size as nat)),
            final(self).meta == old(self).meta,
            final(self).page_size == old(self).page_size,
            final(self).file_name == old(self).file_name,
    {
        proof {
            lemma_round_up(position as nat, self.page_size as nat);
        }
        let target = if position % self.page_size == 0 {
            position
        } else {
            (position / self.page_size + 1) * self.page_size
        };
        grow_to(&mut self.file, target as usize);
    }

    fn write_record(&mut self, record: Record)
        requires
            old(self).wf(),
            record.content_size == record.content@.len(),
            record.checksum == crc32_of(record.content@),
            !record.deleted,
            old(self).meta.records_count < u64::MAX,
            old(self).meta.position + 13 + record.content@.len() + old(self).page_size <= usize::MAX,
        ensures
            final(self).wf(),
            (final(self).file@, final(self).meta) == after_append(
                old(self).file@,
                old(self).meta,
                record.content@,
            ),
            final(self).file_name == old(self).file_name,
    {
        let buf = record.to_bytes();
        assert(buf@ == record_bytes(record.content@, false));
        let end = self.meta.position + buf.len() as u64;
        self.allocate_page_if_position_need(end);
        proof {
            lemma_round_up(end as nat, self.page_size as nat);
        }
        write_at(&mut self.file, self.meta.position as usize, buf.as_slice());
        self.meta.position = end;
        self.meta.records_count = self.meta.records_count + 1;
        self.write_metadata();
        proof {
            lemma_meta_len(self.meta);
            assert(self.file@.subrange(0, 32) =~= meta_bytes(self.meta));
        }
    }

    /// Appends one record holding `buf`, and returns where it starts.
    pub fn add_record(&mut self, buf: &[u8]) -> (r: u64)
        requires
            old(self).wf(),
            old(self).meta.records_count < u64::MAX,
            old(self).meta.position + 13 + buf@.len() + old(self).page_size <= usize::MAX,
        ensures
            final(self).wf(),
            r == old(self).meta.position,
            (final(self).file@, final(self).meta) == after_append(
                old(self).file@,
                old(self).meta,
                buf@,
            ),
            final(self).file_name == old(self).file_name,
    {
        let l = buf.len() as u64;
        let checksum = crc32(buf);
        let record = Record {
            position: self.meta.position,
            content_size: l,
            content: slice_to_vec(buf),
            deleted: false,
            checksum: checksum,
        };
        let record_position = self.meta.position;
        self.write_record(record);
        record_position
    }

    /// Appends records holding each of `buffers`, in order, with one write
    /// of all of them and one update of the header.
    pub fn bulk_add_records(&mut self, buffers: Vec<&[u8]>)
        requires
            old(self).wf(),
            old(self).meta.records_count + buffers@.len() <= u64::MAX,
            old(self).meta.position + log_bytes(slices_view(buffers@)).len() + old(self).page_size
                <= usize::MAX,
        ensures
            final(self).wf(),
            (final(self).file@, final(self).meta) == after_write(
                old(self).file@,
                old(self).meta,
                log_bytes(slices_view(buffers@)),
                buffers@.len(),
            ),
            final(self).file_name == old(self).file_name,
    {
        let ghost contents = slices_view(buffers@);
        let mut bin_records: Vec<u8> = Vec::new();
        let mut i: usize = 0;
        while i < buffers.len()
            invariant
                contents == slices_view(buffers@),
                i <= buffers@.len(),
                bin_records@ == log_bytes(contents.take(i as int)),
                old(self).meta.position + log_bytes(contents).len() + old(self).page_size
                    <= usize::MAX,
            decreases buffers.len() - i,
        {
            let buf = buffers[i];
            let checksum = crc32(buf);
            let record = Record {
                position: 0,
                content_size: buf.len() as u64,
                content: slice_to_vec(buf),
                deleted: false,
                checksum,
            };
            let mut bin_record = record.to_bytes();
            proof {
                assert(contents.take(i + 1).drop_last() =~= contents.take(i as int));
                assert(contents.take(i + 1).last() == buf@);
                lemma_log_bytes_prefix(contents, (i + 1) as nat);
            }
            bin_records.append(&mut bin_record);
            i = i + 1;
        }
        assert(contents.take(i as int) =~= contents);
        let end = self.meta.position + bin_records.len() as u64;
        self.allocate_page_if_position_need(end);
        proof {
            lemma_round_up(end as nat, self.page_size as nat);
        }
        write_at(&mut self.file, self.meta.position as usize, bin_records.as_slice());
        self.meta.position = end;
        self.meta.records_count = self.meta.records_count + buffers.len() as u64;
        self.write_metadata();
        proof {
            lemma_meta_len(self.meta);
            assert(self.file@.subrange(0, 32) =~= meta_bytes(self.meta));
        }
    }
}

impl RecordsFileMeta {
    pub open spec fn empty_with_page_size_spec(page_size: u64) -> RecordsFileMeta {
        RecordsFileMeta { version: 1, records_count: 0, position: 32, page_size }
    }
}

/// The contents of byte slices.
pub open spec fn slices_view(s: Seq<&[u8]>) -> Seq<Seq<u8>> {
    s.map_values(|b: &[u8]| b@)
}

pub proof fn lemma_meta_len(m: RecordsFileMeta)
    ensures
        meta_bytes(m).len() == 32,
{
}

pub proof fn lemma_meta_round_trip(s: Seq<u8>)
    requires
        s.len() >= 32,
    ensures
        meta_bytes(meta_of(s)) == s.subrange(0, 32),
{
    lemma_u64_be_inverse(s);
    lemma_u64_be_inverse(s.subrange(8, s.len() as int));
    lemma_u64_be_inverse(s.subrange(16, s.len() as int));
    lemma_u64_be_inverse(s.subrange(24, s.len() as int));
    assert(meta_bytes(meta_of(s)) =~= s.subrange(0, 32));
}

/// The header read from a file whose first bytes hold a header is that header.
pub proof fn lemma_meta_of_bytes(m: RecordsFileMeta, file: Seq<u8>)
    requires
        file.len() >= 32,
        file.subrange(0, 32) == meta_bytes(m),
    ensures
        meta_of(file) == m,
{
    lemma_u64_be(m.version);
    lemma_u64_be(m.records_count);
    lemma_u64_be(m.position);
    lemma_u64_be(m.page_size);
    let h = meta_bytes(m);
    assert(forall|k: int| 0 <= k < 32 ==> file[k] == h[k]) by {
        assert(forall|k: int| 0 <= k < 32 ==> file.subrange(0, 32)[k] == file[k]);
    }
    assert(u64_of_be(file) == u64_of_be(u64_be(m.version)));
    assert(u64_of_be(file.subrange(8, file.len() as int)) == u64_of_be(u64_be(m.records_count)));
    assert(u64_of_be(file.subrange(16, file.len() as int)) == u64_of_be(u64_be(m.position)));
    assert(u64_of_be(file.subrange(24, file.len() as int)) == u64_of_be(u64_be(m.page_size)));
}

pub proof fn lemma_round_up(end: nat, page: nat)
    requires
        page > 0,
    ensures
        round_up(end, page) % page == 0,
        end <= round_up(end, page) < end + page,
{
    vstd::arithmetic::div_mod::lemma_fundamental_div_mod(end as int, page as int);
    vstd::arithmetic::div_mod::lemma_mod_pos_bound(end as int, page as int);
    if end % page != 0 {
        let q = end / page;
        vstd::arithmetic::div_mod::lemma_mod_multiples_basic((q + 1) as int, page as int);
        assert((q + 1) * page == page * q + page) by (nonlinear_arith);
    }
}


/// Two different multiples of `page` are at least `page` apart.
proof fn lemma_multiples_gap(x: nat, y: nat, page: nat)
    requires
        page > 0,
        x % page == 0,
        y % page == 0,
        x < y,
    ensures
        x + page <= y,
{
    vstd::arithmetic::div_mod::lemma_fundamental_div_mod(x as int, page as int);
    vstd::arithmetic::div_mod::lemma_fundamental_div_mod(y as int, page as int);
    let qx = x as int / page as int;
    let qy = y as int / page as int;
    assert(qx < qy) by (nonlinear_arith)
        requires
            x == page * qx,
            y == page * qy,
            x < y,
            page > 0,
    ;
    assert(page * qx + page <= page * qy) by (nonlinear_arith)
        requires
            qx + 1 <= qy,
            page > 0,
    ;
}

proof fn lemma_log_bytes_push(cs: Seq<Seq<u8>>, c: Seq<u8>)
    ensures
        log_bytes(cs.push(c)) == log_bytes(cs) + record_bytes(c, false),
{
    assert(cs.push(c).drop_last() =~= cs);
}

#[verifier::rlimit(80)]
proof fn lemma_write_twice(file: Seq<u8>, m: RecordsFileMeta, a: Seq<u8>, k: nat, b: Seq<u8>)
    requires
        log_wf(file, m),
        m.position + a.len() + b.len() <= u64::MAX,
        m.records_count + k + 1 <= u64::MAX,
    ensures
        after_write(after_write(file, m, a, k).0, after_write(file, m, a, k).1, b, 1)
            == after_write(file, m, a + b, k + 1),
{
    let page = m.page_size as nat;
    let p = m.position as int;
    let e1 = (p + a.len()) as nat;
    let e2 = (e1 + b.len()) as nat;
    lemma_round_up(e1, page);
    lemma_round_up(e2, page);
    let r1 = round_up(e1, page);
    let r2 = round_up(e2, page);
    assert(r1 <= r2) by {
        if r1 > r2 {
            vstd::arithmetic::div_mod::lemma_fundamental_div_mod(r1 as int, page as int);
            vstd::arithmetic::div_mod::lemma_fundamental_div_mod(r2 as int, page as int);
            assert(r1 / page > r2 / page) by (nonlinear_arith)
                requires
                    r1 == page * (r1 / page),
                    r2 == page * (r2 / page),
                    r1 > r2,
                    page > 0,
            ;
            assert(r1 / page >= r2 / page + 1);
            assert(page * (r1 / page) >= page * (r2 / page) + page) by (nonlinear_arith)
                requires
                    r1 / page >= r2 / page + 1,
                    page > 0,
            ;
        }
    }
    let (f1, m1) = after_write(file, m, a, k);
    let (lf, lm) = after_write(f1, m1, b, 1);
    let (rf, rm) = after_write(file, m, a + b, k + 1);
    lemma_meta_len(m1);
    lemma_meta_len(lm);
    assert(lm == rm);
    let g1 = grown(file, r1);
    let lhs_body = splice(grown(f1, r2), e1 as int, b);
    let rhs_body = splice(grown(file, r2), p, a + b);
    assert(lhs_body.len() == rhs_body.len());
    assert forall|i: int| 32 <= i < lhs_body.len() implies lhs_body[i] == rhs_body[i] by {
        if i < file.len() {
        }
    }
    assert(lf =~= rf);
}

/// Appending records in one batch leaves the file and its header exactly as
/// appending them one at a time does.
pub proof fn lemma_bulk_equals_appends(file: Seq<u8>, m: RecordsFileMeta, contents: Seq<Seq<u8>>)
    requires
        log_wf(file, m),
        m.position + log_bytes(contents).len() <= u64::MAX,
        m.records_count + contents.len() <= u64::MAX,
    ensures
        after_write(file, m, log_bytes(contents), contents.len()) == after_appends(
            file,
            m,
            contents,
        ),
    decreases contents.len(),
{
    if contents.len() == 0 {
        lemma_meta_len(m);
        let page = m.page_size as nat;
        lemma_round_up(m.position as nat, page);
        assert(log_bytes(contents) =~= Seq::<u8>::empty());
        if round_up(m.position as nat, page) > file.len() {
            lemma_multiples_gap(file.len(), round_up(m.position as nat, page), page);
        }
        let (f, m2) = after_write(file, m, log_bytes(contents), 0);
        assert(m2 == m);
        assert(f =~= file);
    } else {
        let cs = contents.drop_last();
        let c = contents.last();
        lemma_log_bytes_push(cs, c);
        assert(cs.push(c) =~= contents);
        lemma_bulk_equals_appends(file, m, cs);
        lemma_write_twice(file, m, log_bytes(cs), cs.len(), record_bytes(c, false));
    }
}

proof fn lemma_log_bytes_prefix(contents: Seq<Seq<u8>>, n: nat)
    requires
        n <= contents.len(),
    ensures
        log_bytes(contents.take(n as int)).len() <= log_bytes(contents).len(),
    decreases contents.len(),
{
    if n < contents.len() {
        lemma_log_bytes_prefix(contents.drop_last(), n);
        assert(contents.drop_last().take(n as int) =~= contents.take(n as int));
    } else {
        assert(contents.take(n as int) =~= contents);
    }
}

} // verus!
