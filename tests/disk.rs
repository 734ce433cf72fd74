use marmotte::disk_reader::{DiskReader, DiskReaderOptions, RecordError};
use marmotte::disk_writer::{DiskWriter, OpenError, Record, RecordsFileMeta};

fn read_all(file: Vec<u8>) -> Vec<Record> {
    let mut reader = DiskReader::new("log", DiskReaderOptions::create_default(), file).unwrap();
    let mut out = Vec::new();
    while let Some(r) = reader.next() {
        out.push(r);
    }
    out
}

#[test]
fn single_string_round_trips_through_the_log() {
    let mut w = DiskWriter::new("log", 2048);
    let offset = w.add_record(b"lorem ipsum");
    assert_eq!(offset, 32);
    assert_eq!(w.file.len(), 2048);
    assert_eq!(w.meta.records_count, 1);
    assert_eq!(w.meta.position, 32 + 13 + 11);

    let header = RecordsFileMeta::read_metadata(&w.file).unwrap();
    assert_eq!(header, w.meta);

    let records = read_all(w.file.clone());
    assert_eq!(records.len(), 1);
    assert_eq!(records[0].content, b"lorem ipsum".to_vec());
    assert_eq!(records[0].position, 32);
    assert!(!records[0].deleted);
    assert_eq!(records[0].checksum, crc32fast::hash(b"lorem ipsum"));
}

#[test]
fn bulk_append_of_100_records_equals_loop_append() {
    let values: Vec<Vec<u8>> = (1..=100).map(|i| format!("Record number {}!", i).into_bytes()).collect();
    let mut bulk = DiskWriter::new("bulk", 2048);
    bulk.bulk_add_records(values.iter().map(|v| v.as_slice()).collect());
    let mut looped = DiskWriter::new("loop", 2048);
    for v in &values {
        looped.add_record(v);
    }
    let end = bulk.meta.position as usize;
    assert_eq!(bulk.meta, looped.meta);
    assert_eq!(bulk.file[..end], looped.file[..end]);
    assert_eq!(bulk.file, looped.file);
    assert_eq!(bulk.meta.records_count, 100);
    assert_eq!(bulk.file.len() % 2048, 0);

    let records = read_all(bulk.file.clone());
    let contents: Vec<Vec<u8>> = records.into_iter().map(|r| r.content).collect();
    assert_eq!(contents, values);
}

#[test]
fn header_counts_records_and_position_sums_their_sizes() {
    let mut w = DiskWriter::new("log", 64);
    let sizes = [0usize, 1, 50, 200, 3];
    let mut expected = 32u64;
    for (i, n) in sizes.iter().enumerate() {
        let off = w.add_record(&vec![i as u8; *n]);
        assert_eq!(off, expected);
        expected += 13 + *n as u64;
        assert_eq!(w.file.len() % 64, 0);
        assert!(w.meta.position as usize <= w.file.len());
    }
    assert_eq!(w.meta.records_count, 5);
    assert_eq!(w.meta.position, expected);
    let records = read_all(w.file.clone());
    assert_eq!(records.len(), 5);
    for (i, r) in records.iter().enumerate() {
        assert_eq!(r.content, vec![i as u8; sizes[i]]);
    }
}

#[test]
fn record_larger_than_a_page_rounds_the_file_up_to_whole_pages() {
    let mut w = DiskWriter::new("log", 100);
    assert_eq!(w.file.len(), 100);
    w.add_record(&[9u8; 250]);
    assert_eq!(w.meta.position, 32 + 13 + 250);
    assert_eq!(w.file.len(), 300);
}

#[test]
fn flipping_a_content_bit_stops_iteration_with_corrupted() {
    let mut w = DiskWriter::new("log", 2048);
    w.add_record(b"first");
    w.add_record(b"second");
    let mut file = w.file.clone();
    let second = 32 + 13 + 5;
    file[second + 12] ^= 0x01;

    let mut reader = DiskReader::new("log", DiskReaderOptions::create_default(), file).unwrap();
    assert_eq!(reader.read_next_record().unwrap().content, b"first".to_vec());
    assert_eq!(reader.read_next_record().unwrap_err(), RecordError::Corrupted);
    assert_eq!(reader.position, second as u64);
    assert!(reader.next().is_none());
}

#[test]
fn oversized_record_is_refused() {
    let mut w = DiskWriter::new("log", 2048);
    w.add_record(&[1u8; 100]);
    let options = DiskReaderOptions { max_record_size: 10 };
    let mut reader = DiskReader::new("log", options, w.file.clone()).unwrap();
    assert_eq!(reader.read_next_record().unwrap_err(), RecordError::OversizedRecord(100));
}

#[test]
fn find_record_returns_first_match_with_its_ordinal() {
    let mut w = DiskWriter::new("log", 2048);
    for s in ["a", "bb", "ccc", "bb"] {
        w.add_record(s.as_bytes());
    }
    let mut reader = DiskReader::new("log", DiskReaderOptions::create_default(), w.file.clone()).unwrap();
    let found = reader.find_record(|r: &Record, n: u64| r.content == b"bb".to_vec() && n >= 2).unwrap();
    assert_eq!(found.position, 32 + 14);
    let found = reader.find_record(|_r: &Record, n: u64| n == 4).unwrap();
    assert_eq!(found.content, b"bb".to_vec());
    assert!(reader.find_record(|r: &Record, _n: u64| r.content.is_empty()).is_none());
}

#[test]
fn reopening_checks_the_header() {
    let mut w = DiskWriter::new("log", 512);
    w.add_record(b"x");
    let file = w.file.clone();
    let reopened = DiskWriter::open("log", 512, file.clone()).unwrap();
    assert_eq!(reopened.meta, w.meta);
    assert_eq!(DiskWriter::open("log", 1024, file.clone()).err(), Some(OpenError::Corrupted));
    assert_eq!(DiskWriter::open("log", 512, file[..10].to_vec()).err(), Some(OpenError::Truncated));
    assert_eq!(DiskReader::new("log", DiskReaderOptions::create_default(), vec![0u8; 5]).err(), Some(OpenError::Truncated));
}

#[test]
fn fresh_header_and_default_options() {
    assert_eq!(RecordsFileMeta::size(), 32);
    let m = RecordsFileMeta::empty();
    assert_eq!((m.version, m.records_count, m.position, m.page_size), (1, 0, 32, 0));
    let m = RecordsFileMeta::empty_with_page_size(4096);
    assert_eq!(m.page_size, 4096);
    assert_eq!(m.to_bytes()[24..32].to_vec(), 4096u64.to_be_bytes().to_vec());
    assert_eq!(DiskReaderOptions::create_default().max_record_size, 80 * 1024 * 1024);
    let r = Record { position: 0, content_size: 2, content: vec![5, 6], deleted: true, checksum: 7 };
    assert_eq!(r.size(), 15);
    assert_eq!(r.to_bytes(), vec![0, 0, 0, 0, 0, 0, 0, 2, 0, 0, 0, 7, 5, 6, 1]);
}

#[test]
fn page_allocation_grows_by_one_page_only_when_needed() {
    let mut w = DiskWriter::new("log", 64);
    w.allocate_page_if_needed();
    assert_eq!(w.file.len(), 64);
    w.allocate_page();
    assert_eq!(w.file.len(), 128);
    w.add_record(&[1u8; 83]);
    assert_eq!(w.meta.position, 128);
    w.allocate_page_if_needed();
    assert_eq!(w.file.len(), 192);
    let before = w.meta;
    w.load_metadata();
    assert_eq!(w.meta, before);
    w.allocate_page_if_position_need(300);
    assert_eq!(w.file.len(), 320);
}

#[test]
fn record_cut_by_the_end_of_the_file_is_truncated() {
    let w = DiskWriter::new("log", 64);
    let mut reader = DiskReader::new("log", DiskReaderOptions::create_default(), w.file.clone()).unwrap();
    reader.seek_to(60);
    assert_eq!(reader.read_next_record().unwrap_err(), RecordError::Truncated);
    assert_eq!(reader.position, 60);
    reader.rewind_to_start();
    assert_eq!(reader.position, 32);
}

#[test]
fn iteration_yields_sizes_and_checksums() {
    let mut w = DiskWriter::new("log", 2048);
    w.add_record(b"lorem ipsum");
    let mut reader = DiskReader::new("log", DiskReaderOptions::create_default(), w.file.clone()).unwrap();
    let rec = reader.next().unwrap();
    assert_eq!(rec.content, b"lorem ipsum".to_vec());
    assert_eq!(rec.content_size, 11);
    assert_eq!(rec.checksum, crc32fast::hash(b"lorem ipsum"));
    assert!(!rec.deleted);
    assert!(reader.next().is_none());
}

#[test]
fn find_record_can_select_by_position() {
    let mut w = DiskWriter::new("log", 2048);
    for s in ["a", "a", "a"] {
        w.add_record(s.as_bytes());
    }
    let mut reader = DiskReader::new("log", DiskReaderOptions::create_default(), w.file.clone()).unwrap();
    let found = reader.find_record(|r: &Record, _n: u64| r.position >= 40).unwrap();
    assert_eq!(found.position, 46);
}
