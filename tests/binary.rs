use marmotte::binary::{BinaryReader, BinaryWriter, ReadError};

#[test]
fn string_should_be_written_and_read() {
    let mut wr = BinaryWriter::with_capacity(200);
    let value = String::from("lorem ipsum");
    wr.write_string(&value);

    let mut reader = BinaryReader::from(wr.buffer);
    let result = reader.read_string();

    assert_eq!(Ok(value), result);
}

#[test]
fn int32_should_be_written_and_read() {
    let mut wr = BinaryWriter::with_capacity(200);
    let value: i32 = 983424534;
    wr.write_i32(value);

    let mut reader = BinaryReader::from(wr.buffer);
    let result = reader.read_i32();

    assert_eq!(Ok(value), result);
}

#[test]
fn uint32_should_be_written_and_read() {
    let mut wr = BinaryWriter::with_capacity(200);
    let value: u32 = 983424534;
    wr.write_u32(value);

    let mut reader = BinaryReader::from(wr.buffer);
    let result = reader.read_u32();

    assert_eq!(Ok(value), result);
}

#[test]
fn bool_true_should_be_written_and_read() {
    let mut wr = BinaryWriter::with_capacity(200);
    let value = true;
    wr.write_bool(value);

    let mut reader = BinaryReader::from(wr.buffer);
    let result = reader.read_bool();

    assert_eq!(Ok(value), result);
}

#[test]
fn bool_false_should_be_written_and_read() {
    let mut wr = BinaryWriter::with_capacity(200);
    let value = false;
    wr.write_bool(value);

    let mut reader = BinaryReader::from(wr.buffer);
    let result = reader.read_bool();

    assert_eq!(Ok(value), result);
}

#[test]
fn should_write_string_i32_bool_string() {
    let mut wr = BinaryWriter::with_capacity(500);
    let s1 = String::from("lorem ipsum");
    let i: i32 = 987654;
    let b = true;
    let s2 = String::from("salut, c'est trop cool le RUST !!!");

    wr.write_string(&s1);
    wr.write_i32(i);
    wr.write_bool(b);
    wr.write_string(&s2);

    let mut reader = BinaryReader::from(wr.buffer);

    assert_eq!(Ok(s1), reader.read_string());
    assert_eq!(Ok(i), reader.read_i32());
    assert_eq!(Ok(b), reader.read_bool());
    assert_eq!(Ok(s2), reader.read_string());

    assert_eq!(Err(ReadError::UnderRun), reader.read_bool());
}

#[test]
fn u64_and_i64_round_trip_big_endian() {
    let mut wr = BinaryWriter::with_capacity(16);
    wr.write_u64(0x0102030405060708);
    wr.write_i64(-2);
    let bytes = wr.buffer.to_vec();
    assert_eq!(bytes[..8].to_vec(), vec![1u8, 2, 3, 4, 5, 6, 7, 8]);
    assert_eq!(bytes[8..].to_vec(), vec![0xffu8, 0xff, 0xff, 0xff, 0xff, 0xff, 0xff, 0xfe]);

    let mut reader = BinaryReader::from(bytes::BytesMut::from(&bytes[..]));
    assert_eq!(Ok(0x0102030405060708u64), reader.read_u64());
    assert_eq!(Ok(-2i64), reader.read_i64());
    assert!(reader.end());
}

#[test]
fn f64_reads_and_advances_eight_bytes() {
    let bits = (-1234.5f64).to_bits();
    let mut wr = BinaryWriter::with_capacity(16);
    wr.write_f64(bits);
    wr.write_u8(7);

    let mut reader = BinaryReader::from(wr.buffer);
    let read = reader.read_f64().unwrap();
    assert_eq!(f64::from_bits(read), -1234.5f64);
    assert_eq!(reader.position, 8);
    assert_eq!(Ok(7u8), reader.read_u8());
}

#[test]
fn corrupted_bool_is_rejected_without_advancing() {
    let mut wr = BinaryWriter::with_capacity(4);
    wr.write_u8(2);
    let mut reader = BinaryReader::from(wr.buffer);
    assert_eq!(Err(ReadError::Corrupted), reader.read_bool());
    assert_eq!(reader.position, 0);
}

#[test]
fn short_reads_under_run_without_advancing() {
    let mut wr = BinaryWriter::with_capacity(4);
    wr.write_u8(1);
    wr.write_u8(2);
    wr.write_u8(3);
    let mut reader = BinaryReader::from(wr.buffer);
    assert_eq!(Err(ReadError::UnderRun), reader.read_u32());
    assert_eq!(Err(ReadError::UnderRun), reader.read_u64());
    assert_eq!(Err(ReadError::UnderRun), reader.read_string());
    assert_eq!(reader.position, 0);
    assert!(!reader.end());
}

#[test]
fn string_with_invalid_utf8_is_corrupted() {
    let mut wr = BinaryWriter::with_capacity(16);
    wr.write_u64(2);
    wr.write_u8(0xff);
    wr.write_u8(0xfe);
    let mut reader = BinaryReader::from(wr.buffer);
    assert_eq!(Err(ReadError::Corrupted), reader.read_string());
    assert_eq!(reader.position, 0);
}
