use simpledb::bytes::{
    encode_be_u64, read_bytes_from_log, read_u64_from_log, write_encoded_bytes_to_buffer,
    write_encoded_char_to_buffer, ByteReader, U64_BYTES_LEN,
};
use simpledb::error::IoErrorKind;
use simpledb::files::{
    encode_decimal, get_db_file_path, parse_decimal, CHECKPOINT_FILE_NAME, LOG_FILE_NAME,
    NEW_VERSION_FILE_NAME, VERSION_FILE_NAME,
};

#[test]
fn test_encode_be_u64() {
    assert_eq!(U64_BYTES_LEN, 8);
    assert_eq!(encode_be_u64(0), [0, 0, 0, 0, 0, 0, 0, 0]);
    assert_eq!(encode_be_u64(1), [0, 0, 0, 0, 0, 0, 0, 1]);
    assert_eq!(encode_be_u64(258), [0, 0, 0, 0, 0, 0, 1, 2]);
    assert_eq!(encode_be_u64(0x0102_0304), [0, 0, 0, 0, 1, 2, 3, 4]);
    assert_eq!(encode_be_u64(usize::MAX), (usize::MAX as u64).to_be_bytes());
}

#[test]
fn test_write_encoded_char_to_buffer() {
    let mut buf = vec![7u8];
    write_encoded_char_to_buffer('p', &mut buf);
    assert_eq!(buf, vec![7, 0, 0, 0, 0, 0, 0, 0, 1, b'p']);
    write_encoded_char_to_buffer('d', &mut buf);
    assert_eq!(buf, vec![7, 0, 0, 0, 0, 0, 0, 0, 1, b'p', 0, 0, 0, 0, 0, 0, 0, 1, b'd']);
}

#[test]
fn test_write_encoded_char_keeps_the_low_byte() {
    let mut buf = Vec::new();
    write_encoded_char_to_buffer('\u{1f600}', &mut buf);
    assert_eq!(buf, vec![0, 0, 0, 0, 0, 0, 0, 1, 0x00]);
    let mut buf = Vec::new();
    write_encoded_char_to_buffer('\u{e9}', &mut buf);
    assert_eq!(buf, vec![0, 0, 0, 0, 0, 0, 0, 1, 0xe9]);
}

#[test]
fn test_write_encoded_bytes_to_buffer() {
    let mut buf = Vec::new();
    write_encoded_bytes_to_buffer(b"Hello".to_vec(), &mut buf);
    assert_eq!(buf, vec![0, 0, 0, 0, 0, 0, 0, 5, b'H', b'e', b'l', b'l', b'o']);
    write_encoded_bytes_to_buffer(Vec::new(), &mut buf);
    assert_eq!(
        buf,
        vec![0, 0, 0, 0, 0, 0, 0, 5, b'H', b'e', b'l', b'l', b'o', 0, 0, 0, 0, 0, 0, 0, 0]
    );
    let mut buf = Vec::new();
    write_encoded_bytes_to_buffer(vec![9u8; 300], &mut buf);
    assert_eq!(buf.len(), 308);
    assert_eq!(&buf[..8], &[0, 0, 0, 0, 0, 0, 1, 44]);
    assert!(buf[8..].iter().all(|b| *b == 9));
}

#[test]
fn test_read_u64_from_log() {
    let mut reader = ByteReader::new(vec![1, 2, 3, 4, 5, 6, 7, 8, 0, 0, 0, 0, 0, 0, 1, 0, 9]);
    assert_eq!(read_u64_from_log(&mut reader), Ok(0x0102_0304_0506_0708));
    assert_eq!(reader.remaining(), 9);
    assert_eq!(read_u64_from_log(&mut reader), Ok(256));
    assert_eq!(reader.remaining(), 1);
    assert_eq!(read_u64_from_log(&mut reader), Err(IoErrorKind::UnexpectedEof));
    assert_eq!(reader.remaining(), 1);
    let mut reader = ByteReader::new(vec![0xff; 8]);
    assert_eq!(read_u64_from_log(&mut reader), Ok(u64::MAX));
}

#[test]
fn test_read_bytes_from_log() {
    let mut reader = ByteReader::new(vec![1, 2, 3, 4, 5]);
    assert_eq!(read_bytes_from_log(&mut reader, 2), Ok(vec![1, 2]));
    assert_eq!(read_bytes_from_log(&mut reader, 0), Ok(vec![]));
    assert_eq!(read_bytes_from_log(&mut reader, 4), Err(IoErrorKind::UnexpectedEof));
    assert_eq!(read_bytes_from_log(&mut reader, u64::MAX), Err(IoErrorKind::UnexpectedEof));
    assert_eq!(reader.remaining(), 3);
    assert_eq!(read_bytes_from_log(&mut reader, 3), Ok(vec![3, 4, 5]));
    assert_eq!(reader.remaining(), 0);
    assert_eq!(read_bytes_from_log(&mut reader, 1), Err(IoErrorKind::UnexpectedEof));
}

#[test]
fn test_reader_mark_and_reset() {
    let mut reader = ByteReader::new(vec![1, 2, 3, 4, 5]);
    assert_eq!(read_bytes_from_log(&mut reader, 2), Ok(vec![1, 2]));
    let mark = reader.mark();
    assert_eq!(mark, 2);
    assert_eq!(read_bytes_from_log(&mut reader, 3), Ok(vec![3, 4, 5]));
    reader.reset(mark);
    assert_eq!(reader.remaining(), 3);
    assert_eq!(read_bytes_from_log(&mut reader, 1), Ok(vec![3]));
}

#[test]
fn test_encoded_bytes_are_read_back() {
    let mut buf = Vec::new();
    write_encoded_bytes_to_buffer(b"key".to_vec(), &mut buf);
    write_encoded_bytes_to_buffer(b"a longer value".to_vec(), &mut buf);
    let mut reader = ByteReader::new(buf);
    let n = read_u64_from_log(&mut reader).unwrap();
    assert_eq!(n, 3);
    assert_eq!(read_bytes_from_log(&mut reader, n), Ok(b"key".to_vec()));
    let n = read_u64_from_log(&mut reader).unwrap();
    assert_eq!(n, 14);
    assert_eq!(read_bytes_from_log(&mut reader, n), Ok(b"a longer value".to_vec()));
    assert_eq!(reader.remaining(), 0);
}

#[test]
fn test_encode_decimal() {
    assert_eq!(encode_decimal(0), b"0".to_vec());
    assert_eq!(encode_decimal(7), b"7".to_vec());
    assert_eq!(encode_decimal(10), b"10".to_vec());
    assert_eq!(encode_decimal(1234567890), b"1234567890".to_vec());
    assert_eq!(encode_decimal(u64::MAX), b"18446744073709551615".to_vec());
}

#[test]
fn test_parse_decimal() {
    assert_eq!(parse_decimal(b"0"), Some(0));
    assert_eq!(parse_decimal(b"42"), Some(42));
    assert_eq!(parse_decimal(b"007"), Some(7));
    assert_eq!(parse_decimal(b"+5"), Some(5));
    assert_eq!(parse_decimal(b"18446744073709551615"), Some(u64::MAX));
    assert_eq!(parse_decimal(b"18446744073709551616"), None);
    assert_eq!(parse_decimal(b"99999999999999999999"), None);
    assert_eq!(parse_decimal(b""), None);
    assert_eq!(parse_decimal(b"+"), None);
    assert_eq!(parse_decimal(b"-1"), None);
    assert_eq!(parse_decimal(b"++1"), None);
    assert_eq!(parse_decimal(b"1+"), None);
    assert_eq!(parse_decimal(b"12a"), None);
    assert_eq!(parse_decimal(b" 1"), None);
    assert_eq!(parse_decimal(b"1\n"), None);
}

#[test]
fn test_parse_decimal_agrees_with_std() {
    let texts: [&str; 8] = ["0", "1", "+17", "0009", "", "x", "18446744073709551615", "1e3"];
    for text in texts {
        assert_eq!(parse_decimal(text.as_bytes()), text.parse::<u64>().ok());
    }
    for n in [0u64, 9, 10, 99, 100, 65535, 1 << 40, u64::MAX - 1, u64::MAX] {
        assert_eq!(encode_decimal(n), format!("{}", n).into_bytes());
        assert_eq!(parse_decimal(&encode_decimal(n)), Some(n));
    }
}

#[test]
fn test_get_db_file_path() {
    assert_eq!(get_db_file_path(Some(0), CHECKPOINT_FILE_NAME), b"checkpoint.0".to_vec());
    assert_eq!(get_db_file_path(Some(12), LOG_FILE_NAME), b"logfile.12".to_vec());
    assert_eq!(get_db_file_path(None, VERSION_FILE_NAME), b"version".to_vec());
    assert_eq!(get_db_file_path(None, NEW_VERSION_FILE_NAME), b"new_version".to_vec());
    assert_eq!(
        get_db_file_path(Some(u64::MAX), "checkpoint"),
        b"checkpoint.18446744073709551615".to_vec()
    );
}
