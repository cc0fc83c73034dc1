use css_parser_core::reader::{Reader, ReaderError};
use std::io::Cursor;


#[test]
fn reader_decodes_utf8_input() {
    let mut reader = Reader::new(Cursor::new("body { color: é; }".as_bytes()));

    assert_eq!(reader.read().unwrap(), "body { color: é; }");
}

#[test]
fn reader_caches_successful_reads() {
    let mut reader = Reader::new(Cursor::new(b"cached"));

    assert_eq!(reader.read().unwrap(), "cached");
    assert_eq!(reader.read().unwrap(), "cached");
}

#[test]
fn reader_reports_invalid_utf8() {
    let mut reader = Reader::new(Cursor::new(vec![b'a', 0xFF, b'b']));

    assert_eq!(
        reader.read().unwrap_err(),
        ReaderError::InvalidUtf8 {
            valid_up_to: 1,
            error_len: Some(1),
        }
    );
}

#[test]
fn reader_caches_decoding_errors() {
    let mut reader = Reader::new(Cursor::new(vec![0xFF]));

    let first = reader.read().unwrap_err();
    let second = reader.read().unwrap_err();
    assert_eq!(first, second);
}
