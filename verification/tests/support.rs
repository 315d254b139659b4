use std::io::Cursor;
use web_container::range::{fetch_bounds, range_headers_json};
use web_container::transfer::ChunkedCopy;
use web_container::{ErrorKind, HeaderEntry, PackableFile, WebPackable};

#[test]
fn range_headers_text() {
    assert_eq!(range_headers_json(0, 24), " { \"Range\" : \"bytes=0-23\" }   ");
    assert_eq!(range_headers_json(312, 1000), " { \"Range\" : \"bytes=312-999\" }   ");
    assert_eq!(range_headers_json(-5, 0), " { \"Range\" : \"bytes=-5--1\" }   ");
    assert_eq!(
        range_headers_json(i64::MIN, i64::MAX),
        format!(" {{ \"Range\" : \"bytes={}-{}\" }}   ", i64::MIN, i64::MAX - 1)
    );
}

#[test]
fn fetch_bounds_cover_the_file() {
    let e = HeaderEntry::new("a", 20, 312);
    assert_eq!(fetch_bounds(&e), Some((312, 332)));
    assert_eq!(
        range_headers_json(312, 332),
        " { \"Range\" : \"bytes=312-331\" }   "
    );
    let edge = HeaderEntry::new("a", 10, i64::MAX as u64 - 10);
    assert_eq!(fetch_bounds(&edge), Some((i64::MAX - 10, i64::MAX)));
    let over = HeaderEntry::new("a", 11, i64::MAX as u64 - 10);
    assert_eq!(fetch_bounds(&over), None);
    let big = HeaderEntry::new("a", 0, 1 << 63);
    assert_eq!(fetch_bounds(&big), None);
}

#[test]
fn chunked_copy_reads_in_buffer_sized_pieces() {
    let mut c = ChunkedCopy::new(5000, 2048);
    assert_eq!(c.next_read_len(), 2048);
    assert!(!c.record_read(2048));
    assert_eq!(c.next_read_len(), 2048);
    assert!(!c.record_read(1000));
    assert_eq!(c.copied(), 3048);
    assert_eq!(c.next_read_len(), 1952);
    assert!(c.record_read(1952));
    assert_eq!(c.copied(), 5000);
    assert_eq!(c.next_read_len(), 0);
}

#[test]
fn chunked_copy_of_nothing() {
    let mut c = ChunkedCopy::new(0, 1024);
    assert_eq!(c.next_read_len(), 0);
    assert!(c.record_read(0));
    assert_eq!(c.copied(), 0);
}

#[test]
fn cursor_is_packable() {
    let mut data = Cursor::new(vec![1u8, 2, 3, 4]);
    assert_eq!(data.len(), 4);
    let f = PackableFile::new("bytes.bin", &mut data);
    assert_eq!(f.filename, "bytes.bin");
    assert_eq!(f.data.len(), 4);
    let mut other = Cursor::new(vec![0u8; 7]);
    let g: PackableFile = PackableFile::new("dyn.bin", &mut other as &mut dyn WebPackable);
    assert_eq!(g.data.len(), 7);
}

#[test]
fn error_kinds() {
    let e = ErrorKind::GenericTextError("header load failed");
    assert!(matches!(e, ErrorKind::GenericTextError("header load failed")));
    let io = ErrorKind::GenericError(std::io::Error::new(std::io::ErrorKind::NotFound, "gone"));
    assert!(format!("{:?}", io).contains("NotFound"));
    assert!(matches!(ErrorKind::PackFailed("x"), ErrorKind::PackFailed("x")));
}
