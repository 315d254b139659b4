use web_container::container::header::HEADER_FIXED_BYTES;
use web_container::{Header, HeaderEntry, HEADER_ENTRY_IN_BYTES};

#[test]
pub fn test() {
    println!("Header entry bytes = {} ", HEADER_ENTRY_IN_BYTES);
}

#[test]
fn entry_size_matches_layout() {
    assert_eq!(HEADER_ENTRY_IN_BYTES, 144);
    assert_eq!(std::mem::size_of::<HeaderEntry>(), HEADER_ENTRY_IN_BYTES);
}

fn entry_bytes(name: &str, size: u64, offset: u64) -> Vec<u8> {
    let mut v = Vec::new();
    HeaderEntry::new(name, size, offset).save_to(&mut v).unwrap();
    v
}

#[test]
fn new_pads_name_with_zeros() {
    let e = HeaderEntry::new("clip.webm", 7, 9);
    let p = e.file_path();
    assert_eq!(p.len(), 128);
    assert_eq!(&p[..9], b"clip.webm");
    assert!(p[9..].iter().all(|b| *b == 0));
    assert_eq!(e.file_size(), 7);
    assert_eq!(e.offset(), 9);
    assert_eq!(e.file_path_as_str(), Some("clip.webm"));
}

#[test]
fn new_truncates_long_names() {
    let long = "a".repeat(200);
    let e = HeaderEntry::new(&long, 1, 2);
    assert!(e.file_path().iter().all(|b| *b == b'a'));
    assert_eq!(e.file_path_as_str(), Some(&long[..128]));
}

#[test]
fn name_cut_inside_a_character_is_not_utf8() {
    // 127 ASCII bytes then a two-byte character: its first byte is kept alone
    let name = format!("{}é", "a".repeat(127));
    let e = HeaderEntry::new(&name, 0, 0);
    assert_eq!(e.file_path()[127], 0xC3);
    assert_eq!(e.file_path_as_str(), None);
}

#[test]
fn name_with_multibyte_characters_round_trips() {
    let e = HeaderEntry::new("vidéo/ñ.webm", 0, 0);
    assert_eq!(e.file_path_as_str(), Some("vidéo/ñ.webm"));
}

#[test]
fn name_stops_at_first_nul() {
    let e = HeaderEntry::new("ab\0cd", 0, 0);
    assert_eq!(e.file_path_as_str(), Some("ab"));
}

#[test]
fn default_entry_is_all_zero() {
    let e = HeaderEntry::default();
    assert!(e.file_path().iter().all(|b| *b == 0));
    assert_eq!(e.file_size(), 0);
    assert_eq!(e.offset(), 0);
    assert_eq!(e.file_path_as_str(), Some(""));
}

#[test]
fn entry_save_layout() {
    let v = entry_bytes("x", 0x0102030405060708, 0x1112131415161718);
    assert_eq!(v.len(), 144);
    assert_eq!(v[0], b'x');
    assert_eq!(&v[128..136], &[8, 7, 6, 5, 4, 3, 2, 1]);
    assert_eq!(&v[136..144], &[0x18, 0x17, 0x16, 0x15, 0x14, 0x13, 0x12, 0x11]);
}

#[test]
fn entry_save_appends() {
    let mut v = vec![1u8, 2, 3];
    assert_eq!(HeaderEntry::new("x", 1, 2).save_to(&mut v), Some(()));
    assert_eq!(v.len(), 147);
    assert_eq!(&v[..3], &[1, 2, 3]);
}

#[test]
fn entry_round_trip() {
    let e = HeaderEntry::new("large.webm", 123456789, 312);
    let v = entry_bytes("large.webm", 123456789, 312);
    let back = HeaderEntry::load(&v).unwrap();
    assert!(back == e);
    assert_eq!(back.file_size(), 123456789);
    assert_eq!(back.offset(), 312);
}

#[test]
fn entry_load_needs_all_bytes() {
    let v = entry_bytes("a", 1, 2);
    assert!(HeaderEntry::load(&v[..143]).is_none());
    assert!(HeaderEntry::load(&[]).is_none());
    let mut longer = v.clone();
    longer.extend_from_slice(&[9, 9, 9]);
    assert!(HeaderEntry::load(&longer).unwrap() == HeaderEntry::load(&v).unwrap());
}

fn sample_header() -> Header {
    Header {
        num_entries: 2,
        header_size: 24 + 2 * 144,
        total_size: 24 + 2 * 144 + 10 + 20,
        entries: vec![
            HeaderEntry::new("clip.webm", 10, 312),
            HeaderEntry::new("large.webm", 20, 322),
        ],
    }
}

#[test]
fn header_round_trip() {
    let h = sample_header();
    let mut v = Vec::new();
    assert_eq!(h.save_to(&mut v), Some(()));
    assert_eq!(v.len(), 24 + 2 * 144);
    assert_eq!(&v[0..8], &2u64.to_le_bytes());
    assert_eq!(&v[8..16], &312u64.to_le_bytes());
    assert_eq!(&v[16..24], &342u64.to_le_bytes());
    let back = Header::load(&v).unwrap();
    assert!(back == h);
}

#[test]
fn header_load_ignores_trailing_bytes() {
    let h = sample_header();
    let mut v = Vec::new();
    h.save_to(&mut v).unwrap();
    v.extend_from_slice(&[0xAA; 30]);
    assert!(Header::load(&v).unwrap() == h);
}

#[test]
fn header_load_fails_when_short() {
    let h = sample_header();
    let mut v = Vec::new();
    h.save_to(&mut v).unwrap();
    assert!(Header::load(&v[..v.len() - 1]).is_none());
    assert!(Header::load(&v[..23]).is_none());
    assert!(Header::load(&[]).is_none());
}

#[test]
fn header_load_count_beyond_input() {
    let mut v = Vec::new();
    v.extend_from_slice(&1000u64.to_le_bytes());
    v.extend_from_slice(&[0u8; 16 + 999 * 144]);
    assert!(Header::load(&v).is_none());
    v.extend_from_slice(&[0u8; 144]);
    assert_eq!(Header::load(&v).unwrap().entries.len(), 1000);
}

#[test]
fn header_with_count_mismatch_reads_count_entries() {
    let mut h = sample_header();
    h.num_entries = 1;
    let mut v = Vec::new();
    h.save_to(&mut v).unwrap();
    assert_eq!(v.len(), 24 + 2 * 144);
    let back = Header::load(&v).unwrap();
    assert_eq!(back.entries.len(), 1);
    assert!(back.entries[0] == h.entries[0]);
}

#[test]
fn empty_header() {
    let h = Header::default();
    assert_eq!(h.num_entries, 0);
    assert!(h.entries.is_empty());
    let mut v = Vec::new();
    h.save_to(&mut v).unwrap();
    assert_eq!(v, vec![0u8; HEADER_FIXED_BYTES]);
    assert!(Header::load(&v).unwrap() == h);
}

#[test]
fn read_sizes_and_required_len() {
    let h = sample_header();
    let mut v = Vec::new();
    h.save_to(&mut v).unwrap();
    assert_eq!(Header::read_sizes(&v), Some((2, 312, 342)));
    assert_eq!(Header::read_sizes(&v[..23]), None);
    assert_eq!(Header::required_len(&v[..24]), Some(312));
    assert_eq!(Header::required_len(&v[..10]), None);
    let mut big = Vec::new();
    big.extend_from_slice(&u64::MAX.to_le_bytes());
    big.extend_from_slice(&[0u8; 16]);
    assert_eq!(Header::required_len(&big), None);
    let mut edge = Vec::new();
    edge.extend_from_slice(&((u64::MAX - 24) / 144).to_le_bytes());
    edge.extend_from_slice(&[0u8; 16]);
    assert_eq!(Header::required_len(&edge), Some(24 + 144 * ((u64::MAX - 24) / 144)));
}

#[test]
fn find_entry_by_name() {
    let h = sample_header();
    assert_eq!(h.find_entry("large.webm"), Some(1));
    assert_eq!(h.find_entry("clip.webm"), Some(0));
    assert_eq!(h.find_entry("clip"), None);
    assert_eq!(h.find_entry(""), None);
}

#[test]
fn find_entry_takes_first_match() {
    let h = Header {
        num_entries: 3,
        header_size: 0,
        total_size: 0,
        entries: vec![
            HeaderEntry::new("a", 1, 0),
            HeaderEntry::new("b", 2, 0),
            HeaderEntry::new("b", 3, 0),
        ],
    };
    assert_eq!(h.find_entry("b"), Some(1));
}

#[test]
fn find_entry_skips_invalid_names() {
    let name = format!("{}é", "a".repeat(127));
    let h = Header {
        num_entries: 1,
        header_size: 0,
        total_size: 0,
        entries: vec![HeaderEntry::new(&name, 0, 0)],
    };
    assert_eq!(h.find_entry(&"a".repeat(127)), None);
}

#[test]
fn entry_debug_text() {
    let e = HeaderEntry::new("clip.webm", 12, 312);
    assert_eq!(
        e.debug_text(),
        "HeaderEntry { filename: \"clip.webm\", file_size: 12, offset: 312 }"
    );
    let z = HeaderEntry::default();
    assert_eq!(z.debug_text(), "HeaderEntry { filename: \"\", file_size: 0, offset: 0 }");
    let m = HeaderEntry::new("m", u64::MAX, 10);
    assert_eq!(
        m.debug_text(),
        "HeaderEntry { filename: \"m\", file_size: 18446744073709551615, offset: 10 }"
    );
}

#[test]
fn header_debug_text() {
    let h = sample_header();
    assert_eq!(
        h.debug_text(),
        "Header { num_entries: 2, header_size: 312, total_size: 342, entries: [\
         HeaderEntry { filename: \"clip.webm\", file_size: 10, offset: 312 }, \
         HeaderEntry { filename: \"large.webm\", file_size: 20, offset: 322 }] }"
    );
    assert_eq!(
        Header::default().debug_text(),
        "Header { num_entries: 0, header_size: 0, total_size: 0, entries: [] }"
    );
}
