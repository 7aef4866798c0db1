//! Byte-level codec tests: the variable-length integer round trip, the
//! database header round trip, and the page-size sentinel.

use sqlite_codec::btree::InputContext;
use sqlite_codec::bytes::{read_varint, write_varint, read_u16, read_u32, write_u16, write_u32};
use sqlite_codec::db::{decode_header, encode_header};
use sqlite_codec::error::ErrorKind;
use sqlite_codec::types::{DbHeader, TextEncoding, SQLITE_3_37_2_VERSION};

fn sample_header(page_size: u32) -> DbHeader {
    DbHeader {
        page_size,
        file_format_write_version: 2,
        file_format_read_version: 2,
        max_embedded_payload_frac: 64,
        min_embedded_payload_frac: 32,
        leaf_payload_frac: 32,
        file_change_counter: 1,
        db_size: 1,
        page_num_first_freelist: 0,
        page_count_freelist: 0,
        schema_cookie: 1,
        schema_format_number: 4,
        default_page_cache_size: 0,
        page_num_largest_root_btree: 0,
        text_encoding: TextEncoding::UTF8,
        user_version: 0,
        vaccum_mode: 0,
        app_id: 0,
        version_valid_for: 1,
        sqlite_version: SQLITE_3_37_2_VERSION,
    }
}

#[test]
fn varint_round_trip_small() {
    for n in [0u64, 1, 0x7f, 0x80, 0x3fff, 0x4000, 0x1f_ffff, 0x20_0000] {
        let mut buf: Vec<u8> = Vec::new();
        write_varint(&mut buf, n);
        let (value, width) = read_varint(&buf, 0).unwrap();
        assert_eq!(value, n);
        assert_eq!(width, buf.len());
    }
}

#[test]
fn varint_round_trip_wide() {
    let cases = [
        (0u64, 1usize),
        (0x7f, 1),
        (0x80, 2),
        (0x3fff, 2),
        (0x4000, 3),
        (0xfff_ffff, 4),
        (0x1000_0000, 5),
        (0x3ff_ffff_ffff, 6),
        (0x400_0000_0000, 7),
        (0x1_ffff_ffff_ffff, 7),
        (0x2_0000_0000_0000, 8),
        (0xff_ffff_ffff_ffff, 8),
        (0x100_0000_0000_0000, 9),
        (u64::MAX, 9),
    ];
    for (n, expected_width) in cases {
        let mut buf: Vec<u8> = Vec::new();
        write_varint(&mut buf, n);
        assert_eq!(buf.len(), expected_width);
        let (value, width) = read_varint(&buf, 0).unwrap();
        assert_eq!(value, n);
        assert_eq!(width, expected_width);
    }
}

#[test]
fn varint_nine_byte_example() {
    let mut buf: Vec<u8> = Vec::new();
    write_varint(&mut buf, u64::MAX);
    assert_eq!(buf, vec![0xff, 0xff, 0xff, 0xff, 0xff, 0xff, 0xff, 0xff, 0xff]);
}

#[test]
fn varint_truncated_input() {
    let e = read_varint(&[0x81], 0).unwrap_err();
    assert_eq!(e.kind(), ErrorKind::EndOfInput);
}

#[test]
fn big_endian_round_trips() {
    let mut buf: Vec<u8> = Vec::new();
    write_u16(&mut buf, 0x1234);
    write_u32(&mut buf, 0xdead_beef);
    assert_eq!(buf, vec![0x12, 0x34, 0xde, 0xad, 0xbe, 0xef]);
    assert_eq!(read_u16(&buf, 0).unwrap(), 0x1234);
    assert_eq!(read_u32(&buf, 2).unwrap(), 0xdead_beef);
    assert_eq!(read_u32(&buf, 3).unwrap_err().kind(), ErrorKind::EndOfInput);
}

#[test]
fn db_header_round_trip() {
    let header = sample_header(4096);
    let bytes = encode_header(&header).unwrap();
    assert_eq!(bytes.len(), 100);
    let back = decode_header(&bytes).unwrap();
    assert_eq!(back, header);
    let again = encode_header(&back).unwrap();
    assert_eq!(again, bytes);
}

#[test]
fn page_size_sentinel() {
    let header = sample_header(65536);
    let bytes = encode_header(&header).unwrap();
    assert_eq!(bytes[16], 0);
    assert_eq!(bytes[17], 1);
    let back = decode_header(&bytes).unwrap();
    assert_eq!(back.page_size, 65536);
    let verbatim = sample_header(4096);
    let bytes = encode_header(&verbatim).unwrap();
    assert_eq!(bytes[16], 0x10);
    assert_eq!(bytes[17], 0);
}

#[test]
fn db_header_rejects_bad_magic() {
    let header = sample_header(4096);
    let mut bytes = encode_header(&header).unwrap();
    bytes[0] = b'X';
    let e = decode_header(&bytes).unwrap_err();
    assert_eq!(e.kind(), ErrorKind::InvalidMagic);
}

#[test]
fn db_header_rejects_unknown_encoding() {
    let header = sample_header(4096);
    let mut bytes = encode_header(&header).unwrap();
    bytes[59] = 9;
    let e = decode_header(&bytes).unwrap_err();
    assert_eq!(e.kind(), ErrorKind::UnsupportedEncoding);
}

#[test]
fn db_header_rejects_short_input() {
    let e = decode_header(&[0u8; 40]).unwrap_err();
    assert_eq!(e.kind(), ErrorKind::EndOfInput);
    assert!(!e.message().is_empty());
}

#[test]
fn cursor_reads_and_seeks_absolutely() {
    let bytes = [0x01u8, 0x02, 0x03, 0x04, 0x85, 0x20];
    let mut ctx = InputContext::new(&bytes);
    assert_eq!(ctx.read_u8().unwrap(), 0x01);
    assert_eq!(ctx.read_u16().unwrap(), 0x0203);
    let mut back = ctx.seek_at(0);
    assert_eq!(back.read_u32().unwrap(), 0x0102_0304);
    // A two-byte variable-length integer: 0x85 0x20 spells 5 * 128 + 32.
    assert_eq!(back.read_varint().unwrap(), 672);
    let mut tail = ctx.seek_at(4);
    assert_eq!(tail.read_bytes(2).unwrap(), vec![0x85, 0x20]);
    assert_eq!(tail.read_u8().unwrap_err().kind(), ErrorKind::EndOfInput);
}
