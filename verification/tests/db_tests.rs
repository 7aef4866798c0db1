//! Whole-database codec tests: the decode-encode round trip, gap filling,
//! and the layout errors.

use std::collections::HashMap;
use sqlite_codec::db::{decode, encode, encode_header};
use sqlite_codec::error::ErrorKind;
use sqlite_codec::types::{Db, DbHeader, TextEncoding, SQLITE_3_37_2_VERSION};

fn sample_header(page_size: u32, db_size: u32) -> DbHeader {
    DbHeader {
        page_size,
        file_format_write_version: 1,
        file_format_read_version: 1,
        max_embedded_payload_frac: 64,
        min_embedded_payload_frac: 32,
        leaf_payload_frac: 32,
        file_change_counter: 7,
        db_size,
        page_num_first_freelist: 0,
        page_count_freelist: 0,
        schema_cookie: 3,
        schema_format_number: 4,
        default_page_cache_size: 0,
        page_num_largest_root_btree: 0,
        text_encoding: TextEncoding::UTF8,
        user_version: 0,
        vaccum_mode: 0,
        app_id: 0,
        version_valid_for: 7,
        sqlite_version: SQLITE_3_37_2_VERSION,
    }
}

fn sample_db_bytes(page_size: u32, db_size: u32) -> Vec<u8> {
    let header = sample_header(page_size, db_size);
    let mut bytes = encode_header(&header).unwrap();
    bytes.resize(page_size as usize, 0);
    for page in 1..db_size {
        for i in 0..page_size {
            bytes.push((page as u8).wrapping_add(i as u8));
        }
    }
    bytes
}

#[test]
fn db_round_trip() {
    let bytes = sample_db_bytes(512, 3);
    let db = decode(&bytes).unwrap();
    assert_eq!(db.header.db_size, 3);
    assert_eq!(db.pages.len(), 3);
    assert_eq!(db.pages.get(&1).unwrap().len(), 512);
    let again = encode(&db).unwrap();
    assert_eq!(again, bytes);
}

#[test]
fn db_decode_rejects_truncated_file() {
    let mut bytes = sample_db_bytes(512, 3);
    bytes.pop();
    let e = decode(&bytes).unwrap_err();
    assert_eq!(e.kind(), ErrorKind::TruncatedFile);
}

#[test]
fn db_decode_needs_one_whole_page() {
    let header = sample_header(512, 1);
    let bytes = encode_header(&header).unwrap();
    let e = decode(&bytes).unwrap_err();
    assert_eq!(e.kind(), ErrorKind::EndOfInput);
}

#[test]
fn db_encode_fills_gaps_with_zero_pages() {
    let bytes = sample_db_bytes(512, 3);
    let mut db = decode(&bytes).unwrap();
    db.pages.remove(&3);
    let out = encode(&db).unwrap();
    assert_eq!(out.len(), 3 * 512);
    assert!(out[2 * 512..].iter().all(|b| *b == 0));
}

#[test]
fn db_encode_needs_page_one() {
    let mut pages: HashMap<u32, Vec<u8>> = HashMap::new();
    pages.insert(2, vec![0u8; 512]);
    let db = Db { header: sample_header(512, 2), pages };
    let e = encode(&db).unwrap_err();
    assert_eq!(e.kind(), ErrorKind::MissingPage);
}
