//! Backfill tests: the empty-WAL identity, page replacement and growth,
//! header replacement from a page-1 frame, truncation refusal, synthesis
//! from a WAL alone, raw-byte backfill and WAL merging.

use std::collections::HashMap;
use sqlite_codec::backfill::{backfill, backfill_bytes, merge, to_db};
use sqlite_codec::db::{decode, encode, encode_header};
use sqlite_codec::error::ErrorKind;
use sqlite_codec::types::{Db, DbHeader, TextEncoding, Wal, WalFrame, WalFrameHeader, WalHeader,
    MAGIC_NUMBER_2, SQLITE_3_37_2_VERSION, SUPPORTED_FILE_FORMAT};

fn sample_header(page_size: u32, db_size: u32) -> DbHeader {
    DbHeader {
        page_size,
        file_format_write_version: 2,
        file_format_read_version: 2,
        max_embedded_payload_frac: 64,
        min_embedded_payload_frac: 32,
        leaf_payload_frac: 32,
        file_change_counter: 1,
        db_size,
        page_num_first_freelist: 0,
        page_count_freelist: 0,
        schema_cookie: 1,
        schema_format_number: 4,
        default_page_cache_size: 0,
        page_num_largest_root_btree: 0,
        text_encoding: TextEncoding::UTF8,
        user_version: 0,
        vaccum_mode: 0,
        app_id: 0,
        version_valid_for: 1,
        sqlite_version: SQLITE_3_37_2_VERSION,
    }
}

fn wal_header(page_size: u32) -> WalHeader {
    WalHeader {
        magic_number: MAGIC_NUMBER_2,
        file_format: SUPPORTED_FILE_FORMAT,
        page_size,
        checkpoint_seq: 0,
        salt_1: 1,
        salt_2: 2,
        checksum_1: 0,
        checksum_2: 0,
    }
}

fn frame(page_number: u32, commit: u32, data: Vec<u8>) -> WalFrame {
    WalFrame {
        header: WalFrameHeader {
            page_number,
            db_size_after_commit: commit,
            salt_1: 1,
            salt_2: 2,
            checksum_1: 0,
            checksum_2: 0,
        },
        data,
    }
}

fn one_page_db(page_size: u32) -> Db {
    let header = sample_header(page_size, 1);
    let mut page = encode_header(&header).unwrap();
    page.resize(page_size as usize, 0);
    let mut pages: HashMap<u32, Vec<u8>> = HashMap::new();
    pages.insert(1, page);
    Db { header, pages }
}

#[test]
fn empty_wal_leaves_database_byte_identical() {
    let mut db = one_page_db(4096);
    let before = encode(&db).unwrap();
    let wal = Wal { header: wal_header(4096), frames: vec![] };
    backfill(&mut db, &wal).unwrap();
    let after = encode(&db).unwrap();
    assert_eq!(before, after);
}

#[test]
fn backfill_rejects_page_size_mismatch() {
    let mut db = one_page_db(4096);
    let wal = Wal { header: wal_header(512), frames: vec![] };
    let e = backfill(&mut db, &wal).unwrap_err();
    assert_eq!(e.kind(), ErrorKind::PageSizeMismatch);
}

#[test]
fn backfill_replaces_and_grows() {
    let ps = 512u32;
    let mut db = one_page_db(ps);
    let wal = Wal {
        header: wal_header(ps),
        frames: vec![
            frame(2, 0, vec![0x22; ps as usize]),
            frame(3, 0, vec![0x33; ps as usize]),
            frame(2, 0, vec![0x44; ps as usize]),
        ],
    };
    backfill(&mut db, &wal).unwrap();
    assert_eq!(db.header.db_size, 3);
    assert_eq!(db.pages.get(&2).unwrap(), &vec![0x44; ps as usize]);
    assert_eq!(db.pages.get(&3).unwrap(), &vec![0x33; ps as usize]);
    // The declared count never shrank and covers every written page.
    assert!(db.header.db_size >= 1);
    assert!(db.pages.contains_key(&1));
}

#[test]
fn backfill_replaces_header_from_page_one_frame() {
    let ps = 512u32;
    let mut db = one_page_db(ps);
    let mut new_header = sample_header(ps, 1);
    new_header.schema_cookie = 42;
    let mut image = encode_header(&new_header).unwrap();
    image.resize(ps as usize, 0);
    let wal = Wal { header: wal_header(ps), frames: vec![frame(1, 0, image.clone())] };
    backfill(&mut db, &wal).unwrap();
    assert_eq!(db.header.schema_cookie, 42);
    assert_eq!(db.pages.get(&1).unwrap(), &image);
}

#[test]
fn backfill_refuses_truncation() {
    let ps = 512u32;
    let mut db = one_page_db(ps);
    // Grow to three pages first, then a commit frame asks for one page.
    let wal = Wal {
        header: wal_header(ps),
        frames: vec![
            frame(2, 0, vec![2; ps as usize]),
            frame(3, 0, vec![3; ps as usize]),
            frame(2, 1, vec![9; ps as usize]),
        ],
    };
    let e = backfill(&mut db, &wal).unwrap_err();
    assert_eq!(e.kind(), ErrorKind::TruncationRequired);
}

#[test]
fn backfill_reports_count_overflow() {
    let ps = 512u32;
    let mut db = one_page_db(ps);
    db.header.db_size = u32::MAX;
    let wal = Wal { header: wal_header(ps), frames: vec![frame(7, 0, vec![7; ps as usize])] };
    let e = backfill(&mut db, &wal).unwrap_err();
    assert_eq!(e.kind(), ErrorKind::Overflow);
}

#[test]
fn to_db_builds_a_database_from_a_wal() {
    let ps = 512u32;
    let header = sample_header(ps, 1);
    let wal = Wal { header: wal_header(ps), frames: vec![frame(2, 0, vec![5; ps as usize])] };
    let db = to_db(&header, &wal).unwrap();
    assert_eq!(db.header.db_size, 2);
    assert!(db.pages.contains_key(&1));
    assert_eq!(db.pages.get(&2).unwrap(), &vec![5; ps as usize]);
    let bytes = encode(&db).unwrap();
    let back = decode(&bytes).unwrap();
    assert_eq!(back.header.db_size, 2);
}

#[test]
fn backfill_bytes_splices_pages() {
    let ps = 512u32;
    let db = one_page_db(ps);
    let mut bytes = encode(&db).unwrap();
    let wal = Wal { header: wal_header(ps), frames: vec![frame(3, 0, vec![9; ps as usize])] };
    backfill_bytes(&wal, &mut bytes).unwrap();
    assert_eq!(bytes.len(), 3 * ps as usize);
    assert!(bytes[ps as usize..2 * ps as usize].iter().all(|b| *b == 0));
    assert!(bytes[2 * ps as usize..].iter().all(|b| *b == 9));
}

#[test]
fn backfill_bytes_rejects_page_size_mismatch() {
    let db = one_page_db(512);
    let mut bytes = encode(&db).unwrap();
    let wal = Wal { header: wal_header(1024), frames: vec![] };
    let e = backfill_bytes(&wal, &mut bytes).unwrap_err();
    assert_eq!(e.kind(), ErrorKind::PageSizeMismatch);
}

#[test]
fn merge_concatenates_frames() {
    let ps = 8u32;
    let mut a = Wal { header: wal_header(ps), frames: vec![frame(1, 0, vec![1; 8])] };
    let b = Wal { header: wal_header(ps), frames: vec![frame(2, 0, vec![2; 8]), frame(3, 0, vec![3; 8])] };
    merge(&mut a, &b).unwrap();
    assert_eq!(a.frames.len(), 3);
    assert_eq!(a.frames[1].header.page_number, 2);
    assert_eq!(a.frames[2].data, vec![3; 8]);
}
