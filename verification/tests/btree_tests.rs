//! B-tree and schema tests on synthetic pages: record decoding, the
//! absolute cell-pointer rule on page 1, the schema mapping and page
//! listing.

use std::collections::HashMap;
use sqlite_codec::btree::{decode, decode_first_page, Cell, Record};
use sqlite_codec::error::ErrorKind;
use sqlite_codec::schema::{decode_sqlite_schema, find_table_by_root, Schema, Schemas, Table};
use sqlite_codec::types::{Db, DbHeader, TextEncoding, SQLITE_3_37_2_VERSION};

fn sample_header(page_size: u32, db_size: u32) -> DbHeader {
    DbHeader {
        page_size,
        file_format_write_version: 1,
        file_format_read_version: 1,
        max_embedded_payload_frac: 64,
        min_embedded_payload_frac: 32,
        leaf_payload_frac: 32,
        file_change_counter: 1,
        db_size,
        page_num_first_freelist: 0,
        page_count_freelist: 0,
        schema_cookie: 1,
        schema_format_number: 4,
        default_page_cache_size: 0,
        page_num_largest_root_btree: 0,
        text_encoding: TextEncoding::UTF8,
        user_version: 0,
        vaccum_mode: 0,
        app_id: 0,
        version_valid_for: 1,
        sqlite_version: SQLITE_3_37_2_VERSION,
    }
}

/// Lays out one schema row as a table-leaf cell at `cell_at`, preceded by a
/// leaf page header at `header_at`.
fn leaf_page_with_schema_row(
    page_size: usize,
    header_at: usize,
    cell_at: usize,
    kind: &str,
    name: &str,
    tbl: &str,
    root: u8,
    sql: &str,
) -> Vec<u8> {
    let mut page = vec![0u8; page_size];
    page[header_at] = 0x0d;
    page[header_at + 3] = 0;
    page[header_at + 4] = 1;
    let ptr = (header_at + 8) as usize;
    page[ptr] = (cell_at >> 8) as u8;
    page[ptr + 1] = (cell_at & 0xff) as u8;
    // The record: five serial types (three or four text columns, one 8-bit
    // integer), then the values.
    let st = |s: &str| (2 * s.len() + 13) as u8;
    let record_header = [6u8, st(kind), st(name), st(tbl), 1, st(sql)];
    let payload_len = record_header.len() + kind.len() + name.len() + tbl.len() + 1 + sql.len();
    let mut cell: Vec<u8> = Vec::new();
    cell.push(payload_len as u8);
    cell.push(1);
    cell.extend_from_slice(&record_header);
    cell.extend_from_slice(kind.as_bytes());
    cell.extend_from_slice(name.as_bytes());
    cell.extend_from_slice(tbl.as_bytes());
    cell.push(root);
    cell.extend_from_slice(sql.as_bytes());
    page[cell_at..cell_at + cell.len()].copy_from_slice(&cell);
    page
}

#[test]
fn decodes_a_table_leaf_record() {
    let page = leaf_page_with_schema_row(512, 0, 200, "table", "test", "test", 2, "CREATE TABLE test(a)");
    let btree = decode(&TextEncoding::UTF8, &page).unwrap();
    assert_eq!(btree.cells.len(), 1);
    match &btree.cells[0] {
        Cell::TableBTreeLeafCell(leaf) => {
            assert_eq!(leaf.rowid, 1);
            assert_eq!(leaf.records.len(), 5);
            assert_eq!(leaf.records[0].as_string(), "table");
            assert_eq!(leaf.records[1].as_string(), "test");
            assert_eq!(leaf.records[3].as_int(), 2);
            assert_eq!(leaf.records[4].as_string(), "CREATE TABLE test(a)");
        },
        _ => panic!("expected a table leaf cell"),
    }
}

#[test]
fn record_accessors() {
    assert_eq!(Record::Null.as_string(), "NULL");
    assert_eq!(Record::Int8(7).as_int(), 7);
    assert_eq!(Record::Int16(300).as_int(), 300);
}

#[test]
fn rejects_unknown_page_type() {
    let mut page = vec![0u8; 64];
    page[0] = 0x07;
    let e = decode(&TextEncoding::UTF8, &page).unwrap_err();
    assert_eq!(e.kind(), ErrorKind::UnsupportedPageType);
}

#[test]
fn rejects_unsupported_serial_type() {
    let mut page = vec![0u8; 64];
    page[0] = 0x0d;
    page[4] = 1;
    page[9] = 32;
    // Cell at offset 32: payload 2, rowid 1, record header [2, 7]: serial
    // type 7 is a floating-point column, which the core does not decode.
    page[32] = 2;
    page[33] = 1;
    page[34] = 2;
    page[35] = 7;
    let e = decode(&TextEncoding::UTF8, &page).unwrap_err();
    assert_eq!(e.kind(), ErrorKind::UnsupportedSerialType);
}

#[test]
fn rejects_non_utf8_text_encodings() {
    let page = leaf_page_with_schema_row(512, 0, 200, "table", "test", "test", 2, "CREATE TABLE test(a)");
    let e = decode(&TextEncoding::UTF16le, &page).unwrap_err();
    assert_eq!(e.kind(), ErrorKind::UnsupportedEncoding);
}

#[test]
fn rejects_invalid_utf8_text() {
    let mut page = leaf_page_with_schema_row(512, 0, 200, "table", "test", "test", 2, "CREATE TABLE test(a)");
    // Corrupt the first byte of the first text value.
    page[200 + 8] = 0xff;
    let e = decode(&TextEncoding::UTF8, &page).unwrap_err();
    assert_eq!(e.kind(), ErrorKind::UnsupportedEncoding);
}

#[test]
fn first_page_keeps_absolute_cell_offsets() {
    // The page header sits past the 100 database-header bytes, but the cell
    // pointer still addresses the page from its very start.
    let page = leaf_page_with_schema_row(512, 100, 300, "table", "t1", "t1", 3, "CREATE TABLE t1(x)");
    let btree = decode_first_page(&TextEncoding::UTF8, &page).unwrap();
    assert_eq!(btree.cells.len(), 1);
    match &btree.cells[0] {
        Cell::TableBTreeLeafCell(leaf) => assert_eq!(leaf.records[1].as_string(), "t1"),
        _ => panic!("expected a table leaf cell"),
    }
}

fn db_with_schema_row() -> Db {
    let page = leaf_page_with_schema_row(512, 100, 300, "table", "test", "test", 2, "CREATE TABLE test(a)");
    let mut pages: HashMap<u32, Vec<u8>> = HashMap::new();
    pages.insert(1, page);
    Db { header: sample_header(512, 1), pages }
}

#[test]
fn schema_mapping_contains_the_table() {
    let db = db_with_schema_row();
    let schemas = decode_sqlite_schema(&db).unwrap();
    assert!(schemas.contains("test"));
    assert!(!schemas.contains("other"));
    match &schemas.entries[0] {
        Schema::Table(t) => {
            assert_eq!(t.name, "test");
            assert_eq!(t.root_page, 2);
            assert_eq!(t.sql, "CREATE TABLE test(a)");
        },
        _ => panic!("expected a table entry"),
    }
}

#[test]
fn schema_distinguishes_indexes() {
    let page = leaf_page_with_schema_row(512, 100, 300, "index", "i1", "test", 3, "CREATE INDEX i1 ON test(a)");
    let mut pages: HashMap<u32, Vec<u8>> = HashMap::new();
    pages.insert(1, page);
    let db = Db { header: sample_header(512, 1), pages };
    let schemas = decode_sqlite_schema(&db).unwrap();
    match &schemas.entries[0] {
        Schema::Index(i) => {
            assert_eq!(i.name, "i1");
            assert_eq!(i.tbl_name, "test");
        },
        _ => panic!("expected an index entry"),
    }
}

#[test]
fn schema_needs_page_one() {
    let db = Db { header: sample_header(512, 1), pages: HashMap::new() };
    let e = decode_sqlite_schema(&db).unwrap_err();
    assert_eq!(e.kind(), ErrorKind::MissingPage);
}

#[test]
fn find_table_by_root_scans_the_schema() {
    let schemas = Schemas {
        entries: vec![
            Schema::Table(Table { name: "a".to_owned(), sql: "s".to_owned(), root_page: 2 }),
            Schema::Table(Table { name: "b".to_owned(), sql: "s".to_owned(), root_page: 5 }),
        ],
    };
    let t = find_table_by_root(5, &schemas).unwrap();
    assert_eq!(t.name, "b");
    assert!(find_table_by_root(9, &schemas).is_none());
}

#[test]
fn list_pages_walks_an_interior_root() {
    // An interior table page with two cells: children 7 and 8, row ids 10
    // and 20.
    let mut page = vec![0u8; 128];
    page[0] = 0x05;
    page[4] = 2;
    page[12] = 0;
    page[13] = 32;
    page[14] = 0;
    page[15] = 40;
    page[32 + 3] = 7;
    page[32 + 4] = 10;
    page[40 + 3] = 8;
    page[40 + 4] = 20;
    let mut pages: HashMap<u32, Vec<u8>> = HashMap::new();
    let mut root_page = vec![0u8; 512];
    root_page[..128].copy_from_slice(&page);
    pages.insert(2, root_page);
    let header_page = vec![0u8; 512];
    pages.insert(1, header_page);
    let db = Db { header: sample_header(512, 2), pages };
    let table = Table { name: "test".to_owned(), sql: "s".to_owned(), root_page: 2 };
    let ranges = table.list_pages(&db).unwrap();
    assert_eq!(ranges.len(), 2);
    assert_eq!((ranges[0].start, ranges[0].end, ranges[0].index), (0, 10, 7));
    assert_eq!((ranges[1].start, ranges[1].end, ranges[1].index), (10, 20, 8));
}
