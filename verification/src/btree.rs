//! B-tree page decoder: page-type dispatch, the cell pointer array, and
//! record column decoding, far enough to read the schema table.
//!
//! The cell pointer array holds offsets from the start of the page, not from
//! the end of the page header: every cell is parsed by seeking to its
//! absolute offset in the original input. On page 1 the decoder starts past
//! the 100 database-header bytes but keeps addressing cells absolutely.

use vstd::prelude::*;
use crate::bytes::{be16_at, be32_at, read_bytes, read_u16, read_u32, read_u8, read_varint,
    varint_at};
use crate::error::{Error, ErrorKind};
use crate::types::TextEncoding;

verus! {

/// What a decoded column value is, in mathematical form: byte and character
/// sequences in place of owned buffers.
pub ghost enum RecordModel {
    Null,
    Int8(i8),
    Int16(i16),
    Blob(Seq<u8>),
    Text(Seq<char>),
}

/// One decoded column value of a record.
#[derive(Debug)]
pub enum Record {
    Null,
    Int8(i8),
    Int16(i16),
    Blob(Vec<u8>),
    Text(String),
}

impl Record {
    /// The value in mathematical form.
    pub open spec fn model(self) -> RecordModel {
        match self {
            Record::Null => RecordModel::Null,
            Record::Int8(v) => RecordModel::Int8(v),
            Record::Int16(v) => RecordModel::Int16(v),
            Record::Blob(v) => RecordModel::Blob(v@),
            Record::Text(s) => RecordModel::Text(s@),
        }
    }

    /// The text of a string column, or the word NULL for a null column.
    /// Other column kinds are outside this accessor's domain.
    pub fn as_string(&self) -> (r: String)
        requires
            self is Text || self is Null,
        ensures
            self matches Record::Text(s) ==> r@ == s@,
            self is Null ==> r@ == "NULL"@,
    {
        match self {
            Record::Text(v) => v.clone(),
            Record::Null => "NULL".to_owned(),
            _ => {
                proof {
                    assert(false);
                }
                String::new()
            },
        }
    }

    /// The value of an integer column, widened to a machine word. Other
    /// column kinds are outside this accessor's domain.
    pub fn as_int(&self) -> (r: usize)
        requires
            self is Int8 || self is Int16,
        ensures
            self matches Record::Int8(v) ==> r == v as usize,
            self matches Record::Int16(v) ==> r == v as usize,
    {
        match self {
            Record::Int8(v) => *v as usize,
            Record::Int16(v) => *v as usize,
            _ => {
                proof {
                    assert(false);
                }
                0
            },
        }
    }
}

/// Whether a page belongs to a table or an index B-tree.
#[derive(Clone, Copy, Debug, PartialEq, Eq, Structural)]
pub enum PageContent {
    Index,
    Table,
}

/// Whether a page is a leaf or an interior node, and of which tree kind.
#[derive(Clone, Copy, Debug, PartialEq, Eq, Structural)]
pub enum PageType {
    Leaf(PageContent),
    Interior(PageContent),
}

impl PageType {
    /// Whether this is an interior page, which alone carries a right-most
    /// child pointer.
    pub open spec fn spec_is_interior(self) -> bool {
        self is Interior
    }

    /// The page header's size: 8 bytes on a leaf, 12 on an interior page.
    pub open spec fn spec_header_size(self) -> u8 {
        if self is Interior {
            12
        } else {
            8
        }
    }

    /// The page header's size in bytes.
    pub fn header_size(&self) -> (r: u8)
        ensures
            r == self.spec_header_size(),
    {
        match self {
            PageType::Leaf(_) => 8,
            PageType::Interior(_) => 12,
        }
    }

    /// Whether this is an interior page.
    pub fn is_interior(&self) -> (r: bool)
        ensures
            r == self.spec_is_interior(),
    {
        matches!(self, PageType::Interior(_))
    }
}

/// A table-leaf cell: the row id, the decoded record columns, and the first
/// overflow page if one was read (overflow chains are out of the core's
/// scope, so none ever is).
#[derive(Debug)]
pub struct TableBTreeLeafCell {
    pub rowid: u64,
    pub records: Vec<Record>,
    pub page_first_overflow: Option<u32>,
}

/// A table-interior cell: a left child pointer and its separating row id.
#[derive(Clone, Copy, Debug, PartialEq, Eq, Structural)]
pub struct TableBTreeInteriorCell {
    pub left_child_page: u32,
    pub rowid: u64,
}

/// An index-leaf cell, recognised but not decoded by the core.
#[derive(Clone, Copy, Debug, PartialEq, Eq, Structural)]
pub struct IndexBTreeLeafCell {}

/// An index-interior cell, recognised but not decoded by the core.
#[derive(Clone, Copy, Debug, PartialEq, Eq, Structural)]
pub struct IndexBTreeInteriorCell {}

/// One decoded cell, tagged by the page kind it came from.
#[derive(Debug)]
pub enum Cell {
    TableBTreeLeafCell(TableBTreeLeafCell),
    TableBTreeInteriorCell(TableBTreeInteriorCell),
    IndexBTreeLeafCell(IndexBTreeLeafCell),
    IndexBTreeInteriorCell(IndexBTreeInteriorCell),
}

/// What a decoded cell is, in mathematical form.
pub ghost enum CellModel {
    TableLeaf { rowid: u64, records: Seq<RecordModel> },
    TableInterior { left_child_page: u32, rowid: u64 },
    IndexLeaf,
    IndexInterior,
}

impl Cell {
    /// The cell in mathematical form.
    pub open spec fn model(self) -> CellModel {
        match self {
            Cell::TableBTreeLeafCell(c) => CellModel::TableLeaf {
                rowid: c.rowid,
                records: Seq::new(c.records@.len(), |i: int| c.records@[i].model()),
            },
            Cell::TableBTreeInteriorCell(c) => CellModel::TableInterior {
                left_child_page: c.left_child_page,
                rowid: c.rowid,
            },
            Cell::IndexBTreeLeafCell(c) => CellModel::IndexLeaf,
            Cell::IndexBTreeInteriorCell(c) => CellModel::IndexInterior,
        }
    }
}

/// The shared page header: kind, free-block start, cell count, content-area
/// offset, fragmented free byte count, and the right-most child pointer on
/// interior pages.
#[derive(Clone, Copy, Debug, PartialEq, Eq, Structural)]
pub struct BtreeHeader {
    pub page_type: PageType,
    pub start_first_freeblock: u16,
    pub cell_count: u16,
    pub start_cell_content_area: u16,
    pub fragmented_free_bytes_count: u8,
    pub right_most_pointer: Option<u32>,
}

/// One decoded B-tree page: its header and its cells in pointer order.
#[derive(Debug)]
pub struct Btree {
    pub header: BtreeHeader,
    pub cells: Vec<Cell>,
}

/// What a decoded page is, in mathematical form.
pub ghost struct BtreeModel {
    pub header: BtreeHeader,
    pub cells: Seq<CellModel>,
}

impl Btree {
    /// The page in mathematical form.
    pub open spec fn model(self) -> BtreeModel {
        BtreeModel {
            header: self.header,
            cells: Seq::new(self.cells@.len(), |i: int| self.cells@[i].model()),
        }
    }
}

/// The page kind a type byte spells: 0x02, 0x05, 0x0A, 0x0D, and no other.
pub open spec fn spec_page_type(byte: u8) -> Result<PageType, ErrorKind> {
    if byte == 0x02 {
        Ok(PageType::Interior(PageContent::Index))
    } else if byte == 0x05 {
        Ok(PageType::Interior(PageContent::Table))
    } else if byte == 0x0a {
        Ok(PageType::Leaf(PageContent::Index))
    } else if byte == 0x0d {
        Ok(PageType::Leaf(PageContent::Table))
    } else {
        Err(ErrorKind::UnsupportedPageType)
    }
}

/// Parses the page header at `pos`: the result and the position just past
/// it.
pub open spec fn spec_parse_btree_header(b: Seq<u8>, pos: int) -> Result<
    (BtreeHeader, int),
    ErrorKind,
> {
    if pos < 0 || pos + 8 > b.len() {
        Err(ErrorKind::EndOfInput)
    } else {
        match spec_page_type(b[pos]) {
            Err(k) => Err(k),
            Ok(pt) => {
                if pt.spec_is_interior() && pos + 12 > b.len() {
                    Err(ErrorKind::EndOfInput)
                } else {
                    Ok(
                        (
                            BtreeHeader {
                                page_type: pt,
                                start_first_freeblock: be16_at(b, pos + 1),
                                cell_count: be16_at(b, pos + 3),
                                start_cell_content_area: be16_at(b, pos + 5),
                                fragmented_free_bytes_count: b[pos + 7],
                                right_most_pointer: if pt.spec_is_interior() {
                                    Some(be32_at(b, pos + 8))
                                } else {
                                    None
                                },
                            },
                            if pt.spec_is_interior() {
                                pos + 12
                            } else {
                                pos + 8
                            },
                        ),
                    )
                }
            },
        }
    }
}

/// The `n` cell pointers standing at `pos`: 16-bit offsets from page start.
pub open spec fn spec_parse_cell_pointers(b: Seq<u8>, pos: int, n: int) -> Result<
    Seq<u16>,
    ErrorKind,
>
    decreases n,
{
    if n <= 0 {
        Ok(Seq::empty())
    } else if pos < 0 || pos + 2 > b.len() {
        Err(ErrorKind::EndOfInput)
    } else {
        match spec_parse_cell_pointers(b, pos + 2, n - 1) {
            Err(k) => Err(k),
            Ok(rest) => Ok(seq![be16_at(b, pos)] + rest),
        }
    }
}

/// One column value of the given serial type read at `pos`: the value and
/// the position just past it. Serial types 0, 1 and 2 and the blob and text
/// families are decoded; any other fails with `UnsupportedSerialType`.
/// Text is decoded for UTF-8 alone; other encodings, and byte runs that are
/// not UTF-8, fail with `UnsupportedEncoding`.
pub open spec fn spec_parse_record_value(enc: TextEncoding, st: int, b: Seq<u8>, pos: int)
    -> Result<(RecordModel, int), ErrorKind> {
    if st == 0 {
        Ok((RecordModel::Null, pos))
    } else if st == 1 {
        if pos + 1 > b.len() {
            Err(ErrorKind::EndOfInput)
        } else {
            Ok((RecordModel::Int8(b[pos] as i8), pos + 1))
        }
    } else if st == 2 {
        if pos + 2 > b.len() {
            Err(ErrorKind::EndOfInput)
        } else {
            Ok((RecordModel::Int16(be16_at(b, pos) as i16), pos + 2))
        }
    } else if st > 12 && st % 2 == 0 {
        let n = (st - 12) / 2;
        if pos + n > b.len() {
            Err(ErrorKind::EndOfInput)
        } else {
            Ok((RecordModel::Blob(b.subrange(pos, pos + n)), pos + n))
        }
    } else if st > 13 && st % 2 == 1 {
        let n = (st - 13) / 2;
        if pos + n > b.len() {
            Err(ErrorKind::EndOfInput)
        } else if enc != TextEncoding::UTF8 {
            Err(ErrorKind::UnsupportedEncoding)
        } else if !vstd::utf8::valid_utf8(b.subrange(pos, pos + n)) {
            Err(ErrorKind::UnsupportedEncoding)
        } else {
            Ok((RecordModel::Text(vstd::utf8::decode_utf8(b.subrange(pos, pos + n))), pos + n))
        }
    } else {
        Err(ErrorKind::UnsupportedSerialType)
    }
}

/// The serial-type codes filling the record header region from `pos` to its
/// end, one variable-length integer each.
pub open spec fn spec_parse_columns(b: Seq<u8>, pos: int) -> Result<Seq<u64>, ErrorKind>
    decreases b.len() - pos,
{
    if pos < 0 || pos >= b.len() {
        Ok(Seq::empty())
    } else {
        match varint_at(b, pos) {
            None => Err(ErrorKind::EndOfInput),
            Some((v, w)) => {
                if w < 1 || pos + w > b.len() {
                    Err(ErrorKind::EndOfInput)
                } else {
                    match spec_parse_columns(b, pos + w) {
                        Err(k) => Err(k),
                        Ok(rest) => Ok(seq![v as u64] + rest),
                    }
                }
            },
        }
    }
}

/// The column values for the given serial types, read in order from `pos`.
pub open spec fn spec_parse_values(enc: TextEncoding, sts: Seq<u64>, b: Seq<u8>, pos: int)
    -> Result<Seq<RecordModel>, ErrorKind>
    decreases sts.len(),
{
    if sts.len() == 0 {
        Ok(Seq::empty())
    } else {
        match spec_parse_record_value(enc, sts[0] as int, b, pos) {
            Err(k) => Err(k),
            Ok((v, pos2)) => match spec_parse_values(enc, sts.skip(1), b, pos2) {
                Err(k) => Err(k),
                Ok(rest) => Ok(seq![v] + rest),
            },
        }
    }
}

/// A whole record payload: the header-size prefix, the serial-type codes
/// that fill the header region, then the values in order.
pub open spec fn spec_parse_records(enc: TextEncoding, payload: Seq<u8>) -> Result<
    Seq<RecordModel>,
    ErrorKind,
> {
    match varint_at(payload, 0) {
        None => Err(ErrorKind::EndOfInput),
        Some((hs, w)) => {
            if hs < w || hs > payload.len() {
                Err(ErrorKind::EndOfInput)
            } else {
                match spec_parse_columns(payload.subrange(w, hs), 0) {
                    Err(k) => Err(k),
                    Ok(sts) => spec_parse_values(enc, sts, payload, hs),
                }
            }
        },
    }
}

/// A table-leaf cell at `pos`: payload size, row id, then the record.
pub open spec fn spec_parse_table_leaf(enc: TextEncoding, b: Seq<u8>, pos: int) -> Result<
    CellModel,
    ErrorKind,
> {
    match varint_at(b, pos) {
        None => Err(ErrorKind::EndOfInput),
        Some((psize, w1)) => match varint_at(b, pos + w1) {
            None => Err(ErrorKind::EndOfInput),
            Some((rowid, w2)) => {
                let start = pos + w1 + w2;
                if start + psize > b.len() {
                    Err(ErrorKind::EndOfInput)
                } else {
                    match spec_parse_records(enc, b.subrange(start, start + psize)) {
                        Err(k) => Err(k),
                        Ok(records) => Ok(
                            CellModel::TableLeaf { rowid: rowid as u64, records },
                        ),
                    }
                }
            },
        },
    }
}

/// A table-interior cell at `pos`: the left child page, then the row id.
pub open spec fn spec_parse_table_interior(b: Seq<u8>, pos: int) -> Result<CellModel, ErrorKind> {
    if pos < 0 || pos + 4 > b.len() {
        Err(ErrorKind::EndOfInput)
    } else {
        match varint_at(b, pos + 4) {
            None => Err(ErrorKind::EndOfInput),
            Some((rowid, w)) => Ok(
                CellModel::TableInterior {
                    left_child_page: be32_at(b, pos),
                    rowid: rowid as u64,
                },
            ),
        }
    }
}

/// One cell at `pos`, decoded according to the parent page's kind; index
/// cells are returned as opaque markers.
pub open spec fn spec_parse_cell(enc: TextEncoding, pt: PageType, b: Seq<u8>, pos: int) -> Result<
    CellModel,
    ErrorKind,
> {
    match pt {
        PageType::Leaf(PageContent::Table) => spec_parse_table_leaf(enc, b, pos),
        PageType::Interior(PageContent::Table) => spec_parse_table_interior(b, pos),
        PageType::Leaf(PageContent::Index) => Ok(CellModel::IndexLeaf),
        PageType::Interior(PageContent::Index) => Ok(CellModel::IndexInterior),
    }
}

/// The cells the pointer array names, each decoded at its absolute offset.
pub open spec fn spec_parse_cells(enc: TextEncoding, pt: PageType, b: Seq<u8>, ptrs: Seq<u16>)
    -> Result<Seq<CellModel>, ErrorKind>
    decreases ptrs.len(),
{
    if ptrs.len() == 0 {
        Ok(Seq::empty())
    } else {
        match spec_parse_cell(enc, pt, b, ptrs[0] as int) {
            Err(k) => Err(k),
            Ok(c) => match spec_parse_cells(enc, pt, b, ptrs.skip(1)) {
                Err(k) => Err(k),
                Ok(rest) => Ok(seq![c] + rest),
            },
        }
    }
}

/// A whole B-tree page starting at `start`: the page header, the cell
/// pointer array, then every cell at its absolute offset from page start.
pub open spec fn spec_parse_btree(enc: TextEncoding, b: Seq<u8>, start: int) -> Result<
    BtreeModel,
    ErrorKind,
> {
    match spec_parse_btree_header(b, start) {
        Err(k) => Err(k),
        Ok((header, pos)) => match spec_parse_cell_pointers(b, pos, header.cell_count as int) {
            Err(k) => Err(k),
            Ok(ptrs) => match spec_parse_cells(enc, header.page_type, b, ptrs) {
                Err(k) => Err(k),
                Ok(cells) => Ok(BtreeModel { header, cells }),
            },
        },
    }
}

/// A moving cursor over a byte buffer that keeps a handle on the buffer's
/// origin, so that absolute cell offsets stay resolvable throughout a
/// decode.
pub struct InputContext<'a> {
    bytes: &'a [u8],
    pos: usize,
}

impl<'a> InputContext<'a> {
    /// The underlying bytes.
    pub closed spec fn spec_bytes(self) -> Seq<u8> {
        self.bytes@
    }

    /// The cursor's position from the buffer's origin.
    pub closed spec fn spec_pos(self) -> int {
        self.pos as int
    }

    /// A cursor at the start of `bytes`.
    pub fn new(bytes: &'a [u8]) -> (r: InputContext<'a>)
        ensures
            r.spec_bytes() == bytes@,
            r.spec_pos() == 0,
    {
        InputContext { bytes, pos: 0 }
    }

    /// A cursor over the same origin, standing at the absolute `offset`.
    pub fn seek_at(&self, offset: usize) -> (r: InputContext<'a>)
        ensures
            r.spec_bytes() == self.spec_bytes(),
            r.spec_pos() == offset,
    {
        InputContext { bytes: self.bytes, pos: offset }
    }

    /// Reads one byte and advances.
    pub fn read_u8(&mut self) -> (r: Result<u8, Error>)
        ensures
            final(self).spec_bytes() == old(self).spec_bytes(),
            match r {
                Ok(v) => old(self).spec_pos() + 1 <= old(self).spec_bytes().len() && v == old(self).spec_bytes()[old(self).spec_pos()] && final(self).spec_pos() == old(self).spec_pos() + 1,
                Err(e) => old(self).spec_pos() + 1 > old(self).spec_bytes().len() && e.kind
                    == ErrorKind::EndOfInput && final(self).spec_pos() == old(self).spec_pos(),
            },
    {
        let len = self.bytes.len();
        match read_u8(self.bytes, self.pos) {
            Ok(v) => {
                self.pos = self.pos + 1;
                Ok(v)
            },
            Err(e) => Err(e),
        }
    }

    /// Reads a big-endian 16-bit integer and advances.
    pub fn read_u16(&mut self) -> (r: Result<u16, Error>)
        ensures
            final(self).spec_bytes() == old(self).spec_bytes(),
            match r {
                Ok(v) => old(self).spec_pos() + 2 <= old(self).spec_bytes().len() && v == be16_at(
                    old(self).spec_bytes(),
                    old(self).spec_pos(),
                ) && final(self).spec_pos() == old(self).spec_pos() + 2,
                Err(e) => old(self).spec_pos() + 2 > old(self).spec_bytes().len() && e.kind
                    == ErrorKind::EndOfInput && final(self).spec_pos() == old(self).spec_pos(),
            },
    {
        let len = self.bytes.len();
        match read_u16(self.bytes, self.pos) {
            Ok(v) => {
                self.pos = self.pos + 2;
                Ok(v)
            },
            Err(e) => Err(e),
        }
    }

    /// Reads a big-endian 32-bit integer and advances.
    pub fn read_u32(&mut self) -> (r: Result<u32, Error>)
        ensures
            final(self).spec_bytes() == old(self).spec_bytes(),
            match r {
                Ok(v) => old(self).spec_pos() + 4 <= old(self).spec_bytes().len() && v == be32_at(
                    old(self).spec_bytes(),
                    old(self).spec_pos(),
                ) && final(self).spec_pos() == old(self).spec_pos() + 4,
                Err(e) => old(self).spec_pos() + 4 > old(self).spec_bytes().len() && e.kind
                    == ErrorKind::EndOfInput && final(self).spec_pos() == old(self).spec_pos(),
            },
    {
        let len = self.bytes.len();
        match read_u32(self.bytes, self.pos) {
            Ok(v) => {
                self.pos = self.pos + 4;
                Ok(v)
            },
            Err(e) => Err(e),
        }
    }

    /// Reads a variable-length integer and advances by its width.
    pub fn read_varint(&mut self) -> (r: Result<u64, Error>)
        ensures
            final(self).spec_bytes() == old(self).spec_bytes(),
            match r {
                Ok(v) => varint_at(old(self).spec_bytes(), old(self).spec_pos()) matches Some(t)
                    && t.0 == v as int && final(self).spec_pos() == old(self).spec_pos() + t.1,
                Err(e) => varint_at(old(self).spec_bytes(), old(self).spec_pos()) is None && e.kind
                    == ErrorKind::EndOfInput && final(self).spec_pos() == old(self).spec_pos(),
            },
    {
        let len = self.bytes.len();
        match read_varint(self.bytes, self.pos) {
            Ok((v, w)) => {
                self.pos = self.pos + w;
                Ok(v)
            },
            Err(e) => Err(e),
        }
    }

    /// Copies `n` bytes out and advances past them.
    pub fn read_bytes(&mut self, n: usize) -> (r: Result<Vec<u8>, Error>)
        ensures
            final(self).spec_bytes() == old(self).spec_bytes(),
            match r {
                Ok(v) => old(self).spec_pos() + n <= old(self).spec_bytes().len() && v@ == old(self).spec_bytes().subrange(old(self).spec_pos(), old(self).spec_pos() + n) && final(self).spec_pos() == old(self).spec_pos() + n,
                Err(e) => old(self).spec_pos() + n > old(self).spec_bytes().len() && e.kind
                    == ErrorKind::EndOfInput && final(self).spec_pos() == old(self).spec_pos(),
            },
    {
        let len = self.bytes.len();
        match read_bytes(self.bytes, self.pos, n) {
            Ok(v) => {
                self.pos = self.pos + n;
                Ok(v)
            },
            Err(e) => Err(e),
        }
    }
}

/// Relies on `String::from_utf8`: it succeeds exactly on valid UTF-8 and
/// decodes the bytes as the UTF-8 specification says.
#[verifier::external_body]
fn string_from_utf8(bytes: Vec<u8>) -> (r: Option<String>)
    ensures
        r is Some <==> vstd::utf8::valid_utf8(bytes@),
        r matches Some(s) ==> s@ == vstd::utf8::decode_utf8(bytes@),
{
    match String::from_utf8(bytes) {
        Ok(s) => Some(s),
        Err(_) => None,
    }
}

/// Decodes the page-type byte, or `UnsupportedPageType`.
fn decode_page_type(byte: u8) -> (r: Result<PageType, Error>)
    ensures
        match r {
            Ok(pt) => spec_page_type(byte) == Ok::<PageType, ErrorKind>(pt),
            Err(e) => spec_page_type(byte) == Err::<PageType, ErrorKind>(e.kind),
        },
{
    if byte == 0x02 {
        Ok(PageType::Interior(PageContent::Index))
    } else if byte == 0x05 {
        Ok(PageType::Interior(PageContent::Table))
    } else if byte == 0x0a {
        Ok(PageType::Leaf(PageContent::Index))
    } else if byte == 0x0d {
        Ok(PageType::Leaf(PageContent::Table))
    } else {
        Err(Error::new(ErrorKind::UnsupportedPageType, "unsupported page type byte"))
    }
}

/// Decodes the page header at `start`, returning it with the position just
/// past it.
fn decode_header(b: &[u8], start: usize) -> (r: Result<(BtreeHeader, usize), Error>)
    ensures
        match r {
            Ok((hdr, pos)) => spec_parse_btree_header(b@, start as int) == Ok::<
                (BtreeHeader, int),
                ErrorKind,
            >((hdr, pos as int)) && pos <= b@.len(),
            Err(e) => spec_parse_btree_header(b@, start as int) == Err::<
                (BtreeHeader, int),
                ErrorKind,
            >(e.kind),
        },
{
    if start >= b.len() || b.len() - start < 8 {
        return Err(Error::new(ErrorKind::EndOfInput, "page header needs 8 bytes"));
    }
    let page_type = match decode_page_type(b[start]) {
        Ok(pt) => pt,
        Err(e) => { return Err(e) },
    };
    if page_type.is_interior() && b.len() - start < 12 {
        return Err(Error::new(ErrorKind::EndOfInput, "interior page header needs 12 bytes"));
    }
    let start_first_freeblock = match read_u16(b, start + 1) {
        Ok(v) => v,
        Err(e) => { return Err(e) },
    };
    let cell_count = match read_u16(b, start + 3) {
        Ok(v) => v,
        Err(e) => { return Err(e) },
    };
    let start_cell_content_area = match read_u16(b, start + 5) {
        Ok(v) => v,
        Err(e) => { return Err(e) },
    };
    let fragmented_free_bytes_count = b[start + 7];
    let (right_most_pointer, pos) = if page_type.is_interior() {
        let v = match read_u32(b, start + 8) {
            Ok(v) => v,
            Err(e) => { return Err(e) },
        };
        (Some(v), start + 12)
    } else {
        (None, start + 8)
    };
    Ok(
        (
            BtreeHeader {
                page_type,
                start_first_freeblock,
                cell_count,
                start_cell_content_area,
                fragmented_free_bytes_count,
                right_most_pointer,
            },
            pos,
        ),
    )
}

/// Reads the `n`-entry cell pointer array at `pos`.
fn decode_cell_pointers(b: &[u8], pos: usize, n: u16) -> (r: Result<Vec<u16>, Error>)
    ensures
        match r {
            Ok(v) => spec_parse_cell_pointers(b@, pos as int, n as int) == Ok::<Seq<u16>, ErrorKind>(
                v@,
            ),
            Err(e) => spec_parse_cell_pointers(b@, pos as int, n as int) == Err::<
                Seq<u16>,
                ErrorKind,
            >(e.kind),
        },
{
    let len = b.len();
    let mut out: Vec<u16> = Vec::new();
    let mut cur: usize = pos;
    let mut i: u16 = 0;
    while i < n
        invariant
            i <= n,
            b@.len() <= usize::MAX,
            cur as int == pos + 2 * (i as int),
            (match spec_parse_cell_pointers(b@, cur as int, n as int - i as int) {
                Ok(rest) => spec_parse_cell_pointers(b@, pos as int, n as int) == Ok::<
                    Seq<u16>,
                    ErrorKind,
                >(out@ + rest),
                Err(k) => spec_parse_cell_pointers(b@, pos as int, n as int) == Err::<
                    Seq<u16>,
                    ErrorKind,
                >(k),
            }),
        decreases n - i,
    {
        let ghost cur0 = cur as int;
        let ghost m = n as int - i as int;
        let v = match read_u16(b, cur) {
            Ok(v) => v,
            Err(e) => {
                proof {
                    assert(spec_parse_cell_pointers(b@, cur0, m) == Err::<Seq<u16>, ErrorKind>(
                        ErrorKind::EndOfInput,
                    ));
                }
                return Err(e);
            },
        };
        let ghost out0 = out@;
        out.push(v);
        cur = cur + 2;
        i = i + 1;
        proof {
            assert(spec_parse_cell_pointers(b@, cur0, m) == (match spec_parse_cell_pointers(
                b@,
                cur0 + 2,
                m - 1,
            ) {
                Err(k) => Err::<Seq<u16>, ErrorKind>(k),
                Ok(rest) => Ok::<Seq<u16>, ErrorKind>(seq![be16_at(b@, cur0)] + rest),
            }));
            match spec_parse_cell_pointers(b@, cur as int, n as int - i as int) {
                Ok(rest) => {
                    assert(out0 + (seq![v] + rest) =~= out@ + rest);
                },
                Err(k) => {},
            }
        }
    }
    proof {
        assert(out@ + Seq::<u16>::empty() =~= out@);
    }
    Ok(out)
}

/// Decodes one column value of serial type `st` at `pos`, returning it with
/// the position just past it.
fn decode_record_value(enc: &TextEncoding, st: u64, b: &[u8], pos: usize) -> (r: Result<
    (Record, usize),
    Error,
>)
    requires
        pos <= b@.len(),
    ensures
        match r {
            Ok((rec, p2)) => spec_parse_record_value(*enc, st as int, b@, pos as int) == Ok::<
                (RecordModel, int),
                ErrorKind,
            >((rec.model(), p2 as int)) && pos <= p2 <= b@.len(),
            Err(e) => spec_parse_record_value(*enc, st as int, b@, pos as int) == Err::<
                (RecordModel, int),
                ErrorKind,
            >(e.kind),
        },
{
    let len = b.len();
    if st == 0 {
        Ok((Record::Null, pos))
    } else if st == 1 {
        match read_u8(b, pos) {
            Ok(v) => Ok((Record::Int8(v as i8), pos + 1)),
            Err(e) => Err(e),
        }
    } else if st == 2 {
        match read_u16(b, pos) {
            Ok(v) => Ok((Record::Int16(v as i16), pos + 2)),
            Err(e) => Err(e),
        }
    } else if st > 12 && st % 2 == 0 {
        let n = (st - 12) / 2;
        if pos >= b.len() || n > (b.len() - pos) as u64 {
            return Err(Error::new(ErrorKind::EndOfInput, "blob column overruns its payload"));
        }
        match read_bytes(b, pos, n as usize) {
            Ok(v) => Ok((Record::Blob(v), pos + n as usize)),
            Err(e) => Err(e),
        }
    } else if st > 13 && st % 2 == 1 {
        let n = (st - 13) / 2;
        if pos >= b.len() || n > (b.len() - pos) as u64 {
            return Err(Error::new(ErrorKind::EndOfInput, "text column overruns its payload"));
        }
        if !matches!(enc, TextEncoding::UTF8) {
            return Err(
                Error::new(ErrorKind::UnsupportedEncoding, "only UTF-8 text is decoded"),
            );
        }
        let bytes = match read_bytes(b, pos, n as usize) {
            Ok(v) => v,
            Err(e) => { return Err(e) },
        };
        match string_from_utf8(bytes) {
            Some(s) => Ok((Record::Text(s), pos + n as usize)),
            None => Err(
                Error::new(ErrorKind::UnsupportedEncoding, "text column is not valid UTF-8"),
            ),
        }
    } else {
        Err(Error::new(ErrorKind::UnsupportedSerialType, "unsupported serial type"))
    }
}

/// Reads the serial-type codes that fill a record header region.
fn decode_record_columns(input: &[u8]) -> (r: Result<Vec<u64>, Error>)
    ensures
        match r {
            Ok(v) => spec_parse_columns(input@, 0) == Ok::<Seq<u64>, ErrorKind>(v@),
            Err(e) => spec_parse_columns(input@, 0) == Err::<Seq<u64>, ErrorKind>(e.kind),
        },
{
    let mut out: Vec<u64> = Vec::new();
    let mut pos: usize = 0;
    while pos < input.len()
        invariant
            pos <= input@.len(),
            (match spec_parse_columns(input@, pos as int) {
                Ok(rest) => spec_parse_columns(input@, 0) == Ok::<Seq<u64>, ErrorKind>(
                    out@ + rest,
                ),
                Err(k) => spec_parse_columns(input@, 0) == Err::<Seq<u64>, ErrorKind>(k),
            }),
        decreases input@.len() - pos,
    {
        let ghost pos0 = pos as int;
        let (v, w) = match read_varint(input, pos) {
            Ok(t) => t,
            Err(e) => {
                proof {
                    assert(spec_parse_columns(input@, pos0) == Err::<Seq<u64>, ErrorKind>(
                        ErrorKind::EndOfInput,
                    ));
                }
                return Err(e);
            },
        };
        let ghost out0 = out@;
        out.push(v);
        pos = pos + w;
        proof {
            assert(spec_parse_columns(input@, pos0) == (match spec_parse_columns(
                input@,
                pos0 + w,
            ) {
                Err(k) => Err::<Seq<u64>, ErrorKind>(k),
                Ok(rest) => Ok::<Seq<u64>, ErrorKind>(seq![v] + rest),
            }));
            match spec_parse_columns(input@, pos as int) {
                Ok(rest) => {
                    assert(out0 + (seq![v] + rest) =~= out@ + rest);
                },
                Err(k) => {},
            }
        }
    }
    proof {
        assert(out@ + Seq::<u64>::empty() =~= out@);
    }
    Ok(out)
}

/// Decodes a whole record payload into its column values.
fn decode_records(enc: &TextEncoding, payload: &[u8]) -> (r: Result<Vec<Record>, Error>)
    ensures
        match r {
            Ok(v) => spec_parse_records(*enc, payload@) == Ok::<Seq<RecordModel>, ErrorKind>(
                Seq::new(v@.len(), |i: int| v@[i].model()),
            ),
            Err(e) => spec_parse_records(*enc, payload@) == Err::<Seq<RecordModel>, ErrorKind>(
                e.kind,
            ),
        },
{
    let (hs, w) = match read_varint(payload, 0) {
        Ok(t) => t,
        Err(e) => { return Err(e) },
    };
    if hs < w as u64 || hs > payload.len() as u64 {
        return Err(Error::new(ErrorKind::EndOfInput, "record header overruns its payload"));
    }
    let region = match read_bytes(payload, w, hs as usize - w) {
        Ok(v) => v,
        Err(e) => {
            proof {
                assert(false);
            }
            return Err(e);
        },
    };
    let columns = match decode_record_columns(region.as_slice()) {
        Ok(c) => c,
        Err(e) => { return Err(e) },
    };
    let ghost sts = columns@;
    proof {
        assert(region@ == payload@.subrange(w as int, hs as int));
        assert(spec_parse_records(*enc, payload@) == spec_parse_values(
            *enc,
            sts,
            payload@,
            hs as int,
        ));
    }
    let mut values: Vec<Record> = Vec::new();
    let mut pos: usize = hs as usize;
    let mut j: usize = 0;
    proof {
        assert(sts.skip(0) =~= sts);
        assert(Seq::new(values@.len(), |i: int| values@[i].model()) =~= Seq::<
            RecordModel,
        >::empty());
        match spec_parse_values(*enc, sts, payload@, hs as int) {
            Ok(rest) => {
                assert(Seq::<RecordModel>::empty() + rest =~= rest);
            },
            Err(k) => {},
        }
    }
    while j < columns.len()
        invariant
            j <= columns@.len(),
            sts == columns@,
            pos <= payload@.len(),
            values@.len() == j,
            spec_parse_records(*enc, payload@) == spec_parse_values(
                *enc,
                sts,
                payload@,
                hs as int,
            ),
            (match spec_parse_values(*enc, sts.skip(j as int), payload@, pos as int) {
                Ok(rest) => spec_parse_values(*enc, sts, payload@, hs as int) == Ok::<
                    Seq<RecordModel>,
                    ErrorKind,
                >(Seq::new(values@.len(), |i: int| values@[i].model()) + rest),
                Err(k) => spec_parse_values(*enc, sts, payload@, hs as int) == Err::<
                    Seq<RecordModel>,
                    ErrorKind,
                >(k),
            }),
        decreases columns@.len() - j,
    {
        let ghost pre_models = Seq::new(values@.len(), |i: int| values@[i].model());
        let st = columns[j];
        let (rec, p2) = match decode_record_value(enc, st, payload, pos) {
            Ok(t) => t,
            Err(e) => {
                proof {
                    assert(sts.skip(j as int)[0] == sts[j as int]);
                    assert(spec_parse_values(*enc, sts.skip(j as int), payload@, pos as int)
                        == Err::<Seq<RecordModel>, ErrorKind>(e.kind));
                }
                return Err(e);
            },
        };
        proof {
            assert(sts.skip(j as int)[0] == sts[j as int]);
        }
        let ghost rec_model = rec.model();
        values.push(rec);
        pos = p2;
        j = j + 1;
        proof {
            assert(sts.skip(j - 1).skip(1) =~= sts.skip(j as int));
            let models = Seq::new(values@.len(), |i: int| values@[i].model());
            assert(models =~= pre_models + seq![rec_model]);
            match spec_parse_values(*enc, sts.skip(j as int), payload@, pos as int) {
                Ok(rest) => {
                    assert(pre_models + (seq![rec_model] + rest) =~= models + rest);
                },
                Err(k) => {},
            }
        }
    }
    proof {
        assert(sts.skip(columns@.len() as int) =~= Seq::<u64>::empty());
        let models = Seq::new(values@.len(), |i: int| values@[i].model());
        assert(models + Seq::<RecordModel>::empty() =~= models);
    }
    Ok(values)
}

/// Decodes a table-leaf cell at `pos`: payload size, row id, record.
fn decode_table_leaf_cell(enc: &TextEncoding, b: &[u8], pos: usize) -> (r: Result<
    TableBTreeLeafCell,
    Error,
>)
    ensures
        match r {
            Ok(c) => spec_parse_table_leaf(*enc, b@, pos as int) == Ok::<CellModel, ErrorKind>(
                CellModel::TableLeaf {
                    rowid: c.rowid,
                    records: Seq::new(c.records@.len(), |i: int| c.records@[i].model()),
                },
            ) && c.page_first_overflow is None,
            Err(e) => spec_parse_table_leaf(*enc, b@, pos as int) == Err::<CellModel, ErrorKind>(
                e.kind,
            ),
        },
{
    let len = b.len();
    let (total_payload_size, w1) = match read_varint(b, pos) {
        Ok(t) => t,
        Err(e) => { return Err(e) },
    };
    let (rowid, w2) = match read_varint(b, pos + w1) {
        Ok(t) => t,
        Err(e) => { return Err(e) },
    };
    let start = pos + w1 + w2;
    if total_payload_size > (b.len() - start) as u64 {
        return Err(Error::new(ErrorKind::EndOfInput, "cell payload overruns the page"));
    }
    let raw_payload = match read_bytes(b, start, total_payload_size as usize) {
        Ok(v) => v,
        Err(e) => {
            proof {
                assert(false);
            }
            return Err(e);
        },
    };
    let records = match decode_records(enc, raw_payload.as_slice()) {
        Ok(v) => v,
        Err(e) => { return Err(e) },
    };
    Ok(TableBTreeLeafCell { rowid, records, page_first_overflow: None })
}

/// Decodes a table-interior cell at `pos`: left child page, then row id.
fn decode_table_interior_cell(b: &[u8], pos: usize) -> (r: Result<TableBTreeInteriorCell, Error>)
    ensures
        match r {
            Ok(c) => spec_parse_table_interior(b@, pos as int) == Ok::<CellModel, ErrorKind>(
                CellModel::TableInterior { left_child_page: c.left_child_page, rowid: c.rowid },
            ),
            Err(e) => spec_parse_table_interior(b@, pos as int) == Err::<CellModel, ErrorKind>(
                e.kind,
            ),
        },
{
    let len = b.len();
    let left_child_page = match read_u32(b, pos) {
        Ok(v) => v,
        Err(e) => { return Err(e) },
    };
    let (rowid, w) = match read_varint(b, pos + 4) {
        Ok(t) => t,
        Err(e) => { return Err(e) },
    };
    Ok(TableBTreeInteriorCell { left_child_page, rowid })
}

/// Decodes one cell at `pos` according to the parent page's kind; index
/// cells come back as opaque markers.
fn decode_cell(enc: &TextEncoding, parent: &PageType, b: &[u8], pos: usize) -> (r: Result<
    Cell,
    Error,
>)
    ensures
        match r {
            Ok(c) => spec_parse_cell(*enc, *parent, b@, pos as int) == Ok::<CellModel, ErrorKind>(
                c.model(),
            ),
            Err(e) => spec_parse_cell(*enc, *parent, b@, pos as int) == Err::<CellModel, ErrorKind>(
                e.kind,
            ),
        },
{
    match parent {
        PageType::Leaf(PageContent::Table) => match decode_table_leaf_cell(enc, b, pos) {
            Ok(c) => Ok(Cell::TableBTreeLeafCell(c)),
            Err(e) => Err(e),
        },
        PageType::Interior(PageContent::Table) => match decode_table_interior_cell(b, pos) {
            Ok(c) => Ok(Cell::TableBTreeInteriorCell(c)),
            Err(e) => Err(e),
        },
        PageType::Leaf(PageContent::Index) => Ok(Cell::IndexBTreeLeafCell(IndexBTreeLeafCell {  })),
        PageType::Interior(PageContent::Index) => Ok(
            Cell::IndexBTreeInteriorCell(IndexBTreeInteriorCell {  }),
        ),
    }
}

/// Decodes a whole B-tree page from `start`: header, pointer array, cells.
fn decode_btree(enc: &TextEncoding, b: &[u8], start: usize) -> (r: Result<Btree, Error>)
    ensures
        match r {
            Ok(bt) => spec_parse_btree(*enc, b@, start as int) == Ok::<BtreeModel, ErrorKind>(
                bt.model(),
            ),
            Err(e) => spec_parse_btree(*enc, b@, start as int) == Err::<BtreeModel, ErrorKind>(
                e.kind,
            ),
        },
{
    let (header, pos) = match decode_header(b, start) {
        Ok(t) => t,
        Err(e) => { return Err(e) },
    };
    let cell_pointers = match decode_cell_pointers(b, pos, header.cell_count) {
        Ok(v) => v,
        Err(e) => { return Err(e) },
    };
    let ghost ptrs = cell_pointers@;
    let mut cells: Vec<Cell> = Vec::new();
    let mut i: usize = 0;
    proof {
        assert(ptrs.skip(0) =~= ptrs);
        assert(Seq::new(cells@.len(), |k: int| cells@[k].model()) =~= Seq::<CellModel>::empty());
        match spec_parse_cells(*enc, header.page_type, b@, ptrs) {
            Ok(rest) => {
                assert(Seq::<CellModel>::empty() + rest =~= rest);
            },
            Err(k) => {},
        }
    }
    while i < cell_pointers.len()
        invariant
            i <= cell_pointers@.len(),
            ptrs == cell_pointers@,
            cells@.len() == i,
            spec_parse_btree(*enc, b@, start as int) == (match spec_parse_cells(
                *enc,
                header.page_type,
                b@,
                ptrs,
            ) {
                Ok(cs) => Ok::<BtreeModel, ErrorKind>(BtreeModel { header, cells: cs }),
                Err(k) => Err::<BtreeModel, ErrorKind>(k),
            }),
            (match spec_parse_cells(*enc, header.page_type, b@, ptrs.skip(i as int)) {
                Ok(rest) => spec_parse_cells(*enc, header.page_type, b@, ptrs) == Ok::<
                    Seq<CellModel>,
                    ErrorKind,
                >(Seq::new(cells@.len(), |k: int| cells@[k].model()) + rest),
                Err(k) => spec_parse_cells(*enc, header.page_type, b@, ptrs) == Err::<
                    Seq<CellModel>,
                    ErrorKind,
                >(k),
            }),
        decreases cell_pointers@.len() - i,
    {
        let ghost pre_models = Seq::new(cells@.len(), |k: int| cells@[k].model());
        let ptr = cell_pointers[i];
        let cell = match decode_cell(enc, &header.page_type, b, ptr as usize) {
            Ok(c) => c,
            Err(e) => {
                proof {
                    assert(ptrs.skip(i as int)[0] == ptrs[i as int]);
                    assert(spec_parse_cells(*enc, header.page_type, b@, ptrs.skip(i as int))
                        == Err::<Seq<CellModel>, ErrorKind>(e.kind));
                }
                return Err(e);
            },
        };
        proof {
            assert(ptrs.skip(i as int)[0] == ptrs[i as int]);
        }
        let ghost cell_model = cell.model();
        cells.push(cell);
        i = i + 1;
        proof {
            assert(ptrs.skip(i - 1).skip(1) =~= ptrs.skip(i as int));
            let models = Seq::new(cells@.len(), |k: int| cells@[k].model());
            assert(models =~= pre_models + seq![cell_model]);
            match spec_parse_cells(*enc, header.page_type, b@, ptrs.skip(i as int)) {
                Ok(rest) => {
                    assert(pre_models + (seq![cell_model] + rest) =~= models + rest);
                },
                Err(k) => {},
            }
        }
    }
    proof {
        assert(ptrs.skip(cell_pointers@.len() as int) =~= Seq::<u16>::empty());
        let models = Seq::new(cells@.len(), |k: int| cells@[k].model());
        assert(models + Seq::<CellModel>::empty() =~= models);
    }
    Ok(Btree { header, cells })
}

/// Decodes the B-tree on the first page of a database: the 100 header bytes
/// are skipped, but cell pointers keep addressing the page absolutely.
pub fn decode_first_page(enc: &TextEncoding, page: &[u8]) -> (r: Result<Btree, Error>)
    ensures
        match r {
            Ok(bt) => spec_parse_btree(*enc, page@, 100) == Ok::<BtreeModel, ErrorKind>(bt.model()),
            Err(e) => spec_parse_btree(*enc, page@, 100) == Err::<BtreeModel, ErrorKind>(e.kind),
        },
{
    decode_btree(enc, page, 100)
}

/// Decodes the B-tree on a page.
pub fn decode(enc: &TextEncoding, input: &[u8]) -> (r: Result<Btree, Error>)
    ensures
        match r {
            Ok(bt) => spec_parse_btree(*enc, input@, 0) == Ok::<BtreeModel, ErrorKind>(bt.model()),
            Err(e) => spec_parse_btree(*enc, input@, 0) == Err::<BtreeModel, ErrorKind>(e.kind),
        },
{
    decode_btree(enc, input, 0)
}

} // verus!
