//! Schema table reader: locates and parses the schema rows on page 1, maps
//! names to schema entries, and lists the child pages of a table's root.

use vstd::prelude::*;
use crate::btree::{decode, decode_first_page, spec_parse_btree, Cell, CellModel, Record,
    RecordModel};
use crate::error::{Error, ErrorKind};
use crate::types::Db;

verus! {

broadcast use vstd::std_specs::hash::group_hash_axioms;

/// A schema entry: a table or an index.
#[derive(Debug)]
pub enum Schema {
    Table(Table),
    Index(Index),
}

/// A table entry of the schema: its name, its defining text and the page
/// its B-tree is rooted at.
#[derive(Debug)]
pub struct Table {
    pub name: String,
    pub sql: String,
    pub root_page: u32,
}

/// An index entry of the schema: its name, its defining text, the table it
/// belongs to and the page its B-tree is rooted at.
#[derive(Debug)]
pub struct Index {
    pub name: String,
    pub sql: String,
    pub tbl_name: String,
    pub root_page: u32,
}

/// What a schema entry is, in mathematical form.
pub ghost enum SchemaModel {
    Table { name: Seq<char>, sql: Seq<char>, root_page: u32 },
    Index { name: Seq<char>, sql: Seq<char>, tbl_name: Seq<char>, root_page: u32 },
}

impl Schema {
    /// The entry in mathematical form.
    pub open spec fn model(self) -> SchemaModel {
        match self {
            Schema::Table(t) => SchemaModel::Table {
                name: t.name@,
                sql: t.sql@,
                root_page: t.root_page,
            },
            Schema::Index(i) => SchemaModel::Index {
                name: i.name@,
                sql: i.sql@,
                tbl_name: i.tbl_name@,
                root_page: i.root_page,
            },
        }
    }
}

/// The name a schema entry is filed under.
pub open spec fn spec_schema_name(s: SchemaModel) -> Seq<char> {
    match s {
        SchemaModel::Table { name, .. } => name,
        SchemaModel::Index { name, .. } => name,
    }
}

/// The schema entries decoded from page 1, in row order with later rows of
/// the same name replacing earlier ones.
#[derive(Debug)]
pub struct Schemas {
    pub entries: Vec<Schema>,
}

impl Schemas {
    /// The entries in mathematical form.
    pub open spec fn model(self) -> Seq<SchemaModel> {
        Seq::new(self.entries@.len(), |i: int| self.entries@[i].model())
    }

    /// Whether an entry of the given name is present.
    pub fn contains(&self, name: &str) -> (r: bool)
        ensures
            r == exists|j: int|
                0 <= j < self.model().len() && spec_schema_name(#[trigger] self.model()[j])
                    == name@,
    {
        let nm = name.to_owned();
        let n = self.entries.len();
        let mut i: usize = 0;
        while i < n
            invariant
                i <= n,
                n == self.entries@.len(),
                nm@ == name@,
                forall|j: int|
                    0 <= j < i ==> spec_schema_name(#[trigger] self.model()[j]) != name@,
            decreases n - i,
        {
            let found = match &self.entries[i] {
                Schema::Table(t) => t.name == nm,
                Schema::Index(x) => x.name == nm,
            };
            proof {
                assert(self.model()[i as int] == self.entries@[i as int].model());
                assert(found == (spec_schema_name(self.model()[i as int]) == name@));
            }
            if found {
                proof {
                    assert(0 <= i < self.model().len() && spec_schema_name(
                        self.model()[i as int],
                    ) == name@);
                }
                return true;
            }
            i = i + 1;
        }
        proof {
            assert(forall|j: int|
                0 <= j < self.model().len() ==> spec_schema_name(#[trigger] self.model()[j])
                    != name@);
        }
        false
    }
}

/// The position of the first entry filed under `nm`, or -1.
pub open spec fn spec_idx_of(rows: Seq<SchemaModel>, nm: Seq<char>) -> int
    decreases rows.len(),
{
    if rows.len() == 0 {
        -1
    } else if spec_schema_name(rows[0]) == nm {
        0
    } else {
        let r = spec_idx_of(rows.skip(1), nm);
        if r < 0 {
            -1
        } else {
            r + 1
        }
    }
}

/// Files an entry: a row of the same name is replaced in place, a new name
/// is appended.
pub open spec fn spec_upsert(rows: Seq<SchemaModel>, s: SchemaModel) -> Seq<SchemaModel> {
    let j = spec_idx_of(rows, spec_schema_name(s));
    if j < 0 {
        rows.push(s)
    } else {
        rows.update(j, s)
    }
}

/// The word the text column of a NULL record reads as.
pub open spec fn spec_null_text() -> Seq<char> {
    "NULL"@
}

/// The text a record column contributes to a schema row: its characters for
/// a text column, the word NULL for a null column, nothing otherwise.
pub open spec fn spec_text_of(r: RecordModel) -> Option<Seq<char>> {
    match r {
        RecordModel::Text(s) => Some(s),
        RecordModel::Null => Some(spec_null_text()),
        _ => None,
    }
}

/// The integer a record column contributes: an 8- or 16-bit value widened
/// to a machine word, nothing otherwise.
pub open spec fn spec_int_of(r: RecordModel) -> Option<usize> {
    match r {
        RecordModel::Int8(v) => Some(v as usize),
        RecordModel::Int16(v) => Some(v as usize),
        _ => None,
    }
}

/// One schema row from one cell: the cell must be a table leaf whose first
/// five columns are (kind, name, associated table, root page, text). The
/// first column's string decides table against index.
pub open spec fn spec_schema_row(c: CellModel) -> Result<SchemaModel, ErrorKind> {
    match c {
        CellModel::TableLeaf { rowid, records } => {
            if records.len() < 5 {
                Err(ErrorKind::UnsupportedSerialType)
            } else if spec_text_of(records[0]) is None || spec_text_of(records[1]) is None
                || spec_text_of(records[2]) is None || spec_int_of(records[3]) is None
                || spec_text_of(records[4]) is None {
                Err(ErrorKind::UnsupportedSerialType)
            } else {
                let kind = spec_text_of(records[0]).unwrap();
                let name = spec_text_of(records[1]).unwrap();
                let tbl_name = spec_text_of(records[2]).unwrap();
                let root_page = spec_int_of(records[3]).unwrap() as u32;
                let sql = spec_text_of(records[4]).unwrap();
                if kind == "table"@ {
                    Ok(SchemaModel::Table { name, sql, root_page })
                } else {
                    Ok(SchemaModel::Index { name, sql, tbl_name, root_page })
                }
            }
        },
        _ => Err(ErrorKind::UnsupportedPageType),
    }
}

/// Every cell of page 1 turned into a schema row and filed in order.
pub open spec fn spec_fold_schemas(cells: Seq<CellModel>, acc: Seq<SchemaModel>) -> Result<
    Seq<SchemaModel>,
    ErrorKind,
>
    decreases cells.len(),
{
    if cells.len() == 0 {
        Ok(acc)
    } else {
        match spec_schema_row(cells[0]) {
            Err(k) => Err(k),
            Ok(s) => spec_fold_schemas(cells.skip(1), spec_upsert(acc, s)),
        }
    }
}

/// Extracts one schema row from one cell, exactly as `spec_schema_row`
/// says.
fn schema_row(cell: &Cell) -> (r: Result<Schema, Error>)
    ensures
        match r {
            Ok(s) => spec_schema_row(cell.model()) == Ok::<SchemaModel, ErrorKind>(s.model()),
            Err(e) => spec_schema_row(cell.model()) == Err::<SchemaModel, ErrorKind>(e.kind),
        },
{
    let leaf = match cell {
        Cell::TableBTreeLeafCell(l) => l,
        _ => {
            return Err(
                Error::new(ErrorKind::UnsupportedPageType, "schema rows live in table leaves"),
            );
        },
    };
    if leaf.records.len() < 5 {
        return Err(Error::new(ErrorKind::UnsupportedSerialType, "schema row needs five columns"));
    }
    let ok0 = matches!(&leaf.records[0], Record::Text(_) | Record::Null);
    let ok1 = matches!(&leaf.records[1], Record::Text(_) | Record::Null);
    let ok2 = matches!(&leaf.records[2], Record::Text(_) | Record::Null);
    let ok3 = matches!(&leaf.records[3], Record::Int8(_) | Record::Int16(_));
    let ok4 = matches!(&leaf.records[4], Record::Text(_) | Record::Null);
    if !(ok0 && ok1 && ok2 && ok3 && ok4) {
        return Err(
            Error::new(ErrorKind::UnsupportedSerialType, "schema row columns of unexpected kinds"),
        );
    }
    let record_type = leaf.records[0].as_string();
    let name = leaf.records[1].as_string();
    let tbl_name = leaf.records[2].as_string();
    let root_page = leaf.records[3].as_int() as u32;
    let sql = leaf.records[4].as_string();
    let is_table = record_type == String::from_str("table");
    if is_table {
        Ok(Schema::Table(Table { name, sql, root_page }))
    } else {
        Ok(Schema::Index(Index { name, sql, tbl_name, root_page }))
    }
}

/// Whether two schema entries are filed under one name.
fn names_equal(x: &Schema, y: &Schema) -> (r: bool)
    ensures
        r == (spec_schema_name(x.model()) == spec_schema_name(y.model())),
{
    let a = schema_name(x);
    let b = schema_name(y);
    *a == *b
}

/// The name a schema entry is filed under, for comparisons.
fn schema_name(s: &Schema) -> (r: &String)
    ensures
        r@ == spec_schema_name(s.model()),
{
    match s {
        Schema::Table(t) => &t.name,
        Schema::Index(i) => &i.name,
    }
}

/// Files one entry into the list, replacing a row of the same name.
fn upsert(entries: &mut Vec<Schema>, s: Schema)
    ensures
        Seq::new(final(entries)@.len(), |i: int| final(entries)@[i].model()) == spec_upsert(
            Seq::new(old(entries)@.len(), |i: int| old(entries)@[i].model()),
            s.model(),
        ),
{
    let ghost rows = Seq::new(entries@.len(), |i: int| entries@[i].model());
    let ghost target = spec_schema_name(s.model());
    let n = entries.len();
    let mut i: usize = 0;
    while i < n
        invariant
            i <= n,
            n == entries@.len(),
            entries@ == old(entries)@,
            rows == Seq::new(entries@.len(), |k: int| entries@[k].model()),
            target == spec_schema_name(s.model()),
            forall|j: int| 0 <= j < i ==> spec_schema_name(#[trigger] rows[j]) != target,
            spec_idx_of(rows, target) < 0 || spec_idx_of(rows, target) >= i,
        decreases n - i,
    {
        let same = names_equal(&entries[i], &s);
        proof {
            assert(rows[i as int] == entries@[i as int].model());
            assert(same == (spec_schema_name(rows[i as int]) == target));
        }
        if same {
            proof {
                lemma_idx_of_found(rows, target, i as int);
            }
            entries[i] = s;
            proof {
                assert(Seq::new(entries@.len(), |k: int| entries@[k].model()) =~= rows.update(
                    i as int,
                    s.model(),
                ));
            }
            return ;
        }
        proof {
            lemma_idx_of_skip(rows, target, i as int);
        }
        i = i + 1;
    }
    proof {
        lemma_idx_of_none(rows, target);
    }
    entries.push(s);
    proof {
        assert(Seq::new(entries@.len(), |k: int| entries@[k].model()) =~= rows.push(s.model()));
    }
}

/// If no earlier row carries the name and row `i` does, the first index
/// filed under the name is `i`.
proof fn lemma_idx_of_found(rows: Seq<SchemaModel>, nm: Seq<char>, i: int)
    requires
        0 <= i < rows.len(),
        spec_schema_name(rows[i]) == nm,
        forall|j: int| 0 <= j < i ==> spec_schema_name(#[trigger] rows[j]) != nm,
    ensures
        spec_idx_of(rows, nm) == i,
    decreases i,
{
    if i == 0 {
    } else {
        assert(rows.skip(1)[i - 1] == rows[i]);
        assert(forall|j: int|
            0 <= j < i - 1 ==> #[trigger] rows.skip(1)[j] == rows[j + 1]);
        lemma_idx_of_found(rows.skip(1), nm, i - 1);
    }
}

/// The first index filed under a name is never below a prefix that lacks
/// the name.
proof fn lemma_idx_of_skip(rows: Seq<SchemaModel>, nm: Seq<char>, i: int)
    requires
        0 <= i < rows.len(),
        spec_schema_name(rows[i]) != nm,
        spec_idx_of(rows, nm) < 0 || spec_idx_of(rows, nm) >= i,
    ensures
        spec_idx_of(rows, nm) < 0 || spec_idx_of(rows, nm) >= i + 1,
    decreases i,
{
    if rows.len() > 0 {
        if i == 0 {
            if spec_idx_of(rows, nm) == 0 {
                assert(spec_schema_name(rows[0]) == nm);
            }
        } else {
            assert(rows.skip(1)[i - 1] == rows[i]);
            if spec_idx_of(rows, nm) >= 0 {
                assert(spec_schema_name(rows[0]) != nm || spec_idx_of(rows, nm) == 0);
                if spec_schema_name(rows[0]) == nm {
                } else {
                    lemma_idx_of_skip(rows.skip(1), nm, i - 1);
                }
            }
        }
    }
}

/// A list none of whose rows carries the name files it nowhere.
proof fn lemma_idx_of_none(rows: Seq<SchemaModel>, nm: Seq<char>)
    requires
        forall|j: int| 0 <= j < rows.len() ==> spec_schema_name(#[trigger] rows[j]) != nm,
    ensures
        spec_idx_of(rows, nm) < 0,
    decreases rows.len(),
{
    if rows.len() > 0 {
        assert(forall|j: int|
            0 <= j < rows.skip(1).len() ==> #[trigger] rows.skip(1)[j] == rows[j + 1]);
        lemma_idx_of_none(rows.skip(1), nm);
    }
}

/// Decodes the schema table: page 1 is read with the first-page variant of
/// the B-tree decoder, and every leaf cell becomes one entry, filed by
/// name.
pub fn decode_sqlite_schema(db: &Db) -> (r: Result<Schemas, Error>)
    ensures
        match r {
            Ok(schemas) => {
                &&& db.pages@.contains_key(1)
                &&& spec_parse_btree(db.header.text_encoding, db.page_map()[1u32], 100) matches Ok(
                    bm,
                )
                &&& spec_fold_schemas(
                    spec_parse_btree(
                        db.header.text_encoding,
                        db.page_map()[1u32],
                        100,
                    )->Ok_0.cells,
                    Seq::empty(),
                ) == Ok::<Seq<SchemaModel>, ErrorKind>(schemas.model())
            },
            Err(e) => {
                ||| !db.pages@.contains_key(1) && e.kind == ErrorKind::MissingPage
                ||| (db.pages@.contains_key(1) && spec_parse_btree(
                    db.header.text_encoding,
                    db.page_map()[1u32],
                    100,
                ) == Err::<crate::btree::BtreeModel, ErrorKind>(e.kind))
                ||| (db.pages@.contains_key(1) && (spec_parse_btree(
                    db.header.text_encoding,
                    db.page_map()[1u32],
                    100,
                ) matches Ok(bm) && spec_fold_schemas(bm.cells, Seq::empty()) == Err::<
                    Seq<SchemaModel>,
                    ErrorKind,
                >(e.kind)))
            },
        },
{
    let page = match db.pages.get(&1u32) {
        Some(p) => p,
        None => {
            return Err(
                Error::new(ErrorKind::MissingPage, "the schema's root page is missing"),
            );
        },
    };
    proof {
        assert(db.page_map()[1u32] == page@);
    }
    let btree = match decode_first_page(&db.header.text_encoding, page.as_slice()) {
        Ok(b) => b,
        Err(e) => { return Err(e) },
    };
    let ghost cells = btree.model().cells;
    let mut entries: Vec<Schema> = Vec::new();
    let mut i: usize = 0;
    proof {
        assert(cells.skip(0) =~= cells);
        assert(Seq::new(entries@.len(), |k: int| entries@[k].model()) =~= Seq::<
            SchemaModel,
        >::empty());
    }
    while i < btree.cells.len()
        invariant
            i <= btree.cells@.len(),
            cells == btree.model().cells,
            cells.len() == btree.cells@.len(),
            db.pages@.contains_key(1),
            spec_parse_btree(db.header.text_encoding, db.page_map()[1u32], 100) == Ok::<
                crate::btree::BtreeModel,
                ErrorKind,
            >(btree.model()),
            (match spec_fold_schemas(
                cells.skip(i as int),
                Seq::new(entries@.len(), |k: int| entries@[k].model()),
            ) {
                Ok(out) => spec_fold_schemas(cells, Seq::empty()) == Ok::<
                    Seq<SchemaModel>,
                    ErrorKind,
                >(out),
                Err(k) => spec_fold_schemas(cells, Seq::empty()) == Err::<
                    Seq<SchemaModel>,
                    ErrorKind,
                >(k),
            }),
        decreases btree.cells@.len() - i,
    {
        let row = match schema_row(&btree.cells[i]) {
            Ok(s) => s,
            Err(e) => {
                proof {
                    assert(cells.skip(i as int)[0] == cells[i as int]);
                    assert(cells[i as int] == btree.cells@[i as int].model());
                    assert(spec_fold_schemas(
                        cells.skip(i as int),
                        Seq::new(entries@.len(), |k: int| entries@[k].model()),
                    ) == Err::<Seq<SchemaModel>, ErrorKind>(e.kind));
                }
                return Err(e);
            },
        };
        proof {
            assert(cells.skip(i as int)[0] == cells[i as int]);
            assert(cells.skip(i as int).skip(1) =~= cells.skip(i + 1));
        }
        upsert(&mut entries, row);
        i = i + 1;
    }
    proof {
        assert(cells.skip(btree.cells@.len() as int) =~= Seq::<CellModel>::empty());
    }
    Ok(Schemas { entries })
}

/// One child page of a table's root, with the inclusive row-id range it
/// covers.
#[derive(Clone, Copy, Debug, PartialEq, Eq, Structural)]
pub struct PageWithRowidRange {
    pub start: u64,
    pub end: u64,
    pub index: u32,
}

/// The (range, child page) pairs an interior root page yields: each cell
/// covers from the previous cell's row id (zero at first) to its own.
pub open spec fn spec_list_pages(cells: Seq<CellModel>, prev: u64) -> Result<
    Seq<PageWithRowidRange>,
    ErrorKind,
>
    decreases cells.len(),
{
    if cells.len() == 0 {
        Ok(Seq::empty())
    } else {
        match cells[0] {
            CellModel::TableInterior { left_child_page, rowid } => {
                match spec_list_pages(cells.skip(1), rowid) {
                    Err(k) => Err(k),
                    Ok(rest) => Ok(
                        seq![
                            PageWithRowidRange { start: prev, end: rowid, index: left_child_page },
                        ] + rest,
                    ),
                }
            },
            _ => Err(ErrorKind::UnsupportedPageType),
        }
    }
}

impl Table {
    /// Reads this table's root page as an interior table B-tree and yields
    /// one (row-id range, child page) pair per cell.
    pub fn list_pages(&self, db: &Db) -> (r: Result<Vec<PageWithRowidRange>, Error>)
        ensures
            match r {
                Ok(v) => {
                    &&& db.pages@.contains_key(self.root_page)
                    &&& spec_parse_btree(
                        db.header.text_encoding,
                        db.page_map()[self.root_page],
                        0,
                    ) matches Ok(bm)
                    &&& spec_list_pages(
                        spec_parse_btree(
                            db.header.text_encoding,
                            db.page_map()[self.root_page],
                            0,
                        )->Ok_0.cells,
                        0,
                    ) == Ok::<Seq<PageWithRowidRange>, ErrorKind>(v@)
                },
                Err(e) => {
                    ||| !db.pages@.contains_key(self.root_page) && e.kind == ErrorKind::MissingPage
                    ||| (db.pages@.contains_key(self.root_page) && spec_parse_btree(
                        db.header.text_encoding,
                        db.page_map()[self.root_page],
                        0,
                    ) == Err::<crate::btree::BtreeModel, ErrorKind>(e.kind))
                    ||| (db.pages@.contains_key(self.root_page) && (spec_parse_btree(
                        db.header.text_encoding,
                        db.page_map()[self.root_page],
                        0,
                    ) matches Ok(bm) && spec_list_pages(bm.cells, 0) == Err::<
                        Seq<PageWithRowidRange>,
                        ErrorKind,
                    >(e.kind)))
                },
            },
    {
        let page = match db.pages.get(&self.root_page) {
            Some(p) => p,
            None => {
                return Err(
                    Error::new(
                        ErrorKind::MissingPage,
                        "the table's root page is missing from the database",
                    ),
                );
            },
        };
        proof {
            assert(db.page_map()[self.root_page] == page@);
        }
        let res = match decode(&db.header.text_encoding, page.as_slice()) {
            Ok(b) => b,
            Err(e) => { return Err(e) },
        };
        let ghost cells = res.model().cells;
        let mut page_list: Vec<PageWithRowidRange> = Vec::new();
        let mut prev_rowid: u64 = 0;
        let mut i: usize = 0;
        proof {
            assert(cells.skip(0) =~= cells);
        }
        while i < res.cells.len()
            invariant
                i <= res.cells@.len(),
                cells == res.model().cells,
                cells.len() == res.cells@.len(),
                db.pages@.contains_key(self.root_page),
                spec_parse_btree(db.header.text_encoding, db.page_map()[self.root_page], 0)
                    == Ok::<crate::btree::BtreeModel, ErrorKind>(res.model()),
                (match spec_list_pages(cells.skip(i as int), prev_rowid) {
                    Ok(rest) => spec_list_pages(cells, 0) == Ok::<
                        Seq<PageWithRowidRange>,
                        ErrorKind,
                    >(page_list@ + rest),
                    Err(k) => spec_list_pages(cells, 0) == Err::<
                        Seq<PageWithRowidRange>,
                        ErrorKind,
                    >(k),
                }),
            decreases res.cells@.len() - i,
        {
            proof {
                assert(cells.skip(i as int)[0] == cells[i as int]);
            }
            let cell = &res.cells[i];
            match cell {
                Cell::TableBTreeInteriorCell(c) => {
                    let ghost out0 = page_list@;
                    let entry = PageWithRowidRange {
                        start: prev_rowid,
                        end: c.rowid,
                        index: c.left_child_page,
                    };
                    page_list.push(entry);
                    prev_rowid = c.rowid;
                    i = i + 1;
                    proof {
                        assert(cells.skip(i - 1).skip(1) =~= cells.skip(i as int));
                        match spec_list_pages(cells.skip(i as int), prev_rowid) {
                            Ok(rest) => {
                                assert(out0 + (seq![entry] + rest) =~= page_list@ + rest);
                            },
                            Err(k) => {},
                        }
                    }
                },
                _ => {
                    proof {
                        assert(cells[i as int] == res.cells@[i as int].model());
                        assert(spec_list_pages(cells.skip(i as int), prev_rowid) == Err::<
                            Seq<PageWithRowidRange>,
                            ErrorKind,
                        >(ErrorKind::UnsupportedPageType));
                    }
                    return Err(
                        Error::new(
                            ErrorKind::UnsupportedPageType,
                            "a table root must hold interior cells",
                        ),
                    );
                },
            }
        }
        proof {
            assert(cells.skip(res.cells@.len() as int) =~= Seq::<CellModel>::empty());
            assert(page_list@ + Seq::<PageWithRowidRange>::empty() =~= page_list@);
        }
        Ok(page_list)
    }
}

/// Finds some table entry rooted at the given page, if one exists.
pub fn find_table_by_root(rootpage: usize, schemas: &Schemas) -> (r: Option<Table>)
    ensures
        match r {
            Some(t) => exists|j: int|
                0 <= j < schemas.model().len() && #[trigger] schemas.model()[j] == (
                SchemaModel::Table {
                    name: t.name@,
                    sql: t.sql@,
                    root_page: t.root_page,
                }) && t.root_page as usize == rootpage,
            None => forall|j: int|
                0 <= j < schemas.model().len() ==> !((#[trigger] schemas.model()[j]) matches
                SchemaModel::Table { root_page, .. } && root_page as usize == rootpage),
        },
{
    let n = schemas.entries.len();
    let mut found: Option<Table> = None;
    let mut i: usize = 0;
    while i < n
        invariant
            i <= n,
            n == schemas.entries@.len(),
            match found {
                Some(t) => exists|j: int|
                    0 <= j < schemas.model().len() && #[trigger] schemas.model()[j] == (
                    SchemaModel::Table {
                        name: t.name@,
                        sql: t.sql@,
                        root_page: t.root_page,
                    }) && t.root_page as usize == rootpage,
                None => forall|j: int|
                    0 <= j < i ==> !((#[trigger] schemas.model()[j]) matches SchemaModel::Table {
                        root_page,
                        ..
                    } && root_page as usize == rootpage),
            },
        decreases n - i,
    {
        match &schemas.entries[i] {
            Schema::Table(t) => {
                if t.root_page as usize == rootpage {
                    found = Some(
                        Table {
                            name: t.name.clone(),
                            sql: t.sql.clone(),
                            root_page: t.root_page,
                        },
                    );
                    proof {
                        assert(schemas.model()[i as int] == (SchemaModel::Table {
                            name: t.name@,
                            sql: t.sql@,
                            root_page: t.root_page,
                        }));
                    }
                }
            },
            Schema::Index(_) => {},
        }
        i = i + 1;
    }
    found
}

} // verus!
