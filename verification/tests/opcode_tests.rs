//! Bytecode-reader tests: the last cursor-opening instruction decides which
//! table a program is about.

use sqlite_codec::opcode::{explain, Instr, Opcode};
use sqlite_codec::schema::{Schema, Schemas, Table};

fn instr(opcode: Opcode, p2: u64) -> Instr {
    Instr { addr: 0, comment: None, opcode, p1: 0, p2, p3: 0, p4: 0, p5: 0 }
}

fn sample_schemas() -> Schemas {
    Schemas {
        entries: vec![
            Schema::Table(Table { name: "one".to_owned(), sql: "s".to_owned(), root_page: 2 }),
            Schema::Table(Table { name: "two".to_owned(), sql: "s".to_owned(), root_page: 3 }),
        ],
    }
}

#[test]
fn explain_finds_the_opened_table() {
    let schemas = sample_schemas();
    let program = vec![instr(Opcode::Init, 0), instr(Opcode::OpenRead, 3), instr(Opcode::Halt, 0)];
    let e = explain(program, &schemas);
    assert_eq!(e.table.unwrap().name, "two");
}

#[test]
fn explain_takes_the_last_opener() {
    let schemas = sample_schemas();
    let program = vec![instr(Opcode::OpenRead, 3), instr(Opcode::OpenWrite, 2)];
    let e = explain(program, &schemas);
    assert_eq!(e.table.unwrap().name, "one");
}

#[test]
fn explain_without_openers_names_no_table() {
    let schemas = sample_schemas();
    let program = vec![instr(Opcode::Init, 0), instr(Opcode::Halt, 0)];
    let e = explain(program, &schemas);
    assert!(e.table.is_none());
}

#[test]
fn explain_with_unknown_root_names_no_table() {
    let schemas = sample_schemas();
    let program = vec![instr(Opcode::ReopenIdx, 99)];
    let e = explain(program, &schemas);
    assert!(e.table.is_none());
}
