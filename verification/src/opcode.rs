//! The opcode enumeration of the database's bytecode virtual machine, and a
//! small reader that explains which table a program opens.

use vstd::prelude::*;
use crate::schema::{find_table_by_root, SchemaModel, Schemas, Table};

verus! {

/// One opcode of the bytecode virtual machine.
#[derive(Clone, Copy, Debug, PartialEq, Eq, Structural)]
pub enum Opcode {
    Savepoint,
    AutoCommit,
    Transaction,
    SorterNext,
    Prev,
    Next,
    Checkpoint,
    JournalMode,
    Vacuum,
    VFilter,
    VUpdate,
    Goto,
    Gosub,
    InitCoroutine,
    Yield,
    MustBeInt,
    Jump,
    Once,
    If,
    Not,
    IfNot,
    IsNullOrType,
    IfNullRow,
    SeekLT,
    SeekLE,
    SeekGE,
    SeekGT,
    IfNotOpen,
    IfNoHope,
    NoConflict,
    NotFound,
    Found,
    SeekRowid,
    NotExists,
    Last,
    IfSmaller,
    SorterSort,
    Sort,
    Rewind,
    IdxLE,
    IdxGT,
    IdxLT,
    IdxGE,
    Or,
    And,
    RowSetRead,
    RowSetTest,
    Program,
    FkIfZero,
    IfPos,
    IsNull,
    NotNull,
    Ne,
    Eq,
    Gt,
    Le,
    Lt,
    Ge,
    ElseEq,
    IfNotZero,
    DecrJumpZero,
    IncrVacuum,
    VNext,
    Filter,
    Init,
    PureFunc,
    Function,
    Return,
    EndCoroutine,
    HaltIfNull,
    Halt,
    Integer,
    Int64,
    String,
    Null,
    SoftNull,
    Blob,
    Variable,
    Move,
    Copy,
    SCopy,
    IntCopy,
    FkCheck,
    ResultRow,
    CollSeq,
    AddImm,
    RealAffinity,
    Cast,
    Permutation,
    Compare,
    IsTrue,
    ZeroOrNull,
    Offset,
    Column,
    TypeCheck,
    Affinity,
    MakeRecord,
    Count,
    ReadCookie,
    SetCookie,
    ReopenIdx,
    OpenRead,
    BitAnd,
    BitOr,
    ShiftLeft,
    ShiftRight,
    Add,
    Subtract,
    Multiply,
    Divide,
    Remainder,
    Concat,
    OpenWrite,
    OpenDup,
    BitNot,
    OpenAutoindex,
    OpenEphemeral,
    String8,
    SorterOpen,
    SequenceTest,
    OpenPseudo,
    Close,
    ColumnsUsed,
    SeekScan,
    SeekHit,
    Sequence,
    NewRowid,
    Insert,
    RowCell,
    Delete,
    ResetCount,
    SorterCompare,
    SorterData,
    RowData,
    Rowid,
    NullRow,
    SeekEnd,
    IdxInsert,
    SorterInsert,
    IdxDelete,
    DeferredSeek,
    IdxRowid,
    FinishSeek,
    Destroy,
    Clear,
    ResetSorter,
    CreateBtree,
    SqlExec,
    ParseSchema,
    LoadAnalysis,
    DropTable,
    DropIndex,
    DropTrigger,
    Real,
    IntegrityCk,
    RowSetAdd,
    Param,
    FkCounter,
    MemMax,
    OffsetLimit,
    AggInverse,
    AggStep,
    AggStep1,
    AggValue,
    AggFinal,
    Expire,
    CursorLock,
    CursorUnlock,
    TableLock,
    VBegin,
    VCreate,
    VDestroy,
    VOpen,
    VInitIn,
    VColumn,
    VRename,
    Pagecount,
    MaxPgcnt,
    FilterAdd,
    Trace,
    CursorHint,
    ReleaseReg,
    Noop,
    Explain,
    Abortable,
}

/// One decoded instruction of a bytecode program: its address, its opcode
/// and the five operand words, with an optional comment.
#[derive(Debug)]
pub struct Instr {
    pub addr: i32,
    pub comment: Option<String>,
    pub opcode: Opcode,
    pub p1: u64,
    pub p2: u64,
    pub p3: u64,
    pub p4: u64,
    pub p5: u64,
}

/// What a program turned out to be about: the table it opens, if its
/// schema entry could be found.
#[derive(Debug)]
pub struct Explanation {
    pub table: Option<Table>,
}

/// Whether an opcode opens a table or index cursor by root page.
pub open spec fn spec_is_opener(op: Opcode) -> bool {
    op == Opcode::OpenRead || op == Opcode::OpenWrite || op == Opcode::ReopenIdx
}

/// The root page named by the last cursor-opening instruction, if any.
pub open spec fn spec_last_opened_root(program: Seq<Instr>) -> Option<u64>
    decreases program.len(),
{
    if program.len() == 0 {
        None
    } else if spec_is_opener(program[program.len() - 1].opcode) {
        Some(program[program.len() - 1].p2)
    } else {
        spec_last_opened_root(program.drop_last())
    }
}

/// Explains a program: the last cursor-opening instruction names a root
/// page, and the table rooted there is looked up in the schema.
pub fn explain(program: Vec<Instr>, schemas: &Schemas) -> (r: Explanation)
    ensures
        spec_last_opened_root(program@) is None ==> r.table is None,
        spec_last_opened_root(program@) matches Some(root) ==> match r.table {
            Some(t) => t.root_page as usize == root as usize && exists|j: int|
                0 <= j < schemas.model().len() && #[trigger] schemas.model()[j] == (
                SchemaModel::Table { name: t.name@, sql: t.sql@, root_page: t.root_page }),
            None => forall|j: int|
                0 <= j < schemas.model().len() ==> !((#[trigger] schemas.model()[j]) matches
                SchemaModel::Table { root_page, .. } && root_page as usize == root as usize),
        },
{
    let mut table: Option<Table> = None;
    let n = program.len();
    let mut i: usize = 0;
    while i < n
        invariant
            i <= n,
            n == program@.len(),
            spec_last_opened_root(program@.subrange(0, i as int)) is None ==> table is None,
            spec_last_opened_root(program@.subrange(0, i as int)) matches Some(root) ==> match table {
                Some(t) => t.root_page as usize == root as usize && exists|j: int|
                    0 <= j < schemas.model().len() && #[trigger] schemas.model()[j] == (
                    SchemaModel::Table { name: t.name@, sql: t.sql@, root_page: t.root_page }),
                None => forall|j: int|
                    0 <= j < schemas.model().len() ==> !((#[trigger] schemas.model()[j]) matches
                    SchemaModel::Table { root_page, .. } && root_page as usize == root as usize),
            },
        decreases n - i,
    {
        let instr = &program[i];
        let opener = matches!(
            instr.opcode,
            Opcode::OpenRead | Opcode::OpenWrite | Opcode::ReopenIdx
        );
        if opener {
            let id = instr.p2 as usize;
            table = find_table_by_root(id, schemas);
        }
        i = i + 1;
        proof {
            let cur = program@.subrange(0, i as int);
            assert(cur.drop_last() =~= program@.subrange(0, i - 1));
            assert(cur[cur.len() - 1] == program@[i - 1]);
            if opener {
                assert(spec_last_opened_root(cur) == Some(program@[i - 1].p2));
            }
        }
    }
    proof {
        assert(program@.subrange(0, n as int) =~= program@);
    }
    Explanation { table }
}

} // verus!
