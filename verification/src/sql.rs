//! Splits a textual script into individual statements, respecting string,
//! identifier and compound-statement boundaries: a semicolon ends a
//! statement except inside quotes, brackets or a BEGIN...END body; line
//! comments are stripped.

use vstd::prelude::*;

verus! {

/// Where the splitter stands within the script.
#[derive(Clone, Copy, Debug, PartialEq, Eq, Structural)]
pub enum SplitState {
    Normal,
    AtSeperator,
    InBegin,
    InStringSQ,
    InStringDQ,
    InStringBT,
    InIdent,
    InComment,
}

/// The splitter's whole position: its state, the statement being gathered,
/// and the statements already emitted.
pub ghost struct SplitAcc {
    pub state: SplitState,
    pub buffer: Seq<char>,
    pub out: Seq<Seq<char>>,
}

/// Whether `b` ends with `p`.
pub open spec fn spec_ends_with(b: Seq<char>, p: Seq<char>) -> bool {
    b.len() >= p.len() && b.subrange(b.len() - p.len(), b.len() as int) == p
}

/// The characters that open a trigger body.
pub open spec fn begin_space() -> Seq<char> {
    seq!['B', 'E', 'G', 'I', 'N', ' ']
}

/// The characters that open a trigger body at a line break.
pub open spec fn begin_newline() -> Seq<char> {
    seq!['B', 'E', 'G', 'I', 'N', '\n']
}

/// The characters that close a trigger body.
pub open spec fn end_semi() -> Seq<char> {
    seq!['E', 'N', 'D', ';']
}

/// Two hyphens: the start of a line comment.
pub open spec fn two_hyphens() -> Seq<char> {
    seq!['-', '-']
}

/// One step of the splitter over one character.
pub open spec fn spec_split_step(a: SplitAcc, c: char) -> SplitAcc {
    match a.state {
        SplitState::AtSeperator => {
            if c == ' ' || c == '\n' {
                a
            } else {
                SplitAcc { state: SplitState::Normal, buffer: a.buffer.push(c), ..a }
            }
        },
        SplitState::InComment => {
            if c == '\n' {
                SplitAcc { state: SplitState::Normal, ..a }
            } else {
                a
            }
        },
        SplitState::InIdent => {
            SplitAcc {
                state: if c == ']' {
                    SplitState::Normal
                } else {
                    SplitState::InIdent
                },
                buffer: a.buffer.push(c),
                ..a
            }
        },
        SplitState::InStringSQ => {
            SplitAcc {
                state: if c == '\'' {
                    SplitState::Normal
                } else {
                    SplitState::InStringSQ
                },
                buffer: a.buffer.push(c),
                ..a
            }
        },
        SplitState::InStringDQ => {
            SplitAcc {
                state: if c == '"' {
                    SplitState::Normal
                } else {
                    SplitState::InStringDQ
                },
                buffer: a.buffer.push(c),
                ..a
            }
        },
        SplitState::InStringBT => {
            SplitAcc {
                state: if c == '`' {
                    SplitState::Normal
                } else {
                    SplitState::InStringBT
                },
                buffer: a.buffer.push(c),
                ..a
            }
        },
        SplitState::Normal => {
            let buf = a.buffer.push(c);
            if c == ' ' && spec_ends_with(buf, begin_space()) {
                SplitAcc { state: SplitState::InBegin, buffer: buf, ..a }
            } else if c == '\n' && spec_ends_with(buf, begin_newline()) {
                SplitAcc { state: SplitState::InBegin, buffer: buf, ..a }
            } else if c == '\'' {
                SplitAcc { state: SplitState::InStringSQ, buffer: buf, ..a }
            } else if c == '"' {
                SplitAcc { state: SplitState::InStringDQ, buffer: buf, ..a }
            } else if c == '`' {
                SplitAcc { state: SplitState::InStringBT, buffer: buf, ..a }
            } else if c == '[' {
                SplitAcc { state: SplitState::InIdent, buffer: buf, ..a }
            } else if c == ';' {
                SplitAcc {
                    state: SplitState::AtSeperator,
                    buffer: Seq::empty(),
                    out: a.out.push(buf),
                }
            } else if c == '-' && spec_ends_with(buf, two_hyphens()) {
                SplitAcc {
                    state: SplitState::InComment,
                    buffer: buf.subrange(0, buf.len() - 2),
                    ..a
                }
            } else {
                SplitAcc { state: SplitState::Normal, buffer: buf, ..a }
            }
        },
        SplitState::InBegin => {
            let buf = a.buffer.push(c);
            if c == ';' && spec_ends_with(buf, end_semi()) {
                SplitAcc {
                    state: SplitState::AtSeperator,
                    buffer: Seq::empty(),
                    out: a.out.push(buf),
                }
            } else {
                SplitAcc { state: SplitState::InBegin, buffer: buf, ..a }
            }
        },
    }
}

/// The splitter's position after the first `i` characters.
pub open spec fn spec_split_at(cs: Seq<char>, i: int) -> SplitAcc
    decreases i,
{
    if i <= 0 {
        SplitAcc { state: SplitState::Normal, buffer: Seq::empty(), out: Seq::empty() }
    } else {
        spec_split_step(spec_split_at(cs, i - 1), cs[i - 1])
    }
}

/// The statements a script splits into: the emitted list, with whatever the
/// buffer still held flushed at the end.
pub open spec fn spec_split_statements(cs: Seq<char>) -> Seq<Seq<char>> {
    let a = spec_split_at(cs, cs.len() as int);
    if a.buffer.len() > 0 {
        a.out.push(a.buffer)
    } else {
        a.out
    }
}

/// Relies on `str::chars` by way of `collect`: the characters of the text,
/// in order.
#[verifier::external_body]
fn str_chars(s: &str) -> (r: Vec<char>)
    ensures
        r@ == s@,
{
    s.chars().collect()
}

/// Relies on `String::from_iter` by way of `collect`: the string spelling
/// the given characters.
#[verifier::external_body]
fn chars_to_string(chars: &Vec<char>) -> (r: String)
    ensures
        r@ == chars@,
{
    chars.iter().collect()
}

/// Whether `buf` ends with `pat`.
fn ends_with(buf: &Vec<char>, pat: &Vec<char>) -> (r: bool)
    ensures
        r == spec_ends_with(buf@, pat@),
{
    let bl = buf.len();
    let pl = pat.len();
    if bl < pl {
        return false;
    }
    let mut i: usize = 0;
    while i < pl
        invariant
            i <= pl,
            pl <= bl,
            bl == buf@.len(),
            pl == pat@.len(),
            forall|j: int| 0 <= j < i ==> buf@[bl - pl + j] == pat@[j],
        decreases pl - i,
    {
        if buf[bl - pl + i] != pat[i] {
            proof {
                assert(buf@.subrange(bl - pl, bl as int)[i as int] != pat@[i as int]);
            }
            return false;
        }
        i = i + 1;
    }
    proof {
        assert(buf@.subrange(bl - pl, bl as int) =~= pat@);
    }
    true
}

/// Splits a script into statements: a semicolon separates statements except
/// inside quoted strings, bracketed identifiers and BEGIN...END bodies;
/// line comments and the whitespace after a separator are dropped, and an
/// unterminated last statement is flushed as it stands.
pub fn split_statements(input: &str) -> (r: Vec<String>)
    ensures
        r@.len() == spec_split_statements(input@).len(),
        forall|i: int|
            0 <= i < r@.len() ==> (#[trigger] r@[i])@ == spec_split_statements(input@)[i],
{
    let cs = str_chars(input);
    let mut pat_begin_sp: Vec<char> = Vec::new();
    pat_begin_sp.push('B');
    pat_begin_sp.push('E');
    pat_begin_sp.push('G');
    pat_begin_sp.push('I');
    pat_begin_sp.push('N');
    pat_begin_sp.push(' ');
    let mut pat_begin_nl: Vec<char> = Vec::new();
    pat_begin_nl.push('B');
    pat_begin_nl.push('E');
    pat_begin_nl.push('G');
    pat_begin_nl.push('I');
    pat_begin_nl.push('N');
    pat_begin_nl.push('\n');
    let mut pat_end: Vec<char> = Vec::new();
    pat_end.push('E');
    pat_end.push('N');
    pat_end.push('D');
    pat_end.push(';');
    let mut pat_hyphens: Vec<char> = Vec::new();
    pat_hyphens.push('-');
    pat_hyphens.push('-');
    proof {
        assert(pat_begin_sp@ =~= begin_space());
        assert(pat_begin_nl@ =~= begin_newline());
        assert(pat_end@ =~= end_semi());
        assert(pat_hyphens@ =~= two_hyphens());
    }
    let mut out: Vec<String> = Vec::new();
    let mut buffer: Vec<char> = Vec::new();
    let mut state = SplitState::Normal;
    let mut i: usize = 0;
    while i < cs.len()
        invariant
            i <= cs@.len(),
            cs@ == input@,
            pat_begin_sp@ == begin_space(),
            pat_begin_nl@ == begin_newline(),
            pat_end@ == end_semi(),
            pat_hyphens@ == two_hyphens(),
            state == spec_split_at(input@, i as int).state,
            buffer@ == spec_split_at(input@, i as int).buffer,
            Seq::new(out@.len(), |k: int| out@[k]@) == spec_split_at(input@, i as int).out,
        decreases cs@.len() - i,
    {
        let b = cs[i];
        let ghost pre = spec_split_at(input@, i as int);
        let ghost post = spec_split_step(pre, b);
        let ghost outs = Seq::new(out@.len(), |k: int| out@[k]@);
        match state {
            SplitState::AtSeperator => {
                if b == ' ' || b == '\n' {
                } else {
                    state = SplitState::Normal;
                    buffer.push(b);
                }
            },
            SplitState::InComment => {
                if b == '\n' {
                    state = SplitState::Normal;
                }
            },
            SplitState::InIdent => {
                buffer.push(b);
                if b == ']' {
                    state = SplitState::Normal;
                }
            },
            SplitState::InStringSQ => {
                buffer.push(b);
                if b == '\'' {
                    state = SplitState::Normal;
                }
            },
            SplitState::InStringDQ => {
                buffer.push(b);
                if b == '"' {
                    state = SplitState::Normal;
                }
            },
            SplitState::InStringBT => {
                buffer.push(b);
                if b == '`' {
                    state = SplitState::Normal;
                }
            },
            SplitState::Normal => {
                buffer.push(b);
                if b == ' ' && ends_with(&buffer, &pat_begin_sp) {
                    state = SplitState::InBegin;
                } else if b == '\n' && ends_with(&buffer, &pat_begin_nl) {
                    state = SplitState::InBegin;
                } else if b == '\'' {
                    state = SplitState::InStringSQ;
                } else if b == '"' {
                    state = SplitState::InStringDQ;
                } else if b == '`' {
                    state = SplitState::InStringBT;
                } else if b == '[' {
                    state = SplitState::InIdent;
                } else if b == ';' {
                    state = SplitState::AtSeperator;
                    let stmt = chars_to_string(&buffer);
                    out.push(stmt);
                    buffer = Vec::new();
                    proof {
                        assert(Seq::new(out@.len(), |k: int| out@[k]@) =~= outs.push(
                            pre.buffer.push(b),
                        ));
                    }
                } else if b == '-' && ends_with(&buffer, &pat_hyphens) {
                    buffer.pop();
                    buffer.pop();
                    state = SplitState::InComment;
                    proof {
                        assert(buffer@ =~= pre.buffer.push(b).subrange(
                            0,
                            pre.buffer.push(b).len() - 2,
                        ));
                    }
                }
            },
            SplitState::InBegin => {
                buffer.push(b);
                if b == ';' && ends_with(&buffer, &pat_end) {
                    state = SplitState::AtSeperator;
                    let stmt = chars_to_string(&buffer);
                    out.push(stmt);
                    buffer = Vec::new();
                    proof {
                        assert(Seq::new(out@.len(), |k: int| out@[k]@) =~= outs.push(
                            pre.buffer.push(b),
                        ));
                    }
                }
            },
        }
        i = i + 1;
        proof {
            assert(state == post.state && buffer@ == post.buffer && Seq::new(
                out@.len(),
                |k: int| out@[k]@,
            ) =~= post.out);
        }
    }
    if buffer.len() > 0 {
        let ghost outs = Seq::new(out@.len(), |k: int| out@[k]@);
        let stmt = chars_to_string(&buffer);
        out.push(stmt);
        proof {
            assert(Seq::new(out@.len(), |k: int| out@[k]@) =~= outs.push(buffer@));
        }
    }
    out
}

} // verus!
