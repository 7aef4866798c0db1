//! Statement-splitter tests: separators, compound bodies, quoted strings,
//! bracketed identifiers.

use sqlite_codec::sql::split_statements;

#[test]
fn it_split_statements() {
    let stmts = split_statements("SELECT 1; SELECT 2");
    assert_eq!(stmts, vec!["SELECT 1;", "SELECT 2"]);
}

#[test]
fn it_keep_statement_with_begin() {
    let stmts = split_statements("CREATE TRIGGER trigger AFTER INSERT ON t BEGIN SELECT 1; END;");
    assert_eq!(
        stmts,
        vec!["CREATE TRIGGER trigger AFTER INSERT ON t BEGIN SELECT 1; END;"]
    );

    let stmts =
        split_statements("CREATE TRIGGER trigger AFTER INSERT ON t BEGIN SELECT 1; END; SELECT 1");
    assert_eq!(
        stmts,
        vec![
            "CREATE TRIGGER trigger AFTER INSERT ON t BEGIN SELECT 1; END;",
            "SELECT 1"
        ]
    );
}

#[test]
fn it_split_statements_multiline() {
    let stmts = split_statements(
        r#"SELECT 1;
                           SELECT 2;
        "#,
    );
    assert_eq!(stmts, vec!["SELECT 1;", "SELECT 2;"]);

    let stmts = split_statements(
        r#"CREATE TRIGGER trigger AFTER INSERT ON t
BEGIN
    SELECT 1;
END;
        "#,
    );
    assert_eq!(
        stmts,
        vec!["CREATE TRIGGER trigger AFTER INSERT ON t\nBEGIN\n    SELECT 1;\nEND;"]
    );
}

#[test]
fn it_against_sql_split() {
    assert_eq!(
        split_statements("CREATE TABLE foo (bar text)"),
        vec!["CREATE TABLE foo (bar text)"],
        "Trailing semi-colon is optional"
    );
    assert_eq!(
        split_statements("CREATE TABLE foo (bar text);"),
        vec!["CREATE TABLE foo (bar text);"],
        "We preserve the semi-colons"
    );
    assert_eq!(
        split_statements("CREATE TABLE foo (bar text); INSERT into foo (bar) VALUES ('hi')"),
        vec![
            "CREATE TABLE foo (bar text);",
            "INSERT into foo (bar) VALUES ('hi')"
        ]
    );
    assert_eq!(
        split_statements("invalid sql; but we don't care because we don't really parse it;"),
        vec![
            "invalid sql;",
            "but we don't care because we don't really parse it;"
        ]
    );
    assert_eq!(
        split_statements("INSERT INTO foo (bar) VALUES ('semicolon in string: ;')"),
        vec!["INSERT INTO foo (bar) VALUES ('semicolon in string: ;')"]
    );
    assert_eq!(
        split_statements("INSERT INTO foo (bar) VALUES (\"semicolon in double-quoted string: ;\")"),
        vec!["INSERT INTO foo (bar) VALUES (\"semicolon in double-quoted string: ;\")"]
    );
    assert_eq!(
        split_statements("INSERT INTO foo (bar) VALUES (`semicolon in backtick string: ;`)"),
        vec!["INSERT INTO foo (bar) VALUES (`semicolon in backtick string: ;`)"]
    );
    assert_eq!(
        split_statements("INSERT INTO foo (bar) VALUES ('interior quote and semicolon in string: ;''')"),
        vec!["INSERT INTO foo (bar) VALUES ('interior quote and semicolon in string: ;''')"]
    );
    assert_eq!(split_statements("INSERT INTO foo (bar) VALUES (\"interior quote and semicolon in double-quoted string: ;\"\"\")"), vec!["INSERT INTO foo (bar) VALUES (\"interior quote and semicolon in double-quoted string: ;\"\"\")"]);
    assert_eq!(split_statements("INSERT INTO foo (bar) VALUES (`interior quote and semicolon in backtick string: ;```)"), vec!["INSERT INTO foo (bar) VALUES (`interior quote and semicolon in backtick string: ;```)"]);
    assert_eq!(
        split_statements("INSERT INTO foo (bar) VALUES (`semicolon after interior quote ``;`)"),
        vec!["INSERT INTO foo (bar) VALUES (`semicolon after interior quote ``;`)"]
    );
    assert_eq!(
        split_statements("CREATE TABLE [foo;bar] (bar: text); INSERT into foo (bar) VALUES ('hi')"),
        vec![
            "CREATE TABLE [foo;bar] (bar: text);",
            "INSERT into foo (bar) VALUES ('hi')"
        ]
    );
}

#[test]
fn it_recognizes_strings() {
    assert_eq!(
        split_statements("INSERT INTO projects VALUES(';;;');"),
        vec!["INSERT INTO projects VALUES(';;;');",]
    );
    assert_eq!(
        split_statements("INSERT INTO projects VALUES('`;');"),
        vec!["INSERT INTO projects VALUES('`;');",]
    );
    assert_eq!(
        split_statements("INSERT INTO projects VALUES('\"');"),
        vec!["INSERT INTO projects VALUES('\"');",]
    );
    assert_eq!(
        split_statements("INSERT INTO projects VALUES(\"'\");"),
        vec!["INSERT INTO projects VALUES(\"'\");",]
    );
}

#[test]
fn it_closing_bracket() {
    assert_eq!(
        split_statements("UPDATE test SET str = 'update]'; UPDATE test SET str = 'second update';"),
        vec![
            "UPDATE test SET str = 'update]';",
            "UPDATE test SET str = 'second update';"
        ]
    );
}

#[test]
fn trailing_comments_are_dropped() {
    assert_eq!(
        split_statements("SELECT * FROM foo; -- trailing comments are fine"),
        vec!["SELECT * FROM foo;"]
    );
    assert_eq!(
        split_statements("SELECT * FROM foo -- trailing comments are fine"),
        vec!["SELECT * FROM foo "]
    );
    assert_eq!(split_statements("SELECT 1; --test"), vec!["SELECT 1;"]);
    assert_eq!(
        split_statements("SELECT * FROM foo; -- trailing ; comments ; are ; fine"),
        vec!["SELECT * FROM foo;"]
    );
    assert!(split_statements("-- Start with a comment;SELECT * FROM foo;").is_empty());
}
