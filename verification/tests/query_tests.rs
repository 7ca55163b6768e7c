use tinydb::query::{lex, parse, parse_checked, parse_i64, parse_with_upper, Stmt};
use tinydb::error::DbError;

#[test]
fn test_lex_insert() {
    let tokens = lex(r#"INSERT INTO users (id, name) VALUES (1, "alice")"#);
    assert_eq!(
        tokens,
        vec![
            "INSERT", "INTO", "users", "(", "id", ",", "name", ")", "VALUES", "(", "1", ",",
            "alice", ")"
        ]
    );
}

#[test]
fn test_lex_select() {
    let tokens = lex("SELECT * FROM users WHERE id = 1");
    assert_eq!(tokens, vec!["SELECT", "*", "FROM", "users", "WHERE", "id", "=", "1"]);
}

#[test]
fn test_parse_insert() {
    let tokens = lex(r#"INSERT INTO users (id, name) VALUES (1, "alice")"#);
    let stmt = parse(&tokens).unwrap();
    assert_eq!(
        stmt,
        Stmt::Insert { table: "users".into(), id: 1, fields: vec!["alice".into()] }
    );
}

#[test]
fn test_parse_insert_multiple_fields() {
    let tokens = lex(r#"INSERT INTO users (id, name, dept) VALUES (1, "alice", "eng")"#);
    let stmt = parse(&tokens).unwrap();
    assert_eq!(
        stmt,
        Stmt::Insert {
            table: "users".into(),
            id: 1,
            fields: vec!["alice".into(), "eng".into()],
        }
    );
}

#[test]
fn test_parse_select() {
    let tokens = lex("SELECT * FROM users WHERE id = 1");
    let stmt = parse(&tokens).unwrap();
    assert_eq!(stmt, Stmt::Select { table: "users".into(), where_id: Some(1) });
}

#[test]
fn test_parse_select_no_where() {
    let tokens = lex("SELECT * FROM users");
    let stmt = parse(&tokens).unwrap();
    assert_eq!(stmt, Stmt::Select { table: "users".into(), where_id: None });
}

#[test]
fn test_parse_error_unknown_command() {
    let tokens = lex("DELETE FROM users");
    assert!(parse(&tokens).is_err());
}

#[test]
fn test_parse_error_empty() {
    let tokens: Vec<String> = vec![];
    assert!(parse(&tokens).is_err());
}

fn message(r: Result<Stmt, DbError>) -> String {
    match r {
        Err(DbError::InvalidQuery(m)) => m,
        _ => panic!("expected an invalid query"),
    }
}

#[test]
fn lex_keeps_spaces_and_punctuation_inside_quotes() {
    let tokens = lex(r#"a "b c, (d)" e"#);
    assert_eq!(tokens, vec!["a", "b c, (d)", "e"]);
}

#[test]
fn lex_splits_punctuation_without_spaces() {
    assert_eq!(lex("f(x,y)"), vec!["f", "(", "x", ",", "y", ")"]);
    assert_eq!(lex("   "), Vec::<String>::new());
}

#[test]
fn keywords_are_case_insensitive() {
    let tokens = lex("select * from t where id = -7");
    assert_eq!(parse(&tokens).unwrap(), Stmt::Select { table: "t".into(), where_id: Some(-7) });
}

#[test]
fn error_messages_name_the_problem() {
    assert_eq!(message(parse(&lex("DELETE FROM users"))), "Unknown command: DELETE");
    assert_eq!(message(parse(&Vec::new())), "Empty query");
    assert_eq!(message(parse(&lex("INSERT INTO t"))), "Invalid INSERT syntax");
    assert_eq!(
        message(parse(&lex("INSERT ONTO t (id, name) VALUES (1, x)"))),
        "Expected INTO after INSERT"
    );
    assert_eq!(
        message(parse(&lex("INSERT INTO t id name VALUES 1 x y z"))),
        "Expected ( after table name"
    );
    assert_eq!(
        message(parse(&lex("INSERT INTO t (id, name) VALUE (1, x)"))),
        "Expected VALUES keyword"
    );
    assert_eq!(
        message(parse(&lex("INSERT INTO t (id, name) VALUES 1 x y z"))),
        "Expected ( after VALUES"
    );
    assert_eq!(
        message(parse(&lex("INSERT INTO t (id, name) VALUES ()"))),
        "No values provided"
    );
    assert_eq!(
        message(parse(&lex("INSERT INTO t (id, name) VALUES (abc, x)"))),
        "Invalid id: abc"
    );
    assert_eq!(message(parse(&lex("SELECT *"))), "Invalid SELECT syntax");
    assert_eq!(message(parse(&lex("SELECT * IN t"))), "Expected FROM keyword");
    assert_eq!(message(parse(&lex("SELECT * FROM t WHERE id 5"))), "Expected = after WHERE");
    assert_eq!(message(parse(&lex("SELECT * FROM t WHERE id = x1"))), "Invalid id: x1");
}

#[test]
fn parse_i64_follows_std() {
    for s in ["0", "-0", "+5", "42", "-9223372036854775808", "9223372036854775807", "007"] {
        assert_eq!(parse_i64(s), s.parse::<i64>().ok());
    }
    for s in ["", "-", "+", "9223372036854775808", "-9223372036854775809", "1a", " 1", "--1", "١"] {
        assert_eq!(parse_i64(s), None);
        assert!(s.parse::<i64>().is_err());
    }
}

#[test]
fn insert_values_stop_at_closing_paren() {
    let tokens = lex(r#"INSERT INTO t (id, a) VALUES (3, "x", "y") extra"#);
    assert_eq!(
        parse(&tokens).unwrap(),
        Stmt::Insert { table: "t".into(), id: 3, fields: vec!["x".into(), "y".into()] }
    );
}

#[test]
fn parse_with_given_upper_forms() {
    let tokens: Vec<String> = vec!["select", "*", "from", "users"].into_iter().map(String::from).collect();
    let upper: Vec<String> = tokens.iter().map(|t| t.to_uppercase()).collect();
    match parse_with_upper(&tokens, &upper).unwrap() {
        Stmt::Select { table, where_id } => {
            assert_eq!(table, "users");
            assert_eq!(where_id, None);
        }
        _ => panic!("expected a select"),
    }
    let wrong: Vec<String> = vec!["X", "*", "FROM", "users"].into_iter().map(String::from).collect();
    match parse_with_upper(&tokens, &wrong) {
        Err(DbError::InvalidQuery(m)) => assert_eq!(m, "Unknown command: select"),
        _ => panic!("expected an unknown command"),
    }
}

#[test]
fn parse_checked_refuses_select_ending_after_from() {
    let tokens = lex("SELECT * x FROM");
    assert!(parse_checked(&tokens).is_none());
    let tokens = lex("SELECT * FROM users WHERE id =");
    assert!(parse_checked(&tokens).is_none());
    let tokens = lex("select * from users where id = 7");
    match parse_checked(&tokens) {
        Some(Ok(Stmt::Select { table, where_id })) => {
            assert_eq!(table, "users");
            assert_eq!(where_id, Some(7));
        }
        _ => panic!("expected a select"),
    }
}
