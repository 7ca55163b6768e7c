use tinydb::executor::{decimal, execute};
use tinydb::query::Stmt;
use tinydb::row::Row;
use tinydb::error::DbError;
use tinydb::heap::Heap;
use tinydb::page::Page;
use tinydb::table::Table;

#[test]
fn create_insert_get() {
    let mut table = Table::new();
    let row = Row { id: 1, fields: vec!["hello".to_string()] };
    table.insert(row).unwrap();
    let result = table.get(1).unwrap();
    assert_eq!(result.unwrap().id, 1);
}

#[test]
fn get_missing_id_is_none() {
    let mut table = Table::new();
    table.insert(Row { id: 2, fields: vec![] }).unwrap();
    assert!(table.get(1).unwrap().is_none());
}

#[test]
fn later_insert_with_same_id_wins() {
    let mut table = Table::new();
    table.insert(Row { id: 7, fields: vec!["old".into()] }).unwrap();
    table.insert(Row { id: 7, fields: vec!["new".into()] }).unwrap();
    assert_eq!(table.get(7).unwrap().unwrap().fields, vec!["new".to_string()]);
}

#[test]
fn many_rows_across_pages() {
    let mut table = Table::new();
    for i in 0..300 {
        table.insert(Row { id: i, fields: vec![format!("user_{}", i), "x".repeat(50)] }).unwrap();
    }
    assert!(table.num_pages() >= 2);
    for i in 0..300 {
        let row = table.get(i).unwrap().unwrap();
        assert_eq!(row.fields[0], format!("user_{}", i));
    }
}

#[test]
fn test_execute_insert() {
    let mut table = Table::new();
    let stmt = Stmt::Insert { table: "users".into(), id: 1, fields: vec!["alice".into()] };
    let result = execute(stmt, &mut table).unwrap();
    assert!(result.contains("1"));
}

#[test]
fn test_execute_select() {
    let mut table = Table::new();
    let stmt = Stmt::Insert { table: "users".into(), id: 1, fields: vec!["alice".into()] };
    execute(stmt, &mut table).unwrap();

    let stmt = Stmt::Select { table: "users".into(), where_id: Some(1) };
    let result = execute(stmt, &mut table).unwrap();
    assert!(result.contains("alice"));
}

#[test]
fn execute_messages() {
    let mut table = Table::new();
    let r = execute(Stmt::Insert { table: "t".into(), id: -12, fields: vec!["a".into()] }, &mut table);
    assert_eq!(r.unwrap(), "Inserted row with id=-12");
    let r = execute(Stmt::Select { table: "t".into(), where_id: Some(5) }, &mut table);
    assert_eq!(r.unwrap(), "Row with id=5 not found");
    let r = execute(Stmt::Select { table: "t".into(), where_id: Some(-12) }, &mut table);
    assert_eq!(r.unwrap(), "Row { id: -12, fields: [\"a\"] }");
    let r = execute(Stmt::Select { table: "t".into(), where_id: None }, &mut table);
    assert_eq!(r.unwrap(), "SELECT * not implemented yet");
}

#[test]
fn decimal_matches_display() {
    for n in [0i64, 7, 10, -1, 1234567890, i64::MIN, i64::MAX, -100] {
        assert_eq!(decimal(n), n.to_string());
    }
}

fn reopen(table: &Table) -> Table {
    let mut pages = Vec::new();
    for i in 0..table.num_pages() {
        pages.push(Page::from_bytes(table.heap().page(i).data).unwrap());
    }
    Table::open(Heap::from_pages(pages)).unwrap()
}

#[test]
fn open_reindex() {
    let mut table = Table::new();
    table.insert(Row { id: 1, fields: vec!["hello".to_string()] }).unwrap();
    let table = reopen(&table);
    let row = table.get(1).unwrap().unwrap();
    assert_eq!(row.id, 1);
    assert_eq!(row.fields[0], "hello");
}

#[test]
fn reopen_many_rows_across_pages() {
    let mut table = Table::new();
    for i in 0..300 {
        table.insert(Row { id: i, fields: vec![format!("user_{}", i), "x".repeat(50)] }).unwrap();
    }
    assert!(table.num_pages() >= 2);
    let table = reopen(&table);
    for i in 0..300 {
        let row = table.get(i).unwrap().unwrap();
        assert_eq!(row.id, i);
        assert_eq!(row.fields, vec![format!("user_{}", i), "x".repeat(50)]);
    }
    assert!(table.get(300).unwrap().is_none());
}

#[test]
fn reopen_finds_later_row_on_same_page() {
    let mut table = Table::new();
    table.insert(Row { id: 7, fields: vec!["old".into()] }).unwrap();
    table.insert(Row { id: 7, fields: vec!["new".into()] }).unwrap();
    let table = reopen(&table);
    assert_eq!(table.get(7).unwrap().unwrap().fields, vec!["new".to_string()]);
}

#[test]
fn reopen_after_overwrite_into_earlier_page_finds_row_read_last() {
    let mut table = Table::new();
    table.insert(Row { id: 1, fields: vec!["a".repeat(5000)] }).unwrap();
    table.insert(Row { id: 2, fields: vec!["b".repeat(5000)] }).unwrap();
    assert_eq!(table.num_pages(), 2);
    table.insert(Row { id: 2, fields: vec!["c".into()] }).unwrap();
    assert_eq!(table.num_pages(), 2);
    assert_eq!(table.get(2).unwrap().unwrap().fields, vec!["c".to_string()]);
    let reopened = reopen(&table);
    assert_eq!(reopened.get(2).unwrap().unwrap().fields, vec!["b".repeat(5000)]);
    assert_eq!(reopened.get(1).unwrap().unwrap().fields, vec!["a".repeat(5000)]);
}

#[test]
fn open_refuses_row_with_invalid_text() {
    let mut p = Page::new();
    let mut bytes = Row { id: 3, fields: vec!["ab".into()] }.encode();
    let n = bytes.len();
    bytes[n - 1] = 0xff;
    p.insert_tuple(&bytes).unwrap();
    match Table::open(Heap::from_pages(vec![p])) {
        Err(DbError::Parse(m)) => assert_eq!(m, "UTF-8"),
        _ => panic!("expected a parse error"),
    }
}

#[test]
fn open_reports_bad_text_before_a_cut_short_row() {
    let mut p = Page::new();
    let mut bad = Row { id: 3, fields: vec!["ab".into()] }.encode();
    let n = bad.len();
    bad[n - 1] = 0xff;
    p.insert_tuple(&bad).unwrap();
    let mut short = Vec::new();
    short.extend_from_slice(&4i64.to_le_bytes());
    short.extend_from_slice(&1u32.to_le_bytes());
    short.extend_from_slice(&9u32.to_le_bytes());
    p.insert_tuple(&short).unwrap();
    let heap = Heap::from_pages(vec![p]);
    assert!(Table::can_open(&heap));
    match Table::open(heap) {
        Err(DbError::Parse(m)) => assert_eq!(m, "UTF-8"),
        _ => panic!("expected a parse error"),
    }
}

#[test]
fn cut_short_row_first_cannot_be_opened() {
    let mut p = Page::new();
    let mut short = Vec::new();
    short.extend_from_slice(&4i64.to_le_bytes());
    short.extend_from_slice(&1u32.to_le_bytes());
    short.extend_from_slice(&9u32.to_le_bytes());
    p.insert_tuple(&short).unwrap();
    let heap = Heap::from_pages(vec![p]);
    assert!(!Table::can_open(&heap));
}
