use tinydb::row::Row;
use tinydb::table::Table;
use tinydb::wal::{wal_record, CommitStep, Transaction};

#[test]
fn test_transaction_rollback() {
    let table = Table::new();
    let mut txn = Transaction::begin();
    txn.insert(Row { id: 1, fields: vec!["alice".into()] });
    txn.rollback();

    assert!(table.get(1).unwrap().is_none());
}

#[test]
fn test_transaction_commit() {
    let mut table = Table::new();
    let mut txn = Transaction::begin();
    txn.insert(Row { id: 1, fields: vec!["alice".into()] });
    txn.commit(&mut table).unwrap();

    let row = table.get(1).unwrap().unwrap();
    assert_eq!(row.id, 1);
    assert_eq!(row.fields[0], "alice");
}

#[test]
fn test_wal_multiple_inserts() {
    let mut table = Table::new();
    let mut txn = Transaction::begin();
    for i in 1..=5 {
        txn.insert(Row { id: i, fields: vec![format!("user_{}", i)] });
    }
    txn.commit(&mut table).unwrap();

    for i in 1..=5 {
        let row = table.get(i).unwrap().unwrap();
        assert_eq!(row.fields[0], format!("user_{}", i));
    }
}

#[test]
fn records_are_length_prefixed_images() {
    let row = Row { id: 2, fields: vec!["hi".into()] };
    let rec = wal_record(&row);
    let image = row.encode();
    assert_eq!(&rec[..4], &(image.len() as u32).to_le_bytes());
    assert_eq!(&rec[4..], &image[..]);

    let mut txn = Transaction::begin();
    txn.insert(Row { id: 1, fields: vec![] });
    txn.insert(row);
    let recs = txn.records();
    assert_eq!(recs.len(), 2);
    assert_eq!(recs[1], rec);
}

#[test]
fn commit_applies_in_order() {
    let mut table = Table::new();
    let mut txn = Transaction::begin();
    txn.insert(Row { id: 9, fields: vec!["first".into()] });
    txn.insert(Row { id: 9, fields: vec!["second".into()] });
    txn.commit(&mut table).unwrap();
    assert_eq!(table.get(9).unwrap().unwrap().fields[0], "second");
}

#[test]
fn commit_steps_log_every_record_before_applying() {
    let mut txn = Transaction::begin();
    txn.insert(Row { id: 1, fields: vec!["a".into()] });
    txn.insert(Row { id: 2, fields: vec!["b".into()] });
    assert!(txn.next_step(0, false) == CommitStep::Log(0));
    assert!(txn.next_step(1, false) == CommitStep::Log(1));
    assert!(txn.next_step(2, false) == CommitStep::Apply);
    assert!(txn.next_step(2, true) == CommitStep::Done);
}
