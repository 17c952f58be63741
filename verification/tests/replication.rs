use any_store::table::{StorageOp, StoreError, Table};
use any_store::value::Something;

fn setup() -> Table {
    let mut store = Table::new(false);
    let v1 = Something::string("hello".into());
    let k1 = Something::Int(10);
    let r1 = store.create_row(k1.clone());
    store.insert_at(r1, v1.clone(), 5).unwrap();
    let v2 = Something::string("world".into());
    let k2 = Something::Int(20);
    let r2 = store.create_row(k2.clone());
    store.insert_at(r2, v2.clone(), 3).unwrap();
    let k3 = Something::Int(30);
    let r3 = store.create_row(k3.clone());
    store.insert_at(r3, v1.clone(), 5).unwrap();

    return store;
}

#[test]
fn test_replication() {
    let mut store = setup();
    let ops = store.take_ops();
    let mut store2 = Table::from_ops(ops).unwrap();
    store2.clear_ops();
    assert!(store == store2);
}

#[test]
fn replication_equivalence_by_hash() {
    let mut store = setup();
    // a deletion is part of the log too
    let id = store.create_row(Something::Int(40));
    store.insert_at(id, Something::Blob(vec![1, 2, 3]), 0).unwrap();
    store.delete_row(id).unwrap();

    let ops = store.take_ops();
    let replica = Table::from_ops(ops).unwrap();
    assert_eq!(store.tree_hash(), replica.tree_hash());
    assert!(store == replica);
}

#[test]
fn version_gap_is_rejected() {
    // versions must run 1, 2, 3, … — a log starting at 2 is corrupt
    let ops = vec![StorageOp::Insert {
        key: Something::Int(1),
        value: Something::Int(7),
        index: 0,
        version: 2,
    }];
    match Table::from_ops(ops) {
        Err(StoreError::VersionMismatch { expected, got }) => {
            assert_eq!(expected, 1);
            assert_eq!(got, 2);
        }
        _ => panic!("a version gap must be rejected"),
    }
}

#[test]
fn version_repeat_is_rejected() {
    let ops = vec![
        StorageOp::Insert {
            key: Something::Int(1),
            value: Something::Int(7),
            index: 0,
            version: 1,
        },
        StorageOp::Remove {
            key: Something::Int(1),
            version: 1,
        },
    ];
    match Table::from_ops(ops) {
        Err(StoreError::VersionMismatch { expected, got }) => {
            assert_eq!(expected, 2);
            assert_eq!(got, 1);
        }
        _ => panic!("a repeated version must be rejected"),
    }
}

#[test]
fn bad_log_is_rejected_whole() {
    // nothing of a bad log is applied: the replica keeps its content
    let mut primary = Table::new(false);
    let id = primary.create_row(Something::Int(1));
    primary.insert_at(id, Something::Int(5), 0).unwrap();
    let good = primary.take_ops();
    let mut replica = Table::from_ops(good).unwrap();

    let bad = vec![StorageOp::Remove {
        key: Something::Int(1),
        version: 9,
    }];
    assert!(matches!(
        replica.apply_ops(bad),
        Err(StoreError::VersionMismatch { .. })
    ));
    // the row is still there
    assert_eq!(
        replica.get(&Something::Int(1)).map(|r| r.get(0)),
        Some(Something::Int(5))
    );
}

#[test]
fn replica_continues_from_its_version() {
    let mut primary = Table::new(false);
    let id = primary.create_row(Something::Int(1));
    primary.insert_at(id, Something::Int(5), 0).unwrap();
    let first = primary.take_ops();
    let mut replica = Table::from_ops(first).unwrap();

    // later ops continue the version run where the first batch ended
    primary.insert_at(id, Something::Int(6), 0).unwrap();
    let second = primary.take_ops();
    replica.apply_ops(second).unwrap();
    assert_eq!(
        replica.get(&Something::Int(1)).map(|r| r.get(0)),
        Some(Something::Int(6))
    );
    assert_eq!(primary.tree_hash(), replica.tree_hash());
}

#[test]
fn clear_ops_empties_the_log() {
    let mut store = setup();
    store.clear_ops();
    assert_eq!(store.take_ops().len(), 0);
}
