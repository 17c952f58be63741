use any_store::row::Row;
use any_store::table::{StoreError, Table};
use any_store::value::Something;

fn setup() -> Table {
    let mut store = Table::new(false);
    let v1 = Something::string("hello".into());
    let k1 = Something::Int(10);
    let r1 = store.create_row(k1.clone());
    store.insert_at(r1, v1.clone(), 5).unwrap();
    let v2 = Something::string("world".into());
    let k2 = Something::Int(20);
    let r2 = store.create_row(k2.clone());
    store.insert_at(r2, v2.clone(), 3).unwrap();
    let k3 = Something::Int(30);
    let r3 = store.create_row(k3.clone());
    store.insert_at(r3, v1.clone(), 5).unwrap();

    return store;
}

#[test]
fn lib_it_works() {
    let store = setup();
    let k1 = Something::Int(10);
    let value = store.get(&k1).map(|r| r.get(5));
    let v1 = Something::string("hello".into());
    assert_eq!(value, Some(v1));
    let value = store.get(&Something::Int(-1));
    assert!(value.is_none());
}

#[test]
fn tests_it_works() {
    let store = setup();
    let k1 = Something::Int(10);
    let value = store.get(&k1).map(|r| r.get(5));
    let v1 = Something::string("hello".into());
    assert_eq!(value, Some(v1));
    let value = store.get(&Something::Int(-1));
    assert!(value.is_none());
}

#[test]
fn lib_test_rows_with() {
    let store = setup();
    let rows = store.rows_with(|r: &Row| {
        return r.get(5) == Something::string("hello".into());
    });

    assert_eq!(rows.len(), 2);
}

#[test]
fn tests_test_rows_with() {
    let store = setup();
    let rows = store.rows_with(|r: &Row| {
        return r.get(5) == Something::string("hello".into());
    });

    assert_eq!(rows.len(), 2);
}

#[test]
fn test_ordering() {
    let store = setup();
    let range = store.get_range(&Something::Int(15), &Something::Int(35));
    assert!(range.len() > 1);
}

#[test]
fn range_is_sorted_and_exact() {
    let store = setup();
    let range = store.get_range(&Something::Int(10), &Something::Int(30));
    assert_eq!(range.len(), 2);
    assert_eq!(range[0].0, Something::Int(10));
    assert_eq!(range[1].0, Something::Int(20));
    assert_eq!(range[0].1.get(5), Something::string("hello".into()));
    assert_eq!(range[1].1.get(3), Something::string("world".into()));

    let empty = store.get_range(&Something::Int(35), &Something::Int(15));
    assert_eq!(empty.len(), 0);
}

#[test]
fn row_defaulting() {
    // a fresh row reads Null at every column
    let row = Row::new();
    assert_eq!(row.get(0), Something::Null);
    assert_eq!(row.get(7), Something::Null);

    // a sparse write at 5 zero-extends: column 4 still reads Null
    let mut row = Row::new();
    row.insert_at(Something::Int(9), 5);
    assert_eq!(row.get(4), Something::Null);
    assert_eq!(row.get(5), Something::Int(9));
    assert_eq!(row.get(6), Something::Null);
    assert_eq!(row.len(), 6);
}

#[test]
fn row_merged_concatenates() {
    let mut a = Row::new();
    a.insert_at(Something::Int(1), 0);
    let mut b = Row::new();
    b.insert_at(Something::Int(2), 0);
    let m = a.merged(&b);
    assert_eq!(m.get(0), Something::Int(1));
    assert_eq!(m.get(1), Something::Int(2));
    assert_eq!(m.len(), 2);
}

#[test]
fn arena_reuses_freed_id_with_fresh_row() {
    let mut store = Table::new(false);
    let id_a = store.create_row(Something::Int(1));
    store
        .insert_at(id_a, Something::string("old".into()), 2)
        .unwrap();
    store.delete_row(id_a).unwrap();

    // the freed id is reassigned (LIFO), but the new row carries nothing
    // of the deleted one
    let id_b = store.create_row(Something::Int(2));
    assert_eq!(id_a, id_b);
    let row = store.get_row(id_b).unwrap();
    assert_eq!(row.get(2), Something::Null);
    assert!(store.get(&Something::Int(1)).is_none());
}

#[test]
fn create_row_is_idempotent() {
    let mut store = Table::new(false);
    let a = store.create_row(Something::Int(5));
    let b = store.create_row(Something::Int(5));
    assert_eq!(a, b);
    assert_eq!(store.len(), 1);
}

#[test]
fn missing_rows_are_reported() {
    let mut store = Table::new(false);
    assert_eq!(
        store.insert_at(42, Something::Null, 0),
        Err(StoreError::NoSuchRow)
    );
    assert_eq!(store.delete_row(42), Err(StoreError::NoSuchRow));
    assert!(store.get_row(42).is_none());
    assert!(store.get_row_by_key(&Something::Int(1)).is_none());
}

#[test]
fn remove_by_key_is_logged_even_when_absent() {
    let mut store = Table::new(false);
    let id = store.create_row(Something::Int(1));
    store.insert_at(id, Something::Int(9), 0).unwrap();
    store.remove(&Something::Int(1));
    assert!(store.get(&Something::Int(1)).is_none());
    // removing an absent key changes nothing but is still logged, so the
    // log replays cleanly
    store.remove(&Something::Int(77));
    let ops = store.take_ops();
    assert_eq!(ops.len(), 4);
    let replica = Table::from_ops(ops).unwrap();
    assert!(store == replica);
    assert_eq!(replica.len(), 0);
}
