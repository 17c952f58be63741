use any_store::boundary::{
    commit_ops, delete_row_from_table, get_mock_logs, pop_from_something_stack, pop_mock_stack,
    read_from_value_buffer, safe_log_stack_value, set_worker_id, setup_mock_blob,
    setup_mock_string, something_push_blob, something_push_i32_to_stack, something_push_string,
    table_create, table_get_row, table_get_something, table_insert, table_insert_row, Globals,
};
use any_store::value::Something;

#[test]
fn it_works() {
    let mut g = Globals::new();
    let table = table_create(&mut g);
    const COL: usize = 0;
    something_push_i32_to_stack(&mut g, 17);
    something_push_i32_to_stack(&mut g, 28);
    table_insert(&mut g, table, COL);
    commit_ops(&mut g);
    something_push_i32_to_stack(&mut g, 17);
    table_get_something(&mut g, table, COL).expect("must get something");
    let value = pop_mock_stack(&mut g.marshal).unwrap();
    assert_eq!(value, Something::Int(28));
}

#[test]
fn whole_rows_cross_the_boundary() {
    let mut g = Globals::new();
    let table = table_create(&mut g);
    // key 3, then columns 0 and 1
    something_push_i32_to_stack(&mut g, 3);
    something_push_i32_to_stack(&mut g, 40);
    something_push_i32_to_stack(&mut g, 41);
    table_insert_row(&mut g, table);
    commit_ops(&mut g);

    something_push_i32_to_stack(&mut g, 3);
    table_get_something(&mut g, table, 1).expect("column 1 must be there");
    assert_eq!(pop_mock_stack(&mut g.marshal), Some(Something::Int(41)));

    something_push_i32_to_stack(&mut g, 3);
    table_get_row(&mut g, table).expect("the row must be there");
    // both columns were pushed out, last column on top
    assert_eq!(pop_mock_stack(&mut g.marshal), Some(Something::Int(41)));
    assert_eq!(pop_mock_stack(&mut g.marshal), Some(Something::Int(40)));
}

#[test]
fn deletes_are_queued_and_committed() {
    let mut g = Globals::new();
    let table = table_create(&mut g);
    something_push_i32_to_stack(&mut g, 1);
    something_push_i32_to_stack(&mut g, 9);
    table_insert(&mut g, table, 0);
    commit_ops(&mut g);

    something_push_i32_to_stack(&mut g, 1);
    delete_row_from_table(&mut g, table).unwrap();
    commit_ops(&mut g);

    something_push_i32_to_stack(&mut g, 1);
    assert!(table_get_something(&mut g, table, 0).is_none());
}

#[test]
fn strings_and_blobs_stage_through_buffers() {
    let mut g = Globals::new();
    let table = table_create(&mut g);
    setup_mock_string(&mut g.marshal, b"hello".to_vec());
    something_push_string(&mut g).unwrap();
    // the staged string is now the key; pair it with a value
    something_push_i32_to_stack(&mut g, 5);
    table_insert(&mut g, table, 0);
    commit_ops(&mut g);

    setup_mock_blob(&mut g.marshal, vec![1, 2]);
    something_push_blob(&mut g).unwrap();
    let blob = pop_from_something_stack(&mut g).unwrap();
    assert_eq!(blob, Something::Blob(vec![1, 2]));

    something_push_string_key(&mut g);
    table_get_something(&mut g, table, 0).expect("the text key must resolve");
    assert_eq!(pop_mock_stack(&mut g.marshal), Some(Something::Int(5)));
}

fn something_push_string_key(g: &mut Globals) {
    setup_mock_string(&mut g.marshal, b"hello".to_vec());
    something_push_string(g).unwrap();
}

#[test]
fn notifications_are_scoped_to_their_worker() {
    let mut g = Globals::new();
    let table = table_create(&mut g);
    something_push_i32_to_stack(&mut g, 1);
    something_push_i32_to_stack(&mut g, 9);
    table_insert(&mut g, table, 0);
    commit_ops(&mut g);

    // worker 1 and worker 2 each subscribe to the same row
    let row_id = g
        .db
        .get_table(table)
        .unwrap()
        .row_id_of_key(&Something::Int(1))
        .unwrap();
    let l1 = g.db.add_listener_to(table, row_id, 1).unwrap();
    let l2 = g.db.add_listener_to(table, row_id, 2).unwrap();
    assert_ne!(l1.num, l2.num);

    // two writes queue both listeners twice
    something_push_i32_to_stack(&mut g, 1);
    something_push_i32_to_stack(&mut g, 10);
    table_insert(&mut g, table, 0);
    something_push_i32_to_stack(&mut g, 1);
    something_push_i32_to_stack(&mut g, 11);
    table_insert(&mut g, table, 0);
    commit_ops(&mut g);

    // each worker drains only its own listener, deduplicated
    let drained1 = g.db.take_notifications(1);
    assert_eq!(drained1, vec![l1.num]);
    let drained2 = g.db.take_notifications(2);
    assert_eq!(drained2, vec![l2.num]);
    // nothing is left queued
    assert_eq!(g.db.take_notifications(1), Vec::<u64>::new());
}

#[test]
fn deleted_rows_fire_once_then_lose_their_listeners() {
    let mut g = Globals::new();
    let table = table_create(&mut g);
    something_push_i32_to_stack(&mut g, 1);
    something_push_i32_to_stack(&mut g, 9);
    table_insert(&mut g, table, 0);
    commit_ops(&mut g);

    let row_id = g
        .db
        .get_table(table)
        .unwrap()
        .row_id_of_key(&Something::Int(1))
        .unwrap();
    let l = g.db.add_listener_to(table, row_id, 1).unwrap();

    something_push_i32_to_stack(&mut g, 1);
    delete_row_from_table(&mut g, table).unwrap();
    commit_ops(&mut g);

    assert_eq!(g.db.take_notifications(1), vec![l.num]);
    // the listener went with the row
    assert!(!g.db.remove_listener(table, row_id, l));
}

#[test]
fn names_resolve_through_the_directory() {
    let mut g = Globals::new();
    let first = table_create(&mut g);
    let second = table_create(&mut g);
    assert_eq!(first, 1);
    assert_eq!(second, 2);
    assert_eq!(
        g.db.get_table_id(&Something::Int(first as i64)),
        Some(first as u64)
    );
    assert_eq!(
        g.db.get_table_id(&Something::Int(second as i64)),
        Some(second as u64)
    );
    assert_eq!(g.db.get_table_id(&Something::Int(99)), None);
}

#[test]
fn value_buffer_decodes_into_the_scratch_stack() {
    let mut g = Globals::new();
    // two items: the integer 7, then the string "hi"
    let wire = vec![
        2, 0, 0, 0, // count
        1, 7, 0, 0, 0, // int 7
        3, 2, 0, 0, 0, 104, 105, // string "hi"
    ];
    g.marshal.value_buffer = wire;
    read_from_value_buffer(&mut g).expect("the buffer is well-formed");
    assert_eq!(
        pop_from_something_stack(&mut g),
        Some(Something::string(b"hi".to_vec()))
    );
    assert_eq!(pop_from_something_stack(&mut g), Some(Something::Int(7)));
    assert_eq!(pop_from_something_stack(&mut g), None);
}

#[test]
fn malformed_value_buffers_are_refused() {
    let mut g = Globals::new();
    something_push_i32_to_stack(&mut g, 1);
    // an unknown tag
    g.marshal.value_buffer = vec![1, 0, 0, 0, 9];
    assert!(read_from_value_buffer(&mut g).is_none());
    // the scratch stack was left alone
    assert_eq!(pop_from_something_stack(&mut g), Some(Something::Int(1)));
}

#[test]
fn workers_have_separate_scratch_stacks() {
    let mut g = Globals::new();
    set_worker_id(&mut g.marshal, 1);
    something_push_i32_to_stack(&mut g, 11);
    set_worker_id(&mut g.marshal, 2);
    something_push_i32_to_stack(&mut g, 22);
    assert_eq!(pop_from_something_stack(&mut g), Some(Something::Int(22)));
    assert_eq!(pop_from_something_stack(&mut g), None);
    set_worker_id(&mut g.marshal, 1);
    assert_eq!(pop_from_something_stack(&mut g), Some(Something::Int(11)));
}

#[test]
fn the_log_keeps_stack_values() {
    let mut g = Globals::new();
    something_push_i32_to_stack(&mut g, 1);
    // the host-side log records the top of the host stack
    g.marshal.stack.push(Something::Int(3));
    safe_log_stack_value(&mut g.marshal);
    let logs = get_mock_logs(&g.marshal);
    assert_eq!(logs, vec![Something::Int(3)]);
}
