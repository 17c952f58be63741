//! The database: a registry of tables keyed by small integer id, with one
//! reserved table — id 0 — serving as the name→id directory, and a global
//! listener-id allocator.
//!
//! Every table in the registry is a primary; replicas are built separately
//! from a primary's operation log. The database fans listener bookkeeping
//! and notification draining through to the addressed tables, deduplicating
//! a worker's drain across tables.

use vstd::prelude::*;

use crate::content::content_get;
use crate::content::content_has;
use crate::content::content_write;
use crate::content::EntryView;
use crate::listener::owned_by;
use crate::listener::ListenerId;
use crate::row::row_lookup;
use crate::table::StoreError;
use crate::table::Table;
use crate::value::Something;
use crate::value::ValView;

verus! {

/// One queued mutation request, addressed to a table by id.
#[derive(Debug)]
pub enum Operation {
    InsertRow { table_id: usize, data: Vec<Something> },
    Insert { table_id: usize, key: Something, value: Something, index: usize },
    RowDelete { table_id: usize, key: Something },
}

/// What the directory maps a name to: the id stored as an integer in
/// column 0 of the name's row, when it is one.
pub open spec fn name_lookup(c: Seq<EntryView>, name: ValView) -> Option<u64> {
    match content_get(c, name) {
        Some(row) => match row_lookup(row, 0) {
            ValView::Int(v) => if v >= 0 {
                Some(v as u64)
            } else {
                None
            },
            _ => None,
        },
        None => None,
    }
}

/// The content of a table after a whole row is inserted: the key is the
/// first element of `data`, the remaining elements land in columns
/// 0, 1, 2, …; creating the row writes `Null` at column 0 first when the
/// key is new.
pub open spec fn inserted_row_content(
    c: Seq<EntryView>,
    data: Seq<ValView>,
    upto: int,
) -> Seq<EntryView>
    recommends
        1 <= upto <= data.len(),
    decreases upto,
{
    if upto <= 1 {
        if content_has(c, data[0]) {
            c
        } else {
            content_write(c, data[0], ValView::Null, 0)
        }
    } else {
        content_write(inserted_row_content(c, data, upto - 1), data[0], data[upto - 1], upto - 2)
    }
}

/// `n` copies of `s`, concatenated.
pub open spec fn repeated(s: Seq<ListenerId>, n: int) -> Seq<ListenerId>
    decreases n,
{
    if n <= 0 {
        Seq::<ListenerId>::empty()
    } else {
        repeated(s, n - 1) + s
    }
}

/// The sequence with each first occurrence kept and every repeat dropped.
pub open spec fn dedup_nums(s: Seq<u64>) -> Seq<u64>
    decreases s.len(),
{
    if s.len() == 0 {
        s
    } else {
        let d = dedup_nums(s.drop_last());
        if d.contains(s.last()) {
            d
        } else {
            d.push(s.last())
        }
    }
}

/// The listener numbers of a queue, in order.
pub open spec fn nums_of(s: Seq<ListenerId>) -> Seq<u64> {
    s.map_values(|l: ListenerId| l.num)
}

/// Everything worker `w` has pending across the first `upto` tables, in
/// table order.
pub open spec fn worker_drain(tables: Seq<Table>, w: i32, upto: int) -> Seq<ListenerId>
    decreases upto,
{
    if upto <= 0 {
        Seq::<ListenerId>::empty()
    } else {
        worker_drain(tables, w, upto - 1) + tables[upto - 1].pending_view().filter(owned_by(w))
    }
}

/// The relation between a database before and after one dispatched
/// request: what `operation` does, stated over the two states.
/// The relation between a database before and after one dispatched
/// request: what `operation` does to the addressed table, stated over the
/// two states and the result.
pub open spec fn op_effect(
    pre: Database,
    op: Operation,
    post: Database,
    r: Result<(), StoreError>,
) -> bool {
    match op {
        Operation::InsertRow { table_id, data } => {
            let tid = table_id as int;
            if tid >= pre.tables_view().len() {
                r == Err::<(), StoreError>(StoreError::NoSuchTable) && post.tables_view() == pre.tables_view()
            } else {
                let t0 = pre.tables_view()[tid];
                let dv = data@.map_values(|v: Something| v@);
                &&& r is Ok
                &&& forall|j: int|
                    0 <= j < pre.tables_view().len() && j != tid ==> post.tables_view()[j] == pre.tables_view()[j]
                &&& (data@.len() == 0 ==> post.tables_view()[tid] == t0)
                &&& (data@.len() > 0 ==> {
                    let t1 = post.tables_view()[tid];
                    &&& t1.content() == inserted_row_content(
                        t0.content(),
                        dv,
                        dv.len() as int,
                    )
                    &&& t1.pending_view() == t0.pending_view() + repeated(
                        crate::table::key_listeners(t0, dv[0]),
                        dv.len() - 1,
                    )
                    &&& t1.version() as int == t0.version() + (dv.len() - 1) + (
                    if content_has(t0.content(), dv[0]) {
                        0int
                    } else {
                        1int
                    })
                })
            }
        },
        Operation::Insert { table_id, key, value, index } => {
            let tid = table_id as int;
            if tid >= pre.tables_view().len() {
                r == Err::<(), StoreError>(StoreError::NoSuchTable) && post.tables_view() == pre.tables_view()
            } else {
                let t0 = pre.tables_view()[tid];
                let t1 = post.tables_view()[tid];
                let mid = if content_has(t0.content(), key@) {
                    t0.content()
                } else {
                    content_write(t0.content(), key@, ValView::Null, 0)
                };
                &&& r is Ok
                &&& forall|j: int|
                    0 <= j < pre.tables_view().len() && j != tid ==> post.tables_view()[j] == pre.tables_view()[j]
                &&& t1.content() == content_write(mid, key@, value@, index as int)
                &&& t1.pending_view() == t0.pending_view() + crate::table::key_listeners(
                    t0,
                    key@,
                )
                &&& t1.version() as int == t0.version() + (
                if content_has(t0.content(), key@) {
                    1int
                } else {
                    2int
                })
            }
        },
        Operation::RowDelete { table_id, key } => {
            let tid = table_id as int;
            if tid >= pre.tables_view().len() {
                r == Err::<(), StoreError>(StoreError::NoSuchTable) && post.tables_view() == pre.tables_view()
            } else {
                let t0 = pre.tables_view()[tid];
                let t1 = post.tables_view()[tid];
                &&& r is Ok
                &&& forall|j: int|
                    0 <= j < pre.tables_view().len() && j != tid ==> post.tables_view()[j] == pre.tables_view()[j]
                &&& t1.content() == crate::content::content_remove(t0.content(), key@)
                &&& t1.pending_view() == t0.pending_view() + crate::table::key_listeners(
                    t0,
                    key@,
                )
                &&& t1.version() as int == t0.version() + (
                if content_has(t0.content(), key@) {
                    1int
                } else {
                    0int
                })
            }
        },
    }
}

/// The registry of tables, the reserved name directory at id 0, and the
/// global listener-id allocator.
pub struct Database {
    tables: Vec<Table>,
    next_listener_id: u64,
}

impl Database {
    /// The registered tables; index is table id, id 0 is the directory.
    pub closed spec fn tables_view(&self) -> Seq<Table> {
        self.tables@
    }

    /// The next listener number to allocate; allocation is global and
    /// monotonically increasing.
    pub closed spec fn next_listener(&self) -> u64 {
        self.next_listener_id
    }

    /// Well-formedness: the directory exists and every table is a
    /// well-formed primary.
    pub closed spec fn wf(&self) -> bool {
        &&& self.tables@.len() >= 1
        &&& forall|i: int|
            0 <= i < self.tables@.len() ==> (#[trigger] self.tables@[i]).wf() && !self.tables@[i].replica()
    }

    /// Every registered table is a well-formed primary.
    pub proof fn lemma_tables_wf(&self)
        requires
            self.wf(),
        ensures
            self.tables_view().len() >= 1,
            forall|i: int|
                0 <= i < self.tables_view().len() ==> (#[trigger] self.tables_view()[i]).wf()
                    && !self.tables_view()[i].replica(),
    {
    }

    /// A fresh database: the empty name directory and no listeners.
    pub fn new() -> (db: Database)
        ensures
            db.wf(),
            db.tables_view().len() == 1,
            db.tables_view()[0].content() == Seq::<EntryView>::empty(),
            db.tables_view()[0].version() == 0,
            db.tables_view()[0].pending_view() == Seq::<ListenerId>::empty(),
            db.next_listener() == 0,
    {
        let mut tables: Vec<Table> = Vec::new();
        tables.push(Table::new(false));
        Database { tables, next_listener_id: 0 }
    }

    /// The number of registered tables, the directory included.
    pub fn table_count(&self) -> (n: usize)
        ensures
            n == self.tables_view().len(),
    {
        self.tables.len()
    }

    /// Borrows a table by id; unknown ids yield `None`.
    pub fn get_table(&self, table_id: usize) -> (r: Option<&Table>)
        ensures
            match r {
                Some(t) => (table_id as int) < self.tables_view().len() && *t
                    == self.tables_view()[table_id as int],
                None => table_id as int >= self.tables_view().len(),
            },
    {
        if table_id < self.tables.len() {
            Some(&self.tables[table_id])
        } else {
            None
        }
    }

    /// Registers a new, empty table under `name` and returns its id. The
    /// directory row for `name` is created if needed and its column 0 is
    /// set to the id, overwriting any earlier registration of the name.
    pub fn create_table(&mut self, name: Something) -> (id: usize)
        requires
            old(self).wf(),
            old(self).tables_view().len() < 0x7fff_ffff_ffff_ffff,
            old(self).tables_view()[0].version() < u64::MAX - 1,
        ensures
            final(self).wf(),
            id == old(self).tables_view().len(),
            final(self).tables_view().len() == old(self).tables_view().len() + 1,
            final(self).tables_view()[id as int].content() == Seq::<EntryView>::empty(),
            final(self).tables_view()[id as int].version() == 0,
            final(self).tables_view()[id as int].pending_view() == Seq::<ListenerId>::empty(),
            !final(self).tables_view()[id as int].replica(),
            final(self).tables_view()[0].content() == content_write(
                if content_has(old(self).tables_view()[0].content(), name@) {
                    old(self).tables_view()[0].content()
                } else {
                    content_write(old(self).tables_view()[0].content(), name@, ValView::Null, 0)
                },
                name@,
                ValView::Int(id as i64),
                0,
            ),
            name_lookup(final(self).tables_view()[0].content(), name@) == Some(id as u64),
            forall|j: int|
                1 <= j < old(self).tables_view().len() ==> final(self).tables_view()[j] == old(self).tables_view()[j],
            final(self).next_listener() == old(self).next_listener(),
    {
        let id = self.tables.len();
        self.tables.push(Table::new(false));
        let ghost c0 = self.tables@[0].content();
        proof {
            assert(self.tables@[0] == old(self).tables@[0]);
            let t0 = old(self).tables@[0];
            assert(t0.wf());
            t0.lemma_content_sorted();
            crate::content::lemma_content_write_sorted(c0, name@, ValView::Null, 0);
        }
        let names = &mut self.tables[0];
        let rid = names.create_row(name.clone());
        let ghost mid = if content_has(c0, name@) {
            c0
        } else {
            content_write(c0, name@, ValView::Null, 0)
        };
        proof {
            assert(names.content() == mid);
            if content_has(c0, name@) {
                crate::content::lemma_seek_pos(c0, name@);
            }
            crate::content::lemma_content_write_sorted(mid, name@, ValView::Int(id as i64), 0);
            assert(names.slots()[rid as int]->Some_0.key == name@);
        }
        let res = names.insert_at(rid, Something::Int(id as i64), 0);
        proof {
            assert(res is Ok);
            assert(names.content() == content_write(mid, name@, ValView::Int(id as i64), 0));
            let fin = content_write(mid, name@, ValView::Int(id as i64), 0);
            assert(content_get(fin, name@) == Some(
                crate::row::row_write(
                    match content_get(mid, name@) {
                        Some(r) => r,
                        None => Seq::<ValView>::empty(),
                    },
                    ValView::Int(id as i64),
                    0,
                ),
            ));
            assert(name_lookup(fin, name@) == Some(id as u64));
        }
        proof {
            assert forall|i: int|
                0 <= i < self.tables@.len() implies (#[trigger] self.tables@[i]).wf() && !self.tables@[i].replica() by {
                if 1 <= i < old(self).tables@.len() {
                    assert(self.tables@[i] == old(self).tables@[i]);
                }
            }
        }
        id
    }

    /// Resolves a table by name through the directory.
    pub fn get_table_id(&self, name: &Something) -> (r: Option<u64>)
        requires
            self.wf(),
        ensures
            r == name_lookup(self.tables_view()[0].content(), name@),
    {
        let names = &self.tables[0];
        match names.get(name) {
            Some(row) => {
                let v = row.get(0);
                match v {
                    Something::Int(x) => {
                        if x >= 0 {
                            Some(x as u64)
                        } else {
                            None
                        }
                    },
                    _ => None,
                }
            },
            None => None,
        }
    }

    /// Dispatches one queued request to the table it addresses. Unknown
    /// table ids surface `NoSuchTable`; a whole-row insert takes its key
    /// from the first element and writes the rest into columns 0, 1, 2, …;
    /// a row delete by key is a no-op when the key is absent. Listeners of
    /// a touched row are queued for notification once per logged write.
    #[verifier::rlimit(100)]
    pub fn operation(&mut self, op: Operation) -> (r: Result<(), StoreError>)
        requires
            old(self).wf(),
            match op {
                Operation::InsertRow { table_id, ref data } => (table_id as int) < old(self).tables_view().len() ==> old(self).tables_view()[table_id as int].version()
                    + data@.len() + 1 <= u64::MAX,
                Operation::Insert { table_id, .. } => (table_id as int) < old(self).tables_view().len() ==> old(self).tables_view()[table_id as int].version() + 2
                    <= u64::MAX,
                Operation::RowDelete { table_id, .. } => (table_id as int) < old(self).tables_view().len() ==> old(self).tables_view()[table_id as int].version() + 1
                    <= u64::MAX,
            },
        ensures
            final(self).wf(),
            final(self).tables_view().len() == old(self).tables_view().len(),
            final(self).next_listener() == old(self).next_listener(),
            op_effect(*old(self), op, *final(self), r),
    {
        match op {
            Operation::Insert { table_id, key, value, index } => {
                if table_id >= self.tables.len() {
                    return Err(StoreError::NoSuchTable);
                }
                let ghost t0 = self.tables@[table_id as int];
                let t = &mut self.tables[table_id];
                proof {
                    if content_has(t0.content(), key@) {
                        t0.lemma_content_sorted();
                        crate::content::lemma_seek_pos(t0.content(), key@);
                    }
                }
                let rid = t.create_row(key);
                proof {
                    if content_has(t0.content(), key@) {
                        crate::table::lemma_key_listeners(t0, rid as int);
                    } else {
                        crate::table::lemma_key_listeners_absent(t0, key@);
                        assert(t.slots()[rid as int]->Some_0.listeners == Seq::<
                            ListenerId,
                        >::empty());
                    }
                }
                let res = t.insert_at(rid, value, index);
                match res {
                    Ok(()) => {},
                    Err(_) => {
                        proof {
                            assert(false);
                        }
                        return Err(StoreError::NoSuchRow);
                    },
                }
                proof {
                    assert(t.pending_view() =~= t0.pending_view() + crate::table::key_listeners(
                        t0,
                        key@,
                    ));
                    assert forall|i: int|
                        0 <= i < self.tables@.len() implies (#[trigger] self.tables@[i]).wf()
                        && !self.tables@[i].replica() by {
                        if i != table_id as int {
                            assert(self.tables@[i] == old(self).tables@[i]);
                        }
                    }
                }
                Ok(())
            },
            Operation::RowDelete { table_id, key } => {
                if table_id >= self.tables.len() {
                    return Err(StoreError::NoSuchTable);
                }
                let ghost t0 = self.tables@[table_id as int];
                let t = &mut self.tables[table_id];
                match t.row_id_of_key(&key) {
                    Some(rid) => {
                        proof {
                            crate::table::lemma_key_listeners(t0, rid as int);
                        }
                        let res = t.delete_row(rid);
                        match res {
                            Ok(()) => {},
                            Err(_) => {
                                proof {
                                    assert(false);
                                }
                                return Err(StoreError::NoSuchRow);
                            },
                        }
                        proof {
                            assert(t.pending_view() =~= t0.pending_view()
                                + crate::table::key_listeners(t0, key@));
                        }
                    },
                    None => {
                        proof {
                            t0.lemma_content_sorted();
                            crate::table::lemma_key_listeners_absent(t0, key@);
                            assert(crate::content::content_remove(t0.content(), key@)
                                == t0.content());
                            assert(t.pending_view() =~= t0.pending_view()
                                + crate::table::key_listeners(t0, key@));
                        }
                    },
                }
                proof {
                    assert forall|i: int|
                        0 <= i < self.tables@.len() implies (#[trigger] self.tables@[i]).wf()
                        && !self.tables@[i].replica() by {
                        if i != table_id as int {
                            assert(self.tables@[i] == old(self).tables@[i]);
                        }
                    }
                }
                Ok(())
            },
            Operation::InsertRow { table_id, data } => {
                if table_id >= self.tables.len() {
                    return Err(StoreError::NoSuchTable);
                }
                if data.len() == 0 {
                    return Ok(());
                }
                let ghost t0 = self.tables@[table_id as int];
                let ghost dv = data@.map_values(|v: Something| v@);
                let t = &mut self.tables[table_id];
                let key = data[0].clone();
                proof {
                    assert(dv[0] == key@);
                    if content_has(t0.content(), key@) {
                        t0.lemma_content_sorted();
                        crate::content::lemma_seek_pos(t0.content(), key@);
                    }
                }
                let rid = t.create_row(key);
                let ghost ls = crate::table::key_listeners(t0, dv[0]);
                proof {
                    if content_has(t0.content(), dv[0]) {
                        crate::table::lemma_key_listeners(t0, rid as int);
                    } else {
                        crate::table::lemma_key_listeners_absent(t0, dv[0]);
                    }
                    assert(t.slots()[rid as int]->Some_0.listeners == ls);
                    assert(t.content() == inserted_row_content(t0.content(), dv, 1));
                    assert(t.pending_view() =~= t0.pending_view() + repeated(ls, 0));
                }
                let mut i: usize = 1;
                while i < data.len()
                    invariant
                        1 <= i <= data@.len(),
                        dv == data@.map_values(|v: Something| v@),
                        t.wf(),
                        !t.replica(),
                        t.content() == inserted_row_content(t0.content(), dv, i as int),
                        t.pending_view() == t0.pending_view() + repeated(ls, i - 1),
                        (rid as int) < t.slots().len(),
                        t.slots()[rid as int] is Some,
                        t.slots()[rid as int]->Some_0.key == dv[0],
                        t.slots()[rid as int]->Some_0.listeners == ls,
                        t.version() as int == t0.version() + (i - 1) + (
                        if content_has(t0.content(), dv[0]) {
                            0int
                        } else {
                            1int
                        }),
                        t0.version() + data@.len() + 1 <= u64::MAX,
                    decreases data@.len() - i,
                {
                    let v = data[i].clone();
                    proof {
                        assert(dv[i as int] == v@);
                    }
                    let res = t.insert_at(rid, v, i - 1);
                    match res {
                        Ok(()) => {},
                        Err(_) => {
                            proof {
                                assert(false);
                            }
                            return Err(StoreError::NoSuchRow);
                        },
                    }
                    proof {
                        assert(t.content() == inserted_row_content(
                            t0.content(),
                            dv,
                            i as int + 1,
                        ));
                        assert(t.pending_view() =~= t0.pending_view() + repeated(ls, i as int));
                    }
                    i = i + 1;
                }
                proof {
                    assert forall|i2: int|
                        0 <= i2 < self.tables@.len() implies (#[trigger] self.tables@[i2]).wf()
                        && !self.tables@[i2].replica() by {
                        if i2 != table_id as int {
                            assert(self.tables@[i2] == old(self).tables@[i2]);
                        }
                    }
                }
                Ok(())
            },
        }
    }

    /// Dispatches one request after checking that the addressed table's
    /// version counter has headroom for it; a request that would exhaust
    /// the counter is refused with `VersionExhausted` and changes nothing.
    pub fn operation_checked(&mut self, op: Operation) -> (r: Result<(), StoreError>)
        requires
            old(self).wf(),
        ensures
            final(self).wf(),
            final(self).tables_view().len() == old(self).tables_view().len(),
            final(self).next_listener() == old(self).next_listener(),
            checked_op_effect(*old(self), op, *final(self), r),
    {
        let tid = match &op {
            Operation::InsertRow { table_id, .. } => *table_id,
            Operation::Insert { table_id, .. } => *table_id,
            Operation::RowDelete { table_id, .. } => *table_id,
        };
        if tid < self.tables.len() {
            let v = self.tables[tid].current_version();
            let cost: u128 = match &op {
                Operation::InsertRow { data, .. } => (data.len() as u128) + 1,
                Operation::Insert { .. } => 2,
                Operation::RowDelete { .. } => 1,
            };
            if (v as u128) + cost > u64::MAX as u128 {
                return Err(StoreError::VersionExhausted);
            }
        }
        let r = self.operation(op);
        proof {
            assert(r != Err::<(), StoreError>(StoreError::VersionExhausted)) by {
                match r {
                    Ok(_) => {},
                    Err(e) => {
                        assert(e == StoreError::NoSuchTable);
                    },
                }
            }
        }
        r
    }

    /// Allocates a fresh listener identity for `worker` and attaches it to
    /// row `row_id` of table `table_id`. Yields `None` — and allocates
    /// nothing — when the table or row does not exist, or the allocator is
    /// exhausted.
    pub fn add_listener_to(&mut self, table_id: usize, row_id: usize, worker: i32) -> (r: Option<
        ListenerId,
    >)
        requires
            old(self).wf(),
        ensures
            final(self).wf(),
            final(self).tables_view().len() == old(self).tables_view().len(),
            r is Some <==> {
                &&& (table_id as int) < old(self).tables_view().len()
                &&& (row_id as int) < old(self).tables_view()[table_id as int].slots().len()
                &&& old(self).tables_view()[table_id as int].slots()[row_id as int] is Some
                &&& old(self).next_listener() < u64::MAX
            },
            match r {
                Some(l) => {
                    let t0 = old(self).tables_view()[table_id as int];
                    &&& l == (ListenerId { num: old(self).next_listener(), worker })
                    &&& final(self).next_listener() == old(self).next_listener() + 1
                    &&& forall|j: int|
                        0 <= j < old(self).tables_view().len() && j != table_id as int ==> final(self).tables_view()[j] == old(self).tables_view()[j]
                    &&& final(self).tables_view()[table_id as int].slots() == t0.slots().update(
                        row_id as int,
                        Some(
                            crate::arena::StoredRowView {
                                row: t0.slots()[row_id as int]->Some_0.row,
                                key: t0.slots()[row_id as int]->Some_0.key,
                                listeners: t0.slots()[row_id as int]->Some_0.listeners.push(l),
                            },
                        ),
                    )
                    &&& final(self).tables_view()[table_id as int].content() == t0.content()
                    &&& final(self).tables_view()[table_id as int].pending_view()
                        == t0.pending_view()
                },
                None => final(self).tables_view() == old(self).tables_view() && final(self).next_listener() == old(self).next_listener(),
            },
    {
        if table_id >= self.tables.len() || self.next_listener_id == u64::MAX {
            return None;
        }
        let t = &mut self.tables[table_id];
        let valid = match t.get_row(row_id) {
            Some(_) => true,
            None => false,
        };
        if !valid {
            return None;
        }
        let l = ListenerId { num: self.next_listener_id, worker };
        self.next_listener_id = self.next_listener_id + 1;
        let t2 = &mut self.tables[table_id];
        let res = t2.add_listener(row_id, l);
        proof {
            assert(res is Ok);
            assert forall|i: int|
                0 <= i < self.tables@.len() implies (#[trigger] self.tables@[i]).wf()
                && !self.tables@[i].replica() by {
                if i != table_id as int {
                    assert(self.tables@[i] == old(self).tables@[i]);
                }
            }
        }
        Some(l)
    }

    /// Detaches a listener from row `row_id` of table `table_id`; reports
    /// whether it was attached there.
    pub fn remove_listener(&mut self, table_id: usize, row_id: usize, l: ListenerId) -> (found:
        bool)
        requires
            old(self).wf(),
        ensures
            final(self).wf(),
            final(self).tables_view().len() == old(self).tables_view().len(),
            final(self).next_listener() == old(self).next_listener(),
            found == {
                &&& (table_id as int) < old(self).tables_view().len()
                &&& (row_id as int) < old(self).tables_view()[table_id as int].slots().len()
                &&& old(self).tables_view()[table_id as int].slots()[row_id as int] is Some
                &&& old(self).tables_view()[table_id as int].slots()[row_id as int]->Some_0.listeners.contains(
                    l,
                )
            },
            (table_id as int) < old(self).tables_view().len() && (row_id as int) < old(self).tables_view()[table_id as int].slots().len() && old(self).tables_view()[table_id as int].slots()[row_id as int] is Some ==> {
                let t0 = old(self).tables_view()[table_id as int];
                &&& final(self).tables_view()[table_id as int].slots() == t0.slots().update(
                    row_id as int,
                    Some(
                        crate::arena::StoredRowView {
                            row: t0.slots()[row_id as int]->Some_0.row,
                            key: t0.slots()[row_id as int]->Some_0.key,
                            listeners: t0.slots()[row_id as int]->Some_0.listeners.filter(
                                crate::listener::not_this(l),
                            ),
                        },
                    ),
                )
                &&& final(self).tables_view()[table_id as int].content() == t0.content()
                &&& final(self).tables_view()[table_id as int].pending_view() == t0.pending_view()
            },
            forall|j: int|
                0 <= j < old(self).tables_view().len() && j != table_id as int ==> final(self).tables_view()[j] == old(self).tables_view()[j],
    {
        if table_id >= self.tables.len() {
            return false;
        }
        let t = &mut self.tables[table_id];
        let res = t.remove_listener(row_id, l);
        proof {
            assert forall|i: int|
                0 <= i < self.tables@.len() implies (#[trigger] self.tables@[i]).wf()
                && !self.tables@[i].replica() by {
                if i != table_id as int {
                    assert(self.tables@[i] == old(self).tables@[i]);
                }
            }
        }
        match res {
            Ok(found) => found,
            Err(_) => false,
        }
    }
}

/// Appending a queue to the drain and flattening the numbers.
proof fn lemma_nums_of_add(a: Seq<ListenerId>, b: Seq<ListenerId>)
    ensures
        nums_of(a + b) == nums_of(a) + nums_of(b),
{
    assert(nums_of(a + b) =~= nums_of(a) + nums_of(b));
}

/// Folding one more entry into the deduplicated numbers.
proof fn lemma_dedup_push(s: Seq<u64>, x: u64)
    ensures
        dedup_nums(s.push(x)) == if dedup_nums(s).contains(x) {
            dedup_nums(s)
        } else {
            dedup_nums(s).push(x)
        },
{
    assert(s.push(x).drop_last() =~= s);
    assert(s.push(x).last() == x);
}

/// The table a request addresses.
pub open spec fn op_table_id(op: Operation) -> int {
    match op {
        Operation::InsertRow { table_id, .. } => table_id as int,
        Operation::Insert { table_id, .. } => table_id as int,
        Operation::RowDelete { table_id, .. } => table_id as int,
    }
}

/// The versions one request can consume at most: a whole-row insert logs
/// one creation plus one write per column, a keyed insert at most a
/// creation plus a write, a delete at most one removal.
pub open spec fn op_cost(op: Operation) -> int {
    match op {
        Operation::InsertRow { data, .. } => data@.len() + 1 as int,
        Operation::Insert { .. } => 2,
        Operation::RowDelete { .. } => 1,
    }
}

/// Whether the addressed table's version counter lacks headroom for the
/// request's worst case; only such a request may be refused as exhausted.
pub open spec fn op_exhausts(pre: Database, op: Operation) -> bool {
    op_table_id(op) < pre.tables_view().len() && pre.tables_view()[op_table_id(op)].version()
        + op_cost(op) > u64::MAX
}

/// What one checked dispatch does: the request's effect, except that a
/// request whose worst case would overrun the addressed table's version
/// counter — and exactly such a request — is refused as `VersionExhausted`
/// with nothing changed.
pub open spec fn checked_op_effect(
    pre: Database,
    op: Operation,
    post: Database,
    r: Result<(), StoreError>,
) -> bool {
    &&& (r == Err::<(), StoreError>(StoreError::VersionExhausted) <==> op_exhausts(pre, op))
    &&& if r == Err::<(), StoreError>(StoreError::VersionExhausted) {
        post.tables_view() == pre.tables_view() && post.next_listener() == pre.next_listener()
    } else {
        op_effect(pre, op, post, r)
    }
}

/// A sequence of checked dispatches relates the databases it runs between.
pub open spec fn ops_outcome(pre: Database, ops: Seq<Operation>, post: Database) -> bool
    decreases ops.len(),
{
    if ops.len() == 0 {
        post.tables_view() == pre.tables_view() && post.next_listener() == pre.next_listener()
    } else {
        exists|mid: Database, r: Result<(), StoreError>|
            {
                &&& #[trigger] checked_op_effect(pre, ops[0], mid, r)
                &&& mid.wf()
                &&& mid.tables_view().len() == pre.tables_view().len()
                &&& ops_outcome(mid, ops.drop_first(), post)
            }
    }
}

/// Extending a dispatch chain by one more checked request.
pub proof fn lemma_ops_outcome_snoc(
    pre: Database,
    ops: Seq<Operation>,
    mid: Database,
    op: Operation,
    post: Database,
    r: Result<(), StoreError>,
)
    requires
        ops_outcome(pre, ops, mid),
        checked_op_effect(mid, op, post, r),
        mid.wf(),
        post.wf(),
        mid.tables_view().len() == pre.tables_view().len(),
        post.tables_view().len() == mid.tables_view().len(),
    ensures
        ops_outcome(pre, ops.push(op), post),
    decreases ops.len(),
{
    if ops.len() == 0 {
        assert(ops.push(op)[0] == op);
        assert(ops.push(op).drop_first() =~= Seq::<Operation>::empty());
        assert(checked_op_effect(pre, op, post, r) == checked_op_effect(mid, op, post, r)) by {
            assert(pre.tables_view() == mid.tables_view());
            assert(op_exhausts(pre, op) == op_exhausts(mid, op));
        }
        assert(checked_op_effect(pre, ops.push(op)[0], post, r));
        assert(ops_outcome(post, ops.push(op).drop_first(), post));
    } else {
        let (m1, r1) = choose|m1: Database, r1: Result<(), StoreError>|
            {
                &&& #[trigger] checked_op_effect(pre, ops[0], m1, r1)
                &&& m1.wf()
                &&& m1.tables_view().len() == pre.tables_view().len()
                &&& ops_outcome(m1, ops.drop_first(), mid)
            };
        lemma_ops_outcome_snoc(m1, ops.drop_first(), mid, op, post, r);
        assert(ops.push(op)[0] == ops[0]);
        assert(ops.push(op).drop_first() =~= ops.drop_first().push(op));
        assert(checked_op_effect(pre, ops.push(op)[0], m1, r1));
    }
}

/// Whether `x` occurs in the vector.
fn contains_u64(v: &Vec<u64>, x: u64) -> (r: bool)
    ensures
        r == v@.contains(x),
{
    let mut i: usize = 0;
    while i < v.len()
        invariant
            0 <= i <= v@.len(),
            forall|j: int| 0 <= j < i ==> v@[j] != x,
        decreases v@.len() - i,
    {
        if v[i] == x {
            return true;
        }
        i = i + 1;
    }
    false
}


impl Database {
    /// Drains every notification pending for `worker` across all tables,
    /// in table order, and returns the listener numbers with repeats
    /// dropped: a worker never receives the same listener twice in one
    /// drain, even if several tables queued it. Other workers' entries
    /// stay queued.
    pub fn take_notifications(&mut self, worker: i32) -> (r: Vec<u64>)
        requires
            old(self).wf(),
        ensures
            final(self).wf(),
            final(self).tables_view().len() == old(self).tables_view().len(),
            final(self).next_listener() == old(self).next_listener(),
            r@ == dedup_nums(
                nums_of(
                    worker_drain(old(self).tables_view(), worker, old(self).tables_view().len() as int),
                ),
            ),
            forall|j: int|
                0 <= j < old(self).tables_view().len() ==> {
                    let t0 = #[trigger] old(self).tables_view()[j];
                    let t1 = final(self).tables_view()[j];
                    &&& t1.pending_view() == t0.pending_view().filter(
                        crate::listener::not_owned_by(worker),
                    )
                    &&& t1.content() == t0.content()
                    &&& t1.slots() == t0.slots()
                    &&& t1.ops_view() == t0.ops_view()
                    &&& t1.version() == t0.version()
                },
    {
        let ghost tbs0 = self.tables@;
        let mut out: Vec<u64> = Vec::new();
        let mut ti: usize = 0;
        let n = self.tables.len();
        while ti < n
            invariant
                0 <= ti <= tbs0.len(),
                n == tbs0.len(),
                self.tables@.len() == tbs0.len(),
                tbs0 == old(self).tables@,
                self.next_listener_id == old(self).next_listener_id,
                out@ == dedup_nums(nums_of(worker_drain(tbs0, worker, ti as int))),
                forall|j: int| ti <= j < tbs0.len() ==> self.tables@[j] == tbs0[j],
                forall|j: int|
                    0 <= j < ti ==> {
                        let t0 = tbs0[j];
                        let t1 = #[trigger] self.tables@[j];
                        &&& t1.pending_view() == t0.pending_view().filter(
                            crate::listener::not_owned_by(worker),
                        )
                        &&& t1.content() == t0.content()
                        &&& t1.slots() == t0.slots()
                        &&& t1.ops_view() == t0.ops_view()
                        &&& t1.version() == t0.version()
                        &&& t1.wf()
                        &&& !t1.replica()
                    },
                forall|j: int|
                    0 <= j < tbs0.len() ==> (#[trigger] tbs0[j]).wf() && !tbs0[j].replica(),
            decreases tbs0.len() - ti,
        {
            proof {
                assert(self.tables@[ti as int] == tbs0[ti as int]);
                assert(tbs0[ti as int].wf());
            }
            let t = &mut self.tables[ti];
            let ls = t.take_notifications(worker);
            let ghost drained_before = worker_drain(tbs0, worker, ti as int);
            proof {
                assert(worker_drain(tbs0, worker, ti as int + 1) == drained_before
                    + tbs0[ti as int].pending_view().filter(crate::listener::owned_by(worker)));
            }
            let mut k: usize = 0;
            let ghost outer = self.tables@;
            while k < ls.len()
                invariant
                    0 <= k <= ls@.len(),
                    out@ == dedup_nums(
                        nums_of(drained_before + ls@.subrange(0, k as int)),
                    ),
                    self.tables@ == outer,
                    self.next_listener_id == old(self).next_listener_id,
                decreases ls@.len() - k,
            {
                let l = ls[k];
                proof {
                    let a = drained_before + ls@.subrange(0, k as int);
                    let b = drained_before + ls@.subrange(0, k as int + 1);
                    assert(b =~= a.push(l));
                    assert(nums_of(b) =~= nums_of(a).push(l.num));
                    lemma_dedup_push(nums_of(a), l.num);
                }
                if !contains_u64(&out, l.num) {
                    out.push(l.num);
                }
                k = k + 1;
            }
            proof {
                assert(drained_before + ls@.subrange(0, ls@.len() as int) =~= drained_before
                    + ls@);
                assert(worker_drain(tbs0, worker, ti as int + 1) == drained_before + ls@);
            }
            ti = ti + 1;
        }
        out
    }
}

} // verus!
