//! Tables: a key→row index over the row arena, per-row listeners, a
//! pending-notification queue partitioned by worker, and a versioned
//! operation log.
//!
//! A table is either a primary or a replica. A primary stamps every
//! mutation with the next version and appends it to its log; replaying that
//! log against a fresh replica rebuilds exactly the same key→row content,
//! which the content hash certifies. A replica accepts a log only if each
//! operation's version advances its counter by exactly one; any gap or
//! repeat is rejected as a version mismatch, and nothing is applied.

use vstd::prelude::*;

use crate::arena::arena_after_insert;
use crate::arena::arena_after_remove;
use crate::arena::arena_insert_id;
use crate::arena::arena_wf;
use crate::arena::RowsCollection;
use crate::arena::StoredRow;
use crate::arena::StoredRowView;
use crate::content::apply_op;
use crate::content::content_get;
use crate::content::content_has;
use crate::content::content_hash;
use crate::content::content_remove;
use crate::content::content_sorted;
use crate::content::content_write;
use crate::content::op_version;
use crate::content::replay;
use crate::content::seek_pos;
use crate::content::versions_ok;
use crate::content::EntryView;
use crate::content::OpView;
use crate::listener::ListenerId;
use crate::row::row_write;
use crate::row::Row;
use crate::value::val_lt;
use crate::value::Something;
use crate::value::ValView;

verus! {

/// One logged mutation: enough to replay the change on a replica.
#[derive(Debug)]
pub enum StorageOp {
    Insert { key: Something, value: Something, index: usize, version: u64 },
    Remove { key: Something, version: u64 },
}

impl View for StorageOp {
    type V = OpView;

    open spec fn view(&self) -> OpView {
        match self {
            StorageOp::Insert { key, value, index, version } => OpView::Insert {
                key: key@,
                value: value@,
                col: *index as nat,
                version: *version,
            },
            StorageOp::Remove { key, version } => OpView::Remove { key: key@, version: *version },
        }
    }
}

impl Clone for StorageOp {
    /// A clone carries exactly the same abstract operation.
    fn clone(&self) -> (r: Self)
        ensures
            r@ == self@,
    {
        match self {
            StorageOp::Insert { key, value, index, version } => StorageOp::Insert {
                key: key.clone(),
                value: value.clone(),
                index: *index,
                version: *version,
            },
            StorageOp::Remove { key, version } => StorageOp::Remove {
                key: key.clone(),
                version: *version,
            },
        }
    }
}

/// The errors a table or database operation can surface. Missing tables,
/// rows, keys or listeners are recoverable; a version mismatch means the
/// replication stream is corrupt or out of order and the replica should be
/// discarded and resynced.
#[derive(Debug, Clone, Copy, PartialEq, Eq, Structural)]
pub enum StoreError {
    VersionMismatch { expected: u64, got: u64 },
    NoSuchTable,
    NoSuchRow,
    VersionExhausted,
}

/// A table: the key index over the arena, the listener queue, and the
/// versioned operation log.
pub struct Table {
    index: Vec<(Something, usize)>,
    rows: RowsCollection,
    pending: Vec<ListenerId>,
    version_counter: u64,
    ops: Vec<StorageOp>,
    is_replica: bool,
    base: Ghost<Seq<EntryView>>,
    base_version: Ghost<u64>,
}

impl Table {
    /// The row carried by slot `id`, empty when the slot is free.
    pub closed spec fn slot_row(slots: Seq<Option<StoredRowView>>, id: int) -> Seq<ValView> {
        if 0 <= id < slots.len() {
            match slots[id] {
                Some(sr) => sr.row,
                None => Seq::<ValView>::empty(),
            }
        } else {
            Seq::<ValView>::empty()
        }
    }

    /// The abstract key→row content, sorted by key.
    pub closed spec fn content(&self) -> Seq<EntryView> {
        Seq::new(
            self.index@.len(),
            |i: int|
                EntryView {
                    key: self.index@[i].0@,
                    row: Table::slot_row(self.rows@.slots, self.index@[i].1 as int),
                },
        )
    }

    /// The arena's slot array: row ids point into it.
    pub closed spec fn slots(&self) -> Seq<Option<StoredRowView>> {
        self.rows@.slots
    }


    /// The arena's free list, most recently freed slot last.
    pub closed spec fn gaps_view(&self) -> Seq<int> {
        self.rows@.gaps
    }

    /// The queued, not yet drained notifications.
    pub closed spec fn pending_view(&self) -> Seq<ListenerId> {
        self.pending@
    }

    /// The logged operations, oldest first.
    pub closed spec fn ops_view(&self) -> Seq<OpView> {
        self.ops@.map_values(|o: StorageOp| o@)
    }

    /// The version counter: on a primary, the number of operations ever
    /// applied; on a replica, the version of the last accepted operation.
    pub closed spec fn version(&self) -> u64 {
        self.version_counter
    }

    /// Whether this table is a replica.
    pub closed spec fn replica(&self) -> bool {
        self.is_replica
    }

    /// The content at the moment the log was last drained; the log replays
    /// from here.
    pub closed spec fn base_view(&self) -> Seq<EntryView> {
        self.base@
    }

    /// The version at the moment the log was last drained.
    pub closed spec fn base_ver(&self) -> u64 {
        self.base_version@
    }

    /// A primary whose log still reaches back to its creation: replaying
    /// the log against an empty table rebuilds the whole content.
    pub closed spec fn pristine(&self) -> bool {
        &&& !self.is_replica
        &&& self.base@ == Seq::<EntryView>::empty()
        &&& self.base_version@ == 0
    }

    /// Well-formedness: the arena and free list are sound, the index is
    /// sorted strictly by key and in bijection with the occupied slots, and
    /// the operation log replays the content from the last drained state
    /// with consecutive versions.
    pub closed spec fn wf(&self) -> bool {
        &&& arena_wf(self.rows@)
        &&& forall|i: int|
            0 <= i < self.index@.len() ==> {
                let e = #[trigger] self.index@[i];
                &&& (e.1 as int) < self.rows@.slots.len()
                &&& self.rows@.slots[e.1 as int] is Some
                &&& self.rows@.slots[e.1 as int]->Some_0.key == e.0@
            }
        &&& forall|i: int, j: int|
            0 <= i < j < self.index@.len() ==> val_lt(
                (#[trigger] self.index@[i]).0@,
                (#[trigger] self.index@[j]).0@,
            )
        &&& forall|i: int, j: int|
            0 <= i < j < self.index@.len() ==> (#[trigger] self.index@[i]).1 != (
            #[trigger] self.index@[j]).1
        &&& forall|s: int|
            0 <= s < self.rows@.slots.len() && self.rows@.slots[s] is Some ==> exists|i: int|
                0 <= i < self.index@.len() && (#[trigger] self.index@[i]).1 == s
        &&& !self.is_replica ==> {
            &&& versions_ok(self.ops_view(), self.base_version@)
            &&& self.version_counter as int == self.base_version@ + self.ops@.len()
            &&& content_sorted(self.base@)
            &&& self.content() == replay(self.ops_view(), self.base@)
        }
        &&& self.is_replica ==> self.ops@.len() == 0
    }

    /// The content is sorted strictly by key.
    pub proof fn lemma_content_sorted(&self)
        requires
            self.wf(),
        ensures
            content_sorted(self.content()),
    {
    }

    /// A fresh, empty table in the chosen role.
    pub fn new(is_replica: bool) -> (t: Table)
        ensures
            t.wf(),
            t.content() == Seq::<EntryView>::empty(),
            t.slots() == Seq::<Option<StoredRowView>>::empty(),
            t.pending_view() == Seq::<ListenerId>::empty(),
            t.ops_view() == Seq::<OpView>::empty(),
            t.version() == 0,
            t.replica() == is_replica,
            is_replica ==> !t.pristine(),
            !is_replica ==> t.pristine(),
    {
        let t = Table {
            index: Vec::new(),
            rows: RowsCollection::new(),
            pending: Vec::new(),
            version_counter: 0,
            ops: Vec::new(),
            is_replica,
            base: Ghost(Seq::<EntryView>::empty()),
            base_version: Ghost(0u64),
        };
        proof {
            assert(t.content() =~= Seq::<EntryView>::empty());
            assert(t.ops_view() =~= Seq::<OpView>::empty());
        }
        t
    }

    /// The current value of the version counter.
    pub fn current_version(&self) -> (v: u64)
        ensures
            v == self.version(),
    {
        self.version_counter
    }

    /// The number of rows the table holds.
    pub fn len(&self) -> (n: usize)
        requires
            self.wf(),
        ensures
            n == self.content().len(),
    {
        self.index.len()
    }

    /// Finds the position of `key` in the index: the first entry whose key
    /// does not order before it.
    fn seek(&self, key: &Something) -> (p: usize)
        requires
            self.wf(),
        ensures
            p == seek_pos(self.content(), key@),
            p <= self.content().len(),
    {
        let c = Ghost(self.content());
        let mut p: usize = 0;
        while p < self.index.len() && self.index[p].0.lt_canonical(key)
            invariant
                self.wf(),
                c@ == self.content(),
                0 <= p <= self.index@.len(),
                forall|i: int| 0 <= i < p ==> val_lt((#[trigger] c@[i]).key, key@),
            decreases self.index@.len() - p,
        {
            p = p + 1;
        }
        proof {
            crate::content::lemma_seek_pos_unique(c@, key@, p as int);
        }
        p
    }

    /// The id of the row stored under `key`, if any.
    pub fn row_id_of_key(&self, key: &Something) -> (r: Option<usize>)
        requires
            self.wf(),
        ensures
            match r {
                Some(id) => {
                    &&& content_has(self.content(), key@)
                    &&& (id as int) < self.slots().len()
                    &&& self.slots()[id as int] is Some
                    &&& self.slots()[id as int]->Some_0.key == key@
                    &&& content_get(self.content(), key@) == Some(
                        self.slots()[id as int]->Some_0.row,
                    )
                },
                None => !content_has(self.content(), key@),
            },
    {
        let p = self.seek(key);
        if p < self.index.len() && self.index[p].0.eq(key) {
            Some(self.index[p].1)
        } else {
            proof {
                if content_has(self.content(), key@) {
                    assert(self.content()[p as int].key == key@);
                    assert(self.index@[p as int].0@ == key@);
                }
            }
            None
        }
    }

    /// Looks a row up by its id; freed or out-of-range ids yield `None`.
    pub fn get_row(&self, row_id: usize) -> (r: Option<&Row>)
        requires
            self.wf(),
        ensures
            match r {
                Some(row) => {
                    &&& (row_id as int) < self.slots().len()
                    &&& self.slots()[row_id as int] is Some
                    &&& row@ == self.slots()[row_id as int]->Some_0.row
                },
                None => row_id as int >= self.slots().len() || self.slots()[row_id as int]
                    is None,
            },
    {
        match self.rows.get(row_id) {
            Some(sr) => Some(&sr.row),
            None => None,
        }
    }

    /// Looks a row up by key: the key→id indirection, then the arena.
    pub fn get(&self, key: &Something) -> (r: Option<&Row>)
        requires
            self.wf(),
        ensures
            match r {
                Some(row) => content_get(self.content(), key@) == Some(row@),
                None => !content_has(self.content(), key@),
            },
    {
        match self.row_id_of_key(key) {
            Some(id) => self.get_row(id),
            None => None,
        }
    }

    /// Looks a row up by key; the same indirection under its other name.
    pub fn get_row_by_key(&self, key: &Something) -> (r: Option<&Row>)
        requires
            self.wf(),
        ensures
            match r {
                Some(row) => content_get(self.content(), key@) == Some(row@),
                None => !content_has(self.content(), key@),
            },
    {
        self.get(key)
    }

    /// Creates the row stored under `key`, or finds it: if the key is
    /// already indexed the existing id is returned and nothing changes.
    /// Creation itself is a logged write of `Null` at column 0, so that a
    /// replica replaying the log creates the same row.
    #[verifier::rlimit(60)]
    pub fn create_row(&mut self, key: Something) -> (id: usize)
        requires
            old(self).wf(),
            !old(self).replica() ==> old(self).version() < u64::MAX,
        ensures
            final(self).wf(),
            final(self).replica() == old(self).replica(),
            final(self).pending_view() == old(self).pending_view(),
            final(self).base_view() == old(self).base_view(),
            final(self).base_ver() == old(self).base_ver(),
            (id as int) < final(self).slots().len(),
            final(self).slots()[id as int] is Some,
            final(self).slots()[id as int]->Some_0.key == key@,
            content_has(old(self).content(), key@) ==> {
                &&& final(self).content() == old(self).content()
                &&& final(self).slots() == old(self).slots()
                &&& final(self).ops_view() == old(self).ops_view()
                &&& final(self).version() == old(self).version()
            },
            !content_has(old(self).content(), key@) ==> {
                &&& final(self).content() == content_write(
                    old(self).content(),
                    key@,
                    ValView::Null,
                    0,
                )
                &&& final(self).slots()[id as int]->Some_0.row == seq![ValView::Null]
                &&& final(self).slots()[id as int]->Some_0.listeners == Seq::<
                    ListenerId,
                >::empty()
                &&& (id as int) == arena_insert_id(
                    crate::arena::ArenaView {
                        slots: old(self).slots(),
                        gaps: old(self).gaps_view(),
                    },
                )
                &&& forall|s: int|
                    0 <= s < old(self).slots().len() && s != id ==> final(self).slots()[s] == old(
                        self,
                    ).slots()[s]
                &&& old(self).slots().len() <= final(self).slots().len() <= old(
                    self,
                ).slots().len() + 1
                &&& (final(self).slots().len() == old(self).slots().len() + 1 ==> id as int
                    == old(self).slots().len())
                &&& (final(self).slots().len() == old(self).slots().len() ==> (id as int) < old(
                    self,
                ).slots().len())
                &&& !old(self).replica() ==> {
                    &&& final(self).ops_view() == old(self).ops_view().push(
                        OpView::Insert {
                            key: key@,
                            value: ValView::Null,
                            col: 0,
                            version: (old(self).version() + 1) as u64,
                        },
                    )
                    &&& final(self).version() == old(self).version() + 1
                }
                &&& old(self).replica() ==> {
                    &&& final(self).ops_view() == old(self).ops_view()
                    &&& final(self).version() == old(self).version()
                }
            },
    {
        let ghost c0 = self.content();
        let p = self.seek(&key);
        if p < self.index.len() && self.index[p].0.eq(&key) {
            proof {
                assert(content_has(c0, key@));
            }
            return self.index[p].1;
        }
        proof {
            if content_has(c0, key@) {
                assert(c0[seek_pos(c0, key@)].key == key@);
                assert(self.index@[p as int].0@ == key@);
            }
            crate::content::lemma_content_write_sorted(c0, key@, ValView::Null, 0);
            crate::content::lemma_seek_pos(c0, key@);
        }
        let op_key = key.clone();
        if !self.is_replica {
            self.version_counter = self.version_counter + 1;
            self.ops.push(
                StorageOp::Insert {
                    key: op_key,
                    value: Something::Null,
                    index: 0,
                    version: self.version_counter,
                },
            );
            proof {
                assert(self.ops_view() =~= old(self).ops_view().push(
                    OpView::Insert {
                        key: key@,
                        value: ValView::Null,
                        col: 0,
                        version: self.version_counter,
                    },
                ));
            }
        }
        let mut row = Row::new();
        row.insert_at(Something::Null, 0);
        proof {
            assert(row@ =~= seq![ValView::Null]);
            assert(row_write(Seq::<ValView>::empty(), ValView::Null, 0) =~= seq![
                ValView::Null,
            ]);
        }
        let row_key = key.clone();
        let sr = StoredRow { row, key: row_key, listeners: Vec::new() };
        let ghost arena0 = self.rows@;
        let id = self.rows.insert(sr);
        proof {
            crate::arena::lemma_arena_insert_wf(arena0, sr@);
            assert(self.rows@.slots[id as int] == Some(sr@));
            // the filled slot was free, so no index entry points at it
            assert forall|i: int| 0 <= i < self.index@.len() implies (
            #[trigger] self.index@[i]).1 != id by {
                if arena0.gaps.len() > 0 {
                    assert(arena0.slots[arena0.gaps.last()] is None);
                }
            }
        }
        self.index.insert(p, (key, id));
        proof {
            let cw = content_write(c0, key@, ValView::Null, 0);
            let e = EntryView { key: key@, row: seq![ValView::Null] };
            assert(self.index@ == old(self).index@.insert(p as int, (key, id)));
            assert(self.content().len() == cw.len());
            assert forall|i: int| 0 <= i < self.content().len() implies self.content()[i]
                == cw[i] by {
                if i < p {
                    assert(self.index@[i] == old(self).index@[i]);
                    assert(self.content()[i] == c0[i]);
                } else if i == p {
                    assert(self.index@[i] == (key, id));
                    assert(self.slots()[id as int] == Some(sr@));
                } else {
                    assert(self.index@[i] == old(self).index@[i - 1]);
                    assert(self.content()[i] == c0[i - 1]);
                }
            }
            assert(self.content() =~= cw);
            assert(arena_wf(self.rows@));
                assert forall|i: int| 0 <= i < self.index@.len() implies {
                    let en = #[trigger] self.index@[i];
                    &&& (en.1 as int) < self.rows@.slots.len()
                    &&& self.rows@.slots[en.1 as int] is Some
                    &&& self.rows@.slots[en.1 as int]->Some_0.key == en.0@
                } by {
                    if i < p {
                        assert(self.index@[i] == old(self).index@[i]);
                    } else if i > p {
                        assert(self.index@[i] == old(self).index@[i - 1]);
                    }
                }
                assert(content_sorted(self.content()));
                assert forall|i: int, j: int|
                    0 <= i < j < self.index@.len() implies (#[trigger] self.index@[i]).1 != (
                #[trigger] self.index@[j]).1 by {
                    assert(self.content()[i].key == self.index@[i].0@);
                    assert(self.content()[j].key == self.index@[j].0@);
                }
                assert forall|s: int|
                    0 <= s < self.rows@.slots.len() && self.rows@.slots[s]
                        is Some implies exists|i: int|
                    0 <= i < self.index@.len() && (#[trigger] self.index@[i]).1 == s by {
                    if s == id {
                        assert(self.index@[p as int].1 == s);
                    } else {
                        assert(arena0.slots[s] is Some);
                        let i0 = choose|i0: int|
                            0 <= i0 < old(self).index@.len() && (#[trigger] old(
                                self,
                            ).index@[i0]).1 == s;
                        if i0 < p {
                            assert(self.index@[i0].1 == s);
                        } else {
                            assert(self.index@[i0 + 1].1 == s);
                        }
                    }
                }
            if !self.is_replica {
                crate::content::lemma_replay_push(
                    old(self).ops_view(),
                    self.base@,
                    OpView::Insert {
                        key: key@,
                        value: ValView::Null,
                        col: 0,
                        version: self.version_counter,
                    },
                );
                assert(versions_ok(self.ops_view(), self.base_version@)) by {
                    let ops1 = self.ops_view();
                    let ops0 = old(self).ops_view();
                    assert forall|i: int|
                        0 <= i < ops1.len() implies op_version(#[trigger] ops1[i]) as int
                        == self.base_version@ + i + 1 by {
                        if i < ops0.len() {
                            assert(ops1[i] == ops0[i]);
                        }
                    }
                }
                assert(self.content() == replay(self.ops_view(), self.base@));
            }
            assert(forall|i: int|
                0 <= i < self.index@.len() ==> {
                    let e = #[trigger] self.index@[i];
                    &&& (e.1 as int) < self.rows@.slots.len()
                    &&& self.rows@.slots[e.1 as int] is Some
                    &&& self.rows@.slots[e.1 as int]->Some_0.key == e.0@
                });
            assert forall|i: int, j: int|
                0 <= i < j < self.index@.len() implies val_lt(
                (#[trigger] self.index@[i]).0@,
                (#[trigger] self.index@[j]).0@,
            ) by {
                assert(self.content()[i].key == self.index@[i].0@);
                assert(self.content()[j].key == self.index@[j].0@);
                assert(val_lt(self.content()[i].key, self.content()[j].key));
            }
            assert(forall|i: int, j: int|
                0 <= i < j < self.index@.len() ==> (#[trigger] self.index@[i]).1 != (
                #[trigger] self.index@[j]).1);
            assert(forall|s: int|
                0 <= s < self.rows@.slots.len() && self.rows@.slots[s] is Some ==> exists|i: int|
                    0 <= i < self.index@.len() && (#[trigger] self.index@[i]).1 == s);
            assert(!self.is_replica ==> {
                &&& versions_ok(self.ops_view(), self.base_version@)
                &&& self.version_counter as int == self.base_version@ + self.ops@.len()
                &&& content_sorted(self.base@)
                &&& self.content() == replay(self.ops_view(), self.base@)
            });
            assert(self.is_replica ==> self.ops@.len() == 0);
            assert(self.wf());
        }
        id
    }

    /// Writes `value` into column `col` of the row `row_id`: the write is
    /// logged on a primary with a fresh version, and every listener on the
    /// row is queued for notification. Stale or out-of-range ids are
    /// reported as `NoSuchRow` and change nothing.
    #[verifier::rlimit(60)]
    pub fn insert_at(&mut self, row_id: usize, value: Something, col: usize) -> (r: Result<
        (),
        StoreError,
    >)
        requires
            old(self).wf(),
            !old(self).replica() ==> old(self).version() < u64::MAX,
        ensures
            final(self).wf(),
            final(self).replica() == old(self).replica(),
            final(self).base_view() == old(self).base_view(),
            final(self).base_ver() == old(self).base_ver(),
            r is Ok <==> (row_id as int) < old(self).slots().len() && old(self).slots()[row_id as int] is Some,
            match r {
                Ok(()) => {
                    let entry = old(self).slots()[row_id as int]->Some_0;
                    &&& final(self).content() == content_write(
                        old(self).content(),
                        entry.key,
                        value@,
                        col as int,
                    )
                    &&& final(self).slots() == old(self).slots().update(
                        row_id as int,
                        Some(
                            StoredRowView {
                                row: row_write(entry.row, value@, col as int),
                                key: entry.key,
                                listeners: entry.listeners,
                            },
                        ),
                    )
                    &&& final(self).gaps_view() == old(self).gaps_view()
                    &&& final(self).pending_view() == old(self).pending_view() + entry.listeners
                    &&& !old(self).replica() ==> {
                        &&& final(self).ops_view() == old(self).ops_view().push(
                            OpView::Insert {
                                key: entry.key,
                                value: value@,
                                col: col as nat,
                                version: (old(self).version() + 1) as u64,
                            },
                        )
                        &&& final(self).version() == old(self).version() + 1
                    }
                    &&& old(self).replica() ==> {
                        &&& final(self).ops_view() == old(self).ops_view()
                        &&& final(self).version() == old(self).version()
                    }
                },
                Err(e) => {
                    &&& e == StoreError::NoSuchRow
                    &&& final(self).content() == old(self).content()
                    &&& final(self).slots() == old(self).slots()
                    &&& final(self).pending_view() == old(self).pending_view()
                    &&& final(self).ops_view() == old(self).ops_view()
                    &&& final(self).version() == old(self).version()
                },
            },
    {
        let key = match self.rows.get(row_id) {
            Some(sr) => sr.key.clone(),
            None => {
                return Err(StoreError::NoSuchRow);
            },
        };
        let ghost c0 = self.content();
        let ghost entry = self.slots()[row_id as int]->Some_0;
        let ghost i0 = choose|i0: int|
            0 <= i0 < self.index@.len() && (#[trigger] self.index@[i0]).1 == row_id;
        proof {
            self.lemma_content_sorted();
            assert(self.index@[i0].0@ == entry.key);
            assert(c0[i0].key == entry.key);
            assert(key@ == entry.key);
            crate::content::lemma_seek_pos_finds(c0, entry.key, i0);
            crate::content::lemma_content_write_sorted(c0, entry.key, value@, col as int);
            assert(c0[i0].row == entry.row);
        }
        if !self.is_replica {
            self.version_counter = self.version_counter + 1;
            self.ops.push(
                StorageOp::Insert {
                    key,
                    value: value.clone(),
                    index: col,
                    version: self.version_counter,
                },
            );
            proof {
                assert(self.ops_view() =~= old(self).ops_view().push(
                    OpView::Insert {
                        key: entry.key,
                        value: value@,
                        col: col as nat,
                        version: self.version_counter,
                    },
                ));
            }
        }
        let listeners = self.rows.listeners_of(row_id);
        let ghost pending0 = self.pending@;
        let ghost mid = *self;
        let mut li: usize = 0;
        while li < listeners.len()
            invariant
                0 <= li <= listeners@.len(),
                self.pending@ == pending0 + listeners@.subrange(0, li as int),
                self.rows == mid.rows,
                self.index == mid.index,
                self.ops == mid.ops,
                self.version_counter == mid.version_counter,
                self.is_replica == mid.is_replica,
                self.base == mid.base,
                self.base_version == mid.base_version,
            decreases listeners@.len() - li,
        {
            self.pending.push(listeners[li]);
            proof {
                assert(self.pending@ =~= pending0 + listeners@.subrange(0, li + 1));
            }
            li = li + 1;
        }
        proof {
            assert(listeners@.subrange(0, listeners@.len() as int) =~= listeners@);
            assert(pending0 + Seq::<ListenerId>::empty() =~= pending0);
            assert(self.pending@ == pending0 + entry.listeners);
        }
        self.rows.write_value(row_id, value, col);
        proof {
            let cw = content_write(c0, entry.key, value@, col as int);
            assert(self.content().len() == cw.len());
            assert forall|j: int| 0 <= j < self.content().len() implies self.content()[j]
                == cw[j] by {
                if j == i0 {
                    assert(self.slots()[row_id as int]->Some_0.row == row_write(
                        entry.row,
                        value@,
                        col as int,
                    ));
                } else {
                    assert(self.index@[j].1 != row_id);
                    let sj = self.index@[j].1 as int;
                    assert(self.slots()[sj] == old(self).slots()[sj]);
                }
            }
            assert(self.content() =~= cw);
            assert(arena_wf(self.rows@));
            assert forall|i: int| 0 <= i < self.index@.len() implies {
                let e = #[trigger] self.index@[i];
                &&& (e.1 as int) < self.rows@.slots.len()
                &&& self.rows@.slots[e.1 as int] is Some
                &&& self.rows@.slots[e.1 as int]->Some_0.key == e.0@
            } by {
                if i != i0 {
                    assert(self.index@[i].1 != row_id);
                }
            }
            assert forall|i: int, j: int|
                0 <= i < j < self.index@.len() implies val_lt(
                (#[trigger] self.index@[i]).0@,
                (#[trigger] self.index@[j]).0@,
            ) by {
                assert(old(self).content()[i].key == self.index@[i].0@);
                assert(old(self).content()[j].key == self.index@[j].0@);
            }
            assert forall|s: int|
                0 <= s < self.rows@.slots.len() && self.rows@.slots[s] is Some implies exists|
                i: int,
            |
                0 <= i < self.index@.len() && (#[trigger] self.index@[i]).1 == s by {
                assert(old(self).slots()[s] is Some);
                let iw = choose|iw: int|
                    0 <= iw < old(self).index@.len() && (#[trigger] old(self).index@[iw]).1 == s;
                assert(self.index@[iw].1 == s);
            }
            if !self.is_replica {
                crate::content::lemma_replay_push(
                    old(self).ops_view(),
                    self.base@,
                    OpView::Insert {
                        key: entry.key,
                        value: value@,
                        col: col as nat,
                        version: self.version_counter,
                    },
                );
                assert(versions_ok(self.ops_view(), self.base_version@)) by {
                    let ops1 = self.ops_view();
                    let ops0 = old(self).ops_view();
                    assert forall|i: int|
                        0 <= i < ops1.len() implies op_version(#[trigger] ops1[i]) as int
                        == self.base_version@ + i + 1 by {
                        if i < ops0.len() {
                            assert(ops1[i] == ops0[i]);
                        }
                    }
                }
                assert(self.content() == replay(self.ops_view(), self.base@));
            }
            assert(self.wf());
        }
        Ok(())
    }

    /// Deletes row `row_id`: the row leaves the arena (its id becomes
    /// reusable), its key leaves the index, the deletion is logged on a
    /// primary, and the row's listeners fire one last time before being
    /// discarded with the row.
    #[verifier::rlimit(60)]
    pub fn delete_row(&mut self, row_id: usize) -> (r: Result<(), StoreError>)
        requires
            old(self).wf(),
            !old(self).replica() ==> old(self).version() < u64::MAX,
        ensures
            final(self).wf(),
            final(self).replica() == old(self).replica(),
            final(self).base_view() == old(self).base_view(),
            final(self).base_ver() == old(self).base_ver(),
            r is Ok <==> (row_id as int) < old(self).slots().len() && old(self).slots()[row_id as int] is Some,
            match r {
                Ok(()) => {
                    let entry = old(self).slots()[row_id as int]->Some_0;
                    &&& final(self).content() == content_remove(old(self).content(), entry.key)
                    &&& final(self).slots() == old(self).slots().update(row_id as int, None)
                    &&& final(self).gaps_view() == old(self).gaps_view().push(row_id as int)
                    &&& final(self).pending_view() == old(self).pending_view() + entry.listeners
                    &&& !old(self).replica() ==> {
                        &&& final(self).ops_view() == old(self).ops_view().push(
                            OpView::Remove {
                                key: entry.key,
                                version: (old(self).version() + 1) as u64,
                            },
                        )
                        &&& final(self).version() == old(self).version() + 1
                    }
                    &&& old(self).replica() ==> {
                        &&& final(self).ops_view() == old(self).ops_view()
                        &&& final(self).version() == old(self).version()
                    }
                },
                Err(e) => {
                    &&& e == StoreError::NoSuchRow
                    &&& final(self).content() == old(self).content()
                    &&& final(self).slots() == old(self).slots()
                    &&& final(self).gaps_view() == old(self).gaps_view()
                    &&& final(self).pending_view() == old(self).pending_view()
                    &&& final(self).ops_view() == old(self).ops_view()
                    &&& final(self).version() == old(self).version()
                },
            },
    {
        let key = match self.rows.get(row_id) {
            Some(sr) => sr.key.clone(),
            None => {
                return Err(StoreError::NoSuchRow);
            },
        };
        let ghost c0 = self.content();
        let ghost entry = self.slots()[row_id as int]->Some_0;
        let ghost i0 = choose|i0: int|
            0 <= i0 < self.index@.len() && (#[trigger] self.index@[i0]).1 == row_id;
        proof {
            self.lemma_content_sorted();
            assert(self.index@[i0].0@ == entry.key);
            assert(c0[i0].key == entry.key);
            assert(key@ == entry.key);
            crate::content::lemma_seek_pos_finds(c0, entry.key, i0);
            crate::content::lemma_content_remove_sorted(c0, entry.key);
        }
        let p = self.seek(&key);
        proof {
            assert(p as int == i0);
        }
        if !self.is_replica {
            self.version_counter = self.version_counter + 1;
            self.ops.push(StorageOp::Remove { key, version: self.version_counter });
            proof {
                assert(self.ops_view() =~= old(self).ops_view().push(
                    OpView::Remove { key: entry.key, version: self.version_counter },
                ));
            }
        }
        let listeners = self.rows.listeners_of(row_id);
        let ghost pending0 = self.pending@;
        let ghost mid = *self;
        let mut li: usize = 0;
        while li < listeners.len()
            invariant
                0 <= li <= listeners@.len(),
                self.pending@ == pending0 + listeners@.subrange(0, li as int),
                self.rows == mid.rows,
                self.index == mid.index,
                self.ops == mid.ops,
                self.version_counter == mid.version_counter,
                self.is_replica == mid.is_replica,
                self.base == mid.base,
                self.base_version == mid.base_version,
            decreases listeners@.len() - li,
        {
            self.pending.push(listeners[li]);
            proof {
                assert(self.pending@ =~= pending0 + listeners@.subrange(0, li + 1));
            }
            li = li + 1;
        }
        proof {
            assert(listeners@.subrange(0, listeners@.len() as int) =~= listeners@);
            assert(pending0 + Seq::<ListenerId>::empty() =~= pending0);
            assert(self.pending@ == pending0 + entry.listeners);
        }
        self.index.remove(p);
        let ghost index1 = self.index@;
        let removed = self.rows.remove(row_id);
        proof {
            assert(removed is Some);
            let cw = content_remove(c0, entry.key);
            assert(cw == c0.subrange(0, i0) + c0.subrange(i0 + 1, c0.len() as int));
            assert(self.index@ == old(self).index@.remove(i0));
            assert(self.content().len() == cw.len());
            assert forall|j: int| 0 <= j < self.content().len() implies self.content()[j]
                == cw[j] by {
                if j < i0 {
                    assert(self.index@[j] == old(self).index@[j]);
                    assert(self.index@[j].1 != row_id);
                    assert(cw[j] == c0[j]);
                } else {
                    assert(self.index@[j] == old(self).index@[j + 1]);
                    assert(self.index@[j].1 != row_id);
                    assert(cw[j] == c0[j + 1]);
                }
            }
            assert(self.content() =~= cw);
            assert(arena_wf(self.rows@));
            assert forall|i: int| 0 <= i < self.index@.len() implies {
                let e = #[trigger] self.index@[i];
                &&& (e.1 as int) < self.rows@.slots.len()
                &&& self.rows@.slots[e.1 as int] is Some
                &&& self.rows@.slots[e.1 as int]->Some_0.key == e.0@
            } by {
                if i < i0 {
                    assert(self.index@[i] == old(self).index@[i]);
                    assert(self.index@[i].1 != row_id);
                } else {
                    assert(self.index@[i] == old(self).index@[i + 1]);
                    assert(self.index@[i].1 != row_id);
                }
            }
            assert forall|i: int, j: int|
                0 <= i < j < self.index@.len() implies val_lt(
                (#[trigger] self.index@[i]).0@,
                (#[trigger] self.index@[j]).0@,
            ) by {
                assert(self.content()[i].key == self.index@[i].0@);
                assert(self.content()[j].key == self.index@[j].0@);
                crate::content::lemma_content_remove_sorted(c0, entry.key);
                assert(val_lt(self.content()[i].key, self.content()[j].key));
            }
            assert forall|i: int, j: int|
                0 <= i < j < self.index@.len() implies (#[trigger] self.index@[i]).1 != (
            #[trigger] self.index@[j]).1 by {
                let oi = if i < i0 { i } else { i + 1 };
                let oj = if j < i0 { j } else { j + 1 };
                assert(self.index@[i] == old(self).index@[oi]);
                assert(self.index@[j] == old(self).index@[oj]);
            }
            assert forall|s: int|
                0 <= s < self.rows@.slots.len() && self.rows@.slots[s] is Some implies exists|
                i: int,
            |
                0 <= i < self.index@.len() && (#[trigger] self.index@[i]).1 == s by {
                assert(s != row_id);
                assert(old(self).slots()[s] is Some);
                let iw = choose|iw: int|
                    0 <= iw < old(self).index@.len() && (#[trigger] old(self).index@[iw]).1 == s;
                if iw < i0 {
                    assert(self.index@[iw].1 == s);
                } else {
                    assert(iw != i0);
                    assert(self.index@[iw - 1].1 == s);
                }
            }
            if !self.is_replica {
                crate::content::lemma_replay_push(
                    old(self).ops_view(),
                    self.base@,
                    OpView::Remove { key: entry.key, version: self.version_counter },
                );
                assert(versions_ok(self.ops_view(), self.base_version@)) by {
                    let ops1 = self.ops_view();
                    let ops0 = old(self).ops_view();
                    assert forall|i: int|
                        0 <= i < ops1.len() implies op_version(#[trigger] ops1[i]) as int
                        == self.base_version@ + i + 1 by {
                        if i < ops0.len() {
                            assert(ops1[i] == ops0[i]);
                        }
                    }
                }
                assert(self.content() == replay(self.ops_view(), self.base@));
            }
            assert(self.wf());
        }
        Ok(())
    }

    /// Every stored row carries no listeners.
    pub open spec fn no_listeners(slots: Seq<Option<StoredRowView>>) -> bool {
        forall|s: int|
            0 <= s < slots.len() && (#[trigger] slots[s]) is Some ==> slots[s]->Some_0.listeners
                == Seq::<ListenerId>::empty()
    }

    /// Removes the row stored under `key`, logging the removal on a
    /// primary even when the key is absent — a removal of nothing is a
    /// no-op on every replica too, so the log stays faithful.
    #[verifier::rlimit(60)]
    pub fn remove(&mut self, key: &Something)
        requires
            old(self).wf(),
            !old(self).replica() ==> old(self).version() < u64::MAX,
        ensures
            final(self).wf(),
            final(self).replica() == old(self).replica(),
            final(self).base_view() == old(self).base_view(),
            final(self).base_ver() == old(self).base_ver(),
            final(self).content() == content_remove(old(self).content(), key@),
            final(self).pending_view() == old(self).pending_view() + key_listeners(
                *old(self),
                key@,
            ),
            !old(self).replica() ==> {
                &&& final(self).ops_view() == old(self).ops_view().push(
                    OpView::Remove { key: key@, version: (old(self).version() + 1) as u64 },
                )
                &&& final(self).version() == old(self).version() + 1
            },
            old(self).replica() ==> {
                &&& final(self).ops_view() == old(self).ops_view()
                &&& final(self).version() == old(self).version()
            },
    {
        match self.row_id_of_key(key) {
            Some(id) => {
                proof {
                    lemma_key_listeners(*old(self), id as int);
                }
                let res = self.delete_row(id);
                proof {
                    assert(res is Ok);
                    assert(self.pending_view() =~= old(self).pending_view() + key_listeners(
                        *old(self),
                        key@,
                    ));
                }
            },
            None => {
                proof {
                    self.lemma_content_sorted();
                    lemma_key_listeners_absent(*old(self), key@);
                    assert(content_remove(old(self).content(), key@) == old(self).content());
                    assert(self.pending_view() =~= old(self).pending_view() + key_listeners(
                        *old(self),
                        key@,
                    ));
                }
                if !self.is_replica {
                    self.version_counter = self.version_counter + 1;
                    self.ops.push(
                        StorageOp::Remove { key: key.clone(), version: self.version_counter },
                    );
                    proof {
                        assert(self.ops_view() =~= old(self).ops_view().push(
                            OpView::Remove { key: key@, version: self.version_counter },
                        ));
                        crate::content::lemma_replay_push(
                            old(self).ops_view(),
                            self.base@,
                            OpView::Remove { key: key@, version: self.version_counter },
                        );
                        assert(versions_ok(self.ops_view(), self.base_version@)) by {
                            let ops1 = self.ops_view();
                            let ops0 = old(self).ops_view();
                            assert forall|i: int|
                                0 <= i < ops1.len() implies op_version(
                                #[trigger] ops1[i],
                            ) as int == self.base_version@ + i + 1 by {
                                if i < ops0.len() {
                                    assert(ops1[i] == ops0[i]);
                                }
                            }
                        }
                        assert(self.content() == replay(self.ops_view(), self.base@));
                        assert(self.wf());
                    }
                }
            },
        }
    }

    /// Takes the operation log, leaving it empty: the log then replays from
    /// the table's current content.
    pub fn take_ops(&mut self) -> (r: Vec<StorageOp>)
        requires
            old(self).wf(),
        ensures
            final(self).wf(),
            r@.map_values(|o: StorageOp| o@) == old(self).ops_view(),
            !old(self).replica() ==> versions_ok(old(self).ops_view(), old(self).base_ver()),
            !old(self).replica() ==> old(self).version() as int == old(self).base_ver()
                + r@.len(),
            final(self).ops_view() == Seq::<OpView>::empty(),
            final(self).content() == old(self).content(),
            final(self).slots() == old(self).slots(),
            final(self).gaps_view() == old(self).gaps_view(),
            final(self).pending_view() == old(self).pending_view(),
            final(self).version() == old(self).version(),
            final(self).replica() == old(self).replica(),
            final(self).base_view() == old(self).content(),
            final(self).base_ver() == old(self).version(),
    {
        proof {
            self.lemma_content_sorted();
        }
        let mut out: Vec<StorageOp> = Vec::new();
        core::mem::swap(&mut self.ops, &mut out);
        self.base = Ghost(self.content());
        self.base_version = Ghost(self.version_counter);
        proof {
            assert(self.ops_view() =~= Seq::<OpView>::empty());
            assert(self.wf());
        }
        out
    }

    /// Clears the operation log without returning it; the log then replays
    /// from the table's current content.
    pub fn clear_ops(&mut self)
        requires
            old(self).wf(),
        ensures
            final(self).wf(),
            final(self).ops_view() == Seq::<OpView>::empty(),
            final(self).content() == old(self).content(),
            final(self).slots() == old(self).slots(),
            final(self).gaps_view() == old(self).gaps_view(),
            final(self).pending_view() == old(self).pending_view(),
            final(self).version() == old(self).version(),
            final(self).replica() == old(self).replica(),
            final(self).base_view() == old(self).content(),
            final(self).base_ver() == old(self).version(),
    {
        let _ = self.take_ops();
    }

    /// The version stamped `i` operations after `from`, saturating at the
    /// largest representable version.
    pub open spec fn expected_version(from: u64, i: int) -> u64 {
        if from + i + 1 <= u64::MAX {
            (from + i + 1) as u64
        } else {
            u64::MAX
        }
    }

    /// Replays an operation log against this replica. Each operation must
    /// carry exactly the next version; on the first gap or repeat the whole
    /// log is rejected with a `VersionMismatch` and nothing is applied.
    #[verifier::rlimit(60)]
    pub fn apply_ops(&mut self, ops: Vec<StorageOp>) -> (r: Result<(), StoreError>)
        requires
            old(self).wf(),
            old(self).replica(),
        ensures
            final(self).wf(),
            final(self).replica(),
            r is Ok <==> versions_ok(ops@.map_values(|o: StorageOp| o@), old(self).version()),
            match r {
                Ok(()) => {
                    &&& final(self).content() == replay(
                        ops@.map_values(|o: StorageOp| o@),
                        old(self).content(),
                    )
                    &&& final(self).version() as int == old(self).version() + ops@.len()
                    &&& (Table::no_listeners(old(self).slots()) && old(self).pending_view()
                        == Seq::<ListenerId>::empty()) ==> {
                        &&& Table::no_listeners(final(self).slots())
                        &&& final(self).pending_view() == Seq::<ListenerId>::empty()
                    }
                },
                Err(e) => {
                    &&& final(self).content() == old(self).content()
                    &&& final(self).slots() == old(self).slots()
                    &&& final(self).pending_view() == old(self).pending_view()
                    &&& final(self).version() == old(self).version()
                    &&& exists|i: int|
                        {
                            &&& 0 <= i < ops@.len()
                            &&& forall|j: int|
                                0 <= j < i ==> op_version((#[trigger] ops@[j])@) as int == old(
                                    self,
                                ).version() + j + 1
                            &&& e == (StoreError::VersionMismatch {
                                expected: Table::expected_version(old(self).version(), i),
                                got: op_version(ops@[i]@),
                            })
                        }
                },
            },
    {
        let ghost opsv = ops@.map_values(|o: StorageOp| o@);
        // validate every version first, so that a bad log changes nothing
        let mut v: u64 = self.version_counter;
        let mut i: usize = 0;
        while i < ops.len()
            invariant
                0 <= i <= ops@.len(),
                opsv == ops@.map_values(|o: StorageOp| o@),
                v as int == old(self).version() + i,
                v as int <= u64::MAX,
                forall|j: int|
                    0 <= j < i ==> op_version(#[trigger] opsv[j]) as int == old(self).version()
                        + j + 1,
                self == old(self),
                self.wf(),
                self.replica(),
            decreases ops@.len() - i,
        {
            let got = match &ops[i] {
                StorageOp::Insert { version, .. } => *version,
                StorageOp::Remove { version, .. } => *version,
            };
            proof {
                assert(opsv[i as int] == ops@[i as int]@);
                assert(op_version(opsv[i as int]) == got);
            }
            if v == u64::MAX || got != v + 1 {
                proof {
                    assert(op_version(opsv[i as int]) as int != old(self).version() + i + 1);
                    assert(!versions_ok(opsv, old(self).version()));
                    assert(forall|j: int|
                        0 <= j < ops@.len() ==> (#[trigger] ops@[j])@ == opsv[j]);
                }
                let expected = if v == u64::MAX {
                    u64::MAX
                } else {
                    v + 1
                };
                let err = StoreError::VersionMismatch { expected, got };
                proof {
                    let ii = i as int;
                    assert(expected == Table::expected_version(old(self).version(), ii));
                    assert(got == op_version(ops@[ii]@));
                    assert(forall|j: int|
                        0 <= j < ii ==> op_version((#[trigger] ops@[j])@) as int == old(
                            self,
                        ).version() + j + 1);
                    assert(exists|ix: int|
                        {
                            &&& 0 <= ix < ops@.len()
                            &&& forall|j: int|
                                0 <= j < ix ==> op_version((#[trigger] ops@[j])@) as int == old(
                                    self,
                                ).version() + j + 1
                            &&& err == (StoreError::VersionMismatch {
                                expected: Table::expected_version(old(self).version(), ix),
                                got: op_version(ops@[ix]@),
                            })
                        }) by {
                        assert({
                            &&& 0 <= ii < ops@.len()
                            &&& forall|j: int|
                                0 <= j < ii ==> op_version((#[trigger] ops@[j])@) as int == old(
                                    self,
                                ).version() + j + 1
                            &&& err == (StoreError::VersionMismatch {
                                expected: Table::expected_version(old(self).version(), ii),
                                got: op_version(ops@[ii]@),
                            })
                        });
                    }
                }
                return Err(err);
            }
            v = v + 1;
            i = i + 1;
        }
        proof {
            assert(versions_ok(opsv, old(self).version()));
        }
        // apply, oldest first
        let ghost c0 = self.content();
        let ghost clean = Table::no_listeners(self.slots()) && self.pending@ == Seq::<
            ListenerId,
        >::empty();
        let mut k: usize = 0;
        while k < ops.len()
            invariant
                0 <= k <= ops@.len(),
                opsv == ops@.map_values(|o: StorageOp| o@),
                self.wf(),
                self.replica(),
                self.content() == replay(opsv.subrange(0, k as int), c0),
                c0 == old(self).content(),
                versions_ok(opsv, old(self).version()),
                self.version() as int == old(self).version() + k,
                clean == (Table::no_listeners(old(self).slots()) && old(self).pending_view()
                    == Seq::<ListenerId>::empty()),
                clean ==> Table::no_listeners(self.slots()) && self.pending@ == Seq::<
                    ListenerId,
                >::empty(),
                self.base == old(self).base,
                self.base_version == old(self).base_version,
            decreases ops@.len() - k,
        {
            let ghost pre = self.content();
            let ghost cur = *self;
            proof {
                self.lemma_content_sorted();
                assert(opsv.subrange(0, k + 1).drop_last() =~= opsv.subrange(0, k as int));
                assert(opsv.subrange(0, k + 1).last() == opsv[k as int]);
                crate::content::lemma_replay_push(opsv.subrange(0, k as int), c0, opsv[k as int]);
                assert(opsv.subrange(0, k as int).push(opsv[k as int]) =~= opsv.subrange(
                    0,
                    k + 1,
                ));
            }
            let op = ops[k].clone();
            proof {
                assert(op@ == opsv[k as int]);
            }
            match op {
                StorageOp::Insert { key, value, index, version } => {
                    proof {
                        if !content_has(pre, key@) {
                            crate::content::lemma_create_then_write(
                                pre,
                                key@,
                                value@,
                                index as int,
                            );
                        }
                    }
                    let id = self.create_row(key);
                    let ghost s1 = self.slots();
                    let ghost p1 = self.pending@;
                    let res = self.insert_at(id, value, index);
                    match res {
                        Ok(()) => {},
                        Err(_) => {
                            proof {
                                assert(false);
                            }
                            return Err(StoreError::NoSuchRow);
                        },
                    }
                    self.version_counter = version;
                    proof {
                        if clean {
                            assert(Table::no_listeners(s1)) by {
                                assert forall|sx: int|
                                    0 <= sx < s1.len() && (#[trigger] s1[sx])
                                        is Some implies s1[sx]->Some_0.listeners == Seq::<
                                    ListenerId,
                                >::empty() by {
                                    if sx == id {
                                        if content_has(cur.content(), opsv[k as int]->Insert_key) {
                                            assert(s1 == cur.slots());
                                        }
                                    } else if sx < cur.slots().len() {
                                        if content_has(cur.content(), opsv[k as int]->Insert_key) {
                                            assert(s1 == cur.slots());
                                        } else {
                                            assert(s1[sx] == cur.slots()[sx]);
                                        }
                                    }
                                }
                            }
                            assert(s1[id as int]->Some_0.listeners == Seq::<
                                ListenerId,
                            >::empty());
                            assert(Table::no_listeners(self.slots())) by {
                                assert forall|sx: int|
                                    0 <= sx < self.slots().len() && (#[trigger] self.slots()[sx])
                                        is Some implies self.slots()[sx]->Some_0.listeners
                                    == Seq::<ListenerId>::empty() by {
                                    if sx != id {
                                        assert(self.slots()[sx] == s1[sx]);
                                    }
                                }
                            }
                            assert(self.pending@ =~= p1);
                        }
                    }
                },
                StorageOp::Remove { key, version } => {
                    match self.row_id_of_key(&key) {
                        Some(id) => {
                            let res = self.delete_row(id);
                            match res {
                                Ok(()) => {},
                                Err(_) => {
                                    proof {
                                        assert(false);
                                    }
                                    return Err(StoreError::NoSuchRow);
                                },
                            }
                            proof {
                                if clean {
                                    assert(Table::no_listeners(self.slots())) by {
                                        assert forall|sx: int|
                                            0 <= sx < self.slots().len() && (
                                            #[trigger] self.slots()[sx])
                                                is Some implies self.slots()[sx]->Some_0.listeners
                                            == Seq::<ListenerId>::empty() by {
                                            if sx != id {
                                                assert(self.slots()[sx] == cur.slots()[sx]);
                                            }
                                        }
                                    }
                                    assert(self.pending@ =~= cur.pending@);
                                }
                            }
                        },
                        None => {
                            proof {
                                assert(content_remove(pre, key@) == pre);
                            }
                        },
                    }
                    self.version_counter = version;
                },
            }
            proof {
                assert(self.content() == apply_op(pre, opsv[k as int]));
                assert(self.wf());
            }
            k = k + 1;
        }
        proof {
            assert(opsv.subrange(0, opsv.len() as int) =~= opsv);
        }
        Ok(())
    }

    /// Builds a replica purely by replaying an operation log against an
    /// empty table; the log's versions must run 1, 2, 3, … from the start.
    pub fn from_ops(ops: Vec<StorageOp>) -> (r: Result<Table, StoreError>)
        ensures
            r is Ok <==> versions_ok(ops@.map_values(|o: StorageOp| o@), 0),
            match r {
                Ok(t) => {
                    &&& t.wf()
                    &&& t.replica()
                    &&& t.content() == replay(
                        ops@.map_values(|o: StorageOp| o@),
                        Seq::<EntryView>::empty(),
                    )
                    &&& t.version() as int == ops@.len()
                    &&& t.pending_view() == Seq::<ListenerId>::empty()
                    &&& t.ops_view() == Seq::<OpView>::empty()
                },
                Err(e) => e is VersionMismatch,
            },
    {
        let mut t = Table::new(true);
        match t.apply_ops(ops) {
            Ok(()) => Ok(t),
            Err(e) => {
                proof {
                    assert(e is VersionMismatch);
                }
                Err(e)
            },
        }
    }

    /// Folds one row's columns into the running hash.
    fn hash_row(h0: u64, row: &Row) -> (r: u64)
        ensures
            r == crate::content::row_hash(h0, row@),
    {
        let mut h = h0;
        let mut j: usize = 0;
        let n = row.len();
        proof {
            assert(row@.skip(0) =~= row@);
        }
        while j < n
            invariant
                0 <= j <= row@.len(),
                n == row@.len(),
                crate::content::row_hash(h, row@.skip(j as int)) == crate::content::row_hash(
                    h0,
                    row@,
                ),
            decreases row@.len() - j,
        {
            proof {
                assert(row@.skip(j as int).drop_first() =~= row@.skip(j as int + 1));
                assert(row@.skip(j as int)[0] == row@[j as int]);
                assert(crate::row::row_lookup(row@, j as int) == row@[j as int]);
            }
            let v = row.get(j);
            h = crate::value::mix64(h, v.hash64());
            j = j + 1;
        }
        proof {
            assert(row@.skip(row@.len() as int) =~= Seq::<ValView>::empty());
        }
        h
    }

    /// The deterministic content hash over the key→row map: a pure function
    /// of the sorted entries, used to certify that a primary and a replica
    /// built from its operation log agree exactly.
    pub fn tree_hash(&self) -> (h: u64)
        requires
            self.wf(),
        ensures
            h == content_hash(self.content()),
    {
        let ghost c = self.content();
        let mut h: u64 = crate::value::FNV_SEED;
        let mut p: usize = 0;
        proof {
            assert(c.skip(0) =~= c);
        }
        while p < self.index.len()
            invariant
                self.wf(),
                c == self.content(),
                0 <= p <= self.index@.len(),
                crate::content::content_hash_from(h, c.skip(p as int))
                    == crate::content::content_hash(c),
            decreases self.index@.len() - p,
        {
            proof {
                assert(c.skip(p as int).drop_first() =~= c.skip(p as int + 1));
                assert(c.skip(p as int)[0] == c[p as int]);
            }
            let key_hash = self.index[p].0.hash64();
            let id = self.index[p].1;
            h = crate::value::mix64(h, key_hash);
            match self.rows.get(id) {
                Some(sr) => {
                    let rl = sr.row.len();
                    h = crate::value::mix64(h, rl as u64);
                    h = Table::hash_row(h, &sr.row);
                    proof {
                        assert(sr.row@ == c[p as int].row);
                        assert(c[p as int].key == self.index@[p as int].0@);
                    }
                },
                None => {
                    proof {
                        assert(false);
                    }
                },
            }
            p = p + 1;
        }
        proof {
            assert(c.skip(c.len() as int) =~= Seq::<EntryView>::empty());
        }
        h
    }

    /// Replication equivalence: a pristine primary's content is exactly the
    /// replay of its operation log from empty, its log's versions run from
    /// 1, and so a replica built from that log carries the same content and
    /// the same content hash.
    pub proof fn lemma_replication_equivalence(t: Table)
        requires
            t.wf(),
            t.pristine(),
        ensures
            versions_ok(t.ops_view(), 0),
            t.version() as int == t.ops_view().len(),
            replay(t.ops_view(), Seq::<EntryView>::empty()) == t.content(),
            content_hash(replay(t.ops_view(), Seq::<EntryView>::empty())) == content_hash(
                t.content(),
            ),
    {
    }

    /// Version monotonicity: a log whose versions do not advance the
    /// replica's counter by exactly one at every step is rejected — never
    /// silently accepted.
    pub proof fn lemma_version_monotonicity(
        t: Table,
        ops: Seq<OpView>,
        i: int,
        r: Result<(), StoreError>,
    )
        requires
            t.replica(),
            0 <= i < ops.len(),
            op_version(ops[i]) as int != t.version() + i + 1,
            r is Ok ==> versions_ok(ops, t.version()),
        ensures
            r is Err,
    {
        assert(!versions_ok(ops, t.version()));
    }

    /// Attaches a worker-scoped listener to row `row_id`.
    pub fn add_listener(&mut self, row_id: usize, l: ListenerId) -> (r: Result<(), StoreError>)
        requires
            old(self).wf(),
        ensures
            final(self).wf(),
            r is Ok <==> (row_id as int) < old(self).slots().len() && old(self).slots()[row_id as int] is Some,
            final(self).content() == old(self).content(),
            final(self).pending_view() == old(self).pending_view(),
            final(self).ops_view() == old(self).ops_view(),
            final(self).version() == old(self).version(),
            final(self).replica() == old(self).replica(),
            final(self).base_view() == old(self).base_view(),
            final(self).base_ver() == old(self).base_ver(),
            final(self).gaps_view() == old(self).gaps_view(),
            match r {
                Ok(()) => final(self).slots() == old(self).slots().update(
                    row_id as int,
                    Some(
                        StoredRowView {
                            row: old(self).slots()[row_id as int]->Some_0.row,
                            key: old(self).slots()[row_id as int]->Some_0.key,
                            listeners: old(self).slots()[row_id as int]->Some_0.listeners.push(
                                l,
                            ),
                        },
                    ),
                ),
                Err(e) => e == StoreError::NoSuchRow && final(self).slots() == old(self).slots(),
            },
    {
        let valid = match self.rows.get(row_id) {
            Some(_) => true,
            None => false,
        };
        if !valid {
            return Err(StoreError::NoSuchRow);
        }
        self.rows.push_listener(row_id, l);
        proof {
            assert(self.content() =~= old(self).content());
            assert forall|i: int| 0 <= i < self.index@.len() implies {
                let e = #[trigger] self.index@[i];
                &&& (e.1 as int) < self.rows@.slots.len()
                &&& self.rows@.slots[e.1 as int] is Some
                &&& self.rows@.slots[e.1 as int]->Some_0.key == e.0@
            } by {
                if self.index@[i].1 != row_id {
                    assert(self.slots()[self.index@[i].1 as int] == old(self).slots()[self.index@[i].1 as int]);
                }
            }
            assert forall|sx: int|
                0 <= sx < self.rows@.slots.len() && self.rows@.slots[sx] is Some implies exists|
                i: int,
            |
                0 <= i < self.index@.len() && (#[trigger] self.index@[i]).1 == sx by {
                assert(old(self).slots()[sx] is Some);
            }
            assert(self.wf());
        }
        Ok(())
    }

    /// Detaches a listener from row `row_id`; reports whether it was
    /// attached there.
    pub fn remove_listener(&mut self, row_id: usize, l: ListenerId) -> (r: Result<
        bool,
        StoreError,
    >)
        requires
            old(self).wf(),
        ensures
            final(self).wf(),
            r is Ok <==> (row_id as int) < old(self).slots().len() && old(self).slots()[row_id as int] is Some,
            final(self).content() == old(self).content(),
            final(self).pending_view() == old(self).pending_view(),
            final(self).ops_view() == old(self).ops_view(),
            final(self).version() == old(self).version(),
            final(self).replica() == old(self).replica(),
            final(self).base_view() == old(self).base_view(),
            final(self).base_ver() == old(self).base_ver(),
            final(self).gaps_view() == old(self).gaps_view(),
            match r {
                Ok(found) => {
                    &&& found == old(self).slots()[row_id as int]->Some_0.listeners.contains(l)
                    &&& final(self).slots() == old(self).slots().update(
                        row_id as int,
                        Some(
                            StoredRowView {
                                row: old(self).slots()[row_id as int]->Some_0.row,
                                key: old(self).slots()[row_id as int]->Some_0.key,
                                listeners: old(
                                    self,
                                ).slots()[row_id as int]->Some_0.listeners.filter(
                                    crate::listener::not_this(l),
                                ),
                            },
                        ),
                    )
                },
                Err(e) => e == StoreError::NoSuchRow && final(self).slots() == old(self).slots(),
            },
    {
        let valid = match self.rows.get(row_id) {
            Some(_) => true,
            None => false,
        };
        if !valid {
            return Err(StoreError::NoSuchRow);
        }
        let found = self.rows.remove_listener_from(row_id, l);
        proof {
            assert(self.content() =~= old(self).content());
            assert forall|i: int| 0 <= i < self.index@.len() implies {
                let e = #[trigger] self.index@[i];
                &&& (e.1 as int) < self.rows@.slots.len()
                &&& self.rows@.slots[e.1 as int] is Some
                &&& self.rows@.slots[e.1 as int]->Some_0.key == e.0@
            } by {
                if self.index@[i].1 != row_id {
                    assert(self.slots()[self.index@[i].1 as int] == old(self).slots()[self.index@[i].1 as int]);
                }
            }
            assert forall|sx: int|
                0 <= sx < self.rows@.slots.len() && self.rows@.slots[sx] is Some implies exists|
                i: int,
            |
                0 <= i < self.index@.len() && (#[trigger] self.index@[i]).1 == sx by {
                assert(old(self).slots()[sx] is Some);
            }
            assert(self.wf());
        }
        Ok(found)
    }

    /// Drains the caller's notifications: exactly the queued entries owned
    /// by `worker` come out, in order; everyone else's stay queued.
    pub fn take_notifications(&mut self, worker: i32) -> (r: Vec<ListenerId>)
        requires
            old(self).wf(),
        ensures
            final(self).wf(),
            r@ == old(self).pending_view().filter(crate::listener::owned_by(worker)),
            final(self).pending_view() == old(self).pending_view().filter(
                crate::listener::not_owned_by(worker),
            ),
            final(self).content() == old(self).content(),
            final(self).slots() == old(self).slots(),
            final(self).gaps_view() == old(self).gaps_view(),
            final(self).ops_view() == old(self).ops_view(),
            final(self).version() == old(self).version(),
            final(self).replica() == old(self).replica(),
            final(self).base_view() == old(self).base_view(),
            final(self).base_ver() == old(self).base_ver(),
    {
        let ghost q = self.pending@;
        let mut drained: Vec<ListenerId> = Vec::new();
        core::mem::swap(&mut self.pending, &mut drained);
        let mut out: Vec<ListenerId> = Vec::new();
        let ghost mid = *self;
        let mut i: usize = 0;
        proof {
            reveal(Seq::filter);
            assert(q.subrange(0, 0) =~= Seq::<ListenerId>::empty());
        }
        while i < drained.len()
            invariant
                0 <= i <= drained@.len(),
                drained@ == q,
                out@ == q.subrange(0, i as int).filter(crate::listener::owned_by(worker)),
                self.pending@ == q.subrange(0, i as int).filter(
                    crate::listener::not_owned_by(worker),
                ),
                self.rows == mid.rows,
                self.index == mid.index,
                self.ops == mid.ops,
                self.version_counter == mid.version_counter,
                self.is_replica == mid.is_replica,
                self.base == mid.base,
                self.base_version == mid.base_version,
            decreases drained@.len() - i,
        {
            let l = drained[i];
            proof {
                reveal(Seq::filter);
                let pre = q.subrange(0, i as int);
                let cur = q.subrange(0, i + 1);
                assert(cur.drop_last() =~= pre);
                assert(cur.last() == q[i as int]);
                assert(cur.filter(crate::listener::owned_by(worker)) == if crate::listener::owned_by(worker)(cur.last()) {
                    pre.filter(crate::listener::owned_by(worker)).push(cur.last())
                } else {
                    pre.filter(crate::listener::owned_by(worker))
                });
                assert(cur.filter(crate::listener::not_owned_by(worker)) == if crate::listener::not_owned_by(worker)(cur.last()) {
                    pre.filter(crate::listener::not_owned_by(worker)).push(cur.last())
                } else {
                    pre.filter(crate::listener::not_owned_by(worker))
                });
            }
            if l.worker == worker {
                out.push(l);
            } else {
                self.pending.push(l);
            }
            i = i + 1;
        }
        proof {
            assert(q.subrange(0, q.len() as int) =~= q);
            assert(self.content() =~= old(self).content());
            assert(self.wf());
        }
        out
    }

    /// All entries whose key lies in `[start, end)` under the canonical
    /// order, in ascending key order, as key–row pairs copied out.
    pub fn get_range(&self, start: &Something, end: &Something) -> (r: Vec<(Something, Row)>)
        requires
            self.wf(),
        ensures
            ({
                let c = self.content();
                let lo = seek_pos(c, start@);
                let hi = seek_pos(c, end@);
                &&& lo <= hi ==> {
                    &&& r@.len() == hi - lo
                    &&& forall|j: int|
                        0 <= j < r@.len() ==> (#[trigger] r@[j]).0@ == c[lo + j].key && r@[j].1@
                            == c[lo + j].row
                }
                &&& lo > hi ==> r@.len() == 0
            }),
    {
        let ghost c = self.content();
        let ghost lo = seek_pos(c, start@);
        let ghost hi = seek_pos(c, end@);
        proof {
            self.lemma_content_sorted();
            crate::content::lemma_seek_pos(c, start@);
            crate::content::lemma_seek_pos(c, end@);
        }
        let p = self.seek(start);
        let mut r: Vec<(Something, Row)> = Vec::new();
        let mut j: usize = p;
        while j < self.index.len() && self.index[j].0.lt_canonical(end)
            invariant
                self.wf(),
                c == self.content(),
                lo == seek_pos(c, start@),
                hi == seek_pos(c, end@),
                lo <= j <= self.index@.len(),
                lo <= hi ==> j <= hi,
                lo > hi ==> j == lo && r@.len() == 0,
                r@.len() == j - lo,
                forall|t: int|
                    0 <= t < r@.len() ==> (#[trigger] r@[t]).0@ == c[lo + t].key
                        && r@[t].1@ == c[lo + t].row,
            decreases self.index@.len() - j,
        {
            proof {
                self.lemma_content_sorted();
                crate::content::lemma_seek_pos(c, start@);
                crate::content::lemma_seek_pos(c, end@);
                assert(c[j as int].key == self.index@[j as int].0@);
                assert(val_lt(c[j as int].key, end@));
                if j >= hi {
                    assert(hi < c.len());
                    assert(!val_lt(c[hi].key, end@));
                    if j > hi {
                        crate::value::lemma_val_order_transitive(
                            c[hi].key,
                            c[j as int].key,
                            end@,
                        );
                    }
                }
            }
            let key = self.index[j].0.clone();
            let id = self.index[j].1;
            match self.rows.get(id) {
                Some(sr) => {
                    r.push((key, sr.row.clone()));
                },
                None => {
                    proof {
                        assert(false);
                    }
                },
            }
            j = j + 1;
        }
        proof {
            if lo <= hi {
                if j < self.index@.len() {
                    assert(!val_lt(c[j as int].key, end@));
                    assert(j as int >= hi) by {
                        if (j as int) < hi {
                            assert(val_lt(c[j as int].key, end@));
                        }
                    }
                } else {
                    assert(j as int == self.index@.len());
                    assert(hi <= c.len());
                    assert(j as int >= hi);
                }
                assert(j as int == hi);
            }
        }
        r
    }

    /// All rows satisfying the caller's predicate, copied out in ascending
    /// key order. The predicate was called once on (a copy of) every row of
    /// the table, and the result holds exactly the rows it accepted, in
    /// table order: `keep` below records, row by row, what the predicate
    /// answered.
    pub fn rows_with<F: Fn(&Row) -> bool>(&self, f: F) -> (r: Vec<Row>)
        requires
            self.wf(),
            forall|row: &Row| #[trigger] call_requires(f, (row,)),
        ensures
            exists|keep: Seq<bool>|
                {
                    &&& keep.len() == self.content().len()
                    &&& rows_view(r@) == selected_rows(self.content(), keep)
                    &&& decisions_of(f, self.content(), keep)
                },
            forall|j: int|
                0 <= j < r@.len() ==> (exists|i: int|
                    0 <= i < self.content().len() && (#[trigger] r@[j])@ == self.content()[i].row)
                    && call_ensures(f, (&r@[j],), true),
    {
        let ghost c = self.content();
        let mut r: Vec<Row> = Vec::new();
        let mut p: usize = 0;
        let ghost mut keepg: Seq<bool> = Seq::<bool>::empty();
        proof {
            assert(c.subrange(0, 0) =~= Seq::<EntryView>::empty());
            assert(rows_view(r@) =~= Seq::<Seq<ValView>>::empty());
        }
        while p < self.index.len()
            invariant
                self.wf(),
                c == self.content(),
                0 <= p <= self.index@.len(),
                forall|row: &Row| #[trigger] call_requires(f, (row,)),
                keepg.len() == p as int,
                rows_view(r@) == selected_rows(c.subrange(0, p as int), keepg),
                decisions_of(f, c, keepg),
                forall|j: int|
                    0 <= j < r@.len() ==> (exists|i: int|
                        0 <= i < c.len() && (#[trigger] r@[j])@ == c[i].row) && call_ensures(
                        f,
                        (&r@[j],),
                        true,
                    ),
            decreases self.index@.len() - p,
        {
            let id = self.index[p].1;
            match self.rows.get(id) {
                Some(sr) => {
                    proof {
                        assert(sr.row@ == c[p as int].row);
                    }
                    let copy = sr.row.clone();
                    let ghost r0 = r@;
                    let ghost keep0 = keepg;
                    let b = f(&copy);
                    if b {
                        r.push(copy);
                        proof {
                            assert forall|j2: int| 0 <= j2 < r@.len() implies (exists|i: int|
                                0 <= i < c.len() && (#[trigger] r@[j2])@ == c[i].row)
                                && call_ensures(f, (&r@[j2],), true) by {
                                if j2 < r@.len() - 1 {
                                    assert(r@[j2] == r0[j2]);
                                } else {
                                    let pi = p as int;
                                    assert(0 <= pi < c.len() && (r@[j2])@ == c[pi].row);
                                }
                            }
                        }
                    }
                    proof {
                        keepg = keep0.push(b);
                        let sub1 = c.subrange(0, p + 1);
                        assert(sub1.len() == p + 1);
                        assert(sub1.drop_last() =~= c.subrange(0, p as int));
                        assert(keepg.drop_last() =~= keep0);
                        assert(sub1[p as int] == c[p as int]);
                        assert(keepg[p as int] == b);
                        assert(selected_rows(sub1, keepg) == {
                            let pre = selected_rows(sub1.drop_last(), keepg.drop_last());
                            if keepg[sub1.len() - 1] {
                                pre.push(sub1[sub1.len() - 1].row)
                            } else {
                                pre
                            }
                        });
                        if b {
                            assert(rows_view(r@) =~= rows_view(r0).push(c[p as int].row));
                        } else {
                            assert(rows_view(r@) == rows_view(r0));
                        }
                        assert(rows_view(r@) == selected_rows(sub1, keepg));
                        lemma_decisions_push(f, c, keep0, copy, b);
                    }
                },
                None => {
                    proof {
                        assert(false);
                    }
                },
            }
            p = p + 1;
        }
        proof {
            assert(c.subrange(0, c.len() as int) =~= c);
            assert({
                &&& keepg.len() == c.len()
                &&& rows_view(r@) == selected_rows(c, keepg)
                &&& decisions_of(f, c, keepg)
            });
        }
        r
    }
}

/// The abstract columns of a sequence of rows.
pub open spec fn rows_view(s: Seq<Row>) -> Seq<Seq<ValView>> {
    s.map_values(|r: Row| r@)
}

/// `keep` records, entry by entry, an answer the predicate gave on a row
/// carrying that entry's columns.
pub open spec fn decisions_of<F: Fn(&Row) -> bool>(
    f: F,
    c: Seq<EntryView>,
    keep: Seq<bool>,
) -> bool
    decreases keep.len(),
{
    if keep.len() == 0 {
        true
    } else {
        decisions_of(f, c, keep.drop_last()) && (exists|orig: Row|
            orig@ == c[keep.len() - 1].row && call_ensures(f, (&orig,), keep.last()))
    }
}

/// What the record says at one entry: some call of the predicate on a row
/// carrying that entry's columns returned `keep[i]`.
pub proof fn lemma_decisions_index<F: Fn(&Row) -> bool>(
    f: F,
    c: Seq<EntryView>,
    keep: Seq<bool>,
    i: int,
)
    requires
        decisions_of(f, c, keep),
        keep.len() <= c.len(),
        0 <= i < keep.len(),
    ensures
        exists|orig: Row| orig@ == c[i].row && call_ensures(f, (&orig,), #[trigger] keep[i]),
    decreases keep.len(),
{
    if i == keep.len() - 1 {
        let w = choose|orig: Row|
            orig@ == c[keep.len() - 1].row && call_ensures(f, (&orig,), keep.last());
        assert(w@ == c[i].row && call_ensures(f, (&w,), keep[i]));
    } else {
        lemma_decisions_index(f, c, keep.drop_last(), i);
        let w = choose|orig: Row|
            orig@ == c[i].row && call_ensures(f, (&orig,), keep.drop_last()[i]);
        assert(w@ == c[i].row && call_ensures(f, (&w,), keep[i]));
    }
}

/// Recording one more answer keeps the record sound.
proof fn lemma_decisions_push<F: Fn(&Row) -> bool>(
    f: F,
    c: Seq<EntryView>,
    keep: Seq<bool>,
    orig: Row,
    b: bool,
)
    requires
        decisions_of(f, c, keep),
        keep.len() < c.len(),
        orig@ == c[keep.len() as int].row,
        call_ensures(f, (&orig,), b),
    ensures
        decisions_of(f, c, keep.push(b)),
{
    let kp = keep.push(b);
    assert(kp.drop_last() =~= keep);
    assert(kp.last() == b);
    assert(orig@ == c[kp.len() - 1].row && call_ensures(f, (&orig,), kp.last()));
    assert(decisions_of(f, c, kp));
}

/// The rows of the entries marked `true`, kept in entry order — ascending
/// key order, since entries are sorted.
pub open spec fn selected_rows(c: Seq<EntryView>, keep: Seq<bool>) -> Seq<Seq<ValView>>
    recommends
        keep.len() == c.len(),
    decreases c.len(),
{
    if c.len() == 0 {
        Seq::<Seq<ValView>>::empty()
    } else {
        let pre = selected_rows(c.drop_last(), keep.drop_last());
        if keep[c.len() - 1] {
            pre.push(c[c.len() - 1].row)
        } else {
            pre
        }
    }
}

/// The listeners attached to the row stored under key `k`, or the empty
/// sequence when no row carries `k`.
pub open spec fn key_listeners(t: Table, k: ValView) -> Seq<ListenerId> {
    if exists|s: int|
        0 <= s < t.slots().len() && (#[trigger] t.slots()[s]) is Some && t.slots()[s]->Some_0.key
            == k {
        let s = choose|s: int|
            0 <= s < t.slots().len() && (#[trigger] t.slots()[s]) is Some
                && t.slots()[s]->Some_0.key == k;
        t.slots()[s]->Some_0.listeners
    } else {
        Seq::<ListenerId>::empty()
    }
}

/// In a well-formed table, at most one slot carries any given key.
pub proof fn lemma_key_slot_unique(t: Table, s1: int, s2: int)
    requires
        t.wf(),
        0 <= s1 < t.slots().len(),
        0 <= s2 < t.slots().len(),
        t.slots()[s1] is Some,
        t.slots()[s2] is Some,
        t.slots()[s1]->Some_0.key == t.slots()[s2]->Some_0.key,
    ensures
        s1 == s2,
{
    let i1 = choose|i: int| 0 <= i < t.index@.len() && (#[trigger] t.index@[i]).1 == s1;
    let i2 = choose|i: int| 0 <= i < t.index@.len() && (#[trigger] t.index@[i]).1 == s2;
    assert(0 <= i1 < t.index@.len() && t.index@[i1].1 == s1);
    assert(0 <= i2 < t.index@.len() && t.index@[i2].1 == s2);
    assert(t.content()[i1].key == t.index@[i1].0@);
    assert(t.content()[i2].key == t.index@[i2].0@);
    assert(t.content()[i1].key == t.slots()[s1]->Some_0.key);
    assert(t.content()[i2].key == t.slots()[s2]->Some_0.key);
    t.lemma_content_sorted();
    crate::value::lemma_val_order_trichotomy(t.content()[i1].key, t.content()[i2].key);
    if i1 != i2 {
        assert(val_lt(t.content()[i1].key, t.content()[i2].key) || val_lt(
            t.content()[i2].key,
            t.content()[i1].key,
        ));
    }
}

/// The listeners under a key are exactly the listeners of the slot that
/// carries it.
pub proof fn lemma_key_listeners(t: Table, id: int)
    requires
        t.wf(),
        0 <= id < t.slots().len(),
        t.slots()[id] is Some,
    ensures
        key_listeners(t, t.slots()[id]->Some_0.key) == t.slots()[id]->Some_0.listeners,
{
    let k = t.slots()[id]->Some_0.key;
    assert(exists|s: int|
        0 <= s < t.slots().len() && (#[trigger] t.slots()[s]) is Some && t.slots()[s]->Some_0.key
            == k);
    let s = choose|s: int|
        0 <= s < t.slots().len() && (#[trigger] t.slots()[s]) is Some && t.slots()[s]->Some_0.key
            == k;
    lemma_key_slot_unique(t, s, id);
}

/// A key outside the content has no row and hence no listeners.
pub proof fn lemma_key_listeners_absent(t: Table, k: ValView)
    requires
        t.wf(),
        !content_has(t.content(), k),
    ensures
        key_listeners(t, k) == Seq::<ListenerId>::empty(),
{
    t.lemma_content_sorted();
    crate::content::lemma_seek_pos_absent(t.content(), k);
    if exists|s: int|
        0 <= s < t.slots().len() && (#[trigger] t.slots()[s]) is Some && t.slots()[s]->Some_0.key
            == k {
        let s = choose|s: int|
            0 <= s < t.slots().len() && (#[trigger] t.slots()[s]) is Some
                && t.slots()[s]->Some_0.key == k;
        let i = choose|i: int| 0 <= i < t.index@.len() && (#[trigger] t.index@[i]).1 == s;
        assert(0 <= i < t.index@.len() && t.index@[i].1 == s);
        assert(t.content()[i].key == t.index@[i].0@);
        assert(t.content()[i].key == k);
    }
}

impl PartialEq for Table {
    /// Two tables are equal when they hold the same rows under the same
    /// keys; roles, logs, versions and listener state are transient
    /// bookkeeping and do not take part.
    fn eq(&self, other: &Self) -> (r: bool)
        ensures
            r == (self.content() == other.content()),
    {
        if self.index.len() != other.index.len() {
            proof {
                assert(self.content().len() == self.index@.len());
                assert(other.content().len() == other.index@.len());
            }
            return false;
        }
        let empty_row = Row::new();
        let mut p: usize = 0;
        while p < self.index.len()
            invariant
                empty_row@ == Seq::<ValView>::empty(),
                self.content().len() == other.content().len(),
                self.content().len() == self.index@.len(),
                0 <= p <= self.index@.len(),
                forall|k: int| 0 <= k < p ==> self.content()[k] == other.content()[k],
            decreases self.index@.len() - p,
        {
            if !self.index[p].0.eq(&other.index[p].0) {
                proof {
                    assert(self.content()[p as int].key == self.index@[p as int].0@);
                    assert(other.content()[p as int].key == other.index@[p as int].0@);
                }
                return false;
            }
            let ra: &Row = match self.rows.get(self.index[p].1) {
                Some(sr) => &sr.row,
                None => &empty_row,
            };
            let rb: &Row = match other.rows.get(other.index[p].1) {
                Some(sr) => &sr.row,
                None => &empty_row,
            };
            proof {
                assert(ra@ == self.content()[p as int].row);
                assert(rb@ == other.content()[p as int].row);
            }
            if !ra.eq(rb) {
                return false;
            }
            proof {
                assert(self.content()[p as int] == other.content()[p as int]);
            }
            p = p + 1;
        }
        proof {
            assert(self.content() =~= other.content());
        }
        true
    }
}

impl vstd::std_specs::cmp::PartialEqSpecImpl for Table {
    open spec fn obeys_eq_spec() -> bool {
        true
    }

    open spec fn eq_spec(&self, other: &Table) -> bool {
        self.content() == other.content()
    }
}

} // verus!
