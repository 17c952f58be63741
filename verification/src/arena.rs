//! The row arena: a slot array with free-list reuse.
//!
//! Every stored row gets a stable small-integer identity — its slot index —
//! independent of its key. Removal tombstones the slot and pushes the index
//! onto a free list; insertion reuses the most recently freed slot (LIFO)
//! before growing the array. A freed id may therefore be reassigned to an
//! unrelated row, but the reassigned slot holds exactly the new row and
//! nothing of the old one.

use vstd::prelude::*;

use crate::listener::not_this;
use crate::listener::ListenerId;
use crate::row::Row;
use crate::value::Something;
use crate::value::ValView;

verus! {

/// A row as the arena stores it: the column values, the key the row was
/// created under (kept so deletion can purge the key index), and the
/// row-level subscribers.
#[derive(Debug)]
pub struct StoredRow {
    pub row: Row,
    pub key: Something,
    pub listeners: Vec<ListenerId>,
}

/// The abstract content of a stored row.
#[verifier::ext_equal]
pub struct StoredRowView {
    pub row: Seq<ValView>,
    pub key: ValView,
    pub listeners: Seq<ListenerId>,
}

impl View for StoredRow {
    type V = StoredRowView;

    open spec fn view(&self) -> StoredRowView {
        StoredRowView { row: self.row@, key: self.key@, listeners: self.listeners@ }
    }
}

/// The abstract state of the arena: the slot array and the free list.
#[verifier::ext_equal]
pub struct ArenaView {
    pub slots: Seq<Option<StoredRowView>>,
    pub gaps: Seq<int>,
}

/// A well-formed arena: every free-list entry names a distinct, empty,
/// in-range slot.
pub open spec fn arena_wf(a: ArenaView) -> bool {
    &&& forall|i: int|
        0 <= i < a.gaps.len() ==> 0 <= #[trigger] a.gaps[i] < a.slots.len() && a.slots[a.gaps[i]]
            is None
    &&& forall|i: int, j: int| 0 <= i < j < a.gaps.len() ==> a.gaps[i] != a.gaps[j]
}

/// The slot that the next insertion will fill: the most recently freed one,
/// else a fresh slot at the end.
pub open spec fn arena_insert_id(a: ArenaView) -> int {
    if a.gaps.len() > 0 {
        a.gaps.last()
    } else {
        a.slots.len() as int
    }
}

/// The arena after inserting `sr`: the chosen slot filled, the free list
/// popped if one was reused.
pub open spec fn arena_after_insert(a: ArenaView, sr: StoredRowView) -> ArenaView {
    if a.gaps.len() > 0 {
        ArenaView { slots: a.slots.update(a.gaps.last(), Some(sr)), gaps: a.gaps.drop_last() }
    } else {
        ArenaView { slots: a.slots.push(Some(sr)), gaps: a.gaps }
    }
}

/// The arena after removing slot `id`: the slot tombstoned and pushed onto
/// the free list.
pub open spec fn arena_after_remove(a: ArenaView, id: int) -> ArenaView {
    ArenaView { slots: a.slots.update(id, None), gaps: a.gaps.push(id) }
}

/// Row arena reuse: deleting a row and then inserting a new one reassigns
/// the just-freed slot, and the slot then holds exactly the new row — none
/// of the deleted row's values or listeners survive.
pub proof fn lemma_arena_reuse(a: ArenaView, id: int, fresh: StoredRowView)
    requires
        arena_wf(a),
        0 <= id < a.slots.len(),
        a.slots[id] is Some,
    ensures
        arena_insert_id(arena_after_remove(a, id)) == id,
        arena_after_insert(arena_after_remove(a, id), fresh).slots[id] == Some(fresh),
        arena_wf(arena_after_insert(arena_after_remove(a, id), fresh)),
{
    let removed = arena_after_remove(a, id);
    assert(arena_wf(removed)) by {
        assert(forall|i: int|
            0 <= i < a.gaps.len() ==> #[trigger] removed.gaps[i] == a.gaps[i]);
    }
    lemma_arena_insert_wf(removed, fresh);
}

/// Inserting into a well-formed arena leaves it well-formed.
pub proof fn lemma_arena_insert_wf(a: ArenaView, sr: StoredRowView)
    requires
        arena_wf(a),
    ensures
        arena_wf(arena_after_insert(a, sr)),
        arena_after_insert(a, sr).slots[arena_insert_id(a)] == Some(sr),
        arena_after_insert(a, sr).slots.len() == if a.gaps.len() > 0 {
            a.slots.len() as int
        } else {
            a.slots.len() + 1 as int
        },
{
    let b = arena_after_insert(a, sr);
    if a.gaps.len() > 0 {
        assert(forall|i: int| 0 <= i < b.gaps.len() ==> #[trigger] b.gaps[i] == a.gaps[i]);
        assert forall|i: int|
            0 <= i < b.gaps.len() implies 0 <= #[trigger] b.gaps[i] < b.slots.len() && b.slots[b.gaps[i]] is None by {
            assert(a.gaps[i] != a.gaps.last());
        }
    }
}

/// Removing an occupied slot from a well-formed arena leaves it well-formed.
pub proof fn lemma_arena_remove_wf(a: ArenaView, id: int)
    requires
        arena_wf(a),
        0 <= id < a.slots.len(),
        a.slots[id] is Some,
    ensures
        arena_wf(arena_after_remove(a, id)),
{
    let b = arena_after_remove(a, id);
    assert forall|i: int|
        0 <= i < b.gaps.len() implies 0 <= #[trigger] b.gaps[i] < b.slots.len() && b.slots[b.gaps[i]] is None by {
        if i < a.gaps.len() {
            assert(a.slots[a.gaps[i]] is None);
        }
    }
    assert forall|i: int, j: int| 0 <= i < j < b.gaps.len() implies b.gaps[i] != b.gaps[j] by {
        if j == a.gaps.len() {
            assert(a.slots[a.gaps[i]] is None);
        }
    }
}

/// The slot arena with its free list.
#[derive(Debug)]
pub struct RowsCollection {
    slots: Vec<Option<StoredRow>>,
    gaps: Vec<usize>,
}

impl View for RowsCollection {
    type V = ArenaView;

    closed spec fn view(&self) -> ArenaView {
        ArenaView {
            slots: self.slots@.map_values(
                |o: Option<StoredRow>|
                    match o {
                        Some(sr) => Some(sr@),
                        None => None,
                    },
            ),
            gaps: self.gaps@.map_values(|g: usize| g as int),
        }
    }
}

impl RowsCollection {
    /// A fresh, empty arena.
    pub fn new() -> (r: Self)
        ensures
            r@.slots == Seq::<Option<StoredRowView>>::empty(),
            r@.gaps == Seq::<int>::empty(),
            arena_wf(r@),
    {
        let r = RowsCollection { slots: Vec::new(), gaps: Vec::new() };
        proof {
            assert(r@.slots =~= Seq::<Option<StoredRowView>>::empty());
            assert(r@.gaps =~= Seq::<int>::empty());
        }
        r
    }

    /// The number of slots, occupied or free.
    pub fn slot_count(&self) -> (n: usize)
        ensures
            n == self@.slots.len(),
    {
        self.slots.len()
    }

    /// Stores a row, reusing the most recently freed slot if one exists,
    /// and returns the row's id.
    pub fn insert(&mut self, sr: StoredRow) -> (id: usize)
        requires
            arena_wf(old(self)@),
        ensures
            arena_wf(final(self)@),
            id == arena_insert_id(old(self)@),
            final(self)@ == arena_after_insert(old(self)@, sr@),
    {
        proof {
            lemma_arena_insert_wf(self@, sr@);
        }
        match self.gaps.pop() {
            Some(id) => {
                proof {
                    assert(self@.gaps =~= old(self)@.gaps.drop_last());
                    assert(old(self)@.gaps.last() == id as int);
                }
                self.slots.set(id, Some(sr));
                proof {
                    assert(self@.slots =~= old(self)@.slots.update(id as int, Some(sr@)));
                }
                id
            },
            None => {
                let id = self.slots.len();
                self.slots.push(Some(sr));
                proof {
                    assert(self@.slots =~= old(self)@.slots.push(Some(sr@)));
                    assert(self@.gaps =~= old(self)@.gaps);
                    assert(old(self)@.gaps.len() == 0);
                }
                id
            },
        }
    }

    /// Looks a row up by id; out-of-range or freed ids yield `None`.
    pub fn get(&self, id: usize) -> (r: Option<&StoredRow>)
        ensures
            match r {
                Some(sr) => id < self@.slots.len() && self@.slots[id as int] == Some(sr@),
                None => id >= self@.slots.len() || self@.slots[id as int] is None,
            },
    {
        if id < self.slots.len() {
            match &self.slots[id] {
                Some(sr) => Some(sr),
                None => None,
            }
        } else {
            None
        }
    }

    /// Removes the row at `id`, tombstoning the slot and freeing the id for
    /// reuse; returns the removed row so the caller can drain its listeners.
    pub fn remove(&mut self, id: usize) -> (r: Option<StoredRow>)
        requires
            arena_wf(old(self)@),
        ensures
            arena_wf(final(self)@),
            match r {
                Some(sr) => {
                    &&& id < old(self)@.slots.len()
                    &&& old(self)@.slots[id as int] == Some(sr@)
                    &&& final(self)@ == arena_after_remove(old(self)@, id as int)
                },
                None => {
                    &&& (id >= old(self)@.slots.len() || old(self)@.slots[id as int] is None)
                    &&& final(self)@ == old(self)@
                },
            },
    {
        if id >= self.slots.len() {
            return None;
        }
        let mut taken: Option<StoredRow> = None;
        let slot = &mut self.slots[id];
        core::mem::swap(slot, &mut taken);
        match taken {
            Some(sr) => {
                proof {
                    lemma_arena_remove_wf(old(self)@, id as int);
                    assert(self@.slots =~= old(self)@.slots.update(id as int, None));
                }
                self.gaps.push(id);
                proof {
                    assert(self@.gaps =~= old(self)@.gaps.push(id as int));
                }
                Some(sr)
            },
            None => {
                proof {
                    assert(self@ =~= old(self)@);
                }
                None
            },
        }
    }

    /// Writes `value` at column `col` of the row in slot `id`.
    pub fn write_value(&mut self, id: usize, value: Something, col: usize)
        requires
            arena_wf(old(self)@),
            (id as int) < old(self)@.slots.len(),
            old(self)@.slots[id as int] is Some,
        ensures
            arena_wf(final(self)@),
            final(self)@.gaps == old(self)@.gaps,
            final(self)@.slots == old(self)@.slots.update(
                id as int,
                Some(
                    StoredRowView {
                        row: crate::row::row_write(
                            old(self)@.slots[id as int]->Some_0.row,
                            value@,
                            col as int,
                        ),
                        key: old(self)@.slots[id as int]->Some_0.key,
                        listeners: old(self)@.slots[id as int]->Some_0.listeners,
                    },
                ),
            ),
    {
        let slot = &mut self.slots[id];
        match slot {
            Some(sr) => {
                sr.row.insert_at(value, col);
            },
            None => {},
        }
        proof {
            assert(self@.slots =~= old(self)@.slots.update(
                id as int,
                Some(
                    StoredRowView {
                        row: crate::row::row_write(
                            old(self)@.slots[id as int]->Some_0.row,
                            value@,
                            col as int,
                        ),
                        key: old(self)@.slots[id as int]->Some_0.key,
                        listeners: old(self)@.slots[id as int]->Some_0.listeners,
                    },
                ),
            ));
            assert(self@.gaps =~= old(self)@.gaps);
            assert forall|i: int|
                0 <= i < self@.gaps.len() implies 0 <= #[trigger] self@.gaps[i]
                < self@.slots.len() && self@.slots[self@.gaps[i]] is None by {
                assert(old(self)@.slots[old(self)@.gaps[i]] is None);
            }
        }
    }

    /// Attaches a listener to the row in slot `id`.
    pub fn push_listener(&mut self, id: usize, l: ListenerId)
        requires
            arena_wf(old(self)@),
            (id as int) < old(self)@.slots.len(),
            old(self)@.slots[id as int] is Some,
        ensures
            arena_wf(final(self)@),
            final(self)@.gaps == old(self)@.gaps,
            final(self)@.slots == old(self)@.slots.update(
                id as int,
                Some(
                    StoredRowView {
                        row: old(self)@.slots[id as int]->Some_0.row,
                        key: old(self)@.slots[id as int]->Some_0.key,
                        listeners: old(self)@.slots[id as int]->Some_0.listeners.push(l),
                    },
                ),
            ),
    {
        let slot = &mut self.slots[id];
        match slot {
            Some(sr) => {
                sr.listeners.push(l);
            },
            None => {},
        }
        proof {
            assert(self@.slots =~= old(self)@.slots.update(
                id as int,
                Some(
                    StoredRowView {
                        row: old(self)@.slots[id as int]->Some_0.row,
                        key: old(self)@.slots[id as int]->Some_0.key,
                        listeners: old(self)@.slots[id as int]->Some_0.listeners.push(l),
                    },
                ),
            ));
            assert(self@.gaps =~= old(self)@.gaps);
            assert forall|i: int|
                0 <= i < self@.gaps.len() implies 0 <= #[trigger] self@.gaps[i]
                < self@.slots.len() && self@.slots[self@.gaps[i]] is None by {
                assert(old(self)@.slots[old(self)@.gaps[i]] is None);
            }
        }
    }

    /// Detaches a listener from the row in slot `id`; reports whether it
    /// was attached.
    pub fn remove_listener_from(&mut self, id: usize, l: ListenerId) -> (found: bool)
        requires
            arena_wf(old(self)@),
            (id as int) < old(self)@.slots.len(),
            old(self)@.slots[id as int] is Some,
        ensures
            arena_wf(final(self)@),
            final(self)@.gaps == old(self)@.gaps,
            found == old(self)@.slots[id as int]->Some_0.listeners.contains(l),
            final(self)@.slots == old(self)@.slots.update(
                id as int,
                Some(
                    StoredRowView {
                        row: old(self)@.slots[id as int]->Some_0.row,
                        key: old(self)@.slots[id as int]->Some_0.key,
                        listeners: old(self)@.slots[id as int]->Some_0.listeners.filter(
                            not_this(l),
                        ),
                    },
                ),
            ),
    {
        let ghost orig = old(self)@.slots[id as int]->Some_0.listeners;
        let mut found = false;
        let slot = &mut self.slots[id];
        match slot {
            Some(sr) => {
                let mut kept: Vec<ListenerId> = Vec::new();
                let mut i: usize = 0;
                proof {
                    reveal(Seq::filter);
                    assert(orig.subrange(0, 0) =~= Seq::<ListenerId>::empty());
                }
                while i < sr.listeners.len()
                    invariant
                        0 <= i <= sr.listeners.len(),
                        sr.listeners@ == orig,
                        kept@ == orig.subrange(0, i as int).filter(not_this(l)),
                        found == orig.subrange(0, i as int).contains(l),
                    decreases sr.listeners.len() - i,
                {
                    let x = sr.listeners[i];
                    proof {
                        reveal(Seq::filter);
                        let pre = orig.subrange(0, i as int);
                        let cur = orig.subrange(0, i + 1);
                        assert(cur.drop_last() =~= pre);
                        assert(cur.last() == orig[i as int]);
                        assert(cur.filter(not_this(l)) == if not_this(l)(cur.last()) {
                            pre.filter(not_this(l)).push(cur.last())
                        } else {
                            pre.filter(not_this(l))
                        });
                        if x == l {
                            assert(cur[i as int] == l);
                        } else {
                            if pre.contains(l) {
                                let w = choose|w: int| 0 <= w < pre.len() && pre[w] == l;
                                assert(cur[w] == l);
                            }
                            if cur.contains(l) {
                                let w = choose|w: int| 0 <= w < cur.len() && cur[w] == l;
                                assert(pre[w] == l);
                            }
                        }
                    }
                    if x.num == l.num && x.worker == l.worker {
                        found = true;
                    } else {
                        kept.push(x);
                    }
                    i = i + 1;
                }
                proof {
                    reveal(Seq::filter);
                    assert(orig.subrange(0, orig.len() as int) =~= orig);
                    assert(orig.subrange(0, 0) =~= Seq::<ListenerId>::empty());
                }
                sr.listeners = kept;
            },
            None => {},
        }
        proof {
            assert(self@.slots =~= old(self)@.slots.update(
                id as int,
                Some(
                    StoredRowView {
                        row: old(self)@.slots[id as int]->Some_0.row,
                        key: old(self)@.slots[id as int]->Some_0.key,
                        listeners: orig.filter(not_this(l)),
                    },
                ),
            ));
            assert(self@.gaps =~= old(self)@.gaps);
            assert forall|i: int|
                0 <= i < self@.gaps.len() implies 0 <= #[trigger] self@.gaps[i]
                < self@.slots.len() && self@.slots[self@.gaps[i]] is None by {
                assert(old(self)@.slots[old(self)@.gaps[i]] is None);
            }
        }
        found
    }

    /// The listeners attached to the row in slot `id`, copied out.
    pub fn listeners_of(&self, id: usize) -> (r: Vec<ListenerId>)
        requires
            (id as int) < self@.slots.len(),
            self@.slots[id as int] is Some,
        ensures
            r@ == self@.slots[id as int]->Some_0.listeners,
    {
        let mut r: Vec<ListenerId> = Vec::new();
        match &self.slots[id] {
            Some(sr) => {
                let mut i: usize = 0;
                while i < sr.listeners.len()
                    invariant
                        0 <= i <= sr.listeners.len(),
                        sr.listeners@ == self@.slots[id as int]->Some_0.listeners,
                        r@ == sr.listeners@.subrange(0, i as int),
                    decreases sr.listeners.len() - i,
                {
                    r.push(sr.listeners[i]);
                    proof {
                        assert(r@ =~= sr.listeners@.subrange(0, i + 1));
                    }
                    i = i + 1;
                }
                proof {
                    assert(sr.listeners@.subrange(0, sr.listeners@.len() as int)
                        =~= sr.listeners@);
                }
            },
            None => {},
        }
        r
    }
}

} // verus!
