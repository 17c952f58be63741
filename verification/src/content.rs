//! The abstract content of a table: its key→row mapping.
//!
//! Content is modelled as a sequence of entries sorted strictly by key under
//! the canonical value order, so that equal mappings have equal sequences
//! and a deterministic content hash. Replaying an operation log is a fold of
//! single-operation transforms over this model.

use vstd::prelude::*;

use crate::row::row_write;
use crate::value::spec_mix64;
use crate::value::val_hash;
use crate::value::val_lt;
use crate::value::ValView;

verus! {

/// One table entry: a key and the row stored under it.
#[verifier::ext_equal]
pub struct EntryView {
    pub key: ValView,
    pub row: Seq<ValView>,
}

/// Entries are sorted strictly ascending by key: each key occurs once.
pub open spec fn content_sorted(c: Seq<EntryView>) -> bool {
    forall|i: int, j: int| 0 <= i < j < c.len() ==> val_lt(#[trigger] c[i].key, #[trigger] c[j].key)
}

/// The position where `k` sits, or would be inserted: the first entry whose
/// key does not order before `k`.
pub open spec fn seek_pos(c: Seq<EntryView>, k: ValView) -> int
    decreases c.len(),
{
    if c.len() == 0 {
        0
    } else if val_lt(c[0].key, k) {
        1 + seek_pos(c.drop_first(), k)
    } else {
        0
    }
}

/// `seek_pos` splits the entries into those ordering strictly before `k`
/// and the rest.
pub proof fn lemma_seek_pos(c: Seq<EntryView>, k: ValView)
    ensures
        0 <= seek_pos(c, k) <= c.len(),
        forall|i: int| 0 <= i < seek_pos(c, k) ==> val_lt(#[trigger] c[i].key, k),
        seek_pos(c, k) < c.len() ==> !val_lt(c[seek_pos(c, k)].key, k),
    decreases c.len(),
{
    if c.len() > 0 && val_lt(c[0].key, k) {
        let cd = c.drop_first();
        lemma_seek_pos(cd, k);
        assert forall|i: int| 0 <= i < seek_pos(c, k) implies val_lt(
            #[trigger] c[i].key,
            k,
        ) by {
            if i > 0 {
                assert(cd[i - 1] == c[i]);
                assert(val_lt(cd[i - 1].key, k));
            }
        }
        if seek_pos(c, k) < c.len() {
            assert(cd[seek_pos(cd, k)] == c[seek_pos(c, k)]);
        }
    }
}

/// Whether `k` is present: `seek_pos` lands on an entry carrying `k` itself.
pub open spec fn content_has(c: Seq<EntryView>, k: ValView) -> bool {
    seek_pos(c, k) < c.len() && c[seek_pos(c, k)].key == k
}

/// The row stored under `k`, if any.
pub open spec fn content_get(c: Seq<EntryView>, k: ValView) -> Option<Seq<ValView>> {
    if content_has(c, k) {
        Some(c[seek_pos(c, k)].row)
    } else {
        None
    }
}

/// The content after writing `v` at column `col` of the row keyed `k`,
/// creating the row if the key is absent.
pub open spec fn content_write(c: Seq<EntryView>, k: ValView, v: ValView, col: int) -> Seq<
    EntryView,
> {
    let p = seek_pos(c, k);
    if content_has(c, k) {
        c.update(p, EntryView { key: k, row: row_write(c[p].row, v, col) })
    } else {
        c.subrange(0, p) + seq![
            EntryView { key: k, row: row_write(Seq::<ValView>::empty(), v, col) },
        ] + c.subrange(p, c.len() as int)
    }
}

/// The content after removing the row keyed `k`, if present.
pub open spec fn content_remove(c: Seq<EntryView>, k: ValView) -> Seq<EntryView> {
    let p = seek_pos(c, k);
    if content_has(c, k) {
        c.subrange(0, p) + c.subrange(p + 1, c.len() as int)
    } else {
        c
    }
}

/// Any position that splits sorted content into strictly-before and
/// not-before is `seek_pos`.
pub proof fn lemma_seek_pos_unique(c: Seq<EntryView>, k: ValView, p: int)
    requires
        0 <= p <= c.len(),
        forall|i: int| 0 <= i < p ==> val_lt(#[trigger] c[i].key, k),
        p < c.len() ==> !val_lt(c[p].key, k),
    ensures
        seek_pos(c, k) == p,
{
    lemma_seek_pos(c, k);
    let q = seek_pos(c, k);
    if q < p {
        assert(val_lt(c[q].key, k));
    }
    if p < q {
        assert(val_lt(c[p].key, k));
    }
}

/// In sorted content, any entry carrying `k` sits exactly at `seek_pos`.
pub proof fn lemma_seek_pos_finds(c: Seq<EntryView>, k: ValView, p: int)
    requires
        content_sorted(c),
        0 <= p < c.len(),
        c[p].key == k,
    ensures
        seek_pos(c, k) == p,
        content_has(c, k),
{
    lemma_seek_pos(c, k);
    let q = seek_pos(c, k);
    crate::value::lemma_val_order_trichotomy(c[p].key, k);
    if q < p {
        assert(val_lt(c[q].key, c[p].key));
        assert(!val_lt(c[q].key, k));
    }
    if q > p {
        assert(val_lt(c[p].key, k));
    }
}

/// In sorted content without `k`, no entry carries `k`.
pub proof fn lemma_seek_pos_absent(c: Seq<EntryView>, k: ValView)
    requires
        content_sorted(c),
        !content_has(c, k),
    ensures
        forall|i: int| 0 <= i < c.len() ==> #[trigger] c[i].key != k,
{
    lemma_seek_pos(c, k);
    let q = seek_pos(c, k);
    assert forall|i: int| 0 <= i < c.len() implies #[trigger] c[i].key != k by {
        crate::value::lemma_val_order_trichotomy(c[i].key, k);
        if i < q {
        } else if i == q {
        } else {
            assert(val_lt(c[q].key, c[i].key));
            assert(!val_lt(c[q].key, k));
            crate::value::lemma_val_order_trichotomy(c[q].key, k);
            if c[q].key == k {
            } else {
                assert(val_lt(k, c[q].key));
                if c[i].key == k {
                    crate::value::lemma_val_order_transitive(k, c[q].key, c[i].key);
                }
            }
        }
    }
}

/// Writing keeps the content sorted; the written key then carries the
/// written row, and every other key reads as before.
pub proof fn lemma_content_write_sorted(c: Seq<EntryView>, k: ValView, v: ValView, col: int)
    requires
        content_sorted(c),
        col >= 0,
    ensures
        content_sorted(content_write(c, k, v, col)),
        content_has(content_write(c, k, v, col), k),
        content_get(content_write(c, k, v, col), k) == Some(
            row_write(
                match content_get(c, k) {
                    Some(r) => r,
                    None => Seq::<ValView>::empty(),
                },
                v,
                col,
            ),
        ),
        forall|k2: ValView|
            k2 != k ==> #[trigger] content_get(content_write(c, k, v, col), k2) == content_get(
                c,
                k2,
            ),
{
    lemma_seek_pos(c, k);
    let p = seek_pos(c, k);
    let w = content_write(c, k, v, col);
    if content_has(c, k) {
        assert(forall|i: int| 0 <= i < w.len() ==> #[trigger] w[i].key == c[i].key);
        assert(content_sorted(w));
        lemma_seek_pos_finds(w, k, p);
        assert forall|k2: ValView| k2 != k implies #[trigger] content_get(w, k2) == content_get(
            c,
            k2,
        ) by {
            if content_has(c, k2) {
                let p2 = seek_pos(c, k2);
                lemma_seek_pos(c, k2);
                assert(w[p2] == c[p2]);
                lemma_seek_pos_finds(w, k2, p2);
            } else {
                lemma_seek_pos_absent(c, k2);
                if content_has(w, k2) {
                    let q = seek_pos(w, k2);
                    lemma_seek_pos(w, k2);
                    assert(c[q].key != k2);
                }
            }
        }
    } else {
        let e = EntryView { key: k, row: row_write(Seq::<ValView>::empty(), v, col) };
        assert(forall|i: int| 0 <= i < p ==> #[trigger] w[i] == c[i]);
        assert(w[p] == e);
        assert(forall|j: int| p < j < w.len() ==> #[trigger] w[j] == c[j - 1]);
        crate::value::lemma_val_order_trichotomy(k, k);
        assert forall|i: int, j: int| 0 <= i < j < w.len() implies val_lt(
            #[trigger] w[i].key,
            #[trigger] w[j].key,
        ) by {
            if p < c.len() {
                crate::value::lemma_val_order_trichotomy(c[p].key, k);
            }
            if i < p && j == p {
            } else if i < p && j > p {
                if j - 1 == p {
                    assert(val_lt(w[i].key, k));
                    assert(val_lt(k, c[p].key));
                    crate::value::lemma_val_order_transitive(w[i].key, k, c[p].key);
                } else {
                    assert(val_lt(c[i].key, c[j - 1].key));
                }
            } else if i == p && j > p {
                if j - 1 == p {
                    assert(val_lt(k, c[p].key));
                } else {
                    assert(val_lt(k, c[p].key));
                    assert(val_lt(c[p].key, c[j - 1].key));
                    crate::value::lemma_val_order_transitive(k, c[p].key, c[j - 1].key);
                }
            }
        }
        lemma_seek_pos_finds(w, k, p);
        assert forall|k2: ValView| k2 != k implies #[trigger] content_get(w, k2) == content_get(
            c,
            k2,
        ) by {
            if content_has(c, k2) {
                let p2 = seek_pos(c, k2);
                lemma_seek_pos(c, k2);
                if p2 < p {
                    assert(w[p2] == c[p2]);
                    lemma_seek_pos_finds(w, k2, p2);
                } else {
                    assert(w[p2 + 1] == c[p2]);
                    lemma_seek_pos_finds(w, k2, p2 + 1);
                }
            } else {
                lemma_seek_pos_absent(c, k2);
                if content_has(w, k2) {
                    let q = seek_pos(w, k2);
                    lemma_seek_pos(w, k2);
                    if q < p {
                        assert(c[q].key == k2);
                    } else if q == p {
                    } else {
                        assert(c[q - 1].key == k2);
                    }
                }
            }
        }
    }
}

/// Removing keeps the content sorted; the removed key then reads absent,
/// and every other key reads as before.
pub proof fn lemma_content_remove_sorted(c: Seq<EntryView>, k: ValView)
    requires
        content_sorted(c),
    ensures
        content_sorted(content_remove(c, k)),
        !content_has(content_remove(c, k), k),
        forall|k2: ValView|
            k2 != k ==> #[trigger] content_get(content_remove(c, k), k2) == content_get(c, k2),
{
    lemma_seek_pos(c, k);
    let p = seek_pos(c, k);
    let w = content_remove(c, k);
    if content_has(c, k) {
        assert(forall|i: int|
            0 <= i < w.len() ==> #[trigger] w[i] == if i < p {
                c[i]
            } else {
                c[i + 1]
            });
        assert(content_sorted(w));
        if content_has(w, k) {
            let q = seek_pos(w, k);
            lemma_seek_pos(w, k);
            let orig = if q < p {
                q
            } else {
                q + 1
            };
            assert(c[orig].key == k);
            lemma_seek_pos_finds(c, k, orig);
        }
        assert forall|k2: ValView| k2 != k implies #[trigger] content_get(w, k2) == content_get(
            c,
            k2,
        ) by {
            if content_has(c, k2) {
                let p2 = seek_pos(c, k2);
                lemma_seek_pos(c, k2);
                if p2 < p {
                    assert(w[p2] == c[p2]);
                    lemma_seek_pos_finds(w, k2, p2);
                } else {
                    assert(w[p2 - 1] == c[p2]);
                    lemma_seek_pos_finds(w, k2, p2 - 1);
                }
            } else {
                lemma_seek_pos_absent(c, k2);
                if content_has(w, k2) {
                    let q = seek_pos(w, k2);
                    lemma_seek_pos(w, k2);
                    if q < p {
                        assert(c[q].key == k2);
                    } else {
                        assert(c[q + 1].key == k2);
                    }
                }
            }
        }
    }
}

/// One logged mutation, in the abstract: the key it touches, what it
/// writes, and the version stamped on it.
pub enum OpView {
    Insert { key: ValView, value: ValView, col: nat, version: u64 },
    Remove { key: ValView, version: u64 },
}

/// The version stamped on an operation.
pub open spec fn op_version(op: OpView) -> u64 {
    match op {
        OpView::Insert { version, .. } => version,
        OpView::Remove { version, .. } => version,
    }
}

/// What one operation does to the content.
pub open spec fn apply_op(c: Seq<EntryView>, op: OpView) -> Seq<EntryView> {
    match op {
        OpView::Insert { key, value, col, .. } => content_write(c, key, value, col as int),
        OpView::Remove { key, .. } => content_remove(c, key),
    }
}

/// What a whole log does to the content: a fold of `apply_op`, oldest
/// operation first.
pub open spec fn replay(ops: Seq<OpView>, c: Seq<EntryView>) -> Seq<EntryView>
    decreases ops.len(),
{
    if ops.len() == 0 {
        c
    } else {
        replay(ops.drop_first(), apply_op(c, ops[0]))
    }
}

/// Appending an operation to the log and replaying equals replaying and
/// then applying the operation.
pub proof fn lemma_replay_push(ops: Seq<OpView>, c: Seq<EntryView>, op: OpView)
    ensures
        replay(ops.push(op), c) == apply_op(replay(ops, c), op),
    decreases ops.len(),
{
    if ops.len() == 0 {
        assert(ops.push(op)[0] == op);
        assert(ops.push(op).drop_first() =~= Seq::<OpView>::empty());
        assert(replay(ops.push(op), c) == replay(Seq::<OpView>::empty(), apply_op(c, op)));
        assert(replay(Seq::<OpView>::empty(), apply_op(c, op)) == apply_op(c, op));
        assert(replay(ops, c) == c);
    } else {
        assert(ops.push(op)[0] == ops[0]);
        assert(ops.push(op).drop_first() =~= ops.drop_first().push(op));
        assert(replay(ops.push(op), c) == replay(
            ops.drop_first().push(op),
            apply_op(c, ops[0]),
        ));
        lemma_replay_push(ops.drop_first(), apply_op(c, ops[0]), op);
        assert(replay(ops, c) == replay(ops.drop_first(), apply_op(c, ops[0])));
    }
}

/// Replaying any log keeps the content sorted.
pub proof fn lemma_replay_sorted(ops: Seq<OpView>, c: Seq<EntryView>)
    requires
        content_sorted(c),
    ensures
        content_sorted(replay(ops, c)),
    decreases ops.len(),
{
    if ops.len() > 0 {
        match ops[0] {
            OpView::Insert { key, value, col, .. } => {
                lemma_content_write_sorted(c, key, value, col as int);
            },
            OpView::Remove { key, .. } => {
                lemma_content_remove_sorted(c, key);
            },
        }
        lemma_replay_sorted(ops.drop_first(), apply_op(c, ops[0]));
    }
}

/// A log whose versions run consecutively from `from + 1` upward.
pub open spec fn versions_ok(ops: Seq<OpView>, from: u64) -> bool {
    forall|i: int|
        0 <= i < ops.len() ==> op_version(#[trigger] ops[i]) as int == from as int + i + 1
}

/// Folds a row's columns into the running hash.
pub open spec fn row_hash(h: u64, r: Seq<ValView>) -> u64
    decreases r.len(),
{
    if r.len() == 0 {
        h
    } else {
        row_hash(spec_mix64(h, val_hash(r[0])), r.drop_first())
    }
}

/// Folds one entry into the running hash: the key, the column count, then
/// every column value.
pub open spec fn entry_hash(h: u64, e: EntryView) -> u64 {
    row_hash(spec_mix64(spec_mix64(h, val_hash(e.key)), e.row.len() as u64), e.row)
}

/// Folds whole content into the running hash, first entry first.
pub open spec fn content_hash_from(h: u64, c: Seq<EntryView>) -> u64
    decreases c.len(),
{
    if c.len() == 0 {
        h
    } else {
        content_hash_from(entry_hash(h, c[0]), c.drop_first())
    }
}

/// The deterministic content hash of a table: a pure function of the sorted
/// key→row entries, so tables with equal content always hash alike.
pub open spec fn content_hash(c: Seq<EntryView>) -> u64 {
    content_hash_from(crate::value::FNV_SEED, c)
}

/// Creating a row (a logged `Null` write at column 0) and then writing the
/// real value leaves the same content as writing the value directly.
pub proof fn lemma_create_then_write(c: Seq<EntryView>, k: ValView, v: ValView, col: int)
    requires
        content_sorted(c),
        col >= 0,
        !content_has(c, k),
    ensures
        content_write(content_write(c, k, ValView::Null, 0), k, v, col) == content_write(
            c,
            k,
            v,
            col,
        ),
{
    lemma_seek_pos(c, k);
    let p = seek_pos(c, k);
    lemma_content_write_sorted(c, k, ValView::Null, 0);
    let e0 = EntryView { key: k, row: row_write(Seq::<ValView>::empty(), ValView::Null, 0) };
    let c1 = content_write(c, k, ValView::Null, 0);
    assert(forall|i: int| 0 <= i < p ==> #[trigger] c1[i] == c[i]);
    assert(c1[p] == e0);
    assert(forall|j: int| p < j < c1.len() ==> #[trigger] c1[j] == c[j - 1]);
    lemma_seek_pos_finds(c1, k, p);
    let lhs = content_write(c1, k, v, col);
    let rhs = content_write(c, k, v, col);
    assert(row_write(e0.row, v, col) =~= row_write(Seq::<ValView>::empty(), v, col));
    assert(lhs.len() == rhs.len());
    assert forall|j: int| 0 <= j < lhs.len() implies lhs[j] == rhs[j] by {
        if j < p {
            assert(lhs[j] == c1[j]);
            assert(rhs[j] == c[j]);
        } else if j == p {
            assert(lhs[j] == EntryView { key: k, row: row_write(e0.row, v, col) });
            assert(rhs[j] == EntryView {
                key: k,
                row: row_write(Seq::<ValView>::empty(), v, col),
            });
        } else {
            assert(lhs[j] == c1[j]);
            assert(c1[j] == c[j - 1]);
            assert(rhs[j] == c[j - 1]);
        }
    }
    assert(lhs =~= rhs);
}

} // verus!
