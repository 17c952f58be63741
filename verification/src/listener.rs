//! Listener identities: worker-scoped subscriptions on rows.
//!
//! A listener is only ever visible to, and drainable by, the worker that
//! created it. The sequence number is allocated globally per database and
//! grows monotonically; the worker id is stamped at creation time.

use vstd::prelude::*;

verus! {

/// The identity of a row-level subscription: a globally allocated sequence
/// number and the id of the worker that owns it.
#[derive(Debug, Clone, Copy, PartialEq, Eq, Structural)]
pub struct ListenerId {
    pub num: u64,
    pub worker: i32,
}

/// The listeners other than `l`: what remains after detaching `l`.
pub open spec fn not_this(l: ListenerId) -> spec_fn(ListenerId) -> bool {
    |x: ListenerId| x != l
}

/// The pending-queue entries owned by worker `w`.
pub open spec fn owned_by(w: i32) -> spec_fn(ListenerId) -> bool {
    |l: ListenerId| l.worker == w
}

/// The pending-queue entries not owned by worker `w`.
pub open spec fn not_owned_by(w: i32) -> spec_fn(ListenerId) -> bool {
    |l: ListenerId| l.worker != w
}

/// Notification scoping: the entries one worker drains and the entries any
/// other worker drains from the same queue have no listener in common.
pub proof fn lemma_drains_are_disjoint(q: Seq<ListenerId>, w1: i32, w2: i32)
    requires
        w1 != w2,
    ensures
        forall|l: ListenerId|
            q.filter(owned_by(w1)).contains(l) ==> !q.filter(owned_by(w2)).contains(l),
{
    assert forall|l: ListenerId|
        q.filter(owned_by(w1)).contains(l) implies !q.filter(owned_by(w2)).contains(l) by {
        let i = choose|i: int|
            0 <= i < q.filter(owned_by(w1)).len() && q.filter(owned_by(w1))[i] == l;
        q.lemma_filter_pred(owned_by(w1), i);
        if q.filter(owned_by(w2)).contains(l) {
            let j = choose|j: int|
                0 <= j < q.filter(owned_by(w2)).len() && q.filter(owned_by(w2))[j] == l;
            q.lemma_filter_pred(owned_by(w2), j);
        }
    }
}

} // verus!
