//! The exclusion lock: a single reentrant mutual-exclusion primitive keyed
//! by worker identity, modelled as the linearized transitions on its lock
//! word.
//!
//! The lock word holds either the `UNLOCKED` sentinel or the holding
//! worker's id. A worker that already holds the lock re-acquires it without
//! blocking and without a balancing release; only the worker whose
//! compare-and-swap actually took the lock releases it. The guard flag on
//! the protected value rules out two live mutable views: re-entering the
//! data while a guard is live is a caller bug, excluded by precondition
//! here and checked loudly by the runtime wrapper around this model.
//!
//! Blocking is the caller's loop: an acquisition attempt that would block
//! returns `None`, and the embedding retries after parking (background
//! workers) or spinning (the coordinator, which must stay responsive).

use vstd::prelude::*;

verus! {

/// The lock word's value when nobody holds the lock.
const UNLOCKED: i32 = -1;

/// How an acquisition ended: freshly taken, or already held by the same
/// worker (the reentrant short-circuit, which no release balances).
#[derive(Debug, Clone, Copy, PartialEq, Eq, Structural)]
pub enum LockResult {
    AlreadyHeldByCurrentThread,
    AcquiredFromMe,
}

/// The lock word.
pub struct ThreadLock {
    lock_state: i32,
}

impl ThreadLock {
    /// The current holder's worker id, or `-1` when unlocked.
    pub closed spec fn state(&self) -> i32 {
        self.lock_state
    }

    /// Whether nobody holds the lock.
    pub open spec fn unlocked(&self) -> bool {
        self.state() == -1
    }

    /// A fresh, unlocked lock.
    pub fn new() -> (l: ThreadLock)
        ensures
            l.unlocked(),
    {
        ThreadLock { lock_state: UNLOCKED }
    }

    /// One acquisition attempt by `worker`: the reentrant short-circuit
    /// when the worker already holds the lock, a successful
    /// compare-and-swap when it is free, and `None` — nothing changed —
    /// when another worker holds it, in which case the caller waits and
    /// retries.
    pub fn lock(&mut self, worker: i32) -> (r: Option<LockResult>)
        requires
            worker >= 0,
        ensures
            old(self).state() == worker ==> r == Some(
                LockResult::AlreadyHeldByCurrentThread,
            ) && final(self).state() == worker,
            old(self).unlocked() ==> r == Some(LockResult::AcquiredFromMe) && final(self).state()
                == worker,
            old(self).state() != worker && !old(self).unlocked() ==> r is None && final(self).state() == old(self).state(),
    {
        if self.lock_state == worker {
            Some(LockResult::AlreadyHeldByCurrentThread)
        } else if self.lock_state == UNLOCKED {
            self.lock_state = worker;
            Some(LockResult::AcquiredFromMe)
        } else {
            None
        }
    }

    /// Releases the lock and leaves it free for the next waiter; only the
    /// worker that actually took the lock calls this.
    pub fn unlock(&mut self, worker: i32)
        requires
            old(self).state() == worker,
        ensures
            final(self).unlocked(),
    {
        self.lock_state = UNLOCKED;
    }

    /// A single non-blocking compare-and-swap: takes the lock exactly when
    /// it is free.
    pub fn try_lock(&mut self, worker: i32) -> (r: bool)
        requires
            worker >= 0,
        ensures
            r == old(self).unlocked(),
            r ==> final(self).state() == worker,
            !r ==> final(self).state() == old(self).state(),
    {
        if self.lock_state == UNLOCKED {
            self.lock_state = worker;
            true
        } else {
            false
        }
    }
}

/// Mutual exclusion at the word level: while one worker holds the lock, no
/// other worker's compare-and-swap can succeed, so the holder changes only
/// when the holder itself releases.
pub proof fn lemma_lock_mutual_exclusion(l: ThreadLock, w1: i32, w2: i32)
    requires
        l.state() == w1,
        w1 >= 0,
        w2 >= 0,
        w1 != w2,
    ensures
        !l.unlocked(),
        l.state() != w2,
{
}

/// The protected value behind the lock, together with the flag that tracks
/// whether a mutable view of it is live.
pub struct MyRwLock<T> {
    lock: ThreadLock,
    has_guard: bool,
    value: T,
}

impl<T> MyRwLock<T> {
    /// The lock word.
    pub closed spec fn lock_state(&self) -> i32 {
        self.lock.state()
    }

    /// Whether a mutable view of the value is live.
    pub closed spec fn guard_held(&self) -> bool {
        self.has_guard
    }

    /// The protected value.
    pub closed spec fn value_view(&self) -> T {
        self.value
    }

    /// Wraps a value; the lock starts free with no guard live.
    pub fn new(value: T) -> (m: MyRwLock<T>)
        ensures
            m.lock_state() == -1,
            !m.guard_held(),
            m.value_view() == value,
    {
        MyRwLock { lock: ThreadLock::new(), has_guard: false, value }
    }

    /// One attempt to take the write guard: acquires the lock (or
    /// re-enters it) and marks the guard live. Creating a second live
    /// guard is a caller bug — the reentrant case is admitted at the lock
    /// level but never at the guard level — so acquisition with a live
    /// guard is excluded here.
    pub fn write(&mut self, worker: i32) -> (r: Option<LockResult>)
        requires
            worker >= 0,
            old(self).lock_state() == -1 || old(self).lock_state() == worker ==> !old(self).guard_held(),
        ensures
            final(self).value_view() == old(self).value_view(),
            old(self).lock_state() == worker ==> r == Some(
                LockResult::AlreadyHeldByCurrentThread,
            ) && final(self).lock_state() == worker && final(self).guard_held(),
            old(self).lock_state() == -1 ==> r == Some(LockResult::AcquiredFromMe) && final(self).lock_state() == worker && final(self).guard_held(),
            old(self).lock_state() != worker && old(self).lock_state() != -1 ==> r is None
                && final(self).lock_state() == old(self).lock_state() && final(self).guard_held()
                == old(self).guard_held(),
    {
        match self.lock.lock(worker) {
            Some(res) => {
                self.has_guard = true;
                Some(res)
            },
            None => None,
        }
    }

    /// Drops the write guard: the guard flag clears on every path, and the
    /// lock is released exactly when this guard's acquisition took it —
    /// a reentrant acquisition leaves the outer hold in place.
    pub fn end_write(&mut self, worker: i32, res: LockResult)
        requires
            old(self).guard_held(),
            old(self).lock_state() == worker,
        ensures
            !final(self).guard_held(),
            final(self).value_view() == old(self).value_view(),
            res == LockResult::AcquiredFromMe ==> final(self).lock_state() == -1,
            res == LockResult::AlreadyHeldByCurrentThread ==> final(self).lock_state() == worker,
    {
        self.has_guard = false;
        if matches!(res, LockResult::AcquiredFromMe) {
            self.lock.unlock(worker);
        }
    }

    /// Reads the protected value through the live guard.
    pub fn value(&self) -> (r: &T)
        requires
            self.guard_held(),
        ensures
            *r == self.value_view(),
    {
        &self.value
    }

    /// Replaces the protected value through the live guard.
    pub fn set_value(&mut self, v: T)
        requires
            old(self).guard_held(),
        ensures
            final(self).value_view() == v,
            final(self).guard_held(),
            final(self).lock_state() == old(self).lock_state(),
    {
        self.value = v;
    }

    /// Unwraps the protected value once the lock is no longer shared.
    pub fn into_inner(self) -> (r: T)
        ensures
            r == self.value_view(),
    {
        self.value
    }
}

/// The state of the two-worker increment run: the lock word, the shared
/// cell, each worker's completed count, and the value a holding worker has
/// read and not yet written back.
#[verifier::ext_equal]
pub struct TwoWorkerState {
    pub lock: int,
    pub cell: int,
    pub done1: nat,
    pub done2: nat,
    pub hold1: Option<int>,
    pub hold2: Option<int>,
}

/// The run's starting state: lock free, cell zero, nothing done.
pub open spec fn two_worker_init() -> TwoWorkerState {
    TwoWorkerState { lock: -1, cell: 0, done1: 0, done2: 0, hold1: None, hold2: None }
}

/// One scheduled step of one worker: a worker still short of `n` cycles
/// acquires the free lock and reads the cell, or — already holding —
/// writes the incremented value back, releases, and counts the cycle; a
/// blocked or finished worker's step changes nothing.
pub open spec fn two_worker_step(s: TwoWorkerState, n: nat, worker_one: bool) -> TwoWorkerState {
    if worker_one {
        if s.done1 < n {
            match s.hold1 {
                None => if s.lock == -1 {
                    TwoWorkerState { lock: 1, hold1: Some(s.cell), ..s }
                } else {
                    s
                },
                Some(v) => TwoWorkerState {
                    lock: -1,
                    cell: v + 1,
                    done1: s.done1 + 1,
                    hold1: None,
                    ..s
                },
            }
        } else {
            s
        }
    } else {
        if s.done2 < n {
            match s.hold2 {
                None => if s.lock == -1 {
                    TwoWorkerState { lock: 2, hold2: Some(s.cell), ..s }
                } else {
                    s
                },
                Some(v) => TwoWorkerState {
                    lock: -1,
                    cell: v + 1,
                    done2: s.done2 + 1,
                    hold2: None,
                    ..s
                },
            }
        } else {
            s
        }
    }
}

/// The state after the first `i` scheduled steps.
pub open spec fn two_worker_run(n: nat, schedule: Seq<bool>, i: int) -> TwoWorkerState
    decreases i,
{
    if i <= 0 {
        two_worker_init()
    } else {
        two_worker_step(two_worker_run(n, schedule, i - 1), n, schedule[i - 1])
    }
}

/// Lock mutual exclusion, end to end: two workers each drive `n`
/// lock→read→increment→write→unlock cycles against one shared cell, under
/// an arbitrary interleaving given by `schedule` (`true` steps worker 1,
/// `false` steps worker 2; a blocked worker's step is a retry). The run is
/// exactly the fold of `two_worker_step` over the schedule: the total is
/// reported precisely when the schedule ran both workers to completion,
/// and it is then exactly the sum of both counts — no update is lost,
/// regardless of interleaving.
pub fn run_two_worker_increments(n: usize, schedule: &Vec<bool>) -> (r: Option<i64>)
    requires
        n <= 0x1000_0000_0000_0000,
    ensures
        ({
            let fin = two_worker_run(n as nat, schedule@, schedule@.len() as int);
            if fin.done1 == n && fin.done2 == n {
                r == Some(fin.cell as i64)
            } else {
                r is None
            }
        }),
        r is Some ==> r->Some_0 == 2 * (n as i64),
{
    let mut cell: MyRwLock<i64> = MyRwLock::new(0);
    let mut done1: usize = 0;
    let mut done2: usize = 0;
    let mut hold1: Option<(i64, LockResult)> = None;
    let mut hold2: Option<(i64, LockResult)> = None;
    let mut s: usize = 0;
    while s < schedule.len()
        invariant
            n <= 0x1000_0000_0000_0000,
            0 <= s <= schedule@.len(),
            done1 <= n,
            done2 <= n,
            cell.value_view() as int == done1 + done2,
            !cell.guard_held() ==> cell.lock_state() == -1,
            hold1 is None && hold2 is None ==> !cell.guard_held(),
            hold1 is Some ==> cell.guard_held() && cell.lock_state() == 1 && hold1->Some_0.0
                == cell.value_view() && done1 < n && hold1->Some_0.1
                == LockResult::AcquiredFromMe,
            hold2 is Some ==> cell.guard_held() && cell.lock_state() == 2 && hold2->Some_0.0
                == cell.value_view() && done2 < n && hold2->Some_0.1
                == LockResult::AcquiredFromMe,
            ({
                let st = two_worker_run(n as nat, schedule@, s as int);
                &&& st.lock == cell.lock_state() as int
                &&& st.cell == cell.value_view() as int
                &&& st.done1 == done1
                &&& st.done2 == done2
                &&& st.hold1 == match hold1 {
                    Some(p) => Some(p.0 as int),
                    None => None,
                }
                &&& st.hold2 == match hold2 {
                    Some(p) => Some(p.0 as int),
                    None => None,
                }
            }),
        decreases schedule@.len() - s,
    {
        let ghost st0 = two_worker_run(n as nat, schedule@, s as int);
        let worker_one = schedule[s];
        if worker_one {
            if done1 < n {
                match hold1 {
                    None => {
                        match cell.write(1) {
                            Some(res) => {
                                let v = *cell.value();
                                hold1 = Some((v, res));
                            },
                            None => {},
                        }
                    },
                    Some((v, res)) => {
                        cell.set_value(v + 1);
                        cell.end_write(1, res);
                        done1 = done1 + 1;
                        hold1 = None;
                    },
                }
            }
        } else {
            if done2 < n {
                match hold2 {
                    None => {
                        match cell.write(2) {
                            Some(res) => {
                                let v = *cell.value();
                                hold2 = Some((v, res));
                            },
                            None => {},
                        }
                    },
                    Some((v, res)) => {
                        cell.set_value(v + 1);
                        cell.end_write(2, res);
                        done2 = done2 + 1;
                        hold2 = None;
                    },
                }
            }
        }
        proof {
            assert(two_worker_run(n as nat, schedule@, s + 1) == two_worker_step(
                st0,
                n as nat,
                schedule@[s as int],
            ));
            assert(two_worker_run(n as nat, schedule@, s + 1) =~= two_worker_step(
                st0,
                n as nat,
                schedule@[s as int],
            ));
        }
        s = s + 1;
    }
    if done1 == n && done2 == n {
        Some(cell.into_inner())
    } else {
        None
    }
}

} // verus!
