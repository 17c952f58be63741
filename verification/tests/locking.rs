use any_store::lock::{run_two_worker_increments, LockResult, MyRwLock, ThreadLock};

#[test]
fn two_workers_lose_no_update() {
    // two workers, 10,000 lock→read-increment-write→unlock cycles each,
    // under an interleaving that hands the turn back and forth after every
    // critical section; every increment is observed and none is lost
    const N: usize = 10_000;
    let mut schedule: Vec<bool> = Vec::new();
    for i in 0..4 * N {
        schedule.push((i / 2) % 2 == 0);
    }
    let total = run_two_worker_increments(N, &schedule).expect("both workers must finish");
    assert_eq!(total, 2 * N as i64);
}

#[test]
fn ragged_interleavings_lose_no_update_either() {
    const N: usize = 1_000;
    let mut schedule: Vec<bool> = Vec::new();
    // an uneven, deterministic interleaving with long runs of each worker
    let mut x: u64 = 0x9e3779b97f4a7c15;
    for _ in 0..64 * N {
        x = x.wrapping_mul(6364136223846793005).wrapping_add(1442695040888963407);
        schedule.push(x & (1 << 17) != 0);
    }
    match run_two_worker_increments(N, &schedule) {
        Some(total) => assert_eq!(total, 2 * N as i64),
        // the schedule may starve one worker; then no total is reported,
        // and nothing is claimed
        None => {}
    }
}

#[test]
fn the_lock_is_exclusive_and_reentrant() {
    let mut lock = ThreadLock::new();
    assert!(lock.try_lock(1));
    // another worker cannot take a held lock
    assert!(!lock.try_lock(2));
    assert_eq!(lock.lock(2), None);
    // the holder re-enters without blocking
    assert_eq!(lock.lock(1), Some(LockResult::AlreadyHeldByCurrentThread));
    lock.unlock(1);
    assert!(lock.try_lock(2));
}

#[test]
fn the_guard_tracks_the_protected_value() {
    let mut cell: MyRwLock<i64> = MyRwLock::new(5);
    let res = cell.write(1).expect("the lock is free");
    assert_eq!(res, LockResult::AcquiredFromMe);
    let v = *cell.value();
    cell.set_value(v + 1);
    cell.end_write(1, res);
    // a second worker sees the update
    let res2 = cell.write(2).expect("the lock was released");
    let v2 = *cell.value();
    cell.end_write(2, res2);
    assert_eq!(v2, 6);
    assert_eq!(cell.into_inner(), 6);
}
