use rustybuffer::{RBEntry, RBError, RustyBuffers};

fn configured(max_total: usize, max_buffer: usize) -> RustyBuffers {
    let mut p = RustyBuffers::new();
    assert_eq!(p.configure(max_total, max_buffer), Ok(()));
    p
}

fn check_budget(p: &RustyBuffers) {
    assert!(p.bytes_in_use() <= p.bytes_allocated());
    assert!(p.bytes_allocated() <= p.max_total_size());
}

#[test]
fn new_pool_has_default_ceilings() {
    let p = RustyBuffers::new();
    assert_eq!(p.max_total_size(), 1024 * 1024 * 1024);
    assert_eq!(p.max_buffer_size(), 10 * 1024 * 1024);
    assert_eq!(p.bytes_allocated(), 0);
    assert_eq!(p.bytes_in_use(), 0);
    assert!(p.free_index().is_empty());
}

#[test]
fn entry_is_zero_filled() {
    let e = RBEntry::new(7);
    assert_eq!(e.data, vec![0u8; 7]);
}

#[test]
fn configure_replaces_both_ceilings() {
    let mut p = RustyBuffers::new();
    let a = p.acquire(64).unwrap();
    assert_eq!(p.configure(500, 50), Ok(()));
    assert_eq!(p.max_total_size(), 500);
    assert_eq!(p.max_buffer_size(), 50);
    // existing buffers are untouched
    assert!(p.is_checked_out(a));
    assert_eq!(p.contents(a).unwrap().len(), 64);
    assert_eq!(p.acquire(64), Err(RBError::SizeTooBig));
}

#[test]
fn scenario_reuse_after_release() {
    let mut p = configured(1024, 100);
    let a = p.acquire(50).unwrap();
    assert_eq!((p.bytes_allocated(), p.bytes_in_use()), (50, 50));
    let b = p.acquire(40).unwrap();
    assert_ne!(a, b);
    assert_eq!((p.bytes_allocated(), p.bytes_in_use()), (90, 90));
    assert_eq!(p.release(a), Ok(()));
    assert_eq!(p.bytes_in_use(), 40);
    let c = p.acquire(45).unwrap();
    assert_eq!(c, a);
    // bytes in use count the whole capacity of the reused buffer: 40 + 50
    assert_eq!((p.bytes_allocated(), p.bytes_in_use()), (90, 90));
    assert_eq!(p.contents(c).unwrap().len(), 50);
}

#[test]
fn scenario_no_buffer_available() {
    let mut p = configured(100, 100);
    let a = p.acquire(60).unwrap();
    assert_eq!(p.acquire(60), Err(RBError::NoBufferAvailable));
    assert_eq!((p.bytes_allocated(), p.bytes_in_use()), (60, 60));
    assert!(p.is_checked_out(a));
    assert!(p.free_index().is_empty());
}

#[test]
fn scenario_eviction_alternates_largest_and_smallest() {
    let mut p = configured(1000, 100);
    for _ in 0..8 {
        p.acquire(100).unwrap();
    }
    p.acquire(85).unwrap();
    let mut small = Vec::new();
    for s in [5usize, 10, 15, 20, 25, 30] {
        small.push((s, p.acquire(s).unwrap()));
    }
    assert_eq!(p.bytes_allocated(), 990);
    for i in [5usize, 0, 3, 1, 4, 2] {
        assert_eq!(p.release(small[i].1), Ok(()));
    }
    assert_eq!(p.free_index(), small);
    assert_eq!(p.bytes_in_use(), 885);
    // 90 bytes must go: 30, then 5, then 25, then 10, then 20 (90 freed).
    let fresh = p.acquire(100).unwrap();
    assert!(small.iter().all(|&(_, id)| id != fresh));
    assert_eq!(p.free_index(), vec![(15, small[2].1)]);
    assert_eq!(p.bytes_allocated(), 990 - 90 + 100);
    assert_eq!(p.bytes_in_use(), 985);
    check_budget(&p);
}

#[test]
fn eviction_continues_with_the_smallest() {
    let mut p = configured(300, 100);
    let _a = p.acquire(100).unwrap();
    let b = p.acquire(60).unwrap();
    let c = p.acquire(40).unwrap();
    let _d = p.acquire(90).unwrap();
    assert_eq!(p.release(b), Ok(()));
    assert_eq!(p.release(c), Ok(()));
    assert_eq!(p.free_index(), vec![(40, c), (60, b)]);
    // 290 allocated; 100 more needs 90 freed: the 60, then the 40.
    let e = p.acquire(100).unwrap();
    assert!(p.free_index().is_empty());
    assert_eq!(p.bytes_allocated(), 290);
    assert_eq!(p.bytes_in_use(), 290);
    assert_eq!(p.release(e), Ok(()));
    assert_eq!(p.acquire(20), Ok(e));
    check_budget(&p);
}

#[test]
fn eviction_takes_only_the_largest_when_enough() {
    let mut p = configured(300, 100);
    let _a = p.acquire(100).unwrap();
    let b = p.acquire(90).unwrap();
    let c = p.acquire(10).unwrap();
    let _d = p.acquire(95).unwrap();
    assert_eq!(p.release(b), Ok(()));
    assert_eq!(p.release(c), Ok(()));
    // 295 allocated; 95 more needs 90 freed: the 90 alone.
    let e = p.acquire(95).unwrap();
    assert_ne!(e, b);
    assert_eq!(p.free_index(), vec![(10, c)]);
    assert_eq!(p.bytes_allocated(), 300);
    assert_eq!(p.bytes_in_use(), 290);
    check_budget(&p);
}

#[test]
fn size_too_big_changes_nothing() {
    let mut p = configured(1000, 100);
    let a = p.acquire(100).unwrap();
    assert_eq!(p.release(a), Ok(()));
    assert_eq!(p.acquire(101), Err(RBError::SizeTooBig));
    assert_eq!((p.bytes_allocated(), p.bytes_in_use()), (100, 0));
    assert_eq!(p.free_index(), vec![(100, a)]);
}

#[test]
fn release_of_unknown_or_free_handle_is_invalid() {
    let mut p = configured(1000, 100);
    assert_eq!(p.release(12345), Err(RBError::InvalidPointer));
    let a = p.acquire(10).unwrap();
    assert_eq!(p.release(a), Ok(()));
    assert_eq!(p.release(a), Err(RBError::InvalidPointer));
    assert_eq!((p.bytes_allocated(), p.bytes_in_use()), (10, 0));
    assert_eq!(p.free_index(), vec![(10, a)]);
}

#[test]
fn reuse_prefers_smallest_fit_then_lowest_handle() {
    let mut p = configured(1000, 100);
    let big = p.acquire(80).unwrap();
    let mid1 = p.acquire(40).unwrap();
    let mid2 = p.acquire(40).unwrap();
    let tiny = p.acquire(10).unwrap();
    for id in [big, mid2, tiny, mid1] {
        assert_eq!(p.release(id), Ok(()));
    }
    let lower = mid1.min(mid2);
    let higher = mid1.max(mid2);
    assert_eq!(p.acquire(30), Ok(lower));
    assert_eq!(p.acquire(30), Ok(higher));
    assert_eq!(p.acquire(30), Ok(big));
    assert_eq!(p.bytes_allocated(), 170);
    assert_eq!(p.free_index(), vec![(10, tiny)]);
}

#[test]
fn reused_buffer_is_zeroed() {
    let mut p = configured(1000, 100);
    let a = p.acquire(8).unwrap();
    assert_eq!(p.contents(a).unwrap(), &[0u8; 8][..]);
    assert!(p.write(a, 0, 7));
    assert!(p.write(a, 7, 9));
    assert!(!p.write(a, 8, 1));
    assert_eq!(p.contents(a).unwrap(), &[7u8, 0, 0, 0, 0, 0, 0, 9][..]);
    assert_eq!(p.release(a), Ok(()));
    assert!(!p.write(a, 0, 1));
    assert_eq!(p.contents(a), None);
    assert_eq!(p.acquire(5), Ok(a));
    assert_eq!(p.contents(a).unwrap(), &[0u8; 8][..]);
}

#[test]
fn lowering_the_total_evicts_on_next_acquire() {
    let mut p = configured(1000, 100);
    let b = p.acquire(20).unwrap();
    let x = p.acquire(10).unwrap();
    let y = p.acquire(10).unwrap();
    let z = p.acquire(10).unwrap();
    for id in [x, y, z] {
        assert_eq!(p.release(id), Ok(()));
    }
    assert_eq!(p.configure(45, 100), Ok(()));
    assert_eq!(p.bytes_allocated(), 50);
    // 50 + 15 - 45 = 20 must go: the last 10, then the first 10.
    let w = p.acquire(15).unwrap();
    assert!(![b, x, y, z].contains(&w));
    assert_eq!(p.free_index(), vec![(10, y)]);
    assert_eq!(p.bytes_allocated(), 45);
    assert_eq!(p.bytes_in_use(), 35);
    check_budget(&p);
}

#[test]
fn error_codes() {
    assert_eq!(RBError::NoBufferAvailable.code(), 1);
    assert_eq!(RBError::SizeTooBig.code(), 2);
    assert_eq!(RBError::InvalidPointer.code(), 3);
    assert_eq!(RBError::SizeTooBig.as_str(), "Size Too Big");
}

/// Ten simulated holders, interleaved, each keeping 10 to 15 buffers near the
/// total budget. No handle is ever held twice and the budget always holds.
#[test]
fn interleaved_holders_keep_budget() {
    let kib: usize = 1024;
    let mut p = configured(1024 * kib, 15 * kib);
    let mut seed: u64 = 0x2545_f491_4f6c_dd1d;
    let mut next = move || {
        seed ^= seed << 13;
        seed ^= seed >> 7;
        seed ^= seed << 17;
        seed
    };
    let mut holders: Vec<Vec<u64>> = vec![Vec::new(); 10];
    let mut successes: u64 = 0;
    let mut failures: u64 = 0;
    for _ in 0..1000 {
        for h in 0..10 {
            let held = holders[h].len();
            let acquire = held < 10 || (held <= 15 && next() % 2 == 0);
            if acquire {
                let size = 5 * kib + (next() % (11 * kib as u64 + 1)) as usize;
                match p.acquire(size) {
                    Ok(id) => {
                        assert!(holders.iter().all(|v| !v.contains(&id)));
                        assert!(p.contents(id).unwrap().iter().all(|&x| x == 0));
                        assert!(p.contents(id).unwrap().len() >= size);
                        assert!(p.write(id, 0, 1));
                        holders[h].push(id);
                        successes += 1;
                    }
                    Err(e) => {
                        assert!(size > 15 * kib || e == RBError::NoBufferAvailable);
                        failures += 1;
                    }
                }
            } else {
                let i = (next() % held as u64) as usize;
                let id = holders[h].remove(i);
                assert_eq!(p.release(id), Ok(()));
            }
            check_budget(&p);
        }
    }
    let lent: usize = holders.iter().map(|v| v.len()).sum();
    assert!(successes > 0);
    assert!(successes + failures > lent as u64);
}
