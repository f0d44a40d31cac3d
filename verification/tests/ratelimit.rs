use rabbit_storage_explorer::ratelimit::{Pace, RateLimiter};
use std::time::{Duration, Instant};

/// Asks until the bytes are paid, waiting as it is told.
fn acquire(rl: &mut RateLimiter, start: Instant, n: u64) {
    loop {
        let now = start.elapsed().as_nanos() as u64;
        match rl.acquire(now, n) {
            Pace::Go => return,
            Pace::Wait { ns } => {
                let until = Duration::from_nanos(now + ns as u64);
                while start.elapsed() < until {}
            }
        }
    }
}

#[test]
fn unlimited_is_instant() {
    let start = Instant::now();
    let mut rl = RateLimiter::new(0, 0);
    assert!(rl.is_unlimited());
    acquire(&mut rl, start, 10_000_000);
    assert!(start.elapsed() < Duration::from_millis(50));
}

#[test]
fn live_rate_change_takes_effect() {
    let start = Instant::now();
    let mut rl = RateLimiter::new(1_000_000, 0);
    rl.set_rate(0);
    acquire(&mut rl, start, 50_000_000);
    assert!(start.elapsed() < Duration::from_millis(50));
}

#[test]
fn paces_to_rate() {
    let start = Instant::now();
    let mut rl = RateLimiter::new(1_000_000, 0);
    acquire(&mut rl, start, 200_000);
    assert!(
        start.elapsed() >= Duration::from_millis(150),
        "expected ~0.2s pacing, got {:?}",
        start.elapsed()
    );
}

#[test]
fn waits_are_exact() {
    let mut rl = RateLimiter::new(1_000_000, 5);
    assert_eq!(rl.acquire(5, 200_000), Pace::Wait { ns: 200_000_000 });
    // What was not paid is not taken: half the wait later half is missing.
    assert_eq!(rl.acquire(100_000_005, 200_000), Pace::Wait { ns: 100_000_000 });
    assert_eq!(rl.acquire(200_000_005, 200_000), Pace::Go);
    assert_eq!(rl.acquire(200_000_005, 1), Pace::Wait { ns: 1000 });
    // A wait is rounded up.
    rl.set_rate(3);
    assert_eq!(rl.acquire(200_000_005, 1), Pace::Wait { ns: 333_333_334 });
    assert_eq!(rl.acquire(200_000_005 + 333_333_334, 1), Pace::Go);
}

#[test]
fn bursts_are_bounded() {
    let mut rl = RateLimiter::new(10, 0);
    let year = 31_536_000_000_000_000u64;
    assert_eq!(rl.acquire(year, 1_048_576), Pace::Go);
    assert_eq!(rl.acquire(year, 1), Pace::Wait { ns: 100_000_000 });
    let mut rl = RateLimiter::new(5_000_000, 0);
    assert_eq!(rl.acquire(year, 5_000_000), Pace::Go);
    assert_eq!(rl.acquire(year, 1), Pace::Wait { ns: 200 });
    // The clock never runs backwards.
    assert_eq!(rl.acquire(0, 1), Pace::Wait { ns: 200 });
}

#[test]
fn the_rate_is_shared() {
    // Four transfers that ask in turn get what the rate gives, together.
    let mut rl = RateLimiter::new(2_000_000, 0);
    let mut paid = 0u64;
    for ms in 1..=1000u64 {
        for _ in 0..4 {
            if rl.acquire(ms * 1_000_000, 1000) == Pace::Go {
                paid += 1000;
            }
        }
    }
    assert_eq!(paid, 2_000_000);
}
