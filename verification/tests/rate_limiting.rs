use musicboxd::rate_limit::{ClientAddr, RateLimitStore};

const SEC: u128 = 1_000_000_000;

#[test]
fn admits_up_to_max_within_window() {
    let mut store = RateLimitStore::new(3, 60);
    let a = ClientAddr::V4(0x7f00_0001);
    assert!(store.check_and_increment_at(a, 0));
    assert!(store.check_and_increment_at(a, SEC));
    assert!(store.check_and_increment_at(a, 2 * SEC));
    assert!(!store.check_and_increment_at(a, 3 * SEC));
    assert!(!store.check_and_increment_at(a, 59 * SEC));
}

#[test]
fn window_slides() {
    // 2 per 60 s: requests at 0, 59, 60 and 61 s.
    let mut store = RateLimitStore::new(2, 60);
    let a = ClientAddr::V4(1);
    assert!(store.check_and_increment_at(a, 0));
    assert!(store.check_and_increment_at(a, 59 * SEC));
    // the request at 0 s has left the window; the one at 59 s has not
    assert!(store.check_and_increment_at(a, 60 * SEC));
    // 59 s and 60 s are both inside the window ending at 61 s
    assert!(!store.check_and_increment_at(a, 61 * SEC));
    // 59 s leaves the window at 119 s
    assert!(!store.check_and_increment_at(a, 119 * SEC - 1));
    assert!(store.check_and_increment_at(a, 119 * SEC));
}

#[test]
fn refused_requests_do_not_use_the_budget() {
    let mut store = RateLimitStore::new(1, 60);
    let a = ClientAddr::V4(1);
    assert!(store.check_and_increment_at(a, 10 * SEC));
    assert!(!store.check_and_increment_at(a, 69 * SEC));
    // one window after the admitted request, whatever was refused since
    assert!(store.check_and_increment_at(a, 70 * SEC));
    assert!(!store.check_and_increment_at(a, 71 * SEC));
    assert!(store.check_and_increment_at(a, 130 * SEC));
}

#[test]
fn addresses_are_limited_separately() {
    let mut store = RateLimitStore::new(1, 60);
    let a = ClientAddr::V4(1);
    let b = ClientAddr::V4(2);
    let c = ClientAddr::V6(1);
    assert!(store.check_and_increment_at(a, 0));
    assert!(!store.check_and_increment_at(a, 1));
    assert!(store.check_and_increment_at(b, 2));
    // an IPv6 address with the same bits is another address
    assert!(store.check_and_increment_at(c, 3));
    assert!(!store.check_and_increment_at(c, 4));
}

#[test]
fn other_addresses_do_not_change_answers() {
    let times = [0, 5 * SEC, 30 * SEC, 61 * SEC, 62 * SEC];
    let mut alone = RateLimitStore::new(2, 60);
    let mut busy = RateLimitStore::new(2, 60);
    let a = ClientAddr::V4(10);
    for (i, &t) in times.iter().enumerate() {
        for k in 0..i as u32 {
            busy.check_and_increment_at(ClientAddr::V4(100 + k), t);
        }
        assert_eq!(alone.check_and_increment_at(a, t), busy.check_and_increment_at(a, t));
    }
}

#[test]
fn zero_max_refuses_every_request() {
    let mut store = RateLimitStore::new(0, 60);
    let a = ClientAddr::V4(9);
    assert!(!store.check_and_increment_at(a, 0));
    assert!(!store.check_and_increment_at(a, 60 * SEC));
    assert!(!store.check_and_increment_at(a, 1000 * SEC));
    assert!(!store.check_and_increment(a));
}

#[test]
fn zero_window_never_limits() {
    let mut store = RateLimitStore::new(1, 0);
    let a = ClientAddr::V6(u128::MAX);
    for t in 0..10u128 {
        assert!(store.check_and_increment_at(a, t));
    }
}

#[test]
fn earlier_time_counts_as_within_window() {
    let mut store = RateLimitStore::new(1, 60);
    let a = ClientAddr::V4(5);
    assert!(store.check_and_increment_at(a, 100 * SEC));
    assert!(!store.check_and_increment_at(a, 0));
}

#[test]
fn live_clock_limits_burst() {
    // Auth policy of the server: 10 requests per 60 s.
    let mut store = RateLimitStore::new(10, 60);
    let a = ClientAddr::V4(0x0a00_0001);
    let admitted = (0..15).filter(|_| store.check_and_increment(a)).count();
    assert_eq!(admitted, 10);
    assert!(store.check_and_increment(ClientAddr::V4(0x0a00_0002)));
}

#[test]
fn clock_never_goes_before_last_decision() {
    // A decision far in the future: live requests are decided no earlier,
    // so they fall inside its window.
    let mut store = RateLimitStore::new(1, 60);
    let a = ClientAddr::V4(3);
    assert!(store.check_and_increment_at(a, 1_000_000 * SEC));
    assert!(!store.check_and_increment(a));
    assert!(store.check_and_increment(ClientAddr::V4(4)));
}
