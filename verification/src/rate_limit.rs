//! In-memory per-address rate limiting with sliding windows: each policy
//! admits at most `max_requests` requests from one address in any span of
//! `window_secs` seconds. For each address the store keeps the times of its
//! admitted requests that are still inside the window; a request is
//! admitted while fewer than `max_requests` of them remain.

use std::collections::HashMap;
use std::time::Instant;
use vstd::prelude::*;

verus! {

broadcast use vstd::std_specs::hash::group_hash_axioms;

/// std's monotonic clock reading.
#[verifier::external_type_specification]
#[verifier::external_body]
pub struct ExInstant(Instant);

/// std's `Instant::now`: a reading of the monotonic clock. It depends on
/// the time at which it is called, so nothing is stated of it.
#[verifier::external_body]
fn instant_now() -> Instant {
    Instant::now()
}

/// std's `Instant::elapsed`, converted to whole nanoseconds: the time that
/// has passed since `epoch`. It depends on the time at which it is called,
/// so nothing is stated of it.
#[verifier::external_body]
fn nanos_since(epoch: &Instant) -> u128 {
    epoch.elapsed().as_nanos()
}

/// The address a request comes from: an IPv4 address as its 32 bits, or an
/// IPv6 address as its 128 bits.
#[derive(Clone, Copy, Debug, PartialEq, Eq, Structural)]
pub enum ClientAddr {
    V4(u32),
    V6(u128),
}

/// Length of a window of `secs` seconds, in nanoseconds.
pub open spec fn window_nanos(secs: u64) -> nat {
    secs as nat * 1_000_000_000
}

/// Time from `start` to `now`, or zero when `now` comes first (as
/// `Instant::duration_since` saturates).
pub open spec fn elapsed(now: u128, start: u128) -> nat {
    if now >= start {
        (now - start) as nat
    } else {
        0
    }
}

/// Of the admission times `times`, those still inside a window of `window`
/// nanoseconds at time `now`, in their order.
pub open spec fn live_times(times: Seq<u128>, window: nat, now: u128) -> Seq<u128>
    decreases times.len(),
{
    if times.len() == 0 {
        Seq::empty()
    } else {
        let rest = live_times(times.drop_last(), window, now);
        if elapsed(now, times.last()) < window {
            rest.push(times.last())
        } else {
            rest
        }
    }
}

/// One request at time `now` from an address whose admitted requests were
/// at `times`: the admission times kept afterwards, and whether the
/// request is admitted.
///
/// Times that have left the window are dropped. The request is admitted,
/// and its time kept, while fewer than `max` admitted requests remain in
/// the window; otherwise it is refused.
pub open spec fn request_outcome(max: u32, window: nat, times: Seq<u128>, now: u128) -> (
    Seq<u128>,
    bool,
) {
    let live = live_times(times, window, now);
    if live.len() < max {
        (live.push(now), true)
    } else {
        (live, false)
    }
}

/// The admission times kept for `addr` (none for an address not seen).
pub open spec fn times_for(entries: Map<ClientAddr, Seq<u128>>, addr: ClientAddr) -> Seq<u128> {
    if entries.contains_key(addr) {
        entries[addr]
    } else {
        Seq::empty()
    }
}

/// The effect of one request on the store: only the times of `addr` change.
pub open spec fn request_outcome_all(
    max: u32,
    window: nat,
    entries: Map<ClientAddr, Seq<u128>>,
    addr: ClientAddr,
    now: u128,
) -> (Map<ClientAddr, Seq<u128>>, bool) {
    let (kept, ok) = request_outcome(max, window, times_for(entries, addr), now);
    (entries.insert(addr, kept), ok)
}

/// The admission times of `times` still inside the window at `now`.
fn prune(times: &Vec<u128>, window_secs: u64, now: u128) -> (live: Vec<u128>)
    ensures
        live@ == live_times(times@, window_nanos(window_secs), now),
{
    let window: u128 = window_secs as u128 * 1_000_000_000u128;
    let mut live: Vec<u128> = Vec::new();
    let n = times.len();
    for i in 0..n
        invariant
            n == times@.len(),
            window == window_nanos(window_secs),
            live@ == live_times(times@.take(i as int), window_nanos(window_secs), now),
    {
        let t = times[i];
        let passed: u128 = if now >= t {
            now - t
        } else {
            0
        };
        assert(times@.take(i + 1).drop_last() =~= times@.take(i as int));
        assert(times@.take(i + 1).last() == t);
        if passed < window {
            live.push(t);
        }
    }
    assert(times@.take(n as int) =~= times@);
    live
}

/// Decides one request on the admission times of its address.
fn decide(max: u32, window_secs: u64, times: &Vec<u128>, now: u128) -> (r: (Vec<u128>, bool))
    ensures
        (r.0@, r.1) == request_outcome(max, window_nanos(window_secs), times@, now),
{
    let mut live = prune(times, window_secs, now);
    if live.len() < max as usize {
        live.push(now);
        (live, true)
    } else {
        (live, false)
    }
}

/// Shared state for one rate-limit policy: `max_requests` per `window_secs` seconds.
pub struct RateLimitStore {
    max_requests: u32,
    window_secs: u64,
    v4: HashMap<u32, Vec<u128>>,
    v6: HashMap<u128, Vec<u128>>,
    epoch: Instant,
    last_time: u128,
}

impl RateLimitStore {
    /// The most requests admitted from one address in one window.
    pub closed spec fn spec_max_requests(&self) -> u32 {
        self.max_requests
    }

    /// The length of a window, in seconds.
    pub closed spec fn spec_window_secs(&self) -> u64 {
        self.window_secs
    }

    /// The latest time a request was decided at, in nanoseconds since the
    /// store was created (0 before any request).
    pub closed spec fn spec_last_time(&self) -> u128 {
        self.last_time
    }

    /// For each address seen so far, the times of its admitted requests
    /// kept in the window, in nanoseconds since the store was created.
    pub closed spec fn entries(&self) -> Map<ClientAddr, Seq<u128>> {
        Map::new(
            |a: ClientAddr|
                match a {
                    ClientAddr::V4(k) => self.v4@.contains_key(k),
                    ClientAddr::V6(k) => self.v6@.contains_key(k),
                },
            |a: ClientAddr|
                match a {
                    ClientAddr::V4(k) => self.v4@[k]@,
                    ClientAddr::V6(k) => self.v6@[k]@,
                },
        )
    }

    /// No address keeps more than `max_requests` admission times.
    pub open spec fn within_limit(&self) -> bool {
        forall|a: ClientAddr| #[trigger]
            self.entries().contains_key(a) ==> self.entries()[a].len()
                <= self.spec_max_requests()
    }

    /// A store for `max_requests` requests per `window_secs` seconds, with
    /// no address seen yet.
    pub fn new(max_requests: u32, window_secs: u64) -> (s: Self)
        ensures
            s.spec_max_requests() == max_requests,
            s.spec_window_secs() == window_secs,
            s.entries() == Map::<ClientAddr, Seq<u128>>::empty(),
            s.spec_last_time() == 0,
            s.within_limit(),
    {
        let s = RateLimitStore {
            max_requests,
            window_secs,
            v4: HashMap::new(),
            v6: HashMap::new(),
            epoch: instant_now(),
            last_time: 0,
        };
        assert(s.entries() =~= Map::<ClientAddr, Seq<u128>>::empty());
        s
    }

    /// Decides a request from `addr` made `now` nanoseconds after the store
    /// was created, and records it: returns `true` if the request is within
    /// the allowed rate.
    pub fn check_and_increment_at(&mut self, addr: ClientAddr, now: u128) -> (allowed: bool)
        ensures
            final(self).spec_max_requests() == old(self).spec_max_requests(),
            final(self).spec_window_secs() == old(self).spec_window_secs(),
            (final(self).entries(), allowed) == request_outcome_all(
                old(self).spec_max_requests(),
                window_nanos(old(self).spec_window_secs()),
                old(self).entries(),
                addr,
                now,
            ),
            final(self).spec_last_time() == if now >= old(self).spec_last_time() {
                now
            } else {
                old(self).spec_last_time()
            },
            old(self).within_limit() ==> final(self).within_limit(),
    {
        let ghost old_entries = self.entries();
        if now > self.last_time {
            self.last_time = now;
        }
        assert(self.entries() =~= old_entries);
        proof {
            lemma_live_times_shorter(
                times_for(old_entries, addr),
                window_nanos(self.window_secs),
                now,
            );
        }
        match addr {
            ClientAddr::V4(k) => {
                let times = match self.v4.remove(&k) {
                    Some(v) => v,
                    None => Vec::new(),
                };
                assert(times@ == times_for(old_entries, addr));
                let (kept, ok) = decide(self.max_requests, self.window_secs, &times, now);
                self.v4.insert(k, kept);
                assert(self.entries() =~= old_entries.insert(addr, kept@));
                ok
            },
            ClientAddr::V6(k) => {
                let times = match self.v6.remove(&k) {
                    Some(v) => v,
                    None => Vec::new(),
                };
                assert(times@ == times_for(old_entries, addr));
                let (kept, ok) = decide(self.max_requests, self.window_secs, &times, now);
                self.v6.insert(k, kept);
                assert(self.entries() =~= old_entries.insert(addr, kept@));
                ok
            },
        }
    }

    /// Decides a request from `addr` at the current time, and records it:
    /// returns `true` if the request is within the allowed rate.
    ///
    /// The decision is that of `check_and_increment_at` for a time read
    /// from the monotonic clock, never earlier than the time of the
    /// previous decision; which time that is, is not stated.
    pub fn check_and_increment(&mut self, addr: ClientAddr) -> (allowed: bool)
        ensures
            final(self).spec_max_requests() == old(self).spec_max_requests(),
            final(self).spec_window_secs() == old(self).spec_window_secs(),
            exists|now: u128|
                {
                    &&& now >= old(self).spec_last_time()
                    &&& final(self).spec_last_time() == now
                    &&& (final(self).entries(), allowed) == #[trigger] request_outcome_all(
                        old(self).spec_max_requests(),
                        window_nanos(old(self).spec_window_secs()),
                        old(self).entries(),
                        addr,
                        now,
                    )
                },
            old(self).within_limit() ==> final(self).within_limit(),
            old(self).spec_max_requests() == 0 ==> !allowed,
    {
        let reading = nanos_since(&self.epoch);
        self.check_and_increment_with_reading(addr, reading)
    }

    /// The time a request is decided at when the clock reads `reading`:
    /// the reading itself, unless it is before the previous decision, whose
    /// time is then used (the clock never goes back).
    pub open spec fn decision_time(&self, reading: u128) -> u128 {
        if reading >= self.spec_last_time() {
            reading
        } else {
            self.spec_last_time()
        }
    }

    /// Decides a request from `addr` when the monotonic clock reads
    /// `reading` nanoseconds since the store was created: the request is
    /// decided at that reading, or at the previous decision's time if the
    /// reading is earlier, and recorded.
    pub fn check_and_increment_with_reading(&mut self, addr: ClientAddr, reading: u128) -> (allowed: bool)
        ensures
            final(self).spec_max_requests() == old(self).spec_max_requests(),
            final(self).spec_window_secs() == old(self).spec_window_secs(),
            reading >= old(self).spec_last_time() ==> final(self).spec_last_time() == reading,
            reading < old(self).spec_last_time() ==> final(self).spec_last_time() == old(
                self,
            ).spec_last_time(),
            (final(self).entries(), allowed) == request_outcome_all(
                old(self).spec_max_requests(),
                window_nanos(old(self).spec_window_secs()),
                old(self).entries(),
                addr,
                old(self).decision_time(reading),
            ),
            old(self).within_limit() ==> final(self).within_limit(),
    {
        let now = if reading >= self.last_time {
            reading
        } else {
            self.last_time
        };
        self.check_and_increment_at(addr, now)
    }
}

/// Pruning never adds times.
pub proof fn lemma_live_times_shorter(times: Seq<u128>, window: nat, now: u128)
    ensures
        live_times(times, window, now).len() <= times.len(),
    decreases times.len(),
{
    if times.len() > 0 {
        lemma_live_times_shorter(times.drop_last(), window, now);
    }
}

/// Every time kept by pruning at `now` is inside the window at `now`.
pub proof fn lemma_live_times_inside(times: Seq<u128>, window: nat, now: u128)
    ensures
        forall|i: int|
            0 <= i < live_times(times, window, now).len() ==> elapsed(
                now,
                #[trigger] live_times(times, window, now)[i],
            ) < window,
    decreases times.len(),
{
    if times.len() > 0 {
        lemma_live_times_inside(times.drop_last(), window, now);
        let rest = live_times(times.drop_last(), window, now);
        let live = live_times(times, window, now);
        assert forall|i: int| 0 <= i < live.len() implies elapsed(now, #[trigger] live[i])
            < window by {
            if i < rest.len() {
                assert(live[i] == rest[i]);
            }
        }
    }
}

/// Pruning keeps only times that were there: a bound on all times bounds
/// the kept ones.
proof fn lemma_live_times_bounded(times: Seq<u128>, window: nat, now: u128, bound: u128)
    requires
        forall|i: int| 0 <= i < times.len() ==> #[trigger] times[i] <= bound,
    ensures
        forall|i: int|
            0 <= i < live_times(times, window, now).len() ==> #[trigger] live_times(
                times,
                window,
                now,
            )[i] <= bound,
    decreases times.len(),
{
    if times.len() > 0 {
        let rest = times.drop_last();
        assert forall|i: int| 0 <= i < rest.len() implies #[trigger] rest[i] <= bound by {
            assert(rest[i] == times[i]);
        }
        lemma_live_times_bounded(rest, window, now, bound);
        let kept = live_times(rest, window, now);
        let live = live_times(times, window, now);
        assert forall|i: int| 0 <= i < live.len() implies #[trigger] live[i] <= bound by {
            if i < kept.len() {
                assert(live[i] == kept[i]);
            } else {
                assert(live[i] == times[times.len() - 1]);
            }
        }
    }
}

/// Pruning at a later time after pruning at `now` is pruning at the later
/// time alone: a time inside the window later was inside it at `now`.
proof fn lemma_live_times_later(times: Seq<u128>, window: nat, now: u128, later: u128)
    requires
        now <= later,
    ensures
        live_times(live_times(times, window, now), window, later) == live_times(
            times,
            window,
            later,
        ),
    decreases times.len(),
{
    if times.len() > 0 {
        lemma_live_times_later(times.drop_last(), window, now, later);
        let rest = live_times(times.drop_last(), window, now);
        if elapsed(now, times.last()) < window {
            assert(rest.push(times.last()).drop_last() =~= rest);
        }
    }
}

/// Pruning drops every time that has left the window.
proof fn lemma_live_times_all_out(times: Seq<u128>, window: nat, now: u128)
    requires
        forall|i: int| 0 <= i < times.len() ==> elapsed(now, #[trigger] times[i]) >= window,
    ensures
        live_times(times, window, now) == Seq::<u128>::empty(),
    decreases times.len(),
{
    if times.len() > 0 {
        let rest = times.drop_last();
        assert forall|i: int| 0 <= i < rest.len() implies elapsed(now, #[trigger] rest[i])
            >= window by {
            assert(rest[i] == times[i]);
        }
        lemma_live_times_all_out(rest, window, now);
        assert(elapsed(now, times[times.len() - 1]) >= window);
    }
}

/// Once every admitted request of an address has left the window, a
/// policy with a limit of at least one admits its next request, and only
/// that request's time is kept.
pub proof fn lemma_window_passed_admits(max: u32, window: nat, times: Seq<u128>, now: u128)
    requires
        max >= 1,
        forall|i: int| 0 <= i < times.len() ==> elapsed(now, #[trigger] times[i]) >= window,
    ensures
        request_outcome(max, window, times, now).1,
        request_outcome(max, window, times, now).0 == seq![now],
{
    lemma_live_times_all_out(times, window, now);
    assert(Seq::<u128>::empty().push(now) =~= seq![now]);
}

/// A policy with a limit of zero refuses every request.
pub proof fn lemma_zero_limit_refuses(window: nat, times: Seq<u128>, now: u128)
    ensures
        !request_outcome(0, window, times, now).1,
{
}

/// After a request at `now`, every time kept for its address is `now` or
/// inside the window at `now`, and at most `max` times are kept when at
/// most `max` were.
pub proof fn lemma_kept_times_recent(max: u32, window: nat, times: Seq<u128>, now: u128)
    requires
        times.len() <= max,
    ensures
        ({
            let kept = request_outcome(max, window, times, now).0;
            &&& kept.len() <= max
            &&& forall|i: int|
                0 <= i < kept.len() ==> #[trigger] kept[i] == now || elapsed(now, kept[i]) < window
        }),
{
    lemma_live_times_shorter(times, window, now);
    lemma_live_times_inside(times, window, now);
    let live = live_times(times, window, now);
    let kept = request_outcome(max, window, times, now).0;
    assert forall|i: int| 0 <= i < kept.len() implies #[trigger] kept[i] == now || elapsed(
        now,
        kept[i],
    ) < window by {
        if i < live.len() {
            assert(kept[i] == live[i]);
        }
    }
}

/// The requests at `nows`, in order, from one address whose kept admission
/// times are `times`: the times kept afterwards and the answers.
pub open spec fn run_address(max: u32, window: nat, times: Seq<u128>, nows: Seq<u128>) -> (
    Seq<u128>,
    Seq<bool>,
)
    decreases nows.len(),
{
    if nows.len() == 0 {
        (times, Seq::empty())
    } else {
        let (kept, answers) = run_address(max, window, times, nows.drop_last());
        let (kept2, ok) = request_outcome(max, window, kept, nows.last());
        (kept2, answers.push(ok))
    }
}

/// The requests `reqs` (address and time), in order, to a store whose
/// kept times are `entries`: the kept times afterwards and the answers.
pub open spec fn run_store(
    max: u32,
    window: nat,
    entries: Map<ClientAddr, Seq<u128>>,
    reqs: Seq<(ClientAddr, u128)>,
) -> (Map<ClientAddr, Seq<u128>>, Seq<bool>)
    decreases reqs.len(),
{
    if reqs.len() == 0 {
        (entries, Seq::empty())
    } else {
        let (m, answers) = run_store(max, window, entries, reqs.drop_last());
        let (m2, ok) = request_outcome_all(max, window, m, reqs.last().0, reqs.last().1);
        (m2, answers.push(ok))
    }
}

/// The times of the requests in `reqs` that come from `addr`, in order.
pub open spec fn times_from(reqs: Seq<(ClientAddr, u128)>, addr: ClientAddr) -> Seq<u128>
    decreases reqs.len(),
{
    if reqs.len() == 0 {
        Seq::empty()
    } else {
        let rest = times_from(reqs.drop_last(), addr);
        if reqs.last().0 == addr {
            rest.push(reqs.last().1)
        } else {
            rest
        }
    }
}

/// The answers to the requests in `reqs` that come from `addr`, in order.
pub open spec fn answers_to(reqs: Seq<(ClientAddr, u128)>, answers: Seq<bool>, addr: ClientAddr) -> Seq<
    bool,
>
    decreases reqs.len(),
{
    if reqs.len() == 0 || answers.len() == 0 {
        Seq::empty()
    } else {
        let rest = answers_to(reqs.drop_last(), answers.drop_last(), addr);
        if reqs.last().0 == addr {
            rest.push(answers.last())
        } else {
            rest
        }
    }
}

/// What a store answers one address, and what it keeps for it, depends on
/// that address's requests alone: requests from other addresses, wherever
/// they come in between, change nothing for it.
pub proof fn lemma_addresses_independent(
    max: u32,
    window: nat,
    entries: Map<ClientAddr, Seq<u128>>,
    reqs: Seq<(ClientAddr, u128)>,
    addr: ClientAddr,
)
    ensures
        run_store(max, window, entries, reqs).1.len() == reqs.len(),
        answers_to(reqs, run_store(max, window, entries, reqs).1, addr) == run_address(
            max,
            window,
            times_for(entries, addr),
            times_from(reqs, addr),
        ).1,
        times_for(run_store(max, window, entries, reqs).0, addr) == run_address(
            max,
            window,
            times_for(entries, addr),
            times_from(reqs, addr),
        ).0,
    decreases reqs.len(),
{
    if reqs.len() > 0 {
        let prefix = reqs.drop_last();
        lemma_addresses_independent(max, window, entries, prefix, addr);
        let (m, answers) = run_store(max, window, entries, prefix);
        let (m2, ok) = request_outcome_all(max, window, m, reqs.last().0, reqs.last().1);
        assert(answers.push(ok).drop_last() =~= answers);
        let tp = times_from(prefix, addr);
        if reqs.last().0 == addr {
            assert(times_from(reqs, addr).drop_last() =~= tp);
        }
    }
}

/// Two runs of a store that send the same requests from `addr` give that
/// address the same answers and leave it the same kept times, whatever
/// other addresses send.
pub proof fn lemma_same_requests_same_answers(
    max: u32,
    window: nat,
    entries: Map<ClientAddr, Seq<u128>>,
    reqs1: Seq<(ClientAddr, u128)>,
    reqs2: Seq<(ClientAddr, u128)>,
    addr: ClientAddr,
)
    requires
        times_from(reqs1, addr) == times_from(reqs2, addr),
    ensures
        answers_to(reqs1, run_store(max, window, entries, reqs1).1, addr) == answers_to(
            reqs2,
            run_store(max, window, entries, reqs2).1,
            addr,
        ),
        times_for(run_store(max, window, entries, reqs1).0, addr) == times_for(
            run_store(max, window, entries, reqs2).0,
            addr,
        ),
{
    lemma_addresses_independent(max, window, entries, reqs1, addr);
    lemma_addresses_independent(max, window, entries, reqs2, addr);
}

/// Times that never go back.
pub open spec fn nondecreasing(nows: Seq<u128>) -> bool {
    forall|i: int, j: int| 0 <= i <= j < nows.len() ==> nows[i] <= nows[j]
}

/// How many of the requests at `nows` were admitted with a time in
/// `[lo, hi)`.
pub open spec fn admitted_between(nows: Seq<u128>, answers: Seq<bool>, lo: int, hi: int) -> nat
    decreases nows.len(),
{
    if nows.len() == 0 || answers.len() == 0 {
        0
    } else {
        admitted_between(nows.drop_last(), answers.drop_last(), lo, hi) + if answers.last() && lo
            <= nows.last() < hi {
            1nat
        } else {
            0nat
        }
    }
}

/// How many of the requests at `nows` were admitted and are inside the
/// window at time `x`.
pub open spec fn admitted_live(nows: Seq<u128>, answers: Seq<bool>, window: nat, x: u128) -> nat
    decreases nows.len(),
{
    if nows.len() == 0 || answers.len() == 0 {
        0
    } else {
        admitted_live(nows.drop_last(), answers.drop_last(), window, x) + if answers.last()
            && elapsed(x, nows.last()) < window {
            1nat
        } else {
            0nat
        }
    }
}

/// From an address with nothing kept, at any time not before its last
/// request, the kept times still inside the window are exactly its
/// admitted requests still inside the window; every kept time is no
/// later than its last request; and at most `max` times are kept.
proof fn lemma_run_address_keeps_admitted(max: u32, window: nat, nows: Seq<u128>)
    requires
        nondecreasing(nows),
    ensures
        run_address(max, window, Seq::empty(), nows).1.len() == nows.len(),
        run_address(max, window, Seq::empty(), nows).0.len() <= max,
        forall|x: u128|
            (nows.len() == 0 || nows.last() <= x) ==> #[trigger] live_times(
                run_address(max, window, Seq::empty(), nows).0,
                window,
                x,
            ).len() == admitted_live(nows, run_address(max, window, Seq::empty(), nows).1, window, x),
        nows.len() > 0 ==> forall|i: int|
            0 <= i < run_address(max, window, Seq::empty(), nows).0.len() ==> #[trigger] run_address(
                max,
                window,
                Seq::empty(),
                nows,
            ).0[i] <= nows.last(),
    decreases nows.len(),
{
    if nows.len() > 0 {
        let p = nows.drop_last();
        let t = nows.last();
        assert(nondecreasing(p));
        lemma_run_address_keeps_admitted(max, window, p);
        let (kept, answers) = run_address(max, window, Seq::empty(), p);
        let live = live_times(kept, window, t);
        let (kept2, ok) = request_outcome(max, window, kept, t);
        assert(answers.push(ok).drop_last() =~= answers);
        lemma_kept_times_recent(max, window, kept, t);
        if p.len() > 0 {
            assert(p.last() <= t);
        }
        assert forall|x: u128| (nows.len() == 0 || nows.last() <= x) implies #[trigger] live_times(
            kept2,
            window,
            x,
        ).len() == admitted_live(nows, answers.push(ok), window, x) by {
            lemma_live_times_later(kept, window, t, x);
            if ok {
                assert(live.push(t).drop_last() =~= live);
            }
        }
        if p.len() > 0 {
            lemma_live_times_bounded(kept, window, t, t);
        } else {
            assert(live_times(kept, window, t) =~= Seq::<u128>::empty());
        }
        assert forall|i: int| 0 <= i < kept2.len() implies #[trigger] kept2[i] <= t by {
            if i < live.len() {
                assert(kept2[i] == live[i]);
            }
        }
    }
}

/// A request is admitted exactly when fewer than `max` earlier requests of
/// its address were admitted within one window before it: requests are
/// refused only when the budget is used up.
pub proof fn lemma_admitted_iff_room(max: u32, window: nat, nows: Seq<u128>)
    requires
        nondecreasing(nows),
        nows.len() > 0,
    ensures
        ({
            let p = nows.drop_last();
            let answers = run_address(max, window, Seq::empty(), nows).1;
            &&& answers.len() == nows.len()
            &&& answers.drop_last() == run_address(max, window, Seq::empty(), p).1
            &&& answers.last() == (admitted_live(
                p,
                run_address(max, window, Seq::empty(), p).1,
                window,
                nows.last(),
            ) < max)
        }),
{
    let p = nows.drop_last();
    let t = nows.last();
    assert(nondecreasing(p));
    lemma_run_address_keeps_admitted(max, window, p);
    let (kept, answers) = run_address(max, window, Seq::empty(), p);
    let (kept2, ok) = request_outcome(max, window, kept, t);
    assert(answers.push(ok).drop_last() =~= answers);
    if p.len() > 0 {
        assert(p.last() == p[p.len() - 1]);
        assert(t == nows[nows.len() - 1]);
        assert(p.last() <= t);
    }
    assert(live_times(kept, window, t).len() == admitted_live(p, answers, window, t));
}

/// Admitted requests with times in `[lo, lo + window)` are still inside
/// the window at any time `x` in that span that is not before them.
proof fn lemma_between_within_live(
    nows: Seq<u128>,
    answers: Seq<bool>,
    window: nat,
    lo: int,
    x: u128,
)
    requires
        forall|i: int| 0 <= i < nows.len() ==> #[trigger] nows[i] <= x,
        x < lo + window,
    ensures
        admitted_between(nows, answers, lo, lo + window) <= admitted_live(nows, answers, window, x),
    decreases nows.len(),
{
    if nows.len() > 0 && answers.len() > 0 {
        let p = nows.drop_last();
        assert forall|i: int| 0 <= i < p.len() implies #[trigger] p[i] <= x by {
            assert(p[i] == nows[i]);
        }
        lemma_between_within_live(p, answers.drop_last(), window, lo, x);
        assert(nows.last() == nows[nows.len() - 1]);
    }
}

/// Sliding windows: from an address with nothing kept, and requests at
/// times that never go back, in every span of `window` nanoseconds at most
/// `max` requests are admitted.
pub proof fn lemma_sliding_window(max: u32, window: nat, nows: Seq<u128>, lo: int)
    requires
        nondecreasing(nows),
    ensures
        admitted_between(nows, run_address(max, window, Seq::empty(), nows).1, lo, lo + window)
            <= max,
    decreases nows.len(),
{
    if nows.len() > 0 {
        let p = nows.drop_last();
        let t = nows.last();
        assert(nondecreasing(p));
        lemma_sliding_window(max, window, p, lo);
        lemma_run_address_keeps_admitted(max, window, p);
        let (kept, answers) = run_address(max, window, Seq::empty(), p);
        let (kept2, ok) = request_outcome(max, window, kept, t);
        assert(answers.push(ok).drop_last() =~= answers);
        if ok && lo <= t < lo + window {
            assert forall|i: int| 0 <= i < p.len() implies #[trigger] p[i] <= t by {
                assert(p[i] == nows[i]);
                assert(t == nows[nows.len() - 1]);
            }
            if p.len() > 0 {
                assert(p.last() == p[p.len() - 1]);
            }
            lemma_between_within_live(p, answers, window, lo, t);
        }
    }
}

/// What a store keeps for an address whose requests come at times that
/// never go back: at most `max` times, none later than its last request,
/// and each one either that request's time or inside the window then.
pub proof fn lemma_store_kept_times(
    max: u32,
    window: nat,
    reqs: Seq<(ClientAddr, u128)>,
    addr: ClientAddr,
)
    requires
        nondecreasing(times_from(reqs, addr)),
        times_from(reqs, addr).len() > 0,
    ensures
        ({
            let kept = times_for(run_store(max, window, Map::empty(), reqs).0, addr);
            let last = times_from(reqs, addr).last();
            &&& kept.len() <= max
            &&& forall|i: int|
                0 <= i < kept.len() ==> #[trigger] kept[i] <= last && (kept[i] == last || elapsed(
                    last,
                    kept[i],
                ) < window)
        }),
{
    let nows = times_from(reqs, addr);
    lemma_addresses_independent(max, window, Map::empty(), reqs, addr);
    assert(times_for(Map::<ClientAddr, Seq<u128>>::empty(), addr) =~= Seq::<u128>::empty());
    lemma_run_address_keeps_admitted(max, window, nows);
    let p = nows.drop_last();
    assert(nondecreasing(p));
    lemma_run_address_keeps_admitted(max, window, p);
    lemma_kept_times_recent(max, window, run_address(max, window, Seq::empty(), p).0, nows.last());
}

/// Sliding windows for a whole store: whatever other addresses send, if
/// the requests from `addr` come at times that never go back, at most
/// `max` of them are admitted in any span of `window` nanoseconds.
pub proof fn lemma_store_sliding_window(
    max: u32,
    window: nat,
    reqs: Seq<(ClientAddr, u128)>,
    addr: ClientAddr,
    lo: int,
)
    requires
        nondecreasing(times_from(reqs, addr)),
    ensures
        admitted_between(
            times_from(reqs, addr),
            answers_to(reqs, run_store(max, window, Map::empty(), reqs).1, addr),
            lo,
            lo + window,
        ) <= max,
{
    lemma_addresses_independent(max, window, Map::empty(), reqs, addr);
    assert(times_for(Map::<ClientAddr, Seq<u128>>::empty(), addr) =~= Seq::<u128>::empty());
    lemma_sliding_window(max, window, times_from(reqs, addr), lo);
}

} // verus!
