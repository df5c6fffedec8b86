//! Sliding-window rate limiting per client key.

use vstd::prelude::*;
use vstd::hash_map::StringHashMap;

verus! {

/// The monotonic clock reading that the limiter measures time from.
#[verifier::external_type_specification]
#[verifier::external_body]
pub struct ExInstant(std::time::Instant);

/// Calls `std::time::Instant::now`: the current reading of the monotonic
/// clock. Nothing is stated of it.
#[verifier::external_body]
fn instant_now() -> std::time::Instant {
    std::time::Instant::now()
}

/// Calls `std::time::Instant::elapsed`: the time passed since `origin`.
/// Nothing is stated of it (it depends on the clock).
#[verifier::external_body]
fn elapsed_since(origin: &std::time::Instant) -> core::time::Duration {
    origin.elapsed()
}

/// Calls `core::time::Duration::as_nanos`: the whole nanoseconds of a
/// duration. Nothing is stated of it.
#[verifier::external_body]
fn duration_nanos(d: &core::time::Duration) -> u128 {
    d.as_nanos()
}

/// Counts the requests of each client key in a sliding time window.
pub struct RateLimiter {
    origin: std::time::Instant,
    latest: u128,
    logs: StringHashMap<Vec<u128>>,
}

/// How long before `now` a request at `t` was, zero when `t` is later.
pub open spec fn age(now: u128, t: u128) -> nat {
    if now >= t {
        (now - t) as nat
    } else {
        0
    }
}

/// The request times that are younger than `window_secs` seconds at `now`,
/// in order.
pub open spec fn recent(stamps: Seq<u128>, now: u128, window_secs: u64) -> Seq<u128>
    decreases stamps.len(),
{
    if stamps.len() == 0 {
        seq![]
    } else if age(now, stamps.last()) < window_secs as nat * 1_000_000_000 {
        recent(stamps.drop_last(), now, window_secs).push(stamps.last())
    } else {
        recent(stamps.drop_last(), now, window_secs)
    }
}

/// The request times of `key` (none when it was never seen).
pub open spec fn times_of(m: Map<Seq<char>, Seq<u128>>, key: Seq<char>) -> Seq<u128> {
    if m.dom().contains(key) {
        m[key]
    } else {
        seq![]
    }
}

/// Whether a request of `key` at `now` is allowed: fewer than
/// `max_requests` of its requests are younger than the window.
pub open spec fn allows(
    m: Map<Seq<char>, Seq<u128>>,
    key: Seq<char>,
    max_requests: usize,
    window_secs: u64,
    now: u128,
) -> bool {
    recent(times_of(m, key), now, window_secs).len() < max_requests
}

/// The log after a check of `key` at `now`: its old times are dropped, and
/// `now` is recorded when the request is allowed.
pub open spec fn after_check(
    m: Map<Seq<char>, Seq<u128>>,
    key: Seq<char>,
    max_requests: usize,
    window_secs: u64,
    now: u128,
) -> Map<Seq<char>, Seq<u128>> {
    let kept = recent(times_of(m, key), now, window_secs);
    if kept.len() < max_requests {
        m.insert(key, kept.push(now))
    } else {
        m.insert(key, kept)
    }
}

impl RateLimiter {
    /// The request times recorded for each key.
    pub closed spec fn log(&self) -> Map<Seq<char>, Seq<u128>> {
        self.logs@.map_values(|v: Vec<u128>| v@)
    }

    /// The latest clock reading the limiter has checked a request at, in
    /// nanoseconds since it was made.
    pub closed spec fn clock(&self) -> u128 {
        self.latest
    }

    /// A limiter that has seen no request.
    pub fn new() -> (r: Self)
        ensures
            r.log() == Map::<Seq<char>, Seq<u128>>::empty(),
            r.clock() == 0,
    {
        let r = RateLimiter { origin: instant_now(), latest: 0, logs: StringHashMap::new() };
        assert(r.log() =~= Map::<Seq<char>, Seq<u128>>::empty());
        r
    }

    /// Checks a request of `key` at `now` (nanoseconds on the limiter's
    /// clock): forgets the key's requests that are not younger than
    /// `window_secs` seconds, then allows the request, and records it, when
    /// fewer than `max_requests` remain. The clock must not go back.
    pub fn check_at(&mut self, key: &str, max_requests: usize, window_secs: u64, now: u128) -> (ok:
        bool)
        requires
            old(self).clock() <= now,
        ensures
            ok == allows(old(self).log(), key@, max_requests, window_secs, now),
            final(self).log() == after_check(old(self).log(), key@, max_requests, window_secs, now),
            final(self).clock() == now,
    {
        let ghost m = self.log();
        let window: u128 = (window_secs as u128) * 1_000_000_000;
        let mut kept: Vec<u128> = Vec::new();
        let ghost old_times = times_of(m, key@);
        match self.logs.get(key) {
            Some(stamps) => {
                assert(stamps@ == old_times);
                let mut k: usize = 0;
                while k < stamps.len()
                    invariant
                        k <= stamps.len(),
                        window == window_secs as nat * 1_000_000_000,
                        kept@ == recent(stamps@.take(k as int), now, window_secs),
                    decreases stamps.len() - k,
                {
                    let t = stamps[k];
                    let a: u128 = if now >= t {
                        now - t
                    } else {
                        0
                    };
                    assert(stamps@.take(k + 1).drop_last() =~= stamps@.take(k as int));
                    assert(stamps@.take(k + 1).last() == t);
                    if a < window {
                        kept.push(t);
                    }
                    k = k + 1;
                }
                assert(stamps@.take(stamps.len() as int) =~= stamps@);
            },
            None => {
                assert(old_times =~= Seq::<u128>::empty());
            },
        }
        assert(kept@ == recent(old_times, now, window_secs));
        let ok = kept.len() < max_requests;
        if ok {
            kept.push(now);
        }
        let ghost new_times = kept@;
        self.logs.insert(key.to_string(), kept);
        self.latest = now;
        assert(self.log() =~= m.insert(key@, new_times));
        ok
    }

    /// Checks a request of `key` now: forgets the key's requests that are not
    /// younger than `window_secs` seconds, then allows the request, and
    /// records it, when fewer than `max_requests` remain. The time is read
    /// from the monotonic clock, so the contract holds for some reading, one
    /// never earlier than the reading of the previous check: std documents
    /// that an `Instant` is never earlier than one measured before it, and the
    /// limiter keeps to its latest reading should one ever come out earlier.
    pub fn check(&mut self, key: &str, max_requests: usize, window_secs: u64) -> (ok: bool)
        ensures
            exists|now: u128|
                #![trigger after_check(old(self).log(), key@, max_requests, window_secs, now)]
                {
                    &&& old(self).clock() <= now
                    &&& final(self).clock() == now
                    &&& ok == allows(old(self).log(), key@, max_requests, window_secs, now)
                    &&& final(self).log() == after_check(
                        old(self).log(),
                        key@,
                        max_requests,
                        window_secs,
                        now,
                    )
                },
    {
        let reading = duration_nanos(&elapsed_since(&self.origin));
        let now = if reading < self.latest {
            self.latest
        } else {
            reading
        };
        self.check_at(key, max_requests, window_secs, now)
    }
}

proof fn lemma_recent_idempotent(s: Seq<u128>, now: u128, w: u64)
    ensures
        recent(recent(s, now, w), now, w) == recent(s, now, w),
    decreases s.len(),
{
    if s.len() > 0 {
        lemma_recent_idempotent(s.drop_last(), now, w);
        let r = recent(s.drop_last(), now, w);
        if age(now, s.last()) < w as nat * 1_000_000_000 {
            assert(r.push(s.last()).drop_last() =~= r);
        }
    }
}

/// A request that the limiter allows leaves at most `max_requests` requests
/// of its key within the window at that moment (itself included); a refused
/// request is not recorded; the requests of other keys are untouched.
pub proof fn law_window_limit(
    m: Map<Seq<char>, Seq<u128>>,
    key: Seq<char>,
    max_requests: usize,
    window_secs: u64,
    now: u128,
)
    ensures
        ({
            let after = after_check(m, key, max_requests, window_secs, now);
            &&& allows(m, key, max_requests, window_secs, now) ==> recent(
                times_of(after, key),
                now,
                window_secs,
            ).len() <= max_requests
            &&& !allows(m, key, max_requests, window_secs, now) ==> times_of(after, key) == recent(
                times_of(m, key),
                now,
                window_secs,
            )
            &&& forall|k: Seq<char>| k != key ==> #[trigger] times_of(after, k) == times_of(m, k)
        }),
{
    let kept = recent(times_of(m, key), now, window_secs);
    lemma_recent_idempotent(times_of(m, key), now, window_secs);
    let after = after_check(m, key, max_requests, window_secs, now);
    if kept.len() < max_requests {
        let t = kept.push(now);
        assert(t.drop_last() =~= kept);
        assert(times_of(after, key) == t);
        assert(recent(t, now, window_secs).len() <= kept.len() + 1);
    }
    assert forall|k: Seq<char>| k != key implies #[trigger] times_of(after, k) == times_of(m, k) by {
        assert(after.dom().contains(k) == m.dom().contains(k));
    }
}


/// The log after the requests `calls` (each a key and the clock reading it
/// came at) were checked in order, starting from the log `m`.
pub open spec fn log_after(
    m: Map<Seq<char>, Seq<u128>>,
    calls: Seq<(Seq<char>, u128)>,
    max_requests: usize,
    window_secs: u64,
) -> Map<Seq<char>, Seq<u128>>
    decreases calls.len(),
{
    if calls.len() == 0 {
        m
    } else {
        after_check(
            log_after(m, calls.drop_last(), max_requests, window_secs),
            calls.last().0,
            max_requests,
            window_secs,
            calls.last().1,
        )
    }
}

/// Whether request `j` of `calls` is allowed, the earlier ones checked first.
pub open spec fn granted(
    m: Map<Seq<char>, Seq<u128>>,
    calls: Seq<(Seq<char>, u128)>,
    max_requests: usize,
    window_secs: u64,
    j: int,
) -> bool {
    allows(log_after(m, calls.take(j), max_requests, window_secs), calls[j].0, max_requests, window_secs, calls[j].1)
}

/// How many of the first `n` requests of `calls` are allowed requests of
/// `key` whose reading lies in `[lo, hi)`.
pub open spec fn granted_in(
    m: Map<Seq<char>, Seq<u128>>,
    calls: Seq<(Seq<char>, u128)>,
    max_requests: usize,
    window_secs: u64,
    key: Seq<char>,
    lo: int,
    hi: int,
    n: int,
) -> nat
    decreases n,
{
    if n <= 0 {
        0
    } else {
        granted_in(m, calls, max_requests, window_secs, key, lo, hi, n - 1) + if granted(
            m,
            calls,
            max_requests,
            window_secs,
            n - 1,
        ) && calls[n - 1].0 == key && lo <= calls[n - 1].1 < hi {
            1nat
        } else {
            0nat
        }
    }
}

/// Whether the readings of the requests never go back.
pub open spec fn readings_ordered(calls: Seq<(Seq<char>, u128)>) -> bool {
    forall|i: int, j: int| 0 <= i <= j < calls.len() ==> calls[i].1 <= calls[j].1
}

/// How many of the times are at least `t`.
spec fn count_from(s: Seq<u128>, t: int) -> nat
    decreases s.len(),
{
    if s.len() == 0 {
        0
    } else {
        count_from(s.drop_last(), t) + if s.last() >= t {
            1nat
        } else {
            0nat
        }
    }
}

/// Whether every time is at most `b`.
spec fn all_at_most(s: Seq<u128>, b: int) -> bool {
    forall|i: int| 0 <= i < s.len() ==> s[i] <= b
}

proof fn lemma_count_from_len(s: Seq<u128>, t: int)
    ensures
        count_from(s, t) <= s.len(),
    decreases s.len(),
{
    if s.len() > 0 {
        lemma_count_from_len(s.drop_last(), t);
    }
}

proof fn lemma_recent_props(s: Seq<u128>, now: u128, w: u64, t: int, b: int)
    ensures
        recent(s, now, w).len() <= s.len(),
        all_at_most(s, b) ==> all_at_most(recent(s, now, w), b),
        all_at_most(s, now as int) && t + w as nat * 1_000_000_000 > now ==> count_from(
            recent(s, now, w),
            t,
        ) == count_from(s, t),
    decreases s.len(),
{
    if s.len() > 0 {
        let r = recent(s.drop_last(), now, w);
        lemma_recent_props(s.drop_last(), now, w, t, b);
        if all_at_most(s, b) {
            assert(all_at_most(s.drop_last(), b));
        }
        if all_at_most(s, now as int) {
            assert(all_at_most(s.drop_last(), now as int));
        }
        if age(now, s.last()) < w as nat * 1_000_000_000 {
            let q = r.push(s.last());
            assert(q.drop_last() =~= r);
            if all_at_most(s, b) {
                assert forall|i: int| 0 <= i < q.len() implies q[i] <= b by {
                    if i < r.len() {
                        assert(q[i] == r[i]);
                    }
                }
            }
        }
    }
}

/// The log after the first `k` requests.
spec fn prefix_log(
    calls: Seq<(Seq<char>, u128)>,
    max_requests: usize,
    window_secs: u64,
    k: int,
) -> Map<Seq<char>, Seq<u128>> {
    log_after(Map::empty(), calls.take(k), max_requests, window_secs)
}

proof fn lemma_prefix_step(calls: Seq<(Seq<char>, u128)>, max_requests: usize, window_secs: u64, k: int)
    requires
        0 <= k < calls.len(),
    ensures
        prefix_log(calls, max_requests, window_secs, k + 1) == after_check(
            prefix_log(calls, max_requests, window_secs, k),
            calls[k].0,
            max_requests,
            window_secs,
            calls[k].1,
        ),
{
    assert(calls.take(k + 1).drop_last() =~= calls.take(k));
    assert(calls.take(k + 1).last() == calls[k]);
}

/// Every recorded time is at most a bound on the readings so far, and no key
/// holds more than `max_requests` times.
proof fn lemma_prefix_bounds(
    calls: Seq<(Seq<char>, u128)>,
    max_requests: usize,
    window_secs: u64,
    k: int,
    b: int,
)
    requires
        0 <= k <= calls.len(),
        forall|j: int| 0 <= j < k ==> calls[j].1 <= b,
    ensures
        forall|key: Seq<char>| all_at_most(#[trigger] times_of(prefix_log(calls, max_requests, window_secs, k), key), b),
        forall|key: Seq<char>| (#[trigger] times_of(prefix_log(calls, max_requests, window_secs, k), key)).len() <= max_requests,
    decreases k,
{
    if k == 0 {
        assert(calls.take(0) =~= Seq::<(Seq<char>, u128)>::empty());
    } else {
        lemma_prefix_bounds(calls, max_requests, window_secs, k - 1, b);
        lemma_prefix_step(calls, max_requests, window_secs, k - 1);
        let m = prefix_log(calls, max_requests, window_secs, k - 1);
        let (kk, r) = calls[k - 1];
        let old = times_of(m, kk);
        lemma_recent_props(old, r, window_secs, 0, b);
        let kept = recent(old, r, window_secs);
        let after = prefix_log(calls, max_requests, window_secs, k);
        assert forall|key: Seq<char>| all_at_most(#[trigger] times_of(after, key), b) by {
            if key == kk {
                if kept.len() < max_requests {
                    let q = kept.push(r);
                    assert forall|i: int| 0 <= i < q.len() implies q[i] <= b by {
                        if i < kept.len() {
                            assert(q[i] == kept[i]);
                        }
                    }
                }
            } else {
                assert(times_of(after, key) == times_of(m, key));
            }
        }
        assert forall|key: Seq<char>| (#[trigger] times_of(after, key)).len() <= max_requests by {
            if key != kk {
                assert(times_of(after, key) == times_of(m, key));
            }
        }
    }
}

/// While every reading so far is younger than the window starting at `lo`,
/// the allowed requests of a key from `lo` on are all still recorded.
proof fn lemma_granted_recorded(
    calls: Seq<(Seq<char>, u128)>,
    max_requests: usize,
    window_secs: u64,
    key: Seq<char>,
    lo: int,
    hi: int,
    k: int,
)
    requires
        0 <= k <= calls.len(),
        readings_ordered(calls),
        forall|j: int| 0 <= j < k ==> calls[j].1 < lo + window_secs as nat * 1_000_000_000,
    ensures
        granted_in(Map::empty(), calls, max_requests, window_secs, key, lo, hi, k) <= count_from(
            times_of(prefix_log(calls, max_requests, window_secs, k), key),
            lo,
        ),
    decreases k,
{
    if k == 0 {
    } else {
        lemma_granted_recorded(calls, max_requests, window_secs, key, lo, hi, k - 1);
        lemma_prefix_step(calls, max_requests, window_secs, k - 1);
        let m = prefix_log(calls, max_requests, window_secs, k - 1);
        let (kk, r) = calls[k - 1];
        assert forall|j: int| 0 <= j < k - 1 implies calls[j].1 <= r by {}
        lemma_prefix_bounds(calls, max_requests, window_secs, k - 1, r as int);
        let after = prefix_log(calls, max_requests, window_secs, k);
        assert(granted(Map::empty(), calls, max_requests, window_secs, k - 1) == allows(
            m,
            kk,
            max_requests,
            window_secs,
            r,
        ));
        if key == kk {
            let old = times_of(m, key);
            assert(all_at_most(old, r as int));
            lemma_recent_props(old, r, window_secs, lo, r as int);
            let kept = recent(old, r, window_secs);
            if kept.len() < max_requests {
                let q = kept.push(r);
                assert(q.drop_last() =~= kept);
                assert(times_of(after, key) == q);
            } else {
                assert(times_of(after, key) == kept);
            }
        } else {
            assert(times_of(after, key) == times_of(m, key));
        }
    }
}

proof fn lemma_granted_bound(
    calls: Seq<(Seq<char>, u128)>,
    max_requests: usize,
    window_secs: u64,
    key: Seq<char>,
    lo: int,
    n: int,
)
    requires
        0 <= n <= calls.len(),
        readings_ordered(calls),
    ensures
        granted_in(
            Map::empty(),
            calls,
            max_requests,
            window_secs,
            key,
            lo,
            lo + window_secs as nat * 1_000_000_000,
            n,
        ) <= max_requests,
    decreases n,
{
    let hi = lo + window_secs as nat * 1_000_000_000;
    if n > 0 {
        if calls[n - 1].1 < hi {
            assert forall|j: int| 0 <= j < n implies calls[j].1 < hi by {
                assert(calls[j].1 <= calls[n - 1].1);
            }
            lemma_granted_recorded(calls, max_requests, window_secs, key, lo, hi, n);
            lemma_prefix_bounds(calls, max_requests, window_secs, n, hi);
            let t = times_of(prefix_log(calls, max_requests, window_secs, n), key);
            lemma_count_from_len(t, lo);
        } else {
            lemma_granted_bound(calls, max_requests, window_secs, key, lo, n - 1);
        }
    }
}

/// The sliding window over successive requests: whatever keys and readings
/// a fresh limiter is asked about, with readings that never go back, at most
/// `max_requests` requests of one key are allowed within any span of
/// `window_secs` seconds, and none at all when `max_requests` is 0. (A
/// limiter's `check` and `check_at` answer `granted` and keep `log_after`, by
/// their contracts.)
pub proof fn law_sliding_window(
    calls: Seq<(Seq<char>, u128)>,
    max_requests: usize,
    window_secs: u64,
    key: Seq<char>,
    lo: int,
)
    requires
        readings_ordered(calls),
    ensures
        granted_in(
            Map::empty(),
            calls,
            max_requests,
            window_secs,
            key,
            lo,
            lo + window_secs as nat * 1_000_000_000,
            calls.len() as int,
        ) <= max_requests,
        max_requests == 0 ==> forall|j: int|
            0 <= j < calls.len() ==> !#[trigger] granted(Map::empty(), calls, max_requests, window_secs, j),
{
    lemma_granted_bound(calls, max_requests, window_secs, key, lo, calls.len() as int);
}

} // verus!
