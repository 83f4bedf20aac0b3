//! Sliding-window rate limiter.
//!
//! The limiter records the instant of every admitted send in a deque that is
//! always sorted ascending (sends are recorded at the current instant, and
//! time only moves forward). An instant is lazily evicted from the deque once
//! the full window has elapsed since it was recorded. A send is admitted only
//! while fewer than the configured limit of instants remain in the deque.
//!
//! Instants are plain milliseconds on a monotone clock supplied by the
//! caller, so the limiter is fully deterministic and testable.

use std::collections::VecDeque;
use vstd::prelude::*;

verus! {

/// Length of the rate window in milliseconds: fixed at 30 seconds.
pub const WINDOW_MS: u64 = 30_000;

/// Largest admissible number of requests per window.
pub const LIMIT_CAP: usize = 45;

/// Configuration of the limiter: how many sends may be counted against the
/// trailing window at once, and how long the window is.
pub struct RateLimitConfig {
    pub max_requests_per_window: usize,
    pub window_ms: u64,
}

impl RateLimitConfig {
    pub open spec fn wf(self) -> bool {
        &&& 1 <= self.max_requests_per_window <= LIMIT_CAP
        &&& self.window_ms >= 1
    }

    /// Build a configuration from a requested per-window limit, clamping it
    /// into the accepted range: a request above 45 is clamped down to 45, and
    /// a request of 0 is clamped up to 1 (a limit of 0 could never admit any
    /// send, so the limiter would wait forever; clamping to 1 is this
    /// library's documented policy for that case).
    pub fn new(requested: usize) -> (c: Self)
        ensures
            c.wf(),
            c.window_ms == WINDOW_MS,
            c.max_requests_per_window == (if requested == 0 {
                1usize
            } else if requested > LIMIT_CAP {
                LIMIT_CAP
            } else {
                requested
            }),
    {
        let limit: usize = if requested == 0 {
            1
        } else if requested > LIMIT_CAP {
            LIMIT_CAP
        } else {
            requested
        };
        RateLimitConfig { max_requests_per_window: limit, window_ms: WINDOW_MS }
    }
}

/// The sequence is ascending.
pub open spec fn ascending(s: Seq<u64>) -> bool {
    forall|i: int, j: int| 0 <= i <= j < s.len() ==> s[i] <= s[j]
}

/// Whether instant `e` falls in the half-open window `(lo, hi]`.
pub open spec fn in_window(e: u64, lo: int, hi: int) -> bool {
    lo < e as int && e as int <= hi
}

/// How many instants of `s` fall in the half-open window `(lo, hi]`.
pub open spec fn count_in(s: Seq<u64>, lo: int, hi: int) -> nat
    decreases s.len(),
{
    if s.len() == 0 {
        0
    } else {
        count_in(s.drop_last(), lo, hi) + (if in_window(s.last(), lo, hi) {
            1nat
        } else {
            0nat
        })
    }
}

/// Every recorded instant, at the moment it was recorded, saw at most
/// `limit` recorded instants (itself included) in the window ending at it.
/// This is exactly what the limiter checks before recording a send.
pub open spec fn records_bounded(h: Seq<u64>, window: int, limit: int) -> bool {
    forall|i: int|
        0 <= i < h.len() ==> count_in(
            #[trigger] h.take(i + 1),
            h[i] as int - window,
            h[i] as int,
        ) <= limit
}

proof fn lemma_count_le_len(s: Seq<u64>, lo: int, hi: int)
    ensures
        count_in(s, lo, hi) <= s.len(),
    decreases s.len(),
{
    if s.len() > 0 {
        lemma_count_le_len(s.drop_last(), lo, hi);
    }
}

proof fn lemma_count_none(s: Seq<u64>, lo: int, hi: int)
    requires
        forall|i: int| 0 <= i < s.len() ==> !in_window(#[trigger] s[i], lo, hi),
    ensures
        count_in(s, lo, hi) == 0,
    decreases s.len(),
{
    if s.len() > 0 {
        assert(forall|i: int|
            0 <= i < s.drop_last().len() ==> !in_window(#[trigger] s.drop_last()[i], lo, hi));
        lemma_count_none(s.drop_last(), lo, hi);
    }
}

proof fn lemma_count_concat(a: Seq<u64>, b: Seq<u64>, lo: int, hi: int)
    ensures
        count_in(a + b, lo, hi) == count_in(a, lo, hi) + count_in(b, lo, hi),
    decreases b.len(),
{
    if b.len() == 0 {
        assert(a + b =~= a);
    } else {
        assert((a + b).drop_last() =~= a + b.drop_last());
        assert((a + b).last() == b.last());
        lemma_count_concat(a, b.drop_last(), lo, hi);
    }
}

/// If membership in `(lo1, hi1]` implies membership in `(lo2, hi2]` for every
/// instant of `s`, the first count cannot exceed the second.
proof fn lemma_count_narrower(s: Seq<u64>, lo1: int, hi1: int, lo2: int, hi2: int)
    requires
        forall|i: int|
            0 <= i < s.len() ==> in_window(#[trigger] s[i], lo1, hi1) ==> in_window(
                s[i],
                lo2,
                hi2,
            ),
    ensures
        count_in(s, lo1, hi1) <= count_in(s, lo2, hi2),
    decreases s.len(),
{
    if s.len() > 0 {
        assert(forall|i: int|
            0 <= i < s.drop_last().len() ==> in_window(#[trigger] s.drop_last()[i], lo1, hi1)
                ==> in_window(s.drop_last()[i], lo2, hi2));
        lemma_count_narrower(s.drop_last(), lo1, hi1, lo2, hi2);
    }
}

/// Sliding-window invariant: if instants were recorded in ascending order and
/// each recording saw at most `limit` instants in the window ending at it,
/// then at *every* instant `t` — not only the recording instants — at most
/// `limit` recorded instants fall in the trailing window `(t - window, t]`.
pub proof fn lemma_sliding_window(h: Seq<u64>, window: int, limit: int, t: int)
    requires
        ascending(h),
        records_bounded(h, window, limit),
        limit >= 0,
    ensures
        count_in(h, t - window, t) <= limit,
    decreases h.len(),
{
    if h.len() == 0 {
    } else {
        let hp = h.drop_last();
        let e = h.last();
        if in_window(e, t - window, t) {
            // Every instant counted in (t - window, t] is also counted in the
            // window ending at `e`: it is at most `e` because the sequence is
            // ascending and `e` is last, and it is above `e - window` because
            // `e <= t`.
            assert(forall|i: int|
                0 <= i < h.len() ==> in_window(#[trigger] h[i], t - window, t) ==> in_window(
                    h[i],
                    e as int - window,
                    e as int,
                ));
            lemma_count_narrower(h, t - window, t, e as int - window, e as int);
            assert(h.take(h.len() as int - 1 + 1) =~= h);
            assert(count_in(h, e as int - window, e as int) <= limit);
        } else {
            assert(forall|i: int| 0 <= i < hp.len() ==> #[trigger] hp[i] == h[i]);
            assert(forall|i: int|
                0 <= i < hp.len() ==> #[trigger] hp.take(i + 1) =~= h.take(i + 1));
            assert(records_bounded(hp, window, limit));
            lemma_sliding_window(hp, window, limit, t);
        }
    }
}

/// The sliding-window rate limiter.
///
/// `times` holds the recorded instants still counted against the window,
/// oldest first. The ghost `evicted` sequence keeps the instants that have
/// aged out, so that `history()` — everything ever recorded — is available to
/// contracts. `last_now` is the latest clock reading the limiter has seen;
/// callers must hand it a monotone clock.
pub struct RateLimiter {
    pub limit: usize,
    pub window_ms: u64,
    pub times: VecDeque<u64>,
    pub last_now: u64,
    pub evicted: Ghost<Seq<u64>>,
}

impl RateLimiter {
    /// Every instant ever recorded, in order: first the aged-out ones, then
    /// those still counted against the window.
    pub open spec fn history(self) -> Seq<u64> {
        self.evicted@ + self.times@
    }

    pub open spec fn wf(self) -> bool {
        &&& 1 <= self.limit <= LIMIT_CAP
        &&& self.window_ms >= 1
        &&& ascending(self.history())
        &&& self.times@.len() <= self.limit
        &&& forall|i: int|
            0 <= i < self.evicted@.len() ==> #[trigger] self.evicted@[i] as int
                + self.window_ms as int <= self.last_now as int
        &&& forall|i: int|
            0 <= i < self.history().len() ==> #[trigger] self.history()[i] <= self.last_now
        &&& records_bounded(self.history(), self.window_ms as int, self.limit as int)
    }

    pub fn new(config: RateLimitConfig) -> (r: Self)
        requires
            config.wf(),
        ensures
            r.wf(),
            r.limit == config.max_requests_per_window,
            r.window_ms == config.window_ms,
            r.history() == Seq::<u64>::empty(),
            r.last_now == 0,
    {
        let r = RateLimiter {
            limit: config.max_requests_per_window,
            window_ms: config.window_ms,
            times: VecDeque::new(),
            last_now: 0,
            evicted: Ghost(Seq::empty()),
        };
        proof {
            assert(r.history() =~= Seq::<u64>::empty());
        }
        r
    }

    /// One admission attempt at instant `now`.
    ///
    /// While the window is saturated, instants whose full window has elapsed
    /// are evicted from the front (and only those: an instant is never
    /// evicted before `window_ms` has passed since it was recorded). If room
    /// was made, `now` is recorded and `None` is returned: the caller holds
    /// a single-use send authorization. Otherwise the window is still full of
    /// fresh instants and `Some(wait)` is returned, where `wait` is exactly
    /// the time left until the oldest counted instant ages out; nothing is
    /// recorded and the caller must try again no earlier than `wait` from
    /// `now`.
    pub fn try_acquire(&mut self, now: u64) -> (r: Option<u64>)
        requires
            old(self).wf(),
            old(self).last_now <= now,
        ensures
            final(self).wf(),
            final(self).limit == old(self).limit,
            final(self).window_ms == old(self).window_ms,
            final(self).last_now == now,
            // Eviction correctness: whatever was newly evicted had aged the
            // full window by `now`.
            old(self).evicted@.is_prefix_of(final(self).evicted@),
            forall|i: int|
                old(self).evicted@.len() <= i < final(self).evicted@.len()
                    ==> #[trigger] final(self).evicted@[i] as int + final(self).window_ms as int
                    <= now as int,
            // The caller is put off exactly when the window still holds a
            // full complement of counted instants and the oldest of them has
            // not yet aged out.
            (r is Some) <==> (old(self).times@.len() == old(self).limit
                && (now as int) < old(self).times@[0] as int + old(self).window_ms as int),
            // At most one instant is evicted per attempt: the aged head that
            // had to make room, if the window was full, and nothing else.
            (r is None && old(self).times@.len() == old(self).limit) ==> final(self).evicted@
                == old(self).evicted@.push(old(self).times@[0]),
            (r is None && old(self).times@.len() < old(self).limit) ==> final(self).evicted@
                == old(self).evicted@,
            match r {
                // Admitted: `now` is recorded, and nothing else changes in
                // the recorded history.
                None => final(self).history() == old(self).history().push(now),
                // Saturated: nothing is recorded or evicted, the deque holds
                // exactly `limit` fresh instants, and `wait` is the time left
                // until the oldest ages out.
                Some(wait) => {
                    &&& final(self).times@ == old(self).times@
                    &&& final(self).evicted@ == old(self).evicted@
                    &&& final(self).times@.len() == final(self).limit
                    &&& (now as int) < final(self).times@[0] as int + final(self).window_ms as int
                    &&& wait as int == final(self).times@[0] as int + final(self).window_ms as int
                        - now as int
                    &&& 0 < wait <= final(self).window_ms
                },
            },
    {
        self.last_now = now;
        proof {
            assert(forall|i: int|
                0 <= i < self.evicted@.len() ==> #[trigger] self.evicted@[i] as int
                    + self.window_ms as int <= now as int);
        }
        while self.times.len() >= self.limit
            invariant
                self.limit == old(self).limit,
                self.window_ms == old(self).window_ms,
                self.last_now == now,
                1 <= self.limit <= LIMIT_CAP,
                self.window_ms >= 1,
                old(self).last_now <= now,
                ascending(self.history()),
                self.times@.len() <= self.limit,
                self.history() == old(self).history(),
                old(self).evicted@.is_prefix_of(self.evicted@),
                forall|i: int|
                    0 <= i < self.evicted@.len() ==> #[trigger] self.evicted@[i] as int
                        + self.window_ms as int <= now as int,
                forall|i: int|
                    0 <= i < self.history().len() ==> #[trigger] self.history()[i]
                        <= old(self).last_now,
                records_bounded(self.history(), self.window_ms as int, self.limit as int),
                // Either nothing has been evicted yet, or exactly the aged
                // head of a full window has been.
                (self.times@ == old(self).times@ && self.evicted@ == old(self).evicted@)
                    || (old(self).times@.len() == old(self).limit
                    && self.evicted@ == old(self).evicted@.push(old(self).times@[0])
                    && self.times@ == old(self).times@.skip(1)
                    && (now as int) >= old(self).times@[0] as int + self.window_ms as int),
            decreases self.times.len(),
        {
            let head: u64 = self.times[0];
            assert(head == self.history()[self.evicted@.len() as int]);
            let elapsed = now - head;
            if elapsed >= self.window_ms {
                // The oldest instant has aged out of the window: evict it.
                let ghost pre = *self;
                let _popped = self.times.pop_front();
                proof {
                    self.evicted@ = self.evicted@.push(head);
                    assert(self.history() =~= pre.history());
                    assert(self.times@ =~= pre.times@.skip(1));
                }
            } else {
                let wait = self.window_ms - elapsed;
                return Some(wait);
            }
        }
        // There is room: record the send instant.
        let ghost before = *self;
        self.times.push_back(now);
        proof {
            let h = before.history();
            assert(self.history() =~= h.push(now));
            // The new history stays ascending: everything recorded so far is
            // at most `old(self).last_now <= now`.
            assert(ascending(h.push(now))) by {
                assert(forall|i: int| 0 <= i < h.len() ==> #[trigger] h.push(now)[i] == h[i]);
            }
            // Everything in the new history is at most `now`.
            assert(forall|i: int|
                0 <= i < self.history().len() ==> #[trigger] self.history()[i] <= now);
            // The recording was within bounds: at most limit - 1 counted
            // instants remained, none of the evicted ones falls in the window
            // ending at `now`, and `now` itself adds one.
            lemma_count_concat(before.evicted@, before.times@, now as int - self.window_ms as int, now as int);
            lemma_count_none(before.evicted@, now as int - self.window_ms as int, now as int);
            lemma_count_le_len(before.times@, now as int - self.window_ms as int, now as int);
            assert(count_in(h, now as int - self.window_ms as int, now as int)
                <= self.limit as int - 1);
            assert(h.push(now).drop_last() =~= h);
            assert(count_in(h.push(now), now as int - self.window_ms as int, now as int)
                <= self.limit as int);
            // Older recordings kept their bound: their prefixes are unchanged.
            assert(records_bounded(h.push(now), self.window_ms as int, self.limit as int)) by {
                assert(forall|i: int|
                    0 <= i < h.len() ==> #[trigger] h.push(now).take(i + 1) =~= h.take(i + 1));
                assert(forall|i: int| 0 <= i < h.len() ==> #[trigger] h.push(now)[i] == h[i]);
                assert(h.push(now).take(h.len() as int + 1) =~= h.push(now));
            }
        }
        None
    }
}

/// The limiter never lets the trailing window overflow: in a well-formed
/// limiter, at most `limit` recorded instants fall within `(t - window, t]`
/// for *every* instant `t`.
pub proof fn lemma_limiter_window(rl: RateLimiter, t: int)
    requires
        rl.wf(),
    ensures
        count_in(rl.history(), t - rl.window_ms as int, t) <= rl.limit as int,
{
    lemma_sliding_window(rl.history(), rl.window_ms as int, rl.limit as int, t);
}

/// Eviction correctness: a well-formed limiter has only ever evicted
/// instants that had aged at least the full window by the latest clock
/// reading it saw — eviction is never premature.
pub proof fn lemma_eviction_aged(rl: RateLimiter)
    requires
        rl.wf(),
    ensures
        forall|i: int|
            0 <= i < rl.evicted@.len() ==> #[trigger] rl.evicted@[i] as int
                + rl.window_ms as int <= rl.last_now as int,
{
}

} // verus!
