//! The dispatch loop, as a verified state machine.
//!
//! The dispatcher drives the credential sequence, in order, through the rate
//! limiter. It performs no I/O itself: the embedding program feeds it events
//! (clock readings and request completions) and performs the actions it
//! returns (sleep, send one request, stop). Because a send authorization is
//! handed out only through [`Dispatcher::step`], and the next one is not
//! handed out before the previous request's outcome has been fed back, at
//! most one request is ever in flight, and requests go out in exactly the
//! input order.

use vstd::prelude::*;
use crate::credentials::Credential;
use crate::limiter::{count_in, lemma_limiter_window, RateLimitConfig, RateLimiter};

verus! {

/// The outcome of one completed request: the HTTP status the service
/// answered with (any status, 2xx or not, is a normal outcome), or the
/// detail of a transport error. Either way the run continues.
pub enum Outcome {
    Status(u16),
    TransportError(String),
}

/// One reported result: the account the request was for, and its outcome.
pub struct Report {
    pub account_id: String,
    pub outcome: Outcome,
}

/// What the embedding program tells the dispatcher.
///
/// Times are milliseconds on a monotone clock. While a request is in flight
/// the only admissible event is its completion; while none is, the only
/// admissible event is a clock reading.
pub enum Event {
    /// The current time; fed initially and after each commanded sleep.
    Clock(u64),
    /// The in-flight request finished at this time with this outcome.
    Completed(u64, Outcome),
}

/// What the dispatcher tells the embedding program to do next.
pub enum Action {
    /// The rate window is saturated: wait this many milliseconds, then feed
    /// back a fresh clock reading.
    Sleep(u64),
    /// Send the request for this credential, then feed back its completion.
    /// Issued at most once per credential, in input order.
    Dispatch(Credential),
    /// Every credential has been processed and reported.
    Done,
}

impl Event {
    pub open spec fn time(self) -> u64 {
        match self {
            Event::Clock(t) => t,
            Event::Completed(t, _) => t,
        }
    }
}

/// The dispatcher: the credential sequence, the limiter, and the progress of
/// the run. `next` counts the credentials already dispatched; `in_flight`
/// says whether the last dispatched request is still outstanding; `reports`
/// holds one outcome per completed request, in dispatch order. The ghost
/// `sent` sequence records the account id of every dispatched request, in
/// the order they were handed out.
pub struct Dispatcher {
    pub creds: Vec<Credential>,
    pub limiter: RateLimiter,
    pub next: usize,
    pub in_flight: bool,
    pub reports: Vec<Report>,
    pub sent: Ghost<Seq<Seq<char>>>,
}

impl Dispatcher {
    /// The account ids of the first `n` credentials, in order.
    pub open spec fn ids_prefix(self, n: int) -> Seq<Seq<char>> {
        Seq::new(n as nat, |i: int| self.creds@[i].account_id@)
    }

    pub open spec fn wf(self) -> bool {
        &&& self.limiter.wf()
        &&& self.next <= self.creds@.len()
        // Single flight: dispatched = reported + at most one outstanding.
        &&& self.next == self.reports@.len() + (if self.in_flight {
            1int
        } else {
            0int
        })
        // Order preservation: what was sent is exactly the prefix of the
        // input sequence that has been dispatched so far.
        &&& self.sent@ == self.ids_prefix(self.next as int)
        // Each report belongs to the credential it is numbered after.
        &&& forall|i: int|
            0 <= i < self.reports@.len() ==> #[trigger] self.reports@[i].account_id@
                == self.creds@[i].account_id@
    }

    /// A dispatcher over `creds`, ready to run under `config`.
    pub fn new(creds: Vec<Credential>, config: RateLimitConfig) -> (d: Self)
        requires
            config.wf(),
        ensures
            d.wf(),
            d.creds == creds,
            d.next == 0,
            !d.in_flight,
            d.reports@.len() == 0,
            d.sent@ == Seq::<Seq<char>>::empty(),
            d.limiter.limit == config.max_requests_per_window,
            d.limiter.window_ms == config.window_ms,
            d.limiter.history() == Seq::<u64>::empty(),
            d.limiter.last_now == 0,
    {
        let d = Dispatcher {
            creds,
            limiter: RateLimiter::new(config),
            next: 0,
            in_flight: false,
            reports: Vec::new(),
            sent: Ghost(Seq::empty()),
        };
        proof {
            assert(d.sent@ =~= d.ids_prefix(0));
        }
        d
    }

    /// One step of the run.
    ///
    /// A completion is recorded as the outstanding credential's report. Then,
    /// if credentials remain, admission is asked of the limiter: either the
    /// caller is told to sleep out the residual window, or the next
    /// credential — exactly the next one in input order — is dispatched.
    /// Once the sequence is exhausted the answer is `Done`.
    pub fn step(&mut self, event: Event) -> (a: Action)
        requires
            old(self).wf(),
            old(self).in_flight <==> event is Completed,
            old(self).limiter.last_now <= event.time(),
        ensures
            final(self).wf(),
            final(self).creds == old(self).creds,
            final(self).limiter.limit == old(self).limiter.limit,
            final(self).limiter.window_ms == old(self).limiter.window_ms,
            !final(self).in_flight ==> final(self).next == final(self).reports@.len(),
            // A completion is reported, for the credential that was in
            // flight, with the outcome that was fed back; a clock reading
            // reports nothing.
            match event {
                Event::Completed(_, outcome) => {
                    &&& final(self).reports@.len() == old(self).reports@.len() + 1
                    &&& final(self).reports@.last().account_id@
                        == old(self).creds@[old(self).next - 1].account_id@
                    &&& final(self).reports@.last().outcome == outcome
                    &&& final(self).reports@.take(old(self).reports@.len() as int)
                        == old(self).reports@
                },
                Event::Clock(_) => final(self).reports@ == old(self).reports@,
            },
            // Which action comes is determined by the state: `Done` exactly
            // when the sequence is exhausted, `Sleep` exactly when a
            // credential remains but the window is still full of instants
            // whose oldest has not aged out, `Dispatch` otherwise.
            (a is Done) <==> old(self).next == old(self).creds@.len(),
            (a is Sleep) <==> (old(self).next < old(self).creds@.len()
                && old(self).limiter.times@.len() == old(self).limiter.limit
                && (event.time() as int) < old(self).limiter.times@[0] as int
                + old(self).limiter.window_ms as int),
            match a {
                // The run is over: everything dispatched and reported.
                Action::Done => {
                    &&& final(self).next == final(self).creds@.len()
                    &&& !final(self).in_flight
                    &&& final(self).sent@ == final(self).ids_prefix(final(self).creds@.len() as int)
                },
                // The window is saturated: nothing was dispatched or
                // recorded; the wait is exactly the residual window of the
                // oldest counted send.
                Action::Sleep(wait) => {
                    &&& !final(self).in_flight
                    &&& final(self).next == old(self).next
                    &&& final(self).sent@ == old(self).sent@
                    &&& final(self).limiter.history() == old(self).limiter.history()
                    &&& final(self).limiter.times@.len() == final(self).limiter.limit
                    &&& wait as int == final(self).limiter.times@[0] as int
                        + final(self).limiter.window_ms as int - event.time() as int
                    &&& 0 < wait <= final(self).limiter.window_ms
                },
                // Dispatched: the next credential in input order, its send
                // instant recorded in the window.
                Action::Dispatch(c) => {
                    &&& final(self).in_flight
                    &&& old(self).next < old(self).creds@.len()
                    &&& c == old(self).creds@[old(self).next as int]
                    &&& final(self).next == old(self).next + 1
                    &&& final(self).sent@ == old(self).sent@.push(c.account_id@)
                    &&& final(self).limiter.history()
                        == old(self).limiter.history().push(event.time())
                },
            },
    {
        let now: u64;
        match event {
            Event::Completed(t, outcome) => {
                // The outstanding request finished: report its outcome.
                let idx = self.next - 1;
                let account_id = self.creds[idx].account_id.clone();
                self.reports.push(Report { account_id, outcome });
                self.in_flight = false;
                now = t;
            },
            Event::Clock(t) => {
                now = t;
            },
        }
        if self.next == self.creds.len() {
            return Action::Done;
        }
        match self.limiter.try_acquire(now) {
            Some(wait) => Action::Sleep(wait),
            None => {
                let c = self.creds[self.next].clone();
                self.next = self.next + 1;
                self.in_flight = true;
                proof {
                    self.sent@ = self.sent@.push(c.account_id@);
                    assert(self.sent@ =~= self.ids_prefix(self.next as int));
                }
                Action::Dispatch(c)
            },
        }
    }
}

/// Single-flight invariant: at every reachable state, the number of
/// dispatched requests whose outcome is not yet known is at most one — a
/// request is never dispatched before the previous one has completed.
pub proof fn lemma_single_flight(d: Dispatcher)
    requires
        d.wf(),
    ensures
        d.next - d.reports@.len() <= 1,
        d.in_flight <==> d.next == d.reports@.len() + 1,
        !d.in_flight <==> d.next == d.reports@.len(),
{
}

/// The dispatcher never exceeds the rate limit: every dispatched request's
/// send instant is recorded in the limiter's history, and at every instant
/// `t` — not only the instants at which something happened — at most `limit`
/// of those sends fall in the trailing window ending at `t`.
pub proof fn lemma_dispatch_rate(d: Dispatcher, t: int)
    requires
        d.wf(),
    ensures
        count_in(d.limiter.history(), t - d.limiter.window_ms as int, t) <= d.limiter.limit as int,
{
    lemma_limiter_window(d.limiter, t);
}

/// Order preservation: at every reachable state, the requests sent so far
/// are exactly the dispatched prefix of the input credential sequence — the
/// i-th request ever sent was for the i-th credential.
pub proof fn lemma_order_preserved(d: Dispatcher)
    requires
        d.wf(),
    ensures
        d.sent@.len() == d.next,
        forall|i: int| 0 <= i < d.next ==> d.sent@[i] == d.creds@[i].account_id@,
{
}

} // verus!
