//! A rate-limited, strictly serialized login dispatcher.
//!
//! The library authenticates a batch of accounts against a single remote
//! endpoint while never exceeding a sliding-window rate limit and never
//! having more than one request in flight. The verified core is:
//!
//! - [`credentials`]: parsing raw file text into an ordered sequence of
//!   (account id, secret) pairs, with account-id normalization;
//! - [`limiter`]: the sliding-window rate limiter over a deque of send
//!   instants, with lazy eviction of aged instants;
//! - [`dispatch`]: the dispatch loop as a state machine from events
//!   (clock readings, request completions) to actions (sleep, send, done),
//!   preserving input order and single-flight discipline;
//! - [`request`]: construction of the request URL and identifying header.
//!
//! Actual I/O (terminal, file reading, the HTTP exchange, sleeping) is left
//! to the embedding program, which drives [`dispatch::Dispatcher::step`].

pub mod credentials;
pub mod dispatch;
pub mod limiter;
pub mod request;
