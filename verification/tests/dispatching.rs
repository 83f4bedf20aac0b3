use login_limiter::credentials::Credential;
use login_limiter::dispatch::{Action, Dispatcher, Event, Outcome};
use login_limiter::limiter::RateLimitConfig;

fn cred(id: &str, secret: &str) -> Credential {
    Credential { account_id: String::from(id), secret: String::from(secret) }
}

fn dispatched_id(a: Action) -> String {
    match a {
        Action::Dispatch(c) => c.account_id,
        Action::Sleep(w) => panic!("expected a dispatch, told to sleep {} ms", w),
        Action::Done => panic!("expected a dispatch, told the run is done"),
    }
}

#[test]
fn empty_run_is_immediately_done() {
    let mut d = Dispatcher::new(Vec::new(), RateLimitConfig::new(30));
    assert!(matches!(d.step(Event::Clock(0)), Action::Done));
}

#[test]
fn third_acquire_waits_out_the_residual_window() {
    // Two sends per 30 s window, three credentials: the third dispatch must
    // wait exactly the residual window of the first send.
    let creds = vec![cred("alice", "pw1"), cred("bob", "pw2"), cred("carol", "pw3")];
    let mut d = Dispatcher::new(creds, RateLimitConfig::new(2));

    assert_eq!(dispatched_id(d.step(Event::Clock(0))), "alice");
    assert_eq!(dispatched_id(d.step(Event::Completed(5, Outcome::Status(200)))), "bob");
    // At 10 ms both window slots are taken (instants 0 and 5): sleep until
    // the first ages out, 30000 - 10 = 29990 ms.
    match d.step(Event::Completed(10, Outcome::Status(403))) {
        Action::Sleep(wait) => assert_eq!(wait, 29_990),
        _ => panic!("expected to be told to sleep"),
    }
    // Woken at 30000: the first instant has aged out, carol goes.
    assert_eq!(dispatched_id(d.step(Event::Clock(30_000))), "carol");
    let done = d.step(Event::Completed(
        30_040,
        Outcome::TransportError(String::from("connection reset")),
    ));
    assert!(matches!(done, Action::Done));

    // One report per credential, in input order, with the fed-back outcomes.
    assert_eq!(d.reports.len(), 3);
    assert_eq!(d.reports[0].account_id, "alice");
    assert!(matches!(d.reports[0].outcome, Outcome::Status(200)));
    assert_eq!(d.reports[1].account_id, "bob");
    assert!(matches!(d.reports[1].outcome, Outcome::Status(403)));
    assert_eq!(d.reports[2].account_id, "carol");
    assert!(matches!(&d.reports[2].outcome,
        Outcome::TransportError(e) if e == "connection reset"));
}

#[test]
fn requests_go_out_in_input_order() {
    let creds = vec![cred("c1", "p"), cred("c2", "p"), cred("c3", "p"), cred("c4", "p")];
    let mut d = Dispatcher::new(creds, RateLimitConfig::new(45));
    let mut order: Vec<String> = Vec::new();
    let mut t = 0u64;
    loop {
        let event = if d.in_flight {
            Event::Completed(t, Outcome::Status(200))
        } else {
            Event::Clock(t)
        };
        match d.step(event) {
            Action::Dispatch(c) => {
                order.push(c.account_id);
                t += 7;
            },
            Action::Sleep(w) => {
                t += w;
            },
            Action::Done => break,
        }
    }
    assert_eq!(order, vec!["c1", "c2", "c3", "c4"]);
}

#[test]
fn a_failed_request_never_aborts_the_run() {
    let creds = vec![cred("a", "p"), cred("b", "p")];
    let mut d = Dispatcher::new(creds, RateLimitConfig::new(45));
    assert_eq!(dispatched_id(d.step(Event::Clock(0))), "a");
    // The first request dies on the wire; the run continues with the next.
    let a = d.step(Event::Completed(1, Outcome::TransportError(String::from("timed out"))));
    assert_eq!(dispatched_id(a), "b");
    assert!(matches!(d.step(Event::Completed(2, Outcome::Status(200))), Action::Done));
    assert_eq!(d.reports.len(), 2);
    assert!(matches!(&d.reports[0].outcome, Outcome::TransportError(e) if e == "timed out"));
    assert!(matches!(d.reports[1].outcome, Outcome::Status(200)));
}

#[test]
fn one_request_in_flight_at_a_time() {
    // While a request is outstanding the dispatcher's own accounting shows
    // exactly one dispatched-but-unreported credential, and a completion is
    // required before the next dispatch.
    let creds = vec![cred("a", "p"), cred("b", "p")];
    let mut d = Dispatcher::new(creds, RateLimitConfig::new(45));
    assert!(!d.in_flight);
    let _ = dispatched_id(d.step(Event::Clock(0)));
    assert!(d.in_flight);
    assert_eq!(d.next, 1);
    assert_eq!(d.reports.len(), 0);
    let _ = dispatched_id(d.step(Event::Completed(3, Outcome::Status(200))));
    assert!(d.in_flight);
    assert_eq!(d.next, 2);
    assert_eq!(d.reports.len(), 1);
}
