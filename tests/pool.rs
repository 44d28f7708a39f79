use h2_tunnel::pool::{is_h2_alpn, should_stop, H2ClientPool, PollOutcome, Pooled};

struct FakeConn {
    name: &'static str,
    ready: bool,
    broken: bool,
    wired: usize,
    outcome: PollOutcome,
    asked: usize,
    polled: usize,
}

impl FakeConn {
    fn new(name: &'static str) -> FakeConn {
        FakeConn { name, ready: true, broken: false, wired: 0, outcome: PollOutcome::Pending, asked: 0, polled: 0 }
    }
}

fn pool_with(conns: Vec<FakeConn>) -> H2ClientPool<FakeConn> {
    let mut pool = H2ClientPool::new();
    for c in conns {
        let p = pool.adopt(c);
        assert!(pool.release(p));
    }
    pool
}

/// Takes a ready connection as a caller does: asks each in turn.
fn pop(pool: &mut H2ClientPool<FakeConn>) -> Result<Option<Pooled<FakeConn>>, &'static str> {
    let mut pass = pool.begin_pop();
    while let Some(mut p) = pool.next_to_ask(&mut pass) {
        p.conn_mut().asked += 1;
        if p.conn().broken {
            return Err(p.conn().name);
        }
        let ready = p.conn().ready;
        if let Some(p) = pool.take_if_ready(&mut pass, p, ready) {
            return Ok(Some(p));
        }
    }
    Ok(None)
}

/// One driver tick as the driver runs it; `true` when it is finished.
fn tick(pool: &mut H2ClientPool<FakeConn>, sole_owner: bool, log: &mut Vec<&'static str>) -> bool {
    let wired: Vec<usize> = (0..pool.len()).map(|i| pool.idle_conn(i).wired).collect();
    if should_stop(sole_owner, &wired) {
        return true;
    }
    let mut pass = pool.begin_poll();
    while let Some(mut p) = pool.next_to_poll(&mut pass) {
        p.conn_mut().polled += 1;
        log.push(p.conn().name);
        let outcome = p.conn().outcome;
        pool.keep_after_poll(&mut pass, p, outcome);
    }
    false
}

fn names(pool: &mut H2ClientPool<FakeConn>) -> Vec<&'static str> {
    let mut out = Vec::new();
    let mut taken = Vec::new();
    while let Ok(Some(p)) = pop(pool) {
        out.push(p.conn().name);
        taken.push(p);
    }
    for p in taken {
        pool.release(p);
    }
    out
}

#[test]
fn first_request_creates_one_connection_and_returns_it() {
    let mut pool: H2ClientPool<FakeConn> = H2ClientPool::new();
    assert!(matches!(pop(&mut pool), Ok(None)));
    let mut p = pool.adopt(FakeConn::new("example:443"));
    assert_eq!(pool.connections_created(), 1);
    // a stream is issued on it, then the connection goes back to the queue
    p.conn_mut().wired += 1;
    let id = p.id();
    assert!(pool.release(p));
    assert!(pool.contains(id));
    assert_eq!(pool.len(), 1);
    // the stream closes
    let mut p = pop(&mut pool).unwrap().unwrap();
    p.conn_mut().wired -= 1;
    assert_eq!(p.conn().wired, 0);
    assert!(pool.release(p));
    assert_eq!(pool.len(), 1);
    assert_eq!(pool.connections_created(), 1);
}

#[test]
fn idle_ready_connection_is_reused() {
    let mut pool = pool_with(vec![FakeConn::new("a")]);
    let p = pop(&mut pool).unwrap().unwrap();
    assert_eq!(p.conn().name, "a");
    assert_eq!(pool.connections_created(), 1);
}

#[test]
fn concurrent_requests_never_create_more_than_requests() {
    let mut pool: H2ClientPool<FakeConn> = H2ClientPool::new();
    let n = 5;
    let mut held = Vec::new();
    for _ in 0..n {
        let p = match pop(&mut pool).unwrap() {
            Some(p) => p,
            None => pool.adopt(FakeConn::new("c")),
        };
        held.push(p);
    }
    assert!(pool.connections_created() <= n);
    for p in held {
        assert!(pool.release(p));
    }
    for _ in 0..n {
        let p = match pop(&mut pool).unwrap() {
            Some(p) => p,
            None => pool.adopt(FakeConn::new("c")),
        };
        assert!(pool.release(p));
    }
    assert_eq!(pool.connections_created(), n);
}

#[test]
fn not_ready_connection_goes_to_the_back() {
    let mut a = FakeConn::new("a");
    a.ready = false;
    let mut pool = pool_with(vec![a, FakeConn::new("b"), FakeConn::new("c")]);
    let p = pop(&mut pool).unwrap().unwrap();
    assert_eq!(p.conn().name, "b");
    assert!(pool.release(p));
    let mut order = Vec::new();
    let mut taken = Vec::new();
    for _ in 0..2 {
        let p = pop(&mut pool).unwrap().unwrap();
        order.push(p.conn().name);
        taken.push(p);
    }
    assert_eq!(order, vec!["c", "b"]);
}

#[test]
fn no_ready_connection_means_none_and_order_kept() {
    let mut a = FakeConn::new("a");
    a.ready = false;
    let mut b = FakeConn::new("b");
    b.ready = false;
    let mut pool = pool_with(vec![a, b]);
    assert!(matches!(pop(&mut pool), Ok(None)));
    assert_eq!(pool.len(), 2);
    assert!(names(&mut pool).is_empty());
}

#[test]
fn failed_connection_is_evicted_and_never_handed_out() {
    let mut bad = FakeConn::new("bad");
    bad.outcome = PollOutcome::Failed;
    let mut closed = FakeConn::new("closed");
    closed.outcome = PollOutcome::Closed;
    let mut pool = pool_with(vec![FakeConn::new("a"), bad, closed, FakeConn::new("b")]);
    let mut log = Vec::new();
    assert!(!tick(&mut pool, false, &mut log));
    assert_eq!(log, vec!["a", "bad", "closed", "b"]);
    assert_eq!(pool.len(), 2);
    assert_eq!(names(&mut pool), vec!["a", "b"]);
    assert!(!pool.contains(1));
    assert!(!pool.contains(2));
}

#[test]
fn driver_finishes_when_sole_owner_and_idle() {
    let mut pool = pool_with(vec![FakeConn::new("a"), FakeConn::new("b")]);
    assert!(tick(&mut pool, true, &mut Vec::new()));
    assert_eq!(pool.len(), 2);
}

#[test]
fn driver_keeps_running_with_open_streams_or_other_handles() {
    let mut busy = FakeConn::new("busy");
    busy.wired = 2;
    let mut pool = pool_with(vec![FakeConn::new("a"), busy]);
    assert!(!tick(&mut pool, true, &mut Vec::new()));
    let mut idle = pool_with(vec![FakeConn::new("a")]);
    assert!(!tick(&mut idle, false, &mut Vec::new()));
    let mut empty: H2ClientPool<FakeConn> = H2ClientPool::new();
    assert!(tick(&mut empty, true, &mut Vec::new()));
}

#[test]
fn release_refuses_foreign_or_queued_connection() {
    let mut pool: H2ClientPool<FakeConn> = H2ClientPool::new();
    let mut other: H2ClientPool<FakeConn> = H2ClientPool::new();
    let _ = other.adopt(FakeConn::new("x"));
    let foreign = other.adopt(FakeConn::new("y"));
    assert!(!pool.release(foreign));
    assert_eq!(pool.len(), 0);
}

#[test]
fn alpn_h2_is_recognised() {
    assert!(is_h2_alpn(Some(b"h2")));
    assert!(!is_h2_alpn(Some(b"http/1.1")));
    assert!(!is_h2_alpn(Some(b"h2c")));
    assert!(!is_h2_alpn(None));
}

#[test]
fn readiness_error_reaches_the_caller_and_drops_the_connection() {
    let mut bad = FakeConn::new("bad");
    bad.broken = true;
    let mut pool = pool_with(vec![bad, FakeConn::new("b")]);
    assert_eq!(pop(&mut pool).err(), Some("bad"));
    assert_eq!(pool.len(), 1);
    assert!(!pool.contains(0));
    assert_eq!(names(&mut pool), vec!["b"]);
}

#[test]
fn ready_front_connection_is_taken_after_one_question() {
    let mut pool = pool_with(vec![FakeConn::new("a"), FakeConn::new("b")]);
    let p = pop(&mut pool).unwrap().unwrap();
    assert_eq!(p.conn().name, "a");
    assert_eq!(p.conn().asked, 1);
    assert_eq!(pool.len(), 1);
    assert_eq!(pool.idle_conn(0).asked, 0);
}

#[test]
fn every_connection_is_asked_once_before_a_new_one_is_needed() {
    let mut a = FakeConn::new("a");
    a.ready = false;
    let mut b = FakeConn::new("b");
    b.ready = false;
    let mut pool = pool_with(vec![a, b]);
    assert!(matches!(pop(&mut pool), Ok(None)));
    assert_eq!(pool.idle_conn(0).name, "a");
    assert_eq!(pool.idle_conn(0).asked, 1);
    assert_eq!(pool.idle_conn(1).asked, 1);
}

#[test]
fn each_connection_is_polled_once_per_tick_even_after_a_failure() {
    let mut bad = FakeConn::new("bad");
    bad.outcome = PollOutcome::Failed;
    let mut pool = pool_with(vec![bad, FakeConn::new("a"), FakeConn::new("b")]);
    let mut log = Vec::new();
    assert!(!tick(&mut pool, false, &mut log));
    assert_eq!(log, vec!["bad", "a", "b"]);
    assert_eq!(pool.len(), 2);
    assert_eq!(pool.idle_conn(0).polled, 1);
    assert_eq!(pool.idle_conn(1).polled, 1);
}

#[test]
fn should_stop_only_when_sole_owner_and_no_stream() {
    assert!(should_stop(true, &vec![0, 0, 0]));
    assert!(should_stop(true, &vec![]));
    assert!(!should_stop(true, &vec![0, 1, 0]));
    assert!(!should_stop(false, &vec![0, 0]));
}
