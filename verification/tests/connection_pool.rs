use gilma::connection_pool::{Connection, ConnectionPool, MAX_AGE_NANOS, MAX_IDLE_NANOS};

const MS: u64 = 1_000_000;

#[test]
fn a_new_pool_is_empty() {
    let pool: ConnectionPool<u32> = ConnectionPool::new("127.0.0.1:8080".to_string(), 4);
    assert_eq!(pool.len(), 0);
    assert_eq!(pool.server_addr(), "127.0.0.1:8080");
    assert_eq!(MAX_AGE_NANOS, 300_000 * MS);
    assert_eq!(MAX_IDLE_NANOS, 60_000 * MS);
}

#[test]
fn checkout_of_an_empty_pool_gives_none() {
    let mut pool: ConnectionPool<u32> = ConnectionPool::new("a".to_string(), 4);
    assert!(pool.checkout(0).is_none());
    assert_eq!(pool.len(), 0);
}

#[test]
fn returned_connection_is_reused() {
    let mut pool = ConnectionPool::new("a".to_string(), 4);
    let c = Connection::new(7u32, 1000 * MS);
    assert!(pool.return_connection(c, 2000 * MS));
    assert_eq!(pool.len(), 1);
    let got = match pool.checkout(3000 * MS) {
        Some(c) => c,
        None => panic!("expected a connection"),
    };
    assert_eq!(got.stream, 7);
    assert_eq!(got.created_at, 1000 * MS);
    assert_eq!(got.last_used, 3000 * MS);
    assert_eq!(pool.len(), 0);
}

#[test]
fn oldest_connection_comes_out_first() {
    let mut pool = ConnectionPool::new("a".to_string(), 4);
    assert!(pool.return_connection(Connection::new(1u32, 0), 0));
    assert!(pool.return_connection(Connection::new(2u32, 0), 0));
    assert_eq!(pool.checkout(10 * MS).map(|c| c.stream), Some(1));
    assert_eq!(pool.checkout(10 * MS).map(|c| c.stream), Some(2));
}

#[test]
fn expired_connection_is_dropped_on_checkout() {
    let mut pool = ConnectionPool::new("a".to_string(), 4);
    let mut c = Connection::new(1u32, 0);
    c.touch(290_000 * MS);
    assert!(pool.return_connection(c, 299_000 * MS));
    assert!(pool.checkout(300_000 * MS).is_some());
    let mut c = Connection::new(2u32, 0);
    c.touch(290_000 * MS);
    assert!(pool.return_connection(c, 299_000 * MS));
    assert!(pool.checkout(300_001 * MS).is_none());
    assert_eq!(pool.len(), 0);
}

#[test]
fn idle_connection_is_dropped_on_checkout() {
    let mut pool = ConnectionPool::new("a".to_string(), 4);
    assert!(pool.return_connection(Connection::new(1u32, 1000 * MS), 1000 * MS));
    assert!(pool.checkout(61_000 * MS).is_some());
    assert!(pool.return_connection(Connection::new(2u32, 1000 * MS), 1000 * MS));
    assert!(pool.checkout(61_001 * MS).is_none());
}

#[test]
fn full_pool_drops_returned_connection() {
    let mut pool = ConnectionPool::new("a".to_string(), 1);
    assert!(pool.return_connection(Connection::new(1u32, 0), 0));
    assert!(!pool.return_connection(Connection::new(2u32, 0), 0));
    assert_eq!(pool.len(), 1);
}

#[test]
fn stale_connection_is_not_taken_back() {
    let mut pool = ConnectionPool::new("a".to_string(), 4);
    assert!(!pool.return_connection(Connection::new(1u32, 0), 60_001 * MS));
    assert!(!pool.return_connection(Connection::new(1u32, 0), 300_001 * MS));
    assert_eq!(pool.len(), 0);
}

#[test]
fn connection_age_and_idleness() {
    let mut c = Connection::new((), 100);
    assert!(!c.is_expired(400, 300));
    assert!(c.is_expired(401, 300));
    assert!(!c.is_idle(160, 60));
    assert!(c.is_idle(161, 60));
    assert!(!c.is_expired(50, 300));
    c.touch(150);
    assert!(!c.is_idle(210, 60));
    assert_eq!(c.created_at, 100);
}

#[test]
fn cleanup_drops_exactly_the_stale_connections() {
    let mut pool = ConnectionPool::new("a".to_string(), 8);
    assert!(pool.return_connection(Connection::new(1u32, 0), 10_000 * MS));
    assert!(pool.return_connection(Connection::new(2u32, 0), 50_000 * MS));
    assert!(pool.return_connection(Connection::new(3u32, 0), 20_000 * MS));
    assert!(pool.return_connection(Connection::new(4u32, 0), 55_000 * MS));
    assert_eq!(pool.cleanup(100_000 * MS), 2);
    assert_eq!(pool.len(), 2);
    assert_eq!(pool.checkout(100_000 * MS).map(|c| c.stream), Some(2));
    assert_eq!(pool.checkout(100_000 * MS).map(|c| c.stream), Some(4));
    assert_eq!(pool.cleanup(100_000 * MS), 0);
}

#[test]
fn age_is_compared_at_nanosecond_resolution() {
    let mut pool = ConnectionPool::new("a".to_string(), 4);
    let mut c = Connection::new(2u32, 0);
    c.touch(299_999 * MS);
    assert!(pool.return_connection(c, 299_999 * MS));
    assert!(pool.checkout(300_000 * MS + 800_000).is_none());
    let mut c = Connection::new(3u32, 0);
    c.touch(299_999 * MS);
    assert!(pool.return_connection(c, 299_999 * MS));
    assert!(pool.checkout(300_000 * MS).is_some());
}
