//! The policy of the client's connection pool: which idle connections are
//! reused, which are kept when handed back, and which are dropped by the
//! periodic cleanup. Times are nanoseconds on a monotonic clock that the
//! caller reads (the resolution of `Instant`); the streams themselves are
//! opaque to the pool, which only moves them.

use vstd::prelude::*;
use std::collections::VecDeque;

verus! {

/// How long a connection may live, in nanoseconds (5 minutes).
pub const MAX_AGE_NANOS: u64 = 300_000_000_000;

/// How long a connection may stay unused, in nanoseconds (1 minute).
pub const MAX_IDLE_NANOS: u64 = 60_000_000_000;

/// The time from `then` to `now`; zero where `now` is earlier (as
/// `Instant::elapsed` saturates).
pub open spec fn spec_elapsed(now: u64, then: u64) -> u64 {
    if now >= then {
        (now - then) as u64
    } else {
        0
    }
}

/// A stream with the times it was made and last used.
pub struct Connection<S> {
    pub stream: S,
    pub created_at: u64,
    pub last_used: u64,
}

/// A connection's times: made, last used.
pub open spec fn conn_times<S>(c: Connection<S>) -> (u64, u64) {
    (c.created_at, c.last_used)
}

/// The same connection (same stream, same creation time), marked used at `now`.
pub open spec fn used_at<S>(c: Connection<S>, now: u64) -> Connection<S> {
    Connection { last_used: now, ..c }
}

/// A connection that is neither too old nor idle too long at `now`.
pub open spec fn spec_usable(times: (u64, u64), now: u64, max_age: u64, max_idle: u64) -> bool {
    spec_elapsed(now, times.0) <= max_age && spec_elapsed(now, times.1) <= max_idle
}

impl<S> Connection<S> {
    /// A connection over `stream`, made and last used at `now`.
    pub fn new(stream: S, now: u64) -> (c: Self)
        ensures
            c.stream == stream,
            c.created_at == now,
            c.last_used == now,
    {
        Connection { stream, created_at: now, last_used: now }
    }

    /// It has lived longer than `max_age`.
    pub fn is_expired(&self, now: u64, max_age: u64) -> (b: bool)
        ensures
            b == (spec_elapsed(now, self.created_at) > max_age),
    {
        now.saturating_sub(self.created_at) > max_age
    }

    /// It has been unused longer than `max_idle`.
    pub fn is_idle(&self, now: u64, max_idle: u64) -> (b: bool)
        ensures
            b == (spec_elapsed(now, self.last_used) > max_idle),
    {
        now.saturating_sub(self.last_used) > max_idle
    }

    /// Marks it used at `now`.
    pub fn touch(&mut self, now: u64)
        ensures
            *final(self) == used_at(*old(self), now),
    {
        self.last_used = now;
    }
}

/// The connections that are usable at `now`, in their order.
pub open spec fn usable_connections<S>(conns: Seq<Connection<S>>, now: u64, max_age: u64, max_idle: u64) -> Seq<Connection<S>>
    decreases conns.len(),
{
    if conns.len() == 0 {
        Seq::empty()
    } else {
        let pre = usable_connections(conns.drop_last(), now, max_age, max_idle);
        if spec_usable(conn_times(conns.last()), now, max_age, max_idle) {
            pre.push(conns.last())
        } else {
            pre
        }
    }
}

/// The idle connections, oldest first, and the limits they are kept under.
pub struct ConnectionPool<S> {
    connections: VecDeque<Connection<S>>,
    max_size: usize,
    max_age: u64,
    max_idle: u64,
    server_addr: String,
}

impl<S> ConnectionPool<S> {
    /// The idle connections, oldest first.
    pub closed spec fn spec_connections(&self) -> Seq<Connection<S>> {
        self.connections@
    }

    /// How many idle connections the pool keeps at most.
    pub closed spec fn spec_max_size(&self) -> usize {
        self.max_size
    }

    /// How long a connection may live.
    pub closed spec fn spec_max_age(&self) -> u64 {
        self.max_age
    }

    /// How long a connection may stay unused.
    pub closed spec fn spec_max_idle(&self) -> u64 {
        self.max_idle
    }

    /// The address new connections are made to.
    pub closed spec fn spec_server_addr(&self) -> Seq<char> {
        self.server_addr@
    }

    /// The pool never holds more connections than its size.
    #[verifier::type_invariant]
    spec fn within_capacity(&self) -> bool {
        self.connections@.len() <= self.max_size
    }

    /// An empty pool for `server_addr` that keeps up to `max_size` idle
    /// connections, each for at most 5 minutes and 1 minute unused.
    pub fn new(server_addr: String, max_size: usize) -> (p: Self)
        ensures
            p.spec_connections() == Seq::<Connection<S>>::empty(),
            p.spec_max_size() == max_size,
            p.spec_max_age() == MAX_AGE_NANOS,
            p.spec_max_idle() == MAX_IDLE_NANOS,
            p.spec_server_addr() == server_addr@,
    {
        let p = ConnectionPool {
            connections: VecDeque::new(),
            max_size,
            max_age: MAX_AGE_NANOS,
            max_idle: MAX_IDLE_NANOS,
            server_addr,
        };
        assert(p.spec_connections() =~= Seq::<Connection<S>>::empty());
        p
    }

    /// The address new connections are made to.
    pub fn server_addr(&self) -> (a: &str)
        ensures
            a@ == self.spec_server_addr(),
    {
        self.server_addr.as_str()
    }

    /// How many idle connections the pool holds.
    pub fn len(&self) -> (n: usize)
        ensures
            n == self.spec_connections().len(),
            n <= self.spec_max_size(),
    {
        proof { use_type_invariant(self); }
        self.connections.len()
    }

    /// Takes the oldest idle connection: where it is still usable at `now` it
    /// is marked used and handed out; otherwise it is dropped and `None`
    /// says a new connection must be made.
    pub fn checkout(&mut self, now: u64) -> (c: Option<Connection<S>>)
        ensures
            final(self).spec_max_size() == old(self).spec_max_size(),
            final(self).spec_max_age() == old(self).spec_max_age(),
            final(self).spec_max_idle() == old(self).spec_max_idle(),
            final(self).spec_server_addr() == old(self).spec_server_addr(),
            old(self).spec_connections().len() == 0 ==> c is None
                && final(self).spec_connections() == old(self).spec_connections(),
            old(self).spec_connections().len() > 0 ==> {
                let oldest = old(self).spec_connections()[0];
                &&& final(self).spec_connections() == old(self).spec_connections().drop_first()
                &&& (c is Some <==> spec_usable(conn_times(oldest), now, old(self).spec_max_age(), old(self).spec_max_idle()))
                &&& c matches Some(conn) ==> conn == used_at(oldest, now)
            },
    {
        proof { use_type_invariant(&*self); }
        let mut idle: VecDeque<Connection<S>> = VecDeque::new();
        std::mem::swap(&mut idle, &mut self.connections);
        let front = idle.pop_front();
        self.connections = idle;
        match front {
            Some(mut conn) => {
                assert(self.spec_connections() =~= old(self).spec_connections().drop_first());
                if !conn.is_expired(now, self.max_age) && !conn.is_idle(now, self.max_idle) {
                    conn.touch(now);
                    Some(conn)
                } else {
                    None
                }
            },
            None => None,
        }
    }

    /// Hands a connection back: it is kept, marked used at `now`, at the end
    /// of the queue where the pool has room and it is still usable; otherwise
    /// it is dropped. Returns whether it was kept.
    pub fn return_connection(&mut self, conn: Connection<S>, now: u64) -> (kept: bool)
        ensures
            final(self).spec_max_size() == old(self).spec_max_size(),
            final(self).spec_max_age() == old(self).spec_max_age(),
            final(self).spec_max_idle() == old(self).spec_max_idle(),
            final(self).spec_server_addr() == old(self).spec_server_addr(),
            kept == (old(self).spec_connections().len() < old(self).spec_max_size()
                && spec_usable(conn_times(conn), now, old(self).spec_max_age(), old(self).spec_max_idle())),
            kept ==> final(self).spec_connections() == old(self).spec_connections().push(used_at(conn, now)),
            !kept ==> final(self).spec_connections() == old(self).spec_connections(),
    {
        proof { use_type_invariant(&*self); }
        if self.connections.len() < self.max_size && !conn.is_expired(now, self.max_age)
            && !conn.is_idle(now, self.max_idle) {
            let mut conn = conn;
            conn.touch(now);
            let mut idle: VecDeque<Connection<S>> = VecDeque::new();
            std::mem::swap(&mut idle, &mut self.connections);
            idle.push_back(conn);
            self.connections = idle;
            assert(self.spec_connections() =~= old(self).spec_connections().push(conn));
            true
        } else {
            false
        }
    }

    /// Drops the connections that are no longer usable at `now`, keeping the
    /// others, streams and times unchanged, in order; returns how many were
    /// dropped.
    pub fn cleanup(&mut self, now: u64) -> (removed: usize)
        ensures
            final(self).spec_max_size() == old(self).spec_max_size(),
            final(self).spec_max_age() == old(self).spec_max_age(),
            final(self).spec_max_idle() == old(self).spec_max_idle(),
            final(self).spec_server_addr() == old(self).spec_server_addr(),
            final(self).spec_connections() == usable_connections(
                old(self).spec_connections(),
                now,
                old(self).spec_max_age(),
                old(self).spec_max_idle(),
            ),
            removed == old(self).spec_connections().len() - final(self).spec_connections().len(),
    {
        proof { use_type_invariant(&*self); }
        let ghost conns = self.spec_connections();
        let ghost max_age = self.max_age;
        let ghost max_idle = self.max_idle;
        let initial = self.connections.len();
        let mut pending: VecDeque<Connection<S>> = VecDeque::new();
        std::mem::swap(&mut pending, &mut self.connections);
        let mut kept: VecDeque<Connection<S>> = VecDeque::new();
        let mut i: usize = 0;
        proof { lemma_usable_connections_len(conns, now, max_age, max_idle); }
        while i < initial
            invariant
                initial == conns.len(),
                conns.len() <= self.max_size,
                self.max_size == old(self).max_size,
                self.server_addr == old(self).server_addr,
                self.max_age == old(self).max_age,
                self.max_idle == old(self).max_idle,
                max_age == self.max_age,
                max_idle == self.max_idle,
                i <= initial,
                pending@ == conns.skip(i as int),
                kept@ == usable_connections(conns.take(i as int), now, max_age, max_idle),
            decreases initial - i,
        {
            let ghost rest = pending@;
            let conn = pending.pop_front().unwrap();
            assert(conn == conns[i as int]);
            assert(conns.take(i + 1).drop_last() =~= conns.take(i as int));
            assert(conns.take(i + 1).last() == conns[i as int]);
            if !conn.is_expired(now, self.max_age) && !conn.is_idle(now, self.max_idle) {
                kept.push_back(conn);
            }
            assert(pending@ =~= conns.skip(i + 1));
            i += 1;
        }
        assert(conns.take(initial as int) =~= conns);
        self.connections = kept;
        proof { lemma_usable_connections_len(conns, now, max_age, max_idle); }
        initial - self.connections.len()
    }
}

proof fn lemma_usable_connections_len<S>(conns: Seq<Connection<S>>, now: u64, max_age: u64, max_idle: u64)
    ensures
        usable_connections(conns, now, max_age, max_idle).len() <= conns.len(),
    decreases conns.len(),
{
    if conns.len() > 0 {
        lemma_usable_connections_len(conns.drop_last(), now, max_age, max_idle);
    }
}

/// Law: after a cleanup at `now`, every connection the pool holds is usable
/// at `now`, and every connection that was usable is still there.
pub proof fn lemma_cleanup_keeps_exactly_usable<S>(conns: Seq<Connection<S>>, now: u64, max_age: u64, max_idle: u64)
    ensures
        forall|k: int| 0 <= k < usable_connections(conns, now, max_age, max_idle).len()
            ==> spec_usable(conn_times(#[trigger] usable_connections(conns, now, max_age, max_idle)[k]), now, max_age, max_idle),
        forall|k: int| 0 <= k < conns.len() && spec_usable(conn_times(#[trigger] conns[k]), now, max_age, max_idle)
            ==> usable_connections(conns, now, max_age, max_idle).contains(conns[k]),
    decreases conns.len(),
{
    if conns.len() > 0 {
        let pre = conns.drop_last();
        lemma_cleanup_keeps_exactly_usable(pre, now, max_age, max_idle);
        let u = usable_connections(pre, now, max_age, max_idle);
        assert forall|k: int| 0 <= k < conns.len() && spec_usable(conn_times(#[trigger] conns[k]), now, max_age, max_idle)
            implies usable_connections(conns, now, max_age, max_idle).contains(conns[k]) by {
            if k < conns.len() - 1 {
                assert(pre[k] == conns[k]);
                assert(spec_usable(conn_times(pre[k]), now, max_age, max_idle));
                let j = choose|j: int| 0 <= j < u.len() && u[j] == pre[k];
                if spec_usable(conn_times(conns.last()), now, max_age, max_idle) {
                    assert(u.push(conns.last())[j] == conns[k]);
                }
            } else {
                assert(u.push(conns.last())[u.len() as int] == conns[k]);
            }
        }
    }
}

} // verus!
