//! A bounded set of connections, handed out one at a time.
//!
//! The set is made once at its full size. What blocks while all are in use is
//! the caller; this is the bookkeeping.

use crate::text::{lowered, same, to_lower};
use vstd::prelude::*;

verus! {

/// Connections when nothing says otherwise.
pub const DEFAULT_MAX_CONNECTIONS: usize = 4;

/// Ceiling on the configured number of connections.
pub const MAX_MAX_CONNECTIONS: usize = 64;

/// How many seconds a statement waits for a writer elsewhere.
pub const BUSY_TIMEOUT_SECS: u64 = 5;

/// How many connections a pool has when this many were asked for: at least
/// one, at most the ceiling.
pub open spec fn clamped(size: usize) -> usize {
    if size < 1 {
        1
    } else if size > MAX_MAX_CONNECTIONS {
        MAX_MAX_CONNECTIONS
    } else {
        size
    }
}

/// Computes [`clamped`].
pub fn pool_size(size: usize) -> (out: usize)
    ensures
        out == clamped(size),
        1 <= out <= MAX_MAX_CONNECTIONS,
{
    if size < 1 {
        1
    } else if size > MAX_MAX_CONNECTIONS {
        MAX_MAX_CONNECTIONS
    } else {
        size
    }
}

/// The connections of a pool nobody is holding.
pub struct ConnectionPool<T> {
    pub idle: Vec<T>,
    pub size: usize,
}

impl<T> ConnectionPool<T> {
    /// At most `size` connections are idle.
    pub open spec fn wf(&self) -> bool {
        &&& self.idle@.len() <= self.size
        &&& 1 <= self.size <= MAX_MAX_CONNECTIONS
    }

    /// How many connections are in use.
    pub open spec fn in_use(&self) -> int {
        self.size - self.idle@.len()
    }

    /// A pool of these connections, all idle.
    pub fn build(connections: Vec<T>) -> (out: ConnectionPool<T>)
        requires
            1 <= connections@.len() <= MAX_MAX_CONNECTIONS,
        ensures
            out.wf(),
            out.idle == connections,
            out.size == connections@.len(),
            out.in_use() == 0,
    {
        let size: usize = connections.len();
        ConnectionPool { idle: connections, size }
    }

    /// How many connections exist.
    pub fn size(&self) -> (size: usize)
        ensures
            size == self.size,
    {
        self.size
    }

    /// Takes a connection; `None` when all are in use, and then the caller
    /// waits for one to come back.
    pub fn take(&mut self) -> (out: Option<T>)
        requires
            old(self).wf(),
        ensures
            final(self).wf(),
            final(self).size == old(self).size,
            out is None <==> old(self).in_use() == old(self).size,
            out is None ==> final(self).idle@ == old(self).idle@,
            out matches Some(connection) ==> old(self).idle@ == final(self).idle@.push(connection),
    {
        let out = self.idle.pop();
        assert(out matches Some(connection) ==> old(self).idle@ =~= self.idle@.push(connection));
        out
    }

    /// Gives a connection back.
    pub fn give(&mut self, connection: T)
        requires
            old(self).wf(),
            old(self).in_use() > 0,
        ensures
            final(self).wf(),
            final(self).size == old(self).size,
            final(self).idle@ == old(self).idle@.push(connection),
            final(self).in_use() == old(self).in_use() - 1,
    {
        self.idle.push(connection);
    }
}

/// The bound is a bound: taking raises the number in use by one exactly when a
/// connection was idle, and never past the size.
pub proof fn a_pool_never_exceeds_its_size<T>(before: ConnectionPool<T>, after: ConnectionPool<T>, taken: Option<T>)
    requires
        before.wf(),
        after.size == before.size,
        taken is None ==> after.idle@ == before.idle@,
        taken matches Some(connection) ==> before.idle@ == after.idle@.push(connection),
    ensures
        after.in_use() == before.in_use() + if taken is Some {
            1int
        } else {
            0int
        },
        0 <= after.in_use() <= after.size,
{
}

/// Whether to ask for write-ahead logging again: only while the database is
/// busy and there is time left.
pub fn retries_wal(busy: bool, now_millis: u64, deadline_millis: u64) -> (yes: bool)
    ensures
        yes == (busy && now_millis < deadline_millis),
{
    busy && now_millis < deadline_millis
}

/// Whether a journal mode is write-ahead logging, ASCII case aside.
pub fn is_wal(mode: &str) -> (yes: bool)
    ensures
        yes == (lowered(mode@) == "wal"@),
{
    same(to_lower(mode).as_str(), "wal")
}

/// A pool has as many connections as asked for, between one and sixty-four.
pub proof fn a_pool_has_what_was_asked_for(size: usize)
    ensures
        1 <= clamped(size) <= 64,
        1 <= size <= 64 ==> clamped(size) == size,
        size < 1 ==> clamped(size) == 1,
        size > 64 ==> clamped(size) == 64,
{
}

} // verus!
