use vstd::prelude::*;
use crate::command::Command;

verus! {

/// Why the pool refused a request before any network work.
#[derive(Debug, Clone, Copy, PartialEq, Eq, Structural)]
pub enum PoolError {
    /// The command has no words at all.
    ArgumentError,
    /// No dedicated subscription connection is free.
    PoolEmpty,
    /// The subscription session has already been closed.
    PubSubClosed,
}

/// The cursor position after `c` in a pool of `n` connections.
pub open spec fn next_cursor(c: nat, n: nat) -> nat {
    if c + 1 >= n {
        0
    } else {
        c + 1
    }
}

/// The index `k` places after `start`, counted around a pool of `n`.
pub open spec fn cyclic(start: nat, n: nat, k: nat) -> int {
    if start + k < n {
        start + k as int
    } else {
        start + k - n
    }
}

/// The cursor position after `k` selections starting from `start`.
pub open spec fn cursor_after(start: nat, n: nat, k: nat) -> nat
    decreases k,
{
    if k == 0 {
        start
    } else {
        next_cursor(cursor_after(start, n, (k - 1) as nat), n)
    }
}

/// Whether one of the first `n` selections from `start` returns index `i`.
pub open spec fn visited(start: nat, n: nat, i: nat) -> bool {
    exists|k: nat| k < n && #[trigger] cursor_after(start, n, k) == i
}

/// `n` consecutive selections from a pool of `n` connections, starting at
/// any cursor, visit the indices in increasing cyclic order and return each
/// index of the pool exactly once.
pub proof fn lemma_round_robin(start: nat, n: nat)
    requires
        start < n,
    ensures
        forall|k: nat|
            k < n ==> #[trigger] cursor_after(start, n, k) == cyclic(start, n, k),
        forall|j: nat, k: nat|
            j < n && k < n && j != k ==> #[trigger] cursor_after(start, n, j) != #[trigger] cursor_after(
                start,
                n,
                k,
            ),
        forall|i: nat| i < n ==> #[trigger] visited(start, n, i),
{
    assert forall|k: nat| k < n implies #[trigger] cursor_after(start, n, k) == cyclic(start, n, k) by {
        lemma_cursor_after(start, n, k);
    }
    assert forall|i: nat| i < n implies #[trigger] visited(start, n, i) by {
        let k: nat = if i >= start { (i - start) as nat } else { (i + n - start) as nat };
        lemma_cursor_after(start, n, k);
        assert(k < n && cursor_after(start, n, k) == i);
    }
}

proof fn lemma_cursor_after(start: nat, n: nat, k: nat)
    requires
        start < n,
        k < n,
    ensures
        cursor_after(start, n, k) == cyclic(start, n, k),
    decreases k,
{
    if k > 0 {
        lemma_cursor_after(start, n, (k - 1) as nat);
    }
}

/// A fixed set of connections, handed out in turn.
pub struct ConnectionPool<C> {
    current: usize,
    pool: Vec<C>,
}

impl<C> ConnectionPool<C> {
    /// The index of the connection the next selection returns.
    pub closed spec fn cursor(&self) -> nat {
        self.current as nat
    }

    /// The connections of the pool, in order.
    pub closed spec fn connections(&self) -> Seq<C> {
        self.pool@
    }

    /// The pool holds at least one connection and the cursor points into it.
    pub closed spec fn wf(&self) -> bool {
        0 < self.pool@.len() && self.current < self.pool@.len()
    }

    /// A pool over `connections`, with the cursor on the first.
    pub fn new(connections: Vec<C>) -> (r: Self)
        requires
            connections@.len() > 0,
        ensures
            r.wf(),
            r.cursor() == 0,
            r.connections() == connections@,
    {
        ConnectionPool { current: 0, pool: connections }
    }

    /// The number of connections.
    pub fn pool_size(&self) -> (r: usize)
        ensures
            r == self.connections().len(),
    {
        self.pool.len()
    }

    /// The index of the connection the next selection returns.
    pub fn current(&self) -> (r: usize)
        ensures
            r == self.cursor(),
    {
        self.current
    }

    /// The connection at index `i`.
    pub fn connection(&self, i: usize) -> (r: &C)
        requires
            i < self.connections().len(),
        ensures
            *r == self.connections()[i as int],
    {
        &self.pool[i]
    }

    /// Selects a connection: returns the cursor and moves it on by one,
    /// back to the first connection after the last.
    pub fn next_idx(&mut self) -> (r: usize)
        requires
            old(self).wf(),
        ensures
            final(self).wf(),
            r == old(self).cursor(),
            r < old(self).connections().len(),
            final(self).cursor() == next_cursor(old(self).cursor(), old(self).connections().len()),
            final(self).connections() == old(self).connections(),
    {
        let idx = self.current;
        if idx >= self.pool.len() - 1 {
            self.current = 0;
        } else {
            self.current = idx + 1;
        }
        idx
    }

    /// Decides where a command goes. A command without words is refused with
    /// `ArgumentError` and no connection is selected; otherwise the next
    /// connection in turn is selected and its index returned.
    pub fn execute(&mut self, cmd: &Command) -> (r: Result<usize, PoolError>)
        requires
            old(self).wf(),
        ensures
            final(self).wf(),
            final(self).connections() == old(self).connections(),
            cmd@.len() == 0 ==> r == Err::<usize, PoolError>(PoolError::ArgumentError)
                && final(self).cursor() == old(self).cursor(),
            cmd@.len() > 0 ==> r == Ok::<usize, PoolError>(old(self).cursor() as usize)
                && final(self).cursor() == next_cursor(
                old(self).cursor(),
                old(self).connections().len(),
            ),
    {
        if cmd.len() == 0 {
            return Err(PoolError::ArgumentError);
        }
        Ok(self.next_idx())
    }
}

/// Collects the connections of a pool as they are opened. A pool exists
/// only once every wanted connection is there; a builder dropped before
/// that discards the connections it holds.
pub struct PoolBuilder<C> {
    wanted: usize,
    opened: Vec<C>,
}

impl<C> PoolBuilder<C> {
    /// The number of connections the pool will have.
    pub closed spec fn size(&self) -> nat {
        self.wanted as nat
    }

    /// The connections opened so far, in order.
    pub closed spec fn opened(&self) -> Seq<C> {
        self.opened@
    }

    /// A builder for a pool of `size` connections, none opened yet.
    pub fn new(size: usize) -> (r: Self)
        requires
            size > 0,
        ensures
            r.size() == size,
            r.opened() == Seq::<C>::empty(),
    {
        PoolBuilder { wanted: size, opened: Vec::new() }
    }

    /// Whether every wanted connection is open.
    pub fn is_complete(&self) -> (r: bool)
        ensures
            r == (self.opened().len() >= self.size()),
    {
        self.opened.len() >= self.wanted
    }

    /// Records one more open connection.
    pub fn add(&mut self, connection: C)
        requires
            old(self).opened().len() < old(self).size(),
        ensures
            final(self).size() == old(self).size(),
            final(self).opened() == old(self).opened().push(connection),
    {
        self.opened.push(connection);
    }

    /// The pool, once complete: its connections in the order they were
    /// opened, the cursor on the first.
    pub fn finish(self) -> (r: ConnectionPool<C>)
        requires
            self.size() > 0,
            self.opened().len() == self.size(),
        ensures
            r.wf(),
            r.cursor() == 0,
            r.connections() == self.opened(),
    {
        ConnectionPool::new(self.opened)
    }
}

} // verus!
