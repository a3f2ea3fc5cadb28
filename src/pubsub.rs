use vstd::prelude::*;
use crate::pool::PoolError;

verus! {

/// The free dedicated subscription connections, apart from the command pool.
pub struct PubSubPool<P> {
    free: Vec<P>,
}

/// A subscription session: it holds one checked-out connection until it is
/// closed, and holds nothing afterwards.
pub struct PubSubSession<P> {
    connection: Option<P>,
}

impl<P> View for PubSubPool<P> {
    type V = Seq<P>;

    closed spec fn view(&self) -> Seq<P> {
        self.free@
    }
}

impl<P> View for PubSubSession<P> {
    type V = Option<P>;

    closed spec fn view(&self) -> Option<P> {
        self.connection
    }
}

/// The free connections after a checkout from `free`.
pub open spec fn after_checkout<P>(free: Seq<P>) -> Seq<P> {
    if free.len() == 0 {
        free
    } else {
        free.drop_last()
    }
}

/// The free connections after closing a session that held `held`.
pub open spec fn after_close<P>(held: Option<P>, free: Seq<P>) -> Seq<P> {
    match held {
        Some(c) => free.push(c),
        None => free,
    }
}

impl<P> PubSubPool<P> {
    /// A pool whose free connections are `connections`.
    pub fn new(connections: Vec<P>) -> (r: Self)
        ensures
            r@ == connections@,
    {
        PubSubPool { free: connections }
    }

    /// The number of free connections.
    pub fn available(&self) -> (r: usize)
        ensures
            r == self@.len(),
    {
        self.free.len()
    }

    /// Takes a free connection into a new open session; fails at once with
    /// `PoolEmpty` when none is free.
    pub fn checkout(&mut self) -> (r: Result<PubSubSession<P>, PoolError>)
        ensures
            final(self)@ == after_checkout(old(self)@),
            old(self)@.len() == 0 ==> r matches Err(PoolError::PoolEmpty),
            old(self)@.len() > 0 ==> (r matches Ok(s) && s@ == Some(old(self)@.last())),
    {
        match self.free.pop() {
            Some(c) => Ok(PubSubSession { connection: Some(c) }),
            None => Err(PoolError::PoolEmpty),
        }
    }

    /// Returns a connection to the free ones.
    pub fn checkin(&mut self, connection: P)
        ensures
            final(self)@ == old(self)@.push(connection),
    {
        self.free.push(connection);
    }
}

impl<P> PubSubSession<P> {
    /// Whether the session still holds its connection.
    pub fn is_open(&self) -> (r: bool)
        ensures
            r == self@ is Some,
    {
        self.connection.is_some()
    }

    /// The connection that subscribing, unsubscribing and waiting for a
    /// message go through; `PubSubClosed` once the session is closed.
    pub fn connection(&mut self) -> (r: Result<&mut P, PoolError>)
        ensures
            old(self)@ is None ==> (r matches Err(PoolError::PubSubClosed) && final(self)@ is None),
            old(self)@ matches Some(c) ==> (r matches Ok(x) && *x == c && final(self)@ == Some(
                *final(x),
            )),
    {
        match &mut self.connection {
            Some(c) => Ok(c),
            None => Err(PoolError::PubSubClosed),
        }
    }

    /// Closes the session: its connection, if it still holds one, goes back
    /// to `pool`. Closing a closed session changes nothing.
    pub fn close(&mut self, pool: &mut PubSubPool<P>)
        ensures
            final(self)@ is None,
            final(pool)@ == after_close(old(self)@, old(pool)@),
    {
        match self.connection.take() {
            Some(c) => pool.checkin(c),
            None => {},
        }
    }
}

/// A checkout from an empty pool leaves it empty (and fails with
/// `PoolEmpty`); closing an open session gives the pool exactly one more free
/// connection, closing a closed one gives it none, and a checkout followed by
/// a close leaves the free connections as they were.
pub proof fn lemma_pubsub_lifecycle<P>(free: Seq<P>, held: Option<P>)
    ensures
        free.len() == 0 ==> after_checkout(free) == free,
        held is Some ==> after_close(held, free).len() == free.len() + 1,
        held is None ==> after_close(held, free) == free,
        free.len() > 0 ==> after_close(Some(free.last()), after_checkout(free)) == free,
{
    if free.len() > 0 {
        assert(free.drop_last().push(free.last()) =~= free);
    }
}

} // verus!
