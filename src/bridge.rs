use vstd::prelude::*;

verus! {

/// One pending result handed from the worker that computes it to the caller
/// that waits for it. It is settled at most once, with a value or an error;
/// a later attempt, or one after the caller has stopped waiting, changes
/// nothing.
pub struct Completion<T, E> {
    outcome: Option<Result<T, E>>,
    abandoned: bool,
}

impl<T, E> Completion<T, E> {
    /// The result, once settled.
    pub closed spec fn outcome(&self) -> Option<Result<T, E>> {
        self.outcome
    }

    /// Whether the caller has stopped waiting.
    pub closed spec fn abandoned(&self) -> bool {
        self.abandoned
    }

    /// Whether a resolution would still take effect.
    pub open spec fn accepts(&self) -> bool {
        self.outcome() is None && !self.abandoned()
    }

    /// A completion that nobody has settled or abandoned.
    pub fn new() -> (r: Self)
        ensures
            r.outcome() is None,
            !r.abandoned(),
    {
        Completion { outcome: None, abandoned: false }
    }

    fn settle(&mut self, result: Result<T, E>) -> (r: bool)
        ensures
            r == old(self).accepts(),
            r ==> final(self).outcome() == Some(result) && final(self).abandoned()
                == old(self).abandoned(),
            !r ==> final(self).outcome() == old(self).outcome() && final(self).abandoned()
                == old(self).abandoned(),
    {
        if self.outcome.is_none() && !self.abandoned {
            self.outcome = Some(result);
            true
        } else {
            false
        }
    }

    /// Settles with a value; returns whether this call took effect.
    pub fn resolve(&mut self, value: T) -> (r: bool)
        ensures
            r == old(self).accepts(),
            r ==> final(self).outcome() == Some(Ok::<T, E>(value)) && final(self).abandoned()
                == old(self).abandoned(),
            !r ==> final(self).outcome() == old(self).outcome() && final(self).abandoned()
                == old(self).abandoned(),
    {
        self.settle(Ok(value))
    }

    /// Settles with an error; returns whether this call took effect.
    pub fn resolve_error(&mut self, error: E) -> (r: bool)
        ensures
            r == old(self).accepts(),
            r ==> final(self).outcome() == Some(Err::<T, E>(error)) && final(self).abandoned()
                == old(self).abandoned(),
            !r ==> final(self).outcome() == old(self).outcome() && final(self).abandoned()
                == old(self).abandoned(),
    {
        self.settle(Err(error))
    }

    /// Records that the caller no longer waits; later resolutions do nothing.
    pub fn abandon(&mut self)
        ensures
            final(self).abandoned(),
            final(self).outcome() == old(self).outcome(),
    {
        self.abandoned = true;
    }

    /// Whether the completion has been settled.
    pub fn is_resolved(&self) -> (r: bool)
        ensures
            r == self.outcome() is Some,
    {
        self.outcome.is_some()
    }
}

} // verus!
