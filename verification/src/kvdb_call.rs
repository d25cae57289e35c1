//! The state of one database call handed to a worker thread: whether it
//! has been dispatched yet, the job still to run, and the slot its result
//! arrives in.

use std::sync::{Arc, Mutex};

use vstd::prelude::*;

verus! {

/// `std::sync::Mutex`, the slot a worker writes a call's result into;
/// opaque here, its contents are not modelled.
#[verifier::external_type_specification]
#[verifier::external_body]
#[verifier::reject_recursive_types(T)]
pub struct ExMutex<T: ?Sized>(Mutex<T>);

/// `Mutex::new`: a new, unlocked mutex holding `value`.
#[verifier::external_body]
fn new_mutex<T>(value: T) -> (r: Mutex<T>) {
    Mutex::new(value)
}

/// A call on the database that a worker pool runs: `job` is the work, `P`
/// the handle of the pool it goes to, and `R` what it returns.
///
/// The call is dispatched at most once; whoever polls it takes the job with
/// [`KvdbCall::take_job`], sends it to the pool, and reads the result from
/// [`KvdbCall::result_slot`] once the worker has written it.
#[verifier::reject_recursive_types(R)]
pub struct KvdbCall<R, J, P> {
    dispatched: bool,
    result: Arc<Mutex<Option<R>>>,
    job: Option<J>,
    pool: P,
}

impl<R, J, P> KvdbCall<R, J, P> {
    /// Has the job been handed out?
    pub closed spec fn spec_dispatched(&self) -> bool {
        self.dispatched
    }

    /// The job still to hand out, if any.
    pub closed spec fn spec_job(&self) -> Option<J> {
        self.job
    }

    /// The pool the job goes to.
    pub closed spec fn spec_pool(&self) -> P {
        self.pool
    }

    /// The slot the result arrives in.
    pub closed spec fn spec_result(&self) -> Arc<Mutex<Option<R>>> {
        self.result
    }

    /// Wraps `job` in a call that, once polled, is dispatched to `pool`.
    pub fn new(job: J, pool: P) -> (r: Self)
        ensures
            !r.spec_dispatched(),
            r.spec_job() == Some(job),
            r.spec_pool() == pool,
    {
        KvdbCall { dispatched: false, result: Arc::new(new_mutex(None)), job: Some(job), pool }
    }

    /// Has the job been handed out?
    pub fn is_dispatched(&self) -> (r: bool)
        ensures
            r == self.spec_dispatched(),
    {
        self.dispatched
    }

    /// Hands out the job on the first call, marking the call dispatched;
    /// every later call gets `None` and changes nothing.
    pub fn take_job(&mut self) -> (r: Option<J>)
        ensures
            old(self).spec_dispatched() ==> r is None && final(self).spec_job() == old(self).spec_job(),
            !old(self).spec_dispatched() ==> r == old(self).spec_job() && final(self).spec_job() is None,
            final(self).spec_dispatched(),
            final(self).spec_pool() == old(self).spec_pool(),
            final(self).spec_result() == old(self).spec_result(),
    {
        if self.dispatched {
            return None;
        }
        self.dispatched = true;
        let mut job = None;
        std::mem::swap(&mut job, &mut self.job);
        job
    }

    /// The slot the worker writes the result into.
    pub fn result_slot(&self) -> (r: &Arc<Mutex<Option<R>>>)
        ensures
            *r == self.spec_result(),
    {
        &self.result
    }

    /// The pool the job goes to.
    pub fn pool(&self) -> (r: &P)
        ensures
            *r == self.spec_pool(),
    {
        &self.pool
    }
}

} // verus!
