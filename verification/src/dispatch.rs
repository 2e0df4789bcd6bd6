//! The decisions of a dispatch: when to start another request, when to
//! wait for one to complete, and what the batch comes to.
//!
//! The caller owns the workers. It asks for the next action, performs it,
//! and reports each start and each completion back. At most `parallel`
//! requests are in flight at any time. The first failure that is reported
//! ends the batch: nothing more is started, the requests still in flight
//! run on unheeded, and the batch comes to that failure.

use crate::duration::DurationRange;
use crate::request::{Response, TransportError};
use vstd::prelude::*;

verus! {

/// What the caller is to do next.
#[derive(Clone, Copy, Debug, PartialEq, Eq, Structural)]
pub enum Action {
    /// Start one more request.
    Start,
    /// Wait until a request in flight completes.
    Wait,
    /// Take the result: the batch is over.
    Finish,
}

/// The state of one batch of requests.
#[derive(Debug)]
pub struct Dispatcher {
    count: usize,
    parallel: usize,
    started: usize,
    finished: usize,
    samples: Vec<Response>,
    failure: Option<TransportError>,
}

/// Whether a fixed waiting time is set while more than one worker runs:
/// all workers then wait the same time and fire together.
pub fn flat_wait_warning(parallel: usize, wait: Option<&DurationRange>) -> (warn: bool)
    ensures
        warn == (parallel > 1 && wait is Some && wait->0.flat()),
{
    match wait {
        Some(range) => parallel > 1 && range.is_flat(),
        None => false,
    }
}

impl Dispatcher {
    /// The number of requests of the batch.
    pub closed spec fn count(&self) -> nat {
        self.count as nat
    }

    /// The most requests that may be in flight.
    pub closed spec fn parallel(&self) -> nat {
        self.parallel as nat
    }

    /// The number of requests started so far.
    pub closed spec fn started(&self) -> nat {
        self.started as nat
    }

    /// The number of requests completed so far, failed ones included.
    pub closed spec fn finished(&self) -> nat {
        self.finished as nat
    }

    /// The responses collected so far, in the order of their completion.
    pub closed spec fn samples(&self) -> Seq<Response> {
        self.samples@
    }

    /// The message of the first failure, if there was one.
    pub closed spec fn failure(&self) -> Option<Seq<char>> {
        match self.failure {
            Some(e) => Some(e.message@),
            None => None,
        }
    }

    /// The number of requests in flight.
    pub open spec fn in_flight(&self) -> int {
        self.started() - self.finished()
    }

    /// What holds of every dispatcher: no more requests are started than
    /// the batch has, none completes before it starts, no more are in
    /// flight than may be, and until a failure every completion has left
    /// its response.
    pub closed spec fn wf(&self) -> bool {
        &&& self.parallel >= 1
        &&& self.count >= 1
        &&& self.finished <= self.started <= self.count
        &&& self.started - self.finished <= self.parallel
        &&& self.samples@.len() <= self.finished
        &&& self.failure is None ==> self.samples@.len() == self.finished
    }

    /// The action that the state calls for: none but `Finish` after a
    /// failure; else `Start` while requests are left and a worker is free,
    /// `Wait` while any is in flight, and `Finish` when all have completed.
    pub open spec fn expected_action(&self) -> Action {
        if self.failure() is Some {
            Action::Finish
        } else if self.started() < self.count() && self.in_flight() < self.parallel() {
            Action::Start
        } else if self.in_flight() > 0 {
            Action::Wait
        } else {
            Action::Finish
        }
    }

    /// The bounds that every dispatcher keeps.
    pub proof fn lemma_bounds(&self)
        requires
            self.wf(),
        ensures
            self.finished() <= self.started() <= self.count(),
            0 <= self.in_flight() <= self.parallel(),
            self.samples().len() <= self.finished(),
            self.failure() is None ==> self.samples().len() == self.finished(),
            self.failure() is None && self.expected_action() == Action::Finish
                ==> self.samples().len() == self.count(),
    {
    }

    /// A dispatcher for `count` requests with at most `parallel` of them
    /// in flight. Both numbers must be positive.
    pub fn new(count: usize, parallel: usize) -> (made: Option<Dispatcher>)
        ensures
            made is Some <==> count > 0 && parallel > 0,
            made is Some ==> {
                let d = made->0;
                &&& d.wf()
                &&& d.count() == count
                &&& d.parallel() == parallel
                &&& d.started() == 0
                &&& d.finished() == 0
                &&& d.samples() == Seq::<Response>::empty()
                &&& d.failure() is None
            },
    {
        if count == 0 || parallel == 0 {
            return None;
        }
        Some(
            Dispatcher {
                count,
                parallel,
                started: 0,
                finished: 0,
                samples: Vec::new(),
                failure: None,
            },
        )
    }

    /// What to do next.
    pub fn next_action(&self) -> (action: Action)
        requires
            self.wf(),
        ensures
            action == self.expected_action(),
    {
        if self.failure.is_some() {
            Action::Finish
        } else if self.started < self.count && self.started - self.finished < self.parallel {
            Action::Start
        } else if self.started - self.finished > 0 {
            Action::Wait
        } else {
            Action::Finish
        }
    }

    /// The number of requests in flight.
    pub fn running(&self) -> (n: usize)
        requires
            self.wf(),
        ensures
            n == self.in_flight(),
    {
        self.started - self.finished
    }

    /// Records the start of one more request, and gives the time that its
    /// worker waits before it sends: none without a range, else a fresh
    /// draw from the range.
    pub fn launch(&mut self, wait: Option<&DurationRange>) -> (pause: Option<u128>)
        requires
            old(self).wf(),
            old(self).expected_action() == Action::Start,
        ensures
            final(self).wf(),
            final(self).started() == old(self).started() + 1,
            final(self).finished() == old(self).finished(),
            final(self).count() == old(self).count(),
            final(self).parallel() == old(self).parallel(),
            final(self).samples() == old(self).samples(),
            final(self).failure() == old(self).failure(),
            final(self).in_flight() <= final(self).parallel(),
            pause is Some <==> wait is Some,
            pause is Some ==> wait->0.lower() <= pause->0 <= wait->0.upper(),
            pause is Some && wait->0.flat() ==> pause->0 == wait->0.lower(),
            pause is Some && !wait->0.flat() ==> pause->0 < wait->0.upper(),
    {
        self.started = self.started + 1;
        match wait {
            Some(range) => Some(range.get_random()),
            None => None,
        }
    }

    /// Records the completion of a request in flight. A response joins the
    /// collected ones; the first failure is kept; after a failure nothing
    /// more is kept.
    pub fn complete(&mut self, outcome: Result<Response, TransportError>)
        requires
            old(self).wf(),
            old(self).in_flight() > 0,
        ensures
            final(self).wf(),
            final(self).started() == old(self).started(),
            final(self).finished() == old(self).finished() + 1,
            final(self).count() == old(self).count(),
            final(self).parallel() == old(self).parallel(),
            old(self).failure() is Some ==> final(self).failure() == old(self).failure()
                && final(self).samples() == old(self).samples(),
            old(self).failure() is None ==> match outcome {
                Ok(response) => final(self).failure() is None && final(self).samples() == old(
                    self,
                ).samples().push(response),
                Err(e) => final(self).failure() == Some(e.message@) && final(self).samples()
                    == old(self).samples(),
            },
    {
        self.finished = self.finished + 1;
        if self.failure.is_none() {
            match outcome {
                Ok(response) => {
                    self.samples.push(response);
                },
                Err(e) => {
                    self.failure = Some(e);
                },
            }
        }
    }

    /// What the batch came to: the first failure, or else the responses of
    /// all its requests in the order of their completion.
    pub fn finish(self) -> (outcome: Result<Vec<Response>, TransportError>)
        requires
            self.wf(),
            self.expected_action() == Action::Finish,
        ensures
            match outcome {
                Ok(samples) => self.failure() is None && samples@ == self.samples()
                    && samples.len() == self.count(),
                Err(e) => self.failure() == Some(e.message@),
            },
    {
        match self.failure {
            Some(e) => Err(e),
            None => Ok(self.samples),
        }
    }
}

} // verus!
