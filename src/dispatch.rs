//! The shared state of a pool: its job queue, the state of each worker, and
//! the outputs delivered so far.
//!
//! Every step a worker takes goes through one `Dispatcher` held under a single
//! lock: submitting a job, claiming the next one, delivering an output,
//! closing the queue. Claims are exclusive (one job goes to one worker) and
//! follow submission order; a worker stops only once the queue is closed and
//! empty.
use std::collections::VecDeque;
use vstd::multiset::Multiset;
use vstd::prelude::*;

verus! {

/// What a worker is doing.
#[derive(Clone, Copy, Debug, PartialEq, Eq, Structural)]
pub enum WorkerState {
    /// Waiting for a job.
    Idle,
    /// Running a job it claimed; it owes one output.
    Busy,
    /// Gone for good: it found the queue closed and empty.
    Stopped,
}

/// The answer to a worker that asks for its next job.
pub enum Claim<J> {
    /// The job at the head of the queue, now this worker's alone.
    Job(J),
    /// The queue is empty but still open: block until something changes.
    Wait,
    /// The queue is closed and empty: the worker stops.
    Closed,
}

/// Every worker has stopped.
pub open spec fn all_stopped(s: Seq<WorkerState>) -> bool {
    forall|i: int| 0 <= i < s.len() ==> s[i] == WorkerState::Stopped
}

/// The job a worker holds, as a multiset of at most one job.
pub open spec fn held_job<J>(h: Option<J>) -> Multiset<J> {
    match h {
        Some(j) => Multiset::singleton(j),
        None => Multiset::empty(),
    }
}

/// Every job held by some worker.
pub open spec fn in_flight<J>(h: Seq<Option<J>>) -> Multiset<J>
    decreases h.len(),
{
    if h.len() == 0 {
        Multiset::empty()
    } else {
        in_flight(h.drop_last()).add(held_job(h.last()))
    }
}

proof fn lemma_in_flight_update<J>(h: Seq<Option<J>>, i: int, v: Option<J>)
    requires
        0 <= i < h.len(),
    ensures
        in_flight(h.update(i, v)).add(held_job(h[i])) =~= in_flight(h).add(held_job(v)),
    decreases h.len(),
{
    let u = h.update(i, v);
    assert(in_flight(u) == in_flight(u.drop_last()).add(held_job(u.last())));
    assert(in_flight(h) == in_flight(h.drop_last()).add(held_job(h.last())));
    if i == h.len() - 1 {
        assert(u.drop_last() =~= h.drop_last());
        assert(u.last() == v);
    } else {
        lemma_in_flight_update(h.drop_last(), i, v);
        assert(u.drop_last() =~= h.drop_last().update(i, v));
        assert(u.last() == h.last());
        assert(h.drop_last()[i] == h[i]);
        let ih_l = in_flight(u.drop_last()).add(held_job(h[i]));
        let ih_r = in_flight(h.drop_last()).add(held_job(v));
        assert forall|x: J| #[trigger]
            in_flight(u).add(held_job(h[i])).count(x) == in_flight(h).add(held_job(v)).count(x) by {
            assert(ih_l.count(x) == ih_r.count(x));
        }
    }
}

proof fn lemma_nothing_in_flight<J>(h: Seq<Option<J>>)
    requires
        forall|i: int| 0 <= i < h.len() ==> h[i] is None,
    ensures
        in_flight(h) =~= Multiset::empty(),
    decreases h.len(),
{
    if h.len() > 0 {
        assert forall|i: int| 0 <= i < h.drop_last().len() implies h.drop_last()[i] is None by {
            assert(h.drop_last()[i] == h[i]);
        }
        lemma_nothing_in_flight(h.drop_last());
    }
}

/// The shared state of a pool with jobs of type `J` and outputs of type `T`.
pub struct Dispatcher<J, T> {
    pending: VecDeque<J>,
    workers: Vec<WorkerState>,
    open: bool,
    outputs: Vec<T>,
    submitted: Ghost<Seq<J>>,
    claimed: Ghost<Seq<J>>,
    held: Ghost<Seq<Option<J>>>,
    delivered: Ghost<Seq<J>>,
}

impl<J, T> Dispatcher<J, T> {
    /// Jobs waiting in the queue, head first.
    pub closed spec fn pending(&self) -> Seq<J> {
        self.pending@
    }

    /// The state of each worker, by ordinal.
    pub closed spec fn states(&self) -> Seq<WorkerState> {
        self.workers@
    }

    /// Whether the queue still accepts jobs.
    pub closed spec fn is_open(&self) -> bool {
        self.open
    }

    /// Outputs delivered so far, in order of delivery.
    pub closed spec fn outputs(&self) -> Seq<T> {
        self.outputs@
    }

    /// Every job the queue has accepted, in order of submission.
    pub closed spec fn submitted(&self) -> Seq<J> {
        self.submitted@
    }

    /// Every job handed to a worker, in order of claim.
    pub closed spec fn claimed(&self) -> Seq<J> {
        self.claimed@
    }

    /// The job each worker is running, by ordinal.
    pub closed spec fn held(&self) -> Seq<Option<J>> {
        self.held@
    }

    /// Every job whose output was delivered, in order of delivery: the `i`-th
    /// output was delivered by the worker that ran the `i`-th of these.
    pub closed spec fn delivered(&self) -> Seq<J> {
        self.delivered@
    }

    /// The pool's invariant: there is at least one worker; each accepted job
    /// is either still queued or was claimed, in submission order; each
    /// claimed job has delivered its output or is held by a worker, busy
    /// exactly while it holds one; and a worker has stopped only once the
    /// queue was closed and empty.
    pub closed spec fn wf(&self) -> bool {
        &&& self.workers@.len() > 0
        &&& self.submitted@ == self.claimed@ + self.pending@
        &&& self.held@.len() == self.workers@.len()
        &&& forall|i: int|
            0 <= i < self.workers@.len() ==> (#[trigger] self.workers@[i] == WorkerState::Busy
                <==> self.held@[i] is Some)
        &&& self.delivered@.len() == self.outputs@.len()
        &&& self.claimed@.to_multiset() == self.delivered@.to_multiset().add(
            in_flight(self.held@),
        )
        &&& forall|i: int|
            0 <= i < self.workers@.len() && #[trigger] self.workers@[i] == WorkerState::Stopped
                ==> !self.open && self.pending@.len() == 0
    }

    /// A dispatcher for `n_workers` idle workers, with an open, empty queue.
    pub fn new(n_workers: usize) -> (d: Self)
        requires
            n_workers > 0,
        ensures
            d.wf(),
            d.states() == Seq::new(n_workers as nat, |i: int| WorkerState::Idle),
            d.is_open(),
            d.pending().len() == 0,
            d.outputs().len() == 0,
            d.submitted().len() == 0,
            d.claimed().len() == 0,
            d.held() == Seq::new(n_workers as nat, |i: int| None::<J>),
            d.delivered().len() == 0,
    {
        let mut workers: Vec<WorkerState> = Vec::new();
        let mut i: usize = 0;
        while i < n_workers
            invariant
                i <= n_workers,
                workers@ == Seq::new(i as nat, |k: int| WorkerState::Idle),
            decreases n_workers - i,
        {
            workers.push(WorkerState::Idle);
            i = i + 1;
            assert(workers@ =~= Seq::new(i as nat, |k: int| WorkerState::Idle));
        }
        let ghost held = Seq::new(n_workers as nat, |k: int| None::<J>);
        proof {
            lemma_nothing_in_flight(held);
        }
        let d = Dispatcher {
            pending: VecDeque::new(),
            workers,
            open: true,
            outputs: Vec::new(),
            submitted: Ghost(Seq::empty()),
            claimed: Ghost(Seq::empty()),
            held: Ghost(held),
            delivered: Ghost(Seq::empty()),
        };
        assert(d.submitted@ =~= d.claimed@ + d.pending@);
        assert(d.claimed@.to_multiset() =~= d.delivered@.to_multiset().add(in_flight(held))) by {
            broadcast use vstd::seq_lib::group_to_multiset_ensures;

        }
        d
    }

    /// The number of workers.
    pub fn worker_count(&self) -> (r: usize)
        ensures
            r == self.states().len(),
    {
        self.workers.len()
    }

    /// The state of worker `w`.
    pub fn state(&self, w: usize) -> (r: WorkerState)
        requires
            w < self.states().len(),
        ensures
            r == self.states()[w as int],
    {
        self.workers[w]
    }

    /// Puts `job` at the back of the queue.
    ///
    /// Fails, handing the job back, once the queue has been closed: no worker
    /// would ever take it.
    pub fn submit(&mut self, job: J) -> (r: Result<(), J>)
        requires
            old(self).wf(),
        ensures
            final(self).wf(),
            r is Ok <==> old(self).is_open(),
            r is Ok ==> {
                &&& final(self).pending() == old(self).pending().push(job)
                &&& final(self).submitted() == old(self).submitted().push(job)
                &&& final(self).claimed() == old(self).claimed()
                &&& final(self).states() == old(self).states()
                &&& final(self).outputs() == old(self).outputs()
                &&& final(self).held() == old(self).held()
                &&& final(self).delivered() == old(self).delivered()
                &&& final(self).is_open()
            },
            r matches Err(j) ==> j == job && *final(self) == *old(self),
    {
        if !self.open {
            return Err(job);
        }
        proof {
            self.submitted@ = self.submitted@.push(job);
        }
        self.pending.push_back(job);
        assert(self.submitted@ =~= self.claimed@ + self.pending@);
        Ok(())
    }

    /// Worker `w` asks for its next job.
    ///
    /// It gets the job at the head of the queue if there is one, and is then
    /// busy with it. On an empty queue it waits while the queue is open, and
    /// stops once it is closed.
    pub fn claim(&mut self, w: usize) -> (c: Claim<J>)
        requires
            old(self).wf(),
            w < old(self).states().len(),
            old(self).states()[w as int] != WorkerState::Busy,
        ensures
            final(self).wf(),
            final(self).submitted() == old(self).submitted(),
            final(self).outputs() == old(self).outputs(),
            final(self).delivered() == old(self).delivered(),
            final(self).is_open() == old(self).is_open(),
            c is Job <==> old(self).pending().len() > 0,
            c is Wait <==> old(self).pending().len() == 0 && old(self).is_open(),
            c is Closed <==> old(self).pending().len() == 0 && !old(self).is_open(),
            c matches Claim::Job(j) ==> {
                &&& j == old(self).pending()[0]
                &&& final(self).pending() == old(self).pending().drop_first()
                &&& final(self).claimed() == old(self).claimed().push(j)
                &&& final(self).states() == old(self).states().update(w as int, WorkerState::Busy)
                &&& final(self).held() == old(self).held().update(w as int, Some(j))
            },
            c is Wait ==> {
                &&& final(self).pending() == old(self).pending()
                &&& final(self).claimed() == old(self).claimed()
                &&& final(self).states() == old(self).states()
                &&& final(self).held() == old(self).held()
            },
            c is Closed ==> {
                &&& final(self).pending() == old(self).pending()
                &&& final(self).claimed() == old(self).claimed()
                &&& final(self).states() == old(self).states().update(
                    w as int,
                    WorkerState::Stopped,
                )
                &&& final(self).held() == old(self).held()
            },
    {
        let prior = self.workers[w];
        match self.pending.pop_front() {
            Some(job) => {
                proof {
                    assert(prior != WorkerState::Stopped);
                    assert(self.held@[w as int] is None);
                    assert(self.claimed@.push(job) + self.pending@ =~= self.submitted@);
                    let held = self.held@.update(w as int, Some(job));
                    lemma_in_flight_update(self.held@, w as int, Some(job));
                    assert(self.claimed@.push(job).to_multiset() =~= self.claimed@.to_multiset().insert(
                        job,
                    )) by {
                        broadcast use vstd::seq_lib::group_to_multiset_ensures;

                    }
                    assert forall|x: J| #[trigger]
                        self.claimed@.push(job).to_multiset().count(x)
                            == self.delivered@.to_multiset().add(in_flight(held)).count(x) by {
                        assert(in_flight(held).add(held_job(self.held@[w as int])).count(x)
                            == in_flight(self.held@).add(held_job(Some(job))).count(x));
                    }
                    assert(self.claimed@.push(job).to_multiset() =~= self.delivered@.to_multiset().add(
                        in_flight(held),
                    ));
                    self.claimed@ = self.claimed@.push(job);
                    self.held@ = self.held@.update(w as int, Some(job));
                }
                self.workers.set(w, WorkerState::Busy);
                assert(self.pending@ =~= old(self).pending@.drop_first());
                Claim::Job(job)
            },
            None => {
                if self.open {
                    Claim::Wait
                } else {
                    self.workers.set(w, WorkerState::Stopped);
                    Claim::Closed
                }
            },
        }
    }

    /// Worker `w` delivers the output of the job it was busy with, and is
    /// idle again.
    pub fn finish(&mut self, w: usize, output: T)
        requires
            old(self).wf(),
            w < old(self).states().len(),
            old(self).states()[w as int] == WorkerState::Busy,
        ensures
            final(self).wf(),
            final(self).outputs() == old(self).outputs().push(output),
            final(self).delivered() == old(self).delivered().push(old(self).held()[w as int]->0),
            final(self).held() == old(self).held().update(w as int, None),
            final(self).states() == old(self).states().update(w as int, WorkerState::Idle),
            final(self).pending() == old(self).pending(),
            final(self).submitted() == old(self).submitted(),
            final(self).claimed() == old(self).claimed(),
            final(self).is_open() == old(self).is_open(),
    {
        proof {
            assert(self.workers@[w as int] == WorkerState::Busy);
            let job = self.held@[w as int]->0;
            let held = self.held@.update(w as int, None);
            lemma_in_flight_update(self.held@, w as int, None);
            assert(self.delivered@.push(job).to_multiset() =~= self.delivered@.to_multiset().insert(
                job,
            )) by {
                broadcast use vstd::seq_lib::group_to_multiset_ensures;

            }
            assert forall|x: J| #[trigger]
                self.delivered@.push(job).to_multiset().add(in_flight(held)).count(x)
                    == self.claimed@.to_multiset().count(x) by {
                assert(in_flight(held).add(held_job(self.held@[w as int])).count(x)
                    == in_flight(self.held@).add(held_job(None)).count(x));
            }
            assert(self.delivered@.push(job).to_multiset().add(in_flight(held))
                =~= self.claimed@.to_multiset());
            self.delivered@ = self.delivered@.push(job);
            self.held@ = self.held@.update(w as int, None);
        }
        self.workers.set(w, WorkerState::Idle);
        self.outputs.push(output);
    }

    /// Closes the queue: it takes no more jobs, and workers stop once it is
    /// empty.
    pub fn close(&mut self)
        requires
            old(self).wf(),
        ensures
            final(self).wf(),
            !final(self).is_open(),
            final(self).pending() == old(self).pending(),
            final(self).states() == old(self).states(),
            final(self).outputs() == old(self).outputs(),
            final(self).submitted() == old(self).submitted(),
            final(self).claimed() == old(self).claimed(),
            final(self).held() == old(self).held(),
            final(self).delivered() == old(self).delivered(),
    {
        self.open = false;
    }

    /// Whether every worker has stopped.
    pub fn is_drained(&self) -> (r: bool)
        ensures
            r == all_stopped(self.states()),
    {
        let mut i: usize = 0;
        while i < self.workers.len()
            invariant
                i <= self.workers@.len(),
                forall|k: int| 0 <= k < i ==> self.workers@[k] == WorkerState::Stopped,
            decreases self.workers@.len() - i,
        {
            if self.workers[i] != WorkerState::Stopped {
                return false;
            }
            i = i + 1;
        }
        true
    }

    /// The outputs of a pool whose workers have all stopped: one for each job
    /// it ever accepted, in order of delivery.
    pub fn into_outputs(self) -> (r: Vec<T>)
        requires
            self.wf(),
            all_stopped(self.states()),
        ensures
            r@ == self.outputs(),
            r@.len() == self.submitted().len(),
            self.delivered().to_multiset() == self.submitted().to_multiset(),
    {
        proof {
            lemma_drain_delivers_every_job(&self);
        }
        self.outputs
    }
}

/// Workers claim jobs in the order they were submitted: the claimed jobs are
/// always a prefix of the submitted ones, and the queue holds the rest.
pub proof fn lemma_claims_follow_submission_order<J, T>(d: &Dispatcher<J, T>)
    requires
        d.wf(),
    ensures
        d.claimed() == d.submitted().take(d.claimed().len() as int),
        d.pending() == d.submitted().skip(d.claimed().len() as int),
        d.submitted().len() == d.claimed().len() + d.pending().len(),
{
    assert(d.claimed() =~= d.submitted().take(d.claimed().len() as int));
    assert(d.pending() =~= d.submitted().skip(d.claimed().len() as int));
}

/// Once every worker has stopped, every accepted job has been claimed exactly
/// once and has delivered exactly one output: the delivered jobs are the
/// submitted ones, counted with multiplicity, there are as many outputs as
/// submitted jobs, and none is left in the queue.
pub proof fn lemma_drain_delivers_every_job<J, T>(d: &Dispatcher<J, T>)
    requires
        d.wf(),
        all_stopped(d.states()),
    ensures
        d.pending().len() == 0,
        !d.is_open(),
        d.claimed() == d.submitted(),
        d.delivered().to_multiset() == d.submitted().to_multiset(),
        d.outputs().len() == d.submitted().len(),
{
    assert(d.states()[0] == WorkerState::Stopped);
    assert(d.claimed() + d.pending() =~= d.claimed());
    assert forall|i: int| 0 <= i < d.held().len() implies d.held()[i] is None by {
        assert(d.states()[i] == WorkerState::Stopped);
    }
    lemma_nothing_in_flight(d.held());
    assert(d.delivered().to_multiset().add(in_flight(d.held())) =~= d.delivered().to_multiset());
    assert(d.delivered().to_multiset().len() == d.delivered().len()) by {
        broadcast use vstd::seq_lib::group_to_multiset_ensures;

    }
    assert(d.claimed().to_multiset().len() == d.claimed().len()) by {
        broadcast use vstd::seq_lib::group_to_multiset_ensures;

    }
}

/// A pool that never accepted a job drains to no outputs.
pub proof fn lemma_empty_drain<J, T>(d: &Dispatcher<J, T>)
    requires
        d.wf(),
        all_stopped(d.states()),
        d.submitted().len() == 0,
    ensures
        d.outputs().len() == 0,
{
    lemma_drain_delivers_every_job(d);
}

} // verus!
