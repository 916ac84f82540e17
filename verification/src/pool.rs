//! The worker-pool core: a FIFO task queue shared between one producer side
//! and several consumer sides, and a pool state machine that accounts for
//! every task from submission to completion.
//!
//! Tasks are tracked by identifier (`u64`).  A runtime that owns the actual
//! worker threads pairs each identifier with the closure to run, performs the
//! blocking, and reports every observation back to the [`Pool`]: a worker
//! claims a task with [`Pool::claim`], reports its outcome with
//! [`Pool::complete`], and leaves when `claim` says the queue is closed and
//! drained.  Everything the pool decides — whether a submission is accepted,
//! which task a worker gets, when a worker must exit — is verified here, for
//! every interleaving of those events (see the `lemma_` functions at the end).

use vstd::prelude::*;
use vstd::multiset::Multiset;
use vstd::seq_lib::group_to_multiset_ensures;
use std::collections::VecDeque;

verus! {

broadcast use vstd::multiset::group_multiset_axioms, group_to_multiset_ensures;

/// Errors returned by the pool: construction with no workers, and submission
/// after the queue has been closed.  A failure *inside* a task is never an
/// error of the pool; it is contained and recorded (see [`Pool::complete`]).
#[derive(Clone, Copy, Debug, PartialEq, Eq, Structural)]
pub enum PoolError {
    /// The pool was asked for zero workers; submitted work could never run.
    ConfigurationError,
    /// The queue no longer accepts tasks; the rejected task stays with the caller.
    QueueClosed,
}

/// What a worker's attempt to take a task from the queue observed.
#[derive(Clone, Copy, Debug, PartialEq, Eq, Structural)]
pub enum DequeueOutcome {
    /// A task was handed to the caller, and to nobody else.
    Task(u64),
    /// Nothing is pending but the queue is still open: the caller must block
    /// and try again once a producer or the closer signals it.
    WouldBlock,
    /// The queue is closed and fully drained: the caller must not wait.
    Closed,
}

/// What the pool tells a worker that asked for work.
#[derive(Clone, Copy, Debug, PartialEq, Eq, Structural)]
pub enum ClaimOutcome {
    /// Run the named task; afterwards the worker calls [`Pool::complete`].
    Run(u64),
    /// Nothing to do yet: block until woken, then claim again.
    WouldBlock,
    /// Shutdown has begun and the queue is drained: the worker terminates.
    Exit,
}

/// How running a task ended.  A failed task is recorded, never propagated:
/// the worker that ran it stays alive and claims the next task.
#[derive(Clone, Copy, Debug, PartialEq, Eq, Structural)]
pub enum TaskOutcome {
    Succeeded,
    /// The task panicked or returned an error; the runtime caught it.
    Failed,
}

/// The ordered hand-off channel between submitters and workers.
///
/// Tasks are delivered to at most one consumer each, in submission order.
/// Once closed the queue accepts nothing new, but what is already pending is
/// still drained before consumers observe [`DequeueOutcome::Closed`].
pub struct TaskQueue {
    open: bool,
    tasks: VecDeque<u64>,
}

impl TaskQueue {
    /// The tasks accepted but not yet handed to a consumer, oldest first.
    pub closed spec fn pending(self) -> Seq<u64> {
        self.tasks@
    }

    /// Whether the queue still accepts new tasks.
    pub closed spec fn is_open(self) -> bool {
        self.open
    }

    pub fn new() -> (q: TaskQueue)
        ensures
            q.is_open(),
            q.pending() == Seq::<u64>::empty(),
    {
        TaskQueue { open: true, tasks: VecDeque::new() }
    }

    /// Appends `task` to the pending sequence, or rejects it — and leaves the
    /// queue unchanged — exactly when the queue has been closed.
    pub fn enqueue(&mut self, task: u64) -> (r: Result<(), PoolError>)
        ensures
            old(self).is_open() ==> r == Ok::<(), PoolError>(())
                && final(self).pending() == old(self).pending().push(task),
            !old(self).is_open() ==> r == Err::<(), PoolError>(PoolError::QueueClosed)
                && final(self).pending() == old(self).pending(),
            final(self).is_open() == old(self).is_open(),
    {
        if self.open {
            self.tasks.push_back(task);
            Ok(())
        } else {
            Err(PoolError::QueueClosed)
        }
    }

    /// Hands out the oldest pending task, removing it, so that no other
    /// consumer can receive it.  With nothing pending, says whether the
    /// caller must wait ([`DequeueOutcome::WouldBlock`]) or must stop
    /// ([`DequeueOutcome::Closed`]).
    pub fn dequeue(&mut self) -> (r: DequeueOutcome)
        ensures
            old(self).pending().len() > 0 ==> r == DequeueOutcome::Task(old(self).pending()[0])
                && final(self).pending() == old(self).pending().drop_first(),
            old(self).pending().len() == 0 ==> final(self).pending() == old(self).pending()
                && r == (if old(self).is_open() { DequeueOutcome::WouldBlock } else {
                    DequeueOutcome::Closed
                }),
            final(self).is_open() == old(self).is_open(),
    {
        match self.tasks.pop_front() {
            Some(task) => DequeueOutcome::Task(task),
            None => {
                if self.open {
                    DequeueOutcome::WouldBlock
                } else {
                    DequeueOutcome::Closed
                }
            },
        }
    }

    /// Marks the queue non-acceptive.  Idempotent; pending tasks stay and are
    /// still delivered by [`TaskQueue::dequeue`].
    pub fn close(&mut self)
        ensures
            !final(self).is_open(),
            final(self).pending() == old(self).pending(),
    {
        self.open = false;
    }
}

/// The abstract state of a pool: what the contracts and the laws below speak
/// of.  `Pool@` is a `PoolState`.
#[verifier::ext_equal]
pub ghost struct PoolState {
    /// Whether `submit` still accepts tasks (the queue is open).
    pub accepting: bool,
    /// Accepted tasks not yet claimed by any worker, oldest first.
    pub pending: Seq<u64>,
    /// Tasks claimed by some worker and still running.  Workers finish in no
    /// particular order, so this is a multiset.
    pub running: Multiset<u64>,
    /// Tasks that finished (successfully or not), in the order their
    /// completions were reported.
    pub completed: Seq<u64>,
    /// The completed tasks whose run failed, in report order.
    pub failed: Seq<u64>,
    /// The number of workers the pool was built with; never changes.
    pub worker_count: nat,
    /// Workers that have not yet observed shutdown and exited.
    pub live_workers: nat,
}

impl PoolState {
    /// The initial state of a pool of `worker_count` workers.
    pub open spec fn initial(worker_count: nat) -> PoolState {
        PoolState {
            accepting: true,
            pending: Seq::empty(),
            running: Multiset::empty(),
            completed: Seq::empty(),
            failed: Seq::empty(),
            worker_count: worker_count,
            live_workers: worker_count,
        }
    }

    /// Every task ever accepted is in exactly one of the three places:
    /// still pending, running on a worker, or completed.
    pub open spec fn accounted(self) -> Multiset<u64> {
        self.pending.to_multiset().add(self.running).add(self.completed.to_multiset())
    }

    /// Structural facts that hold of every reachable pool state.
    pub open spec fn wf(self) -> bool {
        &&& self.worker_count >= 1
        &&& self.live_workers <= self.worker_count
        &&& self.failed.to_multiset().subset_of(self.completed.to_multiset())
    }
}

/// One observable event in the life of a pool.  Any interleaving of events —
/// any schedule the threads and the operating system produce — is some
/// sequence of these.
pub ghost enum PoolEvent {
    /// A submitter handed in a new unit of work.
    Submit(u64),
    /// Some worker asked the queue for work.
    Claim,
    /// Some worker finished a unit of work, observing the given outcome.
    Complete(u64, TaskOutcome),
    /// Shutdown was requested: the queue closes.
    Shutdown,
}

/// `submit` accepts the task iff the pool is accepting; a rejected task
/// leaves the state unchanged.
pub open spec fn spec_submit(s: PoolState, task: u64) -> PoolState {
    if s.accepting {
        PoolState { pending: s.pending.push(task), ..s }
    } else {
        s
    }
}

/// A worker's claim: take the oldest pending task; with nothing pending,
/// either keep waiting (still accepting) or exit (shutdown has begun).
pub open spec fn spec_claim(s: PoolState) -> PoolState {
    if s.pending.len() > 0 {
        PoolState { pending: s.pending.drop_first(), running: s.running.insert(s.pending[0]), ..s }
    } else if !s.accepting && s.live_workers > 0 {
        PoolState { live_workers: (s.live_workers - 1) as nat, ..s }
    } else {
        s
    }
}

/// A completion report: the task moves from running to completed; a failure
/// is additionally recorded, and nothing else changes — in particular the
/// worker stays live and the pending tasks stay deliverable.
pub open spec fn spec_complete(s: PoolState, task: u64, outcome: TaskOutcome) -> PoolState {
    if s.running.count(task) > 0 {
        PoolState {
            running: s.running.remove(task),
            completed: s.completed.push(task),
            failed: if outcome is Failed {
                s.failed.push(task)
            } else {
                s.failed
            },
            ..s
        }
    } else {
        s
    }
}

/// Shutdown closes the queue and nothing more; draining and worker exits are
/// later `Claim` events.
pub open spec fn spec_shutdown(s: PoolState) -> PoolState {
    PoolState { accepting: false, ..s }
}

/// The transition function of the pool state machine.
pub open spec fn spec_step(s: PoolState, e: PoolEvent) -> PoolState {
    match e {
        PoolEvent::Submit(task) => spec_submit(s, task),
        PoolEvent::Claim => spec_claim(s),
        PoolEvent::Complete(task, outcome) => spec_complete(s, task, outcome),
        PoolEvent::Shutdown => spec_shutdown(s),
    }
}

/// The state after an arbitrary schedule of events.
pub open spec fn spec_run(s: PoolState, events: Seq<PoolEvent>) -> PoolState
    decreases events.len(),
{
    if events.len() == 0 {
        s
    } else {
        spec_run(spec_step(s, events[0]), events.drop_first())
    }
}

/// The tasks a schedule gets accepted into the pool, starting from `s`:
/// the submissions that arrive while the queue is open.
pub open spec fn spec_accepted(s: PoolState, events: Seq<PoolEvent>) -> Multiset<u64>
    decreases events.len(),
{
    if events.len() == 0 {
        Multiset::empty()
    } else {
        let rest = spec_accepted(spec_step(s, events[0]), events.drop_first());
        match events[0] {
            PoolEvent::Submit(task) => if s.accepting {
                rest.insert(task)
            } else {
                rest
            },
            _ => rest,
        }
    }
}

/// The pool: owns the task queue, fixes the worker count at construction,
/// and records every claim, completion and failure that the runtime reports.
pub struct Pool {
    queue: TaskQueue,
    running: Vec<u64>,
    completed: Vec<u64>,
    failed: Vec<u64>,
    worker_count: usize,
    live_workers: usize,
}

impl View for Pool {
    type V = PoolState;

    closed spec fn view(&self) -> PoolState {
        PoolState {
            accepting: self.queue.is_open(),
            pending: self.queue.pending(),
            running: self.running@.to_multiset(),
            completed: self.completed@,
            failed: self.failed@,
            worker_count: self.worker_count as nat,
            live_workers: self.live_workers as nat,
        }
    }
}

impl Pool {
    /// Builds a pool of exactly `worker_count` workers, all initially live,
    /// with an open, empty queue.  A pool of zero workers is refused: work
    /// submitted to it could never be consumed.
    pub fn new(worker_count: usize) -> (r: Result<Pool, PoolError>)
        ensures
            worker_count == 0 ==> r == Err::<Pool, PoolError>(PoolError::ConfigurationError),
            worker_count >= 1 ==> (r matches Ok(p) && p@ == PoolState::initial(
                worker_count as nat,
            )),
    {
        if worker_count == 0 {
            Err(PoolError::ConfigurationError)
        } else {
            let p = Pool {
                queue: TaskQueue::new(),
                running: Vec::new(),
                completed: Vec::new(),
                failed: Vec::new(),
                worker_count,
                live_workers: worker_count,
            };
            proof {
                assert(p@ =~= PoolState::initial(worker_count as nat));
            }
            Ok(p)
        }
    }

    /// Offers a task.  It is appended to the queue iff the pool is still
    /// accepting; after shutdown has begun the task is rejected with
    /// [`PoolError::QueueClosed`], the state does not change, and ownership
    /// of the task stays with the caller.
    pub fn submit(&mut self, task: u64) -> (r: Result<(), PoolError>)
        ensures
            final(self)@ == spec_submit(old(self)@, task),
            r == Ok::<(), PoolError>(()) <==> old(self)@.accepting,
            r != Ok::<(), PoolError>(()) ==> r == Err::<(), PoolError>(PoolError::QueueClosed),
    {
        let r = self.queue.enqueue(task);
        proof {
            assert(self@ =~= spec_submit(old(self)@, task));
        }
        r
    }

    /// A worker asks for work: the oldest pending task if there is one, an
    /// instruction to block if the queue is open and empty, and an
    /// instruction to terminate once shutdown has begun and the queue is
    /// drained.  A handed-out task is removed, so no other worker can get it.
    pub fn claim(&mut self) -> (r: ClaimOutcome)
        ensures
            final(self)@ == spec_claim(old(self)@),
            old(self)@.pending.len() > 0 ==> r == ClaimOutcome::Run(old(self)@.pending[0]),
            old(self)@.pending.len() == 0 ==> r == (if old(self)@.accepting {
                ClaimOutcome::WouldBlock
            } else {
                ClaimOutcome::Exit
            }),
    {
        broadcast use group_to_multiset_ensures;

        match self.queue.dequeue() {
            DequeueOutcome::Task(task) => {
                self.running.push(task);
                proof {
                    assert(self@ =~= spec_claim(old(self)@));
                }
                ClaimOutcome::Run(task)
            },
            DequeueOutcome::WouldBlock => ClaimOutcome::WouldBlock,
            DequeueOutcome::Closed => {
                if self.live_workers > 0 {
                    self.live_workers = self.live_workers - 1;
                }
                proof {
                    assert(self@ =~= spec_claim(old(self)@));
                }
                ClaimOutcome::Exit
            },
        }
    }

    /// A worker reports that `task` finished.  The task moves from running
    /// to completed — each claimed task is completed at most once — and a
    /// failure is recorded with the identifier of the submission, so the
    /// owner can tell which one failed.  Nothing else changes: a failed task
    /// neither stops the worker nor touches the tasks still queued.
    pub fn complete(&mut self, task: u64, outcome: TaskOutcome)
        ensures
            final(self)@ == spec_complete(old(self)@, task, outcome),
    {
        broadcast use group_to_multiset_ensures;

        let mut i: usize = 0;
        while i < self.running.len()
            invariant
                i <= self.running@.len(),
                forall|k: int| 0 <= k < i ==> self.running@[k] != task,
                *self == *old(self),
            decreases self.running@.len() - i,
        {
            if self.running[i] == task {
                self.running.remove(i);
                self.completed.push(task);
                if matches!(outcome, TaskOutcome::Failed) {
                    self.failed.push(task);
                }
                proof {
                    assert(old(self)@.running.count(task) > 0) by {
                        assert(old(self).running@.contains(task));
                    }
                    assert(self@ =~= spec_complete(old(self)@, task, outcome));
                }
                return;
            }
            i = i + 1;
        }
        proof {
            assert(old(self)@.running.count(task) == 0) by {
                assert(!old(self).running@.contains(task));
            }
            assert(self@ =~= spec_complete(old(self)@, task, outcome));
        }
    }

    /// Begins shutdown: the queue closes, so every later `submit` fails, and
    /// each worker's next look at an empty queue tells it to exit.  Pending
    /// tasks are not discarded.  Idempotent: closing a closed queue changes
    /// nothing.  The runtime owning the threads waits for the workers after
    /// calling this; the pool itself never blocks.
    pub fn shutdown(&mut self)
        ensures
            final(self)@ == spec_shutdown(old(self)@),
    {
        self.queue.close();
        proof {
            assert(self@ =~= spec_shutdown(old(self)@));
        }
    }

    /// The number of workers the pool was built with.
    pub fn worker_count(&self) -> (r: usize)
        ensures
            r as nat == self@.worker_count,
    {
        self.worker_count
    }

    /// Workers that have not yet observed shutdown and exited.
    pub fn live_workers(&self) -> (r: usize)
        ensures
            r as nat == self@.live_workers,
    {
        self.live_workers
    }

    /// Whether `submit` would currently accept a task.
    pub fn is_accepting(&self) -> (r: bool)
        ensures
            r == self@.accepting,
    {
        self.queue.open
    }

    /// Accepted tasks no worker has claimed yet.
    pub fn pending_count(&self) -> (r: usize)
        ensures
            r as nat == self@.pending.len(),
    {
        self.queue.tasks.len()
    }

    /// Tasks claimed and still running.
    pub fn running_count(&self) -> (r: usize)
        ensures
            r as nat == self@.running.len(),
    {
        broadcast use group_to_multiset_ensures;

        self.running.len()
    }

    /// Tasks that finished, successfully or not.
    pub fn completed_count(&self) -> (r: usize)
        ensures
            r as nat == self@.completed.len(),
    {
        self.completed.len()
    }

    /// The identifiers of the tasks whose run failed, in report order.
    pub fn failed_tasks(&self) -> (r: &Vec<u64>)
        ensures
            r@ == self@.failed,
    {
        &self.failed
    }
}

/// A schedule of `k` claim events: `k` workers (or one worker `k` times)
/// asking the queue for work, with nothing else happening in between.
pub open spec fn spec_claims(k: nat) -> Seq<PoolEvent> {
    Seq::new(k, |i: int| PoolEvent::Claim)
}

/// No single event creates or destroys a task: a step leaves the accounted
/// tasks (pending + running + completed) unchanged, except that an accepted
/// submission adds exactly the submitted task.
pub proof fn lemma_step_accounts(s: PoolState, e: PoolEvent)
    ensures
        spec_step(s, e).accounted() == (match e {
            PoolEvent::Submit(task) => if s.accepting {
                s.accounted().insert(task)
            } else {
                s.accounted()
            },
            _ => s.accounted(),
        }),
{
    match e {
        PoolEvent::Submit(task) => {
            if s.accepting {
                assert(spec_submit(s, task).accounted() =~= s.accounted().insert(task));
            }
        },
        PoolEvent::Claim => {
            if s.pending.len() > 0 {
                let head = s.pending[0];
                assert(s.pending.drop_first() =~= s.pending.remove(0));
                assert(s.pending.remove(0).to_multiset() =~= s.pending.to_multiset().remove(head));
                assert(s.pending.contains(head));
                assert(spec_claim(s).accounted() =~= s.accounted());
            }
        },
        PoolEvent::Complete(task, outcome) => {
            if s.running.count(task) > 0 {
                assert(spec_complete(s, task, outcome).accounted() =~= s.accounted());
            }
        },
        PoolEvent::Shutdown => {
            assert(spec_shutdown(s).accounted() =~= s.accounted());
        },
    }
}

/// Conservation of tasks, the heart of "no task loss" and "no duplicate
/// execution": under *any* schedule of events — any interleaving of
/// submissions, worker claims, completions and shutdown — the accounted
/// tasks of the final state are exactly those of the start plus every
/// submission the schedule got accepted.
pub proof fn lemma_conservation(s: PoolState, events: Seq<PoolEvent>)
    ensures
        spec_run(s, events).accounted() == s.accounted().add(spec_accepted(s, events)),
    decreases events.len(),
{
    if events.len() == 0 {
        assert(s.accounted().add(Multiset::empty()) =~= s.accounted());
    } else {
        let stepped = spec_step(s, events[0]);
        lemma_step_accounts(s, events[0]);
        lemma_conservation(stepped, events.drop_first());
        assert(spec_run(s, events).accounted() =~= s.accounted().add(spec_accepted(s, events)));
    }
}

/// No task loss, no duplicate execution: start a pool, let any schedule of
/// events whatsoever play out, and suppose at the end the queue is drained
/// and no task is still running (as after a completed shutdown).  Then the
/// multiset of completed tasks is exactly the multiset of accepted
/// submissions: every accepted task ran, and ran exactly once.
pub proof fn lemma_no_loss_no_duplication(worker_count: nat, events: Seq<PoolEvent>)
    requires
        spec_run(PoolState::initial(worker_count), events).pending.len() == 0,
        spec_run(PoolState::initial(worker_count), events).running.len() == 0,
    ensures
        spec_run(PoolState::initial(worker_count), events).completed.to_multiset()
            == spec_accepted(PoolState::initial(worker_count), events),
{
    let start = PoolState::initial(worker_count);
    let end = spec_run(start, events);
    lemma_conservation(start, events);
    assert(start.accounted() =~= Multiset::empty());
    assert(end.pending.to_multiset() =~= Multiset::empty());
    assert(end.running =~= Multiset::empty());
    assert(end.completed.to_multiset() =~= start.accounted().add(spec_accepted(start, events)));
    assert(end.completed.to_multiset() =~= spec_accepted(start, events));
}

/// Once shutdown has begun the queue never reopens: no later event makes the
/// pool accept submissions again.  With `submit`'s contract — rejection
/// exactly when not accepting — this is post-shutdown rejection in general.
pub proof fn lemma_closed_stays_closed(s: PoolState, events: Seq<PoolEvent>)
    requires
        !s.accepting,
    ensures
        !spec_run(s, events).accepting,
    decreases events.len(),
{
    if events.len() > 0 {
        lemma_closed_stays_closed(spec_step(s, events[0]), events.drop_first());
    }
}

/// Shutdown is idempotent: requesting it a second time changes nothing at
/// all, so the second call returns promptly with the state of the first.
pub proof fn lemma_shutdown_idempotent(s: PoolState)
    ensures
        spec_shutdown(spec_shutdown(s)) == spec_shutdown(s),
{
    assert(spec_shutdown(spec_shutdown(s)) =~= spec_shutdown(s));
}

/// A task failure is isolated: when a worker reports a failed task, the
/// queued tasks, the pool's acceptance of new work and the live workers are
/// all untouched — only the failure record and the completion record grow.
/// Subsequently queued tasks are claimed and run exactly as before.
pub proof fn lemma_task_failure_isolated(s: PoolState, task: u64)
    ensures
        spec_complete(s, task, TaskOutcome::Failed).pending == s.pending,
        spec_complete(s, task, TaskOutcome::Failed).accepting == s.accepting,
        spec_complete(s, task, TaskOutcome::Failed).live_workers == s.live_workers,
        s.running.count(task) > 0 ==> spec_complete(s, task, TaskOutcome::Failed).failed
            == s.failed.push(task),
{
}

/// Parallelism, as far as a state machine can state it: with at least `k`
/// tasks pending, `k` successive claims put `k` tasks into the running
/// multiset *simultaneously* — claiming never waits for a previously claimed
/// task to finish, so `k` workers hold `k` distinct claims at once.
pub proof fn lemma_claims_run_in_parallel(s: PoolState, k: nat)
    requires
        k <= s.pending.len(),
    ensures
        spec_run(s, spec_claims(k)).running.len() == s.running.len() + k,
        spec_run(s, spec_claims(k)).pending == s.pending.skip(k as int),
    decreases k,
{
    if k == 0 {
        assert(s.pending.skip(0) =~= s.pending);
    } else {
        let stepped = spec_claim(s);
        assert(spec_claims(k)[0] is Claim);
        assert(spec_claims(k).drop_first() =~= spec_claims((k - 1) as nat));
        lemma_claims_run_in_parallel(stepped, (k - 1) as nat);
        assert(stepped.pending.skip(k - 1) =~= s.pending.skip(k as int));
        assert(spec_run(s, spec_claims(k)).pending =~= s.pending.skip(k as int));
    }
}

/// The tasks a schedule gets accepted, as a sequence in arrival order.
pub open spec fn spec_accepted_seq(s: PoolState, events: Seq<PoolEvent>) -> Seq<u64>
    decreases events.len(),
{
    if events.len() == 0 {
        Seq::empty()
    } else {
        let rest = spec_accepted_seq(spec_step(s, events[0]), events.drop_first());
        match events[0] {
            PoolEvent::Submit(task) => if s.accepting {
                seq![task] + rest
            } else {
                rest
            },
            _ => rest,
        }
    }
}

/// The tasks handed to workers, as a sequence in claim order.
pub open spec fn spec_claimed_seq(s: PoolState, events: Seq<PoolEvent>) -> Seq<u64>
    decreases events.len(),
{
    if events.len() == 0 {
        Seq::empty()
    } else {
        let rest = spec_claimed_seq(spec_step(s, events[0]), events.drop_first());
        match events[0] {
            PoolEvent::Claim => if s.pending.len() > 0 {
                seq![s.pending[0]] + rest
            } else {
                rest
            },
            _ => rest,
        }
    }
}

/// FIFO delivery: under any schedule, the tasks handed to workers followed
/// by the tasks still queued are exactly the tasks that were queued at the
/// start followed by the accepted submissions, in arrival order.  Workers
/// therefore receive tasks in exactly the order a producer submitted them.
pub proof fn lemma_fifo_delivery(s: PoolState, events: Seq<PoolEvent>)
    ensures
        spec_claimed_seq(s, events) + spec_run(s, events).pending == s.pending
            + spec_accepted_seq(s, events),
    decreases events.len(),
{
    if events.len() == 0 {
        assert(spec_claimed_seq(s, events) + s.pending =~= s.pending + spec_accepted_seq(
            s,
            events,
        ));
    } else {
        let stepped = spec_step(s, events[0]);
        lemma_fifo_delivery(stepped, events.drop_first());
        let rest_claimed = spec_claimed_seq(stepped, events.drop_first());
        let rest_accepted = spec_accepted_seq(stepped, events.drop_first());
        match events[0] {
            PoolEvent::Submit(task) => {
                if s.accepting {
                    assert(rest_claimed + spec_run(s, events).pending =~= s.pending.push(task)
                        + rest_accepted);
                    assert(s.pending.push(task) + rest_accepted =~= s.pending + (seq![task]
                        + rest_accepted));
                }
            },
            PoolEvent::Claim => {
                if s.pending.len() > 0 {
                    assert(rest_claimed + spec_run(s, events).pending =~= s.pending.drop_first()
                        + rest_accepted);
                    assert((seq![s.pending[0]] + rest_claimed) + spec_run(s, events).pending
                        =~= seq![s.pending[0]] + (rest_claimed + spec_run(s, events).pending));
                    assert(seq![s.pending[0]] + (s.pending.drop_first() + rest_accepted)
                        =~= s.pending + rest_accepted);
                }
            },
            _ => {},
        }
        assert(spec_claimed_seq(s, events) + spec_run(s, events).pending =~= s.pending
            + spec_accepted_seq(s, events));
    }
}

/// Every reachable pool state is well formed: the worker count never
/// changes, live workers never exceed it, and the failure record only names
/// completed tasks.
pub proof fn lemma_step_preserves_wf(s: PoolState, e: PoolEvent)
    requires
        s.wf(),
    ensures
        spec_step(s, e).wf(),
        spec_step(s, e).worker_count == s.worker_count,
{
    match e {
        PoolEvent::Complete(task, outcome) => {
            if s.running.count(task) > 0 {
                assert(s.completed.push(task).to_multiset() =~= s.completed.to_multiset().insert(
                    task,
                ));
                if outcome is Failed {
                    assert(s.failed.push(task).to_multiset() =~= s.failed.to_multiset().insert(
                        task,
                    ));
                }
                assert(spec_step(s, e).failed.to_multiset().subset_of(
                    spec_step(s, e).completed.to_multiset(),
                ));
            }
        },
        _ => {},
    }
}

} // verus!
