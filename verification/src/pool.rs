//! The verified core of the thread pool: message and worker types, the
//! worker state machine, and the pool protocol over one shared FIFO queue.

use vstd::prelude::*;

verus! {

/// A message drawn from the shared queue: either one job to run, or the
/// signal telling the worker that dequeues it to shut down.
pub enum Message<J> {
    NewJob(J),
    Terminate,
}

/// The two designed states of a worker's receive-execute loop, plus the
/// abnormal end reached when a job faults on the worker's thread.
#[derive(Clone, Copy, PartialEq, Eq, Structural, Debug)]
pub enum WorkerState {
    /// Blocked on the shared queue or executing a job.
    Running,
    /// Consumed a `Terminate` message and exited its loop cleanly.
    Terminated,
    /// A job faulted on this worker's thread: the loop ended outside the
    /// designed two-state machine and the worker is never replaced.
    Faulted,
}

/// One pool slot: a stable identifier (used only for diagnostics) and the
/// state of the thread of execution bound to the shared queue.
pub struct Worker {
    pub id: usize,
    pub state: WorkerState,
}

/// Why a pool operation failed.
#[derive(Clone, Copy, PartialEq, Eq, Structural, Debug)]
pub enum PoolError {
    /// A pool was asked for with zero workers.
    ConstraintViolation,
    /// A job was submitted after teardown had begun.
    SubmissionAfterShutdown,
}

impl Worker {
    /// A fresh worker starts in `Running`, blocked on the shared queue.
    pub fn new(id: usize) -> (w: Worker)
        ensures
            w.id == id,
            w.state == WorkerState::Running,
    {
        Worker { id, state: WorkerState::Running }
    }
}

/// What one turn of a worker's loop yields once a message is dequeued, or
/// would yield: `Blocked` when the worker is not running or nothing is
/// queued, `Run` when a job must now be executed, `Exit` when the worker
/// has consumed its `Terminate` and its loop ends.
pub enum Step<J> {
    Blocked,
    Run(J),
    Exit,
}

/// The abstract state of a pool: the state of each worker slot, the
/// contents of the shared FIFO queue, and whether teardown has begun.
pub ghost struct PoolView<J> {
    pub workers: Seq<Worker>,
    pub queue: Seq<Message<J>>,
    pub torn_down: bool,
}

/// How many workers of `ws` are in state `st`.
pub open spec fn count_in(ws: Seq<Worker>, st: WorkerState) -> int
    decreases ws.len(),
{
    if ws.len() == 0 {
        0
    } else {
        count_in(ws.drop_last(), st) + if ws.last().state == st {
            1int
        } else {
            0int
        }
    }
}

/// How many `Terminate` messages `q` holds.
pub open spec fn count_terminates<J>(q: Seq<Message<J>>) -> int
    decreases q.len(),
{
    if q.len() == 0 {
        0
    } else {
        (if q[0] is Terminate {
            1int
        } else {
            0int
        }) + count_terminates(q.drop_first())
    }
}

/// The jobs `q` holds, in queue order, with the terminate signals left out.
pub open spec fn queued_jobs<J>(q: Seq<Message<J>>) -> Seq<J>
    decreases q.len(),
{
    if q.len() == 0 {
        Seq::empty()
    } else {
        match q[0] {
            Message::NewJob(j) => seq![j] + queued_jobs(q.drop_first()),
            Message::Terminate => queued_jobs(q.drop_first()),
        }
    }
}

/// Every job in `q` stands before every terminate signal.  This holds of
/// the shared queue at all times, because terminate signals are enqueued
/// only once teardown has begun and no job is accepted after that.
pub open spec fn jobs_before_terminates<J>(q: Seq<Message<J>>) -> bool {
    forall|i: int, k: int|
        0 <= i < k < q.len() && #[trigger] q[i] is Terminate ==> #[trigger] q[k] is Terminate
}

proof fn lemma_count_in_update(ws: Seq<Worker>, i: int, w: Worker, st: WorkerState)
    requires
        0 <= i < ws.len(),
    ensures
        count_in(ws.update(i, w), st) == count_in(ws, st) - (if ws[i].state == st {
            1int
        } else {
            0int
        }) + (if w.state == st {
            1int
        } else {
            0int
        }),
    decreases ws.len(),
{
    let ws2 = ws.update(i, w);
    if i == ws.len() - 1 {
        assert(ws2.drop_last() =~= ws.drop_last());
    } else {
        assert(ws2.drop_last() =~= ws.drop_last().update(i, w));
        lemma_count_in_update(ws.drop_last(), i, w, st);
    }
}

proof fn lemma_count_in_total(ws: Seq<Worker>)
    ensures
        count_in(ws, WorkerState::Running) + count_in(ws, WorkerState::Terminated) + count_in(
            ws,
            WorkerState::Faulted,
        ) == ws.len(),
    decreases ws.len(),
{
    if ws.len() > 0 {
        lemma_count_in_total(ws.drop_last());
    }
}

proof fn lemma_count_in_nonneg(ws: Seq<Worker>, st: WorkerState)
    ensures
        count_in(ws, st) >= 0,
    decreases ws.len(),
{
    if ws.len() > 0 {
        lemma_count_in_nonneg(ws.drop_last(), st);
    }
}

proof fn lemma_count_in_none(ws: Seq<Worker>, st: WorkerState)
    ensures
        count_in(ws, st) == 0 <==> (forall|i: int|
            0 <= i < ws.len() ==> #[trigger] ws[i].state != st),
    decreases ws.len(),
{
    if ws.len() > 0 {
        lemma_count_in_none(ws.drop_last(), st);
        lemma_count_in_nonneg(ws.drop_last(), st);
        if count_in(ws, st) == 0 {
            assert forall|i: int| 0 <= i < ws.len() implies #[trigger] ws[i].state != st by {
                if i < ws.len() - 1 {
                    assert(ws[i] == ws.drop_last()[i]);
                } else {
                    assert(ws[i] == ws.last());
                }
            }
        }
        if forall|i: int| 0 <= i < ws.len() ==> #[trigger] ws[i].state != st {
            assert(forall|i: int|
                0 <= i < ws.len() - 1 ==> #[trigger] ws.drop_last()[i] == ws[i]);
            assert(ws.last() == ws[ws.len() - 1]);
        }
    }
}

proof fn lemma_count_terminates_zero<J>(q: Seq<Message<J>>)
    ensures
        count_terminates(q) == 0 <==> (forall|i: int|
            0 <= i < q.len() ==> !(#[trigger] q[i] is Terminate)),
    decreases q.len(),
{
    if q.len() > 0 {
        lemma_count_terminates_zero(q.drop_first());
        lemma_count_terminates_nonneg(q.drop_first());
        if count_terminates(q) == 0 {
            assert forall|i: int| 0 <= i < q.len() implies !(#[trigger] q[i] is Terminate) by {
                if i > 0 {
                    assert(q[i] == q.drop_first()[i - 1]);
                }
            }
        }
        if forall|i: int| 0 <= i < q.len() ==> !(#[trigger] q[i] is Terminate) {
            assert(forall|i: int|
                0 <= i < q.len() - 1 ==> #[trigger] q.drop_first()[i] == q[i + 1]);
        }
    }
}

proof fn lemma_count_terminates_nonneg<J>(q: Seq<Message<J>>)
    ensures
        count_terminates(q) >= 0,
    decreases q.len(),
{
    if q.len() > 0 {
        lemma_count_terminates_nonneg(q.drop_first());
    }
}

proof fn lemma_queued_jobs_push<J>(q: Seq<Message<J>>, m: Message<J>)
    ensures
        queued_jobs(q.push(m)) == (match m {
            Message::NewJob(j) => queued_jobs(q).push(j),
            Message::Terminate => queued_jobs(q),
        }),
    decreases q.len(),
{
    reveal_with_fuel(queued_jobs, 3);
    let q2 = q.push(m);
    assert(q2.len() == q.len() + 1);
    if q.len() == 0 {
        assert(q2[0] == m);
        assert(q2.drop_first() =~= Seq::<Message<J>>::empty());
        match m {
            Message::NewJob(j) => {
                assert(queued_jobs(q2) == seq![j] + queued_jobs(Seq::<Message<J>>::empty()));
                assert(queued_jobs(q2) =~= queued_jobs(q).push(j));
            },
            Message::Terminate => {},
        }
    } else {
        assert(q2[0] == q[0]);
        assert(q2.drop_first() =~= q.drop_first().push(m));
        lemma_queued_jobs_push(q.drop_first(), m);
        match m {
            Message::NewJob(j) => {
                match q[0] {
                    Message::NewJob(j0) => {
                        assert(queued_jobs(q2) == seq![j0] + queued_jobs(q.drop_first()).push(j));
                        assert(queued_jobs(q2) =~= queued_jobs(q).push(j));
                    },
                    Message::Terminate => {
                        assert(queued_jobs(q2) == queued_jobs(q.drop_first()).push(j));
                        assert(queued_jobs(q2) =~= queued_jobs(q).push(j));
                    },
                }
            },
            Message::Terminate => {},
        }
    }
}

proof fn lemma_count_terminates_push<J>(q: Seq<Message<J>>, m: Message<J>)
    ensures
        count_terminates(q.push(m)) == count_terminates(q) + (if m is Terminate {
            1int
        } else {
            0int
        }),
    decreases q.len(),
{
    reveal_with_fuel(count_terminates, 3);
    let q2 = q.push(m);
    assert(q2.len() == q.len() + 1);
    if q.len() == 0 {
        assert(q2[0] == m);
        assert(q2.drop_first() =~= Seq::<Message<J>>::empty());
    } else {
        assert(q2[0] == q[0]);
        assert(q2.drop_first() =~= q.drop_first().push(m));
        lemma_count_terminates_push(q.drop_first(), m);
    }
}

proof fn lemma_queued_jobs_len<J>(q: Seq<Message<J>>)
    ensures
        queued_jobs(q).len() + count_terminates(q) == q.len(),
    decreases q.len(),
{
    if q.len() > 0 {
        lemma_queued_jobs_len(q.drop_first());
    }
}

proof fn lemma_queued_jobs_all_terminates<J>(q: Seq<Message<J>>)
    requires
        forall|i: int| 0 <= i < q.len() ==> #[trigger] q[i] is Terminate,
    ensures
        queued_jobs(q) == Seq::<J>::empty(),
    decreases q.len(),
{
    if q.len() > 0 {
        assert(forall|i: int|
            0 <= i < q.len() - 1 ==> #[trigger] q.drop_first()[i] == q[i + 1]);
        lemma_queued_jobs_all_terminates(q.drop_first());
    }
}

impl<J> PoolView<J> {
    pub open spec fn size(self) -> int {
        self.workers.len() as int
    }

    /// Workers still blocked on the queue or executing a job.
    pub open spec fn running(self) -> int {
        count_in(self.workers, WorkerState::Running)
    }

    /// Workers that exited their loop cleanly through a `Terminate`.
    pub open spec fn terminated(self) -> int {
        count_in(self.workers, WorkerState::Terminated)
    }

    /// Workers lost to a faulting job.
    pub open spec fn faulted(self) -> int {
        count_in(self.workers, WorkerState::Faulted)
    }

    /// The jobs still waiting in the shared queue, in submission order.
    pub open spec fn pending_jobs(self) -> Seq<J> {
        queued_jobs(self.queue)
    }

    /// The pool's invariant, established at construction and preserved by
    /// every operation:
    /// - worker identifiers equal their slot index and never change;
    /// - the queue holds one `Terminate` for each worker that has not yet
    ///   exited cleanly once teardown has begun, and none before;
    /// - no worker exits cleanly before teardown begins;
    /// - every queued job stands before every queued terminate signal.
    pub open spec fn inv(self) -> bool {
        &&& forall|i: int| 0 <= i < self.workers.len() ==> (#[trigger] self.workers[i]).id == i
        &&& count_terminates(self.queue) == if self.torn_down {
            self.size() - self.terminated()
        } else {
            0
        }
        &&& !self.torn_down ==> self.terminated() == 0
        &&& jobs_before_terminates(self.queue)
    }

    /// A freshly constructed pool: `size` running workers, an empty queue.
    pub open spec fn new_tr(size: int) -> PoolView<J> {
        PoolView {
            workers: Seq::new(
                size as nat,
                |i: int| Worker { id: i as usize, state: WorkerState::Running },
            ),
            queue: Seq::empty(),
            torn_down: false,
        }
    }

    /// Submission enqueues one job at the back of the shared queue.
    pub open spec fn submit_tr(self, job: J) -> PoolView<J> {
        PoolView { queue: self.queue.push(Message::NewJob(job)), ..self }
    }

    /// Beginning teardown enqueues one `Terminate` per worker slot, after
    /// everything already queued.
    pub open spec fn teardown_tr(self) -> PoolView<J> {
        PoolView {
            queue: self.queue + Seq::new(self.workers.len(), |i: int| Message::Terminate),
            torn_down: true,
            ..self
        }
    }

    /// A faulting job ends worker `w`'s thread outside the designed state
    /// machine; nothing else changes and the worker is not replaced.
    pub open spec fn fault_tr(self, w: int) -> PoolView<J> {
        PoolView {
            workers: self.workers.update(
                w,
                Worker { id: self.workers[w].id, state: WorkerState::Faulted },
            ),
            ..self
        }
    }

    /// Worker `w` can dequeue only while it is running and a message is
    /// there to take; the mutual exclusion on the shared receive handle
    /// makes the dequeue one atomic step by one worker.
    pub open spec fn dispatch_enabled(self, w: int) -> bool {
        &&& 0 <= w < self.workers.len()
        &&& self.workers[w].state == WorkerState::Running
        &&& self.queue.len() > 0
    }

    /// One dequeue step by worker `w`: the front message leaves the queue;
    /// a job is handed to `w` to run, a terminate signal ends `w`'s loop.
    pub open spec fn dispatch_tr(self, w: int) -> (PoolView<J>, Step<J>) {
        if !self.dispatch_enabled(w) {
            (self, Step::Blocked)
        } else {
            match self.queue[0] {
                Message::NewJob(j) => (
                    PoolView { queue: self.queue.drop_first(), ..self },
                    Step::Run(j),
                ),
                Message::Terminate => (
                    PoolView {
                        workers: self.workers.update(
                            w,
                            Worker { id: self.workers[w].id, state: WorkerState::Terminated },
                        ),
                        queue: self.queue.drop_first(),
                        ..self
                    },
                    Step::Exit,
                ),
            }
        }
    }
}

proof fn lemma_count_in_all(ws: Seq<Worker>, st: WorkerState)
    requires
        forall|i: int| 0 <= i < ws.len() ==> (#[trigger] ws[i]).state == st,
    ensures
        count_in(ws, st) == ws.len(),
    decreases ws.len(),
{
    if ws.len() > 0 {
        assert(forall|i: int|
            0 <= i < ws.len() - 1 ==> #[trigger] ws.drop_last()[i] == ws[i]);
        lemma_count_in_all(ws.drop_last(), st);
        assert(ws.last() == ws[ws.len() - 1]);
    }
}

/// With no terminate signal queued, the queue is exactly its jobs.
proof fn lemma_queued_jobs_no_terminates<J>(q: Seq<Message<J>>)
    requires
        forall|i: int| 0 <= i < q.len() ==> !(#[trigger] q[i] is Terminate),
    ensures
        queued_jobs(q).len() == q.len(),
        forall|i: int|
            0 <= i < q.len() ==> #[trigger] q[i] == Message::NewJob(queued_jobs(q)[i]),
    decreases q.len(),
{
    if q.len() > 0 {
        assert(forall|i: int|
            0 <= i < q.len() - 1 ==> #[trigger] q.drop_first()[i] == q[i + 1]);
        lemma_queued_jobs_no_terminates(q.drop_first());
        assert forall|i: int|
            0 <= i < q.len() implies #[trigger] q[i] == Message::NewJob(queued_jobs(q)[i]) by {
            if i > 0 {
                assert(q[i] == q.drop_first()[i - 1]);
                assert(queued_jobs(q)[i] == queued_jobs(q.drop_first())[i - 1]);
            }
        }
    }
}

/// The pool after workers `0, 1, …, k-1` have each taken one dequeue turn.
pub open spec fn round_tr<J>(p: PoolView<J>, k: int) -> PoolView<J>
    decreases k,
{
    if k <= 0 {
        p
    } else {
        round_tr(p, k - 1).dispatch_tr(k - 1).0
    }
}

/// The jobs claimed during such a round, in the order they were claimed.
pub open spec fn round_claims<J>(p: PoolView<J>, k: int) -> Seq<J>
    decreases k,
{
    if k <= 0 {
        Seq::empty()
    } else {
        round_claims(p, k - 1) + (match round_tr(p, k - 1).dispatch_tr(k - 1).1 {
            Step::Run(j) => seq![j],
            Step::Blocked => Seq::empty(),
            Step::Exit => Seq::empty(),
        })
    }
}

/// Workers execute concurrently, one job each: while every worker is
/// running and teardown has not begun, a round in which each of the first
/// `k` workers dequeues once claims exactly the first `k` submitted jobs,
/// one job per worker, in submission order — and every worker is still
/// running afterwards, none having terminated or completed ahead of the
/// others.
pub proof fn lemma_round_runs_in_parallel<J>(p: PoolView<J>, k: int)
    requires
        p.inv(),
        !p.torn_down,
        0 <= k <= p.workers.len(),
        k <= p.pending_jobs().len(),
        forall|i: int|
            0 <= i < p.workers.len() ==> (#[trigger] p.workers[i]).state == WorkerState::Running,
    ensures
        round_tr(p, k).workers == p.workers,
        round_tr(p, k).torn_down == p.torn_down,
        round_tr(p, k).queue == p.queue.skip(k),
        round_claims(p, k) == p.pending_jobs().take(k),
    decreases k,
{
    lemma_count_terminates_zero(p.queue);
    lemma_queued_jobs_no_terminates(p.queue);
    if k <= 0 {
        assert(p.queue.skip(0) =~= p.queue);
        assert(round_claims(p, 0) =~= p.pending_jobs().take(0));
    } else {
        lemma_round_runs_in_parallel(p, k - 1);
        let p1 = round_tr(p, k - 1);
        assert(p1.queue[0] == p.queue[k - 1]);
        assert(p.queue[k - 1] == Message::NewJob(p.pending_jobs()[k - 1]));
        assert(p1.dispatch_enabled(k - 1));
        assert(round_tr(p, k).queue =~= p.queue.skip(k));
        assert(round_claims(p, k) =~= p.pending_jobs().take(k));
    }
}

/// The pool after the jobs of `js` are submitted, in order.
pub open spec fn submit_all_tr<J>(p: PoolView<J>, js: Seq<J>) -> PoolView<J>
    decreases js.len(),
{
    if js.len() == 0 {
        p
    } else {
        submit_all_tr(p, js.drop_last()).submit_tr(js.last())
    }
}

proof fn lemma_submit_all<J>(p: PoolView<J>, js: Seq<J>)
    requires
        p.inv(),
        !p.torn_down,
    ensures
        submit_all_tr(p, js).inv(),
        !submit_all_tr(p, js).torn_down,
        submit_all_tr(p, js).workers == p.workers,
        submit_all_tr(p, js).pending_jobs() == p.pending_jobs() + js,
    decreases js.len(),
{
    if js.len() == 0 {
        assert(p.pending_jobs() + js =~= p.pending_jobs());
    } else {
        lemma_submit_all(p, js.drop_last());
        let p1 = submit_all_tr(p, js.drop_last());
        let p2 = p1.submit_tr(js.last());
        lemma_count_terminates_push(p1.queue, Message::NewJob(js.last()));
        lemma_queued_jobs_push(p1.queue, Message::NewJob(js.last()));
        lemma_count_terminates_zero(p1.queue);
        assert forall|i: int, k: int|
            0 <= i < k < p2.queue.len() && #[trigger] p2.queue[i] is Terminate implies #[trigger] p2.queue[k] is Terminate by {
            assert(p2.queue[i] == p1.queue[i]);
        }
        assert(p2.pending_jobs() =~= p.pending_jobs() + js);
    }
}

/// Beginning teardown keeps every pending job, keeps every worker as it
/// was, and places one terminate signal per worker behind the jobs.
proof fn lemma_teardown_preserves<J>(p: PoolView<J>)
    requires
        p.inv(),
        !p.torn_down,
    ensures
        p.teardown_tr().inv(),
        p.teardown_tr().torn_down,
        p.teardown_tr().workers == p.workers,
        p.teardown_tr().pending_jobs() == p.pending_jobs(),
{
    let n = p.workers.len();
    lemma_count_terminates_zero(p.queue);
    lemma_teardown_queue_shape(p.queue, n as int);
    let q2 = p.queue + Seq::new(n, |i: int| Message::Terminate);
    assert forall|i: int, k: int|
        0 <= i < k < q2.len() && #[trigger] q2[i] is Terminate implies #[trigger] q2[k]
        is Terminate by {
        if i < p.queue.len() {
            assert(q2[i] == p.queue[i]);
            assert(!(p.queue[i] is Terminate));
        }
    }
}

proof fn lemma_teardown_queue_shape<J>(q: Seq<Message<J>>, n: int)
    requires
        0 <= n,
    ensures
        count_terminates(q + Seq::new(n as nat, |i: int| Message::Terminate))
            == count_terminates(q) + n,
        queued_jobs(q + Seq::new(n as nat, |i: int| Message::Terminate)) == queued_jobs(q),
    decreases n,
{
    if n == 0 {
        assert(q + Seq::new(0, |i: int| Message::<J>::Terminate) =~= q);
    } else {
        lemma_teardown_queue_shape(q, n - 1);
        let prev = q + Seq::new((n - 1) as nat, |i: int| Message::<J>::Terminate);
        assert(q + Seq::new(n as nat, |i: int| Message::<J>::Terminate) =~= prev.push(
            Message::Terminate,
        ));
        lemma_count_terminates_push(prev, Message::Terminate);
        lemma_queued_jobs_push(prev, Message::Terminate);
    }
}

/// No job is duplicated and none is lost: a fresh pool of `size` workers
/// that accepts the jobs `js` and then begins teardown holds exactly the
/// jobs of `js`, in submission order, ahead of the terminate signals,
/// with all `size` workers still running.  `drain`'s contract then says
/// that working the protocol to completion claims exactly `js`.
pub proof fn lemma_no_job_lost<J>(size: int, js: Seq<J>)
    requires
        0 < size <= usize::MAX,
    ensures
        ({
            let q = submit_all_tr(PoolView::<J>::new_tr(size), js).teardown_tr();
            &&& q.inv()
            &&& q.torn_down
            &&& q.running() == size
            &&& q.pending_jobs() == js
        }),
{
    let p = PoolView::<J>::new_tr(size);
    assert forall|i: int|
        0 <= i < p.workers.len() implies (#[trigger] p.workers[i]).state
        == WorkerState::Running by {}
    assert forall|i: int| 0 <= i < p.workers.len() implies (#[trigger] p.workers[i]).id == i by {}
    lemma_count_in_all(p.workers, WorkerState::Running);
    lemma_count_in_none(p.workers, WorkerState::Terminated);
    assert(p.inv());
    lemma_submit_all(p, js);
    let p1 = submit_all_tr(p, js);
    lemma_teardown_preserves(p1);
    lemma_count_in_all(p1.workers, WorkerState::Running);
    assert(p1.teardown_tr().pending_jobs() =~= js);
}

/// A fresh pool of `n` workers given `n` jobs executes them all
/// concurrently: a round in which each worker dequeues once claims every
/// job, one job per worker, in submission order, and every worker is
/// still running afterwards — no job's completion is waited on and no
/// worker stops.
pub proof fn lemma_fresh_pool_runs_all_in_parallel<J>(size: int, js: Seq<J>)
    requires
        0 < size <= usize::MAX,
        js.len() == size,
    ensures
        ({
            let p = submit_all_tr(PoolView::<J>::new_tr(size), js);
            &&& round_claims(p, size) == js
            &&& round_tr(p, size).workers == p.workers
            &&& forall|i: int|
                0 <= i < size ==> (#[trigger] round_tr(p, size).workers[i]).state
                    == WorkerState::Running
        }),
{
    let p0 = PoolView::<J>::new_tr(size);
    assert forall|i: int|
        0 <= i < p0.workers.len() implies (#[trigger] p0.workers[i]).state
        == WorkerState::Running by {}
    assert forall|i: int|
        0 <= i < p0.workers.len() implies (#[trigger] p0.workers[i]).id == i by {}
    lemma_count_in_all(p0.workers, WorkerState::Running);
    lemma_count_in_none(p0.workers, WorkerState::Terminated);
    assert(p0.inv());
    lemma_submit_all(p0, js);
    let p = submit_all_tr(p0, js);
    assert(p.pending_jobs() =~= js);
    lemma_round_runs_in_parallel(p, size);
    assert(round_claims(p, size) =~= js);
}

/// Teardown waits for the work: a worker's dequeue ends that worker's
/// loop only when not one submitted job is left in the queue.  Since the
/// tearing-down thread is held until every worker has stopped, every job
/// submitted before teardown has been claimed by the time teardown
/// returns.
pub proof fn lemma_exit_only_after_jobs_claimed<J>(p: PoolView<J>, w: int)
    requires
        p.inv(),
        p.dispatch_tr(w).1 is Exit,
    ensures
        p.pending_jobs().len() == 0,
        p.dispatch_tr(w).0.pending_jobs().len() == 0,
{
    assert(p.queue[0] is Terminate);
    assert forall|i: int| 0 <= i < p.queue.len() implies #[trigger] p.queue[i] is Terminate by {
        if i > 0 {
            assert(jobs_before_terminates(p.queue));
        }
    }
    lemma_queued_jobs_all_terminates(p.queue);
    assert(p.dispatch_tr(w).0.queue == p.queue.drop_first());
    assert(forall|i: int|
        0 <= i < p.queue.len() - 1 ==> #[trigger] p.queue.drop_first()[i] == p.queue[i + 1]);
    lemma_queued_jobs_all_terminates(p.queue.drop_first());
}

/// A job fault is contained to its worker: the queue, the teardown flag
/// and every other worker are untouched; exactly one running worker is
/// lost, and it is never replaced; and any other worker's next dequeue
/// yields exactly what it would have yielded without the fault.
pub proof fn lemma_fault_isolated<J>(p: PoolView<J>, w: int)
    requires
        p.inv(),
        0 <= w < p.workers.len(),
        p.workers[w].state == WorkerState::Running,
    ensures
        p.fault_tr(w).inv(),
        p.fault_tr(w).queue == p.queue,
        p.fault_tr(w).torn_down == p.torn_down,
        p.fault_tr(w).workers.len() == p.workers.len(),
        forall|i: int|
            0 <= i < p.workers.len() && i != w ==> #[trigger] p.fault_tr(w).workers[i]
                == p.workers[i],
        p.fault_tr(w).running() == p.running() - 1,
        forall|i: int|
            0 <= i < p.workers.len() && i != w ==> #[trigger] p.fault_tr(w).dispatch_tr(i).1
                == p.dispatch_tr(i).1,
{
    let fw = Worker { id: p.workers[w].id, state: WorkerState::Faulted };
    let q = p.fault_tr(w);
    lemma_count_in_update(p.workers, w, fw, WorkerState::Terminated);
    lemma_count_in_update(p.workers, w, fw, WorkerState::Running);
    assert forall|i: int| 0 <= i < q.workers.len() implies (#[trigger] q.workers[i]).id == i by {
        if i != w {
            assert(q.workers[i] == p.workers[i]);
        }
    }
    assert forall|i: int|
        0 <= i < p.workers.len() && i != w implies #[trigger] q.dispatch_tr(i).1
            == p.dispatch_tr(i).1 by {
        assert(q.workers[i] == p.workers[i]);
        assert(q.dispatch_enabled(i) == p.dispatch_enabled(i));
    }
}

/// One turn of a worker's receive-execute loop: the state it moves to and
/// the job, if any, it must now run.  `NewJob` keeps the worker running
/// and hands the job over; `Terminate` ends the loop and hands nothing over.
pub fn worker_step<J>(msg: Message<J>) -> (r: (WorkerState, Option<J>))
    ensures
        match msg {
            Message::NewJob(j) => r == (WorkerState::Running, Some(j)),
            Message::Terminate => r == (WorkerState::Terminated, None::<J>),
        },
{
    match msg {
        Message::NewJob(j) => (WorkerState::Running, Some(j)),
        Message::Terminate => (WorkerState::Terminated, None),
    }
}

/// The pool: a fixed set of workers sharing one FIFO queue, the send side
/// of which the pool retains for job submission.
pub struct ThreadPool<J> {
    workers: Vec<Worker>,
    queue: Vec<Message<J>>,
    torn_down: bool,
}

impl<J> View for ThreadPool<J> {
    type V = PoolView<J>;

    closed spec fn view(&self) -> PoolView<J> {
        PoolView { workers: self.workers@, queue: self.queue@, torn_down: self.torn_down }
    }
}

impl<J> ThreadPool<J> {
    /// A pool is well formed when its abstract state satisfies the
    /// invariant; every operation requires and preserves this.
    pub open spec fn wf(self) -> bool {
        self@.inv()
    }

    /// Builds a pool of `size` workers.  `size` must be positive; a zero
    /// size is a constraint violation, rejected before any worker exists
    /// (see `try_new` for the checked form).
    pub fn new(size: usize) -> (p: ThreadPool<J>)
        requires
            size > 0,
        ensures
            p.wf(),
            p@ == PoolView::<J>::new_tr(size as int),
    {
        let mut workers: Vec<Worker> = Vec::new();
        let mut id: usize = 0;
        while id < size
            invariant
                id <= size,
                workers@.len() == id,
                forall|i: int|
                    0 <= i < id ==> #[trigger] workers@[i] == (Worker {
                        id: i as usize,
                        state: WorkerState::Running,
                    }),
            decreases size - id,
        {
            workers.push(Worker::new(id));
            id = id + 1;
        }
        let p = ThreadPool { workers, queue: Vec::new(), torn_down: false };
        proof {
            assert(p@.workers =~= PoolView::<J>::new_tr(size as int).workers);
            assert(p@.queue =~= PoolView::<J>::new_tr(size as int).queue);
            lemma_count_in_none(p@.workers, WorkerState::Terminated);
            assert(p@.inv());
        }
        p
    }

    /// The checked constructor: a pool of `size` workers, or the
    /// constraint violation when `size` is zero, in which case no pool —
    /// and so no worker — comes to exist at all.
    pub fn try_new(size: usize) -> (r: Result<ThreadPool<J>, PoolError>)
        ensures
            match r {
                Ok(p) => size > 0 && p.wf() && p@ == PoolView::<J>::new_tr(size as int),
                Err(e) => size == 0 && e == PoolError::ConstraintViolation,
            },
    {
        if size == 0 {
            Err(PoolError::ConstraintViolation)
        } else {
            Ok(Self::new(size))
        }
    }

    /// Submits one job: it is wrapped in a `NewJob` message and enqueued
    /// at the back of the shared queue, to be claimed by exactly one
    /// worker later.  Fails, reporting rather than losing the job's spot,
    /// exactly when teardown has already begun.
    pub fn execute(&mut self, job: J) -> (r: Result<(), PoolError>)
        requires
            old(self).wf(),
        ensures
            final(self).wf(),
            match r {
                Ok(()) => !old(self)@.torn_down && final(self)@ == old(self)@.submit_tr(job),
                Err(e) => {
                    &&& old(self)@.torn_down
                    &&& e == PoolError::SubmissionAfterShutdown
                    &&& final(self)@ == old(self)@
                },
            },
    {
        if self.torn_down {
            return Err(PoolError::SubmissionAfterShutdown);
        }
        proof {
            lemma_count_terminates_push(self.queue@, Message::NewJob(job));
            lemma_count_terminates_zero(self.queue@);
        }
        self.queue.push(Message::NewJob(job));
        proof {
            let q2 = self.queue@;
            assert forall|i: int, k: int|
                0 <= i < k < q2.len() && #[trigger] q2[i] is Terminate implies #[trigger] q2[k]
                is Terminate by {
                assert(q2[i] == old(self)@.queue[i]);
            }
        }
        Ok(())
    }

    /// One atomic dequeue by worker `w`, the step the mutual exclusion on
    /// the shared receive handle serialises: the front message is handed
    /// to `w` alone.  A job keeps `w` running; a terminate signal ends its
    /// loop; a worker that is not running, or an empty queue, yields
    /// `Blocked` and changes nothing.
    pub fn dispatch(&mut self, w: usize) -> (r: Step<J>)
        requires
            old(self).wf(),
        ensures
            final(self).wf(),
            (final(self)@, r) == old(self)@.dispatch_tr(w as int),
    {
        if w >= self.workers.len() {
            return Step::Blocked;
        }
        if self.workers[w].state != WorkerState::Running {
            return Step::Blocked;
        }
        if self.queue.len() == 0 {
            return Step::Blocked;
        }
        let ghost q0 = self.queue@;
        let ghost ws0 = self.workers@;
        let msg = self.queue.remove(0);
        proof {
            assert(q0.remove(0) =~= q0.drop_first());
        }
        match msg {
            Message::NewJob(j) => {
                proof {
                    let q2 = self.queue@;
                    assert forall|i: int, k: int|
                        0 <= i < k < q2.len() && #[trigger] q2[i] is Terminate implies #[trigger] q2[k] is Terminate by {
                        assert(q2[i] == q0[i + 1]);
                        assert(q2[k] == q0[k + 1]);
                    }
                }
                Step::Run(j)
            },
            Message::Terminate => {
                proof {
                    lemma_count_terminates_zero(q0);
                    assert(self.torn_down);
                }
                self.workers[w].state = WorkerState::Terminated;
                proof {
                    let q2 = self.queue@;
                    let ws2 = self.workers@;
                    assert(ws2 == ws0.update(
                        w as int,
                        Worker { id: ws0[w as int].id, state: WorkerState::Terminated },
                    ));
                    lemma_count_in_update(
                        ws0,
                        w as int,
                        Worker { id: ws0[w as int].id, state: WorkerState::Terminated },
                        WorkerState::Terminated,
                    );
                    assert forall|i: int|
                        0 <= i < ws2.len() implies (#[trigger] ws2[i]).id == i by {
                        if i != w as int {
                            assert(ws2[i] == ws0[i]);
                        }
                    }
                    assert forall|i: int, k: int|
                        0 <= i < k < q2.len() && #[trigger] q2[i] is Terminate implies #[trigger] q2[k] is Terminate by {
                        assert(q2[i] == q0[i + 1]);
                        assert(q2[k] == q0[k + 1]);
                    }
                }
                Step::Exit
            },
        }
    }

    /// A job raised an unrecoverable fault while running on worker `w`:
    /// the fault is contained to that worker's thread, which ends and is
    /// never replaced, permanently reducing the pool's effective
    /// concurrency by one.  The queue and every other worker are
    /// untouched.
    pub fn worker_fault(&mut self, w: usize)
        requires
            old(self).wf(),
            w < old(self)@.workers.len(),
            old(self)@.workers[w as int].state == WorkerState::Running,
        ensures
            final(self).wf(),
            final(self)@ == old(self)@.fault_tr(w as int),
    {
        let ghost ws0 = self.workers@;
        self.workers[w].state = WorkerState::Faulted;
        proof {
            let ws2 = self.workers@;
            lemma_count_in_update(
                ws0,
                w as int,
                Worker { id: ws0[w as int].id, state: WorkerState::Faulted },
                WorkerState::Terminated,
            );
            assert forall|i: int| 0 <= i < ws2.len() implies (#[trigger] ws2[i]).id == i by {
                if i != w as int {
                    assert(ws2[i] == ws0[i]);
                }
            }
        }
    }

    /// The first phase of teardown: one `Terminate` message is enqueued
    /// per worker slot, behind everything already queued, and from then
    /// on no submission is accepted.  The queue being FIFO, every job
    /// submitted before this moment stands ahead of every terminate
    /// signal.
    pub fn begin_teardown(&mut self)
        requires
            old(self).wf(),
            !old(self)@.torn_down,
        ensures
            final(self).wf(),
            final(self)@ == old(self)@.teardown_tr(),
            final(self)@.pending_jobs() == old(self)@.pending_jobs(),
    {
        let ghost q0 = self.queue@;
        let n = self.workers.len();
        let mut i: usize = 0;
        proof {
            lemma_count_terminates_zero(q0);
        }
        while i < n
            invariant
                i <= n,
                old(self).wf(),
                !old(self)@.torn_down,
                q0 == old(self)@.queue,
                self.workers@ == old(self)@.workers,
                self.torn_down == false,
                n == old(self)@.workers.len(),
                self.queue@.len() == q0.len() + i,
                forall|k: int| 0 <= k < q0.len() ==> #[trigger] self.queue@[k] == q0[k],
                forall|k: int|
                    q0.len() <= k < self.queue@.len() ==> #[trigger] self.queue@[k]
                        is Terminate,
                count_terminates(self.queue@) == count_terminates(q0) + i,
                queued_jobs(self.queue@) == queued_jobs(q0),
            decreases n - i,
        {
            proof {
                lemma_count_terminates_push(self.queue@, Message::Terminate);
                lemma_queued_jobs_push(self.queue@, Message::Terminate);
            }
            self.queue.push(Message::Terminate);
            i = i + 1;
        }
        self.torn_down = true;
        proof {
            let tr = old(self)@.teardown_tr();
            assert(self.queue@ =~= tr.queue);
            assert(self@.workers == tr.workers);
            lemma_count_terminates_zero(q0);
            assert forall|i2: int, k: int|
                0 <= i2 < k < self.queue@.len() && #[trigger] self.queue@[i2]
                    is Terminate implies #[trigger] self.queue@[k] is Terminate by {
                if i2 < q0.len() {
                    assert(self.queue@[i2] == q0[i2]);
                    assert(!(q0[i2] is Terminate));
                }
            }
        }
    }

    /// The lowest worker slot still running, if any.
    fn first_running(&self) -> (r: Option<usize>)
        ensures
            match r {
                Some(w) => w < self@.workers.len() && self@.workers[w as int].state
                    == WorkerState::Running,
                None => self@.running() == 0,
            },
    {
        let n = self.workers.len();
        let mut i: usize = 0;
        while i < n
            invariant
                i <= n,
                n == self@.workers.len(),
                forall|k: int|
                    0 <= k < i ==> (#[trigger] self@.workers[k]).state != WorkerState::Running,
            decreases n - i,
        {
            if self.workers[i].state == WorkerState::Running {
                return Some(i);
            }
            i = i + 1;
        }
        proof {
            lemma_count_in_none(self@.workers, WorkerState::Running);
        }
        None
    }

    /// The second phase of teardown: the protocol is worked to
    /// completion.  Messages leave the queue in FIFO order, each claimed
    /// by exactly one running worker, until no worker is running; the
    /// jobs claimed along the way are returned in the order they were
    /// submitted.  Because every job stands ahead of every terminate
    /// signal, no worker can exit while a submitted job is still queued:
    /// if any worker is running when this begins, every pending job is
    /// claimed — none is duplicated, none is lost.  Terminate signals
    /// addressed to workers already lost to a fault stay in the queue,
    /// just as the real messages would; joining such a worker fails and
    /// is tolerated rather than aborting the teardown.
    pub fn drain(&mut self) -> (claimed: Vec<J>)
        requires
            old(self).wf(),
            old(self)@.torn_down,
        ensures
            final(self).wf(),
            final(self)@.torn_down,
            final(self)@.running() == 0,
            final(self)@.workers.len() == old(self)@.workers.len(),
            forall|i: int|
                0 <= i < old(self)@.workers.len() ==> #[trigger] final(self)@.workers[i] == (
                if old(self)@.workers[i].state == WorkerState::Running {
                    Worker { id: old(self)@.workers[i].id, state: WorkerState::Terminated }
                } else {
                    old(self)@.workers[i]
                }),
            old(self)@.running() > 0 ==> claimed@ == old(self)@.pending_jobs() && final(self)@.pending_jobs().len() == 0,
            old(self)@.running() == 0 ==> claimed@.len() == 0 && final(self)@ == old(self)@,
    {
        let mut claimed: Vec<J> = Vec::new();
        loop
            invariant
                self.wf(),
                self@.torn_down,
                self@.workers.len() == old(self)@.workers.len(),
                forall|i: int|
                    0 <= i < old(self)@.workers.len() ==> (#[trigger] self@.workers[i]
                        == old(self)@.workers[i] || (old(self)@.workers[i].state
                        == WorkerState::Running && self@.workers[i] == (Worker {
                        id: old(self)@.workers[i].id,
                        state: WorkerState::Terminated,
                    }))),
                claimed@ + self@.pending_jobs() == old(self)@.pending_jobs(),
                self@.running() != old(self)@.running() ==> self@.pending_jobs().len() == 0,
                old(self)@.running() == 0 ==> self@ == old(self)@ && claimed@.len() == 0,
            ensures
                self@.running() == 0,
            decreases self@.queue.len(),
        {
            let wopt = self.first_running();
            match wopt {
                None => {
                    break ;
                },
                Some(w) => {
                    proof {
                        lemma_count_in_none(self@.workers, WorkerState::Running);
                        lemma_count_in_nonneg(self@.workers, WorkerState::Running);
                        lemma_count_in_nonneg(self@.workers, WorkerState::Faulted);
                        lemma_count_in_total(self@.workers);
                        lemma_queued_jobs_len(self@.queue);
                        assert(self@.queue.len() > 0);
                        lemma_count_in_none(old(self)@.workers, WorkerState::Running);
                        assert(old(self)@.running() != 0) by {
                            if old(self)@.running() == 0 {
                                assert(self@ == old(self)@);
                            }
                        }
                        lemma_count_in_nonneg(old(self)@.workers, WorkerState::Running);
                    }
                    let ghost prev = self@;
                    let ghost claimed0 = claimed@;
                    let r = self.dispatch(w);
                    match r {
                        Step::Run(j) => {
                            claimed.push(j);
                            proof {
                                assert(prev.queue[0] == Message::NewJob(j));
                                assert(prev.pending_jobs() == seq![j] + self@.pending_jobs());
                                assert(claimed@ + self@.pending_jobs() =~= claimed0 + (seq![j]
                                    + self@.pending_jobs()));
                            }
                        },
                        Step::Exit => {
                            proof {
                                assert(prev.queue[0] is Terminate);
                                assert forall|i: int|
                                    0 <= i < prev.queue.len() implies #[trigger] prev.queue[i]
                                    is Terminate by {
                                    if i > 0 {
                                        assert(jobs_before_terminates(prev.queue));
                                    }
                                }
                                lemma_queued_jobs_all_terminates(prev.queue);
                                assert(self@.pending_jobs() == prev.pending_jobs());
                                lemma_count_in_update(
                                    prev.workers,
                                    w as int,
                                    Worker {
                                        id: prev.workers[w as int].id,
                                        state: WorkerState::Terminated,
                                    },
                                    WorkerState::Running,
                                );
                                assert(claimed@ + self@.pending_jobs() == old(self)@.pending_jobs());
                            }
                        },
                        Step::Blocked => {
                            proof {
                                assert(false);
                            }
                        },
                    }
                },
            }
        }
        proof {
            lemma_count_in_none(self@.workers, WorkerState::Running);
            if old(self)@.running() > 0 {
                assert(self@.pending_jobs().len() == 0);
                assert(claimed@ =~= claimed@ + self@.pending_jobs());
            }
            assert forall|i: int|
                0 <= i < old(self)@.workers.len() implies #[trigger] self@.workers[i] == (
            if old(self)@.workers[i].state == WorkerState::Running {
                Worker { id: old(self)@.workers[i].id, state: WorkerState::Terminated }
            } else {
                old(self)@.workers[i]
            }) by {
                assert(self@.workers[i].state != WorkerState::Running);
            }
        }
        claimed
    }

    /// The full teardown protocol, run once when the pool's owner is done
    /// with it: every worker is sent one `Terminate`, then the caller is
    /// held until every worker has stopped — so every job submitted
    /// before teardown began has been claimed by then, provided any
    /// worker was still running.  Returns the claimed jobs in submission
    /// order.
    pub fn teardown(&mut self) -> (claimed: Vec<J>)
        requires
            old(self).wf(),
            !old(self)@.torn_down,
        ensures
            final(self).wf(),
            final(self)@.torn_down,
            final(self)@.running() == 0,
            final(self)@.workers.len() == old(self)@.workers.len(),
            forall|i: int|
                0 <= i < old(self)@.workers.len() ==> #[trigger] final(self)@.workers[i] == (
                if old(self)@.workers[i].state == WorkerState::Running {
                    Worker { id: old(self)@.workers[i].id, state: WorkerState::Terminated }
                } else {
                    old(self)@.workers[i]
                }),
            old(self)@.running() > 0 ==> claimed@ == old(self)@.pending_jobs() && final(self)@.pending_jobs().len() == 0,
            old(self)@.running() == 0 ==> claimed@.len() == 0,
    {
        self.begin_teardown();
        self.drain()
    }

    /// The number of worker slots, fixed at construction: live worker
    /// threads never exceed it.
    pub fn worker_count(&self) -> (n: usize)
        ensures
            n == self@.workers.len(),
    {
        self.workers.len()
    }

    /// The state of the worker in slot `w`.
    pub fn worker_state(&self, w: usize) -> (st: WorkerState)
        requires
            w < self@.workers.len(),
        ensures
            st == self@.workers[w as int].state,
    {
        self.workers[w].state
    }

    /// How many messages sit in the shared queue.
    pub fn queue_len(&self) -> (n: usize)
        ensures
            n == self@.queue.len(),
    {
        self.queue.len()
    }

    /// Whether teardown has begun.
    pub fn is_torn_down(&self) -> (b: bool)
        ensures
            b == self@.torn_down,
    {
        self.torn_down
    }
}

} // verus!
