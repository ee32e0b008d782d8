use vstd::prelude::*;

verus! {

/// `std::io::Error`, the error a task handler reports, declared as an opaque
/// type: it is only carried from a worker to the caller, and nothing is
/// assumed of its values.
#[verifier::external_type_specification]
#[verifier::external_body]
pub struct ExIoError(std::io::Error);

/// A unit of work for a worker thread, tagged with the caller's id.
pub struct Task<T> {
    pub id: usize,
    pub task: T,
}

impl<T> Task<T> {
    pub fn new(id: usize, task: T) -> (r: Self)
        ensures
            r.id == id,
            r.task == task,
    {
        Task { id, task }
    }
}

/// The life cycle of a worker thread as the pool sees it.
#[derive(Debug, Clone, Copy, PartialEq, Eq, Structural)]
pub enum ThreadState {
    Ready,
    Running,
    Stopping,
    Stopped,
}

impl ThreadState {
    /// The worker waits for a task.
    pub fn is_ready(&self) -> (b: bool)
        ensures
            b == (*self == ThreadState::Ready),
    {
        *self == ThreadState::Ready
    }

    /// The worker has been asked to stop and said it did.
    pub fn is_stopped(&self) -> (b: bool)
        ensures
            b == (*self == ThreadState::Stopped),
    {
        *self == ThreadState::Stopped
    }

    /// The worker runs a task.
    pub fn is_running(&self) -> (b: bool)
        ensures
            b == (*self == ThreadState::Running),
    {
        *self == ThreadState::Running
    }
}

/// A message from the pool to a worker.
pub enum ThreadQuery<T> {
    RunTask(Task<T>),
    Stop,
}

/// A message from a worker to the pool.
pub enum ThreadAnswer<R> {
    TaskResult { id: usize, val: Result<R, std::io::Error> },
    Stopped,
}

/// What a worker does with a query.
pub enum WorkerStep<T> {
    /// Run the handler on `task` and answer its result as task `id`.
    Run { id: usize, task: T },
    /// Answer `Stopped` and end.
    Exit,
}

/// What a worker does with the query `q`.
pub open spec fn step_of<T>(q: ThreadQuery<T>) -> WorkerStep<T> {
    match q {
        ThreadQuery::Stop => WorkerStep::Exit,
        ThreadQuery::RunTask(t) => WorkerStep::Run { id: t.id, task: t.task },
    }
}

/// The worker's decision on a query: a task is run and answered, a stop
/// request is answered and ends the worker.
pub fn worker_step<T>(msg: ThreadQuery<T>) -> (s: WorkerStep<T>)
    ensures
        s == step_of(msg),
{
    match msg {
        ThreadQuery::Stop => WorkerStep::Exit,
        ThreadQuery::RunTask(Task { id, task }) => WorkerStep::Run { id, task },
    }
}

/// What a worker does with the queries `qs`, taken in order: the tasks it
/// runs, in order, each answered as a result under its id, and whether it
/// answered a stop and ended, reading nothing after it.
pub open spec fn worker_run<T>(qs: Seq<ThreadQuery<T>>) -> (Seq<WorkerStep<T>>, bool)
    decreases qs.len(),
{
    if qs.len() == 0 {
        (Seq::empty(), false)
    } else {
        match step_of(qs[0]) {
            WorkerStep::Exit => (Seq::empty(), true),
            WorkerStep::Run { id, task } => {
                let (rest, stopped) = worker_run(qs.drop_first());
                (seq![WorkerStep::Run { id, task }] + rest, stopped)
            },
        }
    }
}

/// The queries asking to run the tasks `ts`, in order.
pub open spec fn run_queries<T>(ts: Seq<Task<T>>) -> Seq<ThreadQuery<T>> {
    Seq::new(ts.len(), |i: int| ThreadQuery::RunTask(ts[i]))
}

/// A worker given tasks `ts`, then a stop, then anything, runs exactly the
/// tasks `ts`, in order, then answers the stop and ends.
pub proof fn lemma_worker_run<T>(ts: Seq<Task<T>>, rest: Seq<ThreadQuery<T>>)
    ensures
        worker_run(run_queries(ts) + seq![ThreadQuery::Stop] + rest) == (
            Seq::new(ts.len(), |i: int| WorkerStep::Run { id: ts[i].id, task: ts[i].task }),
            true,
        ),
    decreases ts.len(),
{
    let qs = run_queries(ts) + seq![ThreadQuery::Stop] + rest;
    if ts.len() == 0 {
        assert(qs[0] == ThreadQuery::<T>::Stop);
        assert(Seq::new(0, |i: int| WorkerStep::Run { id: ts[i].id, task: ts[i].task }) =~= Seq::<
            WorkerStep<T>,
        >::empty());
    } else {
        let tail = ts.drop_first();
        lemma_worker_run(tail, rest);
        assert(qs.drop_first() =~= run_queries(tail) + seq![ThreadQuery::Stop] + rest);
        assert(qs[0] == ThreadQuery::RunTask(ts[0]));
        let expected = Seq::new(ts.len(), |i: int| WorkerStep::Run { id: ts[i].id, task: ts[i].task });
        let tail_expected = Seq::new(tail.len(), |i: int| WorkerStep::Run { id: tail[i].id, task: tail[i].task });
        assert(seq![WorkerStep::Run { id: ts[0].id, task: ts[0].task }] + tail_expected =~= expected);
    }
}

} // verus!
