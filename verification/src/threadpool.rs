use vstd::prelude::*;

use std::collections::VecDeque;

use crate::hashint::HashError;
use crate::thread::{Task, ThreadAnswer, ThreadState};
use crate::MessageQueueError;

verus! {

/// What a query asks of the pool.
#[derive(Debug, Clone, Copy, PartialEq, Eq, Structural)]
pub enum Command {
    RunTask,
    StopTask,
    Stop,
}

/// A request to the pool.
pub struct Query<T> {
    cmd: Command,
    id: usize,
    val: Option<T>,
}

impl<T> Query<T> {
    pub closed spec fn command(&self) -> Command {
        self.cmd
    }

    pub closed spec fn task_id(&self) -> usize {
        self.id
    }

    pub closed spec fn value(&self) -> Option<T> {
        self.val
    }

    /// Run `val` as task `id`.
    pub fn run_task(id: usize, val: T) -> (r: Self)
        ensures
            r.command() == Command::RunTask,
            r.task_id() == id,
            r.value() == Some(val),
    {
        Query { cmd: Command::RunTask, id, val: Some(val) }
    }

    /// Cancel task `id`, running or waiting.
    pub fn stop_task(id: usize) -> (r: Self)
        ensures
            r.command() == Command::StopTask,
            r.task_id() == id,
            r.value() is None,
    {
        Query { cmd: Command::StopTask, id, val: None }
    }

    /// Stop the pool.
    pub fn stop() -> (r: Self)
        ensures
            r.command() == Command::Stop,
            r.task_id() == 0,
            r.value() is None,
    {
        Query { cmd: Command::Stop, id: 0, val: None }
    }
}

/// What an answer of the pool reports.
#[derive(Debug, Clone, Copy, PartialEq, Eq, Structural)]
pub enum AnswerState {
    TaskResult,
    Stopped,
    ThreadKilled,
}

/// An answer of the pool.
pub struct Answer<R> {
    pub state: AnswerState,
    pub id: usize,
    pub val: Option<Result<R, std::io::Error>>,
}

impl<R> Answer<R> {
    /// The result `val` of task `id`.
    pub fn res(id: usize, val: Option<Result<R, std::io::Error>>) -> (r: Self)
        ensures
            r.state == AnswerState::TaskResult,
            r.id == id,
            r.val == val,
    {
        Answer { state: AnswerState::TaskResult, id, val }
    }

    /// The pool has stopped.
    pub fn stopped() -> (r: Self)
        ensures
            r.state == AnswerState::Stopped,
            r.id == 0,
            r.val is None,
    {
        Answer { state: AnswerState::Stopped, id: 0, val: None }
    }

    /// The worker that ran task `id` was killed.
    pub fn thread_killed(id: usize) -> (r: Self)
        ensures
            r.state == AnswerState::ThreadKilled,
            r.id == id,
            r.val is None,
    {
        Answer { state: AnswerState::ThreadKilled, id, val: None }
    }
}

/// Errors of the pool.
#[derive(Debug, Clone, Copy, PartialEq, Eq, Structural)]
pub enum PoolError {
    MessageQueueError,
    HashError,
    UnwrapError,
}

impl From<MessageQueueError> for PoolError {
    fn from(e: MessageQueueError) -> (r: Self) {
        PoolError::MessageQueueError
    }
}

impl vstd::std_specs::convert::FromSpecImpl<MessageQueueError> for PoolError {
    open spec fn obeys_from_spec() -> bool {
        true
    }

    open spec fn from_spec(v: MessageQueueError) -> Self {
        PoolError::MessageQueueError
    }
}

impl From<HashError> for PoolError {
    fn from(e: HashError) -> (r: Self) {
        PoolError::HashError
    }
}

impl vstd::std_specs::convert::FromSpecImpl<HashError> for PoolError {
    open spec fn obeys_from_spec() -> bool {
        true
    }

    open spec fn from_spec(v: HashError) -> Self {
        PoolError::HashError
    }
}

/// Whether the pool accepts work.
#[derive(Debug, Clone, Copy, PartialEq, Eq, Structural)]
pub enum PoolState {
    Running,
    Stopping,
}

/// What the pool's event loop must do after a decision.
pub enum PoolAction<T> {
    /// Nothing to do.
    Nothing,
    /// Send `task` to worker `thread`.
    RunTask { thread: usize, task: Task<T> },
    /// Stop worker `thread`, start a fresh worker in its place and answer
    /// that the worker running task `id` was killed.
    RestartThread { thread: usize, id: usize },
    /// Ask worker `thread` to stop.
    StopThread { thread: usize },
}

/// The bookkeeping of the pool: the state of each worker, the task each
/// worker was given last, and the tasks waiting for a worker. New tasks
/// enter the queue at the front; workers take them from the back.
pub struct Pool<T> {
    state: PoolState,
    threads: Vec<ThreadState>,
    tasks: Vec<Option<usize>>,
    work_queue: VecDeque<Task<T>>,
}

/// Index of the first worker in `threads` that is ready, searching from `i`.
pub open spec fn first_ready(threads: Seq<ThreadState>, i: int) -> Option<int>
    decreases threads.len() - i,
{
    if i >= threads.len() || i < 0 {
        None
    } else if threads[i] == ThreadState::Ready {
        Some(i)
    } else {
        first_ready(threads, i + 1)
    }
}

/// Index of the first worker in `tasks` whose last task is `id`, searching from `i`.
pub open spec fn first_running(tasks: Seq<Option<usize>>, id: usize, i: int) -> Option<int>
    decreases tasks.len() - i,
{
    if i >= tasks.len() || i < 0 {
        None
    } else if tasks[i] == Some(id) {
        Some(i)
    } else {
        first_running(tasks, id, i + 1)
    }
}

/// Index of the first waiting task with id `id`, from the front, searching from `i`.
pub open spec fn first_queued<T>(queue: Seq<Task<T>>, id: usize, i: int) -> Option<int>
    decreases queue.len() - i,
{
    if i >= queue.len() || i < 0 {
        None
    } else if queue[i].id == id {
        Some(i)
    } else {
        first_queued(queue, id, i + 1)
    }
}

/// Number of stopped workers among the first `i`.
pub open spec fn stopped_count(threads: Seq<ThreadState>, i: int) -> int
    decreases i,
{
    if i <= 0 {
        0
    } else {
        stopped_count(threads, i - 1) + if threads[i - 1] == ThreadState::Stopped {
            1int
        } else {
            0int
        }
    }
}

pub proof fn lemma_first_ready(threads: Seq<ThreadState>, i: int)
    requires
        0 <= i <= threads.len(),
    ensures
        match first_ready(threads, i) {
            Some(j) => i <= j < threads.len() && threads[j] == ThreadState::Ready && forall|k: int|
                i <= k < j ==> threads[k] != ThreadState::Ready,
            None => forall|k: int| i <= k < threads.len() ==> threads[k] != ThreadState::Ready,
        },
    decreases threads.len() - i,
{
    if i < threads.len() && threads[i] != ThreadState::Ready {
        lemma_first_ready(threads, i + 1);
    }
}

pub proof fn lemma_first_running(tasks: Seq<Option<usize>>, id: usize, i: int)
    requires
        0 <= i <= tasks.len(),
    ensures
        match first_running(tasks, id, i) {
            Some(j) => i <= j < tasks.len() && tasks[j] == Some(id) && forall|k: int|
                i <= k < j ==> tasks[k] != Some(id),
            None => forall|k: int| i <= k < tasks.len() ==> tasks[k] != Some(id),
        },
    decreases tasks.len() - i,
{
    if i < tasks.len() && tasks[i] != Some(id) {
        lemma_first_running(tasks, id, i + 1);
    }
}

pub proof fn lemma_first_queued<T>(queue: Seq<Task<T>>, id: usize, i: int)
    requires
        0 <= i <= queue.len(),
    ensures
        match first_queued(queue, id, i) {
            Some(j) => i <= j < queue.len() && queue[j].id == id && forall|k: int|
                i <= k < j ==> queue[k].id != id,
            None => forall|k: int| i <= k < queue.len() ==> queue[k].id != id,
        },
    decreases queue.len() - i,
{
    if i < queue.len() && queue[i].id != id {
        lemma_first_queued(queue, id, i + 1);
    }
}

/// The worker states once worker `k` answered a task: a running worker is
/// ready again, any other keeps its state.
pub open spec fn result_threads(threads: Seq<ThreadState>, k: int) -> Seq<ThreadState> {
    if threads[k] == ThreadState::Running {
        threads.update(k, ThreadState::Ready)
    } else {
        threads
    }
}

/// The worker states once worker `k` answered `n` tasks in a row.
pub open spec fn batch_threads(threads: Seq<ThreadState>, k: int, n: nat) -> Seq<ThreadState>
    decreases n,
{
    if n == 0 {
        threads
    } else {
        result_threads(batch_threads(threads, k, (n - 1) as nat), k)
    }
}

/// The tasks of the workers once worker `k` answered `n` tasks in a row.
pub open spec fn batch_tasks(tasks: Seq<Option<usize>>, k: int, n: nat) -> Seq<Option<usize>>
    decreases n,
{
    if n == 0 {
        tasks
    } else {
        batch_tasks(tasks, k, (n - 1) as nat).update(k, None)
    }
}

/// When worker `k` answers a batch of one or more task results, it ends
/// with no task; it is ready exactly when it was running or ready before,
/// and no other worker changes. A ready worker then takes the oldest
/// waiting task (see `Pool::after_results`).
pub proof fn lemma_result_batch(threads: Seq<ThreadState>, tasks: Seq<Option<usize>>, k: int, n: nat)
    requires
        0 <= k < threads.len(),
        0 <= k < tasks.len(),
        n > 0,
    ensures
        batch_threads(threads, k, n) == result_threads(threads, k),
        batch_tasks(tasks, k, n) == tasks.update(k, None),
        batch_threads(threads, k, n)[k] == ThreadState::Ready <==> (threads[k] == ThreadState::Running
            || threads[k] == ThreadState::Ready),
        forall|j: int| 0 <= j < threads.len() && j != k ==> batch_threads(threads, k, n)[j] == threads[j],
    decreases n,
{
    assert(batch_threads(threads, k, 0) == threads);
    assert(batch_tasks(tasks, k, 0) == tasks);
    if n > 1 {
        lemma_result_batch(threads, tasks, k, (n - 1) as nat);
        assert(result_threads(result_threads(threads, k), k) =~= result_threads(threads, k));
        assert(tasks.update(k, None).update(k, None) =~= tasks.update(k, None));
    }
}

/// Tasks wait in arrival order: a task queued at the front leaves the task
/// at the back, the next one handed to a worker, where it was, and the rest
/// of the queue behind the new task.
pub proof fn lemma_queue_order<T>(q: Seq<Task<T>>, t: Task<T>)
    requires
        q.len() > 0,
    ensures
        (seq![t] + q).last() == q.last(),
        (seq![t] + q).drop_last() == seq![t] + q.drop_last(),
{
    assert((seq![t] + q).drop_last() =~= seq![t] + q.drop_last());
}

/// The first `i` workers are all stopped exactly when `i` of them are.
pub proof fn lemma_stopped_count(threads: Seq<ThreadState>, i: int)
    requires
        0 <= i <= threads.len(),
    ensures
        0 <= stopped_count(threads, i) <= i,
        stopped_count(threads, i) == i <==> forall|k: int|
            0 <= k < i ==> threads[k] == ThreadState::Stopped,
    decreases i,
{
    if i > 0 {
        lemma_stopped_count(threads, i - 1);
    }
}

impl<T> Pool<T> {
    pub closed spec fn pool_state(&self) -> PoolState {
        self.state
    }

    /// The state of each worker.
    pub closed spec fn thread_states(&self) -> Seq<ThreadState> {
        self.threads@
    }

    /// The id of the task each worker was given last, while it has not answered.
    pub closed spec fn running_tasks(&self) -> Seq<Option<usize>> {
        self.tasks@
    }

    /// The waiting tasks, newest first.
    pub closed spec fn queued(&self) -> Seq<Task<T>> {
        self.work_queue@
    }

    pub open spec fn wf(&self) -> bool {
        self.thread_states().len() == self.running_tasks().len()
    }

    /// A running pool of `num_workers` ready workers and no waiting task.
    pub fn new(num_workers: usize) -> (p: Self)
        ensures
            p.wf(),
            p.pool_state() == PoolState::Running,
            p.thread_states() == Seq::new(num_workers as nat, |i: int| ThreadState::Ready),
            p.running_tasks() == Seq::new(num_workers as nat, |i: int| None::<usize>),
            p.queued() == Seq::<Task<T>>::empty(),
    {
        let mut threads: Vec<ThreadState> = Vec::new();
        let mut tasks: Vec<Option<usize>> = Vec::new();
        let mut i: usize = 0;
        while i < num_workers
            invariant
                i <= num_workers,
                threads@ == Seq::new(i as nat, |j: int| ThreadState::Ready),
                tasks@ == Seq::new(i as nat, |j: int| None::<usize>),
            decreases num_workers - i,
        {
            threads.push(ThreadState::Ready);
            tasks.push(None);
            i = i + 1;
            assert(threads@ =~= Seq::new(i as nat, |j: int| ThreadState::Ready));
            assert(tasks@ =~= Seq::new(i as nat, |j: int| None::<usize>));
        }
        Pool { state: PoolState::Running, threads, tasks, work_queue: VecDeque::new() }
    }

    /// Number of workers.
    pub fn num_threads(&self) -> (n: usize)
        ensures
            n == self.thread_states().len(),
    {
        self.threads.len()
    }

    /// Decides what a query asks for. While the pool stops, queries are
    /// ignored. A task with a value goes to the first ready worker, or, when
    /// none is ready, to the front of the queue; a task without a value is
    /// dropped. Stopping a task restarts the first worker that runs it, or else
    /// removes the first waiting task with its id. Stopping the pool drops
    /// the waiting tasks.
    #[verifier::loop_isolation(false)]
    pub fn handle_cmd(&mut self, msg: Query<T>) -> (a: PoolAction<T>)
        requires
            old(self).wf(),
        ensures
            final(self).wf(),
            ({
                let threads = old(self).thread_states();
                let tasks = old(self).running_tasks();
                let queue = old(self).queued();
                if old(self).pool_state() != PoolState::Running {
                    a is Nothing && *final(self) == *old(self)
                } else {
                    match msg.command() {
                        Command::RunTask => match msg.value() {
                            None => a is Nothing && *final(self) == *old(self),
                            Some(v) => match first_ready(threads, 0) {
                                Some(i) => a == PoolAction::RunTask {
                                    thread: i as usize,
                                    task: Task { id: msg.task_id(), task: v },
                                } && final(self).pool_state() == old(self).pool_state()
                                    && final(self).thread_states() == threads.update(
                                    i,
                                    ThreadState::Running,
                                ) && final(self).running_tasks() == tasks.update(
                                    i,
                                    Some(msg.task_id()),
                                ) && final(self).queued() == queue,
                                None => a is Nothing && final(self).pool_state() == old(
                                    self,
                                ).pool_state() && final(self).thread_states() == threads
                                    && final(self).running_tasks() == tasks && final(self).queued()
                                    == seq![Task { id: msg.task_id(), task: v }] + queue,
                            },
                        },
                        Command::StopTask => match first_running(tasks, msg.task_id(), 0) {
                            Some(i) => a == PoolAction::<T>::RestartThread {
                                thread: i as usize,
                                id: msg.task_id(),
                            } && final(self).pool_state() == old(self).pool_state()
                                && final(self).thread_states() == threads.update(
                                i,
                                ThreadState::Ready,
                            ) && final(self).running_tasks() == tasks.update(i, None)
                                && final(self).queued() == queue,
                            None => a is Nothing && final(self).pool_state() == old(self).pool_state()
                                && final(self).thread_states() == threads && final(self).running_tasks()
                                == tasks && final(self).queued() == match first_queued(
                                queue,
                                msg.task_id(),
                                0,
                            ) {
                                Some(j) => queue.remove(j),
                                None => queue,
                            },
                        },
                        Command::Stop => a is Nothing && final(self).pool_state()
                            == PoolState::Stopping && final(self).thread_states() == threads
                            && final(self).running_tasks() == tasks && final(self).queued()
                            == Seq::<Task<T>>::empty(),
                    }
                }
            }),
    {
        if self.state != PoolState::Running {
            return PoolAction::Nothing;
        }
        let Query { cmd, id, val } = msg;
        match cmd {
            Command::RunTask => {
                // tasks without a value are dropped
                let val = match val {
                    Some(v) => v,
                    None => return PoolAction::Nothing,
                };
                let n = self.threads.len();
                let mut i: usize = 0;
                while i < n
                    invariant
                        n == self.threads@.len(),
                        n == self.tasks@.len(),
                        *self == *old(self),
                        i <= n,
                        forall|k: int| 0 <= k < i ==> self.threads@[k] != ThreadState::Ready,
                    decreases n - i,
                {
                    if self.threads[i].is_ready() {
                        proof {
                            lemma_first_ready(self.threads@, 0);
                        }
                        self.tasks.set(i, Some(id));
                        self.threads.set(i, ThreadState::Running);
                        return PoolAction::RunTask { thread: i, task: Task::new(id, val) };
                    }
                    i = i + 1;
                }
                proof {
                    lemma_first_ready(self.threads@, 0);
                }
                self.work_queue.push_front(Task::new(id, val));
                PoolAction::Nothing
            },
            Command::StopTask => {
                // is the task running?
                let n = self.tasks.len();
                let mut i: usize = 0;
                while i < n
                    invariant
                        n == self.tasks@.len(),
                        n == self.threads@.len(),
                        *self == *old(self),
                        i <= n,
                        forall|k: int| 0 <= k < i ==> self.tasks@[k] != Some(id),
                    decreases n - i,
                {
                    if self.tasks[i] == Some(id) {
                        proof {
                            lemma_first_running(self.tasks@, id, 0);
                        }
                        self.tasks.set(i, None);
                        self.threads.set(i, ThreadState::Ready);
                        return PoolAction::RestartThread { thread: i, id };
                    }
                    i = i + 1;
                }
                proof {
                    lemma_first_running(self.tasks@, id, 0);
                }
                // is the task waiting?
                let m = self.work_queue.len();
                let mut j: usize = 0;
                while j < m
                    invariant
                        m == self.work_queue@.len(),
                        self.threads@.len() == self.tasks@.len(),
                        *self == *old(self),
                        j <= m,
                        forall|k: int| 0 <= k < j ==> self.work_queue@[k].id != id,
                    decreases m - j,
                {
                    if self.work_queue[j].id == id {
                        proof {
                            lemma_first_queued(self.work_queue@, id, 0);
                        }
                        let _ = self.work_queue.remove(j);
                        return PoolAction::Nothing;
                    }
                    j = j + 1;
                }
                proof {
                    lemma_first_queued(self.work_queue@, id, 0);
                }
                PoolAction::Nothing
            },
            Command::Stop => {
                self.work_queue.clear();
                self.state = PoolState::Stopping;
                PoolAction::Nothing
            },
        }
    }

    /// Worker `thread` answered a task: it no longer runs one and, if it was
    /// running, it is ready again.
    pub fn task_done(&mut self, thread: usize)
        requires
            old(self).wf(),
            thread < old(self).thread_states().len(),
        ensures
            final(self).wf(),
            final(self).pool_state() == old(self).pool_state(),
            final(self).queued() == old(self).queued(),
            final(self).running_tasks() == old(self).running_tasks().update(thread as int, None),
            final(self).thread_states() == result_threads(old(self).thread_states(), thread as int),
    {
        self.tasks.set(thread, None);
        if self.threads[thread].is_running() {
            self.threads.set(thread, ThreadState::Ready);
        }
    }

    /// Worker `thread` answered that it stopped.
    pub fn thread_stopped(&mut self, thread: usize)
        requires
            old(self).wf(),
            thread < old(self).thread_states().len(),
        ensures
            final(self).wf(),
            final(self).pool_state() == old(self).pool_state(),
            final(self).queued() == old(self).queued(),
            final(self).running_tasks() == old(self).running_tasks(),
            final(self).thread_states() == old(self).thread_states().update(
                thread as int,
                ThreadState::Stopped,
            ),
    {
        self.threads.set(thread, ThreadState::Stopped);
    }

    /// Takes in an answer of worker `thread`. A task result is recorded and
    /// returned as the answer to forward to the caller; the reading of the
    /// worker's answers goes on. `Stopped` is recorded and `None` returned:
    /// the worker answers no more.
    pub fn handle_answer<R>(&mut self, thread: usize, answer: ThreadAnswer<R>) -> (r: Option<Answer<R>>)
        requires
            old(self).wf(),
            thread < old(self).thread_states().len(),
        ensures
            final(self).wf(),
            final(self).pool_state() == old(self).pool_state(),
            final(self).queued() == old(self).queued(),
            match answer {
                ThreadAnswer::Stopped => r is None && final(self).running_tasks() == old(
                    self,
                ).running_tasks() && final(self).thread_states() == old(self).thread_states().update(
                    thread as int,
                    ThreadState::Stopped,
                ),
                ThreadAnswer::TaskResult { id, val } => r == Some(
                    Answer { state: AnswerState::TaskResult, id, val: Some(val) },
                ) && final(self).running_tasks() == old(self).running_tasks().update(
                    thread as int,
                    None,
                ) && final(self).thread_states() == result_threads(
                    old(self).thread_states(),
                    thread as int,
                ),
            },
    {
        match answer {
            ThreadAnswer::Stopped => {
                self.thread_stopped(thread);
                None
            },
            ThreadAnswer::TaskResult { id, val } => {
                self.task_done(thread);
                Some(Answer::res(id, Some(val)))
            },
        }
    }

    /// Gives the oldest waiting task, if any, to worker `thread`.
    pub fn steal_work(&mut self, thread: usize) -> (a: PoolAction<T>)
        requires
            old(self).wf(),
            thread < old(self).thread_states().len(),
        ensures
            final(self).wf(),
            final(self).pool_state() == old(self).pool_state(),
            old(self).queued().len() == 0 ==> a is Nothing && *final(self) == *old(self),
            old(self).queued().len() > 0 ==> {
                let q = old(self).queued();
                &&& a == (PoolAction::RunTask { thread, task: q.last() })
                &&& final(self).queued() == q.drop_last()
                &&& final(self).thread_states() == old(self).thread_states().update(
                    thread as int,
                    ThreadState::Running,
                )
                &&& final(self).running_tasks() == old(self).running_tasks().update(
                    thread as int,
                    Some(q.last().id),
                )
            },
    {
        if self.work_queue.len() > 0 {
            match self.work_queue.pop_back() {
                Some(task) => {
                    self.threads.set(thread, ThreadState::Running);
                    self.tasks.set(thread, Some(task.id));
                    return PoolAction::RunTask { thread, task };
                },
                None => {},
            }
        }
        PoolAction::Nothing
    }

    /// What follows once the answers of worker `thread` were read: while the
    /// pool stops, the worker is asked to stop; otherwise a ready worker takes
    /// the oldest waiting task.
    pub fn after_results(&mut self, thread: usize) -> (a: PoolAction<T>)
        requires
            old(self).wf(),
            thread < old(self).thread_states().len(),
        ensures
            final(self).wf(),
            final(self).pool_state() == old(self).pool_state(),
            old(self).pool_state() == PoolState::Stopping ==> a == (PoolAction::<T>::StopThread { thread })
                && final(self).thread_states() == old(self).thread_states().update(
                thread as int,
                ThreadState::Stopping,
            ) && final(self).running_tasks() == old(self).running_tasks() && final(self).queued()
                == old(self).queued(),
            old(self).pool_state() == PoolState::Running && old(self).thread_states()[thread as int]
                != ThreadState::Ready ==> a is Nothing && *final(self) == *old(self),
            old(self).pool_state() == PoolState::Running && old(self).thread_states()[thread as int]
                == ThreadState::Ready ==> {
                let q = old(self).queued();
                &&& q.len() == 0 ==> a is Nothing && *final(self) == *old(self)
                &&& q.len() > 0 ==> a == (PoolAction::RunTask { thread, task: q.last() })
                    && final(self).queued() == q.drop_last() && final(self).thread_states()
                    == old(self).thread_states().update(thread as int, ThreadState::Running)
                    && final(self).running_tasks() == old(self).running_tasks().update(
                    thread as int,
                    Some(q.last().id),
                )
            },
    {
        if self.state == PoolState::Stopping {
            self.threads.set(thread, ThreadState::Stopping);
            return PoolAction::StopThread { thread };
        }
        if self.threads[thread].is_ready() {
            return self.steal_work(thread);
        }
        PoolAction::Nothing
    }

    /// Every worker has stopped.
    pub fn all_stopped(&self) -> (b: bool)
        requires
            self.wf(),
        ensures
            b == forall|i: int|
                0 <= i < self.thread_states().len() ==> self.thread_states()[i] == ThreadState::Stopped,
    {
        let n = self.threads.len();
        let mut stopped: usize = 0;
        let mut i: usize = 0;
        while i < n
            invariant
                n == self.threads@.len(),
                i <= n,
                stopped as int == stopped_count(self.threads@, i as int),
                0 <= stopped <= i,
            decreases n - i,
        {
            if self.threads[i].is_stopped() {
                stopped = stopped + 1;
            }
            i = i + 1;
        }
        proof {
            lemma_stopped_count(self.threads@, n as int);
        }
        stopped == n
    }
}

} // verus!
