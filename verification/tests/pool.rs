use mqpool::thread::{worker_step, Task, ThreadAnswer, ThreadQuery, ThreadState, WorkerStep};
use mqpool::threadpool::{Answer, AnswerState, Command, Pool, PoolAction, PoolError, Query};
use mqpool::MessageQueueError;
use mqpool::hashint::HashError;

fn run_target<T>(a: PoolAction<T>) -> Option<(usize, Task<T>)> {
    match a {
        PoolAction::RunTask { thread, task } => Some((thread, task)),
        _ => None,
    }
}

#[test]
fn tasks_go_to_first_ready_worker_then_queue() {
    let mut p = Pool::<u32>::new(2);
    let (t, task) = run_target(p.handle_cmd(Query::run_task(10, 100))).unwrap();
    assert_eq!((t, task.id, task.task), (0, 10, 100));
    let (t, task) = run_target(p.handle_cmd(Query::run_task(11, 110))).unwrap();
    assert_eq!((t, task.id, task.task), (1, 11, 110));
    // no worker is ready: the next two tasks wait
    assert!(matches!(p.handle_cmd(Query::run_task(12, 120)), PoolAction::Nothing));
    assert!(matches!(p.handle_cmd(Query::run_task(13, 130)), PoolAction::Nothing));
    // worker 1 answers and takes the oldest waiting task
    p.task_done(1);
    let (t, task) = run_target(p.after_results(1)).unwrap();
    assert_eq!((t, task.id, task.task), (1, 12, 120));
    p.task_done(0);
    let (t, task) = run_target(p.after_results(0)).unwrap();
    assert_eq!((t, task.id), (0, 13));
    p.task_done(0);
    assert!(matches!(p.after_results(0), PoolAction::Nothing));
}

#[test]
fn stopping_a_running_task_restarts_its_worker() {
    let mut p = Pool::<u32>::new(2);
    let _ = p.handle_cmd(Query::run_task(5, 50));
    match p.handle_cmd(Query::stop_task(5)) {
        PoolAction::RestartThread { thread, id } => assert_eq!((thread, id), (0, 5)),
        _ => panic!("expected a restart"),
    }
    // the fresh worker is ready again
    let (t, _) = run_target(p.handle_cmd(Query::run_task(6, 60))).unwrap();
    assert_eq!(t, 0);
}

#[test]
fn stopping_a_waiting_task_removes_it() {
    let mut p = Pool::<u32>::new(1);
    let _ = p.handle_cmd(Query::run_task(1, 1));
    let _ = p.handle_cmd(Query::run_task(2, 2));
    let _ = p.handle_cmd(Query::run_task(3, 3));
    assert!(matches!(p.handle_cmd(Query::stop_task(2)), PoolAction::Nothing));
    p.task_done(0);
    let (_, task) = run_target(p.after_results(0)).unwrap();
    assert_eq!(task.id, 3);
    p.task_done(0);
    assert!(matches!(p.after_results(0), PoolAction::Nothing));
}

#[test]
fn task_without_value_is_dropped() {
    let mut p = Pool::<u32>::new(1);
    assert!(matches!(p.handle_cmd(Query::stop_task(9)), PoolAction::Nothing));
    let (t, _) = run_target(p.handle_cmd(Query::run_task(1, 1))).unwrap();
    assert_eq!(t, 0);
}

#[test]
fn stop_ignores_later_queries_and_stops_workers() {
    let mut p = Pool::<u32>::new(2);
    let _ = p.handle_cmd(Query::run_task(1, 1));
    assert!(matches!(p.handle_cmd(Query::stop()), PoolAction::Nothing));
    assert!(matches!(p.handle_cmd(Query::run_task(2, 2)), PoolAction::Nothing));
    assert!(!p.all_stopped());
    p.task_done(0);
    match p.after_results(0) {
        PoolAction::StopThread { thread } => assert_eq!(thread, 0),
        _ => panic!("expected a stop"),
    }
    p.thread_stopped(0);
    assert!(!p.all_stopped());
    p.thread_stopped(1);
    assert!(p.all_stopped());
}

#[test]
fn empty_pool_is_stopped() {
    let p = Pool::<u32>::new(0);
    assert!(p.all_stopped());
}

#[test]
fn thread_states() {
    assert!(ThreadState::Ready.is_ready());
    assert!(!ThreadState::Running.is_ready());
    assert!(ThreadState::Running.is_running());
    assert!(ThreadState::Stopped.is_stopped());
    assert!(!ThreadState::Stopping.is_stopped());
}

#[test]
fn queries_and_answers() {
    let a = Answer::<u8>::res(4, None);
    assert_eq!((a.state, a.id), (AnswerState::TaskResult, 4));
    assert!(a.val.is_none());
    let a = Answer::<u8>::stopped();
    assert_eq!((a.state, a.id), (AnswerState::Stopped, 0));
    let a = Answer::<u8>::thread_killed(7);
    assert_eq!((a.state, a.id), (AnswerState::ThreadKilled, 7));
    assert_ne!(Command::Stop, Command::RunTask);
    let t = Task::new(1, 'a');
    assert_eq!((t.id, t.task), (1, 'a'));
}

#[test]
fn pool_errors_convert() {
    assert_eq!(PoolError::from(MessageQueueError::MessageQueueFull), PoolError::MessageQueueError);
    assert_eq!(PoolError::from(HashError::Full), PoolError::HashError);
}

#[test]
fn answers_are_forwarded_until_stopped() {
    let mut p = Pool::<u32>::new(1);
    let _ = p.handle_cmd(Query::run_task(4, 40));
    let a = p.handle_answer(0, ThreadAnswer::<u8>::TaskResult { id: 4, val: Ok(41) }).unwrap();
    assert_eq!((a.state, a.id), (AnswerState::TaskResult, 4));
    assert_eq!(a.val.unwrap().unwrap(), 41);
    // the worker is ready again
    let (t, _) = run_target(p.handle_cmd(Query::run_task(5, 50))).unwrap();
    assert_eq!(t, 0);
    assert!(p.handle_answer(0, ThreadAnswer::<u8>::Stopped).is_none());
    assert!(p.all_stopped());
}

#[test]
fn worker_runs_tasks_and_exits_on_stop() {
    match worker_step(ThreadQuery::RunTask(Task::new(8, "job"))) {
        WorkerStep::Run { id, task } => assert_eq!((id, task), (8, "job")),
        WorkerStep::Exit => panic!("expected a run"),
    }
    assert!(matches!(worker_step(ThreadQuery::<u8>::Stop), WorkerStep::Exit));
}
