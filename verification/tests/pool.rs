use duplicant::pool::{
    worker_action, Shutdown, ShutdownAction, ThreadPool, WorkerAction, WorkerEvent, SHUTDOWN_POLLS,
    SHUTDOWN_SLEEP_MS,
};

fn run(pool: &mut ThreadPool, plan: &mut Shutdown, steps: usize) -> Vec<ShutdownAction> {
    let mut actions = Vec::new();
    for _ in 0..steps {
        actions.push(pool.shutdown(plan));
    }
    actions
}

#[test]
fn a_pool_has_a_worker_for_each_cpu_by_default() {
    assert!(ThreadPool::new().worker_count() >= 1);
    assert_eq!(ThreadPool::new().worker_count(), num_cpus::get());
    assert_eq!(ThreadPool::with_threads(None).worker_count(), num_cpus::get());
    assert_eq!(ThreadPool::with_threads(Some(3)).worker_count(), 3);
}

#[test]
fn the_number_of_cpus_counts_only_where_no_number_is_asked_for() {
    assert_eq!(ThreadPool::with_threads_on(None, 6).worker_count(), 6);
    assert_eq!(ThreadPool::with_threads_on(None, 1).worker_count(), 1);
    assert_eq!(ThreadPool::with_threads_on(Some(2), 6).worker_count(), 2);
    assert!(ThreadPool::with_threads_on(Some(2), 6).is_drained());
}

#[test]
fn an_open_job_keeps_the_pool_undrained() {
    let mut pool = ThreadPool::new_with_count(1);
    pool.send();
    assert_eq!(pool.queued(), 1);
    for _ in 0..3 {
        pool.send();
        assert!(!pool.is_drained());
        pool.finish();
        assert!(!pool.is_drained());
        assert_eq!(pool.queued(), 1);
    }
    pool.finish();
    assert_eq!(pool.queued(), 0);
}

#[test]
fn a_queue_holds_two_jobs_for_each_worker() {
    assert_eq!(ThreadPool::new_with_count(1).queue_capacity(), Some(2));
    assert_eq!(ThreadPool::new_with_count(8).queue_capacity(), Some(16));
    assert_eq!(ThreadPool::new_with_count(usize::MAX / 2).queue_capacity(), Some(usize::MAX - 1));
    assert_eq!(ThreadPool::new_with_count(usize::MAX / 2 + 1).queue_capacity(), None);
}

#[test]
fn a_pool_is_drained_when_every_job_is_finished() {
    let mut pool = ThreadPool::new_with_count(2);
    assert!(pool.is_drained());
    pool.send();
    pool.send();
    assert_eq!(pool.queued(), 2);
    assert!(!pool.is_drained());
    pool.finish();
    assert!(!pool.is_drained());
    pool.finish();
    assert!(pool.is_drained());
    assert_eq!(pool.queued(), 0);
}

#[test]
fn a_worker_runs_jobs_until_it_is_told_to_stop() {
    assert!(matches!(worker_action(&WorkerEvent::Job), WorkerAction::Run));
    assert!(matches!(worker_action(&WorkerEvent::Shutdown), WorkerAction::Stop));
    assert!(matches!(worker_action(&WorkerEvent::Disconnected), WorkerAction::Stop));
}

#[test]
fn the_end_of_a_drained_pool_does_not_sleep() {
    let mut pool = ThreadPool::new_with_count(2);
    let mut plan = pool.begin_shutdown();
    assert_eq!(
        run(&mut pool, &mut plan, 6),
        vec![
            ShutdownAction::Signal,
            ShutdownAction::Signal,
            ShutdownAction::Join,
            ShutdownAction::Join,
            ShutdownAction::Done,
            ShutdownAction::Done,
        ]
    );
    assert_eq!(pool.worker_count(), 0);
}

#[test]
fn workers_leave_the_pool_once_all_were_told_to_stop() {
    let mut pool = ThreadPool::new_with_count(2);
    let mut plan = pool.begin_shutdown();
    assert_eq!(pool.worker_count(), 2);
    assert_eq!(pool.shutdown(&mut plan), ShutdownAction::Signal);
    assert_eq!(pool.worker_count(), 2);
    assert_eq!(pool.shutdown(&mut plan), ShutdownAction::Signal);
    assert_eq!(pool.worker_count(), 2);
    assert_eq!(pool.shutdown(&mut plan), ShutdownAction::Join);
    assert_eq!(pool.worker_count(), 0);
}

#[test]
fn a_pool_whose_end_broke_off_still_has_its_workers() {
    let mut pool = ThreadPool::new_with_count(3);
    let mut plan = pool.begin_shutdown();
    assert_eq!(pool.shutdown(&mut plan), ShutdownAction::Signal);
    // The signal could not be sent, and the plan is given up.
    let mut again = pool.begin_shutdown();
    assert_eq!(
        run(&mut pool, &mut again, 7),
        vec![
            ShutdownAction::Signal,
            ShutdownAction::Signal,
            ShutdownAction::Signal,
            ShutdownAction::Join,
            ShutdownAction::Join,
            ShutdownAction::Join,
            ShutdownAction::Done,
        ]
    );
}

#[test]
fn the_end_of_a_pool_sleeps_until_it_is_drained() {
    let mut pool = ThreadPool::new_with_count(1);
    pool.send();
    let mut plan = pool.begin_shutdown();
    assert_eq!(
        run(&mut pool, &mut plan, 2),
        vec![ShutdownAction::Sleep, ShutdownAction::Sleep]
    );
    pool.finish();
    assert_eq!(pool.shutdown(&mut plan), ShutdownAction::Signal);
    // A job that comes now is not waited for any more.
    pool.send();
    assert_eq!(
        run(&mut pool, &mut plan, 2),
        vec![ShutdownAction::Join, ShutdownAction::Done]
    );
    assert_eq!(pool.queued(), 1);
}

#[test]
fn the_end_of_a_pool_gives_up_waiting() {
    assert_eq!(SHUTDOWN_POLLS, 10000);
    assert_eq!(SHUTDOWN_SLEEP_MS, 10);
    let mut pool = ThreadPool::new_with_count(1);
    pool.send();
    let mut plan = pool.begin_shutdown();
    let actions = run(&mut pool, &mut plan, 10003);
    assert!(actions[..10000].iter().all(|action| *action == ShutdownAction::Sleep));
    assert_eq!(
        actions[10000..].to_vec(),
        vec![ShutdownAction::Signal, ShutdownAction::Join, ShutdownAction::Done]
    );
}

#[test]
fn a_step_of_an_end_depends_on_the_plan_and_the_look_alone() {
    let mut plan = ThreadPool::new_with_count(1).begin_shutdown();
    assert_eq!(plan.step(false), ShutdownAction::Sleep);
    assert_eq!(plan.step(true), ShutdownAction::Signal);
    assert_eq!(plan.step(false), ShutdownAction::Join);
    assert_eq!(plan.step(false), ShutdownAction::Done);
}

#[test]
fn a_second_end_is_done_at_once() {
    let mut pool = ThreadPool::new_with_count(2);
    let mut plan = pool.begin_shutdown();
    assert_eq!(run(&mut pool, &mut plan, 5)[4], ShutdownAction::Done);
    let mut second = pool.begin_shutdown();
    assert_eq!(
        run(&mut pool, &mut second, 2),
        vec![ShutdownAction::Done, ShutdownAction::Done]
    );
    assert_eq!(pool.worker_count(), 0);
    assert_eq!(pool.queued(), 0);
}
