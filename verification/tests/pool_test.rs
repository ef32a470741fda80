use kvs::thread_pool::shared_queue::Action;
use kvs::thread_pool::shared_queue::MasterMessage;
use kvs::thread_pool::shared_queue::PoolState;
use kvs::thread_pool::shared_queue::ThreadMaster;
use std::collections::VecDeque;

/// Drives a master the way its pool does: every task that is handed to a
/// worker runs at once and adds one to the counter, and the worker reports
/// back when its turn comes.
struct Harness {
    master: ThreadMaster,
    done: VecDeque<u64>,
    counter: u64,
    rejected: Vec<u64>,
    stopped: Vec<u64>,
    spawned: Vec<u64>,
    fired: Vec<u64>,
    dropped: Vec<u64>,
}

impl Harness {
    fn new(size: usize) -> Harness {
        Harness {
            master: ThreadMaster::new(size),
            done: VecDeque::new(),
            counter: 0,
            rejected: Vec::new(),
            stopped: Vec::new(),
            spawned: Vec::new(),
            fired: Vec::new(),
            dropped: Vec::new(),
        }
    }

    fn send(&mut self, message: MasterMessage) -> Vec<Action> {
        let actions = self.master.handle_message(message);
        for action in actions.iter() {
            match *action {
                Action::RunTask { worker, .. } => {
                    self.counter += 1;
                    self.done.push_back(worker);
                }
                Action::TerminateWorker { worker } => self.stopped.push(worker),
                Action::SpawnWorker { worker } => self.spawned.push(worker),
                Action::RejectTask { task } => self.rejected.push(task),
                Action::FireHook { hook } => self.fired.push(hook),
                Action::DropHook { hook } => self.dropped.push(hook),
            }
        }
        actions
    }

    fn settle(&mut self) {
        while let Some(worker) = self.done.pop_front() {
            self.send(MasterMessage::TaskDone { worker });
        }
    }
}

#[test]
fn pool_state_counts_ended_workers() {
    let mut state = PoolState::Terminating { ended_workers: 0 };
    state.incr_ended_workers();
    state.incr_ended_workers();
    assert_eq!(state.get_ended_workers(), 2);
    assert_eq!(state, PoolState::Terminating { ended_workers: 2 });
    assert!(state.is_terminating());
    assert!(PoolState::GracefulShutdown.is_terminating());
    assert!(!PoolState::Running.is_terminating());
}

#[test]
fn a_fresh_master_runs_with_idle_workers() {
    let mut master = ThreadMaster::new(2);
    assert_eq!(master.pool_size(), 2);
    assert_eq!(master.state(), PoolState::Running);
    assert!(!master.is_finished());
    assert_eq!(
        master.handle_message(MasterMessage::NewTask { task: 10 }),
        vec![Action::RunTask { worker: 0, task: 10 }]
    );
    assert_eq!(
        master.handle_message(MasterMessage::NewTask { task: 11 }),
        vec![Action::RunTask { worker: 1, task: 11 }]
    );
    assert_eq!(master.handle_message(MasterMessage::NewTask { task: 12 }), vec![]);
    assert_eq!(master.handle_message(MasterMessage::NewTask { task: 13 }), vec![]);
    assert_eq!(
        master.handle_message(MasterMessage::TaskDone { worker: 1 }),
        vec![Action::RunTask { worker: 1, task: 12 }]
    );
    assert_eq!(
        master.handle_message(MasterMessage::TaskDone { worker: 0 }),
        vec![Action::RunTask { worker: 0, task: 13 }]
    );
    assert_eq!(master.handle_message(MasterMessage::TaskDone { worker: 0 }), vec![]);
    assert_eq!(
        master.handle_message(MasterMessage::NewTask { task: 14 }),
        vec![Action::RunTask { worker: 0, task: 14 }]
    );
}

#[test]
fn graceful_shutdown_runs_every_task_and_fires_once() {
    let mut harness = Harness::new(4);
    for task in 0..10_000u64 {
        harness.send(MasterMessage::NewTask { task });
        if task % 3 == 0 {
            if let Some(worker) = harness.done.pop_front() {
                harness.send(MasterMessage::TaskDone { worker });
            }
        }
    }
    harness.send(MasterMessage::GracefulShutdown { hook: 77 });
    harness.settle();
    assert_eq!(harness.counter, 10_000);
    assert!(harness.rejected.is_empty());
    assert_eq!(harness.fired, vec![77]);
    assert!(harness.dropped.is_empty());
    assert_eq!(harness.stopped.len(), 4);
    assert!(harness.master.is_finished());
    assert_eq!(harness.master.state(), PoolState::Terminating { ended_workers: 4 });

    harness.send(MasterMessage::NewTask { task: 10_000 });
    harness.send(MasterMessage::TaskDone { worker: 0 });
    harness.send(MasterMessage::Terminate { hook: 78 });
    harness.send(MasterMessage::GracefulShutdown { hook: 79 });
    harness.send(MasterMessage::Panicked);
    assert_eq!(harness.counter, 10_000);
    assert_eq!(harness.fired, vec![77]);
    assert_eq!(harness.rejected, vec![10_000]);
    assert_eq!(harness.dropped, vec![78, 79]);
}

#[test]
fn graceful_shutdown_of_an_idle_pool_ends_at_once() {
    let mut master = ThreadMaster::new(2);
    assert_eq!(
        master.handle_message(MasterMessage::GracefulShutdown { hook: 5 }),
        vec![
            Action::TerminateWorker { worker: 0 },
            Action::TerminateWorker { worker: 1 },
            Action::FireHook { hook: 5 },
        ]
    );
    assert!(master.is_finished());
}

#[test]
fn graceful_shutdown_waits_for_the_queue() {
    let mut master = ThreadMaster::new(1);
    master.handle_message(MasterMessage::NewTask { task: 1 });
    master.handle_message(MasterMessage::NewTask { task: 2 });
    assert_eq!(master.handle_message(MasterMessage::GracefulShutdown { hook: 5 }), vec![]);
    assert_eq!(master.state(), PoolState::GracefulShutdown);
    assert_eq!(
        master.handle_message(MasterMessage::NewTask { task: 3 }),
        vec![Action::RejectTask { task: 3 }]
    );
    assert_eq!(
        master.handle_message(MasterMessage::TaskDone { worker: 0 }),
        vec![Action::RunTask { worker: 0, task: 2 }]
    );
    assert_eq!(master.state(), PoolState::Terminating { ended_workers: 0 });
    assert_eq!(
        master.handle_message(MasterMessage::TaskDone { worker: 0 }),
        vec![Action::TerminateWorker { worker: 0 }, Action::FireHook { hook: 5 }]
    );
    assert!(master.is_finished());
}

#[test]
fn immediate_shutdown_drops_the_queue() {
    let mut master = ThreadMaster::new(2);
    master.handle_message(MasterMessage::NewTask { task: 1 });
    assert_eq!(
        master.handle_message(MasterMessage::Terminate { hook: 9 }),
        vec![Action::TerminateWorker { worker: 1 }]
    );
    assert_eq!(master.state(), PoolState::Terminating { ended_workers: 1 });
    assert_eq!(
        master.handle_message(MasterMessage::Terminate { hook: 10 }),
        vec![Action::DropHook { hook: 10 }]
    );
    assert_eq!(
        master.handle_message(MasterMessage::TaskDone { worker: 0 }),
        vec![Action::TerminateWorker { worker: 0 }, Action::FireHook { hook: 9 }]
    );

    let mut busy = ThreadMaster::new(1);
    busy.handle_message(MasterMessage::NewTask { task: 1 });
    busy.handle_message(MasterMessage::NewTask { task: 2 });
    busy.handle_message(MasterMessage::NewTask { task: 3 });
    assert_eq!(
        busy.handle_message(MasterMessage::Terminate { hook: 9 }),
        vec![Action::RejectTask { task: 2 }, Action::RejectTask { task: 3 }]
    );
}

#[test]
fn immediate_shutdown_replaces_the_graceful_hook() {
    let mut master = ThreadMaster::new(1);
    master.handle_message(MasterMessage::NewTask { task: 1 });
    master.handle_message(MasterMessage::NewTask { task: 2 });
    master.handle_message(MasterMessage::GracefulShutdown { hook: 5 });
    assert_eq!(
        master.handle_message(MasterMessage::Terminate { hook: 6 }),
        vec![Action::DropHook { hook: 5 }, Action::RejectTask { task: 2 }]
    );
    assert_eq!(
        master.handle_message(MasterMessage::TaskDone { worker: 0 }),
        vec![Action::TerminateWorker { worker: 0 }, Action::FireHook { hook: 6 }]
    );
}

#[test]
fn a_lost_worker_is_replaced_while_running() {
    let mut master = ThreadMaster::new(2);
    master.handle_message(MasterMessage::NewTask { task: 1 });
    master.handle_message(MasterMessage::NewTask { task: 2 });
    master.handle_message(MasterMessage::NewTask { task: 3 });
    assert_eq!(
        master.handle_message(MasterMessage::Panicked),
        vec![Action::SpawnWorker { worker: 2 }, Action::RunTask { worker: 2, task: 3 }]
    );
    assert_eq!(master.handle_message(MasterMessage::Panicked), vec![Action::SpawnWorker { worker: 3 }]);
    assert_eq!(
        master.handle_message(MasterMessage::NewTask { task: 4 }),
        vec![Action::RunTask { worker: 3, task: 4 }]
    );
}

#[test]
fn a_lost_worker_counts_as_ended_while_terminating() {
    let mut master = ThreadMaster::new(2);
    master.handle_message(MasterMessage::NewTask { task: 1 });
    master.handle_message(MasterMessage::NewTask { task: 2 });
    assert_eq!(master.handle_message(MasterMessage::Terminate { hook: 4 }), vec![]);
    assert_eq!(master.handle_message(MasterMessage::Panicked), vec![]);
    assert_eq!(master.state(), PoolState::Terminating { ended_workers: 1 });
    assert_eq!(master.handle_message(MasterMessage::Panicked), vec![Action::FireHook { hook: 4 }]);
    assert!(master.is_finished());
}

#[test]
fn reports_from_no_busy_worker_are_ignored() {
    let mut master = ThreadMaster::new(1);
    assert_eq!(master.handle_message(MasterMessage::TaskDone { worker: 0 }), vec![]);
    assert_eq!(master.handle_message(MasterMessage::Panicked), vec![]);
    assert_eq!(
        master.handle_message(MasterMessage::NewTask { task: 1 }),
        vec![Action::RunTask { worker: 0, task: 1 }]
    );
}

#[test]
fn a_pool_without_workers_shuts_down_at_once() {
    let mut master = ThreadMaster::new(0);
    assert_eq!(master.handle_message(MasterMessage::NewTask { task: 1 }), vec![]);
    assert_eq!(
        master.handle_message(MasterMessage::Terminate { hook: 1 }),
        vec![Action::RejectTask { task: 1 }, Action::FireHook { hook: 1 }]
    );
    assert!(master.is_finished());
}
