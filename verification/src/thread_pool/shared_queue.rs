//! The scheduling rules of the shared-queue thread pool.
//!
//! The pool is run by a master that owns a queue of waiting tasks and a queue
//! of idle workers. The master is written here as a transition system: it
//! takes one message at a time and answers with the actions to carry out
//! (hand a task to a worker, stop a worker, fire the shutdown hook). Tasks,
//! workers and hooks are named by numbers; whoever drives the master keeps
//! the closures, threads and channels that the numbers stand for.
use std::collections::VecDeque;
use vstd::prelude::*;

verus! {

/// The life cycle of the pool.
#[derive(Debug, Clone, Copy, PartialEq, Eq, Structural)]
pub enum PoolState {
    /// Tasks are accepted and run.
    Running,
    /// No task is accepted or started any more; `ended_workers` workers have
    /// been stopped or lost so far.
    Terminating { ended_workers: usize },
    /// No task is accepted any more, but the queued ones are still run.
    GracefulShutdown,
}

impl PoolState {
    /// Counts one more ended worker.
    pub fn incr_ended_workers(&mut self)
        requires
            *old(self) matches PoolState::Terminating { ended_workers } && ended_workers
                < usize::MAX,
        ensures
            *final(self) == (PoolState::Terminating {
                ended_workers: (old(self)->ended_workers + 1) as usize,
            }),
    {
        match self {
            PoolState::Terminating { ended_workers } => {
                *ended_workers = *ended_workers + 1;
            },
            _ => {},
        }
    }

    /// The number of workers that have ended.
    pub fn get_ended_workers(&self) -> (n: usize)
        requires
            *self is Terminating,
        ensures
            n == self->ended_workers,
    {
        match self {
            PoolState::Terminating { ended_workers } => *ended_workers,
            _ => 0,
        }
    }

    /// Whether the pool has stopped accepting tasks.
    pub fn is_terminating(&self) -> (b: bool)
        ensures
            b == !(*self is Running),
    {
        match self {
            PoolState::Terminating { .. } | PoolState::GracefulShutdown => true,
            _ => false,
        }
    }
}

/// A message to the master.
#[derive(Debug, Clone, Copy, PartialEq, Eq, Structural)]
pub enum MasterMessage {
    /// A task was submitted.
    NewTask { task: u64 },
    /// Immediate shutdown was asked for; `hook` is to fire when every worker
    /// has ended.
    Terminate { hook: u64 },
    /// A worker has finished its task.
    TaskDone { worker: u64 },
    /// Graceful shutdown was asked for; `hook` is to fire when every worker
    /// has ended.
    GracefulShutdown { hook: u64 },
    /// A worker was lost to a panic inside its task.
    Panicked,
}

/// What the master asks its driver to do.
#[derive(Debug, Clone, Copy, PartialEq, Eq, Structural)]
pub enum Action {
    /// Hand `task` to `worker`.
    RunTask { worker: u64, task: u64 },
    /// Tell `worker` to exit.
    TerminateWorker { worker: u64 },
    /// Start a new worker under the name `worker`.
    SpawnWorker { worker: u64 },
    /// Drop `task` without running it.
    RejectTask { task: u64 },
    /// Signal the shutdown hook `hook`.
    FireHook { hook: u64 },
    /// Drop the shutdown hook `hook` without signalling it.
    DropHook { hook: u64 },
}

/// The master's state as plain mathematical values.
pub struct MasterView {
    pub waiting: Seq<u64>,
    pub idle_workers: Seq<u64>,
    pub busy_workers: nat,
    pub pool_size: nat,
    pub state: PoolState,
    pub terminate_hook: Option<u64>,
    pub next_worker: u64,
}

/// The sequence of actions that stops each of `workers`, in order.
pub open spec fn terminate_all(workers: Seq<u64>) -> Seq<Action> {
    Seq::new(workers.len(), |i: int| Action::TerminateWorker { worker: workers[i] })
}

/// The sequence of actions that rejects each of `tasks`, in order.
pub open spec fn reject_all(tasks: Seq<u64>) -> Seq<Action> {
    Seq::new(tasks.len(), |i: int| Action::RejectTask { task: tasks[i] })
}

/// The name after `worker` in the order in which new workers are named.
pub open spec fn next_name(worker: u64) -> u64 {
    if worker == u64::MAX {
        0
    } else {
        (worker + 1) as u64
    }
}

impl MasterView {
    /// The state of a fresh pool of `pool_size` workers, named `0` to
    /// `pool_size - 1`, all of them idle.
    pub open spec fn initial(pool_size: nat) -> MasterView {
        MasterView {
            waiting: Seq::empty(),
            idle_workers: Seq::new(pool_size, |i: int| i as u64),
            busy_workers: 0,
            pool_size,
            state: PoolState::Running,
            terminate_hook: None,
            next_worker: pool_size as u64,
        }
    }

    /// The number of workers that have ended.
    pub open spec fn ended_workers(self) -> nat {
        match self.state {
            PoolState::Terminating { ended_workers } => ended_workers as nat,
            _ => 0,
        }
    }

    /// Whether shutdown is complete: every worker has ended.
    pub open spec fn finished(self) -> bool {
        self.state is Terminating && self.ended_workers() == self.pool_size
    }

    /// The invariant of the master: every worker is idle, busy or ended; a
    /// task waits only while no worker is idle; nothing is queued once the
    /// pool is terminating; and a hook is held from the request for shutdown
    /// until it fires.
    pub open spec fn wf(self) -> bool {
        &&& self.pool_size <= usize::MAX
        &&& self.idle_workers.len() + self.busy_workers + self.ended_workers() == self.pool_size
        &&& self.waiting.len() > 0 ==> self.idle_workers.len() == 0
        &&& match self.state {
            PoolState::Running => self.terminate_hook is None,
            PoolState::GracefulShutdown => self.terminate_hook is Some && self.waiting.len() > 0,
            PoolState::Terminating { ended_workers } => {
                &&& self.waiting.len() == 0
                &&& self.idle_workers.len() == 0
                &&& (self.terminate_hook is Some <==> ended_workers < self.pool_size)
            },
        }
    }

    /// A free worker `worker` meets the queue: it takes the oldest waiting
    /// task, or joins the idle workers.
    pub open spec fn offer_worker(self, worker: u64) -> (MasterView, Seq<Action>) {
        if self.waiting.len() > 0 {
            (
                MasterView {
                    waiting: self.waiting.drop_first(),
                    busy_workers: self.busy_workers + 1,
                    ..self
                },
                seq![Action::RunTask { worker, task: self.waiting[0] }],
            )
        } else {
            (MasterView { idle_workers: self.idle_workers.push(worker), ..self }, Seq::empty())
        }
    }

    /// A new task `task` meets the queue: the longest-idle worker takes it, or
    /// it joins the waiting tasks.
    pub open spec fn offer_task(self, task: u64) -> (MasterView, Seq<Action>) {
        if self.idle_workers.len() > 0 {
            (
                MasterView {
                    idle_workers: self.idle_workers.drop_first(),
                    busy_workers: self.busy_workers + 1,
                    ..self
                },
                seq![Action::RunTask { worker: self.idle_workers[0], task }],
            )
        } else {
            (MasterView { waiting: self.waiting.push(task), ..self }, Seq::empty())
        }
    }

    /// One more worker has ended while terminating; the hook fires when it
    /// was the last.
    pub open spec fn worker_ended(self) -> (MasterView, Seq<Action>) {
        let ended = (self.ended_workers() + 1) as usize;
        let next = MasterView { state: PoolState::Terminating { ended_workers: ended }, ..self };
        if ended == self.pool_size && self.terminate_hook is Some {
            (
                MasterView { terminate_hook: None, ..next },
                seq![Action::FireHook { hook: self.terminate_hook->0 }],
            )
        } else {
            (next, Seq::empty())
        }
    }

    /// Termination begins with `hook` as the hook to fire: every idle worker
    /// is stopped, every waiting task is rejected, and the hook fires at once
    /// if no worker is busy.
    pub open spec fn begin_terminating(self, hook: u64) -> (MasterView, Seq<Action>) {
        let ended = self.idle_workers.len() as usize;
        let stopped = terminate_all(self.idle_workers) + reject_all(self.waiting);
        let next = MasterView {
            waiting: Seq::empty(),
            idle_workers: Seq::empty(),
            state: PoolState::Terminating { ended_workers: ended },
            ..self
        };
        if ended == self.pool_size {
            (MasterView { terminate_hook: None, ..next }, stopped.push(Action::FireHook { hook }))
        } else {
            (MasterView { terminate_hook: Some(hook), ..next }, stopped)
        }
    }

    /// While shutting down gracefully: termination begins as soon as no task
    /// waits.
    pub open spec fn escalate_if_drained(self) -> (MasterView, Seq<Action>) {
        if self.state is GracefulShutdown && self.waiting.len() == 0 && self.terminate_hook
            is Some {
            self.begin_terminating(self.terminate_hook->0)
        } else {
            (self, Seq::empty())
        }
    }

    /// What the master does on `message`: its next state and the actions it
    /// asks for, in order.
    pub open spec fn step(self, message: MasterMessage) -> (MasterView, Seq<Action>) {
        match message {
            MasterMessage::NewTask { task } => {
                if self.state is Running {
                    self.offer_task(task)
                } else {
                    (self, seq![Action::RejectTask { task }])
                }
            },
            MasterMessage::TaskDone { worker } => {
                if self.busy_workers == 0 {
                    (self, Seq::empty())
                } else {
                    let freed = MasterView {
                        busy_workers: (self.busy_workers - 1) as nat,
                        ..self
                    };
                    match self.state {
                        PoolState::Running => freed.offer_worker(worker),
                        PoolState::GracefulShutdown => {
                            let (offered, run) = freed.offer_worker(worker);
                            let (next, stop) = offered.escalate_if_drained();
                            (next, run + stop)
                        },
                        PoolState::Terminating { .. } => {
                            let (next, fire) = freed.worker_ended();
                            (next, seq![Action::TerminateWorker { worker }] + fire)
                        },
                    }
                }
            },
            MasterMessage::Panicked => {
                if self.busy_workers == 0 {
                    (self, Seq::empty())
                } else {
                    let lost = MasterView {
                        busy_workers: (self.busy_workers - 1) as nat,
                        ..self
                    };
                    match self.state {
                        PoolState::Terminating { .. } => lost.worker_ended(),
                        _ => {
                            let worker = self.next_worker;
                            let recruited = MasterView { next_worker: next_name(worker), ..lost };
                            let (offered, run) = recruited.offer_worker(worker);
                            let (next, stop) = offered.escalate_if_drained();
                            (next, seq![Action::SpawnWorker { worker }] + run + stop)
                        },
                    }
                }
            },
            MasterMessage::Terminate { hook } => {
                match self.state {
                    PoolState::Terminating { .. } => (self, seq![Action::DropHook { hook }]),
                    _ => {
                        let dropped = match self.terminate_hook {
                            Some(old_hook) => seq![Action::DropHook { hook: old_hook }],
                            None => Seq::empty(),
                        };
                        let (next, stop) = self.begin_terminating(hook);
                        (next, dropped + stop)
                    },
                }
            },
            MasterMessage::GracefulShutdown { hook } => {
                if self.state is Running {
                    let asked = MasterView {
                        state: PoolState::GracefulShutdown,
                        terminate_hook: Some(hook),
                        ..self
                    };
                    asked.escalate_if_drained()
                } else {
                    (self, seq![Action::DropHook { hook }])
                }
            },
        }
    }
}

/// The master of a pool.
pub struct ThreadMaster {
    waiting: VecDeque<u64>,
    idle_workers: VecDeque<u64>,
    busy_workers: usize,
    pool_size: usize,
    state: PoolState,
    terminate_hook: Option<u64>,
    next_worker: u64,
}

impl View for ThreadMaster {
    type V = MasterView;

    closed spec fn view(&self) -> MasterView {
        MasterView {
            waiting: self.waiting@,
            idle_workers: self.idle_workers@,
            busy_workers: self.busy_workers as nat,
            pool_size: self.pool_size as nat,
            state: self.state,
            terminate_hook: self.terminate_hook,
            next_worker: self.next_worker,
        }
    }
}

impl ThreadMaster {
    /// The master of a fresh pool of `pool_size` idle workers.
    pub fn new(pool_size: usize) -> (master: ThreadMaster)
        ensures
            master@ == MasterView::initial(pool_size as nat),
            master@.wf(),
    {
        let mut idle_workers: VecDeque<u64> = VecDeque::new();
        let mut i: usize = 0;
        while i < pool_size
            invariant
                i <= pool_size,
                idle_workers@ == Seq::new(i as nat, |j: int| j as u64),
            decreases pool_size - i,
        {
            idle_workers.push_back(i as u64);
            i = i + 1;
        }
        ThreadMaster {
            waiting: VecDeque::new(),
            idle_workers,
            busy_workers: 0,
            pool_size,
            state: PoolState::Running,
            terminate_hook: None,
            next_worker: pool_size as u64,
        }
    }

    /// The number of workers of the pool.
    pub fn pool_size(&self) -> (n: usize)
        ensures
            n == self@.pool_size,
    {
        self.pool_size
    }

    /// The life cycle state of the pool.
    pub fn state(&self) -> (state: PoolState)
        ensures
            state == self@.state,
    {
        self.state
    }

    /// Whether shutdown is complete.
    pub fn is_finished(&self) -> (b: bool)
        ensures
            b == self@.finished(),
    {
        match self.state {
            PoolState::Terminating { ended_workers } => ended_workers == self.pool_size,
            _ => false,
        }
    }

    /// Hands `task` to the longest-idle worker, or queues it.
    fn new_task(&mut self, task: u64, actions: &mut Vec<Action>)
        requires
            old(self)@.wf(),
        ensures
            final(self)@ == old(self)@.offer_task(task).0,
            final(actions)@ == old(actions)@ + old(self)@.offer_task(task).1,
    {
        match self.idle_workers.pop_front() {
            Some(worker) => {
                self.busy_workers = self.busy_workers + 1;
                actions.push(Action::RunTask { worker, task });
            },
            None => {
                self.waiting.push_back(task);
            },
        }
    }

    /// Gives the free worker `broker` the oldest waiting task, or lets it
    /// idle.
    fn new_broker(&mut self, broker: u64, actions: &mut Vec<Action>)
        requires
            old(self)@.idle_workers.len() + old(self)@.busy_workers < usize::MAX,
        ensures
            final(self)@ == old(self)@.offer_worker(broker).0,
            final(actions)@ == old(actions)@ + old(self)@.offer_worker(broker).1,
    {
        match self.waiting.pop_front() {
            Some(task) => {
                self.busy_workers = self.busy_workers + 1;
                actions.push(Action::RunTask { worker: broker, task });
            },
            None => {
                self.idle_workers.push_back(broker);
            },
        }
    }

    /// Counts one more ended worker and fires the hook after the last.
    fn send_terminate(&mut self, actions: &mut Vec<Action>)
        requires
            old(self)@.state is Terminating,
            old(self)@.ended_workers() < old(self)@.pool_size,
        ensures
            final(self)@ == old(self)@.worker_ended().0,
            final(actions)@ == old(actions)@ + old(self)@.worker_ended().1,
    {
        self.state.incr_ended_workers();
        if self.state.get_ended_workers() == self.pool_size {
            if let Some(hook) = self.terminate_hook.take() {
                actions.push(Action::FireHook { hook });
            }
        }
    }

    /// Begins termination with `hook` as the hook to fire.
    fn begin_terminating(&mut self, hook: u64, actions: &mut Vec<Action>)
        requires
            old(self)@.idle_workers.len() <= old(self)@.pool_size,
        ensures
            final(self)@ == old(self)@.begin_terminating(hook).0,
            final(actions)@ == old(actions)@ + old(self)@.begin_terminating(hook).1,
    {
        let ghost idle = self.idle_workers@;
        let ghost waiting = self.waiting@;
        let ghost before = actions@;
        let mut ended: usize = 0;
        while self.idle_workers.len() > 0
            invariant
                idle.len() <= self.pool_size,
                ended <= idle.len(),
                self.idle_workers@ == idle.skip(ended as int),
                actions@ == before + terminate_all(idle.take(ended as int)),
                self.waiting@ == waiting,
                self.pool_size == old(self).pool_size,
                self.busy_workers == old(self).busy_workers,
                self.next_worker == old(self).next_worker,
            decreases self.idle_workers@.len(),
        {
            let popped = self.idle_workers.pop_front();
            if let Some(worker) = popped {
                actions.push(Action::TerminateWorker { worker });
                ended = ended + 1;
            }
        }
        assert(idle.take(ended as int) == idle);
        let ghost mut rejected: int = 0;
        while self.waiting.len() > 0
            invariant
                0 <= rejected <= waiting.len(),
                self.waiting@ == waiting.skip(rejected),
                actions@ == before + terminate_all(idle) + reject_all(waiting.take(rejected)),
                self.idle_workers@.len() == 0,
                self.pool_size == old(self).pool_size,
                self.busy_workers == old(self).busy_workers,
                self.next_worker == old(self).next_worker,
            decreases self.waiting@.len(),
        {
            let popped = self.waiting.pop_front();
            if let Some(task) = popped {
                actions.push(Action::RejectTask { task });
                proof {
                    rejected = rejected + 1;
                }
            }
        }
        assert(waiting.take(rejected) == waiting);
        assert(self.waiting@ == Seq::<u64>::empty());
        assert(self.idle_workers@ == Seq::<u64>::empty());
        self.state = PoolState::Terminating { ended_workers: ended };
        if ended == self.pool_size {
            self.terminate_hook = None;
            actions.push(Action::FireHook { hook });
        } else {
            self.terminate_hook = Some(hook);
        }
    }

    /// While shutting down gracefully, begins termination as soon as no task
    /// waits.
    fn escalate_if_drained(&mut self, actions: &mut Vec<Action>)
        requires
            old(self)@.idle_workers.len() <= old(self)@.pool_size,
        ensures
            final(self)@ == old(self)@.escalate_if_drained().0,
            final(actions)@ == old(actions)@ + old(self)@.escalate_if_drained().1,
    {
        if let PoolState::GracefulShutdown = self.state {
            if self.waiting.len() == 0 {
                if let Some(hook) = self.terminate_hook {
                    self.begin_terminating(hook, actions);
                }
            }
        }
    }

    /// Takes one message and returns the actions that it calls for, in order.
    pub fn handle_message(&mut self, message: MasterMessage) -> (actions: Vec<Action>)
        requires
            old(self)@.wf(),
        ensures
            final(self)@ == old(self)@.step(message).0,
            actions@ == old(self)@.step(message).1,
            final(self)@.wf(),
    {
        proof {
            lemma_step_preserves_wf(self@, message);
        }
        let mut actions: Vec<Action> = Vec::new();
        match message {
            MasterMessage::NewTask { task } => {
                if self.state.is_terminating() {
                    actions.push(Action::RejectTask { task });
                } else {
                    self.new_task(task, &mut actions);
                }
            },
            MasterMessage::TaskDone { worker } => {
                if self.busy_workers > 0 {
                    self.busy_workers = self.busy_workers - 1;
                    match self.state {
                        PoolState::Running => {
                            self.new_broker(worker, &mut actions);
                        },
                        PoolState::GracefulShutdown => {
                            self.new_broker(worker, &mut actions);
                            self.escalate_if_drained(&mut actions);
                        },
                        PoolState::Terminating { .. } => {
                            actions.push(Action::TerminateWorker { worker });
                            self.send_terminate(&mut actions);
                        },
                    }
                }
            },
            MasterMessage::Panicked => {
                if self.busy_workers > 0 {
                    self.busy_workers = self.busy_workers - 1;
                    match self.state {
                        PoolState::Terminating { .. } => {
                            self.send_terminate(&mut actions);
                        },
                        _ => {
                            let worker = self.next_worker;
                            self.next_worker = if worker == u64::MAX {
                                0
                            } else {
                                worker + 1
                            };
                            actions.push(Action::SpawnWorker { worker });
                            self.new_broker(worker, &mut actions);
                            self.escalate_if_drained(&mut actions);
                        },
                    }
                }
            },
            MasterMessage::Terminate { hook } => {
                match self.state {
                    PoolState::Terminating { .. } => {
                        actions.push(Action::DropHook { hook });
                    },
                    _ => {
                        if let Some(old_hook) = self.terminate_hook {
                            actions.push(Action::DropHook { hook: old_hook });
                        }
                        self.begin_terminating(hook, &mut actions);
                    },
                }
            },
            MasterMessage::GracefulShutdown { hook } => {
                if self.state.is_terminating() {
                    actions.push(Action::DropHook { hook });
                } else {
                    self.state = PoolState::GracefulShutdown;
                    self.terminate_hook = Some(hook);
                    self.escalate_if_drained(&mut actions);
                }
            },
        }
        actions
    }
}

/// A fresh pool meets the master's invariant.
pub proof fn lemma_initial_wf(pool_size: nat)
    requires
        pool_size <= usize::MAX,
    ensures
        MasterView::initial(pool_size).wf(),
{
}

/// Every message keeps the master's invariant.
pub proof fn lemma_step_preserves_wf(master: MasterView, message: MasterMessage)
    requires
        master.wf(),
    ensures
        master.step(message).0.wf(),
{
}

/// Whether `actions` signals a shutdown hook.
pub open spec fn fires_hook(actions: Seq<Action>) -> bool {
    exists|i: int| 0 <= i < actions.len() && #[trigger] actions[i] is FireHook
}

/// Whether `actions` rejects a task.
pub open spec fn rejects_task(actions: Seq<Action>) -> bool {
    exists|i: int| 0 <= i < actions.len() && #[trigger] actions[i] is RejectTask
}

/// The shutdown hook fires exactly when the last worker ends: a step signals
/// a hook if and only if it completes the shutdown, it signals at most one,
/// and that one is the hook that was last asked for.
pub proof fn lemma_hook_fires_on_completion(master: MasterView, message: MasterMessage)
    requires
        master.wf(),
    ensures
        fires_hook(master.step(message).1) <==> !master.finished() && master.step(
            message,
        ).0.finished(),
        forall|i: int, j: int|
            0 <= i < master.step(message).1.len() && 0 <= j < master.step(message).1.len()
                && #[trigger] master.step(message).1[i] is FireHook
                && #[trigger] master.step(message).1[j] is FireHook ==> i == j,
{
    let (next, actions) = master.step(message);
    if !master.finished() && next.finished() {
        assert(actions.last() is FireHook);
    }
}

/// Once shutdown is complete nothing happens any more: the state stays as it
/// is, no task is run, no worker is stopped or started and no hook fires.
pub proof fn lemma_finished_is_final(master: MasterView, message: MasterMessage)
    requires
        master.wf(),
        master.finished(),
    ensures
        master.step(message).0 == master,
        forall|i: int|
            0 <= i < master.step(message).1.len() ==> {
                ||| #[trigger] master.step(message).1[i] is RejectTask
                ||| master.step(message).1[i] is DropHook
            },
{
}

/// Only a new task that comes too late and a request for immediate shutdown
/// reject tasks: under graceful shutdown every queued task is handed to a
/// worker before the workers are stopped.
pub proof fn lemma_graceful_shutdown_drains_queue(master: MasterView, message: MasterMessage)
    requires
        master.wf(),
        !(message is NewTask),
        !(message is Terminate),
    ensures
        !rejects_task(master.step(message).1),
{
}

/// A task is handed to a worker only while no older task waits, and the task
/// handed out is the oldest one: tasks leave the queue in the order in which
/// they came.
pub proof fn lemma_tasks_run_in_order(master: MasterView, message: MasterMessage, i: int)
    requires
        master.wf(),
        0 <= i < master.step(message).1.len(),
        master.step(message).1[i] is RunTask,
    ensures
        master.waiting.len() > 0 ==> master.step(message).1[i]->RunTask_task == master.waiting[0]
            && master.step(message).0.waiting == master.waiting.drop_first(),
        master.waiting.len() == 0 ==> message == (MasterMessage::NewTask {
            task: master.step(message).1[i]->RunTask_task,
        }) && master.step(message).0.waiting.len() == 0,
{
}

/// How many hooks `actions` signals.
pub open spec fn count_fired(actions: Seq<Action>) -> nat
    decreases actions.len(),
{
    if actions.len() == 0 {
        0
    } else {
        count_fired(actions.drop_last()) + if actions.last() is FireHook {
            1nat
        } else {
            0nat
        }
    }
}

/// What the master does on `messages`, one after the other: its last state
/// and all the actions it asks for, in order.
pub open spec fn run(master: MasterView, messages: Seq<MasterMessage>) -> (MasterView, Seq<Action>)
    decreases messages.len(),
{
    if messages.len() == 0 {
        (master, Seq::empty())
    } else {
        let (before, done) = run(master, messages.drop_last());
        let (after, actions) = before.step(messages.last());
        (after, done + actions)
    }
}

/// The hooks signalled in two runs of actions, one after the other, are
/// those of the one and those of the other.
pub proof fn lemma_count_fired_add(first: Seq<Action>, second: Seq<Action>)
    ensures
        count_fired(first + second) == count_fired(first) + count_fired(second),
    decreases second.len(),
{
    if second.len() == 0 {
        assert(first + second == first);
    } else {
        lemma_count_fired_add(first, second.drop_last());
        assert((first + second).drop_last() == first + second.drop_last());
        assert((first + second).last() == second.last());
    }
}

/// A step signals one hook if it completes the shutdown, and none otherwise.
pub proof fn lemma_step_fires(master: MasterView, message: MasterMessage)
    requires
        master.wf(),
    ensures
        count_fired(master.step(message).1) == if !master.finished() && master.step(
            message,
        ).0.finished() {
            1nat
        } else {
            0nat
        },
{
    let (next, actions) = master.step(message);
    lemma_fired_last_only(actions);
    lemma_hook_fires_on_completion(master, message);
    if !master.finished() && next.finished() {
        assert(actions.last() is FireHook);
    } else {
        if actions.len() > 0 && actions.last() is FireHook {
            assert(fires_hook(actions));
        }
    }
}

/// Actions of which at most the last signals a hook signal as many hooks as
/// the last one does.
proof fn lemma_fired_last_only(actions: Seq<Action>)
    requires
        forall|i: int| 0 <= i < actions.len() - 1 ==> !(#[trigger] actions[i] is FireHook),
    ensures
        count_fired(actions) == if actions.len() > 0 && actions.last() is FireHook {
            1nat
        } else {
            0nat
        },
    decreases actions.len(),
{
    if actions.len() > 0 {
        lemma_none_fired(actions.drop_last());
    }
}

/// Actions of which none signals a hook signal no hook.
proof fn lemma_none_fired(actions: Seq<Action>)
    requires
        forall|i: int| 0 <= i < actions.len() ==> !(#[trigger] actions[i] is FireHook),
    ensures
        count_fired(actions) == 0,
    decreases actions.len(),
{
    if actions.len() > 0 {
        let front = actions.drop_last();
        assert forall|i: int| 0 <= i < front.len() implies !(#[trigger] front[i] is FireHook) by {
            assert(front[i] == actions[i]);
        }
        lemma_none_fired(front);
        assert(!(actions[actions.len() - 1] is FireHook));
    }
}

/// The shutdown hook fires exactly once, and that is when the shutdown is
/// complete: whatever messages come in, one hook is signalled in all if the
/// shutdown gets completed, and none if it does not; once it is complete it
/// stays so.
pub proof fn lemma_hook_fires_once(master: MasterView, messages: Seq<MasterMessage>)
    requires
        master.wf(),
    ensures
        run(master, messages).0.wf(),
        master.finished() ==> run(master, messages).0.finished(),
        count_fired(run(master, messages).1) == if !master.finished() && run(
            master,
            messages,
        ).0.finished() {
            1nat
        } else {
            0nat
        },
    decreases messages.len(),
{
    if messages.len() > 0 {
        let (before, done) = run(master, messages.drop_last());
        lemma_hook_fires_once(master, messages.drop_last());
        lemma_step_preserves_wf(before, messages.last());
        lemma_step_fires(before, messages.last());
        lemma_count_fired_add(done, before.step(messages.last()).1);
        if before.finished() {
            lemma_finished_is_final(before, messages.last());
        }
    }
}

} // verus!
