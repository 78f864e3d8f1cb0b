//! What a pool of worker threads keeps account of: its jobs, its workers and its end.

use vstd::arithmetic::div_mod;
use vstd::prelude::*;

verus! {

/// How often the end of a pool looks whether the jobs are done before it goes on regardless.
pub const SHUTDOWN_POLLS: usize = 10000;

/// How long the end of a pool sleeps between two looks, in milliseconds.
pub const SHUTDOWN_SLEEP_MS: u64 = 10;

/// `num_cpus::get`: the number of logical CPUs that this process may use, which is at least 1.
/// Which number it is depends on the machine, so no more is said of it.
#[verifier::external_body]
fn cpu_count() -> (cpus: usize)
    ensures
        cpus >= 1,
{
    num_cpus::get()
}

/// What the counter of a word shows that counted up to `n`: it starts anew at zero when it is full.
pub open spec fn wrapped(n: int) -> int {
    n % (usize::MAX + 1)
}

/// The account of a pool of worker threads: how many workers it has, and how many of the jobs that
/// it was sent are not finished.
pub struct ThreadPool {
    workers: usize,
    queued: usize,
    sent: Ghost<nat>,
    finished: Ghost<nat>,
}

impl ThreadPool {
    /// The number of workers that the pool still has.
    pub closed spec fn workers(self) -> usize {
        self.workers
    }

    /// The jobs sent to the pool so far.
    pub closed spec fn sent(self) -> nat {
        self.sent@
    }

    /// The jobs finished so far.
    pub closed spec fn finished(self) -> nat {
        self.finished@
    }

    /// What the counter of jobs that are not finished shows.
    pub open spec fn counted(self) -> int {
        wrapped(self.sent() - self.finished())
    }

    /// No more jobs are finished than were sent, and the counter holds the number of jobs that were
    /// sent and are not finished.
    pub closed spec fn wf(self) -> bool {
        &&& self.finished@ <= self.sent@
        &&& self.queued == wrapped(self.sent@ - self.finished@)
    }

    /// A pool with a worker for each CPU.
    pub fn new() -> (pool: Self)
        ensures
            pool.wf(),
            pool.workers() >= 1,
            pool.sent() == 0,
            pool.finished() == 0,
    {
        Self::with_threads_on(None, cpu_count())
    }

    /// A pool with this many workers.
    pub fn new_with_count(count: usize) -> (pool: Self)
        requires
            count > 0,
        ensures
            pool.wf(),
            pool.workers() == count,
            pool.sent() == 0,
            pool.finished() == 0,
    {
        proof {
            div_mod::lemma_fundamental_div_mod_converse(0, usize::MAX + 1, 0, 0);
        }
        ThreadPool { workers: count, queued: 0, sent: Ghost(0), finished: Ghost(0) }
    }

    /// A pool with as many workers as asked for, or else with a worker for each CPU.
    pub fn with_threads(threads: Option<usize>) -> (pool: Self)
        requires
            threads != Some(0usize),
        ensures
            pool.wf(),
            threads matches Some(count) ==> pool.workers() == count,
            pool.workers() >= 1,
            pool.sent() == 0,
            pool.finished() == 0,
    {
        Self::with_threads_on(threads, cpu_count())
    }

    /// A pool on a machine with this many CPUs: with as many workers as asked for, or else with a
    /// worker for each CPU.
    pub fn with_threads_on(threads: Option<usize>, cpus: usize) -> (pool: Self)
        requires
            threads != Some(0usize),
            cpus > 0,
        ensures
            pool.wf(),
            pool.workers() == (match threads {
                Some(count) => count,
                None => cpus,
            }),
            pool.sent() == 0,
            pool.finished() == 0,
    {
        match threads {
            Some(count) => Self::new_with_count(count),
            None => Self::new_with_count(cpus),
        }
    }

    /// The number of workers that the pool still has.
    pub fn worker_count(&self) -> (count: usize)
        ensures
            count == self.workers(),
    {
        self.workers
    }

    /// How many jobs may wait for a worker: two for each, unless a word cannot hold that number.
    pub fn queue_capacity(&self) -> (capacity: Option<usize>)
        ensures
            capacity is Some <==> 2 * self.workers() <= usize::MAX,
            capacity matches Some(n) ==> n == 2 * self.workers(),
    {
        self.workers.checked_mul(2)
    }

    /// Takes a job into the account; it comes before the job is handed to a worker.
    pub fn send(&mut self)
        requires
            old(self).wf(),
        ensures
            final(self).wf(),
            final(self).workers() == old(self).workers(),
            final(self).sent() == old(self).sent() + 1,
            final(self).finished() == old(self).finished(),
            final(self).finished() < final(self).sent(),
    {
        proof {
            lemma_wrapped_step(self.sent@ - self.finished@);
            self.sent@ = self.sent@ + 1;
        }
        self.queued = self.queued.wrapping_add(1);
    }

    /// Takes a job that a worker has run off the account.
    pub fn finish(&mut self)
        requires
            old(self).wf(),
            old(self).finished() < old(self).sent(),
        ensures
            final(self).wf(),
            final(self).workers() == old(self).workers(),
            final(self).sent() == old(self).sent(),
            final(self).finished() == old(self).finished() + 1,
            final(self).finished() <= final(self).sent(),
    {
        proof {
            lemma_wrapped_step(self.sent@ - self.finished@ - 1);
            self.finished@ = self.finished@ + 1;
        }
        self.queued = self.queued.wrapping_sub(1);
    }

    /// The number of jobs that are not finished, as far as a word can count them.
    pub fn queued(&self) -> (queued: usize)
        requires
            self.wf(),
        ensures
            queued == self.counted(),
            self.sent() - self.finished() <= usize::MAX ==> queued == self.sent() - self.finished(),
    {
        proof {
            lemma_wrapped_small(self.sent@ - self.finished@);
        }
        self.queued
    }

    /// Whether every job is finished, as far as a word can count them.
    pub fn is_drained(&self) -> (drained: bool)
        requires
            self.wf(),
        ensures
            drained == (self.counted() == 0),
            self.sent() - self.finished() <= usize::MAX ==> drained == (self.sent()
                == self.finished()),
    {
        proof {
            lemma_wrapped_small(self.sent@ - self.finished@);
        }
        self.queued == 0
    }

    /// The plan of an end of the pool, before its first step.
    pub fn begin_shutdown(&self) -> (plan: Shutdown)
        ensures
            plan == Shutdown::begin(self.workers()),
    {
        Shutdown { waiting: true, polls: 0, unsignalled: self.workers, unjoined: self.workers }
    }

    /// Takes the next step of an end of the pool. A step is asked for only once the step before it
    /// was carried out. The pool keeps its workers until each of them was told to stop, and it has
    /// none of them left when the first of them is waited for. Where one cannot be told, no further
    /// step is asked for, so the pool still has all of them.
    pub fn shutdown(&mut self, plan: &mut Shutdown) -> (action: ShutdownAction)
        requires
            old(self).wf(),
        ensures
            final(self).wf(),
            final(self).sent() == old(self).sent(),
            final(self).finished() == old(self).finished(),
            action == old(plan).action(old(self).counted() == 0),
            *final(plan) == old(plan).after(old(self).counted() == 0),
            final(self).workers() == (match action {
                ShutdownAction::Sleep | ShutdownAction::Signal => old(self).workers(),
                ShutdownAction::Join | ShutdownAction::Done => 0,
            }),
    {
        let action = plan.step(self.is_drained());
        match action {
            ShutdownAction::Sleep | ShutdownAction::Signal => {},
            ShutdownAction::Join | ShutdownAction::Done => {
                self.workers = 0;
            },
        }
        action
    }
}

proof fn lemma_wrapped_small(n: int)
    ensures
        0 <= n <= usize::MAX ==> wrapped(n) == n,
{
    if 0 <= n <= usize::MAX {
        div_mod::lemma_fundamental_div_mod_converse(n, usize::MAX + 1, 0, n);
    }
}

proof fn lemma_wrapped_step(n: int)
    requires
        0 <= n,
    ensures
        0 <= wrapped(n) <= usize::MAX,
        wrapped(n) < usize::MAX ==> wrapped(n + 1) == wrapped(n) + 1,
        wrapped(n) == usize::MAX ==> wrapped(n + 1) == 0,
{
    let m = usize::MAX + 1;
    div_mod::lemma_fundamental_div_mod(n, m);
    if n % m < usize::MAX {
        div_mod::lemma_fundamental_div_mod_converse(n + 1, m, n / m, n % m + 1);
    } else {
        assert(m * (n / m) + m == m * (n / m + 1)) by (nonlinear_arith);
        div_mod::lemma_fundamental_div_mod_converse(n + 1, m, n / m + 1, 0);
    }
}

/// No more jobs are finished than were sent.
pub proof fn law_no_more_jobs_finished_than_sent(pool: ThreadPool)
    requires
        pool.wf(),
    ensures
        pool.finished() <= pool.sent(),
{
}

/// While a word can count the jobs that are not finished, the counter is exact, and a pool is
/// drained just when every job that it was sent is finished.
pub proof fn law_drained_when_every_job_is_finished(pool: ThreadPool)
    requires
        pool.wf(),
        pool.sent() - pool.finished() <= usize::MAX,
    ensures
        pool.counted() == pool.sent() - pool.finished(),
        pool.counted() == 0 <==> pool.sent() == pool.finished(),
{
    lemma_wrapped_small(pool.sent() - pool.finished());
}

/// What happens to the jobs of a pool. Each job has a number of its own.
pub enum JobEvent {
    /// The job was taken into the account, and can be handed to a worker from now on.
    Sent(int),
    /// The job has returned, and was taken off the account.
    Returned(int),
}

/// The jobs that were sent and have not returned: those that wait for a worker, and those that run.
pub open spec fn open_jobs(events: Seq<JobEvent>) -> Set<int>
    decreases events.len(),
{
    if events.len() == 0 {
        Set::empty()
    } else {
        match events.last() {
            JobEvent::Sent(job) => open_jobs(events.drop_last()).insert(job),
            JobEvent::Returned(job) => open_jobs(events.drop_last()).remove(job),
        }
    }
}

/// Whether the events can happen in this order: no job is sent while it is open, and only a job that
/// is open returns.
pub open spec fn is_history(events: Seq<JobEvent>) -> bool
    decreases events.len(),
{
    events.len() == 0 || {
        &&& is_history(events.drop_last())
        &&& match events.last() {
            JobEvent::Sent(job) => !open_jobs(events.drop_last()).contains(job),
            JobEvent::Returned(job) => open_jobs(events.drop_last()).contains(job),
        }
    }
}

/// How many jobs were sent.
pub open spec fn sent_count(events: Seq<JobEvent>) -> nat
    decreases events.len(),
{
    if events.len() == 0 {
        0
    } else {
        sent_count(events.drop_last()) + if events.last() is Sent {
            1nat
        } else {
            0
        }
    }
}

/// How many jobs have returned.
pub open spec fn returned_count(events: Seq<JobEvent>) -> nat
    decreases events.len(),
{
    if events.len() == 0 {
        0
    } else {
        returned_count(events.drop_last()) + if events.last() is Returned {
            1nat
        } else {
            0
        }
    }
}

proof fn lemma_open_jobs_are_counted(events: Seq<JobEvent>)
    requires
        is_history(events),
    ensures
        open_jobs(events).finite(),
        open_jobs(events).len() == sent_count(events) - returned_count(events),
    decreases events.len(),
{
    if events.len() > 0 {
        lemma_open_jobs_are_counted(events.drop_last());
    }
}

/// From before a worker can take a job until the job has returned, and so also inside the job, the
/// counter is at least 1 and the pool is not drained; and to take the job off the account brings the
/// counter down by 1, never below zero. It holds at each moment of every history of jobs, while a
/// word can count the jobs that are open.
pub proof fn law_open_job_keeps_the_pool_undrained(
    pool: ThreadPool,
    events: Seq<JobEvent>,
    job: int,
)
    requires
        pool.wf(),
        is_history(events),
        pool.sent() == sent_count(events),
        pool.finished() == returned_count(events),
        open_jobs(events).contains(job),
        open_jobs(events).len() <= usize::MAX,
    ensures
        pool.counted() == open_jobs(events).len(),
        pool.counted() >= 1,
        pool.finished() < pool.sent(),
        is_history(events.push(JobEvent::Returned(job))),
        wrapped(sent_count(events) - returned_count(events.push(JobEvent::Returned(job))))
            == pool.counted() - 1,
{
    let returned = events.push(JobEvent::Returned(job));
    assert(returned.drop_last() =~= events);
    lemma_open_jobs_are_counted(events);
    assert(open_jobs(events).len() >= 1) by {
        assert(open_jobs(events).remove(job).len() == open_jobs(events).len() - 1);
    }
    lemma_wrapped_small(pool.sent() - pool.finished());
    lemma_wrapped_small(pool.sent() - pool.finished() - 1);
}

/// A second end of a pool has nothing to do: where an end came to its last step, so that the pool
/// has no workers, and every job is finished, a further end is done at its first step. It neither
/// sleeps nor tells nor waits for anyone, however often a step is asked for, and so changes no count.
pub proof fn law_second_shutdown_is_done_at_once(pool: ThreadPool, looks: Seq<bool>, i: int)
    requires
        pool.wf(),
        pool.workers() == 0,
        pool.sent() == pool.finished(),
        0 <= i < looks.len(),
        looks[0] == (pool.counted() == 0),
    ensures
        pool.counted() == 0,
        Shutdown::begin(pool.workers()).action(pool.counted() == 0) == ShutdownAction::Done,
        Shutdown::begin(pool.workers()).steps(looks).len() == looks.len(),
        Shutdown::begin(pool.workers()).steps(looks)[i] == ShutdownAction::Done,
{
    lemma_wrapped_small(0);
    law_shutdown_stops_every_worker(pool.workers(), looks, i);
    assert(leading_waits(looks, SHUTDOWN_POLLS as nat) == 0);
}

/// What a worker heard from its queue.
pub enum WorkerEvent {
    Job,
    Shutdown,
    Disconnected,
}

/// What a worker does about it.
pub enum WorkerAction {
    Run,
    Stop,
}

/// A worker runs each job that it hears of; it stops when it is told to, or when nobody is left to
/// tell it anything.
pub fn worker_action(event: &WorkerEvent) -> (action: WorkerAction)
    ensures
        action is Run <==> event is Job,
{
    match event {
        WorkerEvent::Job => WorkerAction::Run,
        WorkerEvent::Shutdown => WorkerAction::Stop,
        WorkerEvent::Disconnected => WorkerAction::Stop,
    }
}

/// One step of the end of a pool.
#[derive(Clone, Copy, Debug, PartialEq, Eq, Structural)]
pub enum ShutdownAction {
    /// Sleep for a while, then look again.
    Sleep,
    /// Tell one worker to stop.
    Signal,
    /// Wait until one worker has stopped.
    Join,
    /// Nothing is left to do.
    Done,
}

/// How far the end of a pool has come.
#[derive(Clone, Copy, Debug)]
pub struct Shutdown {
    /// Whether the jobs are still waited for.
    pub waiting: bool,
    /// How often the wait went on.
    pub polls: usize,
    /// The workers that were not told to stop.
    pub unsignalled: usize,
    /// The workers that were not waited for.
    pub unjoined: usize,
}

impl Shutdown {
    /// The end of a pool with this many workers, before its first step.
    pub open spec fn begin(workers: usize) -> Shutdown {
        Shutdown { waiting: true, polls: 0, unsignalled: workers, unjoined: workers }
    }

    /// Whether the step is to wait on.
    pub open spec fn waits(self, drained: bool) -> bool {
        self.waiting && self.polls < SHUTDOWN_POLLS && !drained
    }

    /// The step that is taken.
    pub open spec fn action(self, drained: bool) -> ShutdownAction {
        if self.waits(drained) {
            ShutdownAction::Sleep
        } else if self.unsignalled > 0 {
            ShutdownAction::Signal
        } else if self.unjoined > 0 {
            ShutdownAction::Join
        } else {
            ShutdownAction::Done
        }
    }

    /// What is left after the step.
    pub open spec fn after(self, drained: bool) -> Shutdown {
        match self.action(drained) {
            ShutdownAction::Sleep => Shutdown { polls: (self.polls + 1) as usize, ..self },
            ShutdownAction::Signal => Shutdown {
                waiting: false,
                unsignalled: (self.unsignalled - 1) as usize,
                ..self
            },
            ShutdownAction::Join => Shutdown {
                waiting: false,
                unjoined: (self.unjoined - 1) as usize,
                ..self
            },
            ShutdownAction::Done => Shutdown { waiting: false, ..self },
        }
    }

    /// The steps of a whole end, given what each look at the pool shows.
    pub open spec fn steps(self, looks: Seq<bool>) -> Seq<ShutdownAction>
        decreases looks.len(),
    {
        if looks.len() == 0 {
            Seq::empty()
        } else {
            seq![self.action(looks[0])] + self.after(looks[0]).steps(looks.drop_first())
        }
    }

    /// Takes the next step; `drained` tells whether every job is finished now.
    pub fn step(&mut self, drained: bool) -> (action: ShutdownAction)
        ensures
            action == old(self).action(drained),
            *final(self) == old(self).after(drained),
    {
        if self.waiting && self.polls < SHUTDOWN_POLLS && !drained {
            self.polls = self.polls + 1;
            return ShutdownAction::Sleep;
        }
        self.waiting = false;
        if self.unsignalled > 0 {
            self.unsignalled = self.unsignalled - 1;
            ShutdownAction::Signal
        } else if self.unjoined > 0 {
            self.unjoined = self.unjoined - 1;
            ShutdownAction::Join
        } else {
            ShutdownAction::Done
        }
    }
}

/// How many looks in a row show an undrained pool, from the first look on and up to a limit.
pub open spec fn leading_waits(looks: Seq<bool>, limit: nat) -> nat
    decreases limit,
{
    if limit == 0 || looks.len() == 0 || looks[0] {
        0
    } else {
        1 + leading_waits(looks.drop_first(), (limit - 1) as nat)
    }
}

/// The end of a pool first sleeps until a look shows the pool drained, at most `SHUTDOWN_POLLS`
/// times; then it tells each worker to stop; then it waits for each worker; then it is done.
pub proof fn law_shutdown_stops_every_worker(workers: usize, looks: Seq<bool>, i: int)
    requires
        0 <= i < looks.len(),
    ensures
        Shutdown::begin(workers).steps(looks).len() == looks.len(),
        leading_waits(looks, SHUTDOWN_POLLS as nat) <= SHUTDOWN_POLLS,
        Shutdown::begin(workers).steps(looks)[i] == ({
            let slept = leading_waits(looks, SHUTDOWN_POLLS as nat);
            if i < slept {
                ShutdownAction::Sleep
            } else if i < slept + workers {
                ShutdownAction::Signal
            } else if i < slept + 2 * workers {
                ShutdownAction::Join
            } else {
                ShutdownAction::Done
            }
        }),
{
    lemma_steps_while_waiting(Shutdown::begin(workers), looks, i);
}

proof fn lemma_steps_while_waiting(plan: Shutdown, looks: Seq<bool>, i: int)
    requires
        plan.waiting,
        plan.polls <= SHUTDOWN_POLLS,
        plan.unsignalled == plan.unjoined,
        0 <= i < looks.len(),
    ensures
        plan.steps(looks).len() == looks.len(),
        leading_waits(looks, (SHUTDOWN_POLLS - plan.polls) as nat) <= SHUTDOWN_POLLS - plan.polls,
        plan.steps(looks)[i] == ({
            let slept = leading_waits(looks, (SHUTDOWN_POLLS - plan.polls) as nat);
            if i < slept {
                ShutdownAction::Sleep
            } else if i < slept + plan.unsignalled {
                ShutdownAction::Signal
            } else if i < slept + 2 * plan.unsignalled {
                ShutdownAction::Join
            } else {
                ShutdownAction::Done
            }
        }),
    decreases looks.len(),
{
    let rest = looks.drop_first();
    let next = plan.after(looks[0]);
    assert(plan.steps(looks) == seq![plan.action(looks[0])] + next.steps(rest));
    if plan.waits(looks[0]) {
        if i > 0 {
            lemma_steps_while_waiting(next, rest, i - 1);
        } else if rest.len() > 0 {
            lemma_steps_while_waiting(next, rest, 0);
        } else {
            assert(next.steps(rest) == Seq::<ShutdownAction>::empty());
        }
    } else {
        lemma_steps_after_waiting(Shutdown { waiting: false, ..plan }, looks, i);
        assert(plan.action(looks[0]) == (Shutdown { waiting: false, ..plan }).action(looks[0]));
        assert(plan.after(looks[0]) == (Shutdown { waiting: false, ..plan }).after(looks[0]));
    }
}

proof fn lemma_steps_after_waiting(plan: Shutdown, looks: Seq<bool>, i: int)
    requires
        !plan.waiting,
        0 <= i < looks.len(),
    ensures
        plan.steps(looks).len() == looks.len(),
        plan.steps(looks)[i] == (if i < plan.unsignalled {
            ShutdownAction::Signal
        } else if i < plan.unsignalled + plan.unjoined {
            ShutdownAction::Join
        } else {
            ShutdownAction::Done
        }),
    decreases looks.len(),
{
    let rest = looks.drop_first();
    let next = plan.after(looks[0]);
    assert(plan.steps(looks) == seq![plan.action(looks[0])] + next.steps(rest));
    if i > 0 {
        lemma_steps_after_waiting(next, rest, i - 1);
    } else if rest.len() > 0 {
        lemma_steps_after_waiting(next, rest, 0);
    } else {
        assert(next.steps(rest) == Seq::<ShutdownAction>::empty());
    }
}

/// The counter is a word: it shows the number itself while that fits, and the same again after a
/// word's range of numbers.
pub proof fn law_counter_is_a_word(n: int)
    requires
        0 <= n,
    ensures
        0 <= wrapped(n) <= usize::MAX,
        n <= usize::MAX ==> wrapped(n) == n,
        wrapped(n + usize::MAX + 1) == wrapped(n),
{
    let m = usize::MAX + 1;
    lemma_wrapped_step(n);
    lemma_wrapped_small(n);
    div_mod::lemma_mod_add_multiples_vanish(n, m);
}

/// The whole run of an end of a pool, step by step, whatever the looks at the pool show. It sleeps as
/// long as the looks show jobs that are not finished, but not more than 10000 times; it then tells
/// each worker to stop, then waits for each worker, and then it is done. No later look changes that.
pub proof fn law_run_of_a_shutdown(
    workers: usize,
    looks: Seq<bool>,
    plans: Seq<Shutdown>,
    slept: int,
    i: int,
)
    requires
        plans.len() == looks.len(),
        0 <= i < looks.len(),
        plans[0] == Shutdown::begin(workers),
        forall|n: int|
            0 <= n < looks.len() - 1 ==> plans[n + 1] == plans[n].after(#[trigger] looks[n]),
        0 <= slept <= 10000,
        slept <= looks.len(),
        forall|n: int| 0 <= n < slept ==> !#[trigger] looks[n],
        slept == 10000 || slept == looks.len() || looks[slept],
    ensures
        plans[i].action(looks[i]) == (if i < slept {
            ShutdownAction::Sleep
        } else if i < slept + workers {
            ShutdownAction::Signal
        } else if i < slept + 2 * workers {
            ShutdownAction::Join
        } else {
            ShutdownAction::Done
        }),
{
    lemma_plan_in_a_run(workers, looks, plans, slept, i);
}

proof fn lemma_plan_in_a_run(
    workers: usize,
    looks: Seq<bool>,
    plans: Seq<Shutdown>,
    slept: int,
    i: int,
)
    requires
        plans.len() == looks.len(),
        0 <= i < looks.len(),
        plans[0] == Shutdown::begin(workers),
        forall|n: int|
            0 <= n < looks.len() - 1 ==> plans[n + 1] == plans[n].after(#[trigger] looks[n]),
        0 <= slept <= 10000,
        slept <= looks.len(),
        forall|n: int| 0 <= n < slept ==> !#[trigger] looks[n],
        slept == 10000 || slept == looks.len() || looks[slept],
    ensures
        plans[i].waiting <==> i <= slept,
        plans[i].polls == (if i <= slept {
            i
        } else {
            slept
        }),
        plans[i].unsignalled == (if i <= slept {
            workers as int
        } else if i <= slept + workers {
            workers - (i - slept)
        } else {
            0
        }),
        plans[i].unjoined == (if i <= slept + workers {
            workers as int
        } else if i <= slept + 2 * workers {
            2 * workers - (i - slept)
        } else {
            0
        }),
    decreases i,
{
    if i > 0 {
        lemma_plan_in_a_run(workers, looks, plans, slept, i - 1);
        assert(plans[i - 1 + 1] == plans[i - 1].after(looks[i - 1]));
    }
}

/// The counter of a pool differs from the number of jobs that are not finished by whole ranges of a
/// word.
pub proof fn law_counter_of_a_pool(pool: ThreadPool)
    requires
        pool.wf(),
    ensures
        0 <= pool.counted() <= usize::MAX,
        exists|rounds: int|
            0 <= rounds && pool.sent() - pool.finished() == pool.counted() + #[trigger] (rounds * (
            usize::MAX + 1)),
{
    let n = pool.sent() - pool.finished();
    let m = usize::MAX + 1;
    lemma_wrapped_step(n);
    div_mod::lemma_fundamental_div_mod(n, m);
    div_mod::lemma_div_pos_is_pos(n, m);
    assert(m * (n / m) == (n / m) * m) by (nonlinear_arith);
    assert(n == pool.counted() + (n / m) * m);
}

/// One step, from wherever an end stands: it sleeps just while it waits, the pool is not drained and
/// it has not slept 10000 times; nobody is waited for before everybody was told to stop, and it is
/// done only when nobody is left for either. Each step is counted once, and nothing else changes.
pub proof fn law_one_step_of_a_shutdown(plan: Shutdown, drained: bool)
    ensures
        ({
            let action = plan.action(drained);
            let after = plan.after(drained);
            let one = |happened: bool| if happened { 1int } else { 0int };
            &&& action is Sleep <==> plan.waiting && plan.polls < 10000 && !drained
            &&& action is Signal ==> plan.unsignalled > 0
            &&& action is Join ==> plan.unsignalled == 0 && plan.unjoined > 0
            &&& action is Done ==> plan.unsignalled == 0 && plan.unjoined == 0
            &&& after.waiting <==> action is Sleep
            &&& after.polls == plan.polls + one(action is Sleep)
            &&& after.unsignalled == plan.unsignalled - one(action is Signal)
            &&& after.unjoined == plan.unjoined - one(action is Join)
        }),
{
}

} // verus!
