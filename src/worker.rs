//! The life of a watcher task, from running through draining to done, and
//! the wait for every watcher to report that it is done.

use vstd::prelude::*;

verus! {

/// Where a watcher task stands.
#[derive(Debug, Clone, Copy, PartialEq, Eq, Structural)]
pub enum WorkerPhase {
    /// Taking runtime events.
    Running,
    /// Shutdown was signalled; finishing the pass in flight.
    Draining,
    /// Finished; completion reported.
    Done,
}

/// What a watcher task observes between two waits.
#[derive(Debug, Clone, Copy, PartialEq, Eq, Structural)]
pub enum LifecycleInput {
    /// A container started or stopped.
    ContainerChanged,
    /// The reconciliation pass in flight has finished.
    PassFinished,
    /// The process-wide shutdown signal arrived.
    ShutdownSignal,
    /// The runtime's event stream ended.
    StreamClosed,
}

/// What a watcher task does next.
#[derive(Debug, Clone, Copy, PartialEq, Eq, Structural)]
pub enum LifecycleAction {
    /// Run a reconciliation pass.
    StartPass,
    /// Wait for the next input.
    Wait,
    /// Report completion to the process; the task then ends.
    ReportDone,
}

/// The state of one watcher task.
#[derive(Debug, Clone, Copy, PartialEq, Eq, Structural)]
pub struct Lifecycle {
    pub phase: WorkerPhase,
    /// A reconciliation pass is running.
    pub in_flight: bool,
    /// A change arrived during the pass in flight: another pass follows it.
    pub pending: bool,
}

/// A done task runs no pass; a draining task waits for its pass; only a
/// running task holds a change back.
pub open spec fn lifecycle_wf(s: Lifecycle) -> bool {
    &&& s.phase == WorkerPhase::Done ==> !s.in_flight
    &&& s.phase == WorkerPhase::Draining ==> s.in_flight
    &&& s.pending ==> s.in_flight && s.phase == WorkerPhase::Running
}

/// The next state and action of a task in `s` that observes `input`.
pub open spec fn spec_step(s: Lifecycle, input: LifecycleInput) -> (Lifecycle, LifecycleAction) {
    let done = Lifecycle { phase: WorkerPhase::Done, in_flight: false, pending: false };
    match s.phase {
        WorkerPhase::Done => (s, LifecycleAction::Wait),
        WorkerPhase::Draining => match input {
            LifecycleInput::PassFinished => (done, LifecycleAction::ReportDone),
            _ => (s, LifecycleAction::Wait),
        },
        WorkerPhase::Running => match input {
            LifecycleInput::ContainerChanged => if s.in_flight {
                (Lifecycle { phase: s.phase, in_flight: true, pending: true }, LifecycleAction::Wait)
            } else {
                (Lifecycle { phase: s.phase, in_flight: true, pending: false }, LifecycleAction::StartPass)
            },
            LifecycleInput::PassFinished => if s.pending {
                (Lifecycle { phase: s.phase, in_flight: true, pending: false }, LifecycleAction::StartPass)
            } else {
                (Lifecycle { phase: s.phase, in_flight: false, pending: false }, LifecycleAction::Wait)
            },
            _ => if s.in_flight {
                (
                    Lifecycle { phase: WorkerPhase::Draining, in_flight: true, pending: false },
                    LifecycleAction::Wait,
                )
            } else {
                (done, LifecycleAction::ReportDone)
            },
        },
    }
}

impl Lifecycle {
    /// A task that has just started: running, with no pass in flight.
    pub fn new() -> (r: Self)
        ensures
            r == (Lifecycle { phase: WorkerPhase::Running, in_flight: false, pending: false }),
            lifecycle_wf(r),
    {
        Lifecycle { phase: WorkerPhase::Running, in_flight: false, pending: false }
    }

    /// Takes one input and says what to do next.
    pub fn step(&mut self, input: LifecycleInput) -> (a: LifecycleAction)
        requires
            lifecycle_wf(*old(self)),
        ensures
            (*final(self), a) == spec_step(*old(self), input),
            lifecycle_wf(*final(self)),
    {
        match self.phase {
            WorkerPhase::Done => LifecycleAction::Wait,
            WorkerPhase::Draining => match input {
                LifecycleInput::PassFinished => {
                    *self = Lifecycle { phase: WorkerPhase::Done, in_flight: false, pending: false };
                    LifecycleAction::ReportDone
                },
                _ => LifecycleAction::Wait,
            },
            WorkerPhase::Running => match input {
                LifecycleInput::ContainerChanged => {
                    if self.in_flight {
                        self.pending = true;
                        LifecycleAction::Wait
                    } else {
                        self.in_flight = true;
                        LifecycleAction::StartPass
                    }
                },
                LifecycleInput::PassFinished => {
                    if self.pending {
                        self.pending = false;
                        LifecycleAction::StartPass
                    } else {
                        self.in_flight = false;
                        LifecycleAction::Wait
                    }
                },
                _ => {
                    if self.in_flight {
                        *self = Lifecycle { phase: WorkerPhase::Draining, in_flight: true, pending: false };
                        LifecycleAction::Wait
                    } else {
                        *self = Lifecycle { phase: WorkerPhase::Done, in_flight: false, pending: false };
                        LifecycleAction::ReportDone
                    }
                },
            },
        }
    }
}

/// The state after the inputs, taken in order.
pub open spec fn run(s: Lifecycle, inputs: Seq<LifecycleInput>) -> Lifecycle
    decreases inputs.len(),
{
    if inputs.len() == 0 {
        s
    } else {
        spec_step(run(s, inputs.drop_last()), inputs.last()).0
    }
}

/// How many times completion is reported along the inputs.
pub open spec fn reports(s: Lifecycle, inputs: Seq<LifecycleInput>) -> nat
    decreases inputs.len(),
{
    if inputs.len() == 0 {
        0
    } else {
        reports(s, inputs.drop_last()) + if spec_step(run(s, inputs.drop_last()), inputs.last()).1
            == LifecycleAction::ReportDone {
            1nat
        } else {
            0nat
        }
    }
}

/// Whatever a task observes, it reports completion exactly once if it ends
/// done having started otherwise, and never else; it stays well formed.
pub proof fn lemma_done_reported_once(s: Lifecycle, inputs: Seq<LifecycleInput>)
    requires
        lifecycle_wf(s),
    ensures
        lifecycle_wf(run(s, inputs)),
        s.phase == WorkerPhase::Done ==> run(s, inputs) == s,
        reports(s, inputs) == (if s.phase != WorkerPhase::Done && run(s, inputs).phase
            == WorkerPhase::Done {
            1nat
        } else {
            0nat
        }),
    decreases inputs.len(),
{
    if inputs.len() > 0 {
        lemma_done_reported_once(s, inputs.drop_last());
    }
}

/// Once the shutdown signal is observed, a task is done as soon as the pass
/// in flight, if any, has finished; and it starts no pass after the signal.
pub proof fn lemma_shutdown_drains(s: Lifecycle, input: LifecycleInput)
    requires
        lifecycle_wf(s),
    ensures
        ({
            let t = spec_step(s, LifecycleInput::ShutdownSignal).0;
            &&& t.phase == WorkerPhase::Done || t.phase == WorkerPhase::Draining
            &&& spec_step(t, LifecycleInput::PassFinished).0.phase == WorkerPhase::Done
            &&& spec_step(t, input).1 != LifecycleAction::StartPass
        }),
{
}

#[verifier::external_type_specification]
#[verifier::external_body]
#[verifier::reject_recursive_types(T)]
pub struct ExBroadcastReceiver<T>(tokio::sync::broadcast::Receiver<T>);

#[verifier::external_type_specification]
#[verifier::external_body]
#[verifier::reject_recursive_types(T)]
pub struct ExOneshotSender<T>(tokio::sync::oneshot::Sender<T>);

/// Relies on tokio's `oneshot::Sender::send`: it fails, handing the value
/// back, when the receiver is gone.
pub assume_specification<T>[ tokio::sync::oneshot::Sender::<T>::send ](
    sender: tokio::sync::oneshot::Sender<T>,
    t: T,
) -> (r: Result<(), T>)
    ensures
        r matches Err(v) ==> v == t,
;

/// Why a watcher could not report completion.
#[derive(Debug, Clone, Copy, PartialEq, Eq, Structural)]
pub enum WorkerError {
    /// Nobody waits for the report any more.
    CompletionUnheard,
}

/// What a watcher task is handed at startup: where the shutdown signal comes
/// from, and where completion is reported.
pub struct WorkerHandle {
    pub shutdown_rx: Option<tokio::sync::broadcast::Receiver<()>>,
    pub wait_worker_tx: tokio::sync::oneshot::Sender<()>,
}

impl WorkerHandle {
    pub fn new(
        shutdown_rx: tokio::sync::broadcast::Receiver<()>,
        wait_worker_tx: tokio::sync::oneshot::Sender<()>,
    ) -> (r: Self)
        ensures
            r.shutdown_rx == Some(shutdown_rx),
            r.wait_worker_tx == wait_worker_tx,
    {
        WorkerHandle { shutdown_rx: Some(shutdown_rx), wait_worker_tx }
    }

    /// Reports completion, consuming the handle.
    pub fn done(self) -> (r: Result<(), WorkerError>)
        ensures
            r is Err ==> r == Err::<(), WorkerError>(WorkerError::CompletionUnheard),
    {
        match self.wait_worker_tx.send(()) {
            Ok(()) => Ok(()),
            Err(_) => Err(WorkerError::CompletionUnheard),
        }
    }

    /// Hands out the shutdown receiver; it can be taken once.
    pub fn signal(&mut self) -> (r: tokio::sync::broadcast::Receiver<()>)
        requires
            old(self).shutdown_rx is Some,
        ensures
            r == old(self).shutdown_rx->Some_0,
            final(self).shutdown_rx is None,
            final(self).wait_worker_tx == old(self).wait_worker_tx,
    {
        self.shutdown_rx.take().unwrap()
    }
}

/// Which watchers have reported completion.
pub struct CompletionTracker {
    reported: Vec<bool>,
}

impl View for CompletionTracker {
    type V = Seq<bool>;

    closed spec fn view(&self) -> Seq<bool> {
        self.reported@
    }
}

impl CompletionTracker {
    /// No report yet from any of `workers` watchers.
    pub fn new(workers: usize) -> (r: Self)
        ensures
            r@.len() == workers,
            forall|i: int| 0 <= i < workers ==> !(#[trigger] r@[i]),
    {
        let mut reported: Vec<bool> = Vec::new();
        let mut i: usize = 0;
        while i < workers
            invariant
                i <= workers,
                reported@.len() == i,
                forall|k: int| 0 <= k < i ==> !(#[trigger] reported@[k]),
            decreases workers - i,
        {
            reported.push(false);
            i = i + 1;
        }
        CompletionTracker { reported }
    }

    /// Records the report of watcher `worker`; whether it is its first.
    pub fn report(&mut self, worker: usize) -> (first: bool)
        requires
            worker < old(self)@.len(),
        ensures
            final(self)@ == old(self)@.update(worker as int, true),
            first == !old(self)@[worker as int],
    {
        let first = !self.reported[worker];
        self.reported.set(worker, true);
        first
    }

    /// Whether every watcher has reported: the process may exit only then.
    pub fn all_reported(&self) -> (r: bool)
        ensures
            r == forall|i: int| 0 <= i < self@.len() ==> #[trigger] self@[i],
    {
        let mut i: usize = 0;
        while i < self.reported.len()
            invariant
                i <= self.reported@.len(),
                forall|k: int| 0 <= k < i ==> #[trigger] self.reported@[k],
            decreases self.reported.len() - i,
        {
            if !self.reported[i] {
                assert(!self@[i as int]);
                return false;
            }
            i = i + 1;
        }
        true
    }
}

/// Which of `workers` watchers have reported after the reports, in order.
pub open spec fn after_reports(workers: nat, reports: Seq<usize>) -> Seq<bool>
    decreases reports.len(),
{
    if reports.len() == 0 {
        Seq::new(workers, |i: int| false)
    } else {
        let before = after_reports(workers, reports.drop_last());
        if reports.last() < workers {
            before.update(reports.last() as int, true)
        } else {
            before
        }
    }
}

/// A watcher counts as reported exactly when one of the reports is its own:
/// the wait ends only once every watcher has reported, however often and in
/// whatever order they report.
pub proof fn lemma_wait_needs_every_report(workers: nat, reports: Seq<usize>)
    ensures
        after_reports(workers, reports).len() == workers,
        forall|i: int|
            0 <= i < workers ==> (#[trigger] after_reports(workers, reports)[i] <==> exists|k: int|
                0 <= k < reports.len() && reports[k] == i),
    decreases reports.len(),
{
    if reports.len() > 0 {
        let rest = reports.drop_last();
        lemma_wait_needs_every_report(workers, rest);
        assert forall|i: int|
            0 <= i < workers implies (#[trigger] after_reports(workers, reports)[i] <==> exists|k: int|
                0 <= k < reports.len() && reports[k] == i) by {
            if exists|k: int| 0 <= k < rest.len() && rest[k] == i {
                let k = choose|k: int| 0 <= k < rest.len() && rest[k] == i;
                assert(reports[k] == i);
            }
            if exists|k: int| 0 <= k < reports.len() && reports[k] == i {
                let k = choose|k: int| 0 <= k < reports.len() && reports[k] == i;
                if k < rest.len() {
                    assert(rest[k] == i);
                }
            }
        }
    }
}

} // verus!
