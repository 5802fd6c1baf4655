//! The steps of one run on a named view, as a state machine: the caller
//! performs each action and reports what happened.
use vstd::prelude::*;

verus! {

/// How far a run on one view has come.
#[derive(Debug, Clone, Copy, PartialEq, Eq, Structural)]
pub enum Phase {
    /// Nothing done yet.
    Start,
    /// The masking, merged-view and scratch directories exist.
    DirectoriesCreated,
    /// The merged view was found mounted and must be unmounted.
    StaleMount,
    /// No mount is active at the merged view.
    Cleared,
    /// The masking directory has been reconciled.
    Reconciled,
    /// The merged view is mounted: the run is complete.
    Mounted,
}

/// What the caller reports after performing an action.
#[derive(Debug, Clone, Copy, PartialEq, Eq, Structural)]
pub enum Event {
    /// The three directories were created, or already existed.
    DirectoriesCreated,
    /// The mount table was read; `true` when it lists the merged view.
    MountQueried(bool),
    /// The merged view was unmounted.
    Unmounted,
    /// The masking directory was reconciled.
    Reconciled,
    /// The merged view was mounted.
    Mounted,
}

/// What the caller is to do next.
#[derive(Debug, Clone, Copy, PartialEq, Eq, Structural)]
pub enum Action {
    CreateDirectories,
    QueryMount,
    Unmount,
    Reconcile,
    Mount,
    Finish,
}

/// The state of a run: its phase, whether a prior mount was found, and how
/// many unmounts have been performed.
#[derive(Debug, Clone, Copy, PartialEq, Eq, Structural)]
pub struct Session {
    pub phase: Phase,
    pub prior_mount: bool,
    pub unmounts: u8,
}

/// The action that belongs to a phase.
pub open spec fn action_of(phase: Phase) -> Action {
    match phase {
        Phase::Start => Action::CreateDirectories,
        Phase::DirectoriesCreated => Action::QueryMount,
        Phase::StaleMount => Action::Unmount,
        Phase::Cleared => Action::Reconcile,
        Phase::Reconciled => Action::Mount,
        Phase::Mounted => Action::Finish,
    }
}

/// The state after `event`; an event that does not answer the pending action
/// leaves the state as it is.
pub open spec fn next_state(s: Session, event: Event) -> Session {
    match (s.phase, event) {
        (Phase::Start, Event::DirectoriesCreated) => Session { phase: Phase::DirectoriesCreated, ..s },
        (Phase::DirectoriesCreated, Event::MountQueried(true)) => Session {
            phase: Phase::StaleMount,
            prior_mount: true,
            ..s
        },
        (Phase::DirectoriesCreated, Event::MountQueried(false)) => Session { phase: Phase::Cleared, ..s },
        (Phase::StaleMount, Event::Unmounted) => Session {
            phase: Phase::Cleared,
            unmounts: (s.unmounts + 1) as u8,
            ..s
        },
        (Phase::Cleared, Event::Reconciled) => Session { phase: Phase::Reconciled, ..s },
        (Phase::Reconciled, Event::Mounted) => Session { phase: Phase::Mounted, ..s },
        _ => s,
    }
}

/// The state after a sequence of events, starting from a fresh run.
pub open spec fn run(events: Seq<Event>) -> Session
    decreases events.len(),
{
    if events.len() == 0 {
        Session { phase: Phase::Start, prior_mount: false, unmounts: 0 }
    } else {
        next_state(run(events.drop_last()), events.last())
    }
}

impl Session {
    /// Before the check of the mount table no mount is known and none was
    /// removed; once past it, exactly one unmount was made if a mount was found,
    /// and none otherwise.
    pub open spec fn wf(&self) -> bool {
        match self.phase {
            Phase::Start | Phase::DirectoriesCreated => !self.prior_mount && self.unmounts == 0,
            Phase::StaleMount => self.prior_mount && self.unmounts == 0,
            _ => self.unmounts == (if self.prior_mount { 1u8 } else { 0u8 }),
        }
    }

    /// A fresh run.
    pub fn new() -> (r: Session)
        ensures
            r.wf(),
            r == run(Seq::empty()),
    {
        Session { phase: Phase::Start, prior_mount: false, unmounts: 0 }
    }

    /// The action the caller is to perform next.
    pub fn next_action(&self) -> (r: Action)
        ensures
            r == action_of(self.phase),
    {
        match self.phase {
            Phase::Start => Action::CreateDirectories,
            Phase::DirectoriesCreated => Action::QueryMount,
            Phase::StaleMount => Action::Unmount,
            Phase::Cleared => Action::Reconcile,
            Phase::Reconciled => Action::Mount,
            Phase::Mounted => Action::Finish,
        }
    }

    /// Records `event`; the result says whether it answered the pending action.
    pub fn record(&mut self, event: Event) -> (r: bool)
        requires
            old(self).wf(),
        ensures
            final(self).wf(),
            *final(self) == next_state(*old(self), event),
            r == (*final(self) != *old(self)),
    {
        match (self.phase, event) {
            (Phase::Start, Event::DirectoriesCreated) => {
                self.phase = Phase::DirectoriesCreated;
                true
            },
            (Phase::DirectoriesCreated, Event::MountQueried(found)) => {
                if found {
                    self.phase = Phase::StaleMount;
                    self.prior_mount = true;
                } else {
                    self.phase = Phase::Cleared;
                }
                true
            },
            (Phase::StaleMount, Event::Unmounted) => {
                self.phase = Phase::Cleared;
                self.unmounts = self.unmounts + 1;
                true
            },
            (Phase::Cleared, Event::Reconciled) => {
                self.phase = Phase::Reconciled;
                true
            },
            (Phase::Reconciled, Event::Mounted) => {
                self.phase = Phase::Mounted;
                true
            },
            _ => false,
        }
    }
}

/// Every state that a run can reach is well formed.
pub proof fn lemma_run_wf(events: Seq<Event>)
    ensures
        run(events).wf(),
    decreases events.len(),
{
    if events.len() > 0 {
        lemma_run_wf(events.drop_last());
    }
}

/// Whatever the events, a mount is asked for or established only after the
/// stale mount that was found, if any, has been unmounted, and then exactly once;
/// without a stale mount there is no unmount.
pub proof fn lemma_unmount_before_mount(events: Seq<Event>)
    ensures
        ({
            let s = run(events);
            (action_of(s.phase) == Action::Mount || s.phase == Phase::Mounted) ==> (
            s.unmounts == if s.prior_mount {
                1u8
            } else {
                0u8
            })
        }),
        run(events).unmounts <= 1,
{
    lemma_run_wf(events);
}

} // verus!
