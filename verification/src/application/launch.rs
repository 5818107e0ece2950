//! How a launch goes on, and what becomes of one that fails.
//!
//! A launch opens the file of the application, links it, installs the link, starts
//! the main thread and lets it join. A launch that fails before its link is
//! installed gives back all that it holds. One that fails later leaves an
//! application that no thread runs: it is drained, and its destructors are skipped.

use crate::application::group::GroupState;
use crate::application::manager::{ApplicationHandle, ApplicationLaunchError};
use crate::application::publication::KernelLinkReceipt;
use crate::application::reaper::{decided, GroupPhase, ReapDecision};
use crate::application::registry::{
    RegistryView, SystemDsoLease, SystemDsoRegistry, SystemInitBatch,
};
use crate::application::registry_init::failed_all;
use crate::application::resolver::{drop_leases, leases_dropped};
use crate::dynamic_linker::publish::LinkProduct;
use crate::memory::AllocationLease;
use vstd::prelude::*;

verus! {

/// A step of a launch.
#[derive(Clone, Copy, Debug, Eq, PartialEq, Structural)]
pub enum LaunchStep {
    /// Open the file of the application.
    Open,
    /// Link it with what it needs.
    Link,
    /// Install the link.
    Install,
    /// Start the main thread.
    Start,
    /// Let the main thread join.
    Join,
    /// Nothing is left to do.
    Running,
}

/// What to do after a step of a launch.
#[derive(Clone, Copy, Debug, Eq, PartialEq, Structural)]
pub enum LaunchAction {
    Go(LaunchStep),
    /// Give back what the launch holds; the launch has failed.
    Cancel,
    /// Drain the application without its destructors; the launch has failed.
    Drain,
}

/// The step after `at`.
pub open spec fn step_after(at: LaunchStep) -> LaunchStep {
    match at {
        LaunchStep::Open => LaunchStep::Link,
        LaunchStep::Link => LaunchStep::Install,
        LaunchStep::Install => LaunchStep::Start,
        LaunchStep::Start => LaunchStep::Join,
        LaunchStep::Join => LaunchStep::Running,
        LaunchStep::Running => LaunchStep::Running,
    }
}

/// What follows a step that was done, or that failed.
pub open spec fn action_after(at: LaunchStep, done: bool) -> LaunchAction {
    if done {
        LaunchAction::Go(step_after(at))
    } else if at is Open || at is Link || at is Install {
        LaunchAction::Cancel
    } else {
        LaunchAction::Drain
    }
}

/// What follows a step that was done, or that failed.
pub fn launch_step(at: LaunchStep, done: bool) -> (r: LaunchAction)
    ensures
        done ==> r == LaunchAction::Go(step_after(at)),
        !done ==> r == (if at is Open || at is Link || at is Install {
            LaunchAction::Cancel
        } else {
            LaunchAction::Drain
        }),
        r == action_after(at, done),
{
    if !done {
        return match at {
            LaunchStep::Open | LaunchStep::Link | LaunchStep::Install => LaunchAction::Cancel,
            LaunchStep::Start | LaunchStep::Join | LaunchStep::Running => LaunchAction::Drain,
        };
    }
    LaunchAction::Go(
        match at {
            LaunchStep::Open => LaunchStep::Link,
            LaunchStep::Link => LaunchStep::Install,
            LaunchStep::Install => LaunchStep::Start,
            LaunchStep::Start => LaunchStep::Join,
            LaunchStep::Join => LaunchStep::Running,
            LaunchStep::Running => LaunchStep::Running,
        },
    )
}

/// What a launch that has come to an end tells. There is one failure, whatever
/// failed.
pub fn launch_result(action: LaunchAction) -> (r: Option<Result<(), ApplicationLaunchError>>)
    ensures
        r == (match action {
            LaunchAction::Go(LaunchStep::Running) => Some(Ok::<(), ApplicationLaunchError>(())),
            LaunchAction::Go(_) => None,
            LaunchAction::Cancel | LaunchAction::Drain => Some(
                Err::<(), ApplicationLaunchError>(ApplicationLaunchError::PrepareFailed),
            ),
        }),
{
    match action {
        LaunchAction::Go(LaunchStep::Running) => Some(Ok(())),
        LaunchAction::Go(_) => None,
        LaunchAction::Cancel | LaunchAction::Drain => Some(
            Err(ApplicationLaunchError::PrepareFailed),
        ),
    }
}

/// An application that was launched and will have to be reaped.
pub struct LaunchedApplication {
    pub handle: ApplicationHandle,
    /// Whether its threads were told to leave.
    pub draining: bool,
    /// Whether its destructors ran or never will.
    pub fini_resolved: bool,
    /// The libraries that it loaded and that were never initialized.
    pub batch: Option<SystemInitBatch>,
    /// The libraries that it imports.
    pub leases: Vec<SystemDsoLease>,
}

/// The registry without what an application holds of it: the libraries that it
/// loaded have failed, and it uses none any more.
pub open spec fn given_back<D>(view: RegistryView<D>, application: LaunchedApplication) -> RegistryView<
    D,
> {
    let failed = match application.batch {
        Some(batch) => failed_all(
            view,
            batch.slots@,
            batch.generations@,
            batch.slots@.len() as int,
        ),
        None => view,
    };
    leases_dropped(failed, application.leases@, application.leases@.len() as int)
}

impl LaunchedApplication {
    /// Whether the libraries that it loaded are a valid set.
    pub open spec fn wf(self) -> bool {
        self.batch matches Some(batch) ==> batch.wf()
    }

    /// Whether it holds nothing of the registry.
    pub open spec fn holds_nothing(self) -> bool {
        self.batch is None && self.leases@.len() == 0
    }

    /// An application that holds nothing yet.
    pub fn new(handle: ApplicationHandle) -> (r: Self)
        ensures
            r.handle == handle,
            !r.draining,
            !r.fini_resolved,
            r.holds_nothing(),
            r.wf(),
    {
        LaunchedApplication {
            handle,
            draining: false,
            fini_resolved: false,
            batch: None,
            leases: Vec::new(),
        }
    }

    /// Gives back all that the application holds, which has no link installed. What
    /// is returned is the memory of its own images, to be released; the memory of the
    /// libraries that it loaded stays with the registry until the reaper takes it.
    pub fn cancel<D>(
        &mut self,
        registry: &mut SystemDsoRegistry<D>,
        product: Option<LinkProduct<KernelLinkReceipt>>,
    ) -> (r: Vec<AllocationLease>)
        requires
            old(self).wf(),
        ensures
            final(self).holds_nothing(),
            final(self).wf(),
            *final(self) == (LaunchedApplication {
                batch: None,
                leases: final(self).leases,
                ..*old(self)
            }),
            final(registry)@ == given_back(old(registry)@, *old(self)),
            r@ == (match product {
                Some(product) => product.publication.private_allocations@,
                None => Seq::empty(),
            }),
    {
        let batch: Option<SystemInitBatch> = self.batch.take();
        if let Some(batch) = batch {
            registry.fail_initialization_batch(batch);
        }
        let mut leases: Vec<SystemDsoLease> = Vec::new();
        core::mem::swap(&mut self.leases, &mut leases);
        drop_leases(registry, leases);
        match product {
            Some(product) => product.publication.private_allocations,
            None => Vec::new(),
        }
    }

    /// No thread runs the application any more, and none will run its destructors.
    pub fn drain(&mut self)
        ensures
            *final(self) == (LaunchedApplication {
                draining: true,
                fini_resolved: true,
                ..*old(self)
            }),
    {
        self.draining = true;
        self.fini_resolved = true;
    }

    /// How far the group of an application has come for the reaper.
    pub open spec fn phase_of(self, state: GroupState) -> GroupPhase {
        match state {
            GroupState::New => GroupPhase::New,
            GroupState::Linked => if self.draining {
                GroupPhase::Draining
            } else {
                GroupPhase::Linked
            },
        }
    }

    /// How far the group of the application has come for the reaper.
    pub fn phase(&self, state: GroupState) -> (r: GroupPhase)
        ensures
            r == self.phase_of(state),
    {
        match state {
            GroupState::New => GroupPhase::New,
            GroupState::Linked => {
                if self.draining {
                    GroupPhase::Draining
                } else {
                    GroupPhase::Linked
                }
            },
        }
    }
}

/// Where a launch ends that goes on from `at` and whose steps turn out like this.
pub open spec fn launch_ended(at: LaunchStep, outcomes: Seq<bool>) -> LaunchAction
    decreases outcomes.len(),
{
    if at is Running || outcomes.len() == 0 {
        LaunchAction::Go(at)
    } else {
        match action_after(at, outcomes[0]) {
            LaunchAction::Go(next) => launch_ended(next, outcomes.drop_first()),
            failure => failure,
        }
    }
}

/// An application runs exactly if every step of its launch was done. A launch that
/// failed before its link was installed is cancelled, and one that failed later is
/// drained, whatever would have come of its further steps.
pub proof fn launches_run_or_leave_nothing(outcomes: Seq<bool>)
    requires
        outcomes.len() == 5,
    ensures
        launch_ended(LaunchStep::Open, outcomes) == LaunchAction::Go(LaunchStep::Running) <==> (
        forall|i: int| 0 <= i < 5 ==> #[trigger] outcomes[i]),
        launch_ended(LaunchStep::Open, outcomes) == LaunchAction::Cancel <==> !(outcomes[0]
            && outcomes[1] && outcomes[2]),
        launch_ended(LaunchStep::Open, outcomes) == LaunchAction::Drain <==> outcomes[0]
            && outcomes[1] && outcomes[2] && !(outcomes[3] && outcomes[4]),
{
    reveal_with_fuel(launch_ended, 6);
    let a = outcomes.drop_first();
    let b = a.drop_first();
    let c = b.drop_first();
    let d = c.drop_first();
    assert(a[0] == outcomes[1]);
    assert(b[0] == outcomes[2]);
    assert(c[0] == outcomes[3]);
    assert(d[0] == outcomes[4]);
}

/// An application that is drained is reaped as soon as no thread is in it: no exit is
/// waited for, and no destructor runs. One that was cancelled before its link was
/// installed has nothing to reap but its slot.
pub proof fn failed_launches_are_reaped(before: LaunchedApplication, after: LaunchedApplication)
    requires
        after == (LaunchedApplication { draining: true, fini_resolved: true, ..before }),
    ensures
        decided(after.phase_of(GroupState::Linked), true, after.fini_resolved) == (
        ReapDecision::Reap { begin_exit: false, skip_fini: false }),
        decided(before.phase_of(GroupState::New), true, before.fini_resolved)
            == ReapDecision::Recycle,
{
}

} // verus!
