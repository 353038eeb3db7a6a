//! The per-package publish state machine.
//!
//! The caller drives it: it performs the action the machine asks for (ask
//! the registry, publish, wait), hands back what happened as an event, and
//! receives the next action. Packages are taken strictly in plan order.

use crate::graph::{views, CrateInfo, CrateView};
use vstd::prelude::*;

verus! {

/// Seconds to wait between two visibility checks of one package.
pub const POLL_INTERVAL_SECS: u64 = 2;

/// How a publish run is carried out.
#[derive(Debug)]
pub struct PublishConfig {
    /// The release version every package should carry in aligned mode.
    pub target_version: String,
    /// Abort when a package's version is not the target version.
    pub aligned_versions_only: bool,
    /// Publish without waiting for packages to become visible.
    pub dry_run: bool,
    /// How many visibility checks to make after publishing a package.
    pub verify_upload_retries: u8,
}

/// Why a publish run stopped.
#[derive(Debug)]
pub enum PublishError {
    /// In aligned mode, the package at this plan position has another version.
    Misaligned { index: usize },
    /// Publishing the package at this plan position failed with this output.
    PublishFailed { index: usize, message: String },
}

/// What the caller is to do next.
#[derive(Debug)]
pub enum Action {
    /// Ask the registry whether the package at `index` is already there.
    CheckUploaded { index: usize },
    /// Publish the package at `index`.
    Publish { index: usize },
    /// Ask the registry whether the package at `index` has become visible;
    /// this is check number `attempt`, counting from one.
    PollUploaded { index: usize, attempt: u8 },
    /// Wait the poll interval after failed check number `attempt`.
    Wait { index: usize, attempt: u8 },
    /// Every package of the plan has been handled.
    Finished,
    /// The run stops with this error.
    Abort(PublishError),
}

/// What happened when the caller performed an action.
#[derive(Debug)]
pub enum Event {
    /// The registry's answer to a check.
    Uploaded(bool),
    /// The package was published.
    Published,
    /// Publishing failed with this diagnostic output.
    PublishFailed(String),
    /// The wait is over.
    Waited,
}

/// The action that starts work on the package after `index`.
pub open spec fn after(len: nat, index: usize) -> Action {
    if index + 1 >= len {
        Action::Finished
    } else {
        Action::CheckUploaded { index: (index + 1) as usize }
    }
}

/// The first action for a plan of `len` packages once versions are known good.
pub open spec fn first(len: nat) -> Action {
    if len == 0 {
        Action::Finished
    } else {
        Action::CheckUploaded { index: 0 }
    }
}

/// In aligned mode, some package's version differs from the target.
pub open spec fn misaligned_at(plan: Seq<CrateView>, target: Seq<char>, i: int) -> bool {
    0 <= i < plan.len() && plan[i].version != target
}

pub open spec fn any_misaligned(plan: Seq<CrateView>, target: Seq<char>) -> bool {
    exists|i: int| misaligned_at(plan, target, i)
}

/// The transition of the machine: the action that follows `a` when `e`
/// happened. An event that does not answer `a` leaves it unchanged.
pub open spec fn next_spec(len: nat, cfg: PublishConfig, a: Action, e: Event) -> Action {
    match a {
        Action::CheckUploaded { index } => match e {
            Event::Uploaded(true) => after(len, index),
            Event::Uploaded(false) => Action::Publish { index },
            _ => a,
        },
        Action::Publish { index } => match e {
            Event::Published => if cfg.dry_run || cfg.verify_upload_retries == 0 {
                after(len, index)
            } else {
                Action::PollUploaded { index, attempt: 1 }
            },
            Event::PublishFailed(m) => Action::Abort(PublishError::PublishFailed { index, message: m }),
            _ => a,
        },
        Action::PollUploaded { index, attempt } => match e {
            Event::Uploaded(true) => after(len, index),
            Event::Uploaded(false) => if attempt >= cfg.verify_upload_retries {
                after(len, index)
            } else {
                Action::Wait { index, attempt }
            },
            _ => a,
        },
        Action::Wait { index, attempt } => match e {
            Event::Waited => if attempt < cfg.verify_upload_retries {
                Action::PollUploaded { index, attempt: (attempt + 1) as u8 }
            } else {
                after(len, index)
            },
            _ => a,
        },
        Action::Finished => a,
        Action::Abort(_) => a,
    }
}

fn after_exec(len: usize, index: usize) -> (r: Action)
    ensures
        r == after(len as nat, index),
{
    if index >= len || len - index == 1 {
        Action::Finished
    } else {
        Action::CheckUploaded { index: index + 1 }
    }
}

/// The first action of a run over `plan`. In aligned mode a package whose
/// version is not the target aborts the run before anything is published;
/// the error names the first such package.
pub fn start(plan: &Vec<CrateInfo>, cfg: &PublishConfig) -> (r: Action)
    ensures
        cfg.aligned_versions_only && any_misaligned(views(plan@), cfg.target_version@)
            ==> (r matches Action::Abort(PublishError::Misaligned { index }) && misaligned_at(
            views(plan@),
            cfg.target_version@,
            index as int,
        ) && forall|j: int| 0 <= j < index ==> !misaligned_at(views(plan@), cfg.target_version@, j)),
        !(cfg.aligned_versions_only && any_misaligned(views(plan@), cfg.target_version@))
            ==> r == first(plan.len() as nat),
{
    if cfg.aligned_versions_only {
        let mut i: usize = 0;
        while i < plan.len()
            invariant
                i <= plan.len(),
                cfg.aligned_versions_only,
                forall|j: int| 0 <= j < i ==> !misaligned_at(views(plan@), cfg.target_version@, j),
            decreases plan.len() - i,
        {
            assert(views(plan@)[i as int] == plan@[i as int]@);
            if !(plan[i].version == cfg.target_version) {
                assert(misaligned_at(views(plan@), cfg.target_version@, i as int));
                assert(any_misaligned(views(plan@), cfg.target_version@));
                return Action::Abort(PublishError::Misaligned { index: i });
            }
            i += 1;
        }
    }
    if plan.len() == 0 {
        Action::Finished
    } else {
        Action::CheckUploaded { index: 0 }
    }
}

/// The action that follows `pending` once `event` happened.
pub fn next(plan: &Vec<CrateInfo>, cfg: &PublishConfig, pending: Action, event: Event) -> (r: Action)
    ensures
        r == next_spec(plan.len() as nat, *cfg, pending, event),
{
    let len = plan.len();
    match pending {
        Action::CheckUploaded { index } => match event {
            Event::Uploaded(true) => after_exec(len, index),
            Event::Uploaded(false) => Action::Publish { index },
            _ => Action::CheckUploaded { index },
        },
        Action::Publish { index } => match event {
            Event::Published => if cfg.dry_run || cfg.verify_upload_retries == 0 {
                after_exec(len, index)
            } else {
                Action::PollUploaded { index, attempt: 1 }
            },
            Event::PublishFailed(m) => Action::Abort(PublishError::PublishFailed { index, message: m }),
            _ => Action::Publish { index },
        },
        Action::PollUploaded { index, attempt } => match event {
            Event::Uploaded(true) => after_exec(len, index),
            Event::Uploaded(false) => if attempt >= cfg.verify_upload_retries {
                after_exec(len, index)
            } else {
                Action::Wait { index, attempt }
            },
            _ => Action::PollUploaded { index, attempt },
        },
        Action::Wait { index, attempt } => match event {
            Event::Waited => if attempt < cfg.verify_upload_retries {
                Action::PollUploaded { index, attempt: attempt + 1 }
            } else {
                after_exec(len, index)
            },
            _ => Action::Wait { index, attempt },
        },
        Action::Finished => Action::Finished,
        Action::Abort(err) => Action::Abort(err),
    }
}

/// The action after `k` rounds of a failed check followed by the wait.
pub open spec fn failed_rounds(len: nat, cfg: PublishConfig, a: Action, k: nat) -> Action
    decreases k,
{
    if k == 0 {
        a
    } else {
        let checked = next_spec(len, cfg, a, Event::Uploaded(false));
        failed_rounds(len, cfg, next_spec(len, cfg, checked, Event::Waited), (k - 1) as nat)
    }
}

/// The action after the events, fed in order.
pub open spec fn drive(len: nat, cfg: PublishConfig, a: Action, events: Seq<Event>) -> Action
    decreases events.len(),
{
    if events.len() == 0 {
        a
    } else {
        drive(len, cfg, next_spec(len, cfg, a, events[0]), events.subrange(1, events.len() as int))
    }
}

/// A package the registry already holds is not published again: the run
/// goes straight on to the next package.
pub proof fn lemma_uploaded_package_is_skipped(len: nat, cfg: PublishConfig, index: usize)
    ensures
        next_spec(len, cfg, (Action::CheckUploaded { index }), Event::Uploaded(true)) == after(len, index),
        !(next_spec(len, cfg, (Action::CheckUploaded { index }), Event::Uploaded(true)) is Publish),
{
}

pub proof fn lemma_failed_rounds(len: nat, cfg: PublishConfig, index: usize, j: u8, k: nat)
    requires
        1 <= j,
        j + k <= cfg.verify_upload_retries,
    ensures
        failed_rounds(len, cfg, (Action::PollUploaded { index, attempt: j }), k)
            == (Action::PollUploaded { index, attempt: (j + k) as u8 }),
    decreases k,
{
    if k > 0 {
        lemma_failed_rounds(len, cfg, index, (j + 1) as u8, (k - 1) as nat);
    }
}

/// After a publish, a registry that answers "no" `k` times and then "yes",
/// with `k` below the retry count, is asked exactly `k + 1` times, with a
/// wait after each "no"; then the run moves on to the next package.
pub proof fn lemma_poll_succeeds_after_failures(len: nat, cfg: PublishConfig, index: usize, k: nat)
    requires
        !cfg.dry_run,
        k < cfg.verify_upload_retries,
    ensures
        next_spec(len, cfg, (Action::Publish { index }), Event::Published)
            == (Action::PollUploaded { index, attempt: 1 }),
        failed_rounds(len, cfg, (Action::PollUploaded { index, attempt: 1 }), k)
            == (Action::PollUploaded { index, attempt: (k + 1) as u8 }),
        next_spec(len, cfg, (Action::PollUploaded { index, attempt: (k + 1) as u8 }), Event::Uploaded(true))
            == after(len, index),
{
    lemma_failed_rounds(len, cfg, index, 1, k);
}

/// After a publish, a registry that always answers "no" is asked exactly
/// as many times as the retry count, and the run then moves on to the next
/// package without failing.
pub proof fn lemma_poll_gives_up_after_retries(len: nat, cfg: PublishConfig, index: usize)
    requires
        !cfg.dry_run,
        cfg.verify_upload_retries > 0,
    ensures
        next_spec(len, cfg, (Action::Publish { index }), Event::Published)
            == (Action::PollUploaded { index, attempt: 1 }),
        failed_rounds(len, cfg, (Action::PollUploaded { index, attempt: 1 }), (cfg.verify_upload_retries - 1) as nat)
            == (Action::PollUploaded { index, attempt: cfg.verify_upload_retries }),
        next_spec(
            len,
            cfg,
            (Action::PollUploaded { index, attempt: cfg.verify_upload_retries }),
            Event::Uploaded(false),
        ) == after(len, index),
{
    lemma_failed_rounds(len, cfg, index, 1, (cfg.verify_upload_retries - 1) as nat);
}

/// In a dry run a published package is not polled: the run moves on.
pub proof fn lemma_dry_run_never_polls(len: nat, cfg: PublishConfig, index: usize)
    requires
        cfg.dry_run,
    ensures
        next_spec(len, cfg, (Action::Publish { index }), Event::Published) == after(len, index),
{
}

/// An aborted run stays aborted, whatever happens next.
pub proof fn lemma_abort_is_final(len: nat, cfg: PublishConfig, a: Action, events: Seq<Event>)
    requires
        a is Abort,
    ensures
        drive(len, cfg, a, events) == a,
    decreases events.len(),
{
    if events.len() > 0 {
        lemma_abort_is_final(len, cfg, a, events.subrange(1, events.len() as int));
    }
}

/// In aligned mode, a plan with a package of another version publishes
/// nothing: the run starts aborted and stays so, whatever events follow.
pub proof fn lemma_misaligned_plan_publishes_nothing(
    plan: Seq<CrateView>,
    cfg: PublishConfig,
    a: Action,
    events: Seq<Event>,
)
    requires
        cfg.aligned_versions_only,
        any_misaligned(plan, cfg.target_version@),
        a matches Action::Abort(PublishError::Misaligned { index }) && misaligned_at(plan, cfg.target_version@, index as int),
    ensures
        forall|t: int| 0 <= t <= events.len() ==> !(#[trigger] drive(plan.len(), cfg, a, events.subrange(0, t)) is Publish),
{
    assert forall|t: int| 0 <= t <= events.len() implies !(#[trigger] drive(plan.len(), cfg, a, events.subrange(0, t)) is Publish) by {
        lemma_abort_is_final(plan.len(), cfg, a, events.subrange(0, t));
    }
}

} // verus!
