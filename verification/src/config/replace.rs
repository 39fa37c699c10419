//! Replacing a file atomically: a fresh temporary file in the same directory
//! is written, synced, handed over and renamed over the target. At no point is
//! the target truncated, so a full disk, a kill or a power loss leaves the
//! previous contents in place. This module decides what comes next; each step
//! is relative to one directory that is held open for all of them.

pub mod laws;

use vstd::prelude::*;

use crate::number::{decimal, to_decimal};
use crate::path::{last_name, name_of};
use crate::text::{extend, extend_str, from_chars, to_chars};

verus! {

/// What a look at a directory entry found, a symlink reported as itself.
#[derive(Debug, Clone, Copy, PartialEq, Eq, Structural)]
pub enum EntryKind {
    Missing,
    Symlink,
    RegularFile,
    Other,
}

/// What is done next.
#[derive(Debug, Clone, Copy, PartialEq, Eq, Structural)]
pub enum ReplaceStep {
    /// Open the directory that holds the target.
    OpenDir,
    /// Look at the target.
    StatTarget,
    /// Create the temporary file, failing if anything is there already.
    CreateTemp,
    /// Look at what is at the temporary name.
    StatTemp,
    /// Remove a dead run's leftover at the temporary name.
    ClearTemp,
    /// Create the temporary file once more.
    RetryTemp,
    /// Write the bytes, sync them, and hand the file to the invoker.
    WriteTemp,
    /// Rename the temporary file over the target.
    Rename,
    /// Remove the temporary file, whatever comes of it.
    Discard,
    /// Sync the directory, whatever comes of it.
    SyncDir,
    /// The target holds the new contents.
    Done,
    /// Nothing changed.
    Failed,
}

/// How a step went.
#[derive(Debug)]
pub enum StepOutcome {
    /// It worked.
    Worked,
    /// A look at an entry found this.
    Found(EntryKind),
    /// Something was already there.
    AlreadyThere(String),
    /// It failed.
    Broke(String),
}

/// Why a replacement failed.
#[derive(Debug)]
pub enum ReplaceFault {
    /// The path has no file name.
    NoFileName,
    /// There is a symlink at the target.
    TargetIsSymlink,
    /// A step failed.
    Step(String),
}

/// A replacement under way: what is done next, and what went wrong.
#[derive(Debug)]
pub struct Replacement {
    pub step: ReplaceStep,
    pub fault: Option<ReplaceFault>,
}

/// The same as `Replacement`, for statements.
pub enum FaultFacts {
    NoFileName,
    TargetIsSymlink,
    Step(Seq<char>),
}

/// What a fault says.
pub open spec fn fault_facts(f: Option<ReplaceFault>) -> Option<FaultFacts> {
    match f {
        None => None,
        Some(ReplaceFault::NoFileName) => Some(FaultFacts::NoFileName),
        Some(ReplaceFault::TargetIsSymlink) => Some(FaultFacts::TargetIsSymlink),
        Some(ReplaceFault::Step(s)) => Some(FaultFacts::Step(s@)),
    }
}

/// The temporary name beside a target: the name, the process id and `.tmp`.
/// The process id is what makes concurrent replacements safe.
pub open spec fn temp_text(name: Seq<char>, pid: nat) -> Seq<char> {
    name + "."@ + decimal(pid) + ".tmp"@
}

/// The temporary name beside the file that a path names.
pub fn temp_name(path: &str, pid: u32) -> (r: Option<String>)
    ensures
        match name_of(path@) {
            Some(name) => r matches Some(t) && t@ == temp_text(name, pid as nat),
            None => r is None,
        },
{
    match last_name(&to_chars(path)) {
        None => None,
        Some(name) => {
            let mut v = name;
            extend_str(&mut v, ".");
            extend(&mut v, &to_decimal(pid as u64));
            extend_str(&mut v, ".tmp");
            Some(from_chars(&v))
        },
    }
}

/// The text of what went wrong with a step.
pub open spec fn broke_text(outcome: StepOutcome) -> Seq<char> {
    match outcome {
        StepOutcome::AlreadyThere(e) => e@,
        StepOutcome::Broke(e) => e@,
        _ => "unexpected"@,
    }
}

/// What comes after a step, and what went wrong so far. `kept` is the fault
/// remembered from an earlier step.
pub open spec fn next_step(
    step: ReplaceStep,
    kept: Option<FaultFacts>,
    outcome: StepOutcome,
) -> (ReplaceStep, Option<FaultFacts>) {
    let broke = Some(FaultFacts::Step(broke_text(outcome)));
    match step {
        ReplaceStep::OpenDir => match outcome {
            StepOutcome::Worked => (ReplaceStep::StatTarget, None),
            _ => (ReplaceStep::Failed, broke),
        },
        ReplaceStep::StatTarget => match outcome {
            StepOutcome::Found(EntryKind::Symlink) => (ReplaceStep::Failed, Some(FaultFacts::TargetIsSymlink)),
            StepOutcome::Found(_) => (ReplaceStep::CreateTemp, None),
            _ => (ReplaceStep::Failed, broke),
        },
        ReplaceStep::CreateTemp => match outcome {
            StepOutcome::Worked => (ReplaceStep::WriteTemp, None),
            StepOutcome::AlreadyThere(_) => (ReplaceStep::StatTemp, broke),
            _ => (ReplaceStep::Failed, broke),
        },
        ReplaceStep::StatTemp => match outcome {
            StepOutcome::Found(EntryKind::RegularFile) => (ReplaceStep::ClearTemp, None),
            StepOutcome::Found(_) => (ReplaceStep::Failed, kept),
            _ => (ReplaceStep::Failed, broke),
        },
        ReplaceStep::ClearTemp => match outcome {
            StepOutcome::Worked => (ReplaceStep::RetryTemp, None),
            _ => (ReplaceStep::Failed, broke),
        },
        ReplaceStep::RetryTemp => match outcome {
            StepOutcome::Worked => (ReplaceStep::WriteTemp, None),
            _ => (ReplaceStep::Failed, broke),
        },
        ReplaceStep::WriteTemp => match outcome {
            StepOutcome::Worked => (ReplaceStep::Rename, None),
            _ => (ReplaceStep::Discard, broke),
        },
        ReplaceStep::Rename => match outcome {
            StepOutcome::Worked => (ReplaceStep::SyncDir, None),
            _ => (ReplaceStep::Discard, broke),
        },
        ReplaceStep::Discard => (ReplaceStep::Failed, kept),
        ReplaceStep::SyncDir => (ReplaceStep::Done, None),
        ReplaceStep::Done => (ReplaceStep::Done, None),
        ReplaceStep::Failed => (ReplaceStep::Failed, kept),
    }
}

fn broken(outcome: StepOutcome) -> (r: Option<ReplaceFault>)
    ensures
        fault_facts(r) == Some(FaultFacts::Step(broke_text(outcome))),
{
    let text = match outcome {
        StepOutcome::AlreadyThere(e) => e,
        StepOutcome::Broke(e) => e,
        _ => "unexpected".to_owned(),
    };
    Some(ReplaceFault::Step(text))
}

impl Replacement {
    /// A replacement of the file at `path`: it starts with the directory, and
    /// fails at once when the path has no file name.
    pub fn start(path: &str) -> (r: Replacement)
        ensures
            match name_of(path@) {
                Some(_) => r.step == ReplaceStep::OpenDir && r.fault is None,
                None => r.step == ReplaceStep::Failed && r.fault == Some(ReplaceFault::NoFileName),
            },
    {
        match last_name(&to_chars(path)) {
            Some(_) => Replacement { step: ReplaceStep::OpenDir, fault: None },
            None => Replacement { step: ReplaceStep::Failed, fault: Some(ReplaceFault::NoFileName) },
        }
    }

    /// The replacement after its step went as `outcome` says.
    pub fn advance(self, outcome: StepOutcome) -> (r: Replacement)
        ensures
            (r.step, fault_facts(r.fault)) == next_step(self.step, fault_facts(self.fault), outcome),
    {
        let Replacement { step, fault } = self;
        match step {
            ReplaceStep::OpenDir => match outcome {
                StepOutcome::Worked => Replacement { step: ReplaceStep::StatTarget, fault: None },
                other => Replacement { step: ReplaceStep::Failed, fault: broken(other) },
            },
            ReplaceStep::StatTarget => match outcome {
                StepOutcome::Found(EntryKind::Symlink) => Replacement {
                    step: ReplaceStep::Failed,
                    fault: Some(ReplaceFault::TargetIsSymlink),
                },
                StepOutcome::Found(_) => Replacement { step: ReplaceStep::CreateTemp, fault: None },
                other => Replacement { step: ReplaceStep::Failed, fault: broken(other) },
            },
            ReplaceStep::CreateTemp => match outcome {
                StepOutcome::Worked => Replacement { step: ReplaceStep::WriteTemp, fault: None },
                StepOutcome::AlreadyThere(e) => Replacement {
                    step: ReplaceStep::StatTemp,
                    fault: Some(ReplaceFault::Step(e)),
                },
                other => Replacement { step: ReplaceStep::Failed, fault: broken(other) },
            },
            ReplaceStep::StatTemp => match outcome {
                StepOutcome::Found(EntryKind::RegularFile) => Replacement {
                    step: ReplaceStep::ClearTemp,
                    fault: None,
                },
                StepOutcome::Found(_) => Replacement { step: ReplaceStep::Failed, fault },
                other => Replacement { step: ReplaceStep::Failed, fault: broken(other) },
            },
            ReplaceStep::ClearTemp => match outcome {
                StepOutcome::Worked => Replacement { step: ReplaceStep::RetryTemp, fault: None },
                other => Replacement { step: ReplaceStep::Failed, fault: broken(other) },
            },
            ReplaceStep::RetryTemp => match outcome {
                StepOutcome::Worked => Replacement { step: ReplaceStep::WriteTemp, fault: None },
                other => Replacement { step: ReplaceStep::Failed, fault: broken(other) },
            },
            ReplaceStep::WriteTemp => match outcome {
                StepOutcome::Worked => Replacement { step: ReplaceStep::Rename, fault: None },
                other => Replacement { step: ReplaceStep::Discard, fault: broken(other) },
            },
            ReplaceStep::Rename => match outcome {
                StepOutcome::Worked => Replacement { step: ReplaceStep::SyncDir, fault: None },
                other => Replacement { step: ReplaceStep::Discard, fault: broken(other) },
            },
            ReplaceStep::Discard => Replacement { step: ReplaceStep::Failed, fault },
            ReplaceStep::SyncDir => Replacement { step: ReplaceStep::Done, fault: None },
            ReplaceStep::Done => Replacement { step: ReplaceStep::Done, fault: None },
            ReplaceStep::Failed => Replacement { step: ReplaceStep::Failed, fault },
        }
    }
}

impl ReplaceFault {
    /// The sentence about a fault; `path` is the target.
    pub fn message(&self, path: &str) -> (r: String)
        ensures
            r@ == (match self {
                ReplaceFault::NoFileName => path@ + " has no file name"@,
                ReplaceFault::TargetIsSymlink => "refusing to replace a symlink at "@ + path@,
                ReplaceFault::Step(e) => e@,
            }),
    {
        match self {
            ReplaceFault::NoFileName => {
                let mut v = to_chars(path);
                extend_str(&mut v, " has no file name");
                from_chars(&v)
            },
            ReplaceFault::TargetIsSymlink => {
                let mut v = to_chars("refusing to replace a symlink at ");
                extend_str(&mut v, path);
                from_chars(&v)
            },
            ReplaceFault::Step(e) => e.clone(),
        }
    }
}

/// The steps and faults along a run of outcomes.
pub open spec fn run_of(
    step: ReplaceStep,
    kept: Option<FaultFacts>,
    outcomes: Seq<StepOutcome>,
) -> (ReplaceStep, Option<FaultFacts>)
    decreases outcomes.len(),
{
    if outcomes.len() == 0 {
        (step, kept)
    } else {
        let (s, k) = run_of(step, kept, outcomes.drop_last());
        next_step(s, k, outcomes.last())
    }
}

/// Only a regular file at this process's own temporary name is ever cleared.
pub proof fn law_only_a_regular_leftover_is_cleared(
    step: ReplaceStep,
    kept: Option<FaultFacts>,
    outcome: StepOutcome,
)
    requires
        next_step(step, kept, outcome).0 == ReplaceStep::ClearTemp,
    ensures
        step == ReplaceStep::StatTemp && outcome == StepOutcome::Found(EntryKind::RegularFile),
{
}

/// The target is renamed over only after the bytes were written and synced.
pub proof fn law_rename_follows_a_complete_write(
    step: ReplaceStep,
    kept: Option<FaultFacts>,
    outcome: StepOutcome,
)
    requires
        next_step(step, kept, outcome).0 == ReplaceStep::Rename,
    ensures
        step == ReplaceStep::WriteTemp && outcome == StepOutcome::Worked,
{
}

/// A replacement is done only by way of a rename that worked.
pub proof fn law_done_only_after_a_rename(step: ReplaceStep, kept: Option<FaultFacts>, outcome: StepOutcome)
    requires
        step != ReplaceStep::SyncDir,
        step != ReplaceStep::Done,
    ensures
        next_step(step, kept, outcome).0 != ReplaceStep::Done,
        next_step(step, kept, outcome).0 == ReplaceStep::SyncDir ==> step == ReplaceStep::Rename && outcome
            == StepOutcome::Worked,
{
}

/// A write or rename that fails is followed by the removal of the temporary
/// file, and the failure told is its own.
pub proof fn law_a_failed_write_is_discarded(step: ReplaceStep, kept: Option<FaultFacts>, outcome: StepOutcome)
    requires
        step == ReplaceStep::WriteTemp || step == ReplaceStep::Rename,
        outcome != StepOutcome::Worked,
    ensures
        next_step(step, kept, outcome) == (ReplaceStep::Discard, Some(FaultFacts::Step(broke_text(outcome)))),
        forall|last: StepOutcome|
            #[trigger] next_step(
                ReplaceStep::Discard,
                next_step(step, kept, outcome).1,
                last,
            ) == (ReplaceStep::Failed, Some(FaultFacts::Step(broke_text(outcome)))),
{
}

/// How far a step is from the end.
pub open spec fn steps_left(step: ReplaceStep) -> nat {
    match step {
        ReplaceStep::OpenDir => 9,
        ReplaceStep::StatTarget => 8,
        ReplaceStep::CreateTemp => 7,
        ReplaceStep::StatTemp => 6,
        ReplaceStep::ClearTemp => 5,
        ReplaceStep::RetryTemp => 4,
        ReplaceStep::WriteTemp => 3,
        ReplaceStep::Rename => 2,
        ReplaceStep::Discard => 1,
        ReplaceStep::SyncDir => 1,
        ReplaceStep::Done => 0,
        ReplaceStep::Failed => 0,
    }
}

/// Every step leads nearer to the end: no replacement runs forever, and the
/// creation is retried at most once.
pub proof fn law_a_replacement_ends(step: ReplaceStep, kept: Option<FaultFacts>, outcome: StepOutcome)
    requires
        steps_left(step) > 0,
    ensures
        steps_left(next_step(step, kept, outcome).0) < steps_left(step),
{
}

/// A failed replacement says why, whatever the outcomes were.
pub proof fn law_a_failure_has_a_reason(outcomes: Seq<StepOutcome>)
    ensures
        ({
            let (s, k) = run_of(ReplaceStep::OpenDir, None, outcomes);
            &&& s == ReplaceStep::Failed || s == ReplaceStep::Discard || s == ReplaceStep::StatTemp ==> k is Some
            &&& s == ReplaceStep::Done ==> k is None
        }),
    decreases outcomes.len(),
{
    if outcomes.len() > 0 {
        law_a_failure_has_a_reason(outcomes.drop_last());
    }
}

} // verus!
