//! What a replacement promises beyond its single steps.

use vstd::prelude::*;

use crate::number::{decimal, lemma_decimal_round_trip};

use super::{next_step, temp_text, EntryKind, FaultFacts, ReplaceStep, StepOutcome};

verus! {

/// A target that is a symbolic link is never replaced: the run fails and says
/// so, and a temporary file is only made once the target was looked at and is
/// no link.
pub proof fn law_a_link_is_never_replaced(step: ReplaceStep, kept: Option<FaultFacts>, outcome: StepOutcome)
    ensures
        step == ReplaceStep::StatTarget && outcome == StepOutcome::Found(EntryKind::Symlink) ==> next_step(
            step,
            kept,
            outcome,
        ) == (ReplaceStep::Failed, Some(FaultFacts::TargetIsSymlink)),
        next_step(step, kept, outcome).0 == ReplaceStep::CreateTemp ==> step == ReplaceStep::StatTarget && outcome != (
        StepOutcome::Found(EntryKind::Symlink)) && outcome is Found,
        next_step(step, kept, outcome).0 == ReplaceStep::StatTarget ==> step == ReplaceStep::OpenDir && outcome
            == StepOutcome::Worked,
{
}

/// When every step works a replacement runs through: it looks at the
/// directory and the target, makes and writes the temporary file, renames it
/// and is done, with nothing wrong.
pub proof fn law_a_replacement_runs_through(kept: Option<FaultFacts>, kind: EntryKind)
    requires
        kind != EntryKind::Symlink,
    ensures
        next_step(ReplaceStep::OpenDir, kept, StepOutcome::Worked) == (ReplaceStep::StatTarget, None::<FaultFacts>),
        next_step(ReplaceStep::StatTarget, kept, StepOutcome::Found(kind)) == (
            ReplaceStep::CreateTemp,
            None::<FaultFacts>,
        ),
        next_step(ReplaceStep::CreateTemp, kept, StepOutcome::Worked) == (ReplaceStep::WriteTemp, None::<FaultFacts>),
        next_step(ReplaceStep::WriteTemp, kept, StepOutcome::Worked) == (ReplaceStep::Rename, None::<FaultFacts>),
        next_step(ReplaceStep::Rename, kept, StepOutcome::Worked) == (ReplaceStep::SyncDir, None::<FaultFacts>),
        next_step(ReplaceStep::SyncDir, kept, StepOutcome::Worked) == (ReplaceStep::Done, None::<FaultFacts>),
        next_step(ReplaceStep::ClearTemp, kept, StepOutcome::Worked) == (ReplaceStep::RetryTemp, None::<FaultFacts>),
        next_step(ReplaceStep::RetryTemp, kept, StepOutcome::Worked) == (ReplaceStep::WriteTemp, None::<FaultFacts>),
{
}

/// Two processes that replace one file write to different temporary files.
pub proof fn law_processes_do_not_share_a_temporary_file(name: Seq<char>, a: nat, b: nat)
    requires
        temp_text(name, a) == temp_text(name, b),
    ensures
        a == b,
{
    lemma_decimal_round_trip(a);
    lemma_decimal_round_trip(b);
    let s = temp_text(name, a);
    let from = name.len() + "."@.len();
    assert(s.len() == from + decimal(a).len() + ".tmp"@.len());
    assert(temp_text(name, b).len() == from + decimal(b).len() + ".tmp"@.len());
    assert(s.subrange(from as int, from as int + decimal(a).len()) =~= decimal(a));
    assert(temp_text(name, b).subrange(from as int, from as int + decimal(b).len()) =~= decimal(b));
}

} // verus!
