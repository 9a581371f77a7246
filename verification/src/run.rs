//! The whole run: the save stage's copy plan, followed — when configured —
//! by the archive stage's step plan.
//!
//! The binary scans the source and target directories, hands both
//! snapshots here together with the cutoff date, executes the copies, and
//! then executes the archive steps in order. The archive plan is computed
//! over the target snapshot taken before the copies run: a fresh copy
//! carries the present time as its modified time, which is never earlier
//! than the cutoff, so the fresh copies are never relocated and the plan
//! over the pre-copy snapshot relocates exactly what a rescan would.
use vstd::prelude::*;
use crate::archive::{ArchiveStep, TargetEntry, archive_images, steps_from, steps_view};
use crate::config::Config;
use crate::dates::Date;
use crate::save::{CopyAction, SourceEntry, names_in, plan_from, plan_view, save_images};

verus! {

/// Everything a run performs, in order: the copies of the save stage, the
/// number of files they save, and — when archiving is configured — the
/// steps of the archive stage.
pub struct RunPlan {
    pub copies: Vec<CopyAction>,
    pub saved_count: usize,
    pub archive: Option<Vec<ArchiveStep>>,
}

/// Every name directly under the target directory, files and
/// subdirectories alike: a copy is skipped when anything of its destination
/// name already exists there.
pub open spec fn target_names(entries: Seq<TargetEntry>) -> Set<Seq<char>> {
    Set::new(|d: Seq<char>| exists|k: int| 0 <= k < entries.len() && entries[k].name@ == d)
}

/// One run of the tool over a snapshot of the source directory and of the
/// target directory, with the archive cutoff date.
pub fn run(config: &Config, source: &Vec<SourceEntry>, target: &Vec<TargetEntry>, cutoff: &Date)
    -> (r: RunPlan)
    ensures
        plan_view(r.copies@) == plan_from(source@, 0, target_names(target@)),
        r.saved_count == r.copies@.len(),
        (config.archive ==> (r.archive matches Some(s) && steps_view(s@) == steps_from(
            target@,
            0,
            *cutoff,
        ))),
        (!config.archive ==> r.archive is None),
{
    let mut existing: Vec<String> = Vec::new();
    let mut k: usize = 0;
    while k < target.len()
        invariant
            k <= target.len(),
            existing@.len() == k,
            forall|j: int| 0 <= j < k ==> existing@[j]@ == target@[j].name@,
        decreases target.len() - k,
    {
        existing.push(target[k].name.clone());
        k += 1;
    }
    proof {
        lemma_target_names(existing@, target@);
    }
    let copies = save_images(source, &existing);
    let saved_count = copies.len();
    let archive = if config.archive {
        Some(archive_images(target, cutoff))
    } else {
        None
    };
    RunPlan { copies, saved_count, archive }
}

/// The names taken from a target snapshot are exactly its name set.
proof fn lemma_target_names(names: Seq<String>, entries: Seq<TargetEntry>)
    requires
        names.len() == entries.len(),
        forall|j: int| 0 <= j < names.len() ==> names[j]@ == entries[j].name@,
    ensures
        names_in(names) == target_names(entries),
{
    assert forall|d: Seq<char>| names_in(names).contains(d) implies target_names(
        entries,
    ).contains(d) by {
        let k = choose|k: int| 0 <= k < names.len() && names[k]@ == d;
        assert(entries[k].name@ == d);
    }
    assert forall|d: Seq<char>| target_names(entries).contains(d) implies names_in(
        names,
    ).contains(d) by {
        let k = choose|k: int| 0 <= k < entries.len() && entries[k].name@ == d;
        assert(names[k]@ == d);
    }
    assert(names_in(names) =~= target_names(entries));
}

} // verus!
