//! The archive stage: decide, for a snapshot of the files directly under
//! the target directory, which are relocated into per-year subdirectories
//! and in which order the filesystem steps run.
//!
//! The binary scans the target root (non-recursively, so files already
//! moved into a year subdirectory are never revisited), reduces each file's
//! effective timestamp — last-modified, falling back to creation time — to
//! a local calendar date, hands the snapshot here, and executes the
//! returned steps in order, aborting the whole stage on the first failing
//! step. A file is removed only by a step that comes after the copy of that
//! file into its year subdirectory, so an abort never loses data.
use vstd::prelude::*;
use vstd::string::StringExecFns;
use crate::dates::{Date, year_chars, year_string, date_before};

verus! {

/// One entry directly under the target directory: its filename, whether it
/// is a regular file, and the local calendar date of its effective
/// timestamp (`None` where neither a modified nor a created time could be
/// read — such a file is left alone).
pub struct TargetEntry {
    pub name: String,
    pub is_file: bool,
    pub date: Option<Date>,
}

/// One filesystem step of the archive stage, to be executed in plan order.
#[derive(Clone, PartialEq, Eq, Debug)]
pub enum ArchiveStep {
    /// Create the year subdirectory if it does not exist yet.
    EnsureDir { year: String },
    /// Copy the named file from the target root into the year subdirectory.
    CopyToYear { name: String, year: String },
    /// Remove the named file from the target root.
    RemoveOriginal { name: String },
}

/// The mathematical content of a step.
pub enum StepView {
    EnsureDir { year: Seq<char> },
    CopyToYear { name: Seq<char>, year: Seq<char> },
    RemoveOriginal { name: Seq<char> },
}

pub open spec fn step_view(s: ArchiveStep) -> StepView {
    match s {
        ArchiveStep::EnsureDir { year } => StepView::EnsureDir { year: year@ },
        ArchiveStep::CopyToYear { name, year } => StepView::CopyToYear {
            name: name@,
            year: year@,
        },
        ArchiveStep::RemoveOriginal { name } => StepView::RemoveOriginal { name: name@ },
    }
}

pub open spec fn steps_view(s: Seq<ArchiveStep>) -> Seq<StepView> {
    s.map_values(|a: ArchiveStep| step_view(a))
}

/// Whether the archive stage relocates this entry: only regular files
/// whose effective date is known and strictly earlier than the cutoff.
pub open spec fn archived(e: TargetEntry, cutoff: Date) -> bool {
    e.is_file && (e.date matches Some(d) && d.lt(cutoff))
}

/// The year subdirectory an archived entry goes into: named by the year of
/// the file's own effective date.
pub open spec fn entry_year(e: TargetEntry) -> Seq<char> {
    year_chars(e.date->Some_0.year as int)
}

/// The filesystem steps the archive stage performs on entries `i..`: for
/// each relocated entry, in entry order, first its year directory is
/// ensured, then the file is copied there, and only then is the original
/// removed.
pub open spec fn steps_from(entries: Seq<TargetEntry>, i: int, cutoff: Date) -> Seq<StepView>
    decreases entries.len() - i when 0 <= i <= entries.len()
{
    if i >= entries.len() {
        Seq::empty()
    } else {
        let rest = steps_from(entries, i + 1, cutoff);
        if archived(entries[i], cutoff) {
            seq![
                StepView::EnsureDir { year: entry_year(entries[i]) },
                StepView::CopyToYear { name: entries[i].name@, year: entry_year(entries[i]) },
                StepView::RemoveOriginal { name: entries[i].name@ },
            ] + rest
        } else {
            rest
        }
    }
}

/// The archive stage: the full, ordered step plan for a snapshot of the
/// target root and a cutoff date.
pub fn archive_images(entries: &Vec<TargetEntry>, cutoff: &Date) -> (steps: Vec<ArchiveStep>)
    ensures
        steps_view(steps@) == steps_from(entries@, 0, *cutoff),
{
    let mut steps: Vec<ArchiveStep> = Vec::new();
    let mut i: usize = 0;
    while i < entries.len()
        invariant
            i <= entries.len(),
            steps_view(steps@) + steps_from(entries@, i as int, *cutoff) == steps_from(
                entries@,
                0,
                *cutoff,
            ),
        decreases entries.len() - i,
    {
        let e = &entries[i];
        let ghost steps0 = steps@;
        let mut moved = false;
        match &e.date {
            Some(d) => {
                if e.is_file && date_before(d, cutoff) {
                    let year = year_string(d.year);
                    let year2 = year.clone();
                    let year3 = year.clone();
                    let name = e.name.clone();
                    let name2 = e.name.clone();
                    steps.push(ArchiveStep::EnsureDir { year });
                    steps.push(ArchiveStep::CopyToYear { name, year: year2 });
                    steps.push(ArchiveStep::RemoveOriginal { name: name2 });
                    moved = true;
                    proof {
                        assert(archived(entries@[i as int], *cutoff));
                        assert(steps_view(steps@) =~= steps_view(steps0) + seq![
                            StepView::EnsureDir { year: entry_year(entries@[i as int]) },
                            StepView::CopyToYear {
                                name: entries@[i as int].name@,
                                year: entry_year(entries@[i as int]),
                            },
                            StepView::RemoveOriginal { name: entries@[i as int].name@ },
                        ]);
                        assert(steps_view(steps@) + steps_from(entries@, i + 1, *cutoff)
                            =~= steps_view(steps0) + steps_from(entries@, i as int, *cutoff));
                    }
                }
            },
            None => {},
        }
        proof {
            if !moved {
                assert(!archived(entries@[i as int], *cutoff));
                assert(steps_from(entries@, i as int, *cutoff) == steps_from(
                    entries@,
                    i + 1,
                    *cutoff,
                ));
            }
        }
        i += 1;
    }
    proof {
        assert(steps_from(entries@, entries@.len() as int, *cutoff) =~= Seq::<StepView>::empty());
        assert(steps_view(steps@) + Seq::<StepView>::empty() =~= steps_view(steps@));
    }
    steps
}

/// The name a step touches, where it touches a file of the target root.
pub open spec fn touched_name(s: StepView) -> Option<Seq<char>> {
    match s {
        StepView::EnsureDir { year } => None,
        StepView::CopyToYear { name, year } => Some(name),
        StepView::RemoveOriginal { name } => Some(name),
    }
}

/// Law: the archive stage touches only files it relocates — every step
/// that copies or removes a file names an entry of the snapshot that is a
/// regular file whose effective date is strictly earlier than the cutoff.
/// Files dated at or after the cutoff, directories, and files without a
/// readable timestamp are never named.
pub proof fn lemma_archive_only_old(entries: Seq<TargetEntry>, i: int, cutoff: Date)
    requires
        0 <= i <= entries.len(),
    ensures
        forall|k: int|
            0 <= k < steps_from(entries, i, cutoff).len() && touched_name(
                #[trigger] steps_from(entries, i, cutoff)[k],
            ) is Some ==> exists|j: int|
                i <= j < entries.len() && archived(#[trigger] entries[j], cutoff)
                    && entries[j].name@ == touched_name(steps_from(entries, i, cutoff)[k])->Some_0,
    decreases entries.len() - i,
{
    if i < entries.len() {
        let steps = steps_from(entries, i, cutoff);
        let rest = steps_from(entries, i + 1, cutoff);
        lemma_archive_only_old(entries, i + 1, cutoff);
        if archived(entries[i], cutoff) {
            assert forall|k: int|
                0 <= k < steps.len() && touched_name(#[trigger] steps[k]) is Some implies exists|
                j: int,
            |
                i <= j < entries.len() && archived(#[trigger] entries[j], cutoff)
                    && entries[j].name@ == touched_name(steps[k])->Some_0 by {
                if k < 3 {
                    assert(archived(entries[i], cutoff));
                    assert(entries[i].name@ == touched_name(steps[k])->Some_0);
                } else {
                    assert(steps[k] == rest[k - 3]);
                    let j = choose|j: int|
                        i + 1 <= j < entries.len() && archived(#[trigger] entries[j], cutoff)
                            && entries[j].name@ == touched_name(rest[k - 3])->Some_0;
                    assert(archived(entries[j], cutoff));
                }
            }
        }
    }
}

/// Law: no file is removed from the target root before a copy of it into
/// its year subdirectory was made — every removal step is immediately
/// preceded by the copy step of the same file, so executing the plan in
/// order and aborting on the first failure never loses a file.
pub proof fn lemma_archive_copy_before_remove(entries: Seq<TargetEntry>, i: int, cutoff: Date)
    requires
        0 <= i <= entries.len(),
    ensures
        forall|k: int|
            0 <= k < steps_from(entries, i, cutoff).len() && (#[trigger] steps_from(
                entries,
                i,
                cutoff,
            )[k]) is RemoveOriginal ==> k >= 1 && steps_from(entries, i, cutoff)[k
                - 1] is CopyToYear && steps_from(entries, i, cutoff)[k - 1]->CopyToYear_name
                == steps_from(entries, i, cutoff)[k]->RemoveOriginal_name,
    decreases entries.len() - i,
{
    if i < entries.len() {
        let steps = steps_from(entries, i, cutoff);
        let rest = steps_from(entries, i + 1, cutoff);
        lemma_archive_copy_before_remove(entries, i + 1, cutoff);
        if archived(entries[i], cutoff) {
            assert forall|k: int|
                0 <= k < steps.len() && (#[trigger] steps[k]) is RemoveOriginal implies k >= 1
                && steps[k - 1] is CopyToYear && steps[k - 1]->CopyToYear_name == steps[k]
                ->RemoveOriginal_name by {
                if k >= 3 {
                    assert(steps[k] == rest[k - 3]);
                    assert(steps[k - 1] == rest[k - 4]);
                }
            }
        }
    }
}

/// Law: a snapshot in which no entry qualifies for relocation — every
/// entry a directory, undated, or dated at or after the cutoff — yields an
/// empty plan. In particular a second archive run plans nothing: the files
/// the first run moved are no longer under the target root, the year
/// subdirectories are not regular files, and everything left was already
/// younger than the cutoff.
pub proof fn lemma_archive_second_run_empty(entries: Seq<TargetEntry>, cutoff: Date)
    requires
        forall|j: int| 0 <= j < entries.len() ==> !archived(#[trigger] entries[j], cutoff),
    ensures
        steps_from(entries, 0, cutoff) == Seq::<StepView>::empty(),
{
    lemma_archive_no_old_no_steps(entries, 0, cutoff);
}

proof fn lemma_archive_no_old_no_steps(entries: Seq<TargetEntry>, i: int, cutoff: Date)
    requires
        0 <= i <= entries.len(),
        forall|j: int| 0 <= j < entries.len() ==> !archived(#[trigger] entries[j], cutoff),
    ensures
        steps_from(entries, i, cutoff) == Seq::<StepView>::empty(),
    decreases entries.len() - i,
{
    if i < entries.len() {
        lemma_archive_no_old_no_steps(entries, i + 1, cutoff);
    }
}

} // verus!
