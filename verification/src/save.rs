//! The save stage: decide, for a snapshot of the source cache directory and
//! of the names already present in the target directory, exactly which files
//! are copied and under which destination names.
//!
//! The binary scans the source directory, reads each regular file's bytes,
//! hands the snapshot here, and then executes the returned plan: for each
//! item it copies the source file's bytes verbatim to the destination name
//! under the target directory. A copy that fails is skipped and counted as
//! unsaved; it never aborts the stage.
use vstd::prelude::*;
use vstd::string::StringExecFns;
use crate::formats::{guessed_ext_spec, decoded_dims_spec, guess_ext, decode_dims};

verus! {

/// One candidate file of the source directory: its filename, whether it is
/// a regular file, and its bytes (empty where it is not a regular file).
pub struct SourceEntry {
    pub name: String,
    pub is_file: bool,
    pub data: Vec<u8>,
}

/// One planned copy: the index of the source entry to copy, and the name
/// the copy gets in the target directory.
#[derive(Clone, PartialEq, Eq, Debug)]
pub struct CopyAction {
    pub src_index: usize,
    pub dest_name: String,
}

/// Keep only landscape images of wallpaper resolution: width at least the
/// height, width at least 800 and height at least 600.
pub open spec fn passes_filter(w: u32, h: u32) -> bool {
    w >= h && w >= 800 && h >= 600
}

/// The destination filename a file with these bytes is saved under, or
/// `None` where the file is skipped: undetected format, failed decode, or
/// dimensions outside the filter.
pub open spec fn dest_of(name: Seq<char>, data: Seq<u8>) -> Option<Seq<char>> {
    match guessed_ext_spec(data) {
        Some(ext) => match decoded_dims_spec(data) {
            Some(dims) => if passes_filter(dims.0, dims.1) {
                Some(name + "."@ + ext)
            } else {
                None
            },
            None => None,
        },
        None => None,
    }
}

/// The save decision for one directory entry; non-regular entries are
/// always skipped.
pub open spec fn entry_dest(e: SourceEntry) -> Option<Seq<char>> {
    if e.is_file {
        dest_of(e.name@, e.data@)
    } else {
        None
    }
}

/// The decision part of saving one candidate file: the destination name if
/// the file qualifies, `None` if it is skipped.
pub fn save_image(e: &SourceEntry) -> (dest: Option<String>)
    ensures
        match dest {
            Some(d) => entry_dest(*e) == Some(d@),
            None => entry_dest(*e) is None,
        },
{
    if !e.is_file {
        return None;
    }
    let ext = match guess_ext(e.data.as_slice()) {
        Some(ext) => ext,
        None => { return None; },
    };
    let dims = match decode_dims(e.data.as_slice()) {
        Some(d) => d,
        None => { return None; },
    };
    if dims.0 < dims.1 || dims.0 < 800 || dims.1 < 600 {
        return None;
    }
    let mut s = e.name.clone();
    s.append(".");
    s.append(ext.as_str());
    proof {
        assert(s@ =~= e.name@ + "."@ + ext@);
    }
    Some(s)
}

/// The set of filenames a sequence of names holds.
pub open spec fn names_in(names: Seq<String>) -> Set<Seq<char>> {
    Set::new(|d: Seq<char>| exists|k: int| 0 <= k < names.len() && names[k]@ == d)
}

/// The copies the save stage performs on entries `i..`, given that the
/// names in `taken` already exist in the target directory: each qualifying
/// entry whose destination name is still free is copied, in entry order,
/// and its destination name is taken from then on.
pub open spec fn plan_from(entries: Seq<SourceEntry>, i: int, taken: Set<Seq<char>>) -> Seq<(
    int,
    Seq<char>,
)>
    decreases entries.len() - i when 0 <= i <= entries.len()
{
    if i >= entries.len() {
        Seq::empty()
    } else {
        match entry_dest(entries[i]) {
            Some(d) => if !taken.contains(d) {
                seq![(i, d)] + plan_from(entries, i + 1, taken.insert(d))
            } else {
                plan_from(entries, i + 1, taken)
            },
            None => plan_from(entries, i + 1, taken),
        }
    }
}

/// The mathematical content of an executable plan: index and destination
/// name of each copy.
pub open spec fn plan_view(plan: Seq<CopyAction>) -> Seq<(int, Seq<char>)> {
    plan.map_values(|a: CopyAction| (a.src_index as int, a.dest_name@))
}

/// Whether `s` is among `names`, compared by contents.
fn contains_name(names: &Vec<String>, s: &String) -> (r: bool)
    ensures
        r == names_in(names@).contains(s@),
{
    let mut k: usize = 0;
    while k < names.len()
        invariant
            k <= names.len(),
            forall|j: int| 0 <= j < k ==> names@[j]@ != s@,
        decreases names.len() - k,
    {
        if names[k].eq(s) {
            proof {
                assert(names@[k as int]@ == s@);
            }
            return true;
        }
        k += 1;
    }
    false
}

/// Appending one more name adds exactly its contents to the name set.
proof fn lemma_names_in_push(names: Seq<String>, s: String)
    ensures
        names_in(names.push(s)) == names_in(names).insert(s@),
{
    assert forall|d: Seq<char>| names_in(names.push(s)).contains(d) implies names_in(
        names,
    ).insert(s@).contains(d) by {
        let k = choose|k: int| 0 <= k < names.push(s).len() && names.push(s)[k]@ == d;
        if k < names.len() {
            assert(names[k]@ == d);
        }
    }
    assert forall|d: Seq<char>| names_in(names).insert(s@).contains(d) implies names_in(
        names.push(s),
    ).contains(d) by {
        if d == s@ {
            assert(names.push(s)[names.len() as int]@ == d);
        } else {
            let k = choose|k: int| 0 <= k < names.len() && names[k]@ == d;
            assert(names.push(s)[k]@ == d);
        }
    }
    assert(names_in(names.push(s)) =~= names_in(names).insert(s@));
}

/// Two name sequences with the same contents name the same set.
proof fn lemma_names_in_eq(a: Seq<String>, b: Seq<String>)
    requires
        a.len() == b.len(),
        forall|j: int| 0 <= j < a.len() ==> a[j]@ == b[j]@,
    ensures
        names_in(a) == names_in(b),
{
    assert forall|d: Seq<char>| names_in(a).contains(d) implies names_in(b).contains(d) by {
        let k = choose|k: int| 0 <= k < a.len() && a[k]@ == d;
        assert(b[k]@ == d);
    }
    assert forall|d: Seq<char>| names_in(b).contains(d) implies names_in(a).contains(d) by {
        let k = choose|k: int| 0 <= k < b.len() && b[k]@ == d;
        assert(a[k]@ == d);
    }
    assert(names_in(a) =~= names_in(b));
}

/// The save stage: the full copy plan for a source snapshot, given the
/// names already present in the target directory. The number of files the
/// stage saves is the plan's length.
pub fn save_images(entries: &Vec<SourceEntry>, existing: &Vec<String>) -> (plan: Vec<CopyAction>)
    ensures
        plan_view(plan@) == plan_from(entries@, 0, names_in(existing@)),
{
    let ghost s0 = names_in(existing@);
    let mut taken: Vec<String> = Vec::new();
    let mut k: usize = 0;
    while k < existing.len()
        invariant
            k <= existing.len(),
            taken@.len() == k,
            forall|j: int| 0 <= j < k ==> taken@[j]@ == existing@[j]@,
        decreases existing.len() - k,
    {
        taken.push(existing[k].clone());
        k += 1;
    }
    proof {
        lemma_names_in_eq(taken@, existing@);
    }

    let mut plan: Vec<CopyAction> = Vec::new();
    let mut i: usize = 0;
    while i < entries.len()
        invariant
            i <= entries.len(),
            plan_view(plan@) + plan_from(entries@, i as int, names_in(taken@)) == plan_from(
                entries@,
                0,
                s0,
            ),
        decreases entries.len() - i,
    {
        let ghost taken_before = names_in(taken@);
        match save_image(&entries[i]) {
            Some(d) => {
                if !contains_name(&taken, &d) {
                    let ghost taken_seq0 = taken@;
                    let ghost plan_seq0 = plan@;
                    let dest = d.clone();
                    plan.push(CopyAction { src_index: i, dest_name: dest });
                    taken.push(d);
                    proof {
                        let dv = taken@.last()@;
                        lemma_names_in_push(taken_seq0, taken@.last());
                        assert(names_in(taken@) == taken_before.insert(dv));
                        assert(plan_view(plan@) =~= plan_view(plan_seq0) + seq![(i as int, dv)]);
                        assert(plan_from(entries@, i as int, taken_before) == seq![(i as int, dv)]
                            + plan_from(entries@, i + 1, taken_before.insert(dv)));
                        assert(plan_view(plan@) + plan_from(entries@, i + 1, names_in(taken@))
                            =~= plan_view(plan_seq0) + plan_from(
                            entries@,
                            i as int,
                            taken_before,
                        ));
                    }
                }
            },
            None => {},
        }
        i += 1;
    }
    proof {
        assert(plan_from(entries@, entries@.len() as int, names_in(taken@))
            =~= Seq::<(int, Seq<char>)>::empty());
        assert(plan_view(plan@) + Seq::<(int, Seq<char>)>::empty() =~= plan_view(plan@));
    }
    plan
}

/// The destination names a plan writes.
pub open spec fn plan_dests(plan: Seq<(int, Seq<char>)>) -> Set<Seq<char>> {
    Set::new(|d: Seq<char>| exists|k: int| 0 <= k < plan.len() && plan[k].1 == d)
}

/// Every copy of a plan is of a qualifying entry in range, under that
/// entry's own destination name, which was not yet taken; the copied
/// entries come in order and no destination name is written twice.
proof fn lemma_plan_from_items(entries: Seq<SourceEntry>, i: int, taken: Set<Seq<char>>)
    requires
        0 <= i <= entries.len(),
    ensures
        ({
            let plan = plan_from(entries, i, taken);
            &&& forall|k: int|
                0 <= k < plan.len() ==> i <= (#[trigger] plan[k]).0 < entries.len()
            &&& forall|k: int|
                0 <= k < plan.len() ==> entry_dest(entries[(#[trigger] plan[k]).0]) == Some(
                    plan[k].1,
                )
            &&& forall|k: int| 0 <= k < plan.len() ==> !taken.contains((#[trigger] plan[k]).1)
            &&& forall|k1: int, k2: int|
                0 <= k1 < k2 < plan.len() ==> (#[trigger] plan[k1]).0 < (#[trigger] plan[k2]).0
            &&& forall|k1: int, k2: int|
                0 <= k1 < k2 < plan.len() ==> (#[trigger] plan[k1]).1 != (#[trigger] plan[k2]).1
        }),
    decreases entries.len() - i,
{
    if i < entries.len() {
        let plan = plan_from(entries, i, taken);
        match entry_dest(entries[i]) {
            Some(d) => {
                if !taken.contains(d) {
                    let rest = plan_from(entries, i + 1, taken.insert(d));
                    lemma_plan_from_items(entries, i + 1, taken.insert(d));
                    assert(plan == seq![(i, d)] + rest);
                    assert forall|k: int| 0 <= k < plan.len() implies !taken.contains(
                        (#[trigger] plan[k]).1,
                    ) by {
                        if k > 0 {
                            assert(plan[k] == rest[k - 1]);
                            assert(!taken.insert(d).contains(rest[k - 1].1));
                        }
                    }
                    assert forall|k1: int, k2: int| 0 <= k1 < k2 < plan.len() implies (
                    #[trigger] plan[k1]).1 != (#[trigger] plan[k2]).1 by {
                        if k1 == 0 {
                            assert(plan[k2] == rest[k2 - 1]);
                            assert(!taken.insert(d).contains(rest[k2 - 1].1));
                        } else {
                            assert(plan[k1] == rest[k1 - 1]);
                            assert(plan[k2] == rest[k2 - 1]);
                        }
                    }
                } else {
                    lemma_plan_from_items(entries, i + 1, taken);
                }
            },
            None => {
                lemma_plan_from_items(entries, i + 1, taken);
            },
        }
    }
}

/// Every qualifying entry's destination name is present once the plan has
/// run: it was already taken, or the plan writes it.
proof fn lemma_plan_from_complete(entries: Seq<SourceEntry>, i: int, taken: Set<Seq<char>>)
    requires
        0 <= i <= entries.len(),
    ensures
        forall|j: int|
            i <= j < entries.len() && (#[trigger] entry_dest(entries[j])) is Some ==> taken.contains(
                entry_dest(entries[j])->Some_0,
            ) || plan_dests(plan_from(entries, i, taken)).contains(entry_dest(entries[j])->Some_0),
    decreases entries.len() - i,
{
    if i < entries.len() {
        let plan = plan_from(entries, i, taken);
        match entry_dest(entries[i]) {
            Some(d) => {
                if !taken.contains(d) {
                    let rest = plan_from(entries, i + 1, taken.insert(d));
                    lemma_plan_from_complete(entries, i + 1, taken.insert(d));
                    assert(plan == seq![(i, d)] + rest);
                    assert(plan[0].1 == d);
                    assert(plan_dests(plan).contains(d));
                    assert forall|j: int|
                        i <= j < entries.len() && (#[trigger] entry_dest(
                            entries[j],
                        )) is Some implies taken.contains(entry_dest(entries[j])->Some_0)
                        || plan_dests(plan).contains(entry_dest(entries[j])->Some_0) by {
                        let dj = entry_dest(entries[j])->Some_0;
                        if j > i && !taken.contains(dj) {
                            if dj == d {
                                assert(plan_dests(plan).contains(dj));
                            } else {
                                assert(taken.insert(d).contains(dj) || plan_dests(rest).contains(
                                    dj,
                                ));
                                if plan_dests(rest).contains(dj) {
                                    let k = choose|k: int|
                                        0 <= k < rest.len() && rest[k].1 == dj;
                                    assert(plan[k + 1].1 == dj);
                                }
                            }
                        }
                    }
                } else {
                    lemma_plan_from_complete(entries, i + 1, taken);
                }
            },
            None => {
                lemma_plan_from_complete(entries, i + 1, taken);
            },
        }
    }
}

/// A second pass plans nothing once everything the first pass wrote is
/// taken.
proof fn lemma_plan_from_again(
    entries: Seq<SourceEntry>,
    i: int,
    taken: Set<Seq<char>>,
    taken2: Set<Seq<char>>,
)
    requires
        0 <= i <= entries.len(),
        taken.subset_of(taken2),
        forall|d: Seq<char>|
            plan_dests(plan_from(entries, i, taken)).contains(d) ==> taken2.contains(d),
    ensures
        plan_from(entries, i, taken2) == Seq::<(int, Seq<char>)>::empty(),
    decreases entries.len() - i,
{
    if i < entries.len() {
        let plan = plan_from(entries, i, taken);
        match entry_dest(entries[i]) {
            Some(d) => {
                if !taken.contains(d) {
                    let rest = plan_from(entries, i + 1, taken.insert(d));
                    assert(plan == seq![(i, d)] + rest);
                    assert(plan[0].1 == d);
                    assert(plan_dests(plan).contains(d));
                    assert(taken2.contains(d));
                    assert forall|dd: Seq<char>| plan_dests(rest).contains(dd) implies
                        taken2.contains(dd) by {
                        let k = choose|k: int| 0 <= k < rest.len() && rest[k].1 == dd;
                        assert(plan[k + 1].1 == dd);
                        assert(plan_dests(plan).contains(dd));
                    }
                    lemma_plan_from_again(entries, i + 1, taken.insert(d), taken2);
                } else {
                    assert forall|dd: Seq<char>|
                        plan_dests(plan_from(entries, i + 1, taken)).contains(dd) implies
                        taken2.contains(dd) by {
                        assert(plan_dests(plan).contains(dd));
                    }
                    lemma_plan_from_again(entries, i + 1, taken, taken2);
                }
            },
            None => {
                assert forall|dd: Seq<char>|
                    plan_dests(plan_from(entries, i + 1, taken)).contains(dd) implies
                    taken2.contains(dd) by {
                    assert(plan_dests(plan).contains(dd));
                }
                lemma_plan_from_again(entries, i + 1, taken, taken2);
            },
        }
    }
}

/// Law: for every source entry that decodes and passes the dimension
/// filter, one copy under its destination name exists after the save
/// stage — either the name was already in the target, or the plan writes
/// it.
pub proof fn lemma_save_saves_every_qualifying(entries: Seq<SourceEntry>, taken: Set<Seq<char>>)
    ensures
        forall|j: int|
            0 <= j < entries.len() && (#[trigger] entry_dest(entries[j])) is Some ==> taken.union(
                plan_dests(plan_from(entries, 0, taken)),
            ).contains(entry_dest(entries[j])->Some_0),
{
    lemma_plan_from_complete(entries, 0, taken);
}

/// Law: the save stage never writes the same destination name twice, and
/// never writes a name that already exists in the target.
pub proof fn lemma_save_no_duplicate_copies(entries: Seq<SourceEntry>, taken: Set<Seq<char>>)
    ensures
        ({
            let plan = plan_from(entries, 0, taken);
            &&& forall|k1: int, k2: int|
                0 <= k1 < k2 < plan.len() ==> (#[trigger] plan[k1]).1 != (#[trigger] plan[k2]).1
            &&& forall|k: int| 0 <= k < plan.len() ==> !taken.contains((#[trigger] plan[k]).1)
        }),
{
    lemma_plan_from_items(entries, 0, taken);
}

/// Law: entries that fail format detection, decoding or the dimension
/// filter — and entries that are no regular files — produce no copy.
pub proof fn lemma_save_skips_unqualified(entries: Seq<SourceEntry>, taken: Set<Seq<char>>)
    ensures
        forall|j: int, k: int|
            #![trigger entry_dest(entries[j]), plan_from(entries, 0, taken)[k]]
            0 <= j < entries.len() && entry_dest(entries[j]) is None && 0 <= k < plan_from(
                entries,
                0,
                taken,
            ).len() ==> plan_from(entries, 0, taken)[k].0 != j,
{
    lemma_plan_from_items(entries, 0, taken);
    let plan = plan_from(entries, 0, taken);
    assert forall|j: int, k: int|
        #![trigger entry_dest(entries[j]), plan[k]]
        0 <= j < entries.len() && entry_dest(entries[j]) is None && 0 <= k
            < plan.len() implies plan[k].0 != j by {
        assert(entry_dest(entries[plan[k].0]) == Some(plan[k].1));
    }
}

/// Law: running the save stage a second time over the same source, once
/// everything the first run wrote exists in the target, plans no copy at
/// all.
pub proof fn lemma_save_idempotent(entries: Seq<SourceEntry>, taken: Set<Seq<char>>)
    ensures
        plan_from(entries, 0, taken.union(plan_dests(plan_from(entries, 0, taken))))
            == Seq::<(int, Seq<char>)>::empty(),
{
    let taken2 = taken.union(plan_dests(plan_from(entries, 0, taken)));
    lemma_plan_from_again(entries, 0, taken, taken2);
}

} // verus!
