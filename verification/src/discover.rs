//! Source directory discovery: find the OS-managed package directory that
//! caches Spotlight assets.
//!
//! The binary lists the immediate children of
//! `<home>\AppData\Local\Packages` and hands them here in the order the
//! filesystem yielded them; the choice of the first matching subdirectory
//! and the composition of the asset path are decided and verified here.
//! Which directory wins when several match is therefore filesystem-defined,
//! a deliberately preserved ambiguity of the tool. The path is composed
//! with Windows separators, as the cache location only exists there.
use vstd::prelude::*;
use vstd::string::{StringExecFns, StrSliceExecFns};

verus! {

/// One immediate child of the package root: its name and whether it is a
/// directory.
pub struct DirEntry {
    pub name: String,
    pub is_dir: bool,
}

/// The vendor/package prefix that marks the content-delivery cache.
pub open spec fn spotlight_prefix() -> Seq<char> {
    "Microsoft.Windows.ContentDeliveryManager_"@
}

pub open spec fn has_prefix(name: Seq<char>, prefix: Seq<char>) -> bool {
    name.len() >= prefix.len() && name.take(prefix.len() as int) == prefix
}

/// Whether this entry is the cache package: a directory whose name starts
/// with the vendor prefix.
pub open spec fn is_spotlight_package(e: DirEntry) -> bool {
    e.is_dir && has_prefix(e.name@, spotlight_prefix())
}

/// The first matching entry, scanning from `i`.
pub open spec fn first_package(entries: Seq<DirEntry>, i: int) -> Option<int>
    decreases entries.len() - i when 0 <= i <= entries.len()
{
    if i >= entries.len() {
        None
    } else if is_spotlight_package(entries[i]) {
        Some(i)
    } else {
        first_package(entries, i + 1)
    }
}

/// The asset subfolder inside a package directory of the given name.
pub open spec fn spotlight_path(home: Seq<char>, package: Seq<char>) -> Seq<char> {
    home + "\\AppData\\Local\\Packages\\"@ + package + "\\LocalState\\Assets"@
}

/// Whether `name` starts with the vendor prefix.
pub fn name_has_prefix(name: &String) -> (r: bool)
    ensures
        r == has_prefix(name@, spotlight_prefix()),
{
    let prefix = "Microsoft.Windows.ContentDeliveryManager_";
    proof {
        reveal_strlit("Microsoft.Windows.ContentDeliveryManager_");
    }
    let plen = prefix.unicode_len();
    let nlen = name.as_str().unicode_len();
    if nlen < plen {
        return false;
    }
    let mut k: usize = 0;
    while k < plen
        invariant
            k <= plen,
            plen == spotlight_prefix().len(),
            nlen == name@.len(),
            nlen >= plen,
            prefix@ == spotlight_prefix(),
            forall|j: int| 0 <= j < k ==> name@[j] == spotlight_prefix()[j],
        decreases plen - k,
    {
        if name.as_str().get_char(k) != prefix.get_char(k) {
            proof {
                assert(name@.take(plen as int)[k as int] != spotlight_prefix()[k as int]);
            }
            return false;
        }
        k += 1;
    }
    proof {
        assert(name@.take(plen as int) =~= spotlight_prefix());
    }
    true
}

/// Source directory discovery: given the home directory and the children
/// of the package root in filesystem order, the path of the asset folder
/// inside the first directory whose name carries the vendor prefix, or
/// `None` where no child matches.
pub fn get_spotlight_dir(home: &String, entries: &Vec<DirEntry>) -> (r: Option<String>)
    ensures
        (r matches Some(p) ==> first_package(entries@, 0) matches Some(k) && p@ == spotlight_path(
            home@,
            entries@[k].name@,
        )),
        (r is None ==> first_package(entries@, 0) is None),
{
    let mut i: usize = 0;
    while i < entries.len()
        invariant
            i <= entries.len(),
            first_package(entries@, 0) == first_package(entries@, i as int),
        decreases entries.len() - i,
    {
        let e = &entries[i];
        if e.is_dir && name_has_prefix(&e.name) {
            let mut path = home.clone();
            path.append("\\AppData\\Local\\Packages\\");
            path.append(e.name.as_str());
            path.append("\\LocalState\\Assets");
            proof {
                assert(first_package(entries@, i as int) == Some(i as int));
                assert(path@ =~= spotlight_path(home@, entries@[i as int].name@));
            }
            return Some(path);
        }
        i += 1;
    }
    None
}

} // verus!
