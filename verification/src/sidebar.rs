//! What the navigation tree is filled with.

use crate::drives::DriveInfo;
use crate::icons::{IconKey, IconName};
use crate::known::KnownFolder;
use crate::model::{Entry, Location, Place};
use crate::order::{by_index, lemma_same_order, sorted_by};
use crate::path::{name_text, WinPath};
use crate::rows::{
    distro_row, drive_row, known_row, row_from_distro, row_from_drive, row_from_known, RowData,
};
use crate::sort::{is_visible, names_le, order_names, rank_names, visible};
use crate::text::{strings, Rank};
use crate::tree::TreeChild;
use crate::wsl::WslDistro;
use vstd::prelude::*;

verus! {

/// Whether a child stands for the given label, icon and place, and loads its own children
/// on first expand.
pub open spec fn is_leaf(c: TreeChild, label: Seq<char>, icon: IconName, place: Place) -> bool {
    &&& c.label@ == label
    &&& c.icon@ == icon
    &&& c.location@ == place
    &&& c.children is None
    &&& !c.expanded
}

/// Whether a child stands for the same thing as a row of the list.
pub open spec fn is_row_leaf(c: TreeChild, row: RowData) -> bool {
    is_leaf(c, row.label, row.icon, row.target)
}

/// Whether children stand for the known folders.
pub open spec fn are_known(s: Seq<TreeChild>, folders: Seq<KnownFolder>) -> bool {
    &&& s.len() == folders.len()
    &&& forall|i: int| 0 <= i < s.len() ==> is_row_leaf(#[trigger] s[i], known_row(folders[i]))
}

/// The label of the home folder.
pub open spec fn home_label(home: Seq<char>) -> Seq<char> {
    match name_text(home) {
        Some(name) => name,
        None => "Home"@,
    }
}

/// Whether a child is the home folder with the known folders shown inside.
pub open spec fn is_home(c: TreeChild, home: Seq<char>, folders: Seq<KnownFolder>) -> bool {
    &&& c.label@ == home_label(home)
    &&& c.icon@ == IconName::Path(home)
    &&& c.location@ == Place::Path(home)
    &&& c.expanded
    &&& c.children matches Some(v) && are_known(v@, folders)
}

/// The standalone "This PC" node, which holds the drives.
pub fn this_pc_tree_child() -> (r: TreeChild)
    ensures
        is_leaf(r, "This PC"@, IconName::Computer, Place::ThisPc),
{
    TreeChild::lazy("This PC".to_string(), IconKey::Computer, Location::ThisPc)
}

/// The "Linux" node, which holds the distributions.
pub fn wsl_tree_child() -> (r: TreeChild)
    ensures
        is_leaf(r, "Linux"@, IconName::Wsl, Place::Wsl),
{
    TreeChild::lazy("Linux".to_string(), IconKey::Wsl, Location::Wsl)
}

/// A drive's node; label and icon are those of its row.
pub fn tree_child_from_drive(drive: &DriveInfo) -> (r: TreeChild)
    ensures
        is_row_leaf(r, drive_row(*drive)),
{
    let row = row_from_drive(drive);
    TreeChild::lazy(row.label, row.icon, row.target)
}

/// A known folder's node; label and icon are those of its row.
pub fn tree_child_from_known(folder: &KnownFolder) -> (r: TreeChild)
    ensures
        is_row_leaf(r, known_row(*folder)),
{
    let row = row_from_known(folder);
    TreeChild::lazy(row.label, row.icon, row.target)
}

/// A distribution's node; label and icon are those of its row.
pub fn tree_child_from_distro(distro: &WslDistro) -> (r: TreeChild)
    ensures
        is_row_leaf(r, distro_row(*distro)),
{
    let row = row_from_distro(distro);
    TreeChild::lazy(row.label, row.icon, row.target)
}

/// The user's home folder, with the given nodes shown inside. It is called by its own
/// name.
pub fn home_tree_child(home: WinPath, folders: Vec<TreeChild>) -> (r: TreeChild)
    ensures
        r.label@ == home_label(home@),
        r.icon@ == IconName::Path(home@),
        r.location@ == Place::Path(home@),
        r.children == Some(folders),
        r.expanded,
{
    let label = match home.file_name() {
        Some(name) => name,
        None => "Home".to_string(),
    };
    TreeChild::branch(label, IconKey::Path(home.clone()), Location::Path(home), folders)
}

/// The top-level nodes: the home folder with the known folders inside (or the known
/// folders themselves, where there is no home folder), then "This PC", then "Linux" where
/// a distribution is installed.
pub fn fetch_tree_roots(
    folders: &Vec<KnownFolder>,
    home: Option<WinPath>,
    distros: &Vec<WslDistro>,
) -> (r: Vec<TreeChild>)
    ensures
        ({
            let tops: int = if home is Some {
                1
            } else {
                folders@.len() as int
            };
            let groups: int = if distros@.len() > 0 {
                2
            } else {
                1
            };
            &&& r@.len() == tops + groups
            &&& match home {
                Some(h) => is_home(r@[0], h@, folders@),
                None => are_known(r@.take(tops), folders@),
            }
            &&& is_leaf(r@[tops], "This PC"@, IconName::Computer, Place::ThisPc)
            &&& distros@.len() > 0 ==> is_leaf(r@[tops + 1], "Linux"@, IconName::Wsl, Place::Wsl)
        }),
{
    let mut known: Vec<TreeChild> = Vec::new();
    for i in 0..folders.len()
        invariant
            known@.len() == i,
            forall|k: int|
                0 <= k < i ==> is_row_leaf(#[trigger] known@[k], known_row(folders@[k])),
    {
        known.push(tree_child_from_known(&folders[i]));
    }
    let mut roots: Vec<TreeChild> = match home {
        Some(h) => {
            let mut v: Vec<TreeChild> = Vec::new();
            v.push(home_tree_child(h, known));
            v
        },
        None => known,
    };
    let ghost tops = roots@;
    roots.push(this_pc_tree_child());
    if distros.len() > 0 {
        roots.push(wsl_tree_child());
    }
    assert(roots@.take(tops.len() as int) =~= tops);
    roots
}

/// The nodes under "This PC": the drives.
pub fn drive_children(drives: &Vec<DriveInfo>) -> (r: Vec<TreeChild>)
    ensures
        r@.len() == drives@.len(),
        forall|i: int|
            0 <= i < r@.len() ==> is_row_leaf(#[trigger] r@[i], drive_row(drives@[i])),
{
    let mut out: Vec<TreeChild> = Vec::new();
    for i in 0..drives.len()
        invariant
            out@.len() == i,
            forall|k: int|
                0 <= k < i ==> is_row_leaf(#[trigger] out@[k], drive_row(drives@[k])),
    {
        out.push(tree_child_from_drive(&drives[i]));
    }
    out
}

/// The nodes under "Linux": the distributions.
pub fn distro_children(distros: &Vec<WslDistro>) -> (r: Vec<TreeChild>)
    ensures
        r@.len() == distros@.len(),
        forall|i: int|
            0 <= i < r@.len() ==> is_row_leaf(#[trigger] r@[i], distro_row(distros@[i])),
{
    let mut out: Vec<TreeChild> = Vec::new();
    for i in 0..distros.len()
        invariant
            out@.len() == i,
            forall|k: int|
                0 <= k < i ==> is_row_leaf(#[trigger] out@[k], distro_row(distros@[k])),
    {
        out.push(tree_child_from_distro(&distros[i]));
    }
    out
}

/// The entries of a listing that are shown, in order.
pub open spec fn shown_entries(s: Seq<Entry>, show_hidden: bool) -> Seq<Entry>
    decreases s.len(),
{
    if s.len() == 0 {
        seq![]
    } else {
        let before = shown_entries(s.drop_last(), show_hidden);
        if visible(s.last(), show_hidden, ""@) {
            before.push(s.last())
        } else {
            before
        }
    }
}

/// The entries of a listing that are shown.
pub fn keep_visible(entries: &Vec<Entry>, show_hidden: bool) -> (r: Vec<Entry>)
    ensures
        r@ == shown_entries(entries@, show_hidden),
{
    let mut out: Vec<Entry> = Vec::new();
    assert(entries@.take(0) =~= seq![]);
    for i in 0..entries.len()
        invariant
            out@ == shown_entries(entries@.take(i as int), show_hidden),
    {
        assert(entries@.take(i + 1).drop_last() =~= entries@.take(i as int));
        if is_visible(&entries[i], show_hidden, "") {
            out.push(entries[i].clone());
        }
    }
    assert(entries@.take(entries@.len() as int) =~= entries@);
    out
}

/// Whether one name may stand before another, ignoring case.
pub open spec fn name_le() -> spec_fn(Entry, Entry) -> bool {
    |a: Entry, b: Entry| rank_names(a.name@, b.name@) != Rank::Greater
}

/// The folders to show under a folder: those of the listing that are shown, by name.
pub open spec fn subfolders(dirs: Seq<Entry>, show_hidden: bool) -> Seq<Entry> {
    sorted_by(shown_entries(dirs, show_hidden), name_le())
}

/// The nodes under a folder, from a listing of its subdirectories.
pub fn folder_children(dirs: &Vec<Entry>, show_hidden: bool) -> (r: Vec<TreeChild>)
    ensures
        r@.len() == subfolders(dirs@, show_hidden).len(),
        forall|i: int|
            0 <= i < r@.len() ==> {
                let e = subfolders(dirs@, show_hidden)[i];
                is_leaf(#[trigger] r@[i], e.name@, IconName::Folder, Place::Path(e.path@))
            },
{
    let shown = keep_visible(dirs, show_hidden);
    let n: usize = shown.len();
    let mut names: Vec<String> = Vec::new();
    for i in 0..n
        invariant
            n == shown@.len(),
            names@.len() == i,
            forall|k: int| 0 <= k < i ==> (#[trigger] names@[k])@ == shown@[k].name@,
    {
        names.push(shown[i].name.clone());
    }
    let p = order_names(&names);
    proof {
        let texts = strings(names@);
        let rel = by_index(texts, names_le());
        let other = by_index(shown@, name_le());
        assert forall|i: int, j: int| 0 <= i < n && 0 <= j < n implies #[trigger] rel(i, j)
            == other(i, j) by {
            assert(texts[i] == names@[i]@ && texts[j] == names@[j]@);
        }
        lemma_same_order(rel, other, n as int, p@);
    }
    let mut out: Vec<TreeChild> = Vec::new();
    for k in 0..n
        invariant
            n == shown@.len(),
            shown@ == shown_entries(dirs@, show_hidden),
            p@ == crate::order::the_order(by_index(shown@, name_le()), n as int),
            crate::order::covers(p@, 0, n as int),
            out@.len() == k,
            forall|a: int|
                0 <= a < k ==> {
                    let e = subfolders(dirs@, show_hidden)[a];
                    is_leaf(#[trigger] out@[a], e.name@, IconName::Folder, Place::Path(e.path@))
                },
    {
        let e = &shown[p[k]];
        assert(*e == subfolders(dirs@, show_hidden)[k as int]);
        out.push(
            TreeChild::lazy(e.name.clone(), IconKey::Folder, Location::Path(e.path.clone())),
        );
    }
    out
}

/// The folders under a folder of the tree are those of its listing that are on show, each once,
/// in the order of their names, ignoring case.
pub proof fn law_subfolders_are_listed_by_name(dirs: Seq<Entry>, show_hidden: bool)
    requires
        dirs.len() <= usize::MAX,
    ensures
        ({
            let now = subfolders(dirs, show_hidden);
            &&& now.to_multiset() == shown_entries(dirs, show_hidden).to_multiset()
            &&& forall|a: int, b: int|
                #![trigger now[a], now[b]]
                0 <= a < b < now.len() ==> crate::sort::names_in_order(
                    now[a].name@,
                    now[b].name@,
                )
            &&& forall|i: int|
                0 <= i < dirs.len() ==> ((show_hidden || (!(#[trigger] dirs[i]).attrs.hidden
                    && !dirs[i].attrs.system)) ==> now.contains(dirs[i]))
            &&& forall|i: int|
                0 <= i < now.len() ==> show_hidden || (!(#[trigger] now[i]).attrs.hidden
                    && !now[i].attrs.system)
        }),
{
    let s = shown_entries(dirs, show_hidden);
    let le = name_le();
    lemma_shown_entries(dirs, show_hidden);
    assert forall|i: int, j: int| 0 <= i < s.len() && 0 <= j < s.len() implies #[trigger] le(
        s[i],
        s[j],
    ) || le(s[j], s[i]) by {
        crate::text::lemma_rank_text(
            crate::unicode::lowercase(s[i].name@),
            crate::unicode::lowercase(s[j].name@),
        );
    }
    assert forall|i: int, j: int, k: int|
        0 <= i < s.len() && 0 <= j < s.len() && 0 <= k < s.len() && #[trigger] le(s[i], s[j])
            && #[trigger] le(s[j], s[k]) implies le(s[i], s[k]) by {
        crate::text::lemma_rank_text_transitive(
            crate::unicode::lowercase(s[i].name@),
            crate::unicode::lowercase(s[j].name@),
            crate::unicode::lowercase(s[k].name@),
        );
    }
    let p = crate::order::law_sorting_rearranges(s, le);
    let now = subfolders(dirs, show_hidden);
    assert forall|a: int, b: int|
        #![trigger now[a], now[b]]
        0 <= a < b < now.len() implies crate::sort::names_in_order(now[a].name@, now[b].name@) by {
        crate::text::law_texts_rank_as_in_a_dictionary(
            crate::unicode::lowercase(now[a].name@),
            crate::unicode::lowercase(now[b].name@),
        );
    }
    assert forall|i: int|
        0 <= i < dirs.len() && (show_hidden || (!(#[trigger] dirs[i]).attrs.hidden
            && !dirs[i].attrs.system)) implies now.contains(dirs[i]) by {
        broadcast use vstd::seq_lib::group_to_multiset_ensures;
        assert(s.contains(dirs[i]));
        assert(s.to_multiset().count(dirs[i]) > 0);
    }
    assert forall|i: int| 0 <= i < now.len() implies show_hidden || (!(
    #[trigger] now[i]).attrs.hidden && !now[i].attrs.system) by {
        assert(now[i] == s[p[i] as int]);
    }
}

proof fn lemma_shown_entries(s: Seq<Entry>, show_hidden: bool)
    ensures
        ({
            let now = shown_entries(s, show_hidden);
            &&& now.len() <= s.len()
            &&& forall|i: int|
                0 <= i < s.len() ==> ((show_hidden || (!(#[trigger] s[i]).attrs.hidden
                    && !s[i].attrs.system)) ==> now.contains(s[i]))
            &&& forall|i: int|
                0 <= i < now.len() ==> show_hidden || (!(#[trigger] now[i]).attrs.hidden
                    && !now[i].attrs.system)
        }),
    decreases s.len(),
{
    if s.len() > 0 {
        let t = s.drop_last();
        lemma_shown_entries(t, show_hidden);
        reveal_strlit("");
        let before = shown_entries(t, show_hidden);
        let now = shown_entries(s, show_hidden);
        assert forall|i: int|
            0 <= i < s.len() && (show_hidden || (!(#[trigger] s[i]).attrs.hidden
                && !s[i].attrs.system)) implies now.contains(s[i]) by {
            if i < t.len() {
                assert(t[i] == s[i]);
                assert(before.contains(t[i]));
                let k = choose|k: int| 0 <= k < before.len() && before[k] == t[i];
                assert(now[k] == s[i]);
            } else {
                assert(now[before.len() as int] == s[i]);
            }
        }
        assert forall|i: int| 0 <= i < now.len() implies show_hidden || (!(
        #[trigger] now[i]).attrs.hidden && !now[i].attrs.system) by {
            if i < before.len() {
                assert(now[i] == before[i]);
            }
        }
    }
}

/// The home folder in the tree is called by its own name, leads to itself, and is shown open
/// with the standard folders inside, each called by its name and leading to its path.
pub proof fn law_home_holds_the_standard_folders(
    c: TreeChild,
    home: Seq<char>,
    folders: Seq<KnownFolder>,
    i: int,
)
    requires
        is_home(c, home, folders),
        0 <= i < folders.len(),
    ensures
        c.location@ == Place::Path(home),
        c.expanded,
        name_text(home) matches Some(name) ==> c.label@ == name,
        c.children is Some && c.children->0@.len() == folders.len(),
        ({
            let f = c.children->0@[i];
            &&& f.label@ == folders[i].name@
            &&& f.location@ == Place::Path(folders[i].path@)
            &&& f.children is None
            &&& !f.expanded
        }),
{
    let kids = c.children->0@;
    assert(is_row_leaf(kids[i], known_row(folders[i])));
}

} // verus!
