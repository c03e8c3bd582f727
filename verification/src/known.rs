//! The user's standard folders.

use crate::path::WinPath;
use crate::text::to_chars;
use vstd::prelude::*;

verus! {

/// A standard folder of the user.
#[derive(Debug)]
pub struct KnownFolder {
    pub name: String,
    pub path: WinPath,
}

impl Clone for KnownFolder {
    fn clone(&self) -> (r: KnownFolder)
        ensures
            r == *self,
    {
        KnownFolder { name: self.name.clone(), path: self.path.clone() }
    }
}

/// The names of the standard folders, in the order in which they are shown.
pub open spec fn folder_names() -> Seq<Seq<char>> {
    seq!["Desktop"@, "Downloads"@, "Documents"@, "Pictures"@, "Music"@, "Videos"@]
}

/// The path that the system resolved a folder to, unless it is empty.
pub open spec fn resolved_path(p: Option<WinPath>) -> Option<Seq<char>> {
    match p {
        Some(w) => if w@.len() > 0 {
            Some(w@)
        } else {
            None
        },
        None => None,
    }
}

/// The name and path of each folder below `n` that resolved.
pub open spec fn resolved_below(paths: Seq<Option<WinPath>>, n: int) -> Seq<(Seq<char>, Seq<char>)>
    decreases n,
{
    if n <= 0 {
        seq![]
    } else {
        let before = resolved_below(paths, n - 1);
        match resolved_path(paths[n - 1]) {
            Some(t) => before.push((folder_names()[n - 1], t)),
            None => before,
        }
    }
}

/// The names and paths of a list of folders.
pub open spec fn folder_views(v: Seq<KnownFolder>) -> Seq<(Seq<char>, Seq<char>)> {
    v.map_values(|f: KnownFolder| (f.name@, f.path@))
}

fn folder_name(i: usize) -> (r: String)
    requires
        i < 6,
    ensures
        r@ == folder_names()[i as int],
{
    match i {
        0 => "Desktop".to_string(),
        1 => "Downloads".to_string(),
        2 => "Documents".to_string(),
        3 => "Pictures".to_string(),
        4 => "Music".to_string(),
        _ => "Videos".to_string(),
    }
}

/// Drop a path that is empty.
pub fn resolve(path: &Option<WinPath>) -> (r: Option<WinPath>)
    ensures
        match r {
            Some(w) => resolved_path(*path) == Some(w@),
            None => resolved_path(*path) is None,
        },
{
    match path {
        Some(w) => {
            if to_chars(&w.text).len() == 0 {
                None
            } else {
                Some(w.clone())
            }
        },
        None => None,
    }
}

/// The standard folders that exist, given what each resolved to. Folders that did not
/// resolve are left out.
pub fn known_folders(paths: &Vec<Option<WinPath>>) -> (r: Vec<KnownFolder>)
    requires
        paths@.len() == 6,
    ensures
        folder_views(r@) == resolved_below(paths@, 6),
{
    let mut folders: Vec<KnownFolder> = Vec::new();
    assert(folder_views(folders@) =~= seq![]);
    for i in 0..6usize
        invariant
            paths@.len() == 6,
            folder_views(folders@) == resolved_below(paths@, i as int),
    {
        let ghost prev = folder_views(folders@);
        if let Some(path) = resolve(&paths[i]) {
            let name = folder_name(i);
            let ghost view = (name@, path@);
            folders.push(KnownFolder { name, path });
            assert(folder_views(folders@) =~= prev.push(view));
        }
    }
    folders
}

/// The user's home folder, given what it resolved to.
pub fn user_home(path: &Option<WinPath>) -> (r: Option<WinPath>)
    ensures
        match r {
            Some(w) => resolved_path(*path) == Some(w@),
            None => resolved_path(*path) is None,
        },
{
    resolve(path)
}

/// The standard folders that resolved are listed, each under its own name, in the order of the
/// names; the others are not.
pub proof fn law_resolved_folders_are_listed(paths: Seq<Option<WinPath>>, i: int)
    requires
        paths.len() == 6,
        0 <= i < 6,
    ensures
        paths[i] matches Some(w) && w@.len() > 0 ==> resolved_below(paths, 6).contains(
            (folder_names()[i], paths[i]->0@),
        ),
        forall|k: int|
            0 <= k < resolved_below(paths, 6).len() ==> is_one_of(
                paths,
                6,
                #[trigger] resolved_below(paths, 6)[k],
            ),
        resolved_below(paths, 6).len() <= 6,
{
    lemma_resolved(paths, 6);
    if let Some(w) = paths[i] {
        if w@.len() > 0 {
            assert(came_from(paths, i, (folder_names()[i], w@)));
            lemma_is_listed(paths, 6, i);
        }
    }
}

/// Whether a name and a path are those of folder `j`.
pub open spec fn came_from(
    paths: Seq<Option<WinPath>>,
    j: int,
    folder: (Seq<char>, Seq<char>),
) -> bool {
    paths[j] matches Some(w) && w@.len() > 0 && folder == (folder_names()[j], w@)
}

/// Whether a name and a path are those of one of the folders below `n`.
pub open spec fn is_one_of(
    paths: Seq<Option<WinPath>>,
    n: int,
    folder: (Seq<char>, Seq<char>),
) -> bool {
    exists|j: int| 0 <= j < n && #[trigger] came_from(paths, j, folder)
}

proof fn lemma_resolved(paths: Seq<Option<WinPath>>, n: int)
    requires
        0 <= n <= 6,
    ensures
        resolved_below(paths, n).len() <= n,
        forall|k: int|
            0 <= k < resolved_below(paths, n).len() ==> is_one_of(
                paths,
                n,
                #[trigger] resolved_below(paths, n)[k],
            ),
    decreases n,
{
    if n > 0 {
        lemma_resolved(paths, n - 1);
        let before = resolved_below(paths, n - 1);
        let all = resolved_below(paths, n);
        assert forall|k: int| 0 <= k < all.len() implies is_one_of(paths, n, #[trigger] all[k]) by {
            if k < before.len() {
                assert(is_one_of(paths, n - 1, before[k]));
                let j = choose|j: int| 0 <= j < n - 1 && #[trigger] came_from(paths, j, before[k]);
                assert(came_from(paths, j, all[k]));
            } else {
                assert(came_from(paths, n - 1, all[k]));
            }
        }
    }
}

proof fn lemma_is_listed(paths: Seq<Option<WinPath>>, n: int, i: int)
    requires
        0 <= i < n <= 6,
        paths[i] matches Some(w) && w@.len() > 0,
    ensures
        resolved_below(paths, n).contains((folder_names()[i], paths[i]->0@)),
    decreases n,
{
    let folder = (folder_names()[i], paths[i]->0@);
    let before = resolved_below(paths, n - 1);
    let all = resolved_below(paths, n);
    if i < n - 1 {
        lemma_is_listed(paths, n - 1, i);
        let k = choose|k: int| 0 <= k < before.len() && before[k] == folder;
        assert(all[k] == folder);
    } else {
        assert(all[before.len() as int] == folder);
    }
}

} // verus!
