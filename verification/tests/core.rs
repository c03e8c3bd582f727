use librarian::enumerate::{read_dir_all, read_dir_batched, read_subdirs, Dirent, DirBatcher, DEFAULT_BATCH};
use librarian::history::History;
use librarian::matcher::NameMatcher;
use librarian::model::{
    extension_of, is_wsl_host, is_wsl_root_path, Attributes, Entry, EntryKind, Location,
};
use librarian::path::WinPath;
use librarian::sort::{cmp_name_str, is_visible, sort_entries, Sort, SortKey, SortOrder};
use librarian::walk::{scan, Claim, Found, WalkState};
use std::cmp::Ordering;
use std::collections::HashMap;

fn path(s: &str) -> Location {
    Location::Path(WinPath::new(s))
}

fn entry(name: &str, kind: EntryKind, size: u64) -> Entry {
    Entry {
        name: name.to_string(),
        path: WinPath::new(name),
        kind,
        size,
        modified: None,
        created: None,
        attrs: Attributes::default(),
    }
}

fn names(v: &[Entry]) -> Vec<&str> {
    v.iter().map(|e| e.name.as_str()).collect()
}

// ---- history

#[test]
fn navigate_pushes_back_and_clears_forward() {
    let mut h = History::new(Location::ThisPc);
    h.navigate(path(r"C:\"));
    h.navigate(path(r"C:\Users"));
    assert!(h.can_go_back());
    assert!(!h.can_go_forward());

    h.go_back();
    assert_eq!(h.current(), &path(r"C:\"));
    assert!(h.can_go_forward());

    h.navigate(path(r"C:\Windows"));
    assert!(!h.can_go_forward());
    assert_eq!(h.current(), &path(r"C:\Windows"));
}

#[test]
fn back_and_forward_are_symmetric() {
    let mut h = History::new(Location::ThisPc);
    h.navigate(path(r"C:\"));
    h.go_back();
    assert_eq!(h.current(), &Location::ThisPc);
    h.go_forward();
    assert_eq!(h.current(), &path(r"C:\"));
}

#[test]
fn navigate_to_same_location_is_noop() {
    let mut h = History::new(path(r"C:\"));
    h.navigate(path(r"C:\"));
    assert!(!h.can_go_back());
}

#[test]
fn going_back_at_the_start_and_forward_at_the_end_gives_nothing() {
    let mut h = History::new(path(r"C:\"));
    assert_eq!(h.go_back(), None);
    assert_eq!(h.go_forward(), None);
    h.navigate(path(r"C:\a"));
    assert_eq!(h.go_back(), Some(path(r"C:\")));
    assert_eq!(h.go_forward(), Some(path(r"C:\a")));
}

// ---- model

#[test]
fn parses_virtual_roots() {
    assert_eq!(Location::parse(""), Location::ThisPc);
    assert_eq!(Location::parse("This PC"), Location::ThisPc);
    assert_eq!(Location::parse("linux"), Location::Wsl);
    assert_eq!(Location::parse("WSL"), Location::Wsl);
    assert_eq!(
        Location::parse(r"\\wsl.localhost\Ubuntu"),
        path(r"\\wsl.localhost\Ubuntu")
    );
}

#[test]
fn parsing_trims_white_space() {
    assert_eq!(Location::parse("  C:\\x \t"), path("C:\\x"));
    assert_eq!(Location::parse("   "), Location::ThisPc);
    assert_eq!(Location::parse(" tHiS pC "), Location::ThisPc);
}

#[test]
fn wsl_group_labels_and_has_no_path_or_parent() {
    assert_eq!(Location::Wsl.label(), "Linux");
    assert_eq!(Location::Wsl.as_path(), None);
    assert_eq!(Location::Wsl.parent(), None);
}

#[test]
fn distro_root_parent_is_the_wsl_group() {
    let root = path(r"\\wsl.localhost\Ubuntu");
    assert_eq!(root.parent(), Some(Location::Wsl));
    let legacy = path(r"\\wsl$\Ubuntu");
    assert_eq!(legacy.parent(), Some(Location::Wsl));
}

#[test]
fn inside_a_distro_walks_up_normally() {
    let sub = path(r"\\wsl.localhost\Ubuntu\home");
    assert_eq!(sub.parent(), Some(path(r"\\wsl.localhost\Ubuntu")));
}

#[test]
fn ordinary_unc_share_is_not_a_distro_root() {
    let share = path(r"\\server\share");
    assert_eq!(share.parent(), Some(Location::ThisPc));
}

#[test]
fn path_label_is_the_file_name_or_full_path_for_roots() {
    assert_eq!(path(r"C:\Users\me").label(), "me");
    assert_eq!(path(r"C:\").label(), r"C:\");
    assert_eq!(Location::ThisPc.label(), "This PC");
}

#[test]
fn going_up_ends_at_this_pc() {
    let mut at = path(r"C:\a\b\c");
    let mut steps = 0;
    while let Some(up) = at.parent() {
        at = up;
        steps += 1;
    }
    assert_eq!(at, Location::ThisPc);
    assert_eq!(steps, 4);
}

#[test]
fn going_up_ends_at_linux_inside_a_distribution() {
    let top = |start: Location| {
        let mut at = start;
        while let Some(up) = at.parent() {
            at = up;
        }
        at
    };
    assert_eq!(top(path(r"\\wsl.localhost\Ubuntu\home\me")), Location::Wsl);
    assert_eq!(top(path(r"//WSL$/Debian/etc")), Location::Wsl);
    assert_eq!(top(Location::Wsl), Location::Wsl);
    assert_eq!(top(path(r"\\server\share\x")), Location::ThisPc);
    assert_eq!(top(path(r"\\wsl.localhost")), Location::ThisPc);
    assert_eq!(top(path(r"\\?\UNC\wsl$\Ubuntu\x")), Location::ThisPc);
    assert_eq!(top(path("notes.txt")), Location::ThisPc);
}

#[test]
fn wsl_hosts_and_roots_are_recognised() {
    assert!(is_wsl_host("WSL.LocalHost"));
    assert!(is_wsl_host("wsl$"));
    assert!(!is_wsl_host("server"));
    assert!(is_wsl_root_path(&WinPath::new(r"\\wsl.localhost\Ubuntu")));
    assert!(!is_wsl_root_path(&WinPath::new(r"\\wsl.localhost\Ubuntu\home")));
    assert!(!is_wsl_root_path(&WinPath::new(r"\\server\share")));
}

#[test]
fn extensions_are_lowercase_and_dotless() {
    assert_eq!(extension_of(&WinPath::new(r"C:\a\Photo.PNG")), "png");
    assert_eq!(extension_of(&WinPath::new(r"C:\a\archive.tar.gz")), "gz");
    assert_eq!(extension_of(&WinPath::new(r"C:\a\.gitignore")), "");
    assert_eq!(extension_of(&WinPath::new(r"C:\a\README")), "");
    assert_eq!(entry("x.TXT", EntryKind::File, 0).extension(), "txt");
}

#[test]
fn attribute_bits_are_told_apart() {
    let a = Attributes::from_raw(0x2 | 0x4);
    assert!(a.hidden && a.system && !a.readonly && !a.reparse);
    let b = Attributes::from_raw(0x1 | 0x400);
    assert!(!b.hidden && !b.system && b.readonly && b.reparse);
    assert_eq!(Attributes::from_raw(0), Attributes::default());
}

// ---- paths

#[test]
fn paths_are_compared_by_components() {
    assert_eq!(WinPath::new(r"C:\Users\me"), WinPath::new(r"c:/Users//me/"));
    assert_ne!(WinPath::new(r"C:\Users\me"), WinPath::new(r"C:\users\me"));
    assert!(WinPath::new(r"C:\Users\me").starts_with(&WinPath::new(r"C:\Users")));
    assert!(!WinPath::new(r"C:\UsersX").starts_with(&WinPath::new(r"C:\Users")));
}

#[test]
fn paths_are_taken_apart_and_joined() {
    let p = WinPath::new(r"C:\Users\me");
    assert_eq!(p.file_name(), Some("me".to_string()));
    assert_eq!(p.parent().unwrap().text, r"C:\Users");
    assert_eq!(WinPath::new(r"C:\").parent().map(|p| p.text), None);
    assert_eq!(WinPath::new(r"C:\").file_name(), None);
    assert_eq!(p.join("docs").text, r"C:\Users\me\docs");
    assert_eq!(WinPath::new(r"C:\").join("docs").text, r"C:\docs");
    assert_eq!(p.strip_prefix(&WinPath::new(r"C:\")).unwrap().text, r"Users\me");
    assert_eq!(p.strip_prefix(&WinPath::new(r"D:\")).map(|p| p.text), None);
    assert_eq!(p.depth(), 4);
}

// ---- sort

#[test]
fn folders_sort_before_files() {
    let mut v = vec![
        entry("zeta.txt", EntryKind::File, 10),
        entry("alpha", EntryKind::Directory, 0),
    ];
    sort_entries(&mut v, &Sort::default());
    assert_eq!(v[0].name, "alpha");
    assert_eq!(v[1].name, "zeta.txt");
}

#[test]
fn name_sort_is_case_insensitive() {
    let mut v = vec![
        entry("banana.txt", EntryKind::File, 1),
        entry("Apple.txt", EntryKind::File, 1),
    ];
    sort_entries(&mut v, &Sort::default());
    assert_eq!(v[0].name, "Apple.txt");
}

#[test]
fn descending_size_orders_largest_first() {
    let sort = Sort {
        key: SortKey::Size,
        order: SortOrder::Descending,
        folders_first: false,
    };
    let mut v = vec![
        entry("small", EntryKind::File, 1),
        entry("big", EntryKind::File, 100),
    ];
    sort_entries(&mut v, &sort);
    assert_eq!(v[0].name, "big");
}

#[test]
fn hidden_and_system_filtered_unless_shown() {
    let mut e = entry("secret", EntryKind::File, 0);
    e.attrs.hidden = true;
    assert!(!is_visible(&e, false, ""));
    assert!(is_visible(&e, true, ""));
}

#[test]
fn name_filter_matches_substring_case_insensitively() {
    let e = entry("Report.PDF", EntryKind::File, 0);
    assert!(is_visible(&e, true, "report"));
    assert!(is_visible(&e, true, "pdf"));
    assert!(!is_visible(&e, true, "xls"));
}

#[test]
fn equal_entries_keep_their_order_and_sorting_again_changes_nothing() {
    let sort = Sort {
        key: SortKey::Size,
        order: SortOrder::Ascending,
        folders_first: true,
    };
    let mut v = vec![
        entry("b", EntryKind::File, 5),
        entry("a", EntryKind::File, 5),
        entry("c", EntryKind::File, 1),
    ];
    sort_entries(&mut v, &sort);
    assert_eq!(names(&v), ["c", "b", "a"]);
    sort_entries(&mut v, &sort);
    assert_eq!(names(&v), ["c", "b", "a"]);
}

#[test]
fn types_sort_by_extension_and_names_within_it() {
    let sort = Sort {
        key: SortKey::Type,
        order: SortOrder::Ascending,
        folders_first: true,
    };
    let mut v = vec![
        entry("b.txt", EntryKind::File, 0),
        entry("z.doc", EntryKind::File, 0),
        entry("A.txt", EntryKind::File, 0),
    ];
    sort_entries(&mut v, &sort);
    assert_eq!(names(&v), ["z.doc", "A.txt", "b.txt"]);
}

#[test]
fn unknown_times_sort_first() {
    let sort = Sort {
        key: SortKey::Modified,
        order: SortOrder::Ascending,
        folders_first: true,
    };
    let mut known = entry("known", EntryKind::File, 0);
    known.modified = Some(7);
    let mut v = vec![known, entry("unknown", EntryKind::File, 0)];
    sort_entries(&mut v, &sort);
    assert_eq!(names(&v), ["unknown", "known"]);
}

#[test]
fn names_compare_without_regard_to_case() {
    assert_eq!(cmp_name_str("ABC", "abc"), Ordering::Equal);
    assert_eq!(cmp_name_str("abc", "ABD"), Ordering::Less);
    assert_eq!(cmp_name_str("É", "é"), Ordering::Equal);
    assert_eq!(cmp_name_str("b", "A"), Ordering::Greater);
}

// ---- matcher

#[test]
fn matches_substring_case_insensitively() {
    let m = NameMatcher::new("Report");
    assert!(m.is_match("Quarterly Report 2026"));
    assert!(m.is_match("annual-report.txt"));
    assert!(!m.is_match("summary"));
}

#[test]
fn handles_overlapping_prefixes() {
    let m = NameMatcher::new("aabaa");
    assert!(m.is_match("xaabaabaay"));
    assert!(!m.is_match("aabab"));
}

#[test]
fn empty_query_matches_nothing() {
    assert!(!NameMatcher::new("").is_match("anything"));
}

#[test]
fn accents_match_without_regard_to_case() {
    assert!(NameMatcher::new("ÉTÉ").is_match("un été"));
}

#[test]
fn a_query_matches_its_own_text() {
    for text in ["ΟΔΟΣ", "οδος", "İstanbul", "straße", "ÀÉ x"] {
        assert!(NameMatcher::new(text).is_match(text), "{text}");
        assert!(NameMatcher::new(text).is_match(&format!("a {text} b")), "{text}");
    }
    assert!(NameMatcher::new("ΟΔΟΣ").is_match("οδοσ"));
    assert!(!NameMatcher::new("ΟΔΟΣ").is_match("οδος"));
}

// ---- enumeration

fn dirent(dir: &str, name: &str, is_dir: bool) -> Dirent {
    Dirent {
        name: name.to_string(),
        path: WinPath::new(&format!("{dir}\\{name}")),
        is_dir,
        len: 9,
        modified: Some(1),
        created: None,
        attributes: 0,
    }
}

#[test]
fn enumerates_files_and_dirs_with_metadata() {
    let listing = vec![
        Some(dirent(r"C:\t", "subdir", true)),
        Some(dirent(r"C:\t", "hello.txt", false)),
    ];
    let mut entries = read_dir_all(&listing);
    entries.sort_by(|a, b| a.name.cmp(&b.name));

    assert_eq!(entries.len(), 2);
    assert_eq!(entries[0].name, "hello.txt");
    assert_eq!(entries[0].kind, EntryKind::File);
    assert_eq!(entries[0].extension(), "txt");
    assert_eq!(entries[1].name, "subdir");
    assert!(entries[1].is_dir());
    assert_eq!(entries[0].size, 9);
    assert_eq!(entries[1].size, 0);
}

#[test]
fn read_subdirs_returns_only_directories() {
    let listing = vec![
        Some(dirent(r"C:\t", "alpha", true)),
        Some(dirent(r"C:\t", "file.txt", false)),
        None,
        Some(dirent(r"C:\t", "beta", true)),
    ];
    let mut dirs = read_subdirs(&listing);
    dirs.sort_by(|a, b| a.name.cmp(&b.name));

    assert_eq!(dirs.len(), 2, "files must be excluded");
    assert_eq!(dirs[0].name, "alpha");
    assert_eq!(dirs[1].name, "beta");
    assert!(dirs.iter().all(|d| d.is_dir()));
}

#[test]
fn batching_breaks_early_on_request() {
    let listing: Vec<Option<Dirent>> = (0..10)
        .map(|i| Some(dirent(r"C:\t", &format!("f{i}.bin"), false)))
        .collect();
    let batches = read_dir_batched(&listing, 2, |_| false);
    let seen: usize = batches.iter().map(|b| b.len()).sum();
    assert_eq!(seen, 2);
    assert_eq!(batches.len(), 1);
}

#[test]
fn batching_delivers_everything_in_order() {
    let listing: Vec<Option<Dirent>> = (0..5)
        .map(|i| {
            if i == 2 {
                None
            } else {
                Some(dirent(r"C:\t", &format!("f{i}"), false))
            }
        })
        .collect();
    let batches = read_dir_batched(&listing, 3, |_| true);
    assert_eq!(batches.len(), 2);
    assert_eq!(names(&batches[0]), ["f0", "f1", "f3"]);
    assert_eq!(names(&batches[1]), ["f4"]);
}

#[test]
fn a_batcher_gives_out_full_batches_and_the_rest() {
    let mut b = DirBatcher::new(2);
    assert!(b.push(&Some(dirent(r"C:\t", "a", false))).is_none());
    assert!(b.push(&None).is_none());
    assert_eq!(b.push(&Some(dirent(r"C:\t", "b", false))).unwrap().len(), 2);
    assert!(b.push(&Some(dirent(r"C:\t", "c", false))).is_none());
    assert_eq!(b.finish().unwrap().len(), 1);
    assert!(b.finish().is_none());
    assert_eq!(DEFAULT_BATCH, 256);
}

// ---- walking

type Disk = HashMap<String, Vec<Option<Dirent>>>;

fn add_dir(disk: &mut Disk, dir: &str, name: &str, is_dir: bool) {
    let d = dirent(dir, name, is_dir);
    let full = d.path.text.clone();
    disk.entry(dir.to_string()).or_default().push(Some(d));
    if is_dir {
        disk.entry(full).or_default();
    }
}

fn find_matching_dirs(disk: &Disk, root: &str, query: &str, cap: usize, cancelled: bool) -> Vec<String> {
    let matcher = NameMatcher::new(query);
    let mut state = WalkState::new(&WinPath::new(root), cap);
    loop {
        match state.claim(cancelled) {
            Claim::Read(dir) => {
                let empty: Vec<Option<Dirent>> = Vec::new();
                let listing = disk.get(&dir.text).unwrap_or(&empty);
                state.merge(scan(listing, &matcher));
            }
            Claim::Wait => unreachable!(),
            Claim::Exit => break,
        }
    }
    state.results.iter().map(|p| p.text.clone()).collect()
}

#[test]
fn finds_matching_directories_recursively() {
    let mut disk = Disk::new();
    add_dir(&mut disk, r"C:\m", "projects", true);
    add_dir(&mut disk, r"C:\m\projects", "report-archive", true);
    add_dir(&mut disk, r"C:\m", "Reports", true);
    add_dir(&mut disk, r"C:\m", "misc", true);
    add_dir(&mut disk, r"C:\m", "report.txt", false);

    let mut found = find_matching_dirs(&disk, r"C:\m", "report", 100, false);
    found.sort();
    assert_eq!(found, vec![r"C:\m\Reports", r"C:\m\projects\report-archive"]);
}

#[test]
fn finds_matches_deep_in_a_wide_tree() {
    let mut disk = Disk::new();
    for a in 0..6 {
        add_dir(&mut disk, r"C:\d", &format!("a{a}"), true);
        for b in 0..6 {
            add_dir(&mut disk, &format!(r"C:\d\a{a}"), &format!("b{b}"), true);
            add_dir(&mut disk, &format!(r"C:\d\a{a}\b{b}"), "leaf", true);
        }
    }
    add_dir(&mut disk, r"C:\d\a3\b4", "treasure-chest", true);

    let found = find_matching_dirs(&disk, r"C:\d", "treasure", 100, false);
    assert_eq!(found.len(), 1);
    assert!(found[0].ends_with("treasure-chest"));
}

#[test]
fn cancelled_walk_returns_promptly() {
    let mut disk = Disk::new();
    add_dir(&mut disk, r"C:\c", "alpha", true);
    assert!(find_matching_dirs(&disk, r"C:\c", "alpha", 100, true).is_empty());
}

#[test]
fn respects_the_cap() {
    let mut disk = Disk::new();
    for i in 0..5 {
        add_dir(&mut disk, r"C:\c", &format!("data{i}"), true);
    }
    assert_eq!(find_matching_dirs(&disk, r"C:\c", "data", 3, false).len(), 3);
    assert!(find_matching_dirs(&disk, r"C:\c", "data", 0, false).is_empty());
}

#[test]
fn links_to_directories_are_matched_but_not_entered() {
    let mut link = dirent(r"C:\l", "data-link", true);
    link.attributes = 0x400;
    let found: Found = scan(&vec![Some(link)], &NameMatcher::new("data"));
    assert_eq!(found.matches.len(), 1);
    assert!(found.subdirs.is_empty());
}

#[test]
fn a_second_worker_waits_while_the_first_reads() {
    let mut state = WalkState::new(&WinPath::new(r"C:\w"), 10);
    assert!(matches!(state.claim(false), Claim::Read(_)));
    assert!(matches!(state.claim(false), Claim::Wait));
    state.merge(Found {
        matches: Vec::new(),
        subdirs: vec![WinPath::new(r"C:\w\x")],
    });
    assert!(matches!(state.claim(false), Claim::Read(_)));
    state.merge(Found {
        matches: Vec::new(),
        subdirs: Vec::new(),
    });
    assert!(matches!(state.claim(false), Claim::Exit));
}

#[test]
fn the_walk_reports_each_match_once_up_to_the_cap() {
    let mut disk = Disk::new();
    for a in 0..4 {
        add_dir(&mut disk, r"C:\o", &format!("data{a}"), true);
        for b in 0..3 {
            add_dir(&mut disk, &format!(r"C:\o\data{a}"), &format!("data{b}"), true);
        }
    }
    for cap in [1, 5, 15, 16, 17, 100] {
        let mut found = find_matching_dirs(&disk, r"C:\o", "data", cap, false);
        assert_eq!(found.len(), cap.min(16));
        found.sort();
        found.dedup();
        assert_eq!(found.len(), cap.min(16));
    }
}
