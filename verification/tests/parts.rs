use librarian::assoc::KeyMap;
use librarian::columns::{
    decode_layout, decode_rule, encode_layout, layout_fields, round_width, whole_width, ColRule,
    Column, ColumnLayout,
};
use librarian::config::{
    column_fields, columns_file_name, config_path_for, parse, parse_columns, portable_path,
    roaming_path, serialize, serialize_columns, settings_file_name, ColumnStore, Settings,
};
use librarian::drives::{DriveInfo, DriveKind};
use librarian::icons::{extract_icons, generic_file_name, IconCache, IconKey};
use librarian::known::KnownFolder;
use librarian::model::{Attributes, Entry, EntryKind, Location};
use librarian::path::WinPath;
use librarian::rows::{
    drive_kind_name, human_size, row_from_distro, row_from_drive, row_from_entry, row_from_hit,
    row_from_known, type_label,
};
use librarian::search::{
    build_command, dir_batches, escape_glob, install_candidates, parse_line, ripgrep_candidates,
    ripgrep_path, Launch, SearchEvent, SearchHit, SearchMode, SearchReply, SearchRun, SearchSpec,
    SearchTask, BATCH, RESULT_CAP,
};
use librarian::selection::Selection;
use librarian::sidebar::{fetch_tree_roots, folder_children};
use librarian::sort::{Sort, SortKey, SortOrder};
use librarian::thumbs::{extract_cached, extract_full, ThumbCache, ThumbKey, CAPACITY};
use librarian::time::{format_time, format_time_at};
use librarian::tree::{NodeId, Reveal, Tree, TreeChild, ROOT_ID};
use librarian::view_mode::ViewMode;
use librarian::wsl::{distro_unc_path, WslDistro};

fn win(s: &str) -> WinPath {
    WinPath::new(s)
}

// ---- columns

fn fixed(px: f32) -> ColRule {
    ColRule::Fixed(px.to_bits())
}

fn width(field: &str) -> Option<u32> {
    field.parse::<f32>().ok().map(|w| w.to_bits())
}

fn decode(text: &str) -> Option<ColumnLayout> {
    let widths: Vec<Option<u32>> = layout_fields(text).iter().map(|f| width(f)).collect();
    decode_layout(text, &widths)
}

#[test]
fn round_trips_a_customized_layout() {
    let layout = ColumnLayout {
        name: fixed(240.0),
        modified: ColRule::Auto,
        type_: fixed(120.0),
        size: ColRule::Fill,
    };
    assert_eq!(decode(&encode_layout(&layout)), Some(layout));
}

#[test]
fn default_layout_round_trips() {
    let layout = ColumnLayout::default();
    assert!(layout.is_default());
    assert_eq!(decode(&encode_layout(&layout)), Some(layout));
}

#[test]
fn rejects_malformed_encodings() {
    assert_eq!(decode("fill;auto;auto"), None);
    assert_eq!(decode("fill;auto;auto;auto;auto"), None);
    assert_eq!(decode("fill;auto;bogus;auto"), None);
}

#[test]
fn rejects_non_finite_fixed_widths() {
    assert_eq!(decode_rule("nan", width("nan")), None);
    assert_eq!(decode_rule("inf", width("inf")), None);
    assert_eq!(decode_rule("-inf", width("-inf")), None);
    assert_eq!(decode_rule("240", width("240")), Some(fixed(240.0)));
}

#[test]
fn set_and_rule_address_each_column() {
    let mut layout = ColumnLayout::default();
    layout.set(Column::Type, fixed(99.0));
    assert_eq!(layout.rule(Column::Type), fixed(99.0));
    assert_eq!(layout.rule(Column::Name), ColRule::Fill);
}

#[test]
fn widths_round_to_whole_pixels_as_floats_do() {
    for w in [
        0.0f32, 0.49, 0.5, 1.5, 2.5, 239.5, 240.0, 8388607.5, 1.0e10, 1.0e30, -0.5, -1.5, -3.2,
        f32::MAX, f32::MIN, f32::MIN_POSITIVE,
    ] {
        assert_eq!(round_width(w.to_bits()), w.round() as i64, "{w}");
    }
}

#[test]
fn layouts_are_written_as_fields() {
    let layout = ColumnLayout {
        name: ColRule::Fill,
        modified: fixed(150.4),
        type_: ColRule::Auto,
        size: fixed(-3.0),
    };
    assert_eq!(encode_layout(&layout), "fill;150;auto;-3");
}

// ---- config

#[test]
fn round_trips_non_default_settings() {
    let settings = Settings {
        show_hidden: true,
        sort: Sort {
            key: SortKey::Size,
            order: SortOrder::Descending,
            ..Sort::default()
        },
        view_mode: ViewMode::ExtraLarge,
    };
    assert_eq!(parse(&serialize(&settings)), settings);
}

#[test]
fn unknown_keys_and_garbage_fall_back_to_defaults() {
    let text = "show_hidden=true\nfuture_key=whatever\nsort_key=bogus\n# comment\n";
    let parsed = parse(text);
    assert!(parsed.show_hidden);
    assert_eq!(parsed.sort.key, Sort::default().key);
}

#[test]
fn empty_input_is_all_defaults() {
    assert_eq!(parse(""), Settings::default());
}

#[test]
fn settings_have_a_line_each() {
    assert_eq!(
        serialize(&Settings::default()),
        "show_hidden=false\nsort_key=name\nsort_order=asc\nview_mode=details\n"
    );
    let spaced = parse(" view_mode = large \r\n sort_order=desc\nsort_order=asc\n");
    assert_eq!(spaced.view_mode, ViewMode::Large);
    assert_eq!(spaced.sort.order, SortOrder::Ascending);
}

fn read_columns(text: &str) -> ColumnStore {
    let widths: Vec<Vec<Option<u32>>> = column_fields(text)
        .iter()
        .map(|line| line.iter().map(|f| width(f)).collect())
        .collect();
    parse_columns(text, &widths)
}

#[test]
fn columns_round_trip_keeping_paths_with_separators() {
    let layout = ColumnLayout {
        name: fixed(240.0),
        modified: ColRule::Auto,
        type_: fixed(120.0),
        size: ColRule::Auto,
    };
    let mut map: ColumnStore = KeyMap::new();
    map.insert(win(r"C:\Users\jay\My ; Docs"), layout);
    let back = read_columns(&serialize_columns(&map));
    assert_eq!(back.len(), 1);
    assert_eq!(back.get(&win(r"C:\Users\jay\My ; Docs")), Some(&layout));
}

#[test]
fn default_layouts_are_not_written() {
    let mut map: ColumnStore = KeyMap::new();
    map.insert(win(r"C:\plain"), ColumnLayout::default());
    assert!(serialize_columns(&map).is_empty());
}

#[test]
fn malformed_column_lines_are_skipped_and_the_later_line_counts() {
    let text = "no separator\nfill;auto;auto|C:\\short\nfill;9;auto;auto|\nfill;9;auto;auto|C:\\x\n\
                fill;10;auto;auto|c:/x/\n";
    let map = read_columns(text);
    assert_eq!(map.len(), 1);
    assert_eq!(map.get(&win(r"C:\x")).unwrap().modified, fixed(10.0));
}

#[test]
fn configuration_lies_beside_the_program_or_in_the_application_data() {
    let exe = Some(win(r"C:\apps\librarian.exe"));
    let portable = portable_path(&exe, settings_file_name());
    assert_eq!(portable.as_ref().unwrap().text, r"C:\apps\librarian.config");
    let roaming = roaming_path(&Some(win(r"C:\Users\me\AppData\Roaming")), columns_file_name());
    assert_eq!(
        roaming.as_ref().unwrap().text,
        r"C:\Users\me\AppData\Roaming\Librarian\librarian-columns.config"
    );
    assert_eq!(portable_path(&None, settings_file_name()), None);
    assert_eq!(roaming_path(&None, settings_file_name()), None);
    assert_eq!(
        config_path_for(portable_path(&exe, settings_file_name()), true, None).unwrap().text,
        r"C:\apps\librarian.config"
    );
    assert_eq!(config_path_for(portable_path(&exe, settings_file_name()), false, None), None);
}

// ---- icons

fn ext(name: &str) -> IconKey {
    IconKey::Ext(name.to_string())
}

#[test]
fn take_unrequested_returns_each_key_once_across_calls() {
    let mut cache: IconCache<u64> = IconCache::new();

    let first = cache.take_unrequested(&[IconKey::Folder, ext("txt")]);
    assert_eq!(first, vec![IconKey::Folder, ext("txt")]);

    assert!(cache.take_unrequested(&[IconKey::Folder, ext("txt")]).is_empty());

    assert_eq!(cache.take_unrequested(&[ext("rs")]), vec![ext("rs")]);
}

#[test]
fn take_unrequested_dedupes_within_a_single_call() {
    let mut cache: IconCache<u64> = IconCache::new();
    let out = cache.take_unrequested(&[ext("txt"), ext("txt"), IconKey::Folder]);
    assert_eq!(out, vec![ext("txt"), IconKey::Folder]);
}

#[test]
fn cached_keys_are_not_requested_again() {
    let mut cache: IconCache<u64> = IconCache::new();
    assert!(cache.get(&IconKey::Folder).is_none());
    cache.insert(IconKey::Folder, 7);
    assert_eq!(cache.get(&IconKey::Folder), Some(&7));
    assert!(cache.take_unrequested(&[IconKey::Folder]).is_empty());
}

#[test]
fn icons_that_did_not_resolve_are_dropped() {
    let keys = vec![IconKey::Folder, ext("txt"), IconKey::Wsl];
    let got = extract_icons(&keys, &vec![Some(1u64), None, Some(3)]);
    assert_eq!(got, vec![(IconKey::Folder, 1), (IconKey::Wsl, 3)]);
    assert_eq!(generic_file_name("txt"), "file.txt");
    assert_eq!(generic_file_name(""), "file");
}

#[test]
fn icon_paths_are_one_key_however_they_are_spelled() {
    assert_eq!(IconKey::Path(win(r"C:\a\b")), IconKey::Path(win("c:/a//b")));
    assert_ne!(IconKey::Path(win(r"C:\a\b")), IconKey::Path(win(r"C:\a\c")));
    assert_ne!(IconKey::Folder, IconKey::Computer);
}

// ---- thumbnails

fn key(name: &str, size: u16) -> ThumbKey {
    ThumbKey {
        path: win(name),
        size,
        mtime: None,
    }
}

#[test]
fn take_unrequested_dedups_against_in_flight_and_cached() {
    let mut cache: ThumbCache<u64> = ThumbCache::new();
    let a = key("a", 48);
    let b = key("b", 48);

    let out = cache.take_unrequested(&[a.clone(), b.clone()]);
    assert_eq!(out, vec![a.clone(), b.clone()]);
    assert!(cache.take_unrequested(&[a.clone(), b.clone()]).is_empty());

    cache.insert(a.clone(), 1);
    assert!(cache.get(&a).is_some());
    assert!(cache.take_unrequested(&[a]).is_empty());
}

#[test]
fn release_allows_a_skipped_key_to_be_requested_again() {
    let mut cache: ThumbCache<u64> = ThumbCache::new();
    let a = key("a", 48);

    assert_eq!(cache.take_unrequested(&[a.clone()]), vec![a.clone()]);
    assert!(cache.take_unrequested(&[a.clone()]).is_empty());
    cache.release(&[a.clone()]);
    assert_eq!(cache.take_unrequested(&[a.clone()]), vec![a]);
}

#[test]
fn fifo_eviction_caps_the_cache_and_allows_re_request() {
    let mut cache: ThumbCache<u64> = ThumbCache::new();
    let first = key("file-0", 48);

    for i in 0..CAPACITY + 1 {
        cache.insert(key(&format!("file-{i}"), 48), i as u64);
    }
    assert!(cache.get(&first).is_none());
    assert_eq!(cache.take_unrequested(&[first.clone()]), vec![first]);
}

#[test]
fn a_full_cache_gives_back_what_it_displaces() {
    let mut cache: ThumbCache<u64> = ThumbCache::new();
    for i in 0..CAPACITY {
        assert_eq!(cache.insert(key(&format!("file-{i}"), 48), i as u64), None);
    }
    assert_eq!(cache.insert(key("one-more", 48), 9000), Some(0));
    assert_eq!(cache.insert(key("one-more", 48), 9001), Some(9000));
    assert_eq!(cache.get(&key("one-more", 48)), Some(&9001));
    assert_eq!(cache.get(&key("one-more", 96)), None);
}

#[test]
fn a_sweep_sorts_keys_into_hits_and_misses() {
    let keys = vec![key("a", 16), key("b", 16), key("c", 16)];
    let sweep = extract_cached(&keys, &vec![None, Some(5u64), None]);
    assert_eq!(sweep.hits, vec![(key("b", 16), 5)]);
    assert_eq!(sweep.misses, vec![key("a", 16), key("c", 16)]);
    assert_eq!(extract_full(&keys, &vec![Some(1u64), None, None]), vec![(key("a", 16), 1)]);
}

// ---- rows

fn file_entry(name: &str, size: u64) -> Entry {
    Entry {
        name: name.to_string(),
        path: win(&format!(r"C:\dir\{name}")),
        kind: EntryKind::File,
        size,
        modified: None,
        created: None,
        attrs: Attributes::default(),
    }
}

fn dir_entry(name: &str) -> Entry {
    Entry {
        kind: EntryKind::Directory,
        ..file_entry(name, 0)
    }
}

#[test]
fn human_size_scales_units() {
    assert_eq!(human_size(0), "0 B");
    assert_eq!(human_size(512), "512 B");
    assert_eq!(human_size(1024), "1.0 KB");
    assert_eq!(human_size(1_500_000), "1.4 MB");
}

#[test]
fn human_size_rounds_as_floats_do() {
    for bytes in [
        1023u64, 1025, 1075, 1126, 1127, 1535, 1536, 10188, 102348, 1048524, 1048575, 1048576,
        1073741823, 1099511627775, 1125899906842624, u64::MAX, 9007199254740993,
    ] {
        let units = ["B", "KB", "MB", "GB", "TB"];
        let mut value = bytes as f64;
        let mut unit = 0;
        while value >= 1024.0 && unit < units.len() - 1 {
            value /= 1024.0;
            unit += 1;
        }
        let expected = if unit == 0 {
            format!("{bytes} B")
        } else {
            format!("{value:.1} {}", units[unit])
        };
        assert_eq!(human_size(bytes), expected, "{bytes}");
    }
}

#[test]
fn type_label_is_folder_or_uppercase_extension() {
    assert_eq!(type_label(&dir_entry("Photos")), "File folder");
    assert_eq!(type_label(&file_entry("notes.txt", 0)), "TXT File");
    assert_eq!(type_label(&file_entry("README", 0)), "File");
    assert_eq!(type_label(&file_entry(".gitignore", 0)), "File");
}

#[test]
fn file_row_carries_size_type_and_extension_icon() {
    let row = row_from_entry(&file_entry("notes.txt", 42));
    assert_eq!(row.label, "notes.txt");
    assert!(!row.is_container);
    assert_eq!(row.size, Some(42));
    assert_eq!(row.type_label, "TXT File");
    assert_eq!(row.icon, IconKey::Ext("txt".to_string()));
    assert_eq!(row.target, Location::Path(win(r"C:\dir\notes.txt")));
}

#[test]
fn dir_row_is_a_container_with_no_size() {
    let row = row_from_entry(&dir_entry("Photos"));
    assert!(row.is_container);
    assert_eq!(row.size, None);
    assert_eq!(row.icon, IconKey::Folder);
    assert_eq!(row.type_label, "File folder");
}

#[test]
fn drive_row_formats_label_and_falls_back_to_kind() {
    let drive = DriveInfo {
        letter: 'C',
        root: win(r"C:\"),
        label: "Windows".to_string(),
        kind: DriveKind::Fixed,
        total_bytes: 0,
        free_bytes: 0,
    };
    let row = row_from_drive(&drive);
    assert_eq!(row.label, "Windows (C:)");
    assert_eq!(row.type_label, "Local Disk");
    assert!(row.is_container);
    assert_eq!(row.size, None);
    assert_eq!(row.icon, IconKey::Path(win(r"C:\")));

    let unlabeled = DriveInfo {
        label: String::new(),
        kind: DriveKind::Removable,
        ..drive
    };
    let row = row_from_drive(&unlabeled);
    assert_eq!(row.label, "Removable Disk (C:)");
    assert_eq!(row.type_label, "Removable Disk");
}

#[test]
fn drive_kind_names_cover_every_variant() {
    let cases = [
        (DriveKind::Fixed, "Local Disk"),
        (DriveKind::Removable, "Removable Disk"),
        (DriveKind::Network, "Network Drive"),
        (DriveKind::CdRom, "CD Drive"),
        (DriveKind::RamDisk, "RAM Disk"),
        (DriveKind::Unknown, "Disk"),
    ];
    for (kind, expected) in cases {
        assert_eq!(drive_kind_name(kind), expected);
    }
}

#[test]
fn known_folder_row_uses_its_own_shell_icon() {
    let folder = KnownFolder {
        name: "Downloads".to_string(),
        path: win(r"C:\Users\j\Downloads"),
    };
    let row = row_from_known(&folder);
    assert_eq!(row.label, "Downloads");
    assert_eq!(row.type_label, "File folder");
    assert!(row.is_container);
    assert_eq!(row.icon, IconKey::Path(win(r"C:\Users\j\Downloads")));
}

#[test]
fn distro_row_targets_the_unc_root_with_the_wsl_icon() {
    let distro = WslDistro {
        name: "Ubuntu".to_string(),
    };
    let row = row_from_distro(&distro);
    assert_eq!(row.label, "Ubuntu");
    assert_eq!(row.icon, IconKey::Wsl);
    assert_eq!(row.type_label, "Linux distribution");
    assert_eq!(row.target, Location::Path(distro_unc_path("Ubuntu")));
}

#[test]
fn search_hit_label_is_relative_to_the_search_root() {
    let root = win(r"C:\proj");
    let hit = SearchHit {
        path: win(r"C:\proj\src\main.rs"),
        matches: None,
        is_dir: false,
    };
    let row = row_from_hit(&hit, &root);
    assert_eq!(row.label, r"src\main.rs");
    assert!(!row.is_container);
    assert_eq!(row.type_label, "RS File");
    assert_eq!(row.icon, IconKey::Ext("rs".to_string()));
}

#[test]
fn search_hit_directory_navigates() {
    let root = win(r"C:\proj");
    let hit = SearchHit {
        path: win(r"C:\proj\src"),
        matches: None,
        is_dir: true,
    };
    let row = row_from_hit(&hit, &root);
    assert!(row.is_container);
    assert_eq!(row.type_label, "File folder");
    assert_eq!(row.icon, IconKey::Folder);
}

#[test]
fn contents_hit_reports_match_count_with_pluralization() {
    let root = win(r"C:\proj");
    let hit = |n: u64| SearchHit {
        path: win(r"C:\proj\notes.txt"),
        matches: Some(n),
        is_dir: false,
    };
    assert_eq!(row_from_hit(&hit(1), &root).type_label, "1 match");
    assert_eq!(row_from_hit(&hit(3), &root).type_label, "3 matches");
}

#[test]
fn a_hit_outside_the_root_is_called_by_its_whole_path() {
    let hit = SearchHit {
        path: win(r"D:\other\x.txt"),
        matches: None,
        is_dir: false,
    };
    assert_eq!(row_from_hit(&hit, &win(r"C:\proj")).label, r"D:\other\x.txt");
}

// ---- time

#[test]
fn format_time_renders_minute_precision() {
    let ticks: i64 = 1_700_000_000 * 10_000_000;
    let s = format_time(ticks);
    assert_eq!(s.len(), 16, "expected `YYYY-MM-DD HH:MM`, got {s:?}");
    let bytes = s.as_bytes();
    for (i, b) in bytes.iter().enumerate() {
        match i {
            4 | 7 => assert_eq!(*b, b'-'),
            10 => assert_eq!(*b, b' '),
            13 => assert_eq!(*b, b':'),
            _ => assert!(b.is_ascii_digit(), "non-digit at {i} in {s:?}"),
        }
    }
}

#[test]
fn times_are_shown_at_their_offset() {
    assert_eq!(format_time_at(1_700_000_000 * 10_000_000, 0), "2023-11-14 22:13");
    assert_eq!(format_time_at(1_700_000_000 * 10_000_000, 3600), "2023-11-14 23:13");
    assert_eq!(format_time_at(0, 0), "1970-01-01 00:00");
    assert_eq!(format_time_at(-1, 0), "1969-12-31 23:59");
    assert_eq!(format_time_at(951_782_400 * 10_000_000, 0), "2000-02-29 00:00");
    assert_eq!(format_time_at(253_402_300_799 * 10_000_000, 0), "9999-12-31 23:59");
    assert_eq!(format_time_at(-62_167_219_200 * 10_000_000, 0), "0000-01-01 00:00");
}

// ---- search

#[test]
fn parses_a_name_result() {
    let hit = parse_line(r"C:\Users\me\photo.png", SearchMode::Name).unwrap();
    assert_eq!(hit.path, win(r"C:\Users\me\photo.png"));
    assert_eq!(hit.matches, None);
}

#[test]
fn parses_a_contents_result_keeping_the_drive_colon() {
    let hit = parse_line(r"C:\Users\me\notes.txt:7", SearchMode::Contents).unwrap();
    assert_eq!(hit.path, win(r"C:\Users\me\notes.txt"));
    assert_eq!(hit.matches, Some(7));
}

#[test]
fn blank_lines_are_skipped() {
    assert!(parse_line("", SearchMode::Name).is_none());
    assert!(parse_line("", SearchMode::Contents).is_none());
}

#[test]
fn escapes_glob_metacharacters_literally() {
    assert_eq!(escape_glob("a*b?c"), "a[*]b[?]c");
    assert_eq!(escape_glob("x[y]z"), "x[[]y[]]z");
    assert_eq!(escape_glob("plain"), "plain");
    assert_eq!(escape_glob(r"a\b"), "a/b");
}

#[test]
fn a_query_is_never_a_flag() {
    let args = build_command("--files", SearchMode::Contents, &win(r"C:\r"));
    let at = args.iter().position(|a| a == "--files").unwrap();
    assert!(args[..at].iter().any(|a| a == "--" || a == "-e" || a == "--regexp"));
    let named = build_command("-x", SearchMode::Name, &win(r"C:\r"));
    assert!(named.iter().all(|a| a != "-x"));
}

#[test]
fn search_modes_have_names() {
    assert_eq!(
        SearchMode::all().iter().map(|m| m.label()).collect::<Vec<_>>(),
        ["Name", "Contents"]
    );
    assert_eq!(SearchMode::default(), SearchMode::Name);
}

fn quest(mode: SearchMode, query: &str) -> SearchSpec {
    SearchSpec {
        token: 1,
        root: win(r"C:\r"),
        query: query.to_string(),
        mode,
    }
}

/// A search whose ripgrep runs and is being read.
fn reading(mode: SearchMode, query: &str) -> SearchRun {
    let mut run = SearchRun::new(&quest(mode, query));
    assert!(run.answer(SearchReply::Ripgrep(true)).is_empty());
    assert!(run.answer(SearchReply::Launched(Launch::Started)).is_empty());
    assert!(matches!(run.task(), SearchTask::ReadLine));
    run
}

/// What a search delivers when ripgrep prints `lines` and `dirs` are found.
fn delivered(mode: SearchMode, lines: &[String], dirs: &[WinPath]) -> Vec<SearchEvent> {
    let mut run = reading(mode, "x");
    let mut events = Vec::new();
    for line in lines {
        events.extend(run.answer(SearchReply::Line(line.clone())));
    }
    events.extend(run.answer(SearchReply::EndOfOutput));
    events.extend(run.answer(SearchReply::Dirs(dirs.to_vec())));
    assert!(matches!(run.task(), SearchTask::Nothing));
    events
}

/// The sizes of the batches, positive for files and negative for directories, and whether the
/// search was capped.
fn outline(events: &[SearchEvent]) -> (Vec<i64>, bool) {
    let mut sizes = Vec::new();
    for (i, event) in events.iter().enumerate() {
        match event {
            SearchEvent::Batch(hits) => {
                let dirs = hits[0].is_dir;
                assert!(hits.iter().all(|h| h.is_dir == dirs));
                let n = hits.len() as i64;
                sizes.push(if dirs { -n } else { n });
            }
            SearchEvent::Done { capped } => {
                assert_eq!(i, events.len() - 1);
                return (sizes, *capped);
            }
            SearchEvent::Failed(error) => panic!("{error}"),
        }
    }
    panic!("the search has no end");
}

#[test]
fn a_search_needs_ripgrep_or_says_so() {
    let failed = |events: Vec<SearchEvent>| match events.as_slice() {
        [SearchEvent::Failed(text)] => text.clone(),
        other => panic!("expected a failure, not {other:?}"),
    };
    let mut run = SearchRun::new(&quest(SearchMode::Contents, "x"));
    assert!(matches!(run.task(), SearchTask::FindRipgrep));
    assert!(failed(run.answer(SearchReply::Ripgrep(false))).starts_with("ripgrep (rg.exe)"));
    assert!(matches!(run.task(), SearchTask::Nothing));
    assert!(run.answer(SearchReply::Ripgrep(true)).is_empty());

    let mut run = SearchRun::new(&quest(SearchMode::Contents, " x\t"));
    assert!(run.answer(SearchReply::Ripgrep(true)).is_empty());
    match run.task() {
        SearchTask::Launch(args) => assert_eq!(
            args,
            build_command("x", SearchMode::Contents, &win(r"C:\r"))
        ),
        other => panic!("expected a launch, not {other:?}"),
    }
    assert_eq!(
        failed(run.answer(SearchReply::Launched(Launch::Failed("oops".to_string())))),
        "Failed to launch ripgrep: oops"
    );

    let mut run = SearchRun::new(&quest(SearchMode::Name, "x"));
    run.answer(SearchReply::Ripgrep(true));
    let events = run.answer(SearchReply::Launched(Launch::NoOutput));
    assert_eq!(outline(&events), (vec![], false));
}

#[test]
fn a_blank_query_finds_nothing() {
    for query in ["", "  ", "\t"] {
        let mut run = SearchRun::new(&quest(SearchMode::Name, query));
        let events = run.answer(SearchReply::Ripgrep(true));
        assert_eq!(outline(&events), (vec![], false));
        assert!(matches!(run.task(), SearchTask::Nothing));
    }
}

#[test]
fn results_come_in_batches_up_to_the_cap() {
    let lines: Vec<String> = (0..RESULT_CAP + 10).map(|i| format!("C:\\r\\f{i}")).collect();
    for mode in [SearchMode::Name, SearchMode::Contents] {
        let lines: Vec<String> = lines.iter().map(|l| format!("{l}:1")).collect();
        let events = delivered(mode, &lines, &[win(r"C:\r\d")]);
        let (sizes, capped) = outline(&events);
        assert!(capped);
        assert_eq!(sizes.iter().sum::<i64>(), RESULT_CAP as i64);
        let (last, full) = sizes.split_last().unwrap();
        assert!(full.iter().all(|n| *n == BATCH as i64));
        assert_eq!(*last, (RESULT_CAP % BATCH) as i64);
    }

    let few = ["C:\\r\\a".to_string(), String::new()];
    assert_eq!(outline(&delivered(SearchMode::Name, &few, &[])), (vec![1], false));
}

#[test]
fn directories_follow_the_files() {
    let files: Vec<String> = (0..BATCH + 2).map(|i| format!("C:\\r\\f{i}:1")).collect();
    let dirs: Vec<WinPath> = (0..BATCH + 1).map(|i| win(&format!("C:\\r\\d{i}"))).collect();
    let (b, events) = (BATCH as i64, delivered(SearchMode::Name, &files, &dirs));
    assert_eq!(outline(&events), (vec![b, 2, -b, -1], false));
    let events = delivered(SearchMode::Contents, &files, &dirs);
    assert_eq!(outline(&events), (vec![b, 2], false));
}

#[test]
fn a_run_counts_files_and_leaves_room_for_directories() {
    let mut run = reading(SearchMode::Name, " x ");
    assert!(run.answer(SearchReply::Line("C:\\r\\a".to_string())).is_empty());
    assert_eq!(run.answer(SearchReply::EndOfOutput).len(), 1);
    match run.task() {
        SearchTask::FindDirs { root, query, cap } => {
            assert_eq!(root.text, r"C:\r");
            assert_eq!(query, "x");
            assert_eq!(cap, RESULT_CAP - 1);
        }
        other => panic!("expected a walk, not {other:?}"),
    }
    let dirs: Vec<WinPath> = (1..RESULT_CAP).map(|i| win(&format!("C:\\r\\d{i}"))).collect();
    assert!(outline(&run.answer(SearchReply::Dirs(dirs))).1);
}

#[test]
fn directories_are_batched() {
    let dirs: Vec<WinPath> = (0..BATCH + 1).map(|i| win(&format!("C:\\r\\d{i}"))).collect();
    match dir_batches(&dirs).as_slice() {
        [SearchEvent::Batch(full), SearchEvent::Batch(rest)] => {
            assert_eq!((full.len(), rest.len()), (BATCH, 1));
            assert!(full.iter().all(|h| h.is_dir && h.matches.is_none()));
            assert_eq!(rest[0].path.text, format!("C:\\r\\d{BATCH}"));
        }
        other => panic!("expected two batches, not {other:?}"),
    }
}

#[test]
fn ripgrep_is_looked_for_in_order() {
    let local = Some(win(r"C:\Users\me\AppData\Local"));
    let profile = Some(win(r"C:\Users\me"));
    let installs = install_candidates(&local, &profile);
    assert!(installs.iter().any(|p| p.text.starts_with(r"C:\Users\me\AppData\Local")));
    let places = ripgrep_candidates(
        &Some(win(r"C:\apps")),
        &vec![win(r"C:\bin")],
        &local,
        &profile,
    );
    assert_eq!(places[0].text, r"C:\apps\rg.exe");
    assert_eq!(places[1].text, r"C:\bin\rg.exe");
    let mut present = vec![false; places.len()];
    assert_eq!(ripgrep_path(&places, &present), None);
    present[1] = true;
    assert_eq!(ripgrep_path(&places, &present).unwrap().text, r"C:\bin\rg.exe");
}

// ---- selection

fn items(sel: &Selection) -> Vec<usize> {
    sel.iter()
}

#[test]
fn select_one_replaces_and_sets_pointers() {
    let mut sel = Selection::default();
    sel.select_one(3);
    assert_eq!(items(&sel), [3]);
    assert_eq!(sel.lead(), Some(3));
    assert_eq!(sel.single(), Some(3));

    sel.select_one(5);
    assert_eq!(items(&sel), [5]);
    assert_eq!(sel.lead(), Some(5));
}

#[test]
fn toggle_adds_then_removes() {
    let mut sel = Selection::default();
    sel.select_one(1);
    sel.toggle(4);
    assert_eq!(items(&sel), [1, 4]);
    assert_eq!(sel.lead(), Some(4));
    assert_eq!(sel.single(), None);

    sel.toggle(4);
    assert_eq!(items(&sel), [1]);
    assert_eq!(sel.lead(), Some(4));
}

#[test]
fn range_extends_from_anchor_both_directions() {
    let mut sel = Selection::default();
    sel.select_one(5);
    sel.select_range(2);
    assert_eq!(items(&sel), [2, 3, 4, 5]);
    assert_eq!(sel.lead(), Some(2));

    sel.select_range(7);
    assert_eq!(items(&sel), [5, 6, 7]);
    assert_eq!(sel.lead(), Some(7));
}

#[test]
fn range_without_anchor_selects_single() {
    let mut sel = Selection::default();
    sel.select_range(3);
    assert_eq!(items(&sel), [3]);
    assert_eq!(sel.lead(), Some(3));
}

#[test]
fn move_lead_keeps_selection() {
    let mut sel = Selection::default();
    sel.select_one(2);
    sel.move_lead(6);
    assert_eq!(items(&sel), [2]);
    assert_eq!(sel.lead(), Some(6));
    sel.select_range(8);
    assert_eq!(items(&sel), [6, 7, 8]);
}

#[test]
fn set_many_restores_arbitrary_indices() {
    let mut sel = Selection::default();
    sel.set_many(&[5, 1, 3]);
    assert_eq!(items(&sel), [1, 3, 5]);
    assert_eq!(sel.lead(), Some(1));
    sel.select_range(2);
    assert_eq!(items(&sel), [1, 2]);

    sel.set_many(&[]);
    assert!(sel.is_empty());
    assert_eq!(sel.lead(), None);
}

#[test]
fn select_all_and_retain_below() {
    let mut sel = Selection::default();
    sel.select_all(4);
    assert_eq!(items(&sel), [0, 1, 2, 3]);

    sel.retain_below(2);
    assert_eq!(items(&sel), [0, 1]);
    assert!(sel.lead().is_none_or(|l| l < 2));
}

#[test]
fn clearing_leaves_nothing() {
    let mut sel = Selection::default();
    sel.select_range(3);
    assert!(sel.contains(3));
    sel.clear();
    assert!(sel.is_empty());
    assert_eq!(sel.len(), 0);
    assert_eq!(sel.lead(), None);
}

// ---- tree

fn child(label: &str, path: &str) -> TreeChild {
    TreeChild::lazy(label.to_string(), IconKey::Folder, Location::Path(win(path)))
}

fn this_pc() -> TreeChild {
    TreeChild::lazy("This PC".to_string(), IconKey::Folder, Location::ThisPc)
}

fn wsl_group() -> TreeChild {
    TreeChild::lazy("Linux".to_string(), IconKey::Wsl, Location::Wsl)
}

fn row_id(tree: &Tree, label: &str) -> NodeId {
    tree.visible_rows()
        .iter()
        .find(|r| r.label == label)
        .unwrap_or_else(|| panic!("no visible row labelled {label}"))
        .id
}

#[test]
fn root_is_hidden_until_children_load() {
    let tree = Tree::new();
    assert!(tree.visible_rows().is_empty());
}

#[test]
fn top_level_children_render_at_depth_zero() {
    let mut tree = Tree::new();
    tree.set_children(ROOT_ID, &vec![child("C:", "C:\\"), child("D:", "D:\\")]);
    let rows = tree.visible_rows();
    let labels: Vec<&str> = rows.iter().map(|r| r.label).collect();
    assert_eq!(labels, ["C:", "D:"]);
    assert!(rows.iter().all(|r| r.depth == 0));
}

#[test]
fn ids_are_unique_per_node() {
    let mut tree = Tree::new();
    tree.set_children(ROOT_ID, &vec![child("C:", "C:\\")]);
    let c = row_id(&tree, "C:");
    tree.toggle(c);
    tree.set_children(c, &vec![child("Users", "C:\\Users")]);
    let users = row_id(&tree, "Users");
    assert_ne!(c, users);
    assert_ne!(ROOT_ID, c);
}

#[test]
fn toggle_collapses_and_re_expands_without_reloading() {
    let mut tree = Tree::new();
    tree.set_children(ROOT_ID, &vec![child("C:", "C:\\")]);
    let c = row_id(&tree, "C:");
    tree.toggle(c);
    tree.set_children(c, &vec![child("Users", "C:\\Users")]);
    assert_eq!(tree.visible_rows().len(), 2);

    assert!(tree.toggle(c).is_none());
    assert_eq!(tree.visible_rows().len(), 1);

    assert!(tree.toggle(c).is_none());
    assert_eq!(tree.visible_rows().len(), 2);
}

#[test]
fn toggle_unloaded_node_requests_its_location() {
    let mut tree = Tree::new();
    tree.set_children(ROOT_ID, &vec![child("C:", "C:\\")]);
    let c = row_id(&tree, "C:");
    match tree.toggle(c) {
        Some((id, Location::Path(p))) => {
            assert_eq!(id, c);
            assert_eq!(p, win("C:\\"));
        }
        other => panic!("expected a load request for C:\\, got {other:?}"),
    }
}

#[test]
fn empty_children_make_a_leaf() {
    let mut tree = Tree::new();
    tree.set_children(ROOT_ID, &vec![child("C:", "C:\\")]);
    let c = row_id(&tree, "C:");
    tree.toggle(c);
    tree.set_children(c, &Vec::new());
    let rows = tree.visible_rows();
    let row = rows.iter().find(|r| r.id == c).unwrap();
    assert!(!row.expandable, "a confirmed-empty node shows no chevron");
}

#[test]
fn reveal_loads_ancestors_then_stops_at_target() {
    let mut tree = Tree::new();
    tree.set_children(ROOT_ID, &vec![child("C:", "C:\\"), child("D:", "D:\\")]);
    let target = win("C:\\Users\\me");

    match tree.reveal_path(&target) {
        Reveal::Load(_, Location::Path(p)) => assert_eq!(p, win("C:\\")),
        _ => panic!("expected to load C:\\"),
    }

    let c = row_id(&tree, "C:");
    tree.set_children(c, &vec![child("Users", "C:\\Users")]);
    match tree.reveal_path(&target) {
        Reveal::Load(_, Location::Path(p)) => assert_eq!(p, win("C:\\Users")),
        _ => panic!("expected to load C:\\Users"),
    }

    let users = row_id(&tree, "Users");
    tree.set_children(users, &vec![child("me", "C:\\Users\\me")]);
    assert!(matches!(tree.reveal_path(&target), Reveal::Stop));

    let rows = tree.visible_rows();
    let labels: Vec<&str> = rows.iter().map(|r| r.label).collect();
    assert_eq!(labels, ["C:", "Users", "me", "D:"]);
}

#[test]
fn reveal_picks_the_deepest_matching_branch() {
    let mut tree = Tree::new();
    tree.set_children(
        ROOT_ID,
        &vec![
            child("C:", "C:\\"),
            child("Documents", "C:\\Users\\me\\Documents"),
        ],
    );
    let target = win("C:\\Users\\me\\Documents\\Work");
    match tree.reveal_path(&target) {
        Reveal::Load(_, Location::Path(p)) => {
            assert_eq!(p, win("C:\\Users\\me\\Documents"));
        }
        _ => panic!("expected to descend via the Documents shortcut"),
    }
}

#[test]
fn reveal_gives_up_when_target_is_absent() {
    let mut tree = Tree::new();
    tree.set_children(ROOT_ID, &vec![child("C:", "C:\\")]);
    let c = row_id(&tree, "C:");
    tree.set_children(c, &Vec::new());
    assert!(matches!(
        tree.reveal_path(&win("C:\\Hidden\\x")),
        Reveal::Stop
    ));
}

#[test]
fn this_pc_id_finds_the_drives_container() {
    let mut tree = Tree::new();
    assert_eq!(tree.this_pc_id(), None, "no node before the roots load");
    tree.set_children(
        ROOT_ID,
        &vec![child("Desktop", "C:\\Users\\me\\Desktop"), this_pc()],
    );
    let pc = tree.this_pc_id().expect("This PC node present");
    assert_eq!(pc, row_id(&tree, "This PC"));
}

#[test]
fn reveal_descends_through_this_pc_to_a_drive_path() {
    let mut tree = Tree::new();
    tree.set_children(
        ROOT_ID,
        &vec![child("Desktop", "C:\\Users\\me\\Desktop"), this_pc()],
    );
    let target = win("C:\\Windows");

    let pc = tree.this_pc_id().unwrap();
    match tree.reveal_path(&target) {
        Reveal::Load(id, Location::ThisPc) => assert_eq!(id, pc),
        other => panic!("expected to load the This PC node, got {other:?}"),
    }

    tree.set_children(pc, &vec![child("C:", "C:\\")]);
    match tree.reveal_path(&target) {
        Reveal::Load(_, Location::Path(p)) => assert_eq!(p, win("C:\\")),
        other => panic!("expected to load C:\\, got {other:?}"),
    }
}

#[test]
fn reveal_descends_through_wsl_to_a_distro_path() {
    let mut tree = Tree::new();
    tree.set_children(
        ROOT_ID,
        &vec![
            child("Desktop", "C:\\Users\\me\\Desktop"),
            this_pc(),
            wsl_group(),
        ],
    );
    let target = win(r"\\wsl.localhost\Ubuntu\home");

    let wsl = row_id(&tree, "Linux");
    match tree.reveal_path(&target) {
        Reveal::Load(id, Location::Wsl) => assert_eq!(id, wsl),
        other => panic!("expected to load the Wsl node, got {other:?}"),
    }

    tree.set_children(wsl, &vec![child("Ubuntu", r"\\wsl.localhost\Ubuntu")]);
    match tree.reveal_path(&target) {
        Reveal::Load(_, Location::Path(p)) => {
            assert_eq!(p, win(r"\\wsl.localhost\Ubuntu"))
        }
        other => panic!("expected to load the Ubuntu distro root, got {other:?}"),
    }
}

#[test]
fn branch_grafts_children_and_starts_expanded() {
    let mut tree = Tree::new();
    let home = TreeChild::branch(
        "me".to_string(),
        IconKey::Folder,
        Location::Path(win("C:\\Users\\me")),
        vec![
            child("Desktop", "C:\\Users\\me\\Desktop"),
            child("Documents", "C:\\Users\\me\\Documents"),
        ],
    );
    tree.set_children(ROOT_ID, &vec![home]);

    let rows = tree.visible_rows();
    let labels: Vec<&str> = rows.iter().map(|r| r.label).collect();
    assert_eq!(labels, ["me", "Desktop", "Documents"]);
    assert_eq!(rows[0].depth, 0);
    assert!(rows[0].expanded);
    assert!(rows[1].depth == 1 && rows[2].depth == 1);

    let me = row_id(&tree, "me");
    assert!(tree.toggle(me).is_none());
    assert_eq!(tree.visible_rows().len(), 1);
}

#[test]
fn the_icons_of_visible_nodes_are_collected() {
    let mut tree = Tree::new();
    tree.set_children(ROOT_ID, &vec![child("C:", "C:\\"), wsl_group()]);
    let mut keys = vec![IconKey::Computer];
    tree.collect_icon_keys(&mut keys);
    assert_eq!(keys, vec![IconKey::Computer, IconKey::Folder, IconKey::Wsl]);
}

#[test]
fn the_top_of_the_tree_is_home_this_pc_and_linux() {
    let folders = vec![KnownFolder {
        name: "Desktop".to_string(),
        path: win(r"C:\Users\me\Desktop"),
    }];
    let distros = vec![WslDistro {
        name: "Ubuntu".to_string(),
    }];
    let labels = |v: &Vec<TreeChild>| v.iter().map(|c| c.label.clone()).collect::<Vec<_>>();
    let roots = fetch_tree_roots(&folders, Some(win(r"C:\Users\me")), &distros);
    assert_eq!(labels(&roots), ["me", "This PC", "Linux"]);
    assert_eq!(labels(roots[0].children.as_ref().unwrap()), ["Desktop"]);
    assert!(roots[0].expanded);
    let bare = fetch_tree_roots(&folders, None, &Vec::new());
    assert_eq!(labels(&bare), ["Desktop", "This PC"]);
    let rootless = fetch_tree_roots(&Vec::new(), Some(win(r"C:\")), &Vec::new());
    assert_eq!(labels(&rootless), ["Home", "This PC"]);
}

#[test]
fn subfolders_are_shown_by_name_without_hidden_ones() {
    let mut hidden = dir_entry("aaa");
    hidden.attrs.hidden = true;
    let dirs = vec![dir_entry("b"), hidden, dir_entry("A")];
    let labels = |v: Vec<TreeChild>| v.into_iter().map(|c| c.label).collect::<Vec<_>>();
    assert_eq!(labels(folder_children(&dirs, false)), ["A", "b"]);
    assert_eq!(labels(folder_children(&dirs, true)), ["A", "aaa", "b"]);
}

#[test]
fn a_timestamp_tells_the_minute() {
    let start: i64 = 1_700_000_040 * 10_000_000;
    let shown = format_time_at(start, 0);
    assert_eq!(shown, "2023-11-14 22:14");
    assert_eq!(format_time_at(start + 59 * 10_000_000, 0), shown);
    assert_ne!(format_time_at(start + 60 * 10_000_000, 0), shown);
    assert_ne!(format_time_at(start - 1, 0), shown);
}

#[test]
fn new_children_replace_the_old_and_touch_nothing_else() {
    let mut tree = Tree::new();
    tree.set_children(ROOT_ID, &vec![child("C:", "C:\\"), child("D:", "D:\\")]);
    let (c, d) = (tree.visible_rows()[0].id, tree.visible_rows()[1].id);
    tree.toggle(c);
    tree.set_children(c, &vec![child("Old", "C:\\Old")]);
    let old = tree.visible_rows()[1].id;
    tree.set_children(c, &vec![child("A", "C:\\A"), child("B", "C:\\B")]);
    let rows = tree.visible_rows();
    let shown: Vec<&str> = rows.iter().map(|r| r.label).collect();
    assert_eq!(shown, ["C:", "A", "B", "D:"]);
    assert_eq!((rows[0].id, rows[3].id), (c, d));
    for r in &rows[1..3] {
        assert!(![ROOT_ID, c, d, old].contains(&r.id));
    }
    tree.set_children(old, &vec![child("X", "C:\\X")]);
    assert_eq!(tree.visible_rows().len(), 4);
    tree.set_children(c, &Vec::new());
    assert_eq!(tree.visible_rows().len(), 2);
    assert!(!tree.visible_rows()[0].expandable);
}

#[test]
fn widths_are_equal_as_numbers() {
    assert_eq!(fixed(0.0), fixed(-0.0));
    assert_ne!(fixed(f32::NAN), fixed(f32::NAN));
    assert_ne!(fixed(1.0), fixed(-1.0));
    assert_ne!(fixed(0.0), ColRule::Auto);
    let mut layout = ColumnLayout::default();
    layout.set(Column::Size, fixed(f32::NAN));
    assert!(layout != layout);
    assert!(!layout.is_default());
}

#[test]
fn whole_widths_are_read_exactly() {
    for n in [0u32, 1, 2, 3, 7, 8, 10, 99, 240, 4095, 8_388_607, 8_388_608, 8_388_609, 16_777_215] {
        assert_eq!(whole_width(false, n), (n as f32).to_bits());
        assert_eq!(whole_width(true, n), (-(n as f32)).to_bits());
        let text = n.to_string();
        assert_eq!(decode_rule(&text, None), Some(fixed(n as f32)));
        assert_eq!(decode_rule(&format!("-{text}"), None), Some(fixed(-(n as f32))));
        assert_eq!(decode_rule(&format!("00{text}"), None), Some(fixed(n as f32)));
    }
    assert_eq!(decode_rule("16777216", None), None);
    assert_eq!(decode_rule("16777217", Some(16777217.0f32.to_bits())), Some(fixed(16777216.0)));
    assert_eq!(decode_rule("-+1", None), None);
    assert_eq!(decode_rule("+1", Some(1.0f32.to_bits())), Some(fixed(1.0)));
    assert_eq!(decode_rule("1.5", Some(1.5f32.to_bits())), Some(fixed(1.5)));
    assert_eq!(decode_rule("-", None), None);
    assert_eq!(decode_rule("", None), None);
}

#[test]
fn layouts_come_back_rounded_to_whole_pixels() {
    let layout = ColumnLayout {
        name: fixed(240.4),
        modified: fixed(-0.0),
        type_: fixed(-7.5),
        size: fixed(16_777_215.0),
    };
    let text = encode_layout(&layout);
    assert_eq!(text, "240;0;-8;16777215");
    let back = decode_layout(&text, &vec![None; 4]).unwrap();
    assert_eq!(
        back,
        ColumnLayout {
            name: fixed(240.0),
            modified: fixed(0.0),
            type_: fixed(-8.0),
            size: fixed(16_777_215.0),
        }
    );
    assert_eq!(encode_layout(&back), text);
}

#[test]
fn children_are_asked_for_once() {
    let mut tree = Tree::new();
    tree.set_children(ROOT_ID, &vec![child("C:", "C:\\"), child("D:", "D:\\")]);
    let (c, d) = (tree.visible_rows()[0].id, tree.visible_rows()[1].id);
    assert!(tree.toggle(c).is_some());
    for _ in 0..3 {
        assert!(tree.toggle(c).is_none());
    }
    assert!(matches!(tree.reveal_path(&win("C:\\x")), Reveal::Wait));
    tree.set_children(c, &vec![child("A", "C:\\A")]);
    tree.set_children(c, &Vec::new());
    for _ in 0..3 {
        assert!(tree.toggle(c).is_none());
    }
    assert!(matches!(tree.reveal_path(&win("D:\\x")), Reveal::Load(id, _) if id == d));
    assert!(tree.toggle(d).is_none());
    assert!(tree.toggle(d).is_none());
    assert!(tree.toggle(NodeId::MAX).is_none());
}

#[test]
fn the_oldest_thumbnails_leave_first() {
    let key = |i: usize| ThumbKey {
        path: win(&format!("C:\\{i}")),
        size: 96,
        mtime: None,
    };
    let mut cache: ThumbCache<usize> = ThumbCache::new();
    for i in 0..CAPACITY + 40 {
        cache.insert(key(i), i);
        if i == CAPACITY - 1 {
            cache.insert(key(0), 7);
        }
    }
    for i in 0..40 {
        assert!(cache.get(&key(i)).is_none());
    }
    for i in 40..CAPACITY + 40 {
        assert_eq!(cache.get(&key(i)), Some(&i));
    }
    cache.insert(key(3), 3);
    assert!(cache.get(&key(40)).is_none());
    assert_eq!(cache.get(&key(3)), Some(&3));
}
