use librarian::assoc::KeyMap;
use librarian::columns::{ColRule, Column, ColumnLayout};
use librarian::config::{ColumnStore, Settings};
use librarian::drives::{DriveInfo, DriveKind};
use librarian::ellipsis::ellipsize;
use librarian::geometry::{
    grid_columns, grid_rows, page_rows, scroll_target, tile_units, viewport_for, visible_window,
    window_for, OVERSCAN, ROW_HEIGHT, UNIT,
};
use librarian::icons::IconKey;
use librarian::keyboard::{is_input_shortcut, is_text_edit, key_to_message, Key, Modifiers, Named};
use librarian::labels::{address_text, counted_items, plural, results_status, tab_title};
use librarian::librarian::{Content, Librarian};
use librarian::message::{Action, Message, Nav, Operation, Spot, ThumbKind};
use librarian::model::{Attributes, Entry, EntryKind, Location};
use librarian::naming::unique_folder_name;
use librarian::path::WinPath;
use librarian::screen::{
    divider_above, heading, modified_cell, size_cell, spinner_glyph, tile_at, MenuItem,
};
use librarian::search::{SearchHit, SearchMode};
use librarian::sort::{Sort, SortKey, SortOrder};
use librarian::startup::{requested_path, start_location};
use librarian::thumbs::{CacheSweep, ThumbKey};
use librarian::tree::{TreeChild, ROOT_ID};
use librarian::view_mode::ViewMode;
use librarian::wsl::WslDistro;
use std::cell::RefCell;
use std::collections::HashSet;

fn win(s: &str) -> WinPath {
    WinPath::new(s)
}

fn path(s: &str) -> Location {
    Location::Path(win(s))
}

fn px(n: f32) -> u64 {
    (n.max(0.0) * UNIT as f32).round() as u64
}

// ---- keyboard

fn ctrl() -> Modifiers {
    Modifiers {
        shift: false,
        command: true,
    }
}

fn none() -> Modifiers {
    Modifiers::default()
}

fn shift() -> Modifiers {
    Modifiers {
        shift: true,
        command: false,
    }
}

fn ch(c: &str) -> Key {
    Key::Character(c.to_string())
}

fn named(n: Named) -> Key {
    Key::Named(n)
}

#[test]
fn clipboard_shortcuts_require_ctrl() {
    assert!(matches!(key_to_message(&ch("c"), ctrl()), Some(Message::Copy)));
    assert!(matches!(key_to_message(&ch("x"), ctrl()), Some(Message::Cut)));
    assert!(matches!(key_to_message(&ch("v"), ctrl()), Some(Message::Paste)));
    assert!(matches!(key_to_message(&ch("a"), ctrl()), Some(Message::SelectAll)));
    assert!(matches!(key_to_message(&ch("C"), ctrl()), Some(Message::Copy)));
    assert!(key_to_message(&ch("c"), none()).is_none());
    assert!(key_to_message(&ch("z"), ctrl()).is_none());
}

#[test]
fn named_keys_map_to_commands() {
    assert!(matches!(
        key_to_message(&named(Named::Delete), none()),
        Some(Message::DeleteSelected)
    ));
    assert!(matches!(
        key_to_message(&named(Named::F2), none()),
        Some(Message::RenameStart)
    ));
    assert!(matches!(
        key_to_message(&named(Named::Escape), none()),
        Some(Message::CloseMenu)
    ));
    assert!(matches!(
        key_to_message(&named(Named::F5), none()),
        Some(Message::Refresh)
    ));
    assert!(matches!(
        key_to_message(&named(Named::Enter), none()),
        Some(Message::Activate)
    ));
    assert!(matches!(
        key_to_message(&named(Named::Backspace), none()),
        Some(Message::GoUp)
    ));
}

#[test]
fn arrows_carry_extend_and_focus_flags() {
    assert!(matches!(
        key_to_message(&named(Named::ArrowDown), none()),
        Some(Message::MoveSelection(Nav::Down, false, false))
    ));
    assert!(matches!(
        key_to_message(&named(Named::ArrowUp), shift()),
        Some(Message::MoveSelection(Nav::Up, true, false))
    ));
    assert!(matches!(
        key_to_message(&named(Named::ArrowDown), ctrl()),
        Some(Message::MoveSelection(Nav::Down, false, true))
    ));
    assert!(matches!(
        key_to_message(&named(Named::Home), none()),
        Some(Message::MoveSelection(Nav::Home, false, false))
    ));
    assert!(matches!(
        key_to_message(&named(Named::PageDown), shift()),
        Some(Message::MoveSelection(Nav::PageDown, true, false))
    ));
}

#[test]
fn tab_keys_cycle_only_with_ctrl() {
    let both = Modifiers {
        shift: true,
        command: true,
    };
    assert!(matches!(key_to_message(&named(Named::Tab), ctrl()), Some(Message::NextTab)));
    assert!(matches!(key_to_message(&named(Named::Tab), both), Some(Message::PrevTab)));
    assert!(key_to_message(&named(Named::Tab), none()).is_none());
    assert!(key_to_message(&named(Named::Other), ctrl()).is_none());
    assert!(matches!(key_to_message(&ch("T"), ctrl()), Some(Message::NewTab)));
    assert!(matches!(key_to_message(&ch("w"), ctrl()), Some(Message::CloseActiveTab)));
}

#[test]
fn commands_and_edits_are_told_apart() {
    assert!(is_input_shortcut(&Message::Refresh));
    assert!(!is_input_shortcut(&Message::GoBack));
    assert!(is_text_edit(&Message::SearchSubmit));
    assert!(!is_text_edit(&Message::Copy));
}

// ---- geometry

#[test]
fn visible_window_renders_only_the_viewport_plus_overscan() {
    let total = 1000;
    let viewport = 600.0;
    let row_height = 24.0f32;
    assert_eq!(px(row_height), ROW_HEIGHT);

    let onscreen = (viewport / row_height) as usize;
    let (start, end) = visible_window(px(0.0), px(viewport), total);
    assert_eq!(start, 0);
    assert!(end >= onscreen, "window must cover the visible rows");
    assert!(end - start < total / 10, "only a small slice is rendered");

    let (start, end) = visible_window(px(500.0 * row_height), px(viewport), total);
    assert_eq!(start, 500 - OVERSCAN);
    assert!(start <= 500 && end > 500);

    let (start, end) = visible_window(px(total as f32 * row_height), px(viewport), total);
    assert_eq!(end, total);
    assert!(start < total);

    assert_eq!(visible_window(px(0.0), px(viewport), 0), (0, 0));

    // An offset from a longer list leaves an empty range within the shorter one.
    let (start, end) = visible_window(px(900.0 * row_height), px(viewport), 10);
    assert!(start <= end && end <= 10);
}

#[test]
fn windows_are_exact() {
    assert_eq!(window_for(px(240.0), px(48.0), 100, px(24.0), 2), (8, 15));
    assert_eq!(window_for(px(240.0), px(50.0), 100, px(24.0), 2), (8, 16));
    assert_eq!(window_for(0, 0, 5, 0, 3), (0, 0));
}

#[test]
fn scrolling_brings_a_row_just_into_view() {
    let view = px(100.0);
    assert_eq!(scroll_target(0, 50, 0, view), None);
    assert_eq!(scroll_target(10, 50, 0, view), Some(px(11.0 * 24.0 - 100.0)));
    assert_eq!(scroll_target(2, 50, px(100.0), view), Some(px(48.0)));
    let at = scroll_target(10, 50, 0, view).unwrap();
    assert_eq!(scroll_target(10, 50, at, view), None);
    assert_eq!(page_rows(px(600.0)), 25);
    assert_eq!(page_rows(px(3.0)), 1);
    assert_eq!(viewport_for(px(720.0)), px(570.0));
    assert_eq!(viewport_for(px(10.0)), px(24.0));
}

#[test]
fn grids_fit_as_many_columns_as_there_is_room() {
    assert_eq!(ViewMode::Tiny.tile_size(), (92, 52));
    assert_eq!(ViewMode::ExtraLarge.tile_size(), (272, 292));
    assert_eq!(ViewMode::Large.thumb_px(), Some(96));
    assert_eq!(ViewMode::Details.thumb_px(), None);
    assert_eq!(tile_units(ViewMode::Small), (92 * UNIT, 68 * UNIT));
    assert_eq!(grid_columns(px(500.0), ViewMode::Tiny), 5);
    assert_eq!(grid_columns(px(10.0), ViewMode::Tiny), 1);
    assert_eq!(grid_rows(11, 5), 3);
    assert_eq!(grid_rows(10, 5), 2);
    assert_eq!(grid_rows(0, 5), 0);
    assert_eq!(tile_at(2, 0, 5, 11), Some(10));
    assert_eq!(tile_at(2, 1, 5, 11), None);
    assert_eq!(ViewMode::all().len(), 6);
    assert_eq!(ViewMode::ExtraLarge.label(), "Extra large icons");
}

// ---- wording

#[test]
fn tab_titles_use_the_folder_name() {
    assert_eq!(tab_title(&Location::ThisPc), "This PC");
    assert_eq!(tab_title(&path("C:\\Users\\j2\\Documents")), "Documents");
    assert_eq!(tab_title(&path("C:\\")), "C:\\");
}

#[test]
fn addresses_lead_back() {
    for l in [Location::ThisPc, Location::Wsl, path(r"C:\Users\me")] {
        assert_eq!(Location::parse(&address_text(&l)), l);
    }
}

#[test]
fn counts_are_worded() {
    assert_eq!(plural(1), "");
    assert_eq!(plural(0), "s");
    assert_eq!(counted_items("Copied", 1), "Copied 1 item");
    assert_eq!(counted_items("Cut", 12), "Cut 12 items");
    assert_eq!(results_status(0, true), "No results");
    assert_eq!(results_status(1, false), "1 result");
    assert_eq!(results_status(7, false), "7 results");
    assert_eq!(
        results_status(5000, true),
        "5000 results (showing the first 5000; refine to narrow)"
    );
}

#[test]
fn headings_show_the_sort() {
    let sort = Sort::default();
    assert_eq!(heading("Name", SortKey::Name, sort), "Name ▲");
    assert_eq!(heading("Size", SortKey::Size, sort), "Size");
    let down = Sort {
        order: SortOrder::Descending,
        ..sort
    };
    assert_eq!(heading("Name", SortKey::Name, down), "Name ▼");
    assert_eq!(
        (0..5).map(spinner_glyph).collect::<Vec<_>>(),
        ["◐", "◓", "◑", "◒", "◐"]
    );
    assert!(divider_above(1, &Location::ThisPc));
    assert!(!divider_above(0, &Location::ThisPc));
    assert!(!divider_above(1, &Location::Wsl));
}

#[test]
fn text_is_shortened_to_what_fits() {
    let narrow = |n: usize| move |s: &str| s.chars().count() <= n;
    assert_eq!(ellipsize("abcdef", narrow(4)), "abc…");
    assert_eq!(ellipsize("abcdef", narrow(1)), "…");
    assert_eq!(ellipsize("abcdef", narrow(0)), "…");
    assert_eq!(ellipsize("abcdef", narrow(100)), "abcdef…");
    assert_eq!(ellipsize("äöü", narrow(3)), "äö…");
    assert_eq!(ellipsize("", narrow(3)), "…");
}

// ---- start

#[test]
fn parses_path_argument_forms() {
    let args = |xs: &[&str]| xs.iter().map(|s| s.to_string()).collect::<Vec<_>>();

    assert_eq!(
        requested_path(&args(&["--path", "C:\\Windows"])).as_deref(),
        Some("C:\\Windows")
    );
    assert_eq!(
        requested_path(&args(&["--path=C:\\Temp"])).as_deref(),
        Some("C:\\Temp")
    );
    assert_eq!(
        requested_path(&args(&["D:\\Data"])).as_deref(),
        Some("D:\\Data")
    );
    assert_eq!(
        requested_path(&args(&["--weird", "--path", "E:\\X"])).as_deref(),
        Some("E:\\X")
    );
    assert_eq!(requested_path(&args(&[])), None);
    assert_eq!(requested_path(&args(&["--path"])), None);
}

#[test]
fn a_requested_folder_is_opened_if_it_is_one() {
    assert_eq!(start_location(Some(win("C:\\x")), true), path("C:\\x"));
    assert_eq!(start_location(Some(win("C:\\x")), false), Location::ThisPc);
    assert_eq!(start_location(None, true), Location::ThisPc);
}

#[test]
fn unique_folder_name_avoids_collisions() {
    let dir: RefCell<HashSet<String>> = RefCell::new(HashSet::new());
    let taken = |name: &str| dir.borrow().contains(name);

    assert_eq!(unique_folder_name(taken), "New folder");

    dir.borrow_mut().insert("New folder".to_string());
    assert_eq!(unique_folder_name(taken), "New folder (2)");

    dir.borrow_mut().insert("New folder (2)".to_string());
    assert_eq!(unique_folder_name(taken), "New folder (3)");
}

// ---- the file manager

fn entry(dir: &str, name: &str, size: u64) -> Entry {
    Entry {
        name: name.to_string(),
        path: win(&format!("{dir}\\{name}")),
        kind: EntryKind::File,
        size,
        modified: None,
        created: None,
        attrs: Attributes::default(),
    }
}

fn folder(dir: &str, name: &str) -> Entry {
    Entry {
        kind: EntryKind::Directory,
        ..entry(dir, name, 0)
    }
}

fn opened(start: Location, view_mode: ViewMode) -> (Librarian, Vec<Action>) {
    let settings = Settings {
        view_mode,
        ..Settings::default()
    };
    let columns: ColumnStore = KeyMap::new();
    Librarian::new(start, settings, columns, px(858.0), px(720.0))
}

fn token(actions: &[Action]) -> u64 {
    for a in actions {
        if let Action::ReadDir { token, .. } | Action::RereadDir { token, .. } = a {
            return *token;
        }
    }
    panic!("nothing is being read: {actions:?}")
}

/// A file manager showing `C:\d` with a folder and two files.
fn at_folder(view_mode: ViewMode) -> Librarian {
    let (mut app, first) = opened(path(r"C:\d"), view_mode);
    app.update(Message::Loaded(
        token(&first),
        Ok(vec![
            entry(r"C:\d", "b.txt", 2000),
            folder(r"C:\d", "sub"),
            entry(r"C:\d", "A.txt", 500),
        ]),
    ));
    app
}

fn labels(app: &Librarian) -> Vec<&str> {
    app.tab.rows.iter().map(|r| r.label.as_str()).collect()
}

fn click(app: &mut Librarian, index: usize, now: u64) -> Vec<Action> {
    app.update(Message::RowClicked { index, now })
}

#[test]
fn opening_a_folder_reads_it_under_the_overlay() {
    let (app, first) = opened(path(r"C:\d"), ViewMode::Details);
    assert!(app.overlay_loading);
    assert!(app.tab.load_pending);
    assert_eq!(app.tab.status, "Loading…");
    assert_eq!(app.tab.address, r"C:\d");
    assert_eq!(app.empty_list_message(), "Loading…");
    assert!(first.iter().any(|a| matches!(a, Action::LoadTreeRoots)));
    assert!(first.iter().any(|a| matches!(a, Action::ReadDir { .. })));
}

#[test]
fn a_loaded_folder_is_listed_sorted_and_unlocked() {
    let app = at_folder(ViewMode::Details);
    assert_eq!(labels(&app), ["sub", "A.txt", "b.txt"]);
    assert_eq!(app.tab.status, "3 items");
    assert!(!app.overlay_loading);
    assert!(!app.tab.load_pending);
}

#[test]
fn opening_this_pc_lists_the_drives() {
    let (mut app, first) = opened(Location::ThisPc, ViewMode::Details);
    assert!(first.iter().any(|a| matches!(a, Action::ListDrives)));
    assert_eq!(app.empty_list_message(), "Empty");
    app.update(Message::ThisPcLoaded(vec![DriveInfo {
        letter: 'C',
        root: win(r"C:\"),
        label: String::new(),
        kind: DriveKind::Fixed,
        total_bytes: 0,
        free_bytes: 0,
    }]));
    assert_eq!(labels(&app), ["Local Disk (C:)"]);
    assert!(!app.toolbar().up);
    assert!(!app.toolbar().search);
}

#[test]
fn the_linux_group_lists_distributions() {
    let (mut app, first) = opened(Location::Wsl, ViewMode::Details);
    assert!(first.iter().any(|a| matches!(a, Action::ListDistros)));
    app.update(Message::WslLoaded(vec![WslDistro {
        name: "Ubuntu".to_string(),
    }]));
    assert_eq!(labels(&app), ["Ubuntu"]);
    let acts = app.update(Message::RowClicked { index: 0, now: 5 });
    assert!(acts.is_empty());
    let acts = app.update(Message::Activate);
    assert!(matches!(&acts[..], [.., Action::ReadDir { path, .. }] if path.text == r"\\wsl.localhost\Ubuntu"));
}

#[test]
fn a_stale_listing_is_dropped() {
    let mut app = at_folder(ViewMode::Details);
    let acts = app.update(Message::Loaded(9999, Ok(Vec::new())));
    assert!(acts.is_empty());
    assert_eq!(labels(&app), ["sub", "A.txt", "b.txt"]);
}

#[test]
fn a_failed_load_says_why_and_releases_the_overlay() {
    let (mut app, first) = opened(path(r"C:\gone"), ViewMode::Details);
    app.update(Message::Loaded(token(&first), Err("not found".to_string())));
    assert!(!app.overlay_loading);
    assert!(app.tab.rows.is_empty());
    assert_eq!(app.tab.status, "not found");
    assert_eq!(app.empty_list_message(), "not found");
}

#[test]
fn the_previous_folder_stays_on_show_while_the_next_is_read() {
    let mut app = at_folder(ViewMode::Details);
    let acts = app.update(Message::GoUp);
    assert_eq!(labels(&app), ["sub", "A.txt", "b.txt"]);
    assert!(app.overlay_loading);
    assert!(matches!(&acts[..], [.., Action::ReadDir { path, .. }] if path.text == r"C:\"));
    app.update(Message::Loaded(token(&acts), Ok(vec![folder(r"C:", "d")])));
    assert_eq!(labels(&app), ["d"]);
    assert!(app.toolbar().back);
    let acts = app.update(Message::GoBack);
    assert!(matches!(&acts[..], [.., Action::ReadDir { path, .. }] if path.text == r"C:\d"));
}

#[test]
fn the_overlay_locks_keyboard_and_text() {
    let (mut app, _) = opened(path(r"C:\d"), ViewMode::Details);
    assert!(app.update(Message::Refresh).is_empty());
    assert!(app.update(Message::AddressChanged("x".to_string())).is_empty());
    assert_eq!(app.tab.address, r"C:\d");
    assert!(app.update(Message::NewTab).is_empty());
    assert_eq!(app.tabs.len(), 1);
}

#[test]
fn clicks_select_and_double_clicks_open() {
    let mut app = at_folder(ViewMode::Details);
    assert!(click(&mut app, 1, 1_000_000_000).is_empty());
    assert_eq!(app.tab.selection.iter(), [1]);
    assert!(click(&mut app, 1, 1_500_000_000).is_empty());
    let acts = click(&mut app, 1, 1_800_000_000);
    assert!(matches!(&acts[..], [Action::Open(p)] if p.text == r"C:\d\A.txt"));
    let acts = click(&mut app, 0, 1_900_000_000);
    assert!(acts.is_empty());
    let acts = click(&mut app, 0, 2_000_000_000);
    assert!(matches!(&acts[..], [.., Action::ReadDir { path, .. }] if path.text == r"C:\d\sub"));
}

#[test]
fn modifier_clicks_adjust_the_selection() {
    let mut app = at_folder(ViewMode::Details);
    click(&mut app, 0, 0);
    app.update(Message::ModifiersChanged(shift()));
    click(&mut app, 2, 1);
    assert_eq!(app.tab.selection.iter(), [0, 1, 2]);
    app.update(Message::ModifiersChanged(ctrl()));
    click(&mut app, 1, 2);
    assert_eq!(app.tab.selection.iter(), [0, 2]);
    assert_eq!(app.selected_bytes(), Some(2000));
    assert_eq!(app.status_line(), "3 items  •  2 selected (2.0 KB)");
}

#[test]
fn keys_move_the_lead_and_keep_it_in_view() {
    let mut app = at_folder(ViewMode::Details);
    app.update(Message::MoveSelection(Nav::Down, false, false));
    assert_eq!(app.tab.selection.lead(), Some(0));
    app.update(Message::MoveSelection(Nav::End, true, false));
    assert_eq!(app.tab.selection.iter(), [0, 1, 2]);
    app.update(Message::MoveSelection(Nav::Up, false, true));
    assert_eq!(app.tab.selection.lead(), Some(1));
    assert_eq!(app.tab.selection.iter(), [0, 1, 2]);
    app.update(Message::Scrolled {
        offset: 0,
        height: px(24.0),
    });
    let acts = app.update(Message::MoveSelection(Nav::PageDown, false, false));
    assert!(matches!(&acts[..], [Action::ScrollTo(y)] if *y == px(48.0)));
    app.update(Message::MoveSelection(Nav::Home, false, false));
    assert_eq!(app.tab.selection.lead(), Some(0));
    app.update(Message::MoveSelection(Nav::PageUp, false, false));
    assert_eq!(app.tab.selection.lead(), Some(0));
}

#[test]
fn a_refresh_keeps_what_is_selected() {
    let mut app = at_folder(ViewMode::Details);
    click(&mut app, 2, 0);
    let acts = app.update(Message::DirChanged);
    assert!(matches!(&acts[..], [Action::RereadDir { .. }]));
    app.update(Message::Reloaded(
        token(&acts),
        Ok(vec![entry(r"C:\d", "b.txt", 1), entry(r"C:\d", "zz", 1)]),
    ));
    assert_eq!(labels(&app), ["b.txt", "zz"]);
    assert_eq!(app.tab.selection.iter(), [0]);
    let acts = app.update(Message::DirChanged);
    app.update(Message::Reloaded(token(&acts), Err("busy".to_string())));
    assert_eq!(labels(&app), ["b.txt", "zz"]);
}

#[test]
fn a_refresh_in_the_middle_of_a_load_stands_in_for_it() {
    let mut app = at_folder(ViewMode::Details);
    let first = app.update(Message::Refresh);
    assert!(app.tab.load_pending);
    let acts = app.update(Message::DirChanged);
    app.update(Message::Loaded(token(&first), Ok(Vec::new())));
    assert!(app.tab.load_pending);
    app.update(Message::Reloaded(token(&acts), Ok(vec![entry(r"C:\d", "only", 1)])));
    assert!(!app.tab.load_pending);
    assert!(!app.overlay_loading);
    assert_eq!(labels(&app), ["only"]);
}

#[test]
fn rapid_churn_never_leaves_a_stale_row_index() {
    let mut app = at_folder(ViewMode::Details);
    for n in [30usize, 3, 0, 12, 1] {
        app.update(Message::SelectAll);
        let acts = app.update(Message::DirChanged);
        let entries = (0..n).map(|i| entry(r"C:\d", &format!("f{i}"), 1)).collect();
        app.update(Message::Reloaded(token(&acts), Ok(entries)));
        assert!(app.tab.selection.iter().iter().all(|i| *i < app.tab.rows.len()));
        assert!(app.tab.selection.lead().is_none_or(|i| i < app.tab.rows.len()));
        let (start, end) = app.list_window();
        assert!(start <= end && end <= app.tab.rows.len());
    }
}

#[test]
fn hidden_items_and_sorting_rebuild_the_rows() {
    let (mut app, first) = opened(path(r"C:\d"), ViewMode::Details);
    let mut hidden = entry(r"C:\d", "hidden", 9);
    hidden.attrs.hidden = true;
    app.update(Message::Loaded(
        token(&first),
        Ok(vec![hidden, entry(r"C:\d", "a", 1), entry(r"C:\d", "b", 5)]),
    ));
    assert_eq!(labels(&app), ["a", "b"]);
    let acts = app.update(Message::SetHidden(true));
    assert!(matches!(&acts[..], [Action::SaveSettings(s), ..] if s.show_hidden));
    assert_eq!(labels(&app), ["a", "b", "hidden"]);
    app.update(Message::SortBy(SortKey::Size));
    assert_eq!(labels(&app), ["a", "b", "hidden"]);
    let acts = app.update(Message::SortBy(SortKey::Size));
    assert_eq!(labels(&app), ["hidden", "b", "a"]);
    assert!(matches!(&acts[..], [Action::SaveSettings(s)] if s.sort.order == SortOrder::Descending));
}

#[test]
fn tabs_keep_their_state_while_others_are_shown() {
    let mut app = at_folder(ViewMode::Details);
    click(&mut app, 1, 0);
    let acts = app.update(Message::NewTab);
    assert!(acts.iter().any(|a| matches!(a, Action::ListDrives)));
    assert_eq!((app.tabs.len(), app.active), (2, 1));
    assert_eq!(tab_title(app.tab_location(0)), "d");
    assert_eq!(tab_title(app.tab_location(1)), "This PC");
    app.update(Message::ThisPcLoaded(Vec::new()));
    app.update(Message::SelectTab(0));
    assert_eq!(labels(&app), ["sub", "A.txt", "b.txt"]);
    assert_eq!(app.tab.selection.iter(), [1]);
    app.update(Message::NextTab);
    assert_eq!(app.active, 1);
    app.update(Message::NextTab);
    assert_eq!(app.active, 0);
    app.update(Message::PrevTab);
    assert_eq!(app.active, 1);
    app.update(Message::CloseTab(0));
    assert_eq!((app.tabs.len(), app.active), (1, 0));
    assert_eq!(app.tab.history.current, Location::ThisPc);
    app.update(Message::CloseActiveTab);
    assert_eq!(app.tabs.len(), 1);
}

#[test]
fn closing_the_active_tab_shows_its_neighbour() {
    let mut app = at_folder(ViewMode::Details);
    app.update(Message::NewTab);
    app.update(Message::ThisPcLoaded(Vec::new()));
    let acts = app.update(Message::CloseActiveTab);
    assert_eq!((app.tabs.len(), app.active), (1, 0));
    assert_eq!(labels(&app), ["sub", "A.txt", "b.txt"]);
    assert!(acts.iter().any(|a| matches!(a, Action::ScrollTo(_))));
}

#[test]
fn a_tab_left_in_the_middle_of_a_load_takes_it_up_again() {
    let (mut app, first) = opened(path(r"C:\d"), ViewMode::Details);
    app.update(Message::SelectTab(0));
    app.update(Message::OpenInNewTab);
    app.overlay_loading = false;
    app.update(Message::NewTab);
    app.update(Message::Loaded(token(&first), Ok(vec![entry(r"C:\d", "late", 1)])));
    assert!(app.tab.rows.is_empty());
    let acts = app.update(Message::SelectTab(0));
    let again = token(&acts);
    assert!(again > token(&first));
    app.update(Message::Loaded(again, Ok(vec![entry(r"C:\d", "late", 1)])));
    assert_eq!(labels(&app), ["late"]);
}

#[test]
fn a_folder_opens_in_a_new_tab() {
    let mut app = at_folder(ViewMode::Medium);
    app.update(Message::RowRightClicked(0));
    let acts = app.update(Message::OpenInNewTab);
    assert_eq!(app.tabs.len(), 2);
    assert_eq!(app.tab.history.current, path(r"C:\d\sub"));
    assert_eq!(app.tab.view_mode, ViewMode::Medium);
    assert!(acts.iter().any(|a| matches!(a, Action::ReadDir { .. })));
    assert!(app.menu.is_none());
}

#[test]
fn the_clipboard_moves_or_copies() {
    let mut app = at_folder(ViewMode::Details);
    assert!(!app.command_bar().copy);
    click(&mut app, 1, 0);
    assert!(app.command_bar().copy && app.command_bar().rename);
    app.update(Message::Copy);
    assert_eq!(app.tab.status, "Copied 1 item");
    assert!(app.command_bar().paste);
    let acts = app.update(Message::Paste);
    match &acts[..] {
        [Action::Run(Operation::Copy { paths, dir })] => {
            assert_eq!(paths[0].text, r"C:\d\A.txt");
            assert_eq!(dir.text, r"C:\d");
        }
        other => panic!("expected a copy, got {other:?}"),
    }
    assert_eq!(app.tab.status, "Copying…");
    assert!(!app.command_bar().paste);
    app.update(Message::SelectAll);
    app.update(Message::Cut);
    assert_eq!(app.tab.status, "Cut 3 items");
    let acts = app.update(Message::Paste);
    assert!(matches!(&acts[..], [Action::Run(Operation::Move { .. })]));
}

#[test]
fn deleting_counts_its_items_and_a_finished_operation_reads_again() {
    let mut app = at_folder(ViewMode::Details);
    assert!(app.update(Message::DeleteSelected).is_empty());
    app.update(Message::SelectAll);
    let acts = app.update(Message::DeleteSelected);
    assert!(matches!(&acts[..], [Action::Run(Operation::Delete { paths })] if paths.len() == 3));
    assert_eq!(app.tab.status, "Deleting 3 items…");
    let acts = app.update(Message::OpFinished(Ok(())));
    assert!(acts.iter().any(|a| matches!(a, Action::ReadDir { .. })));
    app.update(Message::OpFinished(Err("denied".to_string())));
    assert_eq!(app.tab.status, "denied");
}

#[test]
fn a_new_folder_is_renamed_once_it_is_listed() {
    let mut app = at_folder(ViewMode::Details);
    let acts = app.update(Message::NewFolder);
    assert!(matches!(&acts[..], [Action::NameFolder(p)] if p.text == r"C:\d"));
    let acts = app.update(Message::FolderNamed {
        dir: win(r"C:\d"),
        name: "New folder".to_string(),
    });
    assert!(matches!(&acts[..], [Action::Run(Operation::NewFolder { name, .. })] if name == "New folder"));
    assert_eq!(app.tab.status, "New folder…");
    let acts = app.update(Message::DirChanged);
    app.update(Message::Reloaded(token(&acts), Ok(vec![entry(r"C:\d", "x", 1)])));
    assert!(app.tab.renaming.is_none());
    let acts = app.update(Message::DirChanged);
    let acts = app.update(Message::Reloaded(
        token(&acts),
        Ok(vec![entry(r"C:\d", "x", 1), folder(r"C:\d", "New folder")]),
    ));
    assert!(acts.iter().any(|a| matches!(a, Action::SelectRename)));
    assert_eq!(app.tab.renaming.as_ref().unwrap().value, "New folder");
    assert_eq!(app.tab.selection.iter(), [0]);
    app.update(Message::RenameChanged("  Photos ".to_string()));
    let acts = app.update(Message::RenameCommit);
    match &acts[..] {
        [Action::Run(Operation::Rename { path, name })] => {
            assert_eq!(path.text, r"C:\d\New folder");
            assert_eq!(name, "Photos");
        }
        other => panic!("expected a rename, got {other:?}"),
    }
}

#[test]
fn a_rename_that_changes_nothing_is_not_made() {
    let mut app = at_folder(ViewMode::Details);
    click(&mut app, 1, 0);
    let acts = app.update(Message::RenameStart);
    assert!(matches!(&acts[..], [Action::FocusRename]));
    assert!(app.row_face(1).editing && app.row_face(1).selected && app.row_face(1).lead);
    assert!(app.update(Message::RenameCommit).is_empty());
    assert!(app.tab.renaming.is_none());
    app.update(Message::RenameStart);
    app.update(Message::RenameChanged("   ".to_string()));
    assert!(app.update(Message::RenameCommit).is_empty());
    app.update(Message::RenameStart);
    app.update(Message::CloseMenu);
    assert!(app.tab.renaming.is_none());
}

#[test]
fn context_menus_offer_what_applies() {
    let mut app = at_folder(ViewMode::Details);
    app.update(Message::CursorMoved(Spot { x: 3, y: 4 }));
    app.update(Message::RowRightClicked(0));
    let menu = app.menu.unwrap();
    assert_eq!(menu.at, Spot { x: 3, y: 4 });
    assert_eq!(
        app.menu_items(&menu),
        [
            MenuItem::Open,
            MenuItem::OpenInNewTab,
            MenuItem::Cut,
            MenuItem::Copy,
            MenuItem::Rename,
            MenuItem::Delete,
            MenuItem::NewFolder
        ]
    );
    app.update(Message::Copy);
    app.update(Message::BackgroundRightClicked);
    let menu = app.menu.unwrap();
    assert_eq!(app.menu_items(&menu), [MenuItem::Paste, MenuItem::NewFolder]);
    let (mut pc, _) = opened(Location::ThisPc, ViewMode::Details);
    pc.update(Message::BackgroundRightClicked);
    assert!(pc.menu_items(&pc.menu.unwrap()).is_empty());
}

#[test]
fn searches_are_debounced_streamed_and_cleared() {
    let mut app = at_folder(ViewMode::Details);
    let acts = app.update(Message::SearchChanged(" rep ".to_string()));
    let first = match &acts[..] {
        [Action::Debounce(n)] => *n,
        other => panic!("expected a pause, got {other:?}"),
    };
    let acts = app.update(Message::SearchChanged("report".to_string()));
    let second = match &acts[..] {
        [Action::Debounce(n)] => *n,
        other => panic!("expected a pause, got {other:?}"),
    };
    assert!(app.update(Message::SearchDebounced(first)).is_empty());
    assert!(app.search_active.is_none());
    app.update(Message::SearchDebounced(second));
    let spec = app.search_active.clone().unwrap();
    assert_eq!(spec.query, "report");
    assert_eq!(spec.root.text, r"C:\d");
    assert_eq!(app.tab.status, "Searching…");
    assert_eq!(app.empty_list_message(), "Searching for “report”…");
    assert!(app.toolbar().clear);
    let hit = |p: &str, is_dir: bool| SearchHit {
        path: win(p),
        matches: None,
        is_dir,
    };
    app.update(Message::SearchBatch {
        token: spec.token + 1,
        hits: vec![hit(r"C:\d\no", false)],
    });
    assert!(app.tab.rows.is_empty());
    app.update(Message::SearchBatch {
        token: spec.token,
        hits: vec![
            hit(r"C:\d\report.txt", false),
            hit(r"C:\d\Z", true),
            hit(r"C:\d\a report", true),
        ],
    });
    assert_eq!(labels(&app), ["a report", "Z", "report.txt"]);
    assert_eq!(app.tab.status, "Searching… 3 found");
    app.update(Message::SearchFinished {
        token: spec.token,
        capped: false,
    });
    assert_eq!(app.tab.status, "3 results");
    assert!(app.search_active.is_none());
    assert!(app.update(Message::SearchSubmit).is_empty());
    let acts = app.update(Message::SearchClear);
    assert!(acts.iter().any(|a| matches!(a, Action::ReadDir { .. })));
    assert_eq!(app.tab.search_query, "");
}

#[test]
fn a_failed_or_fruitless_search_says_so() {
    let mut app = at_folder(ViewMode::Details);
    app.update(Message::SearchChanged("x".to_string()));
    app.update(Message::SearchSubmit);
    let spec = app.search_active.clone().unwrap();
    app.update(Message::SearchFailed {
        token: spec.token,
        error: "no ripgrep".to_string(),
    });
    assert_eq!(app.tab.status, "no ripgrep");
    assert_eq!(app.empty_list_message(), "No file names match “x”");
    app.update(Message::SearchModeChanged(SearchMode::Contents));
    let spec = app.search_active.clone().unwrap();
    assert_eq!(spec.mode, SearchMode::Contents);
    app.update(Message::SearchFinished {
        token: spec.token,
        capped: true,
    });
    assert_eq!(app.tab.status, "No results");
    assert_eq!(app.empty_list_message(), "No files contain “x”");
}

#[test]
fn leaving_a_tab_abandons_its_search() {
    let mut app = at_folder(ViewMode::Details);
    app.update(Message::SearchChanged("x".to_string()));
    app.update(Message::SearchSubmit);
    app.update(Message::NewTab);
    assert!(app.search_active.is_none());
    app.update(Message::ThisPcLoaded(Vec::new()));
    app.update(Message::SelectTab(0));
    assert!(matches!(app.tab.content, Content::Search { done: true, .. }));
    assert_eq!(app.tab.search_query, "x");
}

fn thumb_keys(actions: &[Action]) -> Vec<ThumbKey> {
    let mut keys = Vec::new();
    for a in actions {
        if let Action::SweepThumbs { keys: k, .. } | Action::ExtractThumbs { keys: k, .. } = a {
            keys.extend(k.iter().cloned());
        }
    }
    keys
}

#[test]
fn a_cold_grid_locks_until_its_thumbnails_are_there() {
    let (mut app, first) = opened(path(r"C:\d"), ViewMode::Medium);
    let acts = app.update(Message::Loaded(
        token(&first),
        Ok(vec![entry(r"C:\d", "a.png", 1), entry(r"C:\d", "b.png", 1)]),
    ));
    let keys = thumb_keys(&acts);
    assert_eq!(keys.len(), 2);
    assert_eq!(keys[0].size, 48);
    let session = app.thumb_token;
    assert!(!app.overlay_loading);
    let acts = app.update(Message::ThumbsCached {
        sweep: CacheSweep {
            hits: vec![(keys[0].clone(), 11)],
            misses: vec![keys[1].clone()],
        },
        token: session,
        lock: true,
    });
    assert!(app.overlay_loading);
    assert_eq!(app.tile_face(0, 48).image, Some(11));
    assert_eq!(app.tile_face(1, 48).image, None);
    assert!(matches!(
        &acts[..],
        [Action::ClearFocus, Action::ExtractThumbs { kind: ThumbKind::Lock, .. }]
    ));
    app.update(Message::SpinnerTick);
    assert_eq!(app.spinner_frame, 1);
    app.update(Message::ThumbsLoaded {
        images: vec![(keys[1].clone(), 12)],
        token: session,
        kind: ThumbKind::Lock,
    });
    assert!(!app.overlay_loading);
    assert_eq!(app.tile_face(1, 48).image, Some(12));
}

#[test]
fn a_superseded_sweep_only_keeps_its_hits() {
    let (mut app, first) = opened(path(r"C:\d"), ViewMode::Medium);
    let acts = app.update(Message::Loaded(token(&first), Ok(vec![entry(r"C:\d", "a", 1), entry(r"C:\d", "b", 1)])));
    let keys = thumb_keys(&acts);
    let old = app.thumb_token;
    app.update(Message::ViewModeChanged(ViewMode::Large));
    let acts = app.update(Message::ThumbsCached {
        sweep: CacheSweep {
            hits: vec![(keys[0].clone(), 5)],
            misses: vec![keys[1].clone()],
        },
        token: old,
        lock: true,
    });
    assert!(acts.is_empty());
    assert!(!app.overlay_loading);
    assert_eq!(app.thumbs.get(&keys[0]), Some(&5));
    let acts = app.update(Message::ViewModeChanged(ViewMode::Medium));
    assert_eq!(thumb_keys(&acts), vec![keys[1].clone()]);
}

#[test]
fn the_background_works_in_chunks() {
    let (mut app, first) = opened(path(r"C:\d"), ViewMode::Medium);
    let entries: Vec<Entry> = (0..200).map(|i| entry(r"C:\d", &format!("f{i:03}"), 1)).collect();
    let acts = app.update(Message::Loaded(token(&first), Ok(entries)));
    let near = thumb_keys(&acts);
    assert!(near.len() < 200);
    let session = app.thumb_token;
    let acts = app.update(Message::ThumbsCached {
        sweep: CacheSweep {
            hits: near.iter().map(|k| (k.clone(), 1)).collect(),
            misses: Vec::new(),
        },
        token: session,
        lock: true,
    });
    let chunk = thumb_keys(&acts);
    assert_eq!(chunk.len(), 24);
    let mut seen = near.len() + chunk.len();
    let mut acts = acts;
    while !thumb_keys(&acts).is_empty() {
        acts = app.update(Message::ThumbsLoaded {
            images: Vec::new(),
            token: session,
            kind: ThumbKind::Background,
        });
        seen += thumb_keys(&acts).len();
    }
    assert_eq!(seen, 200);
}

#[test]
fn icons_are_asked_for_once() {
    let (mut app, first) = opened(path(r"C:\d"), ViewMode::Details);
    let acts = app.update(Message::Loaded(
        token(&first),
        Ok(vec![entry(r"C:\d", "a.txt", 1), folder(r"C:\d", "s")]),
    ));
    match &acts[..] {
        [Action::ExtractIcons(keys)] => {
            assert_eq!(*keys, vec![IconKey::Folder, IconKey::Ext("txt".to_string())]);
        }
        other => panic!("expected icons, got {other:?}"),
    }
    app.update(Message::IconsLoaded(vec![(IconKey::Folder, 77)]));
    assert_eq!(app.row_face(0).image, Some(77));
    assert_eq!(app.row_face(1).image, None);
    assert!(app.update(Message::SetHidden(true)).iter().all(|a| !matches!(a, Action::ExtractIcons(_))));
}

#[test]
fn columns_are_kept_per_folder() {
    let mut app = at_folder(ViewMode::Details);
    let acts = app.update(Message::ColumnResized(Column::Type, 99.0f32.to_bits()));
    assert!(matches!(&acts[..], [Action::SaveColumns]));
    assert_eq!(app.tab.columns.rule(Column::Type), ColRule::Fixed(99.0f32.to_bits()));
    let acts = app.update(Message::GoUp);
    assert_eq!(app.tab.columns.rule(Column::Type), ColRule::Fixed(99.0f32.to_bits()));
    app.update(Message::Loaded(token(&acts), Ok(Vec::new())));
    assert!(app.tab.columns.is_default());
    let acts = app.update(Message::GoBack);
    app.update(Message::Loaded(token(&acts), Ok(Vec::new())));
    assert_eq!(app.tab.columns.rule(Column::Type), ColRule::Fixed(99.0f32.to_bits()));
    app.update(Message::TreeNavigate(Location::ThisPc));
    assert_eq!(app.tab.columns, ColumnLayout::default());
}

#[test]
fn the_tree_opens_this_pc_and_reveals_the_current_folder() {
    let (mut app, _) = opened(path(r"C:\d"), ViewMode::Details);
    let pc = TreeChild::lazy("This PC".to_string(), IconKey::Computer, Location::ThisPc);
    let acts = app.update(Message::TreeChildrenLoaded(ROOT_ID, Ok(vec![pc])));
    let id = app.tree.this_pc_id().unwrap();
    assert!(acts.iter().any(|a| matches!(
        a,
        Action::LoadTreeChildren { id: n, location: Location::ThisPc, .. } if *n == id
    )));
    let drive = TreeChild::lazy("C:".to_string(), IconKey::Folder, path(r"C:\"));
    let acts = app.update(Message::TreeChildrenLoaded(id, Ok(vec![drive])));
    assert!(acts.iter().any(|a| matches!(
        a,
        Action::LoadTreeChildren { location: Location::Path(p), .. } if p.text == r"C:\"
    )));
    assert_eq!(app.tree.visible_rows().len(), 2);
    app.update(Message::TreeToggle(id));
    assert_eq!(app.tree.visible_rows().len(), 1);
    app.update(Message::TreeChildrenLoaded(id, Err("gone".to_string())));
    assert!(!app.tree.visible_rows()[0].expandable);
}

#[test]
fn navigating_to_the_same_place_in_the_tree_reads_nothing() {
    let mut app = at_folder(ViewMode::Details);
    assert!(app.update(Message::TreeNavigate(path("c:/d/"))).is_empty());
    app.update(Message::AddressChanged("this pc".to_string()));
    let acts = app.update(Message::AddressSubmit);
    assert!(acts.iter().any(|a| matches!(a, Action::ListDrives)));
    assert_eq!(app.tab.address, "This PC");
}

#[test]
fn room_is_checked_before_an_event() {
    let (mut app, _) = opened(Location::ThisPc, ViewMode::Details);
    assert!(app.has_room(&Message::Refresh));
    app.next_token = u64::MAX;
    assert!(!app.has_room(&Message::Refresh));
    app.overlay_loading = true;
    assert!(app.has_room(&Message::Refresh));
    assert!(app.update(Message::Refresh).is_empty());
    app.overlay_loading = false;
    app.next_token = 0;
    app.tree.next_id = u64::MAX;
    let pc = TreeChild::lazy("This PC".to_string(), IconKey::Computer, Location::ThisPc);
    assert!(!app.has_room(&Message::TreeChildrenLoaded(ROOT_ID, Ok(vec![pc]))));
    assert!(app.has_room(&Message::TreeChildrenLoaded(ROOT_ID, Err(String::new()))));
}

#[test]
fn cells_are_empty_where_there_is_nothing_to_say() {
    let app = at_folder(ViewMode::Details);
    assert_eq!(size_cell(&app.tab.rows[0]), "");
    assert_eq!(size_cell(&app.tab.rows[2]), "2.0 KB");
    assert_eq!(modified_cell(&app.tab.rows[0]), "");
}

#[test]
fn grids_build_only_what_shows() {
    let mut app = at_folder(ViewMode::Tiny);
    let w = app.grid_window(px(500.0), px(300.0));
    assert_eq!((w.columns, w.rows, w.start, w.end), (5, 1, 0, 1));
    app.update(Message::WindowResized {
        pane_w: px(200.0),
        height: px(500.0),
    });
    app.update(Message::PaneResized { pane_w: px(300.0) });
    assert_eq!(app.pane_w, px(300.0));
    assert_eq!(app.viewport, px(350.0));
    app.update(Message::Noop);
}

#[test]
fn a_superseded_load_is_ignored_after_landing() {
    for to in [Location::ThisPc, Location::Wsl] {
        let (mut app, first) = opened(path(r"C:\Users"), ViewMode::Details);
        let late = token(&first);
        app.update(Message::TreeNavigate(to.clone()));
        app.update(Message::Loaded(late, Err("late".to_string())));
        app.update(Message::Reloaded(late, Ok(vec![entry(r"C:\Users", "x", 1)])));
        assert!(app.tab.history.current == to);
        assert!(matches!(app.tab.content, Content::ThisPc { .. } | Content::Wsl { .. }));
        assert_eq!(app.tab.address, address_text(&to));
        assert_ne!(app.tab.status, "late");
        assert!(app.tab.rows.is_empty());
    }
}

#[test]
fn a_late_landing_list_is_dropped() {
    let (mut app, _) = opened(Location::ThisPc, ViewMode::Details);
    let acts = app.update(Message::TreeNavigate(path(r"C:\Users")));
    app.update(Message::Loaded(token(&acts), Ok(vec![entry(r"C:\Users", "x", 1)])));
    app.update(Message::ThisPcLoaded(Vec::new()));
    app.update(Message::WslLoaded(vec![WslDistro {
        name: "Ubuntu".to_string(),
    }]));
    assert_eq!(labels(&app), ["x"]);
    app.update(Message::TreeNavigate(Location::Wsl));
    app.update(Message::ThisPcLoaded(Vec::new()));
    assert!(matches!(app.tab.content, Content::Wsl { .. }));
}

#[test]
fn a_failed_refresh_in_the_middle_of_a_load_leaves_the_view() {
    let mut app = at_folder(ViewMode::Details);
    app.update(Message::TreeNavigate(path(r"C:\Users")));
    assert!(app.overlay_loading);
    let status = app.tab.status.clone();
    let acts = app.update(Message::DirChanged);
    let reply = app.update(Message::Reloaded(token(&acts), Err("gone".to_string())));
    assert!(reply.is_empty());
    assert!(!app.overlay_loading);
    assert!(app.tab.load_pending);
    assert_eq!(labels(&app), ["sub", "A.txt", "b.txt"]);
    assert_eq!(app.tab.status, status);
    let again = app.update(Message::DirChanged);
    app.update(Message::Reloaded(
        token(&again),
        Ok(vec![entry(r"C:\Users", "x", 1)]),
    ));
    assert!(!app.tab.load_pending);
    assert_eq!(labels(&app), ["x"]);
}

#[test]
fn an_abandoned_search_delivers_nothing_more() {
    let mut app = at_folder(ViewMode::Details);
    app.update(Message::SearchChanged("x".to_string()));
    app.update(Message::SearchSubmit);
    let token = app.search_active.clone().unwrap().token;
    app.update(Message::NewTab);
    app.update(Message::SelectTab(0));
    app.update(Message::SearchBatch {
        token,
        hits: vec![SearchHit {
            path: win(r"C:\d\x"),
            matches: None,
            is_dir: false,
        }],
    });
    assert!(app.tab.rows.is_empty());
    assert!(matches!(app.tab.content, Content::Search { done: true, .. }));
    app.update(Message::SearchFailed {
        token,
        error: "late".to_string(),
    });
    assert_ne!(app.tab.status, "late");
}

#[test]
fn icons_and_thumbnails_are_asked_for_as_rows_spell_them() {
    let (mut app, first) = opened(path(r"C:\d"), ViewMode::Large);
    let acts = app.update(Message::Loaded(
        token(&first),
        Ok(vec![entry(r"C:/d\\.", "a.png", 1), entry(r"C:\d", "b.png", 1)]),
    ));
    let spelled: Vec<String> = app
        .tab
        .rows
        .iter()
        .filter_map(|r| match &r.target {
            Location::Path(p) => Some(p.text.clone()),
            _ => None,
        })
        .collect();
    let mut asked = 0;
    for act in &acts {
        if let Action::SweepThumbs { keys, .. } = act {
            for key in keys {
                assert!(spelled.contains(&key.path.text));
                asked += 1;
            }
        }
    }
    assert_eq!(asked, 2);
}
