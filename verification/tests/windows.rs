use librarian::drives::{drive_info, drive_letters, drive_root, list_drives, DriveKind, RawVolume};
use librarian::icons::{icon_flags, icon_query, IconKey};
use librarian::known::{known_folders, user_home};
use librarian::model::Location;
use librarian::open::open_path;
use librarian::path::WinPath;
use librarian::pixels::{apply_mask_alpha, convert_color_bitmap, hbitmap_to_rgba, no_alpha, straighten};
use librarian::sidebar::{distro_children, drive_children};
use librarian::wide::{to_wide, wide_to_string};
use librarian::wsl::{distro_unc_path, list_wsl_distros, read_distribution_name};

#[test]
fn to_wide_encodes_and_nul_terminates() {
    assert_eq!(to_wide("Hi"), vec![0x48, 0x69, 0x00]);
    assert_eq!(to_wide(""), vec![0x00]);
}

#[test]
fn wide_to_string_stops_at_first_nul() {
    assert_eq!(wide_to_string(&[0x48, 0x69, 0x00, 0x58]), "Hi");
    assert_eq!(wide_to_string(&[0x48, 0x69]), "Hi");
    assert_eq!(wide_to_string(&[0x00, 0x69]), "");
}

#[test]
fn round_trips_through_utf16_including_non_ascii() {
    for s in ["", "C:\\Windows", "Ubuntu", "café — résumé", "日本語"] {
        assert_eq!(wide_to_string(&to_wide(s)), s);
    }
}

#[test]
fn utf16_agrees_with_the_standard_library() {
    for s in ["a😀b", "𝄞", "\u{10FFFF}\u{E000}"] {
        let mut expected: Vec<u16> = s.encode_utf16().collect();
        expected.push(0);
        assert_eq!(to_wide(s), expected);
        assert_eq!(wide_to_string(&to_wide(s)), s);
    }
    for bad in [vec![0xD800u16, 0x41], vec![0xDC00, 0x41], vec![0xD800, 0xD800, 0xDC00], vec![0xD83D]] {
        assert_eq!(wide_to_string(&bad), String::from_utf16_lossy(&bad));
    }
}

#[test]
fn distro_unc_path_is_the_localhost_share() {
    assert_eq!(distro_unc_path("Ubuntu"), WinPath::new(r"\\wsl.localhost\Ubuntu"));
}

#[test]
fn list_is_well_formed() {
    let values = vec![
        Some(to_wide("Ubuntu")),
        None,
        Some(to_wide("")),
        Some(to_wide("alpine")),
        Some(to_wide("Debian")),
    ];
    let distros = list_wsl_distros(&values);
    assert!(distros.iter().all(|d| !d.name.is_empty()));
    let mut sorted = distros.clone();
    sorted.sort_by(|a, b| a.name.to_lowercase().cmp(&b.name.to_lowercase()));
    let names: Vec<&str> = distros.iter().map(|d| d.name.as_str()).collect();
    let sorted_names: Vec<&str> = sorted.iter().map(|d| d.name.as_str()).collect();
    assert_eq!(names, sorted_names);
    assert_eq!(names, ["alpine", "Debian", "Ubuntu"]);
}

#[test]
fn distribution_names_come_from_registry_values() {
    assert_eq!(read_distribution_name(&Some(to_wide("kali"))), Some("kali".to_string()));
    assert_eq!(read_distribution_name(&Some(to_wide(""))), None);
    assert_eq!(read_distribution_name(&None), None);
}

#[test]
fn a_distro_root_leads_up_to_the_group() {
    let root = Location::Path(distro_unc_path("Ubuntu"));
    assert_eq!(root.parent(), Some(Location::Wsl));
}

#[test]
fn drive_letters_follow_the_mask() {
    assert_eq!(drive_letters(0b1101), vec!['A', 'C', 'D']);
    assert_eq!(drive_letters(1 << 25), vec!['Z']);
    assert!(drive_letters(1 << 26).is_empty());
    assert_eq!(drive_root('C').text, r"C:\");
}

#[test]
fn drive_kinds_follow_the_system() {
    assert_eq!(DriveKind::from_raw(2), DriveKind::Removable);
    assert_eq!(DriveKind::from_raw(3), DriveKind::Fixed);
    assert_eq!(DriveKind::from_raw(4), DriveKind::Network);
    assert_eq!(DriveKind::from_raw(5), DriveKind::CdRom);
    assert_eq!(DriveKind::from_raw(6), DriveKind::RamDisk);
    assert_eq!(DriveKind::from_raw(0), DriveKind::Unknown);
}

#[test]
fn volumes_are_described() {
    let volume = RawVolume {
        kind: 3,
        label: Some(to_wide("System")),
        total_bytes: 10,
        free_bytes: 4,
    };
    let d = drive_info('C', &volume);
    assert_eq!(d.label, "System");
    assert_eq!(d.kind, DriveKind::Fixed);
    assert_eq!((d.total_bytes, d.free_bytes), (10, 4));
    let all = list_drives(0b100, &vec![volume]);
    assert_eq!(all.len(), 1);
    assert_eq!(all[0].root.text, r"C:\");
    let bare = drive_info(
        'D',
        &RawVolume {
            kind: 5,
            label: None,
            total_bytes: 0,
            free_bytes: 0,
        },
    );
    assert_eq!(bare.label, "");
}

#[test]
fn known_folders_that_do_not_resolve_are_left_out() {
    let desktop = WinPath::new(r"C:\Users\me\Desktop");
    let music = WinPath::new(r"C:\Users\me\Music");
    let paths = vec![
        Some(desktop.clone()),
        None,
        Some(WinPath::new("")),
        None,
        Some(music.clone()),
        None,
    ];
    let folders = known_folders(&paths);
    assert_eq!(folders.len(), 2);
    assert_eq!(folders[0].name, "Desktop");
    assert_eq!(folders[1].name, "Music");
    assert_eq!(folders[1].path, music);
    assert_eq!(user_home(&Some(desktop.clone())), Some(desktop));
    assert_eq!(user_home(&Some(WinPath::new(""))), None);
}

#[test]
fn thumbnails_are_swapped_to_rgba_and_straightened() {
    let image = hbitmap_to_rgba(1, 1, Some(vec![10, 20, 30, 255])).unwrap();
    assert_eq!((image.width, image.height), (1, 1));
    assert_eq!(image.rgba, vec![30, 20, 10, 255]);
    let half = hbitmap_to_rgba(1, 1, Some(vec![64, 64, 64, 128])).unwrap();
    assert_eq!(half.rgba, vec![128, 128, 128, 128]);
    let opaque = hbitmap_to_rgba(1, 1, Some(vec![1, 2, 3, 0])).unwrap();
    assert_eq!(opaque.rgba, vec![3, 2, 1, 255]);
    assert!(hbitmap_to_rgba(0, 1, Some(vec![])).is_none());
    assert!(hbitmap_to_rgba(1, 1, None).is_none());
}

#[test]
fn straight_colours_are_never_darker() {
    assert_eq!(straighten(100, 255), 100);
    assert_eq!(straighten(100, 0), 100);
    assert_eq!(straighten(100, 200), 128);
    assert_eq!(straighten(250, 10), 255);
}

#[test]
fn icons_without_alpha_take_it_from_the_mask() {
    assert!(no_alpha(&vec![1, 2, 3, 0, 4, 5, 6, 0]));
    assert!(!no_alpha(&vec![1, 2, 3, 0, 4, 5, 6, 9]));
    let mut bgra = vec![1, 2, 3, 0, 4, 5, 6, 0];
    let mask = Some(vec![0, 0, 0, 0, 255, 255, 255, 0]);
    apply_mask_alpha(&mut bgra, &mask);
    assert_eq!(bgra, vec![1, 2, 3, 255, 4, 5, 6, 0]);
    let icon = convert_color_bitmap(2, 1, Some(vec![1, 2, 3, 0, 4, 5, 6, 0]), &mask).unwrap();
    assert_eq!(icon.rgba, vec![3, 2, 1, 255, 6, 5, 4, 0]);
    let plain = convert_color_bitmap(1, 1, Some(vec![1, 2, 3, 7]), &None).unwrap();
    assert_eq!(plain.rgba, vec![3, 2, 1, 7]);
    assert!(convert_color_bitmap(1, 1, None, &None).is_none());
}

#[test]
fn icons_are_asked_for_by_type_or_by_path() {
    assert_eq!(icon_flags(false, false), 0x101);
    assert_eq!(icon_flags(false, true), 0x111);
    assert_eq!(icon_flags(true, false), 0x100);
    assert_eq!(icon_flags(true, true), 0x110);

    let folder = icon_query(&IconKey::Folder, false).unwrap();
    assert_eq!((folder.name.as_str(), folder.attributes, folder.flags), ("folder", 0x10, 0x111));
    let text = icon_query(&IconKey::Ext("txt".to_string()), true).unwrap();
    assert_eq!((text.name.as_str(), text.attributes, text.flags), ("file.txt", 0x80, 0x110));
    let app = icon_query(&IconKey::Path(WinPath::new(r"C:\a.exe")), false).unwrap();
    assert_eq!((app.name.as_str(), app.attributes, app.flags), (r"C:\a.exe", 0x80, 0x101));
    assert!(icon_query(&IconKey::Computer, false).is_none());
    assert!(icon_query(&IconKey::Wsl, false).is_none());
}

#[test]
fn opening_a_file_worked_if_the_answer_is_above_thirty_two() {
    assert!(open_path(33));
    assert!(open_path(isize::MAX));
    assert!(!open_path(32));
    assert!(!open_path(2));
    assert!(!open_path(-1));
}

#[test]
fn drives_and_distributions_become_nodes_of_the_tree() {
    let volumes = vec![
        RawVolume { kind: 3, label: Some(to_wide("System")), total_bytes: 10, free_bytes: 4 },
        RawVolume { kind: 2, label: None, total_bytes: 0, free_bytes: 0 },
    ];
    let nodes = drive_children(&list_drives(0b10_0100, &volumes));
    assert_eq!(nodes.len(), 2);
    assert_eq!(nodes[0].label, "System (C:)");
    assert!(nodes[0].location == Location::Path(WinPath::new(r"C:\")));
    assert!(nodes[1].location == Location::Path(WinPath::new(r"F:\")));
    assert!(nodes[0].children.is_none() && !nodes[0].expanded);

    let distros = list_wsl_distros(&vec![Some(to_wide("Ubuntu")), None, Some(to_wide("Debian"))]);
    let nodes = distro_children(&distros);
    assert_eq!(nodes.len(), 2);
    assert_eq!((nodes[0].label.as_str(), nodes[1].label.as_str()), ("Debian", "Ubuntu"));
    assert!(nodes[1].icon == IconKey::Wsl);
    assert!(nodes[1].location == Location::Path(WinPath::new(r"\\wsl.localhost\Ubuntu")));
}
