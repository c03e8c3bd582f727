//! The display rows of the file list: a uniform view over directory entries, drives,
//! known folders, distributions and search results, and human-friendly sizes.

use crate::drives::{DriveInfo, DriveKind};
use crate::icons::{IconKey, IconName};
use crate::known::KnownFolder;
use crate::model::{extension_of, path_extension, Entry, EntryKind, Location, Place};
use crate::path::{comps, rest_text, under, WinPath};
use crate::search::SearchHit;
use crate::text::{decimal, decimal_string, to_chars};
use crate::unicode::{upper, uppercase};
use crate::wsl::{distro_root, distro_unc_path, WslDistro};
use vstd::prelude::*;

verus! {

/// One row in the file list, independent of where it came from.
#[derive(Debug)]
pub struct Row {
    pub label: String,
    pub icon: IconKey,
    /// True if activating navigates into it; false if activating opens it.
    pub is_container: bool,
    /// Where activating leads, or what it opens.
    pub target: Location,
    pub size: Option<u64>,
    pub modified: Option<i64>,
    pub type_label: String,
    /// Rendered width of the label, as the bits of a 32-bit float; zero until measured.
    pub name_px: u32,
}

/// A row as plain values.
pub ghost struct RowData {
    pub label: Seq<char>,
    pub icon: IconName,
    pub is_container: bool,
    pub target: Place,
    pub size: Option<u64>,
    pub modified: Option<i64>,
    pub type_label: Seq<char>,
    pub name_px: u32,
}

impl View for Row {
    type V = RowData;

    open spec fn view(&self) -> RowData {
        RowData {
            label: self.label@,
            icon: self.icon@,
            is_container: self.is_container,
            target: self.target@,
            size: self.size,
            modified: self.modified,
            type_label: self.type_label@,
            name_px: self.name_px,
        }
    }
}

/// The views of a list of rows.
pub open spec fn row_data(v: Seq<Row>) -> Seq<RowData> {
    v.map_values(|r: Row| r@)
}

impl Clone for Row {
    fn clone(&self) -> (r: Row)
        ensures
            r == *self,
    {
        Row {
            label: self.label.clone(),
            icon: self.icon.clone(),
            is_container: self.is_container,
            target: self.target.clone(),
            size: self.size,
            modified: self.modified,
            type_label: self.type_label.clone(),
            name_px: self.name_px,
        }
    }
}

/// A row for something that has neither size nor time.
pub open spec fn plain_row(
    label: Seq<char>,
    icon: IconName,
    is_container: bool,
    target: Seq<char>,
    type_label: Seq<char>,
) -> RowData {
    RowData {
        label,
        icon,
        is_container,
        target: Place::Path(target),
        size: None,
        modified: None,
        type_label,
        name_px: 0,
    }
}

/// What the Type column says of a file with the given extension.
pub open spec fn ext_type(ext: Seq<char>) -> Seq<char> {
    if ext.len() == 0 {
        "File"@
    } else {
        uppercase(ext) + " File"@
    }
}

/// What the Type column says of an entry.
pub open spec fn entry_type(e: Entry) -> Seq<char> {
    if e.kind == EntryKind::Directory {
        "File folder"@
    } else {
        ext_type(e.ext())
    }
}

/// The row of an entry.
pub open spec fn entry_row(e: Entry) -> RowData {
    let dir = e.kind == EntryKind::Directory;
    RowData {
        label: e.name@,
        icon: if dir {
            IconName::Folder
        } else {
            IconName::Ext(e.ext())
        },
        is_container: dir,
        target: Place::Path(e.path@),
        size: if dir {
            None
        } else {
            Some(e.size)
        },
        modified: e.modified,
        type_label: entry_type(e),
        name_px: 0,
    }
}

/// What a kind of drive is called.
pub open spec fn kind_name(kind: DriveKind) -> Seq<char> {
    match kind {
        DriveKind::Fixed => "Local Disk"@,
        DriveKind::Removable => "Removable Disk"@,
        DriveKind::Network => "Network Drive"@,
        DriveKind::CdRom => "CD Drive"@,
        DriveKind::RamDisk => "RAM Disk"@,
        DriveKind::Unknown => "Disk"@,
    }
}

/// The row of a drive.
pub open spec fn drive_row(d: DriveInfo) -> RowData {
    let name = if d.label@.len() == 0 {
        kind_name(d.kind)
    } else {
        d.label@
    };
    plain_row(
        name + seq![' ', '(', d.letter, ':', ')'],
        IconName::Path(d.root@),
        true,
        d.root@,
        kind_name(d.kind),
    )
}

/// The row of a known folder.
pub open spec fn known_row(f: KnownFolder) -> RowData {
    plain_row(f.name@, IconName::Path(f.path@), true, f.path@, "File folder"@)
}

/// The row of a distribution.
pub open spec fn distro_row(d: WslDistro) -> RowData {
    plain_row(d.name@, IconName::Wsl, true, distro_root(d.name@), "Linux distribution"@)
}

/// What a search result is called: its path relative to the search root.
pub open spec fn hit_label(path: Seq<char>, root: Seq<char>) -> Seq<char> {
    if under(path, root) {
        rest_text(path, comps(root).len() as int)
    } else {
        path
    }
}

/// How many matches a file has, in words.
pub open spec fn match_count(n: u64) -> Seq<char> {
    decimal(n as nat) + if n == 1 {
        " match"@
    } else {
        " matches"@
    }
}

/// The row of a search result.
pub open spec fn hit_row(h: SearchHit, root: Seq<char>) -> RowData {
    let label = hit_label(h.path@, root);
    if h.is_dir {
        plain_row(label, IconName::Folder, true, h.path@, "File folder"@)
    } else {
        let ext = path_extension(h.path@);
        plain_row(
            label,
            IconName::Ext(ext),
            false,
            h.path@,
            match h.matches {
                Some(n) => match_count(n),
                None => ext_type(ext),
            },
        )
    }
}

/// Human "type" for a file with the given lowercase extension.
pub fn ext_type_label(ext: &str) -> (r: String)
    ensures
        r@ == ext_type(ext@),
        crate::unicode::all_ascii(ext@) && ext@.len() > 0 ==> r@ == ext@.map_values(
            |c: char| crate::unicode::ascii_upper(c),
        ) + " File"@,
{
    if to_chars(ext).len() == 0 {
        "File".to_string()
    } else {
        let mut s = upper(ext);
        s.append(" File");
        s
    }
}

/// What the Type column says of an entry.
pub fn type_label(entry: &Entry) -> (r: String)
    ensures
        r@ == entry_type(*entry),
{
    if entry.is_dir() {
        return "File folder".to_string();
    }
    ext_type_label(&entry.extension())
}

/// What a kind of drive is called.
pub fn drive_kind_name(kind: DriveKind) -> (r: &'static str)
    ensures
        r@ == kind_name(kind),
{
    match kind {
        DriveKind::Fixed => "Local Disk",
        DriveKind::Removable => "Removable Disk",
        DriveKind::Network => "Network Drive",
        DriveKind::CdRom => "CD Drive",
        DriveKind::RamDisk => "RAM Disk",
        DriveKind::Unknown => "Disk",
    }
}

/// A row for a directory entry.
pub fn row_from_entry(entry: &Entry) -> (r: Row)
    ensures
        r@ == entry_row(*entry),
{
    let is_dir: bool = entry.is_dir();
    Row {
        label: entry.name.clone(),
        icon: if is_dir {
            IconKey::Folder
        } else {
            IconKey::Ext(entry.extension())
        },
        is_container: is_dir,
        target: Location::Path(entry.path.clone()),
        size: if is_dir {
            None
        } else {
            Some(entry.size)
        },
        modified: entry.modified,
        type_label: type_label(entry),
        name_px: 0,
    }
}

/// A row for a drive; a drive without a label shows its kind.
pub fn row_from_drive(drive: &DriveInfo) -> (r: Row)
    ensures
        r@ == drive_row(*drive),
{
    let kind = drive_kind_name(drive.kind);
    let mut label = if to_chars(&drive.label).len() == 0 {
        kind.to_string()
    } else {
        drive.label.clone()
    };
    let ghost name = label@;
    label.push(' ');
    label.push('(');
    label.push(drive.letter);
    label.push(':');
    label.push(')');
    assert(label@ =~= name + seq![' ', '(', drive.letter, ':', ')']);
    Row {
        label,
        icon: IconKey::Path(drive.root.clone()),
        is_container: true,
        target: Location::Path(drive.root.clone()),
        size: None,
        modified: None,
        type_label: kind.to_string(),
        name_px: 0,
    }
}

/// A row for a known folder, with the folder's own shell icon.
pub fn row_from_known(folder: &KnownFolder) -> (r: Row)
    ensures
        r@ == known_row(*folder),
{
    Row {
        label: folder.name.clone(),
        icon: IconKey::Path(folder.path.clone()),
        is_container: true,
        target: Location::Path(folder.path.clone()),
        size: None,
        modified: None,
        type_label: "File folder".to_string(),
        name_px: 0,
    }
}

/// A row for one distribution in the "Linux" list.
pub fn row_from_distro(distro: &WslDistro) -> (r: Row)
    ensures
        r@ == distro_row(*distro),
{
    Row {
        label: distro.name.clone(),
        icon: IconKey::Wsl,
        is_container: true,
        target: Location::Path(distro_unc_path(&distro.name)),
        size: None,
        modified: None,
        type_label: "Linux distribution".to_string(),
        name_px: 0,
    }
}

/// A row for one search result. The label is the path relative to the search root. A
/// directory navigates when activated; a file opens.
pub fn row_from_hit(hit: &SearchHit, root: &WinPath) -> (r: Row)
    ensures
        r@ == hit_row(*hit, root@),
{
    let label = match hit.path.strip_prefix(root) {
        Some(rest) => rest.text,
        None => hit.path.text.clone(),
    };
    if hit.is_dir {
        return Row {
            label,
            icon: IconKey::Folder,
            is_container: true,
            target: Location::Path(hit.path.clone()),
            size: None,
            modified: None,
            type_label: "File folder".to_string(),
            name_px: 0,
        };
    }
    let ext = extension_of(&hit.path);
    let type_label = match hit.matches {
        Some(n) => {
            let mut s = decimal_string(n);
            if n == 1 {
                s.append(" match");
            } else {
                s.append(" matches");
            }
            s
        },
        None => ext_type_label(&ext),
    };
    Row {
        label,
        icon: IconKey::Ext(ext),
        is_container: false,
        target: Location::Path(hit.path.clone()),
        size: None,
        modified: None,
        type_label,
        name_px: 0,
    }
}

// ---------------------------------------------------------------- sizes

/// `a / d` rounded to the nearest whole number, ties to the even one.
pub open spec fn nearest(a: int, d: int) -> int {
    let q = a / d;
    let r = a % d;
    if 2 * r > d || (2 * r == d && q % 2 == 1) {
        q + 1
    } else {
        q
    }
}

/// Two to the power `k`.
pub open spec fn two_to(k: nat) -> int
    decreases k,
{
    if k == 0 {
        1
    } else {
        2 * two_to((k - 1) as nat)
    }
}

/// How many low bits of `n` do not fit into 53 bits, counting up from `k`.
pub open spec fn excess_bits(n: int, k: nat) -> nat
    decreases 64 - k,
{
    if k >= 64 || n < 9007199254740992 * two_to(k) {
        k
    } else {
        excess_bits(n, k + 1)
    }
}

/// `n` rounded to 53 significant bits, ties to even.
pub open spec fn rounded(n: int) -> int {
    let d = two_to(excess_bits(n, 0));
    nearest(n, d) * d
}

/// The unit in which a size is shown: its name and how many bytes it is.
pub open spec fn size_unit(b: int) -> (Seq<char>, int) {
    if b < 1048576 {
        ("KB"@, 1024)
    } else if b < 1073741824 {
        ("MB"@, 1048576)
    } else if b < 1099511627776 {
        ("GB"@, 1073741824)
    } else {
        ("TB"@, 1099511627776)
    }
}

/// A byte count as the Size column shows it: whole bytes below a kilobyte, otherwise one
/// decimal in the largest fitting unit.
pub open spec fn size_text(bytes: u64) -> Seq<char> {
    if bytes < 1024 {
        decimal(bytes as nat) + " B"@
    } else {
        let b = rounded(bytes as int);
        let (name, unit) = size_unit(b);
        let tenths = nearest(10 * b, unit);
        decimal((tenths / 10) as nat) + seq!['.'] + decimal((tenths % 10) as nat) + seq![' ']
            + name
    }
}

/// `a / d` rounded to the nearest whole number, ties to the even one.
fn round_div(a: u128, d: u128) -> (r: u128)
    requires
        0 < d <= 0xffff_ffff_ffff_ffff,
        a <= 0xffff_ffff_ffff_ffff_ffff_ffff,
    ensures
        r == nearest(a as int, d as int),
{
    let q: u128 = a / d;
    let r: u128 = a % d;
    assert(r < d && q <= a) by (nonlinear_arith)
        requires
            d > 0,
            q == a / d,
            r == a % d,
            a >= 0,
    ;
    if 2 * r > d || (2 * r == d && q % 2 == 1) {
        q + 1
    } else {
        q
    }
}

/// `n` rounded to 53 significant bits.
fn round_bits(n: u64) -> (r: u128)
    ensures
        r == rounded(n as int),
        r <= 0x1_0000_0000_0000_0000,
        n >= 1024 ==> r >= 1024,
{
    let mut k: u32 = 0;
    let mut d: u128 = 1;
    let ghost m = n as int;
    while d < 2048 && n as u128 >= 9007199254740992 * d
        invariant
            m == n,
            k <= 11,
            1 <= d <= 2048,
            d == two_to(k as nat),
            d == 2048 ==> k == 11,
            d < 2048 ==> k < 11,
            excess_bits(m, 0) == excess_bits(m, k as nat),
            k > 0 ==> 2 * m >= 9007199254740992 * d,
        decreases 2048 - d,
    {
        proof {
            assert(excess_bits(m, k as nat) == excess_bits(m, (k + 1) as nat));
            reveal_with_fuel(two_to, 13);
        }
        d = d * 2;
        k = k + 1;
    }
    assert(m < 9007199254740992 * d) by {
        if d == 2048 {
            assert(9007199254740992 * 2048 == 0x1_0000_0000_0000_0000);
        }
    }
    assert(excess_bits(m, 0) == k);
    let q: u128 = round_div(n as u128, d);
    assert(q <= 9007199254740992) by (nonlinear_arith)
        requires
            m == n as int,
            m < 9007199254740992 * d,
            d >= 1,
            q == nearest(m, d as int),
    ;
    assert(q * d <= 0x1_0000_0000_0000_0000) by (nonlinear_arith)
        requires
            q <= 9007199254740992,
            d <= 2048,
            q >= 0,
            d >= 0,
    ;
    proof {
        if k == 0 {
            assert(nearest(m, 1) == m);
        } else {
            assert(q * d >= 1024) by (nonlinear_arith)
                requires
                    2 * m >= 9007199254740992 * d,
                    d >= 1,
                    q == nearest(m, d as int),
            ;
        }
    }
    q * d
}

/// Format a byte count like a file manager's Size column, e.g. `1.4 MB`.
pub fn human_size(bytes: u64) -> (r: String)
    ensures
        r@ == size_text(bytes),
{
    if bytes < 1024 {
        let mut s = decimal_string(bytes);
        s.append(" B");
        return s;
    }
    let b: u128 = round_bits(bytes);
    let (name, tenths): (&str, u128) = if b < 1048576 {
        ("KB", round_div(10 * b, 1024))
    } else if b < 1073741824 {
        ("MB", round_div(10 * b, 1048576))
    } else if b < 1099511627776 {
        ("GB", round_div(10 * b, 1073741824))
    } else {
        ("TB", round_div(10 * b, 1099511627776))
    };
    assert(tenths <= 200000000);
    let mut s = decimal_string((tenths / 10) as u64);
    s.push('.');
    s.append(&decimal_string((tenths % 10) as u64));
    s.push(' ');
    s.append(name);
    assert(s@ =~= size_text(bytes));
    s
}

/// A file's row opens it and a directory's row navigates; only a file's row has a size.
pub proof fn law_only_files_have_a_size(e: Entry)
    ensures
        entry_row(e).is_container == (e.kind == EntryKind::Directory),
        entry_row(e).size is Some <==> !entry_row(e).is_container,
{
}

/// The row of an entry stands for that entry: it is called by its name, leads to its path, and
/// has its time. A folder's row has the icon of folders; a file's row that of its type, and its
/// size.
pub proof fn law_row_stands_for_its_entry(e: Entry)
    ensures
        entry_row(e).label == e.name@,
        entry_row(e).target == Place::Path(e.path@),
        entry_row(e).modified == e.modified,
        e.kind == EntryKind::Directory ==> {
            &&& entry_row(e).is_container
            &&& entry_row(e).icon == IconName::Folder
            &&& entry_row(e).size is None
            &&& entry_row(e).type_label == "File folder"@
        },
        e.kind != EntryKind::Directory ==> {
            &&& !entry_row(e).is_container
            &&& entry_row(e).icon == IconName::Ext(e.ext())
            &&& entry_row(e).size == Some(e.size)
            &&& e.ext().len() == 0 ==> entry_row(e).type_label == "File"@
            &&& e.ext().len() > 0 ==> entry_row(e).type_label == uppercase(e.ext()) + " File"@
        },
{
}

/// The rows of drives, standard folders and distributions can be gone into: each leads to its
/// own root or path, and has no size and no time. A drive is called by its label, or by its
/// kind where it has none, and by its letter.
pub proof fn law_landing_rows_lead_to_their_places(d: DriveInfo, f: KnownFolder, w: WslDistro)
    ensures
        drive_row(d).is_container && drive_row(d).target == Place::Path(d.root@),
        drive_row(d).icon == IconName::Path(d.root@),
        d.label@.len() > 0 ==> drive_row(d).label == d.label@ + seq![' ', '(', d.letter, ':', ')'],
        d.label@.len() == 0 ==> drive_row(d).label == drive_row(d).type_label + seq![
            ' ',
            '(',
            d.letter,
            ':',
            ')',
        ],
        known_row(f).is_container && known_row(f).target == Place::Path(f.path@),
        known_row(f).label == f.name@ && known_row(f).icon == IconName::Path(f.path@),
        distro_row(w).is_container && distro_row(w).label == w.name@,
        distro_row(w).target == Place::Path("\\\\wsl.localhost\\"@ + w.name@),
        distro_row(w).icon == IconName::Wsl,
        drive_row(d).size is None && known_row(f).size is None && distro_row(w).size is None,
        drive_row(d).modified is None && known_row(f).modified is None,
        distro_row(w).modified is None,
{
}

/// The row of a search result leads to the path that was found, a folder to be gone into and a
/// file to be opened. A result outside the searched folder is called by its whole path.
pub proof fn law_result_row_leads_to_what_was_found(h: SearchHit, root: Seq<char>)
    ensures
        hit_row(h, root).target == Place::Path(h.path@),
        hit_row(h, root).is_container == h.is_dir,
        h.is_dir ==> hit_row(h, root).icon == IconName::Folder,
        !h.is_dir ==> hit_row(h, root).icon == IconName::Ext(path_extension(h.path@)),
        !h.is_dir && h.matches is Some ==> hit_row(h, root).type_label == decimal(
            h.matches->0 as nat,
        ) + (if h.matches->0 == 1 {
            " match"@
        } else {
            " matches"@
        }),
        !under(h.path@, root) ==> hit_row(h, root).label == h.path@,
{
}

/// A result directly in the searched folder is called by its own name.
pub proof fn law_result_in_the_folder_is_called_by_its_name(
    h: SearchHit,
    root: Seq<char>,
    name: Seq<char>,
)
    requires
        crate::path::is_rooted(root),
        crate::path::plain_name(name),
        h.path@ == crate::path::join_text(root, name),
    ensures
        hit_row(h, root).label == name,
{
    crate::path::law_joined_name_is_the_last_component(root, name);
    crate::path::lemma_joined(root, name);
}

/// Sizes below a kilobyte are shown in bytes; others in the largest unit of which they hold at
/// least one, rounded to the nearest tenth of it. Of sizes from nine petabytes on, which are
/// rounded twice, nothing is said here.
pub proof fn law_size_is_rounded_to_tenths(bytes: u64) -> (r: (nat, nat, int))
    requires
        bytes < 9007199254740992,
    ensures
        ({
            let (whole, tenth, unit) = r;
            let name = if unit == 1024 {
                "KB"@
            } else if unit == 1048576 {
                "MB"@
            } else if unit == 1073741824 {
                "GB"@
            } else {
                "TB"@
            };
            if bytes < 1024 {
                size_text(bytes) == decimal(bytes as nat) + " B"@
            } else {
                &&& unit == 1024 || unit == 1048576 || unit == 1073741824 || unit == 1099511627776
                &&& unit <= bytes
                &&& unit == 1099511627776 || bytes < 1024 * unit
                &&& tenth < 10
                &&& 2 * ((10 * whole + tenth) * unit) <= 20 * bytes + unit
                &&& 20 * bytes <= 2 * ((10 * whole + tenth) * unit) + unit
                &&& size_text(bytes) == decimal(whole) + seq!['.'] + decimal(tenth) + seq![' ']
                    + name
            }
        }),
{
    let b = bytes as int;
    reveal_with_fuel(excess_bits, 2);
    reveal_with_fuel(two_to, 2);
    assert(two_to(0) == 1);
    assert(excess_bits(b, 0) == 0);
    assert(nearest(b, 1) == b);
    assert(rounded(b) == b) by (nonlinear_arith)
        requires
            rounded(b) == nearest(b, 1) * 1,
            nearest(b, 1) == b,
    ;
    let unit = size_unit(b).1;
    let tenths = nearest(10 * b, unit);
    assert(2 * (tenths * unit) <= 20 * b + unit && 20 * b <= 2 * (tenths * unit) + unit) by (
    nonlinear_arith)
        requires
            unit > 0,
            b >= 0,
            tenths == nearest(10 * b, unit),
    ;
    let q = tenths / 10;
    assert(tenths >= 0) by (nonlinear_arith)
        requires
            unit > 0,
            b >= 0,
            tenths == nearest(10 * b, unit),
    ;
    assert(10 * q + tenths % 10 == tenths);
    (q as nat, (tenths % 10) as nat, unit)
}

/// A result in a subfolder is called by its path from the searched folder on.
pub proof fn law_result_below_is_called_by_its_way(
    h: SearchHit,
    root: Seq<char>,
    folder: Seq<char>,
    name: Seq<char>,
)
    requires
        crate::path::is_rooted(root),
        crate::path::plain_name(folder),
        crate::path::plain_name(name),
        h.path@ == crate::path::join_text(crate::path::join_text(root, folder), name),
    ensures
        hit_row(h, root).label == folder + seq!['\\'] + name,
{
    crate::path::lemma_joined_twice(root, folder, name);
}

} // verus!
