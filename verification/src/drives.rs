//! Logical drives for the "This PC" root.

use crate::path::WinPath;
use crate::wide::{decoded, until_nul, wide_to_string};
use vstd::prelude::*;

verus! {

/// What sort of drive it is.
#[derive(Debug, Clone, Copy, PartialEq, Eq, Structural)]
pub enum DriveKind {
    Removable,
    Fixed,
    Network,
    CdRom,
    RamDisk,
    Unknown,
}

impl DriveKind {
    /// The kind that the number of a drive type stands for.
    pub fn from_raw(raw: u32) -> (r: DriveKind)
        ensures
            r == (if raw == 2 {
                DriveKind::Removable
            } else if raw == 3 {
                DriveKind::Fixed
            } else if raw == 4 {
                DriveKind::Network
            } else if raw == 5 {
                DriveKind::CdRom
            } else if raw == 6 {
                DriveKind::RamDisk
            } else {
                DriveKind::Unknown
            }),
    {
        match raw {
            2 => DriveKind::Removable,
            3 => DriveKind::Fixed,
            4 => DriveKind::Network,
            5 => DriveKind::CdRom,
            6 => DriveKind::RamDisk,
            _ => DriveKind::Unknown,
        }
    }
}

/// A mounted drive.
#[derive(Debug)]
pub struct DriveInfo {
    /// Drive letter, e.g. `'C'`.
    pub letter: char,
    /// Root path, e.g. `C:\`.
    pub root: WinPath,
    /// Volume label, or empty if unavailable.
    pub label: String,
    pub kind: DriveKind,
    pub total_bytes: u64,
    pub free_bytes: u64,
}

impl Clone for DriveInfo {
    fn clone(&self) -> (r: DriveInfo)
        ensures
            r == *self,
    {
        DriveInfo {
            letter: self.letter,
            root: self.root.clone(),
            label: self.label.clone(),
            kind: self.kind,
            total_bytes: self.total_bytes,
            free_bytes: self.free_bytes,
        }
    }
}

/// What the system reports of a volume. An empty card reader has no label.
#[derive(Debug)]
pub struct RawVolume {
    /// The number of the drive type.
    pub kind: u32,
    /// The label as a NUL-terminated buffer, if there is one.
    pub label: Option<Vec<u16>>,
    pub total_bytes: u64,
    pub free_bytes: u64,
}

/// The letter of drive `i`, counted from `A`.
pub open spec fn letter_of(i: int) -> char {
    (65 + i) as char
}

/// The letters of the drives below `n` whose bits are set in `mask`.
pub open spec fn letters_below(mask: u32, n: int) -> Seq<char>
    decreases n,
{
    if n <= 0 {
        seq![]
    } else {
        let before = letters_below(mask, n - 1);
        if mask & (1u32 << ((n - 1) as u32)) != 0 {
            before.push(letter_of(n - 1))
        } else {
            before
        }
    }
}

/// The letters of the mounted drives.
pub fn drive_letters(mask: u32) -> (r: Vec<char>)
    ensures
        r@ == letters_below(mask, 26),
{
    let mut out: Vec<char> = Vec::new();
    let mut i: u32 = 0;
    while i < 26
        invariant
            i <= 26,
            out@ == letters_below(mask, i as int),
        decreases 26 - i,
    {
        if mask & (1u32 << i) != 0 {
            out.push((65 + i as u8) as char);
        }
        i += 1;
    }
    out
}

/// The root path of a drive as a text, e.g. `C:\`.
pub open spec fn root_of(letter: char) -> Seq<char> {
    seq![letter, ':', '\\']
}

/// The root path of a drive.
pub fn drive_root(letter: char) -> (r: WinPath)
    ensures
        r@ == root_of(letter),
{
    let mut s = String::new();
    s.push(letter);
    s.push(':');
    s.push('\\');
    assert(s@ =~= root_of(letter));
    WinPath { text: s }
}

/// Whether `d` describes the volume behind a letter.
pub open spec fn describes(d: DriveInfo, letter: char, v: RawVolume) -> bool {
    &&& d.letter == letter
    &&& d.root@ == root_of(letter)
    &&& d.label@ == (match v.label {
        Some(b) => decoded(until_nul(b@)),
        None => seq![],
    })
    &&& d.kind == (match v.kind {
        2u32 => DriveKind::Removable,
        3u32 => DriveKind::Fixed,
        4u32 => DriveKind::Network,
        5u32 => DriveKind::CdRom,
        6u32 => DriveKind::RamDisk,
        _ => DriveKind::Unknown,
    })
    &&& d.total_bytes == v.total_bytes
    &&& d.free_bytes == v.free_bytes
}

/// Describe the volume behind a letter.
pub fn drive_info(letter: char, volume: &RawVolume) -> (r: DriveInfo)
    ensures
        describes(r, letter, *volume),
{
    let label = match &volume.label {
        Some(b) => wide_to_string(b.as_slice()),
        None => String::new(),
    };
    DriveInfo {
        letter,
        root: drive_root(letter),
        label,
        kind: DriveKind::from_raw(volume.kind),
        total_bytes: volume.total_bytes,
        free_bytes: volume.free_bytes,
    }
}

/// All mounted drives, from the mask of drive letters and what the system reports of each
/// volume, in the order of the letters.
pub fn list_drives(mask: u32, volumes: &Vec<RawVolume>) -> (r: Vec<DriveInfo>)
    requires
        volumes@.len() == letters_below(mask, 26).len(),
    ensures
        r@.len() == volumes@.len(),
        forall|i: int|
            0 <= i < r@.len() ==> describes(
                #[trigger] r@[i],
                letters_below(mask, 26)[i],
                volumes@[i],
            ),
{
    let letters = drive_letters(mask);
    let mut drives: Vec<DriveInfo> = Vec::new();
    for i in 0..letters.len()
        invariant
            letters@ == letters_below(mask, 26),
            volumes@.len() == letters@.len(),
            drives@.len() == i,
            forall|k: int|
                0 <= k < i ==> describes(#[trigger] drives@[k], letters@[k], volumes@[k]),
    {
        drives.push(drive_info(letters[i], &volumes[i]));
    }
    drives
}

/// Drives come in the order of their letters, and none twice.
pub proof fn law_drive_letters_ascend(mask: u32, i: int, j: int)
    requires
        0 <= i < j < letters_below(mask, 26).len(),
    ensures
        letters_below(mask, 26)[i] < letters_below(mask, 26)[j],
{
    lemma_letters_ascend(mask, 26, i, j);
}

proof fn lemma_letters_ascend(mask: u32, n: int, i: int, j: int)
    requires
        0 <= n <= 26,
        0 <= i < j < letters_below(mask, n).len(),
    ensures
        letters_below(mask, n)[i] < letters_below(mask, n)[j],
    decreases n,
{
    if n > 0 {
        let before = letters_below(mask, n - 1);
        if j < before.len() {
            lemma_letters_ascend(mask, n - 1, i, j);
        } else {
            lemma_letters_bounded(mask, n - 1, i);
        }
    }
}

proof fn lemma_letters_bounded(mask: u32, n: int, i: int)
    requires
        0 <= n <= 26,
        0 <= i < letters_below(mask, n).len(),
    ensures
        (letters_below(mask, n)[i] as int) < 65 + n,
    decreases n,
{
    if n > 0 {
        let before = letters_below(mask, n - 1);
        if i < before.len() {
            lemma_letters_bounded(mask, n - 1, i);
        }
    }
}

/// A drive is listed exactly when its bit is set.
pub proof fn law_drives_are_listed_by_their_bits(mask: u32, i: u32)
    requires
        i < 26,
    ensures
        letters_below(mask, 26).contains((65 + i) as char) <==> mask & (1u32 << i) != 0,
{
    lemma_listed_by_bits(mask, 26, i);
}

proof fn lemma_listed_by_bits(mask: u32, n: int, i: u32)
    requires
        0 <= n <= 26,
        i < 26,
    ensures
        letters_below(mask, n).contains((65 + i) as char) <==> i < n && mask & (1u32 << i) != 0,
    decreases n,
{
    let c = (65 + i) as char;
    let all = letters_below(mask, n);
    if n > 0 {
        lemma_listed_by_bits(mask, n - 1, i);
        let before = letters_below(mask, n - 1);
        if before.contains(c) {
            let k = choose|k: int| 0 <= k < before.len() && before[k] == c;
            assert(all[k] == c);
        }
        if all.contains(c) && !before.contains(c) {
            let k = choose|k: int| 0 <= k < all.len() && all[k] == c;
            if k < before.len() {
                assert(before[k] == c);
            }
            assert(all[k] == letter_of(n - 1));
            assert(i == n - 1);
        }
        if i == n - 1 && mask & (1u32 << i) != 0 {
            assert(all[before.len() as int] == c);
        }
    }
}

/// A drive is described as the system reports it: its letter, its root, its label up to the
/// terminating NUL, its kind and its sizes.
pub proof fn law_drive_is_described(d: DriveInfo, letter: char, v: RawVolume)
    requires
        describes(d, letter, v),
    ensures
        d.letter == letter,
        d.root@ == seq![letter, ':', '\\'],
        v.label is None ==> d.label@.len() == 0,
        v.label matches Some(b) ==> d.label@ == decoded(until_nul(b@)),
        d.total_bytes == v.total_bytes,
        d.free_bytes == v.free_bytes,
        d.kind == DriveKind::Removable <==> v.kind == 2,
        d.kind == DriveKind::Fixed <==> v.kind == 3,
        d.kind == DriveKind::Network <==> v.kind == 4,
        d.kind == DriveKind::CdRom <==> v.kind == 5,
        d.kind == DriveKind::RamDisk <==> v.kind == 6,
{
}

} // verus!
