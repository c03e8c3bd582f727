//! What happens to the file manager, and what it asks to be done.

use crate::columns::Column;
use crate::config::Settings;
use crate::drives::DriveInfo;
use crate::icons::{icon_names, IconKey, IconName};
use crate::keyboard::Modifiers;
use crate::model::{Entry, Location, Place};
use crate::path::{path_texts, WinPath};
use crate::search::{SearchHit, SearchMode};
use crate::sort::SortKey;
use crate::thumbs::{thumb_names, CacheSweep, ThumbKey, ThumbName};
use crate::tree::{NodeId, TreeChild};
use crate::view_mode::ViewMode;
use crate::wsl::WslDistro;
use vstd::prelude::*;

verus! {

/// A keyboard navigation step over the list.
#[derive(Debug, Clone, Copy, PartialEq, Eq, Structural)]
pub enum Nav {
    Up,
    Down,
    Home,
    End,
    PageUp,
    PageDown,
}

/// Which lane a finished extraction belongs to: `Lock` releases the loading overlay,
/// `Background` pumps the next chunk, `Prefetch` only fills the cache.
#[derive(Debug, Clone, Copy, PartialEq, Eq, Structural)]
pub enum ThumbKind {
    Lock,
    Prefetch,
    Background,
}

/// A point of the window, each coordinate as the bits of a single-precision number. It is
/// carried, never computed with.
#[derive(Debug, Clone, Copy, PartialEq, Eq, Structural)]
pub struct Spot {
    pub x: u32,
    pub y: u32,
}

/// What happens.
#[derive(Debug)]
pub enum Message {
    GoBack,
    GoForward,
    GoUp,
    Refresh,
    AddressChanged(String),
    AddressSubmit,
    SetHidden(bool),
    SortBy(SortKey),
    /// The search box changed; a live search is due after a pause.
    SearchChanged(String),
    /// The pause after the input with this number is over.
    SearchDebounced(u64),
    SearchSubmit,
    SearchModeChanged(SearchMode),
    SearchClear,
    /// Results of the search `token`.
    SearchBatch { token: u64, hits: Vec<SearchHit> },
    /// The search `token` is over; `capped` if it found too much.
    SearchFinished { token: u64, capped: bool },
    /// The search `token` could not run.
    SearchFailed { token: u64, error: String },
    /// A row was clicked, at a time in nanoseconds.
    RowClicked { index: usize, now: u64 },
    RowRightClicked(usize),
    BackgroundRightClicked,
    CloseMenu,
    CursorMoved(Spot),
    ModifiersChanged(Modifiers),
    /// The window has a new height, and the list pane a new width.
    WindowResized { pane_w: u64, height: u64 },
    /// The list was scrolled; its viewport has this height.
    Scrolled { offset: u64, height: u64 },
    /// Move the lead; extend the selection; only move the focus.
    MoveSelection(Nav, bool, bool),
    SelectAll,
    Activate,
    ThisPcLoaded(Vec<DriveInfo>),
    WslLoaded(Vec<WslDistro>),
    Loaded(u64, Result<Vec<Entry>, String>),
    /// The open folder changed on disk.
    DirChanged,
    /// The open folder was read again.
    Reloaded(u64, Result<Vec<Entry>, String>),
    IconsLoaded(Vec<(IconKey, u64)>),
    ViewModeChanged(ViewMode),
    /// The cache-only sweep is done; `lock` if it opened a session.
    ThumbsCached { sweep: CacheSweep<u64>, token: u64, lock: bool },
    /// A full extraction is done.
    ThumbsLoaded { images: Vec<(ThumbKey, u64)>, token: u64, kind: ThumbKind },
    SpinnerTick,
    Noop,
    NewTab,
    OpenInNewTab,
    SelectTab(usize),
    CloseTab(usize),
    CloseActiveTab,
    NextTab,
    PrevTab,
    TreeToggle(NodeId),
    TreeNavigate(Location),
    TreeChildrenLoaded(NodeId, Result<Vec<TreeChild>, String>),
    /// The divider was dragged; the list pane has a new width.
    PaneResized { pane_w: u64 },
    /// A column's divider was dragged to a width, given as the bits of a single-precision
    /// number.
    ColumnResized(Column, u32),
    OpenSelected,
    NewFolder,
    /// A free name for a new folder in `dir` was found.
    FolderNamed { dir: WinPath, name: String },
    DeleteSelected,
    Copy,
    Cut,
    Paste,
    RenameStart,
    RenameChanged(String),
    RenameCommit,
    OpFinished(Result<(), String>),
}

/// A file operation of the shell.
#[derive(Debug)]
pub enum Operation {
    NewFolder { dir: WinPath, name: String },
    Delete { paths: Vec<WinPath> },
    Move { paths: Vec<WinPath>, dir: WinPath },
    Copy { paths: Vec<WinPath>, dir: WinPath },
    Rename { path: WinPath, name: String },
}

/// A file operation as plain values.
pub ghost enum Op {
    NewFolder { dir: Seq<char>, name: Seq<char> },
    Delete { paths: Seq<Seq<char>> },
    Move { paths: Seq<Seq<char>>, dir: Seq<char> },
    Copy { paths: Seq<Seq<char>>, dir: Seq<char> },
    Rename { path: Seq<char>, name: Seq<char> },
}

impl View for Operation {
    type V = Op;

    open spec fn view(&self) -> Op {
        match self {
            Operation::NewFolder { dir, name } => Op::NewFolder { dir: dir@, name: name@ },
            Operation::Delete { paths } => Op::Delete { paths: path_texts(paths@) },
            Operation::Move { paths, dir } => Op::Move { paths: path_texts(paths@), dir: dir@ },
            Operation::Copy { paths, dir } => Op::Copy { paths: path_texts(paths@), dir: dir@ },
            Operation::Rename { path, name } => Op::Rename { path: path@, name: name@ },
        }
    }
}

/// What has to be done.
#[derive(Debug)]
pub enum Action {
    /// List the drives; answered by `ThisPcLoaded`.
    ListDrives,
    /// List the distributions; answered by `WslLoaded`.
    ListDistros,
    /// Read a folder; answered by `Loaded`.
    ReadDir { path: WinPath, token: u64 },
    /// Read a folder again; answered by `Reloaded`.
    RereadDir { path: WinPath, token: u64 },
    /// Load the top of the tree; answered by `TreeChildrenLoaded`.
    LoadTreeRoots,
    /// Load the children of a tree node; answered by `TreeChildrenLoaded`.
    LoadTreeChildren { id: NodeId, location: Location, show_hidden: bool },
    /// Extract icons; answered by `IconsLoaded`.
    ExtractIcons(Vec<IconKey>),
    /// Look for thumbnails that are ready; answered by `ThumbsCached`.
    SweepThumbs { keys: Vec<ThumbKey>, token: u64, lock: bool },
    /// Extract thumbnails; answered by `ThumbsLoaded`.
    ExtractThumbs { keys: Vec<ThumbKey>, token: u64, kind: ThumbKind },
    /// Scroll the list to an offset.
    ScrollTo(u64),
    /// Keep the view preferences.
    SaveSettings(Settings),
    /// Keep the column layouts.
    SaveColumns,
    /// Answer with `SearchDebounced` after a pause.
    Debounce(u64),
    FocusRename,
    SelectRename,
    ClearFocus,
    /// Open a file with its default program.
    Open(WinPath),
    /// Find a free name for a new folder; answered by `FolderNamed`.
    NameFolder(WinPath),
    /// Run a file operation; answered by `OpFinished`.
    Run(Operation),
}

/// What has to be done, as plain values.
pub ghost enum Act {
    ListDrives,
    ListDistros,
    ReadDir { path: Seq<char>, token: u64 },
    RereadDir { path: Seq<char>, token: u64 },
    LoadTreeRoots,
    LoadTreeChildren { id: int, place: Place, show_hidden: bool },
    ExtractIcons(Seq<IconName>),
    SweepThumbs { keys: Seq<ThumbName>, token: u64, lock: bool },
    ExtractThumbs { keys: Seq<ThumbName>, token: u64, kind: ThumbKind },
    ScrollTo(u64),
    SaveSettings(Settings),
    SaveColumns,
    Debounce(u64),
    FocusRename,
    SelectRename,
    ClearFocus,
    Open(Seq<char>),
    NameFolder(Seq<char>),
    Run(Op),
}

impl View for Action {
    type V = Act;

    open spec fn view(&self) -> Act {
        match self {
            Action::ListDrives => Act::ListDrives,
            Action::ListDistros => Act::ListDistros,
            Action::ReadDir { path, token } => Act::ReadDir { path: path@, token: *token },
            Action::RereadDir { path, token } => Act::RereadDir { path: path@, token: *token },
            Action::LoadTreeRoots => Act::LoadTreeRoots,
            Action::LoadTreeChildren { id, location, show_hidden } => Act::LoadTreeChildren {
                id: *id as int,
                place: location@,
                show_hidden: *show_hidden,
            },
            Action::ExtractIcons(keys) => Act::ExtractIcons(icon_names(keys@)),
            Action::SweepThumbs { keys, token, lock } => Act::SweepThumbs {
                keys: thumb_names(keys@),
                token: *token,
                lock: *lock,
            },
            Action::ExtractThumbs { keys, token, kind } => Act::ExtractThumbs {
                keys: thumb_names(keys@),
                token: *token,
                kind: *kind,
            },
            Action::ScrollTo(y) => Act::ScrollTo(*y),
            Action::SaveSettings(s) => Act::SaveSettings(*s),
            Action::SaveColumns => Act::SaveColumns,
            Action::Debounce(n) => Act::Debounce(*n),
            Action::FocusRename => Act::FocusRename,
            Action::SelectRename => Act::SelectRename,
            Action::ClearFocus => Act::ClearFocus,
            Action::Open(p) => Act::Open(p@),
            Action::NameFolder(p) => Act::NameFolder(p@),
            Action::Run(op) => Act::Run(op@),
        }
    }
}

/// The views of a list of actions.
pub open spec fn acts(v: Seq<Action>) -> Seq<Act> {
    v.map_values(|a: Action| a@)
}

} // verus!
