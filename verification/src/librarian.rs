//! The file manager: its state, and what each event does to it.

use crate::columns::ColumnLayout;
use crate::config::ColumnStore;
use crate::desk::{
    leads_to_one, paths_at, result_le, row_named, rows_at, rows_of, thumb_of, thumbs_of,
    Clipped, Desk, Menu, Quest, Renaming, Results, Sheet, Shown,
};
use crate::drives::DriveInfo;
use crate::history::History;
use crate::icons::IconCache;
use crate::keyboard::Modifiers;
use crate::labels::address_text;
use crate::message::{acts, Action, Spot};
use crate::model::{Entry, Location};
use crate::order::{by_index, sorted_by, stable_order};
use crate::path::{comps, comps_code, path_texts, WinPath};
use crate::rows::{
    entry_row, hit_row, row_data, row_from_distro, row_from_drive, row_from_entry, row_from_hit,
    Row,
};
use crate::search::{SearchHit, SearchMode, SearchSpec};
use crate::selection::Selection;
use crate::sidebar::keep_visible;
use crate::sort::{sort_entries, Sort};
use crate::text::{
    lemma_rank_text, lemma_rank_text_transitive, rank_chars, rank_text, str_eq, to_chars, Rank,
};
use crate::thumbs::{thumb_names, ThumbCache, ThumbKey};
use crate::tree::Tree;
use crate::unicode::{lower, lowercase};
use crate::view_mode::ViewMode;
use crate::wsl::WslDistro;
use vstd::prelude::*;

verus! {

/// What the list shows.
pub enum Content {
    /// The landing list of drives.
    ThisPc { drives: Vec<DriveInfo> },
    /// The landing list of distributions.
    Wsl { distros: Vec<WslDistro> },
    Folder { entries: Vec<Entry> },
    /// Results of a recursive search in `root`. The folder underneath is unchanged.
    Search {
        root: WinPath,
        query: String,
        mode: SearchMode,
        hits: Vec<SearchHit>,
        /// Whether the search has finished.
        done: bool,
    },
    Error(String),
}

impl View for Content {
    type V = Shown;

    open spec fn view(&self) -> Shown {
        match self {
            Content::ThisPc { drives } => Shown::ThisPc(drives@),
            Content::Wsl { distros } => Shown::Wsl(distros@),
            Content::Folder { entries } => Shown::Folder(entries@),
            Content::Search { root, query, mode, hits, done } => Shown::Search(
                Results { root: root@, query: query@, mode: *mode, hits: hits@, done: *done },
            ),
            Content::Error(e) => Shown::Error(e@),
        }
    }
}

impl Default for Content {
    fn default() -> (r: Content)
        ensures
            r@ == Shown::ThisPc(seq![]),
    {
        let drives: Vec<DriveInfo> = Vec::new();
        assert(drives@ =~= seq![]);
        Content::ThisPc { drives }
    }
}

/// An inline rename of the row at `index`.
pub struct Rename {
    pub index: usize,
    pub value: String,
}

impl View for Rename {
    type V = Renaming;

    open spec fn view(&self) -> Renaming {
        Renaming { index: self.index, value: self.value@ }
    }
}

/// The cut or copied paths.
pub struct Clip {
    pub paths: Vec<WinPath>,
    /// Whether pasting moves them.
    pub cut: bool,
}

impl View for Clip {
    type V = Clipped;

    open spec fn view(&self) -> Clipped {
        Clipped { paths: path_texts(self.paths@), cut: self.cut }
    }
}

impl View for SearchSpec {
    type V = Quest;

    open spec fn view(&self) -> Quest {
        Quest { token: self.token, root: self.root@, query: self.query@, mode: self.mode }
    }
}

/// The state of one tab.
pub struct Tab {
    pub history: History,
    pub content: Content,
    /// The rows for the content, filtered and sorted.
    pub rows: Vec<Row>,
    pub selection: Selection,
    pub address: String,
    pub status: String,
    /// How far the list is scrolled, in 256ths of a pixel.
    pub scroll: u64,
    /// The last clicked row, and when.
    pub last_click: Option<(usize, u64)>,
    pub renaming: Option<Rename>,
    /// A folder that was just made, with its parent, to be renamed once it is listed.
    pub pending_rename: Option<(WinPath, String)>,
    /// The load whose result counts.
    pub load_token: u64,
    /// Whether a folder is being read that is not on show yet.
    pub load_pending: bool,
    pub search_query: String,
    pub search_mode: SearchMode,
    pub view_mode: ViewMode,
    pub columns: ColumnLayout,
}

/// The view of an optional value.
pub open spec fn rename_view(r: Option<Rename>) -> Option<Renaming> {
    match r {
        Some(x) => Some(x@),
        None => None,
    }
}

/// The view of a folder that awaits its rename.
pub open spec fn pending_view(p: Option<(WinPath, String)>) -> Option<(Seq<char>, Seq<char>)> {
    match p {
        Some((dir, name)) => Some((dir@, name@)),
        None => None,
    }
}

impl View for Tab {
    type V = Sheet;

    open spec fn view(&self) -> Sheet {
        Sheet {
            history: self.history@,
            content: self.content@,
            rows: row_data(self.rows@),
            selection: self.selection@,
            address: self.address@,
            status: self.status@,
            scroll: self.scroll,
            last_click: self.last_click,
            renaming: rename_view(self.renaming),
            pending_rename: pending_view(self.pending_rename),
            load_token: self.load_token,
            load_pending: self.load_pending,
            search_query: self.search_query@,
            search_mode: self.search_mode,
            view_mode: self.view_mode,
            columns: self.columns,
        }
    }
}

impl Tab {
    /// A fresh tab at a location.
    pub fn new(location: Location, view_mode: ViewMode) -> (r: Tab)
        ensures
            r.selection.wf(),
            r@ == crate::desk::fresh_sheet(location@, view_mode),
    {
        let address = address_text(&location);
        let r = Tab {
            history: History::new(location),
            content: Content::default(),
            rows: Vec::new(),
            selection: Selection::default(),
            address,
            status: String::new(),
            scroll: 0,
            last_click: None,
            renaming: None,
            pending_rename: None,
            load_token: 0,
            load_pending: false,
            search_query: String::new(),
            search_mode: SearchMode::Name,
            view_mode,
            columns: ColumnLayout::default(),
        };
        assert(r@ =~= crate::desk::fresh_sheet(location@, view_mode));
        r
    }

    /// The folder on show, if it is a real one.
    pub fn current_dir(&self) -> (r: Option<WinPath>)
        ensures
            match r {
                Some(p) => self@.dir() == Some(p@),
                None => self@.dir() is None,
            },
    {
        match &self.history.current {
            Location::Path(p) => Some(p.clone()),
            Location::ThisPc => None,
            Location::Wsl => None,
        }
    }

    /// The paths of the selected rows, in a real folder.
    pub fn selected_paths(&self) -> (r: Vec<WinPath>)
        requires
            self.selection.wf(),
        ensures
            path_texts(r@) == self@.selected_paths(),
    {
        let mut out: Vec<WinPath> = Vec::new();
        assert(path_texts(out@) =~= seq![]);
        if self.current_dir().is_none() {
            return out;
        }
        let ghost rows = self@.rows;
        let ghost items = self@.selection.items;
        for i in 0..self.rows.len()
            invariant
                self.selection.wf(),
                rows == row_data(self.rows@),
                items == self.selection@.items,
                path_texts(out@) == paths_at(rows, items, i as int),
        {
            let ghost prev = path_texts(out@);
            assert(rows[i as int] == self.rows@[i as int]@);
            if let Location::Path(p) = &self.rows[i].target {
                if self.selection.contains(i) {
                    out.push(p.clone());
                    assert(path_texts(out@) =~= prev.push(p@));
                }
            }
        }
        out
    }

    /// The path of the focused row, in a real folder.
    pub fn lead_path(&self) -> (r: Option<WinPath>)
        ensures
            match r {
                Some(p) => self@.lead_path() == Some(p@),
                None => self@.lead_path() is None,
            },
    {
        if self.current_dir().is_none() {
            return None;
        }
        match self.selection.lead {
            Some(i) => {
                if i < self.rows.len() {
                    assert(self@.rows[i as int] == self.rows@[i as int]@);
                    match &self.rows[i].target {
                        Location::Path(p) => Some(p.clone()),
                        Location::ThisPc => None,
                        Location::Wsl => None,
                    }
                } else {
                    None
                }
            },
            None => None,
        }
    }
}

// ---------------------------------------------------------------- rows

/// The rows for what is shown.
pub fn rows_for(content: &Content, sort: &Sort, show_hidden: bool) -> (r: Vec<Row>)
    ensures
        row_data(r@) == rows_of(content@, *sort, show_hidden),
{
    let mut out: Vec<Row> = Vec::new();
    let ghost all = rows_of(content@, *sort, show_hidden);
    assert(row_data(out@) =~= seq![]);
    match content {
        Content::ThisPc { drives } => {
            for i in 0..drives.len()
                invariant
                    content@ == Shown::ThisPc(drives@),
                    all == rows_of(content@, *sort, show_hidden),
                    row_data(out@) == all.take(i as int),
            {
                let ghost prev = row_data(out@);
                out.push(row_from_drive(&drives[i]));
                assert(row_data(out@) =~= prev.push(all[i as int]));
                assert(all.take(i + 1) =~= all.take(i as int).push(all[i as int]));
            }
            assert(all.take(all.len() as int) =~= all);
        },
        Content::Wsl { distros } => {
            for i in 0..distros.len()
                invariant
                    content@ == Shown::Wsl(distros@),
                    all == rows_of(content@, *sort, show_hidden),
                    row_data(out@) == all.take(i as int),
            {
                let ghost prev = row_data(out@);
                out.push(row_from_distro(&distros[i]));
                assert(row_data(out@) =~= prev.push(all[i as int]));
                assert(all.take(i + 1) =~= all.take(i as int).push(all[i as int]));
            }
            assert(all.take(all.len() as int) =~= all);
        },
        Content::Folder { entries } => {
            let mut visible = keep_visible(entries, show_hidden);
            sort_entries(&mut visible, sort);
            for i in 0..visible.len()
                invariant
                    all == visible@.map_values(|e: Entry| entry_row(e)),
                    row_data(out@) == all.take(i as int),
            {
                let ghost prev = row_data(out@);
                out.push(row_from_entry(&visible[i]));
                assert(row_data(out@) =~= prev.push(all[i as int]));
                assert(all.take(i + 1) =~= all.take(i as int).push(all[i as int]));
            }
            assert(all.take(all.len() as int) =~= all);
        },
        Content::Search { root, hits, .. } => {
            let ghost plain = hits@.map_values(|h: SearchHit| hit_row(h, root@));
            let mut rows: Vec<Row> = Vec::new();
            assert(row_data(rows@) =~= plain.take(0));
            for i in 0..hits.len()
                invariant
                    plain == hits@.map_values(|h: SearchHit| hit_row(h, root@)),
                    row_data(rows@) == plain.take(i as int),
            {
                let ghost prev = row_data(rows@);
                rows.push(row_from_hit(&hits[i], root));
                assert(row_data(rows@) =~= prev.push(plain[i as int]));
                assert(plain.take(i + 1) =~= plain.take(i as int).push(plain[i as int]));
            }
            assert(plain.take(plain.len() as int) =~= plain);
            out = sort_results(&rows);
        },
        Content::Error(_) => {},
    }
    out
}

/// Sort search results: folders first, then by label, ignoring case.
fn sort_results(rows: &Vec<Row>) -> (r: Vec<Row>)
    ensures
        row_data(r@) == sorted_by(row_data(rows@), result_le()),
{
    let n: usize = rows.len();
    let ghost data = row_data(rows@);
    let mut keys: Vec<(bool, Vec<char>)> = Vec::new();
    for i in 0..n
        invariant
            n == rows@.len(),
            data == row_data(rows@),
            keys@.len() == i,
            forall|k: int|
                0 <= k < i ==> (#[trigger] keys@[k]).0 == data[k].is_container && keys@[k].1@
                    == lowercase(data[k].label),
    {
        assert(data[i as int] == rows@[i as int]@);
        keys.push((rows[i].is_container, to_chars(&lower(&rows[i].label))));
    }
    let ghost rel = by_index(data, result_le());
    let le = |i: usize, j: usize| -> (r: bool)
        requires
            i < keys@.len(),
            j < keys@.len(),
        ensures
            r == (if keys@[i as int].0 != keys@[j as int].0 {
                keys@[i as int].0
            } else {
                rank_text(keys@[i as int].1@, keys@[j as int].1@) != Rank::Greater
            }),
        {
            if keys[i].0 != keys[j].0 {
                keys[i].0
            } else {
                rank_chars(&keys[i].1, &keys[j].1) != Rank::Greater
            }
        };
    proof {
        assert forall|i: int, j: int| 0 <= i < n && 0 <= j < n implies #[trigger] rel(i, j)
            || #[trigger] rel(j, i) by {
            lemma_rank_text(lowercase(data[i].label), lowercase(data[j].label));
        }
        assert forall|i: int, j: int, k: int|
            0 <= i < n && 0 <= j < n && 0 <= k < n && #[trigger] rel(i, j) && #[trigger] rel(
                j,
                k,
            ) implies rel(i, k) by {
            if data[i].is_container == data[j].is_container && data[j].is_container
                == data[k].is_container {
                lemma_rank_text_transitive(
                    lowercase(data[i].label),
                    lowercase(data[j].label),
                    lowercase(data[k].label),
                );
            }
        }
    }
    let p = stable_order(n, le, Ghost(rel));
    let mut out: Vec<Row> = Vec::new();
    for k in 0..n
        invariant
            n == rows@.len(),
            data == row_data(rows@),
            crate::order::covers(p@, 0, n as int),
            out@.len() == k,
            forall|a: int| 0 <= a < k ==> (#[trigger] out@[a])@ == data[p@[a] as int],
    {
        out.push(rows[p[k]].clone());
        assert(data[p@[k as int] as int] == rows@[p@[k as int] as int]@);
    }
    assert(row_data(out@) =~= sorted_by(data, result_le()));
    out
}

/// The thumbnail key of a row at a pixel size, if the row has a path.
pub fn thumb_key(row: &Row, px: u16) -> (r: Option<ThumbKey>)
    ensures
        match r {
            Some(k) => thumb_of(row@, px) == Some(k@),
            None => thumb_of(row@, px) is None,
        },
{
    match &row.target {
        Location::Path(p) => Some(ThumbKey { path: p.clone(), size: px, mtime: row.modified }),
        Location::ThisPc => None,
        Location::Wsl => None,
    }
}

/// The thumbnail keys of the rows from `start` to `end`.
pub(crate) fn thumb_keys(rows: &Vec<Row>, start: usize, end: usize, px: u16) -> (r: Vec<ThumbKey>)
    requires
        start <= end <= rows@.len(),
    ensures
        thumb_names(r@) == thumbs_of(row_data(rows@).subrange(start as int, end as int), px),
{
    let mut out: Vec<ThumbKey> = Vec::new();
    let ghost data = row_data(rows@);
    assert(thumb_names(out@) =~= seq![]);
    assert(data.subrange(start as int, start as int) =~= seq![]);
    for i in start..end
        invariant
            start <= end <= rows@.len(),
            data == row_data(rows@),
            thumb_names(out@) == thumbs_of(data.subrange(start as int, i as int), px),
    {
        let ghost prev = thumb_names(out@);
        assert(data[i as int] == rows@[i as int]@);
        assert(data.subrange(start as int, i + 1).drop_last() =~= data.subrange(
            start as int,
            i as int,
        ));
        if let Some(k) = thumb_key(&rows[i], px) {
            let ghost name = k@;
            out.push(k);
            assert(thumb_names(out@) =~= prev.push(name));
        }
    }
    out
}

/// The first row with the given label.
pub(crate) fn find_label(rows: &Vec<Row>, name: &str) -> (r: Option<usize>)
    ensures
        match r {
            Some(i) => i < rows@.len() && row_named(row_data(rows@), name@, 0) == Some(i as int),
            None => row_named(row_data(rows@), name@, 0) is None,
        },
{
    let ghost data = row_data(rows@);
    for i in 0..rows.len()
        invariant
            data == row_data(rows@),
            row_named(data, name@, 0) == row_named(data, name@, i as int),
    {
        assert(data[i as int] == rows@[i as int]@);
        if str_eq(&rows[i].label, name) {
            return Some(i);
        }
    }
    None
}

/// The rows that lead to one of `paths`.
pub(crate) fn find_paths(rows: &Vec<Row>, paths: &Vec<WinPath>) -> (r: Vec<usize>)
    ensures
        r@ == rows_at(row_data(rows@), path_texts(paths@), rows@.len() as int),
{
    let mut out: Vec<usize> = Vec::new();
    let ghost data = row_data(rows@);
    let ghost texts = path_texts(paths@);
    let mut codes: Vec<u64> = Vec::new();
    for k in 0..paths.len()
        invariant
            codes@.len() == k,
            forall|j: int| 0 <= j < k ==> #[trigger] codes@[j] == comps_code(comps(paths@[j]@)),
    {
        codes.push(paths[k].code());
    }
    for i in 0..rows.len()
        invariant
            data == row_data(rows@),
            texts == path_texts(paths@),
            codes@.len() == paths@.len(),
            forall|j: int|
                0 <= j < paths@.len() ==> #[trigger] codes@[j] == comps_code(comps(paths@[j]@)),
            out@ == rows_at(data, texts, i as int),
    {
        assert(data[i as int] == rows@[i as int]@);
        let mut found: bool = false;
        if let Location::Path(p) = &rows[i].target {
            let code: u64 = p.code();
            for k in 0..paths.len()
                invariant
                    texts == path_texts(paths@),
                    code == comps_code(comps(p@)),
                    codes@.len() == paths@.len(),
                    forall|j: int|
                        0 <= j < paths@.len() ==> #[trigger] codes@[j] == comps_code(
                            comps(paths@[j]@),
                        ),
                    found == exists|j: int|
                        0 <= j < k && comps(#[trigger] texts[j]) == comps(p@),
            {
                assert(texts[k as int] == paths@[k as int]@);
                if codes[k] == code && paths[k].same(p) {
                    found = true;
                }
            }
        }
        assert(found == leads_to_one(data[i as int], texts));
        if found {
            out.push(i);
        }
    }
    out
}

// ---------------------------------------------------------------- state

/// The views of the parked tabs.
pub open spec fn tab_views(v: Seq<Option<Tab>>) -> Seq<Option<Sheet>> {
    v.map_values(
        |t: Option<Tab>|
            match t {
                Some(x) => Some(x@),
                None => None,
            },
    )
}

/// The view of an optional path.
pub open spec fn path_view(p: Option<WinPath>) -> Option<Seq<char>> {
    match p {
        Some(x) => Some(x@),
        None => None,
    }
}

/// The view of an optional clipboard.
pub open spec fn clip_view(c: Option<Clip>) -> Option<Clipped> {
    match c {
        Some(x) => Some(x@),
        None => None,
    }
}

/// The view of an optional search.
pub open spec fn search_view(s: Option<SearchSpec>) -> Option<Quest> {
    match s {
        Some(x) => Some(x@),
        None => None,
    }
}

/// The file manager. Icons and thumbnails are numbers that stand for images.
pub struct Librarian {
    /// The active tab.
    pub tab: Tab,
    /// The other tabs; the place of the active one is empty.
    pub tabs: Vec<Option<Tab>>,
    pub active: usize,
    pub tree: Tree,
    /// A path that is being revealed in the tree.
    pub pending_reveal: Option<WinPath>,
    pub sort: Sort,
    pub show_hidden: bool,
    pub icons: IconCache<u64>,
    pub thumbs: ThumbCache<u64>,
    pub clip: Option<Clip>,
    pub menu: Option<Menu>,
    pub cursor: Spot,
    pub modifiers: Modifiers,
    /// Height of the list's viewport, in 256ths of a pixel.
    pub viewport: u64,
    /// Width of the list's pane, in 256ths of a pixel.
    pub pane_w: u64,
    /// The thumbnail session whose results count.
    pub thumb_token: u64,
    /// Whether the window is locked behind the loading overlay.
    pub overlay_loading: bool,
    pub spinner_frame: u64,
    /// Thumbnails that wait to be made in the background.
    pub bg_queue: Vec<ThumbKey>,
    pub search_active: Option<SearchSpec>,
    /// The search whose results count.
    pub search_token: u64,
    /// The search input whose pause counts.
    pub search_seq: u64,
    /// The last load token that was given out.
    pub next_token: u64,
    pub col_store: ColumnStore,
    /// What has to be done.
    pub out: Vec<Action>,
}

impl View for Librarian {
    type V = Desk;

    open spec fn view(&self) -> Desk {
        Desk {
            sheet: self.tab@,
            parked: tab_views(self.tabs@),
            active: self.active as int,
            nodes: self.tree.shape(),
            next_id: self.tree.next_id as int,
            pending_reveal: path_view(self.pending_reveal),
            sort: self.sort,
            show_hidden: self.show_hidden,
            icons: self.icons.handles@,
            icons_asked: self.icons.requested@,
            thumbs: self.thumbs@,
            clip: clip_view(self.clip),
            menu: self.menu,
            cursor: self.cursor,
            modifiers: self.modifiers,
            viewport: self.viewport,
            pane_w: self.pane_w,
            thumb_token: self.thumb_token,
            overlay_loading: self.overlay_loading,
            spinner_frame: self.spinner_frame,
            bg_queue: thumb_names(self.bg_queue@),
            search_active: search_view(self.search_active),
            search_token: self.search_token,
            search_seq: self.search_seq,
            next_token: self.next_token,
            columns: self.col_store@,
            out: acts(self.out@),
        }
    }
}

impl Librarian {
    /// Every part is well formed, the tabs agree with the active one, and no tab waits for a
    /// load that has not begun.
    pub open spec fn wf(&self) -> bool {
        &&& self.tab.selection.wf()
        &&& self.active < self.tabs@.len()
        &&& forall|i: int|
            0 <= i < self.tabs@.len() ==> ((#[trigger] self.tabs@[i]) is None <==> i
                == self.active)
        &&& forall|i: int|
            0 <= i < self.tabs@.len() && (#[trigger] self.tabs@[i]) is Some
                ==> self.tabs@[i]->0.selection.wf()
        &&& self.tab.load_token <= self.next_token
        &&& forall|i: int|
            0 <= i < self.tabs@.len() && (#[trigger] self.tabs@[i]) is Some
                ==> self.tabs@[i]->0.load_token <= self.next_token
        &&& self.tree.wf()
        &&& self.icons.wf()
        &&& self.thumbs.wf()
        &&& self.col_store.wf()
    }
}

} // verus!
