//! The state of the file manager as plain values, and how each event changes it.

use crate::assoc::{idents, Spelled};
use crate::columns::{fresh_layout, ColRule, Column, ColumnLayout};
use crate::config::Settings;
use crate::drives::DriveInfo;
use crate::geometry::{list_height, page, scroll_for, thumb_range};
use crate::history::Trail;
use crate::icons::{after_request, newly_wanted, IconId, IconKey, IconName};
use crate::keyboard::{commands, edits, Modifiers};
use crate::labels::{address_of, counted, found_text, items_text, results_text};
use crate::message::{Act, Message, Nav, Op, Spot, ThumbKind};
use crate::model::{parent_place, parse_place, same_place, Entry, Place};
use crate::order::sorted_by;
use crate::path::{comps, Comp};
use crate::rows::{distro_row, drive_row, entry_row, hit_row, RowData};
use crate::search::{SearchHit, SearchMode};
use crate::selection::Picked;
use crate::sidebar::shown_entries;
use crate::sort::{rank_names, sorted_entries, Sort, SortKey, SortOrder};
use crate::text::{trim, Rank};
use crate::thumbs::{thumb_names, CacheSweep, Shelf, ThumbKey, ThumbName};
use crate::tree::{
    child_at_from, flat_children, grafted, index_of, numbered, sidebar, toggled, walk_to,
    Children, Node, Revealed, RowView, TreeChild, ROOT_ID,
};
use crate::view_mode::ViewMode;
use crate::wsl::WslDistro;
use vstd::prelude::*;

verus! {

/// How close two clicks on a row must be to count as a double click: 400 milliseconds, in
/// nanoseconds.
pub const DOUBLE_CLICK: u64 = 400000000;

/// How many thumbnails a background chunk holds.
pub const BG_CHUNK: usize = 24;

/// How many thumbnails are made in the background for one folder.
pub const MAX_BACKGROUND_PRECACHE: usize = 4000;

/// Search results on show.
#[verifier::ext_equal]
pub ghost struct Results {
    pub root: Seq<char>,
    pub query: Seq<char>,
    pub mode: SearchMode,
    pub hits: Seq<SearchHit>,
    pub done: bool,
}

/// What the list shows.
#[verifier::ext_equal]
pub ghost enum Shown {
    ThisPc(Seq<DriveInfo>),
    Wsl(Seq<WslDistro>),
    Folder(Seq<Entry>),
    Search(Results),
    Error(Seq<char>),
}

/// An inline rename in progress.
#[verifier::ext_equal]
pub ghost struct Renaming {
    pub index: usize,
    pub value: Seq<char>,
}

/// What a tab holds.
#[verifier::ext_equal]
pub ghost struct Sheet {
    pub history: Trail,
    pub content: Shown,
    pub rows: Seq<RowData>,
    pub selection: Picked,
    pub address: Seq<char>,
    pub status: Seq<char>,
    pub scroll: u64,
    pub last_click: Option<(usize, u64)>,
    pub renaming: Option<Renaming>,
    pub pending_rename: Option<(Seq<char>, Seq<char>)>,
    pub load_token: u64,
    pub load_pending: bool,
    pub search_query: Seq<char>,
    pub search_mode: SearchMode,
    pub view_mode: ViewMode,
    pub columns: ColumnLayout,
}

/// Paths that were cut or copied.
#[verifier::ext_equal]
pub ghost struct Clipped {
    pub paths: Seq<Seq<char>>,
    pub cut: bool,
}

/// An open context menu: the row it is for, if it is for one, and where it stands.
#[derive(Debug, Clone, Copy, PartialEq, Eq, Structural)]
pub struct Menu {
    pub index: Option<usize>,
    pub at: Spot,
}

/// A running search.
#[verifier::ext_equal]
pub ghost struct Quest {
    pub token: u64,
    pub root: Seq<char>,
    pub query: Seq<char>,
    pub mode: SearchMode,
}

/// The whole state. `parked` holds every tab but the active one, whose place in it is
/// empty; `out` is what has to be done.
#[verifier::ext_equal]
pub ghost struct Desk {
    pub sheet: Sheet,
    pub parked: Seq<Option<Sheet>>,
    pub active: int,
    pub nodes: Seq<Node>,
    pub next_id: int,
    pub pending_reveal: Option<Seq<char>>,
    pub sort: Sort,
    pub show_hidden: bool,
    pub icons: Map<IconId, u64>,
    pub icons_asked: Set<IconId>,
    pub thumbs: Shelf<u64>,
    pub clip: Option<Clipped>,
    pub menu: Option<Menu>,
    pub cursor: Spot,
    pub modifiers: Modifiers,
    pub viewport: u64,
    pub pane_w: u64,
    pub thumb_token: u64,
    pub overlay_loading: bool,
    pub spinner_frame: u64,
    pub bg_queue: Seq<ThumbName>,
    pub search_active: Option<Quest>,
    pub search_token: u64,
    pub search_seq: u64,
    pub next_token: u64,
    pub columns: Map<Seq<Comp>, ColumnLayout>,
    pub out: Seq<Act>,
}

/// The number after `n`, starting over at the top.
pub open spec fn bumped(n: u64) -> u64 {
    if n == u64::MAX {
        0
    } else {
        (n + 1) as u64
    }
}

// ---------------------------------------------------------------- rows

/// Compare two search results: folders first, then by label, ignoring case.
pub open spec fn rank_results(a: RowData, b: RowData) -> Rank {
    if a.is_container && !b.is_container {
        Rank::Less
    } else if !a.is_container && b.is_container {
        Rank::Greater
    } else {
        rank_names(a.label, b.label)
    }
}

/// Whether one search result may stand before another.
pub open spec fn result_le() -> spec_fn(RowData, RowData) -> bool {
    |a: RowData, b: RowData| rank_results(a, b) != Rank::Greater
}

/// The rows for what is shown.
pub open spec fn rows_of(content: Shown, sort: Sort, show_hidden: bool) -> Seq<RowData> {
    match content {
        Shown::ThisPc(drives) => drives.map_values(|d: DriveInfo| drive_row(d)),
        Shown::Wsl(distros) => distros.map_values(|d: WslDistro| distro_row(d)),
        Shown::Folder(entries) => sorted_entries(
            shown_entries(entries, show_hidden),
            sort,
        ).map_values(|e: Entry| entry_row(e)),
        Shown::Search(r) => sorted_by(
            r.hits.map_values(|h: SearchHit| hit_row(h, r.root)),
            result_le(),
        ),
        Shown::Error(_) => seq![],
    }
}

/// The thumbnail that a row shows at a pixel size, if it has a path.
pub open spec fn thumb_of(row: RowData, px: u16) -> Option<ThumbName> {
    match row.target {
        Place::Path(t) => Some(ThumbName { path: t, size: px, mtime: row.modified }),
        _ => None,
    }
}

/// The thumbnails that rows show.
pub open spec fn thumbs_of(rows: Seq<RowData>, px: u16) -> Seq<ThumbName>
    decreases rows.len(),
{
    if rows.len() == 0 {
        seq![]
    } else {
        let before = thumbs_of(rows.drop_last(), px);
        match thumb_of(rows.last(), px) {
            Some(name) => before.push(name),
            None => before,
        }
    }
}

/// The paths of the rows below `n` that are among `items`.
pub open spec fn paths_at(rows: Seq<RowData>, items: Set<usize>, n: int) -> Seq<Seq<char>>
    decreases n,
{
    if n <= 0 {
        seq![]
    } else {
        let before = paths_at(rows, items, n - 1);
        match rows[n - 1].target {
            Place::Path(t) => if items.contains((n - 1) as usize) {
                before.push(t)
            } else {
                before
            },
            _ => before,
        }
    }
}

/// Whether a row leads to one of `paths`.
pub open spec fn leads_to_one(row: RowData, paths: Seq<Seq<char>>) -> bool {
    row.target matches Place::Path(t) && exists|k: int|
        0 <= k < paths.len() && comps(#[trigger] paths[k]) == comps(t)
}

/// The rows below `n` that lead to one of `paths`.
pub open spec fn rows_at(rows: Seq<RowData>, paths: Seq<Seq<char>>, n: int) -> Seq<usize>
    decreases n,
{
    if n <= 0 {
        seq![]
    } else {
        let before = rows_at(rows, paths, n - 1);
        if leads_to_one(rows[n - 1], paths) {
            before.push((n - 1) as usize)
        } else {
            before
        }
    }
}

/// The first row from `i` on that has the given label.
pub open spec fn row_named(rows: Seq<RowData>, name: Seq<char>, i: int) -> Option<int>
    decreases rows.len() - i,
{
    if i >= rows.len() {
        None
    } else if rows[i].label == name {
        Some(i)
    } else {
        row_named(rows, name, i + 1)
    }
}

/// The misses that are among `wanted`, or those that are not.
pub open spec fn partition(
    misses: Seq<ThumbName>,
    wanted: Seq<ThumbName>,
    keep: bool,
) -> Seq<ThumbName>
    decreases misses.len(),
{
    if misses.len() == 0 {
        seq![]
    } else {
        let before = partition(misses.drop_last(), wanted, keep);
        if idents(wanted).contains(misses.last().id()) == keep {
            before.push(misses.last())
        } else {
            before
        }
    }
}

/// The shelf with thumbnails put in one after the other.
pub open spec fn shelved(shelf: Shelf<u64>, images: Seq<(ThumbKey, u64)>) -> Shelf<u64>
    decreases images.len(),
{
    if images.len() == 0 {
        shelf
    } else {
        shelved(shelf, images.drop_last()).inserted(images.last().0.thumb_id(), images.last().1)
    }
}

/// The icons with more put in one after the other.
pub open spec fn with_icons(
    icons: Map<IconId, u64>,
    loaded: Seq<(IconKey, u64)>,
) -> Map<IconId, u64>
    decreases loaded.len(),
{
    if loaded.len() == 0 {
        icons
    } else {
        with_icons(icons, loaded.drop_last()).insert(loaded.last().0.icon_id(), loaded.last().1)
    }
}

/// The row that a navigation step leads to.
pub open spec fn stepped(nav: Nav, lead: Option<usize>, len: int, rows_per_page: int) -> int {
    match nav {
        Nav::Home => 0,
        Nav::End => len - 1,
        Nav::Up => match lead {
            Some(i) => crate::geometry::most(i - 1, 0),
            None => len - 1,
        },
        Nav::Down => match lead {
            Some(i) => crate::geometry::least(i + 1, len - 1),
            None => 0,
        },
        Nav::PageUp => match lead {
            Some(i) => crate::geometry::most(i - rows_per_page, 0),
            None => 0,
        },
        Nav::PageDown => match lead {
            Some(i) => crate::geometry::least(i + rows_per_page, len - 1),
            None => 0,
        },
    }
}

/// The children that a load brought; a failed load brought none.
pub open spec fn children_of(result: Result<Vec<TreeChild>, String>) -> Seq<TreeChild> {
    match result {
        Ok(v) => v@,
        Err(_) => seq![],
    }
}

/// A fresh tab at a place.
pub open spec fn fresh_sheet(place: Place, view_mode: ViewMode) -> Sheet {
    Sheet {
        history: Trail { back: seq![], forward: seq![], current: place },
        content: Shown::ThisPc(seq![]),
        rows: seq![],
        selection: Picked::none(),
        address: address_of(place),
        status: seq![],
        scroll: 0,
        last_click: None,
        renaming: None,
        pending_rename: None,
        load_token: 0,
        load_pending: false,
        search_query: seq![],
        search_mode: SearchMode::Name,
        view_mode,
        columns: fresh_layout(),
    }
}

impl Sheet {
    /// The folder on show, if it is a real one.
    pub open spec fn dir(self) -> Option<Seq<char>> {
        match self.history.current {
            Place::Path(t) => Some(t),
            _ => None,
        }
    }

    /// The paths of the selected rows, in a real folder.
    pub open spec fn selected_paths(self) -> Seq<Seq<char>> {
        if self.dir() is Some {
            paths_at(self.rows, self.selection.items, self.rows.len() as int)
        } else {
            seq![]
        }
    }

    /// The path of the focused row, in a real folder.
    pub open spec fn lead_path(self) -> Option<Seq<char>> {
        if self.dir() is Some && self.selection.lead is Some && self.selection.lead->0
            < self.rows.len() {
            match self.rows[self.selection.lead->0 as int].target {
                Place::Path(t) => Some(t),
                _ => None,
            }
        } else {
            None
        }
    }
}

// ---------------------------------------------------------------- steps

impl Desk {
    /// Tabs and the active one agree: its place is the only empty one.
    pub open spec fn wf(self) -> bool {
        &&& 0 <= self.active < self.parked.len()
        &&& forall|i: int|
            0 <= i < self.parked.len() ==> ((#[trigger] self.parked[i]) is None <==> i
                == self.active)
    }

    /// With something more to do.
    pub open spec fn emit(self, a: Act) -> Desk {
        Desk { out: self.out.push(a), ..self }
    }

    /// With the active tab replaced.
    pub open spec fn on(self, sheet: Sheet) -> Desk {
        Desk { sheet, ..self }
    }

    /// With another status line.
    pub open spec fn says(self, status: Seq<char>) -> Desk {
        self.on(Sheet { status, ..self.sheet })
    }

    /// With no context menu.
    pub open spec fn unmenued(self) -> Desk {
        Desk { menu: None, ..self }
    }

    /// The preferences to keep.
    pub open spec fn settings(self) -> Settings {
        Settings { show_hidden: self.show_hidden, sort: self.sort, view_mode: self.sheet.view_mode }
    }

    /// The column layout that is kept for the open folder.
    pub open spec fn kept_columns(self) -> ColumnLayout {
        match self.sheet.dir() {
            Some(t) => if self.columns.contains_key(comps(t)) {
                self.columns[comps(t)]
            } else {
                fresh_layout()
            },
            None => fresh_layout(),
        }
    }

    /// Scrolled to an offset.
    pub open spec fn scroll_to(self, y: u64) -> Desk {
        self.on(Sheet { scroll: y, ..self.sheet }).emit(Act::ScrollTo(y))
    }

    /// Scrolled just enough to show a row.
    #[verifier::opaque]
    pub open spec fn ensure_visible(self, index: int) -> Desk {
        match scroll_for(
            index,
            self.sheet.rows.len() as int,
            self.sheet.scroll as int,
            self.viewport as int,
        ) {
            Some(y) => self.scroll_to(y as u64),
            None => self,
        }
    }

    /// With rows rebuilt from the content; what is selected stays within them.
    #[verifier::opaque]
    pub open spec fn recompute_rows(self) -> Desk {
        let rows = rows_of(self.sheet.content, self.sort, self.show_hidden);
        self.on(
            Sheet {
                rows,
                selection: self.sheet.selection.retained(rows.len() as usize),
                ..self.sheet
            },
        )
    }

    /// The icons that rows and tree show.
    pub open spec fn shown_icons(self) -> Seq<IconName> {
        self.sheet.rows.map_values(|r: RowData| r.icon) + sidebar(self.nodes).map_values(
            |r: RowView| r.icon,
        )
    }

    /// With the icons asked for that are not there yet.
    #[verifier::opaque]
    pub open spec fn request_icons(self) -> Desk {
        let keys = self.shown_icons();
        let needed = newly_wanted(self.icons, self.icons_asked, keys);
        let d = Desk {
            icons_asked: after_request(self.icons, self.icons_asked, keys),
            ..self
        };
        if needed.len() == 0 {
            d
        } else {
            d.emit(Act::ExtractIcons(needed))
        }
    }

    /// The thumbnails near the viewport.
    pub open spec fn visible_thumbs(self, px: u16) -> Seq<ThumbName> {
        let r = thumb_range(
            self.sheet.scroll as int,
            self.viewport as int,
            self.pane_w as int,
            self.sheet.rows.len() as int,
            self.sheet.view_mode,
        );
        thumbs_of(self.sheet.rows.subrange(r.0, r.1), px)
    }

    /// With the thumbnails near the viewport looked for.
    #[verifier::opaque]
    pub open spec fn prefetch_thumbs(self, lock: bool) -> Desk {
        match self.sheet.view_mode.thumb() {
            None => self,
            Some(px) => {
                let keys = self.visible_thumbs(px);
                let needed = newly_wanted(self.thumbs.handles, self.thumbs.requested, keys);
                let d = Desk { thumbs: self.thumbs.asked(keys), ..self };
                if needed.len() == 0 {
                    d
                } else {
                    d.emit(Act::SweepThumbs { keys: needed, token: self.thumb_token, lock })
                }
            },
        }
    }

    /// With the next background chunk under way.
    #[verifier::opaque]
    pub open spec fn next_background_chunk(self) -> Desk {
        let n = crate::geometry::least(self.bg_queue.len() as int, BG_CHUNK as int);
        if self.bg_queue.len() == 0 {
            self
        } else {
            (Desk { bg_queue: self.bg_queue.skip(n), ..self }).emit(
                Act::ExtractThumbs {
                    keys: self.bg_queue.take(n),
                    token: self.thumb_token,
                    kind: ThumbKind::Background,
                },
            )
        }
    }

    /// With every thumbnail of the folder queued, up to a limit; those beyond it may be asked
    /// for again.
    #[verifier::opaque]
    pub open spec fn seed_background(self) -> Desk {
        match self.sheet.view_mode.thumb() {
            None => self,
            Some(px) => {
                let keys = thumbs_of(self.sheet.rows, px);
                let needed = newly_wanted(self.thumbs.handles, self.thumbs.requested, keys);
                let asked = self.thumbs.asked(keys);
                let cap = MAX_BACKGROUND_PRECACHE as int;
                let d = if needed.len() > cap {
                    Desk {
                        thumbs: asked.released(needed.skip(cap)),
                        bg_queue: needed.take(cap),
                        ..self
                    }
                } else {
                    Desk { thumbs: asked, bg_queue: needed, ..self }
                };
                d.next_background_chunk()
            },
        }
    }

    /// With a fresh thumbnail session: the one before is superseded, the overlay goes, and
    /// what was queued may be asked for again. A locking session leaves the background to
    /// wait for the viewport.
    #[verifier::opaque]
    pub open spec fn begin_grid_session(self, lock: bool) -> Desk {
        let d = Desk {
            thumb_token: bumped(self.thumb_token),
            overlay_loading: false,
            thumbs: self.thumbs.released(self.bg_queue),
            bg_queue: seq![],
            ..self
        };
        if self.sheet.view_mode.thumb() is None {
            d
        } else if lock {
            d.prefetch_thumbs(lock)
        } else {
            d.prefetch_thumbs(lock).seed_background()
        }
    }

    /// One step further toward the path that is being revealed in the tree.
    #[verifier::opaque]
    pub open spec fn drive_reveal(self) -> Desk {
        match self.pending_reveal {
            None => self,
            Some(target) => {
                let w = walk_to(self.nodes, 0, target);
                let d = Desk { nodes: w.nodes, ..self };
                match w.outcome {
                    Revealed::Load(id, place) => d.emit(
                        Act::LoadTreeChildren { id, place, show_hidden: self.show_hidden },
                    ),
                    Revealed::Wait => d,
                    Revealed::Stop => Desk { pending_reveal: None, ..d },
                }
            },
        }
    }

    /// With the current place to be revealed in the tree.
    #[verifier::opaque]
    pub open spec fn reveal_current(self) -> Desk {
        match self.sheet.dir() {
            Some(t) => (Desk { pending_reveal: Some(t), ..self }).drive_reveal(),
            None => Desk { pending_reveal: None, ..self },
        }
    }

    /// With a tree node expanded or collapsed, and its children loaded if need be.
    #[verifier::opaque]
    pub open spec fn toggle_node(self, id: int) -> Desk {
        let i = index_of(self.nodes, id);
        if i < self.nodes.len() {
            let n = self.nodes[i];
            let d = Desk { nodes: toggled(self.nodes, i), ..self };
            if !n.expanded && n.children == Children::Unloaded {
                d.emit(
                    Act::LoadTreeChildren { id, place: n.place, show_hidden: self.show_hidden },
                )
            } else {
                d
            }
        } else {
            self
        }
    }

    /// With a fresh load token for the active tab.
    pub open spec fn next_load(self) -> Desk {
        let token = (self.next_token + 1) as u64;
        (Desk { next_token: token, ..self }).on(Sheet { load_token: token, ..self.sheet })
    }

    /// With no search running. One that was is superseded, so that whatever it still delivers
    /// is stale.
    pub open spec fn unsearched(self) -> Desk {
        Desk {
            search_active: None,
            search_token: if self.search_active is Some {
                bumped(self.search_token)
            } else {
                self.search_token
            },
            ..self
        }
    }

    /// What leaving the listing behind means: nothing is selected, and no search runs.
    pub open spec fn left_behind(self) -> Desk {
        (Desk { search_seq: bumped(self.search_seq), ..self.unsearched() }).on(
            Sheet {
                selection: Picked::none(),
                last_click: None,
                search_query: seq![],
                address: address_of(self.sheet.history.current),
                ..self.sheet
            },
        )
    }

    /// With a landing page empty until its items are there. A load that was under way is
    /// superseded.
    pub open spec fn landed(self, content: Shown, act: Act) -> Desk {
        let d = self.next_load();
        d.on(
            Sheet {
                content,
                rows: seq![],
                columns: fresh_layout(),
                load_pending: false,
                ..d.sheet
            },
        ).emit(act)
    }

    /// With the current place loading. A folder stays on show under the overlay until the
    /// next one is there.
    #[verifier::opaque]
    pub open spec fn load_current(self) -> Desk {
        let d = self.left_behind().scroll_to(0).reveal_current();
        match d.sheet.history.current {
            Place::ThisPc => d.landed(Shown::ThisPc(seq![]), Act::ListDrives),
            Place::Wsl => d.landed(Shown::Wsl(seq![]), Act::ListDistros),
            Place::Path(t) => {
                let n = d.next_load();
                let token = n.sheet.load_token;
                (Desk { overlay_loading: true, ..n }).on(
                    Sheet { load_pending: true, status: "Loading…"@, ..n.sheet },
                ).emit(Act::ReadDir { path: t, token })
            },
        }
    }

    /// At another place.
    #[verifier::opaque]
    pub open spec fn navigate(self, to: Place) -> Desk {
        self.on(Sheet { history: self.sheet.history.visited(to), ..self.sheet }).load_current()
    }

    // ------------------------------------------------------------ tabs

    /// The active tab as it is put aside: a search that was running counts as done.
    pub open spec fn parked_sheet(self) -> Sheet {
        match self.sheet.content {
            Shown::Search(r) => if self.search_active is Some {
                Sheet { content: Shown::Search(Results { done: true, ..r }), ..self.sheet }
            } else {
                self.sheet
            },
            _ => self.sheet,
        }
    }

    /// With another tab on top, which carries no running search.
    pub open spec fn adopt(self, sheet: Sheet) -> Desk {
        Desk { sheet, search_seq: bumped(self.search_seq), ..self.unsearched() }
    }

    /// With the active tab on screen: a load that was cut short is taken up again.
    #[verifier::opaque]
    pub open spec fn show_active(self) -> Desk {
        let d = self.unmenued();
        if d.sheet.load_pending {
            d.load_current()
        } else {
            d.reveal_current().scroll_to(d.sheet.scroll).begin_grid_session(false)
        }
    }

    /// With another tab active.
    #[verifier::opaque]
    pub open spec fn switch_tab(self, index: int) -> Desk {
        if index == self.active || index >= self.parked.len() {
            self
        } else {
            (Desk {
                parked: self.parked.update(self.active, Some(self.parked_sheet())).update(
                    index,
                    None,
                ),
                active: index,
                ..self
            }).adopt(self.parked[index]->0).show_active()
        }
    }

    /// With a new tab active.
    #[verifier::opaque]
    pub open spec fn new_tab(self, place: Place) -> Desk {
        (Desk {
            parked: self.parked.update(self.active, Some(self.parked_sheet())).push(None),
            active: self.parked.len() as int,
            menu: None,
            ..self
        }).adopt(fresh_sheet(place, self.sheet.view_mode)).load_current()
    }

    /// With the active tab closed; the one behind it takes its place, or else the last.
    pub open spec fn close_active(self) -> Desk {
        let rest = self.parked.remove(self.active);
        let next = crate::geometry::least(self.active, rest.len() - 1);
        (Desk { parked: rest.update(next, None), active: next, ..self }).adopt(
            rest[next]->0,
        ).show_active()
    }

    /// With a tab closed; the last one stays.
    #[verifier::opaque]
    pub open spec fn close_tab(self, index: int) -> Desk {
        if self.parked.len() <= 1 || index >= self.parked.len() {
            self
        } else if index == self.active {
            self.close_active()
        } else {
            Desk {
                parked: self.parked.remove(index),
                active: if index < self.active {
                    self.active - 1
                } else {
                    self.active
                },
                ..self
            }
        }
    }

    // ------------------------------------------------------------ search

    /// With search results dismissed.
    #[verifier::opaque]
    pub open spec fn clear_search(self) -> Desk {
        let d = self.unsearched().on(Sheet { search_query: seq![], ..self.sheet });
        if self.sheet.content is Search {
            d.load_current()
        } else {
            d
        }
    }

    /// With a search under way in the open folder.
    #[verifier::opaque]
    pub open spec fn begin_search(self) -> Desk {
        let query = trim(self.sheet.search_query);
        match self.sheet.dir() {
            None => self,
            Some(root) => {
                let token = bumped(self.search_token);
                let mode = self.sheet.search_mode;
                let d = (Desk {
                    menu: None,
                    search_token: token,
                    search_active: Some(Quest { token, root, query, mode }),
                    ..self
                }).on(
                    Sheet {
                        selection: Picked::none(),
                        last_click: None,
                        content: Shown::Search(
                            Results { root, query, mode, hits: seq![], done: false },
                        ),
                        ..self.sheet
                    },
                );
                d.recompute_rows().says("Searching…"@).scroll_to(0).begin_grid_session(false)
            },
        }
    }

    /// With the search box acted upon, if it asks for something else than is shown.
    #[verifier::opaque]
    pub open spec fn run_search_if_changed(self) -> Desk {
        let query = trim(self.sheet.search_query);
        if query.len() == 0 {
            if self.sheet.content is Search {
                self.clear_search()
            } else {
                self
            }
        } else if self.sheet.content matches Shown::Search(r) && r.query == query && r.mode
            == self.sheet.search_mode {
            self
        } else {
            self.begin_search()
        }
    }

    /// With more results.
    #[verifier::opaque]
    pub open spec fn search_batch(self, token: u64, hits: Seq<SearchHit>) -> Desk {
        if token != self.search_token {
            self
        } else {
            match self.sheet.content {
                Shown::Search(r) => {
                    let all = r.hits + hits;
                    self.on(
                        Sheet {
                            content: Shown::Search(Results { hits: all, done: false, ..r }),
                            ..self.sheet
                        },
                    ).recompute_rows().says(
                        found_text(all.len() as int),
                    ).request_icons().prefetch_thumbs(false)
                },
                _ => self,
            }
        }
    }

    /// With the search over.
    #[verifier::opaque]
    pub open spec fn search_finished(self, token: u64, capped: bool) -> Desk {
        if token != self.search_token {
            self
        } else {
            let d = Desk { search_active: None, ..self };
            match self.sheet.content {
                Shown::Search(r) => d.on(
                    Sheet { content: Shown::Search(Results { done: true, ..r }), ..self.sheet },
                ).says(
                    results_text(r.hits.len() as int, capped),
                ).request_icons().seed_background(),
                _ => d,
            }
        }
    }

    /// With the search given up.
    #[verifier::opaque]
    pub open spec fn search_failed(self, token: u64, error: Seq<char>) -> Desk {
        if token != self.search_token {
            self
        } else {
            let content = match self.sheet.content {
                Shown::Search(r) => Shown::Search(Results { done: true, ..r }),
                other => other,
            };
            (Desk { search_active: None, ..self }).on(
                Sheet { content, status: error, ..self.sheet },
            )
        }
    }

    // ------------------------------------------------------------ rows

    /// With a row opened: a container is gone into, a file opened.
    #[verifier::opaque]
    pub open spec fn activate(self, index: int) -> Desk {
        if index >= self.sheet.rows.len() {
            self
        } else {
            let row = self.sheet.rows[index];
            if row.is_container {
                self.navigate(row.target)
            } else {
                match row.target {
                    Place::Path(t) => self.emit(Act::Open(t)),
                    _ => self,
                }
            }
        }
    }

    /// With the focused row opened.
    #[verifier::opaque]
    pub open spec fn activate_lead(self) -> Desk {
        match self.sheet.selection.lead {
            Some(i) => self.activate(i as int),
            None => self,
        }
    }

    /// With a rename of any row but this one abandoned.
    pub open spec fn rename_left(self, index: usize) -> Desk {
        let renaming = match self.sheet.renaming {
            Some(r) => if r.index == index {
                Some(r)
            } else {
                None
            },
            None => None,
        };
        self.on(Sheet { renaming, ..self.sheet })
    }

    /// With a row selected by a plain click; a second one soon after the first opens it.
    #[verifier::opaque]
    pub open spec fn plain_click(self, index: usize, now: u64) -> Desk {
        let d = self.on(
            Sheet { selection: Picked::only(index), last_click: Some((index, now)), ..self.sheet },
        );
        if self.sheet.last_click matches Some((i, t)) && i == index && now - t < DOUBLE_CLICK {
            d.activate(index as int)
        } else {
            d
        }
    }

    /// With a row clicked: Shift extends, Ctrl toggles, and a second plain click soon after
    /// the first opens. A rename of another row is abandoned.
    #[verifier::opaque]
    pub open spec fn on_click(self, index: usize, now: u64) -> Desk {
        let d = self.rename_left(index);
        let s = d.sheet;
        if self.modifiers.shift {
            d.on(Sheet { selection: s.selection.ranged(index), last_click: None, ..s })
        } else if self.modifiers.command {
            d.on(Sheet { selection: s.selection.toggled(index), last_click: None, ..s })
        } else {
            d.plain_click(index, now)
        }
    }

    /// With the lead moved by a key.
    #[verifier::opaque]
    pub open spec fn move_selection(self, nav: Nav, extend: bool, focus_only: bool) -> Desk {
        let len = self.sheet.rows.len() as int;
        if len == 0 {
            self
        } else {
            let target = stepped(
                nav,
                self.sheet.selection.lead,
                len,
                page(self.viewport as int),
            ) as usize;
            let selection = if extend {
                self.sheet.selection.ranged(target)
            } else if focus_only {
                self.sheet.selection.focused(target)
            } else {
                Picked::only(target)
            };
            self.unmenued().on(
                Sheet { selection, renaming: None, last_click: None, ..self.sheet },
            ).ensure_visible(target as int)
        }
    }

    /// With the rows selected that lead to one of `paths`; with none to look for, what is
    /// selected stays.
    #[verifier::opaque]
    pub open spec fn restore_selection(self, paths: Seq<Seq<char>>) -> Desk {
        if paths.len() == 0 {
            self
        } else {
            let found = rows_at(self.sheet.rows, paths, self.sheet.rows.len() as int);
            let first = if found.len() > 0 {
                Some(found[0])
            } else {
                None
            };
            self.on(
                Sheet {
                    selection: Picked { items: found.to_set(), anchor: first, lead: first },
                    ..self.sheet
                },
            )
        }
    }

    /// With the rename of a folder that was just made begun, once it is listed.
    #[verifier::opaque]
    pub open spec fn begin_pending_rename(self) -> Desk {
        match self.sheet.pending_rename {
            None => self,
            Some((dir, name)) => if self.sheet.dir() is None || comps(self.sheet.dir()->0)
                != comps(dir) {
                self.on(Sheet { pending_rename: None, ..self.sheet })
            } else {
                match row_named(self.sheet.rows, name, 0) {
                    None => self,
                    Some(i) => self.on(
                        Sheet {
                            pending_rename: None,
                            selection: Picked::only(i as usize),
                            renaming: Some(Renaming { index: i as usize, value: name }),
                            ..self.sheet
                        },
                    ).ensure_visible(i).emit(Act::FocusRename).emit(Act::SelectRename),
                }
            },
        }
    }

    // ------------------------------------------------------------ loads

    /// With a listing in place.
    #[verifier::opaque]
    pub open spec fn listed(self, content: Shown) -> Desk {
        let d = self.on(Sheet { content, ..self.sheet }).recompute_rows();
        d.says(items_text(d.sheet.rows.len() as int))
    }

    /// With a landing page filled.
    #[verifier::opaque]
    pub open spec fn landing_loaded(self, content: Shown) -> Desk {
        self.listed(content).request_icons().begin_grid_session(true)
    }

    /// With the items of a landing page there, if the tab is still at that page.
    #[verifier::opaque]
    pub open spec fn arrived(self, place: Place, content: Shown) -> Desk {
        if self.sheet.history.current == place {
            self.landing_loaded(content)
        } else {
            self
        }
    }

    /// With the layout that is kept for the folder.
    pub open spec fn adopt_columns(self) -> Desk {
        self.on(Sheet { columns: self.kept_columns(), load_pending: false, ..self.sheet })
    }

    /// With a folder that could not be read: the error takes its place.
    pub open spec fn load_failed(self, error: Seq<char>) -> Desk {
        (Desk { overlay_loading: false, ..self }).on(
            Sheet {
                load_pending: false,
                status: error,
                content: Shown::Error(error),
                rows: seq![],
                ..self.sheet
            },
        )
    }

    /// With a folder read.
    #[verifier::opaque]
    pub open spec fn loaded(self, token: u64, result: Result<Vec<Entry>, String>) -> Desk {
        if token != self.sheet.load_token {
            self
        } else {
            match result {
                Ok(entries) => self.adopt_columns().listed(
                    Shown::Folder(entries@),
                ).request_icons().begin_grid_session(true).begin_pending_rename(),
                Err(error) => self.load_failed(error@),
            }
        }
    }

    /// With the open folder to be read again.
    #[verifier::opaque]
    pub open spec fn dir_changed(self) -> Desk {
        match self.sheet.dir() {
            Some(t) => {
                let d = self.next_load();
                d.emit(Act::RereadDir { path: t, token: d.sheet.load_token })
            },
            None => self,
        }
    }

    /// With the open folder read again: what was selected stays selected, and a load that was
    /// under way is fulfilled. A failed read leaves the view as it is; only, where it
    /// superseded a load, nothing is being read any more, and the overlay goes.
    #[verifier::opaque]
    pub open spec fn reloaded(self, token: u64, result: Result<Vec<Entry>, String>) -> Desk {
        if token != self.sheet.load_token {
            self
        } else {
            match result {
                Ok(entries) => {
                    let d = if self.sheet.load_pending {
                        self.adopt_columns()
                    } else {
                        self
                    };
                    let before = self.sheet.selected_paths();
                    let l = d.on(
                        Sheet { content: Shown::Folder(entries@), ..d.sheet },
                    ).recompute_rows().restore_selection(before);
                    l.says(
                        items_text(l.sheet.rows.len() as int),
                    ).request_icons().begin_grid_session(false).begin_pending_rename()
                },
                Err(_) => if self.sheet.load_pending {
                    Desk { overlay_loading: false, ..self }
                } else {
                    self
                },
            }
        }
    }

    // ------------------------------------------------------------ thumbnails

    /// With the outcome of a cache-only sweep. A superseded one only gives back its misses.
    /// Misses that have scrolled out of sight may be asked for again; the others are
    /// extracted, under the overlay when they open a session.
    #[verifier::opaque]
    pub open spec fn thumbs_cached(self, sweep: CacheSweep<u64>, token: u64, lock: bool) -> Desk {
        let d = Desk { thumbs: shelved(self.thumbs, sweep.hits@), ..self };
        let misses = thumb_names(sweep.misses@);
        if token != self.thumb_token {
            Desk { thumbs: d.thumbs.released(misses), ..d }
        } else {
            let near = match d.sheet.view_mode.thumb() {
                Some(px) => d.visible_thumbs(px),
                None => seq![],
            };
            let extract = partition(misses, near, true);
            let e = Desk { thumbs: d.thumbs.released(partition(misses, near, false)), ..d };
            if extract.len() == 0 {
                if lock {
                    e.seed_background()
                } else {
                    e
                }
            } else if lock {
                (Desk { overlay_loading: true, ..e }).emit(Act::ClearFocus).emit(
                    Act::ExtractThumbs { keys: extract, token, kind: ThumbKind::Lock },
                )
            } else {
                e.emit(Act::ExtractThumbs { keys: extract, token, kind: ThumbKind::Prefetch })
            }
        }
    }

    /// With thumbnails extracted. Those of the viewport lift the overlay and let the
    /// background begin; a background chunk is followed by the next.
    #[verifier::opaque]
    pub open spec fn thumbs_loaded(
        self,
        images: Seq<(ThumbKey, u64)>,
        token: u64,
        kind: ThumbKind,
    ) -> Desk {
        let d = Desk { thumbs: shelved(self.thumbs, images), ..self };
        if token != self.thumb_token {
            d
        } else {
            match kind {
                ThumbKind::Lock => (Desk { overlay_loading: false, ..d }).seed_background(),
                ThumbKind::Prefetch => d,
                ThumbKind::Background => d.next_background_chunk(),
            }
        }
    }

    // ------------------------------------------------------------ tree

    /// With the "This PC" node expanded or collapsed.
    #[verifier::opaque]
    pub open spec fn toggle_this_pc(self) -> Desk {
        match child_at_from(self.nodes, 0, Place::ThisPc, 1) {
            Some(k) => self.toggle_node(self.nodes[k].id),
            None => self,
        }
    }

    /// With the children of a tree node in place. With the top level there, "This PC" is
    /// opened.
    #[verifier::opaque]
    pub open spec fn tree_loaded(self, id: u64, children: Seq<TreeChild>) -> Desk {
        let i = index_of(self.nodes, id as int);
        let d = Desk {
            nodes: if i < self.nodes.len() {
                grafted(
                    self.nodes,
                    i,
                    numbered(flat_children(children, self.nodes[i].depth + 1), self.next_id),
                )
            } else {
                self.nodes
            },
            next_id: self.next_id + flat_children(children, 0).len(),
            ..self
        };
        let e = if id == ROOT_ID {
            d.toggle_this_pc()
        } else {
            d
        };
        e.drive_reveal().request_icons()
    }

    // ------------------------------------------------------------ operations

    /// With a file operation under way.
    pub open spec fn dispatch(self, label: Seq<char>, op: Op) -> Desk {
        self.unmenued().says(label + "…"@).emit(Act::Run(op))
    }

    /// With the selected paths put on the clipboard.
    #[verifier::opaque]
    pub open spec fn clip_selected(self, cut: bool) -> Desk {
        let paths = self.sheet.selected_paths();
        let verb = if cut {
            "Cut"@
        } else {
            "Copied"@
        };
        let d = self.unmenued();
        if paths.len() == 0 {
            d
        } else {
            (Desk { clip: Some(Clipped { paths, cut }), ..d }).says(
                counted(verb, paths.len() as int),
            )
        }
    }

    /// With the clipboard pasted into the open folder. Outside a folder nothing happens;
    /// the clipboard is emptied either way.
    #[verifier::opaque]
    pub open spec fn paste(self) -> Desk {
        let d = Desk { clip: None, menu: None, ..self };
        match (self.sheet.dir(), self.clip) {
            (Some(dir), Some(clip)) => if clip.cut {
                d.dispatch("Moving"@, Op::Move { paths: clip.paths, dir })
            } else {
                d.dispatch("Copying"@, Op::Copy { paths: clip.paths, dir })
            },
            _ => d,
        }
    }

    /// With the selected paths on their way to the recycle bin.
    #[verifier::opaque]
    pub open spec fn delete_selected(self) -> Desk {
        let paths = self.sheet.selected_paths();
        let d = self.unmenued();
        if paths.len() == 0 {
            d
        } else {
            d.dispatch(counted("Deleting"@, paths.len() as int), Op::Delete { paths })
        }
    }

    /// With a new folder being made, to be renamed once it is listed.
    #[verifier::opaque]
    pub open spec fn folder_named(self, dir: Seq<char>, name: Seq<char>) -> Desk {
        self.on(Sheet { pending_rename: Some((dir, name)), ..self.sheet }).dispatch(
            "New folder"@,
            Op::NewFolder { dir, name },
        )
    }

    /// With the focused row being renamed.
    #[verifier::opaque]
    pub open spec fn rename_start(self) -> Desk {
        let d = self.unmenued();
        if self.sheet.lead_path() is Some {
            let i = self.sheet.selection.lead->0;
            d.on(
                Sheet {
                    renaming: Some(
                        Renaming { index: i, value: self.sheet.rows[i as int].label },
                    ),
                    ..d.sheet
                },
            ).emit(Act::FocusRename)
        } else {
            d
        }
    }

    /// With the rename carried out, if it changes the name.
    #[verifier::opaque]
    pub open spec fn rename_commit(self) -> Desk {
        match self.sheet.renaming {
            None => self,
            Some(r) => {
                let d = self.on(Sheet { renaming: None, ..self.sheet });
                let name = trim(r.value);
                if r.index < self.sheet.rows.len() && name.len() > 0 && name
                    != self.sheet.rows[r.index as int].label {
                    match self.sheet.rows[r.index as int].target {
                        Place::Path(path) => d.dispatch("Renaming"@, Op::Rename { path, name }),
                        _ => d,
                    }
                } else {
                    d
                }
            },
        }
    }

    /// With the sort toggled or moved to another column.
    #[verifier::opaque]
    pub open spec fn sort_by(self, key: SortKey) -> Desk {
        let sort = if self.sort.key == key {
            Sort {
                order: match self.sort.order {
                    SortOrder::Ascending => SortOrder::Descending,
                    SortOrder::Descending => SortOrder::Ascending,
                },
                ..self.sort
            }
        } else {
            Sort { key, order: SortOrder::Ascending, ..self.sort }
        };
        let d = (Desk { sort, ..self }).recompute_rows();
        d.emit(Act::SaveSettings(d.settings())).prefetch_thumbs(false)
    }

    /// With hidden items shown or not.
    #[verifier::opaque]
    pub open spec fn set_hidden(self, value: bool) -> Desk {
        let d = (Desk { show_hidden: value, ..self }).recompute_rows();
        d.emit(Act::SaveSettings(d.settings())).request_icons().begin_grid_session(false)
    }

    /// With another view mode, from the top.
    #[verifier::opaque]
    pub open spec fn view_mode_changed(self, mode: ViewMode) -> Desk {
        if self.sheet.view_mode == mode {
            self
        } else {
            let d = self.on(Sheet { view_mode: mode, ..self.sheet });
            d.emit(Act::SaveSettings(d.settings())).scroll_to(0).begin_grid_session(true)
        }
    }

    /// With a column pinned to a width, which is kept for the open folder.
    #[verifier::opaque]
    pub open spec fn column_resized(self, col: Column, width: u32) -> Desk {
        let columns = self.sheet.columns.with(col, ColRule::Fixed(width));
        let d = self.on(Sheet { columns, ..self.sheet });
        match self.sheet.dir() {
            Some(t) => (Desk { columns: self.columns.insert(comps(t), columns), ..d }).emit(
                Act::SaveColumns,
            ),
            None => d,
        }
    }

    /// With a row right-clicked: outside the selection it is selected, within it gets the
    /// focus.
    #[verifier::opaque]
    pub open spec fn row_right_clicked(self, index: usize) -> Desk {
        let selection = if self.sheet.selection.items.contains(index) {
            self.sheet.selection.focused(index)
        } else {
            Picked::only(index)
        };
        (Desk { menu: Some(Menu { index: Some(index), at: self.cursor }), ..self }).on(
            Sheet { selection, last_click: None, ..self.sheet },
        )
    }

    /// With the focused folder open in a new tab.
    #[verifier::opaque]
    pub open spec fn open_in_new_tab(self) -> Desk {
        let d = self.unmenued();
        match self.sheet.selection.lead {
            Some(i) => if i < self.sheet.rows.len() && self.sheet.rows[i as int].is_container
                && self.sheet.rows[i as int].target is Path {
                d.new_tab(self.sheet.rows[i as int].target)
            } else {
                d
            },
            None => d,
        }
    }

    /// One step back.
    #[verifier::opaque]
    pub open spec fn go_back(self) -> Desk {
        if self.sheet.history.back.len() > 0 {
            self.on(
                Sheet { history: self.sheet.history.stepped_back(), ..self.sheet },
            ).load_current()
        } else {
            self
        }
    }

    /// One step forward.
    #[verifier::opaque]
    pub open spec fn go_forward(self) -> Desk {
        if self.sheet.history.forward.len() > 0 {
            self.on(
                Sheet { history: self.sheet.history.stepped_forward(), ..self.sheet },
            ).load_current()
        } else {
            self
        }
    }

    /// At the parent of the current place.
    #[verifier::opaque]
    pub open spec fn go_up(self) -> Desk {
        match parent_place(self.sheet.history.current) {
            Some(p) => self.navigate(p),
            None => self,
        }
    }

    /// With other text in the address bar.
    #[verifier::opaque]
    pub open spec fn address_changed(self, value: Seq<char>) -> Desk {
        self.on(Sheet { address: value, ..self.sheet })
    }

    /// With the search box edited: a live search is due after a pause.
    #[verifier::opaque]
    pub open spec fn search_changed(self, value: Seq<char>) -> Desk {
        let n = bumped(self.search_seq);
        (Desk { search_seq: n, ..self }).on(Sheet { search_query: value, ..self.sheet }).emit(
            Act::Debounce(n),
        )
    }

    /// With the pause over, unless there was more input.
    #[verifier::opaque]
    pub open spec fn search_debounced(self, n: u64) -> Desk {
        if n == self.search_seq {
            self.run_search_if_changed()
        } else {
            self
        }
    }

    /// With another search mode; results on show are searched for again.
    #[verifier::opaque]
    pub open spec fn search_mode_changed(self, mode: SearchMode) -> Desk {
        let d = self.on(Sheet { search_mode: mode, ..self.sheet });
        if self.sheet.content is Search {
            d.run_search_if_changed()
        } else {
            d
        }
    }

    /// With the search box submitted.
    #[verifier::opaque]
    pub open spec fn search_submit(self) -> Desk {
        (Desk { search_seq: bumped(self.search_seq), ..self }).run_search_if_changed()
    }

    /// With a context menu for the folder.
    #[verifier::opaque]
    pub open spec fn background_right_clicked(self) -> Desk {
        Desk { menu: Some(Menu { index: None, at: self.cursor }), ..self }
    }

    /// With neither a menu nor a rename.
    #[verifier::opaque]
    pub open spec fn close_menu(self) -> Desk {
        self.unmenued().on(Sheet { renaming: None, ..self.sheet })
    }

    /// With the cursor elsewhere.
    #[verifier::opaque]
    pub open spec fn cursor_moved(self, at: Spot) -> Desk {
        Desk { cursor: at, ..self }
    }

    /// With other modifier keys held.
    #[verifier::opaque]
    pub open spec fn modifiers_changed(self, modifiers: Modifiers) -> Desk {
        Desk { modifiers, ..self }
    }

    /// With the window resized.
    #[verifier::opaque]
    pub open spec fn window_resized(self, pane_w: u64, height: u64) -> Desk {
        (Desk { pane_w, viewport: list_height(height as int) as u64, ..self }).prefetch_thumbs(
            false,
        )
    }

    /// With the divider between tree and list moved.
    #[verifier::opaque]
    pub open spec fn pane_resized(self, pane_w: u64) -> Desk {
        (Desk { pane_w, ..self }).prefetch_thumbs(false)
    }

    /// With the list scrolled. Under the overlay nothing is fetched for it.
    #[verifier::opaque]
    pub open spec fn scrolled(self, offset: u64, height: u64) -> Desk {
        let d = (Desk { viewport: height, ..self }).on(Sheet { scroll: offset, ..self.sheet });
        if self.overlay_loading {
            d
        } else {
            d.prefetch_thumbs(false)
        }
    }

    /// With every row selected, in a real folder.
    #[verifier::opaque]
    pub open spec fn select_all(self) -> Desk {
        if self.sheet.dir() is Some {
            self.on(
                Sheet {
                    selection: self.sheet.selection.all(self.sheet.rows.len() as usize),
                    ..self.sheet
                },
            )
        } else {
            self
        }
    }

    /// With the focused row opened and no menu.
    #[verifier::opaque]
    pub open spec fn open_selected(self) -> Desk {
        self.unmenued().activate_lead()
    }

    /// With icons there.
    #[verifier::opaque]
    pub open spec fn icons_loaded(self, loaded: Seq<(IconKey, u64)>) -> Desk {
        Desk { icons: with_icons(self.icons, loaded), ..self }
    }

    /// With the spinner one frame further.
    #[verifier::opaque]
    pub open spec fn spinner_tick(self) -> Desk {
        Desk { spinner_frame: bumped(self.spinner_frame), ..self }
    }

    /// With the next tab active, the first after the last.
    #[verifier::opaque]
    pub open spec fn next_tab(self) -> Desk {
        if self.parked.len() > 1 {
            self.switch_tab((self.active + 1) % self.parked.len() as int)
        } else {
            self
        }
    }

    /// With the previous tab active, the last before the first.
    #[verifier::opaque]
    pub open spec fn prev_tab(self) -> Desk {
        if self.parked.len() > 1 {
            self.switch_tab((self.active + self.parked.len() - 1) % self.parked.len() as int)
        } else {
            self
        }
    }

    /// At the place of a tree node; being there already changes nothing but the menu.
    #[verifier::opaque]
    pub open spec fn tree_navigate(self, place: Place) -> Desk {
        let d = self.unmenued();
        if same_place(self.sheet.history.current, place) {
            d
        } else {
            d.navigate(place)
        }
    }

    /// With a name being looked for, for a new folder.
    #[verifier::opaque]
    pub open spec fn new_folder(self) -> Desk {
        let d = self.unmenued();
        match self.sheet.dir() {
            Some(t) => d.emit(Act::NameFolder(t)),
            None => d,
        }
    }

    /// With other text in the rename field.
    #[verifier::opaque]
    pub open spec fn rename_changed(self, value: Seq<char>) -> Desk {
        match self.sheet.renaming {
            Some(r) => self.on(
                Sheet { renaming: Some(Renaming { value, ..r }), ..self.sheet },
            ),
            None => self,
        }
    }

    /// With a file operation over: the folder is read again, or the error said.
    #[verifier::opaque]
    pub open spec fn op_finished(self, result: Result<(), String>) -> Desk {
        match result {
            Ok(_) => self.load_current(),
            Err(error) => self.says(error@),
        }
    }

    /// What an event does when nothing holds it back.
    pub open spec fn acted(self, message: Message) -> Desk {
        match message {
            Message::GoBack => self.go_back(),
            Message::GoForward => self.go_forward(),
            Message::GoUp => self.go_up(),
            Message::Refresh => self.load_current(),
            Message::AddressChanged(value) => self.address_changed(value@),
            Message::AddressSubmit => self.navigate(parse_place(self.sheet.address)),
            Message::SetHidden(value) => self.set_hidden(value),
            Message::SortBy(key) => self.sort_by(key),
            Message::SearchChanged(value) => self.search_changed(value@),
            Message::SearchDebounced(n) => self.search_debounced(n),
            Message::SearchModeChanged(mode) => self.search_mode_changed(mode),
            Message::SearchSubmit => self.search_submit(),
            Message::SearchClear => self.clear_search(),
            Message::SearchBatch { token, hits } => self.search_batch(token, hits@),
            Message::SearchFinished { token, capped } => self.search_finished(token, capped),
            Message::SearchFailed { token, error } => self.search_failed(token, error@),
            Message::RowClicked { index, now } => self.on_click(index, now),
            Message::RowRightClicked(index) => self.row_right_clicked(index),
            Message::BackgroundRightClicked => self.background_right_clicked(),
            Message::CloseMenu => self.close_menu(),
            Message::CursorMoved(at) => self.cursor_moved(at),
            Message::ModifiersChanged(modifiers) => self.modifiers_changed(modifiers),
            Message::WindowResized { pane_w, height } => self.window_resized(pane_w, height),
            Message::Scrolled { offset, height } => self.scrolled(offset, height),
            Message::MoveSelection(nav, extend, focus_only) => self.move_selection(
                nav,
                extend,
                focus_only,
            ),
            Message::SelectAll => self.select_all(),
            Message::Activate => self.open_selected(),
            Message::ThisPcLoaded(drives) => self.arrived(
                Place::ThisPc,
                Shown::ThisPc(drives@),
            ),
            Message::WslLoaded(distros) => self.arrived(
                Place::Wsl,
                Shown::Wsl(distros@),
            ),
            Message::Loaded(token, result) => self.loaded(token, result),
            Message::DirChanged => self.dir_changed(),
            Message::Reloaded(token, result) => self.reloaded(token, result),
            Message::IconsLoaded(loaded) => self.icons_loaded(loaded@),
            Message::ViewModeChanged(mode) => self.view_mode_changed(mode),
            Message::ThumbsCached { sweep, token, lock } => self.thumbs_cached(sweep, token, lock),
            Message::ThumbsLoaded { images, token, kind } => self.thumbs_loaded(
                images@,
                token,
                kind,
            ),
            Message::SpinnerTick => self.spinner_tick(),
            Message::Noop => self,
            Message::NewTab => self.new_tab(Place::ThisPc),
            Message::OpenInNewTab => self.open_in_new_tab(),
            Message::SelectTab(index) => self.switch_tab(index as int),
            Message::CloseTab(index) => self.close_tab(index as int),
            Message::CloseActiveTab => self.close_tab(self.active),
            Message::NextTab => self.next_tab(),
            Message::PrevTab => self.prev_tab(),
            Message::TreeToggle(id) => self.toggle_node(id as int),
            Message::TreeNavigate(location) => self.tree_navigate(location@),
            Message::TreeChildrenLoaded(id, result) => self.tree_loaded(id, children_of(result)),
            Message::PaneResized { pane_w } => self.pane_resized(pane_w),
            Message::ColumnResized(col, width) => self.column_resized(col, width),
            Message::OpenSelected => self.open_selected(),
            Message::NewFolder => self.new_folder(),
            Message::FolderNamed { dir, name } => self.folder_named(dir@, name@),
            Message::DeleteSelected => self.delete_selected(),
            Message::Copy => self.clip_selected(false),
            Message::Cut => self.clip_selected(true),
            Message::Paste => self.paste(),
            Message::RenameStart => self.rename_start(),
            Message::RenameChanged(value) => self.rename_changed(value@),
            Message::RenameCommit => self.rename_commit(),
            Message::OpFinished(result) => self.op_finished(result),
        }
    }

    /// What an event does. Under the loading overlay, keyboard commands and edits of text
    /// fields do nothing.
    pub open spec fn handled(self, message: Message) -> Desk {
        if self.overlay_loading && (commands(message) || edits(message)) {
            self
        } else {
            self.acted(message)
        }
    }
}

} // verus!
