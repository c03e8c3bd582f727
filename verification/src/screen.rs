//! What the window says and offers.

use crate::assoc::Spelled;
use crate::browsing::{
    heads_for, law_back_leads_to_the_place_before, law_forward_leads_to_the_place_after,
    law_up_goes_to_the_parent,
};
use crate::desk::{thumb_of, Desk, Menu, Sheet, Shown};
use crate::geometry::{
    columns_in, covering, grid_columns, grid_rows, tile_height, tile_units, visible_window,
    window, window_for, GRID_OVERSCAN_ROWS, OVERSCAN, ROW_HEIGHT,
};
use crate::librarian::{thumb_key, Content, Librarian};
use crate::message::Message;
use crate::model::{parent_place, Location, Place};
use crate::rows::{human_size, row_data, size_text, Row, RowData};
use crate::search::SearchMode;
use crate::sort::{Sort, SortKey, SortOrder};
use crate::text::{decimal, decimal_string};
use crate::thumbs::ThumbName;
use crate::time::format_time;
use vstd::prelude::*;

verus! {

// ---------------------------------------------------------------- status line

/// How many bytes the rows below `n` that are among `items` have.
pub open spec fn bytes_at(rows: Seq<RowData>, items: Set<usize>, n: int) -> int
    decreases n,
{
    if n <= 0 {
        0
    } else {
        bytes_at(rows, items, n - 1) + if items.contains((n - 1) as usize) {
            match rows[n - 1].size {
                Some(b) => b as int,
                None => 0,
            }
        } else {
            0
        }
    }
}

/// How many bytes the selected rows have.
pub open spec fn bytes_selected(s: Sheet) -> int {
    bytes_at(s.rows, s.selection.items, s.rows.len() as int)
}

/// What the status line says of the selection.
pub open spec fn selection_text(s: Sheet) -> Seq<char> {
    let n = s.selection.items.len();
    let said = "  •  "@ + decimal(n) + " selected"@;
    if n == 0 {
        seq![]
    } else if bytes_selected(s) > 0 {
        said + " ("@ + size_text(bytes_selected(s) as u64) + seq![')']
    } else {
        said
    }
}

proof fn lemma_bytes_grow(rows: Seq<RowData>, items: Set<usize>, m: int, n: int)
    requires
        0 <= m <= n,
    ensures
        0 <= bytes_at(rows, items, m) <= bytes_at(rows, items, n),
    decreases n,
{
    if m < n {
        lemma_bytes_grow(rows, items, m, n - 1);
    } else if n > 0 {
        lemma_bytes_grow(rows, items, m - 1, m - 1);
    }
}

impl Librarian {
    /// How many bytes the selected rows have, if the number can be held.
    pub fn selected_bytes(&self) -> (r: Option<u64>)
        requires
            self.wf(),
        ensures
            match r {
                Some(b) => b == bytes_selected(self@.sheet),
                None => bytes_selected(self@.sheet) > u64::MAX,
            },
    {
        let mut sum: u64 = 0;
        let ghost rows = self@.sheet.rows;
        let ghost items = self@.sheet.selection.items;
        for i in 0..self.tab.rows.len()
            invariant
                self.wf(),
                rows == row_data(self.tab.rows@),
                items == self.tab.selection@.items,
                sum == bytes_at(rows, items, i as int),
        {
            assert(rows[i as int] == self.tab.rows@[i as int]@);
            if self.tab.selection.contains(i) {
                if let Some(b) = self.tab.rows[i].size {
                    if b > u64::MAX - sum {
                        proof {
                            lemma_bytes_grow(rows, items, i + 1, rows.len() as int);
                        }
                        return None;
                    }
                    sum = sum + b;
                }
            }
        }
        Some(sum)
    }

    /// The status line: what was said last, and how much is selected.
    pub fn status_line(&self) -> (r: String)
        requires
            self.wf(),
            bytes_selected(self@.sheet) <= u64::MAX,
        ensures
            r@ == self@.sheet.status + selection_text(self@.sheet),
    {
        let mut s = self.tab.status.clone();
        let count: usize = self.tab.selection.len();
        if count > 0 {
            s.append("  •  ");
            s.append(&decimal_string(count as u64));
            s.append(" selected");
            let bytes: u64 = match self.selected_bytes() {
                Some(b) => b,
                None => 0,
            };
            if bytes > 0 {
                s.append(" (");
                s.append(&human_size(bytes));
                s.push(')');
            }
        }
        assert(s@ =~= self@.sheet.status + selection_text(self@.sheet));
        s
    }
}

// ---------------------------------------------------------------- empty list

/// What is said where there are no rows.
pub open spec fn empty_text(s: Sheet) -> Seq<char> {
    if s.load_pending {
        "Loading…"@
    } else {
        match s.content {
            Shown::Search(r) => if !r.done {
                "Searching for “"@ + r.query + "”…"@
            } else if r.mode == SearchMode::Name {
                "No file names match “"@ + r.query + "”"@
            } else {
                "No files contain “"@ + r.query + "”"@
            },
            Shown::Error(e) => e,
            _ => "Empty"@,
        }
    }
}

impl Librarian {
    /// What is said where there are no rows.
    pub fn empty_list_message(&self) -> (r: String)
        ensures
            r@ == empty_text(self@.sheet),
    {
        if self.tab.load_pending {
            return "Loading…".to_string();
        }
        match &self.tab.content {
            Content::Search { query, mode, done, .. } => {
                let mut s = if !*done {
                    "Searching for “".to_string()
                } else if *mode == SearchMode::Name {
                    "No file names match “".to_string()
                } else {
                    "No files contain “".to_string()
                };
                s.append(query);
                if *done {
                    s.append("”");
                } else {
                    s.append("”…");
                }
                s
            },
            Content::Error(e) => e.clone(),
            _ => "Empty".to_string(),
        }
    }
}

// ---------------------------------------------------------------- commands

/// Which buttons of the command bar can be pressed.
#[derive(Debug, Clone, Copy, PartialEq, Eq, Structural)]
pub struct CommandBar {
    pub new_folder: bool,
    pub rename: bool,
    pub delete: bool,
    pub copy: bool,
    pub cut: bool,
    pub paste: bool,
}

/// Which buttons of the command bar can be pressed: what works on the selection needs one,
/// renaming needs exactly one row, and everything needs a real folder.
pub open spec fn offered(d: Desk) -> CommandBar {
    let in_folder = d.sheet.dir() is Some;
    let any = in_folder && d.sheet.selection.items != Set::<usize>::empty();
    CommandBar {
        new_folder: in_folder,
        rename: in_folder && d.sheet.selection.items.len() == 1 && d.sheet.lead_path() is Some,
        delete: any,
        copy: any,
        cut: any,
        paste: in_folder && d.clip is Some,
    }
}

/// An entry of the context menu.
#[derive(Debug, Clone, Copy, PartialEq, Eq, Structural)]
pub enum MenuItem {
    Open,
    OpenInNewTab,
    Cut,
    Copy,
    Rename,
    Delete,
    Paste,
    NewFolder,
}

/// The entries of a context menu, from the top.
pub open spec fn menu_of(d: Desk, menu: Menu) -> Seq<MenuItem> {
    let in_folder = d.sheet.dir() is Some;
    let on_item = in_folder && menu.index is Some;
    let on_folder = menu.index matches Some(i) && i < d.sheet.rows.len()
        && d.sheet.rows[i as int].is_container;
    let open = if on_item {
        seq![MenuItem::Open]
    } else {
        seq![]
    };
    let tab = if on_item && on_folder {
        seq![MenuItem::OpenInNewTab]
    } else {
        seq![]
    };
    let edit = if on_item {
        seq![MenuItem::Cut, MenuItem::Copy, MenuItem::Rename, MenuItem::Delete]
    } else {
        seq![]
    };
    let paste = if in_folder && d.clip is Some {
        seq![MenuItem::Paste]
    } else {
        seq![]
    };
    let folder = if in_folder {
        seq![MenuItem::NewFolder]
    } else {
        seq![]
    };
    open + tab + edit + paste + folder
}

impl Librarian {
    /// Which buttons of the command bar can be pressed.
    pub fn command_bar(&self) -> (r: CommandBar)
        requires
            self.wf(),
        ensures
            r == offered(self@),
    {
        let in_folder: bool = self.tab.current_dir().is_some();
        let any: bool = in_folder && !self.tab.selection.is_empty();
        let single: bool = self.tab.selection.len() == 1;
        CommandBar {
            new_folder: in_folder,
            rename: in_folder && single && self.tab.lead_path().is_some(),
            delete: any,
            copy: any,
            cut: any,
            paste: in_folder && self.clip.is_some(),
        }
    }

    /// The entries of a context menu, from the top; none where nothing applies.
    pub fn menu_items(&self, menu: &Menu) -> (r: Vec<MenuItem>)
        ensures
            r@ == menu_of(self@, *menu),
    {
        let in_folder: bool = self.tab.current_dir().is_some();
        let mut items: Vec<MenuItem> = Vec::new();
        if in_folder {
            if let Some(i) = menu.index {
                items.push(MenuItem::Open);
                if i < self.tab.rows.len() {
                    assert(self@.sheet.rows[i as int] == self.tab.rows@[i as int]@);
                    if self.tab.rows[i].is_container {
                        items.push(MenuItem::OpenInNewTab);
                    }
                }
                items.push(MenuItem::Cut);
                items.push(MenuItem::Copy);
                items.push(MenuItem::Rename);
                items.push(MenuItem::Delete);
            }
            if self.clip.is_some() {
                items.push(MenuItem::Paste);
            }
            items.push(MenuItem::NewFolder);
        }
        assert(items@ =~= menu_of(self@, *menu));
        items
    }

    /// Which parts of the toolbar can be used.
    pub fn toolbar(&self) -> (r: Toolbar)
        ensures
            r == toolbar_of(self@),
    {
        Toolbar {
            back: self.tab.history.can_go_back(),
            forward: self.tab.history.can_go_forward(),
            up: self.tab.history.current.parent().is_some(),
            search: self.tab.current_dir().is_some(),
            clear: matches!(self.tab.content, Content::Search { .. }),
        }
    }
}

/// Which parts of the toolbar can be used.
#[derive(Debug, Clone, Copy, PartialEq, Eq, Structural)]
pub struct Toolbar {
    pub back: bool,
    pub forward: bool,
    pub up: bool,
    pub search: bool,
    /// Whether search results are on show, to be dismissed.
    pub clear: bool,
}

/// Which parts of the toolbar can be used: a search needs a real folder.
pub open spec fn toolbar_of(d: Desk) -> Toolbar {
    Toolbar {
        back: d.sheet.history.back.len() > 0,
        forward: d.sheet.history.forward.len() > 0,
        up: parent_place(d.sheet.history.current) is Some,
        search: d.sheet.dir() is Some,
        clear: d.sheet.content is Search,
    }
}

// ---------------------------------------------------------------- rows and tiles

/// How a row or a tile looks.
#[derive(Debug, Clone, Copy, PartialEq, Eq, Structural)]
pub struct Face {
    /// Its icon or thumbnail, once it is there.
    pub image: Option<u64>,
    /// Whether its name is being edited.
    pub editing: bool,
    pub selected: bool,
    pub lead: bool,
}

/// The value at a key, if there is one.
pub open spec fn held<K>(m: Map<K, u64>, k: K) -> Option<u64> {
    if m.contains_key(k) {
        Some(m[k])
    } else {
        None
    }
}

/// How row `i` looks with the given image.
pub open spec fn face(d: Desk, i: int, image: Option<u64>) -> Face {
    Face {
        image,
        editing: d.sheet.renaming matches Some(r) && r.index == i,
        selected: d.sheet.selection.items.contains(i as usize),
        lead: d.sheet.selection.lead == Some(i as usize),
    }
}

/// How row `i` of the details list looks.
pub open spec fn row_look(d: Desk, i: int) -> Face {
    face(d, i, held(d.icons, d.sheet.rows[i].icon.id()))
}

/// How tile `i` of a grid looks at a thumbnail size.
pub open spec fn tile_look(d: Desk, i: int, px: u16) -> Face {
    face(
        d,
        i,
        match thumb_of(d.sheet.rows[i], px) {
            Some(name) => held(d.thumbs.handles, name.id()),
            None => None,
        },
    )
}

/// The part of a grid to build: its columns and tile rows, and the tile rows from `start` to
/// `end`.
#[derive(Debug, Clone, Copy, PartialEq, Eq, Structural)]
pub struct GridWindow {
    pub columns: u64,
    pub rows: usize,
    pub start: usize,
    pub end: usize,
}

/// Whether `w` is the part of a grid to build for a pane of the given size.
pub open spec fn is_grid_window(d: Desk, pane_w: int, pane_h: int, w: GridWindow) -> bool {
    &&& w.columns == columns_in(pane_w, d.sheet.view_mode)
    &&& w.rows == covering(d.sheet.rows.len() as int, w.columns as int)
    &&& (w.start as int, w.end as int) == window(
        d.sheet.scroll as int,
        pane_h,
        w.rows as int,
        tile_height(d.sheet.view_mode),
        GRID_OVERSCAN_ROWS as int,
    )
}

/// The tile in a row and column of a grid, if there is one.
pub fn tile_at(row: usize, column: u64, columns: u64, total: usize) -> (r: Option<usize>)
    ensures
        match r {
            Some(i) => i == row * columns + column && i < total,
            None => row * columns + column >= total,
        },
{
    proof {
        assert(0 <= row * columns && row * columns <= 0xFFFF_FFFF_FFFF_FFFF * 0xFFFF_FFFF_FFFF_FFFF) by (
        nonlinear_arith)
            requires
                0 <= row <= 0xFFFF_FFFF_FFFF_FFFF,
                0 <= columns <= 0xFFFF_FFFF_FFFF_FFFF,
        ;
    }
    let base: u128 = (row as u128) * (columns as u128);
    let i: u128 = base + column as u128;
    if i < total as u128 {
        Some(i as usize)
    } else {
        None
    }
}

impl Librarian {
    fn is_editing(&self, index: usize) -> (r: bool)
        ensures
            r == (self@.sheet.renaming matches Some(x) && x.index == index),
    {
        match &self.tab.renaming {
            Some(x) => x.index == index,
            None => false,
        }
    }

    /// How a row of the details list looks.
    pub fn row_face(&self, index: usize) -> (r: Face)
        requires
            self.wf(),
            index < self.tab.rows@.len(),
        ensures
            r == row_look(self@, index as int),
    {
        assert(self@.sheet.rows[index as int] == self.tab.rows@[index as int]@);
        let image: Option<u64> = match self.icons.get(&self.tab.rows[index].icon) {
            Some(h) => Some(*h),
            None => None,
        };
        Face {
            image,
            editing: self.is_editing(index),
            selected: self.tab.selection.contains(index),
            lead: self.tab.selection.lead() == Some(index),
        }
    }

    /// How a tile of a grid looks at a thumbnail size.
    pub fn tile_face(&self, index: usize, px: u16) -> (r: Face)
        requires
            self.wf(),
            index < self.tab.rows@.len(),
        ensures
            r == tile_look(self@, index as int, px),
    {
        assert(self@.sheet.rows[index as int] == self.tab.rows@[index as int]@);
        let image: Option<u64> = match thumb_key(&self.tab.rows[index], px) {
            Some(key) => match self.thumbs.get(&key) {
                Some(h) => Some(*h),
                None => None,
            },
            None => None,
        };
        Face {
            image,
            editing: self.is_editing(index),
            selected: self.tab.selection.contains(index),
            lead: self.tab.selection.lead() == Some(index),
        }
    }

    /// The part of the grid to build for a pane of the given size.
    pub fn grid_window(&self, pane_w: u64, pane_h: u64) -> (r: GridWindow)
        ensures
            is_grid_window(self@, pane_w as int, pane_h as int, r),
            r.columns >= 1,
            r.start <= r.end <= r.rows,
    {
        let mode = self.tab.view_mode;
        let columns: u64 = grid_columns(pane_w, mode);
        let rows: usize = grid_rows(self.tab.rows.len(), columns);
        let (_, h) = tile_units(mode);
        let (start, end) = window_for(self.tab.scroll, pane_h, rows, h, GRID_OVERSCAN_ROWS);
        GridWindow { columns, rows, start, end }
    }

    /// The rows of the details list to build.
    pub fn list_window(&self) -> (r: (usize, usize))
        ensures
            (r.0 as int, r.1 as int) == window(
                self@.sheet.scroll as int,
                self@.viewport as int,
                self@.sheet.rows.len() as int,
                ROW_HEIGHT as int,
                OVERSCAN as int,
            ),
            r.0 <= r.1 <= self@.sheet.rows.len(),
    {
        visible_window(self.tab.scroll, self.viewport, self.tab.rows.len())
    }
}

/// Every tile has its place in the grid: no more and no fewer tile rows are needed than
/// there are.
pub proof fn law_every_tile_has_a_place(total: int, columns: int, i: int)
    requires
        columns >= 1,
        0 <= i < total,
    ensures
        0 <= i / columns < covering(total, columns),
        (i / columns) * columns + i % columns == i,
        (covering(total, columns) - 1) * columns < total,
{
    let rows = covering(total, columns);
    assert(i / columns < rows && i / columns >= 0) by (nonlinear_arith)
        requires
            columns >= 1,
            0 <= i < total,
            rows == (total + columns - 1) / columns,
    ;
    assert((i / columns) * columns + i % columns == i) by (nonlinear_arith)
        requires
            columns >= 1,
    ;
    assert((rows - 1) * columns < total) by (nonlinear_arith)
        requires
            columns >= 1,
            total > 0,
            rows == (total + columns - 1) / columns,
    ;
}

/// A context menu offers to rename and delete only where it is for a row of a real folder.
pub proof fn law_menu_touches_only_rows_of_folders(d: Desk, menu: Menu)
    requires
        menu_of(d, menu).contains(MenuItem::Rename) || menu_of(d, menu).contains(
            MenuItem::Delete,
        ),
    ensures
        d.sheet.dir() is Some,
        menu.index is Some,
{
    if d.sheet.dir() is None {
        assert(menu_of(d, menu) =~= seq![]);
    } else if menu.index is None {
        let m = menu_of(d, menu);
        assert forall|k: int| 0 <= k < m.len() implies m[k] == MenuItem::Paste || m[k]
            == MenuItem::NewFolder by {}
    }
}

// ---------------------------------------------------------------- headings

/// What a column heading says: its label, with an arrow where the list is sorted by it.
pub open spec fn heading_text(label: Seq<char>, key: SortKey, sort: Sort) -> Seq<char> {
    if sort.key == key {
        match sort.order {
            SortOrder::Ascending => label + " ▲"@,
            SortOrder::Descending => label + " ▼"@,
        }
    } else {
        label
    }
}

/// What a column heading says.
pub fn heading(label: &str, key: SortKey, sort: Sort) -> (r: String)
    ensures
        r@ == heading_text(label@, key, sort),
{
    let mut s = label.to_string();
    if sort.key == key {
        match sort.order {
            SortOrder::Ascending => {
                s.append(" ▲");
            },
            SortOrder::Descending => {
                s.append(" ▼");
            },
        }
    }
    s
}

/// The size cell of a row; empty where it has no size.
pub fn size_cell(row: &Row) -> (r: String)
    ensures
        r@ == (match row.size {
            Some(b) => size_text(b),
            None => seq![],
        }),
{
    match row.size {
        Some(b) => human_size(b),
        None => {
            let s = String::new();
            assert(s@ =~= seq![]);
            s
        },
    }
}

/// The date cell of a row; empty where it has no date.
pub fn modified_cell(row: &Row) -> (r: String)
    ensures
        row.modified is None ==> r@ == Seq::<char>::empty(),
        row.modified matches Some(t) ==> crate::time::is_local_time(r@, t),
{
    match row.modified {
        Some(t) => format_time(t),
        None => {
            let s = String::new();
            assert(s@ =~= seq![]);
            s
        },
    }
}

/// The spinner's glyph for a frame: a half-filled disc that turns.
pub open spec fn spinner_text(frame: u64) -> Seq<char> {
    if frame % 4 == 0 {
        "◐"@
    } else if frame % 4 == 1 {
        "◓"@
    } else if frame % 4 == 2 {
        "◑"@
    } else {
        "◒"@
    }
}

/// The spinner's glyph for a frame.
pub fn spinner_glyph(frame: u64) -> (r: &'static str)
    ensures
        r@ == spinner_text(frame),
{
    match frame % 4 {
        0 => "◐",
        1 => "◓",
        2 => "◑",
        _ => "◒",
    }
}

/// Whether a divider stands above a row of the tree: above "This PC", unless it is first.
pub fn divider_above(index: usize, location: &Location) -> (r: bool)
    ensures
        r == (index > 0 && location@ is ThisPc),
{
    index > 0 && matches!(location, Location::ThisPc)
}

/// What is selected adds up: nothing has no bytes, and one more row adds its own size.
pub proof fn law_selected_bytes_add_up(rows: Seq<RowData>, items: Set<usize>, i: int)
    requires
        0 <= i < rows.len(),
        rows.len() <= usize::MAX,
        !items.contains(i as usize),
    ensures
        bytes_at(rows, Set::empty(), rows.len() as int) == 0,
        bytes_at(rows, items.insert(i as usize), rows.len() as int) == bytes_at(
            rows,
            items,
            rows.len() as int,
        ) + match rows[i].size {
            Some(b) => b as int,
            None => 0,
        },
{
    lemma_no_bytes(rows, rows.len() as int);
    lemma_more_bytes(rows, items, i, rows.len() as int);
}

proof fn lemma_no_bytes(rows: Seq<RowData>, n: int)
    ensures
        bytes_at(rows, Set::empty(), n) == 0,
    decreases n,
{
    if n > 0 {
        lemma_no_bytes(rows, n - 1);
    }
}

proof fn lemma_more_bytes(rows: Seq<RowData>, items: Set<usize>, i: int, n: int)
    requires
        0 <= i < rows.len(),
        0 <= n <= rows.len(),
        rows.len() <= usize::MAX,
        !items.contains(i as usize),
    ensures
        bytes_at(rows, items.insert(i as usize), n) == bytes_at(rows, items, n) + if i < n {
            match rows[i].size {
                Some(b) => b as int,
                None => 0,
            }
        } else {
            0
        },
    decreases n,
{
    if n > 0 {
        lemma_more_bytes(rows, items, i, n - 1);
    }
}

/// The status line tells of the selection: nothing without one, and otherwise how many rows are
/// selected and, where they have any, how many bytes.
pub proof fn law_status_tells_of_the_selection(s: Sheet)
    ensures
        s.selection.items.len() == 0 ==> selection_text(s).len() == 0,
        s.selection.items.len() > 0 && bytes_selected(s) <= 0 ==> selection_text(s) == "  •  "@
            + decimal(s.selection.items.len()) + " selected"@,
        s.selection.items.len() > 0 && bytes_selected(s) > 0 ==> selection_text(s) == "  •  "@
            + decimal(s.selection.items.len()) + " selected"@ + " ("@ + size_text(
            bytes_selected(s) as u64,
        ) + seq![')'],
{
}

/// A button of the toolbar that cannot be pressed would do nothing, and one that can leads
/// somewhere.
pub proof fn law_toolbar_offers_what_works(d: Desk)
    requires
        d.next_token < u64::MAX,
        !d.overlay_loading,
    ensures
        !toolbar_of(d).back ==> d.handled(Message::GoBack) == d,
        toolbar_of(d).back ==> heads_for(
            d,
            d.handled(Message::GoBack),
            d.sheet.history.back.last(),
        ),
        !toolbar_of(d).forward ==> d.handled(Message::GoForward) == d,
        toolbar_of(d).forward ==> heads_for(
            d,
            d.handled(Message::GoForward),
            d.sheet.history.forward.last(),
        ),
        toolbar_of(d).up <==> d.sheet.history.current is Path,
        !toolbar_of(d).up ==> d.handled(Message::GoUp) == d,
        toolbar_of(d).search <==> d.sheet.history.current is Path,
        toolbar_of(d).clear <==> d.sheet.content is Search,
{
    law_back_leads_to_the_place_before(d);
    law_forward_leads_to_the_place_after(d);
    law_up_goes_to_the_parent(d);
    crate::model::law_going_up_ends(d.sheet.history.current);
}

/// The command bar offers what applies: everything only in a real folder, what works on the
/// selection only with one, renaming only one row, which has a path, and pasting only what was
/// cut or copied.
pub proof fn law_command_bar_offers_what_applies(d: Desk)
    ensures
        ({
            let s = d.sheet;
            let here = s.history.current is Path;
            let any = exists|i: usize| s.selection.items.contains(i);
            &&& offered(d).new_folder <==> here
            &&& offered(d).delete <==> here && any
            &&& offered(d).copy <==> here && any
            &&& offered(d).cut <==> here && any
            &&& offered(d).paste <==> here && d.clip is Some
            &&& offered(d).rename <==> here && s.selection.items.len() == 1 && (
            s.selection.lead matches Some(i) && i < s.rows.len() && s.rows[i as int].target is Path)
        }),
{
    let items = d.sheet.selection.items;
    if forall|i: usize| !items.contains(i) {
        assert(items =~= Set::<usize>::empty());
    }
}

/// A context menu offers what applies: a row can be opened, cut, copied, renamed and deleted,
/// and a folder's row opened in a new tab; what was cut or copied can be pasted; and a folder
/// can be made. On a landing page nothing is offered.
pub proof fn law_menu_offers_what_applies(d: Desk, menu: Menu)
    ensures
        ({
            let m = menu_of(d, menu);
            let here = d.sheet.history.current is Path;
            let row = here && menu.index is Some;
            let folder = row && menu.index->0 < d.sheet.rows.len()
                && d.sheet.rows[menu.index->0 as int].is_container;
            &&& !here ==> m.len() == 0
            &&& m.no_duplicates()
            &&& m.contains(MenuItem::Open) <==> row
            &&& m.contains(MenuItem::OpenInNewTab) <==> folder
            &&& m.contains(MenuItem::Cut) <==> row
            &&& m.contains(MenuItem::Copy) <==> row
            &&& m.contains(MenuItem::Rename) <==> row
            &&& m.contains(MenuItem::Delete) <==> row
            &&& m.contains(MenuItem::Paste) <==> here && d.clip is Some
            &&& m.contains(MenuItem::NewFolder) <==> here
            &&& row ==> m[0] == MenuItem::Open
            &&& here ==> m.last() == MenuItem::NewFolder
        }),
{
    let m = menu_of(d, menu);
    let here = d.sheet.history.current is Path;
    let row = here && menu.index is Some;
    let folder = row && menu.index->0 < d.sheet.rows.len()
        && d.sheet.rows[menu.index->0 as int].is_container;
    let paste = here && d.clip is Some;
    let a: int = if row {
        1
    } else {
        0
    };
    let b: int = if folder {
        a + 1
    } else {
        a
    };
    let c: int = if row {
        b + 4
    } else {
        b
    };
    let e: int = if paste {
        c + 1
    } else {
        c
    };
    if row {
        assert(m[0] == MenuItem::Open);
        assert(m[b] == MenuItem::Cut && m[b + 1] == MenuItem::Copy);
        assert(m[b + 2] == MenuItem::Rename && m[b + 3] == MenuItem::Delete);
    }
    if folder {
        assert(m[1] == MenuItem::OpenInNewTab);
    }
    if paste {
        assert(m[c] == MenuItem::Paste);
    }
    if here {
        assert(m[e] == MenuItem::NewFolder);
        assert(m.len() == e + 1);
    } else {
        assert(m =~= seq![]);
    }
}

/// A row or a tile looks as it is: selected, focused, or with its name being edited, and with
/// its own icon or its own thumbnail once that is there.
pub proof fn law_rows_look_as_they_are(d: Desk, i: usize, px: u16)
    requires
        i < d.sheet.rows.len(),
    ensures
        ({
            let f = row_look(d, i as int);
            let row = d.sheet.rows[i as int];
            &&& f.selected <==> d.sheet.selection.items.contains(i)
            &&& f.lead <==> d.sheet.selection.lead == Some(i)
            &&& f.editing <==> (d.sheet.renaming matches Some(r) && r.index == i)
            &&& d.icons.contains_key(row.icon.id()) ==> f.image == Some(d.icons[row.icon.id()])
            &&& !d.icons.contains_key(row.icon.id()) ==> f.image is None
        }),
        ({
            let f = tile_look(d, i as int, px);
            let row = d.sheet.rows[i as int];
            &&& f.selected <==> d.sheet.selection.items.contains(i)
            &&& f.lead <==> d.sheet.selection.lead == Some(i)
            &&& f.editing <==> (d.sheet.renaming matches Some(r) && r.index == i)
            &&& match row.target {
                Place::Path(t) => {
                    let id = (ThumbName { path: t, size: px, mtime: row.modified }).id();
                    &&& d.thumbs.handles.contains_key(id) ==> f.image == Some(
                        d.thumbs.handles[id],
                    )
                    &&& !d.thumbs.handles.contains_key(id) ==> f.image is None
                },
                _ => f.image is None,
            }
        }),
{
}

/// Only the heading of the column that the list is sorted by has an arrow: up where the list
/// ascends, down where it descends.
pub proof fn law_heading_shows_the_order(label: Seq<char>, key: SortKey, sort: Sort)
    ensures
        sort.key != key ==> heading_text(label, key, sort) == label,
        sort.key == key ==> {
            let t = heading_text(label, key, sort);
            &&& t.len() == label.len() + 2
            &&& t.take(label.len() as int) == label
            &&& t[label.len() as int] == ' '
            &&& t.last() == '▲' <==> sort.order == SortOrder::Ascending
            &&& t.last() == '▼' <==> sort.order == SortOrder::Descending
        },
{
    reveal_strlit(" ▲");
    reveal_strlit(" ▼");
    if sort.key == key {
        let t = heading_text(label, key, sort);
        assert(t.take(label.len() as int) =~= label);
    }
}

/// The spinner turns: neighbouring frames look different, and after four it begins again.
pub proof fn law_spinner_turns(frame: u64)
    requires
        frame < u64::MAX - 4,
    ensures
        spinner_text((frame + 1) as u64) != spinner_text(frame),
        spinner_text((frame + 2) as u64) != spinner_text(frame),
        spinner_text((frame + 4) as u64) == spinner_text(frame),
{
    reveal_strlit("◐");
    reveal_strlit("◓");
    reveal_strlit("◑");
    reveal_strlit("◒");
    assert("◐"@[0] == '◐' && "◓"@[0] == '◓' && "◑"@[0] == '◑' && "◒"@[0] == '◒');
}

/// An empty list says why it is empty: while a folder is read, that it is; while a search runs,
/// what is searched for; after it, that nothing was found, by name or by contents; and where
/// something failed, what did.
pub proof fn law_empty_list_says_why(s: Sheet)
    ensures
        s.load_pending ==> empty_text(s) == "Loading…"@,
        !s.load_pending ==> match s.content {
            Shown::Error(e) => empty_text(s) == e,
            Shown::Search(r) => empty_text(s) == (if !r.done {
                "Searching for “"@ + r.query + "”…"@
            } else if r.mode == SearchMode::Name {
                "No file names match “"@ + r.query + "”"@
            } else {
                "No files contain “"@ + r.query + "”"@
            }),
            _ => empty_text(s) == "Empty"@,
        },
{
}

} // verus!
