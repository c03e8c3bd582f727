//! What each event does to the file manager.

use crate::assoc::{idents, KeySet};
use crate::columns::{ColRule, Column, ColumnLayout};
use crate::config::{ColumnStore, Settings};
use crate::desk::{
    bumped, children_of, partition, rows_at, shelved, stepped, with_icons, Desk, Menu, Renaming,
    Results, Shown, BG_CHUNK, DOUBLE_CLICK, MAX_BACKGROUND_PRECACHE,
};
use crate::drives::DriveInfo;
use crate::geometry::{page_rows, scroll_target, thumb_span, viewport_for};
use crate::icons::{icon_names, IconCache, IconKey};
use crate::keyboard::{commands, edits, is_input_shortcut, is_text_edit, Modifiers};
use crate::labels::{address_text, counted_items, found_status, items_status, results_status};
use crate::librarian::{
    find_label, find_paths, rows_for, tab_views, thumb_keys, Clip, Content, Librarian, Rename,
    Tab,
};
use crate::message::{acts, Act, Action, Message, Nav, Operation, Spot, ThumbKind};
use crate::model::{Entry, Location, Place};
use crate::path::{path_texts, WinPath};
use crate::rows::{row_data, RowData};
use crate::search::{SearchHit, SearchMode, SearchSpec};
use crate::sort::{SortKey, SortOrder};
use crate::text::{from_chars, str_eq, to_chars, trim, trim_chars};
use crate::thumbs::{thumb_names, CacheSweep, Shelf, ThumbCache, ThumbKey};
use crate::tree::{count_within, flat_children, NodeId, Reveal, Tree, TreeChild, ROOT_ID};
use crate::view_mode::ViewMode;
use crate::wsl::WslDistro;
use vstd::prelude::*;

verus! {

fn bump(n: u64) -> (r: u64)
    ensures
        r == bumped(n),
{
    if n == u64::MAX {
        0
    } else {
        n + 1
    }
}

fn trimmed(s: &str) -> (r: String)
    ensures
        r@ == trim(s@),
{
    from_chars(&trim_chars(&to_chars(s)))
}

impl Librarian {
    fn emit(&mut self, action: Action)
        requires
            old(self).wf(),
        ensures
            final(self).wf(),
            final(self)@ == old(self)@.emit(action@),
    {
        self.out.push(action);
        assert(acts(self.out@) =~= acts(old(self).out@).push(action@));
    }

    fn settings(&self) -> (r: Settings)
        ensures
            r == self@.settings(),
    {
        Settings {
            show_hidden: self.show_hidden,
            sort: self.sort,
            view_mode: self.tab.view_mode,
        }
    }

    fn scroll_to(&mut self, y: u64)
        requires
            old(self).wf(),
        ensures
            final(self).wf(),
            final(self)@ == old(self)@.scroll_to(y),
    {
        self.tab.scroll = y;
        self.emit(Action::ScrollTo(y));
    }

    fn ensure_visible(&mut self, index: usize)
        requires
            old(self).wf(),
        ensures
            final(self).wf(),
            final(self)@ == old(self)@.ensure_visible(index as int),
    {
        proof {
            reveal(Desk::ensure_visible);
        }
        match scroll_target(index, self.tab.rows.len(), self.tab.scroll, self.viewport) {
            Some(y) => self.scroll_to(y),
            None => {},
        }
    }

    fn recompute_rows(&mut self)
        requires
            old(self).wf(),
        ensures
            final(self).wf(),
            final(self)@ == old(self)@.recompute_rows(),
    {
        proof {
            reveal(Desk::recompute_rows);
        }
        let rows = rows_for(&self.tab.content, &self.sort, self.show_hidden);
        self.tab.selection.retain_below(rows.len());
        self.tab.rows = rows;
    }

    fn request_icons(&mut self)
        requires
            old(self).wf(),
        ensures
            final(self).wf(),
            final(self)@ == old(self)@.request_icons(),
    {
        proof {
            reveal(Desk::request_icons);
        }
        let mut keys: Vec<IconKey> = Vec::new();
        let ghost icons = self@.sheet.rows.map_values(|r: RowData| r.icon);
        assert(icon_names(keys@) =~= icons.take(0));
        for i in 0..self.tab.rows.len()
            invariant
                icons == row_data(self.tab.rows@).map_values(|r: RowData| r.icon),
                icon_names(keys@) == icons.take(i as int),
        {
            let ghost prev = icon_names(keys@);
            keys.push(self.tab.rows[i].icon.clone());
            assert(icon_names(keys@) =~= prev.push(icons[i as int]));
            assert(icons.take(i + 1) =~= icons.take(i as int).push(icons[i as int]));
        }
        assert(icons.take(icons.len() as int) =~= icons);
        self.tree.collect_icon_keys(&mut keys);
        assert(icon_names(keys@) =~= self@.shown_icons());
        let needed = self.icons.take_unrequested(keys.as_slice());
        if needed.len() > 0 {
            self.emit(Action::ExtractIcons(needed));
        }
    }

    fn visible_thumb_keys(&self, px: u16) -> (r: Vec<ThumbKey>)
        ensures
            thumb_names(r@) == self@.visible_thumbs(px),
    {
        let (start, end) = thumb_span(
            self.tab.scroll,
            self.viewport,
            self.pane_w,
            self.tab.rows.len(),
            self.tab.view_mode,
        );
        thumb_keys(&self.tab.rows, start, end, px)
    }

    fn prefetch_thumbs(&mut self, lock: bool)
        requires
            old(self).wf(),
        ensures
            final(self).wf(),
            final(self)@ == old(self)@.prefetch_thumbs(lock),
    {
        proof {
            reveal(Desk::prefetch_thumbs);
        }
        if let Some(px) = self.tab.view_mode.thumb_px() {
            let keys = self.visible_thumb_keys(px);
            let needed = self.thumbs.take_unrequested(keys.as_slice());
            if needed.len() > 0 {
                let token: u64 = self.thumb_token;
                self.emit(Action::SweepThumbs { keys: needed, token, lock });
            }
        }
    }

    fn next_background_chunk(&mut self)
        requires
            old(self).wf(),
        ensures
            final(self).wf(),
            final(self)@ == old(self)@.next_background_chunk(),
    {
        proof {
            reveal(Desk::next_background_chunk);
        }
        let len: usize = self.bg_queue.len();
        if len == 0 {
            return;
        }
        let take: usize = if len <= BG_CHUNK {
            len
        } else {
            BG_CHUNK
        };
        let ghost all = thumb_names(self.bg_queue@);
        let mut chunk = self.bg_queue.split_off(take);
        core::mem::swap(&mut chunk, &mut self.bg_queue);
        assert(thumb_names(chunk@) =~= all.take(take as int));
        assert(thumb_names(self.bg_queue@) =~= all.skip(take as int));
        let token: u64 = self.thumb_token;
        self.emit(Action::ExtractThumbs { keys: chunk, token, kind: ThumbKind::Background });
    }

    fn seed_background(&mut self)
        requires
            old(self).wf(),
        ensures
            final(self).wf(),
            final(self)@ == old(self)@.seed_background(),
    {
        proof {
            reveal(Desk::seed_background);
        }
        if let Some(px) = self.tab.view_mode.thumb_px() {
            let keys = thumb_keys(&self.tab.rows, 0, self.tab.rows.len(), px);
            assert(self@.sheet.rows.subrange(0, self@.sheet.rows.len() as int)
                =~= self@.sheet.rows);
            let mut needed = self.thumbs.take_unrequested(keys.as_slice());
            let ghost all = thumb_names(needed@);
            if needed.len() > MAX_BACKGROUND_PRECACHE {
                let overflow = needed.split_off(MAX_BACKGROUND_PRECACHE);
                self.thumbs.release(overflow.as_slice());
                assert(thumb_names(overflow@) =~= all.skip(MAX_BACKGROUND_PRECACHE as int));
                assert(thumb_names(needed@) =~= all.take(MAX_BACKGROUND_PRECACHE as int));
            }
            self.bg_queue = needed;
            self.next_background_chunk();
        }
    }

    fn begin_grid_session(&mut self, lock: bool)
        requires
            old(self).wf(),
        ensures
            final(self).wf(),
            final(self)@ == old(self)@.begin_grid_session(lock),
    {
        proof {
            reveal(Desk::begin_grid_session);
        }
        self.thumb_token = bump(self.thumb_token);
        self.overlay_loading = false;
        let mut abandoned: Vec<ThumbKey> = Vec::new();
        core::mem::swap(&mut abandoned, &mut self.bg_queue);
        self.thumbs.release(abandoned.as_slice());
        assert(thumb_names(self.bg_queue@) =~= seq![]);
        if self.tab.view_mode.thumb_px().is_some() {
            self.prefetch_thumbs(lock);
            if !lock {
                self.seed_background();
            }
        }
    }

    fn drive_reveal(&mut self)
        requires
            old(self).wf(),
        ensures
            final(self).wf(),
            final(self)@ == old(self)@.drive_reveal(),
            final(self).next_token == old(self).next_token,
    {
        proof {
            reveal(Desk::drive_reveal);
        }
        let target = match &self.pending_reveal {
            Some(p) => p.clone(),
            None => return,
        };
        match self.tree.reveal_path(&target) {
            Reveal::Load(id, location) => {
                let show_hidden = self.show_hidden;
                self.emit(Action::LoadTreeChildren { id, location, show_hidden });
            },
            Reveal::Wait => {},
            Reveal::Stop => {
                self.pending_reveal = None;
            },
        }
    }

    fn reveal_current(&mut self)
        requires
            old(self).wf(),
        ensures
            final(self).wf(),
            final(self)@ == old(self)@.reveal_current(),
            final(self).next_token == old(self).next_token,
    {
        proof {
            reveal(Desk::reveal_current);
        }
        match self.tab.current_dir() {
            Some(p) => {
                self.pending_reveal = Some(p);
                self.drive_reveal();
            },
            None => {
                self.pending_reveal = None;
            },
        }
    }

    fn toggle_node(&mut self, id: NodeId)
        requires
            old(self).wf(),
        ensures
            final(self).wf(),
            final(self)@ == old(self)@.toggle_node(id as int),
    {
        proof {
            reveal(Desk::toggle_node);
        }
        if let Some((id, location)) = self.tree.toggle(id) {
            let show_hidden = self.show_hidden;
            self.emit(Action::LoadTreeChildren { id, location, show_hidden });
        }
    }

    fn next_load(&mut self) -> (r: u64)
        requires
            old(self).wf(),
            old(self).next_token < u64::MAX,
        ensures
            final(self).wf(),
            final(self)@ == old(self)@.next_load(),
            r == final(self).tab.load_token,
    {
        self.next_token = self.next_token + 1;
        self.tab.load_token = self.next_token;
        self.next_token
    }

    /// Give up the running search, if there is one.
    fn drop_search(&mut self)
        requires
            old(self).wf(),
        ensures
            final(self).wf(),
            final(self)@ == old(self)@.unsearched(),
    {
        if self.search_active.is_some() {
            self.search_token = bump(self.search_token);
        }
        self.search_active = None;
    }

    fn load_current(&mut self)
        requires
            old(self).wf(),
            old(self).next_token < u64::MAX,
        ensures
            final(self).wf(),
            final(self)@ == old(self)@.load_current(),
    {
        proof {
            reveal(Desk::load_current);
        }
        self.tab.selection.clear();
        self.tab.last_click = None;
        self.drop_search();
        self.tab.search_query = String::new();
        self.search_seq = bump(self.search_seq);
        self.tab.address = address_text(&self.tab.history.current);
        assert(self@ =~= old(self)@.left_behind());
        self.scroll_to(0);
        self.reveal_current();
        let location = self.tab.history.current.clone();
        match location {
            Location::ThisPc => {
                self.land(Content::default(), Action::ListDrives);
            },
            Location::Wsl => {
                let distros: Vec<WslDistro> = Vec::new();
                assert(distros@ =~= seq![]);
                self.land(Content::Wsl { distros }, Action::ListDistros);
            },
            Location::Path(path) => {
                let token: u64 = self.next_load();
                self.tab.load_pending = true;
                self.overlay_loading = true;
                self.tab.status = "Loading…".to_string();
                self.emit(Action::ReadDir { path, token });
            },
        }
    }

    fn land(&mut self, content: Content, action: Action)
        requires
            old(self).wf(),
            old(self).next_token < u64::MAX,
        ensures
            final(self).wf(),
            final(self)@ == old(self)@.landed(content@, action@),
    {
        let _ = self.next_load();
        self.tab.content = content;
        self.tab.rows = Vec::new();
        self.tab.columns = ColumnLayout::default();
        self.tab.load_pending = false;
        assert(row_data(self.tab.rows@) =~= seq![]);
        self.emit(action);
    }

    fn navigate(&mut self, location: Location)
        requires
            old(self).wf(),
            old(self).next_token < u64::MAX,
        ensures
            final(self).wf(),
            final(self)@ == old(self)@.navigate(location@),
    {
        proof {
            reveal(Desk::navigate);
        }
        self.tab.history.navigate(location);
        self.load_current();
    }
}

// ---------------------------------------------------------------- tabs

/// Mark search results as complete.
fn settle(content: &mut Content)
    ensures
        final(content)@ == (match old(content)@ {
            Shown::Search(r) => Shown::Search(Results { done: true, ..r }),
            other => other,
        }),
{
    match content {
        Content::Search { done, .. } => {
            *done = true;
        },
        _ => {},
    }
}

impl Librarian {
    /// Take the active tab out as it is put aside, leaving a blank one.
    fn take_tab(&mut self) -> (r: Tab)
        requires
            old(self).wf(),
        ensures
            r@ == old(self)@.parked_sheet(),
            r.selection.wf(),
            r.load_token == old(self).tab.load_token,
            final(self).wf(),
            final(self)@ == old(self)@.on(final(self)@.sheet),
            final(self).tabs == old(self).tabs,
    {
        let mut leaving = Tab::new(Location::ThisPc, self.tab.view_mode);
        core::mem::swap(&mut leaving, &mut self.tab);
        if self.search_active.is_some() {
            settle(&mut leaving.content);
        }
        leaving
    }

    /// Put another tab on top, which carries no running search.
    fn adopt(&mut self, tab: Tab)
        requires
            old(self).wf(),
            tab.selection.wf(),
            tab.load_token <= old(self).next_token,
        ensures
            final(self).wf(),
            final(self)@ == old(self)@.adopt(tab@),
    {
        self.tab = tab;
        self.drop_search();
        self.search_seq = bump(self.search_seq);
    }

    fn show_active(&mut self)
        requires
            old(self).wf(),
            old(self).next_token < u64::MAX,
        ensures
            final(self).wf(),
            final(self)@ == old(self)@.show_active(),
    {
        proof {
            reveal(Desk::show_active);
        }
        self.menu = None;
        if self.tab.load_pending {
            self.load_current();
        } else {
            let y: u64 = self.tab.scroll;
            self.reveal_current();
            self.scroll_to(y);
            self.begin_grid_session(false);
        }
    }

    fn switch_tab(&mut self, index: usize)
        requires
            old(self).wf(),
            old(self).next_token < u64::MAX,
        ensures
            final(self).wf(),
            final(self)@ == old(self)@.switch_tab(index as int),
    {
        proof {
            reveal(Desk::switch_tab);
        }
        if index == self.active || index >= self.tabs.len() {
            return;
        }
        let leaving = self.take_tab();
        let ghost was = self@;
        let ghost before = self.tabs@;
        assert(was.parked =~= old(self)@.parked);
        let arriving = self.tabs.remove(index);
        self.tabs.insert(index, None);
        assert(self.tabs@ =~= before.update(index as int, None));
        self.tabs.set(self.active, Some(leaving));
        self.active = index;
        assert(tab_views(before)[index as int] is Some) by {
            assert(before[index as int] is Some);
        }
        match arriving {
            Some(tab) => {
                proof {
                    assert(tab_views(self.tabs@) =~= old(self)@.parked.update(
                        old(self)@.active,
                        Some(leaving@),
                    ).update(index as int, None));
                }
                self.adopt(tab);
                self.show_active();
            },
            None => {},
        }
    }

    fn new_tab(&mut self, location: Location)
        requires
            old(self).wf(),
            old(self).next_token < u64::MAX,
        ensures
            final(self).wf(),
            final(self)@ == old(self)@.new_tab(location@),
    {
        proof {
            reveal(Desk::new_tab);
        }
        let mode = self.tab.view_mode;
        let leaving = self.take_tab();
        let ghost before = self.tabs@;
        assert(tab_views(before) =~= old(self)@.parked);
        self.tabs.set(self.active, Some(leaving));
        self.tabs.push(None);
        self.active = self.tabs.len() - 1;
        self.menu = None;
        assert(tab_views(self.tabs@) =~= old(self)@.parked.update(
            old(self)@.active,
            Some(leaving@),
        ).push(None));
        self.adopt(Tab::new(location, mode));
        self.load_current();
    }

    #[verifier::spinoff_prover]
    fn close_tab(&mut self, index: usize)
        requires
            old(self).wf(),
            old(self).next_token < u64::MAX,
        ensures
            final(self).wf(),
            final(self)@ == old(self)@.close_tab(index as int),
    {
        proof {
            reveal(Desk::close_tab);
        }
        if self.tabs.len() <= 1 || index >= self.tabs.len() {
            return;
        }
        if index == self.active {
            self.close_active();
        } else {
            let ghost before = self.tabs@;
            let _ = self.tabs.remove(index);
            assert(tab_views(self.tabs@) =~= tab_views(before).remove(index as int));
            if index < self.active {
                self.active = self.active - 1;
            }
        }
    }

    /// Close the active tab; the one behind it takes its place, or else the last.
    #[verifier::spinoff_prover]
    fn close_active(&mut self)
        requires
            old(self).wf(),
            old(self).tabs@.len() > 1,
            old(self).next_token < u64::MAX,
        ensures
            final(self).wf(),
            final(self)@ == old(self)@.close_active(),
    {
        let index: usize = self.active;
        let ghost before = self.tabs@;
        let _ = self.tabs.remove(index);
        assert(tab_views(self.tabs@) =~= tab_views(before).remove(index as int));
        let next: usize = if index < self.tabs.len() {
            index
        } else {
            self.tabs.len() - 1
        };
        let ghost rest = self.tabs@;
        let arriving = self.tabs.remove(next);
        self.tabs.insert(next, None);
        assert(self.tabs@ =~= rest.update(next as int, None));
        assert(tab_views(self.tabs@) =~= tab_views(rest).update(next as int, None));
        self.active = next;
        match arriving {
            Some(tab) => {
                self.adopt(tab);
                self.show_active();
            },
            None => {},
        }
    }
}

// ---------------------------------------------------------------- search

impl Librarian {
    fn clear_search(&mut self)
        requires
            old(self).wf(),
            old(self).next_token < u64::MAX,
        ensures
            final(self).wf(),
            final(self)@ == old(self)@.clear_search(),
    {
        proof {
            reveal(Desk::clear_search);
        }
        self.drop_search();
        self.tab.search_query = String::new();
        assert(self.tab.search_query@ =~= seq![]);
        if matches!(self.tab.content, Content::Search { .. }) {
            self.load_current();
        }
    }

    fn begin_search(&mut self)
        requires
            old(self).wf(),
        ensures
            final(self).wf(),
            final(self)@ == old(self)@.begin_search(),
    {
        proof {
            reveal(Desk::begin_search);
        }
        let query = trimmed(&self.tab.search_query);
        let root = match self.tab.current_dir() {
            Some(p) => p,
            None => return,
        };
        self.menu = None;
        self.tab.selection.clear();
        self.tab.last_click = None;
        self.search_token = bump(self.search_token);
        self.search_active = Some(
            SearchSpec {
                token: self.search_token,
                root: root.clone(),
                query: query.clone(),
                mode: self.tab.search_mode,
            },
        );
        let hits: Vec<SearchHit> = Vec::new();
        assert(hits@ =~= seq![]);
        self.tab.content = Content::Search {
            root,
            query,
            mode: self.tab.search_mode,
            hits,
            done: false,
        };
        self.recompute_rows();
        self.tab.status = "Searching…".to_string();
        self.scroll_to(0);
        self.begin_grid_session(false);
    }

    fn run_search_if_changed(&mut self)
        requires
            old(self).wf(),
            old(self).next_token < u64::MAX,
        ensures
            final(self).wf(),
            final(self)@ == old(self)@.run_search_if_changed(),
    {
        proof {
            reveal(Desk::run_search_if_changed);
        }
        let query = trim_chars(&to_chars(&self.tab.search_query));
        if query.len() == 0 {
            if matches!(self.tab.content, Content::Search { .. }) {
                self.clear_search();
            }
            return;
        }
        let unchanged: bool = match &self.tab.content {
            Content::Search { query: shown, mode, .. } => str_eq(shown, &from_chars(&query))
                && *mode == self.tab.search_mode,
            _ => false,
        };
        if !unchanged {
            self.begin_search();
        }
    }

    fn search_batch(&mut self, token: u64, hits: Vec<SearchHit>)
        requires
            old(self).wf(),
        ensures
            final(self).wf(),
            final(self)@ == old(self)@.search_batch(token, hits@),
    {
        proof {
            reveal(Desk::search_batch);
        }
        if token != self.search_token {
            return;
        }
        let mut more = hits;
        let found: usize = match &mut self.tab.content {
            Content::Search { hits: existing, done, .. } => {
                existing.append(&mut more);
                *done = false;
                existing.len()
            },
            _ => return,
        };
        self.recompute_rows();
        self.tab.status = found_status(found);
        self.request_icons();
        self.prefetch_thumbs(false);
    }

    fn search_finished(&mut self, token: u64, capped: bool)
        requires
            old(self).wf(),
        ensures
            final(self).wf(),
            final(self)@ == old(self)@.search_finished(token, capped),
    {
        proof {
            reveal(Desk::search_finished);
        }
        if token != self.search_token {
            return;
        }
        self.search_active = None;
        let found: usize = match &self.tab.content {
            Content::Search { hits, .. } => hits.len(),
            _ => return,
        };
        settle(&mut self.tab.content);
        self.tab.status = results_status(found, capped);
        self.request_icons();
        self.seed_background();
    }

    fn search_failed(&mut self, token: u64, error: String)
        requires
            old(self).wf(),
        ensures
            final(self).wf(),
            final(self)@ == old(self)@.search_failed(token, error@),
    {
        proof {
            reveal(Desk::search_failed);
        }
        if token != self.search_token {
            return;
        }
        self.search_active = None;
        settle(&mut self.tab.content);
        self.tab.status = error;
    }
}

// ---------------------------------------------------------------- rows

/// The row that a navigation step leads to.
fn step_target(nav: Nav, current: Option<usize>, len: usize, page: u64) -> (r: usize)
    requires
        len > 0,
        page >= 1,
    ensures
        r == stepped(nav, current, len as int, page as int),
{
    let last: usize = len - 1;
    match nav {
        Nav::Home => 0,
        Nav::End => last,
        Nav::Up => match current {
            Some(i) => if i > 0 {
                i - 1
            } else {
                0
            },
            None => last,
        },
        Nav::Down => match current {
            Some(i) => if i < last {
                i + 1
            } else {
                last
            },
            None => 0,
        },
        Nav::PageUp => match current {
            Some(i) => if i as u64 > page {
                i - page as usize
            } else {
                0
            },
            None => 0,
        },
        Nav::PageDown => match current {
            Some(i) => if i < last && page <= (last - i) as u64 {
                i + page as usize
            } else {
                last
            },
            None => 0,
        },
    }
}

impl Librarian {
    fn activate(&mut self, index: usize)
        requires
            old(self).wf(),
            old(self).next_token < u64::MAX,
        ensures
            final(self).wf(),
            final(self)@ == old(self)@.activate(index as int),
    {
        proof {
            reveal(Desk::activate);
        }
        if index >= self.tab.rows.len() {
            return;
        }
        assert(self@.sheet.rows[index as int] == self.tab.rows@[index as int]@);
        let container: bool = self.tab.rows[index].is_container;
        let target = self.tab.rows[index].target.clone();
        if container {
            self.navigate(target);
        } else if let Location::Path(path) = target {
            self.emit(Action::Open(path));
        }
    }

    fn activate_lead(&mut self)
        requires
            old(self).wf(),
            old(self).next_token < u64::MAX,
        ensures
            final(self).wf(),
            final(self)@ == old(self)@.activate_lead(),
    {
        proof {
            reveal(Desk::activate_lead);
        }
        if let Some(index) = self.tab.selection.lead() {
            self.activate(index);
        }
    }

    #[verifier::spinoff_prover]
    fn leave_rename(&mut self, index: usize)
        requires
            old(self).wf(),
        ensures
            final(self).wf(),
            final(self)@ == old(self)@.rename_left(index),
            final(self).next_token == old(self).next_token,
    {
        let elsewhere: bool = match &self.tab.renaming {
            Some(r) => r.index != index,
            None => false,
        };
        if elsewhere {
            self.tab.renaming = None;
        }
    }

    #[verifier::spinoff_prover]
    fn on_click(&mut self, index: usize, now: u64)
        requires
            old(self).wf(),
            old(self).next_token < u64::MAX,
        ensures
            final(self).wf(),
            final(self)@ == old(self)@.on_click(index, now),
    {
        proof {
            reveal(Desk::on_click);
        }
        self.leave_rename(index);
        if self.modifiers.shift {
            self.tab.selection.select_range(index);
            self.tab.last_click = None;
        } else if self.modifiers.command {
            self.tab.selection.toggle(index);
            self.tab.last_click = None;
        } else {
            self.plain_click(index, now);
        }
    }

    #[verifier::spinoff_prover]
    fn plain_click(&mut self, index: usize, now: u64)
        requires
            old(self).wf(),
            old(self).next_token < u64::MAX,
        ensures
            final(self).wf(),
            final(self)@ == old(self)@.plain_click(index, now),
    {
        proof {
            reveal(Desk::plain_click);
        }
        let double: bool = match self.tab.last_click {
            Some((i, t)) => i == index && (now <= t || now - t < DOUBLE_CLICK),
            None => false,
        };
        self.tab.selection.select_one(index);
        self.tab.last_click = Some((index, now));
        if double {
            self.activate(index);
        }
    }

    fn move_selection(&mut self, nav: Nav, extend: bool, focus_only: bool)
        requires
            old(self).wf(),
        ensures
            final(self).wf(),
            final(self)@ == old(self)@.move_selection(nav, extend, focus_only),
    {
        proof {
            reveal(Desk::move_selection);
        }
        let len: usize = self.tab.rows.len();
        if len == 0 {
            return;
        }
        self.tab.renaming = None;
        self.menu = None;
        let page: u64 = page_rows(self.viewport);
        let current = self.tab.selection.lead();
        let target: usize = step_target(nav, current, len, page);
        if extend {
            self.tab.selection.select_range(target);
        } else if focus_only {
            self.tab.selection.move_lead(target);
        } else {
            self.tab.selection.select_one(target);
        }
        self.tab.last_click = None;
        self.ensure_visible(target);
    }

    fn restore_selection(&mut self, paths: &Vec<WinPath>)
        requires
            old(self).wf(),
        ensures
            final(self).wf(),
            final(self)@ == old(self)@.restore_selection(path_texts(paths@)),
    {
        proof {
            reveal(Desk::restore_selection);
        }
        if paths.len() == 0 {
            return;
        }
        let found = find_paths(&self.tab.rows, paths);
        let len: usize = self.tab.rows.len();
        proof {
            lemma_rows_at(self@.sheet.rows, path_texts(paths@), len as int);
        }
        self.tab.selection.set_many(found.as_slice());
    }

    fn begin_pending_rename(&mut self)
        requires
            old(self).wf(),
        ensures
            final(self).wf(),
            final(self)@ == old(self)@.begin_pending_rename(),
    {
        proof {
            reveal(Desk::begin_pending_rename);
        }
        let (dir, name) = match &self.tab.pending_rename {
            Some((d, n)) => (d.clone(), n.clone()),
            None => return,
        };
        let here: bool = match self.tab.current_dir() {
            Some(p) => p.same(&dir),
            None => false,
        };
        if !here {
            self.tab.pending_rename = None;
            return;
        }
        match find_label(&self.tab.rows, &name) {
            None => {},
            Some(index) => {
                self.tab.pending_rename = None;
                self.tab.selection.select_one(index);
                self.tab.renaming = Some(Rename { index, value: name });
                self.ensure_visible(index);
                self.emit(Action::FocusRename);
                self.emit(Action::SelectRename);
            },
        }
    }
}

/// The rows that lead to one of some paths are listed in order.
proof fn lemma_rows_at(rows: Seq<RowData>, paths: Seq<Seq<char>>, n: int)
    requires
        0 <= n <= rows.len(),
        n <= usize::MAX,
    ensures
        forall|k: int|
            0 <= k < rows_at(rows, paths, n).len() ==> #[trigger] rows_at(rows, paths, n)[k] < n,
        forall|j: int, k: int|
            0 <= j < k < rows_at(rows, paths, n).len() ==> #[trigger] rows_at(rows, paths, n)[j]
                < #[trigger] rows_at(rows, paths, n)[k],
    decreases n,
{
    if n > 0 {
        lemma_rows_at(rows, paths, n - 1);
        let before = rows_at(rows, paths, n - 1);
        let now = rows_at(rows, paths, n);
        assert forall|k: int| 0 <= k < now.len() implies #[trigger] now[k] < n by {
            if k < before.len() {
                assert(now[k] == before[k]);
            }
        }
        assert forall|j: int, k: int| 0 <= j < k < now.len() implies #[trigger] now[j]
            < #[trigger] now[k] by {
            assert(now[j] == before[j]);
            if k < before.len() {
                assert(now[k] == before[k]);
            }
        }
    }
}

// ---------------------------------------------------------------- loads

impl Librarian {
    fn list(&mut self, content: Content)
        requires
            old(self).wf(),
        ensures
            final(self).wf(),
            final(self)@ == old(self)@.listed(content@),
    {
        proof {
            reveal(Desk::listed);
        }
        self.tab.content = content;
        self.recompute_rows();
        self.tab.status = items_status(self.tab.rows.len());
    }

    fn landing_loaded(&mut self, content: Content)
        requires
            old(self).wf(),
        ensures
            final(self).wf(),
            final(self)@ == old(self)@.landing_loaded(content@),
    {
        proof {
            reveal(Desk::landing_loaded);
        }
        self.list(content);
        self.request_icons();
        self.begin_grid_session(true);
    }

    fn this_pc_loaded(&mut self, drives: Vec<DriveInfo>)
        requires
            old(self).wf(),
        ensures
            final(self).wf(),
            final(self)@ == old(self)@.arrived(Place::ThisPc, Shown::ThisPc(drives@)),
    {
        proof {
            reveal(Desk::arrived);
        }
        if matches!(self.tab.history.current, Location::ThisPc) {
            self.landing_loaded(Content::ThisPc { drives });
        }
    }

    fn wsl_loaded(&mut self, distros: Vec<WslDistro>)
        requires
            old(self).wf(),
        ensures
            final(self).wf(),
            final(self)@ == old(self)@.arrived(Place::Wsl, Shown::Wsl(distros@)),
    {
        proof {
            reveal(Desk::arrived);
        }
        if matches!(self.tab.history.current, Location::Wsl) {
            self.landing_loaded(Content::Wsl { distros });
        }
    }

    fn load_failed(&mut self, error: String)
        requires
            old(self).wf(),
        ensures
            final(self).wf(),
            final(self)@ == old(self)@.load_failed(error@),
    {
        self.tab.load_pending = false;
        self.overlay_loading = false;
        self.tab.status = error.clone();
        self.tab.content = Content::Error(error);
        self.tab.rows = Vec::new();
        assert(row_data(self.tab.rows@) =~= seq![]);
    }

    fn adopt_columns(&mut self)
        requires
            old(self).wf(),
        ensures
            final(self).wf(),
            final(self)@ == old(self)@.adopt_columns(),
    {
        self.tab.columns = match self.tab.current_dir() {
            Some(p) => match self.col_store.get(&p) {
                Some(l) => *l,
                None => ColumnLayout::default(),
            },
            None => ColumnLayout::default(),
        };
        self.tab.load_pending = false;
    }

    fn loaded(&mut self, token: u64, result: Result<Vec<Entry>, String>)
        requires
            old(self).wf(),
        ensures
            final(self).wf(),
            final(self)@ == old(self)@.loaded(token, result),
    {
        proof {
            reveal(Desk::loaded);
        }
        if token != self.tab.load_token {
            return;
        }
        match result {
            Ok(entries) => {
                self.adopt_columns();
                self.list(Content::Folder { entries });
                self.request_icons();
                self.begin_grid_session(true);
                self.begin_pending_rename();
            },
            Err(error) => self.load_failed(error),
        }
    }

    fn dir_changed(&mut self)
        requires
            old(self).wf(),
            old(self).next_token < u64::MAX,
        ensures
            final(self).wf(),
            final(self)@ == old(self)@.dir_changed(),
    {
        proof {
            reveal(Desk::dir_changed);
        }
        if let Some(path) = self.tab.current_dir() {
            let token: u64 = self.next_load();
            self.emit(Action::RereadDir { path, token });
        }
    }

    fn reloaded(&mut self, token: u64, result: Result<Vec<Entry>, String>)
        requires
            old(self).wf(),
        ensures
            final(self).wf(),
            final(self)@ == old(self)@.reloaded(token, result),
    {
        proof {
            reveal(Desk::reloaded);
        }
        if token != self.tab.load_token {
            return;
        }
        match result {
            Ok(entries) => {
                let previously = self.tab.selected_paths();
                if self.tab.load_pending {
                    self.adopt_columns();
                }
                self.tab.content = Content::Folder { entries };
                self.recompute_rows();
                self.restore_selection(&previously);
                self.tab.status = items_status(self.tab.rows.len());
                self.request_icons();
                self.begin_grid_session(false);
                self.begin_pending_rename();
            },
            Err(_) => {
                if self.tab.load_pending {
                    self.overlay_loading = false;
                }
            },
        }
    }
}

// ---------------------------------------------------------------- thumbnails

/// The misses that are among `wanted`, and the others.
fn split_misses(misses: &Vec<ThumbKey>, wanted: &Vec<ThumbKey>) -> (r: (
    Vec<ThumbKey>,
    Vec<ThumbKey>,
))
    ensures
        thumb_names(r.0@) == partition(thumb_names(misses@), thumb_names(wanted@), true),
        thumb_names(r.1@) == partition(thumb_names(misses@), thumb_names(wanted@), false),
{
    let ghost near = thumb_names(wanted@);
    let ghost all = thumb_names(misses@);
    let mut set: KeySet<ThumbKey> = KeySet::new();
    assert(idents(near.take(0)).to_set() =~= Set::empty());
    for i in 0..wanted.len()
        invariant
            near == thumb_names(wanted@),
            set.wf(),
            set@ == idents(near.take(i as int)).to_set(),
    {
        set.insert(wanted[i].clone());
        proof {
            assert(near.take(i + 1) =~= near.take(i as int).push(near[i as int]));
            crate::icons::lemma_idents_push(near.take(i as int), near[i as int]);
        }
    }
    assert(near.take(near.len() as int) =~= near);
    let mut keep: Vec<ThumbKey> = Vec::new();
    let mut skip: Vec<ThumbKey> = Vec::new();
    assert(all.take(0) =~= seq![]);
    assert(thumb_names(keep@) =~= seq![]);
    assert(thumb_names(skip@) =~= seq![]);
    for i in 0..misses.len()
        invariant
            all == thumb_names(misses@),
            set.wf(),
            set@ == idents(near).to_set(),
            thumb_names(keep@) == partition(all.take(i as int), near, true),
            thumb_names(skip@) == partition(all.take(i as int), near, false),
    {
        let ghost kept = thumb_names(keep@);
        let ghost skipped = thumb_names(skip@);
        proof {
            assert(all.take(i + 1).drop_last() =~= all.take(i as int));
            assert(all[i as int] == misses@[i as int]@);
        }
        if set.contains(&misses[i]) {
            keep.push(misses[i].clone());
            assert(thumb_names(keep@) =~= kept.push(all[i as int]));
        } else {
            skip.push(misses[i].clone());
            assert(thumb_names(skip@) =~= skipped.push(all[i as int]));
        }
    }
    assert(all.take(all.len() as int) =~= all);
    (keep, skip)
}

/// Put thumbnails into the cache.
fn shelve(cache: &mut ThumbCache<u64>, images: &Vec<(ThumbKey, u64)>)
    requires
        old(cache).wf(),
    ensures
        final(cache).wf(),
        final(cache)@ == shelved(old(cache)@, images@),
{
    let ghost was = cache@;
    assert(images@.take(0) =~= seq![]);
    for i in 0..images.len()
        invariant
            cache.wf(),
            cache@ == shelved(was, images@.take(i as int)),
    {
        assert(images@.take(i + 1).drop_last() =~= images@.take(i as int));
        let _ = cache.insert(images[i].0.clone(), images[i].1);
    }
    assert(images@.take(images@.len() as int) =~= images@);
}

impl Librarian {
    fn icons_loaded(&mut self, loaded: &Vec<(IconKey, u64)>)
        requires
            old(self).wf(),
        ensures
            final(self).wf(),
            final(self)@ == old(self)@.icons_loaded(loaded@),
    {
        proof {
            reveal(Desk::icons_loaded);
        }
        let ghost was = self@;
        assert(loaded@.take(0) =~= seq![]);
        for i in 0..loaded.len()
            invariant
                self.wf(),
                self@ == (Desk { icons: with_icons(was.icons, loaded@.take(i as int)), ..was }),
        {
            assert(loaded@.take(i + 1).drop_last() =~= loaded@.take(i as int));
            self.icons.insert(loaded[i].0.clone(), loaded[i].1);
        }
        assert(loaded@.take(loaded@.len() as int) =~= loaded@);
    }

    fn thumbs_cached(&mut self, sweep: CacheSweep<u64>, token: u64, lock: bool)
        requires
            old(self).wf(),
        ensures
            final(self).wf(),
            final(self)@ == old(self)@.thumbs_cached(sweep, token, lock),
    {
        proof {
            reveal(Desk::thumbs_cached);
        }
        shelve(&mut self.thumbs, &sweep.hits);
        if token != self.thumb_token {
            self.thumbs.release(sweep.misses.as_slice());
            return;
        }
        let near: Vec<ThumbKey> = match self.tab.view_mode.thumb_px() {
            Some(px) => self.visible_thumb_keys(px),
            None => Vec::new(),
        };
        assert(self.tab.view_mode.thumb() is None ==> thumb_names(near@) =~= seq![]);
        let (extract, skip) = split_misses(&sweep.misses, &near);
        self.thumbs.release(skip.as_slice());
        if extract.len() == 0 {
            if lock {
                self.seed_background();
            }
        } else if lock {
            self.overlay_loading = true;
            self.emit(Action::ClearFocus);
            self.emit(Action::ExtractThumbs { keys: extract, token, kind: ThumbKind::Lock });
        } else {
            self.emit(Action::ExtractThumbs { keys: extract, token, kind: ThumbKind::Prefetch });
        }
    }

    fn thumbs_loaded(&mut self, images: &Vec<(ThumbKey, u64)>, token: u64, kind: ThumbKind)
        requires
            old(self).wf(),
        ensures
            final(self).wf(),
            final(self)@ == old(self)@.thumbs_loaded(images@, token, kind),
    {
        proof {
            reveal(Desk::thumbs_loaded);
        }
        shelve(&mut self.thumbs, images);
        if token != self.thumb_token {
            return;
        }
        match kind {
            ThumbKind::Lock => {
                self.overlay_loading = false;
                self.seed_background();
            },
            ThumbKind::Prefetch => {},
            ThumbKind::Background => {
                self.next_background_chunk();
            },
        }
    }
}

// ---------------------------------------------------------------- tree

impl Librarian {
    fn toggle_this_pc(&mut self)
        requires
            old(self).wf(),
        ensures
            final(self).wf(),
            final(self)@ == old(self)@.toggle_this_pc(),
    {
        proof {
            reveal(Desk::toggle_this_pc);
            crate::tree::lemma_child_at_from(self.tree.shape(), 0, Place::ThisPc, 1);
        }
        if let Some(id) = self.tree.this_pc_id() {
            self.toggle_node(id);
        }
    }

    fn tree_loaded(&mut self, id: NodeId, children: &Vec<TreeChild>)
        requires
            old(self).wf(),
            old(self).tree.next_id + flat_children(children@, 0).len() <= u64::MAX,
            old(self).tree.nodes@.len() + flat_children(children@, 0).len() <= usize::MAX,
        ensures
            final(self).wf(),
            final(self)@ == old(self)@.tree_loaded(id, children@),
    {
        proof {
            reveal(Desk::tree_loaded);
        }
        self.tree.set_children(id, children);
        if id == ROOT_ID {
            self.toggle_this_pc();
        }
        self.drive_reveal();
        self.request_icons();
    }
}

// ---------------------------------------------------------------- operations

impl Librarian {
    fn dispatch(&mut self, label: &str, op: Operation)
        requires
            old(self).wf(),
        ensures
            final(self).wf(),
            final(self)@ == old(self)@.dispatch(label@, op@),
    {
        self.menu = None;
        let mut status = label.to_string();
        status.append("…");
        self.tab.status = status;
        self.emit(Action::Run(op));
    }

    fn clip_selected(&mut self, cut: bool)
        requires
            old(self).wf(),
        ensures
            final(self).wf(),
            final(self)@ == old(self)@.clip_selected(cut),
    {
        proof {
            reveal(Desk::clip_selected);
        }
        let paths = self.tab.selected_paths();
        self.menu = None;
        if paths.len() > 0 {
            self.tab.status = counted_items(
                if cut {
                    "Cut"
                } else {
                    "Copied"
                },
                paths.len(),
            );
            self.clip = Some(Clip { paths, cut });
        }
    }

    fn paste(&mut self)
        requires
            old(self).wf(),
        ensures
            final(self).wf(),
            final(self)@ == old(self)@.paste(),
    {
        proof {
            reveal(Desk::paste);
        }
        self.menu = None;
        let mut clip: Option<Clip> = None;
        core::mem::swap(&mut clip, &mut self.clip);
        if let (Some(dir), Some(Clip { paths, cut })) = (self.tab.current_dir(), clip) {
            if cut {
                self.dispatch("Moving", Operation::Move { paths, dir });
            } else {
                self.dispatch("Copying", Operation::Copy { paths, dir });
            }
        }
    }

    fn delete_selected(&mut self)
        requires
            old(self).wf(),
        ensures
            final(self).wf(),
            final(self)@ == old(self)@.delete_selected(),
    {
        proof {
            reveal(Desk::delete_selected);
        }
        self.menu = None;
        let paths = self.tab.selected_paths();
        if paths.len() > 0 {
            let label = counted_items("Deleting", paths.len());
            self.dispatch(&label, Operation::Delete { paths });
        }
    }

    fn rename_start(&mut self)
        requires
            old(self).wf(),
        ensures
            final(self).wf(),
            final(self)@ == old(self)@.rename_start(),
    {
        proof {
            reveal(Desk::rename_start);
        }
        self.menu = None;
        if self.tab.lead_path().is_none() {
            return;
        }
        if let Some(index) = self.tab.selection.lead() {
            assert(self@.sheet.rows[index as int] == self.tab.rows@[index as int]@);
            let value = self.tab.rows[index].label.clone();
            self.tab.renaming = Some(Rename { index, value });
            self.emit(Action::FocusRename);
        }
    }

    fn rename_commit(&mut self)
        requires
            old(self).wf(),
        ensures
            final(self).wf(),
            final(self)@ == old(self)@.rename_commit(),
    {
        proof {
            reveal(Desk::rename_commit);
        }
        let (index, name) = match &self.tab.renaming {
            Some(r) => (r.index, trimmed(&r.value)),
            None => return,
        };
        self.tab.renaming = None;
        if index < self.tab.rows.len() {
            let row = &self.tab.rows[index];
            assert(self@.sheet.rows[index as int] == row@);
            if to_chars(&name).len() > 0 && !str_eq(&name, &row.label) {
                if let Location::Path(p) = &row.target {
                    let path = p.clone();
                    self.dispatch("Renaming", Operation::Rename { path, name });
                }
            }
        }
    }

    fn folder_named(&mut self, dir: WinPath, name: String)
        requires
            old(self).wf(),
        ensures
            final(self).wf(),
            final(self)@ == old(self)@.folder_named(dir@, name@),
    {
        proof {
            reveal(Desk::folder_named);
        }
        self.tab.pending_rename = Some((dir.clone(), name.clone()));
        self.dispatch("New folder", Operation::NewFolder { dir, name });
    }

    fn sort_by(&mut self, key: SortKey)
        requires
            old(self).wf(),
        ensures
            final(self).wf(),
            final(self)@ == old(self)@.sort_by(key),
    {
        proof {
            reveal(Desk::sort_by);
        }
        if self.sort.key == key {
            self.sort.order = match self.sort.order {
                SortOrder::Ascending => SortOrder::Descending,
                SortOrder::Descending => SortOrder::Ascending,
            };
        } else {
            self.sort.key = key;
            self.sort.order = SortOrder::Ascending;
        }
        self.recompute_rows();
        let settings = self.settings();
        self.emit(Action::SaveSettings(settings));
        self.prefetch_thumbs(false);
    }

    fn set_hidden(&mut self, value: bool)
        requires
            old(self).wf(),
        ensures
            final(self).wf(),
            final(self)@ == old(self)@.set_hidden(value),
    {
        proof {
            reveal(Desk::set_hidden);
        }
        self.show_hidden = value;
        self.recompute_rows();
        let settings = self.settings();
        self.emit(Action::SaveSettings(settings));
        self.request_icons();
        self.begin_grid_session(false);
    }

    fn view_mode_changed(&mut self, mode: ViewMode)
        requires
            old(self).wf(),
        ensures
            final(self).wf(),
            final(self)@ == old(self)@.view_mode_changed(mode),
    {
        proof {
            reveal(Desk::view_mode_changed);
        }
        if self.tab.view_mode != mode {
            self.tab.view_mode = mode;
            let settings = self.settings();
            self.emit(Action::SaveSettings(settings));
            self.scroll_to(0);
            self.begin_grid_session(true);
        }
    }

    fn column_resized(&mut self, col: Column, width: u32)
        requires
            old(self).wf(),
        ensures
            final(self).wf(),
            final(self)@ == old(self)@.column_resized(col, width),
    {
        proof {
            reveal(Desk::column_resized);
        }
        self.tab.columns.set(col, ColRule::Fixed(width));
        if let Some(path) = self.tab.current_dir() {
            let _ = self.col_store.insert(path, self.tab.columns);
            self.emit(Action::SaveColumns);
        }
    }

    fn row_right_clicked(&mut self, index: usize)
        requires
            old(self).wf(),
        ensures
            final(self).wf(),
            final(self)@ == old(self)@.row_right_clicked(index),
    {
        proof {
            reveal(Desk::row_right_clicked);
        }
        if self.tab.selection.contains(index) {
            self.tab.selection.move_lead(index);
        } else {
            self.tab.selection.select_one(index);
        }
        self.tab.last_click = None;
        self.menu = Some(Menu { index: Some(index), at: self.cursor });
    }

    fn open_in_new_tab(&mut self)
        requires
            old(self).wf(),
            old(self).next_token < u64::MAX,
        ensures
            final(self).wf(),
            final(self)@ == old(self)@.open_in_new_tab(),
    {
        proof {
            reveal(Desk::open_in_new_tab);
        }
        self.menu = None;
        if let Some(i) = self.tab.selection.lead() {
            if i < self.tab.rows.len() {
                assert(self@.sheet.rows[i as int] == self.tab.rows@[i as int]@);
                if self.tab.rows[i].is_container {
                    let target = self.tab.rows[i].target.clone();
                    if matches!(target, Location::Path(_)) {
                        self.new_tab(target);
                    }
                }
            }
        }
    }
}

// ---------------------------------------------------------------- events

impl Librarian {
    /// Whether the overlay keeps an event out.
    pub open spec fn locks(&self, message: Message) -> bool {
        self.overlay_loading && (commands(message) || edits(message))
    }

    /// Whether tokens and tree ids have room for an event; one that is kept out needs none.
    pub open spec fn room(&self, message: Message) -> bool {
        self.locks(message) || self.counters_fit(message)
    }

    /// Whether tokens and tree ids have room for what an event may do.
    pub open spec fn counters_fit(&self, message: Message) -> bool {
        &&& self.next_token < u64::MAX
        &&& message matches Message::TreeChildrenLoaded(_, result) ==> {
            let n = flat_children(children_of(result), 0).len();
            self.tree.next_id + n <= u64::MAX && self.tree.nodes@.len() + n <= usize::MAX
        }
    }

    fn go_back(&mut self)
        requires
            old(self).wf(),
            old(self).next_token < u64::MAX,
        ensures
            final(self).wf(),
            final(self)@ == old(self)@.go_back(),
    {
        proof {
            reveal(Desk::go_back);
        }
        if self.tab.history.go_back().is_some() {
            self.load_current();
        }
    }

    fn go_forward(&mut self)
        requires
            old(self).wf(),
            old(self).next_token < u64::MAX,
        ensures
            final(self).wf(),
            final(self)@ == old(self)@.go_forward(),
    {
        proof {
            reveal(Desk::go_forward);
        }
        if self.tab.history.go_forward().is_some() {
            self.load_current();
        }
    }

    fn go_up(&mut self)
        requires
            old(self).wf(),
            old(self).next_token < u64::MAX,
        ensures
            final(self).wf(),
            final(self)@ == old(self)@.go_up(),
    {
        proof {
            reveal(Desk::go_up);
        }
        if let Some(parent) = self.tab.history.current.parent() {
            self.navigate(parent);
        }
    }

    fn address_changed(&mut self, value: String)
        requires
            old(self).wf(),
        ensures
            final(self).wf(),
            final(self)@ == old(self)@.address_changed(value@),
    {
        proof {
            reveal(Desk::address_changed);
        }
        self.tab.address = value;
    }

    fn search_changed(&mut self, value: String)
        requires
            old(self).wf(),
        ensures
            final(self).wf(),
            final(self)@ == old(self)@.search_changed(value@),
    {
        proof {
            reveal(Desk::search_changed);
        }
        self.tab.search_query = value;
        self.search_seq = bump(self.search_seq);
        let seq: u64 = self.search_seq;
        self.emit(Action::Debounce(seq));
    }

    fn search_debounced(&mut self, seq: u64)
        requires
            old(self).wf(),
            old(self).next_token < u64::MAX,
        ensures
            final(self).wf(),
            final(self)@ == old(self)@.search_debounced(seq),
    {
        proof {
            reveal(Desk::search_debounced);
        }
        if seq == self.search_seq {
            self.run_search_if_changed();
        }
    }

    fn search_mode_changed(&mut self, mode: SearchMode)
        requires
            old(self).wf(),
            old(self).next_token < u64::MAX,
        ensures
            final(self).wf(),
            final(self)@ == old(self)@.search_mode_changed(mode),
    {
        proof {
            reveal(Desk::search_mode_changed);
        }
        self.tab.search_mode = mode;
        if matches!(self.tab.content, Content::Search { .. }) {
            self.run_search_if_changed();
        }
    }

    fn search_submit(&mut self)
        requires
            old(self).wf(),
            old(self).next_token < u64::MAX,
        ensures
            final(self).wf(),
            final(self)@ == old(self)@.search_submit(),
    {
        proof {
            reveal(Desk::search_submit);
        }
        self.search_seq = bump(self.search_seq);
        self.run_search_if_changed();
    }

    fn background_right_clicked(&mut self)
        requires
            old(self).wf(),
        ensures
            final(self).wf(),
            final(self)@ == old(self)@.background_right_clicked(),
    {
        proof {
            reveal(Desk::background_right_clicked);
        }
        self.menu = Some(Menu { index: None, at: self.cursor });
    }

    fn close_menu(&mut self)
        requires
            old(self).wf(),
        ensures
            final(self).wf(),
            final(self)@ == old(self)@.close_menu(),
    {
        proof {
            reveal(Desk::close_menu);
        }
        self.menu = None;
        self.tab.renaming = None;
    }

    fn cursor_moved(&mut self, at: Spot)
        requires
            old(self).wf(),
        ensures
            final(self).wf(),
            final(self)@ == old(self)@.cursor_moved(at),
    {
        proof {
            reveal(Desk::cursor_moved);
        }
        self.cursor = at;
    }

    fn modifiers_changed(&mut self, modifiers: Modifiers)
        requires
            old(self).wf(),
        ensures
            final(self).wf(),
            final(self)@ == old(self)@.modifiers_changed(modifiers),
    {
        proof {
            reveal(Desk::modifiers_changed);
        }
        self.modifiers = modifiers;
    }

    fn window_resized(&mut self, pane_w: u64, height: u64)
        requires
            old(self).wf(),
        ensures
            final(self).wf(),
            final(self)@ == old(self)@.window_resized(pane_w, height),
    {
        proof {
            reveal(Desk::window_resized);
        }
        self.pane_w = pane_w;
        self.viewport = viewport_for(height);
        self.prefetch_thumbs(false);
    }

    fn pane_resized(&mut self, pane_w: u64)
        requires
            old(self).wf(),
        ensures
            final(self).wf(),
            final(self)@ == old(self)@.pane_resized(pane_w),
    {
        proof {
            reveal(Desk::pane_resized);
        }
        self.pane_w = pane_w;
        self.prefetch_thumbs(false);
    }

    fn scrolled(&mut self, offset: u64, height: u64)
        requires
            old(self).wf(),
        ensures
            final(self).wf(),
            final(self)@ == old(self)@.scrolled(offset, height),
    {
        proof {
            reveal(Desk::scrolled);
        }
        self.tab.scroll = offset;
        self.viewport = height;
        if !self.overlay_loading {
            self.prefetch_thumbs(false);
        }
    }

    fn select_all(&mut self)
        requires
            old(self).wf(),
        ensures
            final(self).wf(),
            final(self)@ == old(self)@.select_all(),
    {
        proof {
            reveal(Desk::select_all);
        }
        if self.tab.current_dir().is_some() {
            let len: usize = self.tab.rows.len();
            self.tab.selection.select_all(len);
        }
    }

    fn open_selected(&mut self)
        requires
            old(self).wf(),
            old(self).next_token < u64::MAX,
        ensures
            final(self).wf(),
            final(self)@ == old(self)@.open_selected(),
    {
        proof {
            reveal(Desk::open_selected);
        }
        self.menu = None;
        self.activate_lead();
    }

    fn spinner_tick(&mut self)
        requires
            old(self).wf(),
        ensures
            final(self).wf(),
            final(self)@ == old(self)@.spinner_tick(),
    {
        proof {
            reveal(Desk::spinner_tick);
        }
        self.spinner_frame = bump(self.spinner_frame);
    }

    fn next_tab(&mut self)
        requires
            old(self).wf(),
            old(self).next_token < u64::MAX,
        ensures
            final(self).wf(),
            final(self)@ == old(self)@.next_tab(),
    {
        proof {
            reveal(Desk::next_tab);
        }
        if self.tabs.len() > 1 {
            let next: usize = if self.active + 1 < self.tabs.len() {
                self.active + 1
            } else {
                0
            };
            proof {
                lemma_wraps(self.active + 1, self.tabs@.len() as int);
            }
            self.switch_tab(next);
        }
    }

    fn prev_tab(&mut self)
        requires
            old(self).wf(),
            old(self).next_token < u64::MAX,
        ensures
            final(self).wf(),
            final(self)@ == old(self)@.prev_tab(),
    {
        proof {
            reveal(Desk::prev_tab);
        }
        if self.tabs.len() > 1 {
            let prev: usize = if self.active > 0 {
                self.active - 1
            } else {
                self.tabs.len() - 1
            };
            proof {
                lemma_wraps(self.active + self.tabs@.len() - 1, self.tabs@.len() as int);
            }
            self.switch_tab(prev);
        }
    }

    fn tree_navigate(&mut self, location: Location)
        requires
            old(self).wf(),
            old(self).next_token < u64::MAX,
        ensures
            final(self).wf(),
            final(self)@ == old(self)@.tree_navigate(location@),
    {
        proof {
            reveal(Desk::tree_navigate);
        }
        self.menu = None;
        if self.tab.history.current != location {
            self.navigate(location);
        }
    }

    fn new_folder(&mut self)
        requires
            old(self).wf(),
        ensures
            final(self).wf(),
            final(self)@ == old(self)@.new_folder(),
    {
        proof {
            reveal(Desk::new_folder);
        }
        self.menu = None;
        if let Some(dir) = self.tab.current_dir() {
            self.emit(Action::NameFolder(dir));
        }
    }

    fn rename_changed(&mut self, value: String)
        requires
            old(self).wf(),
        ensures
            final(self).wf(),
            final(self)@ == old(self)@.rename_changed(value@),
    {
        proof {
            reveal(Desk::rename_changed);
        }
        let index: Option<usize> = match &self.tab.renaming {
            Some(r) => Some(r.index),
            None => None,
        };
        if let Some(index) = index {
            self.tab.renaming = Some(Rename { index, value });
        }
    }

    fn op_finished(&mut self, result: Result<(), String>)
        requires
            old(self).wf(),
            old(self).next_token < u64::MAX,
        ensures
            final(self).wf(),
            final(self)@ == old(self)@.op_finished(result),
    {
        proof {
            reveal(Desk::op_finished);
        }
        match result {
            Ok(_) => self.load_current(),
            Err(error) => {
                self.tab.status = error;
            },
        }
    }

    fn act(&mut self, message: Message)
        requires
            old(self).wf(),
            old(self).counters_fit(message),
        ensures
            final(self).wf(),
            final(self)@ == old(self)@.acted(message),
    {
        match message {
            Message::GoBack => self.go_back(),
            Message::GoForward => self.go_forward(),
            Message::GoUp => self.go_up(),
            Message::Refresh => self.load_current(),
            Message::AddressChanged(value) => self.address_changed(value),
            Message::AddressSubmit => {
                let location = Location::parse(&self.tab.address);
                self.navigate(location);
            },
            Message::SetHidden(value) => self.set_hidden(value),
            Message::SortBy(key) => self.sort_by(key),
            Message::SearchChanged(value) => self.search_changed(value),
            Message::SearchDebounced(seq) => self.search_debounced(seq),
            Message::SearchModeChanged(mode) => self.search_mode_changed(mode),
            Message::SearchSubmit => self.search_submit(),
            Message::SearchClear => self.clear_search(),
            Message::SearchBatch { token, hits } => self.search_batch(token, hits),
            Message::SearchFinished { token, capped } => self.search_finished(token, capped),
            Message::SearchFailed { token, error } => self.search_failed(token, error),
            Message::RowClicked { index, now } => self.on_click(index, now),
            Message::RowRightClicked(index) => self.row_right_clicked(index),
            Message::BackgroundRightClicked => self.background_right_clicked(),
            Message::CloseMenu => self.close_menu(),
            Message::CursorMoved(at) => self.cursor_moved(at),
            Message::ModifiersChanged(modifiers) => self.modifiers_changed(modifiers),
            Message::WindowResized { pane_w, height } => self.window_resized(pane_w, height),
            Message::Scrolled { offset, height } => self.scrolled(offset, height),
            Message::MoveSelection(nav, extend, focus_only) => {
                self.move_selection(nav, extend, focus_only)
            },
            Message::SelectAll => self.select_all(),
            Message::Activate => self.open_selected(),
            Message::ThisPcLoaded(drives) => self.this_pc_loaded(drives),
            Message::WslLoaded(distros) => self.wsl_loaded(distros),
            Message::Loaded(token, result) => self.loaded(token, result),
            Message::DirChanged => self.dir_changed(),
            Message::Reloaded(token, result) => self.reloaded(token, result),
            Message::IconsLoaded(loaded) => self.icons_loaded(&loaded),
            Message::ViewModeChanged(mode) => self.view_mode_changed(mode),
            Message::ThumbsCached { sweep, token, lock } => self.thumbs_cached(sweep, token, lock),
            Message::ThumbsLoaded { images, token, kind } => {
                self.thumbs_loaded(&images, token, kind)
            },
            Message::SpinnerTick => self.spinner_tick(),
            Message::Noop => {},
            Message::NewTab => self.new_tab(Location::ThisPc),
            Message::OpenInNewTab => self.open_in_new_tab(),
            Message::SelectTab(index) => self.switch_tab(index),
            Message::CloseTab(index) => self.close_tab(index),
            Message::CloseActiveTab => {
                let index: usize = self.active;
                self.close_tab(index);
            },
            Message::NextTab => self.next_tab(),
            Message::PrevTab => self.prev_tab(),
            Message::TreeToggle(id) => self.toggle_node(id),
            Message::TreeNavigate(location) => self.tree_navigate(location),
            Message::TreeChildrenLoaded(id, result) => {
                let children: Vec<TreeChild> = match result {
                    Ok(v) => v,
                    Err(_) => Vec::new(),
                };
                assert(children@ =~= children_of(result));
                self.tree_loaded(id, &children);
            },
            Message::PaneResized { pane_w } => self.pane_resized(pane_w),
            Message::ColumnResized(col, width) => self.column_resized(col, width),
            Message::OpenSelected => self.open_selected(),
            Message::NewFolder => self.new_folder(),
            Message::FolderNamed { dir, name } => self.folder_named(dir, name),
            Message::DeleteSelected => self.delete_selected(),
            Message::Copy => self.clip_selected(false),
            Message::Cut => self.clip_selected(true),
            Message::Paste => self.paste(),
            Message::RenameStart => self.rename_start(),
            Message::RenameChanged(value) => self.rename_changed(value),
            Message::RenameCommit => self.rename_commit(),
            Message::OpFinished(result) => self.op_finished(result),
        }
    }

    /// Let an event act, and say what has to be done about it.
    pub fn update(&mut self, message: Message) -> (r: Vec<Action>)
        requires
            old(self).wf(),
            old(self).room(message),
            old(self).out@.len() == 0,
        ensures
            final(self).wf(),
            final(self).out@.len() == 0,
            acts(r@) == old(self)@.handled(message).out,
            final(self)@ == (Desk { out: seq![], ..old(self)@.handled(message) }),
    {
        let locked: bool = self.overlay_loading && (is_input_shortcut(&message) || is_text_edit(
            &message,
        ));
        let mut todo: Vec<Action> = Vec::new();
        if !locked {
            self.act(message);
        }
        assert(self@ == old(self)@.handled(message));
        core::mem::swap(&mut todo, &mut self.out);
        assert(acts(self.out@) =~= seq![]);
        todo
    }

    /// A file manager that opens at `start`, and what has to be done first.
    pub fn new(
        start: Location,
        settings: Settings,
        columns: ColumnStore,
        pane_w: u64,
        window_h: u64,
    ) -> (r: (Librarian, Vec<Action>))
        requires
            columns.wf(),
        ensures
            r.0.wf(),
            r.0.out@.len() == 0,
            ({
                let d = opened(start@, settings, columns@, pane_w, window_h).load_current().emit(
                    Act::LoadTreeRoots,
                );
                &&& acts(r.1@) == d.out
                &&& r.0@ == (Desk { out: seq![], ..d })
            }),
    {
        let mut tabs: Vec<Option<Tab>> = Vec::new();
        tabs.push(None);
        let mut app = Librarian {
            tab: Tab::new(start, settings.view_mode),
            tabs,
            active: 0,
            tree: Tree::new(),
            pending_reveal: None,
            sort: settings.sort,
            show_hidden: settings.show_hidden,
            icons: IconCache::new(),
            thumbs: ThumbCache::new(),
            clip: None,
            menu: None,
            cursor: Spot { x: 0, y: 0 },
            modifiers: Modifiers::default(),
            viewport: viewport_for(window_h),
            pane_w,
            thumb_token: 0,
            overlay_loading: false,
            spinner_frame: 0,
            bg_queue: Vec::new(),
            search_active: None,
            search_token: 0,
            search_seq: 0,
            next_token: 0,
            col_store: columns,
            out: Vec::new(),
        };
        assert(app@ =~= opened(start@, settings, columns@, pane_w, window_h)) by {
            assert(tab_views(app.tabs@) =~= seq![None]);
            assert(thumb_names(app.bg_queue@) =~= seq![]);
            assert(acts(app.out@) =~= seq![]);
        }
        app.load_current();
        app.emit(Action::LoadTreeRoots);
        let mut todo: Vec<Action> = Vec::new();
        core::mem::swap(&mut todo, &mut app.out);
        assert(acts(app.out@) =~= seq![]);
        (app, todo)
    }

    /// Whether tokens and tree ids have room for an event; one that is kept out needs none.
    pub fn has_room(&self, message: &Message) -> (r: bool)
        ensures
            r == self.room(*message),
    {
        if self.overlay_loading && (is_input_shortcut(message) || is_text_edit(message)) {
            return true;
        }
        let free_ids: u64 = u64::MAX - self.tree.next_id;
        let free_places: usize = usize::MAX - self.tree.nodes.len();
        let limit: u64 = if free_places as u64 <= free_ids {
            free_places as u64
        } else {
            free_ids
        };
        let fits: bool = match message {
            Message::TreeChildrenLoaded(_, result) => match result {
                Ok(children) => count_within(children, limit).is_some(),
                Err(_) => true,
            },
            _ => true,
        };
        self.next_token < u64::MAX && fits
    }

    /// The location that a tab shows.
    pub fn tab_location(&self, i: usize) -> (r: &Location)
        requires
            self.wf(),
            i < self.tabs@.len(),
        ensures
            r@ == (if i == self.active {
                self@.sheet.history.current
            } else {
                self@.parked[i as int]->0.history.current
            }),
    {
        if i == self.active {
            return &self.tab.history.current;
        }
        match &self.tabs[i] {
            Some(t) => &t.history.current,
            None => &self.tab.history.current,
        }
    }
}

/// The state of a file manager that opens at `start`, before it has asked for anything.
pub open spec fn opened(
    start: Place,
    settings: Settings,
    columns: Map<Seq<crate::path::Comp>, ColumnLayout>,
    pane_w: u64,
    window_h: u64,
) -> Desk {
    Desk {
        sheet: crate::desk::fresh_sheet(start, settings.view_mode),
        parked: seq![None],
        active: 0,
        nodes: seq![crate::tree::root_node()],
        next_id: 1,
        pending_reveal: None,
        sort: settings.sort,
        show_hidden: settings.show_hidden,
        icons: Map::empty(),
        icons_asked: Set::empty(),
        thumbs: Shelf { handles: Map::empty(), requested: Set::empty(), order: seq![] },
        clip: None,
        menu: None,
        cursor: Spot { x: 0, y: 0 },
        modifiers: Modifiers { shift: false, command: false },
        viewport: crate::geometry::list_height(window_h as int) as u64,
        pane_w,
        thumb_token: 0,
        overlay_loading: false,
        spinner_frame: 0,
        bg_queue: seq![],
        search_active: None,
        search_token: 0,
        search_seq: 0,
        next_token: 0,
        columns,
        out: seq![],
    }
}

proof fn lemma_wraps(i: int, n: int)
    requires
        n > 0,
        0 <= i < 2 * n,
    ensures
        i % n == (if i < n {
            i
        } else {
            i - n
        }),
{
    if i < n {
        vstd::arithmetic::div_mod::lemma_small_mod(i as nat, n as nat);
    } else {
        vstd::arithmetic::div_mod::lemma_mod_sub_multiples_vanish(i, n);
        vstd::arithmetic::div_mod::lemma_small_mod((i - n) as nat, n as nat);
    }
}

} // verus!
