//! What holds of the file manager whatever happens.

use crate::desk::{
    bumped, row_named, rows_at, thumb_of, thumbs_of, Desk, Renaming, Results, Sheet, Shown,
};
use crate::drives::DriveInfo;
use crate::geometry::thumb_range;
use crate::icons::{law_each_key_is_requested_once, newly_wanted, IconName};
use crate::keyboard::{
    commands, edits, law_every_shortcut_is_a_command, shortcut, Key, Modifiers,
};
use crate::message::{Act, Message, ThumbKind};
use crate::model::{Entry, Place};
use crate::path::comps;
use crate::rows::RowData;
use crate::search::SearchHit;
use crate::selection::Picked;
use crate::sort::{SortKey, SortOrder};
use crate::text::trim;
use crate::thumbs::{CacheSweep, ThumbKey, ThumbName};
use crate::tree::sidebar;
use crate::wsl::WslDistro;
use vstd::prelude::*;

verus! {

/// Under the loading overlay, whatever a key press stands for and every edit of a text field
/// does nothing, and nothing has to be done about it.
pub proof fn law_overlay_locks_the_keyboard(d: Desk, key: Key, m: Modifiers, message: Message)
    requires
        d.overlay_loading,
        shortcut(key, m) == Some(message) || commands(message) || edits(message),
    ensures
        d.handled(message) == d,
        d.handled(message).out == d.out,
{
    law_every_shortcut_is_a_command(key, m);
}

/// A listing that a newer load has superseded is dropped.
pub proof fn law_stale_listing_is_dropped(
    d: Desk,
    token: u64,
    result: Result<Vec<Entry>, String>,
)
    requires
        token != d.sheet.load_token,
    ensures
        d.handled(Message::Loaded(token, result)) == d,
        d.handled(Message::Reloaded(token, result)) == d,
{
    reveal(Desk::loaded);
    reveal(Desk::reloaded);
}

/// Whatever a superseded search still delivers is dropped.
pub proof fn law_stale_search_is_dropped(
    d: Desk,
    token: u64,
    hits: Vec<SearchHit>,
    capped: bool,
    error: String,
)
    requires
        token != d.search_token,
    ensures
        d.handled(Message::SearchBatch { token, hits }) == d,
        d.handled(Message::SearchFinished { token, capped }) == d,
        d.handled(Message::SearchFailed { token, error }) == d,
{
    reveal(Desk::search_batch);
    reveal(Desk::search_finished);
    reveal(Desk::search_failed);
}

/// A search that is left behind, by going elsewhere, by showing another tab or by dismissing
/// its results, is superseded: whatever it still delivers is dropped.
pub proof fn law_abandoned_search_is_dropped(
    d: Desk,
    token: u64,
    hits: Vec<SearchHit>,
    capped: bool,
    error: String,
)
    requires
        d.search_active matches Some(q) && q.token == token,
        d.search_token == token,
    ensures
        d.unsearched().handled(Message::SearchBatch { token, hits }) == d.unsearched(),
        d.unsearched().handled(Message::SearchFinished { token, capped }) == d.unsearched(),
        d.unsearched().handled(Message::SearchFailed { token, error }) == d.unsearched(),
        d.load_current().search_token == d.unsearched().search_token,
        d.adopt(d.sheet).search_token == d.unsearched().search_token,
{
    law_stale_search_is_dropped(d.unsearched(), token, hits, capped, error);
    reveal(Desk::load_current);
    lemma_reveal_frame(d.left_behind().scroll_to(0));
}

/// The thumbnails of a superseded session are kept, and nothing else comes of them: no
/// overlay, and nothing more to do.
pub proof fn law_stale_thumbnails_are_only_kept(
    d: Desk,
    sweep: CacheSweep<u64>,
    images: Vec<(ThumbKey, u64)>,
    token: u64,
    lock: bool,
    kind: crate::message::ThumbKind,
)
    requires
        token != d.thumb_token,
    ensures
        d.handled(Message::ThumbsCached { sweep, token, lock }) == (Desk {
            thumbs: d.handled(Message::ThumbsCached { sweep, token, lock }).thumbs,
            ..d
        }),
        d.handled(Message::ThumbsLoaded { images, token, kind }) == (Desk {
            thumbs: d.handled(Message::ThumbsLoaded { images, token, kind }).thumbs,
            ..d
        }),
{
    reveal(Desk::thumbs_cached);
    reveal(Desk::thumbs_loaded);
}

/// A pause that more input has outrun starts no search.
pub proof fn law_outrun_pause_starts_nothing(d: Desk, n: u64)
    requires
        n != d.search_seq,
    ensures
        d.handled(Message::SearchDebounced(n)) == d,
{
    reveal(Desk::search_debounced);
}

// ---------------------------------------------------------------- frames

/// What a thumbnail session leaves alone.
proof fn lemma_session_frame(d: Desk, lock: bool)
    ensures
        ({
            let e = d.begin_grid_session(lock);
            &&& e.sheet == d.sheet
            &&& e.parked == d.parked
            &&& e.active == d.active
            &&& e.sort == d.sort
            &&& e.next_token == d.next_token
            &&& e.search_active == d.search_active
            &&& e.search_token == d.search_token
            &&& !e.overlay_loading
        }),
{
    reveal(Desk::begin_grid_session);
    reveal(Desk::prefetch_thumbs);
    reveal(Desk::seed_background);
    reveal(Desk::next_background_chunk);
}

/// What revealing the current place leaves alone.
proof fn lemma_reveal_frame(d: Desk)
    ensures
        ({
            let e = d.reveal_current();
            &&& e.sheet == d.sheet
            &&& e.parked == d.parked
            &&& e.active == d.active
            &&& e.next_token == d.next_token
            &&& e.search_active == d.search_active
            &&& e.search_token == d.search_token
            &&& e.overlay_loading == d.overlay_loading
        }),
{
    reveal(Desk::reveal_current);
    reveal(Desk::drive_reveal);
}

/// What switching tabs does to the tabs, where no load was cut short.
proof fn lemma_switch(d: Desk, index: int)
    requires
        d.wf(),
        0 <= index < d.parked.len(),
        index != d.active,
        !d.parked[index]->0.load_pending,
    ensures
        ({
            let e = d.switch_tab(index);
            &&& e.sheet == d.parked[index]->0
            &&& e.active == index
            &&& e.parked == d.parked.update(d.active, Some(d.parked_sheet())).update(index, None)
            &&& e.search_active is None
        }),
{
    reveal(Desk::switch_tab);
    reveal(Desk::show_active);
    let a = (Desk {
        parked: d.parked.update(d.active, Some(d.parked_sheet())).update(index, None),
        active: index,
        ..d
    }).adopt(d.parked[index]->0);
    let m = a.unmenued();
    lemma_reveal_frame(m);
    let r = m.reveal_current().scroll_to(m.sheet.scroll);
    lemma_session_frame(r, false);
    assert(r.sheet =~= a.sheet);
}

// ---------------------------------------------------------------- tabs

/// A tab that is left and returned to is as it was: its history, its rows, what is selected,
/// its scroll position, view mode, columns and search. Only a search that was still running
/// counts as done.
pub proof fn law_tab_is_kept_while_another_is_shown(d: Desk, index: int)
    requires
        d.wf(),
        0 <= index < d.parked.len(),
        index != d.active,
        !d.parked[index]->0.load_pending,
        !d.sheet.load_pending,
    ensures
        d.switch_tab(index).wf(),
        d.switch_tab(index).sheet == d.parked[index]->0,
        d.switch_tab(index).switch_tab(d.active).sheet == d.parked_sheet(),
        d.switch_tab(index).switch_tab(d.active).parked == d.parked,
        d.switch_tab(index).switch_tab(d.active).active == d.active,
{
    lemma_switch(d, index);
    let e = d.switch_tab(index);
    assert(d.parked[index] is Some);
    assert forall|i: int| 0 <= i < e.parked.len() implies ((#[trigger] e.parked[i]) is None <==> i
        == e.active) by {
        if i != index && i != d.active {
            assert(e.parked[i] == d.parked[i]);
        }
    }
    assert(e.parked[d.active] == Some(d.parked_sheet()));
    lemma_switch(e, d.active);
    let f = e.switch_tab(d.active);
    assert(e.parked_sheet() == e.sheet);
    assert(d.parked[d.active] is None);
    assert(f.parked =~= d.parked);
}

/// The last tab cannot be closed.
pub proof fn law_last_tab_stays(d: Desk, index: usize)
    requires
        d.parked.len() == 1,
    ensures
        d.handled(Message::CloseTab(index)) == d,
        !d.overlay_loading ==> d.handled(Message::CloseActiveTab) == d,
{
    reveal(Desk::close_tab);
}

/// Wherever a load leads, to a folder or to a landing page, it has a token that no tab has
/// had before, so that whatever an earlier load still delivers is stale.
pub proof fn law_load_tokens_are_fresh(d: Desk, i: int)
    requires
        d.wf(),
        d.next_token < u64::MAX,
        d.sheet.load_token <= d.next_token,
        d.parked[i] matches Some(s) ==> s.load_token <= d.next_token,
        0 <= i < d.parked.len(),
    ensures
        d.load_current().sheet.load_token > d.sheet.load_token,
        d.load_current().parked[i] matches Some(s) ==> s.load_token
            < d.load_current().sheet.load_token,
{
    lemma_load_token(d);
}

/// A result of a superseded navigation is ignored: once the tab goes anywhere, nothing that
/// was asked for before is taken any more.
pub proof fn law_superseded_navigation_is_ignored(
    d: Desk,
    to: Place,
    token: u64,
    result: Result<Vec<Entry>, String>,
)
    requires
        d.next_token < u64::MAX,
        token <= d.next_token,
    ensures
        d.navigate(to).handled(Message::Loaded(token, result)) == d.navigate(to),
        d.navigate(to).handled(Message::Reloaded(token, result)) == d.navigate(to),
{
    reveal(Desk::navigate);
    let e = d.on(Sheet { history: d.sheet.history.visited(to), ..d.sheet });
    lemma_load_token(e);
    law_stale_listing_is_dropped(d.navigate(to), token, result);
}

/// The items of a landing page are taken only by a tab that is at that page.
pub proof fn law_late_landing_list_is_dropped(
    d: Desk,
    drives: Vec<DriveInfo>,
    distros: Vec<WslDistro>,
)
    ensures
        d.sheet.history.current != Place::ThisPc ==> d.handled(Message::ThisPcLoaded(drives))
            == d,
        d.sheet.history.current != Place::Wsl ==> d.handled(Message::WslLoaded(distros)) == d,
{
    reveal(Desk::arrived);
}

/// The token that a load has.
proof fn lemma_load_token(d: Desk)
    requires
        d.next_token < u64::MAX,
    ensures
        d.load_current().sheet.load_token == d.next_token + 1,
        d.load_current().next_token == d.next_token + 1,
        d.load_current().parked == d.parked,
{
    reveal(Desk::load_current);
    lemma_reveal_frame(d.left_behind().scroll_to(0));
}

/// What loading a real folder does.
proof fn lemma_load(d: Desk)
    requires
        d.sheet.dir() is Some,
        d.next_token < u64::MAX,
    ensures
        ({
            let e = d.load_current();
            &&& e.sheet == (Sheet {
                selection: Picked::none(),
                last_click: None,
                search_query: seq![],
                address: crate::labels::address_of(d.sheet.history.current),
                scroll: 0,
                load_token: (d.next_token + 1) as u64,
                load_pending: true,
                status: "Loading…"@,
                ..d.sheet
            })
            &&& e.parked == d.parked
            &&& e.active == d.active
            &&& e.next_token == d.next_token + 1
            &&& e.overlay_loading
            &&& e.search_active is None
            &&& e.out.last() == (Act::ReadDir {
                path: d.sheet.dir()->0,
                token: e.sheet.load_token,
            })
        }),
{
    reveal(Desk::load_current);
    let b = d.left_behind().scroll_to(0);
    lemma_reveal_frame(b);
}

/// While a folder is read, the one before stays on show; and what was asked for is the
/// folder itself.
pub proof fn law_folder_stays_on_show_while_the_next_is_read(d: Desk)
    requires
        d.sheet.dir() is Some,
        d.next_token < u64::MAX,
    ensures
        d.load_current().sheet.content == d.sheet.content,
        d.load_current().sheet.rows == d.sheet.rows,
        d.load_current().sheet.columns == d.sheet.columns,
        d.load_current().sheet.history == d.sheet.history,
        d.load_current().sheet.load_pending,
        d.load_current().overlay_loading,
        d.load_current().sheet.view_mode == d.sheet.view_mode,
        d.load_current().out.last() == (Act::ReadDir {
            path: d.sheet.dir()->0,
            token: d.load_current().sheet.load_token,
        }),
{
    lemma_load(d);
}

// ---------------------------------------------------------------- rows

/// Rebuilding the rows leaves nothing selected, focused or anchored that is not there.
pub proof fn law_selection_stays_within_the_rows(d: Desk)
    requires
        crate::desk::rows_of(d.sheet.content, d.sort, d.show_hidden).len() <= usize::MAX,
    ensures
        d.recompute_rows().sheet.selection.within(d.recompute_rows().sheet.rows.len() as int),
{
    reveal(Desk::recompute_rows);
}

/// What a row listing holds at an index that it contains.
proof fn lemma_rows_at_holds(rows: Seq<RowData>, paths: Seq<Seq<char>>, n: int, i: int)
    requires
        0 <= i < n <= rows.len(),
        n <= usize::MAX,
    ensures
        rows_at(rows, paths, n).contains(i as usize) == crate::desk::leads_to_one(rows[i], paths),
    decreases n,
{
    let before = rows_at(rows, paths, n - 1);
    let now = rows_at(rows, paths, n);
    if i < n - 1 {
        lemma_rows_at_holds(rows, paths, n - 1, i);
        if before.contains(i as usize) {
            let k = choose|k: int| 0 <= k < before.len() && before[k] == i as usize;
            assert(now[k] == i as usize);
        }
        if now.contains(i as usize) {
            let k = choose|k: int| 0 <= k < now.len() && now[k] == i as usize;
            assert(k < before.len());
            assert(before[k] == i as usize);
        }
    } else {
        if crate::desk::leads_to_one(rows[i], paths) {
            assert(now[before.len() as int] == i as usize);
        }
        if before.contains(i as usize) {
            lemma_rows_at_below(rows, paths, n - 1);
            let k = choose|k: int| 0 <= k < before.len() && before[k] == i as usize;
            assert(before[k] < n - 1);
        }
    }
}

proof fn lemma_rows_at_below(rows: Seq<RowData>, paths: Seq<Seq<char>>, n: int)
    requires
        0 <= n <= rows.len(),
        n <= usize::MAX,
    ensures
        forall|k: int|
            0 <= k < rows_at(rows, paths, n).len() ==> #[trigger] rows_at(rows, paths, n)[k] < n,
    decreases n,
{
    if n > 0 {
        lemma_rows_at_below(rows, paths, n - 1);
        let before = rows_at(rows, paths, n - 1);
        let now = rows_at(rows, paths, n);
        assert forall|k: int| 0 <= k < now.len() implies #[trigger] now[k] < n by {
            if k < before.len() {
                assert(now[k] == before[k]);
            }
        }
    }
}

/// A refresh keeps the selection: with something selected before, exactly the rows that lead
/// to one of those paths are selected after.
pub proof fn law_refresh_keeps_the_selection(d: Desk, before: Seq<Seq<char>>, i: int)
    requires
        before.len() > 0,
        0 <= i < d.sheet.rows.len(),
        d.sheet.rows.len() <= usize::MAX,
    ensures
        d.restore_selection(before).sheet.selection.items.contains(i as usize)
            == crate::desk::leads_to_one(d.sheet.rows[i], before),
        d.restore_selection(before).sheet.rows == d.sheet.rows,
{
    reveal(Desk::restore_selection);
    lemma_rows_at_holds(d.sheet.rows, before, d.sheet.rows.len() as int, i);
}

/// A folder that was just made is selected and being renamed as soon as it is listed in the
/// folder it was made in.
pub proof fn law_new_folder_is_renamed_once_listed(
    d: Desk,
    dir: Seq<char>,
    name: Seq<char>,
    i: int,
)
    requires
        d.sheet.pending_rename == Some((dir, name)),
        d.sheet.dir() matches Some(t) && comps(t) == comps(dir),
        row_named(d.sheet.rows, name, 0) == Some(i),
    ensures
        d.begin_pending_rename().sheet.renaming == Some(
            Renaming { index: i as usize, value: name },
        ),
        d.begin_pending_rename().sheet.selection == Picked::only(i as usize),
        d.begin_pending_rename().sheet.pending_rename is None,
{
    reveal(Desk::begin_pending_rename);
    reveal(Desk::ensure_visible);
}

/// Sorting by a column a second time turns the order round, and a third time back.
pub proof fn law_sorting_by_a_column_again_turns_it_round(d: Desk, key: SortKey)
    ensures
        d.sort_by(key).sort.key == key,
        d.sort_by(key).sort_by(key).sort.order != d.sort_by(key).sort.order,
        d.sort_by(key).sort_by(key).sort_by(key).sort == d.sort_by(key).sort,
{
    lemma_sort_frame(d, key);
    lemma_sort_frame(d.sort_by(key), key);
    lemma_sort_frame(d.sort_by(key).sort_by(key), key);
}

proof fn lemma_sort_frame(d: Desk, key: SortKey)
    ensures
        ({
            let s = d.sort_by(key).sort;
            &&& s.key == key
            &&& s.folders_first == d.sort.folders_first
            &&& if d.sort.key == key {
                s.order != d.sort.order
            } else {
                s.order == SortOrder::Ascending
            }
        }),
{
    reveal(Desk::sort_by);
    reveal(Desk::recompute_rows);
    reveal(Desk::prefetch_thumbs);
}

/// A search that is already on show is not run again.
pub proof fn law_same_search_is_not_run_again(d: Desk)
    requires
        d.sheet.dir() is Some,
        trim(d.sheet.search_query).len() > 0,
    ensures
        d.begin_search().run_search_if_changed() == d.begin_search(),
{
    reveal(Desk::begin_search);
    reveal(Desk::run_search_if_changed);
    reveal(Desk::recompute_rows);
    let e = d.begin_search();
    let root = d.sheet.dir()->0;
    let query = trim(d.sheet.search_query);
    let mode = d.sheet.search_mode;
    let token = bumped(d.search_token);
    let s = (Desk {
        menu: None,
        search_token: token,
        search_active: Some(crate::desk::Quest { token, root, query, mode }),
        ..d
    }).on(
        Sheet {
            selection: Picked::none(),
            last_click: None,
            content: Shown::Search(Results { root, query, mode, hits: seq![], done: false }),
            ..d.sheet
        },
    ).recompute_rows().says("Searching…"@).scroll_to(0);
    lemma_session_frame(s, false);
    assert(e == s.begin_grid_session(false));
    assert(e.sheet.content == Shown::Search(
        Results { root, query, mode, hits: seq![], done: false },
    ));
}

/// Opening a thumbnail session lifts the overlay, and everything else stays as it is on
/// show.
pub proof fn law_session_lifts_the_overlay(d: Desk, lock: bool)
    ensures
        !d.begin_grid_session(lock).overlay_loading,
        d.begin_grid_session(lock).sheet == d.sheet,
        d.begin_grid_session(lock).thumb_token == bumped(d.thumb_token),
{
    lemma_session_frame(d, lock);
    reveal(Desk::begin_grid_session);
    reveal(Desk::prefetch_thumbs);
    reveal(Desk::seed_background);
    reveal(Desk::next_background_chunk);
}

/// A refresh that fails leaves the view as it is and asks for nothing. Where it superseded a
/// load, the window is not left locked, and the load is still owed: coming back to the tab
/// takes it up again.
pub proof fn law_failed_refresh_leaves_the_view(d: Desk, token: u64, error: String)
    ensures
        ({
            let now = d.handled(Message::Reloaded(token, Err(error)));
            &&& now == (Desk { overlay_loading: now.overlay_loading, ..d })
            &&& now.overlay_loading == (d.overlay_loading && !(d.sheet.load_pending && token
                == d.sheet.load_token))
            &&& d.sheet.load_pending ==> now.show_active() == now.unmenued().load_current()
        }),
{
    reveal(Desk::reloaded);
    reveal(Desk::show_active);
}

/// A load does not get stuck: its result ends it and lifts the overlay, whether the folder
/// could be read or not, and so does a refresh that lands in the middle of it. A refresh that
/// fails lifts the overlay.
pub proof fn law_load_does_not_get_stuck(d: Desk, result: Result<Vec<Entry>, String>)
    requires
        d.sheet.load_pending,
    ensures
        !d.handled(Message::Loaded(d.sheet.load_token, result)).sheet.load_pending,
        !d.handled(Message::Loaded(d.sheet.load_token, result)).overlay_loading,
        result is Ok ==> !d.handled(
            Message::Reloaded(d.sheet.load_token, result),
        ).sheet.load_pending,
        !d.handled(Message::Reloaded(d.sheet.load_token, result)).overlay_loading,
{
    reveal(Desk::loaded);
    reveal(Desk::reloaded);
    if let Ok(entries) = result {
        let content = Shown::Folder(entries@);
        let a = d.adopt_columns();
        let l = a.listed(content);
        lemma_listed_frame(a, content);
        lemma_icons_frame(l);
        lemma_session_frame(l.request_icons(), true);
        lemma_rename_frame(l.request_icons().begin_grid_session(true));
        let before = d.sheet.selected_paths();
        let r = a.on(Sheet { content, ..a.sheet }).recompute_rows().restore_selection(before);
        let s = r.says(crate::labels::items_text(r.sheet.rows.len() as int));
        assert(!s.sheet.load_pending) by {
            reveal(Desk::recompute_rows);
            reveal(Desk::restore_selection);
        }
        lemma_icons_frame(s);
        lemma_session_frame(s.request_icons(), false);
        lemma_rename_frame(s.request_icons().begin_grid_session(false));
    }
}

/// What putting a listing in place leaves alone.
proof fn lemma_listed_frame(d: Desk, content: Shown)
    ensures
        d.listed(content).sheet.load_pending == d.sheet.load_pending,
{
    reveal(Desk::listed);
    reveal(Desk::recompute_rows);
}

/// What asking for icons leaves alone.
proof fn lemma_icons_frame(d: Desk)
    ensures
        d.request_icons().sheet == d.sheet,
{
    reveal(Desk::request_icons);
}

/// What beginning a rename leaves alone.
proof fn lemma_rename_frame(d: Desk)
    ensures
        d.begin_pending_rename().sheet.load_pending == d.sheet.load_pending,
        d.begin_pending_rename().overlay_loading == d.overlay_loading,
{
    reveal(Desk::begin_pending_rename);
    reveal(Desk::ensure_visible);
}

/// The background never queues more thumbnails of a folder than its limit, and works through
/// them in chunks.
pub proof fn law_background_work_is_bounded(d: Desk)
    requires
        d.sheet.view_mode.thumb() is Some,
    ensures
        d.seed_background().bg_queue.len() <= crate::desk::MAX_BACKGROUND_PRECACHE,
        d.seed_background().bg_queue.len() <= 4000,
        d.next_background_chunk().bg_queue.len() + 24 >= d.bg_queue.len(),
        d.next_background_chunk().out.len() <= d.out.len() + 1,
        d.bg_queue.len() > 0 ==> d.next_background_chunk().bg_queue.len() < d.bg_queue.len(),
{
    reveal(Desk::seed_background);
    reveal(Desk::next_background_chunk);
}

/// Whether a key is the key of a row's thumbnail, spelled as in the row.
pub open spec fn thumb_on_show(d: Desk, px: u16, key: ThumbName) -> bool {
    exists|i: int|
        0 <= i < d.sheet.rows.len() && #[trigger] thumb_of(d.sheet.rows[i], px) == Some(key)
}

/// Whether a key is the icon of a row or of a tree node on show, spelled as it is there.
pub open spec fn icon_on_show(d: Desk, key: IconName) -> bool {
    ||| exists|i: int| 0 <= i < d.sheet.rows.len() && (#[trigger] d.sheet.rows[i]).icon == key
    ||| exists|i: int|
        0 <= i < sidebar(d.nodes).len() && (#[trigger] sidebar(d.nodes)[i]).icon == key
}

/// What the shell is asked for is on show: each icon that is asked for is that of a row or a
/// tree node, each thumbnail that is looked for or queued that of a row, and each is asked
/// for by the path as it is spelled there.
pub proof fn law_requested_keys_are_on_show(d: Desk, px: u16, lock: bool)
    requires
        d.sheet.view_mode.thumb() == Some(px),
    ensures
        d.request_icons().out == d.out || exists|keys: Seq<IconName>|
            d.request_icons().out == #[trigger] d.out.push(Act::ExtractIcons(keys)) && forall|i: int|
                0 <= i < keys.len() ==> icon_on_show(d, #[trigger] keys[i]),
        d.prefetch_thumbs(lock).out == d.out || exists|keys: Seq<ThumbName>|
            d.prefetch_thumbs(lock).out == #[trigger] d.out.push(
                Act::SweepThumbs { keys, token: d.thumb_token, lock },
            ) && forall|i: int| 0 <= i < keys.len() ==> thumb_on_show(d, px, #[trigger] keys[i]),
        d.seed_background().out == d.out || exists|keys: Seq<ThumbName>|
            d.seed_background().out == #[trigger] d.out.push(
                Act::ExtractThumbs {
                    keys,
                    token: d.thumb_token,
                    kind: ThumbKind::Background,
                },
            ) && forall|i: int| 0 <= i < keys.len() ==> thumb_on_show(d, px, #[trigger] keys[i]),
        forall|i: int|
            0 <= i < d.seed_background().bg_queue.len() ==> thumb_on_show(
                d,
                px,
                #[trigger] d.seed_background().bg_queue[i],
            ),
{
    lemma_icons_on_show(d);
    lemma_sweep_on_show(d, px, lock);
    lemma_background_on_show(d, px);
}

proof fn lemma_icons_on_show(d: Desk)
    ensures
        d.request_icons().out == d.out || exists|keys: Seq<IconName>|
            d.request_icons().out == #[trigger] d.out.push(Act::ExtractIcons(keys)) && forall|i: int|
                0 <= i < keys.len() ==> icon_on_show(d, #[trigger] keys[i]),
{
    reveal(Desk::request_icons);
    let shown = d.shown_icons();
    let keys = newly_wanted(d.icons, d.icons_asked, shown);
    law_each_key_is_requested_once(d.icons, d.icons_asked, shown);
    assert forall|i: int| 0 <= i < keys.len() implies icon_on_show(d, #[trigger] keys[i]) by {
        assert(shown.contains(keys[i]));
        let k = choose|k: int| 0 <= k < shown.len() && shown[k] == keys[i];
        let n = d.sheet.rows.len() as int;
        if k < n {
            assert(d.sheet.rows[k].icon == keys[i]);
        } else {
            assert(sidebar(d.nodes)[k - n].icon == keys[i]);
        }
    }
    assert(keys.len() > 0 ==> d.request_icons().out == d.out.push(Act::ExtractIcons(keys)));
}

proof fn lemma_sweep_on_show(d: Desk, px: u16, lock: bool)
    requires
        d.sheet.view_mode.thumb() == Some(px),
    ensures
        d.prefetch_thumbs(lock).out == d.out || exists|keys: Seq<ThumbName>|
            d.prefetch_thumbs(lock).out == #[trigger] d.out.push(
                Act::SweepThumbs { keys, token: d.thumb_token, lock },
            ) && forall|i: int| 0 <= i < keys.len() ==> thumb_on_show(d, px, #[trigger] keys[i]),
{
    reveal(Desk::prefetch_thumbs);
    let r = thumb_range(
        d.sheet.scroll as int,
        d.viewport as int,
        d.pane_w as int,
        d.sheet.rows.len() as int,
        d.sheet.view_mode,
    );
    let near = d.visible_thumbs(px);
    let keys = newly_wanted(d.thumbs.handles, d.thumbs.requested, near);
    law_each_key_is_requested_once(d.thumbs.handles, d.thumbs.requested, near);
    crate::geometry::lemma_thumb_range(
        d.sheet.scroll as int,
        d.viewport as int,
        d.pane_w as int,
        d.sheet.rows.len() as int,
        d.sheet.view_mode,
    );
    let rows = d.sheet.rows.subrange(r.0, r.1);
    assert forall|i: int| 0 <= i < keys.len() implies thumb_on_show(d, px, #[trigger] keys[i]) by {
        assert(near.contains(keys[i]));
        let k = lemma_thumb_has_row(rows, px, keys[i]);
        assert(rows[k] == d.sheet.rows[k + r.0]);
        assert(thumb_of(d.sheet.rows[k + r.0], px) == Some(keys[i]));
    }
    let act = Act::SweepThumbs { keys, token: d.thumb_token, lock };
    assert(keys.len() > 0 ==> d.prefetch_thumbs(lock).out == d.out.push(act));
}

proof fn lemma_background_on_show(d: Desk, px: u16)
    requires
        d.sheet.view_mode.thumb() == Some(px),
    ensures
        d.seed_background().out == d.out || exists|keys: Seq<ThumbName>|
            d.seed_background().out == #[trigger] d.out.push(
                Act::ExtractThumbs {
                    keys,
                    token: d.thumb_token,
                    kind: ThumbKind::Background,
                },
            ) && forall|i: int| 0 <= i < keys.len() ==> thumb_on_show(d, px, #[trigger] keys[i]),
        forall|i: int|
            0 <= i < d.seed_background().bg_queue.len() ==> thumb_on_show(
                d,
                px,
                #[trigger] d.seed_background().bg_queue[i],
            ),
{
    reveal(Desk::seed_background);
    reveal(Desk::next_background_chunk);
    let all = thumbs_of(d.sheet.rows, px);
    let needed = newly_wanted(d.thumbs.handles, d.thumbs.requested, all);
    law_each_key_is_requested_once(d.thumbs.handles, d.thumbs.requested, all);
    assert forall|i: int| 0 <= i < needed.len() implies thumb_on_show(d, px, #[trigger] needed[i]) by {
        assert(all.contains(needed[i]));
        let k = lemma_thumb_has_row(d.sheet.rows, px, needed[i]);
        assert(thumb_of(d.sheet.rows[k], px) == Some(needed[i]));
    }
    let cap = crate::desk::MAX_BACKGROUND_PRECACHE as int;
    let queue = if needed.len() > cap {
        needed.take(cap)
    } else {
        needed
    };
    let n = crate::geometry::least(queue.len() as int, crate::desk::BG_CHUNK as int);
    let keys = queue.take(n);
    let now = d.seed_background();
    if queue.len() > 0 {
        let act = Act::ExtractThumbs {
            keys,
            token: d.thumb_token,
            kind: ThumbKind::Background,
        };
        assert(now.out == d.out.push(act));
        assert(now.bg_queue == queue.skip(n));
        assert forall|i: int| 0 <= i < now.bg_queue.len() implies thumb_on_show(
            d,
            px,
            #[trigger] now.bg_queue[i],
        ) by {
            assert(now.bg_queue[i] == needed[i + n]);
        }
        assert forall|i: int| 0 <= i < keys.len() implies thumb_on_show(d, px, #[trigger] keys[i]) by {
            assert(keys[i] == needed[i]);
        }
    }
}

/// A thumbnail of rows is that of one of them.
proof fn lemma_thumb_has_row(rows: Seq<RowData>, px: u16, key: ThumbName) -> (i: int)
    requires
        thumbs_of(rows, px).contains(key),
    ensures
        0 <= i < rows.len(),
        thumb_of(rows[i], px) == Some(key),
    decreases rows.len(),
{
    let all = thumbs_of(rows, px);
    let at = choose|k: int| 0 <= k < all.len() && all[k] == key;
    let rest = rows.drop_last();
    let before = thumbs_of(rest, px);
    if at < before.len() {
        assert(before[at] == key);
        assert(before.contains(key));
        let i = lemma_thumb_has_row(rest, px, key);
        assert(rest[i] == rows[i]);
        i
    } else {
        rows.len() - 1
    }
}

/// Under the loading overlay no text field can be edited, and nothing that is typed leads
/// anywhere.
pub proof fn law_overlay_locks_the_text_fields(
    d: Desk,
    text: String,
    mode: crate::search::SearchMode,
)
    requires
        d.overlay_loading,
    ensures
        d.handled(Message::AddressChanged(text)) == d,
        d.handled(Message::AddressSubmit) == d,
        d.handled(Message::RenameChanged(text)) == d,
        d.handled(Message::RenameCommit) == d,
        d.handled(Message::SearchChanged(text)) == d,
        d.handled(Message::SearchSubmit) == d,
        d.handled(Message::SearchModeChanged(mode)) == d,
        d.handled(Message::SearchClear) == d,
{
}

/// Under the loading overlay no command of the keyboard does anything.
pub proof fn law_overlay_locks_the_commands(
    d: Desk,
    nav: crate::message::Nav,
    extend: bool,
    focus_only: bool,
)
    requires
        d.overlay_loading,
    ensures
        d.handled(Message::Copy) == d,
        d.handled(Message::Cut) == d,
        d.handled(Message::Paste) == d,
        d.handled(Message::SelectAll) == d,
        d.handled(Message::MoveSelection(nav, extend, focus_only)) == d,
        d.handled(Message::Activate) == d,
        d.handled(Message::GoUp) == d,
        d.handled(Message::DeleteSelected) == d,
        d.handled(Message::RenameStart) == d,
        d.handled(Message::Refresh) == d,
        d.handled(Message::CloseMenu) == d,
        d.handled(Message::NewTab) == d,
        d.handled(Message::CloseActiveTab) == d,
        d.handled(Message::NextTab) == d,
        d.handled(Message::PrevTab) == d,
{
}

} // verus!
