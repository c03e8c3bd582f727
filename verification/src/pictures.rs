//! What holds of icons, thumbnails and the tree, in every state.

use crate::assoc::{idents, Spelled};
use crate::browsing::{lemma_session, only_adds, reveals};
use crate::desk::{partition, shelved, thumbs_of, with_icons, Desk, Sheet, Shown};
use crate::icons::{law_each_key_is_requested_once, newly_wanted, IconId, IconKey};
use crate::message::{Act, Message, ThumbKind};
use crate::model::Entry;
use crate::rows::RowData;
use crate::thumbs::{
    all_inserted, thumb_names, CacheSweep, Shelf, ThumbId, ThumbKey, ThumbName,
};
use crate::tree::{
    flat_children, grafted, ids_unique, is_tree, law_toggle_changes_one_node, lemma_index_of,
    numbered, sidebar, Children, Node, TreeChild, ROOT_ID,
};
use vstd::prelude::*;

verus! {

// ---------------------------------------------------------------- icons

/// Icons that come in are kept: of several for one key the last. Every other icon stays, and
/// nothing else changes.
pub proof fn law_icons_are_kept(d: Desk, loaded: Vec<(IconKey, u64)>)
    ensures
        ({
            let e = d.handled(Message::IconsLoaded(loaded));
            &&& e == (Desk { icons: e.icons, ..d })
            &&& forall|k: int|
                #![trigger loaded@[k]]
                0 <= k < loaded@.len() && (forall|j: int|
                    k < j < loaded@.len() ==> loaded@[j].0.icon_id() != loaded@[k].0.icon_id())
                    ==> e.icons.contains_key(loaded@[k].0.icon_id())
                    && e.icons[loaded@[k].0.icon_id()] == loaded@[k].1
            &&& forall|id: IconId|
                #![trigger e.icons.contains_key(id)]
                (forall|k: int| 0 <= k < loaded@.len() ==> (#[trigger] loaded@[k]).0.icon_id()
                    != id) ==> (e.icons.contains_key(id) <==> d.icons.contains_key(id)) && (
                d.icons.contains_key(id) ==> e.icons[id] == d.icons[id])
        }),
{
    reveal(Desk::icons_loaded);
    let e = d.handled(Message::IconsLoaded(loaded));
    let s = loaded@;
    assert forall|k: int|
        #![trigger loaded@[k]]
        0 <= k < s.len() && (forall|j: int|
            k < j < s.len() ==> s[j].0.icon_id() != s[k].0.icon_id()) implies e.icons.contains_key(
        s[k].0.icon_id(),
    ) && e.icons[s[k].0.icon_id()] == s[k].1 by {
        lemma_icon_kept(d.icons, s, k);
    }
    assert forall|id: IconId|
        #![trigger e.icons.contains_key(id)]
        (forall|k: int| 0 <= k < s.len() ==> (#[trigger] s[k]).0.icon_id() != id) implies (
    e.icons.contains_key(id) <==> d.icons.contains_key(id)) && (d.icons.contains_key(id)
        ==> e.icons[id] == d.icons[id]) by {
        lemma_icon_left(d.icons, s, id);
    }
}

proof fn lemma_icon_kept(icons: Map<IconId, u64>, s: Seq<(IconKey, u64)>, k: int)
    requires
        0 <= k < s.len(),
        forall|j: int| k < j < s.len() ==> s[j].0.icon_id() != s[k].0.icon_id(),
    ensures
        with_icons(icons, s).contains_key(s[k].0.icon_id()),
        with_icons(icons, s)[s[k].0.icon_id()] == s[k].1,
    decreases s.len(),
{
    let t = s.drop_last();
    if k < t.len() {
        assert(t[k] == s[k]);
        assert forall|j: int| k < j < t.len() implies t[j].0.icon_id() != t[k].0.icon_id() by {
            assert(t[j] == s[j]);
        }
        lemma_icon_kept(icons, t, k);
        assert(s[s.len() - 1].0.icon_id() != s[k].0.icon_id());
    }
}

proof fn lemma_icon_left(icons: Map<IconId, u64>, s: Seq<(IconKey, u64)>, id: IconId)
    requires
        forall|k: int| 0 <= k < s.len() ==> (#[trigger] s[k]).0.icon_id() != id,
    ensures
        with_icons(icons, s).contains_key(id) <==> icons.contains_key(id),
        icons.contains_key(id) ==> with_icons(icons, s)[id] == icons[id],
    decreases s.len(),
{
    if s.len() > 0 {
        let t = s.drop_last();
        assert forall|k: int| 0 <= k < t.len() implies (#[trigger] t[k]).0.icon_id() != id by {
            assert(t[k] == s[k]);
        }
        lemma_icon_left(icons, t, id);
        assert(s[s.len() - 1].0.icon_id() != id);
    }
}

/// Whether the icon of every row and of every node in the sidebar is there or on its way.
pub open spec fn icons_provided(d: Desk) -> bool {
    &&& forall|i: int|
        #![trigger d.sheet.rows[i]]
        0 <= i < d.sheet.rows.len() ==> d.icons.contains_key(d.sheet.rows[i].icon.id())
            || d.icons_asked.contains(d.sheet.rows[i].icon.id())
    &&& forall|i: int|
        #![trigger sidebar(d.nodes)[i]]
        0 <= i < sidebar(d.nodes).len() ==> d.icons.contains_key(sidebar(d.nodes)[i].icon.id())
            || d.icons_asked.contains(sidebar(d.nodes)[i].icon.id())
}

/// Whether an icon is among those that the acts from `from` on ask for.
pub open spec fn icon_asked_for(out: Seq<Act>, from: int, id: IconId) -> bool {
    exists|i: int|
        from <= i < out.len() && ((#[trigger] out[i]) matches Act::ExtractIcons(keys) && idents(
            keys,
        ).contains(id))
}

/// Whether every icon that `e` expects and `d` did not is asked for.
pub open spec fn icons_asked_for(d: Desk, e: Desk) -> bool {
    forall|id: IconId| #[trigger]
        e.icons_asked.contains(id) && !d.icons_asked.contains(id) ==> icon_asked_for(
            e.out,
            d.out.len() as int,
            id,
        )
}

proof fn lemma_request(d: Desk)
    ensures
        ({
            let e = d.request_icons();
            &&& icons_provided(e)
            &&& icons_asked_for(d, e)
            &&& e == (Desk { icons_asked: e.icons_asked, out: e.out, ..d })
            &&& only_adds(d.out, e.out)
            &&& forall|id: IconId| #[trigger]
                d.icons_asked.contains(id) ==> e.icons_asked.contains(id)
        }),
{
    reveal(Desk::request_icons);
    let shown = d.shown_icons();
    let keys = newly_wanted(d.icons, d.icons_asked, shown);
    law_each_key_is_requested_once(d.icons, d.icons_asked, shown);
    let e = d.request_icons();
    let n = d.sheet.rows.len() as int;
    assert forall|i: int|
        #![trigger e.sheet.rows[i]]
        0 <= i < n implies e.icons.contains_key(e.sheet.rows[i].icon.id())
        || e.icons_asked.contains(e.sheet.rows[i].icon.id()) by {
        assert(shown[i] == e.sheet.rows[i].icon);
        if idents(keys).contains(shown[i].id()) {
            assert(idents(keys).to_set().contains(shown[i].id()));
        }
    }
    assert forall|i: int|
        #![trigger sidebar(e.nodes)[i]]
        0 <= i < sidebar(e.nodes).len() implies e.icons.contains_key(sidebar(e.nodes)[i].icon.id())
        || e.icons_asked.contains(sidebar(e.nodes)[i].icon.id()) by {
        assert(shown[n + i] == sidebar(e.nodes)[i].icon);
        if idents(keys).contains(shown[n + i].id()) {
            assert(idents(keys).to_set().contains(shown[n + i].id()));
        }
    }
    assert forall|id: IconId| #[trigger]
        e.icons_asked.contains(id) && !d.icons_asked.contains(id) implies icon_asked_for(
        e.out,
        d.out.len() as int,
        id,
    ) by {
        assert(idents(keys).to_set().contains(id));
        assert(keys.len() > 0);
        assert(e.out[d.out.len() as int] == Act::ExtractIcons(keys));
    }
}

/// What comes later keeps the icons provided.
proof fn lemma_still_provided(d: Desk, r: Desk, e: Desk, from: Desk)
    requires
        icons_provided(r),
        icons_asked_for(d, r),
        only_adds(r.out, e.out),
        from.out.len() <= d.out.len(),
        from.icons_asked == d.icons_asked,
        e.sheet.rows == r.sheet.rows,
        e.nodes == r.nodes,
        e.icons == r.icons,
        e.icons_asked == r.icons_asked,
    ensures
        icons_provided(e),
        icons_asked_for(from, e),
{
    assert forall|id: IconId| #[trigger]
        e.icons_asked.contains(id) && !from.icons_asked.contains(id) implies icon_asked_for(
        e.out,
        from.out.len() as int,
        id,
    ) by {
        assert(r.icons_asked.contains(id));
        let i = choose|i: int|
            d.out.len() <= i < r.out.len() && ((#[trigger] r.out[i]) matches Act::ExtractIcons(keys)
                && idents(keys).contains(id));
        assert(e.out[i] == r.out[i]);
    }
}

/// Whatever fills the list has its icons provided: those of all rows and of the sidebar are
/// there, on their way, or asked for now.
pub proof fn law_listed_rows_get_their_icons(
    d: Desk,
    entries: Vec<Entry>,
    drives: Vec<crate::drives::DriveInfo>,
    distros: Vec<crate::wsl::WslDistro>,
    hits: Vec<crate::search::SearchHit>,
    hidden: bool,
)
    ensures
        ({
            let e = d.handled(Message::Loaded(d.sheet.load_token, Ok(entries)));
            icons_provided(e) && icons_asked_for(d, e)
        }),
        ({
            let e = d.handled(Message::Reloaded(d.sheet.load_token, Ok(entries)));
            icons_provided(e) && icons_asked_for(d, e)
        }),
        d.sheet.history.current is ThisPc ==> ({
            let e = d.handled(Message::ThisPcLoaded(drives));
            icons_provided(e) && icons_asked_for(d, e)
        }),
        d.sheet.history.current is Wsl ==> ({
            let e = d.handled(Message::WslLoaded(distros));
            icons_provided(e) && icons_asked_for(d, e)
        }),
        d.sheet.content is Search ==> ({
            let e = d.handled(Message::SearchBatch { token: d.search_token, hits });
            icons_provided(e) && icons_asked_for(d, e)
        }),
        ({
            let e = d.handled(Message::SetHidden(hidden));
            icons_provided(e) && icons_asked_for(d, e)
        }),
{
    lemma_loaded_icons(d, entries);
    lemma_reloaded_icons(d, entries);
    lemma_landing_icons(d, Shown::ThisPc(drives@));
    lemma_landing_icons(d, Shown::Wsl(distros@));
    reveal(Desk::arrived);
    lemma_batch_icons(d, hits);
    lemma_hidden_icons(d, hidden);
}

proof fn lemma_rename_later(d: Desk)
    ensures
        ({
            let e = d.begin_pending_rename();
            &&& e.sheet.rows == d.sheet.rows
            &&& e.sheet.content == d.sheet.content
            &&& e.sheet.view_mode == d.sheet.view_mode
            &&& e == (Desk { sheet: e.sheet, out: e.out, ..d })
            &&& only_adds(d.out, e.out)
        }),
{
    reveal(Desk::begin_pending_rename);
    reveal(Desk::ensure_visible);
}

proof fn lemma_loaded_icons(d: Desk, entries: Vec<Entry>)
    ensures
        ({
            let e = d.handled(Message::Loaded(d.sheet.load_token, Ok(entries)));
            icons_provided(e) && icons_asked_for(d, e)
        }),
{
    reveal(Desk::loaded);
    let l = d.adopt_columns().listed(Shown::Folder(entries@));
    assert(l == (Desk { sheet: l.sheet, ..d })) by {
        reveal(Desk::listed);
        reveal(Desk::recompute_rows);
    }
    lemma_request(l);
    let r = l.request_icons();
    lemma_session(r, true);
    let g = r.begin_grid_session(true);
    lemma_rename_later(g);
    let e = g.begin_pending_rename();
    assert forall|i: int| 0 <= i < r.out.len() implies #[trigger] e.out[i] == r.out[i] by {
        assert(g.out[i] == r.out[i]);
    }
    lemma_still_provided(l, r, e, d);
}

proof fn lemma_reloaded_icons(d: Desk, entries: Vec<Entry>)
    ensures
        ({
            let e = d.handled(Message::Reloaded(d.sheet.load_token, Ok(entries)));
            icons_provided(e) && icons_asked_for(d, e)
        }),
{
    reveal(Desk::reloaded);
    let a = if d.sheet.load_pending {
        d.adopt_columns()
    } else {
        d
    };
    let l = a.on(Sheet { content: Shown::Folder(entries@), ..a.sheet }).recompute_rows()
        .restore_selection(d.sheet.selected_paths());
    let s = l.says(crate::labels::items_text(l.sheet.rows.len() as int));
    assert(s == (Desk { sheet: s.sheet, ..d })) by {
        reveal(Desk::recompute_rows);
        reveal(Desk::restore_selection);
    }
    lemma_request(s);
    let r = s.request_icons();
    lemma_session(r, false);
    let g = r.begin_grid_session(false);
    lemma_rename_later(g);
    let e = g.begin_pending_rename();
    assert forall|i: int| 0 <= i < r.out.len() implies #[trigger] e.out[i] == r.out[i] by {
        assert(g.out[i] == r.out[i]);
    }
    lemma_still_provided(s, r, e, d);
}

proof fn lemma_landing_icons(d: Desk, content: Shown)
    ensures
        icons_provided(d.landing_loaded(content)),
        icons_asked_for(d, d.landing_loaded(content)),
{
    reveal(Desk::landing_loaded);
    let l = d.listed(content);
    assert(l == (Desk { sheet: l.sheet, ..d })) by {
        reveal(Desk::listed);
        reveal(Desk::recompute_rows);
    }
    lemma_request(l);
    let r = l.request_icons();
    lemma_session(r, true);
    lemma_still_provided(l, r, r.begin_grid_session(true), d);
}

proof fn lemma_batch_icons(d: Desk, hits: Vec<crate::search::SearchHit>)
    ensures
        d.sheet.content is Search ==> ({
            let e = d.handled(Message::SearchBatch { token: d.search_token, hits });
            icons_provided(e) && icons_asked_for(d, e)
        }),
{
    reveal(Desk::search_batch);
    if let Shown::Search(r) = d.sheet.content {
        let all = r.hits + hits@;
        let b = d.on(
            Sheet {
                content: Shown::Search(
                    crate::desk::Results { hits: all, done: false, ..r },
                ),
                ..d.sheet
            },
        ).recompute_rows().says(crate::labels::found_text(all.len() as int));
        assert(b == (Desk { sheet: b.sheet, ..d })) by {
            reveal(Desk::recompute_rows);
        }
        lemma_request(b);
        let q = b.request_icons();
        let e = q.prefetch_thumbs(false);
        assert(only_adds(q.out, e.out) && e == (Desk { thumbs: e.thumbs, out: e.out, ..q })) by {
            reveal(Desk::prefetch_thumbs);
        }
        lemma_still_provided(b, q, e, d);
    }
}

proof fn lemma_hidden_icons(d: Desk, hidden: bool)
    ensures
        icons_provided(d.handled(Message::SetHidden(hidden))),
        icons_asked_for(d, d.handled(Message::SetHidden(hidden))),
{
    reveal(Desk::set_hidden);
    let b = (Desk { show_hidden: hidden, ..d }).recompute_rows();
    assert(b == (Desk { sheet: b.sheet, show_hidden: hidden, ..d })) by {
        reveal(Desk::recompute_rows);
    }
    let s = b.emit(Act::SaveSettings(b.settings()));
    lemma_request(s);
    let r = s.request_icons();
    lemma_session(r, false);
    lemma_still_provided(s, r, r.begin_grid_session(false), d);
}

// ---------------------------------------------------------------- thumbnails

/// The thumbnails that come in, as what they are for and their images.
pub open spec fn incoming(images: Seq<(ThumbKey, u64)>) -> Seq<(ThumbId, u64)> {
    images.map_values(|x: (ThumbKey, u64)| (x.0.thumb_id(), x.1))
}

proof fn lemma_shelved(s: Shelf<u64>, images: Seq<(ThumbKey, u64)>)
    ensures
        shelved(s, images) == all_inserted(s, incoming(images)),
    decreases images.len(),
{
    let items = incoming(images);
    if images.len() > 0 {
        lemma_shelved(s, images.drop_last());
        assert(items.drop_last() =~= incoming(images.drop_last()));
        assert(items.last() == (images.last().0.thumb_id(), images.last().1));
    }
}

/// Whether every thumbnail of the list is there or on its way.
pub open spec fn all_on_their_way(d: Desk, px: u16) -> bool {
    forall|i: int|
        #![trigger d.sheet.rows[i]]
        0 <= i < d.sheet.rows.len() && d.sheet.rows[i].target is Path ==> {
            let id = (ThumbName {
                path: d.sheet.rows[i].target->Path_0,
                size: px,
                mtime: d.sheet.rows[i].modified,
            }).id();
            d.thumbs.handles.contains_key(id) || d.thumbs.requested.contains(id)
        }
}

/// Whether every thumbnail of a folder with no more rows than one folder is worked through,
/// 4000, is there or on its way.
pub open spec fn folder_provided(d: Desk, e: Desk) -> bool {
    match d.sheet.view_mode.thumb() {
        Some(px) => d.sheet.rows.len() <= 4000 ==> all_on_their_way(e, px),
        None => true,
    }
}

proof fn lemma_thumb_listed(rows: Seq<RowData>, px: u16, i: int)
    requires
        0 <= i < rows.len(),
        rows[i].target is Path,
    ensures
        thumbs_of(rows, px).contains(
            ThumbName { path: rows[i].target->Path_0, size: px, mtime: rows[i].modified },
        ),
        thumbs_of(rows, px).len() <= rows.len(),
    decreases rows.len(),
{
    let t = rows.drop_last();
    let before = thumbs_of(t, px);
    let all = thumbs_of(rows, px);
    lemma_thumbs_count(t, px);
    let name = ThumbName { path: rows[i].target->Path_0, size: px, mtime: rows[i].modified };
    if i < t.len() {
        lemma_thumb_listed(t, px, i);
        assert(t[i] == rows[i]);
        let k = choose|k: int| 0 <= k < before.len() && before[k] == name;
        assert(all[k] == name);
    } else {
        assert(all[before.len() as int] == name);
    }
}

proof fn lemma_thumbs_count(rows: Seq<RowData>, px: u16)
    ensures
        thumbs_of(rows, px).len() <= rows.len(),
    decreases rows.len(),
{
    if rows.len() > 0 {
        lemma_thumbs_count(rows.drop_last(), px);
    }
}

proof fn lemma_wanted_count(s: Shelf<u64>, keys: Seq<ThumbName>)
    ensures
        newly_wanted(s.handles, s.requested, keys).len() <= keys.len(),
    decreases keys.len(),
{
    if keys.len() > 0 {
        lemma_wanted_count(s, keys.drop_last());
    }
}

/// Working through a folder in the background has every thumbnail of it there or on its way,
/// if there are no more rows than one folder is worked through.
proof fn lemma_seed(d: Desk, px: u16)
    requires
        d.sheet.view_mode.thumb() == Some(px),
        d.sheet.rows.len() <= 4000,
    ensures
        all_on_their_way(d.seed_background(), px),
        d.seed_background() == (Desk {
            thumbs: d.seed_background().thumbs,
            bg_queue: d.seed_background().bg_queue,
            out: d.seed_background().out,
            ..d
        }),
        only_adds(d.out, d.seed_background().out),
        d.seed_background().thumbs.handles == d.thumbs.handles,
{
    reveal(Desk::seed_background);
    reveal(Desk::next_background_chunk);
    let keys = thumbs_of(d.sheet.rows, px);
    let needed = newly_wanted(d.thumbs.handles, d.thumbs.requested, keys);
    law_each_key_is_requested_once(d.thumbs.handles, d.thumbs.requested, keys);
    lemma_wanted_count(d.thumbs, keys);
    lemma_thumbs_count(d.sheet.rows, px);
    let e = d.seed_background();
    assert(e.thumbs == d.thumbs.asked(keys));
    assert forall|i: int|
        #![trigger e.sheet.rows[i]]
        0 <= i < e.sheet.rows.len() && e.sheet.rows[i].target is Path implies {
        let id = (ThumbName {
            path: e.sheet.rows[i].target->Path_0,
            size: px,
            mtime: e.sheet.rows[i].modified,
        }).id();
        e.thumbs.handles.contains_key(id) || e.thumbs.requested.contains(id)
    } by {
        lemma_thumb_listed(d.sheet.rows, px, i);
        let name = ThumbName {
            path: d.sheet.rows[i].target->Path_0,
            size: px,
            mtime: d.sheet.rows[i].modified,
        };
        let k = choose|k: int| 0 <= k < keys.len() && keys[k] == name;
        assert(keys[k].id() == name.id());
        if idents(needed).contains(name.id()) {
            assert(idents(needed).to_set().contains(name.id()));
        }
    }
}

/// Thumbnails that come in are kept, as the cache keeps them. Those that the window is locked
/// for lift the overlay, and every other thumbnail of the folder is then on its way; a chunk
/// made in the background is followed by the next; and others lead to nothing.
pub proof fn law_thumbnails_are_kept(
    d: Desk,
    images: Vec<(ThumbKey, u64)>,
    token: u64,
    kind: ThumbKind,
)
    requires
        token == d.thumb_token,
    ensures
        ({
            let e = d.handled(Message::ThumbsLoaded { images, token, kind });
            let kept = all_inserted(d.thumbs, incoming(images@));
            &&& e.thumbs.handles == kept.handles
            &&& e.thumbs.order == kept.order
            &&& only_adds(d.out, e.out)
            &&& e == (Desk {
                thumbs: e.thumbs,
                overlay_loading: e.overlay_loading,
                bg_queue: e.bg_queue,
                out: e.out,
                ..d
            })
            &&& match kind {
                ThumbKind::Lock => {
                    &&& !e.overlay_loading
                    &&& folder_provided(d, e)
                },
                ThumbKind::Prefetch => e == (Desk { thumbs: kept, ..d }),
                ThumbKind::Background => {
                    &&& e.overlay_loading == d.overlay_loading
                    &&& e.thumbs == kept
                    &&& works_on(d, e)
                },
            }
        }),
{
    reveal(Desk::thumbs_loaded);
    lemma_shelved(d.thumbs, images@);
    let kept = all_inserted(d.thumbs, incoming(images@));
    match kind {
        ThumbKind::Lock => {
            let b = Desk { thumbs: kept, overlay_loading: false, ..d };
            if d.sheet.rows.len() <= 4000 {
                if let Some(px) = d.sheet.view_mode.thumb() {
                    lemma_seed(b, px);
                }
            }
            reveal(Desk::seed_background);
            reveal(Desk::next_background_chunk);
        },
        ThumbKind::Prefetch => {},
        ThumbKind::Background => {
            lemma_chunk(Desk { thumbs: kept, ..d });
        },
    }
}

/// Whether `e` has taken the first of what `d` has queued, up to a chunk of 24, and asks for
/// exactly those; with nothing queued nothing happens.
pub open spec fn works_on(d: Desk, e: Desk) -> bool {
    if d.bg_queue.len() == 0 {
        e.bg_queue == d.bg_queue && e.out == d.out
    } else {
        exists|keys: Seq<ThumbName>|
            {
                &&& 1 <= keys.len() <= 24
                &&& d.bg_queue == keys + e.bg_queue
                &&& e.bg_queue.len() == 0 || keys.len() == 24
                &&& e.out == #[trigger] d.out.push(
                    Act::ExtractThumbs {
                        keys,
                        token: d.thumb_token,
                        kind: ThumbKind::Background,
                    },
                )
            }
    }
}

proof fn lemma_chunk(d: Desk)
    ensures
        works_on(d, d.next_background_chunk()),
        d.next_background_chunk() == (Desk {
            bg_queue: d.next_background_chunk().bg_queue,
            out: d.next_background_chunk().out,
            ..d
        }),
{
    reveal(Desk::next_background_chunk);
    if d.bg_queue.len() > 0 {
        let n = crate::geometry::least(d.bg_queue.len() as int, 24);
        let keys = d.bg_queue.take(n);
        let e = d.next_background_chunk();
        assert(d.bg_queue =~= keys + e.bg_queue);
        assert(e.out == d.out.push(
            Act::ExtractThumbs { keys, token: d.thumb_token, kind: ThumbKind::Background },
        ));
    }
}

proof fn lemma_partition(misses: Seq<ThumbName>, near: Seq<ThumbName>, keep: bool)
    ensures
        partition(misses, near, keep) == misses.filter(
            |m: ThumbName| idents(near).contains(m.id()) == keep,
        ),
    decreases misses.len(),
{
    reveal(Seq::filter);
    if misses.len() > 0 {
        lemma_partition(misses.drop_last(), near, keep);
    }
}

/// What a look for ready thumbnails finds is kept. Of those it misses, the ones near the
/// viewport are extracted, under the overlay where the look opened a session, and the others
/// may be asked for again. Where none is near, a session goes on in the background.
pub proof fn law_missed_thumbnails_are_extracted(d: Desk, sweep: CacheSweep<u64>, lock: bool)
    ensures
        ({
            let e = d.handled(Message::ThumbsCached { sweep, token: d.thumb_token, lock });
            let kept = all_inserted(d.thumbs, incoming(sweep.hits@));
            let near = match d.sheet.view_mode.thumb() {
                Some(px) => idents(d.visible_thumbs(px)),
                None => seq![],
            };
            let misses = thumb_names(sweep.misses@);
            let extract = misses.filter(|m: ThumbName| near.contains(m.id()));
            let skip = misses.filter(|m: ThumbName| !near.contains(m.id()));
            &&& e.thumbs.handles == kept.handles
            &&& e.thumbs.order == kept.order
            &&& only_adds(d.out, e.out)
            &&& e == (Desk {
                thumbs: e.thumbs,
                overlay_loading: e.overlay_loading,
                bg_queue: e.bg_queue,
                out: e.out,
                ..d
            })
            &&& if extract.len() > 0 {
                &&& e.thumbs.requested == kept.requested.difference(idents(skip).to_set())
                &&& e.bg_queue == d.bg_queue
                &&& e.overlay_loading == (lock || d.overlay_loading)
                &&& e.out.last() == (Act::ExtractThumbs {
                    keys: extract,
                    token: d.thumb_token,
                    kind: if lock {
                        ThumbKind::Lock
                    } else {
                        ThumbKind::Prefetch
                    },
                })
                &&& lock ==> e.out.len() == d.out.len() + 2 && e.out[d.out.len() as int]
                    == Act::ClearFocus
                &&& !lock ==> e.out.len() == d.out.len() + 1
            } else {
                &&& e.overlay_loading == d.overlay_loading
                &&& !lock ==> e.out == d.out && e.bg_queue == d.bg_queue && e.thumbs.requested
                    == kept.requested.difference(idents(skip).to_set())
                &&& lock ==> folder_provided(d, e)
            }
        }),
{
    reveal(Desk::thumbs_cached);
    lemma_shelved(d.thumbs, sweep.hits@);
    let kept = all_inserted(d.thumbs, incoming(sweep.hits@));
    let b = Desk { thumbs: kept, ..d };
    let shown = match d.sheet.view_mode.thumb() {
        Some(px) => d.visible_thumbs(px),
        None => seq![],
    };
    let near = match d.sheet.view_mode.thumb() {
        Some(px) => idents(d.visible_thumbs(px)),
        None => seq![],
    };
    assert(near =~= idents(shown));
    let misses = thumb_names(sweep.misses@);
    lemma_partition(misses, shown, true);
    lemma_partition(misses, shown, false);
    let extract = misses.filter(|m: ThumbName| near.contains(m.id()));
    let skip = misses.filter(|m: ThumbName| !near.contains(m.id()));
    lemma_filters_agree(
        misses,
        |m: ThumbName| idents(shown).contains(m.id()) == true,
        |m: ThumbName| near.contains(m.id()),
    );
    lemma_filters_agree(
        misses,
        |m: ThumbName| idents(shown).contains(m.id()) == false,
        |m: ThumbName| !near.contains(m.id()),
    );
    assert(partition(misses, shown, true) == extract);
    assert(partition(misses, shown, false) == skip);
    let r = Desk { thumbs: kept.released(skip), ..d };
    if extract.len() == 0 && lock {
        if d.sheet.rows.len() <= 4000 {
            if let Some(px) = d.sheet.view_mode.thumb() {
                lemma_seed(r, px);
            }
        }
        reveal(Desk::seed_background);
        reveal(Desk::next_background_chunk);
    }
}

proof fn lemma_filters_agree(
    s: Seq<ThumbName>,
    f: spec_fn(ThumbName) -> bool,
    g: spec_fn(ThumbName) -> bool,
)
    requires
        forall|m: ThumbName| #[trigger] f(m) == g(m),
    ensures
        s.filter(f) == s.filter(g),
    decreases s.len(),
{
    reveal(Seq::filter);
    if s.len() > 0 {
        lemma_filters_agree(s.drop_last(), f, g);
    }
}

/// Whether every thumbnail near the viewport is there or on its way.
pub open spec fn viewport_provided(d: Desk) -> bool {
    d.sheet.view_mode.thumb() matches Some(px) ==> forall|i: int|
        #![trigger d.visible_thumbs(px)[i]]
        0 <= i < d.visible_thumbs(px).len() ==> d.thumbs.handles.contains_key(
            d.visible_thumbs(px)[i].id(),
        ) || d.thumbs.requested.contains(d.visible_thumbs(px)[i].id())
}

proof fn lemma_prefetch(d: Desk, lock: bool)
    ensures
        viewport_provided(d.prefetch_thumbs(lock)),
        ({
            let e = d.prefetch_thumbs(lock);
            &&& e == (Desk { thumbs: e.thumbs, out: e.out, ..d })
            &&& only_adds(d.out, e.out)
            &&& sweeps(d, e, lock)
        }),
{
    reveal(Desk::prefetch_thumbs);
    if let Some(px) = d.sheet.view_mode.thumb() {
        let keys = d.visible_thumbs(px);
        let needed = newly_wanted(d.thumbs.handles, d.thumbs.requested, keys);
        law_each_key_is_requested_once(d.thumbs.handles, d.thumbs.requested, keys);
        let e = d.prefetch_thumbs(lock);
        assert(e.visible_thumbs(px) == keys);
        assert forall|i: int|
            #![trigger e.visible_thumbs(px)[i]]
            0 <= i < keys.len() implies e.thumbs.handles.contains_key(e.visible_thumbs(px)[i].id())
            || e.thumbs.requested.contains(e.visible_thumbs(px)[i].id()) by {
            if idents(needed).contains(keys[i].id()) {
                assert(idents(needed).to_set().contains(keys[i].id()));
            }
        }
        assert forall|id: ThumbId| #[trigger]
            e.thumbs.requested.contains(id) && !d.thumbs.requested.contains(
                id,
            ) implies thumb_swept(e.out, d.out.len() as int, e.thumb_token, lock, id) by {
            assert(idents(needed).to_set().contains(id));
            assert(needed.len() > 0);
            assert(e.out[d.out.len() as int] == (Act::SweepThumbs {
                keys: needed,
                token: d.thumb_token,
                lock,
            }));
        }
    }
}

/// Whether a thumbnail is among those that the acts from `from` on look for.
pub open spec fn thumb_swept(out: Seq<Act>, from: int, token: u64, lock: bool, id: ThumbId)
    -> bool {
    exists|i: int|
        from <= i < out.len() && ((#[trigger] out[i]) matches Act::SweepThumbs {
            keys,
            token: t,
            lock: l,
        } && t == token && l == lock && idents(keys).contains(id))
}

/// Whether every thumbnail that `e` expects and `d` did not is looked for.
pub open spec fn sweeps(d: Desk, e: Desk, lock: bool) -> bool {
    forall|id: ThumbId| #[trigger]
        e.thumbs.requested.contains(id) && !d.thumbs.requested.contains(id) ==> thumb_swept(
            e.out,
            d.out.len() as int,
            e.thumb_token,
            lock,
            id,
        )
}

/// Scrolling, resizing and sorting look for the thumbnails that come near the viewport: each is
/// there, on its way, or looked for now.
pub proof fn law_viewport_gets_its_thumbnails(
    d: Desk,
    offset: u64,
    height: u64,
    pane_w: u64,
    key: crate::sort::SortKey,
)
    requires
        !d.overlay_loading,
    ensures
        ({
            let e = d.handled(Message::Scrolled { offset, height });
            viewport_provided(e) && sweeps(d, e, false)
        }),
        ({
            let e = d.handled(Message::WindowResized { pane_w, height });
            viewport_provided(e) && sweeps(d, e, false)
        }),
        ({
            let e = d.handled(Message::PaneResized { pane_w });
            viewport_provided(e) && sweeps(d, e, false)
        }),
        viewport_provided(d.handled(Message::SortBy(key))),
{
    reveal(Desk::scrolled);
    reveal(Desk::window_resized);
    reveal(Desk::pane_resized);
    lemma_prefetch((Desk { viewport: height, ..d }).on(Sheet { scroll: offset, ..d.sheet }), false);
    lemma_prefetch(
        Desk { pane_w, viewport: crate::geometry::list_height(height as int) as u64, ..d },
        false,
    );
    lemma_prefetch(Desk { pane_w, ..d }, false);
    lemma_sorted_prefetch(d, key);
}

proof fn lemma_sorted_prefetch(d: Desk, key: crate::sort::SortKey)
    ensures
        viewport_provided(d.handled(Message::SortBy(key))),
{
    reveal(Desk::sort_by);
    reveal(Desk::recompute_rows);
    let sort = if d.sort.key == key {
        crate::sort::Sort {
            order: match d.sort.order {
                crate::sort::SortOrder::Ascending => crate::sort::SortOrder::Descending,
                crate::sort::SortOrder::Descending => crate::sort::SortOrder::Ascending,
            },
            ..d.sort
        }
    } else {
        crate::sort::Sort { key, order: crate::sort::SortOrder::Ascending, ..d.sort }
    };
    let b = (Desk { sort, ..d }).recompute_rows();
    lemma_prefetch(b.emit(Act::SaveSettings(b.settings())), false);
}

/// A grid that is filled, or shown in another size, opens a session of its own: what an earlier
/// one still delivers is only kept, and the thumbnails near the viewport are looked for, to
/// lock the window until they are there.
pub proof fn law_filled_grid_opens_a_session(d: Desk, entries: Vec<Entry>, mode: crate::view_mode::ViewMode)
    ensures
        ({
            let e = d.handled(Message::Loaded(d.sheet.load_token, Ok(entries)));
            &&& e.thumb_token != d.thumb_token
            &&& e.bg_queue.len() == 0
            &&& d.sheet.pending_rename is None ==> viewport_provided(e)
        }),
        d.sheet.view_mode != mode ==> ({
            let e = d.handled(Message::ViewModeChanged(mode));
            &&& e.thumb_token != d.thumb_token
            &&& e.bg_queue.len() == 0
            &&& viewport_provided(e)
        }),
{
    reveal(Desk::view_mode_changed);
    let b = d.on(Sheet { view_mode: mode, ..d.sheet });
    lemma_locking_session(b.emit(Act::SaveSettings(b.settings())).scroll_to(0));
    reveal(Desk::loaded);
    let l = d.adopt_columns().listed(Shown::Folder(entries@));
    assert(l == (Desk { sheet: l.sheet, ..d })) by {
        reveal(Desk::listed);
        reveal(Desk::recompute_rows);
    }
    assert(l.sheet.pending_rename == d.sheet.pending_rename) by {
        reveal(Desk::listed);
        reveal(Desk::recompute_rows);
    }
    lemma_request(l);
    let r = l.request_icons();
    lemma_locking_session(r);
    lemma_session(r, true);
    lemma_rename_later(r.begin_grid_session(true));
    reveal(Desk::begin_pending_rename);
}

proof fn lemma_locking_session(d: Desk)
    ensures
        ({
            let e = d.begin_grid_session(true);
            &&& e.thumb_token != d.thumb_token
            &&& e.bg_queue.len() == 0
            &&& viewport_provided(e)
        }),
{
    reveal(Desk::begin_grid_session);
    let b = Desk {
        thumb_token: crate::desk::bumped(d.thumb_token),
        overlay_loading: false,
        thumbs: d.thumbs.released(d.bg_queue),
        bg_queue: seq![],
        ..d
    };
    lemma_prefetch(b, true);
}

// ---------------------------------------------------------------- the tree

/// Clicking a node's mark expands or collapses that node and no other. The first time it is
/// expanded its children are asked for, as hidden items are shown or not. A node that is gone
/// does nothing.
pub proof fn law_tree_mark_toggles_its_node(d: Desk, id: u64, i: int)
    requires
        ids_unique(d.nodes, d.next_id),
    ensures
        0 <= i < d.nodes.len() && d.nodes[i].id == id ==> ({
            let e = d.handled(Message::TreeToggle(id));
            let n = d.nodes[i];
            let asks = !n.expanded && n.children == Children::Unloaded;
            &&& e == (Desk { nodes: e.nodes, out: e.out, ..d })
            &&& e.nodes.len() == d.nodes.len()
            &&& forall|k: int| 0 <= k < d.nodes.len() && k != i ==> #[trigger] e.nodes[k]
                == d.nodes[k]
            &&& e.nodes[i] == (Node {
                expanded: !n.expanded,
                children: if asks {
                    Children::Loading
                } else {
                    n.children
                },
                ..n
            })
            &&& e.out == (if asks {
                d.out.push(
                    Act::LoadTreeChildren {
                        id: id as int,
                        place: n.place,
                        show_hidden: d.show_hidden,
                    },
                )
            } else {
                d.out
            })
        }),
        (forall|k: int| 0 <= k < d.nodes.len() ==> (#[trigger] d.nodes[k]).id != id) ==> d.handled(
            Message::TreeToggle(id),
        ) == d,
{
    reveal(Desk::toggle_node);
    if 0 <= i < d.nodes.len() && d.nodes[i].id == id {
        lemma_index_of(d.nodes, id as int, i);
        law_toggle_changes_one_node(d.nodes, i);
    }
    if forall|k: int| 0 <= k < d.nodes.len() ==> (#[trigger] d.nodes[k]).id != id {
        lemma_index_of(d.nodes, id as int, d.nodes.len() as int);
    }
}

/// Children that arrive for a node take their place below it, with ids of their own, and their
/// icons are provided; for a node that is gone they are dropped. A load that failed counts as
/// one without children. A path that is still to be revealed is then followed further.
pub proof fn law_tree_children_take_their_place(
    d: Desk,
    id: u64,
    result: Result<Vec<TreeChild>, String>,
    i: int,
)
    requires
        ids_unique(d.nodes, d.next_id),
        id != ROOT_ID,
    ensures
        ({
            let e = d.handled(Message::TreeChildrenLoaded(id, result));
            let children = match result {
                Ok(v) => v@,
                Err(_) => seq![],
            };
            let nodes = if 0 <= i < d.nodes.len() && d.nodes[i].id == id {
                grafted(
                    d.nodes,
                    i,
                    numbered(flat_children(children, d.nodes[i].depth + 1), d.next_id),
                )
            } else {
                d.nodes
            };
            (0 <= i < d.nodes.len() && d.nodes[i].id == id) || (forall|k: int|
                0 <= k < d.nodes.len() ==> (#[trigger] d.nodes[k]).id != id) ==> {
                &&& icons_provided(e)
                &&& e.next_id == d.next_id + flat_children(children, 0).len()
                &&& only_adds(d.out, e.out)
                &&& e == (Desk {
                    nodes: e.nodes,
                    next_id: e.next_id,
                    pending_reveal: e.pending_reveal,
                    icons_asked: e.icons_asked,
                    out: e.out,
                    ..d
                })
                &&& match d.pending_reveal {
                    Some(target) => reveals(Desk { nodes, ..d }, e, target),
                    None => e.nodes == nodes && e.pending_reveal is None,
                }
            }
        }),
{
    reveal(Desk::tree_loaded);
    reveal(Desk::drive_reveal);
    let children = match result {
        Ok(v) => v@,
        Err(_) => seq![],
    };
    let here = 0 <= i < d.nodes.len() && d.nodes[i].id == id;
    let gone = forall|k: int| 0 <= k < d.nodes.len() ==> (#[trigger] d.nodes[k]).id != id;
    if here {
        lemma_index_of(d.nodes, id as int, i);
    } else if gone {
        lemma_index_of(d.nodes, id as int, d.nodes.len() as int);
    }
    if here || gone {
        let nodes = if here {
            grafted(
                d.nodes,
                i,
                numbered(flat_children(children, d.nodes[i].depth + 1), d.next_id),
            )
        } else {
            d.nodes
        };
        let g = Desk {
            nodes,
            next_id: d.next_id + flat_children(children, 0).len(),
            ..d
        };
        let v = g.drive_reveal();
        lemma_request(v);
        let e = v.request_icons();
        if let Some(target) = d.pending_reveal {
            let w = crate::tree::walk_to(nodes, 0, target);
            if let crate::tree::Revealed::Load(at, place) = w.outcome {
                let act = Act::LoadTreeChildren { id: at, place, show_hidden: d.show_hidden };
                assert(v.out[d.out.len() as int] == act);
                assert(e.out[d.out.len() as int] == act);
            }
        }
        assert forall|k: int| 0 <= k < d.out.len() implies #[trigger] e.out[k] == d.out[k] by {
            assert(v.out[k] == d.out[k]);
        }
    }
}

/// A session that does not lock the window goes on in the background at once.
proof fn lemma_open_session(d: Desk)
    ensures
        ({
            let e = d.begin_grid_session(false);
            &&& e.thumb_token != d.thumb_token
            &&& viewport_provided(e)
            &&& folder_provided(d, e)
        }),
{
    reveal(Desk::begin_grid_session);
    let b = Desk {
        thumb_token: crate::desk::bumped(d.thumb_token),
        overlay_loading: false,
        thumbs: d.thumbs.released(d.bg_queue),
        bg_queue: seq![],
        ..d
    };
    if let Some(px) = d.sheet.view_mode.thumb() {
        lemma_prefetch(b, false);
        let p = b.prefetch_thumbs(false);
        lemma_seed_keeps(p, px);
        if d.sheet.rows.len() <= 4000 {
            lemma_seed(p, px);
        }
        let e = p.seed_background();
        assert(e.visible_thumbs(px) == p.visible_thumbs(px));
        assert forall|i: int|
            #![trigger e.visible_thumbs(px)[i]]
            0 <= i < e.visible_thumbs(px).len() implies e.thumbs.handles.contains_key(
            e.visible_thumbs(px)[i].id(),
        ) || e.thumbs.requested.contains(e.visible_thumbs(px)[i].id()) by {
            let id = p.visible_thumbs(px)[i].id();
            assert(p.thumbs.handles.contains_key(id) || p.thumbs.requested.contains(id));
        }
    }
}

proof fn lemma_seed_keeps(d: Desk, px: u16)
    requires
        d.sheet.view_mode.thumb() == Some(px),
    ensures
        ({
            let e = d.seed_background();
            &&& e == (Desk { thumbs: e.thumbs, bg_queue: e.bg_queue, out: e.out, ..d })
            &&& e.thumbs.handles == d.thumbs.handles
            &&& forall|id: ThumbId| #[trigger]
                d.thumbs.requested.contains(id) ==> e.thumbs.requested.contains(id)
        }),
{
    reveal(Desk::seed_background);
    reveal(Desk::next_background_chunk);
    let keys = thumbs_of(d.sheet.rows, px);
    let needed = newly_wanted(d.thumbs.handles, d.thumbs.requested, keys);
    law_each_key_is_requested_once(d.thumbs.handles, d.thumbs.requested, keys);
    let e = d.seed_background();
    assert forall|id: ThumbId| #[trigger]
        d.thumbs.requested.contains(id) implies e.thumbs.requested.contains(id) by {
        if needed.len() > crate::desk::MAX_BACKGROUND_PRECACHE {
            let over = needed.skip(crate::desk::MAX_BACKGROUND_PRECACHE as int);
            if idents(over).contains(id) {
                let k = choose|k: int| 0 <= k < idents(over).len() && idents(over)[k] == id;
                let x = needed[k + crate::desk::MAX_BACKGROUND_PRECACHE];
                assert(x.id() == id);
                assert(false);
            }
        }
    }
}

/// A grid that is refreshed, or shown with or without hidden items, or left and come back to,
/// opens a session that does not lock the window: the thumbnails near the viewport are there or
/// on their way, and so are those of the whole folder.
pub proof fn law_refreshed_grid_goes_on_in_the_background(d: Desk, entries: Vec<Entry>, hidden: bool)
    ensures
        ({
            let e = d.handled(Message::SetHidden(hidden));
            &&& e.thumb_token != d.thumb_token
            &&& viewport_provided(e)
            &&& folder_provided(e, e)
        }),
        d.sheet.pending_rename is None ==> ({
            let e = d.handled(Message::Reloaded(d.sheet.load_token, Ok(entries)));
            &&& e.thumb_token != d.thumb_token
            &&& viewport_provided(e)
            &&& folder_provided(e, e)
        }),
        !d.sheet.load_pending ==> ({
            let e = d.show_active();
            &&& e.thumb_token != d.thumb_token
            &&& viewport_provided(e)
            &&& folder_provided(e, e)
        }),
{
    reveal(Desk::set_hidden);
    let b = (Desk { show_hidden: hidden, ..d }).recompute_rows();
    let s = b.emit(Act::SaveSettings(b.settings()));
    assert(b.thumb_token == d.thumb_token) by {
        reveal(Desk::recompute_rows);
    }
    lemma_request(s);
    lemma_open_session(s.request_icons());
    lemma_session(s.request_icons(), false);
    lemma_reloaded_session(d, entries);
    reveal(Desk::show_active);
    let m = d.unmenued();
    let r = m.reveal_current().scroll_to(m.sheet.scroll);
    assert(r.thumb_token == d.thumb_token) by {
        reveal(Desk::reveal_current);
        reveal(Desk::drive_reveal);
    }
    lemma_open_session(r);
    lemma_session(r, false);
}

proof fn lemma_reloaded_session(d: Desk, entries: Vec<Entry>)
    ensures
        d.sheet.pending_rename is None ==> ({
            let e = d.handled(Message::Reloaded(d.sheet.load_token, Ok(entries)));
            &&& e.thumb_token != d.thumb_token
            &&& viewport_provided(e)
            &&& folder_provided(e, e)
        }),
{
    reveal(Desk::reloaded);
    let a = if d.sheet.load_pending {
        d.adopt_columns()
    } else {
        d
    };
    let l = a.on(Sheet { content: Shown::Folder(entries@), ..a.sheet }).recompute_rows()
        .restore_selection(d.sheet.selected_paths());
    let s = l.says(crate::labels::items_text(l.sheet.rows.len() as int));
    assert(s == (Desk { sheet: s.sheet, ..d }) && s.sheet.pending_rename
        == d.sheet.pending_rename) by {
        reveal(Desk::recompute_rows);
        reveal(Desk::restore_selection);
    }
    lemma_request(s);
    let r = s.request_icons();
    lemma_open_session(r);
    lemma_session(r, false);
    reveal(Desk::begin_pending_rename);
}

/// Once the top of the tree is there, "This PC" is opened in it: its drives are asked for. The
/// first such node of the top level is the one.
pub proof fn law_top_of_the_tree_opens_this_pc(d: Desk, children: Vec<TreeChild>, k: int)
    requires
        is_tree(d.nodes),
        ids_unique(d.nodes, d.next_id),
        d.pending_reveal is None,
        d.next_id >= 1,
    ensures
        ({
            let e = d.handled(Message::TreeChildrenLoaded(ROOT_ID, Ok(children)));
            let nodes = grafted(
                d.nodes,
                0,
                numbered(flat_children(children@, 1), d.next_id),
            );
            let first = crate::tree::is_child(nodes, 0, k) && nodes[k].place is ThisPc && forall|
                j: int,
            |
                0 < j < k && #[trigger] crate::tree::is_child(nodes, 0, j) ==> !(
                nodes[j].place is ThisPc);
            first && 0 < k < nodes.len() ==> {
                &&& e.nodes.len() == nodes.len()
                &&& e.nodes[k].expanded == !nodes[k].expanded
                &&& forall|j: int|
                    0 <= j < nodes.len() && j != k ==> #[trigger] e.nodes[j] == nodes[j]
                &&& !nodes[k].expanded && nodes[k].children == Children::Unloaded
                    ==> e.out.contains(
                    Act::LoadTreeChildren {
                        id: nodes[k].id,
                        place: nodes[k].place,
                        show_hidden: d.show_hidden,
                    },
                )
            }
        }),
{
    reveal(Desk::tree_loaded);
    reveal(Desk::drive_reveal);
    reveal(Desk::toggle_this_pc);
    reveal(Desk::toggle_node);
    let nodes = grafted(d.nodes, 0, numbered(flat_children(children@, 1), d.next_id));
    let first = crate::tree::is_child(nodes, 0, k) && nodes[k].place is ThisPc && forall|j: int|
        0 < j < k && #[trigger] crate::tree::is_child(nodes, 0, j) ==> !(nodes[j].place is ThisPc);
    lemma_index_of(d.nodes, 0, 0);
    if first && 0 < k < nodes.len() {
        lemma_first_child(nodes, k, 1);
        assert(ids_unique(nodes, d.next_id + flat_children(children@, 1).len())) by {
            crate::tree::lemma_grafted_ids(d.nodes, children@, d.next_id);
        }
        lemma_index_of(nodes, nodes[k].id, k);
        law_toggle_changes_one_node(nodes, k);
        let g = Desk { nodes, next_id: d.next_id + flat_children(children@, 0).len(), ..d };
        let v = g.toggle_node(nodes[k].id);
        lemma_request(v);
        let e = v.request_icons();
        if !nodes[k].expanded && nodes[k].children == Children::Unloaded {
            let act = Act::LoadTreeChildren {
                id: nodes[k].id,
                place: nodes[k].place,
                show_hidden: d.show_hidden,
            };
            assert(v.out[d.out.len() as int] == act);
            assert(e.out[d.out.len() as int] == act);
        }
    }
}

proof fn lemma_first_child(s: Seq<Node>, k: int, j: int)
    requires
        0 < j <= k < s.len(),
        crate::tree::is_child(s, 0, k),
        s[k].place is ThisPc,
        forall|i: int|
            0 < i < k && #[trigger] crate::tree::is_child(s, 0, i) ==> !(s[i].place is ThisPc),
    ensures
        crate::tree::child_at_from(s, 0, crate::model::Place::ThisPc, j) == Some(k),
    decreases k - j,
{
    if j < k {
        lemma_first_child(s, k, j + 1);
    }
}

/// What a superseded session still delivers is kept, and what it looked for in vain may be asked
/// for again; nothing else comes of it.
pub proof fn law_stale_session_gives_up_its_misses(
    d: Desk,
    sweep: CacheSweep<u64>,
    images: Vec<(ThumbKey, u64)>,
    token: u64,
    lock: bool,
    kind: ThumbKind,
)
    requires
        token != d.thumb_token,
    ensures
        ({
            let e = d.handled(Message::ThumbsCached { sweep, token, lock });
            let kept = all_inserted(d.thumbs, incoming(sweep.hits@));
            &&& e.thumbs.handles == kept.handles
            &&& e.thumbs.order == kept.order
            &&& e.thumbs.requested == kept.requested.difference(
                idents(thumb_names(sweep.misses@)).to_set(),
            )
            &&& e == (Desk { thumbs: e.thumbs, ..d })
        }),
        d.handled(Message::ThumbsLoaded { images, token, kind }) == (Desk {
            thumbs: all_inserted(d.thumbs, incoming(images@)),
            ..d
        }),
{
    reveal(Desk::thumbs_cached);
    reveal(Desk::thumbs_loaded);
    lemma_shelved(d.thumbs, sweep.hits@);
    lemma_shelved(d.thumbs, images@);
}

/// A session that is left for the details view gives up what it had queued, so that it may be
/// asked for again.
pub proof fn law_left_session_gives_up_its_queue(d: Desk)
    requires
        d.sheet.view_mode != crate::view_mode::ViewMode::Details,
    ensures
        ({
            let e = d.handled(Message::ViewModeChanged(crate::view_mode::ViewMode::Details));
            &&& e.bg_queue.len() == 0
            &&& e.thumbs.handles == d.thumbs.handles
            &&& e.thumbs.order == d.thumbs.order
            &&& e.thumbs.requested == d.thumbs.requested.difference(idents(d.bg_queue).to_set())
        }),
{
    reveal(Desk::view_mode_changed);
    reveal(Desk::begin_grid_session);
}

/// Once a search has ended, the thumbnails of all its results are there or on their way, and so
/// are their icons.
pub proof fn law_ended_search_gets_its_pictures(d: Desk, capped: bool)
    requires
        d.sheet.content is Search,
    ensures
        ({
            let e = d.handled(Message::SearchFinished { token: d.search_token, capped });
            icons_provided(e) && folder_provided(e, e)
        }),
{
    reveal(Desk::search_finished);
    if let Shown::Search(r) = d.sheet.content {
        let b = (Desk { search_active: None, ..d }).on(
            Sheet {
                content: Shown::Search(crate::desk::Results { done: true, ..r }),
                ..d.sheet
            },
        ).says(crate::labels::results_text(r.hits.len() as int, capped));
        lemma_request(b);
        let q = b.request_icons();
        if let Some(px) = d.sheet.view_mode.thumb() {
            lemma_seed_keeps(q, px);
            if d.sheet.rows.len() <= 4000 {
                lemma_seed(q, px);
            }
        }
        reveal(Desk::seed_background);
        reveal(Desk::next_background_chunk);
    }
}

} // verus!
