//! What holds of what the list shows, in every state.

use crate::browsing::{lemma_session, only_adds};
use crate::columns::{ColRule, Column, ColumnLayout};
use crate::config::Settings;
use crate::desk::{rows_of, Desk, Renaming, Sheet, Shown};
use crate::drives::DriveInfo;
use crate::finding::{law_results_are_listed_each_once, results_in_order};
use crate::message::{Act, Message};
use crate::model::{Entry, EntryKind, Place};
use crate::path::comps;
use crate::rows::{distro_row, drive_row, entry_row, hit_row, RowData};
use crate::selection::Picked;
use crate::sidebar::shown_entries;
use crate::sort::{ascend_by, law_listing_is_in_order, sorted_entries, Sort, SortKey, SortOrder};
use crate::text::decimal;
use crate::view_mode::ViewMode;
use crate::wsl::WslDistro;
use vstd::prelude::*;

verus! {

// ---------------------------------------------------------------- rows

/// Whether an entry is on show: hidden and system entries only on request.
pub open spec fn on_show(e: Entry, show_hidden: bool) -> bool {
    show_hidden || (!e.attrs.hidden && !e.attrs.system)
}

/// Whether two entries, of which the first was read as number `i` and the second as number
/// `j`, stand in this order as `sort` asks.
pub open spec fn entries_in_order(a: Entry, b: Entry, i: int, j: int, sort: Sort) -> bool {
    let (x, y) = (a.kind == EntryKind::Directory, b.kind == EntryKind::Directory);
    if sort.folders_first && x != y {
        x
    } else {
        &&& sort.order == SortOrder::Ascending ==> ascend_by(a, b, sort.key)
        &&& sort.order == SortOrder::Descending ==> ascend_by(b, a, sort.key)
        &&& ascend_by(a, b, sort.key) && ascend_by(b, a, sort.key) ==> i < j
    }
}

/// Whether `p` tells where the items that `keep` picks went: each to one place, and no other
/// item to any.
pub open spec fn places_each_once(p: Seq<int>, n: int, keep: spec_fn(int) -> bool) -> bool {
    &&& forall|k: int| 0 <= k < p.len() ==> 0 <= #[trigger] p[k] < n && keep(p[k])
    &&& forall|a: int, b: int| 0 <= a < b < p.len() ==> #[trigger] p[a] != #[trigger] p[b]
    &&& forall|i: int| 0 <= i < n && #[trigger] keep(i) ==> p.contains(i)
}

/// Whether rows list entries, with `p` telling which entry each row is for: those on show,
/// each once, in the order that `sort` asks for.
pub open spec fn lists_entries(
    entries: Seq<Entry>,
    sort: Sort,
    show_hidden: bool,
    rows: Seq<RowData>,
    p: Seq<int>,
) -> bool {
    &&& p.len() == rows.len()
    &&& places_each_once(p, entries.len() as int, |i: int| on_show(entries[i], show_hidden))
    &&& forall|k: int| 0 <= k < rows.len() ==> #[trigger] rows[k] == entry_row(entries[p[k]])
    &&& forall|a: int, b: int|
        #![trigger p[a], p[b]]
        0 <= a < b < rows.len() ==> entries_in_order(
            entries[p[a]],
            entries[p[b]],
            p[a],
            p[b],
            sort,
        )
}

/// Whether rows are what is to be listed of some content: every drive or distribution in turn;
/// of a folder the entries on show, in order; every search result, in order; and of an error
/// nothing.
pub open spec fn lists(content: Shown, sort: Sort, show_hidden: bool, rows: Seq<RowData>) -> bool {
    match content {
        Shown::ThisPc(drives) => {
            &&& rows.len() == drives.len()
            &&& forall|i: int| 0 <= i < rows.len() ==> #[trigger] rows[i] == drive_row(drives[i])
        },
        Shown::Wsl(distros) => {
            &&& rows.len() == distros.len()
            &&& forall|i: int| 0 <= i < rows.len() ==> #[trigger] rows[i] == distro_row(distros[i])
        },
        Shown::Folder(entries) => exists|p: Seq<int>|
            lists_entries(entries, sort, show_hidden, rows, p),
        Shown::Search(r) => exists|p: Seq<usize>|
            {
                &&& p.len() == rows.len()
                &&& rows.len() == r.hits.len()
                &&& p.no_duplicates()
                &&& forall|k: int|
                    0 <= k < p.len() ==> (#[trigger] p[k]) < r.hits.len() && rows[k] == hit_row(
                        r.hits[p[k] as int],
                        r.root,
                    )
                &&& forall|a: int, b: int|
                    #![trigger p[a], p[b]]
                    0 <= a < b < rows.len() ==> results_in_order(rows[a], rows[b]) && (
                    results_in_order(rows[b], rows[a]) ==> p[a] < p[b])
            },
        Shown::Error(_) => rows.len() == 0,
    }
}

/// How many items some content has.
pub open spec fn size_of(content: Shown) -> nat {
    match content {
        Shown::ThisPc(v) => v.len(),
        Shown::Wsl(v) => v.len(),
        Shown::Folder(v) => v.len(),
        Shown::Search(r) => r.hits.len(),
        Shown::Error(_) => 0,
    }
}

/// Where the entries on show stand among all.
proof fn lemma_shown(s: Seq<Entry>, show_hidden: bool) -> (q: Seq<int>)
    ensures
        q.len() == shown_entries(s, show_hidden).len(),
        q.len() <= s.len(),
        forall|k: int|
            0 <= k < q.len() ==> 0 <= #[trigger] q[k] < s.len() && s[q[k]] == shown_entries(
                s,
                show_hidden,
            )[k] && on_show(s[q[k]], show_hidden),
        forall|a: int, b: int| 0 <= a < b < q.len() ==> #[trigger] q[a] < #[trigger] q[b],
        forall|i: int|
            0 <= i < s.len() && on_show(#[trigger] s[i], show_hidden) ==> q.contains(i),
    decreases s.len(),
{
    if s.len() == 0 {
        seq![]
    } else {
        let t = s.drop_last();
        let r = lemma_shown(t, show_hidden);
        let e = s.last();
        let shown = shown_entries(s, show_hidden);
        reveal_strlit("");
        assert(""@ =~= seq![]);
        crate::sort::law_what_is_visible(e, seq![]);
        assert(s[s.len() - 1] == e);
        let q = if on_show(e, show_hidden) {
            r.push(s.len() - 1)
        } else {
            r
        };
        assert forall|k: int| 0 <= k < q.len() implies 0 <= #[trigger] q[k] < s.len() && s[q[k]]
            == shown[k] && on_show(s[q[k]], show_hidden) by {
            if k < r.len() {
                assert(q[k] == r[k]);
                assert(t[r[k]] == s[r[k]]);
            }
        }
        assert forall|a: int, b: int| 0 <= a < b < q.len() implies #[trigger] q[a]
            < #[trigger] q[b] by {
            if b < r.len() {
                assert(q[a] == r[a] && q[b] == r[b]);
            } else {
                assert(q[a] == r[a]);
            }
        }
        assert forall|i: int| 0 <= i < s.len() && on_show(
            #[trigger] s[i],
            show_hidden,
        ) implies q.contains(i) by {
            if i < t.len() {
                assert(t[i] == s[i]);
                assert(r.contains(i));
                let k = choose|k: int| 0 <= k < r.len() && r[k] == i;
                assert(q[k] == i);
            } else {
                assert(q[r.len() as int] == i);
            }
        }
        q
    }
}

/// What the list shows is what is to be listed.
pub proof fn law_list_shows_the_content(content: Shown, sort: Sort, show_hidden: bool)
    requires
        size_of(content) <= usize::MAX,
    ensures
        lists(content, sort, show_hidden, rows_of(content, sort, show_hidden)),
        rows_of(content, sort, show_hidden).len() <= size_of(content),
{
    let rows = rows_of(content, sort, show_hidden);
    match content {
        Shown::Folder(entries) => {
            let q = lemma_shown(entries, show_hidden);
            let shown = shown_entries(entries, show_hidden);
            let p = law_listing_is_in_order(shown, sort);
            let now = sorted_entries(shown, sort);
            let at = Seq::new(p.len(), |k: int| q[p[k] as int]);
            let keep = |i: int| on_show(entries[i], show_hidden);
            assert forall|k: int| 0 <= k < at.len() implies 0 <= #[trigger] at[k] < entries.len()
                && keep(at[k]) by {
                assert(p[k] < shown.len());
            }
            assert forall|a: int, b: int| 0 <= a < b < at.len() implies #[trigger] at[a]
                != #[trigger] at[b] by {
                assert(p[a] != p[b]);
                assert(p[a] < shown.len() && p[b] < shown.len());
                if p[a] < p[b] {
                    assert(q[p[a] as int] < q[p[b] as int]);
                } else {
                    assert(q[p[b] as int] < q[p[a] as int]);
                }
            }
            assert forall|i: int| 0 <= i < entries.len() && #[trigger] keep(i) implies at.contains(
                i,
            ) by {
                assert(on_show(entries[i], show_hidden));
                assert(q.contains(i));
                let k = choose|k: int| 0 <= k < q.len() && q[k] == i;
                let a = lemma_covered(p, k as usize);
                assert(at[a] == i);
            }
            assert(places_each_once(at, entries.len() as int, keep));
            assert forall|k: int| 0 <= k < rows.len() implies #[trigger] rows[k] == entry_row(
                entries[at[k]],
            ) by {
                assert(now[k] == shown[p[k] as int]);
            }
            assert forall|a: int, b: int|
                #![trigger at[a], at[b]]
                0 <= a < b < rows.len() implies entries_in_order(
                entries[at[a]],
                entries[at[b]],
                at[a],
                at[b],
                sort,
            ) by {
                assert(now[a] == shown[p[a] as int] && now[b] == shown[p[b] as int]);
                assert(now[a] == entries[at[a]] && now[b] == entries[at[b]]);
                if p[a] < p[b] {
                    assert(q[p[a] as int] < q[p[b] as int]);
                }
            }
            assert(lists_entries(entries, sort, show_hidden, rows, at));
        },
        Shown::Search(r) => {
            let d = arbitrary_desk(sort, show_hidden);
            let p = law_results_are_listed_each_once(r, d);
            assert forall|a: int, b: int|
                #![trigger p[a], p[b]]
                0 <= a < b < rows.len() implies results_in_order(rows[a], rows[b]) && (
            results_in_order(rows[b], rows[a]) ==> p[a] < p[b]) by {}
        },
        _ => {},
    }
}

spec fn arbitrary_desk(sort: Sort, show_hidden: bool) -> Desk {
    Desk { sort, show_hidden, ..arbitrary() }
}

/// Different indices below their number are all the indices below it.
proof fn lemma_covered(p: Seq<usize>, x: usize) -> (k: int)
    requires
        p.no_duplicates(),
        forall|k: int| 0 <= k < p.len() ==> #[trigger] p[k] < p.len(),
        x < p.len(),
    ensures
        0 <= k < p.len(),
        p[k] == x,
{
    if !p.contains(x) {
        let all = Set::new(|i: int| 0 <= i < p.len());
        let got = p.map_values(|i: usize| i as int);
        assert(got.no_duplicates()) by {
            assert forall|a: int, b: int| 0 <= a < got.len() && 0 <= b < got.len() && a
                != b implies got[a] != got[b] by {
                assert(p[a] != p[b]);
            }
        }
        got.unique_seq_to_set();
        vstd::set_lib::lemma_int_range(0, p.len() as int);
        assert(all =~= vstd::set_lib::set_int_range(0, p.len() as int));
        let less = all.remove(x as int);
        assert(got.to_set().subset_of(less)) by {
            assert forall|i: int| got.to_set().contains(i) implies less.contains(i) by {
                let a = choose|a: int| 0 <= a < got.len() && got[a] == i;
                assert(p[a] < p.len());
                assert(p[a] as int == i);
                if i == x as int {
                    assert(p.contains(x));
                }
            }
        }
        vstd::set_lib::lemma_len_subset(got.to_set(), less);
        assert(false);
    }
    choose|k: int| 0 <= k < p.len() && p[k] == x
}

// ---------------------------------------------------------------- loads

/// Whether the rows that are selected, focused and anchored in `after` are those in `before`
/// that are still among `n` rows.
pub open spec fn kept_below(before: Picked, after: Picked, n: int) -> bool {
    &&& forall|i: usize|
        #![trigger after.items.contains(i)]
        after.items.contains(i) <==> before.items.contains(i) && i < n
    &&& after.lead == (if before.lead matches Some(i) && i < n {
        before.lead
    } else {
        None
    })
    &&& after.anchor == (if before.anchor matches Some(i) && i < n {
        before.anchor
    } else {
        None
    })
}

/// Whether exactly row `i` is selected, focused and anchored.
pub open spec fn only_row(p: Picked, i: int) -> bool {
    &&& forall|j: usize| #![trigger p.items.contains(j)] p.items.contains(j) <==> j == i
    &&& p.anchor matches Some(a) && a == i
    &&& p.lead matches Some(l) && l == i
}

/// Whether a layout is what a folder without a layout of its own has: the name fills, the rest
/// fit what they hold.
pub open spec fn plain_layout(l: ColumnLayout) -> bool {
    l.name is Fill && l.modified is Auto && l.type_ is Auto && l.size is Auto
}

/// Whether a layout is the one that is kept for a folder.
pub open spec fn layout_for(d: Desk, dir: Seq<char>, l: ColumnLayout) -> bool {
    if d.columns.contains_key(comps(dir)) {
        l == d.columns[comps(dir)]
    } else {
        plain_layout(l)
    }
}

/// Whether only what concerns the active tab, and pictures and what is asked for, differs.
pub open spec fn tab_changed(d: Desk, e: Desk) -> bool {
    &&& e == (Desk {
        sheet: e.sheet,
        icons_asked: e.icons_asked,
        thumbs: e.thumbs,
        thumb_token: e.thumb_token,
        overlay_loading: e.overlay_loading,
        bg_queue: e.bg_queue,
        out: e.out,
        ..d
    })
    &&& only_adds(d.out, e.out)
}

proof fn lemma_icons(d: Desk)
    ensures
        ({
            let e = d.request_icons();
            e == (Desk { icons_asked: e.icons_asked, out: e.out, ..d }) && only_adds(
                d.out,
                e.out,
            )
        }),
{
    reveal(Desk::request_icons);
}

proof fn lemma_sweep(d: Desk, lock: bool)
    ensures
        ({
            let e = d.prefetch_thumbs(lock);
            e == (Desk { thumbs: e.thumbs, out: e.out, ..d }) && only_adds(d.out, e.out)
        }),
{
    reveal(Desk::prefetch_thumbs);
}

proof fn lemma_in_view(d: Desk, i: int)
    ensures
        ({
            let e = d.ensure_visible(i);
            e == (Desk {
                sheet: Sheet { scroll: e.sheet.scroll, ..d.sheet },
                out: e.out,
                ..d
            }) && only_adds(d.out, e.out)
        }),
{
    reveal(Desk::ensure_visible);
}

/// Whether `i` is the first row with the given label.
pub open spec fn first_named(rows: Seq<RowData>, name: Seq<char>, i: int) -> bool {
    &&& 0 <= i < rows.len()
    &&& rows[i].label == name
    &&& forall|j: int| 0 <= j < i ==> (#[trigger] rows[j]).label != name
}

proof fn lemma_row_named(rows: Seq<RowData>, name: Seq<char>, i: int)
    requires
        0 <= i <= rows.len(),
        forall|j: int| 0 <= j < i ==> (#[trigger] rows[j]).label != name,
    ensures
        match crate::desk::row_named(rows, name, i) {
            Some(k) => first_named(rows, name, k),
            None => forall|j: int| 0 <= j < rows.len() ==> (#[trigger] rows[j]).label != name,
        },
    decreases rows.len() - i,
{
    if i < rows.len() && rows[i].label != name {
        lemma_row_named(rows, name, i + 1);
    }
}

/// Whether `e` is `d` after a look for the folder that was just made: once it is listed in the
/// folder it was made in, its row is the only one selected and its name is being edited;
/// elsewhere it is given up.
pub open spec fn new_folder_taken_up(d: Desk, e: Desk) -> bool {
    let rows = d.sheet.rows;
    match d.sheet.pending_rename {
        None => e == d,
        Some((dir, name)) => if d.sheet.history.current matches Place::Path(t) && comps(t)
            == comps(dir) {
            if exists|i: int| first_named(rows, name, i) {
                &&& exists|i: int|
                    {
                        &&& #[trigger] first_named(rows, name, i)
                        &&& only_row(e.sheet.selection, i)
                        &&& e.sheet.renaming matches Some(r) && r.index == i && r.value == name
                    }
                &&& e.out.len() >= d.out.len() + 2
                &&& e.out[e.out.len() - 2] == Act::FocusRename
                &&& e.out.last() == Act::SelectRename
                &&& e == (Desk {
                    sheet: Sheet {
                        pending_rename: None,
                        selection: e.sheet.selection,
                        renaming: e.sheet.renaming,
                        scroll: e.sheet.scroll,
                        ..d.sheet
                    },
                    out: e.out,
                    ..d
                })
                &&& only_adds(d.out, e.out)
            } else {
                e == d
            }
        } else {
            e == (Desk { sheet: Sheet { pending_rename: None, ..d.sheet }, ..d })
        },
    }
}

proof fn lemma_pending_rename(d: Desk)
    requires
        d.sheet.rows.len() <= usize::MAX,
    ensures
        new_folder_taken_up(d, d.begin_pending_rename()),
{
    reveal(Desk::begin_pending_rename);
    if let Some((dir, name)) = d.sheet.pending_rename {
        lemma_row_named(d.sheet.rows, name, 0);
        if let Some(i) = crate::desk::row_named(d.sheet.rows, name, 0) {
            let b = d.on(
                Sheet {
                    pending_rename: None,
                    selection: Picked::only(i as usize),
                    renaming: Some(Renaming { index: i as usize, value: name }),
                    ..d.sheet
                },
            );
            lemma_in_view(b, i);
        }
    }
}

/// A folder that was read is on show, in order, with the layout that is kept for it, and the
/// load and the overlay are over. The status line counts the rows. A folder that was just made
/// in it is taken up. A folder that could not be read shows why.
pub proof fn law_loaded_folder_is_on_show(d: Desk, entries: Vec<Entry>, error: String)
    requires
        entries@.len() <= usize::MAX,
    ensures
        ({
            let e = d.handled(Message::Loaded(d.sheet.load_token, Ok(entries)));
            &&& tab_changed(d, e)
            &&& !e.overlay_loading
            &&& exists|m: Desk|
                {
                    &&& #[trigger] new_folder_taken_up(m, e)
                    &&& m.sheet.content == Shown::Folder(entries@)
                    &&& lists(m.sheet.content, d.sort, d.show_hidden, m.sheet.rows)
                    &&& m.sheet.status == decimal(m.sheet.rows.len()) + " items"@
                    &&& match d.sheet.history.current {
                        Place::Path(dir) => layout_for(d, dir, m.sheet.columns),
                        _ => plain_layout(m.sheet.columns),
                    }
                    &&& kept_below(
                        d.sheet.selection,
                        m.sheet.selection,
                        m.sheet.rows.len() as int,
                    )
                    &&& m.sheet == (Sheet {
                        content: m.sheet.content,
                        rows: m.sheet.rows,
                        selection: m.sheet.selection,
                        status: m.sheet.status,
                        columns: m.sheet.columns,
                        load_pending: false,
                        ..d.sheet
                    })
                    &&& tab_changed(d, m)
                }
        }),
        d.handled(Message::Loaded(d.sheet.load_token, Err(error))) == (Desk {
            overlay_loading: false,
            sheet: Sheet {
                load_pending: false,
                status: error@,
                content: Shown::Error(error@),
                rows: seq![],
                ..d.sheet
            },
            ..d
        }),
{
    reveal(Desk::loaded);
    reveal(Desk::listed);
    reveal(Desk::recompute_rows);
    let content = Shown::Folder(entries@);
    law_list_shows_the_content(content, d.sort, d.show_hidden);
    let l = d.adopt_columns().listed(content);
    lemma_icons(l);
    let i = l.request_icons();
    lemma_session(i, true);
    let m = i.begin_grid_session(true);
    lemma_pending_rename(m);
    let e = d.handled(Message::Loaded(d.sheet.load_token, Ok(entries)));
    assert(e == m.begin_pending_rename());
    assert(new_folder_taken_up(m, e));
}

/// Whether a row leads to one of the paths of the rows that were selected before.
pub open spec fn was_selected(s: Sheet, row: RowData) -> bool {
    row.target matches Place::Path(t) && exists|i: int|
        {
            &&& 0 <= i < s.rows.len()
            &&& s.selection.items.contains(i as usize)
            &&& (#[trigger] s.rows[i]).target matches Place::Path(u)
            &&& comps(u) == comps(t)
        }
}

/// Whether some selected row has a path.
pub open spec fn some_path_selected(s: Sheet) -> bool {
    s.history.current is Path && exists|i: int|
        0 <= i < s.rows.len() && s.selection.items.contains(i as usize)
            && (#[trigger] s.rows[i]).target is Path
}

proof fn lemma_paths(rows: Seq<RowData>, items: Set<usize>, n: int)
    requires
        0 <= n <= rows.len(),
    ensures
        ({
            let p = crate::desk::paths_at(rows, items, n);
            &&& forall|k: int|
                0 <= k < p.len() ==> exists|i: int|
                    0 <= i < n && items.contains(i as usize) && (#[trigger] rows[i]).target
                        == Place::Path(#[trigger] p[k])
            &&& forall|i: int|
                0 <= i < n && items.contains(i as usize) && (#[trigger] rows[i]).target is Path
                    ==> p.contains(rows[i].target->Path_0)
        }),
    decreases n,
{
    if n > 0 {
        lemma_paths(rows, items, n - 1);
        let before = crate::desk::paths_at(rows, items, n - 1);
        let p = crate::desk::paths_at(rows, items, n);
        assert forall|k: int| 0 <= k < p.len() implies exists|i: int|
            0 <= i < n && items.contains(i as usize) && (#[trigger] rows[i]).target == Place::Path(
                #[trigger] p[k],
            ) by {
            if k < before.len() {
                assert(p[k] == before[k]);
                let i = choose|i: int|
                    0 <= i < n - 1 && items.contains(i as usize) && (#[trigger] rows[i]).target
                        == Place::Path(before[k]);
                assert(rows[i].target == Place::Path(p[k]));
            } else {
                assert(rows[n - 1].target == Place::Path(p[k]));
            }
        }
        assert forall|i: int|
            0 <= i < n && items.contains(i as usize) && (#[trigger] rows[i]).target is Path implies p.contains(
        rows[i].target->Path_0) by {
            if i < n - 1 {
                let t = rows[i].target->Path_0;
                assert(before.contains(t));
                let k = choose|k: int| 0 <= k < before.len() && before[k] == t;
                assert(p[k] == t);
            } else {
                assert(p[before.len() as int] == rows[i].target->Path_0);
            }
        }
    }
}

/// Whether `e` is `d` with the open folder listed anew where it stands: the list stays where it
/// is scrolled to, and what was selected, by path, stays selected. Where nothing was, the same
/// rows stay selected that were.
pub open spec fn refreshed(d: Desk, e: Desk, entries: Seq<Entry>) -> bool {
    &&& tab_changed(d, e)
    &&& !e.overlay_loading
    &&& e.sheet.content == Shown::Folder(entries)
    &&& lists(e.sheet.content, d.sort, d.show_hidden, e.sheet.rows)
    &&& e.sheet.status == decimal(e.sheet.rows.len()) + " items"@
    &&& if some_path_selected(d.sheet) {
        forall|i: int|
            #![trigger e.sheet.rows[i]]
            0 <= i < e.sheet.rows.len() ==> (e.sheet.selection.items.contains(i as usize)
                <==> was_selected(d.sheet, e.sheet.rows[i]))
    } else {
        kept_below(d.sheet.selection, e.sheet.selection, e.sheet.rows.len() as int)
    }
    &&& if d.sheet.load_pending {
        match d.sheet.history.current {
            Place::Path(dir) => layout_for(d, dir, e.sheet.columns),
            _ => plain_layout(e.sheet.columns),
        }
    } else {
        e.sheet.columns == d.sheet.columns
    }
    &&& e.sheet == (Sheet {
        content: e.sheet.content,
        rows: e.sheet.rows,
        selection: e.sheet.selection,
        status: e.sheet.status,
        columns: e.sheet.columns,
        load_pending: false,
        ..d.sheet
    })
}

/// A refresh of the open folder lists it anew where it stands, and a folder that was just made
/// in it is taken up.
pub proof fn law_refreshed_folder_keeps_its_selection(d: Desk, entries: Vec<Entry>)
    requires
        entries@.len() <= usize::MAX,
    ensures
        exists|m: Desk|
            refreshed(d, m, entries@) && #[trigger] new_folder_taken_up(
                m,
                d.handled(Message::Reloaded(d.sheet.load_token, Ok(entries))),
            ),
        d.sheet.pending_rename is None ==> refreshed(
            d,
            d.handled(Message::Reloaded(d.sheet.load_token, Ok(entries))),
            entries@,
        ),
{
    reveal(Desk::reloaded);
    reveal(Desk::recompute_rows);
    let content = Shown::Folder(entries@);
    law_list_shows_the_content(content, d.sort, d.show_hidden);
    let a = if d.sheet.load_pending {
        d.adopt_columns()
    } else {
        d
    };
    let before = d.sheet.selected_paths();
    let r = a.on(Sheet { content, ..a.sheet }).recompute_rows();
    let l = r.restore_selection(before);
    let s = l.says(crate::labels::items_text(l.sheet.rows.len() as int));
    lemma_icons(s);
    lemma_session(s.request_icons(), false);
    lemma_restored(d.sheet, r);
    let m = s.request_icons().begin_grid_session(false);
    assert(refreshed(d, m, entries@));
    lemma_pending_rename(m);
}

proof fn lemma_restored(s: Sheet, r: Desk)
    requires
        r.sheet.rows.len() <= usize::MAX,
    ensures
        ({
            let now = r.restore_selection(s.selected_paths()).sheet;
            &&& r.restore_selection(s.selected_paths()) == r.on(now)
            &&& now == (Sheet { selection: now.selection, ..r.sheet })
            &&& if some_path_selected(s) {
                forall|i: int|
                    #![trigger now.rows[i]]
                    0 <= i < now.rows.len() ==> (now.selection.items.contains(i as usize)
                        <==> was_selected(s, now.rows[i]))
            } else {
                now == r.sheet
            }
        }),
{
    reveal(Desk::restore_selection);
    let before = s.selected_paths();
    let now = r.restore_selection(before).sheet;
    lemma_paths(s.rows, s.selection.items, s.rows.len() as int);
    if some_path_selected(s) {
        let k = choose|k: int|
            0 <= k < s.rows.len() && s.selection.items.contains(k as usize)
                && (#[trigger] s.rows[k]).target is Path;
        assert(before.contains(s.rows[k].target->Path_0));
        assert forall|i: int|
            #![trigger now.rows[i]]
            0 <= i < now.rows.len() implies (now.selection.items.contains(i as usize)
            <==> was_selected(s, now.rows[i])) by {
            crate::promises::law_refresh_keeps_the_selection(r, before, i);
            lemma_leads(s, now.rows[i]);
        }
    } else if before.len() > 0 {
        let i = choose|i: int|
            0 <= i < s.rows.len() && s.selection.items.contains(i as usize)
                && (#[trigger] s.rows[i]).target == Place::Path(before[0]);
        assert(s.rows[i].target is Path);
    }
}

proof fn lemma_leads(s: Sheet, row: RowData)
    requires
        s.history.current is Path,
    ensures
        crate::desk::leads_to_one(row, s.selected_paths()) == was_selected(s, row),
{
    let before = s.selected_paths();
    lemma_paths(s.rows, s.selection.items, s.rows.len() as int);
    if crate::desk::leads_to_one(row, before) {
        let t = row.target->Path_0;
        let j = choose|j: int| 0 <= j < before.len() && comps(#[trigger] before[j]) == comps(t);
        let x = choose|x: int|
            0 <= x < s.rows.len() && s.selection.items.contains(x as usize)
                && (#[trigger] s.rows[x]).target == Place::Path(before[j]);
        assert(s.rows[x].target == Place::Path(before[j]));
    }
    if was_selected(s, row) {
        let t = row.target->Path_0;
        let x = choose|x: int|
            {
                &&& 0 <= x < s.rows.len()
                &&& s.selection.items.contains(x as usize)
                &&& (#[trigger] s.rows[x]).target matches Place::Path(u)
                &&& comps(u) == comps(t)
            };
        let u = s.rows[x].target->Path_0;
        assert(before.contains(u));
        let j = choose|j: int| 0 <= j < before.len() && before[j] == u;
        assert(comps(before[j]) == comps(t));
    }
}

/// The items of a landing page are listed once they are there, if the tab is at that page.
pub proof fn law_landing_page_lists_its_items(
    d: Desk,
    drives: Vec<DriveInfo>,
    distros: Vec<WslDistro>,
)
    requires
        drives@.len() <= usize::MAX,
        distros@.len() <= usize::MAX,
    ensures
        d.sheet.history.current == Place::ThisPc ==> landing_filled(
            d,
            d.handled(Message::ThisPcLoaded(drives)),
            Shown::ThisPc(drives@),
        ),
        d.sheet.history.current == Place::Wsl ==> landing_filled(
            d,
            d.handled(Message::WslLoaded(distros)),
            Shown::Wsl(distros@),
        ),
{
    reveal(Desk::arrived);
    lemma_landing(d, Shown::ThisPc(drives@));
    lemma_landing(d, Shown::Wsl(distros@));
}

/// Whether `e` is `d` with the items of a landing page listed.
pub open spec fn landing_filled(d: Desk, e: Desk, content: Shown) -> bool {
    &&& tab_changed(d, e)
    &&& !e.overlay_loading
    &&& e.sheet.content == content
    &&& lists(content, d.sort, d.show_hidden, e.sheet.rows)
    &&& e.sheet.status == decimal(e.sheet.rows.len()) + " items"@
    &&& kept_below(d.sheet.selection, e.sheet.selection, e.sheet.rows.len() as int)
    &&& e.sheet == (Sheet {
        content: e.sheet.content,
        rows: e.sheet.rows,
        selection: e.sheet.selection,
        status: e.sheet.status,
        ..d.sheet
    })
}

proof fn lemma_landing(d: Desk, content: Shown)
    requires
        size_of(content) <= usize::MAX,
    ensures
        landing_filled(d, d.landing_loaded(content), content),
{
    reveal(Desk::landing_loaded);
    reveal(Desk::listed);
    reveal(Desk::recompute_rows);
    law_list_shows_the_content(content, d.sort, d.show_hidden);
    let l = d.listed(content);
    lemma_icons(l);
    lemma_session(l.request_icons(), true);
}

/// A change on disk has the open folder read again, with a token of its own, and nothing else
/// happens before it is; a landing page is not read.
pub proof fn law_change_on_disk_rereads_the_folder(d: Desk)
    requires
        d.next_token < u64::MAX,
    ensures
        match d.sheet.history.current {
            Place::Path(t) => ({
                let token = (d.next_token + 1) as u64;
                d.handled(Message::DirChanged) == (Desk {
                    next_token: token,
                    sheet: Sheet { load_token: token, ..d.sheet },
                    out: d.out.push(Act::RereadDir { path: t, token }),
                    ..d
                })
            }),
            _ => d.handled(Message::DirChanged) == d,
        },
{
    reveal(Desk::dir_changed);
}

// ---------------------------------------------------------------- how it is shown

/// Sorting by a column lists the same content by it: ascending at first, and the other way
/// round each time it is asked for again. Where folders stand is kept. The choice is kept for
/// the next start.
pub proof fn law_sorting_reorders_the_list(d: Desk, key: SortKey)
    requires
        size_of(d.sheet.content) <= usize::MAX,
    ensures
        ({
            let e = d.handled(Message::SortBy(key));
            &&& e.sort.key == key
            &&& e.sort.folders_first == d.sort.folders_first
            &&& d.sort.key != key ==> e.sort.order == SortOrder::Ascending
            &&& d.sort.key == key ==> e.sort.order != d.sort.order
            &&& lists(d.sheet.content, e.sort, d.show_hidden, e.sheet.rows)
            &&& kept_below(d.sheet.selection, e.sheet.selection, e.sheet.rows.len() as int)
            &&& e == (Desk {
                sort: e.sort,
                sheet: Sheet { rows: e.sheet.rows, selection: e.sheet.selection, ..d.sheet },
                thumbs: e.thumbs,
                out: e.out,
                ..d
            })
            &&& only_adds(d.out, e.out)
            &&& e.out.len() > d.out.len() && e.out[d.out.len() as int] == Act::SaveSettings(
                Settings {
                    show_hidden: d.show_hidden,
                    sort: e.sort,
                    view_mode: d.sheet.view_mode,
                },
            )
        }),
{
    reveal(Desk::sort_by);
    reveal(Desk::recompute_rows);
    let e = d.handled(Message::SortBy(key));
    let b = (Desk { sort: e.sort, ..d }).recompute_rows();
    lemma_sweep(b.emit(Act::SaveSettings(b.settings())), false);
    reveal(Desk::prefetch_thumbs);
    law_list_shows_the_content(d.sheet.content, e.sort, d.show_hidden);
}

/// Showing hidden items, or not, lists the same content with or without them, and is kept for
/// the next start.
pub proof fn law_hidden_items_come_and_go(d: Desk, value: bool)
    requires
        size_of(d.sheet.content) <= usize::MAX,
    ensures
        ({
            let e = d.handled(Message::SetHidden(value));
            &&& e.show_hidden == value
            &&& lists(d.sheet.content, d.sort, value, e.sheet.rows)
            &&& kept_below(d.sheet.selection, e.sheet.selection, e.sheet.rows.len() as int)
            &&& tab_changed(Desk { show_hidden: value, ..d }, e)
            &&& e.sheet == (Sheet {
                rows: e.sheet.rows,
                selection: e.sheet.selection,
                ..d.sheet
            })
            &&& e.out.len() > d.out.len() && e.out[d.out.len() as int] == Act::SaveSettings(
                Settings { show_hidden: value, sort: d.sort, view_mode: d.sheet.view_mode },
            )
        }),
{
    reveal(Desk::set_hidden);
    reveal(Desk::recompute_rows);
    let b = (Desk { show_hidden: value, ..d }).recompute_rows();
    let s = b.emit(Act::SaveSettings(b.settings()));
    lemma_icons(s);
    lemma_session(s.request_icons(), false);
    law_list_shows_the_content(d.sheet.content, d.sort, value);
    assert(s.out[d.out.len() as int] == Act::SaveSettings(b.settings()));
    assert(s.request_icons().out[d.out.len() as int] == s.out[d.out.len() as int]);
}

/// Another view mode shows the same rows from the top in that mode, and is kept for the next
/// start; the mode that is there already changes nothing.
pub proof fn law_view_mode_is_kept(d: Desk, mode: ViewMode)
    ensures
        ({
            let e = d.handled(Message::ViewModeChanged(mode));
            if d.sheet.view_mode == mode {
                e == d
            } else {
                &&& e.sheet == (Sheet { view_mode: mode, scroll: 0, ..d.sheet })
                &&& tab_changed(d, e)
                &&& e.out.len() >= d.out.len() + 2
                &&& e.out[d.out.len() as int] == Act::SaveSettings(
                    Settings { show_hidden: d.show_hidden, sort: d.sort, view_mode: mode },
                )
                &&& e.out[d.out.len() as int + 1] == Act::ScrollTo(0)
            }
        }),
{
    reveal(Desk::view_mode_changed);
    let b = d.on(Sheet { view_mode: mode, ..d.sheet });
    let s = b.emit(Act::SaveSettings(b.settings())).scroll_to(0);
    lemma_session(s, true);
    assert(s.out[d.out.len() as int] == Act::SaveSettings(b.settings()));
    assert(s.out[d.out.len() as int + 1] == Act::ScrollTo(0));
}

/// A column that is dragged gets its width, and the other columns keep theirs. The layout is
/// kept for the open folder, and for no other: coming back to that folder finds it.
pub proof fn law_column_width_is_kept_for_its_folder(d: Desk, col: Column, width: u32)
    ensures
        ({
            let e = d.handled(Message::ColumnResized(col, width));
            let (was, now) = (d.sheet.columns, e.sheet.columns);
            &&& now.name == (if col == Column::Name {
                ColRule::Fixed(width)
            } else {
                was.name
            })
            &&& now.modified == (if col == Column::Modified {
                ColRule::Fixed(width)
            } else {
                was.modified
            })
            &&& now.type_ == (if col == Column::Type {
                ColRule::Fixed(width)
            } else {
                was.type_
            })
            &&& now.size == (if col == Column::Size {
                ColRule::Fixed(width)
            } else {
                was.size
            })
            &&& match d.sheet.history.current {
                Place::Path(dir) => {
                    &&& layout_for(e, dir, now)
                    &&& e.columns.contains_key(comps(dir))
                    &&& forall|other: Seq<crate::path::Comp>|
                        other != comps(dir) ==> (#[trigger] e.columns.contains_key(other)
                            <==> d.columns.contains_key(other)) && (d.columns.contains_key(other)
                            ==> e.columns[other] == d.columns[other])
                    &&& e.out == d.out.push(Act::SaveColumns)
                },
                _ => e.columns == d.columns && e.out == d.out,
            }
            &&& e == (Desk {
                sheet: Sheet { columns: now, ..d.sheet },
                columns: e.columns,
                out: e.out,
                ..d
            })
        }),
{
    reveal(Desk::column_resized);
}

/// Scrolling keeps the offset and the height; resizing keeps the sizes. Nothing else changes
/// but which thumbnails are asked for, and under the overlay none are.
pub proof fn law_scrolling_and_resizing(d: Desk, offset: u64, height: u64, pane_w: u64)
    ensures
        ({
            let e = d.handled(Message::Scrolled { offset, height });
            &&& e == (Desk {
                sheet: Sheet { scroll: offset, ..d.sheet },
                viewport: height,
                thumbs: e.thumbs,
                out: e.out,
                ..d
            })
            &&& only_adds(d.out, e.out)
            &&& d.overlay_loading ==> e.thumbs == d.thumbs && e.out == d.out
        }),
        ({
            let e = d.handled(Message::WindowResized { pane_w, height });
            &&& e == (Desk { pane_w, viewport: e.viewport, thumbs: e.thumbs, out: e.out, ..d })
            &&& only_adds(d.out, e.out)
            &&& e.viewport >= 24 * 256
            &&& height >= (150 + 24) * 256 ==> e.viewport == height - 150 * 256
        }),
        ({
            let e = d.handled(Message::PaneResized { pane_w });
            &&& e == (Desk { pane_w, thumbs: e.thumbs, out: e.out, ..d })
            &&& only_adds(d.out, e.out)
        }),
{
    reveal(Desk::scrolled);
    reveal(Desk::window_resized);
    reveal(Desk::pane_resized);
    lemma_sweep((Desk { viewport: height, ..d }).on(Sheet { scroll: offset, ..d.sheet }), false);
    lemma_sweep(
        Desk { pane_w, viewport: crate::geometry::list_height(height as int) as u64, ..d },
        false,
    );
    lemma_sweep(Desk { pane_w, ..d }, false);
}

} // verus!
