//! What holds of going from place to place and of tabs, in every state.

use crate::desk::{Desk, Results, Sheet, Shown};
use crate::message::{Act, Message};
use crate::model::{parent_place, parse_place, same_place, Location, Place};
use crate::selection::Picked;
use crate::tree::{walk_to, Revealed};
use vstd::prelude::*;

verus! {

// ---------------------------------------------------------------- arriving

/// Whether nothing is selected, focused or anchored.
pub open spec fn nothing_picked(p: Picked) -> bool {
    &&& forall|i: usize| !p.items.contains(i)
    &&& p.anchor is None
    &&& p.lead is None
}

/// Whether what was to be done before is still to be done first.
pub open spec fn only_adds(before: Seq<Act>, after: Seq<Act>) -> bool {
    &&& before.len() <= after.len()
    &&& forall|i: int| 0 <= i < before.len() ==> #[trigger] after[i] == before[i]
}

/// Whether everything that no tab owns, and that no search and no load counts, is the same.
pub open spec fn same_surroundings(d: Desk, e: Desk) -> bool {
    &&& e.sort == d.sort
    &&& e.show_hidden == d.show_hidden
    &&& e.icons == d.icons
    &&& e.icons_asked == d.icons_asked
    &&& e.clip == d.clip
    &&& e.cursor == d.cursor
    &&& e.modifiers == d.modifiers
    &&& e.viewport == d.viewport
    &&& e.pane_w == d.pane_w
    &&& e.spinner_frame == d.spinner_frame
    &&& e.columns == d.columns
    &&& e.next_id == d.next_id
}

/// Whether no search runs, and one that did is superseded.
pub open spec fn search_is_over(d: Desk, e: Desk) -> bool {
    &&& e.search_active is None
    &&& e.search_seq != d.search_seq
    &&& if d.search_active is Some {
        e.search_token != d.search_token
    } else {
        e.search_token == d.search_token
    }
}

/// Whether the tree of `e` is that of `d` with everything above `target` expanded, as far as it
/// has been loaded. Where a folder above it has to be loaded first, that is asked for, and the
/// rest is still to be revealed.
pub open spec fn reveals(d: Desk, e: Desk, target: Seq<char>) -> bool {
    let w = walk_to(d.nodes, 0, target);
    &&& e.nodes == w.nodes
    &&& match w.outcome {
        Revealed::Load(id, place) => {
            &&& e.pending_reveal == Some(target)
            &&& exists|i: int|
                d.out.len() <= i < e.out.len() && #[trigger] e.out[i] == (Act::LoadTreeChildren {
                    id,
                    place,
                    show_hidden: d.show_hidden,
                })
        },
        Revealed::Wait => e.pending_reveal == Some(target),
        Revealed::Stop => e.pending_reveal is None,
    }
}

/// Whether a place is revealed in the tree; a landing page needs nothing revealed.
pub open spec fn reveals_place(d: Desk, e: Desk, place: Place) -> bool {
    match place {
        Place::Path(t) => reveals(d, e, t),
        _ => e.nodes == d.nodes && e.pending_reveal is None,
    }
}

/// Whether `e` is `d` with its active tab on the way to `place`. What the place holds is asked
/// for; the list starts at its top, with nothing selected and nothing searched for. A folder
/// comes under the overlay, with what was listed before still on show; a landing page is empty
/// until its items are there.
pub open spec fn heads_for(d: Desk, e: Desk, place: Place) -> bool {
    &&& same_surroundings(d, e)
    &&& e.parked == d.parked
    &&& e.active == d.active
    &&& e.menu == d.menu
    &&& e.thumbs == d.thumbs
    &&& e.thumb_token == d.thumb_token
    &&& e.bg_queue == d.bg_queue
    &&& search_is_over(d, e)
    &&& e.next_token == d.next_token + 1
    &&& only_adds(d.out, e.out)
    &&& reveals_place(d, e, place)
    &&& e.out.len() > d.out.len() && e.out[d.out.len() as int] == Act::ScrollTo(0)
    &&& ({
        let s = e.sheet;
        &&& s.history.current == place
        &&& s.load_token == e.next_token
        &&& nothing_picked(s.selection)
        &&& s.last_click is None
        &&& s.scroll == 0
        &&& s.search_query.len() == 0
        &&& s.search_mode == d.sheet.search_mode
        &&& s.view_mode == d.sheet.view_mode
        &&& s.renaming == d.sheet.renaming
        &&& s.pending_rename == d.sheet.pending_rename
        &&& match place {
            Place::Path(t) => {
                &&& e.out.last() == (Act::ReadDir { path: t, token: s.load_token })
                &&& s.address == t
                &&& s.load_pending
                &&& e.overlay_loading
                &&& s.content == d.sheet.content
                &&& s.rows == d.sheet.rows
                &&& s.columns == d.sheet.columns
                &&& s.status == "Loading…"@
            },
            Place::ThisPc => {
                &&& e.out.last() == Act::ListDrives
                &&& s.address == "This PC"@
                &&& s.content == Shown::ThisPc(seq![])
                &&& s.rows.len() == 0
                &&& !s.load_pending
            },
            Place::Wsl => {
                &&& e.out.last() == Act::ListDistros
                &&& s.address == "Linux"@
                &&& s.content == Shown::Wsl(seq![])
                &&& s.rows.len() == 0
                &&& !s.load_pending
            },
        }
    })
}

/// Whether `e` is `d` with its active tab sent to `to`. Another place than the current one
/// can be gone back from, and leaves nothing to go forward to; the current one is read again.
pub open spec fn goes_to(d: Desk, e: Desk, to: Place) -> bool {
    if same_place(to, d.sheet.history.current) {
        &&& heads_for(d, e, d.sheet.history.current)
        &&& e.sheet.history == d.sheet.history
    } else {
        &&& heads_for(d, e, to)
        &&& e.sheet.history.back == d.sheet.history.back.push(d.sheet.history.current)
        &&& e.sheet.history.forward.len() == 0
    }
}

/// What revealing the current place in the tree leaves alone.
proof fn lemma_reveal(d: Desk)
    ensures
        ({
            let e = d.reveal_current();
            &&& e == (Desk {
                nodes: e.nodes,
                pending_reveal: e.pending_reveal,
                out: e.out,
                ..d
            })
            &&& only_adds(d.out, e.out)
            &&& reveals_place(d, e, d.sheet.history.current)
        }),
{
    reveal(Desk::reveal_current);
    reveal(Desk::drive_reveal);
    let e = d.reveal_current();
    if let Place::Path(t) = d.sheet.history.current {
        let w = walk_to(d.nodes, 0, t);
        if let Revealed::Load(id, place) = w.outcome {
            let act = Act::LoadTreeChildren { id, place, show_hidden: d.show_hidden };
            assert(e.out == d.out.push(act));
            assert(e.out[d.out.len() as int] == act);
        }
    }
}

/// What was asked for early is still asked for.
proof fn lemma_revealed_later(d: Desk, r: Desk, e: Desk, from: Desk, place: Place)
    requires
        reveals_place(d, r, place),
        only_adds(r.out, e.out),
        from.out.len() <= d.out.len(),
        e.nodes == r.nodes,
        e.pending_reveal == r.pending_reveal,
        from.nodes == d.nodes,
        from.show_hidden == d.show_hidden,
    ensures
        reveals_place(from, e, place),
{
    if let Place::Path(t) = place {
        if let Revealed::Load(id, p) = walk_to(d.nodes, 0, t).outcome {
            let act = Act::LoadTreeChildren { id, place: p, show_hidden: d.show_hidden };
            let i = choose|i: int| d.out.len() <= i < r.out.len() && #[trigger] r.out[i] == act;
            assert(e.out[i] == act);
        }
    }
}

/// Reading the current place again, or for the first time.
pub proof fn lemma_load(d: Desk)
    requires
        d.next_token < u64::MAX,
    ensures
        heads_for(d, d.load_current(), d.sheet.history.current),
        d.load_current().sheet.history == d.sheet.history,
{
    reveal(Desk::load_current);
    let b = d.left_behind().scroll_to(0);
    lemma_reveal(b);
    let r = b.reveal_current();
    assert(b.out[d.out.len() as int] == Act::ScrollTo(0));
    assert(r.out[d.out.len() as int] == Act::ScrollTo(0));
    assert forall|i: int| 0 <= i < d.out.len() implies #[trigger] r.out[i] == d.out[i] by {
        assert(b.out[i] == d.out[i]);
    }
    let e = d.load_current();
    assert(only_adds(r.out, e.out));
    lemma_revealed_later(b, r, e, d, d.sheet.history.current);
}

/// Going to a place.
proof fn lemma_navigate(d: Desk, to: Place)
    requires
        d.next_token < u64::MAX,
    ensures
        goes_to(d, d.navigate(to), to),
{
    reveal(Desk::navigate);
    let e = d.on(Sheet { history: d.sheet.history.visited(to), ..d.sheet });
    lemma_load(e);
}

// ---------------------------------------------------------------- places

/// Back leads to the place that was left last and asks for it; where there is none, nothing
/// happens. The place it leaves is the next to go forward to.
pub proof fn law_back_leads_to_the_place_before(d: Desk)
    requires
        d.next_token < u64::MAX,
    ensures
        ({
            let h = d.sheet.history;
            let e = d.handled(Message::GoBack);
            if h.back.len() == 0 {
                e == d
            } else {
                &&& heads_for(d, e, h.back.last())
                &&& e.sheet.history.back == h.back.drop_last()
                &&& e.sheet.history.forward == h.forward.push(h.current)
            }
        }),
{
    reveal(Desk::go_back);
    if d.sheet.history.back.len() > 0 {
        lemma_load(d.on(Sheet { history: d.sheet.history.stepped_back(), ..d.sheet }));
    }
}

/// Forward leads to the place that Back left last and asks for it; where there is none,
/// nothing happens. The place it leaves is the next to go back to.
pub proof fn law_forward_leads_to_the_place_after(d: Desk)
    requires
        d.next_token < u64::MAX,
    ensures
        ({
            let h = d.sheet.history;
            let e = d.handled(Message::GoForward);
            if h.forward.len() == 0 {
                e == d
            } else {
                &&& heads_for(d, e, h.forward.last())
                &&& e.sheet.history.forward == h.forward.drop_last()
                &&& e.sheet.history.back == h.back.push(h.current)
            }
        }),
{
    reveal(Desk::go_forward);
    if d.sheet.history.forward.len() > 0 {
        lemma_load(d.on(Sheet { history: d.sheet.history.stepped_forward(), ..d.sheet }));
    }
}

/// Back and then Forward ends where it started, and so does Forward and then Back: at the same
/// place, which is asked for, with the same places before and behind it.
pub proof fn law_back_and_forward_undo_each_other(d: Desk)
    requires
        d.next_token < u64::MAX - 1,
    ensures
        d.sheet.history.back.len() > 0 ==> ({
            let e = d.handled(Message::GoBack);
            let f = e.handled(Message::GoForward);
            heads_for(e, f, d.sheet.history.current) && f.sheet.history == d.sheet.history
        }),
        d.sheet.history.forward.len() > 0 ==> ({
            let e = d.handled(Message::GoForward);
            let f = e.handled(Message::GoBack);
            heads_for(e, f, d.sheet.history.current) && f.sheet.history == d.sheet.history
        }),
{
    law_back_leads_to_the_place_before(d);
    law_forward_leads_to_the_place_after(d);
    let h = d.sheet.history;
    if h.back.len() > 0 {
        let e = d.handled(Message::GoBack);
        law_forward_leads_to_the_place_after(e);
        let g = e.handled(Message::GoForward).sheet.history;
        assert(g.back =~= h.back && g.forward =~= h.forward);
    }
    if h.forward.len() > 0 {
        let e = d.handled(Message::GoForward);
        law_back_leads_to_the_place_before(e);
        let g = e.handled(Message::GoBack).sheet.history;
        assert(g.back =~= h.back && g.forward =~= h.forward);
    }
}

/// Up goes to the parent of the current place; the two landing pages have none.
pub proof fn law_up_goes_to_the_parent(d: Desk)
    requires
        d.next_token < u64::MAX,
        !d.overlay_loading,
    ensures
        match d.sheet.history.current {
            Place::Path(_) => parent_place(d.sheet.history.current) is Some && goes_to(
                d,
                d.handled(Message::GoUp),
                parent_place(d.sheet.history.current)->0,
            ),
            _ => d.handled(Message::GoUp) == d,
        },
{
    reveal(Desk::go_up);
    if let Some(p) = parent_place(d.sheet.history.current) {
        lemma_navigate(d, p);
    }
}

/// Refresh reads the current place again, and keeps the way that led there. So does a file
/// operation that succeeded; one that failed only says why.
pub proof fn law_refresh_reads_the_same_place(d: Desk, error: String)
    requires
        d.next_token < u64::MAX,
    ensures
        !d.overlay_loading ==> heads_for(
            d,
            d.handled(Message::Refresh),
            d.sheet.history.current,
        ) && d.handled(Message::Refresh).sheet.history == d.sheet.history,
        heads_for(d, d.handled(Message::OpFinished(Ok(()))), d.sheet.history.current),
        d.handled(Message::OpFinished(Ok(()))).sheet.history == d.sheet.history,
        d.handled(Message::OpFinished(Err(error))) == (Desk {
            sheet: Sheet { status: error@, ..d.sheet },
            ..d
        }),
{
    reveal(Desk::op_finished);
    lemma_load(d);
}

/// The address bar shows what is typed, and leads there once it is submitted.
pub proof fn law_address_bar_leads_where_it_says(d: Desk, text: String)
    requires
        d.next_token < u64::MAX,
        !d.overlay_loading,
    ensures
        d.handled(Message::AddressChanged(text)) == (Desk {
            sheet: Sheet { address: text@, ..d.sheet },
            ..d
        }),
        goes_to(d, d.handled(Message::AddressSubmit), parse_place(d.sheet.address)),
        goes_to(
            d.handled(Message::AddressChanged(text)),
            d.handled(Message::AddressChanged(text)).handled(Message::AddressSubmit),
            parse_place(text@),
        ),
{
    reveal(Desk::address_changed);
    lemma_navigate(d, parse_place(d.sheet.address));
    let e = d.handled(Message::AddressChanged(text));
    lemma_navigate(e, parse_place(text@));
}

/// Clicking a node of the tree goes to its place and closes the menu; at that place already,
/// nothing is read.
pub proof fn law_tree_node_leads_to_its_place(d: Desk, location: Location)
    requires
        d.next_token < u64::MAX,
    ensures
        ({
            let e = d.handled(Message::TreeNavigate(location));
            let closed = Desk { menu: None, ..d };
            if same_place(location@, d.sheet.history.current) {
                e == closed
            } else {
                goes_to(closed, e, location@)
            }
        }),
{
    reveal(Desk::tree_navigate);
    crate::model::law_same_place_is_an_equivalence(
        location@,
        d.sheet.history.current,
        location@,
    );
    crate::model::law_same_place_is_an_equivalence(
        d.sheet.history.current,
        location@,
        location@,
    );
    lemma_navigate(Desk { menu: None, ..d }, location@);
}

/// Opening a row goes to the place of a container, and asks to open a file; a row that is not
/// there does nothing. Enter and the menu's Open do so for the focused row, and close the menu.
pub proof fn law_opening_a_row(d: Desk)
    requires
        d.next_token < u64::MAX,
    ensures
        ({
            let e = d.handled(Message::OpenSelected);
            let closed = Desk { menu: None, ..d };
            let rows = d.sheet.rows;
            match d.sheet.selection.lead {
                None => e == closed,
                Some(i) => if i >= rows.len() {
                    e == closed
                } else if rows[i as int].is_container {
                    goes_to(closed, e, rows[i as int].target)
                } else {
                    match rows[i as int].target {
                        Place::Path(t) => e == (Desk { out: d.out.push(Act::Open(t)), ..closed }),
                        _ => e == closed,
                    }
                },
            }
        }),
        !d.overlay_loading ==> d.handled(Message::Activate) == d.handled(Message::OpenSelected),
{
    reveal(Desk::open_selected);
    reveal(Desk::activate_lead);
    if let Some(i) = d.sheet.selection.lead {
        lemma_activate(Desk { menu: None, ..d }, i as int);
    }
}

/// Whether `e` is `d` with row `i` opened.
pub open spec fn opens_row(d: Desk, e: Desk, i: int) -> bool {
    if i >= d.sheet.rows.len() {
        e == d
    } else if d.sheet.rows[i].is_container {
        goes_to(d, e, d.sheet.rows[i].target)
    } else {
        match d.sheet.rows[i].target {
            Place::Path(t) => e == (Desk { out: d.out.push(Act::Open(t)), ..d }),
            _ => e == d,
        }
    }
}

pub proof fn lemma_activate(d: Desk, i: int)
    requires
        d.next_token < u64::MAX,
    ensures
        opens_row(d, d.activate(i), i),
{
    reveal(Desk::activate);
    if i < d.sheet.rows.len() {
        lemma_navigate(d, d.sheet.rows[i].target);
    }
}

// ---------------------------------------------------------------- tabs

/// Whether `s` is the active tab of `d` as it is put aside: as it is, but that a search which
/// was still running counts as done.
pub open spec fn put_aside(d: Desk, s: Sheet) -> bool {
    match d.sheet.content {
        Shown::Search(r) => {
            &&& s.content == Shown::Search(Results { done: r.done || d.search_active is Some, ..r })
            &&& s == (Sheet { content: s.content, ..d.sheet })
        },
        _ => s == d.sheet,
    }
}

/// Whether `e` shows the tab `s`, which was put aside: as it was left, or, where its load was
/// cut short, with the load taken up again. The list is scrolled to where it was.
pub open spec fn shows_tab(d: Desk, e: Desk, s: Sheet) -> bool {
    &&& same_surroundings(d, e)
    &&& search_is_over(d, e)
    &&& e.menu is None
    &&& only_adds(d.out, e.out)
    &&& if s.load_pending {
        &&& heads_for(
            Desk { sheet: s, parked: e.parked, active: e.active, menu: None, ..d },
            e,
            s.history.current,
        )
        &&& e.sheet.history == s.history
    } else {
        &&& e.sheet == s
        &&& e.next_token == d.next_token
        &&& !e.overlay_loading
        &&& reveals_place(d, e, s.history.current)
        &&& exists|i: int|
            d.out.len() <= i < e.out.len() && #[trigger] e.out[i] == Act::ScrollTo(s.scroll)
    }
}

/// What a thumbnail session leaves alone.
pub proof fn lemma_session(d: Desk, lock: bool)
    ensures
        ({
            let e = d.begin_grid_session(lock);
            &&& e == (Desk {
                thumbs: e.thumbs,
                thumb_token: e.thumb_token,
                overlay_loading: false,
                bg_queue: e.bg_queue,
                out: e.out,
                ..d
            })
            &&& only_adds(d.out, e.out)
        }),
{
    reveal(Desk::begin_grid_session);
    reveal(Desk::prefetch_thumbs);
    reveal(Desk::seed_background);
    reveal(Desk::next_background_chunk);
}

/// Showing a tab that was adopted.
proof fn lemma_show(d: Desk, parked: Seq<Option<Sheet>>, active: int, s: Sheet)
    requires
        d.next_token < u64::MAX,
    ensures
        ({
            let e = (Desk { parked, active, ..d }).adopt(s).show_active();
            shows_tab(d, e, s) && e.parked == parked && e.active == active
        }),
{
    reveal(Desk::show_active);
    let a = (Desk { parked, active, ..d }).adopt(s).unmenued();
    let e = (Desk { parked, active, ..d }).adopt(s).show_active();
    if s.load_pending {
        lemma_load(a);
        assert(e == a.load_current());
        let b = Desk { sheet: s, parked, active, menu: None, ..d };
        reveal(Desk::load_current);
        lemma_reveal(a.left_behind().scroll_to(0));
        assert(e.search_active is None);
        assert(a.search_active is None);
        assert(e.search_token == a.search_token);
        assert(heads_for(b, e, s.history.current));
    } else {
        let r = a.reveal_current();
        lemma_reveal(a);
        let t = r.scroll_to(s.scroll);
        lemma_session(t, false);
        assert(t.out[r.out.len() as int] == Act::ScrollTo(s.scroll));
        assert(e.out[r.out.len() as int] == Act::ScrollTo(s.scroll));
        assert(t.sheet =~= s);
        assert forall|i: int| 0 <= i < d.out.len() implies #[trigger] e.out[i] == d.out[i] by {
            assert(r.out[i] == d.out[i]);
            assert(t.out[i] == d.out[i]);
        }
        assert forall|i: int| 0 <= i < r.out.len() implies #[trigger] e.out[i] == r.out[i] by {
            assert(t.out[i] == r.out[i]);
        }
        lemma_revealed_later(a, r, e, d, s.history.current);
    }
}

/// Selecting a tab shows it, and puts the one that was on show aside in its own place; every
/// other tab stays as it is. Selecting the tab on show, or one that is not there, does nothing.
pub proof fn law_selecting_a_tab_shows_it(d: Desk, index: usize)
    requires
        d.wf(),
        d.next_token < u64::MAX,
    ensures
        ({
            let e = d.handled(Message::SelectTab(index));
            if index == d.active || index >= d.parked.len() {
                e == d
            } else {
                selects(d, e, index as int)
            }
        }),
{
    lemma_switch(d, index as int);
}

/// Whether `e` is `d` with tab `i` on show instead of the active one.
pub open spec fn selects(d: Desk, e: Desk, i: int) -> bool {
    &&& e.active == i
    &&& e.parked.len() == d.parked.len()
    &&& e.parked[i] is None
    &&& e.parked[d.active] is Some && put_aside(d, e.parked[d.active]->0)
    &&& forall|j: int|
        0 <= j < d.parked.len() && j != i && j != d.active ==> #[trigger] e.parked[j]
            == d.parked[j]
    &&& shows_tab(d, e, d.parked[i]->0)
}

proof fn lemma_switch(d: Desk, i: int)
    requires
        d.wf(),
        d.next_token < u64::MAX,
        0 <= i,
    ensures
        i == d.active || i >= d.parked.len() ==> d.switch_tab(i) == d,
        i != d.active && i < d.parked.len() ==> selects(d, d.switch_tab(i), i),
{
    reveal(Desk::switch_tab);
    if i != d.active && i < d.parked.len() {
        let parked = d.parked.update(d.active, Some(d.parked_sheet())).update(i, None);
        lemma_show(d, parked, i, d.parked[i]->0);
    }
}

/// The next tab is the one behind the tab on show, and behind the last one the first; the
/// previous tab is the one before it, and before the first one the last. With one tab nothing
/// happens.
pub proof fn law_tabs_go_round(d: Desk)
    requires
        d.wf(),
        d.next_token < u64::MAX,
        !d.overlay_loading,
    ensures
        ({
            let n = d.parked.len();
            let e = d.handled(Message::NextTab);
            if n == 1 {
                e == d
            } else {
                selects(
                    d,
                    e,
                    if d.active + 1 < n {
                        d.active + 1
                    } else {
                        0
                    },
                )
            }
        }),
        ({
            let n = d.parked.len();
            let e = d.handled(Message::PrevTab);
            if n == 1 {
                e == d
            } else {
                selects(
                    d,
                    e,
                    if d.active > 0 {
                        d.active - 1
                    } else {
                        n - 1
                    },
                )
            }
        }),
{
    reveal(Desk::next_tab);
    reveal(Desk::prev_tab);
    let n = d.parked.len() as int;
    let next = if d.active + 1 < n {
        d.active + 1
    } else {
        0
    };
    let prev = if d.active > 0 {
        d.active - 1
    } else {
        n - 1
    };
    assert((d.active + 1) % n == next) by {
        if d.active + 1 == n {
            vstd::arithmetic::div_mod::lemma_mod_self_0(n);
        } else {
            vstd::arithmetic::div_mod::lemma_small_mod((d.active + 1) as nat, n as nat);
        }
    }
    assert((d.active + n - 1) % n == prev) by {
        if d.active == 0 {
            vstd::arithmetic::div_mod::lemma_small_mod((n - 1) as nat, n as nat);
        } else {
            vstd::arithmetic::div_mod::lemma_mod_add_multiples_vanish(d.active - 1, n);
            vstd::arithmetic::div_mod::lemma_small_mod((d.active - 1) as nat, n as nat);
        }
    }
    lemma_switch(d, next);
    lemma_switch(d, prev);
}

/// A new tab comes behind all others and is on show: at "This PC", with nowhere to go back or
/// forward to, in the view mode of the tab before it, which is put aside. Every other tab
/// stays as it is.
pub proof fn law_new_tab_comes_last(d: Desk)
    requires
        d.wf(),
        d.next_token < u64::MAX,
        !d.overlay_loading,
    ensures
        opens_tab(d, d.handled(Message::NewTab), Place::ThisPc),
{
    lemma_new_tab(d, Place::ThisPc);
}

/// Whether `e` is `d` with a fresh tab at `place` behind all others and on show.
pub open spec fn opens_tab(d: Desk, e: Desk, place: Place) -> bool {
    &&& e.active == d.parked.len()
    &&& e.parked.len() == d.parked.len() + 1
    &&& e.parked[e.active] is None
    &&& e.parked[d.active] is Some && put_aside(d, e.parked[d.active]->0)
    &&& forall|j: int|
        0 <= j < d.parked.len() && j != d.active ==> #[trigger] e.parked[j] == d.parked[j]
    &&& e.sheet.history.back.len() == 0
    &&& e.sheet.history.forward.len() == 0
    &&& e.sheet.rows.len() == 0
    &&& e.sheet.renaming is None
    &&& e.sheet.pending_rename is None
    &&& e.sheet.view_mode == d.sheet.view_mode
    &&& e.sheet.search_mode == crate::search::SearchMode::Name
    &&& e.sheet.columns.name is Fill && e.sheet.columns.modified is Auto
    &&& e.sheet.columns.type_ is Auto && e.sheet.columns.size is Auto
    &&& heads_for(
        Desk { sheet: e.sheet, parked: e.parked, active: e.active, menu: None, ..d },
        e,
        place,
    )
}

proof fn lemma_new_tab(d: Desk, place: Place)
    requires
        d.wf(),
        d.next_token < u64::MAX,
    ensures
        opens_tab(d, d.new_tab(place), place),
{
    reveal(Desk::new_tab);
    let parked = d.parked.update(d.active, Some(d.parked_sheet())).push(None);
    let b = Desk { parked, active: d.parked.len() as int, menu: None, ..d };
    let a = b.adopt(crate::desk::fresh_sheet(place, d.sheet.view_mode));
    lemma_load(a);
    let e = d.new_tab(place);
    assert(e == a.load_current());
    reveal(Desk::load_current);
    lemma_reveal(a.left_behind().scroll_to(0));
    assert(e.search_token == a.search_token);
}

/// The menu's "Open in new tab" opens the focused row in a new tab where it is a folder, and
/// otherwise does nothing but close the menu.
pub proof fn law_folder_opens_in_a_new_tab(d: Desk)
    requires
        d.wf(),
        d.next_token < u64::MAX,
    ensures
        ({
            let e = d.handled(Message::OpenInNewTab);
            let closed = Desk { menu: None, ..d };
            match d.sheet.selection.lead {
                Some(i) => if i < d.sheet.rows.len() && d.sheet.rows[i as int].is_container
                    && d.sheet.rows[i as int].target is Path {
                    opens_tab(closed, e, d.sheet.rows[i as int].target)
                } else {
                    e == closed
                },
                None => e == closed,
            }
        }),
{
    reveal(Desk::open_in_new_tab);
    if let Some(i) = d.sheet.selection.lead {
        if i < d.sheet.rows.len() {
            lemma_new_tab(Desk { menu: None, ..d }, d.sheet.rows[i as int].target);
        }
    }
}

/// Closing the tab on show, where there is another, shows its neighbour: the one behind it,
/// which takes its place, or, where it was the last, the one before it. Every other tab stays,
/// in its order.
pub proof fn law_closing_the_active_tab_shows_its_neighbour(d: Desk)
    requires
        d.wf(),
        d.next_token < u64::MAX,
        d.parked.len() > 1,
    ensures
        !d.overlay_loading ==> closes_active(d, d.handled(Message::CloseActiveTab)),
        d.active <= usize::MAX ==> closes_active(
            d,
            d.handled(Message::CloseTab(d.active as usize)),
        ),
{
    reveal(Desk::close_tab);
    let a = d.active;
    let rest = d.parked.remove(a);
    let next = if a + 1 < d.parked.len() {
        a
    } else {
        a - 1
    };
    let shown = if a + 1 < d.parked.len() {
        a + 1
    } else {
        a - 1
    };
    assert(d.parked[shown] is Some);
    assert(rest[next] == d.parked[shown]);
    let parked = rest.update(next, None);
    lemma_show(d, parked, next, rest[next]->0);
    let e = d.close_active();
    assert(e == (Desk { parked, active: next, ..d }).adopt(rest[next]->0).show_active());
    assert(closes_active(d, e));
}

/// Whether `e` is `d` with its active tab closed and a neighbour of it on show.
pub open spec fn closes_active(d: Desk, e: Desk) -> bool {
    let a = d.active;
    let n = d.parked.len();
    &&& e.parked.len() == n - 1
    &&& if a + 1 < n {
        &&& e.active == a
        &&& shows_tab(d, e, d.parked[a + 1]->0)
    } else {
        &&& e.active == a - 1
        &&& shows_tab(d, e, d.parked[a - 1]->0)
    }
    &&& e.parked[e.active] is None
    &&& forall|j: int|
        0 <= j < a && j != e.active ==> #[trigger] e.parked[j] == d.parked[j]
    &&& forall|j: int|
        a <= j < n - 1 && j != e.active ==> #[trigger] e.parked[j] == d.parked[j + 1]
}

/// Closing another tab than the one on show takes it out, and changes nothing else: the tab on
/// show stays on show, and the others keep their order.
pub proof fn law_closing_another_tab_keeps_the_one_on_show(d: Desk, index: usize)
    requires
        d.wf(),
        index < d.parked.len(),
        index != d.active,
    ensures
        ({
            let e = d.handled(Message::CloseTab(index));
            &&& e == (Desk { parked: e.parked, active: e.active, ..d })
            &&& e.parked.len() == d.parked.len() - 1
            &&& e.parked[e.active] is None
            &&& e.active == (if d.active < index {
                d.active
            } else {
                d.active - 1
            })
            &&& forall|j: int| 0 <= j < index ==> #[trigger] e.parked[j] == d.parked[j]
            &&& forall|j: int|
                index <= j < e.parked.len() ==> #[trigger] e.parked[j] == d.parked[j + 1]
        }),
{
    reveal(Desk::close_tab);
    assert(d.parked[index as int] is Some);
    assert(d.parked[d.active] is None);
}

/// Whatever happens to the tabs, exactly one is on show.
pub proof fn law_one_tab_is_on_show(d: Desk, index: usize)
    requires
        d.wf(),
        d.next_token < u64::MAX,
        !d.overlay_loading,
    ensures
        d.handled(Message::SelectTab(index)).wf(),
        d.handled(Message::NextTab).wf(),
        d.handled(Message::PrevTab).wf(),
        d.handled(Message::NewTab).wf(),
        d.handled(Message::OpenInNewTab).wf(),
        d.handled(Message::CloseTab(index)).wf(),
        d.handled(Message::CloseActiveTab).wf(),
{
    lemma_one_after_switching(d, index);
    lemma_one_after_opening(d);
    lemma_one_after_closing(d, index);
}

proof fn lemma_one_after_switching(d: Desk, index: usize)
    requires
        d.wf(),
        d.next_token < u64::MAX,
        !d.overlay_loading,
    ensures
        d.handled(Message::SelectTab(index)).wf(),
        d.handled(Message::NextTab).wf(),
        d.handled(Message::PrevTab).wf(),
{
    law_selecting_a_tab_shows_it(d, index);
    law_tabs_go_round(d);
    let n = d.parked.len() as int;
    if index != d.active && index < n {
        lemma_selects_wf(d, d.handled(Message::SelectTab(index)), index as int);
    }
    if n > 1 {
        let next = if d.active + 1 < n {
            d.active + 1
        } else {
            0
        };
        let prev = if d.active > 0 {
            d.active - 1
        } else {
            n - 1
        };
        lemma_selects_wf(d, d.handled(Message::NextTab), next);
        lemma_selects_wf(d, d.handled(Message::PrevTab), prev);
    }
}

proof fn lemma_one_after_opening(d: Desk)
    requires
        d.wf(),
        d.next_token < u64::MAX,
        !d.overlay_loading,
    ensures
        d.handled(Message::NewTab).wf(),
        d.handled(Message::OpenInNewTab).wf(),
{
    law_new_tab_comes_last(d);
    law_folder_opens_in_a_new_tab(d);
    lemma_opens_wf(d, d.handled(Message::NewTab), Place::ThisPc);
    if let Some(i) = d.sheet.selection.lead {
        if i < d.sheet.rows.len() && d.sheet.rows[i as int].is_container
            && d.sheet.rows[i as int].target is Path {
            lemma_opens_wf(
                Desk { menu: None, ..d },
                d.handled(Message::OpenInNewTab),
                d.sheet.rows[i as int].target,
            );
        }
    }
}

proof fn lemma_one_after_closing(d: Desk, index: usize)
    requires
        d.wf(),
        d.next_token < u64::MAX,
        !d.overlay_loading,
    ensures
        d.handled(Message::CloseTab(index)).wf(),
        d.handled(Message::CloseActiveTab).wf(),
{
    let n = d.parked.len() as int;
    if n > 1 {
        law_closing_the_active_tab_shows_its_neighbour(d);
        lemma_closes_wf(d, d.handled(Message::CloseActiveTab));
        if index < n && index != d.active {
            law_closing_another_tab_keeps_the_one_on_show(d, index);
            let e = d.handled(Message::CloseTab(index));
            assert forall|j: int| 0 <= j < e.parked.len() implies ((#[trigger] e.parked[j]) is None
                <==> j == e.active) by {
                if j < index {
                    assert(e.parked[j] == d.parked[j]);
                } else {
                    assert(e.parked[j] == d.parked[j + 1]);
                }
            }
        }
    }
    reveal(Desk::close_tab);
}

proof fn lemma_selects_wf(d: Desk, e: Desk, i: int)
    requires
        d.wf(),
        0 <= i < d.parked.len(),
        i != d.active,
        selects(d, e, i),
    ensures
        e.wf(),
{
    assert forall|j: int| 0 <= j < e.parked.len() implies ((#[trigger] e.parked[j]) is None <==> j
        == e.active) by {
        if j != i && j != d.active {
            assert(e.parked[j] == d.parked[j]);
        }
    }
}

proof fn lemma_opens_wf(d: Desk, e: Desk, place: Place)
    requires
        d.wf(),
        opens_tab(d, e, place),
    ensures
        e.wf(),
{
    assert forall|j: int| 0 <= j < e.parked.len() implies ((#[trigger] e.parked[j]) is None <==> j
        == e.active) by {
        if j < d.parked.len() && j != d.active {
            assert(e.parked[j] == d.parked[j]);
        }
    }
}

proof fn lemma_closes_wf(d: Desk, e: Desk)
    requires
        d.wf(),
        d.parked.len() > 1,
        closes_active(d, e),
    ensures
        e.wf(),
{
    assert forall|j: int| 0 <= j < e.parked.len() implies ((#[trigger] e.parked[j]) is None <==> j
        == e.active) by {
        if j != e.active {
            if j < d.active {
                assert(e.parked[j] == d.parked[j]);
            } else {
                assert(e.parked[j] == d.parked[j + 1]);
            }
        }
    }
}

/// A visit can be undone: from another place, Back leads to where the tab was, with the same
/// places to go back to, and Forward then leads to the place again.
pub proof fn law_back_undoes_going_elsewhere(d: Desk, location: Location)
    requires
        d.next_token < u64::MAX - 2,
        !same_place(location@, d.sheet.history.current),
    ensures
        ({
            let e = d.handled(Message::TreeNavigate(location));
            let f = e.handled(Message::GoBack);
            let g = f.handled(Message::GoForward);
            &&& heads_for(e, f, d.sheet.history.current)
            &&& f.sheet.history.back == d.sheet.history.back
            &&& f.sheet.history.forward == seq![location@]
            &&& heads_for(f, g, location@)
        }),
{
    law_tree_node_leads_to_its_place(d, location);
    let e = d.handled(Message::TreeNavigate(location));
    law_back_leads_to_the_place_before(e);
    let f = e.handled(Message::GoBack);
    assert(f.sheet.history.back =~= d.sheet.history.back);
    assert(f.sheet.history.forward =~= seq![location@]);
    law_forward_leads_to_the_place_after(f);
}

/// The program opens with one tab at its start, which is asked for, with the preferences that
/// were kept, and with nothing on the clipboard; and the top of the tree is asked for.
pub proof fn law_program_opens_at_its_start(
    start: Place,
    settings: crate::config::Settings,
    columns: Map<Seq<crate::path::Comp>, crate::columns::ColumnLayout>,
    pane_w: u64,
    window_h: u64,
)
    ensures
        ({
            let d = crate::update::opened(start, settings, columns, pane_w, window_h);
            let e = d.load_current().emit(Act::LoadTreeRoots);
            &&& heads_for(d, d.load_current(), start)
            &&& e.out.last() == Act::LoadTreeRoots
            &&& d.out.len() == 0
            &&& d.wf()
            &&& d.parked.len() == 1
            &&& d.clip is None
            &&& d.menu is None
            &&& d.sheet.history.back.len() == 0
            &&& d.sheet.history.forward.len() == 0
            &&& d.sheet.rows.len() == 0
            &&& d.sheet.view_mode == settings.view_mode
            &&& d.sort == settings.sort
            &&& d.show_hidden == settings.show_hidden
            &&& d.columns == columns
            &&& d.pane_w == pane_w
            &&& d.nodes.len() == 1
            &&& d.nodes[0].id == crate::tree::ROOT_ID
        }),
{
    let d = crate::update::opened(start, settings, columns, pane_w, window_h);
    lemma_load(d);
}

} // verus!
