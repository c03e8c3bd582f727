//! What holds of selecting rows and of what is done to files, in every state.

use crate::browsing::{lemma_activate, opens_row};
use crate::desk::{paths_at, Desk, Menu, Renaming, Sheet};
use crate::geometry::{page, scroll_for};
use crate::keyboard::Modifiers;
use crate::listing::only_row;
use crate::message::{Act, Message, Nav, Op, Spot};
use crate::model::Place;
use crate::path::WinPath;
use crate::rows::RowData;
use crate::selection::Picked;
use crate::text::{decimal, trim};
use vstd::prelude::*;

verus! {

// ---------------------------------------------------------------- what is selected

/// Whether row `i` is selected and has a path.
pub open spec fn picks_path(s: Sheet, i: int) -> bool {
    0 <= i < s.rows.len() && s.selection.items.contains(i as usize) && s.rows[i].target is Path
}

/// Whether `p` are the paths of the selected rows, with `rows` telling which row each is of:
/// those of all selected rows that have one, from the top.
pub open spec fn paths_of_rows(s: Sheet, p: Seq<Seq<char>>, rows: Seq<int>) -> bool {
    &&& rows.len() == p.len()
    &&& forall|k: int|
        0 <= k < p.len() ==> picks_path(s, #[trigger] rows[k]) && s.rows[rows[k]].target
            == Place::Path(p[k])
    &&& forall|a: int, b: int| 0 <= a < b < rows.len() ==> #[trigger] rows[a] < #[trigger] rows[b]
    &&& forall|i: int| #[trigger] picks_path(s, i) ==> rows.contains(i)
}

/// Whether `p` are the paths that a command on the selection acts on: those of the selected
/// rows, in a real folder, and elsewhere none.
pub open spec fn acts_on(s: Sheet, p: Seq<Seq<char>>) -> bool {
    match s.history.current {
        Place::Path(_) => exists|rows: Seq<int>| paths_of_rows(s, p, rows),
        _ => p.len() == 0,
    }
}

proof fn lemma_paths_at(rows: Seq<RowData>, items: Set<usize>, n: int) -> (at: Seq<int>)
    requires
        0 <= n <= rows.len(),
    ensures
        ({
            let p = paths_at(rows, items, n);
            &&& at.len() == p.len()
            &&& forall|k: int|
                0 <= k < p.len() ==> 0 <= #[trigger] at[k] < n && items.contains(at[k] as usize)
                    && rows[at[k]].target == Place::Path(p[k])
            &&& forall|a: int, b: int| 0 <= a < b < at.len() ==> #[trigger] at[a] < #[trigger] at[b]
            &&& forall|i: int|
                0 <= i < n && items.contains(i as usize) && (#[trigger] rows[i]).target is Path
                    ==> at.contains(i)
        }),
    decreases n,
{
    if n <= 0 {
        seq![]
    } else {
        let q = lemma_paths_at(rows, items, n - 1);
        let picked = items.contains((n - 1) as usize) && rows[n - 1].target is Path;
        let at = if picked {
            q.push(n - 1)
        } else {
            q
        };
        let p = paths_at(rows, items, n);
        assert forall|k: int| 0 <= k < p.len() implies 0 <= #[trigger] at[k] < n && items.contains(
            at[k] as usize,
        ) && rows[at[k]].target == Place::Path(p[k]) by {
            if k < q.len() {
                assert(at[k] == q[k]);
            }
        }
        assert forall|a: int, b: int| 0 <= a < b < at.len() implies #[trigger] at[a]
            < #[trigger] at[b] by {
            assert(at[a] == q[a]);
            if b < q.len() {
                assert(at[b] == q[b]);
            }
        }
        assert forall|i: int|
            0 <= i < n && items.contains(i as usize) && (#[trigger] rows[i]).target is Path implies at.contains(
        i) by {
            if i < n - 1 {
                assert(q.contains(i));
                let k = choose|k: int| 0 <= k < q.len() && q[k] == i;
                assert(at[k] == i);
            } else {
                assert(at[q.len() as int] == i);
            }
        }
        at
    }
}

proof fn lemma_acts_on(s: Sheet)
    ensures
        acts_on(s, s.selected_paths()),
{
    if s.history.current is Path {
        let at = lemma_paths_at(s.rows, s.selection.items, s.rows.len() as int);
        assert forall|i: int| #[trigger] picks_path(s, i) implies at.contains(i) by {
            assert(s.rows[i].target is Path);
        }
        assert(paths_of_rows(s, s.selected_paths(), at));
    }
}

/// Whether a path is that of a selected row.
pub open spec fn of_picked_row(s: Sheet, path: Seq<char>) -> bool {
    exists|i: int| #[trigger] picks_path(s, i) && s.rows[i].target == Place::Path(path)
}

/// A selection has one list of paths to act on: every selected path is in it, as often as rows
/// with it are selected, and nothing else is.
pub proof fn law_commands_act_on_the_selection(s: Sheet, p: Seq<Seq<char>>, q: Seq<Seq<char>>)
    requires
        acts_on(s, p),
        acts_on(s, q),
    ensures
        p == q,
        s.history.current is Path ==> forall|i: int|
            #[trigger] picks_path(s, i) ==> p.contains(s.rows[i].target->Path_0),
        forall|k: int| 0 <= k < p.len() ==> of_picked_row(s, #[trigger] p[k]),
{
    if s.history.current is Path {
        let a = choose|rows: Seq<int>| paths_of_rows(s, p, rows);
        let b = choose|rows: Seq<int>| paths_of_rows(s, q, rows);
        lemma_same_ascent(a, b);
        lemma_same_ascent(b, a);
        assert(a.len() == b.len());
        assert forall|k: int| 0 <= k < a.len() implies a[k] == b[k] by {
            lemma_same_at(a, b, k);
        }
        assert forall|k: int| 0 <= k < p.len() implies p[k] == q[k] by {
            assert(picks_path(s, a[k]) && picks_path(s, b[k]));
        }
        assert(p =~= q);
        assert forall|i: int| #[trigger] picks_path(s, i) implies p.contains(
            s.rows[i].target->Path_0,
        ) by {
            assert(a.contains(i));
            let k = choose|k: int| 0 <= k < a.len() && a[k] == i;
            assert(picks_path(s, a[k]));
            assert(p[k] == s.rows[i].target->Path_0);
        }
        assert forall|k: int| 0 <= k < p.len() implies of_picked_row(s, #[trigger] p[k]) by {
            assert(picks_path(s, a[k]));
        }
    } else {
        assert(p =~= q);
    }
}

/// Whether a list of rows ascends.
spec fn ascends(a: Seq<int>) -> bool {
    forall|x: int, y: int| 0 <= x < y < a.len() ==> #[trigger] a[x] < #[trigger] a[y]
}

/// A list that ascends is no longer than one that holds all of it.
proof fn lemma_same_ascent(a: Seq<int>, b: Seq<int>)
    requires
        ascends(a),
        ascends(b),
        forall|k: int| 0 <= k < a.len() ==> b.contains(#[trigger] a[k]),
    ensures
        a.len() <= b.len(),
{
    assert(a.no_duplicates());
    assert(b.no_duplicates());
    a.unique_seq_to_set();
    b.unique_seq_to_set();
    assert(a.to_set().subset_of(b.to_set()));
    vstd::set_lib::lemma_len_subset(a.to_set(), b.to_set());
}

/// Lists that ascend and hold the same are the same.
proof fn lemma_same_at(a: Seq<int>, b: Seq<int>, k: int)
    requires
        ascends(a),
        ascends(b),
        a.len() == b.len(),
        forall|x: int| 0 <= x < a.len() ==> b.contains(#[trigger] a[x]),
        forall|x: int| 0 <= x < b.len() ==> a.contains(#[trigger] b[x]),
        0 <= k < a.len(),
    ensures
        a[k] == b[k],
    decreases k,
{
    if k > 0 {
        lemma_same_at(a, b, k - 1);
    }
    let x = choose|x: int| 0 <= x < b.len() && b[x] == a[k];
    let y = choose|y: int| 0 <= y < a.len() && a[y] == b[k];
    assert(b.contains(a[k]) && a.contains(b[k]));
    if x < k {
        lemma_same_at(a, b, x);
        assert(a[x] < a[k]);
    }
    if y < k {
        lemma_same_at(a, b, y);
        assert(b[y] < b[k]);
    }
    if x > k && y > k {
        assert(b[k] < b[x]);
        assert(a[k] < a[y]);
    }
}

// ---------------------------------------------------------------- the clipboard

/// Whether `e` is `d` with its menu closed, and otherwise the same.
pub open spec fn only_closes_menu(d: Desk, e: Desk) -> bool {
    e == (Desk { menu: None, ..d })
}

/// The ending of a noun for a number.
pub open spec fn plural_s(n: nat) -> Seq<char> {
    if n == 1 {
        ""@
    } else {
        "s"@
    }
}

/// Cut and Copy put the paths of the selected rows on the clipboard, all of them and nothing
/// else, and say how many; the clipboard remembers which of the two it was. With nothing
/// selected, what is on the clipboard stays.
pub proof fn law_cut_and_copy_take_the_selection(d: Desk)
    requires
        !d.overlay_loading,
    ensures
        clips(d, d.handled(Message::Cut), true, "Cut"@),
        clips(d, d.handled(Message::Copy), false, "Copied"@),
{
    reveal(Desk::clip_selected);
    lemma_acts_on(d.sheet);
    let p = d.sheet.selected_paths();
    if acts_on(d.sheet, seq![]) {
        law_commands_act_on_the_selection(d.sheet, p, seq![]);
    } else if p.len() == 0 {
        assert(p =~= seq![]);
    }
}

/// Whether `e` is `d` with the selected paths on the clipboard.
pub open spec fn clips(d: Desk, e: Desk, cut: bool, verb: Seq<char>) -> bool {
    if acts_on(d.sheet, seq![]) {
        only_closes_menu(d, e)
    } else {
        &&& e.clip matches Some(c) && c.cut == cut && c.paths.len() > 0 && acts_on(
            d.sheet,
            c.paths,
        )
        &&& e.sheet.status == verb + seq![' '] + decimal(e.clip->0.paths.len()) + " item"@
            + plural_s(e.clip->0.paths.len())
        &&& e == (Desk {
            clip: e.clip,
            menu: None,
            sheet: Sheet { status: e.sheet.status, ..d.sheet },
            ..d
        })
    }
}

/// Paste in a folder asks for one operation on all that is on the clipboard, into that folder:
/// a move of what was cut, a copy of what was copied. The clipboard is empty afterwards. Where
/// no folder is open, or nothing is on the clipboard, nothing is asked for.
pub proof fn law_paste_takes_the_whole_clipboard(d: Desk)
    requires
        !d.overlay_loading,
    ensures
        ({
            let e = d.handled(Message::Paste);
            &&& e.clip is None
            &&& e.menu is None
            &&& match (d.sheet.history.current, d.clip) {
                (Place::Path(dir), Some(c)) => {
                    &&& e.out == d.out.push(
                        Act::Run(
                            if c.cut {
                                Op::Move { paths: c.paths, dir }
                            } else {
                                Op::Copy { paths: c.paths, dir }
                            },
                        ),
                    )
                    &&& e.sheet.status == (if c.cut {
                        "Moving"@
                    } else {
                        "Copying"@
                    }) + "…"@
                    &&& e == (Desk {
                        clip: None,
                        menu: None,
                        sheet: Sheet { status: e.sheet.status, ..d.sheet },
                        out: e.out,
                        ..d
                    })
                },
                _ => e == (Desk { clip: None, menu: None, ..d }),
            }
        }),
{
    reveal(Desk::paste);
}

/// What was cut in one folder is moved by pasting in another, and what was copied is copied:
/// every selected path, whatever happened in between, as long as nothing else was cut, copied
/// or pasted.
pub proof fn law_what_was_cut_is_moved(d: Desk, later: Desk, dir: Seq<char>)
    requires
        !d.overlay_loading,
        !acts_on(d.sheet, seq![]),
        !later.overlay_loading,
        later.sheet.history.current == Place::Path(dir),
    ensures
        later.clip == d.handled(Message::Cut).clip ==> exists|p: Seq<Seq<char>>|
            #[trigger] acts_on(d.sheet, p) && p.len() > 0 && later.handled(Message::Paste).out
                == later.out.push(Act::Run(Op::Move { paths: p, dir })),
        later.clip == d.handled(Message::Copy).clip ==> exists|p: Seq<Seq<char>>|
            #[trigger] acts_on(d.sheet, p) && p.len() > 0 && later.handled(Message::Paste).out
                == later.out.push(Act::Run(Op::Copy { paths: p, dir })),
{
    law_cut_and_copy_take_the_selection(d);
    law_paste_takes_the_whole_clipboard(later);
    if later.clip == d.handled(Message::Cut).clip {
        assert(acts_on(d.sheet, later.clip->0.paths));
    }
    if later.clip == d.handled(Message::Copy).clip {
        assert(acts_on(d.sheet, later.clip->0.paths));
    }
}

// ---------------------------------------------------------------- other operations

/// Delete asks for the selected paths to go to the recycle bin, all of them and nothing else;
/// with nothing selected it asks for nothing.
pub proof fn law_delete_takes_the_selection(d: Desk)
    requires
        !d.overlay_loading,
    ensures
        ({
            let e = d.handled(Message::DeleteSelected);
            if acts_on(d.sheet, seq![]) {
                only_closes_menu(d, e)
            } else {
                exists|p: Seq<Seq<char>>|
                    {
                        &&& #[trigger] acts_on(d.sheet, p)
                        &&& p.len() > 0
                        &&& e.out == d.out.push(Act::Run(Op::Delete { paths: p }))
                        &&& e.sheet.status == "Deleting"@ + seq![' '] + decimal(p.len())
                            + " item"@ + plural_s(p.len()) + "…"@
                        &&& e == (Desk {
                            menu: None,
                            sheet: Sheet { status: e.sheet.status, ..d.sheet },
                            out: e.out,
                            ..d
                        })
                    }
            }
        }),
{
    reveal(Desk::delete_selected);
    lemma_acts_on(d.sheet);
    let p = d.sheet.selected_paths();
    if acts_on(d.sheet, seq![]) {
        law_commands_act_on_the_selection(d.sheet, p, seq![]);
    } else {
        assert(p.len() > 0) by {
            if p.len() == 0 {
                assert(p =~= seq![]);
            }
        }
        assert(acts_on(d.sheet, p));
    }
}

/// Rename edits the name of the focused row, beginning with the name it has, where that row
/// stands for a path in a real folder.
pub proof fn law_rename_edits_the_focused_name(d: Desk)
    requires
        !d.overlay_loading,
    ensures
        ({
            let e = d.handled(Message::RenameStart);
            let s = d.sheet;
            if s.history.current is Path && s.selection.lead is Some && s.selection.lead->0
                < s.rows.len() && s.rows[s.selection.lead->0 as int].target is Path {
                let i = s.selection.lead->0;
                e == (Desk {
                    menu: None,
                    sheet: Sheet {
                        renaming: Some(Renaming { index: i, value: s.rows[i as int].label }),
                        ..s
                    },
                    out: d.out.push(Act::FocusRename),
                    ..d
                })
            } else {
                only_closes_menu(d, e)
            }
        }),
{
    reveal(Desk::rename_start);
}

/// The text of a rename is what is typed; the row that is renamed stays.
pub proof fn law_rename_keeps_what_is_typed(d: Desk, text: String)
    requires
        !d.overlay_loading,
    ensures
        ({
            let e = d.handled(Message::RenameChanged(text));
            match d.sheet.renaming {
                Some(r) => e == (Desk {
                    sheet: Sheet {
                        renaming: Some(Renaming { index: r.index, value: text@ }),
                        ..d.sheet
                    },
                    ..d
                }),
                None => e == d,
            }
        }),
{
    reveal(Desk::rename_changed);
}

/// A rename that is carried out asks for the row's own path to get the name that was typed,
/// without white space around it. It is not carried out where the name is blank or the same,
/// or where the row is gone. Either way it is over.
pub proof fn law_rename_renames_the_edited_row(d: Desk)
    requires
        !d.overlay_loading,
    ensures
        ({
            let e = d.handled(Message::RenameCommit);
            let rows = d.sheet.rows;
            let over = Desk { sheet: Sheet { renaming: None, ..d.sheet }, ..d };
            match d.sheet.renaming {
                None => e == d,
                Some(r) => {
                    let name = trim(r.value);
                    if r.index < rows.len() && rows[r.index as int].target is Path && name.len()
                        > 0 && name != rows[r.index as int].label {
                        e == (Desk {
                            menu: None,
                            sheet: Sheet {
                                renaming: None,
                                status: "Renaming"@ + "…"@,
                                ..d.sheet
                            },
                            out: d.out.push(
                                Act::Run(
                                    Op::Rename {
                                        path: rows[r.index as int].target->Path_0,
                                        name,
                                    },
                                ),
                            ),
                            ..d
                        })
                    } else {
                        e == over
                    }
                },
            }
        }),
{
    reveal(Desk::rename_commit);
}

/// A new folder gets a free name in the open folder, is made under that name where the name
/// was found, and is remembered there to be renamed once it is listed.
pub proof fn law_new_folder_is_made_where_it_was_asked_for(d: Desk, dir: WinPath, name: String)
    ensures
        match d.sheet.history.current {
            Place::Path(t) => d.handled(Message::NewFolder) == (Desk {
                menu: None,
                out: d.out.push(Act::NameFolder(t)),
                ..d
            }),
            _ => only_closes_menu(d, d.handled(Message::NewFolder)),
        },
        d.handled(Message::FolderNamed { dir, name }) == (Desk {
            menu: None,
            sheet: Sheet {
                pending_rename: Some((dir@, name@)),
                status: "New folder"@ + "…"@,
                ..d.sheet
            },
            out: d.out.push(Act::Run(Op::NewFolder { dir: dir@, name: name@ })),
            ..d
        }),
{
    reveal(Desk::new_folder);
    reveal(Desk::folder_named);
}

// ---------------------------------------------------------------- selecting

/// Whether a selection is the run of rows between `i` and `j`, whichever comes first.
pub open spec fn is_run(p: Picked, i: usize, j: usize) -> bool {
    forall|k: usize|
        #![trigger p.items.contains(k)]
        p.items.contains(k) <==> (i <= k <= j || j <= k <= i)
}

/// Whether only row `i` changes sides between two selections.
pub open spec fn flips_row(before: Picked, after: Picked, i: usize) -> bool {
    forall|k: usize|
        #![trigger after.items.contains(k)]
        after.items.contains(k) <==> (if k == i {
            !before.items.contains(k)
        } else {
            before.items.contains(k)
        })
}

/// A click on a row selects it: alone; with Ctrl in addition to the others, or not any more;
/// with Shift together with all rows up to the one the selection is anchored at. It is then
/// the focused row. A rename of another row is given up.
pub proof fn law_click_selects_a_row(d: Desk, index: usize, now: u64)
    requires
        d.next_token < u64::MAX,
    ensures
        ({
            let e = d.handled(Message::RowClicked { index, now });
            let renaming = if d.sheet.renaming matches Some(r) && r.index == index {
                d.sheet.renaming
            } else {
                None
            };
            let anchor = match d.sheet.selection.anchor {
                Some(a) => a,
                None => index,
            };
            let p = e.sheet.selection;
            if d.modifiers.shift {
                &&& is_run(p, anchor, index)
                &&& p.anchor == Some(anchor)
                &&& p.lead == Some(index)
                &&& e == (Desk {
                    sheet: Sheet { selection: p, renaming, last_click: None, ..d.sheet },
                    ..d
                })
            } else if d.modifiers.command {
                &&& flips_row(d.sheet.selection, p, index)
                &&& p.anchor == Some(index)
                &&& p.lead == Some(index)
                &&& e == (Desk {
                    sheet: Sheet { selection: p, renaming, last_click: None, ..d.sheet },
                    ..d
                })
            } else if d.sheet.last_click matches Some((i, t)) && i == index && now - t
                < 400_000_000 {
                exists|m: Desk|
                    {
                        &&& only_row(m.sheet.selection, index as int)
                        &&& m == (Desk {
                            sheet: Sheet {
                                selection: m.sheet.selection,
                                renaming,
                                last_click: Some((index, now)),
                                ..d.sheet
                            },
                            ..d
                        })
                        &&& #[trigger] opens_row(m, e, index as int)
                    }
            } else {
                &&& only_row(p, index as int)
                &&& e == (Desk {
                    sheet: Sheet {
                        selection: p,
                        renaming,
                        last_click: Some((index, now)),
                        ..d.sheet
                    },
                    ..d
                })
            }
        }),
{
    reveal(Desk::on_click);
    reveal(Desk::plain_click);
    let r = d.rename_left(index);
    let m = r.on(
        Sheet { selection: Picked::only(index), last_click: Some((index, now)), ..r.sheet },
    );
    lemma_activate(m, index as int);
    let e = d.handled(Message::RowClicked { index, now });
    if !d.modifiers.shift && !d.modifiers.command {
        assert(e == r.plain_click(index, now));
    }
}

/// Two plain clicks on a row in quick succession open it; two slow ones, or on different rows,
/// only select.
pub proof fn law_double_click_opens(d: Desk, i: usize, j: usize, first: u64, second: u64)
    requires
        d.next_token < u64::MAX - 1,
        !d.modifiers.shift,
        !d.modifiers.command,
        d.sheet.last_click is None,
        first <= second,
    ensures
        ({
            let e = d.handled(Message::RowClicked { index: i, now: first });
            let f = e.handled(Message::RowClicked { index: j, now: second });
            &&& only_row(e.sheet.selection, i as int)
            &&& e.out == d.out
            &&& if i == j && second - first < 400_000_000 {
                exists|m: Desk|
                    #[trigger] opens_row(m, f, i as int) && m.sheet.rows == d.sheet.rows
                        && m.sheet.history == d.sheet.history && m.out == d.out
            } else {
                only_row(f.sheet.selection, j as int) && f.out == d.out
            }
        }),
{
    law_click_selects_a_row(d, i, first);
    law_click_selects_a_row(d.handled(Message::RowClicked { index: i, now: first }), j, second);
}

/// A right click opens a menu for the row, where the cursor is. A row that is selected stays so
/// with the others, and any other row is selected alone; it is then the focused row. A right
/// click beside the rows opens a menu for the folder, and selects nothing.
pub proof fn law_right_click_opens_a_menu(d: Desk, index: usize)
    ensures
        ({
            let e = d.handled(Message::RowRightClicked(index));
            let p = e.sheet.selection;
            &&& e.menu == Some(Menu { index: Some(index), at: d.cursor })
            &&& p.lead == Some(index)
            &&& p.anchor == Some(index)
            &&& if d.sheet.selection.items.contains(index) {
                p.items == d.sheet.selection.items
            } else {
                only_row(p, index as int)
            }
            &&& e == (Desk {
                menu: e.menu,
                sheet: Sheet { selection: p, last_click: None, ..d.sheet },
                ..d
            })
        }),
        d.handled(Message::BackgroundRightClicked) == (Desk {
            menu: Some(Menu { index: None, at: d.cursor }),
            ..d
        }),
        !d.overlay_loading ==> d.handled(Message::CloseMenu) == (Desk {
            menu: None,
            sheet: Sheet { renaming: None, ..d.sheet },
            ..d
        }),
{
    reveal(Desk::row_right_clicked);
    reveal(Desk::background_right_clicked);
    reveal(Desk::close_menu);
}

/// Select All selects every row of a folder and no other; the focus stays, and without one the
/// first row gets it. Elsewhere nothing happens.
pub proof fn law_select_all_selects_every_row(d: Desk)
    requires
        !d.overlay_loading,
        d.sheet.rows.len() <= usize::MAX,
    ensures
        ({
            let e = d.handled(Message::SelectAll);
            let p = e.sheet.selection;
            let was = d.sheet.selection;
            if d.sheet.history.current is Path {
                &&& forall|k: usize|
                    #![trigger p.items.contains(k)]
                    p.items.contains(k) <==> k < d.sheet.rows.len()
                &&& if was.lead is None && d.sheet.rows.len() > 0 {
                    p.lead == Some(0usize) && p.anchor == Some(0usize)
                } else {
                    p.lead == was.lead && p.anchor == was.anchor
                }
                &&& e == (Desk { sheet: Sheet { selection: p, ..d.sheet }, ..d })
            } else {
                e == d
            }
        }),
{
    reveal(Desk::select_all);
}

/// Whether a page holds `n` rows: as many as fit, and at least one.
pub open spec fn page_holds(viewport: u64, n: int) -> bool {
    &&& n >= 1
    &&& n == 1 || n * (24 * 256) <= viewport
    &&& (n + 1) * (24 * 256) > viewport
}

/// Whether a key leads from the focused row to row `to` of `n`: one or a page further up or
/// down, but not past the ends, or to an end. Without a focus, Up leads to the last row and
/// every other key but End to the first.
pub open spec fn leads_row(nav: Nav, lead: Option<usize>, n: int, rows_per_page: int, to: int)
    -> bool {
    let step = match nav {
        Nav::Up => -1,
        Nav::Down => 1,
        Nav::PageUp => -rows_per_page,
        Nav::PageDown => rows_per_page,
        _ => 0,
    };
    match (nav, lead) {
        (Nav::Home, _) => to == 0,
        (Nav::End, _) => to == n - 1,
        (Nav::Up, None) => to == n - 1,
        (_, None) => to == 0,
        (_, Some(i)) => if i + step < 0 {
            to == 0
        } else if i + step > n - 1 {
            to == n - 1
        } else {
            to == i + step
        },
    }
}

/// A key moves the focus among the rows. The row it leads to is selected alone; with Shift
/// together with all up to the anchor; with Ctrl alone the selection stays. The row is then
/// within view, and a rename and a menu are given up. Without rows nothing happens.
pub proof fn law_keys_move_the_focus(d: Desk, nav: Nav, extend: bool, focus_only: bool)
    requires
        !d.overlay_loading,
        d.sheet.rows.len() <= usize::MAX,
        d.sheet.selection.lead matches Some(i) ==> i < d.sheet.rows.len(),
    ensures
        ({
            let e = d.handled(Message::MoveSelection(nav, extend, focus_only));
            let n = d.sheet.rows.len() as int;
            let was = d.sheet.selection;
            let p = e.sheet.selection;
            if n == 0 {
                e == d
            } else {
                &&& exists|to: usize, k: int|
                    {
                        &&& #[trigger] page_holds(d.viewport, k)
                        &&& to < n
                        &&& #[trigger] leads_row(nav, was.lead, n, k, to as int)
                        &&& p.lead == Some(to)
                        &&& if extend {
                            is_run(
                                p,
                                match was.anchor {
                                    Some(a) => a,
                                    None => to,
                                },
                                to,
                            ) && p.anchor == (match was.anchor {
                                Some(a) => Some(a),
                                None => Some(to),
                            })
                        } else if focus_only {
                            p.items == was.items && p.anchor == Some(to)
                        } else {
                            only_row(p, to as int)
                        }
                    }
                &&& e == (Desk {
                    menu: None,
                    sheet: Sheet {
                        selection: p,
                        renaming: None,
                        last_click: None,
                        scroll: e.sheet.scroll,
                        ..d.sheet
                    },
                    out: e.out,
                    ..d
                })
                &&& e.out == d.out && e.sheet.scroll == d.sheet.scroll || e.out == d.out.push(
                    Act::ScrollTo(e.sheet.scroll),
                )
            }
        }),
{
    reveal(Desk::move_selection);
    reveal(Desk::ensure_visible);
    let n = d.sheet.rows.len() as int;
    if n > 0 {
        let k = page(d.viewport as int);
        assert(page_holds(d.viewport, k)) by {
            let v = d.viewport as int;
            assert(v / 6144 * 6144 <= v < (v / 6144 + 1) * 6144);
        }
        let to = crate::desk::stepped(nav, d.sheet.selection.lead, n, k);
        assert(0 <= to < n);
        assert(leads_row(nav, d.sheet.selection.lead, n, k, to as usize as int));
    }
}

/// The row that a key leads to is within view afterwards, or off by less than half a pixel.
pub proof fn law_focused_row_is_in_view(d: Desk, nav: Nav, extend: bool, focus_only: bool)
    requires
        !d.overlay_loading,
        d.sheet.rows.len() > 0,
        d.sheet.rows.len() * (24 * 256) <= u64::MAX,
        d.sheet.rows.len() <= usize::MAX,
        d.sheet.selection.lead matches Some(i) ==> i < d.sheet.rows.len(),
    ensures
        ({
            let e = d.handled(Message::MoveSelection(nav, extend, focus_only));
            let row = 24 * 256int;
            let view = if d.viewport >= row {
                d.viewport as int
            } else {
                row
            };
            let top = e.sheet.selection.lead->0 * row;
            e.sheet.scroll < top + 128 && top + row <= e.sheet.scroll + view + 127
        }),
{
    law_keys_move_the_focus(d, nav, extend, focus_only);
    reveal(Desk::move_selection);
    reveal(Desk::ensure_visible);
    let n = d.sheet.rows.len() as int;
    let k = page(d.viewport as int);
    let to = crate::desk::stepped(nav, d.sheet.selection.lead, n, k);
    assert(0 <= to < n);
    let e = d.handled(Message::MoveSelection(nav, extend, focus_only));
    assert(e.sheet.selection.lead == Some(to as usize));
    assert(to * 6144 + 6144 <= n * 6144) by (nonlinear_arith)
        requires
            to < n,
    ;
    let at = scroll_for(to, n, d.sheet.scroll as int, d.viewport as int);
    if at is Some {
        crate::geometry::law_scrolled_row_is_in_view(
            to,
            n,
            d.sheet.scroll as int,
            d.viewport as int,
        );
        assert(e.sheet.scroll == at->0);
    } else {
        assert(e.sheet.scroll == d.sheet.scroll);
    }
}

/// Pointer and modifier keys are remembered, the spinner turns, and an event that means nothing
/// does nothing.
pub proof fn law_small_events(d: Desk, at: Spot, modifiers: Modifiers)
    ensures
        d.handled(Message::CursorMoved(at)) == (Desk { cursor: at, ..d }),
        d.handled(Message::ModifiersChanged(modifiers)) == (Desk { modifiers, ..d }),
        d.handled(Message::SpinnerTick) == (Desk {
            spinner_frame: d.handled(Message::SpinnerTick).spinner_frame,
            ..d
        }),
        d.handled(Message::SpinnerTick).spinner_frame % 4 == (d.spinner_frame % 4 + 1) % 4,
        d.handled(Message::Noop) == d,
{
    reveal(Desk::cursor_moved);
    reveal(Desk::modifiers_changed);
    reveal(Desk::spinner_tick);
}

} // verus!
