//! What holds of searching, in every state.

use crate::browsing::{
    heads_for, lemma_load, lemma_session, nothing_picked, only_adds, same_surroundings,
};
use crate::desk::{rank_results, result_le, rows_of, Desk, Quest, Results, Sheet, Shown};
use crate::message::{Act, Message};
use crate::model::Place;
use crate::order::{law_sorting_rearranges, sorted_by};
use crate::rows::{hit_row, RowData};
use crate::search::{SearchHit, SearchMode};
use crate::selection::Picked;
use crate::sort::names_in_order;
use crate::text::{
    decimal, law_texts_rank_as_in_a_dictionary, lemma_rank_text, lemma_rank_text_transitive, trim,
    Rank,
};
use crate::unicode::lowercase;
use vstd::prelude::*;

verus! {

// ---------------------------------------------------------------- the rows of results

/// Whether two rows of results stand in order: folders before files, and each by label,
/// ignoring case.
pub open spec fn results_in_order(a: RowData, b: RowData) -> bool {
    if a.is_container == b.is_container {
        names_in_order(a.label, b.label)
    } else {
        a.is_container
    }
}

/// The rows that results become, before they are put in order.
pub open spec fn result_rows(hits: Seq<SearchHit>, root: Seq<char>) -> Seq<RowData> {
    hits.map_values(|h: SearchHit| hit_row(h, root))
}

proof fn lemma_results_in_order(a: RowData, b: RowData)
    ensures
        rank_results(a, b) != Rank::Greater <==> results_in_order(a, b),
        rank_results(a, b) != Rank::Greater || rank_results(b, a) != Rank::Greater,
{
    law_texts_rank_as_in_a_dictionary(lowercase(a.label), lowercase(b.label));
    lemma_rank_text(lowercase(a.label), lowercase(b.label));
}

/// Results are listed each once, folders first and by label; results that tie keep the order
/// in which they were found, which `p` tells.
pub proof fn law_results_are_listed_each_once(r: Results, d: Desk) -> (p: Seq<usize>)
    requires
        r.hits.len() <= usize::MAX,
    ensures
        ({
            let rows = rows_of(Shown::Search(r), d.sort, d.show_hidden);
            &&& rows.len() == r.hits.len()
            &&& rows.to_multiset() == result_rows(r.hits, r.root).to_multiset()
            &&& p.len() == rows.len()
            &&& p.no_duplicates()
            &&& forall|k: int| 0 <= k < p.len() ==> (#[trigger] p[k]) < r.hits.len() && rows[k]
                == hit_row(r.hits[p[k] as int], r.root)
            &&& forall|a: int, b: int|
                #![trigger rows[a], rows[b]]
                0 <= a < b < rows.len() ==> results_in_order(rows[a], rows[b]) && (
                results_in_order(rows[b], rows[a]) ==> p[a] < p[b])
            &&& forall|i: int|
                0 <= i < r.hits.len() ==> rows.contains(hit_row(#[trigger] r.hits[i], r.root))
        }),
{
    let all = result_rows(r.hits, r.root);
    let le = result_le();
    assert forall|i: int, j: int| 0 <= i < all.len() && 0 <= j < all.len() implies #[trigger] le(
        all[i],
        all[j],
    ) || le(all[j], all[i]) by {
        lemma_results_in_order(all[i], all[j]);
    }
    assert forall|i: int, j: int, k: int|
        0 <= i < all.len() && 0 <= j < all.len() && 0 <= k < all.len() && #[trigger] le(
            all[i],
            all[j],
        ) && #[trigger] le(all[j], all[k]) implies le(all[i], all[k]) by {
        let (a, b, c) = (all[i], all[j], all[k]);
        if a.is_container == b.is_container && b.is_container == c.is_container {
            lemma_rank_text_transitive(
                lowercase(a.label),
                lowercase(b.label),
                lowercase(c.label),
            );
        }
    }
    assert(all =~= r.hits.map_values(|h: SearchHit| hit_row(h, r.root)));
    let p = law_sorting_rearranges(all, le);
    let rows = rows_of(Shown::Search(r), d.sort, d.show_hidden);
    assert(rows == sorted_by(all, le));
    assert forall|a: int, b: int|
        #![trigger rows[a], rows[b]]
        0 <= a < b < rows.len() implies results_in_order(rows[a], rows[b]) && (results_in_order(
        rows[b],
        rows[a],
    ) ==> p[a] < p[b]) by {
        lemma_results_in_order(rows[a], rows[b]);
        lemma_results_in_order(rows[b], rows[a]);
    }
    assert forall|i: int| 0 <= i < r.hits.len() implies rows.contains(
        hit_row(#[trigger] r.hits[i], r.root),
    ) by {
        broadcast use vstd::seq_lib::group_to_multiset_ensures;
        assert(all[i] == hit_row(r.hits[i], r.root));
        assert(all.contains(all[i]));
        assert(all.to_multiset().count(all[i]) > 0);
    }
    p
}

// ---------------------------------------------------------------- results that come in

/// What asking for icons and thumbnails of the viewport leaves alone.
proof fn lemma_asking(d: Desk)
    ensures
        ({
            let e = d.request_icons().prefetch_thumbs(false);
            &&& e == (Desk { icons_asked: e.icons_asked, thumbs: e.thumbs, out: e.out, ..d })
            &&& only_adds(d.out, e.out)
        }),
{
    reveal(Desk::request_icons);
    reveal(Desk::prefetch_thumbs);
}

proof fn lemma_seeding(d: Desk)
    ensures
        ({
            let e = d.request_icons().seed_background();
            &&& e == (Desk {
                icons_asked: e.icons_asked,
                thumbs: e.thumbs,
                bg_queue: e.bg_queue,
                out: e.out,
                ..d
            })
            &&& only_adds(d.out, e.out)
        }),
{
    reveal(Desk::request_icons);
    reveal(Desk::seed_background);
    reveal(Desk::next_background_chunk);
}

/// Whatever a running search delivers is added to what it has delivered: the results on show
/// are all those from before, and behind them the new ones. Each of them is listed, and the
/// status line counts them. Rows that are selected stay so. Nothing else changes but what is
/// asked for.
pub proof fn law_results_accumulate(d: Desk, token: u64, hits: Vec<SearchHit>, r: Results)
    requires
        d.search_token == token,
        d.sheet.content == Shown::Search(r),
        r.hits.len() + hits@.len() <= usize::MAX,
    ensures
        ({
            let e = d.handled(Message::SearchBatch { token, hits });
            &&& e.sheet.content == Shown::Search(
                Results { hits: r.hits + hits@, done: false, ..r },
            )
            &&& e.sheet.status == "Searching… "@ + decimal(r.hits.len() + hits@.len())
                + " found"@
            &&& e.sheet.rows.len() == r.hits.len() + hits@.len()
            &&& e.sheet.rows.to_multiset() == result_rows(
                r.hits + hits@,
                r.root,
            ).to_multiset()
            &&& forall|i: int|
                0 <= i < r.hits.len() ==> e.sheet.rows.contains(
                    hit_row(#[trigger] r.hits[i], r.root),
                )
            &&& forall|i: int|
                0 <= i < hits@.len() ==> e.sheet.rows.contains(
                    hit_row(#[trigger] hits@[i], r.root),
                )
            &&& crate::listing::kept_below(
                d.sheet.selection,
                e.sheet.selection,
                e.sheet.rows.len() as int,
            )
            &&& e == (Desk {
                sheet: Sheet {
                    content: e.sheet.content,
                    rows: e.sheet.rows,
                    selection: e.sheet.selection,
                    status: e.sheet.status,
                    ..d.sheet
                },
                icons_asked: e.icons_asked,
                thumbs: e.thumbs,
                out: e.out,
                ..d
            })
            &&& only_adds(d.out, e.out)
        }),
{
    reveal(Desk::search_batch);
    reveal(Desk::recompute_rows);
    let all = r.hits + hits@;
    let now = Results { hits: all, done: false, ..r };
    let b = d.on(Sheet { content: Shown::Search(now), ..d.sheet }).recompute_rows().says(
        crate::labels::found_text(all.len() as int),
    );
    lemma_asking(b);
    let p = law_results_are_listed_each_once(now, d);
    let rows = rows_of(Shown::Search(now), d.sort, d.show_hidden);
    assert forall|i: int| 0 <= i < r.hits.len() implies rows.contains(
        hit_row(#[trigger] r.hits[i], r.root),
    ) by {
        assert(all[i] == r.hits[i]);
    }
    assert forall|i: int| 0 <= i < hits@.len() implies rows.contains(
        hit_row(#[trigger] hits@[i], r.root),
    ) by {
        assert(all[r.hits.len() + i] == hits@[i]);
    }
}

/// Two batches in a row show the same as one batch with the results of both.
pub proof fn law_batches_may_be_joined(
    d: Desk,
    token: u64,
    first: Vec<SearchHit>,
    second: Vec<SearchHit>,
    both: Vec<SearchHit>,
    r: Results,
)
    requires
        d.search_token == token,
        d.sheet.content == Shown::Search(r),
        both@ == first@ + second@,
        r.hits.len() + both@.len() <= usize::MAX,
    ensures
        ({
            let one = d.handled(Message::SearchBatch { token, hits: first }).handled(
                Message::SearchBatch { token, hits: second },
            ).sheet;
            let all = d.handled(Message::SearchBatch { token, hits: both }).sheet;
            one.content == all.content && one.rows == all.rows && one.status == all.status
        }),
{
    law_results_accumulate(d, token, first, r);
    law_results_accumulate(d, token, both, r);
    let e = d.handled(Message::SearchBatch { token, hits: first });
    let m = Results { hits: r.hits + first@, done: false, ..r };
    law_results_accumulate(e, token, second, m);
    assert(m.hits + second@ =~= r.hits + both@);
    reveal(Desk::search_batch);
    reveal(Desk::recompute_rows);
    let f = e.handled(Message::SearchBatch { token, hits: second });
    let a = d.handled(Message::SearchBatch { token, hits: both });
    lemma_batch_rows(e, token, second, m);
    lemma_batch_rows(d, token, both, r);
    assert(f.sheet.content == a.sheet.content);
}

proof fn lemma_batch_rows(d: Desk, token: u64, hits: Vec<SearchHit>, r: Results)
    requires
        d.search_token == token,
        d.sheet.content == Shown::Search(r),
    ensures
        ({
            let e = d.handled(Message::SearchBatch { token, hits });
            e.sheet.rows == rows_of(e.sheet.content, d.sort, d.show_hidden)
        }),
{
    reveal(Desk::search_batch);
    reveal(Desk::recompute_rows);
    let now = Results { hits: r.hits + hits@, done: false, ..r };
    lemma_asking(
        d.on(Sheet { content: Shown::Search(now), ..d.sheet }).recompute_rows().says(
            crate::labels::found_text(now.hits.len() as int),
        ),
    );
}

/// A search that ends keeps every result on show, and is not running any more. The status line
/// counts them, and says where more were left out; a search that failed says why instead.
pub proof fn law_ended_search_keeps_its_results(
    d: Desk,
    token: u64,
    capped: bool,
    error: String,
    r: Results,
)
    requires
        d.search_token == token,
        d.sheet.content == Shown::Search(r),
    ensures
        ({
            let e = d.handled(Message::SearchFinished { token, capped });
            let n = decimal(r.hits.len());
            &&& e.sheet == (Sheet {
                content: Shown::Search(Results { done: true, ..r }),
                status: if r.hits.len() == 0 {
                    "No results"@
                } else if capped {
                    n + " results (showing the first "@ + n + "; refine to narrow)"@
                } else if r.hits.len() == 1 {
                    n + " result"@ + ""@
                } else {
                    n + " result"@ + "s"@
                },
                ..d.sheet
            })
            &&& e == (Desk {
                sheet: e.sheet,
                search_active: None,
                icons_asked: e.icons_asked,
                thumbs: e.thumbs,
                bg_queue: e.bg_queue,
                out: e.out,
                ..d
            })
            &&& only_adds(d.out, e.out)
        }),
        d.handled(Message::SearchFailed { token, error }) == (Desk {
            sheet: Sheet {
                content: Shown::Search(Results { done: true, ..r }),
                status: error@,
                ..d.sheet
            },
            search_active: None,
            ..d
        }),
{
    reveal(Desk::search_finished);
    reveal(Desk::search_failed);
    let b = (Desk { search_active: None, ..d }).on(
        Sheet { content: Shown::Search(Results { done: true, ..r }), ..d.sheet },
    ).says(crate::labels::results_text(r.hits.len() as int, capped));
    lemma_seeding(b);
}

/// Results that come while none are on show change nothing; an end then only means that no
/// search runs, and a failure is said.
pub proof fn law_results_need_a_search_on_show(
    d: Desk,
    token: u64,
    hits: Vec<SearchHit>,
    capped: bool,
    error: String,
)
    requires
        d.search_token == token,
        !(d.sheet.content is Search),
    ensures
        d.handled(Message::SearchBatch { token, hits }) == d,
        d.handled(Message::SearchFinished { token, capped }) == (Desk { search_active: None, ..d }),
        d.handled(Message::SearchFailed { token, error }) == (Desk {
            search_active: None,
            sheet: Sheet { status: error@, ..d.sheet },
            ..d
        }),
{
    reveal(Desk::search_batch);
    reveal(Desk::search_finished);
    reveal(Desk::search_failed);
}

// ---------------------------------------------------------------- starting a search

/// Whether `e` is `d` with a search for `query` running below `root`: a new one, of which
/// nothing is on show yet.
pub open spec fn searches(d: Desk, e: Desk, root: Seq<char>, query: Seq<char>, mode: SearchMode)
    -> bool {
    &&& same_surroundings(d, e)
    &&& e.icons_asked == d.icons_asked
    &&& e.parked == d.parked
    &&& e.active == d.active
    &&& e.next_token == d.next_token
    &&& e.menu is None
    &&& e.nodes == d.nodes
    &&& e.search_token != d.search_token
    &&& e.search_active == Some(Quest { token: e.search_token, root, query, mode })
    &&& e.sheet.content == Shown::Search(
        Results { root, query, mode, hits: seq![], done: false },
    )
    &&& e.sheet.rows.len() == 0
    &&& nothing_picked(e.sheet.selection)
    &&& e.sheet == (Sheet {
        content: e.sheet.content,
        rows: e.sheet.rows,
        selection: e.sheet.selection,
        last_click: None,
        status: "Searching…"@,
        scroll: 0,
        ..d.sheet
    })
    &&& only_adds(d.out, e.out)
    &&& e.out.len() > d.out.len() && e.out[d.out.len() as int] == Act::ScrollTo(0)
}

proof fn lemma_begin(d: Desk)
    ensures
        match d.sheet.history.current {
            Place::Path(root) => searches(
                d,
                d.begin_search(),
                root,
                trim(d.sheet.search_query),
                d.sheet.search_mode,
            ),
            _ => d.begin_search() == d,
        },
{
    reveal(Desk::begin_search);
    reveal(Desk::recompute_rows);
    if let Place::Path(root) = d.sheet.history.current {
        let query = trim(d.sheet.search_query);
        let mode = d.sheet.search_mode;
        let token = crate::desk::bumped(d.search_token);
        let content = Shown::Search(Results { root, query, mode, hits: seq![], done: false });
        let b = (Desk {
            menu: None,
            search_token: token,
            search_active: Some(Quest { token, root, query, mode }),
            ..d
        }).on(Sheet { selection: Picked::none(), last_click: None, content, ..d.sheet });
        let s = b.recompute_rows().says("Searching…"@).scroll_to(0);
        lemma_session(s, false);
        assert(s.out[d.out.len() as int] == Act::ScrollTo(0));
        assert(result_rows(seq![], root) =~= seq![]);
        assert(s.sheet.rows.len() == 0);
    }
}

/// Whether `e` is `d` after what the search box asks for: a blank box dismisses results, what
/// is on show already is not searched for again, and anything else is searched for below the
/// open folder.
pub open spec fn box_acted_upon(d: Desk, e: Desk) -> bool {
    let query = trim(d.sheet.search_query);
    let mode = d.sheet.search_mode;
    if query.len() == 0 {
        if d.sheet.content is Search {
            &&& heads_for(d, e, d.sheet.history.current)
            &&& e.sheet.history == d.sheet.history
        } else {
            e == d
        }
    } else if d.sheet.content matches Shown::Search(r) && r.query == query && r.mode == mode {
        e == d
    } else {
        match d.sheet.history.current {
            Place::Path(root) => searches(d, e, root, query, mode),
            _ => e == d,
        }
    }
}

proof fn lemma_run_search(d: Desk)
    requires
        d.next_token < u64::MAX,
    ensures
        box_acted_upon(d, d.run_search_if_changed()),
{
    reveal(Desk::run_search_if_changed);
    lemma_begin(d);
    lemma_clear(d);
}

proof fn lemma_clear(d: Desk)
    requires
        d.next_token < u64::MAX,
    ensures
        d.sheet.content is Search ==> heads_for(d, d.clear_search(), d.sheet.history.current)
            && d.clear_search().sheet.history == d.sheet.history,
        !(d.sheet.content is Search) ==> ({
            let e = d.clear_search();
            &&& e == (Desk {
                sheet: Sheet { search_query: seq![], ..d.sheet },
                search_active: None,
                search_token: e.search_token,
                ..d
            })
            &&& d.search_active is Some ==> e.search_token != d.search_token
            &&& d.search_active is None ==> e.search_token == d.search_token
        }),
{
    reveal(Desk::clear_search);
    if d.sheet.content is Search {
        let b = d.unsearched().on(Sheet { search_query: seq![], ..d.sheet });
        lemma_load(b);
        let e = b.load_current();
        reveal(Desk::load_current);
        reveal(Desk::reveal_current);
        reveal(Desk::drive_reveal);
        assert(e.search_token == b.search_token);
    }
}

/// Typing into the search box keeps what is typed, and searches for nothing before a pause:
/// what a pause is waited for with differs from all that was waited for just before.
pub proof fn law_typing_waits_for_a_pause(d: Desk, text: String)
    requires
        !d.overlay_loading,
    ensures
        ({
            let e = d.handled(Message::SearchChanged(text));
            &&& e == (Desk {
                sheet: Sheet { search_query: text@, ..d.sheet },
                search_seq: e.search_seq,
                out: d.out.push(Act::Debounce(e.search_seq)),
                ..d
            })
            &&& e.search_seq != d.search_seq
        }),
{
    reveal(Desk::search_changed);
}

/// Once the pause is over, what the box holds is acted upon; submitting the box does so at
/// once, and the pause then starts nothing.
pub proof fn law_search_box_is_acted_upon(d: Desk)
    requires
        d.next_token < u64::MAX,
    ensures
        box_acted_upon(d, d.handled(Message::SearchDebounced(d.search_seq))),
        !d.overlay_loading ==> exists|n: u64|
            n != d.search_seq && #[trigger] box_acted_upon(
                Desk { search_seq: n, ..d },
                d.handled(Message::SearchSubmit),
            ),
{
    reveal(Desk::search_debounced);
    reveal(Desk::search_submit);
    lemma_run_search(d);
    let n = crate::desk::bumped(d.search_seq);
    lemma_run_search(Desk { search_seq: n, ..d });
    if !d.overlay_loading {
        assert(d.handled(Message::SearchSubmit) == (Desk { search_seq: n, ..d })
            .run_search_if_changed());
        assert(box_acted_upon(Desk { search_seq: n, ..d }, d.handled(Message::SearchSubmit)));
    }
}

/// Choosing a search mode keeps it, and searches anew where results of the other mode are on
/// show.
pub proof fn law_search_mode_is_kept(d: Desk, mode: SearchMode)
    requires
        d.next_token < u64::MAX,
        !d.overlay_loading,
    ensures
        ({
            let chosen = Desk { sheet: Sheet { search_mode: mode, ..d.sheet }, ..d };
            let e = d.handled(Message::SearchModeChanged(mode));
            if d.sheet.content is Search {
                box_acted_upon(chosen, e)
            } else {
                e == chosen
            }
        }),
{
    reveal(Desk::search_mode_changed);
    lemma_run_search(d.on(Sheet { search_mode: mode, ..d.sheet }));
}

/// Dismissing a search empties the box, supersedes what runs, and reads the folder again where
/// results were on show in its place.
pub proof fn law_dismissed_search_gives_way_to_the_folder(d: Desk)
    requires
        d.next_token < u64::MAX,
        !d.overlay_loading,
    ensures
        ({
            let e = d.handled(Message::SearchClear);
            &&& e.search_active is None
            &&& e.sheet.search_query.len() == 0
            &&& d.search_active is Some ==> e.search_token != d.search_token
            &&& e.sheet.history == d.sheet.history
            &&& if d.sheet.content is Search {
                heads_for(d, e, d.sheet.history.current)
            } else {
                e == (Desk {
                    sheet: Sheet { search_query: seq![], ..d.sheet },
                    search_active: None,
                    search_token: e.search_token,
                    ..d
                })
            }
        }),
{
    lemma_clear(d);
}

} // verus!
