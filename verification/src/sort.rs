//! Sorting and filtering of directory listings.

use crate::model::{Entry, EntryKind};
use crate::order::{
    arranged, before, by_index, covers, law_sorting_rearranges, sorted_by, stable_order, the_order,
};
use crate::text::{
    contains_chars, contains_text, flip, flipped, law_texts_rank_as_in_a_dictionary,
    lemma_rank_text, lemma_rank_text_transitive, no_later, occurs_at, rank_chars, rank_int,
    rank_text, strings, to_chars, Rank,
};
use crate::unicode::{lower, lowercase};
use core::cmp::Ordering;
use vstd::prelude::*;

verus! {

/// What a listing is sorted by.
#[derive(Debug, Clone, Copy, PartialEq, Eq, Structural)]
pub enum SortKey {
    Name,
    Modified,
    Type,
    Size,
}

/// Which way a listing is sorted.
#[derive(Debug, Clone, Copy, PartialEq, Eq, Structural)]
pub enum SortOrder {
    Ascending,
    Descending,
}

/// How a listing is sorted.
#[derive(Debug, Clone, Copy, PartialEq, Eq, Structural)]
pub struct Sort {
    pub key: SortKey,
    pub order: SortOrder,
    /// Keep directories grouped above files regardless of the sort key.
    pub folders_first: bool,
}

impl Default for Sort {
    fn default() -> (r: Sort)
        ensures
            r == (Sort {
                key: SortKey::Name,
                order: SortOrder::Ascending,
                folders_first: true,
            }),
    {
        Sort { key: SortKey::Name, order: SortOrder::Ascending, folders_first: true }
    }
}

/// Compare two names, ignoring case.
pub open spec fn rank_names(a: Seq<char>, b: Seq<char>) -> Rank {
    rank_text(lowercase(a), lowercase(b))
}

/// Whether one name may stand before another, ignoring case.
pub open spec fn names_le() -> spec_fn(Seq<char>, Seq<char>) -> bool {
    |a: Seq<char>, b: Seq<char>| rank_names(a, b) != Rank::Greater
}

/// The indices of names in the order of the names, ignoring case; names that differ only in
/// case keep the order they had.
pub fn order_names(names: &Vec<String>) -> (r: Vec<usize>)
    ensures
        covers(r@, 0, names@.len() as int),
        arranged(by_index(strings(names@), names_le()), r@),
        r@ == the_order(by_index(strings(names@), names_le()), names@.len() as int),
{
    let n: usize = names.len();
    let ghost texts = strings(names@);
    let mut keys: Vec<Vec<char>> = Vec::new();
    for i in 0..n
        invariant
            n == names@.len(),
            texts == strings(names@),
            keys@.len() == i,
            forall|k: int| 0 <= k < i ==> (#[trigger] keys@[k])@ == lowercase(texts[k]),
    {
        assert(texts[i as int] == names@[i as int]@);
        keys.push(to_chars(&lower(&names[i])));
    }
    let ghost rel = by_index(texts, names_le());
    let le = |i: usize, j: usize| -> (r: bool)
        requires
            i < keys@.len(),
            j < keys@.len(),
        ensures
            r == (rank_text(keys@[i as int]@, keys@[j as int]@) != Rank::Greater),
        { rank_chars(&keys[i], &keys[j]) != Rank::Greater };
    proof {
        assert forall|i: int, j: int| 0 <= i < n && 0 <= j < n implies #[trigger] rel(i, j)
            || #[trigger] rel(j, i) by {
            lemma_rank_text(lowercase(texts[i]), lowercase(texts[j]));
        }
        assert forall|i: int, j: int, k: int|
            0 <= i < n && 0 <= j < n && 0 <= k < n && #[trigger] rel(i, j) && #[trigger] rel(
                j,
                k,
            ) implies rel(i, k) by {
            lemma_rank_text_transitive(
                lowercase(texts[i]),
                lowercase(texts[j]),
                lowercase(texts[k]),
            );
        }
    }
    stable_order(n, le, Ghost(rel))
}

/// Compare two times; an unknown time comes before any other.
pub open spec fn rank_times(a: Option<i64>, b: Option<i64>) -> Rank {
    match (a, b) {
        (Some(x), Some(y)) => rank_int(x as int, y as int),
        (Some(_), None) => Rank::Greater,
        (None, Some(_)) => Rank::Less,
        (None, None) => Rank::Equal,
    }
}

/// Compare two entries by a key, ascending.
pub open spec fn rank_by_key(a: Entry, b: Entry, key: SortKey) -> Rank {
    match key {
        SortKey::Name => rank_names(a.name@, b.name@),
        SortKey::Modified => rank_times(a.modified, b.modified),
        SortKey::Size => rank_int(a.size as int, b.size as int),
        SortKey::Type => if rank_text(a.ext(), b.ext()) != Rank::Equal {
            rank_text(a.ext(), b.ext())
        } else {
            rank_names(a.name@, b.name@)
        },
    }
}

/// Whether `a` is a directory and `b` is not.
pub open spec fn leads_as_folder(a: Entry, b: Entry) -> bool {
    a.kind == EntryKind::Directory && b.kind != EntryKind::Directory
}

/// Compare two entries as `sort` asks.
pub open spec fn rank_entries(a: Entry, b: Entry, sort: Sort) -> Rank {
    if sort.folders_first && leads_as_folder(a, b) {
        Rank::Less
    } else if sort.folders_first && leads_as_folder(b, a) {
        Rank::Greater
    } else {
        match sort.order {
            SortOrder::Ascending => rank_by_key(a, b, sort.key),
            SortOrder::Descending => flipped(rank_by_key(a, b, sort.key)),
        }
    }
}

/// Whether `after` is `before` sorted, with `p` telling where each entry came from:
/// every entry is there once, they stand in order, and entries that tie keep the
/// order they had.
pub open spec fn is_stable_sort(
    was: Seq<Entry>,
    now: Seq<Entry>,
    p: Seq<usize>,
    sort: Sort,
) -> bool {
    &&& now.len() == was.len()
    &&& covers(p, 0, was.len() as int)
    &&& forall|k: int| 0 <= k < now.len() ==> #[trigger] now[k] == was[p[k] as int]
    &&& forall|a: int, b: int|
        0 <= a < b < now.len() ==> {
            let r = rank_entries(#[trigger] now[a], #[trigger] now[b], sort);
            r != Rank::Greater && (r == Rank::Equal ==> p[a] < p[b])
        }
}

/// Whether one entry may stand before another.
pub open spec fn entry_le(sort: Sort) -> spec_fn(Entry, Entry) -> bool {
    |a: Entry, b: Entry| rank_entries(a, b, sort) != Rank::Greater
}

/// The entries of a listing in the order that `sort` asks for.
pub open spec fn sorted_entries(s: Seq<Entry>, sort: Sort) -> Seq<Entry> {
    sorted_by(s, entry_le(sort))
}

/// Swapping two entries flips their comparison.
pub proof fn lemma_rank_entries_flips(a: Entry, b: Entry, sort: Sort)
    ensures
        rank_entries(b, a, sort) == flipped(rank_entries(a, b, sort)),
        rank_by_key(b, a, sort.key) == flipped(rank_by_key(a, b, sort.key)),
{
    lemma_rank_text(lowercase(a.name@), lowercase(b.name@));
    lemma_rank_text(a.ext(), b.ext());
}

proof fn lemma_rank_by_key_transitive(a: Entry, b: Entry, c: Entry, key: SortKey)
    requires
        rank_by_key(a, b, key) != Rank::Greater,
        rank_by_key(b, c, key) != Rank::Greater,
    ensures
        rank_by_key(a, c, key) != Rank::Greater,
{
    match key {
        SortKey::Name => {
            lemma_rank_text_transitive(
                lowercase(a.name@),
                lowercase(b.name@),
                lowercase(c.name@),
            );
        },
        SortKey::Type => {
            lemma_rank_text_transitive(a.ext(), b.ext(), c.ext());
            if rank_text(a.ext(), c.ext()) == Rank::Equal {
                lemma_rank_text_transitive(
                    lowercase(a.name@),
                    lowercase(b.name@),
                    lowercase(c.name@),
                );
            }
        },
        _ => {},
    }
}

/// Comparing entries is transitive.
pub proof fn lemma_rank_entries_transitive(a: Entry, b: Entry, c: Entry, sort: Sort)
    requires
        rank_entries(a, b, sort) != Rank::Greater,
        rank_entries(b, c, sort) != Rank::Greater,
    ensures
        rank_entries(a, c, sort) != Rank::Greater,
{
    let headed = sort.folders_first && (leads_as_folder(a, b) || leads_as_folder(b, c)
        || leads_as_folder(a, c));
    if !headed {
        lemma_rank_entries_flips(a, b, sort);
        lemma_rank_entries_flips(b, c, sort);
        lemma_rank_entries_flips(a, c, sort);
        if sort.order == SortOrder::Ascending {
            lemma_rank_by_key_transitive(a, b, c, sort.key);
        } else {
            lemma_rank_by_key_transitive(c, b, a, sort.key);
        }
    }
}

/// What of an entry its sorting looks at.
struct Card {
    dir: bool,
    name: Vec<char>,
    ext: Vec<char>,
    modified: Option<i64>,
    size: u64,
}

spec fn card_of(c: Card, e: Entry) -> bool {
    &&& c.dir == (e.kind == EntryKind::Directory)
    &&& c.name@ == lowercase(e.name@)
    &&& c.ext@ == e.ext()
    &&& c.modified == e.modified
    &&& c.size == e.size
}

/// Compare two cards as `sort` asks.
spec fn rank_card(a: Card, b: Card, sort: Sort) -> Rank {
    let by_key = match sort.key {
        SortKey::Name => rank_text(a.name@, b.name@),
        SortKey::Modified => rank_times(a.modified, b.modified),
        SortKey::Size => rank_int(a.size as int, b.size as int),
        SortKey::Type => if rank_text(a.ext@, b.ext@) != Rank::Equal {
            rank_text(a.ext@, b.ext@)
        } else {
            rank_text(a.name@, b.name@)
        },
    };
    if sort.folders_first && a.dir && !b.dir {
        Rank::Less
    } else if sort.folders_first && b.dir && !a.dir {
        Rank::Greater
    } else {
        match sort.order {
            SortOrder::Ascending => by_key,
            SortOrder::Descending => flipped(by_key),
        }
    }
}

fn rank_u64(a: u64, b: u64) -> (r: Rank)
    ensures
        r == rank_int(a as int, b as int),
{
    if a < b {
        Rank::Less
    } else if a == b {
        Rank::Equal
    } else {
        Rank::Greater
    }
}

fn rank_time(a: Option<i64>, b: Option<i64>) -> (r: Rank)
    ensures
        r == rank_times(a, b),
{
    match (a, b) {
        (Some(x), Some(y)) => if x < y {
            Rank::Less
        } else if x == y {
            Rank::Equal
        } else {
            Rank::Greater
        },
        (Some(_), None) => Rank::Greater,
        (None, Some(_)) => Rank::Less,
        (None, None) => Rank::Equal,
    }
}

fn rank_cards(a: &Card, b: &Card, sort: &Sort) -> (r: Rank)
    ensures
        r == rank_card(*a, *b, *sort),
{
    if sort.folders_first {
        if a.dir && !b.dir {
            return Rank::Less;
        }
        if b.dir && !a.dir {
            return Rank::Greater;
        }
    }
    let by_key: Rank = match sort.key {
        SortKey::Name => rank_chars(&a.name, &b.name),
        SortKey::Modified => rank_time(a.modified, b.modified),
        SortKey::Size => rank_u64(a.size, b.size),
        SortKey::Type => {
            let by_type: Rank = rank_chars(&a.ext, &b.ext);
            if by_type != Rank::Equal {
                by_type
            } else {
                rank_chars(&a.name, &b.name)
            }
        },
    };
    match sort.order {
        SortOrder::Ascending => by_key,
        SortOrder::Descending => flip(by_key),
    }
}

/// Sort `entries` in place according to `sort`.
pub fn sort_entries(entries: &mut Vec<Entry>, sort: &Sort)
    ensures
        exists|p: Seq<usize>| is_stable_sort(old(entries)@, final(entries)@, p, *sort),
        final(entries)@ == sorted_entries(old(entries)@, *sort),
{
    let n: usize = entries.len();
    let ghost es = entries@;
    let mut cards: Vec<Card> = Vec::new();
    for i in 0..n
        invariant
            n == entries@.len(),
            es == entries@,
            cards@.len() == i,
            forall|k: int| 0 <= k < i ==> card_of(#[trigger] cards@[k], es[k]),
    {
        let e = &entries[i];
        cards.push(
            Card {
                dir: e.is_dir(),
                name: to_chars(&lower(&e.name)),
                ext: to_chars(&e.extension()),
                modified: e.modified,
                size: e.size,
            },
        );
    }
    let ghost s = *sort;
    let ghost rel = by_index(es, entry_le(s));
    let le = |i: usize, j: usize| -> (r: bool)
        requires
            i < cards@.len(),
            j < cards@.len(),
        ensures
            r == (rank_card(cards@[i as int], cards@[j as int], *sort) != Rank::Greater),
        { rank_cards(&cards[i], &cards[j], sort) != Rank::Greater };
    proof {
        assert forall|i: int, j: int| 0 <= i < n && 0 <= j < n implies rank_card(
            #[trigger] cards@[i],
            #[trigger] cards@[j],
            s,
        ) == rank_entries(es[i], es[j], s) by {
            assert(card_of(cards@[i], es[i]));
            assert(card_of(cards@[j], es[j]));
        }
        assert forall|i: int, j: int| 0 <= i < n && 0 <= j < n implies #[trigger] rel(i, j)
            || #[trigger] rel(j, i) by {
            lemma_rank_entries_flips(es[i], es[j], s);
        }
        assert forall|i: int, j: int, k: int|
            0 <= i < n && 0 <= j < n && 0 <= k < n && #[trigger] rel(i, j) && #[trigger] rel(
                j,
                k,
            ) implies rel(i, k) by {
            lemma_rank_entries_transitive(es[i], es[j], es[k], s);
        }
    }
    let p = stable_order(n, le, Ghost(rel));
    let mut out: Vec<Entry> = Vec::new();
    for k in 0..n
        invariant
            n == entries@.len(),
            es == entries@,
            covers(p@, 0, n as int),
            out@.len() == k,
            forall|a: int| 0 <= a < k ==> #[trigger] out@[a] == es[p@[a] as int],
    {
        out.push(entries[p[k]].clone());
    }
    proof {
        assert forall|a: int, b: int| 0 <= a < b < out@.len() implies {
            let r = rank_entries(#[trigger] out@[a], #[trigger] out@[b], s);
            r != Rank::Greater && (r == Rank::Equal ==> p@[a] < p@[b])
        } by {
            assert(before(rel, p@[a] as int, p@[b] as int));
            lemma_rank_entries_flips(out@[a], out@[b], s);
        }
        assert(is_stable_sort(es, out@, p@, s));
        assert(out@ =~= sorted_entries(es, s));
    }
    *entries = out;
}

/// Compare two names, ignoring case.
pub fn cmp_name_str(a: &str, b: &str) -> (r: Ordering)
    ensures
        r == (match rank_names(a@, b@) {
            Rank::Less => Ordering::Less,
            Rank::Equal => Ordering::Equal,
            Rank::Greater => Ordering::Greater,
        }),
{
    match rank_chars(&to_chars(&lower(a)), &to_chars(&lower(b))) {
        Rank::Less => Ordering::Less,
        Rank::Equal => Ordering::Equal,
        Rank::Greater => Ordering::Greater,
    }
}

/// Whether an entry is shown: hidden and system entries only on request, and only
/// names that contain the filter, ignoring case.
pub open spec fn visible(entry: Entry, show_hidden: bool, name_filter: Seq<char>) -> bool {
    &&& show_hidden || !(entry.attrs.hidden || entry.attrs.system)
    &&& name_filter.len() == 0 || contains_text(lowercase(entry.name@), lowercase(name_filter))
}

/// Decide whether an entry should be visible given the current view options. An
/// empty filter matches everything.
pub fn is_visible(entry: &Entry, show_hidden: bool, name_filter: &str) -> (r: bool)
    ensures
        r == visible(*entry, show_hidden, name_filter@),
{
    if !show_hidden && (entry.attrs.hidden || entry.attrs.system) {
        return false;
    }
    if to_chars(name_filter).len() == 0 {
        return true;
    }
    contains_chars(&to_chars(&lower(&entry.name)), &to_chars(&lower(name_filter)))
}

/// In a listing sorted with folders first, no file stands above a folder.
pub proof fn law_folders_come_first(
    was: Seq<Entry>,
    now: Seq<Entry>,
    p: Seq<usize>,
    sort: Sort,
    a: int,
    b: int,
)
    requires
        is_stable_sort(was, now, p, sort),
        sort.folders_first,
        0 <= a < b < now.len(),
        now[b].kind == EntryKind::Directory,
    ensures
        now[a].kind == EntryKind::Directory,
{
    assert(rank_entries(now[a], now[b], sort) != Rank::Greater);
}

/// Sorting a listing that is already sorted changes nothing.
pub proof fn law_sorting_again_changes_nothing(
    was: Seq<Entry>,
    once: Seq<Entry>,
    twice: Seq<Entry>,
    p: Seq<usize>,
    q: Seq<usize>,
    sort: Sort,
)
    requires
        is_stable_sort(was, once, p, sort),
        is_stable_sort(once, twice, q, sort),
    ensures
        twice == once,
{
    let n = once.len() as int;
    assert forall|x: int, y: int| 0 <= x < y < n implies #[trigger] q[x] < #[trigger] q[y] by {
        let i = q[x] as int;
        let j = q[y] as int;
        assert(twice[x] == once[i]);
        assert(twice[y] == once[j]);
        if i > j {
            lemma_rank_entries_flips(once[i], once[j], sort);
            assert(rank_entries(once[j], once[i], sort) != Rank::Greater);
        } else if i == j {
            lemma_rank_entries_flips(once[i], once[i], sort);
        }
    }
    assert forall|k: int| 0 <= k < n implies #[trigger] q[k] == k by {
        lemma_increasing_is_identity(q, n, k);
    }
    assert(twice =~= once);
}

proof fn lemma_increasing_is_identity(q: Seq<usize>, n: int, k: int)
    requires
        q.len() == n,
        forall|x: int| 0 <= x < n ==> 0 <= #[trigger] q[x] < n,
        forall|x: int, y: int| 0 <= x < y < n ==> #[trigger] q[x] < #[trigger] q[y],
        0 <= k < n,
    ensures
        q[k] == k,
{
    lemma_at_least(q, n, k);
    lemma_at_most(q, n, k);
}

proof fn lemma_at_least(q: Seq<usize>, n: int, k: int)
    requires
        q.len() == n,
        forall|x: int, y: int| 0 <= x < y < n ==> #[trigger] q[x] < #[trigger] q[y],
        0 <= k < n,
    ensures
        q[k] >= k,
    decreases k,
{
    if k > 0 {
        lemma_at_least(q, n, k - 1);
        assert(q[k - 1] < q[k]);
    }
}

proof fn lemma_at_most(q: Seq<usize>, n: int, k: int)
    requires
        q.len() == n,
        forall|x: int| 0 <= x < n ==> 0 <= #[trigger] q[x] < n,
        forall|x: int, y: int| 0 <= x < y < n ==> #[trigger] q[x] < #[trigger] q[y],
        0 <= k < n,
    ensures
        q[k] <= k,
    decreases n - k,
{
    if k < n - 1 {
        lemma_at_most(q, n, k + 1);
        assert(q[k] < q[k + 1]);
    }
}

/// Whether two names stand in this order in a list sorted by name, ignoring case.
pub open spec fn names_in_order(a: Seq<char>, b: Seq<char>) -> bool {
    no_later(lowercase(a), lowercase(b))
}

/// Whether two entries stand in ascending order by a key. An unknown time comes before any
/// other; entries of the same type stand by name.
pub open spec fn ascend_by(a: Entry, b: Entry, key: SortKey) -> bool {
    match key {
        SortKey::Name => names_in_order(a.name@, b.name@),
        SortKey::Modified => match (a.modified, b.modified) {
            (Some(x), Some(y)) => x <= y,
            (Some(_), None) => false,
            (None, _) => true,
        },
        SortKey::Size => a.size <= b.size,
        SortKey::Type => no_later(a.ext(), b.ext()) && (a.ext() == b.ext() ==> names_in_order(
            a.name@,
            b.name@,
        )),
    }
}

/// A listing that was sorted holds the same entries. With folders first no file stands above a
/// folder; among folders, among files, and everywhere where folders do not come first, the
/// entries ascend by the key, or descend by it, as was asked; and entries between which the
/// key does not tell keep the order they had, which `p` tells.
pub proof fn law_listing_is_in_order(was: Seq<Entry>, sort: Sort) -> (p: Seq<usize>)
    requires
        was.len() <= usize::MAX,
    ensures
        ({
            let now = sorted_entries(was, sort);
            &&& now.len() == was.len()
            &&& now.to_multiset() == was.to_multiset()
            &&& p.len() == was.len()
            &&& p.no_duplicates()
            &&& forall|k: int| 0 <= k < p.len() ==> (#[trigger] p[k]) < was.len() && now[k]
                == was[p[k] as int]
            &&& forall|a: int, b: int|
                #![trigger now[a], now[b]]
                0 <= a < b < now.len() ==> {
                    let mixed = (now[a].kind == EntryKind::Directory) != (now[b].kind
                        == EntryKind::Directory);
                    if sort.folders_first && mixed {
                        now[a].kind == EntryKind::Directory
                    } else {
                        &&& sort.order == SortOrder::Ascending ==> ascend_by(
                            now[a],
                            now[b],
                            sort.key,
                        )
                        &&& sort.order == SortOrder::Descending ==> ascend_by(
                            now[b],
                            now[a],
                            sort.key,
                        )
                        &&& ascend_by(now[a], now[b], sort.key) && ascend_by(
                            now[b],
                            now[a],
                            sort.key,
                        ) ==> p[a] < p[b]
                    }
                }
        }),
{
    let le = entry_le(sort);
    assert forall|i: int, j: int| 0 <= i < was.len() && 0 <= j < was.len() implies #[trigger] le(
        was[i],
        was[j],
    ) || le(was[j], was[i]) by {
        lemma_rank_entries_flips(was[i], was[j], sort);
    }
    assert forall|i: int, j: int, k: int|
        0 <= i < was.len() && 0 <= j < was.len() && 0 <= k < was.len() && #[trigger] le(
            was[i],
            was[j],
        ) && #[trigger] le(was[j], was[k]) implies le(was[i], was[k]) by {
        lemma_rank_entries_transitive(was[i], was[j], was[k], sort);
    }
    let p = law_sorting_rearranges(was, le);
    let now = sorted_entries(was, sort);
    assert forall|a: int, b: int|
        #![trigger now[a], now[b]]
        0 <= a < b < now.len() implies {
        let mixed = (now[a].kind == EntryKind::Directory) != (now[b].kind
            == EntryKind::Directory);
        if sort.folders_first && mixed {
            now[a].kind == EntryKind::Directory
        } else {
            &&& sort.order == SortOrder::Ascending ==> ascend_by(now[a], now[b], sort.key)
            &&& sort.order == SortOrder::Descending ==> ascend_by(now[b], now[a], sort.key)
            &&& ascend_by(now[a], now[b], sort.key) && ascend_by(now[b], now[a], sort.key) ==> p[a]
                < p[b]
        }
    } by {
        assert(le(now[a], now[b]));
        lemma_ascend(now[a], now[b], sort.key);
        lemma_ascend(now[b], now[a], sort.key);
        lemma_rank_entries_flips(now[a], now[b], sort);
        lemma_rank_entries_flips(now[b], now[a], sort);
    }
    p
}

/// Comparing by a key tells whether two entries ascend by it.
proof fn lemma_ascend(a: Entry, b: Entry, key: SortKey)
    ensures
        rank_by_key(a, b, key) != Rank::Greater <==> ascend_by(a, b, key),
{
    law_texts_rank_as_in_a_dictionary(lowercase(a.name@), lowercase(b.name@));
    law_texts_rank_as_in_a_dictionary(a.ext(), b.ext());
}

/// An entry is hidden from view exactly by being hidden or a system entry while such entries
/// are not shown, or by not having the filter, ignoring case, somewhere in its name.
pub proof fn law_what_is_visible(e: Entry, filter: Seq<char>)
    ensures
        visible(e, true, seq![]),
        visible(e, false, seq![]) <==> !e.attrs.hidden && !e.attrs.system,
        visible(e, false, filter) <==> visible(e, false, seq![]) && visible(e, true, filter),
        filter.len() > 0 ==> (visible(e, true, filter) <==> exists|at: int|
            #![trigger occurs_at(lowercase(e.name@), lowercase(filter), at)]
            occurs_at(lowercase(e.name@), lowercase(filter), at)),
{
}

/// Names that are sorted are the same names, and each stands no later than the ones behind it,
/// ignoring case; names that differ only in case keep the order they had, which `p` tells.
pub proof fn law_sorted_names_are_in_order(names: Seq<Seq<char>>) -> (p: Seq<usize>)
    requires
        names.len() <= usize::MAX,
    ensures
        ({
            let now = sorted_by(names, names_le());
            &&& now.len() == names.len()
            &&& now.to_multiset() == names.to_multiset()
            &&& p.len() == names.len()
            &&& p.no_duplicates()
            &&& forall|k: int| 0 <= k < p.len() ==> (#[trigger] p[k]) < names.len() && now[k]
                == names[p[k] as int]
            &&& forall|a: int, b: int|
                #![trigger now[a], now[b]]
                0 <= a < b < now.len() ==> names_in_order(now[a], now[b]) && (names_in_order(
                    now[b],
                    now[a],
                ) ==> p[a] < p[b])
        }),
{
    let le = names_le();
    assert forall|i: int, j: int|
        0 <= i < names.len() && 0 <= j < names.len() implies #[trigger] le(names[i], names[j])
        || le(names[j], names[i]) by {
        lemma_rank_text(lowercase(names[i]), lowercase(names[j]));
    }
    assert forall|i: int, j: int, k: int|
        0 <= i < names.len() && 0 <= j < names.len() && 0 <= k < names.len() && #[trigger] le(
            names[i],
            names[j],
        ) && #[trigger] le(names[j], names[k]) implies le(names[i], names[k]) by {
        lemma_rank_text_transitive(
            lowercase(names[i]),
            lowercase(names[j]),
            lowercase(names[k]),
        );
    }
    let p = law_sorting_rearranges(names, le);
    let now = sorted_by(names, le);
    assert forall|a: int, b: int|
        #![trigger now[a], now[b]]
        0 <= a < b < now.len() implies names_in_order(now[a], now[b]) && (names_in_order(
        now[b],
        now[a],
    ) ==> p[a] < p[b]) by {
        law_texts_rank_as_in_a_dictionary(lowercase(now[a]), lowercase(now[b]));
        law_texts_rank_as_in_a_dictionary(lowercase(now[b]), lowercase(now[a]));
    }
    p
}

} // verus!
