//! The directory-only tree walk behind folder search.
//!
//! Directories live on a shared stack. A worker claims one, reads it, and hands back
//! what it found: the directories whose names match, and the real subdirectories to
//! descend into. Reparse points are matched by name but never descended into. The walk
//! is finished once the stack is empty and no worker is reading, or when enough has
//! been found.

use crate::enumerate::Dirent;
use crate::matcher::{name_matches, NameMatcher};
use crate::path::{path_texts, WinPath};
use vstd::multiset::Multiset;
use vstd::prelude::*;

verus! {

/// Upper bound on directory-walk worker threads.
pub const MAX_WALK_THREADS: usize = 8;

const FILE_ATTRIBUTE_REPARSE_POINT: u32 = 0x0000_0400;

/// Whether a directory entry is reported by the walk.
pub open spec fn is_hit(d: Option<Dirent>, query: Seq<char>) -> bool {
    d is Some && d->0.is_dir && name_matches(query, d->0.name@)
}

/// Whether the walk descends into a directory entry.
pub open spec fn is_step(d: Option<Dirent>) -> bool {
    d is Some && d->0.is_dir && d->0.attributes & 0x400 == 0
}

/// The paths of the matching directories in a listing, in order.
pub open spec fn hits(listing: Seq<Option<Dirent>>, query: Seq<char>) -> Seq<Seq<char>>
    decreases listing.len(),
{
    if listing.len() == 0 {
        seq![]
    } else {
        let rest = hits(listing.drop_last(), query);
        if is_hit(listing.last(), query) {
            rest.push(listing.last()->0.path@)
        } else {
            rest
        }
    }
}

/// The paths of the directories in a listing that are walked next, in order.
pub open spec fn steps(listing: Seq<Option<Dirent>>) -> Seq<Seq<char>>
    decreases listing.len(),
{
    if listing.len() == 0 {
        seq![]
    } else {
        let rest = steps(listing.drop_last());
        if is_step(listing.last()) {
            rest.push(listing.last()->0.path@)
        } else {
            rest
        }
    }
}

/// What reading one directory found.
pub struct Found {
    pub matches: Vec<WinPath>,
    pub subdirs: Vec<WinPath>,
}

/// Sort out the entries of one directory. `None` stands for an entry that could not
/// be read; a directory that could not be opened is an empty listing.
pub fn scan(listing: &Vec<Option<Dirent>>, matcher: &NameMatcher) -> (r: Found)
    ensures
        path_texts(r.matches@) == hits(listing@, matcher.query()),
        path_texts(r.subdirs@) == steps(listing@),
{
    let mut matches: Vec<WinPath> = Vec::new();
    let mut subdirs: Vec<WinPath> = Vec::new();
    proof {
        assert(listing@.take(0) =~= Seq::<Option<Dirent>>::empty());
        assert(path_texts(matches@) =~= seq![]);
    }
    for i in 0..listing.len()
        invariant
            path_texts(matches@) == hits(listing@.take(i as int), matcher.query()),
            path_texts(subdirs@) == steps(listing@.take(i as int)),
    {
        let ghost m = matches@;
        let ghost s = subdirs@;
        proof {
            assert(listing@.take(i + 1).drop_last() =~= listing@.take(i as int));
            assert(listing@.take(i + 1).last() == listing@[i as int]);
        }
        if let Some(d) = &listing[i] {
            if d.is_dir {
                if matcher.is_match(&d.name) {
                    matches.push(d.path.clone());
                    assert(path_texts(matches@) =~= path_texts(m).push(d.path@));
                }
                if d.attributes & FILE_ATTRIBUTE_REPARSE_POINT == 0 {
                    subdirs.push(d.path.clone());
                    assert(path_texts(subdirs@) =~= path_texts(s).push(d.path@));
                }
            }
        }
    }
    assert(listing@.take(listing@.len() as int) =~= listing@);
    Found { matches, subdirs }
}

/// The work queue and the results shared by the workers.
pub struct WalkState {
    /// Directories discovered but not yet read.
    pub stack: Vec<WinPath>,
    /// Workers currently reading a directory.
    pub active: usize,
    pub results: Vec<WinPath>,
    /// Set once enough has been found or the walk has drained.
    pub done: bool,
    /// How many results are enough.
    pub cap: usize,
}

/// The state of a walk as plain values.
pub ghost struct Walk {
    pub stack: Seq<Seq<char>>,
    pub active: int,
    pub results: Seq<Seq<char>>,
    pub done: bool,
    pub cap: int,
}

impl View for WalkState {
    type V = Walk;

    open spec fn view(&self) -> Walk {
        Walk {
            stack: path_texts(self.stack@),
            active: self.active as int,
            results: path_texts(self.results@),
            done: self.done,
            cap: self.cap as int,
        }
    }
}

/// What a worker does next.
pub enum Claim {
    /// Read this directory and merge what was found.
    Read(WinPath),
    /// Others are still reading: wait for work or for the end.
    Wait,
    /// The walk is over.
    Exit,
}

impl Walk {
    /// A walk that has not begun.
    pub open spec fn start(root: Seq<char>, cap: int) -> Walk {
        Walk { stack: seq![root], active: 0, results: seq![], done: cap == 0, cap }
    }

    /// After a worker took the top of the stack.
    pub open spec fn claimed(self) -> Walk {
        Walk { stack: self.stack.drop_last(), active: self.active + 1, ..self }
    }

    /// After a worker handed back what a directory held.
    pub open spec fn merged(self, matches: Seq<Seq<char>>, subdirs: Seq<Seq<char>>) -> Walk {
        if self.done {
            Walk { active: self.active - 1, ..self }
        } else {
            let room = self.cap - self.results.len();
            let taken = if matches.len() <= room {
                matches
            } else {
                matches.take(room)
            };
            let results = self.results + taken;
            if results.len() >= self.cap {
                Walk { active: self.active - 1, results, done: true, ..self }
            } else {
                Walk {
                    active: self.active - 1,
                    results,
                    stack: self.stack + subdirs,
                    ..self
                }
            }
        }
    }

    /// No more results than asked for.
    pub open spec fn wf(self) -> bool {
        self.results.len() <= self.cap && (!self.done ==> self.results.len() < self.cap)
    }
}

impl WalkState {
    /// A walk from `root` that ends after `cap` results.
    pub fn new(root: &WinPath, cap: usize) -> (r: WalkState)
        ensures
            r@ == Walk::start(root@, cap as int),
            r@.wf(),
    {
        let mut stack: Vec<WinPath> = Vec::new();
        stack.push(root.clone());
        let r = WalkState { stack, active: 0, results: Vec::new(), done: cap == 0, cap };
        assert(r@.stack =~= seq![root@]);
        assert(r@.results =~= seq![]);
        r
    }

    /// Claim the next directory, or learn that there is nothing to do.
    pub fn claim(&mut self, cancelled: bool) -> (r: Claim)
        requires
            old(self)@.wf(),
            old(self).active < usize::MAX,
        ensures
            final(self)@.wf(),
            match r {
                Claim::Read(dir) => {
                    &&& !old(self)@.done && !cancelled && old(self)@.stack.len() > 0
                    &&& dir@ == old(self)@.stack.last()
                    &&& final(self)@ == old(self)@.claimed()
                },
                Claim::Wait => {
                    &&& !old(self)@.done && !cancelled && old(self)@.stack.len() == 0
                    &&& old(self)@.active != 0
                    &&& final(self)@ == old(self)@
                },
                Claim::Exit => {
                    if old(self)@.done || cancelled {
                        final(self)@ == old(self)@
                    } else {
                        &&& old(self)@.stack.len() == 0 && old(self)@.active == 0
                        &&& final(self)@ == (Walk { done: true, ..old(self)@ })
                    }
                },
            },
    {
        if self.done || cancelled {
            return Claim::Exit;
        }
        let ghost was = self@;
        if self.stack.len() > 0 {
            match self.stack.pop() {
                Some(dir) => {
                    self.active += 1;
                    assert(self@.stack =~= was.stack.drop_last());
                    return Claim::Read(dir);
                },
                None => {},
            }
        }
        if self.active == 0 {
            self.done = true;
            return Claim::Exit;
        }
        Claim::Wait
    }

    /// Hand back what a claimed directory held.
    pub fn merge(&mut self, found: Found)
        requires
            old(self)@.wf(),
            old(self).active > 0,
        ensures
            final(self)@.wf(),
            final(self)@ == old(self)@.merged(
                path_texts(found.matches@),
                path_texts(found.subdirs@),
            ),
    {
        let ghost was = self@;
        let ghost m = path_texts(found.matches@);
        let ghost d = path_texts(found.subdirs@);
        if !self.done {
            let mut i: usize = 0;
            assert(was.results + m.take(0) =~= was.results);
            while i < found.matches.len() && self.results.len() < self.cap
                invariant
                    i <= m.len(),
                    m == path_texts(found.matches@),
                    self.cap == was.cap,
                    self.active == was.active,
                    self.done == was.done,
                    path_texts(self.stack@) == was.stack,
                    path_texts(self.results@) == was.results + m.take(i as int),
                    was.results.len() + i <= was.cap,
                decreases m.len() - i,
            {
                let ghost prev = self.results@;
                self.results.push(found.matches[i].clone());
                assert(path_texts(self.results@) =~= path_texts(prev).push(m[i as int]));
                assert(m.take(i + 1) =~= m.take(i as int).push(m[i as int]));
                assert(path_texts(self.results@) =~= was.results + m.take(i + 1));
                i += 1;
            }
            proof {
                assert(path_texts(self.results@).len() == self.results@.len());
                if i == m.len() {
                    assert(m.take(i as int) =~= m);
                }
            }
            if self.results.len() >= self.cap {
                self.done = true;
            } else {
                let mut subdirs = found.subdirs;
                let ghost held = self.stack@;
                self.stack.append(&mut subdirs);
                assert(path_texts(self.stack@) =~= path_texts(held) + d);
            }
        }
        self.active -= 1;
    }
}

/// What a file system holds: the listing of each directory.
pub open spec fn listing_of(fs: spec_fn(Seq<char>) -> Seq<Option<Dirent>>, dir: Seq<char>) -> Seq<
    Option<Dirent>,
> {
    fs(dir)
}

/// Whether `chain` leads down from `root`, each directory walked from the one before.
pub open spec fn leads_down(
    fs: spec_fn(Seq<char>) -> Seq<Option<Dirent>>,
    root: Seq<char>,
    chain: Seq<Seq<char>>,
) -> bool {
    &&& chain.len() > 0
    &&& chain[0] == root
    &&& forall|i: int|
        1 <= i < chain.len() ==> steps(listing_of(fs, chain[i - 1])).contains(#[trigger] chain[i])
}

/// Whether `dir` is the root or lies below it, with no link on the way.
pub open spec fn below(
    fs: spec_fn(Seq<char>) -> Seq<Option<Dirent>>,
    root: Seq<char>,
    dir: Seq<char>,
) -> bool {
    exists|chain: Seq<Seq<char>>| #[trigger] leads_down(fs, root, chain) && chain.last() == dir
}

/// Whether `hit` is a match in one of the directories that were read.
pub open spec fn found_in(
    fs: spec_fn(Seq<char>) -> Seq<Option<Dirent>>,
    query: Seq<char>,
    read: Set<Seq<char>>,
    hit: Seq<char>,
) -> bool {
    exists|dir: Seq<char>|
        #[trigger] read.contains(dir) && hits(listing_of(fs, dir), query).contains(hit)
}

/// Whether `dir` was read, is being read or waits to be read.
pub open spec fn accounted(
    w: Walk,
    read: Set<Seq<char>>,
    busy: Multiset<Seq<char>>,
    dir: Seq<char>,
) -> bool {
    read.contains(dir) || busy.count(dir) > 0 || w.stack.contains(dir)
}

/// Whether a listing has the path `x` at `i`.
pub open spec fn lists_at(listing: Seq<Option<Dirent>>, i: int, x: Seq<char>) -> bool {
    0 <= i < listing.len() && listing[i] is Some && listing[i]->0.path@ == x
}

/// Whether the file system lists each path once, and the root nowhere, as a tree without
/// links does.
pub open spec fn lists_once(
    fs: spec_fn(Seq<char>) -> Seq<Option<Dirent>>,
    root: Seq<char>,
) -> bool {
    &&& forall|p: Seq<char>, i: int, q: Seq<char>, j: int, x: Seq<char>|
        #![trigger lists_at(listing_of(fs, p), i, x), lists_at(listing_of(fs, q), j, x)]
        lists_at(listing_of(fs, p), i, x) && lists_at(listing_of(fs, q), j, x) ==> p == q && i
            == j
    &&& forall|p: Seq<char>, i: int| !(#[trigger] lists_at(listing_of(fs, p), i, root))
}

/// Whether `dir` is walked from one of the directories that were read.
pub open spec fn comes_from(
    fs: spec_fn(Seq<char>) -> Seq<Option<Dirent>>,
    read: Set<Seq<char>>,
    dir: Seq<char>,
) -> bool {
    exists|p: Seq<char>| #[trigger] read.contains(p) && steps(listing_of(fs, p)).contains(dir)
}

/// Whether a walk has every directory once, read, being read or waiting, and every result
/// once.
pub open spec fn each_once(
    w: Walk,
    fs: spec_fn(Seq<char>) -> Seq<Option<Dirent>>,
    root: Seq<char>,
    read: Set<Seq<char>>,
    busy: Multiset<Seq<char>>,
) -> bool {
    &&& w.results.no_duplicates()
    &&& w.stack.no_duplicates()
    &&& forall|dir: Seq<char>| #[trigger] busy.count(dir) <= 1
    &&& forall|dir: Seq<char>|
        #[trigger] busy.count(dir) > 0 ==> !read.contains(dir) && !w.stack.contains(dir)
    &&& forall|dir: Seq<char>| #[trigger] w.stack.contains(dir) ==> !read.contains(dir)
    &&& forall|dir: Seq<char>| #[trigger]
        accounted(w, read, busy, dir) ==> dir == root || comes_from(fs, read, dir)
}

/// What holds of a walk at every moment, with `read` the directories that were read
/// and merged, and `busy` those that workers are reading.
pub open spec fn walk_holds(
    w: Walk,
    fs: spec_fn(Seq<char>) -> Seq<Option<Dirent>>,
    root: Seq<char>,
    query: Seq<char>,
    read: Set<Seq<char>>,
    busy: Multiset<Seq<char>>,
) -> bool {
    &&& w.wf()
    &&& w.active == busy.len()
    &&& forall|dir: Seq<char>| #[trigger]
        accounted(w, read, busy, dir) ==> below(fs, root, dir)
    &&& forall|r: int|
        0 <= r < w.results.len() ==> found_in(fs, query, read, #[trigger] w.results[r])
    &&& lists_once(fs, root) ==> each_once(w, fs, root, read, busy)
    &&& w.results.len() < w.cap ==> {
        &&& w.done ==> w.stack.len() == 0 && busy.len() == 0
        &&& accounted(w, read, busy, root)
        &&& forall|dir: Seq<char>, sub: Seq<char>|
            #![trigger read.contains(dir), steps(listing_of(fs, dir)).contains(sub)]
            read.contains(dir) && steps(listing_of(fs, dir)).contains(sub) ==> accounted(
                w,
                read,
                busy,
                sub,
            )
        &&& forall|dir: Seq<char>, hit: Seq<char>|
            #![trigger read.contains(dir), hits(listing_of(fs, dir), query).contains(hit)]
            read.contains(dir) && hits(listing_of(fs, dir), query).contains(hit)
                ==> w.results.contains(hit)
    }
}

/// A fresh walk satisfies `walk_holds` with nothing read.
pub proof fn law_walk_starts(
    fs: spec_fn(Seq<char>) -> Seq<Option<Dirent>>,
    root: Seq<char>,
    query: Seq<char>,
    cap: int,
)
    requires
        cap >= 0,
    ensures
        walk_holds(
            Walk::start(root, cap),
            fs,
            root,
            query,
            Set::empty(),
            Multiset::empty(),
        ),
{
    let w = Walk::start(root, cap);
    assert(w.stack[0] == root);
    assert forall|dir: Seq<char>| #[trigger] w.stack.contains(dir) implies dir == root by {}
    assert forall|dir: Seq<char>| #[trigger]
        accounted(w, Set::empty(), Multiset::empty(), dir) implies below(fs, root, dir) by {
        assert(leads_down(fs, root, seq![root]));
    }
}

proof fn lemma_hit_listed(listing: Seq<Option<Dirent>>, query: Seq<char>, x: Seq<char>) -> (i: int)
    requires
        hits(listing, query).contains(x),
    ensures
        lists_at(listing, i, x),
    decreases listing.len(),
{
    let all = hits(listing, query);
    let k = choose|k: int| 0 <= k < all.len() && all[k] == x;
    let rest = hits(listing.drop_last(), query);
    if k < rest.len() {
        assert(rest[k] == x);
        lemma_hit_listed(listing.drop_last(), query, x)
    } else {
        listing.len() - 1
    }
}

proof fn lemma_step_listed(listing: Seq<Option<Dirent>>, x: Seq<char>) -> (i: int)
    requires
        steps(listing).contains(x),
    ensures
        lists_at(listing, i, x),
    decreases listing.len(),
{
    let all = steps(listing);
    let k = choose|k: int| 0 <= k < all.len() && all[k] == x;
    let rest = steps(listing.drop_last());
    if k < rest.len() {
        assert(rest[k] == x);
        lemma_step_listed(listing.drop_last(), x)
    } else {
        listing.len() - 1
    }
}

/// A listing that has each path once gives each match and each step once.
proof fn lemma_listed_once(listing: Seq<Option<Dirent>>, query: Seq<char>)
    requires
        forall|i: int, j: int, x: Seq<char>| #[trigger]
            lists_at(listing, i, x) && #[trigger] lists_at(listing, j, x) ==> i == j,
    ensures
        hits(listing, query).no_duplicates(),
        steps(listing).no_duplicates(),
    decreases listing.len(),
{
    if listing.len() > 0 {
        let rest = listing.drop_last();
        let n = listing.len() - 1;
        assert forall|i: int, j: int, x: Seq<char>| #[trigger]
            lists_at(rest, i, x) && #[trigger] lists_at(rest, j, x) implies i == j by {
            assert(lists_at(listing, i, x) && lists_at(listing, j, x));
        }
        lemma_listed_once(rest, query);
        if listing.last() is Some {
            let x = listing.last()->0.path@;
            assert(lists_at(listing, n, x));
            if hits(rest, query).contains(x) {
                let i = lemma_hit_listed(rest, query, x);
                assert(lists_at(listing, i, x));
            }
            if steps(rest).contains(x) {
                let i = lemma_step_listed(rest, x);
                assert(lists_at(listing, i, x));
            }
        }
    }
}

proof fn lemma_claim_once(
    w: Walk,
    fs: spec_fn(Seq<char>) -> Seq<Option<Dirent>>,
    root: Seq<char>,
    read: Set<Seq<char>>,
    busy: Multiset<Seq<char>>,
)
    requires
        each_once(w, fs, root, read, busy),
        w.stack.len() > 0,
    ensures
        each_once(w.claimed(), fs, root, read, busy.insert(w.stack.last())),
{
    let v = w.claimed();
    let top = w.stack.last();
    let b = busy.insert(top);
    assert(w.stack[w.stack.len() - 1] == top);
    assert(w.stack.contains(top));
    assert forall|dir: Seq<char>| #[trigger] v.stack.contains(dir) implies w.stack.contains(dir)
        && dir != top by {
        let i = choose|i: int| 0 <= i < v.stack.len() && v.stack[i] == dir;
        assert(w.stack[i] == dir);
    }
    assert(busy.count(top) == 0);
    assert forall|dir: Seq<char>| #[trigger] accounted(v, read, b, dir) implies dir == root
        || comes_from(fs, read, dir) by {
        assert(accounted(w, read, busy, dir));
    }
}

proof fn lemma_merge_once(
    w: Walk,
    fs: spec_fn(Seq<char>) -> Seq<Option<Dirent>>,
    root: Seq<char>,
    query: Seq<char>,
    read: Set<Seq<char>>,
    busy: Multiset<Seq<char>>,
    dir: Seq<char>,
)
    requires
        w.wf(),
        lists_once(fs, root),
        each_once(w, fs, root, read, busy),
        busy.count(dir) > 0,
        forall|r: int|
            0 <= r < w.results.len() ==> found_in(fs, query, read, #[trigger] w.results[r]),
    ensures
        each_once(
            w.merged(hits(listing_of(fs, dir), query), steps(listing_of(fs, dir))),
            fs,
            root,
            read.insert(dir),
            busy.remove(dir),
        ),
{
    let l = listing_of(fs, dir);
    let h = hits(l, query);
    let s = steps(l);
    let v = w.merged(h, s);
    let now = read.insert(dir);
    let b = busy.remove(dir);
    lemma_listed_once(l, query);
    assert(accounted(w, read, busy, dir));
    assert forall|x: Seq<char>| h.contains(x) implies !w.results.contains(x) by {
        if w.results.contains(x) {
            let i = lemma_hit_listed(l, query, x);
            let r = choose|r: int| 0 <= r < w.results.len() && w.results[r] == x;
            assert(found_in(fs, query, read, w.results[r]));
            let d = choose|d: Seq<char>| #[trigger]
                read.contains(d) && hits(listing_of(fs, d), query).contains(x);
            let j = lemma_hit_listed(listing_of(fs, d), query, x);
            assert(lists_at(listing_of(fs, dir), i, x) && lists_at(listing_of(fs, d), j, x));
        }
    }
    assert(v.results.no_duplicates()) by {
        if !w.done {
            let room = w.cap - w.results.len();
            let taken = if h.len() <= room {
                h
            } else {
                h.take(room)
            };
            assert(v.results == w.results + taken);
            assert forall|i: int, j: int|
                0 <= i < v.results.len() && 0 <= j < v.results.len() && i
                    != j implies v.results[i] != v.results[j] by {
                let m = w.results.len() as int;
                if i < m && j >= m {
                    assert(taken[j - m] == h[j - m]);
                    assert(h.contains(h[j - m]));
                    assert(w.results.contains(w.results[i]));
                } else if i >= m && j < m {
                    assert(taken[i - m] == h[i - m]);
                    assert(h.contains(h[i - m]));
                    assert(w.results.contains(w.results[j]));
                } else if i >= m && j >= m {
                    assert(taken[i - m] == h[i - m] && taken[j - m] == h[j - m]);
                }
            }
        }
    }
    assert forall|x: Seq<char>| s.contains(x) implies !accounted(w, read, busy, x) && x
        != dir by {
        let i = lemma_step_listed(l, x);
        assert(lists_at(listing_of(fs, dir), i, x));
        if accounted(w, read, busy, x) {
            assert(x != root);
            assert(comes_from(fs, read, x));
            let d = choose|d: Seq<char>| #[trigger]
                read.contains(d) && steps(listing_of(fs, d)).contains(x);
            let j = lemma_step_listed(listing_of(fs, d), x);
            assert(lists_at(listing_of(fs, d), j, x));
        }
    }
    assert(v.stack == w.stack || v.stack == w.stack + s);
    assert forall|x: Seq<char>| #[trigger] v.stack.contains(x) implies w.stack.contains(x)
        || (s.contains(x) && v.stack == w.stack + s) by {
        let i = choose|i: int| 0 <= i < v.stack.len() && v.stack[i] == x;
        if i < w.stack.len() {
            assert(w.stack[i] == x);
        } else {
            assert(s[i - w.stack.len()] == x);
        }
    }
    assert(v.stack.no_duplicates()) by {
        if v.stack == w.stack + s {
            let m = w.stack.len() as int;
            assert forall|i: int, j: int|
                0 <= i < v.stack.len() && 0 <= j < v.stack.len() && i != j implies v.stack[i]
                != v.stack[j] by {
                if i < m && j >= m {
                    assert(s.contains(s[j - m]));
                    assert(w.stack.contains(w.stack[i]));
                    assert(accounted(w, read, busy, w.stack[i]));
                } else if i >= m && j < m {
                    assert(s.contains(s[i - m]));
                    assert(w.stack.contains(w.stack[j]));
                    assert(accounted(w, read, busy, w.stack[j]));
                }
            }
        }
    }
    assert(busy.count(dir) == 1);
    assert forall|x: Seq<char>| #[trigger] b.count(x) > 0 implies !now.contains(x)
        && !v.stack.contains(x) by {
        assert(busy.count(x) > 0 && x != dir);
        assert(accounted(w, read, busy, x));
    }
    assert forall|x: Seq<char>| #[trigger] v.stack.contains(x) implies !now.contains(x) by {
        if s.contains(x) && read.contains(x) {
            assert(accounted(w, read, busy, x));
        }
    }
    assert forall|x: Seq<char>| #[trigger] accounted(v, now, b, x) implies x == root
        || comes_from(fs, now, x) by {
        if accounted(w, read, busy, x) {
            if x != root {
                let d = choose|d: Seq<char>| #[trigger]
                    read.contains(d) && steps(listing_of(fs, d)).contains(x);
                assert(now.contains(d));
            }
        } else {
            assert(v.stack.contains(x) && s.contains(x));
            assert(now.contains(dir));
        }
    }
}

/// Claiming a directory keeps `walk_holds`.
pub proof fn law_claim_keeps_the_walk(
    w: Walk,
    fs: spec_fn(Seq<char>) -> Seq<Option<Dirent>>,
    root: Seq<char>,
    query: Seq<char>,
    read: Set<Seq<char>>,
    busy: Multiset<Seq<char>>,
)
    requires
        walk_holds(w, fs, root, query, read, busy),
        !w.done,
        w.stack.len() > 0,
    ensures
        walk_holds(w.claimed(), fs, root, query, read, busy.insert(w.stack.last())),
{
    let v = w.claimed();
    let b = busy.insert(w.stack.last());
    if lists_once(fs, root) {
        lemma_claim_once(w, fs, root, read, busy);
    }
    assert forall|dir: Seq<char>| #[trigger] accounted(v, read, b, dir) implies below(
        fs,
        root,
        dir,
    ) by {
        if v.stack.contains(dir) {
            let i = choose|i: int| 0 <= i < v.stack.len() && v.stack[i] == dir;
            assert(w.stack[i] == dir);
        } else if dir == w.stack.last() {
            assert(w.stack[w.stack.len() - 1] == dir);
        }
        assert(accounted(w, read, busy, dir));
    }
    assert forall|dir: Seq<char>| accounted(w, read, busy, dir) implies accounted(
        v,
        read,
        b,
        dir,
    ) by {
        if w.stack.contains(dir) && dir != w.stack.last() {
            let i = choose|i: int| 0 <= i < w.stack.len() && w.stack[i] == dir;
            assert(v.stack[i] == dir);
        }
    }
}

/// Merging what a busy directory held keeps `walk_holds`, and the directory counts
/// as read.
pub proof fn law_merge_keeps_the_walk(
    w: Walk,
    fs: spec_fn(Seq<char>) -> Seq<Option<Dirent>>,
    root: Seq<char>,
    query: Seq<char>,
    read: Set<Seq<char>>,
    busy: Multiset<Seq<char>>,
    dir: Seq<char>,
)
    requires
        walk_holds(w, fs, root, query, read, busy),
        busy.count(dir) > 0,
    ensures
        walk_holds(
            w.merged(hits(listing_of(fs, dir), query), steps(listing_of(fs, dir))),
            fs,
            root,
            query,
            read.insert(dir),
            busy.remove(dir),
        ),
{
    let h = hits(listing_of(fs, dir), query);
    let s = steps(listing_of(fs, dir));
    let v = w.merged(h, s);
    let now = read.insert(dir);
    let b = busy.remove(dir);
    assert(busy.len() > 0) by {
        if busy.len() == 0 {
            assert(busy =~= Multiset::empty());
        }
    }
    if lists_once(fs, root) {
        lemma_merge_once(w, fs, root, query, read, busy, dir);
    }
    assert(accounted(w, read, busy, dir));
    assert forall|d: Seq<char>| #[trigger] accounted(v, now, b, d) implies below(
        fs,
        root,
        d,
    ) by {
        if v.stack.contains(d) && !w.stack.contains(d) {
            let i = choose|i: int| 0 <= i < v.stack.len() && v.stack[i] == d;
            assert(v.stack == w.stack + s);
            if i < w.stack.len() {
                assert(w.stack[i] == d);
            } else {
                assert(s[i - w.stack.len()] == d);
                lemma_step_below(fs, root, dir, d);
            }
        } else {
            assert(accounted(w, read, busy, d));
        }
    }
    assert forall|r: int| 0 <= r < v.results.len() implies found_in(
        fs,
        query,
        now,
        #[trigger] v.results[r],
    ) by {
        if r < w.results.len() {
            assert(v.results[r] == w.results[r]);
            let d = choose|d: Seq<char>|
                #[trigger] read.contains(d) && hits(listing_of(fs, d), query).contains(
                    w.results[r],
                );
            assert(now.contains(d));
        } else {
            assert(v.results[r] == h[r - w.results.len()]);
            assert(now.contains(dir));
        }
    }
    if v.results.len() < v.cap {
        assert(w.results.len() < w.cap);
        assert(!w.done);
        assert(v.results =~= w.results + h);
        assert(v.stack =~= w.stack + s);
        assert forall|d: Seq<char>|
            accounted(w, read, busy, d) || s.contains(d) implies #[trigger] accounted(
            v,
            now,
            b,
            d,
        ) by {
            if w.stack.contains(d) {
                let i = choose|i: int| 0 <= i < w.stack.len() && w.stack[i] == d;
                assert(v.stack[i] == d);
            } else if s.contains(d) {
                let i = choose|i: int| 0 <= i < s.len() && s[i] == d;
                assert(v.stack[w.stack.len() + i] == d);
            }
        }
        assert forall|d: Seq<char>, sub: Seq<char>|
            #![trigger now.contains(d), steps(listing_of(fs, d)).contains(sub)]
            now.contains(d) && steps(listing_of(fs, d)).contains(sub) implies accounted(
            v,
            now,
            b,
            sub,
        ) by {
            if d != dir {
                assert(read.contains(d));
                assert(accounted(w, read, busy, sub));
            }
        }
        assert forall|d: Seq<char>, hit: Seq<char>|
            #![trigger now.contains(d), hits(listing_of(fs, d), query).contains(hit)]
            now.contains(d) && hits(listing_of(fs, d), query).contains(hit) implies v.results.contains(
            hit,
        ) by {
            if d != dir {
                assert(read.contains(d));
                assert(w.results.contains(hit));
                let i = choose|i: int| 0 <= i < w.results.len() && w.results[i] == hit;
                assert(v.results[i] == hit);
            } else {
                let i = choose|i: int| 0 <= i < h.len() && h[i] == hit;
                assert(v.results[w.results.len() + i] == hit);
            }
        }
    }
}

proof fn lemma_step_below(
    fs: spec_fn(Seq<char>) -> Seq<Option<Dirent>>,
    root: Seq<char>,
    dir: Seq<char>,
    sub: Seq<char>,
)
    requires
        below(fs, root, dir),
        steps(listing_of(fs, dir)).contains(sub),
    ensures
        below(fs, root, sub),
{
    let chain = choose|chain: Seq<Seq<char>>| #[trigger]
        leads_down(fs, root, chain) && chain.last() == dir;
    let longer = chain.push(sub);
    assert forall|i: int| 1 <= i < longer.len() implies steps(
        listing_of(fs, longer[i - 1]),
    ).contains(#[trigger] longer[i]) by {
        if i < chain.len() {
            assert(longer[i] == chain[i] && longer[i - 1] == chain[i - 1]);
        } else {
            assert(longer[i - 1] == chain.last());
        }
    }
    assert(leads_down(fs, root, longer));
    assert(longer.last() == sub);
}

/// A walk that drained before it had enough found every matching directory below the
/// root, however deep.
pub proof fn law_drained_walk_is_complete(
    w: Walk,
    fs: spec_fn(Seq<char>) -> Seq<Option<Dirent>>,
    root: Seq<char>,
    query: Seq<char>,
    read: Set<Seq<char>>,
    busy: Multiset<Seq<char>>,
    chain: Seq<Seq<char>>,
    hit: Seq<char>,
)
    requires
        walk_holds(w, fs, root, query, read, busy),
        w.results.len() < w.cap,
        w.stack.len() == 0,
        w.active == 0,
        leads_down(fs, root, chain),
        hits(listing_of(fs, chain.last()), query).contains(hit),
    ensures
        w.results.contains(hit),
{
    lemma_chain_read(w, fs, root, query, read, busy, chain, chain.len() - 1);
    assert(read.contains(chain.last()));
}

proof fn lemma_chain_read(
    w: Walk,
    fs: spec_fn(Seq<char>) -> Seq<Option<Dirent>>,
    root: Seq<char>,
    query: Seq<char>,
    read: Set<Seq<char>>,
    busy: Multiset<Seq<char>>,
    chain: Seq<Seq<char>>,
    i: int,
)
    requires
        walk_holds(w, fs, root, query, read, busy),
        w.results.len() < w.cap,
        w.stack.len() == 0,
        w.active == 0,
        leads_down(fs, root, chain),
        0 <= i < chain.len(),
    ensures
        read.contains(chain[i]),
    decreases i,
{
    assert(busy =~= Multiset::empty());
    if i == 0 {
        assert(accounted(w, read, busy, root));
    } else {
        lemma_chain_read(w, fs, root, query, read, busy, chain, i - 1);
        assert(read.contains(chain[i - 1]) && steps(listing_of(fs, chain[i - 1])).contains(
            chain[i],
        ));
        assert(accounted(w, read, busy, chain[i]));
    }
}

/// Nothing but a match is ever reported, never more than asked for, and only from
/// directories below the root that were reached without following a link.
pub proof fn law_walk_is_sound(
    w: Walk,
    fs: spec_fn(Seq<char>) -> Seq<Option<Dirent>>,
    root: Seq<char>,
    query: Seq<char>,
    read: Set<Seq<char>>,
    busy: Multiset<Seq<char>>,
)
    requires
        walk_holds(w, fs, root, query, read, busy),
    ensures
        w.results.len() <= w.cap,
        forall|r: int|
            0 <= r < w.results.len() ==> exists|dir: Seq<char>| #[trigger]
                below(fs, root, dir) && hits(listing_of(fs, dir), query).contains(
                    #[trigger] w.results[r],
                ),
{
    assert forall|r: int| 0 <= r < w.results.len() implies exists|dir: Seq<char>| #[trigger]
        below(fs, root, dir) && hits(listing_of(fs, dir), query).contains(
            #[trigger] w.results[r],
        ) by {
        assert(found_in(fs, query, read, w.results[r]));
        let dir = choose|dir: Seq<char>| #[trigger]
            read.contains(dir) && hits(listing_of(fs, dir), query).contains(w.results[r]);
        assert(accounted(w, read, busy, dir));
        assert(below(fs, root, dir));
    }
}

/// Where each path is listed once, no directory is reported twice, and when the walk is over
/// it has reported as many as there are, or as many as were asked for if that is less.
pub proof fn law_walk_reports_each_match_once(
    w: Walk,
    fs: spec_fn(Seq<char>) -> Seq<Option<Dirent>>,
    root: Seq<char>,
    query: Seq<char>,
    read: Set<Seq<char>>,
    busy: Multiset<Seq<char>>,
    all: Set<Seq<char>>,
)
    requires
        walk_holds(w, fs, root, query, read, busy),
        lists_once(fs, root),
        w.results.len() < w.cap ==> w.stack.len() == 0 && w.active == 0,
        all.finite(),
        forall|hit: Seq<char>| #[trigger]
            all.contains(hit) <==> exists|dir: Seq<char>| #[trigger]
                below(fs, root, dir) && hits(listing_of(fs, dir), query).contains(hit),
    ensures
        w.results.no_duplicates(),
        w.results.len() == (if w.cap <= all.len() {
            w.cap
        } else {
            all.len() as int
        }),
        w.results.len() < w.cap ==> w.results.to_set() == all,
{
    let found = w.results.to_set();
    law_walk_is_sound(w, fs, root, query, read, busy);
    w.results.unique_seq_to_set();
    assert forall|hit: Seq<char>| found.contains(hit) implies all.contains(hit) by {
        let r = choose|r: int| 0 <= r < w.results.len() && w.results[r] == hit;
        assert(w.results[r] == hit);
    }
    vstd::set_lib::lemma_len_subset(found, all);
    if w.results.len() < w.cap {
        assert forall|hit: Seq<char>| all.contains(hit) implies found.contains(hit) by {
            let dir = choose|dir: Seq<char>| #[trigger]
                below(fs, root, dir) && hits(listing_of(fs, dir), query).contains(hit);
            let chain = choose|chain: Seq<Seq<char>>| #[trigger]
                leads_down(fs, root, chain) && chain.last() == dir;
            law_drained_walk_is_complete(w, fs, root, query, read, busy, chain, hit);
        }
        assert(found =~= all);
    }
}

/// The walk reports the directories whose name contains the query, ignoring case, and goes into
/// every directory that is no reparse point. Files are passed over.
pub proof fn law_walk_looks_at_directories(d: Dirent, query: Seq<char>)
    ensures
        is_hit(Some(d), query) <==> d.is_dir && query.len() > 0 && exists|at: int|
            crate::text::occurs_at(
                crate::matcher::folded(d.name@),
                crate::matcher::folded(query),
                at,
            ),
        is_step(Some(d)) <==> d.is_dir && d.attributes & 1024 == 0,
        !is_hit(None, query),
        !is_step(None),
{
}

/// Reading a directory finds what each of its entries gives, in their order.
pub proof fn law_each_entry_gives_its_own(
    listing: Seq<Option<Dirent>>,
    d: Option<Dirent>,
    query: Seq<char>,
)
    ensures
        hits(seq![], query).len() == 0,
        steps(seq![]).len() == 0,
        hits(listing.push(d), query) == (if is_hit(d, query) {
            hits(listing, query).push(d->0.path@)
        } else {
            hits(listing, query)
        }),
        steps(listing.push(d)) == (if is_step(d) {
            steps(listing).push(d->0.path@)
        } else {
            steps(listing)
        }),
{
    assert(listing.push(d).drop_last() =~= listing);
}

} // verus!
