//! The thumbnail cache of the icon-grid views.
//!
//! Thumbnails are per file, keyed by size and modification time, so that a resized view
//! or a changed file fetches fresh pixels. The cache is bounded: beyond its capacity the
//! oldest thumbnail leaves first.

use crate::assoc::{idents, ids, mix, mixed, Key, KeyMap, KeySet, Spelled};
use crate::icons::{after_request, lemma_idents_push, lemma_set_of_push, newly_wanted, paired};
use crate::path::{comps, comps_code, Comp, WinPath};
use vstd::prelude::*;

verus! {

/// How many thumbnails to keep.
pub const CAPACITY: usize = 512;

/// A file at a pixel size, as of a modification time.
#[derive(Debug)]
pub struct ThumbKey {
    pub path: WinPath,
    pub size: u16,
    pub mtime: Option<i64>,
}

/// What a thumbnail key identifies.
pub ghost struct ThumbId {
    pub path: Seq<Comp>,
    pub size: u16,
    pub mtime: Option<i64>,
}

/// A thumbnail key as plain values.
pub ghost struct ThumbName {
    pub path: Seq<char>,
    pub size: u16,
    pub mtime: Option<i64>,
}

impl Spelled for ThumbName {
    type Id = ThumbId;

    /// The path counts by its components.
    open spec fn id(self) -> ThumbId {
        ThumbId { path: comps(self.path), size: self.size, mtime: self.mtime }
    }
}

impl View for ThumbKey {
    type V = ThumbName;

    open spec fn view(&self) -> ThumbName {
        ThumbName { path: self.path@, size: self.size, mtime: self.mtime }
    }
}

/// The views of a list of keys.
pub open spec fn thumb_names(s: Seq<ThumbKey>) -> Seq<ThumbName> {
    s.map_values(|k: ThumbKey| k@)
}

impl ThumbKey {
    /// What the key identifies; the path counts by its components.
    pub open spec fn thumb_id(&self) -> ThumbId {
        self@.id()
    }

    /// Whether two keys identify the same thumbnail.
    pub fn same(&self, other: &ThumbKey) -> (r: bool)
        ensures
            r == (self.thumb_id() == other.thumb_id()),
    {
        let times: bool = match (self.mtime, other.mtime) {
            (Some(a), Some(b)) => a == b,
            (None, None) => true,
            _ => false,
        };
        self.size == other.size && times && self.path.same(&other.path)
    }
}

impl Clone for ThumbKey {
    fn clone(&self) -> (r: ThumbKey)
        ensures
            r == *self,
    {
        ThumbKey { path: self.path.clone(), size: self.size, mtime: self.mtime }
    }
}

impl Key for ThumbKey {
    type Id = ThumbId;

    open spec fn id(&self) -> ThumbId {
        self.thumb_id()
    }

    open spec fn code_of(id: ThumbId) -> int {
        mixed(comps_code(id.path), id.size as int)
    }

    fn code(&self) -> (r: u64) {
        mix(self.path.code(), self.size as u64)
    }

    fn same_key(&self, other: &ThumbKey) -> (r: bool) {
        self.same(other)
    }
}

impl vstd::std_specs::cmp::PartialEqSpecImpl for ThumbKey {
    open spec fn obeys_eq_spec() -> bool {
        true
    }

    open spec fn eq_spec(&self, other: &ThumbKey) -> bool {
        self.thumb_id() == other.thumb_id()
    }
}

impl PartialEq for ThumbKey {
    fn eq(&self, other: &ThumbKey) -> (r: bool) {
        self.same(other)
    }
}

impl Eq for ThumbKey {

}

/// Thumbnails that are there, in the order they came, and those that were asked for.
pub struct ThumbCache<H> {
    pub handles: KeyMap<ThumbKey, H>,
    pub requested: KeySet<ThumbKey>,
    /// The keys of the thumbnails that are there, oldest first.
    pub order: Vec<ThumbKey>,
}

/// A thumbnail cache as plain values.
#[verifier::ext_equal]
pub ghost struct Shelf<H> {
    pub handles: Map<ThumbId, H>,
    pub requested: Set<ThumbId>,
    pub order: Seq<ThumbId>,
}

impl<H> View for ThumbCache<H> {
    type V = Shelf<H>;

    open spec fn view(&self) -> Shelf<H> {
        Shelf {
            handles: self.handles@,
            requested: self.requested@,
            order: ids(self.order@),
        }
    }
}

impl<H> Shelf<H> {
    /// The order lists each cached key once, and the cache is within its bound.
    pub open spec fn wf(self) -> bool {
        &&& self.order.no_duplicates()
        &&& self.order.to_set() == self.handles.dom()
        &&& self.order.len() <= CAPACITY
    }

    /// With a thumbnail put in, before anything leaves.
    pub open spec fn with(self, id: ThumbId, handle: H) -> Shelf<H> {
        Shelf {
            handles: self.handles.insert(id, handle),
            order: if self.handles.contains_key(id) {
                self.order
            } else {
                self.order.push(id)
            },
            requested: self.requested,
        }
    }

    /// Without its oldest thumbnail, which may be asked for again.
    pub open spec fn without_oldest(self) -> Shelf<H> {
        Shelf {
            handles: self.handles.remove(self.order[0]),
            order: self.order.skip(1),
            requested: self.requested.remove(self.order[0]),
        }
    }

    /// After a thumbnail came in.
    pub open spec fn inserted(self, id: ThumbId, handle: H) -> Shelf<H> {
        let full = self.with(id, handle);
        if full.order.len() > CAPACITY {
            full.without_oldest()
        } else {
            full
        }
    }

    /// After keys were asked for.
    pub open spec fn asked(self, keys: Seq<ThumbName>) -> Shelf<H> {
        Shelf { requested: after_request(self.handles, self.requested, keys), ..self }
    }

    /// After keys that were asked for were given up.
    pub open spec fn released(self, keys: Seq<ThumbName>) -> Shelf<H> {
        Shelf { requested: self.requested.difference(idents(keys).to_set()), ..self }
    }
}

impl<H> ThumbCache<H> {
    /// The parts of the cache agree.
    pub open spec fn wf(&self) -> bool {
        self.handles.wf() && self.requested.wf() && self@.wf()
    }

    /// An empty cache.
    pub fn new() -> (r: ThumbCache<H>)
        ensures
            r.wf(),
            r@ == (Shelf::<H> {
                handles: Map::empty(),
                requested: Set::empty(),
                order: seq![],
            }),
    {
        let r = ThumbCache {
            handles: KeyMap::new(),
            requested: KeySet::new(),
            order: Vec::new(),
        };
        assert(r@.order =~= seq![]);
        assert(r@.order.to_set() =~= r@.handles.dom());
        r
    }

    /// The thumbnail for `key`, if it is there.
    pub fn get(&self, key: &ThumbKey) -> (r: Option<&H>)
        requires
            self.wf(),
        ensures
            match r {
                Some(h) => self@.handles.contains_key(key.thumb_id()) && *h
                    == self@.handles[key.thumb_id()],
                None => !self@.handles.contains_key(key.thumb_id()),
            },
    {
        self.handles.get(key)
    }

    /// Keep the thumbnail for `key`; past the capacity the oldest one leaves. What was
    /// replaced or left comes back.
    pub fn insert(&mut self, key: ThumbKey, handle: H) -> (r: Option<H>)
        requires
            old(self).wf(),
        ensures
            final(self).wf(),
            final(self)@ == old(self)@.inserted(key.thumb_id(), handle),
            match r {
                Some(h) => {
                    let full = old(self)@.with(key.thumb_id(), handle);
                    if old(self)@.handles.contains_key(key.thumb_id()) {
                        h == old(self)@.handles[key.thumb_id()]
                    } else {
                        full.order.len() > CAPACITY && h == full.handles[full.order[0]]
                    }
                },
                None => {
                    &&& !old(self)@.handles.contains_key(key.thumb_id())
                    &&& old(self)@.order.len() < CAPACITY
                },
            },
    {
        let ghost was = self@;
        let id = Ghost(key.thumb_id());
        let displaced = self.handles.insert(key.clone(), handle);
        if displaced.is_some() {
            proof {
                assert(was.handles.dom().contains(id@));
                assert(self@.handles.dom() =~= was.handles.dom());
                assert(self@ == was.with(id@, handle));
            }
            return displaced;
        }
        self.order.push(key);
        let ghost full = was.with(id@, handle);
        proof {
            assert(!was.handles.dom().contains(id@));
            assert(ids(self.order@) =~= was.order.push(id@));
            lemma_set_of_push(was.order, id@);
            assert(full.order.to_set() =~= full.handles.dom());
            assert forall|i: int, j: int|
                0 <= i < full.order.len() && 0 <= j < full.order.len() && i != j implies full.order[i]
                != full.order[j] by {
                if i == was.order.len() {
                    assert(was.order.to_set().contains(was.order[j]));
                } else if j == was.order.len() {
                    assert(was.order.to_set().contains(was.order[i]));
                } else {
                    assert(was.order[i] != was.order[j]);
                }
            }
            assert(full.order.no_duplicates());
            assert(self@ == full);
        }
        if self.order.len() > CAPACITY {
            let oldest = self.order.remove(0);
            proof {
                assert(ids(self.order@) =~= full.order.skip(1));
                assert(oldest.thumb_id() == full.order[0]);
                assert(full.order.to_set().contains(full.order[0]));
            }
            let evicted = self.handles.remove(&oldest);
            self.requested.remove(&oldest);
            proof {
                lemma_skip_first(full.order);
                assert(self@.order.to_set() =~= self@.handles.dom());
            }
            return evicted;
        }
        None
    }

    /// From `keys`, those that are neither cached nor on their way, marking them as on
    /// their way so that each is extracted only once.
    pub fn take_unrequested(&mut self, keys: &[ThumbKey]) -> (r: Vec<ThumbKey>)
        requires
            old(self).wf(),
        ensures
            final(self).wf(),
            final(self)@ == old(self)@.asked(thumb_names(keys@)),
            final(self).handles == old(self).handles,
            final(self).order == old(self).order,
            thumb_names(r@) == newly_wanted(
                old(self)@.handles,
                old(self)@.requested,
                thumb_names(keys@),
            ),
    {
        let ghost cached = self.handles@;
        let ghost requested = self.requested@;
        let ghost all = thumb_names(keys@);
        let mut out: Vec<ThumbKey> = Vec::new();
        proof {
            assert(all.take(0) =~= seq![]);
            assert(thumb_names(out@) =~= seq![]);
            assert(after_request(cached, requested, Seq::<ThumbName>::empty()) =~= requested);
        }
        for i in 0..keys.len()
            invariant
                self.wf(),
                self.handles == old(self).handles,
                self.order == old(self).order,
                cached == self.handles@,
                all == thumb_names(keys@),
                thumb_names(out@) == newly_wanted(cached, requested, all.take(i as int)),
                self.requested@ == after_request(cached, requested, all.take(i as int)),
        {
            let ghost before = thumb_names(out@);
            proof {
                assert(all.take(i + 1).drop_last() =~= all.take(i as int));
                assert(all.take(i + 1).last() == keys@[i as int]@);
            }
            if !self.requested.contains(&keys[i]) && !self.handles.contains_key(&keys[i]) {
                self.requested.insert(keys[i].clone());
                out.push(keys[i].clone());
                proof {
                    let name = keys@[i as int]@;
                    assert(thumb_names(out@) =~= before.push(name));
                    lemma_idents_push(before, name);
                    assert(self.requested@ =~= requested.union(
                        idents(before.push(name)).to_set(),
                    ));
                }
            }
        }
        assert(all.take(all.len() as int) =~= all);
        out
    }

    /// Give up on `keys` that were asked for, so that they may be asked for again.
    pub fn release(&mut self, keys: &[ThumbKey])
        requires
            old(self).wf(),
        ensures
            final(self).wf(),
            final(self)@ == old(self)@.released(thumb_names(keys@)),
            final(self).handles == old(self).handles,
            final(self).order == old(self).order,
    {
        let ghost requested = self.requested@;
        let ghost all = thumb_names(keys@);
        proof {
            assert(requested.difference(idents(all.take(0)).to_set()) =~= requested);
        }
        for i in 0..keys.len()
            invariant
                self.wf(),
                self.handles == old(self).handles,
                self.order == old(self).order,
                all == thumb_names(keys@),
                self.requested@ == requested.difference(idents(all.take(i as int)).to_set()),
        {
            self.requested.remove(&keys[i]);
            proof {
                let name = keys@[i as int]@;
                assert(all.take(i + 1) =~= all.take(i as int).push(name));
                lemma_idents_push(all.take(i as int), name);
                assert(self.requested@ =~= requested.difference(
                    idents(all.take(i + 1)).to_set(),
                ));
            }
        }
        assert(all.take(all.len() as int) =~= all);
    }
}

proof fn lemma_skip_first<I>(s: Seq<I>)
    requires
        s.no_duplicates(),
        s.len() > 0,
    ensures
        s.skip(1).no_duplicates(),
        s.skip(1).to_set() == s.to_set().remove(s[0]),
{
    let t = s.skip(1);
    assert forall|x: I| t.to_set().contains(x) == s.to_set().remove(s[0]).contains(x) by {
        if t.contains(x) {
            let k = choose|k: int| 0 <= k < t.len() && t[k] == x;
            assert(s[k + 1] == x);
            assert(s[k + 1] != s[0]);
        } else if s.contains(x) && x != s[0] {
            let k = choose|k: int| 0 <= k < s.len() && s[k] == x;
            assert(t[k - 1] == x);
        }
    }
    assert(t.to_set() =~= s.to_set().remove(s[0]));
}

/// The outcome of a cache-only sweep: thumbnails that the shell had ready, and the keys
/// for which it had none.
#[derive(Debug)]
pub struct CacheSweep<H> {
    pub hits: Vec<(ThumbKey, H)>,
    pub misses: Vec<ThumbKey>,
}

/// The keys for which no image came back, in order.
pub open spec fn missed<K, H>(keys: Seq<K>, images: Seq<Option<H>>) -> Seq<K>
    decreases keys.len(),
{
    if keys.len() == 0 {
        seq![]
    } else {
        let before = missed(keys.drop_last(), images);
        match images[keys.len() - 1] {
            Some(_) => before,
            None => before.push(keys.last()),
        }
    }
}

/// Sort the answers of a cache-only sweep into hits and misses.
pub fn extract_cached<H: Copy>(keys: &Vec<ThumbKey>, images: &Vec<Option<H>>) -> (r: CacheSweep<H>)
    requires
        keys@.len() == images@.len(),
    ensures
        r.hits@ == paired(keys@, images@),
        r.misses@ == missed(keys@, images@),
{
    let mut hits: Vec<(ThumbKey, H)> = Vec::new();
    let mut misses: Vec<ThumbKey> = Vec::new();
    assert(keys@.take(0) =~= seq![]);
    for i in 0..keys.len()
        invariant
            keys@.len() == images@.len(),
            hits@ == paired(keys@.take(i as int), images@),
            misses@ == missed(keys@.take(i as int), images@),
    {
        assert(keys@.take(i + 1).drop_last() =~= keys@.take(i as int));
        match images[i] {
            Some(h) => {
                hits.push((keys[i].clone(), h));
            },
            None => {
                misses.push(keys[i].clone());
            },
        }
    }
    assert(keys@.take(keys@.len() as int) =~= keys@);
    CacheSweep { hits, misses }
}

/// Pair the extracted thumbnails with their keys, dropping the keys for which there was
/// none.
pub fn extract_full<H: Copy>(keys: &Vec<ThumbKey>, images: &Vec<Option<H>>) -> (r: Vec<
    (ThumbKey, H),
>)
    requires
        keys@.len() == images@.len(),
    ensures
        r@ == paired(keys@, images@),
{
    extract_cached(keys, images).hits
}

/// A sweep loses no key: each is a hit or a miss.
pub proof fn law_sweep_is_a_partition<K, H>(keys: Seq<K>, images: Seq<Option<H>>)
    requires
        keys.len() <= images.len(),
    ensures
        paired(keys, images).len() + missed(keys, images).len() == keys.len(),
    decreases keys.len(),
{
    if keys.len() > 0 {
        law_sweep_is_a_partition(keys.drop_last(), images);
    }
}

/// A thumbnail that just came in is there, and the cache stays within its bound.
pub proof fn law_inserted_thumbnail_is_cached<H>(s: Shelf<H>, id: ThumbId, handle: H)
    requires
        s.wf(),
    ensures
        s.inserted(id, handle).wf(),
        s.inserted(id, handle).handles.contains_key(id),
        s.inserted(id, handle).handles[id] == handle,
{
    let full = s.with(id, handle);
    if s.handles.contains_key(id) {
        assert(s.handles.dom().contains(id));
        assert(full.handles.dom() =~= s.handles.dom());
    } else {
        assert(!s.order.to_set().contains(id));
        lemma_set_of_push(s.order, id);
        assert(full.order.to_set() =~= full.handles.dom());
        assert forall|i: int, j: int|
            0 <= i < full.order.len() && 0 <= j < full.order.len() && i != j implies full.order[i]
            != full.order[j] by {
            if i == s.order.len() {
                assert(s.order.to_set().contains(s.order[j]));
            } else if j == s.order.len() {
                assert(s.order.to_set().contains(s.order[i]));
            } else {
                assert(s.order[i] != s.order[j]);
            }
        }
        assert(full.order.no_duplicates());
        if full.order.len() > CAPACITY {
            lemma_skip_first(full.order);
            assert(full.order[0] == s.order[0]);
            assert(s.order.to_set().contains(s.order[0]));
            assert(full.without_oldest().order.to_set() =~= full.without_oldest().handles.dom());
        }
    }
}

/// A thumbnail that left, and a key that was given up, may be asked for again, however it is
/// spelled.
pub proof fn law_given_up_keys_are_wanted_again<H>(s: Shelf<H>, key: ThumbName, other: ThumbName)
    requires
        s.wf(),
        other.id() == key.id(),
    ensures
        s.order.len() > 0 && s.order[0] == key.id() ==> newly_wanted(
            s.without_oldest().handles,
            s.without_oldest().requested,
            seq![key],
        ) == seq![key],
        !s.handles.contains_key(key.id()) ==> newly_wanted(
            s.released(seq![other]).handles,
            s.released(seq![other]).requested,
            seq![key],
        ) == seq![key],
{
    reveal_with_fuel(newly_wanted, 2);
    assert(seq![key][0] == key);
    assert(idents(seq![other])[0] == key.id());
    assert(idents(seq![other]).to_set().contains(key.id()));
    assert(seq![key].drop_last() =~= Seq::<ThumbName>::empty());
    assert(idents(Seq::<ThumbName>::empty()) =~= Seq::<ThumbId>::empty());
}

/// After a number of thumbnails came in, one by one.
pub open spec fn all_inserted<H>(s: Shelf<H>, items: Seq<(ThumbId, H)>) -> Shelf<H>
    decreases items.len(),
{
    if items.len() == 0 {
        s
    } else {
        all_inserted(s, items.drop_last()).inserted(items.last().0, items.last().1)
    }
}

/// Which of them were not there when they came, in order.
pub open spec fn arrivals<H>(s: Shelf<H>, items: Seq<(ThumbId, H)>) -> Seq<ThumbId>
    decreases items.len(),
{
    if items.len() == 0 {
        seq![]
    } else {
        let before = arrivals(s, items.drop_last());
        if all_inserted(s, items.drop_last()).handles.contains_key(items.last().0) {
            before
        } else {
            before.push(items.last().0)
        }
    }
}

/// The last `n` of a list, or all of it.
pub open spec fn last_of<I>(s: Seq<I>, n: int) -> Seq<I> {
    if s.len() <= n {
        s
    } else {
        s.skip(s.len() - n)
    }
}

/// Thumbnails leave in the order in which they arrived, however many come in: those that
/// arrived last are there, as many as the cache holds, and each with the image that came for
/// it last. To come in again while it is there does not make a thumbnail younger.
pub proof fn law_oldest_arrivals_leave_first<H>(s: Shelf<H>, items: Seq<(ThumbId, H)>)
    requires
        s.wf(),
    ensures
        all_inserted(s, items).wf(),
        all_inserted(s, items).order == last_of(
            s.order + arrivals(s, items),
            CAPACITY as int,
        ),
        forall|id: ThumbId|
            all_inserted(s, items).handles.contains_key(id)
                <==> #[trigger] last_of(s.order + arrivals(s, items), CAPACITY as int).contains(id),
        forall|k: int|
            0 <= k < items.len() && (forall|j: int| k < j < items.len() ==> items[j].0 != items[k].0)
                && all_inserted(s, items).handles.contains_key((#[trigger] items[k]).0)
                ==> all_inserted(s, items).handles[items[k].0] == items[k].1,
    decreases items.len(),
{
    let now = all_inserted(s, items);
    if items.len() == 0 {
        assert(s.order + arrivals(s, items) =~= s.order);
    } else {
        let rest = items.drop_last();
        let (id, handle) = items.last();
        let was = all_inserted(s, rest);
        law_oldest_arrivals_leave_first(s, rest);
        law_inserted_thumbnail_is_cached(was, id, handle);
        let before = s.order + arrivals(s, rest);
        if was.handles.contains_key(id) {
            assert(now.order == was.order);
        } else {
            assert(s.order + arrivals(s, items) =~= before.push(id));
            assert(now.order =~= last_of(before.push(id), CAPACITY as int));
        }
        assert forall|k: int|
            0 <= k < items.len() && (forall|j: int| k < j < items.len() ==> items[j].0
                != items[k].0) && now.handles.contains_key((#[trigger] items[k]).0) implies now.handles[items[k].0]
            == items[k].1 by {
            if k < rest.len() {
                assert(rest[k] == items[k]);
                assert(items[items.len() - 1].0 != items[k].0);
                assert(was.handles.contains_key(rest[k].0));
                assert forall|j: int| k < j < rest.len() implies rest[j].0 != rest[k].0 by {
                    assert(items[j].0 != items[k].0);
                }
            }
        }
    }
    assert forall|id: ThumbId| now.handles.contains_key(id)
        <==> #[trigger] last_of(s.order + arrivals(s, items), CAPACITY as int).contains(id) by {
        assert(now.order.to_set().contains(id) == now.handles.dom().contains(id));
    }
}

/// Thumbnails that are new and differ from one another arrive as they come.
pub proof fn law_new_thumbnails_arrive<H>(s: Shelf<H>, items: Seq<(ThumbId, H)>)
    requires
        s.wf(),
        forall|k: int| 0 <= k < items.len() ==> !s.handles.contains_key((#[trigger] items[k]).0),
        forall|j: int, k: int|
            0 <= j < k < items.len() ==> (#[trigger] items[j]).0 != (#[trigger] items[k]).0,
    ensures
        arrivals(s, items) == items.map_values(|x: (ThumbId, H)| x.0),
    decreases items.len(),
{
    if items.len() > 0 {
        let rest = items.drop_last();
        assert forall|k: int| 0 <= k < rest.len() implies !s.handles.contains_key(
            (#[trigger] rest[k]).0,
        ) by {
            assert(rest[k] == items[k]);
        }
        assert forall|j: int, k: int| 0 <= j < k < rest.len() implies (#[trigger] rest[j]).0 != (
        #[trigger] rest[k]).0 by {
            assert(items[j].0 != items[k].0);
        }
        law_new_thumbnails_arrive(s, rest);
        let id = items[items.len() - 1].0;
        if all_inserted(s, rest).handles.contains_key(id) {
            lemma_cached_came(s, rest, id);
            let k = choose|k: int| 0 <= k < rest.len() && (#[trigger] rest[k]).0 == id;
            assert(items[k].0 == id);
            assert(false);
        }
    }
    assert(arrivals(s, items) =~= items.map_values(|x: (ThumbId, H)| x.0));
}

/// What is there was there before, or came in.
proof fn lemma_cached_came<H>(s: Shelf<H>, items: Seq<(ThumbId, H)>, id: ThumbId)
    requires
        all_inserted(s, items).handles.contains_key(id),
    ensures
        s.handles.contains_key(id) || exists|k: int|
            0 <= k < items.len() && (#[trigger] items[k]).0 == id,
    decreases items.len(),
{
    if items.len() > 0 {
        let rest = items.drop_last();
        if items[items.len() - 1].0 != id {
            assert(all_inserted(s, rest).handles.contains_key(id));
            lemma_cached_came(s, rest, id);
            if !s.handles.contains_key(id) {
                let k = choose|k: int| 0 <= k < rest.len() && (#[trigger] rest[k]).0 == id;
                assert(items[k].0 == id);
            }
        }
    }
}

/// Two keys are for the same thumbnail exactly when they are for the same path, at the same
/// size, as of the same time: a changed file or another size is another thumbnail.
pub proof fn law_thumbnails_differ_by_path_size_and_time(a: ThumbName, b: ThumbName)
    ensures
        a.id() == b.id() <==> comps(a.path) == comps(b.path) && a.size == b.size && a.mtime
            == b.mtime,
{
}

/// The cache holds at most 512 thumbnails, and as many as ever arrived while those are no more.
pub proof fn law_cache_holds_512<H>(s: Shelf<H>, items: Seq<(ThumbId, H)>)
    requires
        s.wf(),
    ensures
        all_inserted(s, items).order.len() <= 512,
        s.order.len() + arrivals(s, items).len() <= 512 ==> all_inserted(s, items).order == s.order
            + arrivals(s, items),
        s.order.len() + arrivals(s, items).len() >= 512 ==> all_inserted(s, items).order.len()
            == 512,
{
    law_oldest_arrivals_leave_first(s, items);
}

/// A sweep sorts its answers in their order: a key with an image is a hit, and one without is a
/// miss.
pub proof fn law_sweep_sorts_its_answers<K, H>(keys: Seq<K>, images: Seq<Option<H>>, key: K)
    requires
        keys.len() < images.len(),
    ensures
        images[keys.len() as int] matches Some(h) ==> paired(keys.push(key), images) == paired(
            keys,
            images,
        ).push((key, h)) && missed(keys.push(key), images) == missed(keys, images),
        images[keys.len() as int] is None ==> paired(keys.push(key), images) == paired(
            keys,
            images,
        ) && missed(keys.push(key), images) == missed(keys, images).push(key),
        paired(Seq::<K>::empty(), images).len() == 0,
        missed(Seq::<K>::empty(), images).len() == 0,
{
    assert(keys.push(key).drop_last() =~= keys);
}

/// Keys that are asked for are on their way, and keys that are given up are not any more; what
/// is there and all other keys stay as they are.
pub proof fn law_asking_and_giving_up<H>(s: Shelf<H>, keys: Seq<ThumbName>, i: int)
    requires
        0 <= i < keys.len(),
    ensures
        s.asked(keys).requested.contains(keys[i].id()) || s.handles.contains_key(keys[i].id()),
        !s.released(keys).requested.contains(keys[i].id()),
        s.asked(keys).handles == s.handles && s.asked(keys).order == s.order,
        s.released(keys).handles == s.handles && s.released(keys).order == s.order,
        forall|id: ThumbId|
            #![trigger s.released(keys).requested.contains(id)]
            !idents(keys).contains(id) ==> (s.released(keys).requested.contains(id)
                <==> s.requested.contains(id)),
        forall|id: ThumbId|
            #![trigger s.asked(keys).requested.contains(id)]
            !idents(keys).contains(id) ==> (s.asked(keys).requested.contains(id)
                <==> s.requested.contains(id)),
{
    let needed = newly_wanted(s.handles, s.requested, keys);
    crate::icons::law_each_key_is_requested_once(s.handles, s.requested, keys);
    assert(keys[i].id() == idents(keys)[i]);
    assert(idents(keys).to_set().contains(idents(keys)[i]));
    if idents(needed).contains(keys[i].id()) {
        assert(idents(needed).to_set().contains(keys[i].id()));
    }
    assert forall|id: ThumbId|
        #![trigger s.asked(keys).requested.contains(id)]
        !idents(keys).contains(id) implies (s.asked(keys).requested.contains(id)
        <==> s.requested.contains(id)) by {
        if idents(needed).contains(id) {
            let k = choose|k: int| 0 <= k < idents(needed).len() && idents(needed)[k] == id;
            assert(keys.contains(needed[k]));
            let j = choose|j: int| 0 <= j < keys.len() && keys[j] == needed[k];
            assert(idents(keys)[j] == id);
        }
    }
}

} // verus!
