//! Small keyed collections over vectors: a map and a set whose keys are compared by
//! what they identify. Each key has a code, so that most comparisons are between numbers.

use vstd::prelude::*;

verus! {

/// Something that identifies an item. Two keys with the same identity are the same key.
pub trait Key: Sized {
    type Id;

    /// What the key identifies.
    spec fn id(&self) -> Self::Id;

    /// The code of an identity.
    spec fn code_of(id: Self::Id) -> int;

    /// The code of the key.
    fn code(&self) -> (r: u64)
        ensures
            r == Self::code_of(self.id()),
    ;

    /// Whether two keys identify the same item.
    fn same_key(&self, other: &Self) -> (r: bool)
        ensures
            r == (self.id() == other.id()),
    ;
}

/// A key as it is spelled; several spellings may identify the same item.
pub trait Spelled: Sized {
    type Id;

    /// What the spelling identifies.
    spec fn id(self) -> Self::Id;
}

/// What a list of spellings identifies.
pub open spec fn idents<N: Spelled>(s: Seq<N>) -> Seq<N::Id> {
    s.map_values(|n: N| n.id())
}

/// A code with a number mixed in.
pub open spec fn mixed(h: int, x: int) -> int {
    (h * 31 + x) % 1000000007
}

/// A code with a number mixed in.
pub fn mix(h: u64, x: u64) -> (r: u64)
    requires
        h <= 0xFFFF_FFFF,
        x <= 0xFFFF_FFFF,
    ensures
        r == mixed(h as int, x as int),
        r <= 0xFFFF_FFFF,
{
    (h * 31 + x) % 1000000007
}

/// The code of a text.
pub open spec fn text_code(s: Seq<char>) -> int
    decreases s.len(),
{
    if s.len() == 0 {
        7
    } else {
        mixed(text_code(s.drop_last()), s.last() as int)
    }
}

/// The code of a text.
pub fn chars_code(s: &Vec<char>) -> (r: u64)
    ensures
        r == text_code(s@),
        r <= 0xFFFF_FFFF,
{
    let mut h: u64 = 7;
    assert(s@.take(0) =~= seq![]);
    for i in 0..s.len()
        invariant
            h == text_code(s@.take(i as int)),
            h <= 0xFFFF_FFFF,
    {
        let c: char = s[i];
        proof {
            crate::wide::lemma_char_is_scalar(c);
            assert(s@.take(i + 1).drop_last() =~= s@.take(i as int));
        }
        h = mix(h, c as u64);
    }
    assert(s@.take(s@.len() as int) =~= s@);
    h
}

/// A map from keys to values, in insertion order.
pub struct KeyMap<K: Key, V> {
    pub entries: Vec<(K, V)>,
    /// The code of each key.
    pub codes: Vec<u64>,
}

/// Whether `codes` holds the code of each key of `s`.
pub open spec fn codes_match<K: Key>(s: Seq<K>, codes: Seq<u64>) -> bool {
    &&& codes.len() == s.len()
    &&& forall|i: int| 0 <= i < s.len() ==> #[trigger] codes[i] == K::code_of(s[i].id())
}

/// The keys of a list of entries.
pub open spec fn keys_of<K: Key, V>(s: Seq<(K, V)>) -> Seq<K> {
    s.map_values(|e: (K, V)| e.0)
}

/// Whether `s` has an entry for `id`.
pub open spec fn keyed<K: Key, V>(s: Seq<(K, V)>, id: K::Id) -> bool {
    exists|i: int| 0 <= i < s.len() && (#[trigger] s[i]).0.id() == id
}

/// The index of the entry for `id`.
pub open spec fn key_index<K: Key, V>(s: Seq<(K, V)>, id: K::Id) -> int {
    choose|i: int| 0 <= i < s.len() && (#[trigger] s[i]).0.id() == id
}

/// Whether no two entries have the same key.
pub open spec fn keys_differ<K: Key, V>(s: Seq<(K, V)>) -> bool {
    forall|i: int, j: int|
        0 <= i < j < s.len() ==> (#[trigger] s[i]).0.id() != (#[trigger] s[j]).0.id()
}

/// The map that a list of entries stands for.
pub open spec fn map_of<K: Key, V>(s: Seq<(K, V)>) -> Map<K::Id, V> {
    Map::new(|id: K::Id| keyed(s, id), |id: K::Id| s[key_index(s, id)].1)
}

impl<K: Key, V> View for KeyMap<K, V> {
    type V = Map<K::Id, V>;

    open spec fn view(&self) -> Map<K::Id, V> {
        map_of(self.entries@)
    }
}

/// What the map holds at the key of entry `i`.
pub proof fn lemma_map_at<K: Key, V>(s: Seq<(K, V)>, i: int)
    requires
        keys_differ(s),
        0 <= i < s.len(),
    ensures
        map_of(s).contains_key(s[i].0.id()),
        map_of(s)[s[i].0.id()] == s[i].1,
{
    let id = s[i].0.id();
    assert(keyed(s, id));
    let k = key_index(s, id);
    assert(0 <= k < s.len() && s[k].0.id() == id);
    if k < i {
        assert(s[k].0.id() != s[i].0.id());
    } else if i < k {
        assert(s[i].0.id() != s[k].0.id());
    }
}

/// Adding an entry under a new key adds it to the map.
proof fn lemma_map_push<K: Key, V>(s: Seq<(K, V)>, e: (K, V))
    requires
        keys_differ(s),
        !keyed(s, e.0.id()),
    ensures
        keys_differ(s.push(e)),
        map_of(s.push(e)) == map_of(s).insert(e.0.id(), e.1),
{
    let t = s.push(e);
    assert forall|i: int, j: int| 0 <= i < j < t.len() implies (#[trigger] t[i]).0.id() != (
    #[trigger] t[j]).0.id() by {
        if j == s.len() {
            assert(s[i].0.id() != e.0.id());
        }
    }
    let a = map_of(t);
    let b = map_of(s).insert(e.0.id(), e.1);
    assert forall|id: K::Id| a.contains_key(id) == b.contains_key(id) by {
        if keyed(s, id) {
            let i = key_index(s, id);
            assert(t[i].0.id() == id);
        }
        if id == e.0.id() {
            assert(t[s.len() as int].0.id() == id);
        }
        if keyed(t, id) && id != e.0.id() {
            let i = key_index(t, id);
            assert(s[i].0.id() == id);
        }
    }
    assert forall|id: K::Id| a.contains_key(id) implies a[id] == b[id] by {
        let i = key_index(t, id);
        assert(t[i].0.id() == id);
        lemma_map_at(t, i);
        if i < s.len() {
            assert(s[i].0.id() == id);
            lemma_map_at(s, i);
        }
    }
    assert(a =~= b);
}

/// Changing the value of an entry changes the map at its key.
proof fn lemma_map_update<K: Key, V>(s: Seq<(K, V)>, i: int, e: (K, V))
    requires
        keys_differ(s),
        0 <= i < s.len(),
        s[i].0.id() == e.0.id(),
    ensures
        keys_differ(s.update(i, e)),
        map_of(s.update(i, e)) == map_of(s).insert(e.0.id(), e.1),
{
    let t = s.update(i, e);
    assert forall|x: int, y: int| 0 <= x < y < t.len() implies (#[trigger] t[x]).0.id() != (
    #[trigger] t[y]).0.id() by {
        assert(s[x].0.id() != s[y].0.id());
    }
    let a = map_of(t);
    let b = map_of(s).insert(e.0.id(), e.1);
    assert forall|id: K::Id| a.contains_key(id) == b.contains_key(id) by {
        if keyed(s, id) {
            let k = key_index(s, id);
            assert(t[k].0.id() == id);
        }
        if keyed(t, id) {
            let k = key_index(t, id);
            assert(s[k].0.id() == id);
        }
        if id == e.0.id() {
            assert(t[i].0.id() == id);
        }
    }
    assert forall|id: K::Id| a.contains_key(id) implies a[id] == b[id] by {
        let k = key_index(t, id);
        assert(t[k].0.id() == id);
        lemma_map_at(t, k);
        if k == i {
        } else {
            assert(s[k].0.id() == id);
            lemma_map_at(s, k);
            if id == e.0.id() {
                if k < i {
                    assert(s[k].0.id() != s[i].0.id());
                } else {
                    assert(s[i].0.id() != s[k].0.id());
                }
            }
        }
    }
    assert(a =~= b);
}

/// Taking an entry out removes its key from the map.
proof fn lemma_map_remove<K: Key, V>(s: Seq<(K, V)>, i: int)
    requires
        keys_differ(s),
        0 <= i < s.len(),
    ensures
        keys_differ(s.remove(i)),
        map_of(s.remove(i)) == map_of(s).remove(s[i].0.id()),
{
    let t = s.remove(i);
    assert forall|x: int, y: int| 0 <= x < y < t.len() implies (#[trigger] t[x]).0.id() != (
    #[trigger] t[y]).0.id() by {
        let p = if x < i {
            x
        } else {
            x + 1
        };
        let q = if y < i {
            y
        } else {
            y + 1
        };
        assert(s[p].0.id() != s[q].0.id());
    }
    let gone = s[i].0.id();
    let a = map_of(t);
    let b = map_of(s).remove(gone);
    assert forall|id: K::Id| a.contains_key(id) == b.contains_key(id) by {
        if keyed(t, id) {
            let k = key_index(t, id);
            let p = if k < i {
                k
            } else {
                k + 1
            };
            assert(s[p].0.id() == id);
            if p < i {
                assert(s[p].0.id() != s[i].0.id());
            } else {
                assert(s[i].0.id() != s[p].0.id());
            }
        }
        if keyed(s, id) && id != gone {
            let k = key_index(s, id);
            if k < i {
                assert(t[k].0.id() == id);
            } else {
                assert(t[k - 1].0.id() == id);
            }
        }
    }
    assert forall|id: K::Id| a.contains_key(id) implies a[id] == b[id] by {
        let k = key_index(t, id);
        assert(t[k].0.id() == id);
        lemma_map_at(t, k);
        if k < i {
            lemma_map_at(s, k);
        } else {
            lemma_map_at(s, k + 1);
        }
    }
    assert(a =~= b);
}

/// Replacing an entry under its own key keeps the codes right.
proof fn lemma_codes_kept<K: Key, V>(s: Seq<(K, V)>, codes: Seq<u64>, i: int, e: (K, V))
    requires
        codes_match(keys_of(s), codes),
        0 <= i < s.len(),
        s[i].0.id() == e.0.id(),
    ensures
        codes_match(keys_of(s.update(i, e)), codes),
{
    let a = keys_of(s);
    let b = keys_of(s.update(i, e));
    assert forall|k: int| 0 <= k < b.len() implies #[trigger] codes[k] == K::code_of(
        b[k].id(),
    ) by {
        assert(codes[k] == K::code_of(a[k].id()));
    }
}

impl<K: Key, V> KeyMap<K, V> {
    /// No key occurs twice.
    pub open spec fn wf(&self) -> bool {
        keys_differ(self.entries@) && codes_match(keys_of(self.entries@), self.codes@)
    }

    /// An empty map.
    pub fn new() -> (r: KeyMap<K, V>)
        ensures
            r.wf(),
            r@ == Map::<K::Id, V>::empty(),
            r.entries@.len() == 0,
    {
        let r = KeyMap { entries: Vec::new(), codes: Vec::new() };
        assert(r@ =~= Map::<K::Id, V>::empty());
        r
    }

    /// How many keys the map has.
    pub fn len(&self) -> (r: usize)
        ensures
            r == self.entries@.len(),
    {
        self.entries.len()
    }

    /// The index of `key`, or the number of entries when it is absent.
    pub fn find(&self, key: &K) -> (r: usize)
        requires
            self.wf(),
        ensures
            r <= self.entries@.len(),
            r < self.entries@.len() ==> self.entries@[r as int].0.id() == key.id(),
            (r < self.entries@.len()) == self@.contains_key(key.id()),
            r < self.entries@.len() ==> self@[key.id()] == self.entries@[r as int].1,
    {
        let code: u64 = key.code();
        for i in 0..self.entries.len()
            invariant
                self.wf(),
                code == K::code_of(key.id()),
                forall|k: int| 0 <= k < i ==> (#[trigger] self.entries@[k]).0.id() != key.id(),
        {
            assert(self.codes@[i as int] == K::code_of(keys_of(self.entries@)[i as int].id()));
            if self.codes[i] == code && self.entries[i].0.same_key(key) {
                proof {
                    lemma_map_at(self.entries@, i as int);
                }
                return i;
            }
        }
        self.entries.len()
    }

    /// Whether the map has `key`.
    pub fn contains_key(&self, key: &K) -> (r: bool)
        requires
            self.wf(),
        ensures
            r == self@.contains_key(key.id()),
    {
        self.find(key) < self.entries.len()
    }

    /// The value at `key`.
    pub fn get(&self, key: &K) -> (r: Option<&V>)
        requires
            self.wf(),
        ensures
            match r {
                Some(v) => self@.contains_key(key.id()) && *v == self@[key.id()],
                None => !self@.contains_key(key.id()),
            },
    {
        let i: usize = self.find(key);
        if i < self.entries.len() {
            Some(&self.entries[i].1)
        } else {
            None
        }
    }

    /// Put `value` at `key`, giving back the value that it replaces.
    pub fn insert(&mut self, key: K, value: V) -> (r: Option<V>)
        requires
            old(self).wf(),
        ensures
            final(self).wf(),
            final(self)@ == old(self)@.insert(key.id(), value),
            match r {
                Some(v) => {
                    &&& old(self)@.contains_key(key.id())
                    &&& v == old(self)@[key.id()]
                    &&& final(self).entries@.len() == old(self).entries@.len()
                },
                None => {
                    &&& !old(self)@.contains_key(key.id())
                    &&& final(self).entries@ == old(self).entries@.push((key, value))
                },
            },
    {
        let i: usize = self.find(&key);
        let ghost was = self.entries@;
        if i < self.entries.len() {
            proof {
                lemma_map_update(was, i as int, (key, value));
            }
            let (_, displaced) = self.entries.remove(i);
            assert(self.entries@ =~= was.remove(i as int));
            self.entries.insert(i, (key, value));
            assert(self.entries@ =~= was.update(i as int, (key, value)));
            proof {
                lemma_codes_kept(was, self.codes@, i as int, (key, value));
            }
            Some(displaced)
        } else {
            proof {
                assert(!keyed(was, key.id()));
                lemma_map_push(was, (key, value));
            }
            let code: u64 = key.code();
            self.entries.push((key, value));
            self.codes.push(code);
            assert(keys_of(self.entries@) =~= keys_of(was).push(key));
            None
        }
    }

    /// Take `key` out, giving back its value.
    pub fn remove(&mut self, key: &K) -> (r: Option<V>)
        requires
            old(self).wf(),
        ensures
            final(self).wf(),
            final(self)@ == old(self)@.remove(key.id()),
            match r {
                Some(v) => {
                    &&& old(self)@.contains_key(key.id())
                    &&& v == old(self)@[key.id()]
                },
                None => !old(self)@.contains_key(key.id()),
            },
    {
        let i: usize = self.find(key);
        let ghost was = self.entries@;
        if i < self.entries.len() {
            proof {
                lemma_map_remove(was, i as int);
            }
            let (_, value) = self.entries.remove(i);
            let _ = self.codes.remove(i);
            assert(self.entries@ =~= was.remove(i as int));
            assert(keys_of(self.entries@) =~= keys_of(was).remove(i as int));
            Some(value)
        } else {
            assert(self@ =~= self@.remove(key.id()));
            None
        }
    }
}

/// A set of keys, in insertion order.
pub struct KeySet<K: Key> {
    pub keys: Vec<K>,
    /// The code of each key.
    pub codes: Vec<u64>,
}

/// The identities of a list of keys.
pub open spec fn ids<K: Key>(s: Seq<K>) -> Seq<K::Id> {
    s.map_values(|k: K| k.id())
}

impl<K: Key> View for KeySet<K> {
    type V = Set<K::Id>;

    open spec fn view(&self) -> Set<K::Id> {
        ids(self.keys@).to_set()
    }
}

impl<K: Key> KeySet<K> {
    /// No key occurs twice.
    pub open spec fn wf(&self) -> bool {
        ids(self.keys@).no_duplicates() && codes_match(self.keys@, self.codes@)
    }

    /// An empty set.
    pub fn new() -> (r: KeySet<K>)
        ensures
            r.wf(),
            r@ == Set::<K::Id>::empty(),
    {
        let r = KeySet { keys: Vec::new(), codes: Vec::new() };
        assert(r@ =~= Set::<K::Id>::empty());
        r
    }

    fn find(&self, key: &K) -> (r: usize)
        requires
            self.wf(),
        ensures
            r <= self.keys@.len(),
            r < self.keys@.len() ==> self.keys@[r as int].id() == key.id(),
            (r < self.keys@.len()) == self@.contains(key.id()),
    {
        let code: u64 = key.code();
        for i in 0..self.keys.len()
            invariant
                self.wf(),
                code == K::code_of(key.id()),
                forall|k: int| 0 <= k < i ==> (#[trigger] self.keys@[k]).id() != key.id(),
        {
            if self.codes[i] == code && self.keys[i].same_key(key) {
                proof {
                    assert(ids(self.keys@)[i as int] == key.id());
                }
                return i;
            }
        }
        proof {
            if self@.contains(key.id()) {
                let k = choose|k: int|
                    0 <= k < ids(self.keys@).len() && ids(self.keys@)[k] == key.id();
                assert(self.keys@[k].id() == key.id());
            }
        }
        self.keys.len()
    }

    /// Whether the set has `key`.
    pub fn contains(&self, key: &K) -> (r: bool)
        requires
            self.wf(),
        ensures
            r == self@.contains(key.id()),
    {
        self.find(key) < self.keys.len()
    }

    /// Put `key` in.
    pub fn insert(&mut self, key: K)
        requires
            old(self).wf(),
        ensures
            final(self).wf(),
            final(self)@ == old(self)@.insert(key.id()),
    {
        let ghost was = ids(self.keys@);
        if self.contains(&key) {
            assert(self@ =~= old(self)@.insert(key.id()));
            return;
        }
        let code: u64 = key.code();
        self.keys.push(key);
        self.codes.push(code);
        proof {
            let now = ids(self.keys@);
            assert(now =~= was.push(key.id()));
            assert forall|x: K::Id| now.to_set().contains(x) == was.to_set().insert(
                key.id(),
            ).contains(x) by {
                if x == key.id() {
                    assert(now[was.len() as int] == x);
                } else if was.contains(x) {
                    let k = choose|k: int| 0 <= k < was.len() && was[k] == x;
                    assert(now[k] == x);
                } else if now.contains(x) {
                    let k = choose|k: int| 0 <= k < now.len() && now[k] == x;
                    assert(was[k] == x);
                }
            }
            assert(now.no_duplicates()) by {
                assert forall|i: int, j: int|
                    0 <= i < now.len() && 0 <= j < now.len() && i != j implies now[i]
                    != now[j] by {
                    if i < was.len() && j < was.len() {
                        assert(was[i] != was[j]);
                    } else if i < was.len() {
                        assert(was.to_set().contains(was[i]));
                    } else {
                        assert(was.to_set().contains(was[j]));
                    }
                }
            }
            assert(self@ =~= old(self)@.insert(key.id()));
        }
    }

    /// Take `key` out.
    pub fn remove(&mut self, key: &K)
        requires
            old(self).wf(),
        ensures
            final(self).wf(),
            final(self)@ == old(self)@.remove(key.id()),
    {
        let ghost was = ids(self.keys@);
        let i: usize = self.find(key);
        if i < self.keys.len() {
            let _ = self.keys.remove(i);
            let _ = self.codes.remove(i);
            proof {
                let now = ids(self.keys@);
                assert(now =~= was.remove(i as int));
                assert(was[i as int] == key.id());
                assert forall|x: int, y: int|
                    0 <= x < now.len() && 0 <= y < now.len() && x != y implies now[x]
                    != now[y] by {
                    let p = if x < i {
                        x
                    } else {
                        x + 1
                    };
                    let q = if y < i {
                        y
                    } else {
                        y + 1
                    };
                    assert(was[p] != was[q]);
                }
                assert forall|x: K::Id| now.to_set().contains(x) == was.to_set().remove(
                    key.id(),
                ).contains(x) by {
                    if now.contains(x) {
                        let k = choose|k: int| 0 <= k < now.len() && now[k] == x;
                        let p = if k < i {
                            k
                        } else {
                            k + 1
                        };
                        assert(was[p] == x);
                        assert(was[p] != was[i as int]);
                    } else if was.contains(x) && x != key.id() {
                        let k = choose|k: int| 0 <= k < was.len() && was[k] == x;
                        if k < i {
                            assert(now[k] == x);
                        } else {
                            assert(now[k - 1] == x);
                        }
                    }
                }
                assert(self@ =~= old(self)@.remove(key.id()));
            }
        } else {
            assert(self@ =~= self@.remove(key.id()));
        }
    }
}

} // verus!
