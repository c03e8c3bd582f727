//! The icon cache.
//!
//! Icons are keyed coarsely so that they are cached and reused: every folder shares one
//! handle, every `.txt` shares one, and so on. What a handle is, the owner of the cache
//! decides.

use crate::assoc::{chars_code, idents, mix, mixed, text_code, Key, KeyMap, KeySet, Spelled};
use crate::path::{comps, comps_code, Comp, WinPath};
use crate::text::{str_eq, to_chars};
use vstd::prelude::*;

verus! {

/// What an icon represents. `Path` is used for things with a per-item icon;
/// `Folder` and `Ext` are generic and shared.
#[derive(Debug)]
pub enum IconKey {
    Folder,
    /// The shell's "This PC" icon.
    Computer,
    /// The shell's "Linux" icon, shared by the WSL group and every distribution.
    Wsl,
    Ext(String),
    Path(WinPath),
}

/// What an icon key identifies.
pub ghost enum IconId {
    Folder,
    Computer,
    Wsl,
    Ext(Seq<char>),
    Path(Seq<Comp>),
}

/// An icon key as plain values.
pub ghost enum IconName {
    Folder,
    Computer,
    Wsl,
    Ext(Seq<char>),
    Path(Seq<char>),
}

impl Spelled for IconName {
    type Id = IconId;

    /// Paths count by their components.
    open spec fn id(self) -> IconId {
        match self {
            IconName::Folder => IconId::Folder,
            IconName::Computer => IconId::Computer,
            IconName::Wsl => IconId::Wsl,
            IconName::Ext(e) => IconId::Ext(e),
            IconName::Path(p) => IconId::Path(comps(p)),
        }
    }
}

impl View for IconKey {
    type V = IconName;

    open spec fn view(&self) -> IconName {
        match self {
            IconKey::Folder => IconName::Folder,
            IconKey::Computer => IconName::Computer,
            IconKey::Wsl => IconName::Wsl,
            IconKey::Ext(e) => IconName::Ext(e@),
            IconKey::Path(p) => IconName::Path(p@),
        }
    }
}

/// The views of a list of keys.
pub open spec fn icon_names(s: Seq<IconKey>) -> Seq<IconName> {
    s.map_values(|k: IconKey| k@)
}

impl IconKey {
    /// What the key identifies; paths count by their components.
    pub open spec fn icon_id(&self) -> IconId {
        self@.id()
    }

    /// Whether two keys identify the same icon.
    pub fn same(&self, other: &IconKey) -> (r: bool)
        ensures
            r == (self.icon_id() == other.icon_id()),
    {
        match (self, other) {
            (IconKey::Folder, IconKey::Folder) => true,
            (IconKey::Computer, IconKey::Computer) => true,
            (IconKey::Wsl, IconKey::Wsl) => true,
            (IconKey::Ext(a), IconKey::Ext(b)) => str_eq(a, b),
            (IconKey::Path(a), IconKey::Path(b)) => a.same(b),
            _ => false,
        }
    }
}

impl Clone for IconKey {
    fn clone(&self) -> (r: IconKey)
        ensures
            r == *self,
    {
        match self {
            IconKey::Folder => IconKey::Folder,
            IconKey::Computer => IconKey::Computer,
            IconKey::Wsl => IconKey::Wsl,
            IconKey::Ext(e) => IconKey::Ext(e.clone()),
            IconKey::Path(p) => IconKey::Path(p.clone()),
        }
    }
}

impl Key for IconKey {
    type Id = IconId;

    open spec fn id(&self) -> IconId {
        self.icon_id()
    }

    open spec fn code_of(id: IconId) -> int {
        match id {
            IconId::Folder => 1,
            IconId::Computer => 2,
            IconId::Wsl => 3,
            IconId::Ext(e) => mixed(4, text_code(e)),
            IconId::Path(c) => mixed(5, comps_code(c)),
        }
    }

    fn code(&self) -> (r: u64) {
        match self {
            IconKey::Folder => 1,
            IconKey::Computer => 2,
            IconKey::Wsl => 3,
            IconKey::Ext(e) => mix(4, chars_code(&to_chars(e))),
            IconKey::Path(p) => mix(5, p.code()),
        }
    }

    fn same_key(&self, other: &IconKey) -> (r: bool) {
        self.same(other)
    }
}

impl vstd::std_specs::cmp::PartialEqSpecImpl for IconKey {
    open spec fn obeys_eq_spec() -> bool {
        true
    }

    open spec fn eq_spec(&self, other: &IconKey) -> bool {
        self.icon_id() == other.icon_id()
    }
}

impl PartialEq for IconKey {
    fn eq(&self, other: &IconKey) -> (r: bool) {
        self.same(other)
    }
}

impl Eq for IconKey {

}

/// Whether a key still has to be fetched: neither cached nor on its way.
pub open spec fn wanted<I, H>(cached: Map<I, H>, requested: Set<I>, id: I) -> bool {
    !requested.contains(id) && !cached.contains_key(id)
}

/// The keys of `s` that are wanted, each once, in order of first appearance and as they are
/// spelled there.
pub open spec fn newly_wanted<N: Spelled, H>(
    cached: Map<N::Id, H>,
    requested: Set<N::Id>,
    s: Seq<N>,
) -> Seq<N>
    decreases s.len(),
{
    if s.len() == 0 {
        seq![]
    } else {
        let before = newly_wanted(cached, requested, s.drop_last());
        if wanted(cached, requested, s.last().id()) && !idents(before).contains(s.last().id()) {
            before.push(s.last())
        } else {
            before
        }
    }
}

/// The keys that are on their way once those of `s` were asked for.
pub open spec fn after_request<N: Spelled, H>(
    cached: Map<N::Id, H>,
    requested: Set<N::Id>,
    s: Seq<N>,
) -> Set<N::Id> {
    requested.union(idents(newly_wanted(cached, requested, s)).to_set())
}

/// Icons that are there, and those that were asked for.
pub struct IconCache<H> {
    pub handles: KeyMap<IconKey, H>,
    pub requested: KeySet<IconKey>,
}

impl<H> IconCache<H> {
    /// No key occurs twice.
    pub open spec fn wf(&self) -> bool {
        self.handles.wf() && self.requested.wf()
    }

    /// An empty cache.
    pub fn new() -> (r: IconCache<H>)
        ensures
            r.wf(),
            r.handles@ == Map::<IconId, H>::empty(),
            r.requested@ == Set::<IconId>::empty(),
    {
        IconCache { handles: KeyMap::new(), requested: KeySet::new() }
    }

    /// The icon for `key`, if it is there.
    pub fn get(&self, key: &IconKey) -> (r: Option<&H>)
        requires
            self.wf(),
        ensures
            match r {
                Some(h) => self.handles@.contains_key(key.icon_id()) && *h
                    == self.handles@[key.icon_id()],
                None => !self.handles@.contains_key(key.icon_id()),
            },
    {
        self.handles.get(key)
    }

    /// Keep the icon for `key`.
    pub fn insert(&mut self, key: IconKey, handle: H)
        requires
            old(self).wf(),
        ensures
            final(self).wf(),
            final(self).handles@ == old(self).handles@.insert(key.icon_id(), handle),
            final(self).requested == old(self).requested,
    {
        let _ = self.handles.insert(key, handle);
    }

    /// From `keys`, those that are neither cached nor on their way, marking them as on
    /// their way so that each is extracted only once.
    pub fn take_unrequested(&mut self, keys: &[IconKey]) -> (r: Vec<IconKey>)
        requires
            old(self).wf(),
        ensures
            final(self).wf(),
            final(self).handles == old(self).handles,
            icon_names(r@) == newly_wanted(
                old(self).handles@,
                old(self).requested@,
                icon_names(keys@),
            ),
            final(self).requested@ == after_request(
                old(self).handles@,
                old(self).requested@,
                icon_names(keys@),
            ),
    {
        let ghost cached = self.handles@;
        let ghost requested = self.requested@;
        let ghost all = icon_names(keys@);
        let mut out: Vec<IconKey> = Vec::new();
        proof {
            assert(all.take(0) =~= seq![]);
            assert(icon_names(out@) =~= seq![]);
            assert(after_request(cached, requested, Seq::<IconName>::empty()) =~= requested);
        }
        for i in 0..keys.len()
            invariant
                self.wf(),
                self.handles == old(self).handles,
                cached == self.handles@,
                all == icon_names(keys@),
                icon_names(out@) == newly_wanted(cached, requested, all.take(i as int)),
                self.requested@ == after_request(cached, requested, all.take(i as int)),
        {
            let ghost before = icon_names(out@);
            proof {
                assert(all.take(i + 1).drop_last() =~= all.take(i as int));
                assert(all.take(i + 1).last() == keys@[i as int]@);
            }
            if !self.requested.contains(&keys[i]) && !self.handles.contains_key(&keys[i]) {
                self.requested.insert(keys[i].clone());
                out.push(keys[i].clone());
                proof {
                    let name = keys@[i as int]@;
                    assert(icon_names(out@) =~= before.push(name));
                    lemma_idents_push(before, name);
                    assert(self.requested@ =~= requested.union(
                        idents(before.push(name)).to_set(),
                    ));
                }
            }
        }
        assert(all.take(all.len() as int) =~= all);
        out
    }
}

/// The set of a sequence grows with what is pushed onto it.
pub proof fn lemma_set_of_push<I>(s: Seq<I>, x: I)
    ensures
        s.push(x).to_set() == s.to_set().insert(x),
{
    let t = s.push(x);
    assert forall|y: I| t.to_set().contains(y) == s.to_set().insert(x).contains(y) by {
        if y == x {
            assert(t[s.len() as int] == y);
        } else if s.contains(y) {
            let k = choose|k: int| 0 <= k < s.len() && s[k] == y;
            assert(t[k] == y);
        } else if t.contains(y) {
            let k = choose|k: int| 0 <= k < t.len() && t[k] == y;
            assert(s[k] == y);
        }
    }
    assert(t.to_set() =~= s.to_set().insert(x));
}

/// What a list of spellings identifies grows with what is pushed onto it.
pub proof fn lemma_idents_push<N: Spelled>(s: Seq<N>, n: N)
    ensures
        idents(s.push(n)) == idents(s).push(n.id()),
        idents(s.push(n)).to_set() == idents(s).to_set().insert(n.id()),
{
    assert(idents(s.push(n)) =~= idents(s).push(n.id()));
    lemma_set_of_push(idents(s), n.id());
}

/// The pairs of keys and images for which an image came back, in order.
pub open spec fn paired<K, H>(keys: Seq<K>, images: Seq<Option<H>>) -> Seq<(K, H)>
    decreases keys.len(),
{
    if keys.len() == 0 {
        seq![]
    } else {
        let before = paired(keys.drop_last(), images);
        match images[keys.len() - 1] {
            Some(h) => before.push((keys.last(), h)),
            None => before,
        }
    }
}

/// Pair the extracted icons with the keys they were extracted for, dropping the keys
/// for which there was none.
pub fn extract_icons<H: Copy>(keys: &Vec<IconKey>, images: &Vec<Option<H>>) -> (r: Vec<
    (IconKey, H),
>)
    requires
        keys@.len() == images@.len(),
    ensures
        r@ == paired(keys@, images@),
{
    let mut out: Vec<(IconKey, H)> = Vec::new();
    assert(keys@.take(0) =~= seq![]);
    for i in 0..keys.len()
        invariant
            keys@.len() == images@.len(),
            out@ == paired(keys@.take(i as int), images@),
    {
        assert(keys@.take(i + 1).drop_last() =~= keys@.take(i as int));
        if let Some(h) = images[i] {
            out.push((keys[i].clone(), h));
        }
    }
    assert(keys@.take(keys@.len() as int) =~= keys@);
    out
}

/// The file name whose generic icon stands for an extension.
pub open spec fn type_file_name(ext: Seq<char>) -> Seq<char> {
    if ext.len() == 0 {
        "file"@
    } else {
        "file."@ + ext
    }
}

/// The name to ask the shell about for the generic icon of an extension.
pub fn generic_file_name(ext: &str) -> (r: String)
    ensures
        r@ == type_file_name(ext@),
{
    if crate::text::to_chars(ext).len() == 0 {
        "file".to_string()
    } else {
        let mut s = "file.".to_string();
        s.append(ext);
        s
    }
}

/// Ask for an icon.
pub const SHGFI_ICON: u32 = 0x100;

/// Ask for a small icon; without it, a large one comes.
pub const SHGFI_SMALLICON: u32 = 0x1;

/// Go by the name and the given attributes, without looking at the disk.
pub const SHGFI_USEFILEATTRIBUTES: u32 = 0x10;

const FILE_ATTRIBUTE_DIRECTORY: u32 = 0x10;

const FILE_ATTRIBUTE_NORMAL: u32 = 0x80;

/// The flags of a request for an icon.
pub open spec fn flags_of(large: bool, use_attributes: bool) -> u32 {
    let size = if large {
        0u32
    } else {
        0x1u32
    };
    let source = if use_attributes {
        0x10u32
    } else {
        0u32
    };
    (0x100 + source + size) as u32
}

/// The flags of a request for an icon: its size, and whether it goes by the type alone.
pub fn icon_flags(large: bool, use_attributes: bool) -> (r: u32)
    ensures
        r == flags_of(large, use_attributes),
{
    let mut flags: u32 = SHGFI_ICON;
    if !large {
        flags += SHGFI_SMALLICON;
    }
    if use_attributes {
        flags += SHGFI_USEFILEATTRIBUTES;
    }
    flags
}

/// A request to the shell for an icon: a name, the attributes it is taken to have, and
/// flags.
#[derive(Debug)]
pub struct IconQuery {
    pub name: String,
    pub attributes: u32,
    pub flags: u32,
}

/// Whether `q` asks for the icon that `id` stands for. Folders and file types are asked by
/// type alone; a path is asked for its own icon. "This PC" and "Linux" have no name to ask
/// by.
pub open spec fn asks_for(q: Option<IconQuery>, id: IconKey, large: bool) -> bool {
    match id {
        IconKey::Folder => {
            &&& q is Some && q->0.name@ == "folder"@
            &&& q->0.attributes == 0x10 && q->0.flags == flags_of(large, true)
        },
        IconKey::Ext(ext) => {
            &&& q is Some && q->0.name@ == type_file_name(ext@)
            &&& q->0.attributes == 0x80 && q->0.flags == flags_of(large, true)
        },
        IconKey::Path(path) => {
            &&& q is Some && q->0.name@ == path@
            &&& q->0.attributes == 0x80 && q->0.flags == flags_of(large, false)
        },
        IconKey::Computer | IconKey::Wsl => q is None,
    }
}

/// What to ask the shell for an icon.
pub fn icon_query(key: &IconKey, large: bool) -> (r: Option<IconQuery>)
    ensures
        asks_for(r, *key, large),
{
    match key {
        IconKey::Folder => Some(
            IconQuery {
                name: "folder".to_string(),
                attributes: FILE_ATTRIBUTE_DIRECTORY,
                flags: icon_flags(large, true),
            },
        ),
        IconKey::Ext(ext) => Some(
            IconQuery {
                name: generic_file_name(ext),
                attributes: FILE_ATTRIBUTE_NORMAL,
                flags: icon_flags(large, true),
            },
        ),
        IconKey::Path(path) => Some(
            IconQuery {
                name: path.text.clone(),
                attributes: FILE_ATTRIBUTE_NORMAL,
                flags: icon_flags(large, false),
            },
        ),
        IconKey::Computer => None,
        IconKey::Wsl => None,
    }
}

/// Asking twice for the same keys yields nothing the second time: each icon is extracted
/// once. What is asked for is one of the keys, spelled as it is there; and every key that is
/// neither there nor on its way is asked for.
pub proof fn law_each_key_is_requested_once<N: Spelled, H>(
    cached: Map<N::Id, H>,
    requested: Set<N::Id>,
    s: Seq<N>,
)
    ensures
        newly_wanted(cached, after_request(cached, requested, s), s) == Seq::<N>::empty(),
        idents(newly_wanted(cached, requested, s)).no_duplicates(),
        forall|i: int|
            0 <= i < newly_wanted(cached, requested, s).len() ==> wanted(
                cached,
                requested,
                (#[trigger] newly_wanted(cached, requested, s)[i]).id(),
            ) && s.contains(newly_wanted(cached, requested, s)[i]),
        forall|i: int|
            0 <= i < s.len() ==> cached.contains_key((#[trigger] s[i]).id()) || requested.contains(
                s[i].id(),
            ) || idents(newly_wanted(cached, requested, s)).contains(s[i].id()),
{
    lemma_newly_wanted(cached, requested, s);
    assert forall|i: int| 0 <= i < s.len() implies idents(s).contains((#[trigger] s[i]).id()) by {
        assert(idents(s)[i] == s[i].id());
    }
    lemma_nothing_left(cached, requested, s, s);
}

proof fn lemma_newly_wanted<N: Spelled, H>(
    cached: Map<N::Id, H>,
    requested: Set<N::Id>,
    s: Seq<N>,
)
    ensures
        idents(newly_wanted(cached, requested, s)).no_duplicates(),
        forall|i: int|
            0 <= i < newly_wanted(cached, requested, s).len() ==> wanted(
                cached,
                requested,
                (#[trigger] newly_wanted(cached, requested, s)[i]).id(),
            ) && s.contains(newly_wanted(cached, requested, s)[i]),
        forall|i: int|
            0 <= i < s.len() && wanted(cached, requested, (#[trigger] s[i]).id()) ==> idents(
                newly_wanted(cached, requested, s),
            ).contains(s[i].id()),
    decreases s.len(),
{
    if s.len() > 0 {
        let t = s.drop_last();
        lemma_newly_wanted(cached, requested, t);
        let before = newly_wanted(cached, requested, t);
        let now = newly_wanted(cached, requested, s);
        assert(s[s.len() - 1] == s.last());
        lemma_idents_push(before, s.last());
        assert forall|i: int| 0 <= i < now.len() implies wanted(
            cached,
            requested,
            (#[trigger] now[i]).id(),
        ) && s.contains(now[i]) by {
            if i < before.len() {
                assert(now[i] == before[i]);
                assert(t.contains(before[i]));
                let k = choose|k: int| 0 <= k < t.len() && t[k] == before[i];
                assert(s[k] == now[i]);
            } else {
                assert(now[i] == s[s.len() - 1]);
            }
        }
        assert forall|i: int|
            0 <= i < s.len() && wanted(cached, requested, (#[trigger] s[i]).id()) implies idents(
            now,
        ).contains(s[i].id()) by {
            if i < t.len() {
                assert(t[i] == s[i]);
                assert(idents(before).contains(t[i].id()));
                let k = choose|k: int|
                    0 <= k < idents(before).len() && idents(before)[k] == t[i].id();
                assert(idents(now)[k] == s[i].id());
            } else if idents(before).contains(s.last().id()) {
                assert(now == before);
            } else {
                assert(idents(now)[before.len() as int] == s[i].id());
            }
        }
    }
}

proof fn lemma_nothing_left<N: Spelled, H>(
    cached: Map<N::Id, H>,
    requested: Set<N::Id>,
    s: Seq<N>,
    t: Seq<N>,
)
    requires
        forall|i: int| 0 <= i < t.len() ==> idents(s).contains((#[trigger] t[i]).id()),
    ensures
        newly_wanted(cached, after_request(cached, requested, s), t) == Seq::<N>::empty(),
    decreases t.len(),
{
    if t.len() > 0 {
        let u = t.drop_last();
        assert forall|i: int| 0 <= i < u.len() implies idents(s).contains((#[trigger] u[i]).id()) by {
            assert(u[i] == t[i]);
        }
        lemma_nothing_left(cached, requested, s, u);
        lemma_newly_wanted(cached, requested, s);
        let x = t.last().id();
        assert(idents(s).contains(t[t.len() - 1].id()));
        let k = choose|k: int| 0 <= k < idents(s).len() && idents(s)[k] == x;
        if wanted(cached, requested, x) {
            assert(wanted(cached, requested, s[k].id()));
            assert(idents(newly_wanted(cached, requested, s)).to_set().contains(x));
        }
    }
}

/// Icons are shared as far as they look alike: all folders have one, all files of a type have
/// one, and a path of its own has its own.
pub proof fn law_icons_are_shared_by_kind(a: IconName, b: IconName)
    ensures
        a.id() == b.id() <==> match (a, b) {
            (IconName::Folder, IconName::Folder) => true,
            (IconName::Computer, IconName::Computer) => true,
            (IconName::Wsl, IconName::Wsl) => true,
            (IconName::Ext(x), IconName::Ext(y)) => x == y,
            (IconName::Path(x), IconName::Path(y)) => comps(x) == comps(y),
            _ => false,
        },
{
}

/// The shell is asked for what a key stands for: folders and file types by their type alone,
/// whatever is on the disk, and a path for itself. The two landing pages cannot be asked for.
pub proof fn law_shell_is_asked_for_the_key(q: Option<IconQuery>, key: IconKey, large: bool)
    requires
        asks_for(q, key, large),
    ensures
        q is None <==> (key is Computer || key is Wsl),
        key is Folder ==> q->0.name@ == "folder"@ && q->0.attributes == 0x10,
        key matches IconKey::Ext(e) ==> q->0.attributes == 0x80 && (if e@.len() == 0 {
            q->0.name@ == "file"@
        } else {
            q->0.name@ == "file."@ + e@
        }),
        key matches IconKey::Path(p) ==> q->0.name@ == p@,
        q matches Some(x) ==> {
            let small: u32 = if large {
                0
            } else {
                1
            };
            let by_type: u32 = if key is Path {
                0
            } else {
                0x10
            };
            x.flags == 0x100 + by_type + small
        },
{
}

/// What is asked for comes in the order in which it is first wanted.
pub proof fn law_wanted_keys_keep_their_order<N: Spelled, H>(
    cached: Map<N::Id, H>,
    requested: Set<N::Id>,
    s: Seq<N>,
    n: N,
)
    ensures
        ({
            let before = newly_wanted(cached, requested, s);
            let now = newly_wanted(cached, requested, s.push(n));
            if cached.contains_key(n.id()) || requested.contains(n.id()) || idents(
                before,
            ).contains(n.id()) {
                now == before
            } else {
                now == before.push(n)
            }
        }),
        newly_wanted(cached, requested, Seq::<N>::empty()).len() == 0,
{
    assert(s.push(n).drop_last() =~= s);
}

} // verus!
