//! Core domain types: filesystem entries, locations and their attributes.

use crate::path::{comps, head, lead, name_text, parent_text, pieces, Tag, WinPath};
use crate::text::{
    ascii_lower_all, ascii_lower_chars, eq_ignore_case, from_chars, last_of, same_ignoring_case,
    split_at_last, to_chars, trim, trim_chars,
};
use vstd::prelude::*;

verus! {

const FILE_ATTRIBUTE_READONLY: u32 = 0x0000_0001;

const FILE_ATTRIBUTE_HIDDEN: u32 = 0x0000_0002;

const FILE_ATTRIBUTE_SYSTEM: u32 = 0x0000_0004;

const FILE_ATTRIBUTE_REPARSE_POINT: u32 = 0x0000_0400;

/// Whether an entry is a directory or a regular file.
#[derive(Debug, Clone, Copy, PartialEq, Eq, Structural)]
pub enum EntryKind {
    Directory,
    File,
}

/// Display-relevant Windows file attributes, decoded from the raw bitmask.
#[derive(Debug, Clone, Copy, PartialEq, Eq, Structural)]
pub struct Attributes {
    pub hidden: bool,
    pub system: bool,
    pub readonly: bool,
    /// Reparse point: a symlink, junction or cloud placeholder.
    pub reparse: bool,
}

impl Default for Attributes {
    fn default() -> (r: Attributes)
        ensures
            r == (Attributes { hidden: false, system: false, readonly: false, reparse: false }),
    {
        Attributes { hidden: false, system: false, readonly: false, reparse: false }
    }
}

impl Attributes {
    /// Decode the raw attribute bitmask.
    pub fn from_raw(bits: u32) -> (r: Attributes)
        ensures
            r.hidden == (bits & 0x2 != 0),
            r.system == (bits & 0x4 != 0),
            r.readonly == (bits & 0x1 != 0),
            r.reparse == (bits & 0x400 != 0),
    {
        Attributes {
            hidden: bits & FILE_ATTRIBUTE_HIDDEN != 0,
            system: bits & FILE_ATTRIBUTE_SYSTEM != 0,
            readonly: bits & FILE_ATTRIBUTE_READONLY != 0,
            reparse: bits & FILE_ATTRIBUTE_REPARSE_POINT != 0,
        }
    }
}

/// A single item in a directory listing. Times are in units of 100 nanoseconds
/// since the Unix epoch.
#[derive(Debug)]
pub struct Entry {
    /// File name only (no parent path).
    pub name: String,
    pub path: WinPath,
    pub kind: EntryKind,
    /// Size in bytes; `0` for directories.
    pub size: u64,
    pub modified: Option<i64>,
    pub created: Option<i64>,
    pub attrs: Attributes,
}

impl Clone for Entry {
    fn clone(&self) -> (r: Entry)
        ensures
            r == *self,
    {
        Entry {
            name: self.name.clone(),
            path: self.path.clone(),
            kind: self.kind,
            size: self.size,
            modified: self.modified,
            created: self.created,
            attrs: self.attrs,
        }
    }
}

/// The extension of a file name: what follows its last dot, unless that dot is
/// the first character or the name is `..`; empty when there is none.
pub open spec fn name_extension(name: Seq<char>) -> Seq<char> {
    let i = last_of(name, '.');
    if i > 0 {
        name.skip(i + 1)
    } else {
        seq![]
    }
}

/// The lowercase extension of a path's last component, without the dot.
pub open spec fn path_extension(t: Seq<char>) -> Seq<char> {
    match name_text(t) {
        Some(name) => ascii_lower_all(name_extension(name)),
        None => seq![],
    }
}

/// The lowercase extension of `path` without the dot, or `""` for none and for
/// dotfiles.
pub fn extension_of(path: &WinPath) -> (r: String)
    ensures
        r@ == path_extension(path@),
{
    match path.file_name() {
        Some(name) => {
            let chars = to_chars(&name);
            match split_at_last(&chars, '.') {
                Some((before, after)) => {
                    if before.len() > 0 {
                        from_chars(&ascii_lower_chars(&after))
                    } else {
                        proof {
                            assert(last_of(name@, '.') == 0) by {
                                assert(before@.len() == 0);
                                lemma_last_of_bound(name@, '.');
                            }
                            assert(path_extension(path@) =~= Seq::<char>::empty());
                        }
                        String::new()
                    }
                },
                None => {
                    assert(path_extension(path@) =~= Seq::<char>::empty());
                    String::new()
                },
            }
        },
        None => String::new(),
    }
}

proof fn lemma_last_of_bound(s: Seq<char>, c: char)
    ensures
        -1 <= last_of(s, c) < s.len(),
    decreases s.len(),
{
    if s.len() > 0 {
        lemma_last_of_bound(s.drop_last(), c);
    }
}

impl Entry {
    /// Whether the entry is a directory.
    pub fn is_dir(&self) -> (r: bool)
        ensures
            r == (self.kind == EntryKind::Directory),
    {
        match self.kind {
            EntryKind::Directory => true,
            EntryKind::File => false,
        }
    }

    /// The entry's extension as a text.
    pub open spec fn ext(&self) -> Seq<char> {
        if self.kind == EntryKind::Directory {
            seq![]
        } else {
            path_extension(self.name@)
        }
    }

    /// Lowercase extension without the dot, or `""` for none, dotfiles and
    /// directories.
    pub fn extension(&self) -> (r: String)
        ensures
            r@ == self.ext(),
    {
        if self.is_dir() {
            return String::new();
        }
        extension_of(&WinPath::new(&self.name))
    }
}

/// A browsable location. `ThisPc` and `Wsl` are the virtual roots: `ThisPc` holds
/// the drives, `Wsl` the installed Linux distributions. Everything reachable below
/// a real folder is a plain `Path`.
#[derive(Debug)]
pub enum Location {
    Path(WinPath),
    ThisPc,
    /// The "Linux" group: the landing list of WSL distributions.
    Wsl,
}

/// A location as plain values.
pub ghost enum Place {
    Path(Seq<char>),
    ThisPc,
    Wsl,
}

impl View for Location {
    type V = Place;

    open spec fn view(&self) -> Place {
        match self {
            Location::Path(p) => Place::Path(p@),
            Location::ThisPc => Place::ThisPc,
            Location::Wsl => Place::Wsl,
        }
    }
}

/// Whether two locations are the same place: paths are compared by components.
pub open spec fn same_place(a: Place, b: Place) -> bool {
    match (a, b) {
        (Place::Path(s), Place::Path(t)) => comps(s) == comps(t),
        (Place::ThisPc, Place::ThisPc) => true,
        (Place::Wsl, Place::Wsl) => true,
        _ => false,
    }
}

impl vstd::std_specs::cmp::PartialEqSpecImpl for Location {
    open spec fn obeys_eq_spec() -> bool {
        true
    }

    open spec fn eq_spec(&self, other: &Location) -> bool {
        same_place(self@, other@)
    }
}

impl PartialEq for Location {
    fn eq(&self, other: &Location) -> (r: bool) {
        match (self, other) {
            (Location::Path(a), Location::Path(b)) => a.same(b),
            (Location::ThisPc, Location::ThisPc) => true,
            (Location::Wsl, Location::Wsl) => true,
            _ => false,
        }
    }
}

impl Eq for Location {

}

impl Clone for Location {
    fn clone(&self) -> (r: Location)
        ensures
            r == *self,
    {
        match self {
            Location::Path(p) => Location::Path(p.clone()),
            Location::ThisPc => Location::ThisPc,
            Location::Wsl => Location::Wsl,
        }
    }
}

/// What the address bar and the window title call a place.
pub open spec fn place_label(p: Place) -> Seq<char> {
    match p {
        Place::ThisPc => "This PC"@,
        Place::Wsl => "Linux"@,
        Place::Path(t) => match name_text(t) {
            Some(name) => name,
            None => t,
        },
    }
}

/// The place that address-bar input names.
pub open spec fn parse_place(input: Seq<char>) -> Place {
    let t = trim(input);
    if t.len() == 0 || same_ignoring_case(t, "This PC"@) {
        Place::ThisPc
    } else if same_ignoring_case(t, "Linux"@) || same_ignoring_case(t, "WSL"@) {
        Place::Wsl
    } else {
        Place::Path(t)
    }
}

/// Whether `host` is a server name under which WSL shares its distributions.
pub open spec fn wsl_host(host: Seq<char>) -> bool {
    same_ignoring_case(host, "wsl.localhost"@) || same_ignoring_case(host, "wsl$"@)
}

/// Whether a path is the root of a WSL distribution: `\\wsl.localhost\<name>` or
/// `\\wsl$\<name>` with nothing below the share.
pub open spec fn wsl_root(t: Seq<char>) -> bool {
    let c = comps(t);
    &&& c.len() == 2
    &&& c[0].tag == Tag::Unc
    &&& wsl_host(c[0].a)
    &&& c[1].tag == Tag::Root
}

/// The place that "Up" leads to.
pub open spec fn parent_place(p: Place) -> Option<Place> {
    match p {
        Place::ThisPc => None,
        Place::Wsl => None,
        Place::Path(t) => if wsl_root(t) {
            Some(Place::Wsl)
        } else if parent_text(t) is Some && parent_text(t)->0.len() > 0 {
            Some(Place::Path(parent_text(t)->0))
        } else {
            Some(Place::ThisPc)
        },
    }
}

/// Whether `host` is one of the WSL server names.
pub fn is_wsl_host(host: &str) -> (r: bool)
    ensures
        r == wsl_host(host@),
{
    let chars = to_chars(host);
    eq_ignore_case(&chars, "wsl.localhost") || eq_ignore_case(&chars, "wsl$")
}

/// Whether `p` is the root of a WSL distribution.
pub fn is_wsl_root_path(p: &WinPath) -> (r: bool)
    ensures
        r == wsl_root(p@),
{
    let c = p.components();
    let ghost v = comps(p@);
    assert(v.len() == c@.len());
    if c.len() != 2 {
        return false;
    }
    assert(v[0] == c@[0]@ && v[1] == c@[1]@);
    if c[0].tag != Tag::Unc || c[1].tag != Tag::Root {
        return false;
    }
    is_wsl_host(&from_chars(&c[0].a))
}

impl Location {
    /// Short label for the address bar and the window title.
    pub fn label(&self) -> (r: String)
        ensures
            r@ == place_label(self@),
    {
        match self {
            Location::ThisPc => "This PC".to_string(),
            Location::Wsl => "Linux".to_string(),
            Location::Path(p) => match p.file_name() {
                Some(name) => name,
                None => p.text.clone(),
            },
        }
    }

    /// The real filesystem path, if this location maps to one.
    pub fn as_path(&self) -> (r: Option<&WinPath>)
        ensures
            match r {
                Some(p) => *self == Location::Path(*p),
                None => !(self is Path),
            },
    {
        match self {
            Location::Path(p) => Some(p),
            Location::ThisPc => None,
            Location::Wsl => None,
        }
    }

    /// Parse user input from the address bar into a location.
    pub fn parse(input: &str) -> (r: Location)
        ensures
            r@ == parse_place(input@),
    {
        let trimmed = trim_chars(&to_chars(input));
        if trimmed.len() == 0 || eq_ignore_case(&trimmed, "This PC") {
            Location::ThisPc
        } else if eq_ignore_case(&trimmed, "Linux") || eq_ignore_case(&trimmed, "WSL") {
            Location::Wsl
        } else {
            Location::Path(WinPath::from_chars(&trimmed))
        }
    }

    /// The parent location, used by the "Up" command. The parent of a drive root
    /// (or of any path with no parent) is `ThisPc`; the parent of a distribution
    /// root is the `Wsl` group.
    pub fn parent(&self) -> (r: Option<Location>)
        ensures
            match r {
                Some(l) => parent_place(self@) == Some(l@),
                None => parent_place(self@) is None,
            },
    {
        match self {
            Location::ThisPc => None,
            Location::Wsl => None,
            Location::Path(p) => {
                if is_wsl_root_path(p) {
                    return Some(Location::Wsl);
                }
                match p.parent() {
                    Some(parent) => {
                        if to_chars(&parent.text).len() == 0 {
                            Some(Location::ThisPc)
                        } else {
                            Some(Location::Path(parent))
                        }
                    },
                    None => Some(Location::ThisPc),
                }
            },
        }
    }
}

/// How many "Up" steps can still be taken at most.
pub open spec fn up_bound(p: Place) -> nat {
    match p {
        Place::Path(t) => t.len() + 1,
        _ => 0,
    }
}

/// Going up always comes to an end: only a virtual root has no parent, and every
/// other location's parent is strictly closer to one.
pub proof fn law_going_up_ends(p: Place)
    ensures
        parent_place(p) is None <==> (p is ThisPc || p is Wsl),
        parent_place(p) is Some ==> up_bound(parent_place(p)->0) < up_bound(p),
{
    if p is Path && parent_text(p->Path_0) is Some {
        crate::path::law_parent_is_shorter(p->Path_0);
    }
}

/// Whether a path lies inside a WSL distribution: on a share of one of its servers.
pub open spec fn in_distro(t: Seq<char>) -> bool {
    let c = comps(t);
    c.len() > 0 && c[0].tag == Tag::Unc && wsl_host(c[0].a)
}

/// Where going up as often as possible ends.
pub open spec fn top_of(p: Place) -> Place
    decreases up_bound(p),
{
    match parent_place(p) {
        Some(q) => {
            proof {
                law_going_up_ends(p);
            }
            top_of(q)
        },
        None => p,
    }
}

/// Going up ends at "Linux" for "Linux" itself and for paths inside a distribution, and at
/// "This PC" from everywhere else.
pub proof fn law_going_up_leads_to_a_root(p: Place)
    ensures
        top_of(p) == (if p is Wsl || (p matches Place::Path(t) && in_distro(t)) {
            Place::Wsl
        } else {
            Place::ThisPc
        }),
    decreases up_bound(p),
{
    law_going_up_ends(p);
    if let Place::Path(t) = p {
        lemma_prefix_decides(t);
        let parent = parent_place(p)->0;
        if let Place::Path(u) = parent {
            lemma_parent_in_distro(t);
        } else if !wsl_root(t) && in_distro(t) {
            lemma_parent_in_distro(t);
            lemma_prefix_decides(parent_text(t)->0);
        }
        law_going_up_leads_to_a_root(parent);
    }
}

/// Whether a path lies inside a distribution is decided by its prefix.
proof fn lemma_prefix_decides(t: Seq<char>)
    ensures
        in_distro(t) == (head(t).prefix matches Some(c) && c.tag == Tag::Unc && wsl_host(c.a)),
        in_distro(t) ==> t.len() >= head(t).len >= 5 && (wsl_root(t) == (pieces(t).len() == 0)),
{
    let p = pieces(t);
    if t.len() >= 2 {
        crate::path::lemma_next_sep(t, 2, false);
        crate::path::lemma_next_sep(
            t,
            crate::path::after(t, crate::path::next_sep(t, 2, false)),
            false,
        );
    }
    if head(t).prefix is Some {
        assert(comps(t)[0] == head(t).prefix->0);
        if head(t).prefix->0.tag == Tag::Unc {
            assert(comps(t)[1].tag == Tag::Root);
            assert(comps(t).len() == 2 + p.len());
        }
    } else if comps(t).len() > 0 && lead(t).len() == 0 {
        assert(comps(t)[0] == crate::path::piece(t, p[0]));
    }
}

/// The parent of a path lies inside a distribution exactly when the path does.
proof fn lemma_parent_in_distro(t: Seq<char>)
    requires
        !wsl_root(t),
    ensures
        in_distro(t) ==> parent_text(t) is Some,
        parent_text(t) matches Some(u) ==> in_distro(u) == in_distro(t),
        in_distro(t) ==> parent_text(t)->0.len() > 0,
{
    let p = pieces(t);
    lemma_prefix_decides(t);
    crate::path::lemma_body_start(t);
    crate::path::lemma_ranges_inside(
        t,
        crate::path::body_start(t),
        crate::path::is_verbatim(t),
    );
    if let Some(u) = parent_text(t) {
        lemma_prefix_decides(u);
        let e: int = if p.len() >= 2 {
            p[p.len() - 2].1
        } else if p.len() == 1 {
            crate::path::body_start(t)
        } else {
            0
        };
        assert(u == t.take(e));
        lemma_share_survives(t, e);
    }
}

/// Cutting a path short behind its prefix neither makes nor unmakes a share.
proof fn lemma_share_survives(t: Seq<char>, e: int)
    requires
        head(t).len <= e <= t.len(),
    ensures
        ({
            let (a, b) = (head(t).prefix, head(t.take(e)).prefix);
            &&& (a matches Some(c) && c.tag == Tag::Unc) == (b matches Some(c) && c.tag
                == Tag::Unc)
            &&& (a matches Some(c) && c.tag == Tag::Unc) ==> a->0.a == b->0.a
        }),
{
    let u = t.take(e);
    if t.len() >= 2 {
        let i = crate::path::next_sep(t, 2, false);
        let s = crate::path::after(t, i);
        crate::path::lemma_next_sep(t, 2, false);
        crate::path::lemma_next_sep(t, s, false);
        if t.len() >= 4 {
            crate::path::lemma_next_sep(t, 4, false);
            crate::path::lemma_next_sep(t, 4, true);
        }
        if t.len() >= 8 {
            crate::path::lemma_next_sep(t, 8, true);
        }
        if e >= 2 {
            let k = crate::path::next_sep(u, 2, false);
            crate::path::lemma_next_sep(u, 2, false);
            crate::path::lemma_next_sep(u, crate::path::after(u, k), false);
            if k < e {
                assert(u[k] == t[k]);
                assert forall|m: int| 2 <= m < k implies !crate::path::separates(
                    #[trigger] t[m],
                    false,
                ) by {
                    assert(u[m] == t[m]);
                }
                lemma_first_sep(t, 2, k);
            }
            if i < e {
                assert(u[i] == t[i]);
                assert forall|m: int| 2 <= m < i implies !crate::path::separates(
                    #[trigger] u[m],
                    false,
                ) by {
                    assert(u[m] == t[m]);
                }
                lemma_first_sep(u, 2, i);
                assert(u.subrange(2, i) =~= t.subrange(2, i));
            }
        }
    }
}

/// The first separator is where there is one and none before it.
proof fn lemma_first_sep(t: Seq<char>, from: int, to: int)
    requires
        0 <= from <= to < t.len(),
        forall|m: int| from <= m < to ==> !crate::path::separates(#[trigger] t[m], false),
        crate::path::separates(t[to], false),
    ensures
        crate::path::next_sep(t, from, false) == to,
    decreases to - from,
{
    if from < to {
        lemma_first_sep(t, from + 1, to);
    }
}

/// Being the same place is an equivalence.
pub proof fn law_same_place_is_an_equivalence(a: Place, b: Place, c: Place)
    ensures
        same_place(a, b) && !(a is Path) ==> a == b,
        same_place(a, b) && a is Path ==> b is Path && comps(a->Path_0) == comps(b->Path_0),
        same_place(a, a),
        same_place(a, b) == same_place(b, a),
        same_place(a, b) && same_place(b, c) ==> same_place(a, c),
{
}

/// Up leads from a path below the root of a drive or a share to the path without its last
/// component; from the root of a distribution to "Linux"; and from any other such root to
/// "This PC".
pub proof fn law_up_is_one_component_up(t: Seq<char>)
    requires
        crate::path::is_rooted(t),
    ensures
        match parent_place(Place::Path(t)) {
            Some(Place::Path(u)) => {
                &&& crate::path::pieces(t).len() > 0
                &&& comps(u) == comps(t).drop_last()
            },
            Some(Place::Wsl) => {
                &&& crate::path::pieces(t).len() == 0
                &&& comps(t)[0].tag == Tag::Unc
                &&& wsl_host(comps(t)[0].a)
            },
            Some(Place::ThisPc) => {
                &&& crate::path::pieces(t).len() == 0
                &&& !(comps(t)[0].tag == Tag::Unc && wsl_host(comps(t)[0].a))
            },
            None => false,
        },
{
    let p = crate::path::pieces(t);
    crate::path::lemma_body_start(t);
    if p.len() > 0 {
        crate::path::law_parent_drops_the_last_component(t);
        assert(comps(t).len() == crate::path::lead(t).len() + p.len());
        assert(crate::path::lead(t).len() == 2);
        let u = parent_text(t)->0;
        if u.len() == 0 {
            assert(u =~= seq![]);
            assert(crate::path::head(u).prefix is None);
            assert(crate::path::pieces(u) =~= seq![]);
            assert(comps(u) =~= seq![]);
            assert(comps(t).drop_last().len() == 1 + p.len());
        }
    } else {
        assert(comps(t) =~= crate::path::lead(t));
        assert(comps(t)[0] == crate::path::head(t).prefix->0);
    }
}

/// A folder is called by its own name: the one it was joined by.
pub proof fn law_folder_is_called_by_its_name(t: Seq<char>, name: Seq<char>)
    requires
        crate::path::is_rooted(t),
        crate::path::plain_name(name),
    ensures
        place_label(Place::Path(crate::path::join_text(t, name))) == name,
{
    crate::path::law_joined_name_is_the_last_component(t, name);
}

/// What the address bar is read as: the landing page that it names in any case, "This PC" where
/// it is blank, and otherwise a path, as it is written without the white space around it.
pub proof fn law_address_is_read_as_written(input: Seq<char>)
    ensures
        ({
            let t = trim(input);
            let pc = t.len() == 0 || same_ignoring_case(t, "This PC"@);
            let linux = same_ignoring_case(t, "Linux"@) || same_ignoring_case(t, "WSL"@);
            &&& parse_place(input) is ThisPc <==> pc
            &&& parse_place(input) is Wsl <==> linux && !pc
            &&& !pc && !linux ==> parse_place(input) == Place::Path(t)
        }),
{
}

/// An extension is what stands behind the last dot of a name, in lowercase. A name without a
/// dot has none, nor has one whose only dot comes first.
pub proof fn law_extension_follows_the_last_dot(name: Seq<char>)
    ensures
        forall|i: int| 0 <= i < name_extension(name).len() ==> #[trigger] name_extension(name)[i]
            != '.',
        forall|i: int|
            1 <= i < name.len() && #[trigger] name[i] == '.' && !name.skip(i + 1).contains('.')
                ==> name_extension(name) == name.skip(i + 1),
        (forall|i: int| 1 <= i < name.len() ==> #[trigger] name[i] != '.') ==> name_extension(
            name,
        ).len() == 0,
        ascii_lower_all(name_extension(name)).len() == name_extension(name).len(),
{
    let k = last_of(name, '.');
    lemma_last_dot(name);
    assert forall|i: int|
        1 <= i < name.len() && #[trigger] name[i] == '.' && !name.skip(i + 1).contains('.') implies name_extension(
    name) == name.skip(i + 1) by {
        assert(k >= i);
        if k > i {
            assert(name.skip(i + 1)[k - i - 1] == '.');
            assert(name.skip(i + 1).contains('.'));
        }
    }
}

proof fn lemma_last_dot(s: Seq<char>)
    ensures
        -1 <= last_of(s, '.') < s.len(),
        last_of(s, '.') >= 0 ==> s[last_of(s, '.')] == '.',
        forall|i: int| last_of(s, '.') < i < s.len() ==> #[trigger] s[i] != '.',
    decreases s.len(),
{
    if s.len() > 0 && s.last() != '.' {
        let t = s.drop_last();
        lemma_last_dot(t);
        assert forall|i: int| last_of(s, '.') < i < s.len() implies #[trigger] s[i] != '.' by {
            if i < t.len() {
                assert(t[i] == s[i]);
            }
        }
        if last_of(t, '.') >= 0 {
            assert(t[last_of(t, '.')] == s[last_of(t, '.')]);
        }
    }
}

/// The type of a file is the extension of its name; folders have none.
pub proof fn law_entry_has_the_extension_of_its_name(e: Entry)
    ensures
        e.kind == EntryKind::Directory ==> e.ext().len() == 0,
        e.kind != EntryKind::Directory ==> e.ext() == (match name_text(e.name@) {
            Some(name) => ascii_lower_all(name_extension(name)),
            None => seq![],
        }),
{
}

} // verus!
