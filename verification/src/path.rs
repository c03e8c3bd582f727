//! Windows paths as text, taken apart into prefix, root and named pieces.
//!
//! A path is compared, shortened and matched by its components, never by its raw
//! text: `C:\Users`, `c:/Users/` and `C:\\Users\.` are the same path.

use crate::assoc::{chars_code, mix, mixed, text_code};
use crate::text::{ascii_lower, chars_eq, from_chars, sub_chars, to_chars};
use vstd::prelude::*;

verus! {

/// What a component of a path is.
#[derive(Debug, Clone, Copy, PartialEq, Eq, Structural)]
pub enum Tag {
    /// `\\?\name`
    Verbatim,
    /// `\\?\UNC\server\share`
    VerbatimUnc,
    /// `\\?\C:`
    VerbatimDisk,
    /// `\\.\device`
    Device,
    /// `\\server\share`
    Unc,
    /// `C:`
    Disk,
    /// The root directory.
    Root,
    /// `.`
    Current,
    /// `..`
    Parent,
    /// A file or folder name.
    Normal,
}

/// One component of a path. `a` is the name (of a server, for a share), and `b`
/// is the name of the share.
pub ghost struct Comp {
    pub tag: Tag,
    pub a: Seq<char>,
    pub b: Seq<char>,
}

/// How a path begins: its prefix, if it has one, and how many characters that is.
pub ghost struct Head {
    pub prefix: Option<Comp>,
    pub len: int,
}

/// Whether `c` separates components.
pub open spec fn is_sep(c: char) -> bool {
    c == '\\' || c == '/'
}

/// Whether `c` separates components of a path; in a verbatim path only the
/// backslash does.
pub open spec fn separates(c: char, verbatim: bool) -> bool {
    c == '\\' || (c == '/' && !verbatim)
}

/// Index of the first separator at or after `from`, or the end of the text.
pub open spec fn next_sep(t: Seq<char>, from: int, verbatim: bool) -> int
    decreases t.len() - from,
{
    if from >= t.len() || from < 0 || separates(t[from], verbatim) {
        from
    } else {
        next_sep(t, from + 1, verbatim)
    }
}

/// Whether `c` can name a drive.
pub open spec fn is_letter(c: char) -> bool {
    ('A' <= c <= 'Z') || ('a' <= c <= 'z')
}

/// Whether the path is verbatim: it begins with `\\?\`.
pub open spec fn is_verbatim(t: Seq<char>) -> bool {
    t.len() >= 4 && t[0] == '\\' && t[1] == '\\' && t[2] == '?' && t[3] == '\\'
}

/// Whether a verbatim path names a share: `\\?\UNC\`.
pub open spec fn is_verbatim_unc(t: Seq<char>) -> bool {
    t.len() >= 8 && t[4] == 'U' && t[5] == 'N' && t[6] == 'C' && is_sep(t[7])
}

/// Index at which the text after the separator at `i` begins.
pub open spec fn after(t: Seq<char>, i: int) -> int {
    if i < t.len() {
        i + 1
    } else {
        i
    }
}

/// The prefix of a path.
pub open spec fn head(t: Seq<char>) -> Head {
    let none = Head { prefix: None, len: 0 };
    let empty = Seq::<char>::empty();
    if is_verbatim(t) {
        if is_verbatim_unc(t) {
            let i = next_sep(t, 8, true);
            let s = after(t, i);
            let j = next_sep(t, s, true);
            Head {
                prefix: Some(
                    Comp { tag: Tag::VerbatimUnc, a: t.subrange(8, i), b: t.subrange(s, j) },
                ),
                len: if s < j {
                    j
                } else {
                    i
                },
            }
        } else if t.len() >= 6 && is_letter(t[4]) && t[5] == ':' && (t.len() == 6 || is_sep(t[6])) {
            Head {
                prefix: Some(
                    Comp { tag: Tag::VerbatimDisk, a: seq![ascii_lower(t[4])], b: empty },
                ),
                len: 6,
            }
        } else {
            let i = next_sep(t, 4, true);
            Head {
                prefix: Some(Comp { tag: Tag::Verbatim, a: t.subrange(4, i), b: empty }),
                len: i,
            }
        }
    } else if t.len() >= 2 && is_sep(t[0]) && is_sep(t[1]) {
        if t.len() >= 4 && t[2] == '.' && is_sep(t[3]) {
            let i = next_sep(t, 4, false);
            Head {
                prefix: Some(Comp { tag: Tag::Device, a: t.subrange(4, i), b: empty }),
                len: i,
            }
        } else {
            let i = next_sep(t, 2, false);
            let s = after(t, i);
            let j = next_sep(t, s, false);
            if 2 < i && s < j {
                Head {
                    prefix: Some(Comp { tag: Tag::Unc, a: t.subrange(2, i), b: t.subrange(s, j) }),
                    len: j,
                }
            } else {
                none
            }
        }
    } else if t.len() >= 2 && is_letter(t[0]) && t[1] == ':' {
        Head {
            prefix: Some(Comp { tag: Tag::Disk, a: seq![ascii_lower(t[0])], b: empty }),
            len: 2,
        }
    } else {
        none
    }
}

/// Whether a separator follows the prefix.
pub open spec fn has_root(t: Seq<char>) -> bool {
    head(t).len < t.len() && is_sep(t[head(t).len])
}

/// Whether the prefix names a root by itself: every one but a bare drive does.
pub open spec fn implies_root(t: Seq<char>) -> bool {
    head(t).prefix is Some && head(t).prefix->0.tag != Tag::Disk
}

/// Whether the text after the prefix starts with a `.` that stands for the
/// current directory.
pub open spec fn has_dot(t: Seq<char>) -> bool {
    let p = head(t).len;
    &&& !has_root(t)
    &&& !implies_root(t)
    &&& p < t.len()
    &&& t[p] == '.'
    &&& (p + 1 == t.len() || is_sep(t[p + 1]))
}

/// Where the named pieces of a path begin.
pub open spec fn body_start(t: Seq<char>) -> int {
    head(t).len + if has_root(t) || has_dot(t) {
        1int
    } else {
        0int
    }
}

/// The components that come before the named pieces.
pub open spec fn lead(t: Seq<char>) -> Seq<Comp> {
    let empty = Seq::<char>::empty();
    let prefix = match head(t).prefix {
        Some(c) => seq![c],
        None => seq![],
    };
    if has_root(t) || (implies_root(t) && !is_verbatim(t)) {
        prefix.push(Comp { tag: Tag::Root, a: empty, b: empty })
    } else if head(t).prefix is None && has_dot(t) {
        prefix.push(Comp { tag: Tag::Current, a: empty, b: empty })
    } else {
        prefix
    }
}

/// Whether the text from `i` to `j` is a component of its own.
pub open spec fn is_piece(t: Seq<char>, i: int, j: int, verbatim: bool) -> bool {
    i < j && (verbatim || !(j == i + 1 && t[i] == '.'))
}

/// The ranges of the named pieces from `i` on.
pub open spec fn ranges(t: Seq<char>, i: int, verbatim: bool) -> Seq<(int, int)>
    decreases t.len() + 1 - i,
    via ranges_decreases
{
    if i < 0 || i >= t.len() {
        seq![]
    } else {
        let j = next_sep(t, i, verbatim);
        let rest = ranges(t, j + 1, verbatim);
        if is_piece(t, i, j, verbatim) {
            seq![(i, j)] + rest
        } else {
            rest
        }
    }
}

#[via_fn]
proof fn ranges_decreases(t: Seq<char>, i: int, verbatim: bool) {
    if 0 <= i < t.len() {
        lemma_next_sep(t, i, verbatim);
    }
}

/// `next_sep` lies at a separator or at the end, with no separator before it.
pub proof fn lemma_next_sep(t: Seq<char>, from: int, verbatim: bool)
    requires
        0 <= from <= t.len(),
    ensures
        from <= next_sep(t, from, verbatim) <= t.len(),
        forall|k: int| from <= k < next_sep(t, from, verbatim) ==> !separates(#[trigger] t[k], verbatim),
        next_sep(t, from, verbatim) < t.len() ==> separates(
            t[next_sep(t, from, verbatim)],
            verbatim,
        ),
    decreases t.len() - from,
{
    if from < t.len() && !separates(t[from], verbatim) {
        lemma_next_sep(t, from + 1, verbatim);
    }
}

/// The component that stands at a range of the text.
pub open spec fn piece(t: Seq<char>, r: (int, int)) -> Comp {
    let s = t.subrange(r.0, r.1);
    let empty = Seq::<char>::empty();
    if s == seq!['.'] {
        Comp { tag: Tag::Current, a: empty, b: empty }
    } else if s == seq!['.', '.'] {
        Comp { tag: Tag::Parent, a: empty, b: empty }
    } else {
        Comp { tag: Tag::Normal, a: s, b: empty }
    }
}

/// The ranges of the named pieces of a path.
pub open spec fn pieces(t: Seq<char>) -> Seq<(int, int)> {
    ranges(t, body_start(t), is_verbatim(t))
}

/// The components of a path. Two paths are the same exactly when these agree.
pub open spec fn comps(t: Seq<char>) -> Seq<Comp> {
    lead(t) + pieces(t).map_values(|r: (int, int)| piece(t, r))
}

/// The path without its last named piece; `None` for a root, a bare prefix and
/// the empty path.
pub open spec fn parent_text(t: Seq<char>) -> Option<Seq<char>> {
    let p = pieces(t);
    if p.len() >= 2 {
        Some(t.take(p[p.len() - 2].1))
    } else if p.len() == 1 {
        Some(t.take(body_start(t)))
    } else if head(t).prefix is None && has_dot(t) {
        Some(t.take(0))
    } else {
        None
    }
}

/// The last component, where it is a name.
pub open spec fn name_text(t: Seq<char>) -> Option<Seq<char>> {
    let p = pieces(t);
    if p.len() > 0 && piece(t, p.last()).tag == Tag::Normal {
        Some(t.subrange(p.last().0, p.last().1))
    } else {
        None
    }
}

/// Whether the components of `base` are the first components of `t`.
pub open spec fn under(t: Seq<char>, base: Seq<char>) -> bool {
    comps(base).len() <= comps(t).len() && comps(t).take(comps(base).len() as int) == comps(base)
}

/// What is left of a path without its first `k` components.
pub open spec fn rest_text(t: Seq<char>, k: int) -> Seq<char> {
    let p = pieces(t);
    let in_head = k == 0 || (k == 1 && head(t).prefix is Some);
    let start = if k == 0 {
        0
    } else if in_head {
        head(t).len
    } else {
        p[k - lead(t).len()].0
    };
    if p.len() > 0 && k < comps(t).len() {
        t.subrange(start, p.last().1)
    } else if in_head {
        t.subrange(start, body_start(t))
    } else {
        seq![]
    }
}

/// The separator that joining a name to the path puts between the two.
pub open spec fn joint(t: Seq<char>) -> Seq<char> {
    if t.len() == 0 || is_sep(t.last()) || (head(t).prefix is Some && head(t).prefix->0.tag
        == Tag::Disk && head(t).len == t.len()) {
        seq![]
    } else {
        seq!['\\']
    }
}

/// The pieces of a verbatim path, each behind one backslash.
pub open spec fn respelled(t: Seq<char>, p: Seq<(int, int)>) -> Seq<char>
    decreases p.len(),
{
    if p.len() == 0 {
        seq![]
    } else {
        respelled(t, p.drop_last()) + seq!['\\'] + t.subrange(p.last().0, p.last().1)
    }
}

/// The path of the item called `name` in the folder `t`.
pub open spec fn join_text(t: Seq<char>, name: Seq<char>) -> Seq<char> {
    if is_verbatim(t) {
        t.take(head(t).len) + respelled(t, pieces(t)) + seq!['\\'] + name
    } else {
        t + joint(t) + name
    }
}

/// Whether `name` is a single file or folder name: not empty, no separator, no
/// drive, and neither `.` nor `..`.
pub open spec fn plain_name(name: Seq<char>) -> bool {
    &&& name.len() > 0
    &&& forall|i: int| 0 <= i < name.len() ==> !is_sep(#[trigger] name[i]) && name[i] != ':'
    &&& name != seq!['.']
    &&& name != seq!['.', '.']
}

/// An executable component.
#[derive(Debug)]
pub struct Part {
    pub tag: Tag,
    pub a: Vec<char>,
    pub b: Vec<char>,
}

impl View for Part {
    type V = Comp;

    open spec fn view(&self) -> Comp {
        Comp { tag: self.tag, a: self.a@, b: self.b@ }
    }
}

/// The views of a vector of components.
pub open spec fn parts(v: Seq<Part>) -> Seq<Comp> {
    v.map_values(|p: Part| p@)
}

/// The result of taking a path apart.
struct Split {
    prefix: Option<Part>,
    len: usize,
    root: bool,
    dot: bool,
    verbatim: bool,
    ranges: Vec<(usize, usize)>,
}

/// Executable ranges as mathematical ones.
spec fn spans(v: Seq<(usize, usize)>) -> Seq<(int, int)> {
    v.map_values(|r: (usize, usize)| (r.0 as int, r.1 as int))
}

/// What `Split` says of the text it was made from.
spec fn split_of(s: Split, t: Seq<char>) -> bool {
    &&& s.len == head(t).len
    &&& match s.prefix {
        Some(p) => head(t).prefix == Some(p@),
        None => head(t).prefix is None,
    }
    &&& s.root == has_root(t)
    &&& s.dot == has_dot(t)
    &&& s.verbatim == is_verbatim(t)
    &&& spans(s.ranges@) == pieces(t)
}

fn sep(c: char) -> (r: bool)
    ensures
        r == is_sep(c),
{
    c == '\\' || c == '/'
}

fn letter(c: char) -> (r: bool)
    ensures
        r == is_letter(c),
{
    ('A' <= c && c <= 'Z') || ('a' <= c && c <= 'z')
}

fn find_sep(t: &Vec<char>, from: usize, verbatim: bool) -> (r: usize)
    requires
        from <= t@.len(),
    ensures
        from <= r <= t@.len(),
        r == next_sep(t@, from as int, verbatim),
{
    let mut i: usize = from;
    while i < t.len() && !(t[i] == '\\' || (t[i] == '/' && !verbatim))
        invariant
            from <= i <= t@.len(),
            next_sep(t@, from as int, verbatim) == next_sep(t@, i as int, verbatim),
        decreases t@.len() - i,
    {
        i += 1;
    }
    i
}

fn drive(c: char) -> (r: Vec<char>)
    ensures
        r@ == seq![ascii_lower(c)],
{
    let mut v: Vec<char> = Vec::new();
    v.push(crate::text::ascii_lower_char(c));
    assert(v@ =~= seq![ascii_lower(c)]);
    v
}

fn parse_head(t: &Vec<char>) -> (r: (Option<Part>, usize))
    ensures
        r.1 == head(t@).len,
        r.1 <= t@.len(),
        match r.0 {
            Some(p) => head(t@).prefix == Some(p@),
            None => head(t@).prefix is None,
        },
{
    let n: usize = t.len();
    if n >= 4 && t[0] == '\\' && t[1] == '\\' && t[2] == '?' && t[3] == '\\' {
        if n >= 8 && t[4] == 'U' && t[5] == 'N' && t[6] == 'C' && sep(t[7]) {
            let i: usize = find_sep(t, 8, true);
            let s: usize = if i < n {
                i + 1
            } else {
                i
            };
            let j: usize = find_sep(t, s, true);
            let part = Part {
                tag: Tag::VerbatimUnc,
                a: sub_chars(t, 8, i),
                b: sub_chars(t, s, j),
            };
            let len: usize = if s < j {
                j
            } else {
                i
            };
            (Some(part), len)
        } else if n >= 6 && letter(t[4]) && t[5] == ':' && (n == 6 || sep(t[6])) {
            (Some(Part { tag: Tag::VerbatimDisk, a: drive(t[4]), b: Vec::new() }), 6)
        } else {
            let i: usize = find_sep(t, 4, true);
            (Some(Part { tag: Tag::Verbatim, a: sub_chars(t, 4, i), b: Vec::new() }), i)
        }
    } else if n >= 2 && sep(t[0]) && sep(t[1]) {
        if n >= 4 && t[2] == '.' && sep(t[3]) {
            let i: usize = find_sep(t, 4, false);
            (Some(Part { tag: Tag::Device, a: sub_chars(t, 4, i), b: Vec::new() }), i)
        } else {
            let i: usize = find_sep(t, 2, false);
            let s: usize = if i < n {
                i + 1
            } else {
                i
            };
            let j: usize = find_sep(t, s, false);
            if 2 < i && s < j {
                let part = Part { tag: Tag::Unc, a: sub_chars(t, 2, i), b: sub_chars(t, s, j) };
                (Some(part), j)
            } else {
                (None, 0)
            }
        }
    } else if n >= 2 && letter(t[0]) && t[1] == ':' {
        (Some(Part { tag: Tag::Disk, a: drive(t[0]), b: Vec::new() }), 2)
    } else {
        (None, 0)
    }
}

/// Every range lies inside the text.
pub proof fn lemma_ranges_inside(t: Seq<char>, i: int, verbatim: bool)
    requires
        0 <= i,
    ensures
        forall|k: int|
            0 <= k < ranges(t, i, verbatim).len() ==> i <= (#[trigger] ranges(t, i, verbatim)[k]).0
                < ranges(t, i, verbatim)[k].1 <= t.len(),
        forall|k: int, l: int|
            0 <= k < l < ranges(t, i, verbatim).len() ==> (#[trigger] ranges(t, i, verbatim)[k]).1
                < (#[trigger] ranges(t, i, verbatim)[l]).0,
    decreases t.len() + 1 - i,
{
    if i < t.len() {
        lemma_next_sep(t, i, verbatim);
        let j = next_sep(t, i, verbatim);
        let rest = ranges(t, j + 1, verbatim);
        lemma_ranges_inside(t, j + 1, verbatim);
        let all = ranges(t, i, verbatim);
        if is_piece(t, i, j, verbatim) {
            assert(all =~= seq![(i, j)] + rest);
            assert forall|k: int| 0 <= k < all.len() implies i <= (#[trigger] all[k]).0 < all[k].1
                <= t.len() by {
                if k > 0 {
                    assert(all[k] == rest[k - 1]);
                }
            }
            assert forall|k: int, l: int| 0 <= k < l < all.len() implies (#[trigger] all[k]).1 < (
            #[trigger] all[l]).0 by {
                assert(all[l] == rest[l - 1]);
                if k > 0 {
                    assert(all[k] == rest[k - 1]);
                }
            }
        }
    }
}

fn parse_ranges(t: &Vec<char>, start: usize, verbatim: bool) -> (r: Vec<(usize, usize)>)
    requires
        start <= t@.len(),
    ensures
        spans(r@) == ranges(t@, start as int, verbatim),
{
    let mut out: Vec<(usize, usize)> = Vec::new();
    let mut i: usize = start;
    assert(spans(out@) + ranges(t@, i as int, verbatim) =~= ranges(t@, i as int, verbatim));
    while i < t.len()
        invariant
            start <= i <= t@.len(),
            spans(out@) + ranges(t@, i as int, verbatim) == ranges(t@, start as int, verbatim),
        decreases t@.len() - i,
    {
        let j: usize = find_sep(t, i, verbatim);
        let ghost before = spans(out@);
        let ghost rest = ranges(t@, j + 1, verbatim);
        if i < j && (verbatim || !(j == i + 1 && t[i] == '.')) {
            out.push((i, j));
            assert(spans(out@) =~= before + seq![(i as int, j as int)]);
            assert(before + (seq![(i as int, j as int)] + rest) =~= spans(out@) + rest);
        }
        if j < t.len() {
            i = j + 1;
        } else {
            i = j;
            assert(ranges(t@, j + 1, verbatim) =~= ranges(t@, j as int, verbatim));
        }
    }
    assert(spans(out@) + ranges(t@, i as int, verbatim) =~= spans(out@));
    out
}

fn split(t: &Vec<char>) -> (r: Split)
    ensures
        split_of(r, t@),
        body_start(t@) <= t@.len(),
{
    let (prefix, len) = parse_head(t);
    let n: usize = t.len();
    let root: bool = len < n && sep(t[len]);
    let implied: bool = match &prefix {
        Some(p) => p.tag != Tag::Disk,
        None => false,
    };
    let dot: bool = !root && !implied && len < n && t[len] == '.' && (len + 1 == n || sep(t[len + 1]));
    let start: usize = if root || dot {
        len + 1
    } else {
        len
    };
    let verbatim: bool = n >= 4 && t[0] == '\\' && t[1] == '\\' && t[2] == '?' && t[3] == '\\';
    let ranges = parse_ranges(t, start, verbatim);
    Split { prefix, len, root, dot, verbatim, ranges }
}

fn make_piece(t: &Vec<char>, from: usize, to: usize) -> (r: Part)
    requires
        from <= to <= t@.len(),
    ensures
        r@ == piece(t@, (from as int, to as int)),
{
    let s = sub_chars(t, from, to);
    let ghost v = t@.subrange(from as int, to as int);
    if s.len() == 1 && s[0] == '.' {
        assert(v =~= seq!['.']);
        Part { tag: Tag::Current, a: Vec::new(), b: Vec::new() }
    } else if s.len() == 2 && s[0] == '.' && s[1] == '.' {
        assert(v =~= seq!['.', '.']);
        Part { tag: Tag::Parent, a: Vec::new(), b: Vec::new() }
    } else {
        assert(v != seq!['.']) by {
            if v == seq!['.'] {
                assert(v.len() == 1 && v[0] == '.');
            }
        }
        assert(v != seq!['.', '.']) by {
            if v == seq!['.', '.'] {
                assert(v.len() == 2 && v[0] == '.' && v[1] == '.');
            }
        }
        Part { tag: Tag::Normal, a: s, b: Vec::new() }
    }
}

/// Whether two components are the same.
fn same_part(a: &Part, b: &Part) -> (r: bool)
    ensures
        r == (a@ == b@),
{
    a.tag == b.tag && chars_eq(&a.a, &b.a) && chars_eq(&a.b, &b.b)
}

/// The code of a list of components.
pub open spec fn comps_code(c: Seq<Comp>) -> int
    decreases c.len(),
{
    if c.len() == 0 {
        3
    } else {
        mixed(mixed(comps_code(c.drop_last()), text_code(c.last().a)), text_code(c.last().b))
    }
}

/// A Windows path.
#[derive(Debug)]
pub struct WinPath {
    pub text: String,
}

/// The texts of a list of paths.
pub open spec fn path_texts(v: Seq<WinPath>) -> Seq<Seq<char>> {
    v.map_values(|p: WinPath| p@)
}

impl View for WinPath {
    type V = Seq<char>;

    open spec fn view(&self) -> Seq<char> {
        self.text@
    }
}

impl Clone for WinPath {
    fn clone(&self) -> (r: Self)
        ensures
            r == *self,
    {
        WinPath { text: self.text.clone() }
    }
}

impl vstd::std_specs::cmp::PartialEqSpecImpl for WinPath {
    open spec fn obeys_eq_spec() -> bool {
        true
    }

    open spec fn eq_spec(&self, other: &WinPath) -> bool {
        comps(self@) == comps(other@)
    }
}

impl PartialEq for WinPath {
    fn eq(&self, other: &WinPath) -> (r: bool) {
        self.same(other)
    }
}

impl Eq for WinPath {

}

impl WinPath {
    /// The path that `text` writes.
    pub fn new(text: &str) -> (r: WinPath)
        ensures
            r@ == text@,
    {
        WinPath { text: text.to_string() }
    }

    /// The path that `chars` writes.
    pub fn from_chars(chars: &Vec<char>) -> (r: WinPath)
        ensures
            r@ == chars@,
    {
        WinPath { text: from_chars(chars) }
    }

    /// The components of the path.
    pub fn components(&self) -> (r: Vec<Part>)
        ensures
            parts(r@) == comps(self@),
    {
        let t = to_chars(&self.text);
        let s = split(&t);
        let ghost full = s;
        let mut out: Vec<Part> = Vec::new();
        let mut implied: bool = false;
        let mut absent: bool = true;
        if let Some(p) = s.prefix {
            implied = p.tag != Tag::Disk;
            absent = false;
            out.push(p);
        }
        let ghost first = parts(out@);
        if s.root || (implied && !s.verbatim) {
            out.push(Part { tag: Tag::Root, a: Vec::new(), b: Vec::new() });
        } else if absent && s.dot {
            out.push(Part { tag: Tag::Current, a: Vec::new(), b: Vec::new() });
        }
        proof {
            let prefix = match head(t@).prefix {
                Some(c) => seq![c],
                None => seq![],
            };
            assert(first =~= prefix);
            let empty = Seq::<char>::empty();
            if has_root(t@) || (implies_root(t@) && !is_verbatim(t@)) {
                assert(parts(out@) =~= prefix.push(Comp { tag: Tag::Root, a: empty, b: empty }));
            } else if head(t@).prefix is None && has_dot(t@) {
                assert(parts(out@) =~= prefix.push(Comp { tag: Tag::Current, a: empty, b: empty }));
            }
            assert(parts(out@) =~= lead(t@));
            lemma_ranges_inside(t@, body_start(t@), is_verbatim(t@));
        }
        let ghost before = out@;
        let ghost named = pieces(t@).map_values(|r: (int, int)| piece(t@, r));
        for i in 0..s.ranges.len()
            invariant
                spans(s.ranges@) == pieces(t@),
                forall|k: int|
                    0 <= k < pieces(t@).len() ==> 0 <= (#[trigger] pieces(t@)[k]).0
                        < pieces(t@)[k].1 <= t@.len(),
                parts(before) == lead(t@),
                named == pieces(t@).map_values(|r: (int, int)| piece(t@, r)),
                parts(out@) == parts(before) + named.take(i as int),
        {
            let r: (usize, usize) = s.ranges[i];
            assert(spans(s.ranges@)[i as int] == (r.0 as int, r.1 as int));
            let ghost prev = parts(out@);
            out.push(make_piece(&t, r.0, r.1));
            assert(parts(out@) =~= prev.push(piece(t@, (r.0 as int, r.1 as int))));
            assert(named.take(i + 1) =~= named.take(i as int).push(named[i as int]));
            assert(parts(out@) =~= parts(before) + named.take(i + 1));
        }
        assert(named.take(named.len() as int) =~= named);
        out
    }

    /// Whether two paths have the same components.
    pub fn same(&self, other: &WinPath) -> (r: bool)
        ensures
            r == (comps(self@) == comps(other@)),
    {
        let a = self.components();
        let b = other.components();
        if a.len() != b.len() {
            assert(parts(a@).len() != parts(b@).len());
            return false;
        }
        for i in 0..a.len()
            invariant
                a@.len() == b@.len(),
                parts(a@) == comps(self@),
                parts(b@) == comps(other@),
                forall|k: int| 0 <= k < i ==> a@[k]@ == b@[k]@,
        {
            if !same_part(&a[i], &b[i]) {
                assert(parts(a@)[i as int] != parts(b@)[i as int]);
                return false;
            }
        }
        assert(parts(a@) =~= parts(b@));
        true
    }

    /// The code of the path: the same for every spelling of it.
    pub fn code(&self) -> (r: u64)
        ensures
            r == comps_code(comps(self@)),
            r <= 0xFFFF_FFFF,
    {
        let c = self.components();
        let ghost all = comps(self@);
        let mut h: u64 = 3;
        assert(all.take(0) =~= seq![]);
        for i in 0..c.len()
            invariant
                parts(c@) == all,
                h == comps_code(all.take(i as int)),
                h <= 0xFFFF_FFFF,
        {
            proof {
                assert(all[i as int] == c@[i as int]@);
                assert(all.take(i + 1).drop_last() =~= all.take(i as int));
            }
            h = mix(mix(h, chars_code(&c[i].a)), chars_code(&c[i].b));
        }
        assert(all.take(all.len() as int) =~= all);
        h
    }

    /// How many components the path has.
    pub fn depth(&self) -> (r: usize)
        ensures
            r == comps(self@).len(),
    {
        let a = self.components();
        assert(parts(a@).len() == a@.len());
        a.len()
    }

    /// Whether the components of `base` are the first components of this path.
    pub fn starts_with(&self, base: &WinPath) -> (r: bool)
        ensures
            r == under(self@, base@),
    {
        let a = self.components();
        let b = base.components();
        if b.len() > a.len() {
            assert(parts(b@).len() > parts(a@).len());
            return false;
        }
        for i in 0..b.len()
            invariant
                b@.len() <= a@.len(),
                parts(a@) == comps(self@),
                parts(b@) == comps(base@),
                forall|k: int| 0 <= k < i ==> a@[k]@ == b@[k]@,
        {
            if !same_part(&a[i], &b[i]) {
                assert(comps(self@).take(comps(base@).len() as int)[i as int] == parts(
                    a@,
                )[i as int]);
                assert(parts(a@)[i as int] != parts(b@)[i as int]);
                return false;
            }
        }
        assert(comps(self@).take(comps(base@).len() as int) =~= comps(base@));
        true
    }

    /// The path without its last named piece.
    pub fn parent(&self) -> (r: Option<WinPath>)
        ensures
            match r {
                Some(p) => parent_text(self@) == Some(p@),
                None => parent_text(self@) is None,
            },
    {
        let t = to_chars(&self.text);
        let s = split(&t);
        proof {
            lemma_ranges_inside(t@, body_start(t@), is_verbatim(t@));
        }
        let n: usize = s.ranges.len();
        assert(pieces(t@).len() == n);
        if n >= 2 {
            let end: usize = s.ranges[n - 2].1;
            assert(pieces(t@)[n - 2] == spans(s.ranges@)[n - 2]);
            let p = sub_chars(&t, 0, end);
            assert(p@ =~= t@.take(end as int));
            Some(WinPath::from_chars(&p))
        } else if n == 1 {
            let end: usize = if s.root || s.dot {
                s.len + 1
            } else {
                s.len
            };
            let p = sub_chars(&t, 0, end);
            assert(p@ =~= t@.take(end as int));
            Some(WinPath::from_chars(&p))
        } else if s.prefix.is_none() && s.dot {
            let p = sub_chars(&t, 0, 0);
            assert(p@ =~= t@.take(0));
            Some(WinPath::from_chars(&p))
        } else {
            None
        }
    }

    /// The last component, where it is a name.
    pub fn file_name(&self) -> (r: Option<String>)
        ensures
            match r {
                Some(s) => name_text(self@) == Some(s@),
                None => name_text(self@) is None,
            },
    {
        let t = to_chars(&self.text);
        let s = split(&t);
        proof {
            lemma_ranges_inside(t@, body_start(t@), is_verbatim(t@));
        }
        let n: usize = s.ranges.len();
        assert(pieces(t@).len() == n);
        if n == 0 {
            return None;
        }
        let r: (usize, usize) = s.ranges[n - 1];
        assert(pieces(t@)[n - 1] == spans(s.ranges@)[n - 1]);
        let p = make_piece(&t, r.0, r.1);
        if p.tag == Tag::Normal {
            Some(from_chars(&p.a))
        } else {
            None
        }
    }

    /// What is left of the path behind the components of `base`; `None` when the
    /// path does not start with them.
    pub fn strip_prefix(&self, base: &WinPath) -> (r: Option<WinPath>)
        ensures
            match r {
                Some(p) => under(self@, base@) && p@ == rest_text(self@, comps(base@).len() as int),
                None => !under(self@, base@),
            },
    {
        if !self.starts_with(base) {
            return None;
        }
        let k: usize = base.depth();
        let total: usize = self.depth();
        let t = to_chars(&self.text);
        let s = split(&t);
        proof {
            lemma_ranges_inside(t@, body_start(t@), is_verbatim(t@));
        }
        let n: usize = s.ranges.len();
        assert(pieces(t@).len() == n);
        let in_head: bool = k == 0 || (k == 1 && s.prefix.is_some());
        let lead_len: usize = total - n;
        assert(lead_len == lead(t@).len());
        assert(body_start(t@) <= t.len());
        if n > 0 && k < total {
            assert(pieces(t@)[n - 1] == spans(s.ranges@)[n - 1]);
            let end: usize = s.ranges[n - 1].1;
            let start: usize = if k == 0 {
                0
            } else if in_head {
                s.len
            } else {
                assert(k >= lead(t@).len());
                assert(pieces(t@)[k - lead_len] == spans(s.ranges@)[k - lead_len]);
                s.ranges[k - lead_len].0
            };
            Some(WinPath::from_chars(&sub_chars(&t, start, end)))
        } else if in_head {
            let end: usize = if s.root || s.dot {
                s.len + 1
            } else {
                s.len
            };
            let start: usize = if k == 0 {
                0
            } else {
                s.len
            };
            Some(WinPath::from_chars(&sub_chars(&t, start, end)))
        } else {
            proof {
                reveal_strlit("");
                assert(rest_text(self@, k as int) =~= ""@);
            }
            Some(WinPath::new(""))
        }
    }

    /// The path of the item called `name` in this folder.
    pub fn join(&self, name: &str) -> (r: WinPath)
        requires
            plain_name(name@),
        ensures
            r@ == join_text(self@, name@),
    {
        let t = to_chars(&self.text);
        let s = split(&t);
        proof {
            lemma_ranges_inside(t@, body_start(t@), is_verbatim(t@));
        }
        let n: usize = t.len();
        if s.verbatim {
            let mut out = from_chars(&sub_chars(&t, 0, s.len));
            let ghost base = t@.take(s.len as int);
            assert(out@ =~= base + respelled(t@, pieces(t@).take(0)));
            for i in 0..s.ranges.len()
                invariant
                    spans(s.ranges@) == pieces(t@),
                    forall|k: int|
                        0 <= k < pieces(t@).len() ==> 0 <= (#[trigger] pieces(t@)[k]).0
                            < pieces(t@)[k].1 <= t@.len(),
                    out@ == base + respelled(t@, pieces(t@).take(i as int)),
            {
                let r: (usize, usize) = s.ranges[i];
                assert(spans(s.ranges@)[i as int] == (r.0 as int, r.1 as int));
                out.push('\\');
                out.append(&from_chars(&sub_chars(&t, r.0, r.1)));
                assert(pieces(t@).take(i + 1).drop_last() =~= pieces(t@).take(i as int));
                assert(out@ =~= base + respelled(t@, pieces(t@).take(i + 1)));
            }
            assert(pieces(t@).take(pieces(t@).len() as int) =~= pieces(t@));
            out.push('\\');
            out.append(name);
            assert(out@ =~= join_text(self@, name@));
            WinPath { text: out }
        } else {
            let bare: bool = match &s.prefix {
                Some(p) => p.tag == Tag::Disk && s.len == n,
                None => false,
            };
            let mut out = from_chars(&t);
            if !(n == 0 || sep(t[n - 1]) || bare) {
                out.push('\\');
            }
            out.append(name);
            assert(out@ =~= join_text(self@, name@));
            WinPath { text: out }
        }
    }
}

/// The pieces begin inside the text.
pub proof fn lemma_body_start(t: Seq<char>)
    ensures
        0 <= head(t).len <= body_start(t) <= t.len(),
{
    let verbatim = is_verbatim(t);
    if verbatim && is_verbatim_unc(t) {
        lemma_next_sep(t, 8, true);
        lemma_next_sep(t, after(t, next_sep(t, 8, true)), true);
    } else if verbatim {
        lemma_next_sep(t, 4, true);
    } else if t.len() >= 2 {
        lemma_next_sep(t, 2, false);
        lemma_next_sep(t, after(t, next_sep(t, 2, false)), false);
        if t.len() >= 4 {
            lemma_next_sep(t, 4, false);
        }
    }
}

/// A parent is always written in fewer characters, so going up comes to an end.
pub proof fn law_parent_is_shorter(t: Seq<char>)
    requires
        parent_text(t) is Some,
    ensures
        parent_text(t)->0.len() < t.len(),
{
    lemma_body_start(t);
    lemma_ranges_inside(t, body_start(t), is_verbatim(t));
    let p = pieces(t);
    if p.len() >= 2 {
        assert(p[p.len() - 2].1 < p[p.len() - 1].0);
    } else if p.len() == 1 {
        assert(body_start(t) <= p[0].0);
    }
}

/// Whether a path begins at the root of a drive or of a share, as `C:\` or
/// `\\server\share\` do.
pub open spec fn is_rooted(t: Seq<char>) -> bool {
    &&& has_root(t)
    &&& head(t).prefix matches Some(c) && (c.tag == Tag::Disk || c.tag == Tag::Unc)
}

/// The next separator of the first part of a text is that of the text, unless it lies behind.
proof fn lemma_sep_in_part(t: Seq<char>, from: int, e: int)
    requires
        0 <= from <= e <= t.len(),
    ensures
        next_sep(t.take(e), from, false) == (if next_sep(t, from, false) < e {
            next_sep(t, from, false)
        } else {
            e
        }),
    decreases e - from,
{
    if from < e {
        assert(t.take(e)[from] == t[from]);
        if !separates(t[from], false) {
            lemma_sep_in_part(t, from + 1, e);
        }
    } else {
        lemma_next_sep(t, from, false);
    }
}

/// A part of a text that goes beyond the root begins as the text does, and the other way round.
proof fn lemma_same_head(t: Seq<char>, e: int)
    requires
        0 <= e <= t.len(),
        (is_rooted(t) && e > head(t).len) || is_rooted(t.take(e)),
    ensures
        head(t.take(e)) == head(t),
        is_rooted(t),
        is_rooted(t.take(e)),
        lead(t.take(e)) == lead(t),
        body_start(t.take(e)) == body_start(t),
        !is_verbatim(t),
        !is_verbatim(t.take(e)),
{
    let u = t.take(e);
    assert forall|k: int| 0 <= k < e implies #[trigger] u[k] == t[k] by {}
    if is_rooted(u) {
        lemma_body_start(u);
    } else {
        lemma_body_start(t);
    }
    if e >= 2 {
        lemma_next_sep(t, 2, false);
        lemma_next_sep(u, 2, false);
        lemma_sep_in_part(t, 2, e);
        let i = next_sep(t, 2, false);
        let x = next_sep(u, 2, false);
        lemma_next_sep(t, after(t, i), false);
        lemma_next_sep(u, after(u, x), false);
        if x < e {
            lemma_sep_in_part(t, x + 1, e);
            let j = next_sep(t, x + 1, false);
            if j <= e {
                assert(u.subrange(2, x) =~= t.subrange(2, x));
                if j < e {
                    assert(u.subrange(x + 1, j) =~= t.subrange(x + 1, j));
                }
            }
        }
        if e >= 4 {
            lemma_next_sep(t, 4, false);
            lemma_next_sep(u, 4, false);
        }
    }
    assert(lead(u) =~= lead(t));
}

/// The pieces of the part of a text that ends behind one of its pieces are the pieces up to
/// that one.
proof fn lemma_pieces_of_part(t: Seq<char>, i: int, m: int)
    requires
        0 <= i,
        0 <= m < ranges(t, i, false).len(),
    ensures
        ranges(t.take(ranges(t, i, false)[m].1), i, false) == ranges(t, i, false).take(m + 1),
    decreases t.len() + 1 - i,
{
    lemma_ranges_inside(t, i, false);
    let all = ranges(t, i, false);
    let e = all[m].1;
    let u = t.take(e);
    lemma_next_sep(t, i, false);
    let j = next_sep(t, i, false);
    let rest = ranges(t, j + 1, false);
    lemma_ranges_inside(t, j + 1, false);
    lemma_sep_in_part(t, i, e);
    assert(u[i] == t[i]);
    if is_piece(t, i, j, false) {
        assert(all =~= seq![(i, j)] + rest);
        if m == 0 {
            assert(e == j);
            assert(ranges(u, e + 1, false) =~= seq![]);
            assert(ranges(u, i, false) =~= all.take(1));
        } else {
            assert(all[m] == rest[m - 1]);
            assert(rest[m - 1].0 >= j + 1);
            lemma_pieces_of_part(t, j + 1, m - 1);
            assert(ranges(u, i, false) =~= seq![(i, j)] + rest.take(m));
            assert(ranges(u, i, false) =~= all.take(m + 1));
        }
    } else {
        assert(all =~= rest);
        lemma_pieces_of_part(t, j + 1, m);
        assert(ranges(u, i, false) =~= all.take(m + 1));
    }
}

/// The parent of a path below the root of a drive or a share is the path without its last
/// component.
pub proof fn law_parent_drops_the_last_component(t: Seq<char>)
    requires
        is_rooted(t),
        pieces(t).len() > 0,
    ensures
        parent_text(t) is Some,
        comps(parent_text(t)->0) == comps(t).drop_last(),
{
    let p = pieces(t);
    let n = p.len() as int;
    let start = body_start(t);
    lemma_body_start(t);
    lemma_same_head(t, t.len() as int);
    assert(t.take(t.len() as int) =~= t);
    lemma_ranges_inside(t, start, false);
    let e = if n >= 2 {
        p[n - 2].1
    } else {
        start
    };
    assert(e > head(t).len);
    lemma_same_head(t, e);
    let u = t.take(e);
    if n >= 2 {
        lemma_pieces_of_part(t, start, n - 2);
    }
    assert(pieces(u) =~= p.take(n - 1));
    assert forall|k: int| 0 <= k < n - 1 implies piece(u, #[trigger] p[k]) == piece(t, p[k]) by {
        if k < n - 2 {
            assert(p[k].1 < p[n - 2].0);
        }
        assert(u.subrange(p[k].0, p[k].1) =~= t.subrange(p[k].0, p[k].1));
    }
    assert(comps(u) =~= comps(t).drop_last());
}

/// The pieces of a text with a name behind a separator are those of the text and the name.
proof fn lemma_pieces_with_name(t: Seq<char>, gap: Seq<char>, name: Seq<char>, i: int)
    requires
        plain_name(name),
        0 <= i <= t.len(),
        gap == seq!['\\'] || (gap.len() == 0 && t.len() > 0 && is_sep(t.last())),
    ensures
        ({
            let u = t + gap + name;
            ranges(u, i, false) == ranges(t, i, false).push(
                ((t.len() + gap.len()) as int, u.len() as int),
            )
        }),
    decreases t.len() + 1 - i,
{
    let u = t + gap + name;
    let from = (t.len() + gap.len()) as int;
    let n = u.len() as int;
    assert(u.take(t.len() as int) =~= t);
    assert(u.skip(from) =~= name);
    if i < t.len() {
        lemma_next_sep(t, i, false);
        lemma_next_sep(u, i, false);
        lemma_sep_in_part(u, i, t.len() as int);
        let j = next_sep(t, i, false);
        assert(u[i] == t[i]);
        let rest = ranges(t, j + 1, false);
        if j < t.len() {
            lemma_pieces_with_name(t, gap, name, j + 1);
            assert(next_sep(u, i, false) == j);
            assert(ranges(u, i, false) =~= ranges(t, i, false).push((from, n)));
        } else {
            if gap.len() == 0 {
                assert(separates(t[t.len() - 1], false));
                assert(i <= t.len() - 1 < j);
                assert(false);
            }
            assert(u[j] == '\\');
            assert(next_sep(u, i, false) == j);
            lemma_name_alone(u, from);
            assert(ranges(t, j + 1, false) =~= seq![]);
            assert(ranges(u, i, false) =~= ranges(t, i, false).push((from, n)));
        }
    } else {
        assert(ranges(t, i, false) =~= seq![]);
        if gap.len() > 0 {
            assert(u[i] == '\\');
            assert(next_sep(u, i, false) == i);
            lemma_name_alone(u, from);
            assert(ranges(u, i, false) =~= ranges(u, from, false));
        } else {
            lemma_name_alone(u, from);
        }
        assert(ranges(u, i, false) =~= ranges(t, i, false).push((from, n)));
    }
}

/// A name at the end of a text is one piece.
proof fn lemma_name_alone(u: Seq<char>, from: int)
    requires
        0 <= from < u.len(),
        plain_name(u.skip(from)),
    ensures
        ranges(u, from, false) == seq![(from, u.len() as int)],
{
    let name = u.skip(from);
    let j = next_sep(u, from, false);
    lemma_next_sep(u, from, false);
    assert(j == u.len()) by {
        if j < u.len() {
            assert(name[j - from] == u[j]);
            assert(is_sep(u[j]));
        }
    }
    if j == from + 1 && u[from] == '.' {
        assert(name =~= seq!['.']);
    }
    assert(ranges(u, j + 1, false) =~= seq![]);
    assert(ranges(u, from, false) =~= seq![(from, j)]);
}

/// A name that is joined to a path below the root of a drive or a share becomes its last
/// component: the rest is the path, the name is found again, and going up leads back.
pub proof fn law_joined_name_is_the_last_component(t: Seq<char>, name: Seq<char>)
    requires
        is_rooted(t),
        plain_name(name),
    ensures
        ({
            let u = join_text(t, name);
            let empty = Seq::<char>::empty();
            &&& comps(u) == comps(t).push(Comp { tag: Tag::Normal, a: name, b: empty })
            &&& name_text(u) == Some(name)
            &&& parent_text(u) is Some
            &&& comps(parent_text(u)->0) == comps(t)
            &&& under(u, t)
            &&& !under(t, u)
        }),
{
    lemma_body_start(t);
    assert(t.take(t.len() as int) =~= t);
    lemma_same_head(t, t.len() as int);
    let u = join_text(t, name);
    let gap = joint(t);
    assert(u =~= t + gap + name);
    assert(u.take(t.len() as int) =~= t);
    lemma_same_head(u, t.len() as int);
    let start = body_start(t);
    lemma_pieces_with_name(t, gap, name, start);
    lemma_ranges_inside(t, start, false);
    let from = (t.len() + gap.len()) as int;
    let p = pieces(t);
    let q = pieces(u);
    assert(q == p.push((from, u.len() as int)));
    assert(u.subrange(from, u.len() as int) =~= name);
    let empty = Seq::<char>::empty();
    let last = Comp { tag: Tag::Normal, a: name, b: empty };
    assert(piece(u, (from, u.len() as int)) == last);
    assert forall|k: int| 0 <= k < p.len() implies piece(u, #[trigger] p[k]) == piece(t, p[k]) by {
        assert(u.subrange(p[k].0, p[k].1) =~= t.subrange(p[k].0, p[k].1));
    }
    assert(comps(u) =~= comps(t).push(last));
    assert(q.last() == (from, u.len() as int));
    law_parent_drops_the_last_component(u);
    assert(comps(u).drop_last() =~= comps(t));
    assert(comps(u).take(comps(t).len() as int) =~= comps(t));
}

/// Two names in a folder lead to the same place exactly when they are the same.
pub proof fn law_different_names_are_different_places(t: Seq<char>, a: Seq<char>, b: Seq<char>)
    requires
        is_rooted(t),
        plain_name(a),
        plain_name(b),
    ensures
        comps(join_text(t, a)) == comps(join_text(t, b)) <==> a == b,
{
    law_joined_name_is_the_last_component(t, a);
    law_joined_name_is_the_last_component(t, b);
    assert(comps(join_text(t, a)).last().a == a);
    assert(comps(join_text(t, b)).last().a == b);
}

/// What is left of a joined path without the components of the folder is the name.
pub proof fn lemma_joined(t: Seq<char>, name: Seq<char>)
    requires
        is_rooted(t),
        plain_name(name),
    ensures
        rest_text(join_text(t, name), comps(t).len() as int) == name,
{
    lemma_body_start(t);
    assert(t.take(t.len() as int) =~= t);
    lemma_same_head(t, t.len() as int);
    let u = join_text(t, name);
    let gap = joint(t);
    assert(u =~= t + gap + name);
    assert(u.take(t.len() as int) =~= t);
    lemma_same_head(u, t.len() as int);
    lemma_pieces_with_name(t, gap, name, body_start(t));
    let from = (t.len() + gap.len()) as int;
    let q = pieces(u);
    assert(q == pieces(t).push((from, u.len() as int)));
    assert(lead(u).len() == 2);
    assert(comps(t).len() == 2 + pieces(t).len());
    assert(q[pieces(t).len() as int] == (from, u.len() as int));
    assert(u.subrange(from, u.len() as int) =~= name);
}

/// Whether two texts differ only in which of the two separators they use.
pub open spec fn same_but_separators(t: Seq<char>, u: Seq<char>) -> bool {
    &&& t.len() == u.len()
    &&& forall|i: int|
        #![trigger t[i]]
        0 <= i < t.len() ==> t[i] == u[i] || (is_sep(t[i]) && is_sep(u[i]))
}

/// On a drive either separator will do: a path that is written with other separators leads to
/// the same place.
pub proof fn law_either_separator_will_do(t: Seq<char>, u: Seq<char>)
    requires
        same_but_separators(t, u),
        t.len() >= 2,
        is_letter(t[0]),
        t[1] == ':',
    ensures
        comps(t) == comps(u),
{
    assert(u[0] == t[0] && u[1] == t[1]);
    if t.len() > 2 {
        assert(is_sep(t[2]) == is_sep(u[2]));
        assert(t[2] == '.' <==> u[2] == '.');
    }
    if t.len() > 3 {
        assert(is_sep(t[3]) == is_sep(u[3]));
    }
    assert(head(t).len == 2 && head(u).len == 2);
    assert(head(t).prefix == head(u).prefix);
    assert(has_root(t) == has_root(u));
    assert(has_dot(t) == has_dot(u));
    assert(lead(t) =~= lead(u));
    let start = body_start(t);
    lemma_same_ranges(t, u, start);
    lemma_ranges_inside(t, start, false);
    let p = pieces(t);
    assert forall|k: int| 0 <= k < p.len() implies piece(t, #[trigger] p[k]) == piece(u, p[k]) by {
        lemma_piece_has_no_separator(t, start, k);
        assert forall|i: int| p[k].0 <= i < p[k].1 implies t[i] == u[i] by {
            assert(!is_sep(t[i]));
        }
        assert(t.subrange(p[k].0, p[k].1) =~= u.subrange(p[k].0, p[k].1));
    }
    assert(comps(t) =~= comps(u));
}

proof fn lemma_same_ranges(t: Seq<char>, u: Seq<char>, i: int)
    requires
        same_but_separators(t, u),
        0 <= i,
    ensures
        ranges(t, i, false) == ranges(u, i, false),
    decreases t.len() + 1 - i,
{
    if i < t.len() {
        lemma_same_next(t, u, i);
        lemma_next_sep(t, i, false);
        let j = next_sep(t, i, false);
        lemma_same_ranges(t, u, j + 1);
        assert(t[i] == '.' <==> u[i] == '.');
    }
}

proof fn lemma_same_next(t: Seq<char>, u: Seq<char>, i: int)
    requires
        same_but_separators(t, u),
        0 <= i <= t.len(),
    ensures
        next_sep(t, i, false) == next_sep(u, i, false),
    decreases t.len() - i,
{
    if i < t.len() {
        assert(is_sep(t[i]) == is_sep(u[i]));
        if !separates(t[i], false) {
            lemma_same_next(t, u, i + 1);
        }
    }
}

proof fn lemma_piece_has_no_separator(t: Seq<char>, i: int, k: int)
    requires
        0 <= i,
        0 <= k < ranges(t, i, false).len(),
    ensures
        forall|x: int|
            ranges(t, i, false)[k].0 <= x < ranges(t, i, false)[k].1 ==> !is_sep(#[trigger] t[x]),
    decreases t.len() + 1 - i,
{
    lemma_next_sep(t, i, false);
    let j = next_sep(t, i, false);
    let rest = ranges(t, j + 1, false);
    let all = ranges(t, i, false);
    if is_piece(t, i, j, false) {
        assert(all =~= seq![(i, j)] + rest);
        if k > 0 {
            lemma_piece_has_no_separator(t, j + 1, k - 1);
            assert(all[k] == rest[k - 1]);
        } else {
            assert forall|x: int| i <= x < j implies !is_sep(#[trigger] t[x]) by {
                assert(!separates(t[x], false));
            }
        }
    } else {
        lemma_piece_has_no_separator(t, j + 1, k);
    }
}

/// What is left of a path two names below a folder are the two names with a separator between.
pub proof fn lemma_joined_twice(t: Seq<char>, a: Seq<char>, b: Seq<char>)
    requires
        is_rooted(t),
        plain_name(a),
        plain_name(b),
    ensures
        rest_text(join_text(join_text(t, a), b), comps(t).len() as int) == a + seq!['\\'] + b,
        under(join_text(join_text(t, a), b), t),
{
    lemma_body_start(t);
    assert(t.take(t.len() as int) =~= t);
    lemma_same_head(t, t.len() as int);
    let u = join_text(t, a);
    let gap = joint(t);
    assert(u =~= t + gap + a);
    assert(u.take(t.len() as int) =~= t);
    lemma_same_head(u, t.len() as int);
    lemma_pieces_with_name(t, gap, a, body_start(t));
    let w = join_text(u, b);
    assert(u.last() == a.last());
    assert(!is_sep(a[a.len() - 1]));
    lemma_body_start(u);
    assert(joint(u) =~= seq!['\\']);
    assert(w =~= u + seq!['\\'] + b);
    assert(w.take(u.len() as int) =~= u);
    lemma_same_head(w, u.len() as int);
    lemma_pieces_with_name(u, seq!['\\'], b, body_start(u));
    let from = (t.len() + gap.len()) as int;
    let q = pieces(w);
    let p = pieces(t);
    assert(q == p.push((from, u.len() as int)).push((u.len() as int + 1, w.len() as int)));
    assert(q[p.len() as int] == (from, u.len() as int));
    assert(q.last() == (u.len() as int + 1, w.len() as int));
    assert(lead(w).len() == 2);
    assert(comps(t).len() == 2 + p.len());
    assert(w.subrange(from, w.len() as int) =~= a + seq!['\\'] + b);
    law_joined_name_is_the_last_component(t, a);
    law_joined_name_is_the_last_component(u, b);
    assert(comps(w).take(comps(t).len() as int) =~= comps(t));
}

} // verus!
