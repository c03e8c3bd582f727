//! The folder navigation tree: a lazily expanding forest of folders.
//!
//! The nodes are kept in the order in which they are drawn, each with its depth; the
//! descendants of a node follow it directly. A hidden root at depth zero holds the
//! top-level nodes. Nodes are addressed by a stable id, so that the result of a load
//! always finds its node even if the tree has changed shape meanwhile.

use crate::icons::{icon_names, IconKey, IconName};
use crate::model::{is_wsl_host, same_place, wsl_host, Location, Place};
use crate::path::{comps, under, WinPath};
use crate::text::{from_chars, sub_chars, to_chars};
use vstd::prelude::*;

verus! {

/// Stable identity of a tree node, unique within a tree for its lifetime.
pub type NodeId = u64;

/// The always-present hidden root.
pub const ROOT_ID: u64 = 0;

/// How far the children of a node are known.
#[derive(Debug, Clone, Copy, PartialEq, Eq, Structural)]
pub enum Children {
    /// Not fetched yet.
    Unloaded,
    /// A fetch is in flight.
    Loading,
    /// Fetched; without any it is a confirmed leaf.
    Loaded,
}

/// One node of the tree.
#[derive(Debug)]
pub struct TreeNode {
    pub id: NodeId,
    pub label: String,
    pub icon: IconKey,
    /// Where clicking the node leads.
    pub location: Location,
    pub expanded: bool,
    pub children: Children,
    pub depth: usize,
}

/// A node as plain values.
pub ghost struct Node {
    pub id: int,
    pub label: Seq<char>,
    pub icon: IconName,
    pub place: Place,
    pub expanded: bool,
    pub children: Children,
    pub depth: int,
}

impl View for TreeNode {
    type V = Node;

    open spec fn view(&self) -> Node {
        Node {
            id: self.id as int,
            label: self.label@,
            icon: self.icon@,
            place: self.location@,
            expanded: self.expanded,
            children: self.children,
            depth: self.depth as int,
        }
    }
}

/// The views of a list of nodes.
pub open spec fn node_views(v: Seq<TreeNode>) -> Seq<Node> {
    v.map_values(|n: TreeNode| n@)
}

/// The data needed to create a child node, produced by a load.
#[derive(Debug)]
pub struct TreeChild {
    pub label: String,
    pub icon: IconKey,
    pub location: Location,
    /// Children to attach at once; `None` means that they are loaded on first expand.
    pub children: Option<Vec<TreeChild>>,
    /// Whether the node starts expanded.
    pub expanded: bool,
}

impl TreeChild {
    /// A node whose children are fetched the first time it is expanded.
    pub fn lazy(label: String, icon: IconKey, location: Location) -> (r: TreeChild)
        ensures
            r.label == label,
            r.icon == icon,
            r.location == location,
            r.children is None,
            !r.expanded,
    {
        TreeChild { label, icon, location, children: None, expanded: false }
    }

    /// A node that comes with its children attached, and is shown expanded.
    pub fn branch(
        label: String,
        icon: IconKey,
        location: Location,
        children: Vec<TreeChild>,
    ) -> (r: TreeChild)
        ensures
            r.label == label,
            r.icon == icon,
            r.location == location,
            r.children == Some(children),
            r.expanded,
    {
        TreeChild { label, icon, location, children: Some(children), expanded: true }
    }
}

/// The node that a child becomes, before it has an id.
pub open spec fn graft(c: TreeChild, depth: int) -> Node {
    Node {
        id: 0,
        label: c.label@,
        icon: c.icon@,
        place: c.location@,
        expanded: c.expanded,
        children: if c.children is Some {
            Children::Loaded
        } else {
            Children::Unloaded
        },
        depth,
    }
}

/// A child and everything attached to it, in drawing order.
pub open spec fn flat_child(c: TreeChild, depth: int) -> Seq<Node>
    decreases c,
{
    seq![graft(c, depth)] + match c.children {
        Some(v) => flat_children(v@, depth + 1),
        None => seq![],
    }
}

/// A list of children and everything attached to them, in drawing order.
pub open spec fn flat_children(s: Seq<TreeChild>, depth: int) -> Seq<Node>
    decreases s,
{
    if s.len() == 0 {
        seq![]
    } else {
        flat_children(s.drop_last(), depth) + flat_child(s.last(), depth)
    }
}

/// The hidden root, whose children are on their way.
pub open spec fn root_node() -> Node {
    Node {
        id: 0,
        label: seq![],
        icon: IconName::Folder,
        place: Place::ThisPc,
        expanded: true,
        children: Children::Loading,
        depth: 0,
    }
}

/// Nodes with ids counted up from `base`.
pub open spec fn numbered(s: Seq<Node>, base: int) -> Seq<Node> {
    Seq::new(s.len(), |k: int| Node { id: base + k, ..s[k] })
}

/// Where the descendants of node `i` end, looking from `j` on.
pub open spec fn end_from(s: Seq<Node>, i: int, j: int) -> int
    decreases s.len() - j,
{
    if j >= s.len() || s[j].depth <= s[i].depth {
        j
    } else {
        end_from(s, i, j + 1)
    }
}

/// The index behind the last descendant of node `i`.
pub open spec fn end_of(s: Seq<Node>, i: int) -> int {
    end_from(s, i, i + 1)
}

/// Whether node `k` is a child of node `i`.
pub open spec fn is_child(s: Seq<Node>, i: int, k: int) -> bool {
    i < k < end_of(s, i) && s[k].depth == s[i].depth + 1
}

/// Whether node `i` has children.
pub open spec fn has_children(s: Seq<Node>, i: int) -> bool {
    i + 1 < s.len() && s[i + 1].depth > s[i].depth
}

/// Whether node `i + 1` may follow node `i`: it lies at most one level deeper, and only a
/// loaded node has children.
pub open spec fn link(s: Seq<Node>, i: int) -> bool {
    &&& s[i + 1].depth <= s[i].depth + 1
    &&& s[i].children != Children::Loaded ==> s[i + 1].depth <= s[i].depth
}

/// Whether the depths form a tree with a single root at depth zero, and only loaded
/// nodes have children.
pub open spec fn is_tree(s: Seq<Node>) -> bool {
    &&& s.len() > 0
    &&& s[0].depth == 0
    &&& s[0].id == 0
    &&& forall|i: int| 1 <= i < s.len() ==> 1 <= (#[trigger] s[i]).depth
    &&& forall|i: int| 0 <= i < s.len() - 1 ==> #[trigger] link(s, i)
}

/// Whether no two nodes share an id, and all ids are below `next`.
pub open spec fn ids_unique(s: Seq<Node>, next: int) -> bool {
    &&& forall|i: int, j: int|
        0 <= i < j < s.len() ==> (#[trigger] s[i]).id != (#[trigger] s[j]).id
    &&& forall|i: int| 0 <= i < s.len() ==> 0 <= (#[trigger] s[i]).id < next
}

/// `end_from` gives the first node from `j` on that is no deeper than node `i`.
pub proof fn lemma_end_from(s: Seq<Node>, i: int, j: int)
    requires
        0 <= i < j <= s.len(),
    ensures
        j <= end_from(s, i, j) <= s.len(),
        forall|k: int| j <= k < end_from(s, i, j) ==> (#[trigger] s[k]).depth > s[i].depth,
        end_from(s, i, j) < s.len() ==> s[end_from(s, i, j)].depth <= s[i].depth,
    decreases s.len() - j,
{
    if j < s.len() && s[j].depth > s[i].depth {
        lemma_end_from(s, i, j + 1);
    }
}

/// The indices of the nodes that are shown, from `i` on: a collapsed node hides its
/// descendants.
pub open spec fn shown_from(s: Seq<Node>, i: int) -> Seq<int>
    decreases s.len() - i,
    via shown_from_decreases
{
    if i < 0 || i >= s.len() {
        seq![]
    } else if s[i].expanded {
        seq![i] + shown_from(s, i + 1)
    } else {
        seq![i] + shown_from(s, end_of(s, i))
    }
}

#[via_fn]
proof fn shown_from_decreases(s: Seq<Node>, i: int) {
    if 0 <= i < s.len() {
        lemma_end_from(s, i, i + 1);
    }
}

/// A row of the sidebar as plain values.
pub ghost struct RowView {
    pub id: int,
    pub label: Seq<char>,
    pub icon: IconName,
    pub place: Place,
    pub depth: int,
    pub expanded: bool,
    pub expandable: bool,
}

/// How node `i` is drawn.
pub open spec fn row_of(s: Seq<Node>, i: int) -> RowView {
    RowView {
        id: s[i].id,
        label: s[i].label,
        icon: s[i].icon,
        place: s[i].place,
        depth: s[i].depth - 1,
        expanded: s[i].expanded,
        expandable: s[i].children != Children::Loaded || has_children(s, i),
    }
}

/// The rows of the sidebar; the hidden root has none.
pub open spec fn sidebar(s: Seq<Node>) -> Seq<RowView> {
    shown_from(s, 1).map_values(|i: int| row_of(s, i))
}

/// A flattened, render-ready view of one visible node.
pub struct TreeRow<'a> {
    pub id: NodeId,
    pub label: &'a str,
    pub icon: &'a IconKey,
    pub location: &'a Location,
    /// Indentation level of the node; the top level is zero.
    pub depth: usize,
    pub expanded: bool,
    /// Whether to draw an expand or collapse mark.
    pub expandable: bool,
}

impl<'a> View for TreeRow<'a> {
    type V = RowView;

    open spec fn view(&self) -> RowView {
        RowView {
            id: self.id as int,
            label: self.label@,
            icon: self.icon@,
            place: self.location@,
            depth: self.depth as int,
            expanded: self.expanded,
            expandable: self.expandable,
        }
    }
}

/// The views of a list of rows.
pub open spec fn row_views<'a>(v: Seq<TreeRow<'a>>) -> Seq<RowView> {
    v.map_values(|r: TreeRow<'a>| r@)
}

/// The outcome of one step toward revealing a path.
#[derive(Debug)]
pub enum Reveal {
    /// The children of this node must be loaded first.
    Load(NodeId, Location),
    /// A load is already in flight along the path.
    Wait,
    /// The target was reached, or cannot be reached.
    Stop,
}

/// The outcome of a reveal step as plain values.
pub ghost enum Revealed {
    Load(int, Place),
    Wait,
    Stop,
}

impl View for Reveal {
    type V = Revealed;

    open spec fn view(&self) -> Revealed {
        match self {
            Reveal::Load(id, l) => Revealed::Load(*id as int, l@),
            Reveal::Wait => Revealed::Wait,
            Reveal::Stop => Revealed::Stop,
        }
    }
}

/// The index of the first node with the given id, or the number of nodes.
pub open spec fn index_of(s: Seq<Node>, id: int) -> int
    decreases s.len(),
{
    if s.len() == 0 || s[0].id == id {
        0
    } else {
        1 + index_of(s.drop_first(), id)
    }
}

/// `index_of` is the one index with the id at it (or the end) and no such id before it.
pub proof fn lemma_index_of(s: Seq<Node>, id: int, i: int)
    requires
        0 <= i <= s.len(),
        forall|j: int| 0 <= j < i ==> (#[trigger] s[j]).id != id,
        i < s.len() ==> s[i].id == id,
    ensures
        index_of(s, id) == i,
    decreases s.len(),
{
    if s.len() > 0 && i > 0 {
        assert(s[0].id != id);
        let t = s.drop_first();
        assert forall|j: int| 0 <= j < i - 1 implies (#[trigger] t[j]).id != id by {
            assert(t[j] == s[j + 1]);
        }
        lemma_index_of(t, id, i - 1);
    }
}

/// The tree after node `i` was expanded or collapsed.
pub open spec fn toggled(s: Seq<Node>, i: int) -> Seq<Node> {
    if s[i].expanded {
        s.update(i, Node { expanded: false, ..s[i] })
    } else if s[i].children == Children::Unloaded {
        s.update(i, Node { expanded: true, children: Children::Loading, ..s[i] })
    } else {
        s.update(i, Node { expanded: true, ..s[i] })
    }
}

/// The tree after the children of node `i` arrived.
pub open spec fn grafted(s: Seq<Node>, i: int, kids: Seq<Node>) -> Seq<Node> {
    s.take(i).push(Node { children: Children::Loaded, ..s[i] }) + kids + s.skip(end_of(s, i))
}

/// Whether node `k` is a child of node `i` whose folder contains `target`.
pub open spec fn leads_to(s: Seq<Node>, i: int, k: int, target: Seq<char>) -> bool {
    is_child(s, i, k) && s[k].place is Path && under(target, s[k].place->Path_0)
}

/// How deep the folder of a node lies.
pub open spec fn reach(n: Node) -> int {
    comps(n.place->Path_0).len() as int
}

/// Among the children of node `i` before index `j`, the one whose folder contains
/// `target` most closely; of equals the last.
pub open spec fn best_before(s: Seq<Node>, i: int, target: Seq<char>, j: int) -> Option<int>
    decreases j,
{
    if j <= 0 {
        None
    } else {
        let best = best_before(s, i, target, j - 1);
        if leads_to(s, i, j - 1, target) && (best is None || reach(s[j - 1]) >= reach(s[best->0])) {
            Some(j - 1)
        } else {
            best
        }
    }
}

/// The first child of node `i`, from `j` on, at the given place.
pub open spec fn child_at_from(s: Seq<Node>, i: int, place: Place, j: int) -> Option<int>
    decreases s.len() - j,
{
    if j >= s.len() {
        None
    } else if is_child(s, i, j) && same_place(s[j].place, place) {
        Some(j)
    } else {
        child_at_from(s, i, place, j + 1)
    }
}

/// Whether a path lies under one of the WSL server names.
pub open spec fn wsl_path(t: Seq<char>) -> bool {
    &&& t.len() >= 2
    &&& (t[0] == '\\' && t[1] == '\\') || (t[0] == '/' && t[1] == '/')
    &&& wsl_host(t.subrange(2, crate::path::next_sep(t, 2, false)))
}

/// The virtual root under which a path lies.
pub open spec fn virtual_root(target: Seq<char>) -> Place {
    if wsl_path(target) {
        Place::Wsl
    } else {
        Place::ThisPc
    }
}

/// Which child of node `i` leads toward `target`: the closest folder that contains it,
/// else the virtual root under which it lies.
pub open spec fn next_toward(s: Seq<Node>, i: int, target: Seq<char>) -> Option<int> {
    match best_before(s, i, target, s.len() as int) {
        Some(k) => Some(k),
        None => child_at_from(s, i, virtual_root(target), i + 1),
    }
}

/// Whether node `i` is the target itself.
pub open spec fn is_target(s: Seq<Node>, i: int, target: Seq<char>) -> bool {
    s[i].place is Path && comps(s[i].place->Path_0) == comps(target)
}

/// The result of revealing `target` from node `i` down: the tree, what to do next, and
/// the node at which the walk ended.
pub ghost struct Walked {
    pub nodes: Seq<Node>,
    pub outcome: Revealed,
    pub at: int,
}

/// Walk from node `i` toward `target`, expanding each node on the way.
pub open spec fn walk_to(s: Seq<Node>, i: int, target: Seq<char>) -> Walked
    decreases s.len() - i,
    via walk_to_decreases
{
    if i < 0 || i >= s.len() {
        Walked { nodes: s, outcome: Revealed::Stop, at: i }
    } else if is_target(s, i, target) {
        Walked { nodes: s, outcome: Revealed::Stop, at: i }
    } else {
        let open = s.update(i, Node { expanded: true, ..s[i] });
        match s[i].children {
            Children::Unloaded => Walked {
                nodes: s.update(i, Node { expanded: true, children: Children::Loading, ..s[i] }),
                outcome: Revealed::Load(s[i].id, s[i].place),
                at: i,
            },
            Children::Loading => Walked { nodes: open, outcome: Revealed::Wait, at: i },
            Children::Loaded => match next_toward(open, i, target) {
                Some(k) => walk_to(open, k, target),
                None => Walked { nodes: open, outcome: Revealed::Stop, at: i },
            },
        }
    }
}

#[via_fn]
proof fn walk_to_decreases(s: Seq<Node>, i: int, target: Seq<char>) {
    if 0 <= i < s.len() {
        let open = s.update(i, Node { expanded: true, ..s[i] });
        lemma_next_toward(open, i, target);
    }
}

proof fn lemma_best_before(s: Seq<Node>, i: int, target: Seq<char>, j: int)
    ensures
        match best_before(s, i, target, j) {
            Some(k) => 0 <= k < j && leads_to(s, i, k, target) && forall|m: int|
                0 <= m < j && #[trigger] leads_to(s, i, m, target) ==> reach(s[m]) <= reach(s[k])
                    && (m > k ==> reach(s[m]) < reach(s[k])),
            None => forall|m: int| 0 <= m < j ==> !#[trigger] leads_to(s, i, m, target),
        },
    decreases j,
{
    if j > 0 {
        lemma_best_before(s, i, target, j - 1);
    }
}

pub proof fn lemma_child_at_from(s: Seq<Node>, i: int, place: Place, j: int)
    ensures
        match child_at_from(s, i, place, j) {
            Some(k) => j <= k < s.len() && is_child(s, i, k) && same_place(s[k].place, place),
            None => forall|m: int|
                j <= m < s.len() ==> !(#[trigger] is_child(s, i, m) && same_place(
                    s[m].place,
                    place,
                )),
        },
    decreases s.len() - j,
{
    if j < s.len() {
        lemma_child_at_from(s, i, place, j + 1);
    }
}

/// The node that leads toward a target is a child.
proof fn lemma_next_toward(s: Seq<Node>, i: int, target: Seq<char>)
    requires
        0 <= i < s.len(),
    ensures
        match next_toward(s, i, target) {
            Some(k) => i < k < s.len() && is_child(s, i, k),
            None => true,
        },
{
    lemma_end_from(s, i, i + 1);
    lemma_best_before(s, i, target, s.len() as int);
    lemma_child_at_from(s, i, virtual_root(target), i + 1);
}

/// Whether a path lies under one of the WSL server names.
pub fn is_wsl_path(target: &WinPath) -> (r: bool)
    ensures
        r == wsl_path(target@),
{
    let t = to_chars(&target.text);
    if t.len() < 2 {
        return false;
    }
    if !((t[0] == '\\' && t[1] == '\\') || (t[0] == '/' && t[1] == '/')) {
        return false;
    }
    let mut end: usize = 2;
    while end < t.len() && !(t[end] == '\\' || t[end] == '/')
        invariant
            2 <= end <= t@.len(),
            crate::path::next_sep(t@, 2, false) == crate::path::next_sep(t@, end as int, false),
        decreases t@.len() - end,
    {
        end += 1;
    }
    is_wsl_host(&from_chars(&sub_chars(&t, 2, end)))
}

/// The folder tree and its id allocator.
pub struct Tree {
    pub nodes: Vec<TreeNode>,
    pub next_id: NodeId,
}

impl Tree {
    /// The tree as plain values.
    pub open spec fn shape(&self) -> Seq<Node> {
        node_views(self.nodes@)
    }

    /// The depths form a tree, and every id is unique.
    pub open spec fn wf(&self) -> bool {
        is_tree(self.shape()) && ids_unique(self.shape(), self.next_id as int)
    }

    /// A tree whose hidden root awaits the top-level nodes.
    pub fn new() -> (r: Tree)
        ensures
            r.wf(),
            r.next_id == 1,
            r.shape() == seq![root_node()],
    {
        let mut nodes: Vec<TreeNode> = Vec::new();
        nodes.push(
            TreeNode {
                id: ROOT_ID,
                label: String::new(),
                icon: IconKey::Folder,
                location: Location::ThisPc,
                expanded: true,
                children: Children::Loading,
                depth: 0,
            },
        );
        let r = Tree { nodes, next_id: 1 };
        assert(r.shape()[0].label =~= seq![]);
        assert(r.shape() =~= seq![r.shape()[0]]);
        r
    }

    /// The index of the node with the given id, or the number of nodes.
    fn find(&self, id: NodeId) -> (r: usize)
        ensures
            r <= self.nodes@.len(),
            r == index_of(self.shape(), id as int),
            r < self.nodes@.len() ==> self.nodes@[r as int].id == id,
            forall|j: int| 0 <= j < r ==> (#[trigger] self.shape()[j]).id != id,
    {
        let mut i: usize = 0;
        while i < self.nodes.len() && self.nodes[i].id != id
            invariant
                i <= self.nodes@.len(),
                forall|j: int| 0 <= j < i ==> (#[trigger] self.shape()[j]).id != id,
            decreases self.nodes@.len() - i,
        {
            assert(self.shape()[i as int].id == self.nodes@[i as int].id);
            i += 1;
        }
        proof {
            lemma_index_of(self.shape(), id as int, i as int);
        }
        i
    }

    /// The index behind the last descendant of node `i`.
    fn end(&self, i: usize) -> (r: usize)
        requires
            i < self.nodes@.len(),
        ensures
            i < r <= self.nodes@.len(),
            r == end_of(self.shape(), i as int),
    {
        assert(i < self.nodes.len());
        let mut j: usize = i + 1;
        while j < self.nodes.len() && self.nodes[j].depth > self.nodes[i].depth
            invariant
                i < j <= self.nodes@.len(),
                end_of(self.shape(), i as int) == end_from(self.shape(), i as int, j as int),
            decreases self.nodes@.len() - j,
        {
            assert(self.shape()[j as int].depth > self.shape()[i as int].depth);
            j += 1;
        }
        j
    }

    /// Flatten the expanded nodes into render rows. The hidden root is skipped.
    pub fn visible_rows<'a>(&'a self) -> (r: Vec<TreeRow<'a>>)
        requires
            self.wf(),
        ensures
            row_views(r@) == sidebar(self.shape()),
    {
        let ghost s = self.shape();
        let ghost all = sidebar(s);
        let mut rows: Vec<TreeRow<'a>> = Vec::new();
        let mut i: usize = 1;
        assert(row_views(rows@) + shown_from(s, 1).map_values(|i: int| row_of(s, i)) =~= all);
        while i < self.nodes.len()
            invariant
                self.wf(),
                s == self.shape(),
                1 <= i <= self.nodes@.len(),
                all == sidebar(s),
                row_views(rows@) + shown_from(s, i as int).map_values(|i: int| row_of(s, i))
                    == all,
            decreases self.nodes@.len() - i,
        {
            let ghost prev = row_views(rows@);
            let node = &self.nodes[i];
            assert(s[i as int] == node@);
            let kids: bool = i + 1 < self.nodes.len() && self.nodes[i + 1].depth > node.depth;
            assert(kids == has_children(s, i as int)) by {
                if i + 1 < s.len() {
                    assert(s[i + 1] == self.nodes@[i + 1]@);
                }
            }
            assert(node.depth >= 1);
            rows.push(
                TreeRow {
                    id: node.id,
                    label: node.label.as_str(),
                    icon: &node.icon,
                    location: &node.location,
                    depth: node.depth - 1,
                    expanded: node.expanded,
                    expandable: node.children != Children::Loaded || kids,
                },
            );
            let next: usize = if node.expanded {
                i + 1
            } else {
                self.end(i)
            };
            proof {
                let rest = shown_from(s, next as int).map_values(|i: int| row_of(s, i));
                let here = shown_from(s, i as int).map_values(|i: int| row_of(s, i));
                assert(row_views(rows@) =~= prev.push(row_of(s, i as int)));
                assert(here =~= seq![row_of(s, i as int)] + rest);
                assert(row_views(rows@) + rest =~= prev + here);
            }
            i = next;
        }
        assert(shown_from(s, i as int).map_values(|i: int| row_of(s, i)) =~= seq![]);
        assert(row_views(rows@) =~= all);
        rows
    }

    /// Append the icon keys of every visible node.
    pub fn collect_icon_keys(&self, out: &mut Vec<IconKey>)
        requires
            self.wf(),
        ensures
            icon_names(final(out)@) == icon_names(old(out)@) + sidebar(
                self.shape(),
            ).map_values(|r: RowView| r.icon),
    {
        let rows = self.visible_rows();
        let ghost before = icon_names(out@);
        let ghost icons = sidebar(self.shape()).map_values(|r: RowView| r.icon);
        assert(before + icons.take(0) =~= before);
        for i in 0..rows.len()
            invariant
                row_views(rows@) == sidebar(self.shape()),
                icons == sidebar(self.shape()).map_values(|r: RowView| r.icon),
                icon_names(out@) == before + icons.take(i as int),
        {
            let ghost prev = icon_names(out@);
            out.push(rows[i].icon.clone());
            proof {
                assert(row_views(rows@)[i as int] == rows@[i as int]@);
                assert(icon_names(out@) =~= prev.push(icons[i as int]));
                assert(icons.take(i + 1) =~= icons.take(i as int).push(icons[i as int]));
                assert(icon_names(out@) =~= before + icons.take(i + 1));
            }
        }
        assert(icons.take(icons.len() as int) =~= icons);
    }

    /// The id of the top-level "This PC" node, once the top-level nodes are there.
    pub fn this_pc_id(&self) -> (r: Option<NodeId>)
        requires
            self.wf(),
        ensures
            match child_at_from(self.shape(), 0, Place::ThisPc, 1) {
                Some(k) => r == Some(self.nodes@[k].id),
                None => r is None,
            },
    {
        match self.child_at(0, &Location::ThisPc) {
            Some(k) => Some(self.nodes[k].id),
            None => None,
        }
    }

    /// The first child of node `i` at the given place.
    fn child_at(&self, i: usize, place: &Location) -> (r: Option<usize>)
        requires
            i < self.nodes@.len(),
        ensures
            match r {
                Some(k) => k < self.nodes@.len() && child_at_from(
                    self.shape(),
                    i as int,
                    place@,
                    i + 1,
                ) == Some(k as int),
                None => child_at_from(self.shape(), i as int, place@, i + 1) is None,
            },
    {
        let ghost s = self.shape();
        let end: usize = self.end(i);
        let mut j: usize = i + 1;
        while j < end
            invariant
                s == self.shape(),
                i < j <= end,
                end == end_of(s, i as int),
                end <= self.nodes@.len(),
                child_at_from(s, i as int, place@, i + 1) == child_at_from(
                    s,
                    i as int,
                    place@,
                    j as int,
                ),
            decreases end - j,
        {
            assert(s[j as int] == self.nodes@[j as int]@);
            assert(s[i as int] == self.nodes@[i as int]@);
            if self.nodes[j].depth > 0 && self.nodes[j].depth - 1 == self.nodes[i].depth
                && self.nodes[j].location == *place {
                return Some(j);
            }
            j += 1;
        }
        proof {
            lemma_child_at_from(s, i as int, place@, j as int);
        }
        None
    }

    /// Expand or collapse the node `id`. What to load comes back when a node that has not
    /// been loaded is expanded.
    pub fn toggle(&mut self, id: NodeId) -> (r: Option<(NodeId, Location)>)
        requires
            old(self).wf(),
        ensures
            final(self).wf(),
            final(self).next_id == old(self).next_id,
            ({
                let s = old(self).shape();
                let i = index_of(s, id as int);
                if i < s.len() {
                    &&& final(self).shape() == toggled(s, i)
                    &&& match r {
                        Some((n, l)) => !s[i].expanded && s[i].children == Children::Unloaded
                            && n == id && l@ == s[i].place,
                        None => s[i].expanded || s[i].children != Children::Unloaded,
                    }
                } else {
                    final(self).shape() == s && r is None
                }
            }),
    {
        let i: usize = self.find(id);
        if i >= self.nodes.len() {
            return None;
        }
        let ghost s = self.shape();
        let ghost was = self.nodes@;
        assert(s[i as int] == was[i as int]@);
        let expanded: bool = self.nodes[i].expanded;
        let load: bool = !expanded && self.nodes[i].children == Children::Unloaded;
        let out: Option<(NodeId, Location)> = if load {
            Some((id, self.nodes[i].location.clone()))
        } else {
            None
        };
        self.mark(i, !expanded, load);
        proof {
            assert(self.shape() =~= toggled(s, i as int));
        }
        out
    }

    /// Set whether node `i` is expanded, and possibly that its children are being loaded.
    fn mark(&mut self, i: usize, expanded: bool, loading: bool)
        requires
            old(self).wf(),
            i < old(self).nodes@.len(),
            loading ==> old(self).nodes@[i as int].children == Children::Unloaded,
        ensures
            final(self).wf(),
            final(self).next_id == old(self).next_id,
            final(self).nodes@.len() == old(self).nodes@.len(),
            final(self).shape() == old(self).shape().update(
                i as int,
                Node {
                    expanded,
                    children: if loading {
                        Children::Loading
                    } else {
                        old(self).shape()[i as int].children
                    },
                    ..old(self).shape()[i as int]
                },
            ),
    {
        let ghost s = self.shape();
        let ghost was = self.nodes@;
        let children: Children = if loading {
            Children::Loading
        } else {
            self.nodes[i].children
        };
        let node = TreeNode {
            id: self.nodes[i].id,
            label: self.nodes[i].label.clone(),
            icon: self.nodes[i].icon.clone(),
            location: self.nodes[i].location.clone(),
            expanded,
            children,
            depth: self.nodes[i].depth,
        };
        let ghost view = node@;
        self.nodes.set(i, node);
        proof {
            let now = self.shape();
            assert(s[i as int] == was[i as int]@);
            assert(now =~= s.update(i as int, view));
            lemma_same_depths(s, now);
        }
    }

    /// Attach freshly loaded `children` to node `id`, giving each a new id. Nothing is
    /// attached if the node has vanished. An empty list marks a leaf.
    pub fn set_children(&mut self, id: NodeId, children: &Vec<TreeChild>)
        requires
            old(self).wf(),
            old(self).next_id + flat_children(children@, 0).len() <= u64::MAX,
            old(self).nodes@.len() + flat_children(children@, 0).len() <= usize::MAX,
        ensures
            final(self).wf(),
            final(self).next_id == old(self).next_id + flat_children(children@, 0).len(),
            ({
                let s = old(self).shape();
                let i = index_of(s, id as int);
                if i < s.len() {
                    final(self).shape() == grafted(
                        s,
                        i,
                        numbered(
                            flat_children(children@, s[i].depth + 1),
                            old(self).next_id as int,
                        ),
                    )
                } else {
                    final(self).shape() == s
                }
            }),
    {
        let i: usize = self.find(id);
        let ghost s = self.shape();
        let ghost base = self.next_id as int;
        if i >= self.nodes.len() {
            if let Some(count) = count_within(children, u64::MAX - self.next_id) {
                self.next_id = self.next_id + count;
            }
            return;
        }
        let end: usize = self.end(i);
        let ghost was = self.nodes@;
        let mut tail = self.nodes.split_off(end);
        let mut dropped = self.nodes.split_off(i + 1);
        dropped.clear();
        let ghost head = self.nodes@;
        proof {
            assert(head =~= was.take(i + 1));
            assert(tail@ =~= was.skip(end as int));
            lemma_depth_bound(s, i as int);
            assert(s[i as int] == was[i as int]@);
        }
        let depth: usize = self.nodes[i].depth;
        let parent = TreeNode {
            id: self.nodes[i].id,
            label: self.nodes[i].label.clone(),
            icon: self.nodes[i].icon.clone(),
            location: self.nodes[i].location.clone(),
            expanded: self.nodes[i].expanded,
            children: Children::Loaded,
            depth,
        };
        let ghost pv = parent@;
        self.nodes.set(i, parent);
        let ghost before = self.nodes@;
        proof {
            lemma_flat_len(children@, 0, depth + 1);
        }
        self.next_id = graft_children(children, depth + 1, &mut self.nodes, self.next_id);
        let ghost kids = numbered(flat_children(children@, depth + 1), base);
        self.nodes.append(&mut tail);
        proof {
            let now = self.shape();
            assert(node_views(before) =~= s.take(i as int).push(pv));
            assert(now =~= node_views(before) + kids + s.skip(end as int));
            assert(now =~= grafted(s, i as int, kids));
            lemma_flat_shape(children@, depth + 1);
            lemma_grafted_is_tree(s, i as int, flat_children(children@, depth + 1), base);
        }
    }

    /// Walk from the root toward `target`, expanding each ancestor so that the target
    /// becomes visible. When an ancestor's children have not been loaded, that is what
    /// has to happen first.
    pub fn reveal_path(&mut self, target: &WinPath) -> (r: Reveal)
        requires
            old(self).wf(),
        ensures
            final(self).wf(),
            final(self).next_id == old(self).next_id,
            final(self).shape() == walk_to(old(self).shape(), 0, target@).nodes,
            r@ == walk_to(old(self).shape(), 0, target@).outcome,
    {
        let ghost whole = walk_to(self.shape(), 0, target@);
        let mut i: usize = 0;
        loop
            invariant
                self.wf(),
                self.next_id == old(self).next_id,
                i < self.nodes@.len(),
                walk_to(self.shape(), i as int, target@) == whole,
                whole == walk_to(old(self).shape(), 0, target@),
            decreases self.nodes@.len() - i,
        {
            let ghost s = self.shape();
            assert(s[i as int] == self.nodes@[i as int]@);
            if let Location::Path(p) = &self.nodes[i].location {
                if p.same(target) {
                    return Reveal::Stop;
                }
            }
            let children: Children = self.nodes[i].children;
            match children {
                Children::Unloaded => {
                    let id: NodeId = self.nodes[i].id;
                    let location = self.nodes[i].location.clone();
                    self.mark(i, true, true);
                    return Reveal::Load(id, location);
                },
                Children::Loading => {
                    self.mark(i, true, false);
                    assert(self.shape() =~= s.update(
                        i as int,
                        Node { expanded: true, ..s[i as int] },
                    ));
                    return Reveal::Wait;
                },
                Children::Loaded => {
                    self.mark(i, true, false);
                    proof {
                        assert(self.shape() =~= s.update(
                            i as int,
                            Node { expanded: true, ..s[i as int] },
                        ));
                        lemma_next_toward(self.shape(), i as int, target@);
                    }
                    match self.step_toward(i, target) {
                        Some(k) => {
                            i = k;
                        },
                        None => {
                            return Reveal::Stop;
                        },
                    }
                },
            }
        }
    }

    /// Which child of node `i` leads toward `target`.
    fn step_toward(&self, i: usize, target: &WinPath) -> (r: Option<usize>)
        requires
            self.wf(),
            i < self.nodes@.len(),
        ensures
            match r {
                Some(k) => i < k < self.nodes@.len() && next_toward(
                    self.shape(),
                    i as int,
                    target@,
                ) == Some(k as int),
                None => next_toward(self.shape(), i as int, target@) is None,
            },
    {
        proof {
            lemma_next_toward(self.shape(), i as int, target@);
        }
        match self.best_child_index(i, target) {
            Some(k) => Some(k),
            None => {
                let root = if is_wsl_path(target) {
                    Location::Wsl
                } else {
                    Location::ThisPc
                };
                self.child_at(i, &root)
            },
        }
    }

    /// Among the children of node `i`, the one whose folder contains `target` most
    /// closely.
    fn best_child_index(&self, i: usize, target: &WinPath) -> (r: Option<usize>)
        requires
            i < self.nodes@.len(),
        ensures
            match r {
                Some(k) => k < self.nodes@.len() && best_before(
                    self.shape(),
                    i as int,
                    target@,
                    self.nodes@.len() as int,
                ) == Some(k as int),
                None => best_before(
                    self.shape(),
                    i as int,
                    target@,
                    self.nodes@.len() as int,
                ) is None,
            },
    {
        let ghost s = self.shape();
        let end: usize = self.end(i);
        let mut best: Option<usize> = None;
        let mut depth: usize = 0;
        let mut j: usize = 0;
        while j < self.nodes.len()
            invariant
                s == self.shape(),
                i < self.nodes@.len(),
                end == end_of(s, i as int),
                j <= self.nodes@.len(),
                match best {
                    Some(k) => k < j && best_before(s, i as int, target@, j as int) == Some(
                        k as int,
                    ) && depth == reach(s[k as int]),
                    None => best_before(s, i as int, target@, j as int) is None,
                },
            decreases self.nodes@.len() - j,
        {
            assert(s[j as int] == self.nodes@[j as int]@);
            assert(s[i as int] == self.nodes@[i as int]@);
            if i < j && j < end && self.nodes[j].depth > 0 && self.nodes[j].depth - 1
                == self.nodes[i].depth {
                if let Location::Path(p) = &self.nodes[j].location {
                    if target.starts_with(p) {
                        let d: usize = p.depth();
                        if best.is_none() || d >= depth {
                            best = Some(j);
                            depth = d;
                        }
                    }
                }
            }
            j += 1;
        }
        best
    }
}

impl Default for Tree {
    fn default() -> (r: Tree)
        ensures
            r.wf(),
            r.next_id == 1,
            r.shape() == seq![root_node()],
    {
        Tree::new()
    }
}

/// Append the nodes for `children` at the given depth; the next free id comes back.
fn graft_children(children: &Vec<TreeChild>, depth: usize, out: &mut Vec<TreeNode>, next: NodeId) -> (r:
    NodeId)
    requires
        depth <= old(out)@.len(),
        next + flat_children(children@, depth as int).len() <= u64::MAX,
        old(out)@.len() + flat_children(children@, depth as int).len() <= usize::MAX,
    ensures
        r == next + flat_children(children@, depth as int).len(),
        node_views(final(out)@) == node_views(old(out)@) + numbered(
            flat_children(children@, depth as int),
            next as int,
        ),
    decreases children,
{
    let mut id: NodeId = next;
    let ghost before = node_views(out@);
    let ghost d = depth as int;
    assert(children@.take(0) =~= seq![]);
    assert(before + numbered(flat_children(children@.take(0), d), next as int) =~= before);
    for i in 0..children.len()
        invariant
            d == depth as int,
            depth <= out@.len(),
            next + flat_children(children@, d).len() <= u64::MAX,
            before.len() + flat_children(children@, d).len() <= usize::MAX,
            id == next + flat_children(children@.take(i as int), d).len(),
            node_views(out@) == before + numbered(
                flat_children(children@.take(i as int), d),
                next as int,
            ),
    {
        let ghost done = flat_children(children@.take(i as int), d);
        let ghost one = flat_child(children@[i as int], d);
        proof {
            assert(children@.take(i + 1).drop_last() =~= children@.take(i as int));
            assert(children@.take(i + 1).last() == children@[i as int]);
            lemma_flat_prefix(children@, i + 1, d);
            assert(decreases_to!(children => children@[i as int]));
        }
        assert(node_views(out@).len() == out@.len());
        assert(flat_children(children@.take(i + 1), d).len() == done.len() + one.len());
        id = graft_child(&children[i], depth, out, id);
        proof {
            assert(node_views(out@) =~= before + numbered(done + one, next as int));
        }
    }
    assert(children@.take(children@.len() as int) =~= children@);
    id
}

/// Append the nodes for one child at the given depth; the next free id comes back.
fn graft_child(c: &TreeChild, depth: usize, out: &mut Vec<TreeNode>, next: NodeId) -> (r: NodeId)
    requires
        depth <= old(out)@.len(),
        next + flat_child(*c, depth as int).len() <= u64::MAX,
        old(out)@.len() + flat_child(*c, depth as int).len() <= usize::MAX,
    ensures
        r == next + flat_child(*c, depth as int).len(),
        node_views(final(out)@) == node_views(old(out)@) + numbered(
            flat_child(*c, depth as int),
            next as int,
        ),
    decreases c,
{
    let ghost before = node_views(out@);
    let ghost d = depth as int;
    let known: bool = c.children.is_some();
    out.push(
        TreeNode {
            id: next,
            label: c.label.clone(),
            icon: c.icon.clone(),
            location: c.location.clone(),
            expanded: c.expanded,
            children: if known {
                Children::Loaded
            } else {
                Children::Unloaded
            },
            depth,
        },
    );
    let ghost first = node_views(out@);
    assert(first =~= before.push(Node { id: next as int, ..graft(*c, d) }));
    match &c.children {
        Some(v) => {
            let r = graft_children(v, depth + 1, out, next + 1);
            proof {
                let rest = flat_children(v@, d + 1);
                assert(flat_child(*c, d) =~= seq![graft(*c, d)] + rest);
                assert(node_views(out@) =~= before + numbered(flat_child(*c, d), next as int));
            }
            r
        },
        None => {
            assert(flat_child(*c, d) =~= seq![graft(*c, d)]);
            assert(node_views(out@) =~= before + numbered(flat_child(*c, d), next as int));
            next + 1
        },
    }
}

/// How many nodes a list of children becomes, if that is no more than `limit`.
pub fn count_within(children: &Vec<TreeChild>, limit: u64) -> (r: Option<u64>)
    ensures
        match r {
            Some(n) => n == flat_children(children@, 0).len() && n <= limit,
            None => flat_children(children@, 0).len() > limit,
        },
    decreases children,
{
    let mut n: u64 = 0;
    assert(children@.take(0) =~= seq![]);
    for i in 0..children.len()
        invariant
            n == flat_children(children@.take(i as int), 0).len(),
            n <= limit,
    {
        proof {
            assert(children@.take(i + 1).drop_last() =~= children@.take(i as int));
            assert(children@.take(i + 1).last() == children@[i as int]);
            lemma_flat_prefix(children@, i + 1, 0);
            assert(decreases_to!(children => children@[i as int]));
        }
        match count_child(&children[i], limit - n) {
            Some(m) => {
                n = n + m;
            },
            None => return None,
        }
    }
    assert(children@.take(children@.len() as int) =~= children@);
    Some(n)
}

/// How many nodes one child becomes, if that is no more than `limit`.
fn count_child(c: &TreeChild, limit: u64) -> (r: Option<u64>)
    ensures
        match r {
            Some(n) => n == flat_child(*c, 0).len() && n <= limit,
            None => flat_child(*c, 0).len() > limit,
        },
    decreases c,
{
    if limit == 0 {
        return None;
    }
    match &c.children {
        Some(v) => {
            proof {
                lemma_flat_len(v@, 1, 0);
            }
            match count_within(v, limit - 1) {
                Some(n) => Some(n + 1),
                None => None,
            }
        },
        None => Some(1),
    }
}

/// How many nodes a list becomes does not depend on its depth.
proof fn lemma_flat_len(s: Seq<TreeChild>, a: int, b: int)
    ensures
        flat_children(s, a).len() == flat_children(s, b).len(),
    decreases s,
{
    if s.len() > 0 {
        lemma_flat_len(s.drop_last(), a, b);
        lemma_flat_child_len(s.last(), a, b);
    }
}

proof fn lemma_flat_child_len(c: TreeChild, a: int, b: int)
    ensures
        flat_child(c, a).len() == flat_child(c, b).len(),
    decreases c,
{
    if let Some(v) = c.children {
        lemma_flat_len(v@, a + 1, b + 1);
    }
}

/// The first children of a list become no more nodes than all of them.
proof fn lemma_flat_prefix(s: Seq<TreeChild>, i: int, d: int)
    requires
        0 <= i <= s.len(),
    ensures
        flat_children(s.take(i), d).len() <= flat_children(s, d).len(),
    decreases s.len(),
{
    if i == s.len() {
        assert(s.take(i) =~= s);
    } else {
        lemma_flat_prefix(s.drop_last(), i, d);
        assert(s.drop_last().take(i) =~= s.take(i));
    }
}

/// Whether `s` is a forest whose top level lies at depth `d`.
spec fn is_forest(s: Seq<Node>, d: int) -> bool {
    &&& forall|k: int| 0 <= k < s.len() ==> (#[trigger] s[k]).depth >= d
    &&& s.len() > 0 ==> s[0].depth == d
    &&& forall|k: int| 0 <= k < s.len() - 1 ==> #[trigger] link(s, k)
}

proof fn lemma_forest_join(a: Seq<Node>, b: Seq<Node>, d: int)
    requires
        is_forest(a, d),
        is_forest(b, d),
    ensures
        is_forest(a + b, d),
{
    let s = a + b;
    assert forall|k: int| 0 <= k < s.len() - 1 implies #[trigger] link(s, k) by {
        if k + 1 < a.len() {
            assert(link(a, k));
            assert(s[k] == a[k] && s[k + 1] == a[k + 1]);
        } else if k < a.len() {
            assert(s[k] == a[k] && s[k + 1] == b[0]);
        } else {
            assert(link(b, k - a.len()));
            assert(s[k] == b[k - a.len()] && s[k + 1] == b[k - a.len() + 1]);
        }
    }
}

/// What a list of children becomes is a forest at its depth.
proof fn lemma_flat_shape(s: Seq<TreeChild>, d: int)
    ensures
        is_forest(flat_children(s, d), d),
    decreases s,
{
    if s.len() > 0 {
        lemma_flat_shape(s.drop_last(), d);
        lemma_flat_child_shape(s.last(), d);
        lemma_forest_join(flat_children(s.drop_last(), d), flat_child(s.last(), d), d);
    }
}

proof fn lemma_flat_child_shape(c: TreeChild, d: int)
    ensures
        is_forest(flat_child(c, d), d),
    decreases c,
{
    let s = flat_child(c, d);
    if let Some(v) = c.children {
        lemma_flat_shape(v@, d + 1);
        let rest = flat_children(v@, d + 1);
        assert(s =~= seq![graft(c, d)] + rest);
        assert forall|k: int| 0 <= k < s.len() - 1 implies #[trigger] link(s, k) by {
            assert(s[k + 1] == rest[k]);
            if k > 0 {
                assert(link(rest, k - 1));
                assert(s[k] == rest[k - 1]);
            }
        }
        assert forall|k: int| 0 <= k < s.len() implies (#[trigger] s[k]).depth >= d by {
            if k > 0 {
                assert(s[k] == rest[k - 1]);
            }
        }
    } else {
        assert(s =~= seq![graft(c, d)]);
    }
}

/// The depth of a node is at most its index.
proof fn lemma_depth_bound(s: Seq<Node>, i: int)
    requires
        is_tree(s),
        0 <= i < s.len(),
    ensures
        0 <= s[i].depth <= i,
    decreases i,
{
    if i > 0 {
        lemma_depth_bound(s, i - 1);
        assert(link(s, i - 1));
    }
}

/// Changing what a node shows leaves a tree a tree.
proof fn lemma_same_depths(s: Seq<Node>, t: Seq<Node>)
    requires
        is_tree(s),
        s.len() == t.len(),
        forall|k: int|
            0 <= k < s.len() ==> (#[trigger] t[k]).depth == s[k].depth && t[k].id == s[k].id && (
            s[k].children == Children::Loaded <==> t[k].children == Children::Loaded),
    ensures
        is_tree(t),
        forall|next: int| ids_unique(s, next) ==> ids_unique(t, next),
{
    assert forall|i: int| 0 <= i < t.len() - 1 implies #[trigger] link(t, i) by {
        assert(link(s, i));
        assert(t[i].depth == s[i].depth);
        assert(t[i + 1].depth == s[i + 1].depth);
    }
    assert forall|next: int| ids_unique(s, next) implies ids_unique(t, next) by {
        assert forall|i: int, j: int| 0 <= i < j < t.len() implies (#[trigger] t[i]).id != (
        #[trigger] t[j]).id by {
            assert(s[i].id != s[j].id);
        }
        assert forall|i: int| 0 <= i < t.len() implies 0 <= (#[trigger] t[i]).id < next by {
            assert(0 <= s[i].id < next);
        }
    }
}

/// Attaching a forest below a node leaves a tree with unique ids.
proof fn lemma_grafted_is_tree(s: Seq<Node>, i: int, kids: Seq<Node>, base: int)
    requires
        is_tree(s),
        ids_unique(s, base),
        0 <= i < s.len(),
        is_forest(kids, s[i].depth + 1),
        base >= 0,
    ensures
        is_tree(grafted(s, i, numbered(kids, base))),
        ids_unique(grafted(s, i, numbered(kids, base)), base + kids.len()),
{
    let new = numbered(kids, base);
    let end = end_of(s, i);
    lemma_end_from(s, i, i + 1);
    let t = grafted(s, i, new);
    let n = kids.len() as int;
    assert(t.len() == i + 1 + n + (s.len() - end));
    assert forall|k: int| 0 <= k < i implies #[trigger] t[k] == s[k] by {}
    assert(t[i] == (Node { children: Children::Loaded, ..s[i] }));
    assert forall|k: int| i < k < i + 1 + n implies #[trigger] t[k] == new[k - i - 1] by {}
    assert forall|k: int| i + 1 + n <= k < t.len() implies #[trigger] t[k] == s[k - i - 1 - n
        + end] by {}
    lemma_depth_bound(s, i);
    assert forall|k: int| 1 <= k < t.len() implies 1 <= (#[trigger] t[k]).depth by {
        if i < k < i + 1 + n {
            assert(t[k].depth == kids[k - i - 1].depth);
        } else if k > i {
            assert(t[k] == s[k - i - 1 - n + end]);
        }
    }
    assert forall|k: int| 0 <= k < t.len() - 1 implies #[trigger] link(t, k) by {
        if k < i {
            assert(link(s, k));
            assert(t[k] == s[k]);
            assert(t[k + 1].depth == s[k + 1].depth);
        } else if k == i {
            if n > 0 {
                assert(t[k + 1].depth == kids[0].depth);
            } else {
                assert(t[k + 1] == s[end]);
            }
        } else if k + 1 < i + 1 + n {
            assert(link(kids, k - i - 1));
            assert(t[k].depth == kids[k - i - 1].depth);
            assert(t[k + 1].depth == kids[k - i].depth);
            assert(t[k].children == kids[k - i - 1].children);
        } else if k < i + 1 + n {
            assert(t[k].depth == kids[k - i - 1].depth);
            assert(t[k + 1] == s[end]);
        } else {
            let m = k - i - 1 - n + end;
            assert(link(s, m));
            assert(t[k] == s[m]);
            assert(t[k + 1] == s[m + 1]);
        }
    }
    if i == 0 {
        assert(t[0].id == s[0].id);
    } else {
        assert(t[0] == s[0]);
    }
    assert forall|a: int, b: int| 0 <= a < b < t.len() implies (#[trigger] t[a]).id != (
    #[trigger] t[b]).id by {
        lemma_graft_id(s, i, new, t, a);
        lemma_graft_id(s, i, new, t, b);
        let x = if a <= i {
            a
        } else {
            a - i - 1 - n + end
        };
        let y = if b <= i {
            b
        } else {
            b - i - 1 - n + end
        };
        let a_new = i < a < i + 1 + n;
        let b_new = i < b < i + 1 + n;
        if !a_new && !b_new {
            assert(s[x].id != s[y].id);
        }
    }
    assert forall|k: int| 0 <= k < t.len() implies 0 <= (#[trigger] t[k]).id < base + n by {
        lemma_graft_id(s, i, new, t, k);
    }
}

proof fn lemma_graft_id(s: Seq<Node>, i: int, new: Seq<Node>, t: Seq<Node>, k: int)
    requires
        0 <= i < s.len(),
        t == grafted(s, i, new),
        i < end_of(s, i) <= s.len(),
        0 <= k < t.len(),
    ensures
        k <= i ==> t[k].id == s[k].id,
        i < k < i + 1 + new.len() ==> t[k].id == new[k - i - 1].id,
        k >= i + 1 + new.len() ==> t[k].id == s[k - i - 1 - new.len() + end_of(s, i)].id,
{
}

/// Whether every node that contains node `i` is expanded.
pub open spec fn in_view(s: Seq<Node>, i: int) -> bool {
    forall|j: int| 0 <= j < i && i < #[trigger] end_of(s, j) ==> s[j].expanded
}

/// The node at which a reveal ends is in view: everything above it has been expanded. A
/// target that is in the tree is thus made visible, and so is a node that has to be
/// loaded first.
pub proof fn law_revealed_node_is_in_view(s: Seq<Node>, target: Seq<char>)
    requires
        is_tree(s),
    ensures
        ({
            let w = walk_to(s, 0, target);
            0 <= w.at < s.len() && in_view(w.nodes, w.at)
        }),
{
    lemma_walk_in_view(s, 0, target);
}

proof fn lemma_walk_in_view(s: Seq<Node>, i: int, target: Seq<char>)
    requires
        is_tree(s),
        0 <= i < s.len(),
        in_view(s, i),
    ensures
        ({
            let w = walk_to(s, i, target);
            i <= w.at < s.len() && in_view(w.nodes, w.at)
        }),
    decreases s.len() - i,
{
    let open = s.update(i, Node { expanded: true, ..s[i] });
    lemma_same_depths(s, open);
    lemma_ends_agree(s, open);
    if !is_target(s, i, target) {
        match s[i].children {
            Children::Loaded => {
                lemma_next_toward(open, i, target);
                if let Some(k) = next_toward(open, i, target) {
                    assert(in_view(open, k)) by {
                        assert forall|j: int| 0 <= j < k && k < #[trigger] end_of(
                            open,
                            j,
                        ) implies open[j].expanded by {
                            lemma_end_from(open, j, j + 1);
                            if j < i {
                                assert(i < end_of(s, j));
                            } else if j > i {
                                lemma_end_from(open, i, i + 1);
                                assert(open[j].depth > open[i].depth);
                                assert(open[k].depth > open[j].depth);
                            }
                        }
                    }
                    lemma_walk_in_view(open, k, target);
                }
            },
            Children::Loading => {},
            Children::Unloaded => {
                let t = s.update(
                    i,
                    Node { expanded: true, children: Children::Loading, ..s[i] },
                );
                lemma_same_depths(s, t);
                lemma_ends_agree(s, t);
            },
        }
    }
}

/// Where a node's descendants end depends on the depths alone.
proof fn lemma_ends_agree(s: Seq<Node>, t: Seq<Node>)
    requires
        s.len() == t.len(),
        forall|k: int| 0 <= k < s.len() ==> (#[trigger] t[k]).depth == s[k].depth,
    ensures
        forall|j: int| 0 <= j < s.len() ==> #[trigger] end_of(t, j) == end_of(s, j),
{
    assert forall|j: int| 0 <= j < s.len() implies #[trigger] end_of(t, j) == end_of(s, j) by {
        lemma_ends_agree_from(s, t, j, j + 1);
    }
}

proof fn lemma_ends_agree_from(s: Seq<Node>, t: Seq<Node>, i: int, j: int)
    requires
        s.len() == t.len(),
        forall|k: int| 0 <= k < s.len() ==> (#[trigger] t[k]).depth == s[k].depth,
        0 <= i < j <= s.len(),
    ensures
        end_from(t, i, j) == end_from(s, i, j),
    decreases s.len() - j,
{
    assert(t[i].depth == s[i].depth);
    if j < s.len() {
        assert(t[j].depth == s[j].depth);
        if s[j].depth > s[i].depth {
            lemma_ends_agree_from(s, t, i, j + 1);
        }
    }
}

/// The nodes of a list that lie at depth `d`, in order.
pub open spec fn at_depth(s: Seq<Node>, d: int) -> Seq<Node> {
    s.filter(|n: Node| n.depth == d)
}

proof fn lemma_none_at_depth(s: Seq<Node>, d: int)
    requires
        forall|k: int| 0 <= k < s.len() ==> (#[trigger] s[k]).depth > d,
    ensures
        at_depth(s, d) == Seq::<Node>::empty(),
    decreases s.len(),
{
    reveal(Seq::filter);
    if s.len() > 0 {
        let rest = s.drop_last();
        assert forall|k: int| 0 <= k < rest.len() implies (#[trigger] rest[k]).depth > d by {
            assert(rest[k] == s[k]);
        }
        lemma_none_at_depth(rest, d);
        assert(s[s.len() - 1].depth > d);
    }
}

proof fn lemma_one_at_depth(n: Node)
    ensures
        at_depth(seq![n], n.depth) == seq![n],
{
    reveal(Seq::filter);
    assert(seq![n].drop_last() =~= Seq::<Node>::empty());
    assert(at_depth(seq![n], n.depth) =~= seq![n]);
}

/// The top level of a child and what is attached to it is the child itself.
proof fn lemma_top_of_child(c: TreeChild, d: int)
    ensures
        at_depth(flat_child(c, d), d) == seq![graft(c, d)],
{
    let rest = match c.children {
        Some(v) => flat_children(v@, d + 1),
        None => seq![],
    };
    if let Some(v) = c.children {
        lemma_flat_shape(v@, d + 1);
    }
    lemma_none_at_depth(rest, d);
    lemma_one_at_depth(graft(c, d));
    Seq::filter_distributes_over_add(seq![graft(c, d)], rest, |n: Node| n.depth == d);
    assert(flat_child(c, d) =~= seq![graft(c, d)] + rest);
    assert(at_depth(flat_child(c, d), d) =~= seq![graft(c, d)]);
}

/// The top level of what a list of children becomes is the list itself.
proof fn lemma_top_level(s: Seq<TreeChild>, d: int)
    ensures
        at_depth(flat_children(s, d), d) == s.map_values(|c: TreeChild| graft(c, d)),
    decreases s.len(),
{
    if s.len() == 0 {
        lemma_none_at_depth(seq![], d);
        assert(flat_children(s, d) =~= Seq::<Node>::empty());
        assert(at_depth(flat_children(s, d), d) =~= s.map_values(|c: TreeChild| graft(c, d)));
    } else {
        let c = s.last();
        let before = flat_children(s.drop_last(), d);
        lemma_top_level(s.drop_last(), d);
        lemma_top_of_child(c, d);
        Seq::filter_distributes_over_add(before, flat_child(c, d), |n: Node| n.depth == d);
        assert(flat_children(s, d) == before + flat_child(c, d));
        assert(at_depth(flat_children(s, d), d) =~= s.map_values(|c: TreeChild| graft(c, d)));
    }
}

/// Children that arrive replace the old ones and touch nothing else: below the node stand
/// exactly they, in order, with ids that no node has had; every node outside stays as it is.
/// With none, the node cannot be expanded.
pub proof fn law_new_children_replace_the_old(
    s: Seq<Node>,
    i: int,
    children: Seq<TreeChild>,
    next: int,
)
    requires
        is_tree(s),
        ids_unique(s, next),
        0 <= i < s.len(),
    ensures
        ({
            let d = s[i].depth + 1;
            let flat = flat_children(children, d);
            let kids = numbered(flat, next);
            let now = grafted(s, i, kids);
            let end = end_of(s, i);
            &&& now[i] == (Node { children: Children::Loaded, ..s[i] })
            &&& end_of(now, i) == i + 1 + kids.len()
            &&& now.subrange(i + 1, end_of(now, i)) == kids
            &&& at_depth(flat, d) == children.map_values(|c: TreeChild| graft(c, d))
            &&& forall|k: int| 0 <= k < i ==> #[trigger] now[k] == s[k]
            &&& now.skip(end_of(now, i)) == s.skip(end)
            &&& forall|k: int, j: int|
                0 <= k < kids.len() && 0 <= j < s.len() ==> (#[trigger] kids[k]).id != (
                #[trigger] s[j]).id
            &&& forall|k: int| 0 <= k < kids.len() ==> (#[trigger] kids[k]).id != ROOT_ID
            &&& children.len() == 0 ==> !row_of(now, i).expandable
        }),
{
    let d = s[i].depth + 1;
    let flat = flat_children(children, d);
    let kids = numbered(flat, next);
    let now = grafted(s, i, kids);
    let end = end_of(s, i);
    let n = kids.len() as int;
    lemma_end_from(s, i, i + 1);
    lemma_flat_shape(children, d);
    lemma_top_level(children, d);
    assert(s[0].id < next);
    assert forall|k: int| i < k < i + 1 + n implies (#[trigger] now[k]).depth > now[i].depth by {
        assert(now[k] == kids[k - i - 1]);
        assert(kids[k - i - 1].depth == flat[k - i - 1].depth);
    }
    if end < s.len() {
        assert(now[i + 1 + n] == s[end]);
    }
    lemma_end_at(now, i, i + 1, i + 1 + n);
    assert(now.subrange(i + 1, i + 1 + n) =~= kids);
    assert(now.skip(i + 1 + n) =~= s.skip(end));
    if children.len() == 0 {
        assert(n == 0);
    }
}

/// `end_from` is where the deeper nodes end.
proof fn lemma_end_at(s: Seq<Node>, i: int, j: int, end: int)
    requires
        0 <= i < j <= end <= s.len(),
        forall|k: int| j <= k < end ==> (#[trigger] s[k]).depth > s[i].depth,
        end < s.len() ==> s[end].depth <= s[i].depth,
    ensures
        end_from(s, i, j) == end,
    decreases end - j,
{
    if j < end {
        assert(s[j].depth > s[i].depth);
        lemma_end_at(s, i, j + 1, end);
    }
}

/// Collapsing a node and expanding it again restores the tree without a reload, once its
/// children have been asked for.
pub proof fn law_toggle_twice_restores(s: Seq<Node>, i: int)
    requires
        0 <= i < s.len(),
        s[i].children != Children::Unloaded,
    ensures
        toggled(toggled(s, i), i) == s,
{
    assert(toggled(toggled(s, i), i) =~= s);
}

/// The sidebar shows a node exactly when every node that contains it is expanded.
pub proof fn law_sidebar_shows_what_is_in_view(s: Seq<Node>, i: int)
    requires
        is_tree(s),
        s[0].expanded,
        1 <= i < s.len(),
    ensures
        shown_from(s, 1).contains(i) <==> in_view(s, i),
{
    lemma_shown_from(s, 1, i);
}

/// Showing from `start` on leaves out just what a collapsed node from there on contains.
proof fn lemma_shown_from(s: Seq<Node>, start: int, i: int)
    requires
        0 <= start <= s.len(),
        0 <= i < s.len(),
    ensures
        i < start ==> !shown_from(s, start).contains(i),
        i >= start ==> (shown_from(s, start).contains(i) <==> forall|j: int|
            start <= j < i && i < #[trigger] end_of(s, j) ==> s[j].expanded),
    decreases s.len() - start,
{
    if start < s.len() {
        lemma_end_from(s, start, start + 1);
        let next = if s[start].expanded {
            start + 1
        } else {
            end_of(s, start)
        };
        let rest = shown_from(s, next);
        let all = shown_from(s, start);
        assert(all =~= seq![start] + rest);
        lemma_shown_from(s, next, i);
        if i == start {
            assert(all[0] == i);
        } else if rest.contains(i) {
            let k = choose|k: int| 0 <= k < rest.len() && rest[k] == i;
            assert(all[k + 1] == i);
        } else if all.contains(i) {
            let k = choose|k: int| 0 <= k < all.len() && all[k] == i;
            assert(rest[k - 1] == i);
        }
        if i > start {
            if s[start].expanded {
            } else if i < next {
                assert(i < end_of(s, start));
            } else {
                assert forall|j: int| start <= j < next && i < #[trigger] end_of(
                    s,
                    j,
                ) implies s[j].expanded by {
                    if j > start {
                        lemma_end_from(s, j, j + 1);
                        assert(s[j].depth > s[start].depth);
                        assert(s[next].depth <= s[start].depth);
                    }
                }
            }
        }
    }
}

/// A tree and the next id it gives out.
pub ghost struct Grove {
    pub nodes: Seq<Node>,
    pub next: int,
}

/// Something done to the tree.
pub ghost enum TreeOp {
    /// A node is expanded or collapsed.
    Toggle(int),
    /// The children of a node arrive.
    SetChildren(int, Seq<TreeChild>),
    /// A path is revealed.
    Reveal(Seq<char>),
}

impl Grove {
    /// The depths form a tree, and every id is unique.
    pub open spec fn wf(self) -> bool {
        is_tree(self.nodes) && ids_unique(self.nodes, self.next)
    }

    /// The tree after an operation.
    pub open spec fn applied(self, op: TreeOp) -> Grove {
        let s = self.nodes;
        match op {
            TreeOp::Toggle(id) => {
                let i = index_of(s, id);
                if i < s.len() {
                    Grove { nodes: toggled(s, i), ..self }
                } else {
                    self
                }
            },
            TreeOp::SetChildren(id, children) => {
                let i = index_of(s, id);
                Grove {
                    nodes: if i < s.len() {
                        grafted(s, i, numbered(flat_children(children, s[i].depth + 1), self.next))
                    } else {
                        s
                    },
                    next: self.next + flat_children(children, 0).len(),
                }
            },
            TreeOp::Reveal(target) => Grove { nodes: walk_to(s, 0, target).nodes, ..self },
        }
    }

    /// The node whose children an operation asks for, if it asks for any.
    pub open spec fn asks(self, op: TreeOp) -> Option<int> {
        let s = self.nodes;
        match op {
            TreeOp::Toggle(id) => {
                let i = index_of(s, id);
                if i < s.len() && !s[i].expanded && s[i].children == Children::Unloaded {
                    Some(id)
                } else {
                    None
                }
            },
            TreeOp::SetChildren(_, _) => None,
            TreeOp::Reveal(target) => match walk_to(s, 0, target).outcome {
                Revealed::Load(id, _) => Some(id),
                _ => None,
            },
        }
    }

    /// The tree after a number of operations.
    pub open spec fn after(self, ops: Seq<TreeOp>) -> Grove
        decreases ops.len(),
    {
        if ops.len() == 0 {
            self
        } else {
            self.after(ops.drop_last()).applied(ops.last())
        }
    }

    /// The nodes whose children a number of operations ask for, in order.
    pub open spec fn all_asks(self, ops: Seq<TreeOp>) -> Seq<int>
        decreases ops.len(),
    {
        if ops.len() == 0 {
            seq![]
        } else {
            let before = self.all_asks(ops.drop_last());
            match self.after(ops.drop_last()).asks(ops.last()) {
                Some(id) => before.push(id),
                None => before,
            }
        }
    }

    /// Whether the children of `id`, an id that was given out, have been asked for, or the
    /// node is gone: there is no node of that id whose children are unloaded.
    pub open spec fn settled(self, id: int) -> bool {
        &&& id < self.next
        &&& forall|j: int|
            0 <= j < self.nodes.len() && (#[trigger] self.nodes[j]).id == id
                ==> self.nodes[j].children != Children::Unloaded
    }
}

/// The children of a node are asked for at most once, whatever is done to the tree in
/// between: no operation makes a node's children unloaded again, so that a node which was
/// asked for once, or came with its children, is never asked for.
pub proof fn law_children_are_asked_for_once(g: Grove, ops: Seq<TreeOp>)
    requires
        g.wf(),
    ensures
        g.after(ops).wf(),
        g.all_asks(ops).no_duplicates(),
        forall|id: int| g.all_asks(ops).contains(id) ==> #[trigger] g.after(ops).settled(id),
        forall|id: int| g.settled(id) ==> #[trigger] g.after(ops).settled(id),
        forall|id: int| g.settled(id) ==> !#[trigger] g.all_asks(ops).contains(id),
    decreases ops.len(),
{
    if ops.len() > 0 {
        let rest = ops.drop_last();
        law_children_are_asked_for_once(g, rest);
        let h = g.after(rest);
        let op = ops.last();
        lemma_applied(h, op);
        let before = g.all_asks(rest);
        let now = g.all_asks(ops);
        assert forall|id: int| g.settled(id) implies #[trigger] g.after(ops).settled(id) by {
            assert(h.settled(id));
            assert(h.applied(op).settled(id));
        }
        if let Some(x) = h.asks(op) {
            assert(!h.settled(x));
            assert(!before.contains(x));
            assert(now =~= before.push(x));
        }
        assert forall|id: int| now.contains(id) implies #[trigger] g.after(ops).settled(id) by {
            if before.contains(id) {
                assert(h.settled(id));
            } else {
                let k = choose|k: int| 0 <= k < now.len() && now[k] == id;
                assert(k < before.len() ==> before[k] == id);
                assert(h.asks(op) == Some(id));
            }
            assert(h.applied(op).settled(id));
        }
        assert forall|id: int| g.settled(id) implies !#[trigger] now.contains(id) by {
            assert(h.settled(id));
            assert(!before.contains(id));
            if now.contains(id) {
                let k = choose|k: int| 0 <= k < now.len() && now[k] == id;
                assert(k < before.len() ==> before[k] == id);
            }
        }
    }
}

/// An operation keeps the tree well formed and every settled node settled. What it asks for
/// was not settled, and is afterwards.
proof fn lemma_applied(g: Grove, op: TreeOp)
    requires
        g.wf(),
    ensures
        g.applied(op).wf(),
        forall|id: int| g.settled(id) ==> #[trigger] g.applied(op).settled(id),
        match g.asks(op) {
            Some(id) => !g.settled(id) && g.applied(op).settled(id),
            None => true,
        },
{
    let s = g.nodes;
    let h = g.applied(op);
    match op {
        TreeOp::Toggle(id) => {
            lemma_index_range(s, id);
            let i = index_of(s, id);
            if i < s.len() {
                lemma_same_depths(s, h.nodes);
                lemma_kept(g, h);
                if g.asks(op) is Some {
                    assert(s[i].id == id);
                    assert forall|j: int| 0 <= j < s.len() && (#[trigger] h.nodes[j]).id == id implies h.nodes[j].children
                        != Children::Unloaded by {
                        if j != i {
                            assert(s[j].id == s[i].id);
                        }
                    }
                }
            }
        },
        TreeOp::SetChildren(id, children) => {
            lemma_index_range(s, id);
            let i = index_of(s, id);
            if i < s.len() {
                let d = s[i].depth + 1;
                let kids = flat_children(children, d);
                assert(0 <= s[0].id < g.next);
                lemma_depth_bound(s, i);
                lemma_flat_len(children, 0, d);
                lemma_flat_shape(children, d);
                lemma_grafted_is_tree(s, i, kids, g.next);
                lemma_end_from(s, i, i + 1);
                assert forall|x: int| g.settled(x) implies #[trigger] h.settled(x) by {
                    assert forall|j: int| 0 <= j < h.nodes.len() && (#[trigger] h.nodes[j]).id == x implies h.nodes[j].children
                        != Children::Unloaded by {
                        lemma_graft_id(s, i, numbered(kids, g.next), h.nodes, j);
                        if j < i {
                            assert(h.nodes[j] == s[j]);
                        } else if j >= i + 1 + kids.len() {
                            assert(h.nodes[j] == s[j - i - 1 - kids.len() + end_of(s, i)]);
                        } else if j > i {
                            assert(h.nodes[j] == numbered(kids, g.next)[j - i - 1]);
                        }
                    }
                }
            } else {
                assert forall|j: int| 0 <= j < s.len() implies 0 <= (#[trigger] s[j]).id < h.next by {
                    assert(s[j].id < g.next);
                }
                assert(ids_unique(h.nodes, h.next));
                assert forall|x: int| g.settled(x) implies #[trigger] h.settled(x) by {
                    assert(h.nodes == s);
                }
            }
        },
        TreeOp::Reveal(target) => {
            lemma_walk_keeps(s, 0, target);
            let w = walk_to(s, 0, target);
            lemma_same_depths(s, w.nodes);
            lemma_kept(g, h);
            if let Some(id) = g.asks(op) {
                assert(s[w.at].id == id);
                assert(s[w.at].children == Children::Unloaded);
                assert(id < g.next);
                assert forall|j: int| 0 <= j < s.len() && (#[trigger] h.nodes[j]).id == id implies h.nodes[j].children
                    != Children::Unloaded by {
                    if j != w.at {
                        assert(s[j].id == s[w.at].id);
                    }
                }
            }
        },
    }
}

/// Where only the display changes and unloaded children may begin to load, what is settled
/// stays so.
proof fn lemma_kept(g: Grove, h: Grove)
    requires
        h.next == g.next,
        h.nodes.len() == g.nodes.len(),
        forall|k: int|
            0 <= k < g.nodes.len() ==> (#[trigger] h.nodes[k]).id == g.nodes[k].id && (
            g.nodes[k].children != Children::Unloaded ==> h.nodes[k].children
                == g.nodes[k].children),
    ensures
        forall|id: int| g.settled(id) ==> #[trigger] h.settled(id),
{
    assert forall|id: int| g.settled(id) implies #[trigger] h.settled(id) by {
        assert forall|j: int| 0 <= j < h.nodes.len() && (#[trigger] h.nodes[j]).id == id implies h.nodes[j].children
            != Children::Unloaded by {
            assert(g.nodes[j].id == id);
        }
    }
}

proof fn lemma_index_range(s: Seq<Node>, id: int)
    ensures
        0 <= index_of(s, id) <= s.len(),
        index_of(s, id) < s.len() ==> s[index_of(s, id)].id == id,
    decreases s.len(),
{
    if s.len() > 0 && s[0].id != id {
        lemma_index_range(s.drop_first(), id);
    }
}

/// A walk only expands nodes, and begins to load the one at which it ends.
proof fn lemma_walk_keeps(s: Seq<Node>, i: int, target: Seq<char>)
    requires
        0 <= i < s.len(),
    ensures
        ({
            let w = walk_to(s, i, target);
            &&& i <= w.at < s.len()
            &&& w.nodes.len() == s.len()
            &&& forall|k: int|
                0 <= k < s.len() ==> (#[trigger] w.nodes[k]) == (Node {
                    expanded: w.nodes[k].expanded,
                    children: w.nodes[k].children,
                    ..s[k]
                }) && (w.nodes[k].children == s[k].children || (k == w.at && w.outcome is Load
                    && s[k].children == Children::Unloaded && w.nodes[k].children
                    == Children::Loading))
            &&& w.outcome matches Revealed::Load(id, place) ==> id == s[w.at].id && place
                == s[w.at].place && s[w.at].children == Children::Unloaded && w.nodes[w.at].children
                == Children::Loading
        }),
    decreases s.len() - i,
{
    let open = s.update(i, Node { expanded: true, ..s[i] });
    if !is_target(s, i, target) && s[i].children == Children::Loaded {
        lemma_next_toward(open, i, target);
        if let Some(k) = next_toward(open, i, target) {
            lemma_walk_keeps(open, k, target);
            let w = walk_to(open, k, target);
            assert(walk_to(s, i, target) == w);
            assert(open[w.at].id == s[w.at].id);
            assert forall|k: int| 0 <= k < s.len() implies (#[trigger] w.nodes[k]) == (Node {
                expanded: w.nodes[k].expanded,
                children: w.nodes[k].children,
                ..s[k]
            }) && (w.nodes[k].children == s[k].children || (k == w.at && w.outcome is Load
                && s[k].children == Children::Unloaded && w.nodes[k].children
                == Children::Loading)) by {
                assert(open[k].children == s[k].children);
            }
        }
    }
}

/// Expanding or collapsing a node changes that node only: what was collapsed is expanded and
/// what was expanded collapsed. Its children are on their way once it is expanded for the first
/// time.
pub proof fn law_toggle_changes_one_node(s: Seq<Node>, i: int)
    requires
        0 <= i < s.len(),
    ensures
        toggled(s, i).len() == s.len(),
        forall|k: int| 0 <= k < s.len() && k != i ==> #[trigger] toggled(s, i)[k] == s[k],
        toggled(s, i)[i] == (Node {
            expanded: !s[i].expanded,
            children: if s[i].children == Children::Unloaded && !s[i].expanded {
                Children::Loading
            } else {
                s[i].children
            },
            ..s[i]
        }),
{
}

/// Whether a node stands on the way to `target`: its folder contains it, or it is the landing
/// page under which the target lies.
pub open spec fn on_the_way(n: Node, target: Seq<char>) -> bool {
    match n.place {
        Place::Path(p) => under(target, p),
        Place::ThisPc => !wsl_path(target),
        Place::Wsl => wsl_path(target),
    }
}

/// Of the children of a node, the way to a target leads over a folder that contains it, the
/// closest there is, and of equals the last; without one, over the landing page; and without that, nowhere.
pub proof fn law_way_leads_over_the_closest_folder(s: Seq<Node>, i: int, target: Seq<char>)
    requires
        0 <= i < s.len(),
    ensures
        match next_toward(s, i, target) {
            Some(k) => {
                &&& i < k < s.len()
                &&& is_child(s, i, k)
                &&& on_the_way(s[k], target)
                &&& forall|m: int|
                    #[trigger] is_child(s, i, m) && s[m].place is Path && on_the_way(s[m], target)
                        ==> s[k].place is Path && comps(s[m].place->Path_0).len() <= comps(
                        s[k].place->Path_0,
                    ).len() && (m > k ==> comps(s[m].place->Path_0).len() < comps(
                        s[k].place->Path_0,
                    ).len())
            },
            None => forall|m: int| #[trigger] is_child(s, i, m) ==> !on_the_way(s[m], target),
        },
{
    lemma_end_from(s, i, i + 1);
    lemma_best_before(s, i, target, s.len() as int);
    lemma_child_at_from(s, i, virtual_root(target), i + 1);
    assert forall|m: int| #[trigger] is_child(s, i, m) && s[m].place is Path && on_the_way(
        s[m],
        target,
    ) implies leads_to(s, i, m, target) by {}
}

/// Whether one node is the other, but for being expanded or having its children on their way.
pub open spec fn opened_up(before: Node, after: Node) -> bool {
    &&& after == (Node { expanded: after.expanded, children: after.children, ..before })
    &&& before.expanded ==> after.expanded
    &&& after.children == before.children || (before.children == Children::Unloaded
        && after.children == Children::Loading)
}

/// Revealing a path goes as far toward it as the tree reaches, over nodes on the way to it, and
/// only expands nodes. It ends at the target itself; or at a node whose children have to be
/// loaded first, which is what is asked for then; or at one whose children are on their way; or
/// where no child leads further.
pub proof fn law_reveal_goes_as_far_as_it_can(s: Seq<Node>, target: Seq<char>)
    requires
        is_tree(s),
    ensures
        ({
            let w = walk_to(s, 0, target);
            let n = s[w.at];
            let there = n.place matches Place::Path(p) && comps(p) == comps(target);
            &&& 0 <= w.at < s.len()
            &&& w.at == 0 || on_the_way(n, target)
            &&& in_view(w.nodes, w.at)
            &&& w.nodes.len() == s.len()
            &&& forall|k: int| 0 <= k < s.len() ==> opened_up(s[k], #[trigger] w.nodes[k])
            &&& match w.outcome {
                Revealed::Load(id, place) => {
                    &&& !there
                    &&& n.children == Children::Unloaded
                    &&& w.nodes[w.at].children == Children::Loading
                    &&& w.nodes[w.at].expanded
                    &&& id == n.id
                    &&& place == n.place
                },
                Revealed::Wait => !there && n.children == Children::Loading
                    && w.nodes[w.at].expanded,
                Revealed::Stop => there || (n.children == Children::Loaded && forall|m: int|
                    #[trigger] is_child(s, w.at, m) ==> !on_the_way(s[m], target)),
            }
        }),
{
    lemma_walk_in_view(s, 0, target);
    lemma_walk_far(s, 0, target);
}

proof fn lemma_walk_far(s: Seq<Node>, i: int, target: Seq<char>)
    requires
        is_tree(s),
        0 <= i < s.len(),
    ensures
        ({
            let w = walk_to(s, i, target);
            let n = s[w.at];
            let there = n.place matches Place::Path(p) && comps(p) == comps(target);
            &&& i <= w.at < s.len()
            &&& w.at == i || on_the_way(n, target)
            &&& w.nodes.len() == s.len()
            &&& forall|k: int| 0 <= k < s.len() ==> opened_up(s[k], #[trigger] w.nodes[k])
            &&& match w.outcome {
                Revealed::Load(id, place) => {
                    &&& !there
                    &&& n.children == Children::Unloaded
                    &&& w.nodes[w.at].children == Children::Loading
                    &&& w.nodes[w.at].expanded
                    &&& id == n.id
                    &&& place == n.place
                },
                Revealed::Wait => !there && n.children == Children::Loading
                    && w.nodes[w.at].expanded,
                Revealed::Stop => there || (n.children == Children::Loaded && forall|m: int|
                    #[trigger] is_child(s, w.at, m) ==> !on_the_way(s[m], target)),
            }
        }),
    decreases s.len() - i,
{
    let open = s.update(i, Node { expanded: true, ..s[i] });
    lemma_same_depths(s, open);
    lemma_ends_agree(s, open);
    if !is_target(s, i, target) && s[i].children == Children::Loaded {
        lemma_next_toward(open, i, target);
        law_way_leads_over_the_closest_folder(open, i, target);
        match next_toward(open, i, target) {
            Some(k) => {
                lemma_walk_far(open, k, target);
                let w = walk_to(open, k, target);
                assert(walk_to(s, i, target) == w);
                assert(open[k].place == s[k].place);
                assert(open[w.at].place == s[w.at].place);
                assert(open[w.at] == s[w.at]);
                assert forall|k: int| 0 <= k < s.len() implies opened_up(
                    s[k],
                    #[trigger] w.nodes[k],
                ) by {
                    assert(opened_up(open[k], w.nodes[k]));
                }
                assert forall|m: int| #[trigger] is_child(s, w.at, m) implies is_child(
                    open,
                    w.at,
                    m,
                ) && open[m] == s[m] by {
                    lemma_end_from(s, w.at, w.at + 1);
                    assert(end_of(open, w.at) == end_of(s, w.at));
                }
            },
            None => {
                assert forall|m: int| #[trigger] is_child(s, i, m) implies !on_the_way(
                    s[m],
                    target,
                ) by {
                    lemma_end_from(s, i, i + 1);
                    assert(end_of(open, i) == end_of(s, i));
                    assert(is_child(open, i, m));
                    assert(open[m] == s[m]);
                }
            },
        }
    }
}

/// The sidebar lists nodes from the top, each once, and each row says what its node says: a
/// mark to expand it stands by a node that has children, or whose children are not known yet.
pub proof fn law_sidebar_rows_stand_for_nodes(s: Seq<Node>)
    ensures
        sidebar(s).len() == shown_from(s, 1).len(),
        forall|a: int, b: int|
            0 <= a < b < shown_from(s, 1).len() ==> #[trigger] shown_from(s, 1)[a]
                < #[trigger] shown_from(s, 1)[b],
        forall|k: int|
            0 <= k < sidebar(s).len() ==> {
                let i = shown_from(s, 1)[k];
                let r = #[trigger] sidebar(s)[k];
                &&& 1 <= i < s.len()
                &&& r.id == s[i].id
                &&& r.label == s[i].label
                &&& r.icon == s[i].icon
                &&& r.place == s[i].place
                &&& r.depth == s[i].depth - 1
                &&& r.expanded == s[i].expanded
                &&& r.expandable <==> (s[i].children != Children::Loaded || (i + 1 < s.len()
                    && s[i + 1].depth > s[i].depth))
            },
{
    lemma_shown_ascends(s, 1);
}

proof fn lemma_shown_ascends(s: Seq<Node>, i: int)
    requires
        0 <= i,
    ensures
        forall|k: int|
            0 <= k < shown_from(s, i).len() ==> i <= #[trigger] shown_from(s, i)[k] < s.len(),
        forall|a: int, b: int|
            0 <= a < b < shown_from(s, i).len() ==> #[trigger] shown_from(s, i)[a]
                < #[trigger] shown_from(s, i)[b],
    decreases s.len() - i,
{
    if i < s.len() {
        lemma_end_from(s, i, i + 1);
        let next = if s[i].expanded {
            i + 1
        } else {
            end_of(s, i)
        };
        lemma_shown_ascends(s, next);
        let rest = shown_from(s, next);
        let all = shown_from(s, i);
        assert(all =~= seq![i] + rest);
        assert forall|k: int| 0 <= k < all.len() implies i <= #[trigger] all[k] < s.len() by {
            if k > 0 {
                assert(all[k] == rest[k - 1]);
            }
        }
        assert forall|a: int, b: int| 0 <= a < b < all.len() implies #[trigger] all[a]
            < #[trigger] all[b] by {
            assert(all[b] == rest[b - 1]);
            if a > 0 {
                assert(all[a] == rest[a - 1]);
            }
        }
    }
}

/// A child becomes a node that says what the child says: its name, its icon, its place, and
/// whether it is expanded. Children that come with it are there; otherwise they are fetched once
/// it is expanded. They follow it directly, one level deeper, and the next child comes behind
/// them.
pub proof fn law_child_becomes_a_node(c: TreeChild, d: int, more: Seq<TreeChild>)
    ensures
        ({
            let s = flat_child(c, d);
            &&& s.len() > 0
            &&& s[0].label == c.label@
            &&& s[0].icon == c.icon@
            &&& s[0].place == c.location@
            &&& s[0].expanded == c.expanded
            &&& s[0].depth == d
            &&& s[0].children == Children::Loaded <==> c.children is Some
            &&& s[0].children == Children::Unloaded <==> c.children is None
            &&& c.children is None ==> s.len() == 1
            &&& c.children matches Some(v) ==> s.skip(1) == flat_children(v@, d + 1)
        }),
        flat_children(more.push(c), d) == flat_children(more, d) + flat_child(c, d),
        flat_children(Seq::<TreeChild>::empty(), d).len() == 0,
{
    let s = flat_child(c, d);
    assert(more.push(c).drop_last() =~= more);
    assert(more.push(c).last() == c);
    if let Some(v) = c.children {
        assert(s.skip(1) =~= flat_children(v@, d + 1));
    }
}

/// Attaching the top level leaves every id unique.
pub proof fn lemma_grafted_ids(s: Seq<Node>, children: Seq<TreeChild>, next: int)
    requires
        is_tree(s),
        ids_unique(s, next),
        next >= 1,
    ensures
        ids_unique(
            grafted(s, 0, numbered(flat_children(children, 1), next)),
            next + flat_children(children, 1).len(),
        ),
{
    lemma_flat_shape(children, 1);
    lemma_grafted_is_tree(s, 0, flat_children(children, 1), next);
}

} // verus!
